//! Names in expressions.

use vstd::prelude::*;

use crate::context::reports::{ErrorLog, LogModel};
use crate::errors::{AnalysisErrorKind, ErrorModel};
use crate::functions::{FunctionModel, FunctionRef};
use crate::labels::backtraces::{listed, root_trace, trace_of, traces_of, LabelBacktrace,
    LabelBacktraceKind, Trace};
use crate::labels::tags::TagModel;
use crate::labels::{joined, Label};
use crate::locations::{Location, Pinned, PinnedModel, Span, SpanModel};
use crate::ordered::Ordered;
use crate::policy::blanket_directives::{directives_of, BlanketDirective, BlanketDirectiveKind,
    DirectiveModel};
use crate::symbols::table::packages::QualifiedSymbolResolutionResult;
use crate::symbols::table::{is_exported, lemma_in_package_in_range, lemma_resolved_in_range,
    SymbolTable, TableModel};
use crate::taint::funcs::{unknown_function, FunctionSummary, SummaryModel};
use crate::values::{relieved, FormModel, Value, ValueForm, ValueModel};

verus! {

impl DirectiveModel {
    /// Whether only a call tells whether, or for which results, the directive
    /// applies.
    pub open spec fn waits_for_call(self) -> bool {
        self.predicate is Some || self.result_selector != Set::<usize>::empty()
    }
}

/// The labels of the directives of a kind, all together. Directives that only
/// apply to calls may be left out.
pub open spec fn directives_label(
    directives: Seq<DirectiveModel>,
    kind: BlanketDirectiveKind,
    with_calls: bool,
    n: int,
) -> Set<TagModel>
    decreases n,
{
    if n <= 0 {
        Set::<TagModel>::empty()
    } else {
        let before = directives_label(directives, kind, with_calls, n - 1);
        let d = directives[n - 1];
        if d.kind == kind && (with_calls || !d.waits_for_call()) {
            joined(before, d.label)
        } else {
            before
        }
    }
}

/// The labels of the directives of a kind, all together.
pub fn sum_directive_labels(
    directives: &Vec<BlanketDirective>,
    kind: BlanketDirectiveKind,
    with_calls: bool,
) -> (r: Label)
    ensures
        r.wf(),
        r@ == directives_label(directives_of(directives@), kind, with_calls, directives@.len() as int),
{
    let mut sum = Label::Bottom;
    let n: usize = directives.len();
    let mut i: usize = 0;
    while i < n
        invariant
            i <= n,
            n == directives@.len(),
            sum.wf(),
            sum@ == directives_label(directives_of(directives@), kind, with_calls, i as int),
        decreases n - i,
    {
        let directive = &directives[i];
        if directive.kind() == kind && (with_calls || !directive.should_resolve_at_call_time()) {
            sum = sum.union(directive.label());
        }
        i = i + 1;
    }
    sum
}

/// What directives say that a symbol or a member yields.
pub open spec fn blanket_source(
    directives: Seq<DirectiveModel>,
    with_calls: bool,
    at: PinnedModel<Location>,
) -> Option<Trace> {
    root_trace(
        LabelBacktraceKind::BlanketSource,
        directives_label(
            directives,
            BlanketDirectiveKind::Source,
            with_calls,
            directives.len() as int,
        ),
        None,
        at,
    )
}

/// What directives say that a symbol or a member yields.
pub fn build_blanket_source_backtrace(
    directives: &Vec<BlanketDirective>,
    with_calls: bool,
    at: &Pinned<Location>,
) -> (r: Option<LabelBacktrace>)
    ensures
        trace_of(r) == blanket_source(directives_of(directives@), with_calls, at@),
{
    LabelBacktrace::new_root(
        LabelBacktraceKind::BlanketSource,
        sum_directive_labels(directives, BlanketDirectiveKind::Source, with_calls),
        None,
        at.duplicate(),
    )
}

/// The value of a name: that of its symbol, with what directives say that it
/// yields, and without what they take away.
pub open spec fn operand_value(
    value: ValueModel,
    name: Seq<char>,
    directives: Seq<DirectiveModel>,
    at: PinnedModel<Location>,
) -> ValueModel {
    relieved(
        ValueModel {
            location: at,
            ..value.nesting(
                LabelBacktraceKind::Expression,
                Some(name),
                at,
                listed(blanket_source(directives, false, at)),
            )
        },
        directives_label(
            directives,
            BlanketDirectiveKind::Revocation,
            false,
            directives.len() as int,
        ),
    )
}

/// The value of a name, whose symbol has a given one.
pub fn visit_operand_name_with_value(
    value: Value,
    name: &Span,
    directives: &Vec<BlanketDirective>,
    at: &Pinned<Location>,
) -> (r: Value)
    ensures
        r@ == operand_value(value@, name@.content, directives_of(directives@), at@),
{
    let source = build_blanket_source_backtrace(directives, false, at);
    let ghost t = trace_of(source);
    let mut more: Vec<LabelBacktrace> = Vec::new();
    if let Some(b) = source {
        more.push(b);
    }
    proof {
        assert(traces_of(more@) =~= listed(t));
    }
    let revocation = sum_directive_labels(directives, BlanketDirectiveKind::Revocation, false);
    let mut r = value;
    r.nest_backtrace(
        LabelBacktraceKind::Expression,
        Some(name.content().to_owned()),
        at.duplicate(),
        &more,
    );
    r.set_location(at.duplicate());
    r.subtract_label(&revocation);
    r
}

/// What a name stands for.
#[derive(Clone, Copy, Debug, PartialEq, Eq, Structural)]
pub enum ResolvedOperand {
    /// A package, which is imported under the name.
    Package,
    /// A symbol, given by its position.
    Symbol(usize),
    /// Something that may come from a package whose source is not available, of
    /// which all names are imported.
    Unavailable,
    /// Something of a package whose source is not available, of which the
    /// policy says something.
    Blackbox,
    /// Nothing that is known.
    Unknown,
}

impl TableModel {
    /// Whether a name may come from a package whose source is not available, of
    /// which all names are imported.
    pub open spec fn may_be_unavailable(self, name: Seq<char>) -> bool {
        is_exported(name) && exists|i: int|
            0 <= i < self.wildcard_imports.len() && self.known(
                #[trigger] self.wildcard_imports[i],
            ) is None
    }

    /// What a name stands for, behind a qualifier or alone. A symbol shadows a
    /// package that is imported under the same name.
    pub open spec fn operand(
        self,
        name: Seq<char>,
        qualifier: Option<Seq<char>>,
        in_policy: bool,
    ) -> ResolvedOperand {
        match qualifier {
            Some(q) => match self.qualified(q, name) {
                QualifiedSymbolResolutionResult::Success(s) => ResolvedOperand::Symbol(s),
                QualifiedSymbolResolutionResult::PendingAnalysis => if in_policy {
                    ResolvedOperand::Blackbox
                } else {
                    ResolvedOperand::Unknown
                },
                _ => ResolvedOperand::Unknown,
            },
            None => match self.resolved(Some(self.current), name) {
                Some(s) => ResolvedOperand::Symbol(s),
                None => if self.named_imports.dom().contains(name) {
                    ResolvedOperand::Package
                } else if self.may_be_unavailable(name) {
                    ResolvedOperand::Unavailable
                } else {
                    ResolvedOperand::Unknown
                },
            },
        }
    }

    /// The log once it is found out what a name stands for.
    pub open spec fn operand_reported(
        self,
        log: LogModel,
        name: SpanModel,
        qualifier: Option<SpanModel>,
    ) -> LogModel {
        match qualifier {
            Some(q) => match self.qualified(q.content, name.content) {
                QualifiedSymbolResolutionResult::UnknownSymbol => log.with_error(
                    ErrorModel::UnknownSymbol { found: name },
                ),
                QualifiedSymbolResolutionResult::UnknownQualifier => log.with_error(
                    ErrorModel::UnknownQualifier { found: q },
                ),
                _ => log,
            },
            None => if self.operand(name.content, None, false) is Unknown {
                log.with_error(ErrorModel::UnknownSymbol { found: name })
            } else {
                log
            },
        }
    }
}

/// Whether directives say something of a call: they take labels away, are
/// sinks, or only apply to calls.
pub open spec fn any_callable(directives: Seq<DirectiveModel>) -> bool {
    exists|i: int|
        0 <= i < directives.len() && is_callable(#[trigger] directives[i])
}

/// Whether a directive says something of a call.
pub open spec fn is_callable(d: DirectiveModel) -> bool {
    d.kind is Revocation || d.kind.is_sink() || d.waits_for_call()
}

/// Whether directives say something of a call.
pub fn has_callable_directives(directives: &Vec<BlanketDirective>) -> (r: bool)
    ensures
        r == any_callable(directives_of(directives@)),
{
    let n: usize = directives.len();
    let mut i: usize = 0;
    while i < n
        invariant
            i <= n,
            n == directives@.len(),
            forall|k: int| 0 <= k < i ==> !is_callable((#[trigger] directives@[k])@),
        decreases n - i,
    {
        let checks = match directives[i].kind() {
            BlanketDirectiveKind::Revocation
            | BlanketDirectiveKind::AllowSink
            | BlanketDirectiveKind::DenySink => true,
            BlanketDirectiveKind::Source => false,
        };
        if checks || directives[i].should_resolve_at_call_time() {
            proof {
                assert(is_callable(directives_of(directives@)[i as int]));
            }
            return true;
        }
        i = i + 1;
    }
    false
}

impl SymbolTable {
    /// Whether a name may come from a package whose source is not available, of
    /// which all names are imported.
    pub fn may_resolve_from_unavailable_wildcard_import(&self, name: &str) -> (r: bool)
        requires
            self@.wf(),
        ensures
            r == self@.may_be_unavailable(name@),
    {
        if name.unicode_len() == 0 || !crate::text::is_uppercase(name.get_char(0)) {
            return false;
        }
        let n: usize = self.wildcard_import_count();
        let mut i: usize = 0;
        while i < n
            invariant
                i <= n,
                n == self@.wildcard_imports.len(),
                is_exported(name@),
                forall|k: int|
                    0 <= k < i ==> self@.known(#[trigger] self@.wildcard_imports[k]) is Some,
            decreases n - i,
        {
            if !self.is_package_known(self.wildcard_import(i)) {
                return true;
            }
            i = i + 1;
        }
        false
    }

    /// Finds out what a name stands for, behind a qualifier or alone, and
    /// reports one that stands for nothing.
    pub fn resolve_operand_name(
        &self,
        log: &mut ErrorLog,
        name: &Span,
        qualifier: Option<&Span>,
        directives: &Vec<BlanketDirective>,
    ) -> (r: ResolvedOperand)
        requires
            self@.wf(),
        ensures
            r == self@.operand(
                name@.content,
                match qualifier {
                    Some(q) => Some(q@.content),
                    None => None,
                },
                any_callable(directives_of(directives@)),
            ),
            r matches ResolvedOperand::Symbol(s) ==> s < self@.symbols.len(),
            final(log)@ == self@.operand_reported(
                old(log)@,
                name@,
                match qualifier {
                    Some(q) => Some(q@),
                    None => None,
                },
            ),
    {
        match qualifier {
            Some(q) => {
                proof {
                    lemma_in_package_in_range(
                        self@,
                        self@.named_imports[q@.content],
                        name@.content,
                    );
                }
                match self.get_qualified_symbol(q.content(), name.content()) {
                    QualifiedSymbolResolutionResult::Success(s) => ResolvedOperand::Symbol(s),
                    QualifiedSymbolResolutionResult::UnknownSymbol => {
                        log.report_error(
                            AnalysisErrorKind::UnknownSymbol { found: name.duplicate() },
                        );
                        ResolvedOperand::Unknown
                    },
                    QualifiedSymbolResolutionResult::PendingAnalysis => {
                        if has_callable_directives(directives) {
                            ResolvedOperand::Blackbox
                        } else {
                            ResolvedOperand::Unknown
                        }
                    },
                    QualifiedSymbolResolutionResult::UnknownQualifier => {
                        log.report_error(
                            AnalysisErrorKind::UnknownQualifier { found: q.duplicate() },
                        );
                        ResolvedOperand::Unknown
                    },
                }
            },
            None => {
                proof {
                    lemma_resolved_in_range(self@, Some(self@.current), name@.content);
                }
                match self.get_symbol(name.content()) {
                    Some(s) => ResolvedOperand::Symbol(s),
                    None => {
                        if self.qualifier_exists(name.content()) {
                            ResolvedOperand::Package
                        } else if self.may_resolve_from_unavailable_wildcard_import(
                            name.content(),
                        ) {
                            ResolvedOperand::Unavailable
                        } else {
                            log.report_error(
                                AnalysisErrorKind::UnknownSymbol { found: name.duplicate() },
                            );
                            ResolvedOperand::Unknown
                        }
                    },
                }
            },
        }
    }
}

/// The path of the package to which directives for a name belong: that of its
/// qualifier, or that of what is predeclared.
pub open spec fn operand_package(
    t: TableModel,
    name: Seq<char>,
    qualifier: Option<Seq<char>>,
) -> Option<Seq<char>> {
    match qualifier {
        Some(q) => if t.named_imports.dom().contains(q) {
            Some(t.named_imports[q])
        } else {
            None
        },
        None => if t.scopes[0].symbols.dom().contains(name) && t.resolved(Some(t.current), name)
            == Some(t.scopes[0].symbols[name]) {
            Some("builtin"@)
        } else {
            None
        },
    }
}

impl SymbolTable {
    /// The path of the package to which directives for a name belong, if the
    /// name alone tells.
    pub fn package_path_for_operand(&self, name: &str, qualifier: Option<&str>) -> (r: Option<
        String,
    >)
        requires
            self@.wf(),
        ensures
            match operand_package(
                self@,
                name@,
                match qualifier {
                    Some(q) => Some(q@),
                    None => None,
                },
            ) {
                Some(p) => r is Some && r->0@ == p,
                None => r is None,
            },
    {
        match qualifier {
            Some(q) => match self.package_path_for_qualifier(q) {
                Some(path) => Some(path.clone()),
                None => None,
            },
            None => {
                if self.resolves_to_predeclared(name) {
                    Some("builtin".to_owned())
                } else {
                    None
                }
            },
        }
    }
}

/// A function of which nothing is known but what the policy says of it.
pub open spec fn blackbox_function(
    at: PinnedModel<Location>,
    directives: Seq<DirectiveModel>,
) -> SummaryModel {
    unknown_function(FunctionModel::BlackboxInference(at), None, false).absorbing(directives)
}

/// The table once a value is accessed, and the value: a function of which the
/// policy says something more than what is known of it becomes one of its own.
pub open spec fn accessed(
    t: TableModel,
    v: ValueModel,
    directives: Seq<DirectiveModel>,
) -> (TableModel, ValueModel) {
    match v.form {
        FormModel::Function(f) => if f < t.functions.len() && t.functions[f as int].absorbing(
            directives,
        ).directives.len() > t.functions[f as int].directives.len() {
            (
                TableModel {
                    functions: t.functions.push(t.functions[f as int].absorbing(directives)),
                    ..t
                },
                ValueModel { form: FormModel::Function(t.functions.len() as usize), ..v },
            )
        } else {
            (t, v)
        },
        _ => (t, v),
    }
}

fn access_function(
    table: &mut SymbolTable,
    value: Value,
    directives: &Vec<BlanketDirective>,
) -> (r: Value)
    requires
        old(table)@.wf(),
    ensures
        final(table)@.wf(),
        (final(table)@, r@) == accessed(old(table)@, value@, directives_of(directives@)),
{
    let mut value = value;
    let f: usize = match &value.form {
        ValueForm::Function(f) => *f,
        _ => {
            return value;
        },
    };
    let count: usize = table.function_count();
    if f >= count {
        return value;
    }
    let mut copy = table.function(f).duplicate();
    let known: usize = copy.directives.len();
    copy.absorb_blanket_directives(directives);
    if copy.directives.len() > known {
        table.add_function(copy);
        proof {
            value.lemma_parts();
        }
        value.form = ValueForm::Function(count);
        proof {
            value.lemma_parts();
        }
    }
    value
}

/// A value with a form, which carries nothing.
pub open spec fn formed(form: FormModel, at: PinnedModel<Location>) -> ValueModel {
    ValueModel { form, ..ValueModel::simple(None, at) }
}

/// The table once a name is evaluated, and the value of the name.
pub open spec fn operand_visited(
    t: TableModel,
    name: SpanModel,
    qualifier: Option<SpanModel>,
    directives: Seq<DirectiveModel>,
    at: PinnedModel<Location>,
) -> (TableModel, ValueModel) {
    let found = t.operand(
        name.content,
        match qualifier {
            Some(q) => Some(q.content),
            None => None,
        },
        any_callable(directives),
    );
    match found {
        ResolvedOperand::Package => (t, formed(FormModel::Package(name.content), at)),
        ResolvedOperand::Symbol(s) => accessed(
            t,
            operand_value(t.symbols[s as int].value, name.content, directives, at),
            directives,
        ),
        ResolvedOperand::Blackbox => (
            TableModel { functions: t.functions.push(blackbox_function(at, directives)), ..t },
            operand_value(
                formed(FormModel::Function(t.functions.len() as usize), at),
                name.content,
                directives,
                at,
            ),
        ),
        ResolvedOperand::Unavailable | ResolvedOperand::Unknown => (
            t,
            operand_value(ValueModel::simple(None, at), name.content, directives, at),
        ),
    }
}

/// Evaluates a name, behind a qualifier or alone. `directives` are those that
/// the policy has for it.
pub fn visit_operand_name(
    log: &mut ErrorLog,
    table: &mut SymbolTable,
    name: &Span,
    qualifier: Option<&Span>,
    directives: &Vec<BlanketDirective>,
) -> (r: Value)
    requires
        old(table)@.wf(),
        old(log)@.file is Some,
    ensures
        final(table)@.wf(),
        ({
            let q = match qualifier {
                Some(q) => Some(q@),
                None => None,
            };
            let at = PinnedModel { file: old(log)@.file->0, inner: name@.location };
            &&& final(log)@ == old(table)@.operand_reported(old(log)@, name@, q)
            &&& (final(table)@, r@) == operand_visited(
                old(table)@,
                name@,
                q,
                directives_of(directives@),
                at,
            )
        }),
{
    let at = log.pin(name.location);
    let found = table.resolve_operand_name(log, name, qualifier, directives);
    match found {
        ResolvedOperand::Package => {
            let r = Value::new(
                ValueForm::Package(name.content().to_owned()),
                None,
                at.duplicate(),
                None,
                Vec::new(),
            );
            proof {
                assert(r@.parts =~= Seq::<ValueModel>::empty());
                assert(r@ =~= formed(FormModel::Package(name@.content), at@));
            }
            r
        },
        ResolvedOperand::Symbol(s) => {
            let value = table.symbol(s).value.clone();
            let value = visit_operand_name_with_value(value, name, directives, &at);
            access_function(table, value, directives)
        },
        ResolvedOperand::Unavailable | ResolvedOperand::Unknown => {
            let value = Value::from_backtrace_or_bottom_at(None, &at);
            visit_operand_name_with_value(value, name, directives, &at)
        },
        ResolvedOperand::Blackbox => {
            let function: usize = table.function_count();
            let value = Value::new(
                ValueForm::Function(function),
                None,
                at.duplicate(),
                None,
                Vec::new(),
            );
            proof {
                assert(value@.parts =~= Seq::<ValueModel>::empty());
                assert(value@ =~= formed(FormModel::Function(function), at@));
            }
            let r = visit_operand_name_with_value(value, name, directives, &at);
            let mut summary = FunctionSummary::new_unknown(
                FunctionRef::BlackboxInference(at),
                None,
                false,
            );
            summary.absorb_blanket_directives(directives);
            table.add_function(summary);
            r
        },
    }
}

} // verus!
