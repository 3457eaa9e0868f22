//! Definitions of functions.

use vstd::prelude::*;

use crate::ast::{text_refs, Annotation};
use crate::build_constraints::views;
use crate::context::branches::{BranchModel, DeferTarget, DeferredModel, TargetModel};
use crate::context::declarations::{declare_new_symbol, declared};
use crate::context::deferred_checks::CheckModel;
use crate::context::reports::{ErrorLog, LogModel};
use crate::context::{AnalysisContext, ContextModel, FrameModel};
use crate::decls::with_symbol;
use crate::errors::{AnalysisErrorKind, ErrorModel};
use crate::functions::{FunctionModel, FunctionRef};
use crate::labels::backtraces::{root_trace, LabelBacktrace, LabelBacktraceKind, Trace};
use crate::labels::tags::{LabelTag, SyntheticSlot, TagModel};
use crate::labels::Label;
use crate::locations::{Location, Pinned, PinnedModel, Span, SpanModel};
use crate::ordered::{same_text, Ordered, OrderedSet};
use crate::policy::blanket_directives::{directives_of, BlanketDirective, BlanketDirectiveKind,
    DirectiveModel};
use crate::policy::written_policy;
use crate::symbols::table::{SymbolTable, TableModel};
use crate::symbols::{Symbol, SymbolModel};
use crate::taint::annotations::{parse_supported_directive, resolve_revocation_label,
    supported_directive, AnnotationDirective, AnnotationSite};
use crate::taint::explicit::{declare_zero_values, explicit_of, spans_of, zero_declared};
use crate::taint::funcs::captures::CaptureModel;
use crate::taint::funcs::{params_of, FunctionSummary, ParamDecl, ParamModel, Signature,
    SignatureModel, SummaryModel};
use crate::values::{copy_type, type_of, types_of, values_of, TypeInfo, TypeModel, Value, ValueModel};

verus! {

/// The kind of directive that the annotation of a function amounts to, if it
/// amounts to one.
pub open spec fn own_directive(annotation: Option<&Annotation>) -> Option<BlanketDirectiveKind> {
    match annotation {
        Some(a) => match supported_directive(AnnotationSite::Function, a.directive@) {
            Some(AnnotationDirective::Revoke) => if a.tags@.len() > 0 {
                Some(BlanketDirectiveKind::Revocation)
            } else {
                None
            },
            Some(AnnotationDirective::AllowSink) => Some(BlanketDirectiveKind::AllowSink),
            Some(AnnotationDirective::DenySink) => if a.tags@.len() > 0 {
                Some(BlanketDirectiveKind::DenySink)
            } else {
                None
            },
            _ => None,
        },
        None => None,
    }
}

/// The log once the annotation of a function is read.
pub open spec fn definition_reported(log: LogModel, annotation: Option<&Annotation>) -> LogModel {
    match annotation {
        Some(a) => match supported_directive(AnnotationSite::Function, a.directive@) {
            None => log.with_error(
                ErrorModel::UnknownAnnotationDirective {
                    directive: a.directive@,
                    location: a.location,
                },
            ),
            Some(AnnotationDirective::Revoke) => if a.tags@.len() == 0 {
                log.with_error(ErrorModel::InvalidRevocationSemantics { location: a.location })
            } else {
                log
            },
            Some(AnnotationDirective::DenySink) => if a.tags@.len() == 0 {
                log.with_error(ErrorModel::InvalidDenySinkSemantics { location: a.location })
            } else {
                log
            },
            _ => log,
        },
        None => log,
    }
}

/// The directives that an annotation amounts to, before those of the policy.
pub open spec fn all_directives(
    annotation: Option<&Annotation>,
    policy: Seq<DirectiveModel>,
) -> Seq<DirectiveModel> {
    match own_directive(annotation) {
        Some(kind) => seq![
            DirectiveModel {
                kind,
                label: written_policy(views(annotation->0.tags@)),
                result_selector: Set::<usize>::empty(),
                results: Seq::<usize>::empty(),
                arg_index: None,
                predicate: None,
            },
        ] + policy,
        None => policy,
    }
}

fn read_directive(log: &mut ErrorLog, annotation: Option<&Annotation>) -> (r: Option<
    BlanketDirective,
>)
    ensures
        final(log)@ == definition_reported(old(log)@, annotation),
        match own_directive(annotation) {
            Some(kind) => r is Some && seq![r->0@] == all_directives(
                annotation,
                Seq::<DirectiveModel>::empty(),
            ),
            None => r is None,
        },
{
    let a = match annotation {
        Some(a) => a,
        None => {
            return None;
        },
    };
    let directive = match parse_supported_directive(log, a, AnnotationSite::Function) {
        Some(d) => d,
        None => {
            return None;
        },
    };
    let (kind, label) = match directive {
        AnnotationDirective::Label | AnnotationDirective::Assert => {
            return None;
        },
        AnnotationDirective::Revoke => match resolve_revocation_label(log, a) {
            Some(label) => (BlanketDirectiveKind::Revocation, label),
            None => {
                return None;
            },
        },
        AnnotationDirective::AllowSink | AnnotationDirective::DenySink => {
            let allow = match directive {
                AnnotationDirective::AllowSink => true,
                _ => false,
            };
            if !allow && a.tags.len() == 0 {
                log.report_error(
                    AnalysisErrorKind::InvalidDenySinkSemantics { location: a.location },
                );
                return None;
            }
            let mut label = Label::from_tags(text_refs(&a.tags));
            label.accept_wildcards();
            if allow {
                (BlanketDirectiveKind::AllowSink, label)
            } else {
                (BlanketDirectiveKind::DenySink, label)
            }
        },
    };
    let r = BlanketDirective::new(kind, OrderedSet::new(), None, None, label);
    proof {
        assert(r@.results =~= Seq::<usize>::empty());
        assert(seq![r@] =~= all_directives(annotation, Seq::<DirectiveModel>::empty()));
    }
    Some(r)
}

/// Values that carry nothing, one for each result.
pub open spec fn bottom_outcome(count: nat, at: PinnedModel<Location>) -> Seq<ValueModel> {
    Seq::new(count, |i: int| ValueModel::simple(None, at))
}

/// What is known of a function that has an implementation, before its body is
/// visited: its results carry nothing yet.
pub open spec fn definition(
    func: FunctionModel,
    signature: SignatureModel,
    has_receiver: bool,
    annotation: Option<&Annotation>,
    policy: Seq<DirectiveModel>,
    declared_result_types: Seq<Option<TypeModel>>,
    at: PinnedModel<Location>,
) -> SummaryModel {
    SummaryModel {
        func,
        own: explicit_of(annotation, AnnotationSite::Function, None, at),
        signature: Some(signature),
        has_receiver,
        is_type_constructor: false,
        directives: all_directives(annotation, policy),
        deferred_checks: Seq::<CheckModel>::empty(),
        outcome: Some(bottom_outcome(signature.result_count, at)),
        call_count: 0,
        declared_result_types,
        captures: Seq::<CaptureModel>::empty(),
        yielding: None,
    }
}

/// What is known of a function that has an implementation, before its body is
/// visited. An annotation that has no meaning for one is reported.
pub fn build_function_value(
    log: &mut ErrorLog,
    func: FunctionRef,
    signature: Signature,
    has_receiver: bool,
    annotation: Option<&Annotation>,
    policy: Vec<BlanketDirective>,
    declared_result_types: Vec<Option<TypeInfo>>,
    at: &Pinned<Location>,
) -> (r: FunctionSummary)
    ensures
        r.wf(),
        final(log)@ == definition_reported(old(log)@, annotation),
        r@ == definition(
            func@,
            signature@,
            has_receiver,
            annotation,
            directives_of(policy@),
            types_of(declared_result_types@),
            at@,
        ),
{
    let ghost given = directives_of(policy@);
    let own_one = read_directive(log, annotation);
    let own = match annotation {
        Some(a) => match AnnotationDirective::parse(a.directive.as_str()) {
            Some(AnnotationDirective::Label) => LabelBacktrace::new_root(
                LabelBacktraceKind::ExplicitAnnotation,
                Label::from_tags(text_refs(&a.tags)),
                None,
                at.duplicate(),
            ),
            _ => None,
        },
        None => None,
    };
    let mut directives = policy;
    match own_one {
        Some(d) => {
            directives.insert(0, d);
            proof {
                assert(seq![d@] + given =~= all_directives(annotation, given)) by {
                    assert(seq![d@][0] == all_directives(
                        annotation,
                        Seq::<DirectiveModel>::empty(),
                    )[0]);
                }
                assert(directives_of(directives@) =~= seq![d@] + given);
            }
        },
        None => {},
    }
    let mut outcome: Vec<Value> = Vec::new();
    let n: usize = signature.result_count;
    let mut i: usize = 0;
    while i < n
        invariant
            i <= n,
            outcome@.len() == i,
            forall|k: int| 0 <= k < i ==> (#[trigger] outcome@[k])@ == ValueModel::simple(None, at@),
        decreases n - i,
    {
        outcome.push(Value::from_backtrace_or_bottom_at(None, at));
        i = i + 1;
    }
    proof {
        assert(values_of(outcome@) =~= bottom_outcome(n as nat, at@));
    }
    let mut r = FunctionSummary::new_unknown(func, own, has_receiver);
    r.signature = Some(signature);
    r.directives = directives;
    r.outcome = Some(outcome);
    r.declared_result_types = declared_result_types;
    r
}

/// The names of the parameters, one for each argument, as far as they have one.
pub open spec fn names_of_params(params: Seq<ParamModel>) -> Seq<Option<SpanModel>>
    decreases params.len(),
{
    if params.len() == 0 {
        Seq::<Option<SpanModel>>::empty()
    } else {
        let last = params.last();
        names_of_params(params.drop_last()) + if last.ids.len() == 0 {
            seq![None::<SpanModel>]
        } else {
            last.ids.map_values(|id: SpanModel| Some(id))
        }
    }
}

/// What a list of optional names stands for.
pub open spec fn optional_spans(s: Seq<Option<Span>>) -> Seq<Option<SpanModel>> {
    s.map_values(
        |x: Option<Span>|
            match x {
                Some(id) => Some(id@),
                None => None,
            },
    )
}

fn collect_parameter_names(params: &Vec<ParamDecl>) -> (r: Vec<Option<Span>>)
    ensures
        optional_spans(r@) == names_of_params(params_of(params@)),
{
    let mut r: Vec<Option<Span>> = Vec::new();
    let ghost ps = params_of(params@);
    let n: usize = params.len();
    let mut i: usize = 0;
    proof {
        assert(optional_spans(r@) =~= names_of_params(ps.take(0)));
    }
    while i < n
        invariant
            i <= n,
            n == params@.len(),
            ps == params_of(params@),
            optional_spans(r@) == names_of_params(ps.take(i as int)),
        decreases n - i,
    {
        let ghost before = optional_spans(r@);
        let ghost own = ps[i as int].ids.map_values(|id: SpanModel| Some(id));
        proof {
            assert(ps.take(i + 1).drop_last() =~= ps.take(i as int));
            assert(ps[i as int] == params@[i as int]@);
        }
        let m: usize = params[i].ids.len();
        if m == 0 {
            r.push(None);
            proof {
                assert(optional_spans(r@) =~= before + seq![None::<SpanModel>]);
            }
        } else {
            let mut k: usize = 0;
            proof {
                assert(optional_spans(r@) =~= before + own.take(0));
            }
            while k < m
                invariant
                    k <= m,
                    i < n,
                    n == params@.len(),
                    m == params@[i as int].ids@.len(),
                    ps == params_of(params@),
                    ps[i as int] == params@[i as int]@,
                    own == ps[i as int].ids.map_values(|id: SpanModel| Some(id)),
                    own.len() == m,
                    optional_spans(r@) == before + own.take(k as int),
                decreases m - k,
            {
                let ghost sofar = optional_spans(r@);
                r.push(Some(params[i].ids[k].duplicate()));
                proof {
                    assert(own[k as int] == Some(params@[i as int].ids@[k as int]@));
                    assert(optional_spans(r@) =~= sofar.push(own[k as int]));
                    assert(own.take(k + 1) =~= own.take(k as int).push(own[k as int]));
                }
                k = k + 1;
            }
            proof {
                assert(own.take(m as int) =~= own);
            }
        }
        i = i + 1;
    }
    proof {
        assert(ps.take(n as int) =~= ps);
    }
    r
}

/// What a parameter carries within the function: a placeholder for what will be
/// passed.
pub open spec fn parameter_value(
    func: FunctionModel,
    slot: SyntheticSlot,
    id: SpanModel,
    declared_type: Option<TypeModel>,
    file: Seq<char>,
) -> ValueModel {
    let at = PinnedModel { file, inner: id.location };
    let given = ValueModel::simple(
        root_trace(
            LabelBacktraceKind::FunctionParameter,
            set![TagModel::Synthetic { func, slot }],
            Some(id.content),
            at,
        ),
        at,
    );
    match declared_type {
        Some(t) => ValueModel { declared_type, ..given },
        None => given,
    }
}

/// The state and the table once a parameter is declared. One with the blank
/// name, or without one, declares nothing.
pub open spec fn parameter_declared(
    ctx: ContextModel,
    t: TableModel,
    func: FunctionModel,
    slot: SyntheticSlot,
    id: Option<SpanModel>,
    declared_type: Option<TypeModel>,
) -> (ContextModel, TableModel) {
    match id {
        Some(name) => if name.content == "_"@ {
            (ctx, t)
        } else {
            let declaration = PinnedModel { file: ctx.log.file->0, inner: name };
            let added = with_symbol(
                t,
                SymbolModel {
                    declared_name: declaration,
                    mutable: true,
                    value: parameter_value(func, slot, name, declared_type, ctx.log.file->0),
                    known_const: None,
                },
            );
            (
                ContextModel {
                    log: declared(
                        ctx.log,
                        declaration,
                        added.local_declaration(name.content),
                    ),
                    ..ctx
                },
                added.declaring(name.content, t.symbols.len() as usize),
            )
        },
        None => (ctx, t),
    }
}

/// Declares a parameter, or the receiver, of a function.
pub fn declare_parameter(
    ctx: &mut AnalysisContext,
    table: &mut SymbolTable,
    func: &FunctionRef,
    slot: SyntheticSlot,
    id: Option<&Span>,
    declared_type: &Option<TypeInfo>,
)
    requires
        old(ctx).wf(),
        old(table)@.wf(),
        old(ctx)@.log.file is Some,
    ensures
        final(ctx).wf(),
        final(table)@.wf(),
        final(ctx)@.log.file == old(ctx)@.log.file,
        (final(ctx)@, final(table)@) == parameter_declared(
            old(ctx)@,
            old(table)@,
            func@,
            slot,
            match id {
                Some(name) => Some(name@),
                None => None,
            },
            type_of(*declared_type),
        ),
{
    let name = match id {
        Some(name) => name,
        None => {
            return;
        },
    };
    if same_text(name.content(), "_") {
        return;
    }
    let ghost start = ctx@;
    let ghost t = table@;
    let declaration = ctx.log.pin(name.duplicate());
    let at = declaration.pinned_location();
    let tag = LabelTag::Synthetic {
        func: func.duplicate(),
        slot,
        identifier: Some(name.duplicate()),
    };
    let given = LabelBacktrace::new_root(
        LabelBacktraceKind::FunctionParameter,
        Label::from_single(tag),
        Some(name.content().to_owned()),
        at.duplicate(),
    );
    let mut value = Value::from_backtrace_or_bottom_at(given, &at);
    if declared_type.is_some() {
        value.set_declared_type(copy_type(declared_type));
    }
    proof {
        assert(value@ =~= parameter_value(
            func@,
            slot,
            name@,
            type_of(*declared_type),
            start.log.file->0,
        ));
    }
    let symbol: usize = table.add_symbol(
        Symbol { declared_name: declaration, mutable: true, value, known_const: None },
    );
    declare_new_symbol(&mut ctx.log, table, symbol);
    proof {
        assert(ctx@ =~= parameter_declared(
            start,
            t,
            func@,
            slot,
            Some(name@),
            type_of(*declared_type),
        ).0);
    }
}

/// The state and the table once the first parameters are declared.
pub open spec fn parameters_declared(
    ctx: ContextModel,
    t: TableModel,
    func: FunctionModel,
    names: Seq<Option<SpanModel>>,
    types: Seq<Option<TypeModel>>,
    n: int,
) -> (ContextModel, TableModel)
    decreases n,
{
    if n <= 0 {
        (ctx, t)
    } else {
        let (before, table) = parameters_declared(ctx, t, func, names, types, n - 1);
        parameter_declared(
            before,
            table,
            func,
            SyntheticSlot::Param((n - 1) as usize),
            names[n - 1],
            if n - 1 < types.len() {
                types[n - 1]
            } else {
                None
            },
        )
    }
}

/// Declares the parameters of a function. `types` are their types, as far as
/// they are known.
pub fn declare_parameters(
    ctx: &mut AnalysisContext,
    table: &mut SymbolTable,
    func: &FunctionRef,
    signature: &Signature,
    types: &Vec<Option<TypeInfo>>,
)
    requires
        old(ctx).wf(),
        old(table)@.wf(),
        old(ctx)@.log.file is Some,
    ensures
        final(ctx).wf(),
        final(table)@.wf(),
        final(ctx)@.log.file == old(ctx)@.log.file,
        ({
            let names = names_of_params(signature@.params);
            (final(ctx)@, final(table)@) == parameters_declared(
                old(ctx)@,
                old(table)@,
                func@,
                names,
                types_of(types@),
                names.len() as int,
            )
        }),
{
    let ghost start = ctx@;
    let ghost t = table@;
    let names = collect_parameter_names(&signature.params);
    let ghost all = names_of_params(signature@.params);
    let n: usize = names.len();
    let mut i: usize = 0;
    while i < n
        invariant
            i <= n,
            n == names@.len(),
            all == optional_spans(names@),
            ctx.wf(),
            table@.wf(),
            ctx@.log.file is Some,
            ctx@.log.file == start.log.file,
            (ctx@, table@) == parameters_declared(
                start,
                t,
                func@,
                all,
                types_of(types@),
                i as int,
            ),
        decreases n - i,
    {
        proof {
            assert(all[i as int] == match names@[i as int] {
                Some(id) => Some(id@),
                None => None,
            });
        }
        let declared_type = if i < types.len() {
            proof {
                assert(types_of(types@)[i as int] == type_of(types@[i as int]));
            }
            copy_type(&types[i])
        } else {
            None
        };
        declare_parameter(
            ctx,
            table,
            func,
            SyntheticSlot::Param(i),
            names[i].as_ref(),
            &declared_type,
        );
        i = i + 1;
    }
}

/// Names for results of one type.
#[derive(Debug)]
pub struct NamedResults {
    /// The names.
    pub ids: Vec<Span>,
    /// The type, if it is known.
    pub declared_type: Option<TypeInfo>,
}

/// The state and the table once the first named results are declared.
pub open spec fn results_bound(
    ctx: ContextModel,
    t: TableModel,
    results: Seq<NamedResults>,
    n: int,
) -> (ContextModel, TableModel)
    decreases n,
{
    if n <= 0 {
        (ctx, t)
    } else {
        let (before, table) = results_bound(ctx, t, results, n - 1);
        let last = results[n - 1];
        zero_declared(
            before,
            table,
            spans_of(last.ids@),
            true,
            type_of(last.declared_type),
            None,
            last.ids@.len() as int,
        )
    }
}

proof fn lemma_zeros_keep_file(
    ctx: ContextModel,
    t: TableModel,
    ids: Seq<SpanModel>,
    declared_type: Option<TypeModel>,
    n: int,
)
    ensures
        zero_declared(ctx, t, ids, true, declared_type, None, n).0.log.file == ctx.log.file,
    decreases n,
{
    if n > 0 {
        lemma_zeros_keep_file(ctx, t, ids, declared_type, n - 1);
    }
}

/// Declares the named results of a function, which carry nothing yet.
pub fn bind_named_result_locals(
    ctx: &mut AnalysisContext,
    table: &mut SymbolTable,
    results: &Vec<NamedResults>,
)
    requires
        old(ctx).wf(),
        old(table)@.wf(),
        old(ctx)@.log.file is Some,
    ensures
        final(ctx).wf(),
        final(table)@.wf(),
        final(ctx)@.log.file == old(ctx)@.log.file,
        (final(ctx)@, final(table)@) == results_bound(
            old(ctx)@,
            old(table)@,
            results@,
            results@.len() as int,
        ),
{
    let ghost start = ctx@;
    let ghost t = table@;
    let n: usize = results.len();
    let mut i: usize = 0;
    while i < n
        invariant
            i <= n,
            n == results@.len(),
            ctx.wf(),
            table@.wf(),
            ctx@.log.file is Some,
            ctx@.log.file == start.log.file,
            (ctx@, table@) == results_bound(start, t, results@, i as int),
        decreases n - i,
    {
        let one = &results[i];
        proof {
            lemma_zeros_keep_file(
                ctx@,
                table@,
                spans_of(one.ids@),
                type_of(one.declared_type),
                one.ids@.len() as int,
            );
        }
        declare_zero_values(ctx, table, &one.ids, true, &one.declared_type, &None);
        i = i + 1;
    }
}

/// What stands, within a function, for what decides whether it is called.
pub open spec fn call_site_branch(func: FunctionModel, at: PinnedModel<Location>) -> Trace {
    Trace {
        kind: LabelBacktraceKind::Branch,
        label: set![TagModel::Synthetic { func, slot: SyntheticSlot::CallSiteBranch }],
        symbol: None,
        location: at,
        children: Seq::<Trace>::empty(),
    }
}

/// The state once the body of a function is entered. All that is done there
/// depends on whether the function is called, except in the function with which
/// a program starts.
pub open spec fn body_entered(
    ctx: ContextModel,
    func: FunctionModel,
    at: PinnedModel<Location>,
) -> ContextModel {
    let branches = if func.is_main() {
        ctx.branches
    } else {
        ctx.branches.entered(call_site_branch(func, at))
    };
    ContextModel {
        branches: BranchModel { depth: (branches.depth + 1) as nat, ..branches },
        funcs: ctx.funcs.push(FrameModel { func, checks: Seq::<CheckModel>::empty() }),
        ..ctx
    }
}

/// Enters the body of a function.
pub fn enter_body(ctx: &mut AnalysisContext, func: &FunctionRef, at: &Pinned<Location>)
    requires
        old(ctx).wf(),
        old(ctx)@.branches.depth < 255,
    ensures
        final(ctx).wf(),
        final(ctx)@ == body_entered(old(ctx)@, func@, at@),
{
    let ghost start = ctx@;
    if !func.is_main() {
        let tag = LabelTag::Synthetic {
            func: func.duplicate(),
            slot: SyntheticSlot::CallSiteBranch,
            identifier: None,
        };
        let ghost label = set![tag@];
        let given = LabelBacktrace::new_root(
            LabelBacktraceKind::Branch,
            Label::from_single(tag),
            None,
            at.duplicate(),
        );
        proof {
            assert(label.contains(tag@));
        }
        match given {
            Some(b) => {
                proof {
                    assert(b@ == call_site_branch(func@, at@));
                }
                ctx.branches.push_branch_backtrace(b);
            },
            None => {
                proof {
                    assert(false);
                }
            },
        }
    }
    ctx.push_function(func.duplicate());
    ctx.branches.increase_branch_scope_depth();
    proof {
        assert(ctx@ =~= body_entered(start, func@, at@));
    }
}

/// The state once the body of a function is left.
pub open spec fn body_left(ctx: ContextModel, func: FunctionModel) -> ContextModel {
    let branches = (BranchModel {
        depth: (ctx.branches.depth - 1) as nat,
        ..ctx.branches
    }).triggered(TargetModel::Function);
    ContextModel {
        branches: if func.is_main() {
            branches
        } else {
            branches.left()
        },
        funcs: if ctx.funcs.len() > 0 {
            ctx.funcs.drop_last()
        } else {
            ctx.funcs
        },
        ..ctx
    }
}

/// The checks that were put off in the function under declaration.
pub open spec fn checks_put_off(ctx: ContextModel) -> Seq<CheckModel> {
    if ctx.funcs.len() > 0 {
        ctx.funcs.last().checks
    } else {
        Seq::<CheckModel>::empty()
    }
}

/// Leaves the body of a function. The checks that were put off in it will be
/// made whenever the function is called.
pub fn leave_body(
    ctx: &mut AnalysisContext,
    table: &mut SymbolTable,
    func: &FunctionRef,
    function: usize,
)
    requires
        old(ctx).wf(),
        old(table)@.wf(),
        function < old(table)@.functions.len(),
        old(ctx)@.branches.depth > 0,
    ensures
        final(ctx).wf(),
        final(table)@.wf(),
        final(ctx)@ == body_left(old(ctx)@, func@),
        final(table)@ == (TableModel {
            functions: old(table)@.functions.update(
                function as int,
                SummaryModel {
                    deferred_checks: checks_put_off(old(ctx)@),
                    ..old(table)@.functions[function as int]
                },
            ),
            ..old(table)@
        }),
{
    let ghost start = ctx@;
    ctx.branches.decrease_branch_scope_depth();
    ctx.branches.trigger_defer_target(DeferTarget::Function);
    let checks = match ctx.pop_function() {
        Some(frame) => frame.checks,
        None => Vec::new(),
    };
    proof {
        assert(crate::context::deferred_checks::checks_of(checks@) =~= checks_put_off(start));
    }
    table.set_deferred_checks(function, checks);
    if !func.is_main() {
        ctx.branches.pop_branch_backtrace();
    }
    proof {
        assert(ctx@ =~= body_left(start, func@));
    }
}

/// The state once the body of an `init` function is entered, which is executed
/// directly: nothing decides whether that is done.
pub open spec fn init_entered(ctx: ContextModel, func: FunctionModel) -> ContextModel {
    ContextModel {
        branches: BranchModel { depth: (ctx.branches.depth + 1) as nat, ..ctx.branches },
        funcs: ctx.funcs.push(FrameModel { func, checks: Seq::<CheckModel>::empty() }),
        ..ctx
    }
}

/// The state once the body of an `init` function is left.
pub open spec fn init_left(ctx: ContextModel) -> ContextModel {
    ContextModel {
        branches: (BranchModel {
            depth: (ctx.branches.depth - 1) as nat,
            ..ctx.branches
        }).triggered(TargetModel::Function),
        funcs: if ctx.funcs.len() > 0 {
            ctx.funcs.drop_last()
        } else {
            ctx.funcs
        },
        ..ctx
    }
}

/// Enters the body of an `init` function.
pub fn enter_init_function(ctx: &mut AnalysisContext, func: FunctionRef)
    requires
        old(ctx).wf(),
        old(ctx)@.branches.depth < 255,
    ensures
        final(ctx).wf(),
        final(ctx)@ == init_entered(old(ctx)@, func@),
{
    let ghost start = ctx@;
    let ghost f = func@;
    ctx.push_function(func);
    ctx.branches.increase_branch_scope_depth();
    proof {
        assert(ctx@ =~= init_entered(start, f));
    }
}

/// Leaves the body of an `init` function.
pub fn leave_init_function(ctx: &mut AnalysisContext)
    requires
        old(ctx).wf(),
        old(ctx)@.branches.depth > 0,
    ensures
        final(ctx).wf(),
        final(ctx)@ == init_left(old(ctx)@),
{
    let ghost start = ctx@;
    ctx.branches.decrease_branch_scope_depth();
    ctx.branches.trigger_defer_target(DeferTarget::Function);
    let _frame = ctx.pop_function();
    proof {
        assert(ctx@ =~= init_left(start));
    }
}

proof fn lemma_filter_keeps_all(s: Seq<DeferredModel>, keep: spec_fn(DeferredModel) -> bool)
    requires
        forall|i: int| 0 <= i < s.len() ==> keep(#[trigger] s[i]),
    ensures
        s.filter(keep) == s,
    decreases s.len(),
{
    reveal(Seq::filter);
    if s.len() > 0 {
        lemma_filter_keeps_all(s.drop_last(), keep);
        assert(s.drop_last().push(s.last()) =~= s);
    } else {
        assert(s.filter(keep) =~= s);
    }
}

/// A function whose body does nothing leaves the analysis where it was, if all
/// that is still put off waits for something outside of the function.
pub proof fn law_bodies_are_left(ctx: ContextModel, func: FunctionModel, at: PinnedModel<Location>)
    requires
        ctx.branches.is_settled(),
        forall|i: int|
            0 <= i < ctx.branches.deferred.len() ==> ctx.branches.outlasts(
                #[trigger] ctx.branches.deferred[i],
                TargetModel::Function,
            ),
    ensures
        body_left(body_entered(ctx, func, at), func) == ctx,
{
    let inside = body_entered(ctx, func, at);
    let after = body_left(inside, func);
    assert(inside.funcs.drop_last() =~= ctx.funcs);
    let ended = BranchModel { depth: ctx.branches.depth, ..inside.branches };
    lemma_filter_keeps_all(
        ctx.branches.deferred,
        |d: DeferredModel| ended.outlasts(d, TargetModel::Function),
    );
    if !func.is_main() {
        assert(inside.branches.stack.drop_last() =~= ctx.branches.stack);
    }
    assert(after.branches =~= ctx.branches);
    assert(after =~= ctx);
}

} // verus!
