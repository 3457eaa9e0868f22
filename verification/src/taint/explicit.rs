//! Declarations and assignments.

use vstd::prelude::*;

use crate::ast::{text_refs, Annotation};
use crate::build_constraints::views;
use crate::context::declarations::{declare_new_symbol, declared, SplitRegions};
use crate::context::{AnalysisContext, ContextModel};
use crate::errors::{AnalysisErrorKind, ErrorModel};
use crate::labels::backtraces::{root_trace, trace_of, LabelBacktrace, LabelBacktraceKind, Trace};
use crate::labels::tags::{text_of, TagModel};
use crate::labels::{label_views, written, Label};
use crate::locations::{lies_within, location_precedence, Location, Pinned, PinnedModel, Span,
    SpanModel};
use crate::ordered::{same_text, Order, Ordered};
use crate::policy::targets::SimpleConstValue;
use crate::policy::{written_policy, SinkDescriptor, SinkKind, SinkModel};
use crate::symbols::table::{SymbolTable, TableModel};
use crate::symbols::{const_of, Symbol, SymbolModel};
use crate::taint::annotations::{parse_supported_directive, resolve_revocation_label,
    supported_directive, AnnotationDirective, AnnotationSite};
use crate::taint::funcs::call_checks::{args_asserted, args_at_sink, can_judge, flows_of,
    same_place, trigger_assertion_for_args, trigger_sink_for_args, written_sequence};
use crate::taint::mutation::{Assignment, AssignmentModel, LeftModel, LeftValue, StepModel};
use crate::values::{carried, copy_type, type_of, TypeInfo, TypeModel, Value, ValueModel};

verus! {

/// The state after the annotation of something that is given values has been
/// read, and these have reached what it declares.
pub open spec fn annotated(
    ctx: ContextModel,
    annotation: Option<&Annotation>,
    site: AnnotationSite,
    sink_kind: SinkKind,
    flows: Seq<Option<Trace>>,
    location: Location,
) -> ContextModel {
    match annotation {
        None => ctx,
        Some(a) => match supported_directive(site, a.directive@) {
            None => ContextModel {
                log: ctx.log.with_error(
                    ErrorModel::UnknownAnnotationDirective {
                        directive: a.directive@,
                        location: a.location,
                    },
                ),
                ..ctx
            },
            Some(AnnotationDirective::Label) => ctx,
            Some(AnnotationDirective::Revoke) => if a.tags@.len() == 0 {
                ContextModel {
                    log: ctx.log.with_error(
                        ErrorModel::InvalidRevocationSemantics { location: a.location },
                    ),
                    ..ctx
                }
            } else {
                ctx
            },
            Some(AnnotationDirective::Assert) => args_asserted(
                ctx,
                written_sequence(views(a.tags@)),
                flows,
                location,
                flows.len() as int,
            ),
            Some(directive) => if directive is DenySink && a.tags@.len() == 0 {
                ContextModel {
                    log: ctx.log.with_error(
                        ErrorModel::InvalidDenySinkSemantics { location: a.location },
                    ),
                    ..ctx
                }
            } else {
                args_at_sink(
                    ctx,
                    SinkModel {
                        kind: sink_kind,
                        allow: directive is AllowSink,
                        label: written_policy(views(a.tags@)),
                        location,
                    },
                    None,
                    flows,
                    flows.len() as int,
                )
            },
        },
    }
}

/// What an annotation adds to a value.
pub open spec fn explicit_of(
    annotation: Option<&Annotation>,
    site: AnnotationSite,
    symbol: Option<Seq<char>>,
    at: PinnedModel<Location>,
) -> Option<Trace> {
    match annotation {
        Some(a) => if supported_directive(site, a.directive@) == Some(AnnotationDirective::Label) {
            root_trace(
                LabelBacktraceKind::ExplicitAnnotation,
                written(views(a.tags@)),
                symbol,
                at,
            )
        } else {
            None
        },
        None => None,
    }
}

/// What an annotation takes away from a value.
pub open spec fn subtract_of(annotation: Option<&Annotation>, site: AnnotationSite) -> Set<
    TagModel,
> {
    match annotation {
        Some(a) => if supported_directive(site, a.directive@) == Some(AnnotationDirective::Revoke)
            && a.tags@.len() > 0 {
            written_policy(views(a.tags@))
        } else {
            Set::<TagModel>::empty()
        },
        None => Set::<TagModel>::empty(),
    }
}

/// Reads the annotation of something that is given values, and lets these reach
/// what it declares. Returns what it adds to the values and what it takes away
/// from them.
pub fn apply_value_annotation(
    ctx: &mut AnalysisContext,
    annotation: Option<&Annotation>,
    site: AnnotationSite,
    sink_kind: SinkKind,
    symbol: Option<String>,
    backtraces: &Vec<Option<LabelBacktrace>>,
    location: Location,
) -> (r: (Option<LabelBacktrace>, Label))
    requires
        old(ctx).wf(),
        old(ctx)@.log.file is Some,
        can_judge(old(ctx)@, flows_of(backtraces@)),
    ensures
        final(ctx).wf(),
        final(ctx)@ == annotated(
            old(ctx)@,
            annotation,
            site,
            sink_kind,
            flows_of(backtraces@),
            location,
        ),
        same_place(old(ctx)@, final(ctx)@),
        trace_of(r.0) == explicit_of(
            annotation,
            site,
            text_of(symbol),
            PinnedModel { file: old(ctx)@.log.file->0, inner: location },
        ),
        r.1.wf(),
        r.1@ == subtract_of(annotation, site),
{
    let ghost start = ctx@;
    let annotation = match annotation {
        Some(a) => a,
        None => {
            return (None, Label::Bottom);
        },
    };
    let directive = match parse_supported_directive(&mut ctx.log, annotation, site) {
        Some(d) => d,
        None => {
            return (None, Label::Bottom);
        },
    };
    proof {
        assert(ctx@ =~= start);
    }
    match directive {
        AnnotationDirective::Label => {
            let explicit = LabelBacktrace::new_root(
                LabelBacktraceKind::ExplicitAnnotation,
                Label::from_tags(text_refs(&annotation.tags)),
                symbol,
                ctx.log.pin(location),
            );
            (explicit, Label::Bottom)
        },
        AnnotationDirective::Revoke => {
            match resolve_revocation_label(&mut ctx.log, annotation) {
                Some(label) => {
                    proof {
                        assert(ctx@ =~= start);
                    }
                    (None, label)
                },
                None => (None, Label::Bottom),
            }
        },
        AnnotationDirective::AllowSink | AnnotationDirective::DenySink => {
            let allow = match directive {
                AnnotationDirective::AllowSink => true,
                _ => false,
            };
            match SinkDescriptor::new(sink_kind, allow, text_refs(&annotation.tags), location) {
                Some(sink) => {
                    trigger_sink_for_args(ctx, &sink, None, backtraces);
                },
                None => {
                    ctx.log.report_error(
                        AnalysisErrorKind::InvalidDenySinkSemantics {
                            location: annotation.location,
                        },
                    );
                },
            }
            (None, Label::Bottom)
        },
        AnnotationDirective::Assert => {
            let sequence = Label::sequence_from_tags(&text_refs(&annotation.tags));
            proof {
                assert(label_views(sequence@) =~= written_sequence(views(annotation.tags@)));
            }
            trigger_assertion_for_args(ctx, &sequence, backtraces, location);
            (None, Label::Bottom)
        },
    }
}

/// A value and what it is known to be.
pub type KnownModel = (ValueModel, Option<Seq<char>>);

/// What a list of values, and of what they are known to be, stands for.
pub open spec fn known_of(s: Seq<(Value, Option<SimpleConstValue>)>) -> Seq<KnownModel> {
    s.map_values(|p: (Value, Option<SimpleConstValue>)| (p.0@, const_of(p.1)))
}

/// The values that are given to so many names or operands: a single one may
/// stand for several.
pub open spec fn expanded_values(values: Seq<KnownModel>, arity: nat) -> Seq<KnownModel> {
    if values.len() == 1 && values[0].0.expands_to(arity) {
        values[0].0.expanded(arity).map_values(|v: ValueModel| (v, None::<Seq<char>>))
    } else {
        values
    }
}

/// The values that are given to so many names or operands.
pub fn expand_rhs_values(values: Vec<(Value, Option<SimpleConstValue>)>, arity: usize) -> (r: Vec<
    (Value, Option<SimpleConstValue>),
>)
    ensures
        known_of(r@) == expanded_values(known_of(values@), arity as nat),
{
    if values.len() != 1 {
        return values;
    }
    proof {
        assert(known_of(values@)[0].0 == values@[0].0@);
    }
    match values[0].0.try_expand_to(arity) {
        Some(expanded) => {
            let ghost es = expanded@;
            let ghost models = crate::values::values_of(es);
            let mut left = expanded;
            let mut r: Vec<(Value, Option<SimpleConstValue>)> = Vec::new();
            let n: usize = left.len();
            let mut i: usize = 0;
            proof {
                assert(es.skip(0) =~= es);
            }
            while i < n
                invariant
                    i <= n,
                    n == es.len(),
                    models == crate::values::values_of(es),
                    left@ == es.skip(i as int),
                    r@.len() == i,
                    forall|k: int|
                        0 <= k < i ==> (#[trigger] r@[k]).0@ == models[k] && r@[k].1 is None,
                decreases n - i,
            {
                let value = left.remove(0);
                proof {
                    assert(value == es[i as int]);
                    assert(left@ =~= es.skip(i + 1));
                }
                r.push((value, None));
                i = i + 1;
            }
            proof {
                assert(known_of(r@) =~= expanded_values(known_of(values@), arity as nat));
            }
            r
        },
        None => values,
    }
}

/// Whether a symbol is declared outside of all regions in which control flow is
/// split, and there are some.
pub open spec fn outside_all(
    regions: Seq<PinnedModel<Location>>,
    declaration: PinnedModel<SpanModel>,
) -> bool {
    regions.len() > 0 && !exists|i: int|
        0 <= i < regions.len() && lies_within(
            PinnedModel { file: declaration.file, inner: declaration.inner.location },
            #[trigger] regions[i],
        )
}

pub(crate) fn is_outside_all(regions: &SplitRegions, declaration: &Pinned<Span>) -> (r: bool)
    ensures
        r == outside_all(regions@, declaration@),
{
    match regions.was_declared_within(&declaration.pinned_location()) {
        Some(within) => !within,
        None => false,
    }
}

/// Where names are declared.
#[verifier::ext_equal]
pub struct BindingState {
    /// The state of the analysis.
    pub ctx: ContextModel,
    /// The symbols.
    pub table: TableModel,
    /// What may have been declared again.
    pub redeclared: Seq<ErrorModel>,
    /// Whether anything new was declared.
    pub any_new: bool,
}

/// Where a name that is declared again without being new was declared: it is in
/// the current scope, and not behind the new one.
pub open spec fn existing_declaration(
    t: TableModel,
    short: bool,
    declaration: PinnedModel<SpanModel>,
) -> Option<PinnedModel<SpanModel>> {
    match t.local_declaration(declaration.inner.content) {
        Some(existing) => if short && (location_precedence(
            PinnedModel { file: declaration.file, inner: declaration.inner.location },
            PinnedModel { file: existing.file, inner: existing.inner.location },
        ) is None || location_precedence(
            PinnedModel { file: declaration.file, inner: declaration.inner.location },
            PinnedModel { file: existing.file, inner: existing.inner.location },
        ) == Some(Order::Greater)) {
            Some(existing)
        } else {
            None
        },
        None => None,
    }
}

impl BindingState {
    /// The state once a symbol without a value is declared.
    pub open spec fn declaring(
        self,
        declaration: PinnedModel<SpanModel>,
        at: PinnedModel<Location>,
        declared_type: Option<TypeModel>,
    ) -> BindingState {
        let symbol = SymbolModel {
            declared_name: declaration,
            mutable: true,
            value: ValueModel { declared_type, ..ValueModel::simple(None, at) },
            known_const: None,
        };
        let id = self.table.symbols.len() as usize;
        let added = TableModel { symbols: self.table.symbols.push(symbol), ..self.table };
        BindingState {
            ctx: ContextModel {
                log: declared(
                    self.ctx.log,
                    declaration,
                    added.local_declaration(declaration.inner.content),
                ),
                ..self.ctx
            },
            table: added.declaring(declaration.inner.content, id),
            any_new: true,
            ..self
        }
    }

    /// The state once a name has got its value. The blank name only lets the
    /// value reach what an annotation declares.
    pub open spec fn binding(
        self,
        id: SpanModel,
        rhs: KnownModel,
        mutable: bool,
        short: bool,
        location: Location,
        annotation: Option<&Annotation>,
        declared_type: Option<TypeModel>,
        regions: Seq<PinnedModel<Location>>,
    ) -> BindingState {
        let file = self.ctx.log.file->0;
        let at = PinnedModel { file, inner: location };
        let read = BindingState {
            ctx: annotated(
                self.ctx,
                annotation,
                AnnotationSite::Decl,
                SinkKind::Declaration,
                seq![carried(rhs.0)],
                location,
            ),
            ..self
        };
        if id.content == "_"@ {
            read
        } else {
            let declaration = PinnedModel { file, inner: id };
            let existing = existing_declaration(self.table, short, declaration);
            let ready = match existing {
                Some(previous) => BindingState {
                    redeclared: self.redeclared.push(
                        ErrorModel::IllegalRedeclaration { previous, found: id },
                    ),
                    ..read
                },
                None => read.declaring(declaration, at, declared_type),
            };
            let names = ready.table.scopes[ready.table.current as int].symbols;
            let symbol = names[id.content];
            let assignment = AssignmentModel {
                kind: if existing is Some {
                    LabelBacktraceKind::Assignment
                } else {
                    LabelBacktraceKind::DeclarationInitialization
                },
                rhs: rhs.0,
                known_const: rhs.1,
                simple: true,
                explicit: explicit_of(annotation, AnnotationSite::Decl, Some(id.content), at),
                subtract: subtract_of(annotation, AnnotationSite::Decl),
                location,
                outside_split: outside_all(
                    regions,
                    ready.table.symbols[symbol as int].declared_name,
                ),
            };
            let left = LeftModel { symbol, name: id, path: Seq::<StepModel>::empty() };
            let assigned = assignment.assigned(ready.ctx, ready.table, left);
            BindingState {
                ctx: assignment.reported(ready.ctx, ready.table, left),
                table: if !mutable && existing is None {
                    TableModel {
                        symbols: assigned.symbols.update(
                            symbol as int,
                            SymbolModel {
                                mutable: false,
                                ..assigned.symbols[symbol as int]
                            },
                        ),
                        ..assigned
                    }
                } else {
                    assigned
                },
                ..ready
            }
        }
    }

    /// The state once the first names have got their values.
    pub open spec fn binding_all(
        self,
        ids: Seq<SpanModel>,
        rhs: Seq<KnownModel>,
        mutable: bool,
        short: bool,
        location: Location,
        annotation: Option<&Annotation>,
        declared_type: Option<TypeModel>,
        regions: Seq<PinnedModel<Location>>,
        n: int,
    ) -> BindingState
        decreases n,
    {
        if n <= 0 {
            self
        } else {
            self.binding_all(
                ids,
                rhs,
                mutable,
                short,
                location,
                annotation,
                declared_type,
                regions,
                n - 1,
            ).binding(
                ids[n - 1],
                rhs[n - 1],
                mutable,
                short,
                location,
                annotation,
                declared_type,
                regions,
            )
        }
    }

    /// The state of the analysis once all names have got their values: if none
    /// of them is new, all that are not are reported.
    pub open spec fn concluded(self) -> ContextModel {
        if self.redeclared.len() > 0 && !self.any_new {
            ContextModel { log: self.ctx.log.with_errors(self.redeclared), ..self.ctx }
        } else {
            self.ctx
        }
    }
}

/// What a list of names stands for.
pub open spec fn spans_of(s: Seq<Span>) -> Seq<SpanModel> {
    s.map_values(|x: Span| x@)
}

/// What a list of errors stands for.
pub open spec fn error_models(s: Seq<AnalysisErrorKind>) -> Seq<ErrorModel> {
    s.map_values(|e: AnalysisErrorKind| e@)
}

fn find_existing(table: &SymbolTable, short: bool, declaration: &Pinned<Span>) -> (r: Option<
    Pinned<Span>,
>)
    requires
        table@.wf(),
    ensures
        match existing_declaration(table@, short, declaration@) {
            Some(d) => r is Some && r->0@ == d,
            None => r is None,
        },
{
    match table.get_declared_in_current_scope(declaration.content()) {
        Some(id) => {
            let existing = &table.symbol(id).declared_name;
            let behind = match declaration.pinned_location().precedence(
                &existing.pinned_location(),
            ) {
                None | Some(Order::Greater) => true,
                _ => false,
            };
            if short && behind {
                Some(existing.duplicate())
            } else {
                None
            }
        },
        None => None,
    }
}

fn declare_fresh(
    ctx: &mut AnalysisContext,
    table: &mut SymbolTable,
    declaration: &Pinned<Span>,
    at: &Pinned<Location>,
    declared_type: &Option<TypeInfo>,
)
    requires
        old(ctx).wf(),
        old(table)@.wf(),
    ensures
        final(ctx).wf(),
        final(table)@.wf(),
        forall|st: BindingState|
            st.ctx == old(ctx)@ && st.table == old(table)@ ==> {
                let now = #[trigger] st.declaring(declaration@, at@, type_of(*declared_type));
                now.ctx == final(ctx)@ && now.table == final(table)@
            },
        same_place(old(ctx)@, final(ctx)@),
        final(table)@.scopes[final(table)@.current as int].symbols.dom().contains(
            declaration@.inner.content,
        ),
{
    let ghost start = ctx@;
    let ghost t = table@;
    let value = Value::new_bottom(at.duplicate(), copy_type(declared_type));
    let id: usize = table.add_symbol(
        Symbol {
            declared_name: declaration.duplicate(),
            mutable: true,
            value,
            known_const: None,
        },
    );
    declare_new_symbol(&mut ctx.log, table, id);
    proof {
        assert forall|st: BindingState| st.ctx == start && st.table == t implies {
            let now = #[trigger] st.declaring(declaration@, at@, type_of(*declared_type));
            now.ctx == ctx@ && now.table == table@
        } by {
            let now = st.declaring(declaration@, at@, type_of(*declared_type));
            assert(now.ctx =~= ctx@);
            assert(now.table =~= table@);
        }
    }
}

fn bind_name(
    ctx: &mut AnalysisContext,
    table: &mut SymbolTable,
    id: &Span,
    rhs: Value,
    known_const: Option<SimpleConstValue>,
    mutable: bool,
    short: bool,
    location: Location,
    annotation: Option<&Annotation>,
    declared_type: &Option<TypeInfo>,
    regions: &SplitRegions,
    redeclared: &mut Vec<AnalysisErrorKind>,
    any_new: &mut bool,
)
    requires
        old(ctx).wf(),
        old(table)@.wf(),
        old(ctx)@.log.file is Some,
        can_judge(old(ctx)@, seq![carried(rhs@)]),
    ensures
        final(ctx).wf(),
        final(table)@.wf(),
        same_place(old(ctx)@, final(ctx)@),
        (BindingState {
            ctx: final(ctx)@,
            table: final(table)@,
            redeclared: error_models(final(redeclared)@),
            any_new: *final(any_new),
        }) == (BindingState {
            ctx: old(ctx)@,
            table: old(table)@,
            redeclared: error_models(old(redeclared)@),
            any_new: *old(any_new),
        }).binding(
            id@,
            (rhs@, const_of(known_const)),
            mutable,
            short,
            location,
            annotation,
            type_of(*declared_type),
            regions@,
        ),
{
    let ghost st = BindingState {
        ctx: ctx@,
        table: table@,
        redeclared: error_models(redeclared@),
        any_new: *any_new,
    };
    let ghost goal = st.binding(
        id@,
        (rhs@, const_of(known_const)),
        mutable,
        short,
        location,
        annotation,
        type_of(*declared_type),
        regions@,
    );
    let mut flows: Vec<Option<LabelBacktrace>> = Vec::new();
    flows.push(rhs.backtrace());
    proof {
        assert(flows_of(flows@) =~= seq![carried(rhs@)]);
    }
    let (explicit, subtract) = apply_value_annotation(
        ctx,
        annotation,
        AnnotationSite::Decl,
        SinkKind::Declaration,
        Some(id.content().to_owned()),
        &flows,
        location,
    );
    if same_text(id.content(), "_") {
        return;
    }
    let declaration = ctx.log.pin(id.duplicate());
    let at = ctx.log.pin(location);
    let existing = find_existing(table, short, &declaration);
    let is_new = existing.is_none();
    let ghost read = BindingState { ctx: ctx@, ..st };
    let ghost known = error_models(redeclared@);
    let kind = match existing {
        Some(previous) => {
            let error = AnalysisErrorKind::IllegalRedeclaration { previous, found: id.duplicate() };
            let ghost e = error@;
            redeclared.push(error);
            proof {
                assert(error_models(redeclared@) =~= known.push(e));
            }
            LabelBacktraceKind::Assignment
        },
        None => {
            declare_fresh(ctx, table, &declaration, &at, declared_type);
            *any_new = true;
            proof {
                let now = read.declaring(declaration@, at@, type_of(*declared_type));
                assert(now.ctx == ctx@ && now.table == table@);
            }
            LabelBacktraceKind::DeclarationInitialization
        },
    };
    let symbol: usize = match table.get_declared_in_current_scope(id.content()) {
        Some(s) => s,
        None => {
            proof {
                assert(false);
            }
            vstd::pervasive::unreached()
        },
    };
    let outside_split = is_outside_all(regions, &table.symbol(symbol).declared_name);
    let left = LeftValue { symbol, name: id.duplicate(), path: Vec::new() };
    proof {
        assert(left@.path =~= Seq::<StepModel>::empty());
    }
    let assignment = Assignment {
        kind,
        rhs,
        known_const,
        simple: true,
        explicit: explicit.as_ref(),
        subtract: &subtract,
        location,
        outside_split,
    };
    left.assign(ctx, table, assignment);
    if !mutable && is_new {
        table.mark_immutable(symbol);
    }
    proof {
        assert(ctx@ == goal.ctx);
        assert(table@ == goal.table);
        assert(error_models(redeclared@) == goal.redeclared);
    }
}

/// Whether all values can be judged, now or later.
pub open spec fn can_judge_all(ctx: ContextModel, rhs: Seq<KnownModel>) -> bool {
    forall|i: int| 0 <= i < rhs.len() ==> can_judge(ctx, seq![carried((#[trigger] rhs[i]).0)])
}

/// Gives values to names, which are declared if they are new. A short
/// declaration may repeat names of its scope if any name is new. If there are
/// not as many values as names, that is reported and nothing is declared.
pub fn visit_raw_binding_decl_spec(
    ctx: &mut AnalysisContext,
    table: &mut SymbolTable,
    ids: &Vec<Span>,
    rhs_values: Vec<(Value, Option<SimpleConstValue>)>,
    mutable: bool,
    short: bool,
    location: Location,
    annotation: Option<&Annotation>,
    declared_type: &Option<TypeInfo>,
    regions: &SplitRegions,
)
    requires
        old(ctx).wf(),
        old(table)@.wf(),
        old(ctx)@.log.file is Some,
        can_judge_all(old(ctx)@, known_of(rhs_values@)),
    ensures
        final(ctx)@.log.file is Some,
        final(ctx).wf(),
        final(table)@.wf(),
        ids@.len() != rhs_values@.len() ==> final(table)@ == old(table)@ && final(ctx)@ == (
        ContextModel {
            log: old(ctx)@.log.with_error(
                ErrorModel::UnevenBindingDeclSpec {
                    location,
                    left: ids@.len() as usize,
                    right: rhs_values@.len() as usize,
                },
            ),
            ..old(ctx)@
        }),
        ids@.len() == rhs_values@.len() ==> ({
            let st = (BindingState {
                ctx: old(ctx)@,
                table: old(table)@,
                redeclared: Seq::<ErrorModel>::empty(),
                any_new: false,
            }).binding_all(
                spans_of(ids@),
                known_of(rhs_values@),
                mutable,
                short,
                location,
                annotation,
                type_of(*declared_type),
                regions@,
                ids@.len() as int,
            );
            final(table)@ == st.table && final(ctx)@ == st.concluded()
        }),
{
    let ghost start = ctx@;
    if ids.len() != rhs_values.len() {
        ctx.log.report_error(
            AnalysisErrorKind::UnevenBindingDeclSpec {
                location,
                left: ids.len(),
                right: rhs_values.len(),
            },
        );
        return;
    }
    let ghost first = BindingState {
        ctx: ctx@,
        table: table@,
        redeclared: Seq::<ErrorModel>::empty(),
        any_new: false,
    };
    let ghost all = rhs_values@;
    let ghost rhs = known_of(all);
    let ghost names = spans_of(ids@);
    let mut redeclared: Vec<AnalysisErrorKind> = Vec::new();
    let mut any_new = false;
    let mut left = rhs_values;
    let n: usize = ids.len();
    let mut i: usize = 0;
    proof {
        assert(all.skip(0) =~= all);
        assert(error_models(redeclared@) =~= Seq::<ErrorModel>::empty());
    }
    while i < n
        invariant
            i <= n,
            n == ids@.len(),
            n == all.len(),
            rhs == known_of(all),
            names == spans_of(ids@),
            left@ == all.skip(i as int),
            ctx.wf(),
            table@.wf(),
            start.log.file is Some,
            same_place(start, ctx@),
            can_judge_all(start, rhs),
            (BindingState {
                ctx: ctx@,
                table: table@,
                redeclared: error_models(redeclared@),
                any_new,
            }) == first.binding_all(
                names,
                rhs,
                mutable,
                short,
                location,
                annotation,
                type_of(*declared_type),
                regions@,
                i as int,
            ),
        decreases n - i,
    {
        let (value, known_const) = left.remove(0);
        proof {
            assert((value, known_const) == all[i as int]);
            assert(left@ =~= all.skip(i + 1));
            assert(rhs[i as int] == (value@, const_of(known_const)));
            assert(names[i as int] == ids@[i as int]@);
            assert(can_judge(start, seq![carried(rhs[i as int].0)]));
            lemma_can_judge_stays(start, ctx@, seq![carried(value@)]);
        }
        bind_name(
            ctx,
            table,
            &ids[i],
            value,
            known_const,
            mutable,
            short,
            location,
            annotation,
            declared_type,
            regions,
            &mut redeclared,
            &mut any_new,
        );
        i = i + 1;
    }
    if redeclared.len() > 0 && !any_new {
        report_all(ctx, redeclared);
    }
}

/// What can be judged at one place can be judged where nothing but errors and
/// checks differ.
pub proof fn lemma_can_judge_stays(a: ContextModel, b: ContextModel, flows: Seq<Option<Trace>>)
    requires
        same_place(a, b),
        can_judge(a, flows),
    ensures
        can_judge(b, flows),
{
    if !a.can_defer() {
        assert forall|i: int| 0 <= i < flows.len() implies
            crate::taint::funcs::call_checks::is_closed(b, #[trigger] flows[i]) by {
            assert(crate::taint::funcs::call_checks::is_closed(a, flows[i]));
        }
    }
}

fn report_all(ctx: &mut AnalysisContext, errors: Vec<AnalysisErrorKind>)
    requires
        old(ctx).wf(),
    ensures
        final(ctx).wf(),
        final(ctx)@.log.file == old(ctx)@.log.file,
        final(ctx)@ == (ContextModel {
            log: old(ctx)@.log.with_errors(error_models(errors@)),
            ..old(ctx)@
        }),
{
    let ghost start = ctx@;
    let ghost all = errors@;
    let ghost models = error_models(all);
    let mut left = errors;
    let n: usize = left.len();
    let mut i: usize = 0;
    proof {
        assert(all.skip(0) =~= all);
        assert(models.take(0) =~= Seq::<ErrorModel>::empty());
        assert(ctx@ =~= (ContextModel { log: start.log.with_errors(models.take(0)), ..start }));
    }
    while i < n
        invariant
            i <= n,
            n == all.len(),
            models == error_models(all),
            left@ == all.skip(i as int),
            ctx.wf(),
            ctx@.log.file == old(ctx)@.log.file,
            ctx@ == (ContextModel { log: start.log.with_errors(models.take(i as int)), ..start }),
        decreases n - i,
    {
        let error = left.remove(0);
        proof {
            assert(error == all[i as int]);
            assert(left@ =~= all.skip(i + 1));
            assert(models.take(i + 1).drop_last() =~= models.take(i as int));
            assert(models.take(i + 1).last() == error@);
        }
        ctx.log.report_error(error);
        proof {
            assert(ctx@ =~= (ContextModel {
                log: start.log.with_errors(models.take(i + 1)),
                ..start
            }));
        }
        i = i + 1;
    }
    proof {
        assert(models.take(n as int) =~= models);
    }
}

/// The shape of one part of a declaration of constants or variables.
#[derive(Clone, Copy, Debug)]
pub struct BindingShape {
    /// How many expressions it gives.
    pub expr_count: usize,
    /// Whether it gives a type.
    pub has_type: bool,
}

/// The last part up to a position that gives expressions.
pub open spec fn last_with_exprs(shapes: Seq<BindingShape>, n: int) -> Option<int>
    decreases n,
{
    if n <= 0 {
        None
    } else if shapes[n - 1].expr_count > 0 {
        Some(n - 1)
    } else {
        last_with_exprs(shapes, n - 1)
    }
}

/// The part whose expressions are those of another one. A part of a
/// declaration of constants that gives neither expressions nor a type repeats
/// the expressions of the last one before it that gives some.
pub open spec fn exprs_from(shapes: Seq<BindingShape>, mutable: bool, at: int) -> int {
    if shapes[at].expr_count == 0 && !shapes[at].has_type && !mutable {
        match last_with_exprs(shapes, at) {
            Some(p) => p,
            None => at,
        }
    } else {
        at
    }
}

/// The part of a declaration whose expressions are those of a given one.
pub fn find_spec_exprs(shapes: &Vec<BindingShape>, mutable: bool, at: usize) -> (r: usize)
    requires
        at < shapes@.len(),
    ensures
        r == exprs_from(shapes@, mutable, at as int),
        r < shapes@.len(),
{
    if shapes[at].expr_count > 0 || shapes[at].has_type || mutable {
        return at;
    }
    let mut i: usize = at;
    while i > 0
        invariant
            i <= at,
            at < shapes@.len(),
            last_with_exprs(shapes@, at as int) == last_with_exprs(shapes@, i as int),
            exprs_from(shapes@, mutable, at as int) == match last_with_exprs(shapes@, at as int) {
                Some(p) => p,
                None => at as int,
            },
        decreases i,
    {
        i = i - 1;
        if shapes[i].expr_count > 0 {
            return i;
        }
    }
    at
}

/// The state and the table once the first names are declared without a value.
/// The blank name declares nothing.
pub open spec fn zero_declared(
    ctx: ContextModel,
    t: TableModel,
    ids: Seq<SpanModel>,
    mutable: bool,
    declared_type: Option<TypeModel>,
    zero: Option<Seq<char>>,
    n: int,
) -> (ContextModel, TableModel)
    decreases n,
{
    if n <= 0 {
        (ctx, t)
    } else {
        let (before, table) = zero_declared(ctx, t, ids, mutable, declared_type, zero, n - 1);
        let id = ids[n - 1];
        if id.content == "_"@ {
            (before, table)
        } else {
            let declaration = PinnedModel { file: before.log.file->0, inner: id };
            let at = PinnedModel { file: before.log.file->0, inner: id.location };
            let symbol = SymbolModel {
                declared_name: declaration,
                mutable,
                value: ValueModel { declared_type, ..ValueModel::simple(None, at) },
                known_const: zero,
            };
            let added = TableModel { symbols: table.symbols.push(symbol), ..table };
            (
                ContextModel {
                    log: declared(
                        before.log,
                        declaration,
                        added.local_declaration(id.content),
                    ),
                    ..before
                },
                added.declaring(id.content, table.symbols.len() as usize),
            )
        }
    }
}

/// Declares names of a type without giving them a value.
pub fn declare_zero_values(
    ctx: &mut AnalysisContext,
    table: &mut SymbolTable,
    ids: &Vec<Span>,
    mutable: bool,
    declared_type: &Option<TypeInfo>,
    zero: &Option<SimpleConstValue>,
)
    requires
        old(ctx).wf(),
        old(table)@.wf(),
        old(ctx)@.log.file is Some,
    ensures
        final(ctx)@.log.file is Some,
        final(ctx).wf(),
        final(table)@.wf(),
        (final(ctx)@, final(table)@) == zero_declared(
            old(ctx)@,
            old(table)@,
            spans_of(ids@),
            mutable,
            type_of(*declared_type),
            const_of(*zero),
            ids@.len() as int,
        ),
{
    let ghost start = ctx@;
    let ghost t = table@;
    let ghost names = spans_of(ids@);
    let n: usize = ids.len();
    let mut i: usize = 0;
    while i < n
        invariant
            i <= n,
            n == ids@.len(),
            names == spans_of(ids@),
            ctx.wf(),
            table@.wf(),
            ctx@.log.file is Some,
            (ctx@, table@) == zero_declared(
                start,
                t,
                names,
                mutable,
                type_of(*declared_type),
                const_of(*zero),
                i as int,
            ),
        decreases n - i,
    {
        let ghost before = ctx@;
        proof {
            assert(names[i as int] == ids@[i as int]@);
        }
        if !same_text(ids[i].content(), "_") {
            let declaration = ctx.log.pin(ids[i].duplicate());
            let value = Value::new_bottom(declaration.pinned_location(), copy_type(declared_type));
            let id: usize = table.add_symbol(
                Symbol {
                    declared_name: declaration,
                    mutable,
                    value,
                    known_const: match zero {
                        Some(c) => Some(SimpleConstValue { text: c.text.clone() }),
                        None => None,
                    },
                },
            );
            declare_new_symbol(&mut ctx.log, table, id);
            proof {
                let goal = zero_declared(
                    start,
                    t,
                    names,
                    mutable,
                    type_of(*declared_type),
                    const_of(*zero),
                    i + 1,
                );
                assert(ctx@ =~= goal.0);
                assert(table@ =~= goal.1);
            }
        }
        i = i + 1;
    }
}

/// Values of a type that is given with their declaration.
pub open spec fn typed(values: Seq<KnownModel>, declared_type: Option<TypeModel>) -> Seq<
    KnownModel,
> {
    match declared_type {
        Some(_) => values.map_values(
            |p: KnownModel| (ValueModel { declared_type, ..p.0 }, p.1),
        ),
        None => values,
    }
}

fn set_types(
    values: Vec<(Value, Option<SimpleConstValue>)>,
    declared_type: &Option<TypeInfo>,
) -> (r: Vec<(Value, Option<SimpleConstValue>)>)
    ensures
        known_of(r@) == typed(known_of(values@), type_of(*declared_type)),
        r@.len() == values@.len(),
{
    if declared_type.is_none() {
        return values;
    }
    let ghost all = values@;
    let ghost goal = typed(known_of(all), type_of(*declared_type));
    let mut left = values;
    let mut r: Vec<(Value, Option<SimpleConstValue>)> = Vec::new();
    let n: usize = left.len();
    let mut i: usize = 0;
    proof {
        assert(all.skip(0) =~= all);
    }
    while i < n
        invariant
            i <= n,
            n == all.len(),
            declared_type is Some,
            goal == typed(known_of(all), type_of(*declared_type)),
            left@ == all.skip(i as int),
            r@.len() == i,
            forall|k: int|
                0 <= k < i ==> ((#[trigger] r@[k]).0@, const_of(r@[k].1)) == goal[k],
        decreases n - i,
    {
        let (mut value, known_const) = left.remove(0);
        proof {
            assert((value, known_const) == all[i as int]);
            assert(left@ =~= all.skip(i + 1));
            assert(known_of(all)[i as int] == (value@, const_of(known_const)));
        }
        value.set_declared_type(copy_type(declared_type));
        r.push((value, known_const));
        i = i + 1;
    }
    proof {
        assert(known_of(r@) =~= goal);
    }
    r
}

/// Visits one part of a declaration of constants or variables, whose
/// expressions have these values. Without any, but with a type, names are
/// declared without a value.
pub fn visit_binding_decl_spec(
    ctx: &mut AnalysisContext,
    table: &mut SymbolTable,
    ids: &Vec<Span>,
    rhs_values: Vec<(Value, Option<SimpleConstValue>)>,
    has_exprs: bool,
    mutable: bool,
    short: bool,
    location: Location,
    annotation: Option<&Annotation>,
    has_type: bool,
    declared_type: &Option<TypeInfo>,
    zero: &Option<SimpleConstValue>,
    regions: &SplitRegions,
)
    requires
        old(ctx).wf(),
        old(table)@.wf(),
        old(ctx)@.log.file is Some,
        can_judge_all(
            old(ctx)@,
            typed(
                expanded_values(known_of(rhs_values@), ids@.len()),
                type_of(*declared_type),
            ),
        ),
    ensures
        final(ctx)@.log.file is Some,
        final(ctx).wf(),
        final(table)@.wf(),
        !has_exprs && !short && has_type ==> (final(ctx)@, final(table)@) == zero_declared(
            old(ctx)@,
            old(table)@,
            spans_of(ids@),
            mutable,
            type_of(*declared_type),
            const_of(*zero),
            ids@.len() as int,
        ),
        !(!has_exprs && !short && has_type) ==> ({
            let rhs = typed(
                expanded_values(known_of(rhs_values@), ids@.len()),
                type_of(*declared_type),
            );
            if ids@.len() != rhs.len() {
                &&& final(table)@ == old(table)@
                &&& final(ctx)@ == (ContextModel {
                    log: old(ctx)@.log.with_error(
                        ErrorModel::UnevenBindingDeclSpec {
                            location,
                            left: ids@.len() as usize,
                            right: rhs.len() as usize,
                        },
                    ),
                    ..old(ctx)@
                })
            } else {
                let st = (BindingState {
                    ctx: old(ctx)@,
                    table: old(table)@,
                    redeclared: Seq::<ErrorModel>::empty(),
                    any_new: false,
                }).binding_all(
                    spans_of(ids@),
                    rhs,
                    mutable,
                    short,
                    location,
                    annotation,
                    type_of(*declared_type),
                    regions@,
                    ids@.len() as int,
                );
                final(table)@ == st.table && final(ctx)@ == st.concluded()
            }
        }),
{
    if !has_exprs && !short && has_type {
        declare_zero_values(ctx, table, ids, mutable, declared_type, zero);
        return;
    }
    let expanded = expand_rhs_values(rhs_values, ids.len());
    let values = set_types(expanded, declared_type);
    proof {
        assert(known_of(values@).len() == values@.len());
    }
    visit_raw_binding_decl_spec(
        ctx,
        table,
        ids,
        values,
        mutable,
        short,
        location,
        annotation,
        declared_type,
        regions,
    );
}

/// Visits a short declaration, whose expressions have these values.
pub fn visit_short_var_decl_with(
    ctx: &mut AnalysisContext,
    table: &mut SymbolTable,
    ids: &Vec<Span>,
    rhs_values: Vec<(Value, Option<SimpleConstValue>)>,
    location: Location,
    annotation: Option<&Annotation>,
    regions: &SplitRegions,
)
    requires
        old(ctx).wf(),
        old(table)@.wf(),
        old(ctx)@.log.file is Some,
        can_judge_all(old(ctx)@, expanded_values(known_of(rhs_values@), ids@.len())),
    ensures
        final(ctx)@.log.file is Some,
        final(ctx).wf(),
        final(table)@.wf(),
        ({
            let rhs = expanded_values(known_of(rhs_values@), ids@.len());
            if ids@.len() != rhs.len() {
                &&& final(table)@ == old(table)@
                &&& final(ctx)@ == (ContextModel {
                    log: old(ctx)@.log.with_error(
                        ErrorModel::UnevenBindingDeclSpec {
                            location,
                            left: ids@.len() as usize,
                            right: rhs.len() as usize,
                        },
                    ),
                    ..old(ctx)@
                })
            } else {
                let st = (BindingState {
                    ctx: old(ctx)@,
                    table: old(table)@,
                    redeclared: Seq::<ErrorModel>::empty(),
                    any_new: false,
                }).binding_all(
                    spans_of(ids@),
                    rhs,
                    true,
                    true,
                    location,
                    annotation,
                    None,
                    regions@,
                    ids@.len() as int,
                );
                final(table)@ == st.table && final(ctx)@ == st.concluded()
            }
        }),
{
    let values = expand_rhs_values(rhs_values, ids.len());
    proof {
        assert(known_of(values@).len() == values@.len());
    }
    visit_raw_binding_decl_spec(
        ctx,
        table,
        ids,
        values,
        true,
        true,
        location,
        annotation,
        &None,
        regions,
    );
}

/// What a list of things to assign to stands for.
pub open spec fn lefts_of(s: Seq<LeftValue>) -> Seq<LeftModel> {
    s.map_values(|l: LeftValue| l@)
}

/// An assignment of one of several values.
pub open spec fn assignment_of(
    t: TableModel,
    left: LeftModel,
    kind: LabelBacktraceKind,
    rhs: KnownModel,
    simple: bool,
    explicit: Option<Trace>,
    subtract: Set<TagModel>,
    location: Location,
    regions: Seq<PinnedModel<Location>>,
) -> AssignmentModel {
    AssignmentModel {
        kind,
        rhs: rhs.0,
        known_const: rhs.1,
        simple,
        explicit,
        subtract,
        location,
        outside_split: outside_all(regions, t.symbols[left.symbol as int].declared_name),
    }
}

/// The state and the table once the first assignments are made, one after the
/// other.
pub open spec fn all_assigned(
    ctx: ContextModel,
    t: TableModel,
    lefts: Seq<LeftModel>,
    kind: LabelBacktraceKind,
    rhs: Seq<KnownModel>,
    simple: bool,
    explicit: Option<Trace>,
    subtract: Set<TagModel>,
    location: Location,
    regions: Seq<PinnedModel<Location>>,
    n: int,
) -> (ContextModel, TableModel)
    decreases n,
{
    if n <= 0 {
        (ctx, t)
    } else {
        let (before, table) = all_assigned(
            ctx,
            t,
            lefts,
            kind,
            rhs,
            simple,
            explicit,
            subtract,
            location,
            regions,
            n - 1,
        );
        let a = assignment_of(
            table,
            lefts[n - 1],
            kind,
            rhs[n - 1],
            simple,
            explicit,
            subtract,
            location,
            regions,
        );
        (a.reported(before, table, lefts[n - 1]), a.assigned(before, table, lefts[n - 1]))
    }
}

/// Assigns values, one after the other. If there are not as many values as
/// things to assign to, that is reported and nothing is assigned.
pub fn visit_raw_assignment(
    ctx: &mut AnalysisContext,
    table: &mut SymbolTable,
    kind: LabelBacktraceKind,
    simple: bool,
    lefts: &Vec<LeftValue>,
    rhs_values: Vec<(Value, Option<SimpleConstValue>)>,
    explicit: Option<&LabelBacktrace>,
    subtract: &Label,
    location: Location,
    regions: &SplitRegions,
)
    requires
        old(ctx).wf(),
        old(table)@.wf(),
        old(ctx)@.log.file is Some,
        subtract.wf(),
        forall|i: int|
            0 <= i < lefts@.len() ==> (#[trigger] lefts@[i]).symbol < old(table)@.symbols.len(),
    ensures
        final(ctx).wf(),
        final(table)@.wf(),
        same_place(old(ctx)@, final(ctx)@),
        lefts@.len() != rhs_values@.len() ==> final(table)@ == old(table)@ && final(ctx)@ == (
        ContextModel {
            log: old(ctx)@.log.with_error(
                ErrorModel::UnevenAssignment {
                    location,
                    left: lefts@.len() as usize,
                    right: rhs_values@.len() as usize,
                },
            ),
            ..old(ctx)@
        }),
        lefts@.len() == rhs_values@.len() ==> (final(ctx)@, final(table)@) == all_assigned(
            old(ctx)@,
            old(table)@,
            lefts_of(lefts@),
            kind,
            known_of(rhs_values@),
            simple,
            crate::labels::backtraces::trace_of_ref(explicit),
            subtract@,
            location,
            regions@,
            lefts@.len() as int,
        ),
{
    if lefts.len() != rhs_values.len() {
        ctx.log.report_error(
            AnalysisErrorKind::UnevenAssignment {
                location,
                left: lefts.len(),
                right: rhs_values.len(),
            },
        );
        return;
    }
    let ghost start = ctx@;
    let ghost t = table@;
    let ghost all = rhs_values@;
    let ghost rhs = known_of(all);
    let ghost targets = lefts_of(lefts@);
    let ghost more = crate::labels::backtraces::trace_of_ref(explicit);
    let mut left = rhs_values;
    let n: usize = lefts.len();
    let mut i: usize = 0;
    proof {
        assert(all.skip(0) =~= all);
    }
    while i < n
        invariant
            i <= n,
            n == lefts@.len(),
            n == all.len(),
            rhs == known_of(all),
            targets == lefts_of(lefts@),
            more == crate::labels::backtraces::trace_of_ref(explicit),
            subtract.wf(),
            left@ == all.skip(i as int),
            ctx.wf(),
            table@.wf(),
            start.log.file is Some,
            same_place(start, ctx@),
            table@.symbols.len() == t.symbols.len(),
            forall|i: int|
                0 <= i < lefts@.len() ==> (#[trigger] lefts@[i]).symbol < t.symbols.len(),
            (ctx@, table@) == all_assigned(
                start,
                t,
                targets,
                kind,
                rhs,
                simple,
                more,
                subtract@,
                location,
                regions@,
                i as int,
            ),
        decreases n - i,
    {
        let (value, known_const) = left.remove(0);
        proof {
            assert((value, known_const) == all[i as int]);
            assert(left@ =~= all.skip(i + 1));
            assert(rhs[i as int] == (value@, const_of(known_const)));
            assert(targets[i as int] == lefts@[i as int]@);
        }
        let outside_split = is_outside_all(
            regions,
            &table.symbol(lefts[i].symbol).declared_name,
        );
        let assignment = Assignment {
            kind,
            rhs: value,
            known_const,
            simple,
            explicit,
            subtract,
            location,
            outside_split,
        };
        lefts[i].assign(ctx, table, assignment);
        i = i + 1;
    }
}

/// What several values carry, one by one.
pub open spec fn flows_of_values(values: Seq<KnownModel>) -> Seq<Option<Trace>> {
    values.map_values(|p: KnownModel| carried(p.0))
}

fn collect_flows(values: &Vec<(Value, Option<SimpleConstValue>)>) -> (r: Vec<
    Option<LabelBacktrace>,
>)
    ensures
        flows_of(r@) == flows_of_values(known_of(values@)),
{
    let mut r: Vec<Option<LabelBacktrace>> = Vec::new();
    let n: usize = values.len();
    let mut i: usize = 0;
    while i < n
        invariant
            i <= n,
            n == values@.len(),
            r@.len() == i,
            forall|k: int| 0 <= k < i ==> trace_of(#[trigger] r@[k]) == carried(values@[k].0@),
        decreases n - i,
    {
        r.push(values[i].0.backtrace());
        i = i + 1;
    }
    proof {
        assert(flows_of(r@) =~= flows_of_values(known_of(values@)));
    }
    r
}

/// Visits an assignment, whose expressions have these values. One that also
/// computes something can only have one operand.
pub fn visit_assignment_with(
    ctx: &mut AnalysisContext,
    table: &mut SymbolTable,
    simple: bool,
    lefts: &Vec<LeftValue>,
    rhs_values: Vec<(Value, Option<SimpleConstValue>)>,
    annotation: Option<&Annotation>,
    location: Location,
    regions: &SplitRegions,
)
    requires
        old(ctx).wf(),
        old(table)@.wf(),
        old(ctx)@.log.file is Some,
        forall|i: int|
            0 <= i < lefts@.len() ==> (#[trigger] lefts@[i]).symbol < old(table)@.symbols.len(),
        can_judge(
            old(ctx)@,
            flows_of_values(expanded_values(known_of(rhs_values@), lefts@.len())),
        ),
    ensures
        final(ctx)@.log.file is Some,
        final(ctx).wf(),
        final(table)@.wf(),
        !simple && lefts@.len() != 1 ==> final(table)@ == old(table)@ && final(ctx)@ == (
        ContextModel {
            log: old(ctx)@.log.with_error(
                ErrorModel::MultiComplexAssignment { location, num: lefts@.len() as usize },
            ),
            ..old(ctx)@
        }),
        simple || lefts@.len() == 1 ==> ({
            let rhs = expanded_values(known_of(rhs_values@), lefts@.len());
            let read = annotated(
                old(ctx)@,
                annotation,
                AnnotationSite::Assignment,
                SinkKind::Assignment,
                flows_of_values(rhs),
                location,
            );
            if lefts@.len() != rhs.len() {
                &&& final(table)@ == old(table)@
                &&& final(ctx)@ == (ContextModel {
                    log: read.log.with_error(
                        ErrorModel::UnevenAssignment {
                            location,
                            left: lefts@.len() as usize,
                            right: rhs.len() as usize,
                        },
                    ),
                    ..read
                })
            } else {
                (final(ctx)@, final(table)@) == all_assigned(
                    read,
                    old(table)@,
                    lefts_of(lefts@),
                    LabelBacktraceKind::Assignment,
                    rhs,
                    simple,
                    explicit_of(
                        annotation,
                        AnnotationSite::Assignment,
                        None,
                        PinnedModel { file: old(ctx)@.log.file->0, inner: location },
                    ),
                    subtract_of(annotation, AnnotationSite::Assignment),
                    location,
                    regions@,
                    lefts@.len() as int,
                )
            }
        }),
{
    if !simple && lefts.len() != 1 {
        ctx.log.report_error(
            AnalysisErrorKind::MultiComplexAssignment { location, num: lefts.len() },
        );
        return;
    }
    let values = expand_rhs_values(rhs_values, lefts.len());
    proof {
        assert(known_of(values@).len() == values@.len());
    }
    let flows = collect_flows(&values);
    let (explicit, subtract) = apply_value_annotation(
        ctx,
        annotation,
        AnnotationSite::Assignment,
        SinkKind::Assignment,
        None,
        &flows,
        location,
    );
    visit_raw_assignment(
        ctx,
        table,
        LabelBacktraceKind::Assignment,
        simple,
        lefts,
        values,
        explicit.as_ref(),
        &subtract,
        location,
        regions,
    );
}

/// Visits a statement that adds one to an operand, or takes one away from it:
/// it is like an assignment that computes something with a constant.
pub fn visit_incdec(
    ctx: &mut AnalysisContext,
    table: &mut SymbolTable,
    operand: LeftValue,
    location: Location,
    regions: &SplitRegions,
)
    requires
        old(ctx).wf(),
        old(table)@.wf(),
        old(ctx)@.log.file is Some,
        operand.symbol < old(table)@.symbols.len(),
    ensures
        final(ctx)@.log.file is Some,
        final(ctx).wf(),
        final(table)@.wf(),
        ({
            let one = (
                ValueModel::simple(
                    None,
                    PinnedModel { file: old(ctx)@.log.file->0, inner: location },
                ),
                None::<Seq<char>>,
            );
            let a = assignment_of(
                old(table)@,
                operand@,
                LabelBacktraceKind::Assignment,
                one,
                false,
                None,
                Set::<TagModel>::empty(),
                location,
                regions@,
            );
            &&& final(ctx)@ == a.reported(old(ctx)@, old(table)@, operand@)
            &&& final(table)@ == a.assigned(old(ctx)@, old(table)@, operand@)
        }),
{
    let at = ctx.log.pin(location);
    let outside_split = is_outside_all(regions, &table.symbol(operand.symbol).declared_name);
    let nothing = Label::Bottom;
    let assignment = Assignment {
        kind: LabelBacktraceKind::Assignment,
        rhs: Value::new_bottom(at, None),
        known_const: None,
        simple: false,
        explicit: None,
        subtract: &nothing,
        location,
        outside_split,
    };
    operand.assign(ctx, table, assignment);
}

} // verus!
