//! What is checked at a call.

use vstd::prelude::*;

use crate::ast::{text_refs, Annotation};
use crate::build_constraints::views;
use crate::context::branches::copy_trace;
use crate::context::deferred_checks::{checks_of, checks_wf, CheckModel, DeferredEnforcementCheck};
use crate::context::{AnalysisContext, ContextModel};
use crate::errors::{AnalysisErrorKind, ErrorModel};
use crate::functions::{FunctionModel, FunctionRef};
use crate::labels::backtraces::{combined, label_or_bottom, realized, substitutions_of, trace_of, trace_of_ref,
    LabelBacktrace, LabelBacktraceKind, Substitution, Trace};
use crate::labels::tags::{SyntheticSlot, TagModel};
use crate::labels::{has_synthetic, joined, label_views, split_at_arrows, written, Label};
use crate::locations::{Location, PinnedModel};
use crate::policy::blanket_directives::{directives_of, BlanketDirective, BlanketDirectiveKind,
    DirectiveModel};
use crate::policy::{written_policy, SinkDescriptor, SinkKind, SinkModel};
use crate::taint::annotations::{parse_supported_directive, supported_directive,
    AnnotationDirective, AnnotationSite};
use crate::taint::enforcement::{aggregated, assertion_triggered, check_triggered, is_open,
    sink_triggered, trigger_assertion, trigger_sink, try_trigger_deferred_check};

verus! {

/// What optional backtraces stand for.
pub open spec fn flows_of(s: Seq<Option<LabelBacktrace>>) -> Seq<Option<Trace>> {
    s.map_values(|b: Option<LabelBacktrace>| trace_of(b))
}

/// Whether a flow, along with the branches around, depends on no call.
pub open spec fn is_closed(ctx: ContextModel, flow: Option<Trace>) -> bool {
    !has_synthetic(label_or_bottom(flow)) && !has_synthetic(
        label_or_bottom(ctx.branches.current()),
    )
}

/// Whether every flow of a list can be judged, now or later.
pub open spec fn can_judge(ctx: ContextModel, flows: Seq<Option<Trace>>) -> bool {
    ctx.can_defer() || forall|i: int| 0 <= i < flows.len() ==> is_closed(ctx, #[trigger] flows[i])
}

fn depends_on_call(b: Option<&LabelBacktrace>) -> (r: bool)
    ensures
        r == has_synthetic(label_or_bottom(trace_of_ref(b))),
{
    match b {
        Some(x) => x.label().has_any_synthetic(),
        None => false,
    }
}

/// Whether every flow of a list can be judged, now or later.
pub fn are_judgeable(ctx: &AnalysisContext, flows: &Vec<Option<LabelBacktrace>>) -> (r: bool)
    ensures
        r == can_judge(ctx@, flows_of(flows@)),
{
    let n: usize = ctx.funcs.len();
    if n > 0 {
        proof {
            assert(ctx@.funcs.last() == ctx.funcs@[n - 1]@);
        }
        if !ctx.funcs[n - 1].func.is_main() {
            return true;
        }
    }
    let guarded = depends_on_call(ctx.branches.branch_backtrace());
    let ghost all = flows_of(flows@);
    let m: usize = flows.len();
    let mut i: usize = 0;
    while i < m
        invariant
            i <= m,
            m == flows@.len(),
            all == flows_of(flows@),
            guarded == has_synthetic(label_or_bottom(ctx@.branches.current())),
            !ctx@.can_defer(),
            forall|k: int| 0 <= k < i ==> is_closed(ctx@, #[trigger] all[k]),
        decreases m - i,
    {
        proof {
            assert(all[i as int] == trace_of(flows@[i as int]));
        }
        if guarded || depends_on_call(flows[i].as_ref()) {
            proof {
                assert(!is_closed(ctx@, all[i as int]));
            }
            return false;
        }
        i = i + 1;
    }
    true
}

/// What depends on no call does not come to depend on one where it is judged.
pub proof fn lemma_closed_is_not_open(ctx: ContextModel, flow: Option<Trace>, location: Location)
    requires
        is_closed(ctx, flow),
    ensures
        !is_open(aggregated(ctx, flow, location)),
{
    match (flow, ctx.branches.current()) {
        (Some(a), Some(b)) => {
            let both = joined(a.label, b.label);
            crate::labels::laws::lemma_joined_nonempty(a.label, b.label);
            assert(!has_synthetic(both)) by {
                if has_synthetic(both) {
                    let t = choose|t: TagModel| #[trigger] both.contains(t) && t is Synthetic;
                    assert(a.label.contains(t) || b.label.contains(t));
                }
            }
            let found = aggregated(ctx, flow, location);
            assert(found is Some);
            if both == Set::<TagModel>::empty() {
                assert(a.label == Set::<TagModel>::empty());
            }
            lemma_united_label(a, b, ctx, location);
        },
        _ => {},
    }
}

proof fn lemma_united_label(a: Trace, b: Trace, ctx: ContextModel, location: Location)
    ensures
        joined(a.label, b.label) != Set::<TagModel>::empty() ==> combined(
            Some(a),
            Some(b),
            LabelBacktraceKind::EnforcementAggregation,
            PinnedModel { file: ctx.log.file->0, inner: location },
        )->0.label == joined(a.label, b.label),
{
}

/// The state after the arguments up to a position have reached a sink, as far
/// as it is meant for them.
pub open spec fn args_at_sink(
    ctx: ContextModel,
    sink: SinkModel,
    arg_index: Option<usize>,
    flows: Seq<Option<Trace>>,
    n: int,
) -> ContextModel
    decreases n,
{
    if n <= 0 {
        ctx
    } else {
        let before = args_at_sink(ctx, sink, arg_index, flows, n - 1);
        if arg_index matches Some(k) && k != n - 1 {
            before
        } else {
            sink_triggered(before, sink, flows[n - 1])
        }
    }
}

/// The state after a label is asserted of the arguments up to a position.
pub open spec fn args_asserted(
    ctx: ContextModel,
    expected: Seq<Set<TagModel>>,
    flows: Seq<Option<Trace>>,
    location: Location,
    n: int,
) -> ContextModel
    decreases n,
{
    if n <= 0 {
        ctx
    } else {
        assertion_triggered(
            args_asserted(ctx, expected, flows, location, n - 1),
            expected,
            flows[n - 1],
            location,
        )
    }
}

/// The sink that a directive makes of a call.
pub open spec fn sink_at(d: DirectiveModel, location: Location) -> SinkModel {
    SinkModel { kind: SinkKind::Function, allow: d.kind is AllowSink, label: d.label, location }
}

/// The state after the arguments have reached the sinks among the directives
/// up to a position.
pub open spec fn args_at_sinks(
    ctx: ContextModel,
    directives: Seq<DirectiveModel>,
    flows: Seq<Option<Trace>>,
    location: Location,
    n: int,
) -> ContextModel
    decreases n,
{
    if n <= 0 {
        ctx
    } else {
        let before = args_at_sinks(ctx, directives, flows, location, n - 1);
        let d = directives[n - 1];
        if d.kind.is_sink() {
            args_at_sink(before, sink_at(d, location), d.arg_index, flows, flows.len() as int)
        } else {
            before
        }
    }
}

/// The labels that a list of written tags stands for, one after the other.
pub open spec fn written_sequence(texts: Seq<Seq<char>>) -> Seq<Set<TagModel>> {
    split_at_arrows(texts).map_values(|piece: Seq<Seq<char>>| written(piece))
}

/// The state after the annotation of a call has had its effect.
pub open spec fn call_annotated(
    ctx: ContextModel,
    annotation: Option<&Annotation>,
    flows: Seq<Option<Trace>>,
    location: Location,
) -> ContextModel {
    match annotation {
        None => ctx,
        Some(a) => match supported_directive(AnnotationSite::Call, a.directive@) {
            Some(AnnotationDirective::Assert) => args_asserted(
                ctx,
                written_sequence(views(a.tags@)),
                flows,
                location,
                flows.len() as int,
            ),
            Some(directive) => if directive is DenySink && a.tags@.len() == 0 {
                ContextModel {
                    log: ctx.log.with_error(
                        ErrorModel::InvalidDenySinkSemantics { location: a.location },
                    ),
                    ..ctx
                }
            } else {
                args_at_sink(
                    ctx,
                    SinkModel {
                        kind: SinkKind::Call,
                        allow: directive is AllowSink,
                        label: written_policy(views(a.tags@)),
                        location,
                    },
                    None,
                    flows,
                    flows.len() as int,
                )
            },
            None => ContextModel {
                log: ctx.log.with_error(
                    ErrorModel::UnknownAnnotationDirective {
                        directive: a.directive@,
                        location: a.location,
                    },
                ),
                ..ctx
            },
        },
    }
}

/// The state after the checks up to a position that were put off until a call
/// are made, or are put off further.
pub open spec fn checks_handled(
    ctx: ContextModel,
    checks: Seq<CheckModel>,
    func: FunctionModel,
    subs: Seq<Substitution>,
    call: nat,
    n: int,
) -> ContextModel
    decreases n,
{
    if n <= 0 {
        ctx
    } else {
        let before = checks_handled(ctx, checks, func, subs, call, n - 1);
        match checks[n - 1].realized(func, subs, ctx.log.stage is EnforceSecurityPolicies) {
            Some(check) => if is_open(check.flow()) {
                before.deferring(check)
            } else {
                check_triggered(before, check, call)
            },
            None => before,
        }
    }
}

/// Whether the checks that were put off until a call can be made there, or put
/// off further.
pub open spec fn can_handle(
    ctx: ContextModel,
    checks: Seq<CheckModel>,
    func: FunctionModel,
    subs: Seq<Substitution>,
) -> bool {
    ctx.can_defer() || forall|i: int|
        0 <= i < checks.len() ==> ((#[trigger] checks[i]).realized(
            func,
            subs,
            ctx.log.stage is EnforceSecurityPolicies,
        ) matches Some(check) ==> !is_open(check.flow()))
}

/// Whether two states differ in nothing but errors and checks.
pub open spec fn same_place(a: ContextModel, b: ContextModel) -> bool {
    &&& a.branches == b.branches
    &&& a.log.file == b.log.file
    &&& a.log.stage == b.log.stage
    &&& a.log.suppression == b.log.suppression
    &&& a.funcs.len() == b.funcs.len()
    &&& a.can_defer() == b.can_defer()
}

/// Sinks change nothing but errors and checks.
pub proof fn lemma_sink_stays(ctx: ContextModel, sink: SinkModel, flow: Option<Trace>)
    requires
        is_open(aggregated(ctx, flow, sink.location)) ==> ctx.can_defer(),
    ensures
        same_place(ctx, sink_triggered(ctx, sink, flow)),
{
}

/// Lets the arguments of a call reach a sink, as far as it is meant for them.
pub fn trigger_sink_for_args(
    ctx: &mut AnalysisContext,
    sink: &SinkDescriptor,
    arg_index: Option<usize>,
    backtraces: &Vec<Option<LabelBacktrace>>,
)
    requires
        old(ctx).wf(),
        old(ctx)@.log.file is Some,
        sink.label.wf(),
        can_judge(old(ctx)@, flows_of(backtraces@)),
    ensures
        final(ctx).wf(),
        final(ctx)@ == args_at_sink(
            old(ctx)@,
            sink@,
            arg_index,
            flows_of(backtraces@),
            backtraces@.len() as int,
        ),
        same_place(old(ctx)@, final(ctx)@),
{
    let ghost start = ctx@;
    let ghost flows = flows_of(backtraces@);
    let n: usize = backtraces.len();
    let mut i: usize = 0;
    while i < n
        invariant
            i <= n,
            n == backtraces@.len(),
            flows == flows_of(backtraces@),
            sink.label.wf(),
            ctx.wf(),
            start.log.file is Some,
            can_judge(start, flows),
            same_place(start, ctx@),
            ctx@ == args_at_sink(start, sink@, arg_index, flows, i as int),
        decreases n - i,
    {
        let meant = match arg_index {
            Some(k) => k == i,
            None => true,
        };
        if meant {
            proof {
                assert(flows[i as int] == trace_of(backtraces@[i as int]));
                if !start.can_defer() {
                    lemma_closed_is_not_open(ctx@, flows[i as int], sink.location);
                }
                lemma_sink_stays(ctx@, sink@, flows[i as int]);
            }
            trigger_sink(ctx, sink, copy_trace(&backtraces[i]));
        }
        i = i + 1;
    }
}

/// Asserts labels of the arguments of a call.
pub fn trigger_assertion_for_args(
    ctx: &mut AnalysisContext,
    sequence: &Vec<Label>,
    backtraces: &Vec<Option<LabelBacktrace>>,
    location: Location,
)
    requires
        old(ctx).wf(),
        old(ctx)@.log.file is Some,
        forall|i: int| 0 <= i < sequence@.len() ==> (#[trigger] sequence@[i]).wf(),
        can_judge(old(ctx)@, flows_of(backtraces@)),
    ensures
        final(ctx).wf(),
        final(ctx)@ == args_asserted(
            old(ctx)@,
            label_views(sequence@),
            flows_of(backtraces@),
            location,
            backtraces@.len() as int,
        ),
        same_place(old(ctx)@, final(ctx)@),
{
    let ghost start = ctx@;
    let ghost flows = flows_of(backtraces@);
    let n: usize = backtraces.len();
    let mut i: usize = 0;
    while i < n
        invariant
            i <= n,
            n == backtraces@.len(),
            flows == flows_of(backtraces@),
            forall|i: int| 0 <= i < sequence@.len() ==> (#[trigger] sequence@[i]).wf(),
            ctx.wf(),
            start.log.file is Some,
            can_judge(start, flows),
            same_place(start, ctx@),
            ctx@ == args_asserted(start, label_views(sequence@), flows, location, i as int),
        decreases n - i,
    {
        proof {
            assert(flows[i as int] == trace_of(backtraces@[i as int]));
            if !start.can_defer() {
                lemma_closed_is_not_open(ctx@, flows[i as int], location);
            }
        }
        trigger_assertion(ctx, sequence, copy_trace(&backtraces[i]), location);
        i = i + 1;
    }
}

/// Lets the annotation of a call have its effect.
pub fn apply_call_annotation(
    ctx: &mut AnalysisContext,
    annotation: Option<&Annotation>,
    backtraces: &Vec<Option<LabelBacktrace>>,
    location: Location,
)
    requires
        old(ctx).wf(),
        old(ctx)@.log.file is Some,
        can_judge(old(ctx)@, flows_of(backtraces@)),
    ensures
        final(ctx).wf(),
        final(ctx)@ == call_annotated(old(ctx)@, annotation, flows_of(backtraces@), location),
        same_place(old(ctx)@, final(ctx)@),
{
    let annotation = match annotation {
        Some(a) => a,
        None => {
            return;
        },
    };
    let ghost start = ctx@;
    let directive = match parse_supported_directive(
        &mut ctx.log,
        annotation,
        AnnotationSite::Call,
    ) {
        Some(d) => d,
        None => {
            return;
        },
    };
    proof {
        assert(ctx@ =~= start);
    }
    match directive {
        AnnotationDirective::Assert => {
            let sequence = Label::sequence_from_tags(&text_refs(&annotation.tags));
            proof {
                assert(label_views(sequence@) =~= written_sequence(views(annotation.tags@)));
            }
            trigger_assertion_for_args(ctx, &sequence, backtraces, location);
        },
        _ => {
            let allow = match directive {
                AnnotationDirective::AllowSink => true,
                _ => false,
            };
            match SinkDescriptor::new(SinkKind::Call, allow, text_refs(&annotation.tags), location) {
                Some(sink) => {
                    trigger_sink_for_args(ctx, &sink, None, backtraces);
                },
                None => {
                    ctx.log.report_error(
                        AnalysisErrorKind::InvalidDenySinkSemantics {
                            location: annotation.location,
                        },
                    );
                },
            }
        },
    }
}

/// Lets the arguments of a call reach the sinks that the policy makes of the
/// function.
pub fn trigger_function_sinks(
    ctx: &mut AnalysisContext,
    directives: &Vec<BlanketDirective>,
    backtraces: &Vec<Option<LabelBacktrace>>,
    location: Location,
)
    requires
        old(ctx).wf(),
        old(ctx)@.log.file is Some,
        can_judge(old(ctx)@, flows_of(backtraces@)),
    ensures
        final(ctx).wf(),
        final(ctx)@ == args_at_sinks(
            old(ctx)@,
            directives_of(directives@),
            flows_of(backtraces@),
            location,
            directives@.len() as int,
        ),
        same_place(old(ctx)@, final(ctx)@),
{
    let ghost start = ctx@;
    let ghost flows = flows_of(backtraces@);
    let n: usize = directives.len();
    let mut i: usize = 0;
    while i < n
        invariant
            i <= n,
            n == directives@.len(),
            flows == flows_of(backtraces@),
            flows.len() == backtraces@.len(),
            ctx.wf(),
            start.log.file is Some,
            can_judge(start, flows),
            same_place(start, ctx@),
            ctx@ == args_at_sinks(
                start,
                directives_of(directives@),
                flows,
                location,
                i as int,
            ),
        decreases n - i,
    {
        let d = &directives[i];
        let allow = match d.kind() {
            BlanketDirectiveKind::AllowSink => Some(true),
            BlanketDirectiveKind::DenySink => Some(false),
            _ => None,
        };
        match allow {
            Some(allow) => {
                let sink = SinkDescriptor {
                    kind: SinkKind::Function,
                    allow,
                    label: d.label().clone(),
                    location,
                };
                proof {
                    assert(sink@ =~= sink_at(d@, location));
                    assert(can_judge(ctx@, flows)) by {
                        if !start.can_defer() {
                            assert forall|k: int| 0 <= k < flows.len() implies is_closed(
                                ctx@,
                                #[trigger] flows[k],
                            ) by {
                                assert(is_closed(start, flows[k]));
                            }
                        }
                    }
                }
                trigger_sink_for_args(ctx, &sink, d.arg_index(), backtraces);
            },
            None => {},
        }
        i = i + 1;
    }
}

/// Makes the checks that were put off until a call, or puts them off further.
pub fn handle_deferred_checks(
    ctx: &mut AnalysisContext,
    checks: &Vec<DeferredEnforcementCheck>,
    func: &FunctionRef,
    substitutions: &Vec<(SyntheticSlot, Option<&LabelBacktrace>)>,
    call_index: usize,
)
    requires
        old(ctx).wf(),
        checks_wf(checks@),
        can_handle(old(ctx)@, checks_of(checks@), func@, substitutions_of(substitutions@)),
    ensures
        final(ctx).wf(),
        final(ctx)@ == checks_handled(
            old(ctx)@,
            checks_of(checks@),
            func@,
            substitutions_of(substitutions@),
            call_index as nat,
            checks@.len() as int,
        ),
        same_place(old(ctx)@, final(ctx)@),
{
    let ghost start = ctx@;
    let ghost cs = checks_of(checks@);
    let ghost subs = substitutions_of(substitutions@);
    let for_enforcement = ctx.log.stage().has_stable_labels();
    let n: usize = checks.len();
    let mut i: usize = 0;
    while i < n
        invariant
            i <= n,
            n == checks@.len(),
            cs == checks_of(checks@),
            subs == substitutions_of(substitutions@),
            for_enforcement == (start.log.stage is EnforceSecurityPolicies),
            checks_wf(checks@),
            ctx.wf(),
            can_handle(start, cs, func@, subs),
            same_place(start, ctx@),
            ctx@ == checks_handled(start, cs, func@, subs, call_index as nat, i as int),
        decreases n - i,
    {
        proof {
            assert(cs[i as int] == checks@[i as int]@);
            assert(checks@[i as int].wf());
        }
        match checks[i].realize(func, substitutions, for_enforcement) {
            Some(check) => {
                let triggered = try_trigger_deferred_check(ctx, &check, call_index);
                if !triggered {
                    ctx.defer_enforcement_check(check);
                }
            },
            None => {},
        }
        i = i + 1;
    }
}

/// At a call that is made, each check that was put off until it is made, put
/// off further, or void; and what was reported before stays.
pub proof fn law_checks_keep_errors(
    ctx: ContextModel,
    checks: Seq<CheckModel>,
    func: FunctionModel,
    subs: Seq<Substitution>,
    call: nat,
    n: int,
)
    requires
        0 <= n <= checks.len(),
        can_handle(ctx, checks, func, subs),
    ensures
        ctx.log.errors.is_prefix_of(checks_handled(ctx, checks, func, subs, call, n).log.errors),
    decreases n,
{
    if n > 0 {
        law_checks_keep_errors(ctx, checks, func, subs, call, n - 1);
    }
}

} // verus!
