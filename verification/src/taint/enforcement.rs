//! Holding flows to the security policy.

use vstd::prelude::*;

use crate::context::branches::copy_trace;
use crate::context::deferred_checks::{copy_labels, CheckModel, DeferredEnforcementCheck};
use crate::context::{AnalysisContext, ContextModel};
use crate::errors::{AnalysisErrorKind, ErrorModel};
use crate::labels::backtraces::{combined, label_or_bottom, trace_of, LabelBacktrace,
    LabelBacktraceKind, Trace};
use crate::labels::tags::TagModel;
use crate::labels::{has_synthetic, label_views, Label};
use crate::locations::{Location, PinnedModel};
use crate::policy::{SinkDescriptor, SinkModel};

verus! {

/// What a flow carries with it at a place: the flow itself, and what the
/// surrounding control flow implies.
pub open spec fn aggregated(ctx: ContextModel, flow: Option<Trace>, location: Location) -> Option<
    Trace,
> {
    combined(
        flow,
        ctx.branches.current(),
        LabelBacktraceKind::EnforcementAggregation,
        PinnedModel { file: ctx.log.file->0, inner: location },
    )
}

/// Whether a flow can only be judged once a function is called.
pub open spec fn is_open(flow: Option<Trace>) -> bool {
    has_synthetic(label_or_bottom(flow))
}

/// The state after a flow has reached a sink.
pub open spec fn sink_triggered(
    ctx: ContextModel,
    sink: SinkModel,
    flow: Option<Trace>,
) -> ContextModel {
    let found = aggregated(ctx, flow, sink.location);
    if is_open(found) {
        ctx.deferring(CheckModel::Sink { sink, flow: found->0, file: ctx.log.file->0 })
    } else if sink.accepts(label_or_bottom(found)) {
        ctx
    } else {
        ContextModel {
            log: ctx.log.with_error(ErrorModel::InsecureFlow { sink, backtrace: found->0 }),
            ..ctx
        }
    }
}

/// The first label of a sequence; bottom if there is none.
pub open spec fn first_expected(expected: Seq<Set<TagModel>>) -> Set<TagModel> {
    if expected.len() > 0 {
        expected[0]
    } else {
        Set::<TagModel>::empty()
    }
}

/// The label of a sequence that concerns a call: the one at its position, or
/// else the last one; bottom if there is none.
pub open spec fn expected_at(expected: Seq<Set<TagModel>>, call: nat) -> Set<TagModel> {
    if call < expected.len() {
        expected[call as int]
    } else if expected.len() > 0 {
        expected.last()
    } else {
        Set::<TagModel>::empty()
    }
}

/// The state after a label is asserted of a flow.
pub open spec fn assertion_triggered(
    ctx: ContextModel,
    expected: Seq<Set<TagModel>>,
    flow: Option<Trace>,
    location: Location,
) -> ContextModel {
    let found = aggregated(ctx, flow, location);
    if is_open(found) {
        ctx.deferring(
            CheckModel::Assertion { expected, found, file: ctx.log.file->0, location },
        )
    } else if label_or_bottom(found) == first_expected(expected) {
        ctx
    } else {
        ContextModel {
            log: ctx.log.with_error(
                ErrorModel::FalseAssertion { expected: first_expected(expected), found, location },
            ),
            ..ctx
        }
    }
}

/// The state after a check that was put off is made at a call.
pub open spec fn check_triggered(ctx: ContextModel, check: CheckModel, call: nat) -> ContextModel {
    match check {
        CheckModel::Sink { sink, flow, file } => if sink.accepts(flow.label) {
            ctx
        } else {
            ContextModel {
                log: ctx.log.with_error_at(
                    file,
                    ErrorModel::InsecureFlow { sink, backtrace: flow },
                ),
                ..ctx
            }
        },
        CheckModel::Assertion { expected, found, file, location } => if label_or_bottom(found)
            == expected_at(expected, call) {
            ctx
        } else {
            ContextModel {
                log: ctx.log.with_error_at(
                    file,
                    ErrorModel::FalseAssertion {
                        expected: expected_at(expected, call),
                        found,
                        location,
                    },
                ),
                ..ctx
            }
        },
    }
}

fn label_of(b: &Option<LabelBacktrace>) -> (r: Label)
    ensures
        r@ == label_or_bottom(trace_of(*b)),
        r.wf(),
{
    match b {
        Some(x) => x.label().clone(),
        None => Label::Bottom,
    }
}

fn aggregate(
    ctx: &AnalysisContext,
    backtrace: Option<LabelBacktrace>,
    location: Location,
) -> (r: Option<LabelBacktrace>)
    requires
        ctx@.log.file is Some,
    ensures
        trace_of(r) == aggregated(ctx@, trace_of(backtrace), location),
{
    let branch = match ctx.branches.branch_backtrace() {
        Some(b) => Some(b.clone()),
        None => None,
    };
    let at = ctx.log.pin(location);
    LabelBacktrace::combine_options(
        backtrace,
        branch,
        LabelBacktraceKind::EnforcementAggregation,
        &at,
    )
}

fn current_file(ctx: &AnalysisContext) -> (r: String)
    requires
        ctx@.log.file is Some,
    ensures
        r@ == ctx@.log.file->0,
{
    match ctx.log.current_file() {
        Some(f) => f.to_owned(),
        None => {
            proof {
                assert(false);
            }
            vstd::pervasive::unreached()
        },
    }
}

/// Reports a flow that reaches a sink, if the sink does not accept it; puts
/// off the decision if it depends on where a function is called.
pub fn trigger_sink(
    ctx: &mut AnalysisContext,
    sink: &SinkDescriptor,
    backtrace: Option<LabelBacktrace>,
)
    requires
        old(ctx).wf(),
        old(ctx)@.log.file is Some,
        sink.label.wf(),
        is_open(aggregated(old(ctx)@, trace_of(backtrace), sink.location)) ==> old(
            ctx,
        )@.can_defer(),
    ensures
        final(ctx).wf(),
        final(ctx)@ == sink_triggered(old(ctx)@, sink@, trace_of(backtrace)),
{
    let found = aggregate(ctx, backtrace, sink.location);
    let label = label_of(&found);
    let open = label.has_any_synthetic();
    if !open && sink.accepts(&label) {
        return;
    }
    match found {
        Some(found) => {
            if open {
                let file = current_file(ctx);
                ctx.defer_enforcement_check(
                    DeferredEnforcementCheck::Sink { sink: sink.clone(), found, file },
                );
            } else {
                ctx.log.report_error(
                    AnalysisErrorKind::InsecureFlow { sink: sink.clone(), backtrace: found },
                );
            }
        },
        None => {
            proof {
                assert(label@ == Set::<TagModel>::empty());
                assert(false);
            }
        },
    }
}

/// Reports a flow that does not have the label asserted of it; puts off the
/// decision if it depends on where a function is called.
pub fn trigger_assertion(
    ctx: &mut AnalysisContext,
    expected_sequence: &Vec<Label>,
    backtrace: Option<LabelBacktrace>,
    location: Location,
)
    requires
        old(ctx).wf(),
        old(ctx)@.log.file is Some,
        forall|i: int|
            0 <= i < expected_sequence@.len() ==> (#[trigger] expected_sequence@[i]).wf(),
        is_open(aggregated(old(ctx)@, trace_of(backtrace), location)) ==> old(ctx)@.can_defer(),
    ensures
        final(ctx).wf(),
        final(ctx)@ == assertion_triggered(
            old(ctx)@,
            label_views(expected_sequence@),
            trace_of(backtrace),
            location,
        ),
{
    let found = aggregate(ctx, backtrace, location);
    let label = label_of(&found);
    if label.has_any_synthetic() {
        let file = current_file(ctx);
        ctx.defer_enforcement_check(
            DeferredEnforcementCheck::Assertion {
                expected_sequence: copy_labels(expected_sequence),
                found,
                file,
                location,
            },
        );
        return;
    }
    let expected = if expected_sequence.len() > 0 {
        expected_sequence[0].clone()
    } else {
        Label::Bottom
    };
    proof {
        assert(expected@ == first_expected(label_views(expected_sequence@)));
    }
    if label.same_as(&expected) {
        return;
    }
    ctx.log.report_error(AnalysisErrorKind::FalseAssertion { expected, found, location });
}

/// Makes a check that was put off, if it does not depend on yet another call.
/// Returns whether it was made.
pub fn try_trigger_deferred_check(
    ctx: &mut AnalysisContext,
    check: &DeferredEnforcementCheck,
    call_index: usize,
) -> (r: bool)
    requires
        old(ctx).wf(),
        check.wf(),
    ensures
        final(ctx).wf(),
        r == !is_open(check@.flow()),
        final(ctx)@ == if r {
            check_triggered(old(ctx)@, check@, call_index as nat)
        } else {
            old(ctx)@
        },
{
    match check {
        DeferredEnforcementCheck::Sink { sink, found, file } => {
            if found.label().has_any_synthetic() {
                return false;
            }
            if !sink.accepts(found.label()) {
                ctx.log.report_error_at(
                    file.as_str(),
                    AnalysisErrorKind::InsecureFlow {
                        sink: sink.clone(),
                        backtrace: found.clone(),
                    },
                );
            }
        },
        DeferredEnforcementCheck::Assertion { expected_sequence, found, file, location } => {
            let label = label_of(found);
            if label.has_any_synthetic() {
                return false;
            }
            let n: usize = expected_sequence.len();
            let expected = if call_index < n {
                expected_sequence[call_index].clone()
            } else if n > 0 {
                expected_sequence[n - 1].clone()
            } else {
                Label::Bottom
            };
            proof {
                assert(expected@ == expected_at(
                    label_views(expected_sequence@),
                    call_index as nat,
                ));
            }
            if !label.same_as(&expected) {
                ctx.log.report_error_at(
                    file.as_str(),
                    AnalysisErrorKind::FalseAssertion {
                        expected,
                        found: copy_trace(found),
                        location: *location,
                    },
                );
            }
        },
    }
    true
}

/// A flow is reported at a sink, where errors are reported, exactly if what
/// reaches the sink depends on no call and the sink does not accept it.
pub proof fn law_insecure_flows_are_reported(
    ctx: ContextModel,
    sink: SinkModel,
    flow: Option<Trace>,
)
    requires
        ctx.log.listens(),
        ctx.log.file is Some,
    ensures
        ({
            let found = aggregated(ctx, flow, sink.location);
            let before = ctx.log.errors;
            let after = sink_triggered(ctx, sink, flow).log.errors;
            &&& before.is_prefix_of(after)
            &&& after.len() > before.len() <==> !is_open(found) && !sink.accepts(
                label_or_bottom(found),
            )
        }),
{
}

/// No flow without a label is ever reported at a sink.
pub proof fn law_bottom_flows_anywhere(ctx: ContextModel, sink: SinkModel)
    requires
        ctx.branches.current() is None,
    ensures
        sink_triggered(ctx, sink, None) == ctx,
{
    assert(!has_synthetic(Set::<TagModel>::empty()));
}

} // verus!
