//! What holds of flows that reach sinks and assertions.

use vstd::prelude::*;

use crate::context::deferred_checks::CheckModel;
use crate::context::ContextModel;
use crate::errors::{ErrorModel, FindingModel};
use crate::labels::backtraces::{label_or_bottom, LabelBacktraceKind, Trace};
use crate::labels::tags::TagModel;
use crate::labels::trace_laws::sound;
use crate::labels::{axes_of, covers, has_synthetic, met, on_axes};
use crate::locations::{Location, PinnedModel};
use crate::policy::blanket_directives::DirectiveModel;
use crate::policy::{SinkKind, SinkModel};
use crate::taint::enforcement::{aggregated, assertion_triggered, check_triggered, is_open,
    sink_triggered};
use crate::taint::funcs::call_checks::{args_asserted, args_at_sink, args_at_sinks, is_closed};
use crate::values::laws::lemma_combined;

verus! {

/// A sink that lists what it allows accepts a label exactly if it covers each of
/// its tags that has no axis, or one on which the sink lists something; one that
/// lists what it denies accepts a label without wildcards exactly if it covers
/// none of its tags.
pub proof fn law_sinks_judge_by_tags(sink: SinkModel, label: Set<TagModel>)
    ensures
        sink.allow ==> (sink.accepts(label) <==> forall|t: TagModel| #[trigger]
            label.contains(t) && (t.axis() is None || exists|s: TagModel| #[trigger]
                sink.label.contains(s) && s.axis() == t.axis()) ==> covers(sink.label, t)),
        !sink.allow && (forall|t: TagModel| #[trigger]
            label.contains(t) ==> !(t is AxisWildcard)) ==> (sink.accepts(label)
            <==> forall|t: TagModel| #[trigger] label.contains(t) ==> !covers(sink.label, t)),
{
    let meant = on_axes(label, axes_of(sink.label));
    assert forall|t: TagModel| #[trigger] label.contains(t) implies (meant.contains(t) <==> (t.axis()
        is None || exists|s: TagModel| #[trigger]
        sink.label.contains(s) && s.axis() == t.axis())) by {
        if t.axis() is Some && meant.contains(t) {
            assert(axes_of(sink.label).contains(t.axis()->0));
            let s = choose|s: TagModel| #[trigger]
                sink.label.contains(s) && s.axis() == Some(t.axis()->0);
            assert(sink.label.contains(s));
        }
        if t.axis() is Some && (exists|s: TagModel| #[trigger]
            sink.label.contains(s) && s.axis() == t.axis()) {
            let s = choose|s: TagModel| #[trigger]
                sink.label.contains(s) && s.axis() == t.axis();
            assert(axes_of(sink.label).contains(t.axis()->0));
        }
    }
    if sink.allow {
        if sink.accepts(label) {
            assert forall|t: TagModel| #[trigger]
                label.contains(t) && (t.axis() is None || exists|s: TagModel| #[trigger]
                    sink.label.contains(s) && s.axis() == t.axis()) implies covers(
                sink.label,
                t,
            ) by {
                assert(meant.contains(t));
            }
        } else {
            let t = choose|t: TagModel| #[trigger] meant.contains(t) && !covers(sink.label, t);
            assert(label.contains(t));
        }
    }
    let both = met(label, sink.label);
    if !sink.allow && (forall|t: TagModel| #[trigger]
        label.contains(t) ==> !(t is AxisWildcard)) {
        assert forall|t: TagModel| #[trigger] both.contains(t) implies label.contains(t) && covers(
            sink.label,
            t,
        ) by {
            if !label.contains(t) {
                assert(covers(label, t));
                assert(label.contains(t.wildcard()->0));
            }
        }
        if sink.accepts(label) {
            assert forall|t: TagModel| #[trigger] label.contains(t) implies !covers(
                sink.label,
                t,
            ) by {
                if covers(sink.label, t) {
                    assert(both.contains(t));
                }
            }
        } else {
            if forall|t: TagModel| #[trigger] label.contains(t) ==> !covers(sink.label, t) {
                assert(both =~= Set::<TagModel>::empty());
            }
        }
    }
}

proof fn lemma_aggregated(ctx: ContextModel, flow: Option<Trace>, location: Location)
    requires
        flow matches Some(t) ==> sound(t),
        ctx.branches.current() matches Some(t) ==> sound(t),
    ensures
        label_or_bottom(aggregated(ctx, flow, location)) == label_or_bottom(flow).union(
            label_or_bottom(ctx.branches.current()),
        ),
{
    lemma_combined(
        flow,
        ctx.branches.current(),
        LabelBacktraceKind::EnforcementAggregation,
        PinnedModel { file: ctx.log.file->0, inner: location },
    );
}

proof fn lemma_closed(ctx: ContextModel, flow: Option<Trace>, location: Location)
    requires
        flow matches Some(t) ==> sound(t),
        ctx.branches.current() matches Some(t) ==> sound(t),
        is_closed(ctx, flow),
    ensures
        !is_open(aggregated(ctx, flow, location)),
{
    lemma_aggregated(ctx, flow, location);
    let all = label_or_bottom(flow).union(label_or_bottom(ctx.branches.current()));
    if has_synthetic(all) {
        let t = choose|t: TagModel| #[trigger] all.contains(t) && t is Synthetic;
        assert(label_or_bottom(flow).contains(t) || label_or_bottom(
            ctx.branches.current(),
        ).contains(t));
    }
}

/// What reaches a sink is its own tags and those of the branches around: where
/// neither depends on a call, an error is added exactly if the sink does not
/// accept these, and then it tells of that sink.
pub proof fn law_sinks_judge_flows_under_branches(
    ctx: ContextModel,
    sink: SinkModel,
    flow: Option<Trace>,
)
    requires
        ctx.log.listens(),
        ctx.log.file is Some,
        flow matches Some(t) ==> sound(t),
        ctx.branches.current() matches Some(t) ==> sound(t),
        is_closed(ctx, flow),
    ensures
        ({
            let after = sink_triggered(ctx, sink, flow);
            let tags = label_or_bottom(flow).union(label_or_bottom(ctx.branches.current()));
            if sink.accepts(tags) {
                after == ctx
            } else {
                &&& after.branches == ctx.branches
                &&& after.funcs == ctx.funcs
                &&& after.log.errors.len() == ctx.log.errors.len() + 1
                &&& after.log.errors.drop_last() == ctx.log.errors
                &&& after.log.errors.last().file == ctx.log.file->0
                &&& after.log.errors.last().kind matches ErrorModel::InsecureFlow {
                    sink: told,
                    backtrace,
                } && told == sink && backtrace.label == tags
            }
        }),
{
    lemma_aggregated(ctx, flow, sink.location);
    lemma_closed(ctx, flow, sink.location);
    let found = aggregated(ctx, flow, sink.location);
    let after = sink_triggered(ctx, sink, flow);
    if !sink.accepts(label_or_bottom(found)) {
        assert(found is Some) by {
            if found is None {
                assert(label_or_bottom(found) == Set::<TagModel>::empty());
            }
        }
        assert(after.log.errors.drop_last() =~= ctx.log.errors);
    }
}

/// A check for a sink that was put off adds an error, where it is made and errors
/// are listened to, exactly if the sink does not accept the label of the flow,
/// whether the sink lists what it allows or what it denies. It then tells of the
/// file in which the sink stands. It comes to the same as if the flow had reached
/// the sink there directly, under no branch.
pub proof fn law_deferred_sinks_are_judged(
    ctx: ContextModel,
    sink: SinkModel,
    flow: Trace,
    file: Seq<char>,
    call: nat,
)
    requires
        ctx.log.listens(),
    ensures
        ({
            let check = CheckModel::Sink { sink, flow, file };
            let after = check_triggered(ctx, check, call);
            &&& sink.accepts(flow.label) ==> after == ctx
            &&& !sink.accepts(flow.label) ==> after.log.errors == ctx.log.errors.push(
                FindingModel { file, kind: ErrorModel::InsecureFlow { sink, backtrace: flow } },
            ) && after.branches == ctx.branches && after.funcs == ctx.funcs
            &&& ctx.branches.current() is None && ctx.log.file == Some(file) && !has_synthetic(
                flow.label,
            ) ==> after == sink_triggered(ctx, sink, Some(flow))
        }),
{
    let check = CheckModel::Sink { sink, flow, file };
    let after = check_triggered(ctx, check, call);
    if ctx.branches.current() is None && ctx.log.file == Some(file) && !has_synthetic(flow.label) {
        assert(aggregated(ctx, Some(flow), sink.location) == Some(flow));
        assert(after =~= sink_triggered(ctx, sink, Some(flow)));
    }
}

/// An assertion that was put off holds each call to the label that is given for
/// it: the first call to the first one, and so on, and all further ones to the
/// last. It adds an error exactly if the flow has other tags than that.
pub proof fn law_deferred_assertions_are_judged(
    ctx: ContextModel,
    expected: Seq<Set<TagModel>>,
    found: Option<Trace>,
    file: Seq<char>,
    location: Location,
    call: nat,
)
    requires
        ctx.log.listens(),
        expected.len() > 0,
    ensures
        ({
            let check = CheckModel::Assertion { expected, found, file, location };
            let after = check_triggered(ctx, check, call);
            let due = expected[if call < expected.len() {
                call as int
            } else {
                expected.len() - 1
            }];
            &&& label_or_bottom(found) == due ==> after == ctx
            &&& label_or_bottom(found) != due ==> after.log.errors == ctx.log.errors.push(
                FindingModel {
                    file,
                    kind: ErrorModel::FalseAssertion { expected: due, found, location },
                },
            )
            &&& ctx.branches.current() is None && ctx.log.file == Some(file) && !has_synthetic(
                label_or_bottom(found),
            ) && call == 0 ==> after == assertion_triggered(ctx, expected, found, location)
        }),
{
    let check = CheckModel::Assertion { expected, found, file, location };
    let after = check_triggered(ctx, check, call);
    if ctx.branches.current() is None && ctx.log.file == Some(file) && !has_synthetic(
        label_or_bottom(found),
    ) && call == 0 {
        assert(aggregated(ctx, found, location) == found);
        assert(after =~= assertion_triggered(ctx, expected, found, location));
    }
}

/// An assertion adds an error exactly if the flow, with the branches around, does
/// not have just the tags that are expected.
pub proof fn law_assertions_ask_for_just_these_tags(
    ctx: ContextModel,
    expected: Seq<Set<TagModel>>,
    flow: Option<Trace>,
    location: Location,
)
    requires
        ctx.log.listens(),
        ctx.log.file is Some,
        expected.len() > 0,
        flow matches Some(t) ==> sound(t),
        ctx.branches.current() matches Some(t) ==> sound(t),
        is_closed(ctx, flow),
    ensures
        ({
            let after = assertion_triggered(ctx, expected, flow, location);
            let tags = label_or_bottom(flow).union(label_or_bottom(ctx.branches.current()));
            &&& tags == expected[0] ==> after == ctx
            &&& tags != expected[0] ==> after.log.errors.len() == ctx.log.errors.len() + 1
                && after.log.errors.last().kind is FalseAssertion
        }),
{
    lemma_aggregated(ctx, flow, location);
    lemma_closed(ctx, flow, location);
}

/// The positions of the arguments that a sink does not accept under a branch.
pub open spec fn refused_args(
    sink: SinkModel,
    flows: Seq<Option<Trace>>,
    branch: Option<Trace>,
) -> Set<int> {
    Set::new(
        |i: int|
            0 <= i < flows.len() && !sink.accepts(
                label_or_bottom(flows[i]).union(label_or_bottom(branch)),
            ),
    )
}

/// Whether flows, and the branches around, are as they should be and depend on no
/// call.
pub open spec fn are_settled(ctx: ContextModel, flows: Seq<Option<Trace>>) -> bool {
    &&& ctx.branches.current() matches Some(t) ==> sound(t)
    &&& forall|i: int|
        0 <= i < flows.len() ==> is_closed(ctx, #[trigger] flows[i]) && (flows[i] matches Some(t)
            ==> sound(t))
}

/// Whether nothing but errors has been added, so many of them, and all of these
/// tell of a sink.
pub open spec fn adds_errors(
    before: ContextModel,
    after: ContextModel,
    sink: SinkModel,
    count: nat,
) -> bool {
    &&& after.branches == before.branches
    &&& after.funcs == before.funcs
    &&& after.log.file == before.log.file
    &&& after.log.listens()
    &&& after.log.errors.len() == before.log.errors.len() + count
    &&& before.log.errors.is_prefix_of(after.log.errors)
    &&& forall|j: int|
        before.log.errors.len() <= j < after.log.errors.len() ==> ((#[trigger] after.log.errors[j]).kind matches ErrorModel::InsecureFlow {
            sink: told,
            ..
        } && told == sink)
}

proof fn lemma_args_at_sink(
    ctx: ContextModel,
    sink: SinkModel,
    arg_index: Option<usize>,
    flows: Seq<Option<Trace>>,
    n: int,
)
    requires
        ctx.log.listens(),
        ctx.log.file is Some,
        are_settled(ctx, flows),
        0 <= n <= flows.len(),
    ensures
        ({
            let refused = refused_args(sink, flows.take(n), ctx.branches.current());
            let after = args_at_sink(ctx, sink, arg_index, flows, n);
            &&& refused.finite()
            &&& adds_errors(
                ctx,
                after,
                sink,
                match arg_index {
                    Some(k) => if refused.contains(k as int) {
                        1
                    } else {
                        0
                    },
                    None => refused.len(),
                },
            )
        }),
    decreases n,
{
    let branch = ctx.branches.current();
    let refused = refused_args(sink, flows.take(n), branch);
    if n == 0 {
        assert(refused =~= Set::<int>::empty());
    } else {
        lemma_args_at_sink(ctx, sink, arg_index, flows, n - 1);
        let earlier = refused_args(sink, flows.take(n - 1), branch);
        let before = args_at_sink(ctx, sink, arg_index, flows, n - 1);
        assert(is_closed(ctx, flows[n - 1]));
        law_sinks_judge_flows_under_branches(before, sink, flows[n - 1]);
        let tags = label_or_bottom(flows[n - 1]).union(label_or_bottom(branch));
        if sink.accepts(tags) {
            assert(refused =~= earlier);
        } else {
            assert(refused =~= earlier.insert(n - 1));
        }
        let after = args_at_sink(ctx, sink, arg_index, flows, n);
        if arg_index matches Some(k) && k != n - 1 {
        } else if !sink.accepts(tags) {
            assert forall|j: int|
                ctx.log.errors.len() <= j < after.log.errors.len() implies ((
            #[trigger] after.log.errors[j]).kind matches ErrorModel::InsecureFlow {
                sink: told,
                ..
            } && told == sink) by {
                if j < before.log.errors.len() {
                    assert(after.log.errors[j] == after.log.errors.drop_last()[j]);
                    assert(before.log.errors[j] == after.log.errors[j]);
                }
            }
            assert forall|j: int|
                0 <= j < ctx.log.errors.len() implies ctx.log.errors[j] == after.log.errors[j] by {
                assert(after.log.errors[j] == after.log.errors.drop_last()[j]);
                assert(before.log.errors[j] == ctx.log.errors[j]);
            }
        }
    }
}

/// A sink that is meant for the argument at a position adds an error exactly if
/// there is such an argument, and the sink does not accept the tags that it and
/// the branches around have, whatever the other arguments are. One that is meant
/// for all adds one for each argument of which that is so.
pub proof fn law_sinks_judge_the_arguments_they_are_meant_for(
    ctx: ContextModel,
    sink: SinkModel,
    arg_index: Option<usize>,
    flows: Seq<Option<Trace>>,
)
    requires
        ctx.log.listens(),
        ctx.log.file is Some,
        are_settled(ctx, flows),
    ensures
        ({
            let after = args_at_sink(ctx, sink, arg_index, flows, flows.len() as int);
            let branch = ctx.branches.current();
            match arg_index {
                Some(k) => adds_errors(
                    ctx,
                    after,
                    sink,
                    if k < flows.len() && !sink.accepts(
                        label_or_bottom(flows[k as int]).union(label_or_bottom(branch)),
                    ) {
                        1
                    } else {
                        0
                    },
                ),
                None => adds_errors(ctx, after, sink, refused_args(sink, flows, branch).len()),
            }
        }),
{
    lemma_args_at_sink(ctx, sink, arg_index, flows, flows.len() as int);
    assert(flows.take(flows.len() as int) =~= flows);
}

/// Whether a directive is a sink that is meant for an argument at a position, and
/// does not accept it under a branch.
pub open spec fn directive_refuses(
    d: DirectiveModel,
    flows: Seq<Option<Trace>>,
    branch: Option<Trace>,
    location: Location,
    i: int,
) -> bool {
    &&& d.kind is AllowSink || d.kind is DenySink
    &&& 0 <= i < flows.len()
    &&& d.arg_index is None || d.arg_index == Some(i as usize)
    &&& !(SinkModel {
        kind: SinkKind::Function,
        allow: d.kind is AllowSink,
        label: d.label,
        location,
    }).accepts(label_or_bottom(flows[i]).union(label_or_bottom(branch)))
}

proof fn lemma_policy(
    ctx: ContextModel,
    directives: Seq<DirectiveModel>,
    flows: Seq<Option<Trace>>,
    location: Location,
    n: int,
)
    requires
        ctx.log.listens(),
        ctx.log.file is Some,
        are_settled(ctx, flows),
        flows.len() <= usize::MAX,
        0 <= n <= directives.len(),
    ensures
        ({
            let after = args_at_sinks(ctx, directives, flows, location, n);
            &&& after.branches == ctx.branches
            &&& after.funcs == ctx.funcs
            &&& after.log.file == ctx.log.file
            &&& after.log.listens()
            &&& ctx.log.errors.is_prefix_of(after.log.errors)
            &&& after.log.errors.len() > ctx.log.errors.len() <==> exists|k: int, i: int|
                0 <= k < n && #[trigger] directive_refuses(
                    directives[k],
                    flows,
                    ctx.branches.current(),
                    location,
                    i,
                )
        }),
    decreases n,
{
    if n > 0 {
        lemma_policy(ctx, directives, flows, location, n - 1);
        let before = args_at_sinks(ctx, directives, flows, location, n - 1);
        let after = args_at_sinks(ctx, directives, flows, location, n);
        let branch = ctx.branches.current();
        let d = directives[n - 1];
        assert(are_settled(before, flows)) by {
            assert forall|i: int| 0 <= i < flows.len() implies is_closed(
                before,
                #[trigger] flows[i],
            ) && (flows[i] matches Some(t) ==> sound(t)) by {
                assert(is_closed(ctx, flows[i]));
            }
        }
        if d.kind is AllowSink || d.kind is DenySink {
            let sink = SinkModel {
                kind: SinkKind::Function,
                allow: d.kind is AllowSink,
                label: d.label,
                location,
            };
            law_sinks_judge_the_arguments_they_are_meant_for(before, sink, d.arg_index, flows);
            let refused = refused_args(sink, flows, branch);
            lemma_args_at_sink(before, sink, d.arg_index, flows, flows.len() as int);
            assert(flows.take(flows.len() as int) =~= flows);
            if after.log.errors.len() > before.log.errors.len() {
                let i = match d.arg_index {
                    Some(k) => k as int,
                    None => {
                        if refused =~= Set::<int>::empty() {
                            assert(refused.len() == 0);
                        }
                        refused.choose()
                    },
                };
                assert(d.arg_index is None ==> refused.contains(i));
                assert(directive_refuses(directives[n - 1], flows, branch, location, i));
            }
            if exists|i: int| #[trigger] directive_refuses(d, flows, branch, location, i) {
                let i = choose|i: int| #[trigger] directive_refuses(d, flows, branch, location, i);
                assert(refused.contains(i));
                if d.arg_index is None {
                    if refused.len() == 0 {
                        assert(refused =~= Set::<int>::empty());
                    }
                }
                assert(after.log.errors.len() > before.log.errors.len());
            }
        }
        if exists|k: int, i: int|
            0 <= k < n && #[trigger] directive_refuses(directives[k], flows, branch, location, i) {
            let (k, i) = choose|k: int, i: int|
                0 <= k < n && #[trigger] directive_refuses(
                    directives[k],
                    flows,
                    branch,
                    location,
                    i,
                );
            if k < n - 1 {
                assert(before.log.errors.len() > ctx.log.errors.len());
            } else {
                assert(directive_refuses(d, flows, branch, location, i));
            }
        }
        if before.log.errors.len() > ctx.log.errors.len() {
            let (k, i) = choose|k: int, i: int|
                0 <= k < n - 1 && #[trigger] directive_refuses(
                    directives[k],
                    flows,
                    branch,
                    location,
                    i,
                );
            assert(directive_refuses(directives[k], flows, branch, location, i));
        }
    }
}

/// A call is reported for the sake of the policy exactly if one of the sinks that
/// it makes of the function is meant for one of the arguments, and does not accept
/// the tags that this and the branches around have.
pub proof fn law_policies_hold_at_calls(
    ctx: ContextModel,
    directives: Seq<DirectiveModel>,
    flows: Seq<Option<Trace>>,
    location: Location,
)
    requires
        ctx.log.listens(),
        ctx.log.file is Some,
        are_settled(ctx, flows),
        flows.len() <= usize::MAX,
    ensures
        ({
            let after = args_at_sinks(
                ctx,
                directives,
                flows,
                location,
                directives.len() as int,
            );
            &&& ctx.log.errors.is_prefix_of(after.log.errors)
            &&& after.log.errors.len() > ctx.log.errors.len() <==> exists|k: int, i: int|
                0 <= k < directives.len() && #[trigger] directive_refuses(
                    directives[k],
                    flows,
                    ctx.branches.current(),
                    location,
                    i,
                )
        }),
{
    lemma_policy(ctx, directives, flows, location, directives.len() as int);
}

/// What is asserted of the arguments of a call is asserted of each of them: the
/// call is reported exactly if one of them, with the branches around, does not
/// have just the tags that are expected.
pub proof fn law_assertions_hold_of_each_argument(
    ctx: ContextModel,
    expected: Seq<Set<TagModel>>,
    flows: Seq<Option<Trace>>,
    location: Location,
    n: int,
)
    requires
        ctx.log.listens(),
        ctx.log.file is Some,
        expected.len() > 0,
        are_settled(ctx, flows),
        0 <= n <= flows.len(),
    ensures
        ({
            let after = args_asserted(ctx, expected, flows, location, n);
            &&& after.branches == ctx.branches
            &&& after.log.file == ctx.log.file
            &&& after.log.listens()
            &&& after.log.errors.len() >= ctx.log.errors.len()
            &&& after.log.errors.len() > ctx.log.errors.len() <==> exists|i: int|
                0 <= i < n && label_or_bottom(#[trigger] flows[i]).union(
                    label_or_bottom(ctx.branches.current()),
                ) != expected[0]
        }),
    decreases n,
{
    if n > 0 {
        law_assertions_hold_of_each_argument(ctx, expected, flows, location, n - 1);
        let before = args_asserted(ctx, expected, flows, location, n - 1);
        assert(is_closed(ctx, flows[n - 1]));
        law_assertions_ask_for_just_these_tags(before, expected, flows[n - 1], location);
    }
}

} // verus!
