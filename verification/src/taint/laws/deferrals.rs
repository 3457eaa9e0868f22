//! What holds of checks that are put off until functions are called.

use vstd::prelude::*;

use crate::ast::Annotation;
use crate::context::deferred_checks::{recorded, CheckModel};
use crate::context::ContextModel;
use crate::labels::backtraces::{label_or_bottom, LabelBacktraceKind, Trace};
use crate::labels::exchange_laws::{anchored, exchanged_tags, law_placeholders_give_way};
use crate::labels::has_synthetic;
use crate::labels::tags::TagModel;
use crate::labels::trace_laws::sound;
use crate::locations::{Location, PinnedModel};
use crate::policy::SinkModel;
use crate::taint::enforcement::{aggregated, assertion_triggered, is_open, sink_triggered};
use crate::taint::funcs::call_application::{call_substitutions, CallModel};
use crate::taint::funcs::call_checks::checks_handled;
use crate::taint::funcs::{effective_branch, SummaryModel};
use crate::taint::laws::calls::{brings_out, call_sound, is_passable, lemma_brings_out,
    lemma_substitutions};
use crate::taint::laws::checks::{law_deferred_assertions_are_judged, law_deferred_sinks_are_judged};
use crate::values::laws::lemma_combined;

verus! {

/// The tags that a label brings into a call.
pub open spec fn tags_at_call(
    m: CallModel,
    func: SummaryModel,
    branch: Option<Trace>,
    label: Set<TagModel>,
) -> Set<TagModel> {
    Set::new(|x: TagModel| brings_out(m, func, branch, m.entry_captures, label, x))
}

/// Whether a check fails that was put off until a call: with what the call passes,
/// the flow has tags that the sink does not accept, or not just those that are
/// asserted for the call.
pub open spec fn check_fails(
    m: CallModel,
    func: SummaryModel,
    branch: Option<Trace>,
    check: CheckModel,
) -> bool {
    match check {
        CheckModel::Sink { sink, flow, .. } => !sink.accepts(
            tags_at_call(m, func, branch, flow.label),
        ),
        CheckModel::Assertion { expected, found, .. } => tags_at_call(
            m,
            func,
            branch,
            label_or_bottom(found),
        ) != expected[if func.call_count < expected.len() {
            func.call_count as int
        } else {
            expected.len() - 1
        }],
    }
}

/// Whether a check is as it should be, and can be judged at a call.
pub open spec fn is_judged(
    m: CallModel,
    func: SummaryModel,
    branch: Option<Trace>,
    check: CheckModel,
) -> bool {
    &&& check.flow() matches Some(t) ==> sound(t) && anchored(t, func.func)
    &&& !has_synthetic(tags_at_call(m, func, branch, label_or_bottom(check.flow())))
    &&& check matches CheckModel::Assertion { expected, .. } ==> expected.len() > 0
}

/// The checks that fail at a call.
pub open spec fn failing(
    m: CallModel,
    func: SummaryModel,
    branch: Option<Trace>,
    checks: Seq<CheckModel>,
) -> Set<int> {
    Set::new(|i: int| 0 <= i < checks.len() && check_fails(m, func, branch, checks[i]))
}

proof fn lemma_checks(
    m: CallModel,
    ctx: ContextModel,
    func: SummaryModel,
    branch: Option<Trace>,
    checks: Seq<CheckModel>,
    n: int,
)
    requires
        call_sound(m, ctx, func),
        is_passable(branch, func.func),
        ctx.log.listens(),
        0 <= n <= checks.len(),
        forall|i: int| 0 <= i < checks.len() ==> is_judged(m, func, branch, #[trigger] checks[i]),
    ensures
        ({
            let subs = call_substitutions(
                m.passed(ctx, func),
                m.receiver_flow(func),
                branch,
                None,
                m.entry_captures,
            );
            let after = checks_handled(ctx, checks, func.func, subs, func.call_count, n);
            let bad = failing(m, func, branch, checks.take(n));
            &&& bad.finite()
            &&& after.log.listens()
            &&& after.branches == ctx.branches
            &&& after.funcs == ctx.funcs
            &&& ctx.log.errors.is_prefix_of(after.log.errors)
            &&& after.log.errors.len() == ctx.log.errors.len() + bad.len()
        }),
    decreases n,
{
    let subs = call_substitutions(
        m.passed(ctx, func),
        m.receiver_flow(func),
        branch,
        None,
        m.entry_captures,
    );
    let bad = failing(m, func, branch, checks.take(n));
    if n == 0 {
        assert(bad =~= Set::<int>::empty());
    } else {
        lemma_checks(m, ctx, func, branch, checks, n - 1);
        let before = checks_handled(ctx, checks, func.func, subs, func.call_count, n - 1);
        let earlier = failing(m, func, branch, checks.take(n - 1));
        let check = checks[n - 1];
        assert(is_judged(m, func, branch, check));
        assert(checks.take(n)[n - 1] == check);
        let enforced = ctx.log.stage is EnforceSecurityPolicies;
        let label = label_or_bottom(check.flow());
        let tags = tags_at_call(m, func, branch, label);
        lemma_substitutions(m, ctx, func, branch, m.entry_captures);
        lemma_brings_out(m, ctx, func, branch, m.entry_captures, label);
        assert(exchanged_tags(label, func.func, subs) =~= tags);
        if let Some(t) = check.flow() {
            law_placeholders_give_way(t, func.func, subs, enforced);
        } else {
            assert(tags =~= Set::<TagModel>::empty());
        }
        let made = check.realized(func.func, subs, enforced);
        assert(made matches Some(c) ==> label_or_bottom(c.flow()) == tags);
        assert(made is None ==> tags == Set::<TagModel>::empty());
        if let Some(c) = made {
            assert(!is_open(c.flow()));
            match c {
                CheckModel::Sink { sink, flow, file } => {
                    law_deferred_sinks_are_judged(before, sink, flow, file, func.call_count);
                },
                CheckModel::Assertion { expected, found, file, location } => {
                    law_deferred_assertions_are_judged(
                        before,
                        expected,
                        found,
                        file,
                        location,
                        func.call_count,
                    );
                },
            }
        }
        if check_fails(m, func, branch, check) {
            assert(bad =~= earlier.insert(n - 1));
        } else {
            assert(bad =~= earlier);
        }
    }
}

/// At a call, each check that was put off in the body of the function is made with
/// what just this call passes: an error is added for each that then fails, and for
/// no other.
pub proof fn law_checks_are_made_at_each_call(m: CallModel, ctx: ContextModel, func: SummaryModel)
    requires
        call_sound(m, ctx, func),
        ctx.log.listens(),
        ctx.log.file is Some,
        func.own is None,
        func.directives.len() == 0,
        forall|i: int|
            0 <= i < func.deferred_checks.len() ==> is_judged(
                m,
                func,
                ctx.branches.current(),
                #[trigger] func.deferred_checks[i],
            ),
    ensures
        ({
            let after = m.applied(ctx, func, None::<&Annotation>);
            &&& ctx.log.errors.is_prefix_of(after.log.errors)
            &&& after.log.errors.len() == ctx.log.errors.len() + failing(
                m,
                func,
                ctx.branches.current(),
                func.deferred_checks,
            ).len()
        }),
{
    let n = func.deferred_checks.len() as int;
    lemma_checks(m, ctx, func, ctx.branches.current(), func.deferred_checks, n);
    assert(func.deferred_checks.take(n) =~= func.deferred_checks);
    assert(m.sinks_reached(ctx, func, None::<&Annotation>) == ctx);
    assert(effective_branch(ctx.branches, func.func, func.own, m.at(ctx))
        == ctx.branches.current());
}

/// A flow that depends on a call is not judged where it reaches a sink or an
/// assertion: nothing is reported, and a check with all its tags and those of the
/// branches around, at the same place, is put off until the function is called.
pub proof fn law_open_flows_are_put_off(
    ctx: ContextModel,
    sink: SinkModel,
    flow: Option<Trace>,
    expected: Seq<Set<TagModel>>,
    location: Location,
)
    requires
        ctx.funcs.len() > 0,
        are_about_something(ctx.funcs.last().checks),
        ctx.log.file is Some,
        flow matches Some(t) ==> sound(t),
        ctx.branches.current() matches Some(t) ==> sound(t),
        has_synthetic(label_or_bottom(flow).union(label_or_bottom(ctx.branches.current()))),
    ensures
        ({
            let tags = label_or_bottom(flow).union(label_or_bottom(ctx.branches.current()));
            let a = sink_triggered(ctx, sink, flow);
            let b = assertion_triggered(ctx, expected, flow, location);
            &&& a.log == ctx.log
            &&& b.log == ctx.log
            &&& holds_check(a.funcs.last().checks, tags, sink, ctx.log.file->0)
            &&& exists|i: int|
                0 <= i < b.funcs.last().checks.len() && ((
                #[trigger] b.funcs.last().checks[i]) matches CheckModel::Assertion {
                    expected: e,
                    found,
                    ..
                } && e == expected && label_or_bottom(found) == tags)
        }),
{
    let at = PinnedModel { file: ctx.log.file->0, inner: sink.location };
    let there = PinnedModel { file: ctx.log.file->0, inner: location };
    let branch = ctx.branches.current();
    lemma_combined(flow, branch, LabelBacktraceKind::EnforcementAggregation, at);
    lemma_combined(flow, branch, LabelBacktraceKind::EnforcementAggregation, there);
    let tags = label_or_bottom(flow).union(label_or_bottom(branch));
    let found = aggregated(ctx, flow, sink.location);
    let other = aggregated(ctx, flow, location);
    assert(found is Some) by {
        let x = choose|x: TagModel| #[trigger] tags.contains(x) && x is Synthetic;
        assert(label_or_bottom(found).contains(x));
    }
    let checks = ctx.funcs.last().checks;
    let file = ctx.log.file->0;
    lemma_recorded_sink(checks, sink, found->0, file);
    lemma_recorded_assertion(checks, expected, other, file, location);
    let a = sink_triggered(ctx, sink, flow);
    let b = assertion_triggered(ctx, expected, flow, location);
    assert(is_open(found) && is_open(other));
    assert(a.funcs.last().checks == recorded(
        checks,
        CheckModel::Sink { sink, flow: found->0, file },
    ));
    assert(b.funcs.last().checks == recorded(
        checks,
        CheckModel::Assertion { expected, found: other, file, location },
    ));
    assert(found->0.label == tags);
    assert(label_or_bottom(other) == tags);
}

/// Whether all flows that checks are about have tags.
pub open spec fn are_about_something(checks: Seq<CheckModel>) -> bool {
    forall|i: int|
        0 <= i < checks.len() ==> ((#[trigger] checks[i]).flow() matches Some(t) ==> t.label
            != Set::<TagModel>::empty())
}

/// Whether checks hold one for a sink in a file, with at least these tags.
pub open spec fn holds_check(
    checks: Seq<CheckModel>,
    tags: Set<TagModel>,
    sink: SinkModel,
    file: Seq<char>,
) -> bool {
    exists|i: int|
        0 <= i < checks.len() && ((#[trigger] checks[i]) matches CheckModel::Sink {
            sink: s,
            flow,
            file: f,
        } && s == sink && f == file && crate::labels::within(tags, flow.label))
}

proof fn lemma_recorded_sink(
    checks: Seq<CheckModel>,
    sink: SinkModel,
    flow: Trace,
    file: Seq<char>,
)
    requires
        are_about_something(checks),
    ensures
        holds_check(
            recorded(checks, CheckModel::Sink { sink, flow, file }),
            flow.label,
            sink,
            file,
        ),
    decreases checks.len(),
{
    let check = CheckModel::Sink { sink, flow, file };
    let now = recorded(checks, check);
    crate::labels::laws::law_subset_order(flow.label, flow.label, flow.label);
    if checks.len() == 0 {
        assert(now[0] == check);
    } else if checks[0].same_site(check) {
        assert(checks[0].flow() is Some);
        crate::context::deferred_checks::law_absorbing_keeps_labels(checks[0], check);
        assert(now[0] == checks[0].absorbing(check));
    } else {
        let rest = checks.skip(1);
        assert forall|i: int| 0 <= i < rest.len() implies ((
        #[trigger] rest[i]).flow() matches Some(t) ==> t.label != Set::<TagModel>::empty()) by {
            assert(rest[i] == checks[i + 1]);
        }
        lemma_recorded_sink(rest, sink, flow, file);
        let later = recorded(rest, check);
        let i = choose|i: int|
            0 <= i < later.len() && ((#[trigger] later[i]) matches CheckModel::Sink {
                sink: s,
                flow: g,
                file: f,
            } && s == sink && f == file && crate::labels::within(flow.label, g.label));
        assert(now[i + 1] == later[i]);
    }
}

proof fn lemma_recorded_assertion(
    checks: Seq<CheckModel>,
    expected: Seq<Set<TagModel>>,
    found: Option<Trace>,
    file: Seq<char>,
    location: Location,
)
    ensures
        ({
            let now = recorded(
                checks,
                CheckModel::Assertion { expected, found, file, location },
            );
            exists|i: int|
                0 <= i < now.len() && ((#[trigger] now[i]) matches CheckModel::Assertion {
                    expected: e,
                    found: g,
                    ..
                } && e == expected && label_or_bottom(g) == label_or_bottom(found))
        }),
    decreases checks.len(),
{
    let check = CheckModel::Assertion { expected, found, file, location };
    let now = recorded(checks, check);
    if checks.len() == 0 {
        assert(now[0] == check);
    } else if checks[0].same_site(check) {
        assert(now[0] == checks[0].absorbing(check));
    } else {
        let rest = checks.skip(1);
        lemma_recorded_assertion(rest, expected, found, file, location);
        let later = recorded(rest, check);
        let i = choose|i: int|
            0 <= i < later.len() && ((#[trigger] later[i]) matches CheckModel::Assertion {
                expected: e,
                found: g,
                ..
            } && e == expected && label_or_bottom(g) == label_or_bottom(found));
        assert(now[i + 1] == later[i]);
    }
}

} // verus!
