//! What holds of flows through control.

use vstd::prelude::*;

use crate::ast::{Node, NodeKind};
use crate::context::branches::{branches_sound, deferred_traces, law_entering_adds, BranchModel,
    DeferredModel, TargetModel};
use crate::context::loops::{LoopModel};
use crate::context::ContextModel;
use crate::labels::backtraces::{label_or_bottom, listed, LabelBacktraceKind, Trace};
use crate::labels::tags::TagModel;
use crate::labels::trace_laws::{all_sound, law_fold, sound, spread};
use crate::locations::{Location, PinnedModel};
use crate::taint::funcs::call_results::carrying;
use crate::taint::funcs::outcomes::{all_returned, outcome_after, return_visited};
use crate::taint::goto::GotoModel;
use crate::taint::implicit::{clause_branch, condition_branch, range_values, under_clause,
    under_condition, PlaceModel};
use crate::taint::laws::calls::lemma_carrying_tags;
use crate::taint::walks::choices::{is_compared, stepped};
use crate::taint::walks::{clause_location, first_name, header_location, header_of, is_range,
    last_part, tag_of, SavedModel, TaskModel, WalkModel};
use crate::values::laws::{all_tags, law_merging_keeps_tags, law_nesting_adds_tags,
    law_values_carry_their_tags, lemma_combined, value_sound};
use crate::values::part_laws::law_reads_have_the_tags_of_the_part;
use crate::values::ValueModel;

verus! {

/// What the control flow implies has just the tags of the innermost branch that
/// was entered, and of all branches that were left but still have an effect.
pub proof fn law_branches_imply_their_tags(m: BranchModel)
    requires
        m.is_settled(),
        branches_sound(m),
    ensures
        m.current() matches Some(t) ==> sound(t),
        forall|x: TagModel|
            #[trigger] label_or_bottom(m.current()).contains(x) <==> (m.stack.len() > 0
                && m.stack.last().label.contains(x)) || exists|i: int|
                0 <= i < m.deferred.len() && (#[trigger] m.deferred[i]).backtrace.label.contains(x),
{
    let ds = deferred_traces(m.deferred);
    if m.stack.len() > 0 {
        assert(sound(m.stack[m.stack.len() - 1]));
    }
    if m.deferred.len() > 0 {
        let front = if m.stack.len() > 0 {
            seq![m.stack.last()]
        } else {
            Seq::<Trace>::empty()
        };
        let all = front + ds;
        assert forall|i: int| 0 <= i < all.len() implies sound(#[trigger] all[i]) by {
            if i >= front.len() {
                assert(all[i] == ds[i - front.len()]);
            }
        }
        law_fold(all, LabelBacktraceKind::Branch, None, m.deferred.last().because);
        assert(all.len() > 0);
        assert forall|x: TagModel| #[trigger] label_or_bottom(m.current()).contains(x) <==> (
        m.stack.len() > 0 && m.stack.last().label.contains(x)) || exists|i: int|
            0 <= i < m.deferred.len() && (#[trigger] m.deferred[i]).backtrace.label.contains(x) by {
            if spread(all).contains(x) {
                let i = choose|i: int| 0 <= i < all.len() && (#[trigger] all[i]).label.contains(x);
                if i >= front.len() {
                    assert(all[i] == ds[i - front.len()]);
                    assert(m.deferred[i - front.len()].backtrace.label.contains(x));
                }
            }
            if m.stack.len() > 0 && m.stack.last().label.contains(x) {
                assert(all[0].label.contains(x));
            }
            if exists|i: int|
                0 <= i < m.deferred.len() && (#[trigger] m.deferred[i]).backtrace.label.contains(
                    x,
                ) {
                let i = choose|i: int|
                    0 <= i < m.deferred.len() && (#[trigger] m.deferred[i]).backtrace.label.contains(
                        x,
                    );
                assert(all[i + front.len()] == ds[i]);
                assert(all[i + front.len()].label.contains(x));
            }
        }
    }
}

/// What decides whether control leaves early still has an effect behind the branch
/// in which it does: until that for which it waits ends, the control flow implies
/// all its tags.
pub proof fn law_early_exits_have_an_effect(
    m: BranchModel,
    until: TargetModel,
    because: PinnedModel<Location>,
)
    requires
        m.is_settled(),
        branches_sound(m),
        m.current() is Some,
    ensures
        ({
            let later = m.deferring(until, because);
            &&& later.is_settled()
            &&& branches_sound(later)
            &&& later.stack == m.stack
            &&& later.depth == m.depth
            &&& later.deferred.len() == m.deferred.len() + 1
            &&& later.deferred.drop_last() == m.deferred
            &&& later.deferred.last().until == until
            &&& later.deferred.last().at_depth == m.depth
            &&& later.deferred.last().backtrace.label == m.current()->0.label
            &&& label_or_bottom(later.current()) == m.current()->0.label
            &&& branches_sound(later.left())
            &&& m.current()->0.label.subset_of(label_or_bottom(later.left().current()))
        }),
{
    law_branches_imply_their_tags(m);
    let later = m.deferring(until, because);
    let ds = deferred_traces(later.deferred);
    assert(later.deferred.drop_last() =~= m.deferred);
    assert forall|i: int| 0 <= i < ds.len() implies sound(#[trigger] ds[i]) by {
        if i < m.deferred.len() {
            assert(ds[i] == deferred_traces(m.deferred)[i]);
        }
    }
    let front = if m.stack.len() > 0 {
        seq![m.stack.last()]
    } else {
        Seq::<Trace>::empty()
    };
    lemma_composed(later);
    law_branches_imply_their_tags(later);
    let old = label_or_bottom(m.current());
    assert forall|x: TagModel| label_or_bottom(later.current()).contains(x) == old.contains(x) by {
        if old.contains(x) {
            assert(later.deferred[later.deferred.len() - 1].backtrace.label.contains(x));
        }
        if label_or_bottom(later.current()).contains(x) && !(m.stack.len() > 0
            && m.stack.last().label.contains(x)) {
            let i = choose|i: int|
                0 <= i < later.deferred.len() && (
                #[trigger] later.deferred[i]).backtrace.label.contains(x);
            if i < m.deferred.len() {
                assert(later.deferred[i] == m.deferred[i]);
            }
        }
    }
    assert(label_or_bottom(later.current()) =~= old);
    let out = later.left();
    lemma_composed(out);
    law_branches_imply_their_tags(out);
    assert forall|x: TagModel| old.contains(x) implies label_or_bottom(out.current()).contains(
        x,
    ) by {
        assert(out.deferred[out.deferred.len() - 1].backtrace.label.contains(x));
    }
}

proof fn lemma_composed(m: BranchModel)
    requires
        m.is_settled(),
        forall|i: int| 0 <= i < m.stack.len() ==> sound(#[trigger] m.stack[i]),
        all_sound(deferred_traces(m.deferred)),
    ensures
        branches_sound(m),
{
    let ds = deferred_traces(m.deferred);
    if m.deferred.len() > 0 {
        let front = if m.stack.len() > 0 {
            seq![m.stack.last()]
        } else {
            Seq::<Trace>::empty()
        };
        let all = front + ds;
        assert forall|i: int| 0 <= i < all.len() implies sound(#[trigger] all[i]) by {
            if i >= front.len() {
                assert(all[i] == ds[i - front.len()]);
            } else {
                assert(all[i] == m.stack[m.stack.len() - 1]);
            }
        }
        law_fold(all, LabelBacktraceKind::Branch, None, m.deferred.last().because);
    }
}

proof fn lemma_filtered(
    s: Seq<DeferredModel>,
    keeps: spec_fn(DeferredModel) -> bool,
    i: int,
)
    requires
        0 <= i < s.filter(keeps).len(),
    ensures
        s.contains(s.filter(keeps)[i]),
    decreases s.len(),
{
    reveal(Seq::filter);
    if s.len() > 0 {
        let front = s.drop_last();
        if i < front.filter(keeps).len() {
            lemma_filtered(front, keeps, i);
            let j = choose|j: int| 0 <= j < front.len() && front[j] == front.filter(keeps)[i];
            assert(s[j] == s.filter(keeps)[i]);
        } else {
            assert(s[s.len() - 1] == s.filter(keeps)[i]);
        }
    }
}

/// When something ends, all that waits for something else, or for something
/// around, keeps its effect, and nothing else gets one.
pub proof fn law_ends_keep_what_waits_for_others(
    m: BranchModel,
    target: TargetModel,
    d: DeferredModel,
)
    requires
        m.is_settled(),
        branches_sound(m),
        m.deferred.contains(d),
        d.until != target || d.at_depth <= m.depth,
    ensures
        branches_sound(m.triggered(target)),
        m.triggered(target).is_settled(),
        d.backtrace.label.subset_of(label_or_bottom(m.triggered(target).current())),
        label_or_bottom(m.triggered(target).current()).subset_of(label_or_bottom(m.current())),
{
    let keeps = |x: DeferredModel| m.outlasts(x, target);
    broadcast use vstd::seq_lib::group_filter_ensures;

    let out = m.triggered(target);
    let ds = deferred_traces(out.deferred);
    assert forall|i: int| 0 <= i < out.deferred.len() implies m.deferred.contains(
        #[trigger] out.deferred[i],
    ) by {
        lemma_filtered(m.deferred, keeps, i);
    }
    assert forall|i: int| 0 <= i < ds.len() implies sound(#[trigger] ds[i]) by {
        assert(m.deferred.contains(out.deferred[i]));
        let j = choose|j: int| 0 <= j < m.deferred.len() && m.deferred[j] == out.deferred[i];
        assert(deferred_traces(m.deferred)[j] == ds[i]);
    }
    lemma_composed(out);
    law_branches_imply_their_tags(m);
    law_branches_imply_their_tags(out);
    let k = choose|k: int| 0 <= k < m.deferred.len() && m.deferred[k] == d;
    crate::context::branches::law_outer_deferral_survives(m, target, k);
    let p = choose|p: int| 0 <= p < out.deferred.len() && out.deferred[p] == d;
    assert forall|x: TagModel| d.backtrace.label.contains(x) implies label_or_bottom(
        out.current(),
    ).contains(x) by {
        assert(out.deferred[p].backtrace.label.contains(x));
    }
    assert forall|x: TagModel| label_or_bottom(out.current()).contains(x) implies label_or_bottom(
        m.current(),
    ).contains(x) by {
        if !(out.stack.len() > 0 && out.stack.last().label.contains(x)) {
            let i = choose|i: int|
                0 <= i < out.deferred.len() && (
                #[trigger] out.deferred[i]).backtrace.label.contains(x);
            assert(m.deferred.contains(out.deferred[i]));
            let j = choose|j: int| 0 <= j < m.deferred.len() && m.deferred[j] == out.deferred[i];
            assert(m.deferred[j].backtrace.label.contains(x));
        }
    }
}

/// Whether a tag is one of some flows.
pub open spec fn any_has(flows: Seq<Option<Trace>>, x: TagModel) -> bool {
    exists|i: int| 0 <= i < flows.len() && label_or_bottom(#[trigger] flows[i]).contains(x)
}

/// Whether flows are as they should be.
pub open spec fn flows_sound(flows: Seq<Option<Trace>>) -> bool {
    forall|i: int| 0 <= i < flows.len() ==> (#[trigger] flows[i] matches Some(t) ==> sound(t))
}

/// In a clause, or in the body of a loop, the control flow implies the tags of all
/// that decides whether it is entered, and those that it did before.
pub proof fn law_clauses_guard(b: BranchModel, flows: Seq<Option<Trace>>, at: PinnedModel<Location>)
    requires
        b.is_settled(),
        branches_sound(b),
        flows_sound(flows),
    ensures
        branches_sound(under_clause(b, flows, at)),
        under_clause(b, flows, at).is_settled(),
        forall|x: TagModel|
            #[trigger] label_or_bottom(under_clause(b, flows, at).current()).contains(x)
                <==> any_has(flows, x) || label_or_bottom(b.current()).contains(x),
{
    lemma_carrying_tags(flows);
    let all = carrying(flows);
    law_fold(all, LabelBacktraceKind::Branch, None, at);
    assert forall|x: TagModel| spread(all).contains(x) <==> any_has(flows, x) by {}
    if let Some(t) = clause_branch(flows, at) {
        law_entering_adds(b, t);
    } else {
        assert(spread(all) =~= Set::<TagModel>::empty());
        assert forall|x: TagModel| !any_has(flows, x) by {
            assert(!spread(all).contains(x));
        }
    }
}

/// Under a condition the control flow implies the tags of the condition, and those
/// that it did before.
pub proof fn law_conditions_imply_their_tags(
    b: BranchModel,
    condition: Option<Trace>,
    at: PinnedModel<Location>,
)
    requires
        b.is_settled(),
        branches_sound(b),
        condition matches Some(t) ==> sound(t),
    ensures
        branches_sound(under_condition(b, condition, at)),
        under_condition(b, condition, at).is_settled(),
        label_or_bottom(under_condition(b, condition, at).current()) == label_or_bottom(
            condition,
        ).union(label_or_bottom(b.current())),
{
    if let Some(t) = condition {
        let branch = condition_branch(t, at);
        assert(sound(branch)) by {
            crate::labels::trace_laws::lemma_framed(
                LabelBacktraceKind::Branch,
                t.label,
                None,
                at,
                seq![t],
            );
            assert(all_sound(seq![t]));
            assert forall|x: TagModel| spread(seq![t]).contains(x) implies t.label.contains(x) by {}
        }
        assert(branch.label == t.label);
        law_entering_adds(b, branch);
    } else {
        assert(label_or_bottom(condition).union(label_or_bottom(b.current())) =~= label_or_bottom(
            b.current(),
        ));
    }
}

/// The body of a loop is visited under a branch with all tags of what decides
/// whether there is an iteration, and all that were there before.
pub proof fn law_loops_guard(
    w: WalkModel,
    node: Node,
    saved: SavedModel,
    quiet: bool,
    begun: bool,
    answer: Option<Trace>,
)
    requires
        w.tasks.len() > 0,
        w.tasks.last() == (TaskModel::Enter { node, saved, quiet, begun }),
        header_of(node) is Some,
        !is_range(node),
        !quiet || !w.is_stable(answer),
        w.place.ctx.branches.is_settled(),
        branches_sound(w.place.ctx.branches),
        answer matches Some(t) ==> sound(t),
    ensures
        ({
            let next = stepped(w, answer);
            &&& branches_sound(next.place.ctx.branches)
            &&& label_or_bottom(next.place.ctx.branches.current()) == label_or_bottom(
                answer,
            ).union(label_or_bottom(w.place.ctx.branches.current()))
            &&& last_part(node) matches Some(body) ==> next.tasks.last()
                == (TaskModel::Statement { node: body, label: None })
        }),
{
    reveal(WalkModel::loop_entered);
    let at = w.place.at(header_location(node));
    law_clauses_guard(w.place.ctx.branches, seq![answer], at);
    let next = stepped(w, answer);
    assert forall|x: TagModel| any_has(seq![answer], x) <==> label_or_bottom(answer).contains(x) by {
        if label_or_bottom(answer).contains(x) {
            assert(label_or_bottom(seq![answer][0]).contains(x));
        }
    }
    assert(next.place.ctx.branches == under_clause(w.place.ctx.branches, seq![answer], at));
    assert(label_or_bottom(next.place.ctx.branches.current()) =~= label_or_bottom(answer).union(
        label_or_bottom(w.place.ctx.branches.current()),
    ));
}

/// The body of a loop that goes through something is visited under a branch with
/// all tags of what decides how often, and all that were there before.
pub proof fn law_range_loops_guard(
    w: WalkModel,
    node: Node,
    saved: SavedModel,
    quiet: bool,
    begun: bool,
    answer: Option<Trace>,
)
    requires
        w.tasks.len() > 0,
        w.tasks.last() == (TaskModel::Enter { node, saved, quiet, begun }),
        is_range(node),
        w.place.ctx.branches.is_settled(),
        branches_sound(w.place.ctx.branches),
        answer matches Some(t) ==> sound(t),
        w.place.loops.len() > 0 ==> (w.place.loops.last().incoming matches Some(t) ==> sound(t)),
    ensures
        ({
            let next = stepped(w, answer);
            &&& branches_sound(next.place.ctx.branches)
            &&& label_or_bottom(answer).subset_of(
                label_or_bottom(next.place.ctx.branches.current()),
            )
            &&& label_or_bottom(w.place.ctx.branches.current()).subset_of(
                label_or_bottom(next.place.ctx.branches.current()),
            )
            &&& next.tasks.last() is RangeBody
        }),
{
    reveal(WalkModel::loop_entered);
    let at = w.place.at(header_location(node));
    law_iterations_begin_under_continues(w.place);
    let begun_place = w.place.iteration_begun();
    law_clauses_guard(begun_place.ctx.branches, seq![answer], at);
    let next = stepped(w, answer);
    assert(next.place.ctx.branches == under_clause(begun_place.ctx.branches, seq![answer], at));
    assert forall|x: TagModel| label_or_bottom(answer).contains(x) implies any_has(
        seq![answer],
        x,
    ) by {
        assert(label_or_bottom(seq![answer][0]).contains(x));
    }
    assert forall|x: TagModel| label_or_bottom(answer).contains(x) implies label_or_bottom(
        next.place.ctx.branches.current(),
    ).contains(x) by {
        assert(any_has(seq![answer], x));
    }
}

/// An iteration is visited under a branch with all tags of what decided whether it
/// was begun early, and all that were there before.
pub proof fn law_iterations_begin_under_continues(p: PlaceModel)
    requires
        p.ctx.branches.is_settled(),
        branches_sound(p.ctx.branches),
        p.loops.len() > 0 ==> (p.loops.last().incoming matches Some(t) ==> sound(t)),
    ensures
        branches_sound(p.iteration_begun().ctx.branches),
        p.iteration_begun().ctx.branches.is_settled(),
        label_or_bottom(p.iteration_begun().ctx.branches.current()) == (if p.loops.len() > 0 {
            label_or_bottom(p.loops.last().incoming)
        } else {
            Set::<TagModel>::empty()
        }).union(label_or_bottom(p.ctx.branches.current())),
{
    let b = p.ctx.branches;
    if p.loops.len() > 0 && p.loops.last().incoming is Some {
        law_entering_adds(b, p.loops.last().incoming->0);
    } else {
        assert(Set::<TagModel>::empty().union(label_or_bottom(b.current())) =~= label_or_bottom(
            b.current(),
        ));
    }
}

/// What decides whether the next iteration is begun early is what it depends on
/// in the next visit of the loop.
pub proof fn law_continues_reach_the_next_visit(
    l: LoopModel,
    branch: Option<Trace>,
    at: PinnedModel<Location>,
    header: Option<Trace>,
)
    requires
        l.outgoing matches Some(t) ==> sound(t),
        branch matches Some(t) ==> sound(t),
    ensures
        label_or_bottom(l.continuing(branch, at).advanced(header).incoming) == label_or_bottom(
            l.outgoing,
        ).union(label_or_bottom(branch)),
{
    lemma_combined(l.outgoing, branch, LabelBacktraceKind::Branch, at);
}

/// What is compared in a choice decides on all its clauses.
pub proof fn law_choices_guard(w: WalkModel, node: Node, answer: Option<Trace>)
    requires
        w.tasks.len() > 0,
        w.tasks.last() == TaskModel::Tag(node),
        tag_of(node) is Some,
        w.place.ctx.branches.is_settled(),
        branches_sound(w.place.ctx.branches),
        answer matches Some(t) ==> sound(t),
    ensures
        label_or_bottom(stepped(w, answer).place.ctx.branches.current()) == label_or_bottom(
            answer,
        ).union(label_or_bottom(w.place.ctx.branches.current())),
        stepped(w, answer).tasks.last() is Clauses,
{
    reveal(WalkModel::tag_met);
    let location = tag_of(node)->0.location;
    law_conditions_imply_their_tags(w.place.ctx.branches, answer, w.place.at(location));
}

/// A clause of a choice is visited under a branch with all tags of what it is
/// compared with, and all that were there before. Each expression counts.
pub proof fn law_clauses_of_choices_guard(
    w: WalkModel,
    node: Node,
    at: int,
    entered: nat,
    next: int,
    flows: Seq<Option<Trace>>,
    answer: Option<Trace>,
)
    requires
        w.tasks.len() > 0,
        w.place.ctx.branches.is_settled(),
        branches_sound(w.place.ctx.branches),
        flows_sound(flows),
        answer matches Some(t) ==> sound(t),
    ensures
        w.tasks.last() == (TaskModel::Compare { node, at, entered, next, flows }) ==> (stepped(
            w,
            answer,
        ).tasks.last() matches TaskModel::AskClause { flows: all, .. } && flows_sound(all)
            && forall|x: TagModel| #[trigger]
            any_has(all, x) <==> any_has(flows, x) || label_or_bottom(answer).contains(x)),
        w.tasks.last() == (TaskModel::AskClause { node, at, entered, next, flows }) && is_compared(
            node,
            at,
            next,
        ) ==> forall|x: TagModel| #[trigger]
            label_or_bottom(stepped(w, answer).place.ctx.branches.current()).contains(x)
                <==> any_has(flows, x) || label_or_bottom(
                w.place.ctx.branches.current(),
            ).contains(x),
{
    reveal(WalkModel::clause_continued);
    lemma_pushed(flows, answer);
    if w.tasks.last() == (TaskModel::AskClause { node, at, entered, next, flows }) && is_compared(
        node,
        at,
        next,
    ) {
        let location = w.place.at(clause_location(node.children@[at]));
        law_clauses_guard(w.place.ctx.branches, flows, location);
        assert(stepped(w, answer).place.ctx.branches == under_clause(
            w.place.ctx.branches,
            flows,
            location,
        ));
    }
}

proof fn lemma_pushed(flows: Seq<Option<Trace>>, answer: Option<Trace>)
    requires
        flows_sound(flows),
        answer matches Some(t) ==> sound(t),
    ensures
        flows_sound(flows.push(answer)),
        forall|x: TagModel| #[trigger]
            any_has(flows.push(answer), x) <==> any_has(flows, x) || label_or_bottom(
                answer,
            ).contains(x),
{
    let all = flows.push(answer);
    assert forall|x: TagModel| #[trigger] any_has(all, x) <==> any_has(flows, x)
        || label_or_bottom(answer).contains(x) by {
        if any_has(flows, x) {
            let i = choose|i: int|
                0 <= i < flows.len() && label_or_bottom(#[trigger] flows[i]).contains(x);
            assert(label_or_bottom(all[i]).contains(x));
        }
        if label_or_bottom(answer).contains(x) {
            assert(label_or_bottom(all[flows.len() as int]).contains(x));
        }
        if any_has(all, x) {
            let i = choose|i: int|
                0 <= i < all.len() && label_or_bottom(#[trigger] all[i]).contains(x);
            if i < flows.len() {
                assert(label_or_bottom(flows[i]).contains(x));
            }
        }
    }
}

/// The clauses of a select statement are visited under a branch with all tags of
/// what decides which communications can proceed, and all that were there before.
pub proof fn law_select_statements_guard(
    w: WalkModel,
    node: Node,
    at: int,
    flows: Seq<Option<Trace>>,
    answer: Option<Trace>,
)
    requires
        w.tasks.len() > 0,
        w.place.ctx.branches.is_settled(),
        branches_sound(w.place.ctx.branches),
        flows_sound(flows),
        answer matches Some(t) ==> sound(t),
    ensures
        w.tasks.last() == (TaskModel::Ready { node, at, flows }) ==> (stepped(
            w,
            answer,
        ).tasks.last() matches TaskModel::AskReady { flows: all, .. } && flows_sound(all)
            && forall|x: TagModel| #[trigger]
            any_has(all, x) <==> any_has(flows, x) || label_or_bottom(answer).contains(x)),
        w.tasks.last() == (TaskModel::AskReady { node, at, flows }) && at >= node.children@.len()
            ==> (stepped(w, answer).tasks.last() is Communications && forall|x: TagModel|
            #[trigger] label_or_bottom(stepped(w, answer).place.ctx.branches.current()).contains(x)
                <==> any_has(flows, x) || label_or_bottom(
                w.place.ctx.branches.current(),
            ).contains(x)),
{
    reveal(WalkModel::readiness_continued);
    lemma_pushed(flows, answer);
    if w.tasks.last() == (TaskModel::AskReady { node, at, flows }) && at >= node.children@.len() {
        law_clauses_guard(w.place.ctx.branches, flows, w.place.at(node.location));
    }
}

/// A statement that leaves a loop or a choice, or goes on with the next iteration,
/// makes what decides whether it is reached wait for the end of just that.
pub proof fn law_early_exits_wait(
    w: WalkModel,
    node: Node,
    label: Option<Seq<char>>,
    answer: Option<Trace>,
)
    requires
        w.tasks.len() > 0,
        w.tasks.last() == (TaskModel::Statement { node, label }),
        node.kind is Break || node.kind is Continue,
        w.place.ctx.branches.is_settled(),
        branches_sound(w.place.ctx.branches),
        w.place.ctx.branches.current() is Some,
    ensures
        ({
            let before = w.place.ctx.branches;
            let after = stepped(w, answer).place.ctx.branches;
            &&& after.deferred.len() == before.deferred.len() + 1
            &&& after.deferred.last().backtrace.label == before.current()->0.label
            &&& after.deferred.last().at_depth == before.depth
            &&& after.deferred.last().until == match (node.kind, first_name(node)) {
                (NodeKind::Break, Some(l)) => TargetModel::LabeledBreakable(l),
                (NodeKind::Break, None) => TargetModel::InnermostBreakable,
                (_, Some(l)) => TargetModel::LabeledLoop(l),
                (_, None) => TargetModel::InnermostLoop,
            }
            &&& label_or_bottom(after.current()) == before.current()->0.label
        }),
{
    reveal(WalkModel::statement_begun);
    let before = w.place.ctx.branches;
    let until = match (node.kind, first_name(node)) {
        (NodeKind::Break, Some(l)) => TargetModel::LabeledBreakable(l),
        (NodeKind::Break, None) => TargetModel::InnermostBreakable,
        (_, Some(l)) => TargetModel::LabeledLoop(l),
        (_, None) => TargetModel::InnermostLoop,
    };
    law_early_exits_have_an_effect(before, until, w.place.at(node.location));
}

/// What decides whether a jump is made is known for its label from then on, along
/// with that of all earlier jumps there, and what is known for others stays.
pub proof fn law_jumps_add_up(
    g: GotoModel,
    label: Seq<char>,
    branch: Option<Trace>,
    at: PinnedModel<Location>,
)
    requires
        g.outgoing.dom().contains(label) ==> (g.outgoing[label] matches Some(t) ==> sound(t)),
        branch matches Some(t) ==> sound(t),
    ensures
        ({
            let after = g.jumping(label, branch, at).outgoing;
            &&& after.dom().contains(label)
            &&& label_or_bottom(after[label]) == label_or_bottom(branch).union(
                if g.outgoing.dom().contains(label) {
                    label_or_bottom(g.outgoing[label])
                } else {
                    Set::<TagModel>::empty()
                },
            )
            &&& forall|l: Seq<char>| #[trigger]
                g.outgoing.dom().contains(l) && l != label ==> after.dom().contains(l) && after[l]
                    == g.outgoing[l]
        }),
{
    let before = if g.outgoing.dom().contains(label) {
        g.outgoing[label]
    } else {
        None
    };
    lemma_combined(before, branch, LabelBacktraceKind::Branch, at);
    let after = g.jumping(label, branch, at).outgoing;
    assert(label_or_bottom(after[label]) =~= label_or_bottom(branch).union(label_or_bottom(before)));
}

/// Behind a label to which jumps were made, the control flow implies all tags of
/// what decided on these, and those that it did before.
pub proof fn law_labels_are_guarded_by_jumps(
    w: WalkModel,
    node: Node,
    label: Option<Seq<char>>,
    answer: Option<Trace>,
)
    requires
        w.tasks.len() > 0,
        w.tasks.last() == (TaskModel::Statement { node, label }),
        node.kind is Labeled,
        first_name(node) is Some,
        w.place.ctx.branches.is_settled(),
        branches_sound(w.place.ctx.branches),
        w.jumps.entering(first_name(node)->0) matches Some(t) ==> sound(t),
    ensures
        label_or_bottom(stepped(w, answer).place.ctx.branches.current()) == label_or_bottom(
            w.jumps.entering(first_name(node)->0),
        ).union(label_or_bottom(w.place.ctx.branches.current())),
{
    reveal(WalkModel::statement_begun);
    let b = w.place.ctx.branches;
    match w.jumps.entering(first_name(node)->0) {
        Some(t) => {
            law_entering_adds(b, t);
        },
        None => {
            assert(Set::<TagModel>::empty().union(label_or_bottom(b.current()))
                =~= label_or_bottom(b.current()));
        },
    }
}

/// What a function returns has the tags of the value, of the branch under which it
/// is returned, and of all that it returned there before, and no others. What
/// decides whether it returns early has an effect until its end.
pub proof fn law_returned_values_carry_their_branch(
    ctx: ContextModel,
    existing: Option<Seq<ValueModel>>,
    values: Seq<ValueModel>,
    location: Location,
    i: int,
)
    requires
        0 <= i < values.len(),
        existing matches Some(e) ==> i < e.len() && value_sound(e[i]),
        value_sound(values[i]),
        ctx.branches.is_settled(),
        branches_sound(ctx.branches),
    ensures
        ({
            let at = PinnedModel { file: ctx.log.file->0, inner: location };
            let branch = ctx.branches.current();
            let after = outcome_after(existing, all_returned(values, branch, at), at);
            let state = return_visited(ctx, existing, all_returned(values, branch, at), location);
            &&& value_sound(after[i])
            &&& all_tags(after[i]) == all_tags(values[i]).union(label_or_bottom(branch)).union(
                match existing {
                    Some(e) => all_tags(e[i]),
                    None => Set::<TagModel>::empty(),
                },
            )
            &&& branch matches Some(t) ==> state.branches.deferred.len()
                == ctx.branches.deferred.len() + 1 && state.branches.deferred.last().until
                is Function && state.branches.deferred.last().backtrace.label == t.label
                && state.branches.deferred.last().at_depth == ctx.branches.depth
        }),
{
    let at = PinnedModel { file: ctx.log.file->0, inner: location };
    let branch = ctx.branches.current();
    law_branches_imply_their_tags(ctx.branches);
    let new = all_returned(values, branch, at);
    assert(all_sound(listed(branch)));
    law_nesting_adds_tags(values[i], LabelBacktraceKind::Return, None, at, listed(branch));
    assert forall|x: TagModel| spread(listed(branch)).contains(x) == label_or_bottom(
        branch,
    ).contains(x) by {
        if label_or_bottom(branch).contains(x) {
            assert(listed(branch)[0].label.contains(x));
        }
    }
    assert(spread(listed(branch)) =~= label_or_bottom(branch));
    let after = outcome_after(existing, new, at);
    if let Some(e) = existing {
        law_merging_keeps_tags(new[i], e[i], LabelBacktraceKind::Return, at);
    }
    assert(all_tags(after[i]) =~= all_tags(values[i]).union(label_or_bottom(branch)).union(
        match existing {
            Some(e) => all_tags(e[i]),
            None => Set::<TagModel>::empty(),
        },
    ));
    if branch is Some {
        law_early_exits_have_an_effect(ctx.branches, TargetModel::Function, at);
    }
}

/// Each name of a loop that goes through a value has all tags of the value and its
/// elements, and no others.
pub proof fn law_loops_hand_on_tags(
    v: ValueModel,
    is_integer: bool,
    at: PinnedModel<Location>,
    i: int,
)
    requires
        value_sound(v),
        0 <= i < range_values(v, is_integer, at).len(),
    ensures
        range_values(v, is_integer, at).len() >= 1,
        !is_integer && !(v.form is Channel) ==> range_values(v, is_integer, at).len() == 2,
        value_sound(range_values(v, is_integer, at)[i]),
        all_tags(range_values(v, is_integer, at)[i]) == all_tags(v),
{
    law_values_carry_their_tags(v);
    law_reads_have_the_tags_of_the_part(v, None, at);
    assert(all_tags(range_values(v, is_integer, at)[i]) =~= all_tags(v));
}

} // verus!
