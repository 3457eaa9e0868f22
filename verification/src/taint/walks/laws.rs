//! What holds of walks.

use vstd::prelude::*;

use crate::ast::Node;
use crate::context::branches::{branches_sound, law_entering_adds, BranchModel};
use crate::labels::backtraces::{label_or_bottom, Trace};
use crate::labels::trace_laws::sound;
use crate::taint::goto::left_times;
use crate::taint::implicit::condition_branch;
use crate::taint::walks::choices::stepped;
use crate::taint::walks::{after_init, part, SavedModel, TaskModel, WalkModel};

verus! {

/// Leaving branches does not leave what can be broken out of.
pub(super) proof fn lemma_left_depth(b: BranchModel, n: nat)
    ensures
        left_times(b, n).depth == b.depth,
    decreases n,
{
    if n > 0 {
        lemma_left_depth(b, (n - 1) as nat);
    }
}

/// What stands under a condition, and what is done otherwise, is visited under a
/// branch with all tags that the condition carries, and all that were there
/// before.
pub proof fn law_conditions_guard(w: WalkModel, node: Node, flow: Trace)
    requires
        w.tasks.len() > 0,
        w.tasks.last() == TaskModel::Condition(node),
        part(node, after_init(node)) is Some,
        w.place.ctx.branches.is_settled(),
        branches_sound(w.place.ctx.branches),
        sound(flow),
    ensures
        ({
            let next = stepped(w, Some(flow));
            &&& next.place.ctx.branches.current() matches Some(t) && t.label == flow.label.union(
                label_or_bottom(w.place.ctx.branches.current()),
            )
            &&& part(node, after_init(node) + 1) matches Some(body) ==> next.tasks.last()
                == (TaskModel::Statement { node: body, label: None })
        }),
{
    reveal(WalkModel::condition_met);
    let condition = part(node, after_init(node))->0;
    let branch = condition_branch(flow, w.place.at(condition.location));
    law_entering_adds(w.place.ctx.branches, branch);
}

proof fn lemma_quiet_statement_begun(w: WalkModel, node: Node, label: Option<Seq<char>>)
    requires
        w.place.ctx.log.suppression > 0,
    ensures
        w.statement_begun(node, label).place.ctx.log.errors == w.place.ctx.log.errors,
{
    reveal(WalkModel::statement_begun);
}

proof fn lemma_quiet_sequence_continued(
    w: WalkModel,
    nodes: Seq<Node>,
    at: int,
    end: int,
    blocked: bool,
    reported: bool,
)
    requires
        w.place.ctx.log.suppression > 0,
    ensures
        w.sequence_continued(nodes, at, end, blocked, reported).place.ctx.log.errors == w.place.ctx.log.errors,
{
    reveal(WalkModel::sequence_continued);
}

proof fn lemma_quiet_label_ended(w: WalkModel, node: Node)
    requires
        w.place.ctx.log.suppression > 0,
    ensures
        w.label_ended(node).place.ctx.log.errors == w.place.ctx.log.errors,
{
    reveal(WalkModel::label_ended);
}

proof fn lemma_quiet_condition_met(w: WalkModel, node: Node, answer: Option<Trace>)
    requires
        w.place.ctx.log.suppression > 0,
    ensures
        w.condition_met(node, answer).place.ctx.log.errors == w.place.ctx.log.errors,
{
    reveal(WalkModel::condition_met);
}

proof fn lemma_quiet_loop_begun(w: WalkModel, node: Node, label: Option<Seq<char>>)
    requires
        w.place.ctx.log.suppression > 0,
    ensures
        w.loop_begun(node, label).place.ctx.log.errors == w.place.ctx.log.errors,
{
    reveal(WalkModel::loop_begun);
}

proof fn lemma_quiet_iterating(w: WalkModel, node: Node, saved: SavedModel, quiet: bool)
    requires
        w.place.ctx.log.suppression > 0,
    ensures
        w.iterating(node, saved, quiet).place.ctx.log.errors == w.place.ctx.log.errors,
{
    reveal(WalkModel::iterating);
}

proof fn lemma_quiet_loop_entered(
    w: WalkModel,
    node: Node,
    saved: SavedModel,
    quiet: bool,
    begun: bool,
    answer: Option<Trace>,
)
    requires
        w.place.ctx.log.suppression > 0,
    ensures
        w.loop_entered(node, saved, quiet, begun, answer).place.ctx.log.errors == w.place.ctx.log.errors,
{
    reveal(WalkModel::loop_entered);
}

proof fn lemma_quiet_range_bound(
    w: WalkModel,
    node: Node,
    saved: SavedModel,
    header: Option<Trace>,
    begun: bool,
    entered: bool,
    last: bool,
)
    requires
        w.place.ctx.log.suppression > 0,
    ensures
        w.range_bound(node, saved, header, begun, entered, last).place.ctx.log.errors == w.place.ctx.log.errors,
{
    reveal(WalkModel::range_bound);
}

proof fn lemma_quiet_iteration_left(
    w: WalkModel,
    node: Node,
    saved: SavedModel,
    header: Option<Trace>,
    begun: bool,
    entered: bool,
    quiet: bool,
)
    requires
        w.place.ctx.log.suppression > 0,
    ensures
        w.iteration_left(node, saved, header, begun, entered, quiet).place.ctx.log.errors == w.place.ctx.log.errors,
{
    reveal(WalkModel::iteration_left);
}

proof fn lemma_quiet_tag_met(w: WalkModel, node: Node, answer: Option<Trace>)
    requires
        w.place.ctx.log.suppression > 0,
    ensures
        w.tag_met(node, answer).place.ctx.log.errors == w.place.ctx.log.errors,
{
    reveal(WalkModel::tag_met);
}

proof fn lemma_quiet_clauses_continued(w: WalkModel, node: Node, at: int, entered: nat)
    requires
        w.place.ctx.log.suppression > 0,
    ensures
        w.clauses_continued(node, at, entered).place.ctx.log.errors == w.place.ctx.log.errors,
{
    reveal(WalkModel::clauses_continued);
}

proof fn lemma_quiet_clause_continued(
    w: WalkModel,
    node: Node,
    at: int,
    entered: nat,
    next: int,
    flows: Seq<Option<Trace>>,
)
    requires
        w.place.ctx.log.suppression > 0,
    ensures
        w.clause_continued(node, at, entered, next, flows).place.ctx.log.errors == w.place.ctx.log.errors,
{
    reveal(WalkModel::clause_continued);
}

proof fn lemma_quiet_readiness_continued(
    w: WalkModel,
    node: Node,
    at: int,
    flows: Seq<Option<Trace>>,
)
    requires
        w.place.ctx.log.suppression > 0,
    ensures
        w.readiness_continued(node, at, flows).place.ctx.log.errors == w.place.ctx.log.errors,
{
    reveal(WalkModel::readiness_continued);
}

proof fn lemma_quiet_communications_continued(w: WalkModel, node: Node, at: int, entered: bool)
    requires
        w.place.ctx.log.suppression > 0,
    ensures
        w.communications_continued(node, at, entered).place.ctx.log.errors == w.place.ctx.log.errors,
{
    reveal(WalkModel::communications_continued);
}

proof fn lemma_quiet_body_begun(w: WalkModel, node: Node)
    requires
        w.place.ctx.log.suppression > 0,
    ensures
        w.body_begun(node).place.ctx.log.errors == w.place.ctx.log.errors,
{
    reveal(WalkModel::body_begun);
}

proof fn lemma_quiet_trial_ended(w: WalkModel, node: Node, saved: SavedModel, position: usize)
    requires
        w.place.ctx.log.suppression > 0,
    ensures
        w.trial_ended(node, saved, position).place.ctx.log.errors == w.place.ctx.log.errors,
{
    reveal(WalkModel::trial_ended);
}

proof fn lemma_quiet_body_left(w: WalkModel)
    requires
        w.place.ctx.log.suppression > 0,
    ensures
        w.body_left().place.ctx.log.errors == w.place.ctx.log.errors,
{
    reveal(WalkModel::body_left);
}

/// While reporting is stopped, nothing is reported, whatever is visited.
pub proof fn law_trials_report_nothing(w: WalkModel, answer: Option<Trace>)
    requires
        w.place.ctx.log.suppression > 0,
    ensures
        stepped(w, answer).place.ctx.log.errors == w.place.ctx.log.errors,
{
    if w.tasks.len() > 0 {
        let rest = WalkModel { tasks: w.tasks.drop_last(), ..w };
        match w.tasks.last() {
            TaskModel::Statement { node, label } => {
                lemma_quiet_statement_begun(rest, node, label);
            },
            TaskModel::Sequence { nodes, at, end, blocked, reported } => {
                lemma_quiet_sequence_continued(rest, nodes, at, end, blocked, reported);
            },
            TaskModel::EndLabel(node) => {
                lemma_quiet_label_ended(rest, node);
            },
            TaskModel::Condition(node) => {
                lemma_quiet_condition_met(rest, node, answer);
            },
            TaskModel::BeginLoop { node, label } => {
                lemma_quiet_loop_begun(rest, node, label);
            },
            TaskModel::Iterate { node, saved, quiet } => {
                lemma_quiet_iterating(rest, node, saved, quiet);
            },
            TaskModel::Enter { node, saved, quiet, begun } => {
                lemma_quiet_loop_entered(rest, node, saved, quiet, begun, answer);
            },
            TaskModel::RangeBody { node, saved, header, begun, entered, last } => {
                lemma_quiet_range_bound(rest, node, saved, header, begun, entered, last);
            },
            TaskModel::EndIteration { node, saved, header, begun, entered, quiet } => {
                lemma_quiet_iteration_left(rest, node, saved, header, begun, entered, quiet);
            },
            TaskModel::Tag(node) => {
                lemma_quiet_tag_met(rest, node, answer);
            },
            TaskModel::Clauses { node, at, entered } => {
                lemma_quiet_clauses_continued(rest, node, at, entered);
            },
            TaskModel::AskClause { node, at, entered, next, flows } => {
                lemma_quiet_clause_continued(rest, node, at, entered, next, flows);
            },
            TaskModel::AskReady { node, at, flows } => {
                lemma_quiet_readiness_continued(rest, node, at, flows);
            },
            TaskModel::Communications { node, at, entered } => {
                lemma_quiet_communications_continued(rest, node, at, entered);
            },
            TaskModel::Body(node) => {
                lemma_quiet_body_begun(rest, node);
            },
            TaskModel::EndTrial { node, saved, position } => {
                lemma_quiet_trial_ended(rest, node, saved, position);
            },
            TaskModel::EndBody => {
                lemma_quiet_body_left(rest);
            },
            _ => {},
        }
    }
}

} // verus!
