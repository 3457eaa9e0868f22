//! The steps of walks through statements.

use vstd::prelude::*;

use crate::ast::{Node, NodeKind};
use crate::context::branches::{BranchModel, DeferTarget, DeferredBranchBacktraceCheckpoint,
    TargetModel};
use crate::context::loops::continued;
use crate::context::ContextModel;
use crate::errors::{AnalysisErrorKind, ErrorModel};
use crate::labels::backtraces::{trace_of, LabelBacktrace, Trace};
use crate::locations::Span;
use crate::taint::funcs::call_checks::flows_of;
use crate::taint::goto::{jumps, GotoModel};
use crate::taint::implicit::{clause_branch, visit_break, visit_continue, PlaceModel};
use crate::taint::statements::{consider, considered, StatementPlan};
use crate::taint::walks::{after_init, counted, first_name, goes_through, header_at, header_location,
    header_of, init_at, init_count, init_of, is_range, label_of, last_part, last_part_at,
    location_of_header, part, part_at, post_at, post_of, saved_in, Action, ActionModel, SavedModel,
    Task, TaskModel, Walk, WalkModel};

verus! {

impl TaskModel {
    /// Whether a statement that can be broken out of is left with the task, or
    /// behind it.
    pub open spec fn is_deep(self) -> bool {
        self is Iterate || self is Enter || self is RangeBody || self is EndIteration
            || self is EndLoop || self is AskTag || self is Tag || self is Clauses
            || self is AskClause || self is Compare
    }

    /// Whether reporting is taken up again with the task, or behind it.
    pub open spec fn is_quiet(self) -> bool {
        match self {
            TaskModel::Iterate { quiet, .. } | TaskModel::Enter { quiet, .. }
            | TaskModel::EndIteration { quiet, .. } => quiet,
            TaskModel::EndTrial { .. } => true,
            _ => false,
        }
    }

    /// Whether the task speaks of parts that there are, and of no more branches
    /// than these can enter.
    pub open spec fn is_counted(self) -> bool {
        match self {
            TaskModel::Clauses { at, entered, .. } => entered <= at,
            TaskModel::AskClause { node, at, entered, .. } => entered <= at
                < node.children@.len(),
            TaskModel::Compare { node, at, entered, next, .. } => {
                &&& entered <= at < node.children@.len()
                &&& next < node.children@[at].children@.len()
            },
            TaskModel::Ready { node, at, .. } => at < node.children@.len(),
            _ => true,
        }
    }
}

/// How many statements that can be broken out of are left with tasks.
#[verifier::opaque]
pub open spec fn depth_of(tasks: Seq<TaskModel>) -> int
    decreases tasks.len(),
{
    if tasks.len() == 0 {
        0
    } else {
        depth_of(tasks.drop_last()) + if tasks.last().is_deep() {
            1int
        } else {
            0
        }
    }
}

/// How many times reporting is taken up again with tasks.
#[verifier::opaque]
pub open spec fn quiet_of(tasks: Seq<TaskModel>) -> int
    decreases tasks.len(),
{
    if tasks.len() == 0 {
        0
    } else {
        quiet_of(tasks.drop_last()) + if tasks.last().is_quiet() {
            1int
        } else {
            0
        }
    }
}

/// Whether all tasks speak of parts that there are.
#[verifier::opaque]
pub open spec fn all_counted(tasks: Seq<TaskModel>) -> bool
    decreases tasks.len(),
{
    tasks.len() == 0 || all_counted(tasks.drop_last()) && tasks.last().is_counted()
}

pub(super) proof fn lemma_pushed(tasks: Seq<TaskModel>, t: TaskModel)
    ensures
        depth_of(tasks.push(t)) == depth_of(tasks) + if t.is_deep() {
            1int
        } else {
            0
        },
        quiet_of(tasks.push(t)) == quiet_of(tasks) + if t.is_quiet() {
            1int
        } else {
            0
        },
        all_counted(tasks.push(t)) == (all_counted(tasks) && t.is_counted()),
        depth_of(tasks) >= 0,
        quiet_of(tasks) >= 0,
    decreases tasks.len(),
{
    reveal(depth_of);
    reveal(quiet_of);
    reveal(all_counted);
    assert(tasks.push(t).drop_last() =~= tasks);
    if tasks.len() > 0 {
        lemma_pushed(tasks.drop_last(), tasks.last());
        assert(tasks.drop_last().push(tasks.last()) =~= tasks);
    }
}

pub(super) proof fn lemma_spared(tasks: Seq<TaskModel>)
    ensures
        depth_of(tasks) >= 0,
        quiet_of(tasks) >= 0,
{
    lemma_pushed(tasks, TaskModel::LeaveScope);
}

impl WalkModel {
    /// Whether what is left with the tasks has been entered.
    pub open spec fn is_balanced(self) -> bool {
        &&& depth_of(self.tasks) <= self.place.ctx.branches.depth
        &&& quiet_of(self.tasks) <= self.place.ctx.log.suppression
        &&& all_counted(self.tasks)
    }

    /// Whether so much more than what is left with the tasks has been entered.
    pub open spec fn spares(self, deep: bool, quiet: bool) -> bool {
        &&& depth_of(self.tasks) + counted(deep) <= self.place.ctx.branches.depth
        &&& quiet_of(self.tasks) + counted(quiet) <= self.place.ctx.log.suppression
        &&& all_counted(self.tasks)
    }

    /// The walk with something more to do first.
    pub open spec fn doing(self, t: TaskModel) -> WalkModel {
        WalkModel { tasks: self.tasks.push(t), ..self }
    }

    /// The walk with a statement to visit first, if there is one.
    pub open spec fn visiting(self, node: Option<Node>) -> WalkModel {
        match node {
            Some(n) => self.doing(TaskModel::Statement { node: n, label: None }),
            None => self,
        }
    }

    /// The walk with statements to visit first.
    pub open spec fn visiting_all(self, nodes: Seq<Node>, end: int) -> WalkModel {
        self.doing(
            TaskModel::Sequence { nodes, at: 0, end, blocked: false, reported: false },
        )
    }

    /// The walk elsewhere.
    pub open spec fn moved(self, place: PlaceModel) -> WalkModel {
        WalkModel { place, ..self }
    }

    /// The walk once an error is reported.
    pub open spec fn reporting(self, kind: ErrorModel) -> WalkModel {
        self.moved(
            PlaceModel {
                ctx: ContextModel {
                    log: self.place.ctx.log.with_error(kind),
                    ..self.place.ctx
                },
                ..self.place
            },
        )
    }

    /// The walk with other branches around.
    pub open spec fn under(self, branches: BranchModel) -> WalkModel {
        self.moved(self.place.with_branches(branches))
    }

    /// The walk once reporting is stopped, or taken up again.
    pub open spec fn with_suppression(self, suppression: nat) -> WalkModel {
        self.moved(
            PlaceModel {
                ctx: ContextModel {
                    log: crate::context::reports::LogModel { suppression, ..self.place.ctx.log },
                    ..self.place.ctx
                },
                ..self.place
            },
        )
    }

    /// The walk once reporting is stopped.
    pub open spec fn hushed(self) -> WalkModel {
        self.with_suppression((self.place.ctx.log.suppression + 1) as nat)
    }

    /// The walk once reporting is taken up again.
    pub open spec fn unhushed(self) -> WalkModel {
        self.with_suppression((self.place.ctx.log.suppression - 1) as nat)
    }

    /// The walk once a label is reached.
    pub open spec fn at_label(self, label: Option<Seq<char>>) -> WalkModel {
        match label {
            Some(l) => match self.jumps.entering(l) {
                Some(t) => WalkModel {
                    jumps: GotoModel { pushes: self.jumps.pushes + 1, ..self.jumps },
                    ..self.under(self.place.ctx.branches.entered(t))
                },
                None => self,
            },
            None => self,
        }
    }

    /// The walk once a statement that goes on with the next iteration is
    /// reached.
    pub open spec fn continuing(self, node: Node) -> WalkModel {
        let at = self.place.at(node.location);
        let label = first_name(node);
        let next = self.under(
            self.place.ctx.branches.deferring(
                match label {
                    Some(l) => TargetModel::LabeledLoop(l),
                    None => TargetModel::InnermostLoop,
                },
                at,
            ),
        );
        next.moved(
            PlaceModel {
                loops: continued(
                    self.place.loops,
                    label,
                    self.place.ctx.branches.current(),
                    at,
                    self.place.loops.len() as int,
                ),
                ..next.place
            },
        )
    }

    /// The walk once a statement that leaves a loop or a choice is reached.
    pub open spec fn breaking(self, node: Node) -> WalkModel {
        self.under(
            self.place.ctx.branches.deferring(
                match first_name(node) {
                    Some(l) => TargetModel::LabeledBreakable(l),
                    None => TargetModel::InnermostBreakable,
                },
                self.place.at(node.location),
            ),
        )
    }

    /// The walk once a statement that jumps to a label is reached.
    pub open spec fn jumping(self, node: Node) -> WalkModel {
        match first_name(node) {
            Some(l) => WalkModel {
                jumps: self.jumps.jumping(
                    l,
                    self.place.ctx.branches.current(),
                    self.place.at(node.location),
                ),
                ..self
            },
            None => self,
        }
    }

    /// The walk once the visit of a statement is begun.
    #[verifier::opaque]
    pub open spec fn statement_begun(self, node: Node, label: Option<Seq<char>>) -> WalkModel {
        match node.kind {
            NodeKind::Block => self.moved(self.place.in_scope()).doing(
                TaskModel::LeaveScope,
            ).visiting_all(node.children@, node.children@.len() as int),
            NodeKind::Labeled => {
                let next = self.at_label(first_name(node)).doing(TaskModel::EndLabel(node));
                match part(node, 0) {
                    Some(inner) => next.doing(
                        TaskModel::Statement { node: inner, label: first_name(node) },
                    ),
                    None => next,
                }
            },
            NodeKind::If { .. } => self.moved(self.place.if_begun(node.location)).doing(
                TaskModel::AskCondition(node),
            ).visiting(init_of(node)),
            NodeKind::For { .. } => self.moved(self.place.in_scope()).doing(
                TaskModel::BeginLoop { node, label },
            ).visiting(
                if is_range(node) {
                    None
                } else {
                    init_of(node)
                },
            ),
            NodeKind::Switch { .. } => self.moved(self.place.switch_begun(node.location)).doing(
                TaskModel::AskTag(node),
            ).visiting(init_of(node)),
            NodeKind::Select => self.doing(
                TaskModel::AskReady { node, at: 0, flows: Seq::<Option<Trace>>::empty() },
            ),
            NodeKind::Fallthrough => self.reporting(
                ErrorModel::UnexpectedFallthrough { location: node.location },
            ),
            NodeKind::Continue => self.continuing(node),
            NodeKind::Break => self.breaking(node),
            NodeKind::Goto => self.jumping(node),
            NodeKind::Go => if is_call(part(node, 0)) {
                self
            } else {
                self.reporting(ErrorModel::GoNotCall { location: node.location })
            },
            NodeKind::Defer => if is_call(part(node, 0)) {
                self
            } else {
                self.reporting(ErrorModel::DeferNotCall { location: node.location })
            },
            _ => self,
        }
    }
}

/// Whether there is something, and it is a call.
pub open spec fn is_call(node: Option<Node>) -> bool {
    match node {
        Some(n) => n.kind is Call,
        None => false,
    }
}

/// What is asked for when the visit of a statement is begun.
pub open spec fn statement_action(node: Node) -> ActionModel {
    match node.kind {
        NodeKind::For { .. } => match header_of(node) {
            Some(h) => if is_range(node) {
                ActionModel::PrepareRange(h)
            } else {
                ActionModel::Nothing
            },
            None => ActionModel::Nothing,
        },
        NodeKind::Go => if is_call(part(node, 0)) {
            ActionModel::Perform(node)
        } else {
            ActionModel::Nothing
        },
        NodeKind::Defer => match part(node, 0) {
            Some(child) => if child.kind is Call {
                ActionModel::Perform(node)
            } else {
                ActionModel::Evaluate(child)
            },
            None => ActionModel::Nothing,
        },
        NodeKind::Evaluation
        | NodeKind::Send
        | NodeKind::IncDec
        | NodeKind::Assignment(_)
        | NodeKind::ShortDecl
        | NodeKind::BindingDecl
        | NodeKind::Return => ActionModel::Perform(node),
        _ => ActionModel::Nothing,
    }
}

/// Whether there is room for what the visit of a statement enters.
pub open spec fn statement_fits(w: WalkModel, node: Node) -> bool {
    match node.kind {
        NodeKind::Block | NodeKind::If { .. } | NodeKind::For { .. } => w.place.has_room(),
        NodeKind::Switch { .. } => w.place.has_room() && w.place.ctx.branches.depth < 255,
        NodeKind::Labeled => w.jumps.pushes < usize::MAX,
        _ => true,
    }
}

fn calls(node: Option<&Node>) -> (r: bool)
    ensures
        r == is_call(
            match node {
                Some(n) => Some(*n),
                None => None,
            },
        ),
{
    match node {
        Some(n) => match n.kind {
            NodeKind::Call { .. } => true,
            _ => false,
        },
        None => false,
    }
}

impl<'a> Walk<'a> {
    /// Whether a walk is one that can come up.
    pub open spec fn wf(&self) -> bool {
        self.place.wf() && self@.is_balanced()
    }

    /// Puts a task before the others.
    pub(super) fn push(&mut self, t: Task<'a>)
        requires
            old(self).place.wf(),
        ensures
            final(self).place.wf(),
            final(self)@ == old(self)@.doing(t@),
            depth_of(final(self)@.tasks) == depth_of(old(self)@.tasks) + if t@.is_deep() {
                1int
            } else {
                0
            },
            quiet_of(final(self)@.tasks) == quiet_of(old(self)@.tasks) + if t@.is_quiet() {
                1int
            } else {
                0
            },
            all_counted(final(self)@.tasks) == (all_counted(old(self)@.tasks) && t@.is_counted()),
    {
        let ghost before = self@;
        let ghost m = t@;
        self.tasks.push(t);
        proof {
            assert(self@.tasks =~= before.tasks.push(m));
            lemma_pushed(before.tasks, m);
        }
    }

    pub(super) fn push_part(&mut self, node: Option<&'a Node>)
        requires
            old(self).wf(),
        ensures
            final(self).wf(),
            final(self)@ == old(self)@.visiting(
                match node {
                    Some(n) => Some(*n),
                    None => None,
                },
            ),
    {
        if let Some(n) = node {
            self.push(Task::Statement { node: n, label: None });
        }
    }

    pub(super) fn push_all(&mut self, nodes: &'a Vec<Node>, end: usize)
        requires
            old(self).wf(),
        ensures
            final(self).wf(),
            final(self)@ == old(self)@.visiting_all(nodes@, end as int),
    {
        self.push(Task::Sequence { nodes, at: 0, end, blocked: false, reported: false });
    }

    pub(super) fn report(&mut self, kind: AnalysisErrorKind)
        requires
            old(self).wf(),
        ensures
            final(self).wf(),
            final(self)@ == old(self)@.reporting(kind@),
    {
        let ghost before = self@;
        let ghost m = kind@;
        self.place.ctx.log.report_error(kind);
        proof {
            assert(self@ =~= before.reporting(m));
        }
    }

    fn visit_labeled(&mut self, node: &'a Node)
        requires
            old(self).wf(),
            old(self)@.jumps.pushes < usize::MAX,
            node.kind is Labeled,
        ensures
            final(self).wf(),
            final(self)@ == old(self)@.statement_begun(*node, None),
    {
        proof {
            reveal(WalkModel::statement_begun);
        }
        let ghost before = self@;
        let label = if node.names.len() > 0 {
            Some(&node.names[0])
        } else {
            None
        };
        if let Some(l) = label {
            self.jumps.visit_label_in_goto_context(&mut self.place.ctx.branches, l.content());
        }
        proof {
            assert(self@ =~= before.at_label(first_name(*node)));
        }
        self.push(Task::EndLabel(node));
        if let Some(inner) = part_at(node, 0) {
            self.push(Task::Statement { node: inner, label });
        }
    }

    fn visit_jump(&mut self, node: &'a Node)
        requires
            old(self).wf(),
            node.kind is Continue || node.kind is Break || node.kind is Goto,
        ensures
            final(self).wf(),
            final(self)@ == old(self)@.statement_begun(*node, None),
    {
        proof {
            reveal(WalkModel::statement_begun);
        }
        let ghost before = self@;
        let label = if node.names.len() > 0 {
            Some(&node.names[0])
        } else {
            None
        };
        let at = self.place.ctx.log.pin(node.location);
        match node.kind {
            NodeKind::Continue => {
                visit_continue(&mut self.place.ctx.branches, &mut self.place.loops, label, at);
                proof {
                    assert(self@ =~= before.continuing(*node));
                }
            },
            NodeKind::Break => {
                visit_break(&mut self.place.ctx.branches, label, at);
                proof {
                    assert(self@ =~= before.breaking(*node));
                }
            },
            _ => {
                if let Some(l) = label {
                    self.jumps.visit_goto(&self.place.ctx.branches, l.content(), &at);
                }
                proof {
                    assert(self@ =~= before.jumping(*node));
                }
            },
        }
    }

    /// Begins the visit of a statement.
    pub fn visit_statement(&mut self, node: &'a Node, label: Option<&'a Span>) -> (r: Action<'a>)
        requires
            old(self).wf(),
            statement_fits(old(self)@, *node),
        ensures
            final(self).wf(),
            final(self)@ == old(self)@.statement_begun(*node, label_of(label)),
            r@ == statement_action(*node),
    {
        proof {
            reveal(WalkModel::statement_begun);
        }
        match node.kind {
            NodeKind::Block => {
                self.place.enter_scope();
                self.push(Task::LeaveScope);
                self.push_all(&node.children, node.children.len());
                Action::Nothing
            },
            NodeKind::Labeled => {
                self.visit_labeled(node);
                Action::Nothing
            },
            NodeKind::If { .. } => {
                self.place.begin_if(node.location);
                self.push(Task::AskCondition(node));
                self.push_part(init_at(node));
                Action::Nothing
            },
            NodeKind::For { .. } => {
                self.place.enter_scope();
                self.push(Task::BeginLoop { node, label });
                if goes_through(node) {
                    match header_at(node) {
                        Some(h) => Action::PrepareRange(h),
                        None => Action::Nothing,
                    }
                } else {
                    self.push_part(init_at(node));
                    Action::Nothing
                }
            },
            NodeKind::Switch { .. } => {
                self.place.begin_switch(node.location);
                self.push(Task::AskTag(node));
                self.push_part(init_at(node));
                Action::Nothing
            },
            NodeKind::Select => {
                let flows: Vec<Option<LabelBacktrace>> = Vec::new();
                proof {
                    assert(flows_of(flows@) =~= Seq::<Option<Trace>>::empty());
                }
                self.push(Task::AskReady { node, at: 0, flows });
                Action::Nothing
            },
            NodeKind::Fallthrough => {
                self.report(
                    AnalysisErrorKind::UnexpectedFallthrough { location: node.location },
                );
                Action::Nothing
            },
            NodeKind::Continue | NodeKind::Break | NodeKind::Goto => {
                self.visit_jump(node);
                Action::Nothing
            },
            NodeKind::Go => {
                if calls(part_at(node, 0)) {
                    Action::Perform(node)
                } else {
                    self.report(AnalysisErrorKind::GoNotCall { location: node.location });
                    Action::Nothing
                }
            },
            NodeKind::Defer => {
                if calls(part_at(node, 0)) {
                    Action::Perform(node)
                } else {
                    self.report(AnalysisErrorKind::DeferNotCall { location: node.location });
                    match part_at(node, 0) {
                        Some(child) => Action::Evaluate(child),
                        None => Action::Nothing,
                    }
                }
            },
            NodeKind::Evaluation
            | NodeKind::Send
            | NodeKind::IncDec
            | NodeKind::Assignment(_)
            | NodeKind::ShortDecl
            | NodeKind::BindingDecl
            | NodeKind::Return => Action::Perform(node),
            _ => Action::Nothing,
        }
    }
}

/// What an expression carries, if there is one.
pub open spec fn answered(node: Option<Node>, answer: Option<Trace>) -> Option<Trace> {
    if node is Some {
        answer
    } else {
        None
    }
}

/// That an expression is evaluated, if there is one.
pub open spec fn asking(node: Option<Node>) -> ActionModel {
    match node {
        Some(n) => ActionModel::Evaluate(n),
        None => ActionModel::Nothing,
    }
}

pub(super) fn ask<'a>(node: Option<&'a Node>) -> (r: Action<'a>)
    ensures
        r@ == asking(
            match node {
                Some(n) => Some(*n),
                None => None,
            },
        ),
{
    match node {
        Some(n) => Action::Evaluate(n),
        None => Action::Nothing,
    }
}

impl WalkModel {
    /// Whether something jumped to a statement when the function was last
    /// visited.
    pub open spec fn is_target(self, node: Node) -> bool {
        match first_name(node) {
            Some(l) => node.kind is Labeled && self.jumps.incoming.dom().contains(l),
            None => false,
        }
    }

    /// The walk once it has gone on in a list of statements.
    #[verifier::opaque]
    pub open spec fn sequence_continued(
        self,
        nodes: Seq<Node>,
        at: int,
        end: int,
        blocked: bool,
        reported: bool,
    ) -> WalkModel {
        if at < end && at < nodes.len() {
            let node = nodes[at];
            let c = considered(blocked, reported, node, self.is_target(node));
            let next = self.doing(
                TaskModel::Sequence {
                    nodes,
                    at: at + 1,
                    end,
                    blocked: c.blocked,
                    reported: c.reported,
                },
            );
            if c.plan is Visit {
                next.visiting(Some(node))
            } else {
                next.reporting(ErrorModel::Unreachable { location: node.location })
            }
        } else {
            self
        }
    }

    /// The walk once a statement with a label is left.
    #[verifier::opaque]
    pub open spec fn label_ended(self, node: Node) -> WalkModel {
        match (first_name(node), part(node, 0)) {
            (Some(l), Some(inner)) => match inner.kind {
                NodeKind::For { .. } => self.under(
                    self.place.ctx.branches.triggered(TargetModel::LabeledLoop(l)).triggered(
                        TargetModel::LabeledBreakable(l),
                    ),
                ),
                NodeKind::Switch { .. } | NodeKind::Select => self.under(
                    self.place.ctx.branches.triggered(TargetModel::LabeledBreakable(l)),
                ),
                _ => self,
            },
            _ => self,
        }
    }

    /// The walk once a condition is evaluated.
    #[verifier::opaque]
    pub open spec fn condition_met(self, node: Node, answer: Option<Trace>) -> WalkModel {
        let c = after_init(node);
        let flow = answered(part(node, c), answer);
        let location = match part(node, c) {
            Some(condition) => condition.location,
            None => node.location,
        };
        self.moved(self.place.if_decided(flow, location)).doing(
            TaskModel::EndIf(flow is Some),
        ).visiting(part(node, c + 2)).visiting(part(node, c + 1))
    }

    /// The walk once a loop is entered.
    #[verifier::opaque]
    pub open spec fn loop_begun(self, node: Node, label: Option<Seq<char>>) -> WalkModel {
        let inside = self.moved(self.place.for_begun(node.location, label));
        let saved = SavedModel {
            deferred: inside.place.ctx.branches.deferred,
            composite: inside.place.ctx.branches.composite,
        };
        if is_range(node) {
            inside.doing(TaskModel::Iterate { node, saved, quiet: false })
        } else {
            inside.hushed().doing(TaskModel::Iterate { node, saved, quiet: true })
        }
    }

    /// Whether an iteration depends on whether the last one was ended early.
    pub open spec fn is_resumed(self) -> bool {
        self.place.loops.len() > 0 && self.place.loops.last().incoming is Some
    }

    /// Whether another visit of the innermost loop would bring nothing new.
    pub open spec fn is_stable(self, header: Option<Trace>) -> bool {
        self.place.loops.len() == 0 || self.place.loops.last().is_stable(header)
    }

    /// The walk once an iteration is begun.
    #[verifier::opaque]
    pub open spec fn iterating(self, node: Node, saved: SavedModel, quiet: bool) -> WalkModel {
        if is_range(node) {
            self.doing(TaskModel::Enter { node, saved, quiet, begun: false })
        } else {
            self.moved(self.place.iteration_begun()).doing(
                TaskModel::Enter { node, saved, quiet, begun: self.is_resumed() },
            )
        }
    }

    /// The walk once the body of a loop is entered, or another visit has turned
    /// out to bring nothing new.
    #[verifier::opaque]
    pub open spec fn loop_entered(
        self,
        node: Node,
        saved: SavedModel,
        quiet: bool,
        begun: bool,
        answer: Option<Trace>,
    ) -> WalkModel {
        let header = answered(header_of(node), answer);
        let at = header_location(node);
        let entered = clause_branch(seq![header], self.place.at(at)) is Some;
        if is_range(node) {
            self.moved(self.place.iteration_begun().iteration_entered(header, at)).doing(
                TaskModel::RangeBody {
                    node,
                    saved,
                    header,
                    begun: self.is_resumed(),
                    entered,
                    last: self.is_stable(header),
                },
            )
        } else if quiet && self.is_stable(header) {
            self.moved(self.place.iteration_ended(false, begun)).unhushed().doing(
                TaskModel::Iterate { node, saved, quiet: false },
            )
        } else {
            self.moved(self.place.iteration_entered(header, at)).doing(
                TaskModel::EndIteration { node, saved, header, begun, entered, quiet },
            ).visiting(post_of(node)).visiting(last_part(node))
        }
    }

    /// The walk once the names of a loop are bound.
    #[verifier::opaque]
    pub open spec fn range_bound(
        self,
        node: Node,
        saved: SavedModel,
        header: Option<Trace>,
        begun: bool,
        entered: bool,
        last: bool,
    ) -> WalkModel {
        let inside = if last {
            self
        } else {
            self.hushed()
        };
        inside.doing(
            TaskModel::EndIteration { node, saved, header, begun, entered, quiet: !last },
        ).visiting(last_part(node))
    }

    /// The walk once the body of a loop is left. What a trial put off is put off
    /// no more when the loop is visited again.
    #[verifier::opaque]
    pub open spec fn iteration_left(
        self,
        node: Node,
        saved: SavedModel,
        header: Option<Trace>,
        begun: bool,
        entered: bool,
        quiet: bool,
    ) -> WalkModel {
        let heard = if quiet && is_range(node) {
            self.unhushed()
        } else {
            self
        };
        let out = heard.moved(heard.place.iteration_ended(entered, begun));
        if quiet {
            out.moved(out.place.loop_repeated(header, saved.deferred, saved.composite)).doing(
                TaskModel::Iterate { node, saved, quiet: !is_range(node) },
            )
        } else {
            out.doing(TaskModel::EndLoop)
        }
    }
}

/// That a loop goes on.
pub open spec fn iteration_action(node: Node) -> ActionModel {
    match header_of(node) {
        Some(h) => if is_range(node) {
            ActionModel::DeriveRange(h)
        } else {
            ActionModel::Evaluate(h)
        },
        None => ActionModel::Nothing,
    }
}

/// That the names of a loop are bound, if it goes through something.
pub open spec fn entering_action(node: Node) -> ActionModel {
    match header_of(node) {
        Some(h) => if is_range(node) {
            ActionModel::BindRange(h)
        } else {
            ActionModel::Nothing
        },
        None => ActionModel::Nothing,
    }
}

impl<'a> Walk<'a> {
    pub(super) fn hush(&mut self)
        requires
            old(self).place.wf(),
            old(self)@.place.ctx.log.suppression < 255,
        ensures
            final(self).place.wf(),
            final(self)@ == old(self)@.hushed(),
    {
        let ghost before = self@;
        self.place.ctx.log.push_error_suppression();
        proof {
            assert(self@ =~= before.hushed());
        }
    }

    pub(super) fn unhush(&mut self)
        requires
            old(self).place.wf(),
            old(self)@.place.ctx.log.suppression > 0,
        ensures
            final(self).place.wf(),
            final(self)@ == old(self)@.unhushed(),
    {
        let ghost before = self@;
        self.place.ctx.log.pop_error_suppression();
        proof {
            assert(self@ =~= before.unhushed());
        }
    }

    /// Goes on in a list of statements.
    pub fn visit_statements(
        &mut self,
        nodes: &'a Vec<Node>,
        at: usize,
        end: usize,
        blocked: bool,
        reported: bool,
    )
        requires
            old(self).wf(),
        ensures
            final(self).wf(),
            final(self)@ == old(self)@.sequence_continued(
                nodes@,
                at as int,
                end as int,
                blocked,
                reported,
            ),
    {
        proof {
            reveal(WalkModel::sequence_continued);
        }
        if at < end && at < nodes.len() {
            let node = &nodes[at];
            let labeled = match node.kind {
                NodeKind::Labeled => true,
                _ => false,
            };
            let targeted = labeled && node.names.len() > 0 && self.jumps.is_label_targeted(
                node.names[0].content(),
            );
            let c = consider(blocked, reported, node, targeted);
            self.push(
                Task::Sequence {
                    nodes,
                    at: at + 1,
                    end,
                    blocked: c.blocked,
                    reported: c.reported,
                },
            );
            match c.plan {
                StatementPlan::Visit => {
                    self.push_part(Some(node));
                },
                StatementPlan::Unreachable => {
                    self.report(AnalysisErrorKind::Unreachable { location: node.location });
                },
            }
        }
    }

    pub(super) fn end_label(&mut self, node: &'a Node)
        requires
            old(self).wf(),
        ensures
            final(self).wf(),
            final(self)@ == old(self)@.label_ended(*node),
    {
        proof {
            reveal(WalkModel::label_ended);
        }
        let ghost before = self@;
        if node.names.len() > 0 {
            let label = node.names[0].content();
            if let Some(inner) = part_at(node, 0) {
                match inner.kind {
                    NodeKind::For { .. } => {
                        self.place.ctx.branches.trigger_defer_target(
                            DeferTarget::LabeledLoop(label.to_owned()),
                        );
                        self.place.ctx.branches.trigger_defer_target(
                            DeferTarget::LabeledBreakable(label.to_owned()),
                        );
                    },
                    NodeKind::Switch { .. } | NodeKind::Select => {
                        self.place.ctx.branches.trigger_defer_target(
                            DeferTarget::LabeledBreakable(label.to_owned()),
                        );
                    },
                    _ => {},
                }
            }
        }
        proof {
            assert(self@ =~= before.label_ended(*node));
        }
    }

    /// Goes on behind a condition: with the statements under it, then with those
    /// for when it does not hold.
    pub fn visit_if(&mut self, node: &'a Node, answer: Option<LabelBacktrace>)
        requires
            old(self).wf(),
        ensures
            final(self).wf(),
            final(self)@ == old(self)@.condition_met(*node, trace_of(answer)),
    {
        proof {
            reveal(WalkModel::condition_met);
        }
        let c: usize = init_count(node);
        let (flow, location) = match part_at(node, c) {
            Some(condition) => (answer, condition.location),
            None => (None, node.location),
        };
        let entered = self.place.decide_if(flow, location);
        self.push(Task::EndIf(entered));
        self.push_part(part_at(node, c + 2));
        self.push_part(part_at(node, c + 1));
    }

    /// Enters a loop. The visits of one that goes on under a condition are only
    /// trials until nothing changes any more.
    pub fn visit_for(&mut self, node: &'a Node, label: Option<&'a Span>)
        requires
            old(self).wf(),
            old(self)@.place.ctx.branches.depth < 255,
            old(self)@.place.ctx.log.suppression < 255,
        ensures
            final(self).wf(),
            final(self)@ == old(self)@.loop_begun(*node, label_of(label)),
    {
        proof {
            reveal(WalkModel::loop_begun);
        }
        let name = match label {
            Some(l) => Some(l.content().to_owned()),
            None => None,
        };
        self.place.begin_for(node.location, name);
        let saved = self.place.ctx.branches.checkpoint_deferred_state();
        if goes_through(node) {
            self.push(Task::Iterate { node, saved, quiet: false });
        } else {
            self.hush();
            self.push(Task::Iterate { node, saved, quiet: true });
        }
    }

    pub(super) fn iterate(
        &mut self,
        node: &'a Node,
        saved: DeferredBranchBacktraceCheckpoint,
        quiet: bool,
    ) -> (r: Action<'a>)
        requires
            old(self).place.wf(),
            old(self)@.spares(true, quiet),
        ensures
            final(self).wf(),
            final(self)@ == old(self)@.iterating(*node, saved_in(saved), quiet),
            r@ == iteration_action(*node),
    {
        proof {
            reveal(WalkModel::iterating);
        }
        if goes_through(node) {
            self.push(Task::Enter { node, saved, quiet, begun: false });
            match header_at(node) {
                Some(h) => Action::DeriveRange(h),
                None => Action::Nothing,
            }
        } else {
            let begun = self.place.begin_iteration();
            self.push(Task::Enter { node, saved, quiet, begun });
            ask(header_at(node))
        }
    }

    /// Enters the body of a loop that goes on under a condition, unless another
    /// trial would bring nothing new.
    pub fn visit_for_clause(
        &mut self,
        node: &'a Node,
        saved: DeferredBranchBacktraceCheckpoint,
        quiet: bool,
        begun: bool,
        answer: Option<LabelBacktrace>,
    )
        requires
            old(self).place.wf(),
            old(self)@.spares(true, quiet),
            !is_range(*node),
        ensures
            final(self).wf(),
            final(self)@ == old(self)@.loop_entered(
                *node,
                saved_in(saved),
                quiet,
                begun,
                trace_of(answer),
            ),
    {
        proof {
            reveal(WalkModel::loop_entered);
        }
        let header = if header_at(node).is_some() {
            answer
        } else {
            None
        };
        if quiet && self.place.loops.is_innermost_stable(&header) {
            proof {
                lemma_spared(self@.tasks);
            }
            self.place.end_iteration(false, begun);
            self.unhush();
            self.push(Task::Iterate { node, saved, quiet: false });
        } else {
            let entered = self.place.enter_iteration(&header, location_of_header(node));
            self.push(Task::EndIteration { node, saved, header, begun, entered, quiet });
            self.push_part(post_at(node));
            self.push_part(last_part_at(node));
        }
    }

    /// Enters the body of a loop that goes through something.
    pub fn visit_for_range(
        &mut self,
        node: &'a Node,
        saved: DeferredBranchBacktraceCheckpoint,
        quiet: bool,
        begun: bool,
        answer: Option<LabelBacktrace>,
    ) -> (r: Action<'a>)
        requires
            old(self).place.wf(),
            old(self)@.spares(true, quiet),
            is_range(*node),
        ensures
            final(self).wf(),
            final(self)@ == old(self)@.loop_entered(
                *node,
                saved_in(saved),
                quiet,
                begun,
                trace_of(answer),
            ),
            r@ == entering_action(*node),
    {
        proof {
            reveal(WalkModel::loop_entered);
        }
        let last = self.place.loops.is_innermost_stable(&answer);
        let resumed = self.place.begin_iteration();
        let entered = self.place.enter_iteration(&answer, location_of_header(node));
        self.push(
            Task::RangeBody { node, saved, header: answer, begun: resumed, entered, last },
        );
        match header_at(node) {
            Some(h) => Action::BindRange(h),
            None => Action::Nothing,
        }
    }

    pub(super) fn visit_range_body(
        &mut self,
        node: &'a Node,
        saved: DeferredBranchBacktraceCheckpoint,
        header: Option<LabelBacktrace>,
        begun: bool,
        entered: bool,
        last: bool,
    )
        requires
            old(self).place.wf(),
            old(self)@.spares(true, false),
            !last ==> old(self)@.place.ctx.log.suppression < 255,
        ensures
            final(self).wf(),
            final(self)@ == old(self)@.range_bound(
                *node,
                saved_in(saved),
                trace_of(header),
                begun,
                entered,
                last,
            ),
    {
        proof {
            reveal(WalkModel::range_bound);
        }
        if !last {
            self.hush();
        }
        self.push(Task::EndIteration { node, saved, header, begun, entered, quiet: !last });
        self.push_part(last_part_at(node));
    }

    pub(super) fn end_iteration(
        &mut self,
        node: &'a Node,
        saved: DeferredBranchBacktraceCheckpoint,
        header: Option<LabelBacktrace>,
        begun: bool,
        entered: bool,
        quiet: bool,
    )
        requires
            old(self).place.wf(),
            old(self)@.spares(true, quiet),
        ensures
            final(self).wf(),
            final(self)@ == old(self)@.iteration_left(
                *node,
                saved_in(saved),
                trace_of(header),
                begun,
                entered,
                quiet,
            ),
    {
        proof {
            reveal(WalkModel::iteration_left);
        }
        let through = goes_through(node);
        if quiet && through {
            proof {
                lemma_spared(self@.tasks);
            }
            self.unhush();
        }
        self.place.end_iteration(entered, begun);
        if quiet {
            self.place.repeat_loop(header, &saved);
            self.push(Task::Iterate { node, saved, quiet: !through });
        } else {
            self.push(Task::EndLoop);
        }
    }
}

} // verus!
