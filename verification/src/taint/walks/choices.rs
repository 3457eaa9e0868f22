//! Choices and whole functions in walks, and their steps as a whole.

use vstd::prelude::*;

use crate::ast::{Node, NodeKind};
use crate::context::branches::{BranchModel, DeferredBranchBacktraceCheckpoint};
use crate::errors::ErrorModel;
use crate::labels::backtraces::{trace_of, LabelBacktrace, Trace};
use crate::taint::channels::selects::{case_of, extract_select_case, SelectCase};
use crate::taint::funcs::call_checks::flows_of;
use crate::taint::goto::{block_contains_goto, jumps, jumps_alike, left_times,
    GotoConvergenceState, GotoModel};
use crate::taint::implicit::{clause_body_length, clause_branch, enter_clause, leave_condition,
    left_if, under_clause, Place, PlaceModel};
use crate::taint::walks::steps::{all_counted, answered, asking, ask, depth_of, entering_action,
    iteration_action, lemma_pushed, lemma_spared, quiet_of, statement_action, statement_fits};
use crate::taint::walks::{after_init, awaited, awaited_at, clause_location, counted, first_clause,
    goes_through, init_count, is_legal, last_part, last_part_at, location_of_clause, part, part_at,
    saved_in, statements_in, tag_at, tag_of, Action, ActionModel, SavedModel, Task, TaskModel, Walk,
    WalkModel};

verus! {

/// What is asked for when a choice is begun.
pub open spec fn tag_action(node: Node) -> ActionModel {
    match tag_of(node) {
        Some(t) => if t.kind is SwitchBinding {
            ActionModel::Bind(t)
        } else {
            ActionModel::Evaluate(t)
        },
        None => ActionModel::Nothing,
    }
}

/// How many expressions a clause compares with.
pub open spec fn compared(clause: Node) -> int {
    if clause.children@.len() > 0 {
        clause.children@.len() - 1
    } else {
        0
    }
}

/// How many statements of a clause of a choice are visited.
pub open spec fn clause_length(node: Node, body: Seq<Node>) -> int {
    let on_types = match node.kind {
        NodeKind::Switch { on_types, .. } => on_types,
        _ => false,
    };
    if !on_types && body.len() > 0 && body.last().kind is Fallthrough {
        body.len() - 1
    } else {
        body.len() as int
    }
}

/// Whether a clause of a choice is entered next.
pub open spec fn is_compared(node: Node, at: int, next: int) -> bool {
    next >= compared(node.children@[at])
}

impl WalkModel {
    /// The walk with the statements of a clause to visit first, in a scope of
    /// their own.
    pub open spec fn in_clause(self, clause: Node, length: int) -> WalkModel {
        let inside = self.doing(TaskModel::LeaveScope);
        match last_part(clause) {
            Some(body) => inside.visiting_all(body.children@, length),
            None => inside,
        }
    }

    /// The walk once what is compared in a choice is evaluated.
    #[verifier::opaque]
    pub open spec fn tag_met(self, node: Node, answer: Option<Trace>) -> WalkModel {
        let flow = answered(tag_of(node), answer);
        let location = match tag_of(node) {
            Some(t) => t.location,
            None => node.location,
        };
        self.moved(self.place.if_decided(flow, location)).doing(
            TaskModel::Clauses {
                node,
                at: first_clause(node),
                entered: counted(flow is Some) as nat,
            },
        )
    }

    /// The walk once it has gone on with the clauses of a choice.
    #[verifier::opaque]
    pub open spec fn clauses_continued(self, node: Node, at: int, entered: nat) -> WalkModel {
        if at < node.children@.len() {
            self.doing(
                TaskModel::AskClause {
                    node,
                    at,
                    entered,
                    next: 0,
                    flows: Seq::<Option<Trace>>::empty(),
                },
            )
        } else {
            self.moved(self.place.switch_ended(entered))
        }
    }

    /// The walk once it has gone on with the expressions of a clause.
    #[verifier::opaque]
    pub open spec fn clause_continued(
        self,
        node: Node,
        at: int,
        entered: nat,
        next: int,
        flows: Seq<Option<Trace>>,
    ) -> WalkModel {
        let clause = node.children@[at];
        if !is_compared(node, at, next) {
            self.doing(TaskModel::Compare { node, at, entered, next, flows })
        } else {
            let location = self.place.at(clause_location(clause));
            let inside = self.under(
                under_clause(self.place.ctx.branches, flows, location),
            );
            inside.moved(inside.place.in_scope()).doing(
                TaskModel::Clauses {
                    node,
                    at: at + 1,
                    entered: (entered + counted(clause_branch(flows, location) is Some)) as nat,
                },
            ).in_clause(clause, clause_length(node, statements_in(last_part(clause))))
        }
    }

    /// The walk once it has gone on with the communications of a select
    /// statement.
    #[verifier::opaque]
    pub open spec fn readiness_continued(
        self,
        node: Node,
        at: int,
        flows: Seq<Option<Trace>>,
    ) -> WalkModel {
        if at < node.children@.len() {
            let next = TaskModel::AskReady { node, at: at + 1, flows };
            match awaited(node.children@[at]) {
                Some(c) => if case_of(c) is Illegal {
                    self.reporting(
                        ErrorModel::IllegalSelectCase { location: c.location },
                    ).doing(next)
                } else {
                    self.doing(TaskModel::Ready { node, at, flows })
                },
                None => self.doing(next),
            }
        } else {
            let location = self.place.at(node.location);
            let inside = self.moved(self.place.split(node.location));
            inside.under(
                under_clause(inside.place.ctx.branches, flows, location),
            ).doing(
                TaskModel::Communications {
                    node,
                    at: 0,
                    entered: clause_branch(flows, location) is Some,
                },
            )
        }
    }

    /// The walk once it has gone on with the clauses of a select statement.
    #[verifier::opaque]
    pub open spec fn communications_continued(
        self,
        node: Node,
        at: int,
        entered: bool,
    ) -> WalkModel {
        if at < node.children@.len() {
            let clause = node.children@[at];
            let next = TaskModel::Communications { node, at: at + 1, entered };
            if is_legal(clause) {
                self.moved(self.place.in_scope()).doing(next).in_clause(
                    clause,
                    statements_in(last_part(clause)).len() as int,
                )
            } else {
                self.doing(next)
            }
        } else {
            let out = self.under(left_if(self.place.ctx.branches, entered));
            out.moved(out.place.joined())
        }
    }

    /// The walk once all branches that were entered at labels are left.
    pub open spec fn landed(self) -> WalkModel {
        WalkModel {
            jumps: GotoModel { pushes: 0, ..self.jumps },
            ..self.under(left_times(self.place.ctx.branches, self.jumps.pushes))
        }
    }

    /// The walk once the body of a function is begun. The visits of one in which
    /// there are jumps are only trials until nothing changes any more.
    #[verifier::opaque]
    pub open spec fn body_begun(self, node: Node) -> WalkModel {
        let n = node.children@.len() as int;
        if jumps(node) {
            WalkModel {
                jumps: GotoModel {
                    incoming: Map::<Seq<char>, Option<Trace>>::empty(),
                    outgoing: Map::<Seq<char>, Option<Trace>>::empty(),
                    pushes: 0,
                },
                ..self
            }.hushed().doing(
                TaskModel::EndTrial {
                    node,
                    saved: SavedModel {
                        deferred: self.place.ctx.branches.deferred,
                        composite: self.place.ctx.branches.composite,
                    },
                    position: self.place.table.position(),
                },
            ).visiting_all(node.children@, n)
        } else {
            self.visiting_all(node.children@, n)
        }
    }

    /// The walk where a trial visit of the body of a function began.
    pub open spec fn returned(self, saved: SavedModel, position: usize) -> WalkModel {
        let out = self.unhushed().landed();
        WalkModel {
            jumps: GotoModel {
                incoming: out.jumps.outgoing,
                outgoing: Map::<Seq<char>, Option<Trace>>::empty(),
                ..out.jumps
            },
            ..out.under(
                BranchModel {
                    deferred: saved.deferred,
                    composite: saved.composite,
                    ..out.place.ctx.branches
                },
            ).moved_to(position)
        }
    }

    /// The walk where so many scopes in the current one have been entered.
    pub open spec fn moved_to(self, position: usize) -> WalkModel {
        self.moved(
            PlaceModel { table: self.place.table.repositioned(position), ..self.place },
        )
    }

    /// The walk once a trial visit of the body of a function has ended.
    #[verifier::opaque]
    pub open spec fn trial_ended(self, node: Node, saved: SavedModel, position: usize) -> WalkModel {
        let again = self.returned(saved, position);
        if jumps_alike(self.jumps.incoming, self.jumps.outgoing) {
            again.doing(TaskModel::EndBody)
        } else {
            again.hushed().doing(TaskModel::EndTrial { node, saved, position })
        }.visiting_all(node.children@, node.children@.len() as int)
    }

    /// The walk once the body of a function in which there are jumps is left.
    #[verifier::opaque]
    pub open spec fn body_left(self) -> WalkModel {
        WalkModel {
            jumps: GotoModel {
                incoming: Map::<Seq<char>, Option<Trace>>::empty(),
                outgoing: Map::<Seq<char>, Option<Trace>>::empty(),
                pushes: 0,
            },
            ..self.landed()
        }
    }
}

/// What is asked for when a communication comes up.
pub open spec fn readiness_action(node: Node, at: int) -> ActionModel {
    if at < node.children@.len() {
        match awaited(node.children@[at]) {
            Some(c) => if case_of(c) is Illegal {
                ActionModel::Nothing
            } else {
                ActionModel::Prepare(c)
            },
            None => ActionModel::Nothing,
        }
    } else {
        ActionModel::Nothing
    }
}

/// What is asked for when a clause of a select statement is entered.
pub open spec fn communication_action(node: Node, at: int) -> ActionModel {
    if at < node.children@.len() && is_legal(node.children@[at]) {
        match awaited(node.children@[at]) {
            Some(c) => ActionModel::Communicate(c),
            None => ActionModel::Nothing,
        }
    } else {
        ActionModel::Nothing
    }
}

impl<'a> Walk<'a> {
    fn push_clause(&mut self, clause: &'a Node, strips: bool)
        requires
            old(self).wf(),
        ensures
            final(self).wf(),
            final(self)@ == old(self)@.in_clause(
                *clause,
                ({
                    let body = statements_in(last_part(*clause));
                    if strips && body.len() > 0 && body.last().kind is Fallthrough {
                        body.len() - 1
                    } else {
                        body.len() as int
                    }
                }),
            ),
    {
        self.push(Task::LeaveScope);
        if let Some(body) = last_part_at(clause) {
            let n: usize = if strips {
                clause_body_length(&body.children)
            } else {
                body.children.len()
            };
            self.push_all(&body.children, n);
        }
    }

    fn ask_tag(&mut self, node: &'a Node) -> (r: Action<'a>)
        requires
            old(self).place.wf(),
            old(self)@.spares(true, false),
        ensures
            final(self).wf(),
            final(self)@ == old(self)@.doing(TaskModel::Tag(*node)),
            r@ == tag_action(*node),
    {
        self.push(Task::Tag(node));
        match tag_at(node) {
            Some(t) => match t.kind {
                NodeKind::SwitchBinding => Action::Bind(t),
                _ => Action::Evaluate(t),
            },
            None => Action::Nothing,
        }
    }

    /// Goes on behind what is compared in a choice.
    pub fn visit_switch(&mut self, node: &'a Node, answer: Option<LabelBacktrace>)
        requires
            old(self).place.wf(),
            old(self)@.spares(true, false),
        ensures
            final(self).wf(),
            final(self)@ == old(self)@.tag_met(*node, trace_of(answer)),
    {
        proof {
            reveal(WalkModel::tag_met);
        }
        let c: usize = init_count(node);
        let (flow, location, at) = match tag_at(node) {
            Some(t) => (answer, t.location, c + 1),
            None => (None, node.location, c),
        };
        let entered: usize = if self.place.decide_if(flow, location) {
            1
        } else {
            0
        };
        self.push(Task::Clauses { node, at, entered });
    }

    fn visit_clauses(&mut self, node: &'a Node, at: usize, entered: usize)
        requires
            old(self).place.wf(),
            old(self)@.spares(true, false),
            entered <= at,
        ensures
            final(self).wf(),
            final(self)@ == old(self)@.clauses_continued(*node, at as int, entered as nat),
    {
        proof {
            reveal(WalkModel::clauses_continued);
        }
        proof {
            lemma_spared(self@.tasks);
        }
        if at < node.children.len() {
            let flows: Vec<Option<LabelBacktrace>> = Vec::new();
            proof {
                assert(flows_of(flows@) =~= Seq::<Option<Trace>>::empty());
            }
            self.push(Task::AskClause { node, at, entered, next: 0, flows });
        } else {
            let ghost before = self.place@;
            self.place.end_switch(entered);
            proof {
                crate::taint::walks::laws::lemma_left_depth(
                    before.ctx.branches,
                    entered as nat,
                );
            }
        }
    }

    fn visit_clause(
        &mut self,
        node: &'a Node,
        at: usize,
        entered: usize,
        next: usize,
        flows: Vec<Option<LabelBacktrace>>,
    ) -> (r: Action<'a>)
        requires
            old(self).place.wf(),
            old(self)@.spares(true, false),
            entered <= at < node.children@.len(),
            is_compared(*node, at as int, next as int) ==> old(self)@.place.has_room(),
        ensures
            final(self).wf(),
            final(self)@ == old(self)@.clause_continued(
                *node,
                at as int,
                entered as nat,
                next as int,
                flows_of(flows@),
            ),
            r@ == if is_compared(*node, at as int, next as int) {
                ActionModel::Nothing
            } else {
                ActionModel::Evaluate(node.children@[at as int].children@[next as int])
            },
    {
        proof {
            reveal(WalkModel::clause_continued);
        }
        let _count: usize = node.children.len();
        let clause = &node.children[at];
        let n: usize = clause.children.len();
        if n > 0 && next < n - 1 {
            self.push(Task::Compare { node, at, entered, next, flows });
            return Action::Evaluate(&clause.children[next]);
        }
        let ghost before = self@;
        let location = location_of_clause(clause);
        let pinned = self.place.ctx.log.pin(location);
        let more = enter_clause(&mut self.place.ctx.branches, &flows, pinned);
        proof {
            assert(self@ =~= before.under(
                under_clause(
                    before.place.ctx.branches,
                    flows_of(flows@),
                    before.place.at(location),
                ),
            ));
        }
        self.place.enter_scope();
        let total: usize = if more {
            entered + 1
        } else {
            entered
        };
        self.push(Task::Clauses { node, at: at + 1, entered: total });
        let strips = match node.kind {
            NodeKind::Switch { on_types, .. } => !on_types,
            _ => true,
        };
        self.push_clause(clause, strips);
        Action::Nothing
    }

    fn end_compare(
        &mut self,
        node: &'a Node,
        at: usize,
        entered: usize,
        next: usize,
        flows: Vec<Option<LabelBacktrace>>,
        answer: Option<LabelBacktrace>,
    )
        requires
            old(self).place.wf(),
            old(self)@.spares(true, false),
            entered <= at < node.children@.len(),
            next < node.children@[at as int].children@.len(),
        ensures
            final(self).wf(),
            final(self)@ == old(self)@.doing(
                TaskModel::AskClause {
                    node: *node,
                    at: at as int,
                    entered: entered as nat,
                    next: next + 1,
                    flows: flows_of(flows@).push(trace_of(answer)),
                },
            ),
    {
        let ghost known = flows_of(flows@);
        let ghost new = trace_of(answer);
        let mut flows = flows;
        flows.push(answer);
        proof {
            assert(flows_of(flows@) =~= known.push(new));
        }
        let parts = &node.children[at].children;
        assert(next < parts.len());
        self.push(Task::AskClause { node, at, entered, next: next + 1, flows });
    }

    fn ask_ready(
        &mut self,
        node: &'a Node,
        at: usize,
        flows: Vec<Option<LabelBacktrace>>,
    ) -> (r: Action<'a>)
        requires
            old(self).wf(),
        ensures
            final(self).wf(),
            final(self)@ == old(self)@.readiness_continued(
                *node,
                at as int,
                flows_of(flows@),
            ),
            r@ == readiness_action(*node, at as int),
    {
        proof {
            reveal(WalkModel::readiness_continued);
        }
        if at < node.children.len() {
            if let Some(c) = awaited_at(&node.children[at]) {
                let ghost before = self@;
                match extract_select_case(&mut self.place.ctx.log, c) {
                    SelectCase::Illegal => {
                        proof {
                            assert(self@ =~= before.reporting(
                                ErrorModel::IllegalSelectCase { location: c.location },
                            ));
                        }
                        self.push(Task::AskReady { node, at: at + 1, flows });
                        return Action::Nothing;
                    },
                    _ => {
                        proof {
                            assert(self@ =~= before);
                        }
                        self.push(Task::Ready { node, at, flows });
                        return Action::Prepare(c);
                    },
                }
            }
            self.push(Task::AskReady { node, at: at + 1, flows });
            return Action::Nothing;
        }
        let ghost before = self@;
        let region = self.place.ctx.log.pin(node.location);
        let pinned = self.place.ctx.log.pin(node.location);
        self.place.regions.push_split_control_flow(region);
        let entered = enter_clause(&mut self.place.ctx.branches, &flows, pinned);
        proof {
            let inside = before.moved(before.place.split(node.location));
            assert(self@ =~= inside.under(
                under_clause(
                    inside.place.ctx.branches,
                    flows_of(flows@),
                    before.place.at(node.location),
                ),
            ));
        }
        self.push(Task::Communications { node, at: 0, entered });
        Action::Nothing
    }

    fn end_ready(
        &mut self,
        node: &'a Node,
        at: usize,
        flows: Vec<Option<LabelBacktrace>>,
        answer: Option<LabelBacktrace>,
    )
        requires
            old(self).wf(),
            at < node.children@.len(),
        ensures
            final(self).wf(),
            final(self)@ == old(self)@.doing(
                TaskModel::AskReady {
                    node: *node,
                    at: at + 1,
                    flows: flows_of(flows@).push(trace_of(answer)),
                },
            ),
    {
        let ghost known = flows_of(flows@);
        let ghost new = trace_of(answer);
        let mut flows = flows;
        flows.push(answer);
        proof {
            assert(flows_of(flows@) =~= known.push(new));
        }
        assert(at < node.children.len());
        self.push(Task::AskReady { node, at: at + 1, flows });
    }

    /// Goes on with the clauses of a select statement.
    pub fn visit_select(&mut self, node: &'a Node, at: usize, entered: bool) -> (r: Action<'a>)
        requires
            old(self).wf(),
            at < node.children@.len() && is_legal(node.children@[at as int]) ==> old(
                self,
            )@.place.has_room(),
        ensures
            final(self).wf(),
            final(self)@ == old(self)@.communications_continued(*node, at as int, entered),
            r@ == communication_action(*node, at as int),
    {
        proof {
            reveal(WalkModel::communications_continued);
        }
        if at < node.children.len() {
            let clause = &node.children[at];
            let wanted = awaited_at(clause);
            let legal = match wanted {
                Some(c) => is_awaitable(c),
                None => true,
            };
            if !legal {
                self.push(Task::Communications { node, at: at + 1, entered });
                return Action::Nothing;
            }
            self.place.enter_scope();
            self.push(Task::Communications { node, at: at + 1, entered });
            self.push_clause(clause, false);
            return match wanted {
                Some(c) => Action::Communicate(c),
                None => Action::Nothing,
            };
        }
        let ghost before = self@;
        leave_condition(&mut self.place.ctx.branches, entered);
        self.place.regions.pop_split_control_flow();
        proof {
            let out = before.under(left_if(before.place.ctx.branches, entered));
            assert(self@ =~= out.moved(out.place.joined()));
        }
        Action::Nothing
    }

    /// Begins the body of a function.
    pub fn visit_function_body(&mut self, node: &'a Node)
        requires
            old(self).wf(),
            jumps(*node) ==> old(self)@.place.ctx.log.suppression < 255,
        ensures
            final(self).wf(),
            final(self)@ == old(self)@.body_begun(*node),
    {
        proof {
            reveal(WalkModel::body_begun);
        }
        if block_contains_goto(node) {
            let saved = self.place.ctx.branches.checkpoint_deferred_state();
            let position: usize = self.place.table.current_child_scope_cursor();
            self.jumps = GotoConvergenceState::new();
            self.hush();
            self.push(Task::EndTrial { node, saved, position });
        }
        self.push_all(&node.children, node.children.len());
    }

    fn land(&mut self)
        requires
            old(self).place.wf(),
        ensures
            final(self).place.wf(),
            final(self)@ == old(self)@.landed(),
            final(self)@.place.ctx.branches.depth == old(self)@.place.ctx.branches.depth,
    {
        let ghost before = self@;
        self.jumps.pop_goto_branch_backtraces(&mut self.place.ctx.branches);
        proof {
            assert(self@ =~= before.landed());
            crate::taint::walks::laws::lemma_left_depth(
                before.place.ctx.branches,
                before.jumps.pushes,
            );
        }
    }

    fn end_trial(
        &mut self,
        node: &'a Node,
        saved: DeferredBranchBacktraceCheckpoint,
        position: usize,
    )
        requires
            old(self).place.wf(),
            old(self)@.spares(false, true),
        ensures
            final(self).wf(),
            final(self)@ == old(self)@.trial_ended(*node, saved_in(saved), position),
    {
        proof {
            reveal(WalkModel::trial_ended);
        }
        let ghost before = self@;
        proof {
            lemma_spared(before.tasks);
        }
        let _level: u8 = self.place.ctx.log.error_suppression_depth();
        self.unhush();
        self.land();
        let stable = self.jumps.advance();
        self.place.table.set_child_scope_cursor(position);
        self.place.ctx.branches.restore_deferred_state(&saved);
        proof {
            assert(self@ =~= before.returned(saved_in(saved), position));
        }
        if stable {
            self.push(Task::EndBody);
        } else {
            self.hush();
            self.push(Task::EndTrial { node, saved, position });
        }
        self.push_all(&node.children, node.children.len());
    }

    fn end_body(&mut self)
        requires
            old(self).wf(),
        ensures
            final(self).wf(),
            final(self)@ == old(self)@.body_left(),
    {
        proof {
            reveal(WalkModel::body_left);
        }
        self.land();
        self.jumps = GotoConvergenceState::new();
    }
}

/// A walk once a task is done that has been taken off the others.
pub open spec fn performed(rest: WalkModel, task: TaskModel, answer: Option<Trace>) -> WalkModel {
    match task {
        TaskModel::Statement { node, label } => rest.statement_begun(node, label),
        TaskModel::Sequence { nodes, at, end, blocked, reported } => rest.sequence_continued(
            nodes,
            at,
            end,
            blocked,
            reported,
        ),
        TaskModel::LeaveScope => rest.moved(rest.place.out_of_scope()),
        TaskModel::EndLabel(node) => rest.label_ended(node),
        TaskModel::AskCondition(node) => rest.doing(TaskModel::Condition(node)),
        TaskModel::Condition(node) => rest.condition_met(node, answer),
        TaskModel::EndIf(entered) => rest.moved(rest.place.if_ended(entered)),
        TaskModel::BeginLoop { node, label } => rest.loop_begun(node, label),
        TaskModel::Iterate { node, saved, quiet } => rest.iterating(node, saved, quiet),
        TaskModel::Enter { node, saved, quiet, begun } => rest.loop_entered(
            node,
            saved,
            quiet,
            begun,
            answer,
        ),
        TaskModel::RangeBody { node, saved, header, begun, entered, last } => rest.range_bound(
            node,
            saved,
            header,
            begun,
            entered,
            last,
        ),
        TaskModel::EndIteration { node, saved, header, begun, entered, quiet } => {
            rest.iteration_left(node, saved, header, begun, entered, quiet)
        },
        TaskModel::EndLoop => rest.moved(rest.place.for_ended()),
        TaskModel::AskTag(node) => rest.doing(TaskModel::Tag(node)),
        TaskModel::Tag(node) => rest.tag_met(node, answer),
        TaskModel::Clauses { node, at, entered } => rest.clauses_continued(node, at, entered),
        TaskModel::AskClause { node, at, entered, next, flows } => rest.clause_continued(
            node,
            at,
            entered,
            next,
            flows,
        ),
        TaskModel::Compare { node, at, entered, next, flows } => rest.doing(
            TaskModel::AskClause {
                node,
                at,
                entered,
                next: next + 1,
                flows: flows.push(answer),
            },
        ),
        TaskModel::AskReady { node, at, flows } => rest.readiness_continued(node, at, flows),
        TaskModel::Ready { node, at, flows } => rest.doing(
            TaskModel::AskReady { node, at: at + 1, flows: flows.push(answer) },
        ),
        TaskModel::Communications { node, at, entered } => rest.communications_continued(
            node,
            at,
            entered,
        ),
        TaskModel::Body(node) => rest.body_begun(node),
        TaskModel::EndTrial { node, saved, position } => rest.trial_ended(
            node,
            saved,
            position,
        ),
        TaskModel::EndBody => rest.body_left(),
    }
}

/// What a walk does next.
pub open spec fn stepped(w: WalkModel, answer: Option<Trace>) -> WalkModel {
    if w.tasks.len() == 0 {
        w
    } else {
        performed(
            WalkModel { tasks: w.tasks.drop_last(), ..w },
            w.tasks.last(),
            answer,
        )
    }
}

impl TaskModel {
    /// Whether the task is one of a loop.
    pub open spec fn is_of_loop(self) -> bool {
        self is BeginLoop || self is Iterate || self is Enter || self is RangeBody
            || self is EndIteration || self is EndLoop
    }

    /// Whether the task is one of a choice.
    pub open spec fn is_of_choice(self) -> bool {
        self is AskTag || self is Tag || self is Clauses || self is AskClause || self is Compare
            || self is AskReady || self is Ready || self is Communications
    }
}

/// What is asked for when a task is done.
pub open spec fn task_action(task: TaskModel) -> ActionModel {
    match task {
        TaskModel::Statement { node, .. } => statement_action(node),
        TaskModel::AskCondition(node) => asking(part(node, after_init(node))),
        TaskModel::Iterate { node, .. } => iteration_action(node),
        TaskModel::Enter { node, .. } => entering_action(node),
        TaskModel::AskTag(node) => tag_action(node),
        TaskModel::AskClause { node, at, next, .. } => if is_compared(node, at, next) {
            ActionModel::Nothing
        } else {
            ActionModel::Evaluate(node.children@[at].children@[next])
        },
        TaskModel::AskReady { node, at, .. } => readiness_action(node, at),
        TaskModel::Communications { node, at, .. } => communication_action(node, at),
        _ => ActionModel::Nothing,
    }
}

/// What a walk asks for next.
pub open spec fn step_action(w: WalkModel) -> ActionModel {
    if w.tasks.len() == 0 {
        ActionModel::Finish
    } else {
        task_action(w.tasks.last())
    }
}

/// Whether there is room for what a task enters.
pub open spec fn task_fits(w: WalkModel, task: TaskModel) -> bool {
    match task {
        TaskModel::Statement { node, .. } => statement_fits(w, node),
        TaskModel::BeginLoop { .. } => w.place.ctx.branches.depth < 255
            && w.place.ctx.log.suppression < 255,
        TaskModel::RangeBody { last, .. } => last || w.place.ctx.log.suppression < 255,
        TaskModel::AskClause { node, at, next, .. } => is_compared(node, at, next)
            ==> w.place.has_room(),
        TaskModel::Communications { node, at, .. } => at < node.children@.len() && is_legal(
            node.children@[at],
        ) ==> w.place.has_room(),
        TaskModel::Body(node) => jumps(node) ==> w.place.ctx.log.suppression < 255,
        _ => true,
    }
}

/// Whether there is room for what a walk enters next.
pub open spec fn step_fits(w: WalkModel) -> bool {
    w.tasks.len() > 0 ==> task_fits(w, w.tasks.last())
}

impl<'a> Walk<'a> {
    /// A walk through a statement.
    pub fn through(place: Place, node: &'a Node) -> (r: Self)
        requires
            place.wf(),
        ensures
            r.wf(),
            r@ == walk_of(place@, TaskModel::Statement { node: *node, label: None }),
    {
        let mut r = Walk { place, jumps: GotoConvergenceState::new(), tasks: Vec::new() };
        proof {
            assert(r@.tasks =~= Seq::<TaskModel>::empty());
            reveal(depth_of);
            reveal(quiet_of);
            reveal(all_counted);
        }
        r.push(Task::Statement { node, label: None });
        proof {
            assert(r@ =~= walk_of(place@, TaskModel::Statement { node: *node, label: None }));
        }
        r
    }

    /// A walk through the body of a function.
    pub fn through_body(place: Place, node: &'a Node) -> (r: Self)
        requires
            place.wf(),
        ensures
            r.wf(),
            r@ == walk_of(place@, TaskModel::Body(*node)),
    {
        let mut r = Walk { place, jumps: GotoConvergenceState::new(), tasks: Vec::new() };
        proof {
            assert(r@.tasks =~= Seq::<TaskModel>::empty());
            reveal(depth_of);
            reveal(quiet_of);
            reveal(all_counted);
        }
        r.push(Task::Body(node));
        proof {
            assert(r@ =~= walk_of(place@, TaskModel::Body(*node)));
        }
        r
    }

    fn close_scope(&mut self)
        requires
            old(self).wf(),
        ensures
            final(self).wf(),
            final(self)@ == old(self)@.moved(old(self)@.place.out_of_scope()),
    {
        self.place.leave_scope();
    }

    fn close_if(&mut self, entered: bool)
        requires
            old(self).wf(),
        ensures
            final(self).wf(),
            final(self)@ == old(self)@.moved(old(self)@.place.if_ended(entered)),
    {
        self.place.end_if(entered);
    }

    fn close_loop(&mut self)
        requires
            old(self).place.wf(),
            old(self)@.spares(true, false),
        ensures
            final(self).wf(),
            final(self)@ == old(self)@.moved(old(self)@.place.for_ended()),
    {
        proof {
            lemma_spared(self@.tasks);
        }
        self.place.end_for();
    }

    fn ask_condition(&mut self, node: &'a Node) -> (r: Action<'a>)
        requires
            old(self).wf(),
        ensures
            final(self).wf(),
            final(self)@ == old(self)@.doing(TaskModel::Condition(*node)),
            r@ == asking(part(*node, after_init(*node))),
    {
        self.push(Task::Condition(node));
        ask(part_at(node, init_count(node)))
    }

    fn enter_loop(
        &mut self,
        node: &'a Node,
        saved: DeferredBranchBacktraceCheckpoint,
        quiet: bool,
        begun: bool,
        answer: Option<LabelBacktrace>,
    ) -> (r: Action<'a>)
        requires
            old(self).place.wf(),
            old(self)@.spares(true, quiet),
        ensures
            final(self).wf(),
            final(self)@ == old(self)@.loop_entered(
                *node,
                saved_in(saved),
                quiet,
                begun,
                trace_of(answer),
            ),
            r@ == entering_action(*node),
    {
        if goes_through(node) {
            self.visit_for_range(node, saved, quiet, begun, answer)
        } else {
            self.visit_for_clause(node, saved, quiet, begun, answer);
            Action::Nothing
        }
    }

    fn perform_loop(&mut self, task: Task<'a>, answer: Option<LabelBacktrace>) -> (r: Action<'a>)
        requires
            old(self).place.wf(),
            old(self)@.spares(task@.is_deep(), task@.is_quiet()),
            task@.is_counted(),
            task_fits(old(self)@, task@),
            task@.is_of_loop(),
        ensures
            final(self).wf(),
            final(self)@ == performed(old(self)@, task@, trace_of(answer)),
            r@ == task_action(task@),
    {
        match task {
            Task::BeginLoop { node, label } => {
                self.visit_for(node, label);
                Action::Nothing
            },
            Task::Iterate { node, saved, quiet } => self.iterate(node, saved, quiet),
            Task::Enter { node, saved, quiet, begun } => self.enter_loop(
                node,
                saved,
                quiet,
                begun,
                answer,
            ),
            Task::RangeBody { node, saved, header, begun, entered, last } => {
                self.visit_range_body(node, saved, header, begun, entered, last);
                Action::Nothing
            },
            Task::EndIteration { node, saved, header, begun, entered, quiet } => {
                self.end_iteration(node, saved, header, begun, entered, quiet);
                Action::Nothing
            },
            Task::EndLoop => {
                self.close_loop();
                Action::Nothing
            },
            _ => Action::Nothing,
        }
    }

    fn perform_choice(&mut self, task: Task<'a>, answer: Option<LabelBacktrace>) -> (r: Action<'a>)
        requires
            old(self).place.wf(),
            old(self)@.spares(task@.is_deep(), task@.is_quiet()),
            task@.is_counted(),
            task_fits(old(self)@, task@),
            task@.is_of_choice(),
        ensures
            final(self).wf(),
            final(self)@ == performed(old(self)@, task@, trace_of(answer)),
            r@ == task_action(task@),
    {
        match task {
            Task::AskTag(node) => self.ask_tag(node),
            Task::Tag(node) => {
                self.visit_switch(node, answer);
                Action::Nothing
            },
            Task::Clauses { node, at, entered } => {
                self.visit_clauses(node, at, entered);
                Action::Nothing
            },
            Task::AskClause { node, at, entered, next, flows } => self.visit_clause(
                node,
                at,
                entered,
                next,
                flows,
            ),
            Task::Compare { node, at, entered, next, flows } => {
                self.end_compare(node, at, entered, next, flows, answer);
                Action::Nothing
            },
            Task::AskReady { node, at, flows } => self.ask_ready(node, at, flows),
            Task::Ready { node, at, flows } => {
                self.end_ready(node, at, flows, answer);
                Action::Nothing
            },
            Task::Communications { node, at, entered } => self.visit_select(node, at, entered),
            _ => Action::Nothing,
        }
    }

    fn perform_other(&mut self, task: Task<'a>, answer: Option<LabelBacktrace>) -> (r: Action<'a>)
        requires
            old(self).place.wf(),
            old(self)@.spares(task@.is_deep(), task@.is_quiet()),
            task@.is_counted(),
            task_fits(old(self)@, task@),
            !task@.is_of_loop() && !task@.is_of_choice(),
        ensures
            final(self).wf(),
            final(self)@ == performed(old(self)@, task@, trace_of(answer)),
            r@ == task_action(task@),
    {
        match task {
            Task::Statement { node, label } => self.visit_statement(node, label),
            Task::Sequence { nodes, at, end, blocked, reported } => {
                self.visit_statements(nodes, at, end, blocked, reported);
                Action::Nothing
            },
            Task::LeaveScope => {
                self.close_scope();
                Action::Nothing
            },
            Task::EndLabel(node) => {
                self.end_label(node);
                Action::Nothing
            },
            Task::AskCondition(node) => self.ask_condition(node),
            Task::Condition(node) => {
                self.visit_if(node, answer);
                Action::Nothing
            },
            Task::EndIf(entered) => {
                self.close_if(entered);
                Action::Nothing
            },
            Task::Body(node) => {
                self.visit_function_body(node);
                Action::Nothing
            },
            Task::EndTrial { node, saved, position } => {
                self.end_trial(node, saved, position);
                Action::Nothing
            },
            Task::EndBody => {
                self.end_body();
                Action::Nothing
            },
            _ => Action::Nothing,
        }
    }

    /// Does what comes next, given the answer to what was asked for last, and
    /// returns what is asked for.
    pub fn step(&mut self, answer: Option<LabelBacktrace>) -> (r: Action<'a>)
        requires
            old(self).wf(),
            step_fits(old(self)@),
        ensures
            final(self).wf(),
            final(self)@ == stepped(old(self)@, trace_of(answer)),
            r@ == step_action(old(self)@),
    {
        let ghost before = self@;
        let task = match self.tasks.pop() {
            Some(t) => t,
            None => {
                proof {
                    assert(self@.tasks =~= before.tasks);
                }
                return Action::Finish;
            },
        };
        let ghost rest = WalkModel { tasks: before.tasks.drop_last(), ..before };
        proof {
            assert(self@ =~= rest);
            assert(before.tasks.last() == task@);
            assert(rest.tasks.push(task@) =~= before.tasks);
            lemma_pushed(rest.tasks, task@);
        }
        match &task {
            Task::BeginLoop { .. }
            | Task::Iterate { .. }
            | Task::Enter { .. }
            | Task::RangeBody { .. }
            | Task::EndIteration { .. }
            | Task::EndLoop => self.perform_loop(task, answer),
            Task::AskTag(_)
            | Task::Tag(_)
            | Task::Clauses { .. }
            | Task::AskClause { .. }
            | Task::Compare { .. }
            | Task::AskReady { .. }
            | Task::Ready { .. }
            | Task::Communications { .. } => self.perform_choice(task, answer),
            _ => self.perform_other(task, answer),
        }
    }
}

/// The walk after up to so many steps, of which all but the first have no answer,
/// until something is asked for.
pub open spec fn walked(w: WalkModel, answer: Option<Trace>, limit: nat) -> (WalkModel, ActionModel)
    decreases limit,
{
    if limit == 0 || !step_fits(w) {
        (w, ActionModel::Nothing)
    } else {
        let action = step_action(w);
        let next = stepped(w, answer);
        if action is Nothing {
            walked(next, None, (limit - 1) as nat)
        } else {
            (next, action)
        }
    }
}

/// A walk that has not begun.
pub open spec fn walk_of(place: PlaceModel, task: TaskModel) -> WalkModel {
    WalkModel {
        place,
        jumps: GotoModel {
            incoming: Map::<Seq<char>, Option<Trace>>::empty(),
            outgoing: Map::<Seq<char>, Option<Trace>>::empty(),
            pushes: 0,
        },
        tasks: seq![task],
    }
}

impl<'a> Walk<'a> {
    /// Whether there is room for what comes next.
    pub fn can_step(&self) -> (r: bool)
        requires
            self.wf(),
        ensures
            r == step_fits(self@),
    {
        let n: usize = self.tasks.len();
        if n == 0 {
            return true;
        }
        let room = self.place.table.has_room();
        let shallow = self.place.ctx.branches.branch_scope_depth() < 255;
        let loud = self.place.ctx.log.error_suppression_depth() < 255;
        let ghost tasks = self@.tasks;
        proof {
            assert(tasks.last() == self.tasks@[n - 1]@);
            assert(tasks.drop_last().push(tasks.last()) =~= tasks);
            lemma_pushed(tasks.drop_last(), tasks.last());
        }
        match &self.tasks[n - 1] {
            Task::Statement { node, .. } => match node.kind {
                NodeKind::Block | NodeKind::If { .. } | NodeKind::For { .. } => room,
                NodeKind::Switch { .. } => room && shallow,
                NodeKind::Labeled => self.jumps.push_count() < usize::MAX,
                _ => true,
            },
            Task::BeginLoop { .. } => shallow && loud,
            Task::RangeBody { last, .. } => *last || loud,
            Task::AskClause { node, at, next, .. } => {
                let m: usize = node.children[*at].children.len();
                room || (m > 0 && *next < m - 1)
            },
            Task::Communications { node, at, .. } => {
                if *at < node.children.len() {
                    room || match awaited_at(&node.children[*at]) {
                        Some(c) => !is_awaitable(c),
                        None => false,
                    }
                } else {
                    true
                }
            },
            Task::Body(node) => loud || !block_contains_goto(node),
            _ => true,
        }
    }

    /// Goes on until something is asked for, for which there is no room, or for
    /// so many steps.
    pub fn advance(&mut self, answer: Option<LabelBacktrace>, limit: usize) -> (r: Action<'a>)
        requires
            old(self).wf(),
        ensures
            final(self).wf(),
            (final(self)@, r@) == walked(old(self)@, trace_of(answer), limit as nat),
    {
        let ghost start = self@;
        let ghost first = trace_of(answer);
        let mut given = answer;
        let mut left: usize = limit;
        while left > 0
            invariant
                self.wf(),
                left <= limit,
                start == old(self)@,
                first == trace_of(answer),
                walked(start, first, limit as nat) == walked(self@, trace_of(given), left as nat),
            decreases left,
        {
            if !self.can_step() {
                return Action::Nothing;
            }
            let action = self.step(given);
            let quiet = match &action {
                Action::Nothing => true,
                _ => false,
            };
            if !quiet {
                return action;
            }
            given = None;
            left = left - 1;
        }
        Action::Nothing
    }
}

fn is_awaitable(node: &Node) -> (r: bool)
    ensures
        r == !(case_of(*node) is Illegal),
{
    let mut log = crate::context::reports::ErrorLog::new();
    match extract_select_case(&mut log, node) {
        SelectCase::Illegal => false,
        _ => true,
    }
}

} // verus!
