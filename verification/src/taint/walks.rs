//! Walks through statements, in the order in which they are visited.

use vstd::prelude::*;

use crate::ast::{Node, NodeKind};
use crate::context::branches::{DeferredBranchBacktraceCheckpoint, DeferredModel};
use crate::labels::backtraces::{trace_of, LabelBacktrace, Trace};
use crate::locations::{Location, Span};
use crate::taint::channels::selects::case_of;
use crate::taint::funcs::call_checks::flows_of;
use crate::taint::goto::{GotoConvergenceState, GotoModel};
use crate::taint::implicit::{Place, PlaceModel};

pub mod choices;
pub mod laws;
pub mod steps;

verus! {

/// The deferred branches at some point of a walk.
#[verifier::ext_equal]
pub struct SavedModel {
    pub deferred: Seq<DeferredModel>,
    pub composite: Option<Trace>,
}

/// Something that is left to do in a walk.
#[derive(Debug)]
pub enum Task<'a> {
    /// To visit a statement, which may stand behind a label.
    Statement { node: &'a Node, label: Option<&'a Span> },
    /// To visit the statements of a list from one position to another, given
    /// whether the next one cannot be reached, and whether that has been
    /// reported.
    Sequence { nodes: &'a Vec<Node>, at: usize, end: usize, blocked: bool, reported: bool },
    /// To leave a scope.
    LeaveScope,
    /// To leave a statement with a label.
    EndLabel(&'a Node),
    /// To have a condition evaluated.
    AskCondition(&'a Node),
    /// To go on behind a condition.
    Condition(&'a Node),
    /// To leave a condition, given whether a branch was entered.
    EndIf(bool),
    /// To enter a loop, behind what is only done once.
    BeginLoop { node: &'a Node, label: Option<&'a Span> },
    /// To begin an iteration. Reporting may have been stopped for it.
    Iterate { node: &'a Node, saved: DeferredBranchBacktraceCheckpoint, quiet: bool },
    /// To enter the body of a loop, given whether a branch was entered at the
    /// start of the iteration.
    Enter {
        node: &'a Node,
        saved: DeferredBranchBacktraceCheckpoint,
        quiet: bool,
        begun: bool,
    },
    /// To visit the body of a loop that goes through something, once its names
    /// are bound.
    RangeBody {
        node: &'a Node,
        saved: DeferredBranchBacktraceCheckpoint,
        header: Option<LabelBacktrace>,
        begun: bool,
        entered: bool,
        last: bool,
    },
    /// To leave the body of a loop.
    EndIteration {
        node: &'a Node,
        saved: DeferredBranchBacktraceCheckpoint,
        header: Option<LabelBacktrace>,
        begun: bool,
        entered: bool,
        quiet: bool,
    },
    /// To leave a loop.
    EndLoop,
    /// To have what is compared in a choice evaluated.
    AskTag(&'a Node),
    /// To go on behind what is compared in a choice.
    Tag(&'a Node),
    /// To visit the clauses of a choice from a position on, given how many
    /// branches were entered.
    Clauses { node: &'a Node, at: usize, entered: usize },
    /// To have the expressions of a clause evaluated from a position on, given
    /// what those before it carry.
    AskClause {
        node: &'a Node,
        at: usize,
        entered: usize,
        next: usize,
        flows: Vec<Option<LabelBacktrace>>,
    },
    /// To go on behind an expression of a clause.
    Compare {
        node: &'a Node,
        at: usize,
        entered: usize,
        next: usize,
        flows: Vec<Option<LabelBacktrace>>,
    },
    /// To have the communications of a select statement prepared from a
    /// position on, given what decides whether those before it can proceed.
    AskReady { node: &'a Node, at: usize, flows: Vec<Option<LabelBacktrace>> },
    /// To go on behind a communication.
    Ready { node: &'a Node, at: usize, flows: Vec<Option<LabelBacktrace>> },
    /// To visit the clauses of a select statement from a position on, given
    /// whether a branch was entered.
    Communications { node: &'a Node, at: usize, entered: bool },
    /// To visit the body of a function.
    Body(&'a Node),
    /// To go on behind a trial visit of the body of a function.
    EndTrial { node: &'a Node, saved: DeferredBranchBacktraceCheckpoint, position: usize },
    /// To leave the body of a function in which there are jumps.
    EndBody,
}

/// What a [`Task`] stands for.
#[verifier::ext_equal]
pub enum TaskModel {
    Statement { node: Node, label: Option<Seq<char>> },
    Sequence { nodes: Seq<Node>, at: int, end: int, blocked: bool, reported: bool },
    LeaveScope,
    EndLabel(Node),
    AskCondition(Node),
    Condition(Node),
    EndIf(bool),
    BeginLoop { node: Node, label: Option<Seq<char>> },
    Iterate { node: Node, saved: SavedModel, quiet: bool },
    Enter { node: Node, saved: SavedModel, quiet: bool, begun: bool },
    RangeBody {
        node: Node,
        saved: SavedModel,
        header: Option<Trace>,
        begun: bool,
        entered: bool,
        last: bool,
    },
    EndIteration {
        node: Node,
        saved: SavedModel,
        header: Option<Trace>,
        begun: bool,
        entered: bool,
        quiet: bool,
    },
    EndLoop,
    AskTag(Node),
    Tag(Node),
    Clauses { node: Node, at: int, entered: nat },
    AskClause { node: Node, at: int, entered: nat, next: int, flows: Seq<Option<Trace>> },
    Compare { node: Node, at: int, entered: nat, next: int, flows: Seq<Option<Trace>> },
    AskReady { node: Node, at: int, flows: Seq<Option<Trace>> },
    Ready { node: Node, at: int, flows: Seq<Option<Trace>> },
    Communications { node: Node, at: int, entered: bool },
    Body(Node),
    EndTrial { node: Node, saved: SavedModel, position: usize },
    EndBody,
}

/// What a checkpoint holds.
pub open spec fn saved_in(c: DeferredBranchBacktraceCheckpoint) -> SavedModel {
    SavedModel { deferred: c.deferred(), composite: c.composite() }
}

/// The text of an optional label.
pub open spec fn label_of(label: Option<&Span>) -> Option<Seq<char>> {
    match label {
        Some(l) => Some(l@.content),
        None => None,
    }
}

impl<'a> View for Task<'a> {
    type V = TaskModel;

    open spec fn view(&self) -> TaskModel {
        match *self {
            Task::Statement { node, label } => TaskModel::Statement {
                node: *node,
                label: label_of(label),
            },
            Task::Sequence { nodes, at, end, blocked, reported } => TaskModel::Sequence {
                nodes: nodes@,
                at: at as int,
                end: end as int,
                blocked,
                reported,
            },
            Task::LeaveScope => TaskModel::LeaveScope,
            Task::EndLabel(node) => TaskModel::EndLabel(*node),
            Task::AskCondition(node) => TaskModel::AskCondition(*node),
            Task::Condition(node) => TaskModel::Condition(*node),
            Task::EndIf(entered) => TaskModel::EndIf(entered),
            Task::BeginLoop { node, label } => TaskModel::BeginLoop {
                node: *node,
                label: label_of(label),
            },
            Task::Iterate { node, saved, quiet } => TaskModel::Iterate {
                node: *node,
                saved: saved_in(saved),
                quiet,
            },
            Task::Enter { node, saved, quiet, begun } => TaskModel::Enter {
                node: *node,
                saved: saved_in(saved),
                quiet,
                begun,
            },
            Task::RangeBody { node, saved, header, begun, entered, last } => TaskModel::RangeBody {
                node: *node,
                saved: saved_in(saved),
                header: trace_of(header),
                begun,
                entered,
                last,
            },
            Task::EndIteration { node, saved, header, begun, entered, quiet } => {
                TaskModel::EndIteration {
                    node: *node,
                    saved: saved_in(saved),
                    header: trace_of(header),
                    begun,
                    entered,
                    quiet,
                }
            },
            Task::EndLoop => TaskModel::EndLoop,
            Task::AskTag(node) => TaskModel::AskTag(*node),
            Task::Tag(node) => TaskModel::Tag(*node),
            Task::Clauses { node, at, entered } => TaskModel::Clauses {
                node: *node,
                at: at as int,
                entered: entered as nat,
            },
            Task::AskClause { node, at, entered, next, flows } => TaskModel::AskClause {
                node: *node,
                at: at as int,
                entered: entered as nat,
                next: next as int,
                flows: flows_of(flows@),
            },
            Task::Compare { node, at, entered, next, flows } => TaskModel::Compare {
                node: *node,
                at: at as int,
                entered: entered as nat,
                next: next as int,
                flows: flows_of(flows@),
            },
            Task::AskReady { node, at, flows } => TaskModel::AskReady {
                node: *node,
                at: at as int,
                flows: flows_of(flows@),
            },
            Task::Ready { node, at, flows } => TaskModel::Ready {
                node: *node,
                at: at as int,
                flows: flows_of(flows@),
            },
            Task::Communications { node, at, entered } => TaskModel::Communications {
                node: *node,
                at: at as int,
                entered,
            },
            Task::Body(node) => TaskModel::Body(*node),
            Task::EndTrial { node, saved, position } => TaskModel::EndTrial {
                node: *node,
                saved: saved_in(saved),
                position,
            },
            Task::EndBody => TaskModel::EndBody,
        }
    }
}

/// What a walk asks for before it can go on.
#[derive(Debug)]
pub enum Action<'a> {
    /// Nothing.
    Nothing,
    /// That an expression is evaluated; the answer is what it carries.
    Evaluate(&'a Node),
    /// That the name of a choice between types is declared; the answer is what
    /// its value carries.
    Bind(&'a Node),
    /// That a statement is carried out which holds no others.
    Perform(&'a Node),
    /// That what a loop goes through is evaluated.
    PrepareRange(&'a Node),
    /// That the values of an iteration are derived; the answer is what decides
    /// how many there are.
    DeriveRange(&'a Node),
    /// That the names of a loop are given the values of an iteration.
    BindRange(&'a Node),
    /// That the operands of a communication are evaluated; the answer is what
    /// decides whether it can proceed.
    Prepare(&'a Node),
    /// That a communication is carried out.
    Communicate(&'a Node),
    /// Nothing, as nothing is left to do.
    Finish,
}

/// What an [`Action`] stands for.
#[verifier::ext_equal]
pub enum ActionModel {
    Nothing,
    Evaluate(Node),
    Bind(Node),
    Perform(Node),
    PrepareRange(Node),
    DeriveRange(Node),
    BindRange(Node),
    Prepare(Node),
    Communicate(Node),
    Finish,
}

impl<'a> View for Action<'a> {
    type V = ActionModel;

    open spec fn view(&self) -> ActionModel {
        match *self {
            Action::Nothing => ActionModel::Nothing,
            Action::Evaluate(node) => ActionModel::Evaluate(*node),
            Action::Bind(node) => ActionModel::Bind(*node),
            Action::Perform(node) => ActionModel::Perform(*node),
            Action::PrepareRange(node) => ActionModel::PrepareRange(*node),
            Action::DeriveRange(node) => ActionModel::DeriveRange(*node),
            Action::BindRange(node) => ActionModel::BindRange(*node),
            Action::Prepare(node) => ActionModel::Prepare(*node),
            Action::Communicate(node) => ActionModel::Communicate(*node),
            Action::Finish => ActionModel::Finish,
        }
    }
}

/// A walk: what is around, what is known of the jumps in the function, and what
/// is left to do, the next task last.
#[derive(Debug)]
pub struct Walk<'a> {
    pub place: Place,
    pub jumps: GotoConvergenceState,
    pub tasks: Vec<Task<'a>>,
}

/// What a [`Walk`] stands for.
#[verifier::ext_equal]
pub struct WalkModel {
    pub place: PlaceModel,
    pub jumps: GotoModel,
    pub tasks: Seq<TaskModel>,
}

/// What a list of tasks stands for.
pub open spec fn tasks_of(s: Seq<Task<'_>>) -> Seq<TaskModel> {
    s.map_values(|t: Task| t@)
}

impl<'a> View for Walk<'a> {
    type V = WalkModel;

    open spec fn view(&self) -> WalkModel {
        WalkModel { place: self.place@, jumps: self.jumps@, tasks: tasks_of(self.tasks@) }
    }
}

/// A part of a node, if it has so many.
pub open spec fn part(node: Node, i: int) -> Option<Node> {
    if 0 <= i < node.children@.len() {
        Some(node.children@[i])
    } else {
        None
    }
}

/// The number of an optional part.
pub open spec fn counted(has: bool) -> int {
    if has {
        1
    } else {
        0
    }
}

/// The last part of a node.
pub open spec fn last_part(node: Node) -> Option<Node> {
    part(node, node.children@.len() - 1)
}

/// The parts of a node that are statements, if it is a list of them.
pub open spec fn statements_in(node: Option<Node>) -> Seq<Node> {
    match node {
        Some(n) => n.children@,
        None => Seq::<Node>::empty(),
    }
}

/// The first name in a node.
pub open spec fn first_name(node: Node) -> Option<Seq<char>> {
    if node.names@.len() > 0 {
        Some(node.names@[0]@.content)
    } else {
        None
    }
}

/// What stands before a condition, a loop or a choice.
pub open spec fn init_of(node: Node) -> Option<Node> {
    match node.kind {
        NodeKind::If { has_init } | NodeKind::For { has_init, .. } | NodeKind::Switch {
            has_init,
            ..
        } => if has_init {
            part(node, 0)
        } else {
            None
        },
        _ => None,
    }
}

/// Where the parts behind what stands before begin.
pub open spec fn after_init(node: Node) -> int {
    match node.kind {
        NodeKind::If { has_init } | NodeKind::For { has_init, .. } | NodeKind::Switch {
            has_init,
            ..
        } => counted(has_init),
        _ => 0,
    }
}

/// What decides whether a loop goes on.
pub open spec fn header_of(node: Node) -> Option<Node> {
    match node.kind {
        NodeKind::For { has_init, has_post, .. } => if counted(has_init) < node.children@.len() - 1
            - counted(has_post) {
            part(node, counted(has_init))
        } else {
            None
        },
        _ => None,
    }
}

/// What is done behind each iteration of a loop.
pub open spec fn post_of(node: Node) -> Option<Node> {
    match node.kind {
        NodeKind::For { has_post, .. } => if has_post {
            part(node, node.children@.len() - 2)
        } else {
            None
        },
        _ => None,
    }
}

/// Where the header of a loop stands.
pub open spec fn header_location(node: Node) -> Location {
    match node.kind {
        NodeKind::For { header, .. } => header,
        _ => node.location,
    }
}

/// Whether a loop goes through something.
pub open spec fn is_range(node: Node) -> bool {
    match header_of(node) {
        Some(h) => h.kind is RangeDecl || h.kind is RangeAssignment,
        None => false,
    }
}

/// What is compared in a choice.
pub open spec fn tag_of(node: Node) -> Option<Node> {
    match part(node, after_init(node)) {
        Some(t) => if t.kind is Clause {
            None
        } else {
            Some(t)
        },
        None => None,
    }
}

/// Where the clauses of a choice begin.
pub open spec fn first_clause(node: Node) -> int {
    after_init(node) + counted(tag_of(node) is Some)
}

/// Where what a clause compares with stands.
pub open spec fn clause_location(clause: Node) -> Location {
    let n = clause.children@.len() - 1;
    if n > 0 {
        Location {
            start: clause.children@[0].location.start,
            end: clause.children@[n - 1].location.end,
        }
    } else {
        Location { start: 0, end: usize::MAX }
    }
}

/// What a clause of a select statement waits for, if it waits for anything.
pub open spec fn awaited(clause: Node) -> Option<Node> {
    if clause.children@.len() > 1 {
        Some(clause.children@[0])
    } else {
        None
    }
}

/// Whether a clause of a select statement is one that can be chosen.
pub open spec fn is_legal(clause: Node) -> bool {
    match awaited(clause) {
        Some(c) => !(case_of(c) is Illegal),
        None => true,
    }
}

fn part_at<'a>(node: &'a Node, i: usize) -> (r: Option<&'a Node>)
    ensures
        part(*node, i as int) == match r {
            Some(p) => Some(*p),
            None => None,
        },
{
    if i < node.children.len() {
        Some(&node.children[i])
    } else {
        None
    }
}

fn last_part_at<'a>(node: &'a Node) -> (r: Option<&'a Node>)
    ensures
        last_part(*node) == match r {
            Some(p) => Some(*p),
            None => None,
        },
{
    let n: usize = node.children.len();
    if n > 0 {
        Some(&node.children[n - 1])
    } else {
        None
    }
}

fn init_at<'a>(node: &'a Node) -> (r: Option<&'a Node>)
    ensures
        init_of(*node) == match r {
            Some(p) => Some(*p),
            None => None,
        },
{
    match node.kind {
        NodeKind::If { has_init } | NodeKind::For { has_init, .. } | NodeKind::Switch {
            has_init,
            ..
        } => if has_init {
            part_at(node, 0)
        } else {
            None
        },
        _ => None,
    }
}

fn init_count(node: &Node) -> (r: usize)
    ensures
        r == after_init(*node),
        r <= 1,
{
    match node.kind {
        NodeKind::If { has_init } | NodeKind::For { has_init, .. } | NodeKind::Switch {
            has_init,
            ..
        } => if has_init {
            1
        } else {
            0
        },
        _ => 0,
    }
}

fn header_at<'a>(node: &'a Node) -> (r: Option<&'a Node>)
    ensures
        header_of(*node) == match r {
            Some(p) => Some(*p),
            None => None,
        },
{
    match node.kind {
        NodeKind::For { has_init, has_post, .. } => {
            let n: usize = node.children.len();
            let before: usize = if has_init {
                1
            } else {
                0
            };
            let behind: usize = if has_post {
                2
            } else {
                1
            };
            if n > behind && before < n - behind {
                part_at(node, before)
            } else {
                None
            }
        },
        _ => None,
    }
}

fn post_at<'a>(node: &'a Node) -> (r: Option<&'a Node>)
    ensures
        post_of(*node) == match r {
            Some(p) => Some(*p),
            None => None,
        },
{
    match node.kind {
        NodeKind::For { has_post, .. } => {
            let n: usize = node.children.len();
            if has_post && n > 1 {
                part_at(node, n - 2)
            } else {
                None
            }
        },
        _ => None,
    }
}

fn location_of_header(node: &Node) -> (r: Location)
    ensures
        r == header_location(*node),
{
    match node.kind {
        NodeKind::For { header, .. } => header,
        _ => node.location,
    }
}

fn goes_through(node: &Node) -> (r: bool)
    ensures
        r == is_range(*node),
{
    match header_at(node) {
        Some(h) => match h.kind {
            NodeKind::RangeDecl | NodeKind::RangeAssignment(_) => true,
            _ => false,
        },
        None => false,
    }
}

fn tag_at<'a>(node: &'a Node) -> (r: Option<&'a Node>)
    ensures
        tag_of(*node) == match r {
            Some(p) => Some(*p),
            None => None,
        },
{
    match part_at(node, init_count(node)) {
        Some(t) => match t.kind {
            NodeKind::Clause => None,
            _ => Some(t),
        },
        None => None,
    }
}

fn location_of_clause(clause: &Node) -> (r: Location)
    ensures
        r == clause_location(*clause),
{
    let n: usize = clause.children.len();
    if n > 1 {
        Location {
            start: clause.children[0].location.start,
            end: clause.children[n - 2].location.end,
        }
    } else {
        Location { start: 0, end: usize::MAX }
    }
}

fn awaited_at<'a>(clause: &'a Node) -> (r: Option<&'a Node>)
    ensures
        awaited(*clause) == match r {
            Some(p) => Some(*p),
            None => None,
        },
{
    if clause.children.len() > 1 {
        Some(&clause.children[0])
    } else {
        None
    }
}

} // verus!
