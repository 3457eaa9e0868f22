//! Sequences of statements.

use vstd::prelude::*;

use crate::ast::{Annotation, Node, NodeKind};
use crate::context::reports::{ErrorLog, LogModel};
use crate::context::{AnalysisContext, ContextModel};
use crate::errors::{AnalysisErrorKind, ErrorModel};
use crate::labels::backtraces::{LabelBacktrace, Trace};
use crate::locations::Location;
use crate::ordered::OrderedSet;
use crate::policy::SinkKind;
use crate::taint::annotations::{supported_directive, AnnotationDirective, AnnotationSite};
use crate::taint::explicit::{annotated, apply_value_annotation};
use crate::taint::funcs::call_checks::{can_judge, flows_of};

verus! {

/// Whether nothing directly behind a statement can be reached: it jumps
/// elsewhere, or is a block whose last statement does.
pub open spec fn ends_control(node: Node) -> bool
    decreases node,
{
    if node.kind is Block {
        node.children@.len() > 0 && ends_control(node.children@[node.children@.len() - 1])
    } else {
        node.kind is Continue || node.kind is Break || node.kind is Return || node.kind is Goto
    }
}

/// Whether nothing directly behind a statement can be reached.
pub fn disallows_subsequent_statements(node: &Node) -> (r: bool)
    ensures
        r == ends_control(*node),
    decreases node,
{
    match node.kind {
        NodeKind::Continue | NodeKind::Break | NodeKind::Return | NodeKind::Goto => true,
        NodeKind::Block => {
            let n: usize = node.children.len();
            n > 0 && disallows_subsequent_statements(&node.children[n - 1])
        },
        _ => false,
    }
}

/// What is done with a statement.
#[derive(Clone, Copy, Debug, PartialEq, Eq, Structural)]
pub enum StatementPlan {
    /// It is visited.
    Visit,
    /// It is reported, as it cannot be reached.
    Unreachable,
}

/// How statements are gone through.
#[verifier::ext_equal]
pub struct Reach {
    /// What is done with each.
    pub plans: Seq<StatementPlan>,
    /// Whether the next one cannot be reached.
    pub blocked: bool,
    /// Whether that has been reported.
    pub reported: bool,
}

/// What is done with a statement, and what is then known.
#[derive(Clone, Copy, Debug, PartialEq, Eq, Structural)]
pub struct Consideration {
    /// What is done with it.
    pub plan: StatementPlan,
    /// Whether the next one cannot be reached.
    pub blocked: bool,
    /// Whether that has been reported.
    pub reported: bool,
}

/// What is done with a statement, given whether it cannot be reached from the
/// one before it, whether that has been reported, and whether something jumps
/// to it.
pub open spec fn considered(
    blocked: bool,
    reported: bool,
    node: Node,
    targeted: bool,
) -> Consideration {
    if blocked && !reported && !targeted {
        Consideration { plan: StatementPlan::Unreachable, blocked: true, reported: true }
    } else {
        Consideration {
            plan: StatementPlan::Visit,
            blocked: blocked && !targeted || ends_control(node),
            reported: reported && !targeted,
        }
    }
}

/// Decides what is done with a statement.
pub fn consider(blocked: bool, reported: bool, node: &Node, targeted: bool) -> (r: Consideration)
    ensures
        r == considered(blocked, reported, *node, targeted),
{
    if blocked && !reported && !targeted {
        Consideration { plan: StatementPlan::Unreachable, blocked: true, reported: true }
    } else {
        let ends = disallows_subsequent_statements(node);
        Consideration {
            plan: StatementPlan::Visit,
            blocked: blocked && !targeted || ends,
            reported: reported && !targeted,
        }
    }
}

/// Whether a statement stands behind a label to which something jumps.
pub open spec fn is_target(node: Node, targets: Set<Seq<char>>) -> bool {
    node.kind is Labeled && node.names@.len() > 0 && targets.contains(node.names@[0]@.content)
}

/// How the first of some statements are gone through. What stands behind a
/// label to which something jumps can always be reached. Only the first of
/// several statements that cannot is reported, and left out.
pub open spec fn reached(nodes: Seq<Node>, targets: Set<Seq<char>>, n: int) -> Reach
    decreases n,
{
    if n <= 0 {
        Reach { plans: Seq::<StatementPlan>::empty(), blocked: false, reported: false }
    } else {
        let last = reached(nodes, targets, n - 1);
        let node = nodes[n - 1];
        let next = considered(last.blocked, last.reported, node, is_target(node, targets));
        Reach { plans: last.plans.push(next.plan), blocked: next.blocked, reported: next.reported }
    }
}

/// Decides what is done with each of some statements. `targets` holds the
/// labels to which something jumps.
pub fn plan_statements(nodes: &Vec<Node>, targets: &OrderedSet<String>) -> (r: Vec<StatementPlan>)
    ensures
        r@ == reached(nodes@, targets@, nodes@.len() as int).plans,
{
    let mut plans: Vec<StatementPlan> = Vec::new();
    let mut blocked = false;
    let mut reported = false;
    let n: usize = nodes.len();
    let mut i: usize = 0;
    while i < n
        invariant
            i <= n,
            n == nodes@.len(),
            (Reach { plans: plans@, blocked, reported }) == reached(nodes@, targets@, i as int),
        decreases n - i,
    {
        let node = &nodes[i];
        let labeled = match node.kind {
            NodeKind::Labeled => true,
            _ => false,
        };
        let targeted = labeled && node.names.len() > 0 && targets.contains(
            &node.names[0].content().to_owned(),
        );
        let next = consider(blocked, reported, node, targeted);
        plans.push(next.plan);
        blocked = next.blocked;
        reported = next.reported;
        i = i + 1;
    }
    plans
}

/// The log once those of the first statements that cannot be reached are
/// reported.
pub open spec fn unreachable_reported(
    log: LogModel,
    nodes: Seq<Node>,
    plans: Seq<StatementPlan>,
    n: int,
) -> LogModel
    decreases n,
{
    if n <= 0 {
        log
    } else {
        let before = unreachable_reported(log, nodes, plans, n - 1);
        if plans[n - 1] is Unreachable {
            before.with_error(ErrorModel::Unreachable { location: nodes[n - 1].location })
        } else {
            before
        }
    }
}

/// Reports the statements that cannot be reached.
pub fn report_unreachable(log: &mut ErrorLog, nodes: &Vec<Node>, plans: &Vec<StatementPlan>)
    requires
        nodes@.len() == plans@.len(),
    ensures
        final(log)@ == unreachable_reported(old(log)@, nodes@, plans@, nodes@.len() as int),
{
    let ghost start = log@;
    let n: usize = nodes.len();
    let mut i: usize = 0;
    while i < n
        invariant
            i <= n,
            n == nodes@.len(),
            n == plans@.len(),
            log@ == unreachable_reported(start, nodes@, plans@, i as int),
        decreases n - i,
    {
        if let StatementPlan::Unreachable = plans[i] {
            log.report_error(AnalysisErrorKind::Unreachable { location: nodes[i].location });
        }
        i = i + 1;
    }
}

/// Whether an annotation asserts something of an expression.
pub open spec fn is_assertion(annotation: Option<&Annotation>) -> bool {
    match annotation {
        Some(a) => supported_directive(AnnotationSite::Expr, a.directive@) == Some(
            AnnotationDirective::Assert,
        ),
        None => false,
    }
}

/// The state once an expression that stands alone is evaluated. An assertion of
/// one that has no value is reported.
pub open spec fn evaluation_checked(
    ctx: ContextModel,
    flows: Seq<Option<Trace>>,
    annotation: Option<&Annotation>,
    location: Location,
) -> ContextModel {
    let checked = annotated(
        ctx,
        annotation,
        AnnotationSite::Expr,
        SinkKind::Call,
        flows,
        location,
    );
    if is_assertion(annotation) && flows.len() == 0 {
        ContextModel {
            log: checked.log.with_error(ErrorModel::UnexpectedVoidExpression { location }),
            ..checked
        }
    } else {
        checked
    }
}

/// Visits an expression that stands alone, given what its values carry, which may
/// have an annotation.
pub fn visit_evaluation(
    ctx: &mut AnalysisContext,
    flows: &Vec<Option<LabelBacktrace>>,
    annotation: Option<&Annotation>,
    location: Location,
)
    requires
        old(ctx).wf(),
        old(ctx)@.log.file is Some,
        can_judge(old(ctx)@, flows_of(flows@)),
    ensures
        final(ctx)@.log.file is Some,
        final(ctx).wf(),
        final(ctx)@ == evaluation_checked(old(ctx)@, flows_of(flows@), annotation, location),
{
    let _effect = apply_value_annotation(
        ctx,
        annotation,
        AnnotationSite::Expr,
        SinkKind::Call,
        None,
        flows,
        location,
    );
    let ghost checked = ctx@;
    let asserts = match annotation {
        Some(a) => match AnnotationDirective::parse(a.directive.as_str()) {
            Some(AnnotationDirective::Assert) => true,
            _ => false,
        },
        None => false,
    };
    if asserts && flows.len() == 0 {
        ctx.log.report_error(AnalysisErrorKind::UnexpectedVoidExpression { location });
        proof {
            assert(ctx@ =~= ContextModel {
                log: checked.log.with_error(ErrorModel::UnexpectedVoidExpression { location }),
                ..checked
            });
        }
    }
}

/// There is a plan for each statement, and the first one is always visited.
pub proof fn law_first_statements_are_visited(nodes: Seq<Node>, targets: Set<Seq<char>>, n: int)
    requires
        0 <= n <= nodes.len(),
    ensures
        reached(nodes, targets, n).plans.len() == n,
        n > 0 ==> reached(nodes, targets, n).plans[0] is Visit,
    decreases n,
{
    if n > 0 {
        law_first_statements_are_visited(nodes, targets, n - 1);
    }
}

/// As long as no statement jumps elsewhere, all are visited.
pub proof fn law_straight_code_is_visited(nodes: Seq<Node>, targets: Set<Seq<char>>, n: int)
    requires
        0 <= n <= nodes.len(),
        forall|i: int| 0 <= i < n ==> !ends_control(#[trigger] nodes[i]),
    ensures
        !reached(nodes, targets, n).blocked,
        reached(nodes, targets, n).plans.len() == n,
        forall|i: int| 0 <= i < n ==> (#[trigger] reached(nodes, targets, n).plans[i]) is Visit,
    decreases n,
{
    if n > 0 {
        law_straight_code_is_visited(nodes, targets, n - 1);
    }
}

} // verus!
