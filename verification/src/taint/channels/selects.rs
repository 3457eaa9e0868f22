//! Statements that wait for one of several communications.

use vstd::prelude::*;

use crate::ast::{Node, NodeKind};
use crate::context::branches::copy_trace;
use crate::context::reports::ErrorLog;
use crate::errors::{AnalysisErrorKind, ErrorModel};
use crate::labels::backtraces::{folded, listed, refs_to, trace_of, traces_of, LabelBacktrace,
    LabelBacktraceKind, Trace};
use crate::locations::{Location, Pinned, PinnedModel};
use crate::ordered::Ordered;
use crate::values::{values_of, FormModel, Value, ValueForm, ValueModel};

verus! {

/// What a clause of a select statement waits for.
#[derive(Clone, Copy, Debug, PartialEq, Eq, Structural)]
pub enum SelectCase {
    /// That a value is sent.
    Send,
    /// That a value is received, which is lost.
    Discard,
    /// That a value is received, which is assigned.
    Assignment,
    /// That a value is received, with which names are declared.
    ShortDeclaration,
    /// Nothing that a select statement can wait for.
    Illegal,
}

/// Whether the expressions behind a position are a single one that receives.
pub open spec fn receives_behind(node: Node, at: int) -> bool {
    node.children@.len() == at + 1 && node.children@[at].kind is Receive
}

/// What a clause of a select statement waits for.
pub open spec fn case_of(node: Node) -> SelectCase {
    match node.kind {
        NodeKind::Send => SelectCase::Send,
        NodeKind::Evaluation => if receives_behind(node, 0) {
            SelectCase::Discard
        } else {
            SelectCase::Illegal
        },
        NodeKind::Assignment(operands) => if receives_behind(node, operands as int) {
            SelectCase::Assignment
        } else {
            SelectCase::Illegal
        },
        NodeKind::ShortDecl => if receives_behind(node, 0) {
            SelectCase::ShortDeclaration
        } else {
            SelectCase::Illegal
        },
        _ => SelectCase::Illegal,
    }
}

fn receives_after(node: &Node, at: usize) -> (r: bool)
    ensures
        r == receives_behind(*node, at as int),
{
    let n: usize = node.children.len();
    if n == 0 || n - 1 != at {
        return false;
    }
    match node.children[at].kind {
        NodeKind::Receive => true,
        _ => false,
    }
}

/// Tells what a clause of a select statement waits for. What it cannot wait for
/// is reported.
pub fn extract_select_case(log: &mut ErrorLog, node: &Node) -> (r: SelectCase)
    ensures
        r == case_of(*node),
        final(log)@ == if r is Illegal {
            old(log)@.with_error(ErrorModel::IllegalSelectCase { location: node.location })
        } else {
            old(log)@
        },
{
    let found = match node.kind {
        NodeKind::Send => SelectCase::Send,
        NodeKind::Evaluation => {
            if receives_after(node, 0) {
                SelectCase::Discard
            } else {
                SelectCase::Illegal
            }
        },
        NodeKind::Assignment(operands) => {
            if receives_after(node, operands) {
                SelectCase::Assignment
            } else {
                SelectCase::Illegal
            }
        },
        NodeKind::ShortDecl => {
            if receives_after(node, 0) {
                SelectCase::ShortDeclaration
            } else {
                SelectCase::Illegal
            }
        },
        _ => SelectCase::Illegal,
    };
    if let SelectCase::Illegal = found {
        log.report_error(AnalysisErrorKind::IllegalSelectCase { location: node.location });
    }
    found
}

/// What decides whether a communication with a channel can proceed: how the
/// channel is used, but not what is sent to it.
pub open spec fn readiness(channel: ValueModel) -> Option<Trace> {
    if channel.form.can_become(FormModel::Channel) {
        channel.own
    } else {
        None
    }
}

/// What decides whether a communication with a channel can proceed.
pub fn find_readiness(channel: &Value) -> (r: Option<LabelBacktrace>)
    ensures
        trace_of(r) == readiness(channel@),
{
    if channel.form.can_become(&ValueForm::Channel) {
        copy_trace(&channel.own)
    } else {
        None
    }
}

/// What decides whether the communications with the first of some channels can
/// proceed.
pub open spec fn all_readiness(channels: Seq<ValueModel>, n: int) -> Seq<Trace>
    decreases n,
{
    if n <= 0 {
        Seq::<Trace>::empty()
    } else {
        all_readiness(channels, n - 1) + listed(readiness(channels[n - 1]))
    }
}

/// What decides which clause of a select statement is chosen.
pub open spec fn select_branch(
    channels: Seq<ValueModel>,
    at: PinnedModel<Location>,
) -> Option<Trace> {
    folded(
        all_readiness(channels, channels.len() as int),
        LabelBacktraceKind::Branch,
        None,
        at,
    )
}

/// What decides which clause of a select statement is chosen: whether any of
/// the communications can proceed.
pub fn derive_readiness_branch(channels: &Vec<Value>, at: &Pinned<Location>) -> (r: Option<
    LabelBacktrace,
>)
    ensures
        trace_of(r) == select_branch(values_of(channels@), at@),
{
    let ghost vs = values_of(channels@);
    let mut flows: Vec<LabelBacktrace> = Vec::new();
    let n: usize = channels.len();
    let mut i: usize = 0;
    proof {
        assert(traces_of(flows@) =~= Seq::<Trace>::empty());
    }
    while i < n
        invariant
            i <= n,
            n == channels@.len(),
            vs == values_of(channels@),
            traces_of(flows@) == all_readiness(vs, i as int),
        decreases n - i,
    {
        let ghost before = flows@;
        proof {
            assert(vs[i as int] == channels@[i as int]@);
        }
        let flow = find_readiness(&channels[i]);
        let ghost t = trace_of(flow);
        if let Some(b) = flow {
            flows.push(b);
        }
        proof {
            assert(traces_of(flows@) =~= traces_of(before) + listed(t));
        }
        i = i + 1;
    }
    LabelBacktrace::fold(&refs_to(&flows), LabelBacktraceKind::Branch, None, at.duplicate())
}

/// What is sent to channels does not decide which clause of a select statement
/// is chosen.
pub proof fn law_payloads_do_not_select(
    a: Seq<ValueModel>,
    b: Seq<ValueModel>,
    at: PinnedModel<Location>,
)
    requires
        a.len() == b.len(),
        forall|i: int|
            0 <= i < a.len() ==> (#[trigger] a[i]).form == b[i].form && a[i].own == b[i].own,
    ensures
        select_branch(a, at) == select_branch(b, at),
{
    lemma_same_readiness(a, b, a.len() as int);
}

proof fn lemma_same_readiness(a: Seq<ValueModel>, b: Seq<ValueModel>, n: int)
    requires
        a.len() == b.len(),
        n <= a.len(),
        forall|i: int|
            0 <= i < a.len() ==> (#[trigger] a[i]).form == b[i].form && a[i].own == b[i].own,
    ensures
        all_readiness(a, n) == all_readiness(b, n),
    decreases n,
{
    if n > 0 {
        lemma_same_readiness(a, b, n - 1);
        assert(a[n - 1].form == b[n - 1].form);
    }
}

} // verus!
