//! Jumps to labels.

use vstd::prelude::*;

use crate::ast::{Node, NodeKind};
use crate::context::branches::{copy_trace, BranchModel, BranchState};
use crate::labels::backtraces::{combined, trace_of, LabelBacktrace, LabelBacktraceKind, Trace};
use crate::locations::{Location, Pinned, PinnedModel};
use crate::ordered::OrderedMap;
use crate::snapshots::SnapshotAware;

verus! {

/// Whether statements of this kind can hold others that jump to labels.
pub open spec fn holds_statements(kind: NodeKind) -> bool {
    kind is Labeled || kind is Block || kind is If || kind is For || kind is Select || kind is Switch
        || kind is Clause
}

/// Whether a node, or one in it, jumps to a label. Functions inside do not
/// count.
pub open spec fn jumps(node: Node) -> bool
    decreases node, node.children@.len() + 1,
{
    node.kind is Goto || holds_statements(node.kind) && any_jumps(
        node,
        node.children@.len() as int,
    )
}

/// Whether one of the first children of a node jumps to a label.
pub open spec fn any_jumps(node: Node, n: int) -> bool
    decreases node, n,
{
    if n <= 0 || n > node.children@.len() {
        false
    } else {
        any_jumps(node, n - 1) || jumps(node.children@[n - 1])
    }
}

/// Whether a node, or one in it, jumps to a label.
pub fn block_contains_goto(node: &Node) -> (r: bool)
    ensures
        r == jumps(*node),
    decreases node,
{
    match node.kind {
        NodeKind::Goto => {
            return true;
        },
        NodeKind::Labeled
        | NodeKind::Block
        | NodeKind::If { .. }
        | NodeKind::For { .. }
        | NodeKind::Select
        | NodeKind::Switch { .. }
        | NodeKind::Clause => {},
        _ => {
            return false;
        },
    }
    let n: usize = node.children.len();
    let mut i: usize = 0;
    while i < n
        invariant
            i <= n,
            n == node.children@.len(),
            !any_jumps(*node, i as int),
            node.kind !is Goto,
            holds_statements(node.kind),
        decreases n - i,
    {
        if block_contains_goto(&node.children[i]) {
            proof {
                assert(any_jumps(*node, i + 1));
                lemma_any_jumps(*node, i + 1, n as int);
            }
            return true;
        }
        i = i + 1;
    }
    false
}

proof fn lemma_any_jumps(node: Node, i: int, n: int)
    requires
        0 <= i <= n <= node.children@.len(),
        any_jumps(node, i),
    ensures
        any_jumps(node, n),
    decreases n,
{
    if i < n {
        lemma_any_jumps(node, i, n - 1);
    }
}

/// What optional backtraces under labels stand for.
pub open spec fn jumps_of(m: Map<Seq<char>, Option<LabelBacktrace>>) -> Map<
    Seq<char>,
    Option<Trace>,
> {
    m.map_values(|b: Option<LabelBacktrace>| trace_of(b))
}

/// What is known of the jumps in a function whose body is visited until that
/// does not change any more.
#[derive(Debug)]
pub struct GotoConvergenceState {
    /// What decided whether jumps to labels were made, when the body was last
    /// visited.
    incoming: OrderedMap<String, Option<LabelBacktrace>>,
    /// The same, as far as the body has been visited now.
    outgoing: OrderedMap<String, Option<LabelBacktrace>>,
    /// How many branches have been entered at labels.
    n_pushes: usize,
}

/// What a [`GotoConvergenceState`] stands for.
#[verifier::ext_equal]
pub struct GotoModel {
    pub incoming: Map<Seq<char>, Option<Trace>>,
    pub outgoing: Map<Seq<char>, Option<Trace>>,
    pub pushes: nat,
}

impl View for GotoConvergenceState {
    type V = GotoModel;

    closed spec fn view(&self) -> GotoModel {
        GotoModel {
            incoming: jumps_of(self.incoming@),
            outgoing: jumps_of(self.outgoing@),
            pushes: self.n_pushes as nat,
        }
    }
}

/// Whether what is known of jumps differs in nothing but backtraces, and these
/// not in their labels.
pub open spec fn jumps_alike(
    a: Map<Seq<char>, Option<Trace>>,
    b: Map<Seq<char>, Option<Trace>>,
) -> bool {
    &&& a.dom() == b.dom()
    &&& forall|l: Seq<char>| #[trigger]
        a.dom().contains(l) ==> a[l] is Some == b[l] is Some && (a[l] is Some ==> a[l]->0.label
            == b[l]->0.label)
}

impl GotoModel {
    /// What is known after a jump to a label.
    pub open spec fn jumping(
        self,
        label: Seq<char>,
        branch: Option<Trace>,
        at: PinnedModel<Location>,
    ) -> GotoModel {
        let before = if self.outgoing.dom().contains(label) {
            self.outgoing[label]
        } else {
            None
        };
        GotoModel {
            outgoing: self.outgoing.insert(
                label,
                combined(before, branch, LabelBacktraceKind::Branch, at),
            ),
            ..self
        }
    }

    /// What decides whether what stands behind a label is reached by a jump, if
    /// anything does.
    pub open spec fn entering(self, label: Seq<char>) -> Option<Trace> {
        if self.incoming.dom().contains(label) {
            self.incoming[label]
        } else {
            None
        }
    }
}

impl GotoConvergenceState {
    /// Nothing is known.
    pub fn new() -> (r: Self)
        ensures
            r@ == (GotoModel {
                incoming: Map::<Seq<char>, Option<Trace>>::empty(),
                outgoing: Map::<Seq<char>, Option<Trace>>::empty(),
                pushes: 0,
            }),
    {
        let r = GotoConvergenceState {
            incoming: OrderedMap::new(),
            outgoing: OrderedMap::new(),
            n_pushes: 0,
        };
        proof {
            assert(r@.incoming =~= Map::<Seq<char>, Option<Trace>>::empty());
            assert(r@.outgoing =~= Map::<Seq<char>, Option<Trace>>::empty());
        }
        r
    }

    /// Goes on to the next visit of the body. Returns whether the last one
    /// brought nothing new.
    pub fn advance(&mut self) -> (r: bool)
        ensures
            r == jumps_alike(old(self)@.incoming, old(self)@.outgoing),
            final(self)@ == (GotoModel {
                incoming: old(self)@.outgoing,
                outgoing: Map::<Seq<char>, Option<Trace>>::empty(),
                ..old(self)@
            }),
    {
        let stable = self.incoming.snapshot_aware_eq(&self.outgoing);
        proof {
            let a = self.incoming@;
            let b = self.outgoing@;
            assert(self@.incoming.dom() =~= a.dom());
            assert(self@.outgoing.dom() =~= b.dom());
            if stable {
                assert forall|l: Seq<char>| #[trigger] self@.incoming.dom().contains(l) implies
                    self@.incoming[l] is Some == self@.outgoing[l] is Some && (
                self@.incoming[l] is Some ==> self@.incoming[l]->0.label
                    == self@.outgoing[l]->0.label) by {
                    assert(a.dom().contains(l));
                    assert(a[l].alike(&b[l]));
                }
            } else if jumps_alike(self@.incoming, self@.outgoing) {
                assert(a.dom() =~= b.dom());
                assert forall|l: Seq<char>| #[trigger] a.dom().contains(l) implies a[l].alike(
                    &b[l],
                ) by {
                    assert(self@.incoming.dom().contains(l));
                }
            }
        }
        let mut next: OrderedMap<String, Option<LabelBacktrace>> = OrderedMap::new();
        std::mem::swap(&mut next, &mut self.outgoing);
        self.incoming = next;
        proof {
            assert(self@.outgoing =~= Map::<Seq<char>, Option<Trace>>::empty());
        }
        stable
    }

    /// Whether something jumped to a label when the body was last visited.
    pub fn is_label_targeted(&self, label: &str) -> (r: bool)
        ensures
            r == self@.incoming.dom().contains(label@),
    {
        self.incoming.contains_key(&label.to_owned())
    }

    /// Visits a jump to a label.
    pub fn visit_goto(&mut self, branches: &BranchState, label: &str, at: &Pinned<Location>)
        ensures
            final(self)@ == old(self)@.jumping(label@, branches@.current(), at@),
    {
        let ghost before = self@;
        let key = label.to_owned();
        let contribution = match branches.branch_backtrace() {
            Some(b) => Some(b.clone()),
            None => None,
        };
        let existing = match self.outgoing.remove(&key) {
            Some(flow) => flow,
            None => None,
        };
        let flow = LabelBacktrace::combine_options(
            existing,
            contribution,
            LabelBacktraceKind::Branch,
            at,
        );
        self.outgoing.insert(key, flow);
        proof {
            assert(self@.outgoing =~= before.jumping(label@, branches@.current(), at@).outgoing);
        }
    }

    /// How many branches have been entered at labels.
    pub fn push_count(&self) -> (r: usize)
        ensures
            r == self@.pushes,
    {
        self.n_pushes
    }

    /// Visits a label: what decides whether it is reached by a jump also
    /// decides whether what stands behind it is done.
    pub fn visit_label_in_goto_context(&mut self, branches: &mut BranchState, label: &str)
        requires
            old(self)@.pushes < usize::MAX,
        ensures
            match old(self)@.entering(label@) {
                Some(t) => {
                    &&& final(branches)@ == old(branches)@.entered(t)
                    &&& final(self)@ == (GotoModel {
                        pushes: old(self)@.pushes + 1,
                        ..old(self)@
                    })
                },
                None => final(branches)@ == old(branches)@ && final(self)@ == old(self)@,
            },
    {
        let backtrace = match self.incoming.get(&label.to_owned()) {
            Some(flow) => copy_trace(flow),
            None => None,
        };
        if let Some(b) = backtrace {
            self.n_pushes = self.n_pushes + 1;
            branches.push_branch_backtrace(b);
        }
    }

    /// Leaves all branches that were entered at labels.
    pub fn pop_goto_branch_backtraces(&mut self, branches: &mut BranchState)
        ensures
            final(branches)@ == left_times(old(branches)@, old(self)@.pushes),
            final(self)@ == (GotoModel { pushes: 0, ..old(self)@ }),
    {
        let ghost first = branches@;
        let n: usize = self.n_pushes;
        let mut i: usize = 0;
        while i < n
            invariant
                i <= n,
                branches@ == left_times(first, i as nat),
            decreases n - i,
        {
            branches.pop_branch_backtrace();
            i = i + 1;
        }
        self.n_pushes = 0;
    }
}

/// The branches after so many of them are left.
pub open spec fn left_times(b: BranchModel, n: nat) -> BranchModel
    decreases n,
{
    if n == 0 {
        b
    } else {
        left_times(b, (n - 1) as nat).left()
    }
}

/// A function without jumps to labels is settled after one visit.
pub proof fn law_no_jumps_settle(s: GotoModel)
    requires
        s.incoming == Map::<Seq<char>, Option<Trace>>::empty(),
        s.outgoing == Map::<Seq<char>, Option<Trace>>::empty(),
    ensures
        jumps_alike(s.incoming, s.outgoing),
{
}

} // verus!
