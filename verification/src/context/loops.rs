//! Loops, whose bodies are visited until nothing changes any more.

use vstd::prelude::*;

use crate::context::branches::BranchState;
use crate::labels::backtraces::{combined, trace_of, LabelBacktrace, LabelBacktraceKind, Trace};
use crate::labels::tags::text_of;
use crate::locations::{Location, Pinned, PinnedModel};
use crate::ordered::same_text;
use crate::snapshots::SnapshotAware;

verus! {

/// Whether two optional traces are both absent, or have the same label.
pub open spec fn flows_alike(a: Option<Trace>, b: Option<Trace>) -> bool {
    a is Some == b is Some && (a is Some ==> a->0.label == b->0.label)
}

/// What is known of a loop.
#[derive(Debug)]
pub struct LoopConvergence {
    /// The label of the loop, if it has one.
    label: Option<String>,
    /// What decided, in the last visit, whether the next iteration was begun
    /// early.
    incoming: Option<LabelBacktrace>,
    /// The same, as far as the body has been visited now.
    outgoing: Option<LabelBacktrace>,
    /// Whether the last visit brought nothing new in that.
    converged: bool,
    /// What decided, in the last visit, whether there was an iteration.
    header: Option<Option<LabelBacktrace>>,
}

/// What a [`LoopConvergence`] stands for.
#[verifier::ext_equal]
pub struct LoopModel {
    pub label: Option<Seq<char>>,
    pub incoming: Option<Trace>,
    pub outgoing: Option<Trace>,
    pub converged: bool,
    pub header: Option<Option<Trace>>,
}

impl View for LoopConvergence {
    type V = LoopModel;

    closed spec fn view(&self) -> LoopModel {
        LoopModel {
            label: text_of(self.label),
            incoming: trace_of(self.incoming),
            outgoing: trace_of(self.outgoing),
            converged: self.converged,
            header: match self.header {
                Some(h) => Some(trace_of(h)),
                None => None,
            },
        }
    }
}

impl LoopModel {
    /// A loop that has not been visited.
    pub open spec fn first(label: Option<Seq<char>>) -> LoopModel {
        LoopModel { label, incoming: None, outgoing: None, converged: true, header: None }
    }

    /// Whether another visit would bring nothing new: the last one did not, and
    /// what decides whether there is an iteration is what it was.
    pub open spec fn is_stable(self, header: Option<Trace>) -> bool {
        self.converged && self.header is Some && flows_alike(self.header->0, header)
    }

    /// What is known after a visit.
    pub open spec fn advanced(self, header: Option<Trace>) -> LoopModel {
        LoopModel {
            incoming: self.outgoing,
            outgoing: None,
            converged: flows_alike(self.incoming, self.outgoing),
            header: Some(header),
            ..self
        }
    }

    /// What is known after the next iteration is begun early.
    pub open spec fn continuing(
        self,
        branch: Option<Trace>,
        at: PinnedModel<Location>,
    ) -> LoopModel {
        LoopModel {
            outgoing: combined(self.outgoing, branch, LabelBacktraceKind::Branch, at),
            ..self
        }
    }
}

fn alike_flows(a: &Option<LabelBacktrace>, b: &Option<LabelBacktrace>) -> (r: bool)
    ensures
        r == flows_alike(trace_of(*a), trace_of(*b)),
{
    a.snapshot_aware_eq(b)
}

impl LoopConvergence {
    /// A loop that has not been visited.
    pub fn new(label: Option<String>) -> (r: Self)
        ensures
            r@ == LoopModel::first(text_of(label)),
    {
        LoopConvergence { label, incoming: None, outgoing: None, converged: true, header: None }
    }

    /// What decides whether an iteration is begun early.
    pub fn iteration_backtrace(&self) -> (r: Option<&LabelBacktrace>)
        ensures
            r is Some <==> self@.incoming is Some,
            r matches Some(b) ==> self@.incoming == Some(b@),
    {
        self.incoming.as_ref()
    }

    /// Whether another visit would bring nothing new.
    pub fn is_stable(&self, header: &Option<LabelBacktrace>) -> (r: bool)
        ensures
            r == self@.is_stable(trace_of(*header)),
    {
        match &self.header {
            Some(previous) => self.converged && alike_flows(previous, header),
            None => false,
        }
    }

    /// Goes on to the next visit.
    pub fn advance(&mut self, header: Option<LabelBacktrace>)
        ensures
            final(self)@ == old(self)@.advanced(trace_of(header)),
    {
        self.converged = alike_flows(&self.incoming, &self.outgoing);
        let mut next: Option<LabelBacktrace> = None;
        std::mem::swap(&mut next, &mut self.outgoing);
        self.incoming = next;
        self.header = Some(header);
    }

    fn record_continue(&mut self, branches: &BranchState, at: &Pinned<Location>)
        ensures
            final(self)@ == old(self)@.continuing(branches@.current(), at@),
    {
        let branch = match branches.branch_backtrace() {
            Some(b) => Some(b.clone()),
            None => None,
        };
        let mut existing: Option<LabelBacktrace> = None;
        std::mem::swap(&mut existing, &mut self.outgoing);
        self.outgoing = LabelBacktrace::combine_options(
            existing,
            branch,
            LabelBacktraceKind::Branch,
            at,
        );
    }
}

/// The loops around, the innermost one last.
#[derive(Debug)]
pub struct LoopStack {
    loops: Vec<LoopConvergence>,
}

/// What a list of loops stands for.
pub open spec fn loops_of(s: Seq<LoopConvergence>) -> Seq<LoopModel> {
    s.map_values(|l: LoopConvergence| l@)
}

impl View for LoopStack {
    type V = Seq<LoopModel>;

    closed spec fn view(&self) -> Seq<LoopModel> {
        loops_of(self.loops@)
    }
}

/// Whether a statement with a label, or without one, means a loop.
pub open spec fn is_meant(l: LoopModel, label: Option<Seq<char>>) -> bool {
    label is None || l.label == label
}

/// The loops once the innermost of the first ones that is meant is begun anew
/// early.
pub open spec fn continued(
    loops: Seq<LoopModel>,
    label: Option<Seq<char>>,
    branch: Option<Trace>,
    at: PinnedModel<Location>,
    n: int,
) -> Seq<LoopModel>
    decreases n,
{
    if n <= 0 || n > loops.len() {
        loops
    } else if is_meant(loops[n - 1], label) {
        loops.update(n - 1, loops[n - 1].continuing(branch, at))
    } else {
        continued(loops, label, branch, at, n - 1)
    }
}

impl LoopStack {
    /// No loops.
    pub fn new() -> (r: Self)
        ensures
            r@ == Seq::<LoopModel>::empty(),
    {
        let r = LoopStack { loops: Vec::new() };
        proof {
            assert(r@ =~= Seq::<LoopModel>::empty());
        }
        r
    }

    /// Enters a loop.
    pub fn push_loop_convergence_context(&mut self, label: Option<String>)
        ensures
            final(self)@ == old(self)@.push(LoopModel::first(text_of(label))),
    {
        let ghost before = self@;
        let l = LoopConvergence::new(label);
        let ghost m = l@;
        self.loops.push(l);
        proof {
            assert(self@ =~= before.push(m));
        }
    }

    /// Leaves the innermost loop, and returns what is known of it.
    pub fn pop_loop_convergence_context(&mut self) -> (r: Option<LoopConvergence>)
        ensures
            r is Some <==> old(self)@.len() > 0,
            r matches Some(l) ==> l@ == old(self)@.last() && final(self)@ == old(
                self,
            )@.drop_last(),
            r is None ==> final(self)@ == old(self)@,
    {
        let ghost before = self@;
        let r = self.loops.pop();
        proof {
            if before.len() > 0 {
                assert(self@ =~= before.drop_last());
            } else {
                assert(self@ =~= before);
            }
        }
        r
    }

    /// What decides whether an iteration of the innermost loop is begun early.
    pub fn loop_iteration_backtrace(&self) -> (r: Option<&LabelBacktrace>)
        ensures
            match r {
                Some(b) => self@.len() > 0 && self@.last().incoming == Some(b@),
                None => self@.len() == 0 || self@.last().incoming is None,
            },
    {
        let n: usize = self.loops.len();
        if n == 0 {
            return None;
        }
        proof {
            assert(self@.last() == self.loops@[n - 1]@);
        }
        self.loops[n - 1].iteration_backtrace()
    }

    /// Whether another visit of the innermost loop would bring nothing new.
    pub fn is_innermost_stable(&self, header: &Option<LabelBacktrace>) -> (r: bool)
        ensures
            r == (self@.len() == 0 || self@.last().is_stable(trace_of(*header))),
    {
        let n: usize = self.loops.len();
        if n == 0 {
            return true;
        }
        proof {
            assert(self@.last() == self.loops@[n - 1]@);
        }
        self.loops[n - 1].is_stable(header)
    }

    /// Goes on to the next visit of the innermost loop.
    pub fn advance_loop_convergence_iteration(&mut self, header: Option<LabelBacktrace>)
        ensures
            final(self)@ == if old(self)@.len() > 0 {
                old(self)@.update(
                    old(self)@.len() - 1,
                    old(self)@.last().advanced(trace_of(header)),
                )
            } else {
                old(self)@
            },
    {
        let ghost before = self@;
        match self.loops.pop() {
            Some(l) => {
                let mut innermost = l;
                innermost.advance(header);
                let ghost m = innermost@;
                self.loops.push(innermost);
                proof {
                    assert(self@ =~= before.update(before.len() - 1, m));
                }
            },
            None => {
                proof {
                    assert(self@ =~= before);
                }
            },
        }
    }

    /// Records what decides whether the next iteration of a loop is begun
    /// early: that of the innermost one, or of the innermost one with a label.
    pub fn record_continue_branch_backtrace(
        &mut self,
        branches: &BranchState,
        label: Option<&str>,
        at: &Pinned<Location>,
    )
        ensures
            final(self)@ == continued(
                old(self)@,
                match label {
                    Some(l) => Some(l@),
                    None => None,
                },
                branches@.current(),
                at@,
                old(self)@.len() as int,
            ),
    {
        let ghost first = self@;
        let ghost meant = match label {
            Some(l) => Some(l@),
            None => None,
        };
        let mut i: usize = self.loops.len();
        proof {
            assert(first.len() == i);
        }
        while i > 0
            invariant
                i <= self.loops@.len(),
                self@ == first,
                first.len() == self.loops@.len(),
                meant == (match label {
                    Some(l) => Some(l@),
                    None => None,
                }),
                continued(first, meant, branches@.current(), at@, first.len() as int)
                    == continued(first, meant, branches@.current(), at@, i as int),
                first == old(self)@,
            decreases i,
        {
            i = i - 1;
            proof {
                assert(first[i as int] == self.loops@[i as int]@);
            }
            let found = match label {
                Some(l) => match &self.loops[i].label {
                    Some(own) => same_text(own.as_str(), l),
                    None => false,
                },
                None => true,
            };
            if found {
                let mut l = self.loops.remove(i);
                l.record_continue(branches, at);
                let ghost m = l@;
                self.loops.insert(i, l);
                proof {
                    assert(self@ =~= first.update(i as int, m));
                }
                return;
            }
        }
    }
}

/// A loop in whose body nothing begins the next iteration early is stable after
/// one visit, if what decides whether there is an iteration stays what it was.
pub proof fn law_quiet_loops_settle(label: Option<Seq<char>>, header: Option<Trace>)
    ensures
        !LoopModel::first(label).is_stable(header),
        LoopModel::first(label).advanced(header).is_stable(header),
{
}

} // verus!
