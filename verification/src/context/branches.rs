//! What the surrounding control flow implies.

use vstd::prelude::*;

use crate::labels::backtraces::{extended, folded, trace_of, trace_of_ref, traces_of, traces_of_refs,
    LabelBacktrace, LabelBacktraceKind, Trace};
use crate::labels::tags::TagModel;
use crate::labels::trace_laws::{all_sound, law_fold, law_union_of_backtraces, sound, spread};
use crate::locations::{Location, Pinned, PinnedModel};
use crate::ordered::{same_text, Ordered};

verus! {

/// What must end for a deferred branch to lose its effect.
#[derive(Debug)]
pub enum DeferTarget {
    /// The function.
    Function,
    /// The innermost loop.
    InnermostLoop,
    /// The loop with a label.
    LabeledLoop(String),
    /// The innermost statement that can be broken out of.
    InnermostBreakable,
    /// The statement with a label that can be broken out of.
    LabeledBreakable(String),
}

/// What a [`DeferTarget`] stands for.
#[verifier::ext_equal]
pub enum TargetModel {
    Function,
    InnermostLoop,
    LabeledLoop(Seq<char>),
    InnermostBreakable,
    LabeledBreakable(Seq<char>),
}

impl View for DeferTarget {
    type V = TargetModel;

    open spec fn view(&self) -> TargetModel {
        match self {
            DeferTarget::Function => TargetModel::Function,
            DeferTarget::InnermostLoop => TargetModel::InnermostLoop,
            DeferTarget::LabeledLoop(l) => TargetModel::LabeledLoop(l@),
            DeferTarget::InnermostBreakable => TargetModel::InnermostBreakable,
            DeferTarget::LabeledBreakable(l) => TargetModel::LabeledBreakable(l@),
        }
    }
}

impl DeferTarget {
    /// Whether two targets are the same.
    pub fn same_as(&self, other: &Self) -> (r: bool)
        ensures
            r == (self@ == other@),
    {
        match (self, other) {
            (DeferTarget::Function, DeferTarget::Function) => true,
            (DeferTarget::InnermostLoop, DeferTarget::InnermostLoop) => true,
            (DeferTarget::InnermostBreakable, DeferTarget::InnermostBreakable) => true,
            (DeferTarget::LabeledLoop(a), DeferTarget::LabeledLoop(b)) => same_text(
                a.as_str(),
                b.as_str(),
            ),
            (DeferTarget::LabeledBreakable(a), DeferTarget::LabeledBreakable(b)) => same_text(
                a.as_str(),
                b.as_str(),
            ),
            _ => false,
        }
    }
}

impl Clone for DeferTarget {
    fn clone(&self) -> (r: Self)
        ensures
            r@ == self@,
    {
        match self {
            DeferTarget::Function => DeferTarget::Function,
            DeferTarget::InnermostLoop => DeferTarget::InnermostLoop,
            DeferTarget::LabeledLoop(l) => DeferTarget::LabeledLoop(l.clone()),
            DeferTarget::InnermostBreakable => DeferTarget::InnermostBreakable,
            DeferTarget::LabeledBreakable(l) => DeferTarget::LabeledBreakable(l.clone()),
        }
    }
}

/// A branch that is left but still has an effect, as after a conditional
/// `return`.
#[derive(Debug)]
struct DeferredBranchBacktrace {
    backtrace: LabelBacktrace,
    until: DeferTarget,
    at_depth: u8,
    because: Pinned<Location>,
}

/// What a deferred branch stands for.
#[verifier::ext_equal]
pub struct DeferredModel {
    pub backtrace: Trace,
    pub until: TargetModel,
    pub at_depth: nat,
    pub because: PinnedModel<Location>,
}

impl DeferredBranchBacktrace {
    spec fn model(&self) -> DeferredModel {
        DeferredModel {
            backtrace: self.backtrace@,
            until: self.until@,
            at_depth: self.at_depth as nat,
            because: self.because@,
        }
    }

    fn duplicate(&self) -> (r: Self)
        ensures
            r.model() == self.model(),
    {
        DeferredBranchBacktrace {
            backtrace: self.backtrace.clone(),
            until: self.until.clone(),
            at_depth: self.at_depth,
            because: self.because.duplicate(),
        }
    }
}

spec fn models(s: Seq<DeferredBranchBacktrace>) -> Seq<DeferredModel> {
    s.map_values(|d: DeferredBranchBacktrace| d.model())
}

fn copy_all(v: &Vec<DeferredBranchBacktrace>) -> (r: Vec<DeferredBranchBacktrace>)
    ensures
        models(r@) == models(v@),
{
    let mut r: Vec<DeferredBranchBacktrace> = Vec::new();
    let n: usize = v.len();
    let mut i: usize = 0;
    while i < n
        invariant
            i <= n,
            n == v@.len(),
            r@.len() == i,
            forall|k: int| 0 <= k < i ==> (#[trigger] r@[k]).model() == v@[k].model(),
        decreases n - i,
    {
        r.push(v[i].duplicate());
        i = i + 1;
    }
    proof {
        assert(models(r@) =~= models(v@));
    }
    r
}

/// The branches in which the analysis currently stands.
#[derive(Debug)]
pub struct BranchState {
    branch_backtraces: Vec<LabelBacktrace>,
    deferred_branch_backtraces: Vec<DeferredBranchBacktrace>,
    current_calculated_branch_backtrace: Option<LabelBacktrace>,
    current_branch_scope_depth: u8,
}

/// What a [`BranchState`] stands for.
#[verifier::ext_equal]
pub struct BranchModel {
    /// The branches entered and not left yet, each composed with those around
    /// it.
    pub stack: Seq<Trace>,
    /// The branches that are left but still have an effect.
    pub deferred: Seq<DeferredModel>,
    /// The composition of the innermost branch with the deferred ones.
    pub composite: Option<Trace>,
    /// How many loops, other statements that can be broken out of, and
    /// functions are around.
    pub depth: nat,
}

impl View for BranchState {
    type V = BranchModel;

    closed spec fn view(&self) -> BranchModel {
        BranchModel {
            stack: traces_of(self.branch_backtraces@),
            deferred: models(self.deferred_branch_backtraces@),
            composite: trace_of(self.current_calculated_branch_backtrace),
            depth: self.current_branch_scope_depth as nat,
        }
    }
}

/// The traces of deferred branches.
pub open spec fn deferred_traces(deferred: Seq<DeferredModel>) -> Seq<Trace> {
    deferred.map_values(|d: DeferredModel| d.backtrace)
}

/// The composition of the innermost branch with deferred ones, if there are
/// any of these.
pub open spec fn composed(stack: Seq<Trace>, deferred: Seq<DeferredModel>) -> Option<Trace> {
    if deferred.len() == 0 {
        None
    } else {
        folded(
            (if stack.len() > 0 {
                seq![stack.last()]
            } else {
                Seq::<Trace>::empty()
            }) + deferred_traces(deferred),
            LabelBacktraceKind::Branch,
            None,
            deferred.last().because,
        )
    }
}

impl BranchModel {
    /// What the surrounding control flow implies.
    pub open spec fn current(self) -> Option<Trace> {
        match self.composite {
            Some(t) => Some(t),
            None => if self.stack.len() > 0 {
                Some(self.stack.last())
            } else {
                None
            },
        }
    }

    /// Whether the composition is up to date.
    pub open spec fn is_settled(self) -> bool {
        self.composite == composed(self.stack, self.deferred)
    }

    /// The state with the composition brought up to date.
    pub open spec fn settled(self) -> BranchModel {
        BranchModel { composite: composed(self.stack, self.deferred), ..self }
    }

    /// The state after a branch is entered.
    pub open spec fn entered(self, branch: Trace) -> BranchModel {
        let composite = match self.current() {
            Some(existing) => extended(branch, existing),
            None => branch,
        };
        BranchModel { stack: self.stack.push(composite), ..self }.settled()
    }

    /// The state after the innermost branch is left.
    pub open spec fn left(self) -> BranchModel {
        BranchModel {
            stack: if self.stack.len() > 0 {
                self.stack.drop_last()
            } else {
                self.stack
            },
            ..self
        }.settled()
    }

    /// The state after the current branch is deferred until something ends.
    pub open spec fn deferring(self, until: TargetModel, because: PinnedModel<Location>) -> BranchModel {
        match self.current() {
            Some(backtrace) => BranchModel {
                deferred: self.deferred.push(
                    DeferredModel { backtrace, until, at_depth: self.depth, because },
                ),
                ..self
            }.settled(),
            None => self,
        }
    }

    /// Whether a deferred branch stays in effect when something ends. It does
    /// if it waits for something else, or for something around what ended.
    pub open spec fn outlasts(self, d: DeferredModel, target: TargetModel) -> bool {
        d.until != target || d.at_depth <= self.depth
    }

    /// The state after something for which branches may wait has ended.
    pub open spec fn triggered(self, target: TargetModel) -> BranchModel {
        BranchModel {
            deferred: self.deferred.filter(|d: DeferredModel| self.outlasts(d, target)),
            ..self
        }.settled()
    }
}

/// The deferred branches at some point of the analysis.
#[derive(Debug)]
pub struct DeferredBranchBacktraceCheckpoint {
    deferred: Vec<DeferredBranchBacktrace>,
    composite: Option<LabelBacktrace>,
}

impl DeferredBranchBacktraceCheckpoint {
    /// The deferred branches.
    pub closed spec fn deferred(&self) -> Seq<DeferredModel> {
        models(self.deferred@)
    }

    /// The composition of the innermost branch with the deferred ones.
    pub closed spec fn composite(&self) -> Option<Trace> {
        trace_of(self.composite)
    }
}

/// A copy of an optional backtrace.
pub fn copy_trace(b: &Option<LabelBacktrace>) -> (r: Option<LabelBacktrace>)
    ensures
        trace_of(r) == trace_of(*b),
{
    match b {
        Some(x) => Some(x.clone()),
        None => None,
    }
}

impl BranchState {
    /// No branches.
    pub fn new() -> (r: Self)
        ensures
            r@ == (BranchModel {
                stack: Seq::<Trace>::empty(),
                deferred: Seq::<DeferredModel>::empty(),
                composite: None,
                depth: 0,
            }),
    {
        let r = BranchState {
            branch_backtraces: Vec::new(),
            deferred_branch_backtraces: Vec::new(),
            current_calculated_branch_backtrace: None,
            current_branch_scope_depth: 0,
        };
        proof {
            assert(traces_of(r.branch_backtraces@) =~= Seq::<Trace>::empty());
            assert(models(r.deferred_branch_backtraces@) =~= Seq::<DeferredModel>::empty());
        }
        r
    }

    /// What the surrounding control flow implies.
    pub fn branch_backtrace(&self) -> (r: Option<&LabelBacktrace>)
        ensures
            trace_of_ref(r) == self@.current(),
    {
        match &self.current_calculated_branch_backtrace {
            Some(b) => Some(b),
            None => {
                let n: usize = self.branch_backtraces.len();
                if n > 0 {
                    Some(&self.branch_backtraces[n - 1])
                } else {
                    None
                }
            },
        }
    }

    /// Enters a branch.
    pub fn push_branch_backtrace(&mut self, backtrace: LabelBacktrace)
        ensures
            final(self)@ == old(self)@.entered(backtrace@),
    {
        let ghost before = self@;
        let composite = match self.branch_backtrace() {
            Some(existing) => backtrace.with_child(existing),
            None => backtrace,
        };
        let ghost t = composite@;
        let ghost stack = traces_of(self.branch_backtraces@);
        self.branch_backtraces.push(composite);
        proof {
            assert(traces_of(self.branch_backtraces@) =~= stack.push(t));
        }
        self.calculate_composite_branch_backtrace();
    }

    /// Leaves the innermost branch.
    pub fn pop_branch_backtrace(&mut self)
        ensures
            final(self)@ == old(self)@.left(),
    {
        let ghost stack = traces_of(self.branch_backtraces@);
        let _last = self.branch_backtraces.pop();
        proof {
            if stack.len() > 0 {
                assert(traces_of(self.branch_backtraces@) =~= stack.drop_last());
            } else {
                assert(traces_of(self.branch_backtraces@) =~= stack);
            }
        }
        self.calculate_composite_branch_backtrace();
    }

    /// Lets the current branch have an effect until something ends.
    pub fn defer_branch_backtrace(&mut self, until: DeferTarget, because: Pinned<Location>)
        ensures
            final(self)@ == old(self)@.deferring(until@, because@),
    {
        let backtrace = match self.branch_backtrace() {
            Some(b) => b.clone(),
            None => {
                return;
            },
        };
        let deferred = DeferredBranchBacktrace {
            backtrace,
            until,
            at_depth: self.current_branch_scope_depth,
            because,
        };
        let ghost m = deferred.model();
        let ghost all = models(self.deferred_branch_backtraces@);
        self.deferred_branch_backtraces.push(deferred);
        proof {
            assert(models(self.deferred_branch_backtraces@) =~= all.push(m));
        }
        self.calculate_composite_branch_backtrace();
    }

    /// Lets the deferred branches that wait for what has just ended lose their
    /// effect.
    pub fn trigger_defer_target(&mut self, target: DeferTarget)
        ensures
            final(self)@ == old(self)@.triggered(target@),
    {
        let ghost before = self@;
        let ghost keeps = |d: DeferredModel| before.outlasts(d, target@);
        let mut rest: Vec<DeferredBranchBacktrace> = Vec::new();
        std::mem::swap(&mut rest, &mut self.deferred_branch_backtraces);
        let mut kept: Vec<DeferredBranchBacktrace> = Vec::new();
        let n: usize = rest.len();
        let mut i: usize = 0;
        let ghost all = models(rest@);
        proof {
            assert(all == before.deferred);
            assert(all.take(0).filter(keeps) =~= Seq::<DeferredModel>::empty()) by {
                reveal(Seq::filter);
            }
            assert(models(kept@) =~= Seq::<DeferredModel>::empty());
        }
        while i < n
            invariant
                i <= n,
                n == rest@.len(),
                all == models(rest@),
                before.depth == self.current_branch_scope_depth as nat,
                keeps == |d: DeferredModel| before.outlasts(d, target@),
                models(kept@) == all.take(i as int).filter(keeps),
            decreases n - i,
        {
            let d = &rest[i];
            let keep = !d.until.same_as(&target) || d.at_depth <= self.current_branch_scope_depth;
            proof {
                assert(all.take(i + 1).drop_last() =~= all.take(i as int));
                assert(all.take(i + 1).last() == d.model());
                reveal(Seq::filter);
                assert(keep == keeps(d.model()));
            }
            if keep {
                let copy = d.duplicate();
                let ghost before_push = models(kept@);
                let ghost m = copy.model();
                kept.push(copy);
                proof {
                    assert(models(kept@) =~= before_push.push(m));
                }
            }
            i = i + 1;
        }
        proof {
            assert(all.take(n as int) =~= all);
        }
        self.deferred_branch_backtraces = kept;
        self.calculate_composite_branch_backtrace();
    }

    /// The deferred branches as they are now.
    pub fn checkpoint_deferred_state(&self) -> (r: DeferredBranchBacktraceCheckpoint)
        ensures
            r.deferred() == self@.deferred,
            r.composite() == self@.composite,
    {
        DeferredBranchBacktraceCheckpoint {
            deferred: copy_all(&self.deferred_branch_backtraces),
            composite: copy_trace(&self.current_calculated_branch_backtrace),
        }
    }

    /// Goes back to the deferred branches of a checkpoint.
    pub fn restore_deferred_state(&mut self, checkpoint: &DeferredBranchBacktraceCheckpoint)
        ensures
            final(self)@ == (BranchModel {
                deferred: checkpoint.deferred(),
                composite: checkpoint.composite(),
                ..old(self)@
            }),
    {
        self.deferred_branch_backtraces = copy_all(&checkpoint.deferred);
        self.current_calculated_branch_backtrace = copy_trace(&checkpoint.composite);
    }

    fn calculate_composite_branch_backtrace(&mut self)
        ensures
            final(self)@ == old(self)@.settled(),
    {
        let n: usize = self.deferred_branch_backtraces.len();
        if n == 0 {
            self.current_calculated_branch_backtrace = None;
            return;
        }
        let ghost all = models(self.deferred_branch_backtraces@);
        let ghost stack = traces_of(self.branch_backtraces@);
        let composite = {
            let mut children: Vec<&LabelBacktrace> = Vec::new();
            let m: usize = self.branch_backtraces.len();
            if m > 0 {
                children.push(&self.branch_backtraces[m - 1]);
            }
            let ghost first = if stack.len() > 0 {
                seq![stack.last()]
            } else {
                Seq::<Trace>::empty()
            };
            let mut i: usize = 0;
            proof {
                assert(traces_of_refs(children@) =~= first + deferred_traces(all).take(0));
            }
            while i < n
                invariant
                    i <= n,
                    n == self.deferred_branch_backtraces@.len(),
                    all == models(self.deferred_branch_backtraces@),
                    traces_of_refs(children@) == first + deferred_traces(all).take(i as int),
                decreases n - i,
            {
                let ghost before = traces_of_refs(children@);
                children.push(&self.deferred_branch_backtraces[i].backtrace);
                proof {
                    let t = deferred_traces(all)[i as int];
                    assert(traces_of_refs(children@) =~= before.push(t));
                    assert(deferred_traces(all).take(i + 1) =~= deferred_traces(all).take(
                        i as int,
                    ).push(t));
                }
                i = i + 1;
            }
            proof {
                assert(deferred_traces(all).take(n as int) =~= deferred_traces(all));
            }
            LabelBacktrace::fold(
                &children,
                LabelBacktraceKind::Branch,
                None,
                self.deferred_branch_backtraces[n - 1].because.duplicate(),
            )
        };
        self.current_calculated_branch_backtrace = composite;
    }

    /// How many functions, loops and other statements that can be broken out of
    /// are around.
    pub fn branch_scope_depth(&self) -> (r: u8)
        ensures
            r == self@.depth,
    {
        self.current_branch_scope_depth
    }

    /// Goes into a function, loop or other statement that can be broken out of.
    pub fn increase_branch_scope_depth(&mut self)
        requires
            old(self)@.depth < 255,
        ensures
            final(self)@ == (BranchModel { depth: (old(self)@.depth + 1) as nat, ..old(self)@ }),
    {
        self.current_branch_scope_depth = self.current_branch_scope_depth + 1;
    }

    /// Comes out of a function, loop or other statement that can be broken out
    /// of.
    pub fn decrease_branch_scope_depth(&mut self)
        requires
            old(self)@.depth > 0,
        ensures
            final(self)@ == (BranchModel { depth: (old(self)@.depth - 1) as nat, ..old(self)@ }),
    {
        self.current_branch_scope_depth = self.current_branch_scope_depth - 1;
    }
}

/// Entering a branch and leaving it again changes nothing.
pub proof fn law_enter_and_leave(m: BranchModel, branch: Trace)
    requires
        m.is_settled(),
    ensures
        m.entered(branch).left() == m,
        m.entered(branch).is_settled(),
        m.left().is_settled(),
{
    let n = m.entered(branch);
    assert(n.stack.drop_last() =~= m.stack);
    assert(n.left() =~= m);
}

/// Whether all branches are sound.
pub open spec fn branches_sound(m: BranchModel) -> bool {
    &&& all_sound(m.stack)
    &&& all_sound(deferred_traces(m.deferred))
    &&& m.composite matches Some(t) ==> sound(t)
}

/// The label that the control flow implies only grows when a branch is entered:
/// it is then the union of the label that it was before and that of the branch.
pub proof fn law_entering_adds(m: BranchModel, branch: Trace)
    requires
        m.is_settled(),
        branches_sound(m),
        sound(branch),
    ensures
        branches_sound(m.entered(branch)),
        m.entered(branch).current() matches Some(t) && t.label == branch.label.union(
            crate::labels::backtraces::label_or_bottom(m.current()),
        ),
{
    let n = m.entered(branch);
    if m.stack.len() > 0 {
        assert(sound(m.stack.last()));
    }
    let inner = match m.current() {
        Some(existing) => {
            law_union_of_backtraces(branch, existing, LabelBacktraceKind::Branch, branch.location);
            extended(branch, existing)
        },
        None => branch,
    };
    assert(n.stack == m.stack.push(inner));
    assert forall|i: int| 0 <= i < n.stack.len() implies sound(#[trigger] n.stack[i]) by {
        if i < m.stack.len() {
            assert(n.stack[i] == m.stack[i]);
        }
    }
    if m.deferred.len() > 0 {
        let ds = deferred_traces(m.deferred);
        let now = seq![inner] + ds;
        let then = (if m.stack.len() > 0 {
            seq![m.stack.last()]
        } else {
            Seq::<Trace>::empty()
        }) + ds;
        assert forall|i: int| 0 <= i < now.len() implies sound(#[trigger] now[i]) by {
            if i > 0 {
                assert(now[i] == ds[i - 1]);
            }
        }
        assert forall|i: int| 0 <= i < then.len() implies sound(#[trigger] then[i]) by {
            let k = then.len() - ds.len();
            if i >= k {
                assert(then[i] == ds[i - k]);
            } else {
                assert(then[i] == m.stack.last());
            }
        }
        law_fold(now, LabelBacktraceKind::Branch, None, m.deferred.last().because);
        law_fold(then, LabelBacktraceKind::Branch, None, m.deferred.last().because);
        assert(then[then.len() - 1] == ds[ds.len() - 1]);
        assert(spread(now) =~= branch.label.union(spread(then))) by {
            assert forall|x: TagModel| spread(now).contains(x) == branch.label.union(
                spread(then),
            ).contains(x) by {
                let k = then.len() - ds.len();
                if spread(now).contains(x) {
                    let i = choose|i: int|
                        0 <= i < now.len() && (#[trigger] now[i]).label.contains(x);
                    if i > 0 {
                        assert(then[i - 1 + k].label.contains(x));
                    }
                }
                if spread(then).contains(x) {
                    assert(now[0].label.contains(x));
                    assert(spread(now).contains(x));
                }
                if branch.label.contains(x) {
                    assert(now[0].label.contains(x));
                }
            }
        }
        assert(seq![n.stack.last()] + deferred_traces(n.deferred) =~= now);
    } else {
        assert(m.composite is None);
        if m.current() is None {
            assert(branch.label.union(Set::<TagModel>::empty()) =~= branch.label);
        }
    }
}

/// A branch that waits for the end of one construct is not lost when another
/// one ends, nor when one of the same kind inside of it does.
pub proof fn law_outer_deferral_survives(m: BranchModel, target: TargetModel, i: int)
    requires
        0 <= i < m.deferred.len(),
        m.deferred[i].until != target || m.deferred[i].at_depth <= m.depth,
    ensures
        m.triggered(target).deferred.contains(m.deferred[i]),
{
    let keeps = |d: DeferredModel| m.outlasts(d, target);
    broadcast use vstd::seq_lib::group_filter_ensures;

    assert(keeps(m.deferred[i]));
}

/// A branch that was deferred inside of a construct is gone once the construct
/// for which it waits has ended.
pub proof fn law_deferral_ends(m: BranchModel, target: TargetModel, d: DeferredModel)
    requires
        d.until == target,
        d.at_depth > m.depth,
    ensures
        !m.triggered(target).deferred.contains(d),
{
    let keeps = |x: DeferredModel| m.outlasts(x, target);
    broadcast use vstd::seq_lib::group_filter_ensures;

    let kept = m.deferred.filter(keeps);
    if kept.contains(d) {
        let k = choose|k: int| 0 <= k < kept.len() && kept[k] == d;
        assert(keeps(kept[k]));
    }
}

} // verus!
