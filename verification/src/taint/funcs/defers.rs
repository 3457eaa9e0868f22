//! Calls that are put off until a function is left.

use vstd::prelude::*;

use crate::ast::Annotation;
use crate::context::branches::BranchState;
use crate::context::{AnalysisContext, ContextModel};
use crate::functions::FunctionRef;
use crate::labels::backtraces::{trace_of, LabelBacktrace, LabelBacktraceKind, Trace};
use crate::ordered::Ordered;
use crate::locations::Location;
use crate::symbols::summaries_of;
use crate::taint::funcs::call_application::{apply_resolved_call, call_model, is_well_declared,
    unknown_like, CallCaptureConcretes};
use crate::taint::funcs::call_checks::{can_handle, can_judge};
use crate::taint::funcs::call_resolution::ResolvedCall;
use crate::taint::funcs::outcomes::optional_values;
use crate::taint::funcs::{FunctionSummary, SummaryModel};
use crate::taint::implicit::{leave_condition, left_if};
use crate::values::{merged, values_of, TypeKind, Value, ValueForm, ValueModel};

verus! {

/// A call that is put off.
#[derive(Debug)]
pub struct DeferredCall {
    /// The number of the call.
    pub call: usize,
    /// What decided whether it is put off.
    pub captured_branch_backtrace: Option<LabelBacktrace>,
}

/// What a [`DeferredCall`] stands for.
#[verifier::ext_equal]
pub struct DeferredModel {
    pub call: usize,
    pub branch: Option<Trace>,
}

impl View for DeferredCall {
    type V = DeferredModel;

    open spec fn view(&self) -> DeferredModel {
        DeferredModel { call: self.call, branch: trace_of(self.captured_branch_backtrace) }
    }
}

/// What a list of calls that are put off stands for.
pub open spec fn deferred_of(s: Seq<DeferredCall>) -> Seq<DeferredModel> {
    s.map_values(|c: DeferredCall| c@)
}

/// The calls that are put off, for each of the functions that are being
/// visited.
#[derive(Debug)]
pub struct DeferredCalls {
    frames: Vec<Vec<DeferredCall>>,
}

impl View for DeferredCalls {
    type V = Seq<Seq<DeferredModel>>;

    closed spec fn view(&self) -> Seq<Seq<DeferredModel>> {
        self.frames@.map_values(|f: Vec<DeferredCall>| deferred_of(f@))
    }
}

impl DeferredCalls {
    /// No function is being visited.
    pub fn new() -> (r: Self)
        ensures
            r@ == Seq::<Seq<DeferredModel>>::empty(),
    {
        let r = DeferredCalls { frames: Vec::new() };
        proof {
            assert(r@ =~= Seq::<Seq<DeferredModel>>::empty());
        }
        r
    }

    /// Enters a function.
    pub fn push_frame(&mut self)
        ensures
            final(self)@ == old(self)@.push(Seq::<DeferredModel>::empty()),
    {
        let ghost before = self@;
        let frame: Vec<DeferredCall> = Vec::new();
        proof {
            assert(deferred_of(frame@) =~= Seq::<DeferredModel>::empty());
        }
        self.frames.push(frame);
        proof {
            assert(self@ =~= before.push(Seq::<DeferredModel>::empty()));
        }
    }

    /// Leaves a function.
    pub fn pop_frame(&mut self)
        ensures
            final(self)@ == if old(self)@.len() > 0 {
                old(self)@.drop_last()
            } else {
                old(self)@
            },
    {
        let ghost before = self@;
        let _frame = self.frames.pop();
        proof {
            if before.len() > 0 {
                assert(self@ =~= before.drop_last());
            } else {
                assert(self@ =~= before);
            }
        }
    }

    /// Puts off a call, with what decides whether that is done. Outside of any
    /// function nothing is put off.
    pub fn register_deferred_call(&mut self, branches: &BranchState, call: usize)
        ensures
            final(self)@ == if old(self)@.len() > 0 {
                old(self)@.update(
                    old(self)@.len() - 1,
                    old(self)@.last().push(
                        DeferredModel { call, branch: branches@.current() },
                    ),
                )
            } else {
                old(self)@
            },
    {
        let ghost before = self@;
        let n: usize = self.frames.len();
        proof {
            assert(before.len() == n);
        }
        if n == 0 {
            return;
        }
        let captured_branch_backtrace = match branches.branch_backtrace() {
            Some(b) => Some(b.clone()),
            None => None,
        };
        let mut top = self.frames.remove(n - 1);
        let ghost calls = deferred_of(top@);
        let pending = DeferredCall { call, captured_branch_backtrace };
        let ghost m = pending@;
        top.push(pending);
        proof {
            assert(deferred_of(top@) =~= calls.push(m));
        }
        self.frames.insert(n - 1, top);
        proof {
            assert(calls == before.last());
            assert(self@ =~= before.update(n - 1, calls.push(m)));
        }
    }

    /// Takes the calls that are put off, in the order in which they are made:
    /// the last one comes first.
    pub fn take_deferred_calls(&mut self) -> (r: Vec<DeferredCall>)
        ensures
            old(self)@.len() > 0 ==> deferred_of(r@) == old(self)@.last().reverse(),
            old(self)@.len() > 0 ==> final(self)@ == old(self)@.update(
                old(self)@.len() - 1,
                Seq::<DeferredModel>::empty(),
            ),
            old(self)@.len() == 0 ==> r@.len() == 0 && final(self)@ == old(self)@,
    {
        let ghost before = self@;
        let n: usize = self.frames.len();
        proof {
            assert(before.len() == n);
        }
        let mut r: Vec<DeferredCall> = Vec::new();
        if n == 0 {
            return r;
        }
        let mut left = self.frames.remove(n - 1);
        let ghost all = left@;
        let frame: Vec<DeferredCall> = Vec::new();
        proof {
            assert(deferred_of(frame@) =~= Seq::<DeferredModel>::empty());
        }
        self.frames.insert(n - 1, frame);
        proof {
            assert(deferred_of(all) == before.last());
            assert(self@ =~= before.update(n - 1, Seq::<DeferredModel>::empty()));
            assert(all.take(all.len() as int) =~= all);
        }
        let count: usize = left.len();
        let mut i: usize = 0;
        while i < count
            invariant
                i <= count,
                count == all.len(),
                left@ == all.take(count - i),
                r@.len() == i,
                forall|k: int| 0 <= k < i ==> #[trigger] r@[k] == all[count - 1 - k],
            decreases count - i,
        {
            match left.pop() {
                Some(call) => {
                    proof {
                        assert(call == all[count - 1 - i]);
                        assert(left@ =~= all.take(count - (i + 1)));
                    }
                    r.push(call);
                },
                None => {
                    proof {
                        assert(false);
                    }
                },
            }
            i = i + 1;
        }
        proof {
            assert(deferred_of(r@) =~= before.last().reverse());
        }
        r
    }
}

/// An argument of a call that is put off, as it is when the call is made: what
/// it was, or what the variable behind it is now.
pub open spec fn observed(saved: ValueModel, current: ValueModel) -> ValueModel {
    merged(
        saved,
        ValueModel { location: saved.location, ..current },
        LabelBacktraceKind::Expression,
        saved.location,
    )
}

/// An argument of a call that is put off, as it is when the call is made.
pub fn observe_referent(saved: &Value, current: &Value) -> (r: Value)
    ensures
        r@ == observed(saved@, current@),
{
    let mut now = current.clone();
    now.set_location(saved.location.duplicate());
    saved.merge_with(&now, LabelBacktraceKind::Expression, &saved.location)
}

/// The arguments of a call that is put off, as they are when the call is made.
pub open spec fn all_observed(
    saved: Seq<ValueModel>,
    currents: Seq<Option<ValueModel>>,
) -> Seq<ValueModel> {
    Seq::new(
        saved.len(),
        |i: int|
            if i < currents.len() && currents[i] is Some {
                observed(saved[i], currents[i]->0)
            } else {
                saved[i]
            },
    )
}

/// The arguments of a call that is put off, as they are when the call is made:
/// for each of them the value of the variable behind it is given, if it may
/// have changed since.
pub fn observe_referents(saved: &Vec<Value>, currents: &Vec<Option<Value>>) -> (r: Vec<Value>)
    ensures
        values_of(r@) == all_observed(values_of(saved@), optional_values(currents@)),
{
    let ghost goal = all_observed(values_of(saved@), optional_values(currents@));
    let mut r: Vec<Value> = Vec::new();
    let n: usize = saved.len();
    let mut i: usize = 0;
    while i < n
        invariant
            i <= n,
            n == saved@.len(),
            goal == all_observed(values_of(saved@), optional_values(currents@)),
            r@.len() == i,
            forall|k: int| 0 <= k < i ==> (#[trigger] r@[k])@ == goal[k],
        decreases n - i,
    {
        let value = if i < currents.len() {
            proof {
                assert(optional_values(currents@)[i as int] is Some == currents@[i as int] is Some);
            }
            match &currents[i] {
                Some(v) => observe_referent(&saved[i], v),
                None => saved[i].clone(),
            }
        } else {
            saved[i].clone()
        };
        r.push(value);
        i = i + 1;
    }
    proof {
        assert(values_of(r@) =~= goal);
    }
    r
}

/// Whether values of a type share what they are made of with copies of them.
pub open spec fn shares_state(kind: TypeKind) -> bool {
    kind is Mapping || kind is Slice || kind is Channel
}

/// Whether an argument may share what it is made of with a variable: its
/// address is taken, or it or its type is one of those that do.
pub open spec fn may_share(
    v: ValueModel,
    takes_address: bool,
    is_pointer: bool,
    parameter_shares: bool,
) -> bool {
    ||| takes_address
    ||| v.form is Mapping || v.form is Slice || v.form is Channel
    ||| is_pointer
    ||| v.declared_type is Some && shares_state(v.declared_type->0.kind)
    ||| parameter_shares
}

/// Whether an argument may share what it is made of with a variable.
/// `is_pointer` says whether its type is one of pointers, and
/// `parameter_shares` whether that of the parameter shares state.
pub fn argument_may_share_mutable_state(
    value: &Value,
    takes_address: bool,
    is_pointer: bool,
    parameter_shares: bool,
) -> (r: bool)
    ensures
        r == may_share(value@, takes_address, is_pointer, parameter_shares),
{
    let by_form = match &value.form {
        ValueForm::Mapping | ValueForm::Slice | ValueForm::Channel => true,
        _ => false,
    };
    let by_type = match &value.declared_type {
        Some(t) => match t.kind {
            TypeKind::Mapping | TypeKind::Slice | TypeKind::Channel => true,
            _ => false,
        },
        None => false,
    };
    takes_address || by_form || is_pointer || by_type || parameter_shares
}

/// The state in which a call that was put off is applied: that depends on what
/// decided whether it was put off.
pub open spec fn under_deferred(ctx: ContextModel, branch: Option<Trace>) -> ContextModel {
    match branch {
        Some(t) => ContextModel { branches: ctx.branches.entered(t), ..ctx },
        None => ctx,
    }
}

/// Whether a call can be applied in a state.
pub open spec fn call_fits(
    ctx: ContextModel,
    func: SummaryModel,
    call: ResolvedCall,
    captures: CallCaptureConcretes,
    yield_owner: Option<&FunctionRef>,
    location: Location,
) -> bool {
    let m = call_model(call, captures, yield_owner, location);
    &&& !call.as_blackbox ==> (func.signature matches Some(s) ==> s.admits(call.args@.len())
        && is_well_declared(s))
    &&& can_judge(ctx, m.flows())
    &&& !call.as_blackbox && func.signature is Some ==> can_handle(
        ctx,
        func.deferred_checks,
        func.func,
        m.check_substitutions(ctx, func),
    )
}

/// The state and the function once a call that was put off is applied, and its
/// results.
#[verifier::opaque]
pub open spec fn deferred_applied(
    ctx: ContextModel,
    func: SummaryModel,
    branch: Option<Trace>,
    call: ResolvedCall,
    annotation: Option<&Annotation>,
    captures: CallCaptureConcretes,
    yield_owner: Option<&FunctionRef>,
    location: Location,
) -> (ContextModel, SummaryModel, Seq<ValueModel>) {
    let inside = under_deferred(ctx, branch);
    let m = call_model(call, captures, yield_owner, location);
    let f = if call.as_blackbox {
        unknown_like(func)
    } else {
        func
    };
    let after = m.applied(inside, f, annotation);
    (
        ContextModel { branches: left_if(after.branches, branch is Some), ..after },
        SummaryModel {
            call_count: func.call_count + if !call.as_blackbox && m.counts(f) {
                1nat
            } else {
                0nat
            },
            ..func
        },
        m.results(inside, f),
    )
}

/// Applies a call that was put off, with the arguments that it then has.
pub fn apply_deferred_call(
    ctx: &mut AnalysisContext,
    func: &mut FunctionSummary,
    deferred: DeferredCall,
    call: &ResolvedCall,
    annotation: Option<&Annotation>,
    captures: &CallCaptureConcretes,
    yield_owner: Option<&FunctionRef>,
    location: Location,
) -> (r: Vec<Value>)
    requires
        old(ctx).wf(),
        old(ctx)@.log.file is Some,
        old(func).wf(),
        old(func).call_count < usize::MAX,
        call_fits(
            under_deferred(old(ctx)@, deferred@.branch),
            old(func)@,
            *call,
            *captures,
            yield_owner,
            location,
        ),
    ensures
        final(ctx).wf(),
        final(func).wf(),
        (final(ctx)@, final(func)@, values_of(r@)) == deferred_applied(
            old(ctx)@,
            old(func)@,
            deferred@.branch,
            *call,
            annotation,
            *captures,
            yield_owner,
            location,
        ),
{
    proof {
        reveal(deferred_applied);
    }
    let ghost start = ctx@;
    let ghost branch = deferred@.branch;
    let installed = deferred.captured_branch_backtrace.is_some();
    if let Some(b) = deferred.captured_branch_backtrace {
        ctx.branches.push_branch_backtrace(b);
    }
    proof {
        assert(ctx@ =~= under_deferred(start, branch));
    }
    let r = apply_resolved_call(ctx, func, call, annotation, captures, yield_owner, location);
    let ghost after = ctx@;
    leave_condition(&mut ctx.branches, installed);
    proof {
        assert(ctx@ =~= ContextModel {
            branches: left_if(after.branches, branch is Some),
            ..after
        });
    }
    r
}

/// A call that was put off, with all that is known by the time at which it is
/// applied.
#[derive(Debug)]
pub struct PendingCall {
    /// The call that was put off.
    pub deferred: DeferredCall,
    /// The position of the function that is called.
    pub func: usize,
    /// The arguments, as they then are.
    pub call: ResolvedCall,
    /// What stands before the call.
    pub annotation: Option<Annotation>,
    /// What the captured symbols carry.
    pub captures: CallCaptureConcretes,
    /// The function that is ranged over, if the call hands it a value.
    pub yield_owner: Option<FunctionRef>,
    /// Where the call stands.
    pub location: Location,
}

/// What an optional thing holds, by reference.
pub open spec fn by_reference<T>(o: &Option<T>) -> Option<&T> {
    match o {
        Some(x) => Some(x),
        None => None,
    }
}

impl PendingCall {
    /// The state and the functions once the call is applied.
    #[verifier::opaque]
    pub open spec fn applied(self, s: (ContextModel, Seq<SummaryModel>)) -> (
        ContextModel,
        Seq<SummaryModel>,
    ) {
        let r = deferred_applied(
            s.0,
            s.1[self.func as int],
            self.deferred@.branch,
            self.call,
            by_reference(&self.annotation),
            self.captures,
            by_reference(&self.yield_owner),
            self.location,
        );
        (r.0, s.1.update(self.func as int, r.1))
    }

    /// Whether the call can be applied in a state.
    #[verifier::opaque]
    pub open spec fn fits(self, s: (ContextModel, Seq<SummaryModel>)) -> bool {
        &&& s.0.log.file is Some
        &&& self.func < s.1.len()
        &&& s.1[self.func as int].call_count < usize::MAX
        &&& call_fits(
            under_deferred(s.0, self.deferred@.branch),
            s.1[self.func as int],
            self.call,
            self.captures,
            by_reference(&self.yield_owner),
            self.location,
        )
    }
}

/// The state and the functions once the calls that were put off have been
/// applied, from the last one down to a position.
pub open spec fn replayed(
    s: (ContextModel, Seq<SummaryModel>),
    calls: Seq<PendingCall>,
    from: int,
) -> (ContextModel, Seq<SummaryModel>)
    decreases calls.len() - from,
{
    if from >= calls.len() {
        s
    } else {
        calls[from].applied(replayed(s, calls, from + 1))
    }
}

/// Whether the calls that were put off can be applied one after the other.
pub open spec fn all_fit(
    s: (ContextModel, Seq<SummaryModel>),
    calls: Seq<PendingCall>,
) -> bool {
    forall|k: int|
        0 <= k < calls.len() ==> (#[trigger] calls[k]).fits(replayed(s, calls, k + 1))
}

/// Whether what is known of all functions is what the analysis can produce.
pub open spec fn all_wf(funcs: Seq<FunctionSummary>) -> bool {
    forall|i: int| 0 <= i < funcs.len() ==> (#[trigger] funcs[i]).wf()
}

fn apply_pending(
    ctx: &mut AnalysisContext,
    funcs: &mut Vec<FunctionSummary>,
    pending: PendingCall,
)
    requires
        old(ctx).wf(),
        all_wf(old(funcs)@),
        pending.fits((old(ctx)@, summaries_of(old(funcs)@))),
    ensures
        final(ctx).wf(),
        all_wf(final(funcs)@),
        (final(ctx)@, summaries_of(final(funcs)@)) == pending.applied(
            (old(ctx)@, summaries_of(old(funcs)@)),
        ),
{
    let ghost before = (ctx@, summaries_of(funcs@));
    proof {
        reveal(PendingCall::fits);
        reveal(PendingCall::applied);
        assert(before.1.len() == funcs@.len());
        assert(before.1[pending.func as int] == funcs@[pending.func as int]@);
    }
    let ghost expected = pending.applied(before);
    let at: usize = pending.func;
    let mut func = funcs.remove(at);
    let _results = apply_deferred_call(
        ctx,
        &mut func,
        pending.deferred,
        &pending.call,
        pending.annotation.as_ref(),
        &pending.captures,
        pending.yield_owner.as_ref(),
        pending.location,
    );
    funcs.insert(at, func);
    proof {
        assert(summaries_of(funcs@) =~= expected.1);
    }
}

/// Applies the calls that were put off, the one that was put off last first.
pub fn apply_deferred_calls(
    ctx: &mut AnalysisContext,
    funcs: &mut Vec<FunctionSummary>,
    calls: Vec<PendingCall>,
)
    requires
        old(ctx).wf(),
        all_wf(old(funcs)@),
        all_fit((old(ctx)@, summaries_of(old(funcs)@)), calls@),
    ensures
        final(ctx).wf(),
        all_wf(final(funcs)@),
        (final(ctx)@, summaries_of(final(funcs)@)) == replayed(
            (old(ctx)@, summaries_of(old(funcs)@)),
            calls@,
            0,
        ),
{
    let ghost start = (ctx@, summaries_of(funcs@));
    let ghost all = calls@;
    let mut calls = calls;
    let mut n: usize = calls.len();
    while n > 0
        invariant
            n == calls@.len(),
            n <= all.len(),
            calls@ == all.take(n as int),
            all_fit(start, all),
            ctx.wf(),
            all_wf(funcs@),
            (ctx@, summaries_of(funcs@)) == replayed(start, all, n as int),
        decreases n,
    {
        n = n - 1;
        let pending = calls.remove(n);
        proof {
            assert(pending == all[n as int]);
            assert(all[n as int].fits(replayed(start, all, n + 1)));
            assert(calls@ =~= all.take(n as int));
        }
        apply_pending(ctx, funcs, pending);
    }
}

/// Calls that were put off are applied in the reverse of the order in which they
/// were: the one that was put off first comes last.
pub proof fn law_first_deferred_is_applied_last(
    s: (ContextModel, Seq<SummaryModel>),
    first: PendingCall,
    others: Seq<PendingCall>,
)
    ensures
        replayed(s, seq![first] + others, 0) == first.applied(replayed(s, others, 0)),
{
    let all = seq![first] + others;
    lemma_shifted(s, first, others, 1);
    assert(all[0] == first);
}

proof fn lemma_shifted(
    s: (ContextModel, Seq<SummaryModel>),
    first: PendingCall,
    others: Seq<PendingCall>,
    from: int,
)
    requires
        1 <= from <= others.len() + 1,
    ensures
        replayed(s, seq![first] + others, from) == replayed(s, others, from - 1),
    decreases others.len() + 1 - from,
{
    let all = seq![first] + others;
    if from <= others.len() {
        lemma_shifted(s, first, others, from + 1);
        assert(all[from] == others[from - 1]);
    }
}

} // verus!
