//! Functions and their bodies.

use vstd::prelude::*;

use crate::ast::{FunctionShape, Node};
use crate::context::declarations::SplitRegions;
use crate::context::loops::LoopStack;
use crate::context::AnalysisContext;
use crate::decls::is_in_package;
use crate::functions::{FunctionModel, FunctionRef};
use crate::labels::backtraces::{trace_of, LabelBacktrace, Trace};
use crate::locations::{Location, Pinned, PinnedModel, Span, SpanModel};
use crate::symbols::table::SymbolTable;
use crate::taint::channels::selects::{find_readiness, readiness};
use crate::taint::explicit::spans_of;
use crate::taint::funcs::definitions::names_of_params;
use crate::taint::funcs::defers::by_reference;
use crate::taint::implicit::{bind_switch_value, switch_bound, Place, PlaceModel};
use crate::taint::visits::bodies::pinned_of;
use crate::taint::visits::calls::{apply_call_operands, call_applied, CallOperands, OperandsModel};
use crate::taint::visits::exprs::{single_visited, visit_single_expr};
use crate::taint::visits::performing::{bind_range, communicate, communicated,
    communication_prepared, derive_range, last_of, perform, performed, prepare_communication,
    prepare_range, range_bound, range_prepared, Kept, KeptModel};
use crate::taint::visits::Env;
use crate::taint::walks::choices::{walk_of, walked};
use crate::taint::walks::{Action, ActionModel, TaskModel, Walk, WalkModel};
use crate::values::{carried, types_of};

verus! {

/// A call that is put off until a function is left.
#[derive(Debug)]
pub struct Pending<'a> {
    /// The call.
    pub call: CallOperands,
    /// Under which conditions it is reached.
    pub branch: Option<LabelBacktrace>,
    /// The statement that puts it off.
    pub node: &'a Node,
}

/// What a [`Pending`] stands for.
#[verifier::ext_equal]
pub struct PendingModel {
    pub call: OperandsModel,
    pub branch: Option<Trace>,
    pub node: Node,
}

impl<'a> View for Pending<'a> {
    type V = PendingModel;

    open spec fn view(&self) -> PendingModel {
        PendingModel { call: self.call@, branch: trace_of(self.branch), node: *self.node }
    }
}

/// What is to be remembered in the body of a function.
#[derive(Debug)]
pub struct Memory<'a> {
    /// What loops and select statements work with.
    pub kept: Vec<Kept>,
    /// The calls that are put off.
    pub pending: Vec<Pending<'a>>,
}

/// What a [`Memory`] stands for.
#[verifier::ext_equal]
pub struct MemoryModel {
    pub kept: Seq<KeptModel>,
    pub pending: Seq<PendingModel>,
}

/// What calls that are put off stand for.
pub open spec fn pending_of(s: Seq<Pending<'_>>) -> Seq<PendingModel> {
    s.map_values(|p: Pending| p@)
}

impl<'a> View for Memory<'a> {
    type V = MemoryModel;

    open spec fn view(&self) -> MemoryModel {
        MemoryModel {
            kept: self.kept@.map_values(|k: Kept| k@),
            pending: pending_of(self.pending@),
        }
    }
}

/// Whether the arguments of calls are as many as what is known of them.
pub open spec fn are_even(s: Seq<Pending<'_>>) -> bool {
    forall|i: int|
        0 <= i < s.len() ==> (#[trigger] s[i]).call.args@.len() == s[i].call.consts@.len()
}

/// What is kept for a statement, of which the latest counts.
pub open spec fn kept_for(kept: Seq<KeptModel>, location: Location) -> Option<KeptModel>
    decreases kept.len(),
{
    if kept.len() == 0 {
        None
    } else if kept.last().location == location {
        Some(kept.last())
    } else {
        kept_for(kept.drop_last(), location)
    }
}

impl MemoryModel {
    /// The memory with something more that is kept.
    pub open spec fn keeping(self, k: Option<KeptModel>) -> MemoryModel {
        match k {
            Some(k) => MemoryModel { kept: self.kept.push(k), ..self },
            None => self,
        }
    }

    /// The memory with one more call that is put off.
    pub open spec fn putting_off(
        self,
        call: Option<OperandsModel>,
        branch: Option<Trace>,
        node: Node,
    ) -> MemoryModel {
        match call {
            Some(call) => MemoryModel {
                pending: self.pending.push(PendingModel { call, branch, node }),
                ..self
            },
            None => self,
        }
    }
}

/// What a walk has come to once what it asks for is done: the place, the memory,
/// and the answer.
#[verifier::opaque]
pub open spec fn acted(
    env: Env<'_>,
    p: PlaceModel,
    m: MemoryModel,
    action: ActionModel,
    names: Seq<SpanModel>,
    limit: nat,
) -> (PlaceModel, MemoryModel, Option<Trace>)
{
    match action {
        ActionModel::Evaluate(node) => {
            let (q, value) = single_visited(env, p, node, limit);
            (q, m, carried(value))
        },
        ActionModel::Bind(node) => if node.children@.len() == 1 && node.names@.len() > 0 {
            let (q, value) = single_visited(env, p, node.children@[0], limit);
            let (ctx, table) = switch_bound(q.ctx, q.table, node.names@[0]@, value);
            (PlaceModel { ctx, table, ..q }, m, carried(value))
        } else {
            (p.stopped(), m, None)
        },
        ActionModel::Perform(node) => {
            let (q, call) = performed(env, p, node, names, limit);
            (q, m.putting_off(call, q.ctx.branches.current(), node), None)
        },
        ActionModel::PrepareRange(node) => {
            let (q, kept) = range_prepared(env, p, node, limit);
            (q, m.keeping(kept), None)
        },
        ActionModel::DeriveRange(node) => match kept_for(m.kept, node.location) {
            Some(k) => (p, m, carried(p.ranged(k.operand, last_of(node)))),
            None => (p.stopped(), m, None),
        },
        ActionModel::BindRange(node) => match kept_for(m.kept, node.location) {
            Some(k) => (range_bound(env, p, node, k, limit), m, None),
            None => (p.stopped(), m, None),
        },
        ActionModel::Prepare(node) => {
            let (q, kept) = communication_prepared(env, p, node, limit);
            (
                q,
                m.keeping(kept),
                match kept {
                    Some(k) => readiness(k.operand),
                    None => None,
                },
            )
        },
        ActionModel::Communicate(node) => match kept_for(m.kept, node.location) {
            Some(k) => (communicated(env, p, node, k, limit), m, None),
            None => (p.stopped(), m, None),
        },
        _ => (p, m, None),
    }
}

/// Whether one place is as deep inside as another.
pub open spec fn is_as_deep(q: PlaceModel, p: PlaceModel) -> bool {
    &&& p.ctx.branches.depth <= q.ctx.branches.depth
    &&& p.ctx.log.suppression <= q.ctx.log.suppression
}

/// What a walk comes to in so many rounds.
pub open spec fn run_on(
    env: Env<'_>,
    w: WalkModel,
    m: MemoryModel,
    answer: Option<Trace>,
    names: Seq<SpanModel>,
    left: nat,
    limit: nat,
) -> (PlaceModel, MemoryModel)
    decreases left,
{
    if left == 0 {
        (w.place.stopped(), m)
    } else {
        let (v, action) = walked(w, answer, limit);
        if action is Finish {
            (v.place, m)
        } else if action is Nothing {
            (v.place.stopped(), m)
        } else {
            let (q, n, given) = acted(env, v.place, m, action, names, limit);
            if is_as_deep(q, v.place) {
                run_on(env, v.moved(q), n, given, names, (left - 1) as nat, limit)
            } else {
                (q.stopped(), n)
            }
        }
    }
}

/// The place once the calls that are put off are made, the last one first.
pub open spec fn calls_made(p: PlaceModel, pending: Seq<PendingModel>, limit: nat) -> PlaceModel
    decreases pending.len(),
{
    if pending.len() == 0 {
        p
    } else {
        let d = pending.last();
        let q = call_applied(
            p.on_branch(d.branch),
            d.call,
            by_reference(&d.node.annotation),
            limit,
        ).0.off_branch(d.branch);
        calls_made(q, pending.drop_last(), limit)
    }
}

/// Nothing is remembered.
pub open spec fn blank() -> MemoryModel {
    MemoryModel { kept: Seq::<KeptModel>::empty(), pending: Seq::<PendingModel>::empty() }
}

/// The place once the body of a function is visited, and the calls that are put
/// off until then.
pub open spec fn body_run(
    env: Env<'_>,
    p: PlaceModel,
    task: TaskModel,
    names: Seq<SpanModel>,
    limit: nat,
) -> (PlaceModel, MemoryModel)
{
    run_on(env, walk_of(p, task), blank(), None, names, limit, limit)
}

/// The place once a function is visited.
#[verifier::opaque]
pub open spec fn function_visited(
    env: Env<'_>,
    p: PlaceModel,
    func: FunctionModel,
    name: Option<PinnedModel<SpanModel>>,
    node: Node,
    shape: FunctionShape,
    at: PinnedModel<Location>,
    limit: nat,
) -> PlaceModel
{
    if !is_in_package(p.table) {
        p.stopped()
    } else {
        let q = p.function_defined(env, func, name, shape, by_reference(&node.annotation), at);
        if node.children@.len() == 0 {
            q
        } else if limit == 0 || !q.has_room() || q.ctx.branches.depth >= 255 {
            q.stopped()
        } else {
            let own = p.table.functions.len() as usize;
            let body = node.children@[0];
            let ids = spans_of(shape.result_names@);
            let r = q.function_opened(
                func,
                by_reference(&shape.receiver),
                names_of_params(shape.signature@.params),
                types_of(shape.param_types@),
                shape.results@,
                at,
            ).captures_registered(func, own, node.names@, body, at);
            let (s, m) = body_run(env, r, TaskModel::Body(body), ids, (limit - 1) as nat);
            s.function_left(func, own, ids, m.pending, node.location, (limit - 1) as nat)
        }
    }
}

impl PlaceModel {
    /// The place once the body of a function is left.
    pub open spec fn function_left(
        self,
        func: FunctionModel,
        own: usize,
        ids: Seq<SpanModel>,
        pending: Seq<PendingModel>,
        location: Location,
        limit: nat,
    ) -> PlaceModel {
        if own < self.table.functions.len() {
            let r = calls_made(self.results_prepared(own, ids, location), pending, limit);
            let s = r.fallbacks_recorded(own);
            if own < s.table.functions.len() && s.ctx.branches.depth > 0 {
                s.function_closed(func, own, ids, location).function_put_away()
            } else {
                s.stopped()
            }
        } else {
            self.stopped()
        }
    }
}

impl<'a> Memory<'a> {
    /// Nothing is remembered.
    pub fn new() -> (r: Self)
        ensures
            r@ == blank(),
            are_even(r.pending@),
    {
        let r = Memory { kept: Vec::new(), pending: Vec::new() };
        proof {
            assert(r@ =~= blank());
        }
        r
    }

    fn keep(&mut self, k: Option<Kept>)
        requires
            are_even(old(self).pending@),
        ensures
            are_even(final(self).pending@),
            final(self)@ == old(self)@.keeping(
                match k {
                    Some(k) => Some(k@),
                    None => None,
                },
            ),
    {
        let ghost before = self@;
        if let Some(k) = k {
            let ghost m = k@;
            self.kept.push(k);
            proof {
                assert(self@ =~= before.keeping(Some(m)));
            }
        }
    }

    fn put_off(&mut self, call: Option<CallOperands>, branch: Option<LabelBacktrace>, node: &'a Node)
        requires
            are_even(old(self).pending@),
            call matches Some(c) ==> c.args@.len() == c.consts@.len(),
        ensures
            are_even(final(self).pending@),
            final(self)@ == old(self)@.putting_off(
                match call {
                    Some(c) => Some(c@),
                    None => None,
                },
                trace_of(branch),
                *node,
            ),
    {
        let ghost before = self@;
        let ghost b = trace_of(branch);
        if let Some(call) = call {
            let ghost m = call@;
            self.pending.push(Pending { call, branch, node });
            proof {
                assert(self@ =~= before.putting_off(Some(m), b, *node));
            }
        }
    }

    fn find(&self, location: Location) -> (r: Option<&Kept>)
        ensures
            kept_for(self@.kept, location) == match r {
                Some(k) => Some(k@),
                None => None,
            },
    {
        let mut i: usize = self.kept.len();
        let ghost all = self@.kept;
        proof {
            assert(all.take(all.len() as int) =~= all);
        }
        while i > 0
            invariant
                i <= self.kept@.len(),
                all == self@.kept,
                kept_for(all, location) == kept_for(all.take(i as int), location),
            decreases i,
        {
            proof {
                assert(all.take(i as int).last() == self.kept@[i - 1]@);
                assert(all.take(i as int).drop_last() =~= all.take(i - 1));
            }
            if self.kept[i - 1].location == location {
                return Some(&self.kept[i - 1]);
            }
            i = i - 1;
        }
        None
    }
}

fn act<'a>(
    env: &Env<'_>,
    place: &mut Place,
    memory: &mut Memory<'a>,
    action: Action<'a>,
    names: &Vec<Span>,
    limit: usize,
) -> (r: Option<LabelBacktrace>)
    requires
        old(place).wf(),
        are_even(old(memory).pending@),
    ensures
        final(place).wf(),
        are_even(final(memory).pending@),
        (final(place)@, final(memory)@, trace_of(r)) == acted(
            *env,
            old(place)@,
            old(memory)@,
            action@,
            spans_of(names@),
            limit as nat,
        ),
{
    proof {
        reveal(acted);
    }
    match action {
        Action::Evaluate(node) => visit_single_expr(env, place, node, limit).backtrace(),
        Action::Bind(node) => {
            if node.children.len() == 1 && node.names.len() > 0 {
                let value = visit_single_expr(env, place, &node.children[0], limit);
                let ghost q = place@;
                let ghost v = value@;
                let given = value.backtrace();
                bind_switch_value(&mut place.ctx, &mut place.table, &node.names[0], value);
                proof {
                    let (ctx, table) = switch_bound(q.ctx, q.table, node.names@[0]@, v);
                    assert(place@ =~= PlaceModel { ctx, table, ..q });
                }
                given
            } else {
                let _none = place.give_up();
                None
            }
        },
        Action::Perform(node) => {
            let call = perform(env, place, node, names, limit);
            let branch = match place.ctx.branches.branch_backtrace() {
                Some(b) => Some(b.clone()),
                None => None,
            };
            memory.put_off(call, branch, node);
            None
        },
        Action::PrepareRange(node) => {
            let kept = prepare_range(env, place, node, limit);
            memory.keep(kept);
            None
        },
        Action::DeriveRange(node) => match memory.find(node.location) {
            Some(k) => derive_range(place, node, k),
            None => {
                let _none = place.give_up();
                None
            },
        },
        Action::BindRange(node) => {
            match memory.find(node.location) {
                Some(k) => {
                    bind_range(env, place, node, k, limit);
                },
                None => {
                    let _none = place.give_up();
                },
            }
            None
        },
        Action::Prepare(node) => {
            let kept = prepare_communication(env, place, node, limit);
            let given = match &kept {
                Some(k) => find_readiness(&k.operand),
                None => None,
            };
            memory.keep(kept);
            given
        },
        Action::Communicate(node) => {
            match memory.find(node.location) {
                Some(k) => {
                    communicate(env, place, node, k, limit);
                },
                None => {
                    let _none = place.give_up();
                },
            }
            None
        },
        Action::Nothing | Action::Finish => None,
    }
}

fn run<'a>(
    env: &Env<'_>,
    walk: &mut Walk<'a>,
    memory: &mut Memory<'a>,
    names: &Vec<Span>,
    limit: usize,
)
    requires
        old(walk).wf(),
        are_even(old(memory).pending@),
    ensures
        final(walk).place.wf(),
        are_even(final(memory).pending@),
        (final(walk).place@, final(memory)@) == run_on(
            *env,
            old(walk)@,
            old(memory)@,
            None,
            spans_of(names@),
            limit as nat,
            limit as nat,
        ),
{
    let ghost goal = run_on(
        *env,
        walk@,
        memory@,
        None,
        spans_of(names@),
        limit as nat,
        limit as nat,
    );
    let mut answer: Option<LabelBacktrace> = None;
    let mut left: usize = limit;
    while left > 0
        invariant
            walk.wf(),
            are_even(memory.pending@),
            left <= limit,
            goal == run_on(
                *env,
                old(walk)@,
                old(memory)@,
                None,
                spans_of(names@),
                limit as nat,
                limit as nat,
            ),
            goal == run_on(
                *env,
                walk@,
                memory@,
                trace_of(answer),
                spans_of(names@),
                left as nat,
                limit as nat,
            ),
        decreases left,
    {
        let action = walk.advance(answer, limit);
        let (finished, nothing) = match &action {
            Action::Finish => (true, false),
            Action::Nothing => (false, true),
            _ => (false, false),
        };
        if finished {
            return;
        }
        if nothing {
            let _none = walk.place.give_up();
            return;
        }
        let depth: u8 = walk.place.ctx.branches.branch_scope_depth();
        let quiet: u8 = walk.place.ctx.log.error_suppression_depth();
        let ghost v = walk@;
        let given = act(env, &mut walk.place, memory, action, names, limit);
        if walk.place.ctx.branches.branch_scope_depth() < depth
            || walk.place.ctx.log.error_suppression_depth() < quiet {
            let _none = walk.place.give_up();
            return;
        }
        proof {
            assert(walk@ =~= v.moved(walk.place@));
        }
        answer = given;
        left = left - 1;
    }
    let _none = walk.place.give_up();
}

/// Visits the body of a function. Returns the calls that are put off.
pub fn visit_body<'a>(
    env: &Env<'_>,
    place: &mut Place,
    body: &'a Node,
    names: &Vec<Span>,
    limit: usize,
) -> (r: Vec<Pending<'a>>)
    requires
        old(place).wf(),
    ensures
        final(place).wf(),
        are_even(r@),
        ({
            let (q, m) = body_run(
                *env,
                old(place)@,
                TaskModel::Body(*body),
                spans_of(names@),
                limit as nat,
            );
            final(place)@ == q && pending_of(r@) == m.pending
        }),
{
    let mut own = Place {
        ctx: AnalysisContext::new(),
        table: SymbolTable::new(),
        regions: SplitRegions::new(),
        loops: LoopStack::new(),
        active: Vec::new(),
        halted: false,
    };
    std::mem::swap(place, &mut own);
    let mut walk = Walk::through_body(own, body);
    let mut memory = Memory::new();
    run(env, &mut walk, &mut memory, names, limit);
    *place = walk.place;
    memory.pending
}

/// Visits the statements of a block. Returns the calls that are put off.
pub fn visit_block<'a>(
    env: &Env<'_>,
    place: &mut Place,
    block: &'a Node,
    names: &Vec<Span>,
    limit: usize,
) -> (r: Vec<Pending<'a>>)
    requires
        old(place).wf(),
    ensures
        final(place).wf(),
        are_even(r@),
        ({
            let (q, m) = body_run(
                *env,
                old(place)@,
                TaskModel::Statement { node: *block, label: None },
                spans_of(names@),
                limit as nat,
            );
            final(place)@ == q && pending_of(r@) == m.pending
        }),
{
    let mut own = Place {
        ctx: AnalysisContext::new(),
        table: SymbolTable::new(),
        regions: SplitRegions::new(),
        loops: LoopStack::new(),
        active: Vec::new(),
        halted: false,
    };
    std::mem::swap(place, &mut own);
    let mut walk = Walk::through(own, block);
    let mut memory = Memory::new();
    run(env, &mut walk, &mut memory, names, limit);
    *place = walk.place;
    memory.pending
}

/// Makes the calls that were put off, the last one first.
pub fn apply_deferred_calls(place: &mut Place, pending: Vec<Pending<'_>>, limit: usize)
    requires
        old(place).wf(),
        are_even(pending@),
    ensures
        final(place).wf(),
        final(place)@ == calls_made(old(place)@, pending_of(pending@), limit as nat),
{
    let ghost goal = calls_made(place@, pending_of(pending@), limit as nat);
    let mut rest = pending;
    while rest.len() > 0
        invariant
            place.wf(),
            are_even(rest@),
            goal == calls_made(place@, pending_of(rest@), limit as nat),
        decreases rest@.len(),
    {
        let ghost all = rest@;
        proof {
            assert(pending_of(all).last() == all.last()@);
            assert(pending_of(all).drop_last() =~= pending_of(all.drop_last()));
        }
        if let Some(d) = rest.pop() {
            let Pending { call, branch, node } = d;
            let ghost b = trace_of(branch);
            let entered = branch.is_some();
            place.enter_branch(branch);
            let _results = apply_call_operands(place, call, node.annotation.as_ref(), limit);
            place.leave_branch(entered, Ghost(b));
        }
    }
}

pub(super) fn stands_in_package(table: &SymbolTable) -> (r: bool)
    requires
        table@.wf(),
    ensures
        r == is_in_package(table@),
{
    match table.current_package_path() {
        Some(p) => table.is_package_known(&p),
        None => false,
    }
}

fn leave_function(
    place: &mut Place,
    func: &FunctionRef,
    own: usize,
    ids: &Vec<Span>,
    pending: Vec<Pending<'_>>,
    location: Location,
    limit: usize,
)
    requires
        old(place).wf(),
        are_even(pending@),
    ensures
        final(place).wf(),
        final(place)@ == old(place)@.function_left(
            func@,
            own,
            spans_of(ids@),
            pending_of(pending@),
            location,
            limit as nat,
        ),
{
    if own >= place.table.function_count() {
        let _none = place.give_up();
        return;
    }
    place.prepare_named_result_params_for_defers(own, ids, location);
    apply_deferred_calls(place, pending, limit);
    place.record_fallbacks(own);
    if own < place.table.function_count() && place.ctx.branches.branch_scope_depth() > 0 {
        place.close_function(func, own, ids, location);
        place.put_function_away();
    } else {
        let _none = place.give_up();
    }
}

/// Visits a function: it is defined, and its body, if it has one, is visited.
pub fn visit_function(
    env: &Env<'_>,
    place: &mut Place,
    func: &FunctionRef,
    name: Option<Pinned<Span>>,
    node: &Node,
    shape: &FunctionShape,
    at: &Pinned<Location>,
    limit: usize,
)
    requires
        old(place).wf(),
    ensures
        final(place).wf(),
        final(place)@ == function_visited(
            *env,
            old(place)@,
            func@,
            pinned_of(name),
            *node,
            *shape,
            at@,
            limit as nat,
        ),
{
    proof {
        reveal(function_visited);
    }
    if !stands_in_package(&place.table) {
        let _none = place.give_up();
        return;
    }
    let own: usize = place.define(env, func, name, shape, node.annotation.as_ref(), at);
    if node.children.len() == 0 {
        return;
    }
    if limit == 0 || !place.table.has_room() || place.ctx.branches.branch_scope_depth() >= 255 {
        let _none = place.give_up();
        return;
    }
    let body = &node.children[0];
    place.open_function(
        func,
        shape.receiver.as_ref(),
        &shape.signature,
        &shape.param_types,
        &shape.results,
        at,
    );
    place.capture(func, own, &node.names, body, at);
    let pending = visit_body(env, place, body, &shape.result_names, limit - 1);
    leave_function(place, func, own, &shape.result_names, pending, node.location, limit - 1);
}

} // verus!
