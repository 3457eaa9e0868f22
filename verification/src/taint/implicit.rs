//! Control flow, and what it carries.

use vstd::prelude::*;

use crate::ast::{Node, NodeKind};
use crate::context::branches::{BranchModel, BranchState, DeferTarget, TargetModel};
use crate::context::declarations::{declare_new_symbol, declared, SplitRegions};
use crate::context::loops::{continued, LoopModel, LoopStack};
use crate::context::{AnalysisContext, ContextModel};
use crate::functions::{FunctionModel, FunctionRef};
use crate::labels::backtraces::{folded, framed, realized, trace_of, trace_of_ref, traces_of,
    LabelBacktrace, LabelBacktraceKind, Trace};
use crate::labels::tags::{text_of, SyntheticSlot};
use crate::locations::{Location, Pinned, PinnedModel, Span, SpanModel};
use crate::ordered::{same_text, Ordered};
use crate::symbols::table::{SymbolTable, TableModel};
use crate::symbols::{Symbol, SymbolModel};
use crate::taint::funcs::call_checks::flows_of;
use crate::taint::funcs::call_results::{carrying, carrying_refs};
use crate::taint::funcs::ParamDecl;
use crate::values::{carried, merged, values_of, FormModel, Value, ValueForm, ValueModel};

verus! {

/// What decides whether something is done, if a condition does.
pub open spec fn condition_branch(t: Trace, at: PinnedModel<Location>) -> Trace {
    framed(LabelBacktraceKind::Branch, t.label, None, at, seq![t])
}

/// The branches once a condition is met.
pub open spec fn under_condition(
    b: BranchModel,
    condition: Option<Trace>,
    at: PinnedModel<Location>,
) -> BranchModel {
    match condition {
        Some(t) => b.entered(condition_branch(t, at)),
        None => b,
    }
}

/// Enters what is only done under a condition. Returns whether a branch was
/// entered, which is not so if the condition carries nothing.
pub fn enter_condition(
    branches: &mut BranchState,
    condition: Option<LabelBacktrace>,
    at: Pinned<Location>,
) -> (r: bool)
    ensures
        final(branches)@ == under_condition(old(branches)@, trace_of(condition), at@),
        r == condition is Some,
{
    match condition {
        Some(b) => {
            branches.push_branch_backtrace(
                b.into_single_child(LabelBacktraceKind::Branch, None, at),
            );
            true
        },
        None => false,
    }
}

/// The branches once what is only done under conditions is left.
pub open spec fn left_if(b: BranchModel, entered: bool) -> BranchModel {
    if entered {
        b.left()
    } else {
        b
    }
}

/// Leaves what is only done under a condition, if a branch was entered for it.
pub fn leave_condition(branches: &mut BranchState, entered: bool)
    ensures
        final(branches)@ == left_if(old(branches)@, entered),
{
    if entered {
        branches.pop_branch_backtrace();
    }
}

/// What decides whether a clause is chosen, or a loop goes on: all that its
/// expressions carry.
pub open spec fn clause_branch(flows: Seq<Option<Trace>>, at: PinnedModel<Location>) -> Option<
    Trace,
> {
    folded(carrying(flows), LabelBacktraceKind::Branch, None, at)
}

/// The branches once a clause is chosen, or a loop goes on.
pub open spec fn under_clause(
    b: BranchModel,
    flows: Seq<Option<Trace>>,
    at: PinnedModel<Location>,
) -> BranchModel {
    match clause_branch(flows, at) {
        Some(t) => b.entered(t),
        None => b,
    }
}

/// Enters a clause, or the body of a loop. Returns whether a branch was
/// entered. That of a clause is only left behind the last one: that it is not
/// chosen is what the ones behind it depend on.
pub fn enter_clause(
    branches: &mut BranchState,
    flows: &Vec<Option<LabelBacktrace>>,
    at: Pinned<Location>,
) -> (r: bool)
    ensures
        final(branches)@ == under_clause(old(branches)@, flows_of(flows@), at@),
        r == clause_branch(flows_of(flows@), at@) is Some,
{
    proof {
        assert(flows_of(flows@).skip(0) =~= flows_of(flows@));
    }
    let branch = LabelBacktrace::fold(
        &carrying_refs(flows, 0),
        LabelBacktraceKind::Branch,
        None,
        at,
    );
    match branch {
        Some(b) => {
            branches.push_branch_backtrace(b);
            true
        },
        None => false,
    }
}

/// How many statements of a clause are visited: all but a last one that goes on
/// with the next clause.
pub fn clause_body_length(body: &Vec<Node>) -> (r: usize)
    ensures
        r == if body@.len() > 0 && body@.last().kind is Fallthrough {
            body@.len() - 1
        } else {
            body@.len() as int
        },
{
    let n: usize = body.len();
    if n == 0 {
        return 0;
    }
    match body[n - 1].kind {
        NodeKind::Fallthrough => n - 1,
        _ => n,
    }
}

/// Visits a statement that goes on with the next iteration of a loop: what
/// decides whether it is reached has an effect in the next iteration, and until
/// the loop ends.
pub fn visit_continue(
    branches: &mut BranchState,
    loops: &mut LoopStack,
    label: Option<&Span>,
    at: Pinned<Location>,
)
    ensures
        ({
            let named = match label {
                Some(l) => Some(l@.content),
                None => None,
            };
            &&& final(loops)@ == continued(
                old(loops)@,
                named,
                old(branches)@.current(),
                at@,
                old(loops)@.len() as int,
            )
            &&& final(branches)@ == old(branches)@.deferring(
                match named {
                    Some(l) => TargetModel::LabeledLoop(l),
                    None => TargetModel::InnermostLoop,
                },
                at@,
            )
        }),
{
    let target = match label {
        Some(l) => {
            loops.record_continue_branch_backtrace(branches, Some(l.content()), &at);
            DeferTarget::LabeledLoop(l.content().to_owned())
        },
        None => {
            loops.record_continue_branch_backtrace(branches, None, &at);
            DeferTarget::InnermostLoop
        },
    };
    branches.defer_branch_backtrace(target, at);
}

/// Visits a statement that leaves a loop or a choice: what decides whether it is
/// reached has an effect until that ends.
pub fn visit_break(branches: &mut BranchState, label: Option<&Span>, at: Pinned<Location>)
    ensures
        final(branches)@ == old(branches)@.deferring(
            match label {
                Some(l) => TargetModel::LabeledBreakable(l@.content),
                None => TargetModel::InnermostBreakable,
            },
            at@,
        ),
{
    let target = match label {
        Some(l) => DeferTarget::LabeledBreakable(l.content().to_owned()),
        None => DeferTarget::InnermostBreakable,
    };
    branches.defer_branch_backtrace(target, at);
}

/// The branches once a loop has ended.
pub open spec fn loop_left(b: BranchModel) -> BranchModel {
    b.triggered(TargetModel::InnermostLoop).triggered(TargetModel::InnermostBreakable)
}

/// Ends a loop: what only had an effect in it has none any more.
pub fn end_loop(branches: &mut BranchState)
    ensures
        final(branches)@ == loop_left(old(branches)@),
{
    branches.trigger_defer_target(DeferTarget::InnermostLoop);
    branches.trigger_defer_target(DeferTarget::InnermostBreakable);
}

/// The state and the table once a choice between types has declared its name.
pub open spec fn switch_bound(
    ctx: ContextModel,
    t: TableModel,
    id: SpanModel,
    value: ValueModel,
) -> (ContextModel, TableModel) {
    let declaration = PinnedModel { file: ctx.log.file->0, inner: id };
    let added = TableModel {
        symbols: t.symbols.push(
            SymbolModel { declared_name: declaration, mutable: true, value, known_const: None },
        ),
        ..t
    };
    (
        ContextModel {
            log: declared(ctx.log, declaration, added.local_declaration(id.content)),
            ..ctx
        },
        added.declaring(id.content, t.symbols.len() as usize),
    )
}

/// Declares the name of a choice between types, with the value that is tested.
pub fn bind_switch_value(
    ctx: &mut AnalysisContext,
    table: &mut SymbolTable,
    id: &Span,
    value: Value,
)
    requires
        old(ctx).wf(),
        old(table)@.wf(),
        old(ctx)@.log.file is Some,
    ensures
        final(ctx)@.log.file is Some,
        final(ctx).wf(),
        final(table)@.wf(),
        (final(ctx)@, final(table)@) == switch_bound(old(ctx)@, old(table)@, id@, value@),
{
    let ghost start = ctx@;
    let ghost t = table@;
    let ghost v = value@;
    let declaration = ctx.log.pin(id.duplicate());
    let symbol: usize = table.add_symbol(
        Symbol { declared_name: declaration, mutable: true, value, known_const: None },
    );
    declare_new_symbol(&mut ctx.log, table, symbol);
    proof {
        let goal = switch_bound(start, t, id@, v);
        assert(ctx@ =~= goal.0);
        assert(table@ =~= goal.1);
    }
}

/// The values with which the body of a loop is entered that goes through a
/// value: what is received from a channel; a position and an element of what is
/// made of elements; or, of anything else, what the value carries, once for
/// numbers and twice for texts.
pub open spec fn range_values(
    v: ValueModel,
    is_integer: bool,
    at: PinnedModel<Location>,
) -> Seq<ValueModel> {
    match v.form {
        FormModel::Channel => seq![ValueModel::simple(carried(v), at)],
        FormModel::Slice | FormModel::Array | FormModel::Mapping => seq![
            ValueModel::simple(carried(v), at),
            v.read_at(None, at),
        ],
        _ => {
            let down = ValueModel { location: at, ..v.downgraded() };
            if is_integer {
                seq![down]
            } else {
                seq![down, down]
            }
        },
    }
}

/// The values with which the body of a loop is entered that goes through a
/// value. `is_integer` says whether that is known to be a number.
pub fn get_for_range_values(value: &Value, is_integer: bool, at: &Pinned<Location>) -> (r: Vec<
    Value,
>)
    ensures
        values_of(r@) == range_values(value@, is_integer, at@),
{
    let mut r: Vec<Value> = Vec::new();
    match &value.form {
        ValueForm::Channel => {
            r.push(Value::from_backtrace_or_bottom_at(value.backtrace(), at));
        },
        ValueForm::Slice | ValueForm::Array | ValueForm::Mapping => {
            r.push(Value::from_backtrace_or_bottom_at(value.backtrace(), at));
            r.push(value.get_at_key(None, at));
        },
        _ => {
            let mut down = value.clone();
            down.downgrade();
            down.set_location(at.duplicate());
            if !is_integer {
                r.push(down.clone());
            }
            r.push(down);
        },
    }
    proof {
        assert(values_of(r@) =~= range_values(value@, is_integer, at@));
    }
    r
}

/// The values with which the body of a loop is entered that goes through what a
/// function yields: what is known to be yielded, or else what a call of the
/// function carries. At least one tells whether the body is entered at all.
pub open spec fn yielded_values(
    called: ValueModel,
    count: nat,
    yields: Seq<Option<Trace>>,
    func: FunctionModel,
    branch: Option<Trace>,
    at: PinnedModel<Location>,
) -> Seq<ValueModel> {
    if count == 0 {
        seq![called]
    } else if yields.len() == 0 {
        Seq::new(count, |i: int| called)
    } else {
        yields.map_values(
            |y: Option<Trace>|
                match y {
                    Some(t) => match realized(
                        t,
                        func,
                        seq![(SyntheticSlot::CallSiteBranch, branch)],
                        false,
                    ) {
                        Some(x) => ValueModel { location: at, ..ValueModel::simple(Some(x), at) },
                        None => called,
                    },
                    None => called,
                },
        )
    }
}

/// The values with which the body of a loop is entered that goes through what a
/// function yields: `called` is what a call of it carries, `count` how many
/// values it yields at a time, and `yields` what is known of these.
pub fn get_iter_function_range_values(
    called: &Value,
    count: usize,
    yields: &Vec<Option<LabelBacktrace>>,
    func: &FunctionRef,
    branch: Option<&LabelBacktrace>,
    at: &Pinned<Location>,
) -> (r: Vec<Value>)
    ensures
        values_of(r@) == yielded_values(
            called@,
            count as nat,
            flows_of(yields@),
            func@,
            trace_of_ref(branch),
            at@,
        ),
{
    let ghost goal = yielded_values(
        called@,
        count as nat,
        flows_of(yields@),
        func@,
        trace_of_ref(branch),
        at@,
    );
    let mut r: Vec<Value> = Vec::new();
    if count == 0 {
        r.push(called.clone());
        proof {
            assert(values_of(r@) =~= goal);
        }
        return r;
    }
    if yields.len() == 0 {
        let mut i: usize = 0;
        while i < count
            invariant
                i <= count,
                r@.len() == i,
                forall|k: int| 0 <= k < i ==> (#[trigger] r@[k])@ == called@,
            decreases count - i,
        {
            r.push(called.clone());
            i = i + 1;
        }
        proof {
            assert(values_of(r@) =~= goal);
        }
        return r;
    }
    let n: usize = yields.len();
    let mut i: usize = 0;
    while i < n
        invariant
            i <= n,
            n == yields@.len(),
            n > 0,
            count > 0,
            goal == yielded_values(
                called@,
                count as nat,
                flows_of(yields@),
                func@,
                trace_of_ref(branch),
                at@,
            ),
            r@.len() == i,
            forall|k: int| 0 <= k < i ==> (#[trigger] r@[k])@ == goal[k],
        decreases n - i,
    {
        proof {
            assert(flows_of(yields@)[i as int] == trace_of(yields@[i as int]));
        }
        let flow = match &yields[i] {
            Some(b) => b.realize(func, SyntheticSlot::CallSiteBranch, branch),
            None => None,
        };
        let value = match flow {
            Some(b) => {
                let mut v = Value::from_backtrace_or_bottom_at(Some(b), at);
                v.set_location(at.duplicate());
                v
            },
            None => called.clone(),
        };
        proof {
            assert(value@ == goal[i as int]);
        }
        r.push(value);
        i = i + 1;
    }
    proof {
        assert(values_of(r@) =~= goal);
    }
    r
}

/// How many values a function yields at a time, if it is one that yields: its
/// first parameter is a single function, which returns whether to go on.
pub fn extract_iter_yield_count(
    first_param: Option<&ParamDecl>,
    yield_inputs: usize,
    yield_result: Option<&str>,
) -> (r: Option<usize>)
    ensures
        r == match first_param {
            Some(p) => if p@.ids.len() <= 1 && p@.is_function && yield_result is Some
                && yield_result->0@ == "bool"@ {
                Some(yield_inputs)
            } else {
                None
            },
            None => None,
        },
{
    match first_param {
        Some(p) => {
            if p.ids.len() > 1 || !p.is_function {
                return None;
            }
            match yield_result {
                Some(name) => {
                    if same_text(name, "bool") {
                        Some(yield_inputs)
                    } else {
                        None
                    }
                },
                None => None,
            }
        },
        None => None,
    }
}

/// Whether a call of a name is known to give a number: it is one of some
/// predeclared functions that do, unless something else has that name.
pub open spec fn gives_integer(t: TableModel, name: Seq<char>) -> bool {
    (name == "len"@ || name == "cap"@ || name == "min"@ || name == "max"@) && match t.resolved(
        Some(t.current),
        name,
    ) {
        Some(s) => t.scopes[0].symbols.dom().contains(name) && s == t.scopes[0].symbols[name],
        None => true,
    }
}

/// Whether a call of a name is known to give a number.
pub fn is_integer_call(table: &SymbolTable, name: &str) -> (r: bool)
    requires
        table@.wf(),
    ensures
        r == gives_integer(table@, name@),
{
    if !same_text(name, "len") && !same_text(name, "cap") && !same_text(name, "min") && !same_text(
        name,
        "max",
    ) {
        return false;
    }
    match table.get_symbol(name) {
        Some(_) => table.resolves_to_predeclared(name),
        None => true,
    }
}

/// Whether what a loop goes through is to show under which conditions that is
/// done, if it is a channel: there are some, and it can be written to.
pub fn should_fold_operand(branches: &BranchState, table: &SymbolTable, root: Option<&str>) -> (r:
    bool)
    requires
        table@.wf(),
    ensures
        r == (branches@.current() is Some && root is Some && match table@.resolved(
            Some(table@.current),
            root->0@,
        ) {
            Some(s) => table@.symbols[s as int].mutable,
            None => true,
        }),
{
    if branches.branch_backtrace().is_none() {
        return false;
    }
    match root {
        Some(name) => match table.get_symbol(name) {
            Some(symbol) => {
                proof {
                    crate::symbols::table::lemma_resolved_in_range(
                        table@,
                        Some(table@.current),
                        name@,
                    );
                }
                table.symbol(symbol).mutable
            },
            None => true,
        },
        None => false,
    }
}

/// The map that a loop goes through, which may have changed since it was
/// entered: it is what it was, or what the variable behind it is now.
pub fn derive_current_for_range_operand(
    evaluated: &Value,
    current: Option<&Value>,
    at: &Pinned<Location>,
) -> (r: Value)
    ensures
        r@ == match current {
            Some(c) => merged(evaluated@, c@, LabelBacktraceKind::Assignment, at@),
            None => evaluated@,
        },
{
    match current {
        Some(c) => evaluated.merge_with(c, LabelBacktraceKind::Assignment, at),
        None => evaluated.clone(),
    }
}

/// What is done with a channel that a loop goes through, if others can notice
/// that under which conditions this is done: the channel carries these too.
pub fn fold_ranged_channel(branches: &BranchState, operand: Value, at: &Pinned<Location>) -> (r:
    Value)
    ensures
        r@ == if operand@.form is Channel {
            operand@.used_under(branches@.current(), at@)
        } else {
            operand@
        },
{
    let is_channel = match &operand.form {
        ValueForm::Channel => true,
        _ => false,
    };
    if !is_channel {
        return operand;
    }
    let mut r = operand;
    if let Some(b) = branches.branch_backtrace() {
        let mut more: Vec<LabelBacktrace> = Vec::new();
        more.push(b.clone());
        proof {
            assert(traces_of(more@) =~= seq![b@]);
        }
        r.nest_backtrace(LabelBacktraceKind::Branch, None, at.duplicate(), &more);
    }
    r
}

/// What is around a statement.
#[verifier::ext_equal]
pub struct PlaceModel {
    pub ctx: ContextModel,
    pub table: TableModel,
    pub regions: Seq<PinnedModel<Location>>,
    pub loops: Seq<LoopModel>,
    pub active: Seq<usize>,
    pub halted: bool,
}

/// What is around a statement: the state of the analysis, the table, the regions
/// in which control flow is split, and the loops.
#[derive(Debug)]
pub struct Place {
    pub ctx: AnalysisContext,
    pub table: SymbolTable,
    pub regions: SplitRegions,
    pub loops: LoopStack,
    /// The functions that are being visited, from the innermost one.
    pub active: Vec<usize>,
    /// Whether a limit was met at which the visit cannot go on as it should.
    pub halted: bool,
}

impl View for Place {
    type V = PlaceModel;

    open spec fn view(&self) -> PlaceModel {
        PlaceModel {
            ctx: self.ctx@,
            table: self.table@,
            regions: self.regions@,
            loops: self.loops@,
            active: self.active@,
            halted: self.halted,
        }
    }
}

impl PlaceModel {
    /// Whether there is room for another scope.
    pub open spec fn has_room(self) -> bool {
        self.table.has_room()
    }

    /// Where something stands in the current file.
    pub open spec fn at(self, location: Location) -> PinnedModel<Location> {
        PinnedModel { file: self.ctx.log.file->0, inner: location }
    }

    /// The place with other branches.
    pub open spec fn with_branches(self, branches: BranchModel) -> PlaceModel {
        PlaceModel { ctx: ContextModel { branches, ..self.ctx }, ..self }
    }

    /// The place in a scope of its own.
    pub open spec fn in_scope(self) -> PlaceModel {
        PlaceModel { table: self.table.in_next_child(), ..self }
    }

    /// The place once a scope of its own is left.
    pub open spec fn out_of_scope(self) -> PlaceModel {
        PlaceModel { table: self.table.in_parent(), ..self }
    }

    /// The place in a region in which control flow is split.
    pub open spec fn split(self, location: Location) -> PlaceModel {
        PlaceModel { regions: self.regions.push(self.at(location)), ..self }
    }

    /// The place once a region in which control flow is split is left.
    pub open spec fn joined(self) -> PlaceModel {
        PlaceModel {
            regions: if self.regions.len() > 0 {
                self.regions.drop_last()
            } else {
                self.regions
            },
            ..self
        }
    }

    /// The place in a statement that can be broken out of.
    pub open spec fn deeper(self) -> PlaceModel {
        self.with_branches(
            BranchModel { depth: (self.ctx.branches.depth + 1) as nat, ..self.ctx.branches },
        )
    }

    /// The place once a statement that can be broken out of is left.
    pub open spec fn shallower(self) -> PlaceModel {
        self.with_branches(
            BranchModel { depth: (self.ctx.branches.depth - 1) as nat, ..self.ctx.branches },
        )
    }

    /// The place at the start of a condition, where what stands before it is
    /// visited.
    pub open spec fn if_begun(self, location: Location) -> PlaceModel {
        self.split(location).in_scope()
    }

    /// The place where the statements under a condition are visited, and then
    /// those for when it does not hold.
    pub open spec fn if_decided(self, condition: Option<Trace>, location: Location) -> PlaceModel {
        self.with_branches(under_condition(self.ctx.branches, condition, self.at(location)))
    }

    /// The place behind a condition.
    pub open spec fn if_ended(self, entered: bool) -> PlaceModel {
        let out = self.out_of_scope();
        out.with_branches(left_if(out.ctx.branches, entered)).joined()
    }

    /// The place at the start of a loop, behind what is only done once.
    pub open spec fn for_begun(self, location: Location, label: Option<Seq<char>>) -> PlaceModel {
        let inside = self.split(location).deeper();
        PlaceModel { loops: inside.loops.push(LoopModel::first(label)), ..inside }
    }

    /// The place at the start of an iteration.
    pub open spec fn iteration_begun(self) -> PlaceModel {
        if self.loops.len() == 0 {
            self
        } else {
            match self.loops.last().incoming {
                Some(t) => self.with_branches(self.ctx.branches.entered(t)),
                None => self,
            }
        }
    }

    /// The place in the body of a loop.
    pub open spec fn iteration_entered(self, header: Option<Trace>, location: Location) -> PlaceModel {
        self.with_branches(under_clause(self.ctx.branches, seq![header], self.at(location)))
    }

    /// The place behind the body of a loop.
    pub open spec fn iteration_ended(self, entered: bool, begun: bool) -> PlaceModel {
        self.with_branches(left_if(left_if(self.ctx.branches, entered), begun))
    }

    /// The place where a loop is visited again: in the same scope, and without
    /// what was put off in this visit.
    pub open spec fn loop_repeated(
        self,
        header: Option<Trace>,
        deferred: Seq<crate::context::branches::DeferredModel>,
        composite: Option<Trace>,
    ) -> PlaceModel {
        PlaceModel {
            table: self.table.rewound(),
            loops: if self.loops.len() > 0 {
                self.loops.update(self.loops.len() - 1, self.loops.last().advanced(header))
            } else {
                self.loops
            },
            ..self.with_branches(BranchModel { deferred, composite, ..self.ctx.branches })
        }
    }

    /// The place behind a loop.
    pub open spec fn for_ended(self) -> PlaceModel {
        let out = PlaceModel {
            loops: if self.loops.len() > 0 {
                self.loops.drop_last()
            } else {
                self.loops
            },
            ..self
        }.shallower();
        out.with_branches(loop_left(out.ctx.branches)).out_of_scope().joined()
    }

    /// The place at the start of a choice.
    pub open spec fn switch_begun(self, location: Location) -> PlaceModel {
        self.split(location).in_scope().deeper()
    }

    /// The place behind a choice, for which a number of branches was entered.
    pub open spec fn switch_ended(self, entered: nat) -> PlaceModel {
        let out = self.with_branches(
            crate::taint::goto::left_times(self.ctx.branches, entered),
        ).shallower();
        out.with_branches(
            out.ctx.branches.triggered(TargetModel::InnermostBreakable),
        ).out_of_scope().joined()
    }
}

impl Place {
    /// Whether what is around a statement is something that the analysis can
    /// produce.
    pub open spec fn wf(&self) -> bool {
        self.ctx.wf() && self.table@.wf() && self.ctx@.log.file is Some
    }

    /// Goes into a scope.
    pub fn enter_scope(&mut self)
        requires
            old(self).wf(),
            old(self)@.has_room(),
        ensures
            final(self).wf(),
            final(self)@ == old(self)@.in_scope(),
    {
        self.table.select_next_child_scope();
    }

    /// Comes out of a scope.
    pub fn leave_scope(&mut self)
        requires
            old(self).wf(),
        ensures
            final(self).wf(),
            final(self)@ == old(self)@.out_of_scope(),
    {
        self.table.select_parent_scope();
    }

    /// Begins a condition. What stands before it is visited next.
    pub fn begin_if(&mut self, location: Location)
        requires
            old(self).wf(),
            old(self)@.has_room(),
        ensures
            final(self).wf(),
            final(self)@ == old(self)@.if_begun(location),
    {
        let region = self.ctx.log.pin(location);
        self.regions.push_split_control_flow(region);
        self.table.select_next_child_scope();
    }

    /// Goes on behind the evaluation of a condition. The statements under it are
    /// visited next, then those for when it does not hold: both depend on it.
    /// Returns whether a branch was entered.
    pub fn decide_if(&mut self, condition: Option<LabelBacktrace>, location: Location) -> (r: bool)
        requires
            old(self).wf(),
        ensures
            final(self).wf(),
            final(self)@ == old(self)@.if_decided(trace_of(condition), location),
            r == condition is Some,
    {
        let at = self.ctx.log.pin(location);
        let ghost before = self@;
        let r = enter_condition(&mut self.ctx.branches, condition, at);
        proof {
            assert(self@ =~= before.if_decided(trace_of(condition), location));
        }
        r
    }

    /// Ends a condition.
    pub fn end_if(&mut self, entered: bool)
        requires
            old(self).wf(),
        ensures
            final(self).wf(),
            final(self)@ == old(self)@.if_ended(entered),
    {
        let ghost before = self@;
        self.table.select_parent_scope();
        leave_condition(&mut self.ctx.branches, entered);
        self.regions.pop_split_control_flow();
        proof {
            assert(self@ =~= before.if_ended(entered));
        }
    }

    /// Begins a loop, behind what is only done once, in a scope of its own.
    pub fn begin_for(&mut self, location: Location, label: Option<String>)
        requires
            old(self).wf(),
            old(self)@.ctx.branches.depth < 255,
        ensures
            final(self).wf(),
            final(self)@ == old(self)@.for_begun(location, text_of(label)),
    {
        let ghost before = self@;
        let region = self.ctx.log.pin(location);
        self.regions.push_split_control_flow(region);
        self.ctx.branches.increase_branch_scope_depth();
        self.loops.push_loop_convergence_context(label);
        proof {
            assert(self@ =~= before.for_begun(location, text_of(label)));
        }
    }

    /// Begins an iteration, which depends on whether the last one was ended
    /// early. Returns whether a branch was entered.
    pub fn begin_iteration(&mut self) -> (r: bool)
        requires
            old(self).wf(),
        ensures
            final(self).wf(),
            final(self)@ == old(self)@.iteration_begun(),
            r == (old(self)@.loops.len() > 0 && old(self)@.loops.last().incoming is Some),
    {
        let ghost before = self@;
        let r = match self.loops.loop_iteration_backtrace() {
            Some(b) => {
                self.ctx.branches.push_branch_backtrace(b.clone());
                true
            },
            None => false,
        };
        proof {
            assert(self@ =~= before.iteration_begun());
        }
        r
    }

    /// Enters the body of a loop, given what decides whether there is an
    /// iteration. Returns whether a branch was entered.
    pub fn enter_iteration(&mut self, header: &Option<LabelBacktrace>, location: Location) -> (r: bool)
        requires
            old(self).wf(),
        ensures
            final(self).wf(),
            final(self)@ == old(self)@.iteration_entered(trace_of(*header), location),
            r == clause_branch(seq![trace_of(*header)], old(self)@.at(location)) is Some,
    {
        let ghost before = self@;
        let at = self.ctx.log.pin(location);
        let mut flows: Vec<Option<LabelBacktrace>> = Vec::new();
        flows.push(crate::context::branches::copy_trace(header));
        proof {
            assert(flows_of(flows@) =~= seq![trace_of(*header)]);
        }
        let r = enter_clause(&mut self.ctx.branches, &flows, at);
        proof {
            assert(self@ =~= before.iteration_entered(trace_of(*header), location));
        }
        r
    }

    /// Leaves the body of a loop.
    pub fn end_iteration(&mut self, entered: bool, begun: bool)
        requires
            old(self).wf(),
        ensures
            final(self).wf(),
            final(self)@ == old(self)@.iteration_ended(entered, begun),
    {
        let ghost before = self@;
        leave_condition(&mut self.ctx.branches, entered);
        leave_condition(&mut self.ctx.branches, begun);
        proof {
            assert(self@ =~= before.iteration_ended(entered, begun));
        }
    }

    /// Goes back to the start of a loop for another visit.
    pub fn repeat_loop(
        &mut self,
        header: Option<LabelBacktrace>,
        checkpoint: &crate::context::branches::DeferredBranchBacktraceCheckpoint,
    )
        requires
            old(self).wf(),
        ensures
            final(self).wf(),
            final(self)@ == old(self)@.loop_repeated(
                trace_of(header),
                checkpoint.deferred(),
                checkpoint.composite(),
            ),
    {
        let ghost before = self@;
        self.table.rewind_child_scope_cursor();
        self.ctx.branches.restore_deferred_state(checkpoint);
        self.loops.advance_loop_convergence_iteration(header);
        proof {
            assert(self@ =~= before.loop_repeated(
                trace_of(header),
                checkpoint.deferred(),
                checkpoint.composite(),
            ));
        }
    }

    /// Ends a loop.
    pub fn end_for(&mut self)
        requires
            old(self).wf(),
            old(self)@.ctx.branches.depth > 0,
        ensures
            final(self).wf(),
            final(self)@ == old(self)@.for_ended(),
    {
        let ghost before = self@;
        let _known = self.loops.pop_loop_convergence_context();
        self.ctx.branches.decrease_branch_scope_depth();
        end_loop(&mut self.ctx.branches);
        self.table.select_parent_scope();
        self.regions.pop_split_control_flow();
        proof {
            assert(self@ =~= before.for_ended());
        }
    }

    /// Begins a choice. What stands before its clauses is visited next.
    pub fn begin_switch(&mut self, location: Location)
        requires
            old(self).wf(),
            old(self)@.has_room(),
            old(self)@.ctx.branches.depth < 255,
        ensures
            final(self).wf(),
            final(self)@ == old(self)@.switch_begun(location),
    {
        let ghost before = self@;
        let region = self.ctx.log.pin(location);
        self.regions.push_split_control_flow(region);
        self.table.select_next_child_scope();
        self.ctx.branches.increase_branch_scope_depth();
        proof {
            assert(self@ =~= before.switch_begun(location));
        }
    }

    /// Ends a choice, for which a number of branches was entered.
    pub fn end_switch(&mut self, entered: usize)
        requires
            old(self).wf(),
            old(self)@.ctx.branches.depth > 0,
        ensures
            final(self).wf(),
            final(self)@ == old(self)@.switch_ended(entered as nat),
    {
        let ghost before = self@;
        let ghost first = self.ctx.branches@;
        let mut i: usize = 0;
        while i < entered
            invariant
                i <= entered,
                self.wf(),
                self.ctx.branches@ == crate::taint::goto::left_times(first, i as nat),
                self@ == before.with_branches(self.ctx.branches@),
                first == before.ctx.branches,
                first.depth > 0,
                self.ctx.branches@.depth == first.depth,
            decreases entered - i,
        {
            let ghost held = self@;
            self.ctx.branches.pop_branch_backtrace();
            proof {
                assert(self@ =~= before.with_branches(self.ctx.branches@));
            }
            i = i + 1;
        }
        self.ctx.branches.decrease_branch_scope_depth();
        self.ctx.branches.trigger_defer_target(DeferTarget::InnermostBreakable);
        self.table.select_parent_scope();
        self.regions.pop_split_control_flow();
        proof {
            assert(self@ =~= before.switch_ended(entered as nat));
        }
    }
}

/// A condition under which nothing is done leaves the analysis in the same
/// scope, under the same branches and in the same regions.
pub proof fn law_conditions_are_left(
    p: PlaceModel,
    location: Location,
    condition: Option<Trace>,
    at: Location,
)
    requires
        p.table.wf(),
        p.has_room(),
        p.ctx.branches.is_settled(),
    ensures
        ({
            let after = p.if_begun(location).if_decided(condition, at).if_ended(
                condition is Some,
            );
            &&& after.ctx == p.ctx
            &&& after.regions == p.regions
            &&& after.loops == p.loops
            &&& after.table.current == p.table.current
            &&& after.table.symbols == p.table.symbols
        }),
{
    let begun = p.if_begun(location);
    let decided = begun.if_decided(condition, at);
    let after = decided.if_ended(condition is Some);
    crate::symbols::table::law_child_and_parent(p.table);
    assert(begun.regions.drop_last() =~= p.regions);
    if let Some(t) = condition {
        crate::context::branches::law_enter_and_leave(
            p.ctx.branches,
            condition_branch(t, begun.at(at)),
        );
        assert(after.ctx.branches == p.ctx.branches);
    }
    assert(after.ctx =~= p.ctx);
}

} // verus!
