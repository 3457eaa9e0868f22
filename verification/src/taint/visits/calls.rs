//! Calls whose operands have been evaluated.

use vstd::prelude::*;

use crate::ast::Annotation;
use crate::context::deferred_checks::settle_checks;
use crate::context::AnalysisContext;
use crate::functions::{FunctionModel, FunctionRef};
use crate::labels::backtraces::{substitutions_of, trace_of, LabelBacktrace, Substitution, Trace};
use crate::labels::tags::text_of;
use crate::locations::{Location, Pinned, PinnedModel, Span};
use crate::ordered::{Ordered, OrderedMap};
use crate::policy::targets::{known_texts, SimpleConstValue};
use crate::symbols::table::{SymbolTable, TableModel};
use crate::taint::funcs::builtins::optional_value;
use crate::taint::funcs::call_application::{apply_resolved_call, argument_backtraces,
    assemble_substitutions, call_model, concretes, is_well_declared, lemma_slots_are_filled,
    passed_concretes, unknown_like, CallCaptureConcretes, CallModel};
use crate::taint::funcs::call_checks::{are_judgeable, can_handle, can_judge, flows_of};
use crate::taint::funcs::call_resolution::{argument_consts, argument_hybrids, argument_values,
    resolve_current_yield_owner, yield_owner, Argument, ResolvedCall};
use crate::taint::funcs::captures::call_site::{apply_capture_mutations_and_derive_concretes,
    concretes_of, either_of_all, law_substitutions_are_determined, listing_of, lists, note_listing,
    restored, written_back, CallSiteConcretes, SiteModel};
use crate::taint::funcs::captures::captures_of;
use crate::taint::funcs::captures::realization::{derive_hybrid_value_backtrace, functions_of,
    has_fallbacks, hybrid_value, Declaration, SceneModel};
use crate::taint::funcs::{calc_effective_call_site_branch_backtrace_for, collect_parameter_slots,
    effective_branch, with_yield, FunctionSummary, SummaryModel, YieldingModel};
use crate::taint::implicit::{Place, PlaceModel};
use crate::taint::visits::callees::{active_in, are_active, are_handleable, call_stack, called,
    collect_definitions, definitions_of, find_callee, find_outside, find_runtime_symbols,
    have_fallbacks, is_declared_well, outside_of, runtime_symbols, stack_of};
use crate::values::{carried, values_of, FormModel, Value, ValueForm, ValueModel};

verus! {

/// A call whose operands have been evaluated.
#[derive(Debug)]
pub struct CallOperands {
    /// What is called.
    pub callee: Value,
    /// Whether it cannot be meant, so that nothing is known of what is.
    pub as_blackbox: bool,
    /// The arguments.
    pub args: Vec<Value>,
    /// What the arguments are known to be.
    pub consts: Vec<Option<SimpleConstValue>>,
    /// The receiver, if it is called as a method.
    pub receiver: Option<Value>,
    /// The name that is called, if it is just a name.
    pub name: Option<String>,
    /// Where it is called.
    pub location: Location,
}

/// What a [`CallOperands`] stands for.
#[verifier::ext_equal]
pub struct OperandsModel {
    pub callee: ValueModel,
    pub as_blackbox: bool,
    pub args: Seq<ValueModel>,
    pub consts: Seq<Option<Seq<char>>>,
    pub receiver: Option<ValueModel>,
    pub name: Option<Seq<char>>,
    pub location: Location,
}

impl View for CallOperands {
    type V = OperandsModel;

    open spec fn view(&self) -> OperandsModel {
        OperandsModel {
            callee: self.callee@,
            as_blackbox: self.as_blackbox,
            args: values_of(self.args@),
            consts: known_texts(self.consts@),
            receiver: optional_value(self.receiver),
            name: text_of(self.name),
            location: self.location,
        }
    }
}

impl OperandsModel {
    /// What the arguments carry.
    pub open spec fn flows(self) -> Seq<Option<Trace>> {
        self.args.map_values(|v: ValueModel| carried(v))
    }

    /// What the arguments carry where they are called as functions.
    pub open spec fn hybrids(self, t: TableModel, at: PinnedModel<Location>) -> Seq<Option<Trace>> {
        Seq::new(
            self.args.len(),
            |i: int|
                hybrid_value(
                    t,
                    definitions_of(t),
                    Map::<Declaration, Option<Trace>>::empty(),
                    Seq::<Declaration>::empty(),
                    self.args[i],
                    carried(self.args[i]),
                    None,
                    at,
                ),
        )
    }
}

impl PlaceModel {
    /// The function that is being visited, if a call of a name is how it hands
    /// values to loops.
    pub open spec fn yields_to(self, name: Option<Seq<char>>) -> Option<FunctionModel> {
        match name {
            Some(n) => if self.active.len() > 0 && self.active[0] < self.table.functions.len() {
                let f = self.table.functions[self.active[0] as int];
                yield_owner(
                    self.table,
                    Some(
                        (
                            f.func,
                            match f.yielding {
                                Some(y) => Some(y.param),
                                None => None,
                            },
                        ),
                    ),
                    n,
                )
            } else {
                None
            },
            None => None,
        }
    }

    /// The place once the function that is being visited has handed values to
    /// loops.
    pub open spec fn with_values_yielded(self, call: OperandsModel) -> PlaceModel {
        if self.yields_to(call.name) is Some {
            let f = self.table.functions[self.active[0] as int];
            let y = f.yielding->0;
            PlaceModel {
                table: TableModel {
                    functions: self.table.functions.update(
                        self.active[0] as int,
                        SummaryModel {
                            yielding: Some(
                                YieldingModel {
                                    values: with_yield(
                                        y.values,
                                        call.flows(),
                                        self.ctx.branches.current(),
                                        self.at(call.location),
                                    ),
                                    ..y
                                },
                            ),
                            ..f
                        },
                    ),
                    ..self.table
                },
                ..self
            }
        } else {
            self
        }
    }
}

/// Whether a call can be prepared within the limits of what is known.
pub open spec fn can_prepare(p: PlaceModel, f: SummaryModel, call: OperandsModel) -> bool {
    &&& forall|i: int| 0 <= i < f.deferred_checks.len() ==> (#[trigger] f.deferred_checks[i]).is_sound()
    &&& f.call_count < usize::MAX
    &&& !call.as_blackbox ==> (f.signature matches Some(s) ==> s.admits(call.args.len())
        && is_well_declared(s))
    &&& can_judge(p.ctx, call.flows())
    &&& has_fallbacks(p.table)
    &&& active_in(p.active, p.table)
}

/// What captured symbols carry at a call.
#[verifier::ext_equal]
pub struct CaughtModel {
    pub entry: Map<usize, Option<Trace>>,
    pub outcome: Map<usize, Option<Trace>>,
}

/// Nothing that is captured.
pub open spec fn nothing_caught() -> CaughtModel {
    CaughtModel {
        entry: Map::<usize, Option<Trace>>::empty(),
        outcome: Map::<usize, Option<Trace>>::empty(),
    }
}

/// The table once a call has written to what the function captures, and what
/// that carries, if it settles.
pub open spec fn captures_applied(
    p: PlaceModel,
    f: SummaryModel,
    call: OperandsModel,
    hybrids: Seq<Option<Trace>>,
    limit: nat,
) -> (TableModel, Option<CaughtModel>) {
    let t = p.table;
    let at = p.at(call.location);
    let n = f.captures.len() as int;
    match runtime_symbols(t, p.active, f.captures, n) {
        None => (t, None),
        Some(symbols) => {
            let site = SiteModel {
                params: concretes(f.signature->0.slots(), call.flows(), hybrids, at),
                branch: effective_branch(p.ctx.branches, f.func, f.own, at),
            };
            let scene = SceneModel {
                definitions: definitions_of(t),
                func: f.func,
                call_stack: stack_of(p.ctx),
                captures: f.captures,
                symbols,
                with_mutations: true,
            };
            let entry = scene.entry_concretes(t, site, f.deferred_checks.len() > 0, limit);
            let before = scene.concretes_at(t, site, limit);
            if entry is None || before is None {
                (t, None)
            } else {
                let now = written_back(
                    t,
                    f.func,
                    f.captures,
                    site,
                    listing_of(before->0),
                    symbols,
                    outside_of(t, symbols, p.regions),
                    n,
                );
                match scene.concretes_at(now, site, limit) {
                    None => (now, None),
                    Some(after) => (
                        now,
                        Some(
                            CaughtModel {
                                entry: entry->0,
                                outcome: restored(
                                    either_of_all(before->0, after, at),
                                    f.captures,
                                    entry->0,
                                    n,
                                ),
                            },
                        ),
                    ),
                }
            }
        },
    }
}

/// The table once a call of a value is counted.
pub open spec fn call_counted(t: TableModel, callee: ValueModel) -> TableModel {
    match callee.form {
        FormModel::Function(i) => if i < t.functions.len() && t.functions[i as int].call_count
            < usize::MAX {
            let f = t.functions[i as int];
            TableModel {
                functions: t.functions.update(
                    i as int,
                    SummaryModel { call_count: f.call_count + 1, ..f },
                ),
                ..t
            }
        } else {
            t
        },
        _ => t,
    }
}

/// What is known of a call whose operands have been evaluated.
pub open spec fn model_of_call(
    p: PlaceModel,
    call: OperandsModel,
    hybrids: Seq<Option<Trace>>,
    caught: CaughtModel,
    owner: Option<FunctionModel>,
) -> CallModel {
    CallModel {
        args: call.args,
        hybrids,
        known: call.consts,
        receiver: call.receiver,
        location: call.location,
        entry_captures: listing_of(caught.entry),
        outcome_captures: listing_of(caught.outcome),
        yield_owner: owner,
    }
}

/// The place once a call is applied whose captures are known, and its results.
pub open spec fn call_completed(
    p: PlaceModel,
    f: SummaryModel,
    call: OperandsModel,
    m: CallModel,
    annotation: Option<&Annotation>,
) -> (PlaceModel, Seq<ValueModel>) {
    let g = if call.as_blackbox {
        unknown_like(f)
    } else {
        f
    };
    if !call.as_blackbox && f.signature is Some && !can_handle(
        p.ctx,
        f.deferred_checks,
        f.func,
        m.check_substitutions(p.ctx, f),
    ) {
        (p.stopped(), Seq::<ValueModel>::empty())
    } else {
        (
            PlaceModel {
                ctx: m.applied(p.ctx, g, annotation),
                table: if !call.as_blackbox && m.counts(g) {
                    call_counted(p.table, call.callee)
                } else {
                    p.table
                },
                ..p
            },
            m.results(p.ctx, g),
        )
    }
}

/// The place once a call is applied whose operands have been evaluated, and its
/// results. Where a limit is met, the call has none.
#[verifier::opaque]
pub open spec fn call_applied(
    p: PlaceModel,
    call: OperandsModel,
    annotation: Option<&Annotation>,
    limit: nat,
) -> (PlaceModel, Seq<ValueModel>) {
    match called(p.table, call.callee) {
        None => (p.stopped(), Seq::<ValueModel>::empty()),
        Some(f) => {
            let owner = p.yields_to(call.name);
            let q = p.with_values_yielded(call);
            if !can_prepare(q, f, call) {
                (q.stopped(), Seq::<ValueModel>::empty())
            } else {
                let hybrids = call.hybrids(q.table, q.at(call.location));
                let (table, caught) = if call.as_blackbox || f.signature is None {
                    (q.table, Some(nothing_caught()))
                } else {
                    captures_applied(q, f, call, hybrids, limit)
                };
                let now = PlaceModel { table, ..q };
                match caught {
                    None => (now.stopped(), Seq::<ValueModel>::empty()),
                    Some(c) => call_completed(
                        now,
                        f,
                        call,
                        model_of_call(now, call, hybrids, c, owner),
                        annotation,
                    ),
                }
            }
        },
    }
}

fn record_yields(place: &mut Place, call: &CallOperands) -> (r: Option<FunctionRef>)
    requires
        old(place).wf(),
    ensures
        final(place).wf(),
        final(place)@ == old(place)@.with_values_yielded(call@),
        (match r {
            Some(f) => Some(f@),
            None => None,
        }) == old(place)@.yields_to(call@.name),
{
    let ghost before = place@;
    let name = match &call.name {
        Some(n) => n,
        None => {
            return None;
        },
    };
    if place.active.len() == 0 {
        return None;
    }
    let current: usize = place.active[0];
    if current >= place.table.function_count() {
        return None;
    }
    let f = place.table.function(current);
    let param = match &f.yielding {
        Some(y) => Some(&y.param),
        None => None,
    };
    let owner = resolve_current_yield_owner(&place.table, Some((&f.func, param)), name.as_str());
    if owner.is_none() {
        return None;
    }
    let mut summary = f.duplicate();
    let ghost whole = summary@;
    let flows = values_carry(&call.args);
    let at = place.ctx.log.pin(call.location);
    let mut yielding = summary.yielding;
    if let Some(y) = &mut yielding {
        y.record_yield_call(&flows, place.ctx.branches.branch_backtrace(), &at);
    }
    summary.yielding = yielding;
    proof {
        assert(flows_of(flows@) == call@.flows());
        assert(summary@ =~= SummaryModel {
            yielding: Some(
                YieldingModel {
                    values: with_yield(
                        whole.yielding->0.values,
                        call@.flows(),
                        before.ctx.branches.current(),
                        before.at(call@.location),
                    ),
                    ..whole.yielding->0
                },
            ),
            ..whole
        });
    }
    place.table.set_function(current, summary);
    proof {
        assert(place@ =~= before.with_values_yielded(call@));
    }
    owner
}

/// What values carry.
pub fn values_carry(values: &Vec<Value>) -> (r: Vec<Option<LabelBacktrace>>)
    ensures
        flows_of(r@) == values_of(values@).map_values(|v: ValueModel| carried(v)),
{
    let mut r: Vec<Option<LabelBacktrace>> = Vec::new();
    let n: usize = values.len();
    let mut i: usize = 0;
    while i < n
        invariant
            i <= n,
            n == values@.len(),
            r@.len() == i,
            forall|k: int| 0 <= k < i ==> trace_of(#[trigger] r@[k]) == carried(values@[k]@),
        decreases n - i,
    {
        r.push(values[i].backtrace());
        i = i + 1;
    }
    proof {
        assert(flows_of(r@) =~= values_of(values@).map_values(|v: ValueModel| carried(v)));
    }
    r
}

fn make_arguments(
    table: &SymbolTable,
    definitions: &OrderedMap<Pinned<Span>, usize>,
    call: &CallOperands,
    at: &Pinned<Location>,
) -> (r: Vec<Argument>)
    requires
        has_fallbacks(table@),
        definitions@ == definitions_of(table@),
        forall|d: Declaration| #[trigger]
            definitions@.dom().contains(d) ==> definitions@[d] < table@.symbols.len(),
        call.args@.len() == call.consts@.len(),
    ensures
        r@.len() == call.args@.len(),
        argument_values(r@) == call@.args,
        argument_consts(r@) == call@.consts,
        argument_hybrids(r@) == call@.hybrids(table@, at@),
{
    let ghost hybrids = call@.hybrids(table@, at@);
    let mut r: Vec<Argument> = Vec::new();
    let n: usize = call.args.len();
    let mut i: usize = 0;
    while i < n
        invariant
            i <= n,
            n == call.args@.len(),
            n == call.consts@.len(),
            has_fallbacks(table@),
            definitions@ == definitions_of(table@),
            forall|d: Declaration| #[trigger]
                definitions@.dom().contains(d) ==> definitions@[d] < table@.symbols.len(),
            hybrids == call@.hybrids(table@, at@),
            r@.len() == i,
            forall|k: int|
                0 <= k < i ==> (#[trigger] r@[k]).value@ == call.args@[k]@ && crate::symbols::const_of(
                    r@[k].known_const,
                ) == crate::symbols::const_of(call.consts@[k]) && trace_of(r@[k].hybrid)
                    == hybrids[k],
        decreases n - i,
    {
        let value = call.args[i].clone();
        let hybrid = derive_hybrid_value_backtrace(
            table,
            &call.args[i],
            definitions,
            None,
            at.duplicate(),
        );
        proof {
            assert(call@.args[i as int] == call.args@[i as int]@);
        }
        let known_const = match &call.consts[i] {
            Some(c) => Some(SimpleConstValue { text: c.text.clone() }),
            None => None,
        };
        r.push(Argument { value, known_const, hybrid });
        i = i + 1;
    }
    proof {
        assert(argument_values(r@) =~= call@.args);
        assert(argument_consts(r@) =~= call@.consts);
        assert(argument_hybrids(r@) =~= hybrids);
    }
    r
}

fn empty_concretes() -> (r: OrderedMap<usize, Option<LabelBacktrace>>)
    ensures
        concretes_of(r@) == Map::<usize, Option<Trace>>::empty(),
{
    let r: OrderedMap<usize, Option<LabelBacktrace>> = OrderedMap::new();
    proof {
        assert(concretes_of(r@) =~= Map::<usize, Option<Trace>>::empty());
    }
    r
}

/// Lets a call write to what the function captures, and finds out what that
/// carries.
fn apply_captures(
    place: &mut Place,
    definitions: &OrderedMap<Pinned<Span>, usize>,
    func: &FunctionSummary,
    args: &Vec<Argument>,
    location: Location,
    Ghost(call): Ghost<OperandsModel>,
    limit: usize,
) -> (r: Option<CallCaptureConcretes>)
    requires
        old(place).wf(),
        definitions@ == definitions_of(old(place)@.table),
        forall|d: Declaration| #[trigger]
            definitions@.dom().contains(d) ==> definitions@[d] < old(place)@.table.symbols.len(),
        has_fallbacks(old(place)@.table),
        active_in(old(place)@.active, old(place)@.table),
        func@.signature is Some,
        func@.signature->0.admits(args@.len()),
        is_well_declared(func@.signature->0),
        argument_values(args@) == call.args,
        argument_hybrids(args@) == call.hybrids(old(place)@.table, old(place)@.at(location)),
        location == call.location,
    ensures
        final(place).wf(),
        ({
            let (table, caught) = captures_applied(
                old(place)@,
                func@,
                call,
                call.hybrids(old(place)@.table, old(place)@.at(location)),
                limit as nat,
            );
            &&& final(place)@ == (PlaceModel { table, ..old(place)@ })
            &&& caught == match r {
                Some(c) => Some(
                    CaughtModel {
                        entry: concretes_of(c.at_entry@),
                        outcome: concretes_of(c.for_outcome@),
                    },
                ),
                None => None,
            }
        }),
{
    let ghost before = place@;
    let ghost t = place@.table;
    let symbols = match find_runtime_symbols(&place.table, &place.active, &func.captures) {
        Some(v) => v,
        None => {
            proof {
                assert(place@ =~= PlaceModel { table: t, ..before });
            }
            return None;
        },
    };
    let outside = find_outside(&place.table, &symbols, &place.regions);
    let at = place.ctx.log.pin(location);
    let backtraces = argument_backtraces(args);
    let params = match &func.signature {
        Some(signature) => {
            let slots = collect_parameter_slots(signature);
            proof {
                lemma_slots_are_filled(signature@, slots@, args@.len());
            }
            passed_concretes(&slots, args, &backtraces, &at)
        },
        None => Vec::new(),
    };
    let branch = calc_effective_call_site_branch_backtrace_for(&place.ctx.branches, func, &at);
    let site = CallSiteConcretes { params, branch };
    let stack = call_stack(&place.ctx);
    let ghost scene = SceneModel {
        definitions: definitions@,
        func: func@.func,
        call_stack: functions_of(stack@),
        captures: captures_of(func.captures@),
        symbols: symbols@,
        with_mutations: true,
    };
    proof {
        assert(flows_of(backtraces@) == call.flows());
        assert(scene.fits(t));
    }
    let r = apply_capture_mutations_and_derive_concretes(
        &mut place.table,
        definitions,
        &func.func,
        &stack,
        &func.captures,
        &symbols,
        &symbols,
        &outside,
        &site,
        func.deferred_checks.len() > 0,
        &at,
        limit,
    );
    proof {
        let entry = scene.entry_concretes(
            t,
            site@,
            func@.deferred_checks.len() > 0,
            limit as nat,
        );
        let first = scene.concretes_at(t, site@, limit as nat);
        if entry is Some && first is Some {
            let subs = choose|subs: Seq<Substitution>|
                {
                    let now = written_back(
                        t,
                        func@.func,
                        scene.captures,
                        site@,
                        subs,
                        symbols@,
                        outside@,
                        func.captures@.len() as int,
                    );
                    let after = scene.concretes_at(now, site@, limit as nat);
                    &&& #[trigger] lists(subs, first->0)
                    &&& place.table@ == now
                    &&& r is Some == after is Some
                    &&& r matches Some(c) ==> {
                        &&& concretes_of(c.at_entry@) == entry->0
                        &&& concretes_of(c.for_outcome@) == restored(
                            either_of_all(first->0, after->0, at@),
                            scene.captures,
                            entry->0,
                            func.captures@.len() as int,
                        )
                    }
                };
            law_substitutions_are_determined(subs, listing_of(first->0), first->0);
        }
        assert(place@ =~= PlaceModel { table: place.table@, ..before });
    }
    r
}

fn can_complete(
    ctx: &AnalysisContext,
    func: &FunctionSummary,
    call: &ResolvedCall,
    captures: &CallCaptureConcretes,
    location: Location,
) -> (r: bool)
    requires
        ctx@.log.file is Some,
        func@.signature matches Some(s) ==> s.admits(call.args@.len()) && is_well_declared(s),
    ensures
        r == (func@.signature is Some ==> can_handle(
            ctx@,
            func@.deferred_checks,
            func@.func,
            call_model(*call, *captures, None, location).check_substitutions(ctx@, func@),
        )),
{
    let signature = match &func.signature {
        Some(s) => s,
        None => {
            return true;
        },
    };
    let at = ctx.log.pin(location);
    let backtraces = argument_backtraces(&call.args);
    let receiver_backtrace = match &call.method_receiver_value {
        Some(base) => base.backtrace(),
        None => None,
    };
    let receiver = match &call.method_receiver_value {
        Some(_) => Some(receiver_backtrace.as_ref()),
        None => if func.has_receiver {
            Some(None)
        } else {
            None
        },
    };
    let slots = collect_parameter_slots(signature);
    proof {
        lemma_slots_are_filled(signature@, slots@, call.args@.len());
    }
    let params = passed_concretes(&slots, &call.args, &backtraces, &at);
    let branch = calc_effective_call_site_branch_backtrace_for(&ctx.branches, func, &at);
    let substitutions = assemble_substitutions(
        &params,
        receiver,
        branch.as_ref(),
        None,
        &captures.at_entry,
    );
    proof {
        let m = call_model(*call, *captures, None, location);
        assert(flows_of(backtraces@) == m.flows());
        assert(substitutions_of(substitutions@) == m.check_substitutions(ctx@, func@));
    }
    are_handleable(ctx, &func.deferred_checks, &func.func, &substitutions)
}

fn count_call(table: &mut SymbolTable, callee: &Value)
    requires
        old(table)@.wf(),
    ensures
        final(table)@.wf(),
        final(table)@ == call_counted(old(table)@, callee@),
{
    if let ValueForm::Function(i) = &callee.form {
        if *i < table.function_count() {
            let mut f = table.function(*i).duplicate();
            if f.call_count < usize::MAX {
                let ghost before = f@;
                f.call_count = f.call_count + 1;
                proof {
                    assert(f@ =~= SummaryModel { call_count: before.call_count + 1, ..before });
                }
                table.set_function(*i, f);
            }
        }
    }
}

fn complete_call(
    place: &mut Place,
    func: FunctionSummary,
    callee: &Value,
    call: &ResolvedCall,
    captures: &CallCaptureConcretes,
    owner: Option<&FunctionRef>,
    annotation: Option<&Annotation>,
    location: Location,
    Ghost(operands): Ghost<OperandsModel>,
) -> (r: Vec<Value>)
    requires
        old(place).wf(),
        func.wf(),
        func@.call_count < usize::MAX,
        !call.as_blackbox ==> (func@.signature matches Some(s) ==> s.admits(call.args@.len())
            && is_well_declared(s)),
        can_judge(
            old(place)@.ctx,
            call_model(*call, *captures, owner, location).flows(),
        ),
        operands.as_blackbox == call.as_blackbox,
        operands.callee == callee@,
    ensures
        final(place).wf(),
        (final(place)@, values_of(r@)) == call_completed(
            old(place)@,
            func@,
            operands,
            call_model(*call, *captures, owner, location),
            annotation,
        ),
{
    let ghost before = place@;
    let ghost m = call_model(*call, *captures, owner, location);
    let ghost f = func@;
    if !call.as_blackbox {
        proof {
            assert(call_model(*call, *captures, None, location).check_substitutions(
                before.ctx,
                f,
            ) == m.check_substitutions(before.ctx, f));
        }
        if !can_complete(&place.ctx, &func, call, captures, location) {
            place.halted = true;
            let r: Vec<Value> = Vec::new();
            proof {
                assert(values_of(r@) =~= Seq::<ValueModel>::empty());
                assert(place@ =~= before.stopped());
            }
            return r;
        }
    }
    let counts = !call.as_blackbox && (func.signature.is_some() && func.outcome.is_some()
        || func.deferred_checks.len() > 0);
    let mut func = func;
    let r = apply_resolved_call(
        &mut place.ctx,
        &mut func,
        call,
        annotation,
        captures,
        owner,
        location,
    );
    if counts {
        count_call(&mut place.table, callee);
    }
    proof {
        assert(place@ =~= call_completed(before, f, operands, m, annotation).0);
    }
    r
}

/// Applies a call whose operands have been evaluated.
pub fn apply_call_operands(
    place: &mut Place,
    call: CallOperands,
    annotation: Option<&Annotation>,
    limit: usize,
) -> (r: Vec<Value>)
    requires
        old(place).wf(),
        call.args@.len() == call.consts@.len(),
    ensures
        final(place).wf(),
        (final(place)@, values_of(r@)) == call_applied(
            old(place)@,
            call@,
            annotation,
            limit as nat,
        ),
{
    proof {
        reveal(call_applied);
    }
    let ghost start = place@;
    let ghost operands = call@;
    let nothing: Vec<Value> = Vec::new();
    proof {
        assert(values_of(nothing@) =~= Seq::<ValueModel>::empty());
    }
    let mut func = match find_callee(&place.table, &call.callee) {
        Some(f) => f,
        None => {
            place.halted = true;
            proof {
                assert(place@ =~= start.stopped());
            }
            return nothing;
        },
    };
    let owner = record_yields(place, &call);
    let ghost q = place@;
    let ghost f = func@;
    let flows = values_carry(&call.args);
    let settled = settle_checks(&func.deferred_checks);
    let matches = call.as_blackbox || match &func.signature {
        Some(s) => s.admits(call.args.len()) && is_declared_well(s),
        None => true,
    };
    let prepared = func.call_count < usize::MAX && matches && are_judgeable(&place.ctx, &flows)
        && have_fallbacks(&place.table) && are_active(&place.active, &place.table);
    let checks = match settled {
        Some(v) => if prepared {
            v
        } else {
            place.halted = true;
            proof {
                assert(place@ =~= q.stopped());
            }
            return nothing;
        },
        None => {
            place.halted = true;
            proof {
                assert(place@ =~= q.stopped());
            }
            return nothing;
        },
    };
    func.deferred_checks = checks;
    proof {
        assert(func@ =~= f);
        assert(can_prepare(q, f, operands));
    }
    let at = place.ctx.log.pin(call.location);
    let definitions = collect_definitions(&place.table);
    let args = make_arguments(&place.table, &definitions, &call, &at);
    let ghost hybrids = operands.hybrids(q.table, q.at(operands.location));
    let captures = if call.as_blackbox || func.signature.is_none() {
        Some(CallCaptureConcretes { at_entry: empty_concretes(), for_outcome: empty_concretes() })
    } else {
        apply_captures(
            place,
            &definitions,
            &func,
            &args,
            call.location,
            Ghost(operands),
            limit,
        )
    };
    let ghost now = place@;
    let captures = match captures {
        Some(c) => c,
        None => {
            place.halted = true;
            proof {
                assert(place@ =~= now.stopped());
            }
            return nothing;
        },
    };
    note_listing(&captures.at_entry);
    note_listing(&captures.for_outcome);
    let resolved = ResolvedCall {
        as_blackbox: call.as_blackbox,
        args,
        method_receiver_value: call.receiver,
    };
    let owner = owner.as_ref();
    let ghost m = call_model(resolved, captures, owner, operands.location);
    let ghost caught = CaughtModel {
        entry: concretes_of(captures.at_entry@),
        outcome: concretes_of(captures.for_outcome@),
    };
    proof {
        assert(m =~= model_of_call(now, operands, hybrids, caught, start.yields_to(operands.name)));
        assert(now.ctx == q.ctx);
        if call.as_blackbox || func.signature is None {
            assert(caught =~= nothing_caught());
            assert(now =~= PlaceModel { table: q.table, ..q });
        }
        assert(m.flows() == operands.flows());
    }
    complete_call(
        place,
        func,
        &call.callee,
        &resolved,
        &captures,
        owner,
        annotation,
        call.location,
        Ghost(operands),
    )
}

} // verus!
