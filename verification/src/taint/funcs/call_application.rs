//! Applying calls.

use vstd::prelude::*;

use crate::ast::Annotation;
use crate::context::deferred_checks::{checks_of, CheckModel};
use crate::context::{AnalysisContext, ContextModel};
use crate::functions::{FunctionModel, FunctionRef};
use crate::labels::backtraces::{copy_text, folded, listed, substitutions_of, trace_of,
    trace_of_ref, traces_of, LabelBacktrace, LabelBacktraceKind, Substitution, Trace};
use crate::labels::tags::{SyntheticSlot, TagModel};
use crate::labels::trace_laws::{all_sound, law_fold, sound, spread};
use crate::locations::{Location, Pinned, PinnedModel};
use crate::ordered::{Ordered, OrderedMap};
use crate::policy::blanket_directives::DirectiveModel;
use crate::policy::targets::{known_texts, SimpleConstValue};
use crate::context::branches::{copy_trace, BranchState};
use crate::taint::funcs::captures::CaptureModel;
use crate::taint::funcs::call_checks::{apply_call_annotation, args_at_sinks, call_annotated,
    can_handle, can_judge, checks_handled, flows_of, handle_deferred_checks, is_closed, same_place,
    trigger_function_sinks};
use crate::taint::funcs::call_resolution::{argument_consts, argument_hybrids, argument_values,
    law_applied_calls_are_complete, Argument, ResolvedCall};
use crate::taint::funcs::call_results::{add_yield_feedback, apply_call_blanket_revocations,
    apply_call_blanket_sources, blackbox_results, calculate_call_result, carrying, carrying_refs,
    fed_back, revoked, sourced, tag_results_with_declared_types, visit_blackbox_call,
    with_result_types};
use crate::taint::funcs::{calc_effective_call_site_branch_backtrace_for, collect_parameter_slots,
    effective_branch, slot_models, FunctionSummary, ParameterSlot, SignatureModel, SlotModel,
    SummaryModel};
use crate::values::{carried, value_realized, values_of, TypeModel, Value, ValueModel};

verus! {

/// What takes the place of the placeholders for captured symbols at a call.
#[derive(Debug)]
pub struct CallCaptureConcretes {
    /// As the function is entered.
    pub at_entry: OrderedMap<usize, Option<LabelBacktrace>>,
    /// As its results are calculated.
    pub for_outcome: OrderedMap<usize, Option<LabelBacktrace>>,
}

/// The substitutions for captured symbols.
pub open spec fn capture_substitutions(m: OrderedMap<usize, Option<LabelBacktrace>>) -> Seq<
    Substitution,
> {
    Seq::new(
        m.listing().len(),
        |i: int| (SyntheticSlot::Capture(m.listing()[i]), trace_of(m@[m.listing()[i]])),
    )
}

/// What is passed for a parameter: all remaining arguments, if it takes any
/// number of them; what the argument carries as a function, if it is one; or
/// else what it carries.
pub open spec fn concrete_for(
    slot: SlotModel,
    index: int,
    flows: Seq<Option<Trace>>,
    hybrids: Seq<Option<Trace>>,
    location: PinnedModel<Location>,
) -> Option<Trace> {
    if slot.variadic {
        folded(
            carrying(flows.skip(index)),
            LabelBacktraceKind::FunctionVariadicAggregation,
            slot.name,
            location,
        )
    } else if slot.is_function {
        hybrids[index]
    } else {
        flows[index]
    }
}

/// What is passed for each parameter.
pub open spec fn concretes(
    slots: Seq<SlotModel>,
    flows: Seq<Option<Trace>>,
    hybrids: Seq<Option<Trace>>,
    location: PinnedModel<Location>,
) -> Seq<Option<Trace>> {
    Seq::new(slots.len(), |i: int| concrete_for(slots[i], i, flows, hybrids, location))
}

/// What is passed for a parameter.
pub fn calculate_concrete_backtrace(
    index: usize,
    slot: &ParameterSlot,
    args: &Vec<Argument>,
    backtraces: &Vec<Option<LabelBacktrace>>,
    location: &Pinned<Location>,
) -> (r: Option<LabelBacktrace>)
    requires
        args@.len() == backtraces@.len(),
        slot.variadic ==> index <= args@.len(),
        !slot.variadic ==> index < args@.len(),
    ensures
        trace_of(r) == concrete_for(
            slot@,
            index as int,
            flows_of(backtraces@),
            argument_hybrids(args@),
            location@,
        ),
{
    if slot.variadic {
        LabelBacktrace::fold(
            &carrying_refs(backtraces, index),
            LabelBacktraceKind::FunctionVariadicAggregation,
            copy_text(&slot.name),
            location.duplicate(),
        )
    } else if slot.is_function {
        copy_trace(&args[index].hybrid)
    } else {
        copy_trace(&backtraces[index])
    }
}

/// The substitutions for the placeholders of a function at a call.
pub open spec fn call_substitutions(
    params: Seq<Option<Trace>>,
    receiver: Option<Option<Trace>>,
    branch: Option<Trace>,
    feedback: Option<Trace>,
    captures: Seq<Substitution>,
) -> Seq<Substitution> {
    Seq::new(params.len(), |i: int| (SyntheticSlot::Param(i as usize), params[i])) + (match receiver {
        Some(r) => seq![(SyntheticSlot::Receiver, r)],
        None => Seq::<Substitution>::empty(),
    }) + seq![
        (SyntheticSlot::CallSiteBranch, branch),
        (SyntheticSlot::YieldFeedback, feedback),
    ] + captures
}

/// The substitutions for the placeholders of a function at a call.
pub fn assemble_substitutions<'a>(
    params: &'a Vec<Option<LabelBacktrace>>,
    receiver: Option<Option<&'a LabelBacktrace>>,
    branch: Option<&'a LabelBacktrace>,
    feedback: Option<&'a LabelBacktrace>,
    captures: &'a OrderedMap<usize, Option<LabelBacktrace>>,
) -> (r: Vec<(SyntheticSlot, Option<&'a LabelBacktrace>)>)
    ensures
        substitutions_of(r@) == call_substitutions(
            flows_of(params@),
            match receiver {
                Some(b) => Some(trace_of_ref(b)),
                None => None,
            },
            trace_of_ref(branch),
            trace_of_ref(feedback),
            capture_substitutions(*captures),
        ),
{
    let mut r: Vec<(SyntheticSlot, Option<&'a LabelBacktrace>)> = Vec::new();
    let n: usize = params.len();
    let mut i: usize = 0;
    while i < n
        invariant
            i <= n,
            n == params@.len(),
            r@.len() == i,
            forall|k: int|
                0 <= k < i ==> (#[trigger] r@[k]).0 == SyntheticSlot::Param(k as usize)
                    && trace_of_ref(r@[k].1) == trace_of(params@[k]),
        decreases n - i,
    {
        r.push((SyntheticSlot::Param(i), params[i].as_ref()));
        i = i + 1;
    }
    let ghost ps = Seq::new(
        flows_of(params@).len(),
        |i: int| (SyntheticSlot::Param(i as usize), flows_of(params@)[i]),
    );
    proof {
        assert(substitutions_of(r@) =~= ps);
    }
    let ghost rs: Seq<Substitution> = match receiver {
        Some(b) => seq![(SyntheticSlot::Receiver, trace_of_ref(b))],
        None => Seq::<Substitution>::empty(),
    };
    match receiver {
        Some(b) => {
            r.push((SyntheticSlot::Receiver, b));
        },
        None => {},
    }
    proof {
        assert(substitutions_of(r@) =~= ps + rs);
    }
    r.push((SyntheticSlot::CallSiteBranch, branch));
    r.push((SyntheticSlot::YieldFeedback, feedback));
    let ghost bs: Seq<Substitution> = seq![
        (SyntheticSlot::CallSiteBranch, trace_of_ref(branch)),
        (SyntheticSlot::YieldFeedback, trace_of_ref(feedback)),
    ];
    proof {
        assert(substitutions_of(r@) =~= ps + rs + bs);
    }
    let ghost cs = capture_substitutions(*captures);
    let m: usize = captures.len();
    let mut j: usize = 0;
    proof {
        assert(substitutions_of(r@) =~= ps + rs + bs + cs.take(0));
    }
    while j < m
        invariant
            j <= m,
            m == captures.listing().len(),
            cs == capture_substitutions(*captures),
            substitutions_of(r@) == ps + rs + bs + cs.take(j as int),
        decreases m - j,
    {
        let ghost before = substitutions_of(r@);
        let index: usize = *captures.key_at(j);
        let concrete = captures.value_at(j).as_ref();
        r.push((SyntheticSlot::Capture(index), concrete));
        proof {
            assert(substitutions_of(r@) =~= before.push(cs[j as int]));
            assert(cs.take(j + 1) =~= cs.take(j as int).push(cs[j as int]));
        }
        j = j + 1;
    }
    proof {
        assert(cs.take(m as int) =~= cs);
    }
    r
}

/// What the analysis knows of a call where it is made.
pub struct CallModel {
    pub args: Seq<ValueModel>,
    pub hybrids: Seq<Option<Trace>>,
    pub known: Seq<Option<Seq<char>>>,
    pub receiver: Option<ValueModel>,
    pub location: Location,
    pub entry_captures: Seq<Substitution>,
    pub outcome_captures: Seq<Substitution>,
    pub yield_owner: Option<FunctionModel>,
}

impl CallModel {
    /// What the arguments carry.
    pub open spec fn flows(self) -> Seq<Option<Trace>> {
        self.args.map_values(|v: ValueModel| carried(v))
    }

    /// What takes the place of the placeholder for the receiver. A method that
    /// is called without one has been bound to it before.
    pub open spec fn receiver_flow(self, func: SummaryModel) -> Option<Option<Trace>> {
        match self.receiver {
            Some(v) => Some(carried(v)),
            None => if func.has_receiver {
                Some(None)
            } else {
                None
            },
        }
    }

    /// Where the call is made.
    pub open spec fn at(self, ctx: ContextModel) -> PinnedModel<Location> {
        PinnedModel { file: ctx.log.file->0, inner: self.location }
    }

    /// What is passed for each parameter.
    pub open spec fn passed(self, ctx: ContextModel, func: SummaryModel) -> Seq<Option<Trace>> {
        concretes(func.signature->0.slots(), self.flows(), self.hybrids, self.at(ctx))
    }

    /// The substitutions with which the checks of the function are made.
    pub open spec fn check_substitutions(self, ctx: ContextModel, func: SummaryModel) -> Seq<
        Substitution,
    > {
        call_substitutions(
            self.passed(ctx, func),
            self.receiver_flow(func),
            effective_branch(ctx.branches, func.func, func.own, self.at(ctx)),
            None,
            self.entry_captures,
        )
    }

    /// The substitutions with which the results are calculated.
    pub open spec fn result_substitutions(self, ctx: ContextModel, func: SummaryModel) -> Seq<
        Substitution,
    > {
        call_substitutions(
            self.passed(ctx, func),
            self.receiver_flow(func),
            ctx.branches.current(),
            None,
            self.outcome_captures,
        )
    }

    /// The state once the arguments have reached all sinks at the call.
    pub open spec fn sinks_reached(
        self,
        ctx: ContextModel,
        func: SummaryModel,
        annotation: Option<&Annotation>,
    ) -> ContextModel {
        args_at_sinks(
            call_annotated(ctx, annotation, self.flows(), self.location),
            func.directives,
            self.flows(),
            self.location,
            func.directives.len() as int,
        )
    }

    /// The state after the call.
    pub open spec fn applied(
        self,
        ctx: ContextModel,
        func: SummaryModel,
        annotation: Option<&Annotation>,
    ) -> ContextModel {
        let reached = self.sinks_reached(ctx, func, annotation);
        if func.signature is Some {
            checks_handled(
                reached,
                func.deferred_checks,
                func.func,
                self.check_substitutions(ctx, func),
                func.call_count,
                func.deferred_checks.len() as int,
            )
        } else {
            reached
        }
    }

    /// The results of the call.
    pub open spec fn results(self, ctx: ContextModel, func: SummaryModel) -> Seq<ValueModel> {
        let at = self.at(ctx);
        if func.signature is Some && func.outcome is Some {
            let realized = func.outcome->0.map_values(
                |v: ValueModel|
                    value_realized(v, func.func, self.result_substitutions(ctx, func)),
            );
            let accessed = accessed_through(
                sourced(realized, func.directives, self.known, at),
                func.own,
                at,
            );
            with_result_types(
                relocated(revoked(accessed, func.directives, self.known), at),
                func.declared_result_types,
            )
        } else {
            revoked(
                sourced(
                    fed_back(
                        blackbox_results(
                            func.own,
                            func.signature,
                            func.declared_result_types,
                            self.flows(),
                            at,
                        ),
                        self.yield_owner,
                        at,
                    ),
                    func.directives,
                    self.known,
                    at,
                ),
                func.directives,
                self.known,
            )
        }
    }

    /// Whether the call counts, so that the next one is told apart from it.
    pub open spec fn counts(self, func: SummaryModel) -> bool {
        func.signature is Some && func.outcome is Some || func.deferred_checks.len() > 0
    }
}

/// Results with what an access to the function carries.
pub open spec fn accessed_through(
    results: Seq<ValueModel>,
    own: Option<Trace>,
    location: PinnedModel<Location>,
) -> Seq<ValueModel> {
    match own {
        Some(t) => Seq::new(
            results.len(),
            |i: int|
                results[i].nesting(LabelBacktraceKind::Expression, None, location, seq![t]),
        ),
        None => results,
    }
}

/// Results that come from a place.
pub open spec fn relocated(results: Seq<ValueModel>, location: PinnedModel<Location>) -> Seq<
    ValueModel,
> {
    Seq::new(results.len(), |i: int| ValueModel { location, ..results[i] })
}

/// What is known of a call.
pub open spec fn call_model(
    call: ResolvedCall,
    captures: CallCaptureConcretes,
    yield_owner: Option<&FunctionRef>,
    location: Location,
) -> CallModel {
    CallModel {
        args: argument_values(call.args@),
        hybrids: argument_hybrids(call.args@),
        known: argument_consts(call.args@),
        receiver: match call.method_receiver_value {
            Some(v) => Some(v@),
            None => None,
        },
        location,
        entry_captures: capture_substitutions(captures.at_entry),
        outcome_captures: capture_substitutions(captures.for_outcome),
        yield_owner: match yield_owner {
            Some(f) => Some(f@),
            None => None,
        },
    }
}

fn nest_access(results: &mut Vec<Value>, own: &Option<LabelBacktrace>, location: &Pinned<Location>)
    ensures
        values_of(final(results)@) == accessed_through(
            values_of(old(results)@),
            trace_of(*own),
            location@,
        ),
{
    let b = match own {
        Some(b) => b,
        None => {
            return;
        },
    };
    let mut more: Vec<LabelBacktrace> = Vec::new();
    more.push(b.clone());
    proof {
        assert(traces_of(more@) =~= seq![b@]);
    }
    let ghost all = values_of(results@);
    let n: usize = results.len();
    let mut i: usize = 0;
    while i < n
        invariant
            i <= n,
            n == results@.len(),
            n == all.len(),
            traces_of(more@) == seq![b@],
            forall|k: int|
                0 <= k < i ==> (#[trigger] results@[k])@ == all[k].nesting(
                    LabelBacktraceKind::Expression,
                    None,
                    location@,
                    seq![b@],
                ),
            forall|k: int| i <= k < n ==> (#[trigger] results@[k])@ == all[k],
        decreases n - i,
    {
        let mut value = results.remove(i);
        value.nest_backtrace(LabelBacktraceKind::Expression, None, location.duplicate(), &more);
        results.insert(i, value);
        i = i + 1;
    }
    proof {
        assert(values_of(results@) =~= accessed_through(all, Some(b@), location@));
    }
}

fn relocate(results: &mut Vec<Value>, location: &Pinned<Location>)
    ensures
        values_of(final(results)@) == relocated(values_of(old(results)@), location@),
{
    let ghost all = values_of(results@);
    let n: usize = results.len();
    let mut i: usize = 0;
    while i < n
        invariant
            i <= n,
            n == results@.len(),
            n == all.len(),
            forall|k: int|
                0 <= k < i ==> (#[trigger] results@[k])@ == (ValueModel {
                    location: location@,
                    ..all[k]
                }),
            forall|k: int| i <= k < n ==> (#[trigger] results@[k])@ == all[k],
        decreases n - i,
    {
        let mut value = results.remove(i);
        value.set_location(location.duplicate());
        results.insert(i, value);
        i = i + 1;
    }
    proof {
        assert(values_of(results@) =~= relocated(all, location@));
    }
}

pub(crate) fn argument_backtraces(args: &Vec<Argument>) -> (r: Vec<Option<LabelBacktrace>>)
    ensures
        flows_of(r@) == argument_values(args@).map_values(|v: ValueModel| carried(v)),
        r@.len() == args@.len(),
{
    let mut r: Vec<Option<LabelBacktrace>> = Vec::new();
    let n: usize = args.len();
    let mut i: usize = 0;
    while i < n
        invariant
            i <= n,
            n == args@.len(),
            r@.len() == i,
            forall|k: int| 0 <= k < i ==> trace_of(#[trigger] r@[k]) == carried(args@[k].value@),
        decreases n - i,
    {
        r.push(args[i].value.backtrace());
        i = i + 1;
    }
    proof {
        assert(flows_of(r@) =~= argument_values(args@).map_values(|v: ValueModel| carried(v)));
    }
    r
}

fn known_consts(args: &Vec<Argument>) -> (r: Vec<Option<SimpleConstValue>>)
    ensures
        known_texts(r@) == argument_consts(args@),
{
    let mut r: Vec<Option<SimpleConstValue>> = Vec::new();
    let n: usize = args.len();
    let mut i: usize = 0;
    while i < n
        invariant
            i <= n,
            n == args@.len(),
            r@.len() == i,
            forall|k: int|
                0 <= k < i ==> match (#[trigger] r@[k], args@[k].known_const) {
                    (Some(a), Some(b)) => a.text@ == b.text@,
                    (None, None) => true,
                    _ => false,
                },
        decreases n - i,
    {
        let known = match &args[i].known_const {
            Some(c) => Some(SimpleConstValue { text: c.text.clone() }),
            None => None,
        };
        r.push(known);
        i = i + 1;
    }
    proof {
        assert(known_texts(r@) =~= argument_consts(args@));
    }
    r
}

pub(crate) fn passed_concretes(
    slots: &Vec<ParameterSlot>,
    args: &Vec<Argument>,
    backtraces: &Vec<Option<LabelBacktrace>>,
    location: &Pinned<Location>,
) -> (r: Vec<Option<LabelBacktrace>>)
    requires
        args@.len() == backtraces@.len(),
        forall|i: int|
            0 <= i < slots@.len() ==> if (#[trigger] slots@[i]).variadic {
                i <= args@.len()
            } else {
                i < args@.len()
            },
    ensures
        flows_of(r@) == concretes(
            slot_models(slots@),
            flows_of(backtraces@),
            argument_hybrids(args@),
            location@,
        ),
{
    let mut r: Vec<Option<LabelBacktrace>> = Vec::new();
    let n: usize = slots.len();
    let mut i: usize = 0;
    while i < n
        invariant
            i <= n,
            n == slots@.len(),
            r@.len() == i,
            args@.len() == backtraces@.len(),
            forall|i: int|
                0 <= i < slots@.len() ==> if (#[trigger] slots@[i]).variadic {
                    i <= args@.len()
                } else {
                    i < args@.len()
                },
            forall|k: int|
                0 <= k < i ==> trace_of(#[trigger] r@[k]) == concrete_for(
                    slots@[k]@,
                    k,
                    flows_of(backtraces@),
                    argument_hybrids(args@),
                    location@,
                ),
        decreases n - i,
    {
        proof {
            let s = slots@[i as int];
            assert(if s.variadic {
                i <= args@.len()
            } else {
                i < args@.len()
            });
        }
        r.push(calculate_concrete_backtrace(i, &slots[i], args, backtraces, location));
        i = i + 1;
    }
    proof {
        assert(flows_of(r@) =~= concretes(
            slot_models(slots@),
            flows_of(backtraces@),
            argument_hybrids(args@),
            location@,
        ));
    }
    r
}

/// A variadic slot is the last one, or has an argument.
pub open spec fn is_well_declared(s: SignatureModel) -> bool {
    forall|i: int|
        0 <= i < s.slots().len() - 1 ==> !(#[trigger] s.slots()[i]).variadic
}

/// Applies a call: lets the arguments reach the sinks at the call and those of
/// the function, makes the checks that were put off until it, and calculates
/// its results.
///
/// The arguments match the parameters of the function, and every flow can be
/// judged at the call or be put off further.
pub fn apply_call(
    ctx: &mut AnalysisContext,
    func: &mut FunctionSummary,
    call: &ResolvedCall,
    annotation: Option<&Annotation>,
    captures: &CallCaptureConcretes,
    yield_owner: Option<&FunctionRef>,
    location: Location,
) -> (r: Vec<Value>)
    requires
        old(ctx).wf(),
        old(ctx)@.log.file is Some,
        old(func).wf(),
        old(func).call_count < usize::MAX,
        old(func)@.signature matches Some(s) ==> s.admits(call.args@.len()) && is_well_declared(s),
        can_judge(
            old(ctx)@,
            call_model(*call, *captures, yield_owner, location).flows(),
        ),
        old(func)@.signature is Some ==> can_handle(
            old(ctx)@,
            old(func)@.deferred_checks,
            old(func)@.func,
            call_model(*call, *captures, yield_owner, location).check_substitutions(
                old(ctx)@,
                old(func)@,
            ),
        ),
    ensures
        same_place(old(ctx)@, final(ctx)@),
        final(ctx).wf(),
        final(func).wf(),
        final(ctx)@ == call_model(*call, *captures, yield_owner, location).applied(
            old(ctx)@,
            old(func)@,
            annotation,
        ),
        values_of(r@) == call_model(*call, *captures, yield_owner, location).results(
            old(ctx)@,
            old(func)@,
        ),
        final(func)@ == (SummaryModel {
            call_count: old(func)@.call_count + if call_model(
                *call,
                *captures,
                yield_owner,
                location,
            ).counts(old(func)@) {
                1nat
            } else {
                0nat
            },
            ..old(func)@
        }),
{
    let ghost start = ctx@;
    let ghost f = func@;
    let ghost m = call_model(*call, *captures, yield_owner, location);
    let backtraces = argument_backtraces(&call.args);
    let ghost flows = flows_of(backtraces@);
    proof {
        assert(flows == m.flows());
    }
    apply_call_annotation(ctx, annotation, &backtraces, location);
    proof {
        lemma_can_judge(start, ctx@, flows);
    }
    let call_location = ctx.log.pin(location);
    trigger_function_sinks(ctx, &func.directives, &backtraces, location);
    let arg_consts = known_consts(&call.args);
    let receiver_backtrace = match &call.method_receiver_value {
        Some(base) => base.backtrace(),
        None => None,
    };
    let receiver = match &call.method_receiver_value {
        Some(_) => Some(receiver_backtrace.as_ref()),
        None => if func.has_receiver {
            Some(None)
        } else {
            None
        },
    };
    let params = match &func.signature {
        Some(signature) => {
            let slots = collect_parameter_slots(signature);
            proof {
                lemma_slots_are_filled(signature@, slots@, call.args@.len());
            }
            let params = passed_concretes(&slots, &call.args, &backtraces, &call_location);
            let branch = calc_effective_call_site_branch_backtrace_for(
                &ctx.branches,
                func,
                &call_location,
            );
            let substitutions = assemble_substitutions(
                &params,
                receiver,
                branch.as_ref(),
                None,
                &captures.at_entry,
            );
            proof {
                assert(substitutions_of(substitutions@) == m.check_substitutions(start, f));
            }
            handle_deferred_checks(
                ctx,
                &func.deferred_checks,
                &func.func,
                &substitutions,
                func.call_count,
            );
            Some(params)
        },
        None => None,
    };
    let results = match (&func.outcome, &params) {
        (Some(outcome), Some(params)) => {
            let branch = ctx.branches.branch_backtrace();
            let substitutions = assemble_substitutions(
                params,
                receiver,
                branch,
                None,
                &captures.for_outcome,
            );
            proof {
                assert(substitutions_of(substitutions@) == m.result_substitutions(start, f));
            }
            let mut results = calculate_call_result(&func.func, outcome, &substitutions);
            apply_call_blanket_sources(
                &mut results,
                &func.directives,
                &arg_consts,
                &call_location,
            );
            nest_access(&mut results, &func.own, &call_location);
            apply_call_blanket_revocations(&mut results, &func.directives, &arg_consts);
            relocate(&mut results, &call_location);
            tag_results_with_declared_types(&mut results, &func.declared_result_types);
            results
        },
        _ => {
            let mut results = visit_blackbox_call(
                &func.own,
                &func.signature,
                &func.declared_result_types,
                &backtraces,
                &call_location,
            );
            add_yield_feedback(&mut results, yield_owner, &call_location);
            apply_call_blanket_sources(
                &mut results,
                &func.directives,
                &arg_consts,
                &call_location,
            );
            apply_call_blanket_revocations(&mut results, &func.directives, &arg_consts);
            results
        },
    };
    let known_implementation = func.signature.is_some() && func.outcome.is_some();
    let has_checks = func.deferred_checks.len() > 0;
    proof {
        assert(checks_of(func.deferred_checks@).len() == func.deferred_checks@.len());
    }
    if known_implementation || has_checks {
        func.call_count = func.call_count + 1;
    }
    results
}

/// A function of which nothing is known but that it is a method, and what an
/// access to it carries.
pub open spec fn unknown_like(func: SummaryModel) -> SummaryModel {
    SummaryModel {
        func: func.func,
        own: func.own,
        signature: None,
        has_receiver: true,
        is_type_constructor: false,
        directives: Seq::<DirectiveModel>::empty(),
        deferred_checks: Seq::<CheckModel>::empty(),
        outcome: None,
        call_count: 0,
        declared_result_types: Seq::<Option<TypeModel>>::empty(),
        captures: Seq::<CaptureModel>::empty(),
        yielding: None,
    }
}

/// Applies a call as it was resolved. If the function cannot be meant, one of
/// which nothing is known takes its place.
pub fn apply_resolved_call(
    ctx: &mut AnalysisContext,
    func: &mut FunctionSummary,
    call: &ResolvedCall,
    annotation: Option<&Annotation>,
    captures: &CallCaptureConcretes,
    yield_owner: Option<&FunctionRef>,
    location: Location,
) -> (r: Vec<Value>)
    requires
        old(ctx).wf(),
        old(ctx)@.log.file is Some,
        old(func).wf(),
        old(func).call_count < usize::MAX,
        !call.as_blackbox ==> (old(func)@.signature matches Some(s) ==> s.admits(call.args@.len())
            && is_well_declared(s)),
        can_judge(
            old(ctx)@,
            call_model(*call, *captures, yield_owner, location).flows(),
        ),
        !call.as_blackbox && old(func)@.signature is Some ==> can_handle(
            old(ctx)@,
            old(func)@.deferred_checks,
            old(func)@.func,
            call_model(*call, *captures, yield_owner, location).check_substitutions(
                old(ctx)@,
                old(func)@,
            ),
        ),
    ensures
        same_place(old(ctx)@, final(ctx)@),
        final(ctx).wf(),
        final(func).wf(),
        ({
            let m = call_model(*call, *captures, yield_owner, location);
            let f = if call.as_blackbox {
                unknown_like(old(func)@)
            } else {
                old(func)@
            };
            &&& final(ctx)@ == m.applied(old(ctx)@, f, annotation)
            &&& values_of(r@) == m.results(old(ctx)@, f)
            &&& final(func)@ == (SummaryModel {
                call_count: old(func)@.call_count + if !call.as_blackbox && m.counts(f) {
                    1nat
                } else {
                    0nat
                },
                ..old(func)@
            })
        }),
{
    if call.as_blackbox {
        let mut unknown = FunctionSummary::new_unknown(
            func.func.duplicate(),
            copy_trace(&func.own),
            true,
        );
        apply_call(ctx, &mut unknown, call, annotation, captures, yield_owner, location)
    } else {
        apply_call(ctx, func, call, annotation, captures, yield_owner, location)
    }
}

proof fn lemma_can_judge(a: ContextModel, b: ContextModel, flows: Seq<Option<Trace>>)
    requires
        same_place(a, b),
        can_judge(a, flows),
    ensures
        can_judge(b, flows),
{
    if !a.can_defer() {
        assert forall|i: int| 0 <= i < flows.len() implies is_closed(b, #[trigger] flows[i]) by {
            assert(is_closed(a, flows[i]));
        }
    }
}

pub(crate) proof fn lemma_slots_are_filled(s: SignatureModel, slots: Seq<ParameterSlot>, args: nat)
    requires
        slot_models(slots) == s.slots(),
        s.admits(args),
        is_well_declared(s),
    ensures
        forall|i: int|
            0 <= i < slots.len() ==> if (#[trigger] slots[i]).variadic {
                i <= args
            } else {
                i < args
            },
{
    assert forall|i: int| 0 <= i < slots.len() implies if (#[trigger] slots[i]).variadic {
        i <= args
    } else {
        i < args
    } by {
        assert(s.slots()[i] == slots[i]@);
        if !slots[i].variadic {
            law_applied_calls_are_complete(s, args, i);
        } else {
            assert(i == slots.len() - 1);
        }
    }
}

proof fn lemma_carrying(flows: Seq<Option<Trace>>, i: int)
    requires
        0 <= i < flows.len(),
        flows[i] is Some,
    ensures
        exists|k: int|
            0 <= k < carrying(flows).len() && #[trigger] carrying(flows)[k] == flows[i]->0,
    decreases flows.len(),
{
    let front = carrying(flows.drop_last());
    let all = carrying(flows);
    if i == flows.len() - 1 {
        assert(all[front.len() as int] == flows[i]->0);
    } else {
        lemma_carrying(flows.drop_last(), i);
        let k = choose|k: int| 0 <= k < front.len() && #[trigger] front[k] == flows[i]->0;
        assert(all[k] == front[k]);
    }
}

proof fn lemma_carrying_sound(flows: Seq<Option<Trace>>)
    requires
        forall|i: int| 0 <= i < flows.len() ==> (#[trigger] flows[i] matches Some(t) ==> sound(t)),
    ensures
        all_sound(carrying(flows)),
    decreases flows.len(),
{
    if flows.len() > 0 {
        assert forall|i: int| 0 <= i < flows.drop_last().len() implies (
        #[trigger] flows.drop_last()[i] matches Some(t) ==> sound(t)) by {
            assert(flows[i] == flows.drop_last()[i]);
        }
        lemma_carrying_sound(flows.drop_last());
        assert(flows[flows.len() - 1] == flows.last());
    }
}

/// A function of which no implementation is known hides nothing: each of its
/// results carries all that each of the arguments carries.
pub proof fn law_blackboxes_keep_taint(
    own: Option<Trace>,
    signature: SignatureModel,
    flows: Seq<Option<Trace>>,
    location: PinnedModel<Location>,
    arg: int,
    result: int,
)
    requires
        forall|i: int| 0 <= i < flows.len() ==> (#[trigger] flows[i] matches Some(t) ==> sound(t)),
        own matches Some(t) ==> sound(t),
        0 <= arg < flows.len(),
        flows[arg] is Some,
        0 <= result < signature.result_count,
    ensures
        ({
            let r = blackbox_results(
                own,
                Some(signature),
                Seq::<Option<TypeModel>>::empty(),
                flows,
                location,
            )[result];
            carried(r) matches Some(t) && flows[arg]->0.label.subset_of(t.label)
        }),
{
    lemma_carrying_sound(flows);
    lemma_carrying(flows, arg);
    let inputs = carrying(flows) + listed(own);
    assert(all_sound(inputs)) by {
        assert forall|i: int| 0 <= i < inputs.len() implies sound(#[trigger] inputs[i]) by {
            if i < carrying(flows).len() {
                assert(inputs[i] == carrying(flows)[i]);
            }
        }
    }
    law_fold(inputs, LabelBacktraceKind::BlackboxCall, None, location);
    let k = choose|k: int|
        0 <= k < carrying(flows).len() && #[trigger] carrying(flows)[k] == flows[arg]->0;
    assert(inputs[k] == flows[arg]->0);
    assert forall|x: TagModel| flows[arg]->0.label.contains(x) implies spread(inputs).contains(
        x,
    ) by {
        assert(inputs[k].label.contains(x));
    }
    assert(flows[arg]->0.label != Set::<TagModel>::empty());
}

/// A call of a function that drives a loop. It is passed a function that takes
/// the values for each iteration, of which nothing but its results matters.
#[derive(Debug)]
pub struct IterableFunctionCall {
    args: Vec<Value>,
    capture_concretes: CallCaptureConcretes,
    call_branch: Option<LabelBacktrace>,
}

impl IterableFunctionCall {
    /// The arguments of the call.
    pub closed spec fn args(&self) -> Seq<ValueModel> {
        values_of(self.args@)
    }

    /// What takes the place of the placeholders for captured symbols as the
    /// function is entered.
    pub closed spec fn entry_captures(&self) -> Seq<Substitution> {
        capture_substitutions(self.capture_concretes.at_entry)
    }

    /// What decides whether the call is made.
    pub closed spec fn branch(&self) -> Option<Trace> {
        trace_of(self.call_branch)
    }

    /// Begins a call of a function that drives a loop, before the body of the
    /// loop is visited.
    pub fn new(
        branches: &BranchState,
        func: &FunctionSummary,
        captures: CallCaptureConcretes,
        location: &Pinned<Location>,
    ) -> (r: Self)
        ensures
            r.args() == Seq::new(
                match func@.signature {
                    Some(s) => s.slots().len(),
                    None => 0,
                },
                |i: int| ValueModel::simple(None, location@),
            ),
            r.entry_captures() == capture_substitutions(captures.at_entry),
            r.branch() == effective_branch(branches@, func@.func, func@.own, location@),
    {
        let n: usize = match &func.signature {
            Some(s) => s.count_inputs(),
            None => 0,
        };
        let mut args: Vec<Value> = Vec::new();
        let mut i: usize = 0;
        while i < n
            invariant
                i <= n,
                args@.len() == i,
                forall|k: int|
                    0 <= k < i ==> (#[trigger] args@[k])@ == ValueModel::simple(None, location@),
            decreases n - i,
        {
            args.push(Value::from_backtrace_or_bottom_at(None, location));
            i = i + 1;
        }
        let call_branch = calc_effective_call_site_branch_backtrace_for(branches, func, location);
        let r = IterableFunctionCall { args, capture_concretes: captures, call_branch };
        proof {
            assert(r.args() =~= Seq::new(
                n as nat,
                |i: int| ValueModel::simple(None, location@),
            ));
        }
        r
    }

    /// The substitutions with which the checks of the function are made: nothing
    /// is passed, but the body of the loop feeds something back.
    pub open spec fn substitutions(&self, feedback: Option<Trace>) -> Seq<Substitution> {
        call_substitutions(
            Seq::new(self.args().len(), |i: int| None::<Trace>),
            None,
            self.branch(),
            feedback,
            self.entry_captures(),
        )
    }

    /// Ends a call of a function that drives a loop, once it is known what the
    /// body of the loop feeds back: makes the checks that were put off until the
    /// call.
    pub fn apply(
        self,
        ctx: &mut AnalysisContext,
        func: &mut FunctionSummary,
        feedback: Option<&LabelBacktrace>,
    )
        requires
            old(ctx).wf(),
            old(func).wf(),
            old(func).call_count < usize::MAX,
            can_handle(
                old(ctx)@,
                old(func)@.deferred_checks,
                old(func)@.func,
                self.substitutions(trace_of_ref(feedback)),
            ),
        ensures
            final(ctx).wf(),
            final(func).wf(),
            final(ctx)@ == checks_handled(
                old(ctx)@,
                old(func)@.deferred_checks,
                old(func)@.func,
                self.substitutions(trace_of_ref(feedback)),
                old(func)@.call_count,
                old(func)@.deferred_checks.len() as int,
            ),
            final(func)@ == (SummaryModel {
                call_count: old(func)@.call_count + if old(func)@.outcome is Some {
                    1nat
                } else {
                    0nat
                },
                ..old(func)@
            }),
    {
        let ghost f = func@;
        let ghost count = self.args().len();
        let n: usize = self.args.len();
        let mut params: Vec<Option<LabelBacktrace>> = Vec::new();
        let mut i: usize = 0;
        while i < n
            invariant
                i <= n,
                params@.len() == i,
                forall|k: int| 0 <= k < i ==> (#[trigger] params@[k]) is None,
            decreases n - i,
        {
            params.push(None);
            i = i + 1;
        }
        proof {
            assert(flows_of(params@) =~= Seq::new(count, |i: int| None::<Trace>));
        }
        let substitutions = assemble_substitutions(
            &params,
            None,
            self.call_branch.as_ref(),
            feedback,
            &self.capture_concretes.at_entry,
        );
        handle_deferred_checks(
            ctx,
            &func.deferred_checks,
            &func.func,
            &substitutions,
            func.call_count,
        );
        if func.outcome.is_some() {
            func.call_count = func.call_count + 1;
        }
    }
}

} // verus!
