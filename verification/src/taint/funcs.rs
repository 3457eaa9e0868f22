//! Functions and their calls.

use vstd::prelude::*;

use crate::context::branches::{copy_trace, BranchModel, BranchState};
use crate::context::deferred_checks::{checks_of, checks_wf, CheckModel, DeferredEnforcementCheck};
use crate::context::reports::ErrorLog;
use crate::errors::{AnalysisErrorKind, ErrorModel};
use crate::functions::{FunctionModel, FunctionRef};
use crate::labels::backtraces::{combined, realized, trace_of, trace_of_ref, LabelBacktrace,
    LabelBacktraceKind, Trace};
use crate::labels::tags::{text_of, SyntheticSlot};
use crate::locations::{Location, Pinned, PinnedModel, Span, SpanModel};
use crate::ordered::Ordered;
use crate::policy::blanket_directives::{directives_of, BlanketDirective, DirectiveModel};
use crate::taint::funcs::call_checks::flows_of;
use crate::taint::funcs::captures::{captures_of, CaptureBinding, CaptureModel};
use crate::values::{carried, type_of, types_of, values_of, TypeInfo, TypeModel, Value, ValueModel};

pub mod bodies;
pub mod builtins;
pub mod call_application;
pub mod call_checks;
pub mod call_resolution;
pub mod call_results;
pub mod captures;
pub mod defers;
pub mod definitions;
pub mod outcomes;
pub mod summaries;

verus! {

/// A declaration of parameters, which may name several of the same type, or
/// none.
#[derive(Debug)]
pub struct ParamDecl {
    /// The names.
    pub ids: Vec<Span>,
    /// Whether any number of arguments is taken.
    pub variadic: bool,
    /// Whether the type is that of a function.
    pub is_function: bool,
}

/// What a [`ParamDecl`] stands for.
#[verifier::ext_equal]
pub struct ParamModel {
    pub ids: Seq<SpanModel>,
    pub variadic: bool,
    pub is_function: bool,
}

impl View for ParamDecl {
    type V = ParamModel;

    open spec fn view(&self) -> ParamModel {
        ParamModel {
            ids: self.ids@.map_values(|s: Span| s@),
            variadic: self.variadic,
            is_function: self.is_function,
        }
    }
}

/// What a list of declarations of parameters stands for.
pub open spec fn params_of(s: Seq<ParamDecl>) -> Seq<ParamModel> {
    s.map_values(|p: ParamDecl| p@)
}

/// A place for an argument.
#[derive(Debug)]
pub struct ParameterSlot {
    /// The name of the parameter, if it has one.
    pub name: Option<String>,
    /// Whether all further arguments go here too.
    pub variadic: bool,
    /// Whether the type is that of a function.
    pub is_function: bool,
}

/// What a [`ParameterSlot`] stands for.
#[verifier::ext_equal]
pub struct SlotModel {
    pub name: Option<Seq<char>>,
    pub variadic: bool,
    pub is_function: bool,
}

impl View for ParameterSlot {
    type V = SlotModel;

    open spec fn view(&self) -> SlotModel {
        SlotModel {
            name: text_of(self.name),
            variadic: self.variadic,
            is_function: self.is_function,
        }
    }
}

/// What a list of slots stands for.
pub open spec fn slot_models(s: Seq<ParameterSlot>) -> Seq<SlotModel> {
    s.map_values(|p: ParameterSlot| p@)
}

/// The slots of one declaration: one for each name, or one without a name.
pub open spec fn slots_of_param(p: ParamModel) -> Seq<SlotModel> {
    if p.ids.len() == 0 {
        seq![SlotModel { name: None, variadic: p.variadic, is_function: p.is_function }]
    } else {
        p.ids.map_values(
            |id: SpanModel|
                SlotModel {
                    name: Some(id.content),
                    variadic: p.variadic,
                    is_function: p.is_function,
                },
        )
    }
}

/// The slots of several declarations.
pub open spec fn slots_of(params: Seq<ParamModel>) -> Seq<SlotModel>
    decreases params.len(),
{
    if params.len() == 0 {
        Seq::<SlotModel>::empty()
    } else {
        slots_of(params.drop_last()) + slots_of_param(params.last())
    }
}

/// The parameters and results of a function.
#[derive(Debug)]
pub struct Signature {
    /// The parameters.
    pub params: Vec<ParamDecl>,
    /// How many results there are.
    pub result_count: usize,
}

/// What a [`Signature`] stands for.
#[verifier::ext_equal]
pub struct SignatureModel {
    pub params: Seq<ParamModel>,
    pub result_count: nat,
}

impl View for Signature {
    type V = SignatureModel;

    open spec fn view(&self) -> SignatureModel {
        SignatureModel { params: params_of(self.params@), result_count: self.result_count as nat }
    }
}

impl SignatureModel {
    /// The places for arguments.
    pub open spec fn slots(self) -> Seq<SlotModel> {
        slots_of(self.params)
    }

    /// Whether the last parameter takes any number of arguments.
    pub open spec fn is_variadic(self) -> bool {
        self.params.len() > 0 && self.params.last().variadic
    }

    /// Whether a call may have so many arguments. A last parameter that takes
    /// any number may also get none.
    pub open spec fn admits(self, args: nat) -> bool {
        args == self.slots().len() || self.is_variadic() && args + 1 >= self.slots().len()
    }
}

/// The places for arguments, in order.
pub fn collect_parameter_slots(signature: &Signature) -> (r: Vec<ParameterSlot>)
    ensures
        slot_models(r@) == signature@.slots(),
{
    let mut slots: Vec<ParameterSlot> = Vec::new();
    let ghost ps = params_of(signature.params@);
    let n: usize = signature.params.len();
    let mut i: usize = 0;
    proof {
        assert(slot_models(slots@) =~= slots_of(ps.take(0)));
    }
    while i < n
        invariant
            i <= n,
            n == signature.params@.len(),
            ps == params_of(signature.params@),
            slot_models(slots@) == slots_of(ps.take(i as int)),
        decreases n - i,
    {
        let param = &signature.params[i];
        let ghost before = slot_models(slots@);
        let ghost of_param = slots_of_param(param@);
        let m: usize = param.ids.len();
        if m == 0 {
            slots.push(
                ParameterSlot {
                    name: None,
                    variadic: param.variadic,
                    is_function: param.is_function,
                },
            );
            proof {
                assert(slot_models(slots@) =~= before + of_param);
            }
        } else {
            let mut j: usize = 0;
            proof {
                assert(slot_models(slots@) =~= before + of_param.take(0));
            }
            while j < m
                invariant
                    j <= m,
                    m > 0,
                    m == param.ids@.len(),
                    of_param == slots_of_param(param@),
                    slot_models(slots@) == before + of_param.take(j as int),
                decreases m - j,
            {
                let ghost sofar = slot_models(slots@);
                slots.push(
                    ParameterSlot {
                        name: Some(param.ids[j].content.clone()),
                        variadic: param.variadic,
                        is_function: param.is_function,
                    },
                );
                proof {
                    assert(slots@.last()@ == of_param[j as int]);
                    assert(slot_models(slots@) =~= sofar.push(of_param[j as int]));
                    assert(of_param.take(j + 1) =~= of_param.take(j as int).push(
                        of_param[j as int],
                    ));
                }
                j = j + 1;
            }
            proof {
                assert(of_param.take(m as int) =~= of_param);
            }
        }
        proof {
            assert(ps.take(i + 1).drop_last() =~= ps.take(i as int));
            assert(ps.take(i + 1).last() == param@);
        }
        i = i + 1;
    }
    proof {
        assert(ps.take(n as int) =~= ps);
    }
    slots
}

impl Signature {
    /// How many arguments a call has, if the last parameter takes just one.
    pub fn count_inputs(&self) -> (r: usize)
        ensures
            r == self@.slots().len(),
    {
        let slots = collect_parameter_slots(self);
        proof {
            assert(slot_models(slots@).len() == slots@.len());
        }
        slots.len()
    }

    /// Whether a call may have so many arguments.
    pub fn admits(&self, args: usize) -> (r: bool)
        ensures
            r == self@.admits(args as nat),
    {
        let count: usize = self.count_inputs();
        if args == count {
            return true;
        }
        let n: usize = self.params.len();
        proof {
            assert(params_of(self.params@).len() == n);
        }
        n > 0 && self.params[n - 1].variadic && (args >= count || args == count - 1)
    }
}

/// What is known of a function.
#[derive(Debug)]
pub struct FunctionSummary {
    /// Which function.
    pub func: FunctionRef,
    /// What an access to the function carries.
    pub own: Option<LabelBacktrace>,
    /// The parameters and results, if they are known.
    pub signature: Option<Signature>,
    /// Whether it is a method.
    pub has_receiver: bool,
    /// Whether a call is in fact a conversion.
    pub is_type_constructor: bool,
    /// What the policy says of its calls.
    pub directives: Vec<BlanketDirective>,
    /// The checks to be made at each call.
    pub deferred_checks: Vec<DeferredEnforcementCheck>,
    /// The results, if there is a known implementation.
    pub outcome: Option<Vec<Value>>,
    /// How often it was called.
    pub call_count: usize,
    /// The declared types of the results.
    pub declared_result_types: Vec<Option<TypeInfo>>,
    /// What it captures from outer scopes.
    pub captures: Vec<CaptureBinding>,
    /// What it hands to the loops that go through it, if they can.
    pub yielding: Option<Yielding>,
}

/// What a function hands to the loops that go through it.
#[derive(Debug)]
pub struct Yielding {
    /// The parameter that it calls to do so.
    pub param: Pinned<Span>,
    /// What each of the values that it hands over carries.
    pub values: Vec<Option<LabelBacktrace>>,
}

/// What a [`Yielding`] stands for.
#[verifier::ext_equal]
pub struct YieldingModel {
    pub param: PinnedModel<SpanModel>,
    pub values: Seq<Option<Trace>>,
}

/// What is handed over once some more is: each value carries what it is given
/// and whether it is given.
pub open spec fn with_yield(
    values: Seq<Option<Trace>>,
    flows: Seq<Option<Trace>>,
    branch: Option<Trace>,
    at: PinnedModel<Location>,
) -> Seq<Option<Trace>> {
    Seq::new(
        values.len(),
        |i: int|
            combined(
                values[i],
                combined(
                    if i < flows.len() {
                        flows[i]
                    } else {
                        None
                    },
                    branch,
                    LabelBacktraceKind::Expression,
                    at,
                ),
                LabelBacktraceKind::Expression,
                at,
            ),
    )
}

impl View for Yielding {
    type V = YieldingModel;

    open spec fn view(&self) -> YieldingModel {
        YieldingModel { param: self.param@, values: flows_of(self.values@) }
    }
}

/// What an optional [`Yielding`] stands for.
pub open spec fn yielding_of(y: Option<Yielding>) -> Option<YieldingModel> {
    match y {
        Some(x) => Some(x@),
        None => None,
    }
}

impl Yielding {
    /// Something of which nothing is handed over yet.
    pub fn new(param: Pinned<Span>, count: usize) -> (r: Self)
        ensures
            r@ == (YieldingModel { param: param@, values: Seq::new(count as nat, |i: int| None) }),
    {
        let mut values: Vec<Option<LabelBacktrace>> = Vec::new();
        let mut i: usize = 0;
        while i < count
            invariant
                i <= count,
                values@.len() == i,
                forall|k: int| 0 <= k < i ==> trace_of(#[trigger] values@[k]) is None,
            decreases count - i,
        {
            values.push(None);
            i = i + 1;
        }
        let r = Yielding { param, values };
        proof {
            assert(flows_of(r.values@) =~= Seq::new(count as nat, |i: int| None::<Trace>));
        }
        r
    }

    /// A copy of this.
    pub fn duplicate(&self) -> (r: Self)
        ensures
            r@ == self@,
    {
        let mut values: Vec<Option<LabelBacktrace>> = Vec::new();
        let n: usize = self.values.len();
        let mut i: usize = 0;
        while i < n
            invariant
                i <= n,
                n == self.values@.len(),
                values@.len() == i,
                forall|k: int|
                    0 <= k < i ==> trace_of(#[trigger] values@[k]) == trace_of(self.values@[k]),
            decreases n - i,
        {
            values.push(copy_trace(&self.values[i]));
            i = i + 1;
        }
        let r = Yielding { param: self.param.duplicate(), values };
        proof {
            assert(flows_of(r.values@) =~= flows_of(self.values@));
        }
        r
    }

    /// Records that values are handed over on a branch.
    pub fn record_yield_call(
        &mut self,
        flows: &Vec<Option<LabelBacktrace>>,
        branch: Option<&LabelBacktrace>,
        at: &Pinned<Location>,
    )
        ensures
            final(self)@ == (YieldingModel {
                values: with_yield(
                    old(self)@.values,
                    flows_of(flows@),
                    trace_of_ref(branch),
                    at@,
                ),
                ..old(self)@
            }),
    {
        let ghost before = self@;
        let ghost goal = with_yield(before.values, flows_of(flows@), trace_of_ref(branch), at@);
        let mut values: Vec<Option<LabelBacktrace>> = Vec::new();
        let n: usize = self.values.len();
        let mut i: usize = 0;
        while i < n
            invariant
                i <= n,
                n == self.values@.len(),
                before == self@,
                goal == with_yield(before.values, flows_of(flows@), trace_of_ref(branch), at@),
                values@.len() == i,
                forall|k: int| 0 <= k < i ==> trace_of(#[trigger] values@[k]) == goal[k],
            decreases n - i,
        {
            let flow = if i < flows.len() {
                copy_trace(&flows[i])
            } else {
                None
            };
            let taken = match branch {
                Some(b) => Some(b.clone()),
                None => None,
            };
            let given = LabelBacktrace::combine_options(
                flow,
                taken,
                LabelBacktraceKind::Expression,
                at,
            );
            let value = LabelBacktrace::combine_options(
                copy_trace(&self.values[i]),
                given,
                LabelBacktraceKind::Expression,
                at,
            );
            proof {
                assert(before.values[i as int] == trace_of(self.values@[i as int]));
            }
            values.push(value);
            i = i + 1;
        }
        self.values = values;
        proof {
            assert(flows_of(self.values@) =~= goal);
        }
    }
}

/// What an optional signature stands for.
pub open spec fn signature_of(s: Option<Signature>) -> Option<SignatureModel> {
    match s {
        Some(x) => Some(x@),
        None => None,
    }
}

/// What optional results stand for.
pub open spec fn outcome_of(s: Option<Vec<Value>>) -> Option<Seq<ValueModel>> {
    match s {
        Some(x) => Some(values_of(x@)),
        None => None,
    }
}

/// What a [`FunctionSummary`] stands for.
#[verifier::ext_equal]
pub struct SummaryModel {
    pub func: FunctionModel,
    pub own: Option<Trace>,
    pub signature: Option<SignatureModel>,
    pub has_receiver: bool,
    pub is_type_constructor: bool,
    pub directives: Seq<DirectiveModel>,
    pub deferred_checks: Seq<CheckModel>,
    pub outcome: Option<Seq<ValueModel>>,
    pub call_count: nat,
    pub declared_result_types: Seq<Option<TypeModel>>,
    pub captures: Seq<CaptureModel>,
    pub yielding: Option<YieldingModel>,
}

impl View for FunctionSummary {
    type V = SummaryModel;

    open spec fn view(&self) -> SummaryModel {
        SummaryModel {
            func: self.func@,
            own: trace_of(self.own),
            signature: signature_of(self.signature),
            has_receiver: self.has_receiver,
            is_type_constructor: self.is_type_constructor,
            directives: directives_of(self.directives@),
            deferred_checks: checks_of(self.deferred_checks@),
            outcome: outcome_of(self.outcome),
            call_count: self.call_count as nat,
            declared_result_types: types_of(self.declared_result_types@),
            captures: captures_of(self.captures@),
            yielding: yielding_of(self.yielding),
        }
    }
}

/// A function of which nothing is known.
pub open spec fn unknown_function(
    func: FunctionModel,
    own: Option<Trace>,
    has_receiver: bool,
) -> SummaryModel {
    SummaryModel {
        func,
        own,
        signature: None,
        has_receiver,
        is_type_constructor: false,
        directives: Seq::<DirectiveModel>::empty(),
        deferred_checks: Seq::<CheckModel>::empty(),
        outcome: None,
        call_count: 0,
        declared_result_types: Seq::<Option<TypeModel>>::empty(),
        captures: Seq::<CaptureModel>::empty(),
        yielding: None,
    }
}

impl FunctionSummary {
    /// Whether the checks are ones that the analysis can produce.
    pub open spec fn wf(&self) -> bool {
        checks_wf(self.deferred_checks@)
    }

    /// A function of which nothing is known.
    pub fn new_unknown(
        func: FunctionRef,
        own: Option<LabelBacktrace>,
        has_receiver: bool,
    ) -> (r: Self)
        ensures
            r.wf(),
            r@ == unknown_function(func@, trace_of(own), has_receiver),
    {
        let r = FunctionSummary {
            func,
            own,
            signature: None,
            has_receiver,
            is_type_constructor: false,
            directives: Vec::new(),
            deferred_checks: Vec::new(),
            outcome: None,
            call_count: 0,
            declared_result_types: Vec::new(),
            captures: Vec::new(),
            yielding: None,
        };
        proof {
            assert(directives_of(r.directives@) =~= Seq::<DirectiveModel>::empty());
            assert(checks_of(r.deferred_checks@) =~= Seq::<CheckModel>::empty());
            assert(types_of(r.declared_result_types@) =~= Seq::<Option<TypeModel>>::empty());
            assert(captures_of(r.captures@) =~= Seq::<CaptureModel>::empty());
        }
        r
    }
}

/// A method with what its receiver carries.
pub open spec fn bound_to_receiver(
    method: ValueModel,
    receiver: ValueModel,
    location: PinnedModel<Location>,
) -> ValueModel {
    match carried(receiver) {
        Some(t) => method.nesting(LabelBacktraceKind::MethodReceiver, None, location, seq![t]),
        None => method,
    }
}

/// Adds what a receiver carries to a method.
pub fn nest_receiver_backtrace(
    method_value: Value,
    receiver: &Value,
    at_location: Pinned<Location>,
) -> (r: Value)
    ensures
        r@ == bound_to_receiver(method_value@, receiver@, at_location@),
{
    let mut value = method_value;
    match receiver.backtrace() {
        Some(backtrace) => {
            let mut more: Vec<LabelBacktrace> = Vec::new();
            let ghost t = backtrace@;
            more.push(backtrace);
            proof {
                assert(crate::labels::backtraces::traces_of(more@) =~= seq![t]);
            }
            value.nest_backtrace(LabelBacktraceKind::MethodReceiver, None, at_location, &more);
        },
        None => {},
    }
    value
}

/// The branch in which a call takes effect: the one around the call, along
/// with what the access to the function carries.
pub open spec fn effective_branch(
    branches: BranchModel,
    func: FunctionModel,
    own: Option<Trace>,
    location: PinnedModel<Location>,
) -> Option<Trace> {
    let call_branch = branches.current();
    let func_branch = match own {
        Some(t) => realized(
            t,
            func,
            seq![(SyntheticSlot::CallSiteBranch, call_branch)],
            false,
        ),
        None => None,
    };
    combined(call_branch, func_branch, LabelBacktraceKind::Branch, location)
}

/// The branch in which a call takes effect.
pub fn calc_effective_call_site_branch_backtrace_for(
    branches: &BranchState,
    func: &FunctionSummary,
    at_location: &Pinned<Location>,
) -> (r: Option<LabelBacktrace>)
    ensures
        trace_of(r) == effective_branch(branches@, func@.func, func@.own, at_location@),
{
    let call_branch = branches.branch_backtrace();
    let func_branch = match &func.own {
        Some(b) => b.realize(&func.func, SyntheticSlot::CallSiteBranch, call_branch),
        None => None,
    };
    let call_branch = match call_branch {
        Some(b) => Some(b.clone()),
        None => None,
    };
    LabelBacktrace::combine_options(
        call_branch,
        func_branch,
        LabelBacktraceKind::Branch,
        at_location,
    )
}

/// The result of a conversion, if it has exactly one operand: the operand at
/// another place, with another type.
pub open spec fn converted(
    operands: Seq<ValueModel>,
    target_type: Option<TypeModel>,
    location: PinnedModel<Location>,
) -> ValueModel {
    if operands.len() == 1 {
        ValueModel { location, declared_type: target_type, ..operands[0] }
    } else {
        ValueModel { declared_type: target_type, ..ValueModel::simple(None, location) }
    }
}

/// Converts an operand to a type; anything but one operand is reported.
pub fn visit_type_conversion(
    log: &mut ErrorLog,
    operands: Vec<Value>,
    target_type: Option<TypeInfo>,
    location: Location,
) -> (r: Value)
    requires
        old(log)@.file is Some,
    ensures
        r@ == converted(
            values_of(operands@),
            type_of(target_type),
            PinnedModel { file: old(log)@.file->0, inner: location },
        ),
        final(log)@ == if operands@.len() == 1 {
            old(log)@
        } else {
            old(log)@.with_error(
                ErrorModel::IncorrectCallCardinality {
                    expected: 1,
                    found: operands@.len() as usize,
                    location,
                },
            )
        },
{
    let mut operands = operands;
    let pinned = log.pin(location);
    let n: usize = operands.len();
    if n != 1 {
        log.report_error(
            AnalysisErrorKind::IncorrectCallCardinality { expected: 1, found: n, location },
        );
        return Value::new_bottom(pinned, target_type);
    }
    let mut value = operands.remove(0);
    value.set_location(pinned);
    value.set_declared_type(target_type);
    value
}

} // verus!
