//! What captured symbols carry when a function is called.

use vstd::prelude::*;

use crate::context::branches::copy_trace;
use crate::functions::{FunctionModel, FunctionRef};
use crate::labels::backtraces::{combined, folded, realized, trace_of, LabelBacktrace,
    LabelBacktraceKind, Trace};
use crate::labels::tags::{text_of, LabelTag, SyntheticSlot, TagModel};
use crate::labels::{has_synthetic, Label};
use crate::locations::{Location, Pinned, PinnedModel, Span, SpanModel};
use crate::ordered::{same, Ordered, OrderedMap};
use crate::snapshots::SnapshotAware;
use crate::symbols::table::{SymbolTable, TableModel};
use crate::symbols::SymbolModel;
use crate::taint::funcs::call_checks::flows_of;
use crate::taint::funcs::call_results::{carrying, carrying_refs};
use crate::taint::funcs::captures::call_site::for_params;
use crate::taint::funcs::captures::{captures_of, CaptureBinding, CaptureModel};
use crate::taint::funcs::{FunctionSummary, SummaryModel};
use crate::values::{carried, values_of, FormModel, Value, ValueForm, ValueModel};

verus! {

/// Where something is declared.
pub type Declaration = PinnedModel<SpanModel>;

/// What captured symbols carry, by where they are declared.
pub open spec fn environment_of(m: Map<Declaration, Option<LabelBacktrace>>) -> Map<
    Declaration,
    Option<Trace>,
> {
    m.map_values(|b: Option<LabelBacktrace>| trace_of(b))
}

/// What a list of declarations stands for.
pub open spec fn declarations_of(s: Seq<Pinned<Span>>) -> Seq<Declaration> {
    s.map_values(|d: Pinned<Span>| d@)
}

/// What the results of a function carry, if its placeholders for parameters,
/// for the receiver and for the branches around a call carry nothing.
pub open spec fn outcome_trace(
    func: SummaryModel,
    symbol: Option<Seq<char>>,
    location: PinnedModel<Location>,
) -> Option<Trace> {
    match func.outcome {
        Some(values) => stripped(
            folded(
                carrying(values.map_values(|v: ValueModel| carried(v))),
                LabelBacktraceKind::Expression,
                symbol,
                location,
            ),
            func,
        ),
        None => None,
    }
}

/// How many parameters a function is known to have.
pub open spec fn parameter_count(func: SummaryModel) -> nat {
    match func.signature {
        Some(s) => s.slots().len(),
        None => 0,
    }
}

/// A trace of which nothing depends on how a function is called.
pub open spec fn stripped(t: Option<Trace>, func: SummaryModel) -> Option<Trace> {
    let passed = for_params(
        t,
        func.func,
        Seq::new(parameter_count(func), |i: int| None),
        parameter_count(func) as int,
    );
    without_slot(
        without_slot(passed, func.func, SyntheticSlot::Receiver),
        func.func,
        SyntheticSlot::CallSiteBranch,
    )
}

/// A trace in which a placeholder carries nothing.
pub open spec fn without_slot(t: Option<Trace>, func: FunctionModel, slot: SyntheticSlot) -> Option<
    Trace,
> {
    match t {
        Some(x) => realized(x, func, seq![(slot, None)], false),
        None => None,
    }
}

fn drop_slot(b: Option<LabelBacktrace>, func: &FunctionRef, slot: SyntheticSlot) -> (r: Option<
    LabelBacktrace,
>)
    ensures
        trace_of(r) == without_slot(trace_of(b), func@, slot),
{
    match b {
        Some(x) => x.realize(func, slot, None),
        None => None,
    }
}

/// A backtrace of which nothing depends on how a function is called.
pub fn realize_function_parameter_synthetics(
    func: &FunctionSummary,
    concrete: Option<LabelBacktrace>,
) -> (r: Option<LabelBacktrace>)
    ensures
        trace_of(r) == stripped(trace_of(concrete), func@),
{
    let ghost start = trace_of(concrete);
    let count: usize = match &func.signature {
        Some(signature) => signature.count_inputs(),
        None => 0,
    };
    let ghost nothing: Seq<Option<Trace>> = Seq::new(parameter_count(func@), |i: int| None);
    let mut current = concrete;
    let mut i: usize = 0;
    while i < count
        invariant
            i <= count,
            count == parameter_count(func@),
            nothing == Seq::new(parameter_count(func@), |i: int| None::<Trace>),
            trace_of(current) == for_params(start, func@.func, nothing, i as int),
        decreases count - i,
    {
        current = drop_slot(current, &func.func, SyntheticSlot::Param(i));
        i = i + 1;
    }
    let current = drop_slot(current, &func.func, SyntheticSlot::Receiver);
    drop_slot(current, &func.func, SyntheticSlot::CallSiteBranch)
}

/// What the results of a function carry, whatever it is called with.
pub fn derive_hybrid_function_outcome_backtrace(
    func: &FunctionSummary,
    symbol: Option<String>,
    location: Pinned<Location>,
) -> (r: Option<LabelBacktrace>)
    ensures
        trace_of(r) == outcome_trace(func@, text_of(symbol), location@),
{
    match &func.outcome {
        Some(values) => {
            let mut flows: Vec<Option<LabelBacktrace>> = Vec::new();
            let n: usize = values.len();
            let mut i: usize = 0;
            while i < n
                invariant
                    i <= n,
                    n == values@.len(),
                    flows@.len() == i,
                    forall|k: int|
                        0 <= k < i ==> trace_of(#[trigger] flows@[k]) == carried(values@[k]@),
                decreases n - i,
            {
                flows.push(values[i].backtrace());
                i = i + 1;
            }
            proof {
                assert(flows_of(flows@) =~= values_of(values@).map_values(
                    |v: ValueModel| carried(v),
                ));
                assert(flows_of(flows@).skip(0) =~= flows_of(flows@));
            }
            let concrete = LabelBacktrace::fold(
                &carrying_refs(&flows, 0),
                LabelBacktraceKind::Expression,
                symbol,
                location,
            );
            realize_function_parameter_synthetics(func, concrete)
        },
        None => None,
    }
}

/// All declarations of symbols.
pub open spec fn declared_in(t: TableModel) -> Set<Declaration> {
    t.symbols.map_values(|s: SymbolModel| s.declared_name).to_set()
}

/// How many declarations of symbols are not among some.
pub open spec fn unvisited(t: TableModel, active: Seq<Declaration>) -> nat {
    declared_in(t).difference(active.to_set()).len()
}

/// There are fewer declarations that are not visited once one more is.
pub proof fn lemma_visiting(t: TableModel, active: Seq<Declaration>, symbol: int)
    requires
        0 <= symbol < t.symbols.len(),
        !active.contains(t.symbols[symbol].declared_name),
    ensures
        unvisited(t, active.push(t.symbols[symbol].declared_name)) < unvisited(t, active),
{
    let d = t.symbols[symbol].declared_name;
    let names = t.symbols.map_values(|s: SymbolModel| s.declared_name);
    vstd::seq_lib::seq_to_set_is_finite(names);
    vstd::seq_lib::seq_to_set_is_finite(active);
    assert(names[symbol] == d);
    assert(declared_in(t).contains(d));
    let before = declared_in(t).difference(active.to_set());
    assert(before.contains(d));
    assert(active.push(d).to_set() =~= active.to_set().insert(d)) by {
        assert forall|x: Declaration| #[trigger] active.push(d).to_set().contains(x)
            == active.to_set().insert(d).contains(x) by {
            if active.contains(x) {
                let k = choose|k: int| 0 <= k < active.len() && active[k] == x;
                assert(active.push(d)[k] == x);
            }
            assert(active.push(d)[active.len() as int] == d);
        }
    }
    assert(declared_in(t).difference(active.push(d).to_set()) =~= before.remove(d));
}

/// What a symbol carries if it is called where it is a function. If what it
/// carries is being worked out already, it is what its value carries.
pub open spec fn hybrid_symbol(
    t: TableModel,
    definitions: Map<Declaration, usize>,
    env: Map<Declaration, Option<Trace>>,
    active: Seq<Declaration>,
    symbol: usize,
) -> Option<Trace>
    decreases unvisited(t, active), 0int, 0int,
{
    if symbol >= t.symbols.len() {
        None
    } else {
        let s = t.symbols[symbol as int];
        if active.contains(s.declared_name) {
            carried(s.value)
        } else {
            proof {
                lemma_visiting(t, active, symbol as int);
            }
            hybrid_value(
                t,
                definitions,
                env,
                active.push(s.declared_name),
                s.value,
                carried(s.value),
                Some(s.declared_name.inner.content),
                PinnedModel { file: s.declared_name.file, inner: s.declared_name.inner.location },
            )
        }
    }
}

/// What a value carries if it is called where it is a function.
pub open spec fn hybrid_value(
    t: TableModel,
    definitions: Map<Declaration, usize>,
    env: Map<Declaration, Option<Trace>>,
    active: Seq<Declaration>,
    value: ValueModel,
    cached: Option<Trace>,
    symbol: Option<Seq<char>>,
    location: PinnedModel<Location>,
) -> Option<Trace>
    decreases unvisited(t, active), 2int, 0int,
{
    match value.form {
        FormModel::Function(f) => if f < t.functions.len() {
            let func = t.functions[f as int];
            combined(
                hybrid_captures(
                    t,
                    definitions,
                    env,
                    active,
                    func,
                    outcome_trace(func, symbol, location),
                    func.captures.len() as int,
                ),
                cached,
                LabelBacktraceKind::Expression,
                value.location,
            )
        } else {
            cached
        },
        _ => cached,
    }
}

/// A trace with the placeholders of a function for the first symbols that it
/// captures substituted.
pub open spec fn hybrid_captures(
    t: TableModel,
    definitions: Map<Declaration, usize>,
    env: Map<Declaration, Option<Trace>>,
    active: Seq<Declaration>,
    func: SummaryModel,
    start: Option<Trace>,
    n: int,
) -> Option<Trace>
    decreases unvisited(t, active), 1int, n,
{
    if n <= 0 {
        start
    } else {
        match hybrid_captures(t, definitions, env, active, func, start, n - 1) {
            Some(x) => {
                let c = func.captures[n - 1];
                let live = if definitions.dom().contains(c.declaration) {
                    hybrid_symbol(t, definitions, env, active, definitions[c.declaration])
                } else {
                    None
                };
                let concrete = if env.dom().contains(c.declaration) {
                    env[c.declaration]
                } else {
                    usable(live, c)
                };
                realized(x, func.func, seq![(SyntheticSlot::Capture(c.index), concrete)], false)
            },
            None => None,
        }
    }
}

/// What a captured symbol carries: what it carries now, or what it carried when
/// the function was declared if placeholders are left in that.
pub open spec fn usable(live: Option<Trace>, c: CaptureModel) -> Option<Trace> {
    if live is Some && has_synthetic(live->0.label) {
        c.hybrid_fallback->0
    } else {
        live
    }
}

/// Whether it is known of all captured symbols what they carried when the
/// functions were declared.
pub open spec fn has_fallbacks(t: TableModel) -> bool {
    forall|f: int, k: int|
        0 <= f < t.functions.len() && 0 <= k < t.functions[f].captures.len() ==> (
        #[trigger] t.functions[f].captures[k]).hybrid_fallback is Some
}

fn is_active(active: &Vec<Pinned<Span>>, declaration: &Pinned<Span>) -> (r: bool)
    ensures
        r == declarations_of(active@).contains(declaration@),
{
    let n: usize = active.len();
    let mut i: usize = 0;
    while i < n
        invariant
            i <= n,
            n == active@.len(),
            forall|k: int| 0 <= k < i ==> (#[trigger] active@[k])@ != declaration@,
        decreases n - i,
    {
        if same(&active[i], declaration) {
            proof {
                assert(declarations_of(active@)[i as int] == declaration@);
            }
            return true;
        }
        i = i + 1;
    }
    proof {
        if declarations_of(active@).contains(declaration@) {
            let k = choose|k: int|
                0 <= k < declarations_of(active@).len() && declarations_of(active@)[k]
                    == declaration@;
            assert(active@[k]@ == declaration@);
        }
    }
    false
}

/// What a symbol carries if it is called where it is a function.
pub fn derive_hybrid_symbol_backtrace_with_active(
    table: &SymbolTable,
    definitions: &OrderedMap<Pinned<Span>, usize>,
    env: &OrderedMap<Pinned<Span>, Option<LabelBacktrace>>,
    active: &mut Vec<Pinned<Span>>,
    symbol: usize,
) -> (r: Option<LabelBacktrace>)
    requires
        has_fallbacks(table@),
        symbol < table@.symbols.len(),
        forall|d: Declaration| #[trigger]
            definitions@.dom().contains(d) ==> definitions@[d] < table@.symbols.len(),
    ensures
        final(active)@ == old(active)@,
        trace_of(r) == hybrid_symbol(
            table@,
            definitions@,
            environment_of(env@),
            declarations_of(old(active)@),
            symbol,
        ),
    decreases unvisited(table@, declarations_of(old(active)@)), 0int, 0int,
{
    let ghost visited = declarations_of(active@);
    let ghost stack = active@;
    let found = table.symbol(symbol);
    if is_active(active, &found.declared_name) {
        return found.value.backtrace();
    }
    proof {
        lemma_visiting(table@, visited, symbol as int);
    }
    active.push(found.declared_name.duplicate());
    proof {
        assert(declarations_of(active@) =~= visited.push(found.declared_name@));
    }
    let cached = found.value.backtrace();
    let r = derive_hybrid_value_backtrace_in_capture_environment(
        table,
        &found.value,
        cached,
        definitions,
        env,
        Some(found.declared_name.content().to_owned()),
        found.declared_name.pinned_location(),
        active,
    );
    let _ = active.pop();
    proof {
        assert(active@ =~= stack);
    }
    r
}

/// What a value carries if it is called where it is a function.
pub fn derive_hybrid_value_backtrace_in_capture_environment(
    table: &SymbolTable,
    value: &Value,
    cached: Option<LabelBacktrace>,
    definitions: &OrderedMap<Pinned<Span>, usize>,
    env: &OrderedMap<Pinned<Span>, Option<LabelBacktrace>>,
    symbol: Option<String>,
    location: Pinned<Location>,
    active: &mut Vec<Pinned<Span>>,
) -> (r: Option<LabelBacktrace>)
    requires
        has_fallbacks(table@),
        forall|d: Declaration| #[trigger]
            definitions@.dom().contains(d) ==> definitions@[d] < table@.symbols.len(),
    ensures
        final(active)@ == old(active)@,
        trace_of(r) == hybrid_value(
            table@,
            definitions@,
            environment_of(env@),
            declarations_of(old(active)@),
            value@,
            trace_of(cached),
            text_of(symbol),
            location@,
        ),
    decreases unvisited(table@, declarations_of(old(active)@)), 2int, 0int,
{
    let id: usize = match &value.form {
        ValueForm::Function(f) => *f,
        _ => {
            return cached;
        },
    };
    if id >= table.function_count() {
        return cached;
    }
    let func = table.function(id);
    let ghost stack = active@;
    let ghost visited = declarations_of(active@);
    let ghost e = environment_of(env@);
    let ghost start = outcome_trace(func@, text_of(symbol), location@);
    let mut hybrid = derive_hybrid_function_outcome_backtrace(func, symbol, location);
    let n: usize = func.captures.len();
    let mut i: usize = 0;
    while i < n
        invariant
            i <= n,
            n == func.captures@.len(),
            id < table@.functions.len(),
            func@ == table@.functions[id as int],
            has_fallbacks(table@),
            forall|d: Declaration| #[trigger]
                definitions@.dom().contains(d) ==> definitions@[d] < table@.symbols.len(),
            active@ == stack,
            stack == old(active)@,
            visited == declarations_of(stack),
            e == environment_of(env@),
            trace_of(hybrid) == hybrid_captures(
                table@,
                definitions@,
                e,
                visited,
                func@,
                start,
                i as int,
            ),
        decreases n - i,
    {
        let binding = &func.captures[i];
        proof {
            assert(func@.captures[i as int] == binding@);
            assert(table@.functions[id as int].captures[i as int] == binding@);
        }
        hybrid = match hybrid {
            Some(backtrace) => {
                let concrete = match env.get(&binding.declaration) {
                    Some(given) => {
                        proof {
                            assert(e.dom().contains(binding.declaration@));
                        }
                        copy_trace(given)
                    },
                    None => {
                        proof {
                            assert(!e.dom().contains(binding.declaration@));
                        }
                        let live = match definitions.get(&binding.declaration) {
                            Some(s) => derive_hybrid_symbol_backtrace_with_active(
                                table,
                                definitions,
                                env,
                                active,
                                *s,
                            ),
                            None => None,
                        };
                        use_live_or_fallback(live, binding)
                    },
                };
                backtrace.realize(
                    &func.func,
                    SyntheticSlot::Capture(binding.index),
                    concrete.as_ref(),
                )
            },
            None => None,
        };
        i = i + 1;
    }
    LabelBacktrace::combine_options(
        hybrid,
        cached,
        LabelBacktraceKind::Expression,
        &value.location,
    )
}

fn use_live_or_fallback(live: Option<LabelBacktrace>, binding: &CaptureBinding) -> (r: Option<
    LabelBacktrace,
>)
    requires
        binding@.hybrid_fallback is Some,
    ensures
        trace_of(r) == usable(trace_of(live), binding@),
{
    let pending = match &live {
        Some(b) => b.label().has_any_synthetic(),
        None => false,
    };
    if pending {
        match &binding.hybrid_fallback {
            Some(fallback) => copy_trace(fallback),
            None => None,
        }
    } else {
        live
    }
}

/// What a symbol carries if it is called where it is a function.
pub fn derive_hybrid_symbol_backtrace(
    table: &SymbolTable,
    definitions: &OrderedMap<Pinned<Span>, usize>,
    env: &OrderedMap<Pinned<Span>, Option<LabelBacktrace>>,
    symbol: usize,
) -> (r: Option<LabelBacktrace>)
    requires
        has_fallbacks(table@),
        symbol < table@.symbols.len(),
        forall|d: Declaration| #[trigger]
            definitions@.dom().contains(d) ==> definitions@[d] < table@.symbols.len(),
    ensures
        trace_of(r) == hybrid_symbol(
            table@,
            definitions@,
            environment_of(env@),
            Seq::<Declaration>::empty(),
            symbol,
        ),
{
    let mut active: Vec<Pinned<Span>> = Vec::new();
    proof {
        assert(declarations_of(active@) =~= Seq::<Declaration>::empty());
    }
    derive_hybrid_symbol_backtrace_with_active(table, definitions, env, &mut active, symbol)
}

/// What a value carries if it is called where it is a function.
pub fn derive_hybrid_value_backtrace(
    table: &SymbolTable,
    value: &Value,
    definitions: &OrderedMap<Pinned<Span>, usize>,
    symbol: Option<String>,
    location: Pinned<Location>,
) -> (r: Option<LabelBacktrace>)
    requires
        has_fallbacks(table@),
        forall|d: Declaration| #[trigger]
            definitions@.dom().contains(d) ==> definitions@[d] < table@.symbols.len(),
    ensures
        trace_of(r) == hybrid_value(
            table@,
            definitions@,
            Map::<Declaration, Option<Trace>>::empty(),
            Seq::<Declaration>::empty(),
            value@,
            carried(value@),
            text_of(symbol),
            location@,
        ),
{
    let mut active: Vec<Pinned<Span>> = Vec::new();
    let env: OrderedMap<Pinned<Span>, Option<LabelBacktrace>> = OrderedMap::new();
    proof {
        assert(declarations_of(active@) =~= Seq::<Declaration>::empty());
        assert(environment_of(env@) =~= Map::<Declaration, Option<Trace>>::empty());
    }
    derive_hybrid_value_backtrace_in_capture_environment(
        table,
        value,
        value.backtrace(),
        definitions,
        &env,
        symbol,
        location,
        &mut active,
    )
}

/// Whether a label has a placeholder of a function that is neither the given
/// one nor being visited.
pub open spec fn has_inactive(
    label: Set<TagModel>,
    realizable: FunctionModel,
    call_stack: Seq<FunctionModel>,
) -> bool {
    exists|tag: TagModel| #[trigger]
        label.contains(tag) && (tag matches TagModel::Synthetic { func, .. } && func != realizable
            && !call_stack.contains(func))
}

/// What a list of functions stands for.
pub open spec fn functions_of(s: Seq<FunctionRef>) -> Seq<FunctionModel> {
    s.map_values(|f: FunctionRef| f@)
}

fn is_in_call_stack(call_stack: &Vec<FunctionRef>, func: &FunctionRef) -> (r: bool)
    ensures
        r == functions_of(call_stack@).contains(func@),
{
    let n: usize = call_stack.len();
    let mut i: usize = 0;
    while i < n
        invariant
            i <= n,
            n == call_stack@.len(),
            forall|k: int| 0 <= k < i ==> (#[trigger] call_stack@[k])@ != func@,
        decreases n - i,
    {
        if same(&call_stack[i], func) {
            proof {
                assert(functions_of(call_stack@)[i as int] == func@);
            }
            return true;
        }
        i = i + 1;
    }
    proof {
        let all = functions_of(call_stack@);
        if all.contains(func@) {
            let k = choose|k: int| 0 <= k < all.len() && all[k] == func@;
            assert(call_stack@[k]@ == func@);
        }
    }
    false
}

/// Whether a label has a placeholder of a function that is neither the given
/// one nor being visited.
pub fn has_inactive_synthetics(
    label: &Label,
    realizable_func: &FunctionRef,
    call_stack: &Vec<FunctionRef>,
) -> (r: bool)
    ensures
        r == has_inactive(label@, realizable_func@, functions_of(call_stack@)),
{
    let n: usize = label.count();
    let ghost tags = label.listing();
    let mut i: usize = 0;
    while i < n
        invariant
            i <= n,
            n == tags.len(),
            tags == label.listing(),
            label@ == tags.to_set(),
            forall|k: int|
                0 <= k < i ==> ((#[trigger] tags[k]) matches TagModel::Synthetic { func, .. }
                    ==> func == realizable_func@ || functions_of(call_stack@).contains(func)),
        decreases n - i,
    {
        let tag = label.tag_at(i);
        match tag {
            LabelTag::Synthetic { func, .. } => {
                if !same(func, realizable_func) && !is_in_call_stack(call_stack, func) {
                    proof {
                        assert(tags.contains(tags[i as int]));
                        assert(label@.contains(tag@));
                    }
                    return true;
                }
            },
            _ => {},
        }
        i = i + 1;
    }
    proof {
        if has_inactive(label@, realizable_func@, functions_of(call_stack@)) {
            let tag = choose|tag: TagModel| #[trigger]
                label@.contains(tag) && (tag matches TagModel::Synthetic { func, .. } && func
                    != realizable_func@ && !functions_of(call_stack@).contains(func));
            assert(tags.contains(tag));
            let k = choose|k: int| 0 <= k < tags.len() && tags[k] == tag;
            assert(tags[k] == tag);
        }
    }
    false
}

/// What a captured symbol carries at a call of a function. What it carried when
/// the function was declared is taken if placeholders are left which will not
/// be substituted any more. What the function itself writes to it is added if
/// that is asked for.
pub open spec fn captured_flow(
    t: TableModel,
    definitions: Map<Declaration, usize>,
    env: Map<Declaration, Option<Trace>>,
    func: FunctionModel,
    call_stack: Seq<FunctionModel>,
    c: CaptureModel,
    symbol: usize,
    with_mutations: bool,
) -> Option<Trace> {
    let hybrid = hybrid_symbol(t, definitions, env, Seq::<Declaration>::empty(), symbol);
    let concrete = if hybrid is Some && has_inactive(hybrid->0.label, func, call_stack)
        && c.hybrid_fallback is Some {
        c.hybrid_fallback->0
    } else {
        hybrid
    };
    if with_mutations {
        combined(
            concrete,
            c.mutation,
            LabelBacktraceKind::ClosureCaptureBinding,
            t.symbols[symbol as int].value.location,
        )
    } else {
        concrete
    }
}

/// What a captured symbol carries at a call of a function.
pub fn derive_concrete_backtrace_or_fallback(
    table: &SymbolTable,
    definitions: &OrderedMap<Pinned<Span>, usize>,
    env: &OrderedMap<Pinned<Span>, Option<LabelBacktrace>>,
    func: &FunctionRef,
    call_stack: &Vec<FunctionRef>,
    binding: &CaptureBinding,
    symbol: usize,
    include_body_mutations: bool,
) -> (r: Option<LabelBacktrace>)
    requires
        has_fallbacks(table@),
        symbol < table@.symbols.len(),
        forall|d: Declaration| #[trigger]
            definitions@.dom().contains(d) ==> definitions@[d] < table@.symbols.len(),
    ensures
        trace_of(r) == captured_flow(
            table@,
            definitions@,
            environment_of(env@),
            func@,
            functions_of(call_stack@),
            binding@,
            symbol,
            include_body_mutations,
        ),
{
    let hybrid = derive_hybrid_symbol_backtrace(table, definitions, env, symbol);
    let stale = match &hybrid {
        Some(b) => has_inactive_synthetics(b.label(), func, call_stack),
        None => false,
    };
    let concrete = if stale {
        match &binding.hybrid_fallback {
            Some(fallback) => copy_trace(fallback),
            None => hybrid,
        }
    } else {
        hybrid
    };
    if include_body_mutations {
        LabelBacktrace::combine_options(
            concrete,
            copy_trace(&binding.mutation_backtrace),
            LabelBacktraceKind::ClosureCaptureBinding,
            &table.symbol(symbol).value.location,
        )
    } else {
        concrete
    }
}

/// A trace with the placeholders of a function for the first symbols that it
/// captures substituted by what they are known to carry, if anything.
pub open spec fn for_dependencies(
    t: Option<Trace>,
    func: FunctionModel,
    captures: Seq<CaptureModel>,
    env: Map<Declaration, Option<Trace>>,
    n: int,
) -> Option<Trace>
    decreases n,
{
    if n <= 0 {
        t
    } else {
        let c = captures[n - 1];
        let concrete = if env.dom().contains(c.declaration) {
            env[c.declaration]
        } else {
            None
        };
        match for_dependencies(t, func, captures, env, n - 1) {
            Some(x) => realized(x, func, seq![(SyntheticSlot::Capture(c.index), concrete)], false),
            None => None,
        }
    }
}

/// What is needed to tell what the symbols that a function captures carry at a
/// call of it.
#[derive(Debug)]
pub struct CaptureScene<'a> {
    /// What declarations stand for.
    pub definitions: &'a OrderedMap<Pinned<Span>, usize>,
    /// The function.
    pub func: &'a FunctionRef,
    /// The functions that are being visited.
    pub call_stack: &'a Vec<FunctionRef>,
    /// What the function captures.
    pub captures: &'a Vec<CaptureBinding>,
    /// The symbols that the captured ones are here.
    pub symbols: &'a Vec<usize>,
    /// Whether what the function itself writes counts too.
    pub include_body_mutations: bool,
}

/// What a [`CaptureScene`] stands for.
pub struct SceneModel {
    pub definitions: Map<Declaration, usize>,
    pub func: FunctionModel,
    pub call_stack: Seq<FunctionModel>,
    pub captures: Seq<CaptureModel>,
    pub symbols: Seq<usize>,
    pub with_mutations: bool,
}

impl<'a> View for CaptureScene<'a> {
    type V = SceneModel;

    open spec fn view(&self) -> SceneModel {
        SceneModel {
            definitions: self.definitions@,
            func: self.func@,
            call_stack: functions_of(self.call_stack@),
            captures: captures_of(self.captures@),
            symbols: self.symbols@,
            with_mutations: self.include_body_mutations,
        }
    }
}

impl SceneModel {
    /// Whether all symbols are symbols of a table.
    pub open spec fn fits(self, t: TableModel) -> bool {
        &&& has_fallbacks(t)
        &&& self.symbols.len() == self.captures.len()
        &&& forall|i: int|
            0 <= i < self.symbols.len() ==> #[trigger] self.symbols[i] < t.symbols.len()
        &&& forall|d: Declaration| #[trigger]
            self.definitions.dom().contains(d) ==> self.definitions[d] < t.symbols.len()
    }

    /// What the first captured symbols carry, if what they depend on carries
    /// what is given.
    pub open spec fn next(
        self,
        t: TableModel,
        env: Map<Declaration, Option<Trace>>,
        n: int,
    ) -> Map<Declaration, Option<Trace>>
        decreases n,
    {
        if n <= 0 {
            Map::<Declaration, Option<Trace>>::empty()
        } else {
            self.next(t, env, n - 1).insert(
                self.captures[n - 1].declaration,
                for_dependencies(
                    captured_flow(
                        t,
                        self.definitions,
                        env,
                        self.func,
                        self.call_stack,
                        self.captures[n - 1],
                        self.symbols[n - 1],
                        self.with_mutations,
                    ),
                    self.func,
                    self.captures,
                    env,
                    self.captures.len() as int,
                ),
            )
        }
    }

    /// What the captured symbols carry, if those that they depend on carry what
    /// they are known to after so many steps. At first they carry nothing.
    pub open spec fn after(self, t: TableModel, steps: nat) -> Map<Declaration, Option<Trace>>
        decreases steps,
    {
        if steps == 0 {
            Map::<Declaration, Option<Trace>>::empty()
        } else {
            self.next(t, self.after(t, (steps - 1) as nat), self.captures.len() as int)
        }
    }

    /// Whether one step more than so many adds nothing.
    pub open spec fn settles_at(self, t: TableModel, steps: nat) -> bool {
        environments_alike(self.after(t, steps + 1), self.after(t, steps))
    }

    /// What the captured symbols carry, after the first number of steps from a
    /// given one on to which one more adds nothing; none if that takes too many.
    pub open spec fn settled(self, t: TableModel, from: nat, limit: nat) -> Option<
        Map<Declaration, Option<Trace>>,
    >
        decreases limit - from,
    {
        if from >= limit {
            None
        } else if self.settles_at(t, from) {
            Some(self.after(t, from))
        } else {
            self.settled(t, from + 1, limit)
        }
    }
}

/// Whether two environments differ in nothing but backtraces, and these not in
/// their labels.
pub open spec fn environments_alike(
    a: Map<Declaration, Option<Trace>>,
    b: Map<Declaration, Option<Trace>>,
) -> bool {
    &&& a.dom() == b.dom()
    &&& forall|d: Declaration| #[trigger]
        a.dom().contains(d) ==> a[d] is Some == b[d] is Some && (a[d] is Some ==> a[d]->0.label
            == b[d]->0.label)
}

/// What the symbols that a function captures carry.
#[derive(Debug)]
pub struct CaptureEnvSnapshot {
    /// What they carry, by where they are declared.
    pub flows: OrderedMap<Pinned<Span>, Option<LabelBacktrace>>,
}

impl View for CaptureEnvSnapshot {
    type V = Map<Declaration, Option<Trace>>;

    open spec fn view(&self) -> Map<Declaration, Option<Trace>> {
        environment_of(self.flows@)
    }
}

fn realize_dependencies(
    initial: Option<LabelBacktrace>,
    func: &FunctionRef,
    captures: &Vec<CaptureBinding>,
    env: &OrderedMap<Pinned<Span>, Option<LabelBacktrace>>,
) -> (r: Option<LabelBacktrace>)
    ensures
        trace_of(r) == for_dependencies(
            trace_of(initial),
            func@,
            captures_of(captures@),
            environment_of(env@),
            captures@.len() as int,
        ),
{
    let ghost start = trace_of(initial);
    let ghost cs = captures_of(captures@);
    let ghost e = environment_of(env@);
    let mut current = initial;
    let n: usize = captures.len();
    let mut i: usize = 0;
    while i < n
        invariant
            i <= n,
            n == captures@.len(),
            cs == captures_of(captures@),
            e == environment_of(env@),
            trace_of(current) == for_dependencies(start, func@, cs, e, i as int),
        decreases n - i,
    {
        proof {
            assert(cs[i as int] == captures@[i as int]@);
        }
        current = match current {
            Some(b) => {
                let dependency = match env.get(&captures[i].declaration) {
                    Some(concrete) => concrete.as_ref(),
                    None => None,
                };
                proof {
                    assert(e.dom().contains(captures@[i as int].declaration@)
                        == env@.dom().contains(captures@[i as int].declaration@));
                }
                b.realize(func, SyntheticSlot::Capture(captures[i].index), dependency)
            },
            None => None,
        };
        i = i + 1;
    }
    current
}

impl CaptureEnvSnapshot {
    /// Nothing is known.
    pub fn empty() -> (r: Self)
        ensures
            r@ == Map::<Declaration, Option<Trace>>::empty(),
    {
        let r = CaptureEnvSnapshot { flows: OrderedMap::new() };
        proof {
            assert(r@ =~= Map::<Declaration, Option<Trace>>::empty());
        }
        r
    }

    /// What the captured symbols carry, if those that they depend on carry what
    /// is known so far.
    pub fn derive_next_step(&self, table: &SymbolTable, scene: &CaptureScene<'_>) -> (r: Self)
        requires
            scene@.fits(table@),
        ensures
            r@ == scene@.next(table@, self@, scene@.captures.len() as int),
    {
        let mut flows: OrderedMap<Pinned<Span>, Option<LabelBacktrace>> = OrderedMap::new();
        proof {
            assert(environment_of(flows@) =~= Map::<Declaration, Option<Trace>>::empty());
        }
        let n: usize = scene.captures.len();
        let mut i: usize = 0;
        while i < n
            invariant
                i <= n,
                n == scene.captures@.len(),
                n == scene.symbols@.len(),
                scene@.fits(table@),
                environment_of(flows@) == scene@.next(table@, self@, i as int),
            decreases n - i,
        {
            let ghost before = environment_of(flows@);
            proof {
                assert(scene@.captures[i as int] == scene.captures@[i as int]@);
                assert(scene@.symbols[i as int] < table@.symbols.len());
            }
            let concrete = derive_concrete_backtrace_or_fallback(
                table,
                scene.definitions,
                &self.flows,
                scene.func,
                scene.call_stack,
                &scene.captures[i],
                scene.symbols[i],
                scene.include_body_mutations,
            );
            let flow = realize_dependencies(concrete, scene.func, scene.captures, &self.flows);
            let ghost m = trace_of(flow);
            flows.insert(scene.captures[i].declaration.duplicate(), flow);
            proof {
                assert(environment_of(flows@) =~= before.insert(
                    scene@.captures[i as int].declaration,
                    m,
                ));
            }
            i = i + 1;
        }
        CaptureEnvSnapshot { flows }
    }

    /// Whether two environments differ in nothing but backtraces, and these not
    /// in their labels.
    pub fn snapshot_aware_eq(&self, other: &Self) -> (r: bool)
        ensures
            r == environments_alike(self@, other@),
    {
        let r = self.flows.snapshot_aware_eq(&other.flows);
        proof {
            let a = self.flows@;
            let b = other.flows@;
            assert(self@.dom() =~= a.dom());
            assert(other@.dom() =~= b.dom());
            if r {
                assert forall|d: Declaration| #[trigger] self@.dom().contains(d) implies self@[d]
                    is Some == other@[d] is Some && (self@[d] is Some ==> self@[d]->0.label
                    == other@[d]->0.label) by {
                    assert(a.dom().contains(d));
                    assert(a[d].alike(&b[d]));
                }
            } else if environments_alike(self@, other@) {
                assert(a.dom() =~= b.dom());
                assert forall|d: Declaration| #[trigger] a.dom().contains(d) implies a[d].alike(
                    &b[d],
                ) by {
                    assert(self@.dom().contains(d));
                }
            }
        }
        r
    }

    /// What the captured symbols carry, once another step adds nothing; none if
    /// that takes more steps than are allowed.
    pub fn derive_new(table: &SymbolTable, scene: &CaptureScene<'_>, limit: usize) -> (r: Option<
        Self,
    >)
        requires
            scene@.fits(table@),
        ensures
            match scene@.settled(table@, 0, limit as nat) {
                Some(e) => r is Some && r->0@ == e,
                None => r is None,
            },
    {
        let mut current = CaptureEnvSnapshot::empty();
        let mut i: usize = 0;
        while i < limit
            invariant
                i <= limit,
                scene@.fits(table@),
                current@ == scene@.after(table@, i as nat),
                scene@.settled(table@, 0, limit as nat) == scene@.settled(
                    table@,
                    i as nat,
                    limit as nat,
                ),
            decreases limit - i,
        {
            let next = current.derive_next_step(table, scene);
            proof {
                assert(next@ == scene@.after(table@, (i + 1) as nat));
            }
            if next.snapshot_aware_eq(&current) {
                return Some(current);
            }
            current = next;
            i = i + 1;
        }
        None
    }
}

/// Nothing stays unknown of a symbol that is captured.
pub proof fn lemma_next_knows(
    scene: SceneModel,
    t: TableModel,
    env: Map<Declaration, Option<Trace>>,
    n: int,
    i: int,
)
    requires
        0 <= i < n <= scene.captures.len(),
    ensures
        scene.next(t, env, n).dom().contains(scene.captures[i].declaration),
    decreases n,
{
    if i < n - 1 {
        lemma_next_knows(scene, t, env, n - 1, i);
    }
}

/// What captured symbols carry once that is settled is known of all of them.
pub proof fn lemma_settled_knows(
    scene: SceneModel,
    t: TableModel,
    from: nat,
    limit: nat,
    i: int,
)
    requires
        0 <= i < scene.captures.len(),
    ensures
        scene.settled(t, from, limit) matches Some(e) ==> e.dom().contains(
            scene.captures[i].declaration,
        ),
    decreases limit - from,
{
    if from < limit {
        if scene.settles_at(t, from) {
            lemma_next_knows(
                scene,
                t,
                scene.after(t, from),
                scene.captures.len() as int,
                i,
            );
            assert(scene.after(t, from + 1) == scene.next(
                t,
                scene.after(t, from),
                scene.captures.len() as int,
            ));
        } else {
            lemma_settled_knows(scene, t, from + 1, limit, i);
        }
    }
}

/// What captured symbols carry once that is settled is what they carry if those
/// that they depend on carry it, but for backtraces with the same labels.
pub proof fn law_captures_settle(scene: SceneModel, t: TableModel, from: nat, limit: nat)
    ensures
        scene.settled(t, from, limit) matches Some(e) ==> environments_alike(
            scene.next(t, e, scene.captures.len() as int),
            e,
        ),
    decreases limit - from,
{
    if from < limit && !scene.settles_at(t, from) {
        law_captures_settle(scene, t, from + 1, limit);
    }
}

} // verus!
