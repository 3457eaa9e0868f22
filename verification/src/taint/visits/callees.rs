//! What is called, and what it captures.

use vstd::prelude::*;

use crate::context::deferred_checks::{checks_of, DeferredEnforcementCheck};
use crate::context::{AnalysisContext, ContextModel, FrameModel};
use crate::functions::{FunctionModel, FunctionRef};
use crate::labels::backtraces::{substitutions_of, LabelBacktrace};
use crate::labels::has_synthetic;
use crate::labels::tags::SyntheticSlot;
use crate::locations::{Pinned, PinnedModel, Span};
use crate::ordered::{Ordered, OrderedMap};
use crate::symbols::table::{SymbolTable, TableModel};
use crate::taint::enforcement::is_open;
use crate::taint::explicit::{is_outside_all, outside_all};
use crate::taint::funcs::call_application::is_well_declared;
use crate::taint::funcs::call_checks::can_handle;
use crate::taint::funcs::captures::realization::{functions_of, has_fallbacks, Declaration};
use crate::taint::funcs::captures::{captures_of, resolve_capture_runtime_symbol, runtime_symbol,
    CaptureBinding, CaptureModel};
use crate::taint::funcs::{collect_parameter_slots, unknown_function, FunctionSummary, Signature,
    SummaryModel};
use crate::context::declarations::SplitRegions;
use crate::values::{carried, FormModel, Value, ValueForm, ValueModel};

verus! {

/// The function that is called where a value is: the one that it is; or, if
/// nothing is known of it, a function of which nothing is known either.
pub open spec fn called(t: TableModel, v: ValueModel) -> Option<SummaryModel> {
    match v.form {
        FormModel::Simple => Some(
            unknown_function(FunctionModel::BlackboxInference(v.location), carried(v), false),
        ),
        _ => t.callee(v),
    }
}

/// The function that is called where a value is.
pub fn find_callee(table: &SymbolTable, value: &Value) -> (r: Option<FunctionSummary>)
    ensures
        called(table@, value@) == match r {
            Some(f) => Some(f@),
            None => None,
        },
{
    if let ValueForm::Simple = &value.form {
        return Some(
            FunctionSummary::new_unknown(
                FunctionRef::BlackboxInference(value.location.duplicate()),
                value.backtrace(),
                false,
            ),
        );
    }
    table.callee(value)
}

/// Whether a function captures a symbol.
pub open spec fn is_captured(t: TableModel, declaration: Declaration) -> bool {
    exists|f: int, k: int|
        0 <= f < t.functions.len() && 0 <= k < t.functions[f].captures.len()
            && #[trigger] t.functions[f].captures[k].declaration == declaration
}

/// The captured symbols that have names, by where they are declared.
pub open spec fn definitions_of(t: TableModel) -> Map<Declaration, usize> {
    Map::new(
        |d: Declaration| is_captured(t, d) && t.declared_symbol(d) is Some,
        |d: Declaration| t.declared_symbol(d)->0,
    )
}

/// The captured symbols that have names, by where they are declared.
pub fn collect_definitions(table: &SymbolTable) -> (r: OrderedMap<Pinned<Span>, usize>)
    requires
        table@.wf(),
    ensures
        r@ == definitions_of(table@),
        forall|d: Declaration| #[trigger] r@.dom().contains(d) ==> r@[d] < table@.symbols.len(),
{
    let ghost t = table@;
    let mut r: OrderedMap<Pinned<Span>, usize> = OrderedMap::new();
    let n: usize = table.function_count();
    let mut i: usize = 0;
    while i < n
        invariant
            i <= n,
            t == table@,
            n == t.functions.len(),
            t.wf(),
            forall|d: Declaration| #[trigger] r@.dom().contains(d) ==> is_captured(t, d)
                && t.declared_symbol(d) == Some(r@[d]) && r@[d] < t.symbols.len(),
            forall|f: int, k: int|
                0 <= f < i && 0 <= k < t.functions[f].captures.len() && t.declared_symbol(
                    (#[trigger] t.functions[f].captures[k]).declaration,
                ) is Some ==> r@.dom().contains(t.functions[f].captures[k].declaration),
        decreases n - i,
    {
        let captures = &table.function(i).captures;
        let ghost cs = t.functions[i as int].captures;
        let m: usize = captures.len();
        let mut j: usize = 0;
        proof {
            assert(cs == captures_of(captures@));
        }
        while j < m
            invariant
                j <= m,
                i < n,
                t == table@,
                n == t.functions.len(),
                t.wf(),
                cs == t.functions[i as int].captures,
                cs == captures_of(captures@),
                m == captures@.len(),
                forall|d: Declaration| #[trigger] r@.dom().contains(d) ==> is_captured(t, d)
                    && t.declared_symbol(d) == Some(r@[d]) && r@[d] < t.symbols.len(),
                forall|f: int, k: int|
                    0 <= f < i && 0 <= k < t.functions[f].captures.len() && t.declared_symbol(
                        (#[trigger] t.functions[f].captures[k]).declaration,
                    ) is Some ==> r@.dom().contains(t.functions[f].captures[k].declaration),
                forall|k: int|
                    0 <= k < j && t.declared_symbol((#[trigger] cs[k]).declaration) is Some
                        ==> r@.dom().contains(cs[k].declaration),
            decreases m - j,
        {
            let declaration = &captures[j].declaration;
            proof {
                assert(cs[j as int] == captures@[j as int]@);
                assert(t.functions[i as int].captures[j as int].declaration == declaration@);
                assert(is_captured(t, declaration@));
            }
            if let Some(s) = table.find_declared_symbol(declaration) {
                r.insert(declaration.duplicate(), s);
            }
            j = j + 1;
        }
        i = i + 1;
    }
    proof {
        let goal = definitions_of(t);
        assert forall|d: Declaration| r@.dom().contains(d) == goal.dom().contains(d) by {
            if goal.dom().contains(d) {
                let (f, k) = choose|f: int, k: int|
                    0 <= f < t.functions.len() && 0 <= k < t.functions[f].captures.len()
                        && #[trigger] t.functions[f].captures[k].declaration == d;
                assert(r@.dom().contains(t.functions[f].captures[k].declaration));
            }
        }
        assert(r@ =~= goal);
    }
    r
}

/// Whether every captured symbol has something that it falls back on.
pub fn have_fallbacks(table: &SymbolTable) -> (r: bool)
    ensures
        r == has_fallbacks(table@),
{
    let ghost t = table@;
    let n: usize = table.function_count();
    let mut i: usize = 0;
    while i < n
        invariant
            i <= n,
            t == table@,
            n == t.functions.len(),
            forall|f: int, k: int|
                0 <= f < i && 0 <= k < t.functions[f].captures.len() ==> (
                #[trigger] t.functions[f].captures[k]).hybrid_fallback is Some,
        decreases n - i,
    {
        let captures = &table.function(i).captures;
        let ghost cs = t.functions[i as int].captures;
        let m: usize = captures.len();
        let mut j: usize = 0;
        while j < m
            invariant
                j <= m,
                i < n,
                t == table@,
                n == t.functions.len(),
                cs == t.functions[i as int].captures,
                cs == captures_of(captures@),
                m == captures@.len(),
                forall|k: int| 0 <= k < j ==> (#[trigger] cs[k]).hybrid_fallback is Some,
            decreases m - j,
        {
            proof {
                assert(cs[j as int] == captures@[j as int]@);
            }
            if captures[j].hybrid_fallback.is_none() {
                proof {
                    assert(t.functions[i as int].captures[j as int].hybrid_fallback is None);
                }
                return false;
            }
            j = j + 1;
        }
        i = i + 1;
    }
    true
}

/// Whether a function that is being visited is one of a table.
pub open spec fn active_in(active: Seq<usize>, t: TableModel) -> bool {
    forall|i: int| 0 <= i < active.len() ==> #[trigger] active[i] < t.functions.len()
}

/// Whether all functions that are being visited are ones of a table.
pub fn are_active(active: &Vec<usize>, table: &SymbolTable) -> (r: bool)
    ensures
        r == active_in(active@, table@),
{
    let n: usize = active.len();
    let mut i: usize = 0;
    while i < n
        invariant
            i <= n,
            n == active@.len(),
            forall|k: int| 0 <= k < i ==> #[trigger] active@[k] < table@.functions.len(),
        decreases n - i,
    {
        if active[i] >= table.function_count() {
            return false;
        }
        i = i + 1;
    }
    true
}

/// The symbols that a call writes to for the first that the function captures,
/// if all are known.
pub open spec fn runtime_symbols(
    t: TableModel,
    active: Seq<usize>,
    captures: Seq<CaptureModel>,
    n: int,
) -> Option<Seq<usize>>
    decreases n,
{
    if n <= 0 {
        Some(Seq::<usize>::empty())
    } else {
        match runtime_symbols(t, active, captures, n - 1) {
            Some(before) => match runtime_symbol(t, active, captures[n - 1]) {
                Some(s) => if s < t.symbols.len() && captures[n - 1].local_symbol
                    < t.symbols.len() {
                    Some(before.push(s))
                } else {
                    None
                },
                None => None,
            },
            None => None,
        }
    }
}

/// The symbols that a call writes to for those that the function captures, if
/// all are known.
pub fn find_runtime_symbols(
    table: &SymbolTable,
    active: &Vec<usize>,
    captures: &Vec<CaptureBinding>,
) -> (r: Option<Vec<usize>>)
    requires
        table@.wf(),
        active_in(active@, table@),
    ensures
        (match r {
            Some(v) => Some(v@),
            None => None,
        }) == runtime_symbols(table@, active@, captures_of(captures@), captures@.len() as int),
        r matches Some(v) ==> {
            &&& v@.len() == captures@.len()
            &&& forall|i: int| 0 <= i < v@.len() ==> #[trigger] v@[i] < table@.symbols.len()
            &&& forall|i: int|
                0 <= i < captures@.len() ==> (#[trigger] captures@[i]).local_symbol
                    < table@.symbols.len()
        },
{
    let ghost t = table@;
    let ghost cs = captures_of(captures@);
    let mut r: Vec<usize> = Vec::new();
    let n: usize = captures.len();
    let count: usize = table.symbol_count();
    let mut i: usize = 0;
    while i < n
        invariant
            i <= n,
            t == table@,
            t.wf(),
            active_in(active@, t),
            cs == captures_of(captures@),
            n == captures@.len(),
            count == t.symbols.len(),
            r@.len() == i,
            runtime_symbols(t, active@, cs, i as int) == Some(r@),
            forall|k: int| 0 <= k < i ==> #[trigger] r@[k] < t.symbols.len(),
            forall|k: int|
                0 <= k < i ==> (#[trigger] captures@[k]).local_symbol < t.symbols.len(),
            forall|m: int|
                i <= m <= n && runtime_symbols(t, active@, cs, i as int) is None
                    ==> #[trigger] runtime_symbols(t, active@, cs, m) is None,
        decreases n - i,
    {
        proof {
            assert(cs[i as int] == captures@[i as int]@);
        }
        let found = resolve_capture_runtime_symbol(table, active, &captures[i]);
        let fits = match found {
            Some(s) => s < count && captures[i].local_symbol < count,
            None => false,
        };
        if !fits {
            proof {
                assert(runtime_symbols(t, active@, cs, i + 1) is None);
                lemma_runtime_none(t, active@, cs, i + 1, n as int);
            }
            return None;
        }
        if let Some(s) = found {
            let ghost before = r@;
            r.push(s);
            proof {
                assert(r@ =~= before.push(s));
            }
        }
        i = i + 1;
    }
    Some(r)
}

proof fn lemma_runtime_none(
    t: TableModel,
    active: Seq<usize>,
    captures: Seq<CaptureModel>,
    m: int,
    n: int,
)
    requires
        0 < m <= n,
        runtime_symbols(t, active, captures, m) is None,
    ensures
        runtime_symbols(t, active, captures, n) is None,
    decreases n - m,
{
    if m < n {
        lemma_runtime_none(t, active, captures, m, n - 1);
    }
}

/// Whether symbols are declared outside of all regions in which control flow is
/// split.
pub open spec fn outside_of(
    t: TableModel,
    symbols: Seq<usize>,
    regions: Seq<PinnedModel<crate::locations::Location>>,
) -> Seq<bool> {
    Seq::new(
        symbols.len(),
        |i: int| outside_all(regions, t.symbols[symbols[i] as int].declared_name),
    )
}

/// Whether symbols are declared outside of all regions in which control flow is
/// split.
pub fn find_outside(
    table: &SymbolTable,
    symbols: &Vec<usize>,
    regions: &SplitRegions,
) -> (r: Vec<bool>)
    requires
        forall|i: int| 0 <= i < symbols@.len() ==> #[trigger] symbols@[i] < table@.symbols.len(),
    ensures
        r@ == outside_of(table@, symbols@, regions@),
{
    let mut r: Vec<bool> = Vec::new();
    let n: usize = symbols.len();
    let mut i: usize = 0;
    while i < n
        invariant
            i <= n,
            n == symbols@.len(),
            r@.len() == i,
            forall|i: int|
                0 <= i < symbols@.len() ==> #[trigger] symbols@[i] < table@.symbols.len(),
            forall|k: int|
                0 <= k < i ==> #[trigger] r@[k] == outside_of(table@, symbols@, regions@)[k],
        decreases n - i,
    {
        r.push(is_outside_all(regions, &table.symbol(symbols[i]).declared_name));
        i = i + 1;
    }
    proof {
        assert(r@ =~= outside_of(table@, symbols@, regions@));
    }
    r
}

/// The functions whose bodies are being visited.
pub open spec fn stack_of(ctx: ContextModel) -> Seq<FunctionModel> {
    ctx.funcs.map_values(|f: FrameModel| f.func)
}

/// The functions whose bodies are being visited.
pub fn call_stack(ctx: &AnalysisContext) -> (r: Vec<FunctionRef>)
    ensures
        functions_of(r@) == stack_of(ctx@),
{
    let mut r: Vec<FunctionRef> = Vec::new();
    let n: usize = ctx.funcs.len();
    let mut i: usize = 0;
    while i < n
        invariant
            i <= n,
            n == ctx.funcs@.len(),
            r@.len() == i,
            forall|k: int| 0 <= k < i ==> (#[trigger] r@[k])@ == ctx.funcs@[k]@.func,
        decreases n - i,
    {
        r.push(ctx.funcs[i].func.duplicate());
        i = i + 1;
    }
    proof {
        assert(functions_of(r@) =~= stack_of(ctx@));
    }
    r
}

/// Whether only the last parameter takes any number of arguments.
pub fn is_declared_well(signature: &Signature) -> (r: bool)
    ensures
        r == is_well_declared(signature@),
{
    let slots = collect_parameter_slots(signature);
    let ghost ms = signature@.slots();
    let n: usize = slots.len();
    let mut i: usize = 0;
    proof {
        assert(ms.len() == n);
    }
    while i < n && i + 1 < n
        invariant
            i <= n,
            n == slots@.len(),
            ms == signature@.slots(),
            ms == crate::taint::funcs::slot_models(slots@),
            forall|k: int| 0 <= k < i ==> !(#[trigger] ms[k]).variadic,
        decreases n - i,
    {
        proof {
            assert(ms[i as int] == slots@[i as int]@);
        }
        if slots[i].variadic {
            return false;
        }
        i = i + 1;
    }
    true
}

/// Whether the checks that were put off until a call can be made there, or put
/// off further.
pub fn are_handleable(
    ctx: &AnalysisContext,
    checks: &Vec<DeferredEnforcementCheck>,
    func: &FunctionRef,
    substitutions: &Vec<(SyntheticSlot, Option<&LabelBacktrace>)>,
) -> (r: bool)
    ensures
        r == can_handle(ctx@, checks_of(checks@), func@, substitutions_of(substitutions@)),
{
    let frames: usize = ctx.funcs.len();
    if frames > 0 && !ctx.funcs[frames - 1].func.is_main() {
        proof {
            assert(ctx@.funcs.last() == ctx.funcs@[frames - 1]@);
        }
        return true;
    }
    proof {
        if frames > 0 {
            assert(ctx@.funcs.last() == ctx.funcs@[frames - 1]@);
        }
        assert(!ctx@.can_defer());
    }
    let strict = ctx.log.stage().has_stable_labels();
    let n: usize = checks.len();
    let mut i: usize = 0;
    while i < n
        invariant
            i <= n,
            n == checks@.len(),
            !ctx@.can_defer(),
            strict == ctx@.log.stage is EnforceSecurityPolicies,
            forall|k: int|
                0 <= k < i ==> ((#[trigger] checks_of(checks@)[k]).realized(
                    func@,
                    substitutions_of(substitutions@),
                    strict,
                ) matches Some(check) ==> !is_open(check.flow())),
        decreases n - i,
    {
        proof {
            assert(checks_of(checks@)[i as int] == checks@[i as int]@);
        }
        if let Some(check) = checks[i].realize(func, substitutions, strict) {
            if depends_on_caller(&check) {
                proof {
                    assert(!can_handle(
                        ctx@,
                        checks_of(checks@),
                        func@,
                        substitutions_of(substitutions@),
                    ));
                }
                return false;
            }
        }
        i = i + 1;
    }
    true
}

fn depends_on_caller(check: &DeferredEnforcementCheck) -> (r: bool)
    ensures
        r == is_open(check@.flow()),
{
    match check {
        DeferredEnforcementCheck::Sink { found, .. } => found.label().has_any_synthetic(),
        DeferredEnforcementCheck::Assertion { found, .. } => match found {
            Some(b) => b.label().has_any_synthetic(),
            None => {
                proof {
                    assert(!has_synthetic(Set::empty()));
                }
                false
            },
        },
    }
}

} // verus!
