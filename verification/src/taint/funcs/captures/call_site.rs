//! What a call does to the symbols that a function captures.

use vstd::prelude::*;

use crate::context::branches::copy_trace;
use crate::functions::{FunctionModel, FunctionRef};
use crate::labels::backtraces::{combined, label_or_bottom, placeholder, realized, trace_of,
    LabelBacktrace, LabelBacktraceKind, Substitution, Trace};
use crate::labels::tags::{SyntheticSlot, TagModel};
use crate::locations::{Location, Pinned, PinnedModel, Span};
use crate::ordered::{increasing, lemma_increasing_determined, same_text, Ordered, OrderedMap};
use crate::policy::targets::SimpleConstValue;
use crate::symbols::table::{SymbolTable, TableModel};
use crate::symbols::{const_of, Symbol, SymbolModel};
use crate::taint::funcs::call_application::{capture_substitutions, CallCaptureConcretes};
use crate::taint::funcs::call_checks::flows_of;
use crate::taint::funcs::captures::realization::{functions_of, lemma_settled_knows,
    CaptureEnvSnapshot, CaptureScene, Declaration, SceneModel};
use crate::taint::funcs::captures::{captures_of, CaptureBinding, CaptureModel};
use crate::values::{carried, merged, value_realized, values_agree, Value, ValueModel};

verus! {

/// What takes the place of the placeholders that do not stand for captured
/// symbols at a call.
#[derive(Debug)]
pub struct CallSiteConcretes {
    /// What is passed for each parameter.
    pub params: Vec<Option<LabelBacktrace>>,
    /// What decides whether the call is made.
    pub branch: Option<LabelBacktrace>,
}

/// What a [`CallSiteConcretes`] stands for.
#[verifier::ext_equal]
pub struct SiteModel {
    pub params: Seq<Option<Trace>>,
    pub branch: Option<Trace>,
}

impl View for CallSiteConcretes {
    type V = SiteModel;

    open spec fn view(&self) -> SiteModel {
        SiteModel { params: flows_of(self.params@), branch: trace_of(self.branch) }
    }
}

/// A trace with the placeholders for the first parameters substituted, one
/// after the other.
pub open spec fn for_params(
    t: Option<Trace>,
    func: FunctionModel,
    params: Seq<Option<Trace>>,
    n: int,
) -> Option<Trace>
    decreases n,
{
    if n <= 0 {
        t
    } else {
        match for_params(t, func, params, n - 1) {
            Some(x) => realized(
                x,
                func,
                seq![(SyntheticSlot::Param((n - 1) as usize), params[n - 1])],
                false,
            ),
            None => None,
        }
    }
}

/// A trace as it is at a call.
pub open spec fn at_site(t: Option<Trace>, func: FunctionModel, site: SiteModel) -> Option<Trace> {
    match for_params(t, func, site.params, site.params.len() as int) {
        Some(x) => realized(x, func, seq![(SyntheticSlot::CallSiteBranch, site.branch)], false),
        None => None,
    }
}

/// What optional backtraces under numbers stand for.
pub open spec fn concretes_of(m: Map<usize, Option<LabelBacktrace>>) -> Map<usize, Option<Trace>> {
    m.map_values(|b: Option<LabelBacktrace>| trace_of(b))
}

/// Nothing is left of a trace of which nothing was left.
proof fn lemma_for_params_of_none(func: FunctionModel, params: Seq<Option<Trace>>, n: int)
    ensures
        for_params(None, func, params, n) is None,
    decreases n,
{
    if n > 0 {
        lemma_for_params_of_none(func, params, n - 1);
    }
}

/// Once nothing is left of a trace, nothing is left of it after any more
/// substitutions.
proof fn lemma_for_params_stays_none(
    t: Option<Trace>,
    func: FunctionModel,
    params: Seq<Option<Trace>>,
    i: int,
    n: int,
)
    requires
        i <= n,
        for_params(t, func, params, i) is None,
    ensures
        for_params(t, func, params, n) is None,
    decreases n,
{
    if i < n && n > 0 {
        lemma_for_params_stays_none(t, func, params, i, n - 1);
    }
}

impl CallSiteConcretes {
    /// A backtrace as it is at the call.
    pub fn realize_backtrace_for_params(
        &self,
        func: &FunctionRef,
        initial: Option<LabelBacktrace>,
    ) -> (r: Option<LabelBacktrace>)
        ensures
            trace_of(r) == at_site(trace_of(initial), func@, self@),
    {
        let ghost start = trace_of(initial);
        let ghost params = self@.params;
        let mut current = match initial {
            Some(b) => b,
            None => {
                proof {
                    lemma_for_params_of_none(func@, params, params.len() as int);
                }
                return None;
            },
        };
        let n: usize = self.params.len();
        let mut i: usize = 0;
        while i < n
            invariant
                i <= n,
                n == self.params@.len(),
                params == self@.params,
                n == params.len(),
                start == trace_of(initial),
                for_params(start, func@, params, i as int) == Some(current@),
            decreases n - i,
        {
            let next = current.realize(func, SyntheticSlot::Param(i), self.params[i].as_ref());
            proof {
                assert(params[i as int] == trace_of(self.params@[i as int]));
                assert(trace_of(next) == for_params(start, func@, params, i + 1));
            }
            match next {
                Some(b) => {
                    current = b;
                },
                None => {
                    proof {
                        lemma_for_params_stays_none(start, func@, params, i + 1, n as int);
                    }
                    return None;
                },
            }
            i = i + 1;
        }
        current.realize(func, SyntheticSlot::CallSiteBranch, self.branch.as_ref())
    }
}

/// What takes the place of the placeholders for captured symbols, as it is at a
/// call.
pub fn realize_capture_backtraces_for_call_site(
    concretes: OrderedMap<usize, Option<LabelBacktrace>>,
    func: &FunctionRef,
    call_site: &CallSiteConcretes,
) -> (r: OrderedMap<usize, Option<LabelBacktrace>>)
    ensures
        concretes_of(r@) == concretes_of(concretes@).map_values(
            |t: Option<Trace>| at_site(t, func@, call_site@),
        ),
{
    let mut r: OrderedMap<usize, Option<LabelBacktrace>> = OrderedMap::new();
    let n: usize = concretes.len();
    let ghost keys = concretes.listing();
    let mut i: usize = 0;
    while i < n
        invariant
            i <= n,
            n == keys.len(),
            keys == concretes.listing(),
            forall|k: usize| #[trigger] concretes@.dom().contains(k) == keys.contains(k),
            forall|k: usize| #[trigger] r@.dom().contains(k) == keys.take(i as int).contains(k),
            forall|k: usize| #[trigger]
                r@.dom().contains(k) ==> trace_of(r@[k]) == at_site(
                    trace_of(concretes@[k]),
                    func@,
                    call_site@,
                ),
        decreases n - i,
    {
        let key: usize = *concretes.key_at(i);
        let value = call_site.realize_backtrace_for_params(func, copy_trace(concretes.value_at(i)));
        r.insert(key, value);
        proof {
            assert(keys.take(i + 1) =~= keys.take(i as int).push(key));
            assert forall|k: usize| #[trigger] r@.dom().contains(k) == keys.take(i + 1).contains(
                k,
            ) by {
                if keys.take(i as int).contains(k) {
                    let p = choose|p: int|
                        0 <= p < keys.take(i as int).len() && keys.take(i as int)[p] == k;
                    assert(keys.take(i + 1)[p] == k);
                }
                assert(keys.take(i + 1)[i as int] == key);
            }
        }
        i = i + 1;
    }
    proof {
        assert(keys.take(n as int) =~= keys);
        assert forall|k: usize| #[trigger] r@.dom().contains(k) == concretes@.dom().contains(k) by {
        }
        assert(concretes_of(r@) =~= concretes_of(concretes@).map_values(
            |t: Option<Trace>| at_site(t, func@, call_site@),
        ));
    }
    r
}

/// What takes the place of a placeholder if it may be one thing or another.
pub open spec fn either(
    before: Option<Trace>,
    after: Option<Trace>,
    location: PinnedModel<Location>,
) -> Option<Trace> {
    if before == after {
        before
    } else {
        combined(before, after, LabelBacktraceKind::ClosureCaptureBinding, location)
    }
}

/// What takes the place of a placeholder if it may be one thing or another.
pub fn merge_capture_backtraces(
    before: Option<LabelBacktrace>,
    after: Option<LabelBacktrace>,
    location: &Pinned<Location>,
) -> (r: Option<LabelBacktrace>)
    ensures
        trace_of(r) == either(trace_of(before), trace_of(after), location@),
{
    let same_both = match (&before, &after) {
        (Some(a), Some(b)) => a.same_as(b),
        (None, None) => true,
        _ => false,
    };
    if same_both {
        return before;
    }
    LabelBacktrace::combine_options(
        before,
        after,
        LabelBacktraceKind::ClosureCaptureBinding,
        location,
    )
}

/// What takes the place of the placeholders if it may be what it was before or
/// what it is after.
pub open spec fn either_of_all(
    before: Map<usize, Option<Trace>>,
    after: Map<usize, Option<Trace>>,
    location: PinnedModel<Location>,
) -> Map<usize, Option<Trace>> {
    Map::new(
        |k: usize| before.dom().contains(k) || after.dom().contains(k),
        |k: usize|
            if !after.dom().contains(k) {
                before[k]
            } else if !before.dom().contains(k) {
                after[k]
            } else {
                either(before[k], after[k], location)
            },
    )
}

/// What takes the place of the placeholders if it may be what it was before or
/// what it is after.
pub fn merge_capture_concretes(
    before: OrderedMap<usize, Option<LabelBacktrace>>,
    after: &OrderedMap<usize, Option<LabelBacktrace>>,
    location: &Pinned<Location>,
) -> (r: OrderedMap<usize, Option<LabelBacktrace>>)
    ensures
        concretes_of(r@) == either_of_all(concretes_of(before@), concretes_of(after@), location@),
{
    let ghost first = before@;
    let ghost goal = either_of_all(concretes_of(first), concretes_of(after@), location@);
    let mut r = before;
    let n: usize = after.len();
    let ghost keys = after.listing();
    let mut i: usize = 0;
    while i < n
        invariant
            i <= n,
            n == keys.len(),
            keys == after.listing(),
            crate::ordered::increasing::<usize>(keys),
            goal == either_of_all(concretes_of(first), concretes_of(after@), location@),
            forall|k: usize| #[trigger] after@.dom().contains(k) == keys.contains(k),
            forall|k: usize| #[trigger]
                r@.dom().contains(k) == (first.dom().contains(k) || keys.take(i as int).contains(k)),
            forall|k: usize| #[trigger]
                r@.dom().contains(k) && !keys.take(i as int).contains(k) ==> r@[k] == first[k],
            forall|k: usize| #[trigger]
                r@.dom().contains(k) && keys.take(i as int).contains(k) ==> trace_of(r@[k])
                    == goal[k],
        decreases n - i,
    {
        let key: usize = *after.key_at(i);
        let new = copy_trace(after.value_at(i));
        let ghost taken = keys.take(i as int);
        proof {
            crate::ordered::lemma_increasing_distinct::<usize>(keys);
            assert(!taken.contains(key)) by {
                if taken.contains(key) {
                    let p = choose|p: int| 0 <= p < taken.len() && taken[p] == key;
                    assert(keys[p] == keys[i as int]);
                }
            }
            assert(keys.take(i + 1) =~= taken.push(key));
            assert(keys.take(i + 1)[i as int] == key);
        }
        let old_value = r.remove(&key);
        let value = match old_value {
            Some(old_concrete) => merge_capture_backtraces(old_concrete, new, location),
            None => new,
        };
        r.insert(key, value);
        proof {
            assert(goal.dom().contains(key));
            assert(concretes_of(after@).dom().contains(key));
            assert(trace_of(r@[key]) == goal[key]);
            assert forall|k: usize| keys.take(i + 1).contains(k) == (taken.contains(k) || k
                == key) by {
                if taken.contains(k) {
                    let p = choose|p: int| 0 <= p < taken.len() && taken[p] == k;
                    assert(keys.take(i + 1)[p] == k);
                }
            }
        }
        i = i + 1;
    }
    proof {
        assert(keys.take(n as int) =~= keys);
        assert(concretes_of(r@) =~= goal);
    }
    r
}

/// What takes the place of the placeholders once those of captured symbols to
/// which the function itself writes stand for what was captured.
pub open spec fn restored(
    for_outcome: Map<usize, Option<Trace>>,
    captures: Seq<CaptureModel>,
    at_entry: Map<usize, Option<Trace>>,
    n: int,
) -> Map<usize, Option<Trace>>
    decreases n,
{
    if n <= 0 {
        for_outcome
    } else {
        let before = restored(for_outcome, captures, at_entry, n - 1);
        let c = captures[n - 1];
        if c.mutation is Some {
            before.insert(c.index, at_entry[c.index])
        } else {
            before
        }
    }
}

/// Lets the placeholders of captured symbols to which the function itself
/// writes stand for what was captured.
pub fn restore_entry_concretes_for_directly_mutated_captures(
    captures: &Vec<CaptureBinding>,
    at_entry: &OrderedMap<usize, Option<LabelBacktrace>>,
    for_outcome: &mut OrderedMap<usize, Option<LabelBacktrace>>,
)
    requires
        forall|i: int|
            0 <= i < captures@.len() && (#[trigger] captures@[i]).mutation_backtrace is Some
                ==> at_entry@.dom().contains(captures@[i].index),
    ensures
        concretes_of(final(for_outcome)@) == restored(
            concretes_of(old(for_outcome)@),
            captures_of(captures@),
            concretes_of(at_entry@),
            captures@.len() as int,
        ),
{
    let ghost first = concretes_of(for_outcome@);
    let ghost cs = captures_of(captures@);
    let n: usize = captures.len();
    let mut i: usize = 0;
    while i < n
        invariant
            i <= n,
            n == captures@.len(),
            cs == captures_of(captures@),
            first == concretes_of(old(for_outcome)@),
            forall|i: int|
                0 <= i < captures@.len() && (#[trigger] captures@[i]).mutation_backtrace is Some
                    ==> at_entry@.dom().contains(captures@[i].index),
            concretes_of(for_outcome@) == restored(first, cs, concretes_of(at_entry@), i as int),
        decreases n - i,
    {
        let ghost before = concretes_of(for_outcome@);
        if captures[i].mutation_backtrace.is_some() {
            let index: usize = captures[i].index;
            proof {
                assert(at_entry@.dom().contains(captures@[i as int].index));
            }
            match at_entry.get(&index) {
                Some(entry) => {
                    let concrete = copy_trace(entry);
                    for_outcome.insert(index, concrete);
                    proof {
                        assert(concretes_of(for_outcome@) =~= before.insert(
                            index,
                            concretes_of(at_entry@)[index],
                        ));
                    }
                },
                None => {},
            }
        }
        i = i + 1;
    }
}

/// A value with the placeholders for the first parameters substituted, one
/// after the other.
pub open spec fn value_for_params(
    v: ValueModel,
    func: FunctionModel,
    params: Seq<Option<Trace>>,
    n: int,
) -> ValueModel
    decreases n,
{
    if n <= 0 {
        v
    } else {
        value_realized(
            value_for_params(v, func, params, n - 1),
            func,
            seq![(SyntheticSlot::Param((n - 1) as usize), params[n - 1])],
        )
    }
}

/// Whether a value is nothing but a placeholder.
pub open spec fn is_placeholder(v: ValueModel, func: FunctionModel, slot: SyntheticSlot) -> bool {
    v.parts.len() == 0 && label_or_bottom(v.own) == set![placeholder(func, slot)]
}

/// A value with a placeholder substituted by what another value carries. If the
/// value is nothing but the placeholder, it becomes the other value.
pub open spec fn shaped(
    v: ValueModel,
    func: FunctionModel,
    slot: SyntheticSlot,
    outer: ValueModel,
) -> ValueModel {
    if is_placeholder(v, func, slot) {
        outer
    } else {
        value_realized(v, func, seq![(slot, carried(outer))])
    }
}

/// A value with the placeholders for the first captured symbols substituted,
/// one after the other; that for the symbol which the value is for, by the
/// value that the symbol has.
pub open spec fn value_for_captures(
    v: ValueModel,
    func: FunctionModel,
    own: usize,
    concretes: Seq<Substitution>,
    outer: ValueModel,
    n: int,
) -> ValueModel
    decreases n,
{
    if n <= 0 {
        v
    } else {
        let before = value_for_captures(v, func, own, concretes, outer, n - 1);
        if concretes[n - 1].0 == SyntheticSlot::Capture(own) {
            shaped(before, func, concretes[n - 1].0, outer)
        } else {
            value_realized(before, func, seq![concretes[n - 1]])
        }
    }
}

/// The value that a captured symbol has in the function, as it is at a call.
pub open spec fn value_at_site(
    v: ValueModel,
    func: FunctionModel,
    own: usize,
    site: SiteModel,
    concretes: Seq<Substitution>,
    outer: ValueModel,
) -> ValueModel {
    value_realized(
        value_for_captures(
            value_for_params(v, func, site.params, site.params.len() as int),
            func,
            own,
            concretes,
            outer,
            concretes.len() as int,
        ),
        func,
        seq![(SyntheticSlot::CallSiteBranch, site.branch)],
    )
}

impl CallSiteConcretes {
    fn realize_value(
        &self,
        func: &FunctionRef,
        own: usize,
        value: &Value,
        concretes: &OrderedMap<usize, Option<LabelBacktrace>>,
        outer: &Value,
    ) -> (r: Value)
        ensures
            r@ == value_at_site(
                value@,
                func@,
                own,
                self@,
                capture_substitutions(*concretes),
                outer@,
            ),
    {
        let ghost params = self@.params;
        let mut current = value.clone();
        let n: usize = self.params.len();
        let mut i: usize = 0;
        while i < n
            invariant
                i <= n,
                n == self.params@.len(),
                params == self@.params,
                current@ == value_for_params(value@, func@, params, i as int),
            decreases n - i,
        {
            proof {
                assert(params[i as int] == trace_of(self.params@[i as int]));
            }
            current = current.realize(func, SyntheticSlot::Param(i), self.params[i].as_ref());
            i = i + 1;
        }
        let ghost passed = current@;
        let ghost cs = capture_substitutions(*concretes);
        let m: usize = concretes.len();
        let mut j: usize = 0;
        while j < m
            invariant
                j <= m,
                m == concretes.listing().len(),
                cs == capture_substitutions(*concretes),
                current@ == value_for_captures(passed, func@, own, cs, outer@, j as int),
            decreases m - j,
        {
            let index: usize = *concretes.key_at(j);
            let slot = SyntheticSlot::Capture(index);
            proof {
                assert(cs[j as int].0 == slot);
            }
            if index == own {
                current = preserve_shape(&current, func, slot, outer);
            } else {
                current = current.realize(func, slot, concretes.value_at(j).as_ref());
            }
            j = j + 1;
        }
        current.realize(func, SyntheticSlot::CallSiteBranch, self.branch.as_ref())
    }
}

fn preserve_shape(
    value: &Value,
    func: &FunctionRef,
    slot: SyntheticSlot,
    outer: &Value,
) -> (r: Value)
    ensures
        r@ == shaped(value@, func@, slot, outer@),
{
    proof {
        value.lemma_parts();
    }
    let alone = value.parts.len() == 0 && match &value.own {
        Some(b) => b.label().is_synthetic_representation(func, slot),
        None => {
            proof {
                assert(!Set::<TagModel>::empty().contains(placeholder(func@, slot)));
                assert(set![placeholder(func@, slot)].contains(placeholder(func@, slot)));
            }
            false
        },
    };
    if alone {
        outer.clone()
    } else {
        let concrete = outer.backtrace();
        value.realize(func, slot, concrete.as_ref())
    }
}

/// What a call writes to a captured symbol, and what is then known of it. The
/// symbol also keeps what it had, if it was declared where the call is not
/// known to be made.
pub open spec fn written_to(
    local: SymbolModel,
    outer: SymbolModel,
    func: FunctionModel,
    own: usize,
    site: SiteModel,
    concretes: Seq<Substitution>,
    outside_split: bool,
) -> SymbolModel {
    let now = value_at_site(local.value, func, own, site, concretes, outer.value);
    let untouched = label_or_bottom(carried(local.value)) == set![
        placeholder(func, SyntheticSlot::Capture(own)),
    ];
    if untouched || !outer.mutable || (values_agree(now, outer.value, true) && local.known_const
        == outer.known_const) {
        outer
    } else if outside_split {
        SymbolModel {
            value: merged(
                outer.value,
                now,
                LabelBacktraceKind::Assignment,
                outer.value.location,
            ).nesting(
                LabelBacktraceKind::Assignment,
                Some(local.declared_name.inner.content),
                outer.value.location,
                Seq::<Trace>::empty(),
            ),
            known_const: None,
            ..outer
        }
    } else {
        SymbolModel { value: now, known_const: local.known_const, ..outer }
    }
}

/// The table once a call has written to the first captured symbols.
pub open spec fn written_back(
    t: TableModel,
    func: FunctionModel,
    captures: Seq<CaptureModel>,
    site: SiteModel,
    concretes: Seq<Substitution>,
    outers: Seq<usize>,
    outside_split: Seq<bool>,
    n: int,
) -> TableModel
    decreases n,
{
    if n <= 0 {
        t
    } else {
        let before = written_back(
            t,
            func,
            captures,
            site,
            concretes,
            outers,
            outside_split,
            n - 1,
        );
        let c = captures[n - 1];
        let outer = outers[n - 1] as int;
        TableModel {
            symbols: before.symbols.update(
                outer,
                written_to(
                    before.symbols[c.local_symbol as int],
                    before.symbols[outer],
                    func,
                    c.index,
                    site,
                    concretes,
                    outside_split[n - 1],
                ),
            ),
            ..before
        }
    }
}

fn same_const(a: &Option<SimpleConstValue>, b: &Option<SimpleConstValue>) -> (r: bool)
    ensures
        r == (const_of(*a) == const_of(*b)),
{
    match (a, b) {
        (Some(x), Some(y)) => same_text(x.text.as_str(), y.text.as_str()),
        (None, None) => true,
        _ => false,
    }
}

fn copy_const(c: &Option<SimpleConstValue>) -> (r: Option<SimpleConstValue>)
    ensures
        const_of(r) == const_of(*c),
{
    match c {
        Some(x) => Some(SimpleConstValue { text: x.text.clone() }),
        None => None,
    }
}

fn work_out_write(
    local: &Symbol,
    outer: &Symbol,
    func: &FunctionRef,
    own: usize,
    site: &CallSiteConcretes,
    concretes: &OrderedMap<usize, Option<LabelBacktrace>>,
    outside_split: bool,
) -> (r: Option<(Value, Option<SimpleConstValue>)>)
    ensures
        written_to(
            local@,
            outer@,
            func@,
            own,
            site@,
            capture_substitutions(*concretes),
            outside_split,
        ) == (match r {
            Some((v, k)) => SymbolModel { value: v@, known_const: const_of(k), ..outer@ },
            None => outer@,
        }),
{
    let slot = SyntheticSlot::Capture(own);
    let untouched = match local.value.backtrace() {
        Some(b) => b.label().is_synthetic_representation(func, slot),
        None => {
            proof {
                assert(!Set::<TagModel>::empty().contains(placeholder(func@, slot)));
                assert(set![placeholder(func@, slot)].contains(placeholder(func@, slot)));
            }
            false
        },
    };
    if untouched || !outer.mutable {
        return None;
    }
    let now = site.realize_value(func, own, &local.value, concretes, &outer.value);
    if now.agrees_with(&outer.value) && same_const(&local.known_const, &outer.known_const) {
        return None;
    }
    if outside_split {
        let mut value = outer.value.merge_with(
            &now,
            LabelBacktraceKind::Assignment,
            &outer.value.location,
        );
        let nothing: Vec<LabelBacktrace> = Vec::new();
        value.nest_backtrace(
            LabelBacktraceKind::Assignment,
            Some(local.declared_name.content().to_owned()),
            outer.value.location.duplicate(),
            &nothing,
        );
        proof {
            assert(crate::labels::backtraces::traces_of(nothing@) =~= Seq::<Trace>::empty());
        }
        Some((value, None))
    } else {
        Some((now, copy_const(&local.known_const)))
    }
}

/// Lets a call write to the captured symbols what the function wrote to those
/// that stand for them in it. Of each captured symbol it is given which one it
/// is here, and whether it was declared outside of the branches that are being
/// visited.
pub fn apply_capture_write_backs_with(
    table: &mut SymbolTable,
    func: &FunctionRef,
    captures: &Vec<CaptureBinding>,
    site: &CallSiteConcretes,
    concretes: &OrderedMap<usize, Option<LabelBacktrace>>,
    outers: &Vec<usize>,
    outside_split: &Vec<bool>,
)
    requires
        old(table)@.wf(),
        outers@.len() == captures@.len(),
        outside_split@.len() == captures@.len(),
        forall|i: int|
            0 <= i < captures@.len() ==> (#[trigger] captures@[i]).local_symbol < old(
                table,
            )@.symbols.len(),
        forall|i: int| 0 <= i < outers@.len() ==> #[trigger] outers@[i] < old(table)@.symbols.len(),
    ensures
        final(table)@.wf(),
        final(table)@ == written_back(
            old(table)@,
            func@,
            captures_of(captures@),
            site@,
            capture_substitutions(*concretes),
            outers@,
            outside_split@,
            captures@.len() as int,
        ),
{
    let ghost first = table@;
    let ghost cs = captures_of(captures@);
    let ghost subs = capture_substitutions(*concretes);
    let n: usize = captures.len();
    let mut i: usize = 0;
    while i < n
        invariant
            i <= n,
            n == captures@.len(),
            outers@.len() == n,
            outside_split@.len() == n,
            cs == captures_of(captures@),
            subs == capture_substitutions(*concretes),
            first == old(table)@,
            table@.wf(),
            table@.symbols.len() == first.symbols.len(),
            forall|i: int|
                0 <= i < captures@.len() ==> (#[trigger] captures@[i]).local_symbol
                    < first.symbols.len(),
            forall|i: int| 0 <= i < outers@.len() ==> #[trigger] outers@[i] < first.symbols.len(),
            table@ == written_back(
                first,
                func@,
                cs,
                site@,
                subs,
                outers@,
                outside_split@,
                i as int,
            ),
        decreases n - i,
    {
        let ghost before = table@;
        let outer: usize = outers[i];
        let own: usize = captures[i].index;
        proof {
            assert(cs[i as int] == captures@[i as int]@);
        }
        let write = work_out_write(
            table.symbol(captures[i].local_symbol),
            table.symbol(outer),
            func,
            own,
            site,
            concretes,
            outside_split[i],
        );
        match write {
            Some((value, known_const)) => {
                table.set_value(outer, value, known_const);
            },
            None => {
                proof {
                    assert(before.symbols.update(outer as int, before.symbols[outer as int])
                        =~= before.symbols);
                }
            },
        }
        proof {
            let goal = written_back(
                first,
                func@,
                cs,
                site@,
                subs,
                outers@,
                outside_split@,
                i + 1,
            );
            assert(table@ =~= goal);
        }
        i = i + 1;
    }
}

/// What takes the place of the placeholders for the first captured symbols, if
/// these carry what is given.
pub open spec fn concretes_from(
    captures: Seq<CaptureModel>,
    env: Map<Declaration, Option<Trace>>,
    n: int,
) -> Map<usize, Option<Trace>>
    decreases n,
{
    if n <= 0 {
        Map::<usize, Option<Trace>>::empty()
    } else {
        concretes_from(captures, env, n - 1).insert(
            captures[n - 1].index,
            env[captures[n - 1].declaration],
        )
    }
}

/// What takes the place of the placeholders for captured symbols.
pub fn capture_concretes_from_snapshot(
    captures: &Vec<CaptureBinding>,
    snapshot: &CaptureEnvSnapshot,
) -> (r: OrderedMap<usize, Option<LabelBacktrace>>)
    requires
        forall|i: int|
            0 <= i < captures@.len() ==> snapshot@.dom().contains(
                (#[trigger] captures@[i]).declaration@,
            ),
    ensures
        concretes_of(r@) == concretes_from(
            captures_of(captures@),
            snapshot@,
            captures@.len() as int,
        ),
{
    let ghost cs = captures_of(captures@);
    let mut r: OrderedMap<usize, Option<LabelBacktrace>> = OrderedMap::new();
    proof {
        assert(concretes_of(r@) =~= Map::<usize, Option<Trace>>::empty());
    }
    let n: usize = captures.len();
    let mut i: usize = 0;
    while i < n
        invariant
            i <= n,
            n == captures@.len(),
            cs == captures_of(captures@),
            forall|i: int|
                0 <= i < captures@.len() ==> snapshot@.dom().contains(
                    (#[trigger] captures@[i]).declaration@,
                ),
            concretes_of(r@) == concretes_from(cs, snapshot@, i as int),
        decreases n - i,
    {
        let ghost before = concretes_of(r@);
        let ghost d = captures@[i as int].declaration@;
        proof {
            assert(cs[i as int] == captures@[i as int]@);
            assert(snapshot@.dom().contains(d));
            assert(snapshot.flows@.dom().contains(d));
        }
        match snapshot.flows.get(&captures[i].declaration) {
            Some(flow) => {
                r.insert(captures[i].index, copy_trace(flow));
                proof {
                    assert(concretes_of(r@) =~= before.insert(
                        captures@[i as int].index,
                        snapshot@[d],
                    ));
                }
            },
            None => {},
        }
        i = i + 1;
    }
    r
}

impl SceneModel {
    /// What takes the place of the placeholders for captured symbols at a call,
    /// as far as that can be settled.
    pub open spec fn concretes_at(self, t: TableModel, site: SiteModel, limit: nat) -> Option<
        Map<usize, Option<Trace>>,
    > {
        match self.settled(t, 0, limit) {
            Some(env) => Some(
                concretes_from(self.captures, env, self.captures.len() as int).map_values(
                    |x: Option<Trace>| at_site(x, self.func, site),
                ),
            ),
            None => None,
        }
    }

    /// The same, of the symbols as they are captured.
    pub open spec fn at_entry(self) -> SceneModel {
        SceneModel { with_mutations: false, ..self }
    }
}

/// What takes the place of the placeholders for captured symbols at a call;
/// none if that takes too many steps.
pub fn derive_backtraces_for_captures(
    table: &SymbolTable,
    scene: &CaptureScene<'_>,
    site: &CallSiteConcretes,
    limit: usize,
) -> (r: Option<OrderedMap<usize, Option<LabelBacktrace>>>)
    requires
        scene@.fits(table@),
    ensures
        match scene@.concretes_at(table@, site@, limit as nat) {
            Some(m) => r is Some && concretes_of(r->0@) == m,
            None => r is None,
        },
{
    match CaptureEnvSnapshot::derive_new(table, scene, limit) {
        Some(snapshot) => {
            proof {
                assert forall|i: int| 0 <= i < scene.captures@.len() implies snapshot@.dom().contains(
                    (#[trigger] scene.captures@[i]).declaration@,
                ) by {
                    lemma_settled_knows(scene@, table@, 0, limit as nat, i);
                    assert(scene@.captures[i] == scene.captures@[i]@);
                }
            }
            let concretes = capture_concretes_from_snapshot(scene.captures, &snapshot);
            Some(realize_capture_backtraces_for_call_site(concretes, scene.func, site))
        },
        None => None,
    }
}

/// Whether a function writes to a symbol that it captures.
pub open spec fn writes_captures(captures: Seq<CaptureModel>) -> bool {
    exists|i: int| 0 <= i < captures.len() && (#[trigger] captures[i]).mutation is Some
}

fn has_direct_capture_mutations(captures: &Vec<CaptureBinding>) -> (r: bool)
    ensures
        r == writes_captures(captures_of(captures@)),
{
    let ghost cs = captures_of(captures@);
    let n: usize = captures.len();
    let mut i: usize = 0;
    while i < n
        invariant
            i <= n,
            n == captures@.len(),
            cs == captures_of(captures@),
            forall|k: int| 0 <= k < i ==> (#[trigger] cs[k]).mutation is None,
        decreases n - i,
    {
        proof {
            assert(cs[i as int] == captures@[i as int]@);
        }
        if captures[i].mutation_backtrace.is_some() {
            return true;
        }
        i = i + 1;
    }
    false
}

impl SceneModel {
    /// What takes the place of the placeholders for captured symbols in the
    /// checks of the function. It is not worked out if nothing depends on it.
    pub open spec fn entry_concretes(
        self,
        t: TableModel,
        site: SiteModel,
        has_checks: bool,
        limit: nat,
    ) -> Option<Map<usize, Option<Trace>>> {
        if has_checks || writes_captures(self.captures) {
            self.at_entry().concretes_at(t, site, limit)
        } else {
            Some(Map::<usize, Option<Trace>>::empty())
        }
    }
}

/// Lets a call write to the captured symbols, and works out what takes the
/// place of the placeholders for them: in the checks of the function, what they
/// carry as it is called; in its results, what they carry before or after the
/// call has written to them, but what they carry as it is called where the
/// function itself writes to them. `outers` holds the symbols to write to, and
/// `outside_split` whether they were declared outside of the branches that are
/// being visited. None if it takes too many steps to tell what the symbols
/// carry; if that is before the call has written to them, it does not.
pub fn apply_capture_mutations_and_derive_concretes(
    table: &mut SymbolTable,
    definitions: &OrderedMap<Pinned<Span>, usize>,
    func: &FunctionRef,
    call_stack: &Vec<FunctionRef>,
    captures: &Vec<CaptureBinding>,
    symbols: &Vec<usize>,
    outers: &Vec<usize>,
    outside_split: &Vec<bool>,
    site: &CallSiteConcretes,
    has_checks: bool,
    location: &Pinned<Location>,
    limit: usize,
) -> (r: Option<CallCaptureConcretes>)
    requires
        old(table)@.wf(),
        (SceneModel {
            definitions: definitions@,
            func: func@,
            call_stack: functions_of(call_stack@),
            captures: captures_of(captures@),
            symbols: symbols@,
            with_mutations: true,
        }).fits(old(table)@),
        outers@.len() == captures@.len(),
        outside_split@.len() == captures@.len(),
        forall|i: int|
            0 <= i < captures@.len() ==> (#[trigger] captures@[i]).local_symbol < old(
                table,
            )@.symbols.len(),
        forall|i: int| 0 <= i < outers@.len() ==> #[trigger] outers@[i] < old(table)@.symbols.len(),
    ensures
        final(table)@.wf(),
        ({
            let scene = SceneModel {
                definitions: definitions@,
                func: func@,
                call_stack: functions_of(call_stack@),
                captures: captures_of(captures@),
                symbols: symbols@,
                with_mutations: true,
            };
            let t = old(table)@;
            let entry = scene.entry_concretes(t, site@, has_checks, limit as nat);
            let before = scene.concretes_at(t, site@, limit as nat);
            if entry is None || before is None {
                r is None && final(table)@ == t
            } else {
                exists|subs: Seq<Substitution>|
                    {
                        let now = written_back(
                            t,
                            func@,
                            scene.captures,
                            site@,
                            subs,
                            outers@,
                            outside_split@,
                            captures@.len() as int,
                        );
                        let after = scene.concretes_at(now, site@, limit as nat);
                        &&& #[trigger] lists(subs, before->0)
                        &&& final(table)@ == now
                        &&& r is Some == after is Some
                        &&& r matches Some(c) ==> {
                            &&& concretes_of(c.at_entry@) == entry->0
                            &&& concretes_of(c.for_outcome@) == restored(
                                either_of_all(before->0, after->0, location@),
                                scene.captures,
                                entry->0,
                                captures@.len() as int,
                            )
                        }
                    }
            }
        }),
{
    let ghost t = table@;
    let ghost scene = SceneModel {
        definitions: definitions@,
        func: func@,
        call_stack: functions_of(call_stack@),
        captures: captures_of(captures@),
        symbols: symbols@,
        with_mutations: true,
    };
    let with_writes = CaptureScene {
        definitions,
        func,
        call_stack,
        captures,
        symbols,
        include_body_mutations: true,
    };
    let at_entry = if has_checks || has_direct_capture_mutations(captures) {
        let entry_scene = CaptureScene {
            definitions,
            func,
            call_stack,
            captures,
            symbols,
            include_body_mutations: false,
        };
        proof {
            assert(entry_scene@ == scene.at_entry());
        }
        match derive_backtraces_for_captures(table, &entry_scene, site, limit) {
            Some(m) => m,
            None => {
                return None;
            },
        }
    } else {
        let nothing: OrderedMap<usize, Option<LabelBacktrace>> = OrderedMap::new();
        proof {
            assert(concretes_of(nothing@) =~= Map::<usize, Option<Trace>>::empty());
        }
        nothing
    };
    proof {
        assert(with_writes@ == scene);
    }
    let before = match derive_backtraces_for_captures(table, &with_writes, site, limit) {
        Some(m) => m,
        None => {
            return None;
        },
    };
    let ghost subs = capture_substitutions(before);
    let _count: usize = before.len();
    proof {
        let keys = before.listing();
        assert(increasing::<usize>(keys));
        assert forall|i: int| 0 <= i < keys.len() implies trace_of(
            #[trigger] before@[keys[i]],
        ) == concretes_of(before@)[keys[i]] by {
            assert(keys.contains(keys[i]));
        }
        assert(subs =~= Seq::new(
            keys.len(),
            |i: int| (SyntheticSlot::Capture(keys[i]), concretes_of(before@)[keys[i]]),
        ));
        assert forall|k: usize| concretes_of(before@).dom().contains(k) == #[trigger] keys.contains(
            k,
        ) by {
            assert(before@.dom().contains(k) == keys.contains(k));
        }
        assert(lists(subs, concretes_of(before@)));
    }
    apply_capture_write_backs_with(
        table,
        func,
        captures,
        site,
        &before,
        outers,
        outside_split,
    );
    proof {
        lemma_written_back_fits(
            t,
            func@,
            scene.captures,
            site@,
            subs,
            outers@,
            outside_split@,
            captures@.len() as int,
        );
        assert(scene.fits(table@));
    }
    let after = match derive_backtraces_for_captures(table, &with_writes, site, limit) {
        Some(m) => m,
        None => {
            return None;
        },
    };
    let mut for_outcome = merge_capture_concretes(before, &after, location);
    proof {
        assert forall|i: int|
            0 <= i < captures@.len() && (#[trigger] captures@[i]).mutation_backtrace is Some
            implies at_entry@.dom().contains(captures@[i].index) by {
            assert(scene.captures[i] == captures@[i]@);
            assert(writes_captures(scene.captures));
            let env = scene.at_entry().settled(t, 0, limit as nat)->0;
            lemma_concretes_from_has(scene.captures, env, captures@.len() as int, i);
            assert(concretes_of(at_entry@).dom().contains(captures@[i].index));
        }
    }
    restore_entry_concretes_for_directly_mutated_captures(captures, &at_entry, &mut for_outcome);
    Some(CallCaptureConcretes { at_entry, for_outcome })
}

/// Whether substitutions for captured symbols are those of a map, in the order
/// of the numbers.
pub open spec fn lists(subs: Seq<Substitution>, m: Map<usize, Option<Trace>>) -> bool {
    exists|keys: Seq<usize>|
        {
            &&& #[trigger] increasing::<usize>(keys)
            &&& forall|k: usize| m.dom().contains(k) == #[trigger] keys.contains(k)
            &&& subs == Seq::new(
                keys.len(),
                |i: int| (SyntheticSlot::Capture(keys[i]), m[keys[i]]),
            )
        }
}

/// The substitutions for captured symbols that a map lists.
pub open spec fn listing_of(m: Map<usize, Option<Trace>>) -> Seq<Substitution> {
    choose|subs: Seq<Substitution>| lists(subs, m)
}

/// The substitutions that a map stands for are those that it lists.
pub(crate) fn note_listing(m: &OrderedMap<usize, Option<LabelBacktrace>>)
    ensures
        lists(capture_substitutions(*m), concretes_of(m@)),
        capture_substitutions(*m) == listing_of(concretes_of(m@)),
{
    let _count: usize = m.len();
    proof {
        let subs = capture_substitutions(*m);
        let keys = m.listing();
        assert(increasing::<usize>(keys));
        assert forall|i: int| 0 <= i < keys.len() implies trace_of(#[trigger] m@[keys[i]])
            == concretes_of(m@)[keys[i]] by {
            assert(keys.contains(keys[i]));
        }
        assert(subs =~= Seq::new(
            keys.len(),
            |i: int| (SyntheticSlot::Capture(keys[i]), concretes_of(m@)[keys[i]]),
        ));
        assert forall|k: usize| concretes_of(m@).dom().contains(k) == #[trigger] keys.contains(
            k,
        ) by {
            assert(m@.dom().contains(k) == keys.contains(k));
        }
        assert(lists(subs, concretes_of(m@)));
        law_substitutions_are_determined(subs, listing_of(concretes_of(m@)), concretes_of(m@));
    }
}

/// What takes the place of captured symbols, and in which order, is decided by
/// what each of them carries alone.
pub proof fn law_substitutions_are_determined(
    a: Seq<Substitution>,
    b: Seq<Substitution>,
    m: Map<usize, Option<Trace>>,
)
    requires
        lists(a, m),
        lists(b, m),
    ensures
        a == b,
{
    let ka = choose|keys: Seq<usize>|
        {
            &&& #[trigger] increasing::<usize>(keys)
            &&& forall|k: usize| m.dom().contains(k) == #[trigger] keys.contains(k)
            &&& a == Seq::new(
                keys.len(),
                |i: int| (SyntheticSlot::Capture(keys[i]), m[keys[i]]),
            )
        };
    let kb = choose|keys: Seq<usize>|
        {
            &&& #[trigger] increasing::<usize>(keys)
            &&& forall|k: usize| m.dom().contains(k) == #[trigger] keys.contains(k)
            &&& b == Seq::new(
                keys.len(),
                |i: int| (SyntheticSlot::Capture(keys[i]), m[keys[i]]),
            )
        };
    assert(ka.to_set() =~= kb.to_set()) by {
        assert forall|k: usize| ka.to_set().contains(k) == kb.to_set().contains(k) by {
            assert(ka.contains(k) == m.dom().contains(k));
            assert(kb.contains(k) == m.dom().contains(k));
        }
    }
    lemma_increasing_determined::<usize>(ka, kb);
}

proof fn lemma_concretes_from_has(
    captures: Seq<CaptureModel>,
    env: Map<Declaration, Option<Trace>>,
    n: int,
    i: int,
)
    requires
        0 <= i < n <= captures.len(),
    ensures
        concretes_from(captures, env, n).dom().contains(captures[i].index),
    decreases n,
{
    if i < n - 1 {
        lemma_concretes_from_has(captures, env, n - 1, i);
    }
}

proof fn lemma_written_back_fits(
    t: TableModel,
    func: FunctionModel,
    captures: Seq<CaptureModel>,
    site: SiteModel,
    concretes: Seq<Substitution>,
    outers: Seq<usize>,
    outside_split: Seq<bool>,
    n: int,
)
    requires
        n <= outers.len(),
        forall|i: int| 0 <= i < outers.len() ==> #[trigger] outers[i] < t.symbols.len(),
    ensures
        ({
            let r = written_back(t, func, captures, site, concretes, outers, outside_split, n);
            r.functions == t.functions && r.symbols.len() == t.symbols.len()
        }),
    decreases n,
{
    if n > 0 {
        lemma_written_back_fits(
            t,
            func,
            captures,
            site,
            concretes,
            outers,
            outside_split,
            n - 1,
        );
        assert(outers[n - 1] < t.symbols.len());
    }
}

} // verus!
