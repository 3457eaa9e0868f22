//! What holds of what functions capture, put off and yield.

use vstd::prelude::*;

use crate::analyzer::laws::lemma_agreeing_tags;
use crate::context::branches::BranchModel;
use crate::context::per_iteration::{any_of, either, propagated, reached, CellModel};
use crate::context::ContextModel;
use crate::functions::FunctionModel;
use crate::labels::backtraces::{combined, label_or_bottom, listed, placeholder, realized,
    root_trace, LabelBacktraceKind, Substitution, Trace};
use crate::labels::exchange_laws::{has_placeholder, is_filled, is_supplied,
    law_placeholders_give_way, settled_substitutions, anchored};
use crate::labels::tags::{SyntheticSlot, TagModel};
use crate::labels::trace_laws::{is_plain, law_realization_is_sound, sound, sound_substitutions,
    spread};
use crate::locations::{Location, PinnedModel, SpanModel};
use crate::symbols::table::TableModel;
use crate::symbols::SymbolModel;
use crate::taint::funcs::call_results::fed_back;
use crate::taint::funcs::captures::call_site::{value_at_site, value_for_captures,
    value_for_params, written_to, SiteModel};
use crate::taint::funcs::captures::realization::Declaration;
use crate::taint::funcs::captures::{capture_trace, registered, Gathered};
use crate::taint::funcs::defers::all_observed;
use crate::taint::funcs::{effective_branch, with_yield};
use crate::taint::implicit::{range_values, switch_bound, yielded_values};
use crate::taint::laws::expressions::{lemma_one, lemma_simple};
use crate::taint::laws::lemma_parts_of;
use crate::values::laws::{all_tags, law_merging_keeps_tags, law_nesting_adds_tags,
    law_values_carry_their_tags, lemma_combined, value_sound};
use crate::values::part_laws::law_reads_have_the_tags_of_the_part;
use crate::values::{carried, merged, value_realized, values_agree, ValueModel};

verus! {

proof fn lemma_registered(
    t: TableModel,
    func: FunctionModel,
    location: PinnedModel<Location>,
    order: Seq<Declaration>,
    m: Gathered,
    cells: Map<Declaration, usize>,
    n: int,
)
    requires
        0 <= n <= order.len(),
        t.symbols.len() + order.len() < usize::MAX,
    ensures
        ({
            let (now, captures) = registered(t, func, location, order, m, cells, n);
            let s = t.symbols.len() as int;
            &&& now.symbols.len() == s + n
            &&& captures.len() == n
            &&& forall|i: int| 0 <= i < s ==> #[trigger] now.symbols[i] == t.symbols[i]
            &&& forall|i: int|
                0 <= i < n ==> {
                    let c = #[trigger] captures[i];
                    &&& c.declaration == order[i]
                    &&& c.index == i
                    &&& c.local_symbol == s + i
                    &&& c.mutation is None
                    &&& now.symbols[s + i].value.parts.len() == 0
                    &&& now.symbols[s + i].value.own == Some(
                        capture_trace(func, i as usize, order[i].inner.content, location),
                    )
                }
        }),
    decreases n,
{
    if n > 0 {
        lemma_registered(t, func, location, order, m, cells, n - 1);
        let (before, earlier) = registered(t, func, location, order, m, cells, n - 1);
        let (now, captures) = registered(t, func, location, order, m, cells, n);
        let s = t.symbols.len() as int;
        assert forall|i: int| 0 <= i < n implies {
            let c = #[trigger] captures[i];
            &&& c.declaration == order[i]
            &&& c.index == i
            &&& c.local_symbol == s + i
            &&& c.mutation is None
            &&& now.symbols[s + i].value.parts.len() == 0
            &&& now.symbols[s + i].value.own == Some(
                capture_trace(func, i as usize, order[i].inner.content, location),
            )
        } by {
            if i < n - 1 {
                assert(captures[i] == earlier[i]);
                assert(now.symbols[s + i] == before.symbols[s + i]);
            }
        }
    }
}

/// Each variable that a function captures is, within the function, one of its own,
/// which carries at first just the placeholder of the place under which it is
/// captured. The variables around stay as they are.
pub proof fn law_captured_variables_carry_their_own_placeholders(
    t: TableModel,
    func: FunctionModel,
    location: PinnedModel<Location>,
    order: Seq<Declaration>,
    m: Gathered,
    cells: Map<Declaration, usize>,
    i: int,
)
    requires
        0 <= i < order.len(),
        t.symbols.len() + order.len() < usize::MAX,
    ensures
        ({
            let (now, captures) = registered(
                t,
                func,
                location,
                order,
                m,
                cells,
                order.len() as int,
            );
            let c = captures[i];
            &&& captures.len() == order.len()
            &&& c.declaration == order[i]
            &&& t.symbols.len() <= c.local_symbol < now.symbols.len()
            &&& all_tags(now.symbols[c.local_symbol as int].value) == set![
                TagModel::Synthetic { func, slot: SyntheticSlot::Capture(c.index) },
            ]
            &&& forall|j: int|
                0 <= j < captures.len() && j != i ==> (#[trigger] captures[j]).index != c.index
                    && captures[j].local_symbol != c.local_symbol
            &&& forall|j: int| 0 <= j < t.symbols.len() ==> #[trigger] now.symbols[j]
                == t.symbols[j]
        }),
{
    lemma_registered(t, func, location, order, m, cells, order.len() as int);
    let (now, captures) = registered(t, func, location, order, m, cells, order.len() as int);
    let v = now.symbols[captures[i].local_symbol as int].value;
    assert(all_tags(v) =~= set![
        TagModel::Synthetic { func, slot: SyntheticSlot::Capture(captures[i].index) },
    ]);
}

proof fn lemma_not_relevant(t: Trace, func: FunctionModel, subs: Seq<Substitution>)
    requires
        forall|i: int| 0 <= i < subs.len() ==> !t.label.contains(
            placeholder(func, (#[trigger] subs[i]).0),
        ),
    ensures
        realized(t, func, subs, false) == Some(t),
{
    crate::labels::backtraces::lemma_first_relevant(t.label, func, subs);
}

/// Whether neither a value nor a part of it has a placeholder of a function.
pub open spec fn is_free_of(v: ValueModel, func: FunctionModel) -> bool
    decreases v,
{
    &&& !has_placeholder(label_or_bottom(v.own), func)
    &&& forall|i: int| 0 <= i < v.parts.len() ==> is_free_of(#[trigger] v.parts[i], func)
}

proof fn lemma_realized_free(v: ValueModel, func: FunctionModel, sub: Substitution)
    requires
        is_free_of(v, func),
    ensures
        value_realized(v, func, seq![sub]) == v,
    decreases v,
{
    let r = value_realized(v, func, seq![sub]);
    if let Some(t) = v.own {
        assert forall|i: int| 0 <= i < seq![sub].len() implies !t.label.contains(
            placeholder(func, (#[trigger] seq![sub][i]).0),
        ) by {
            assert(!label_or_bottom(v.own).contains(placeholder(func, sub.0)));
        }
        lemma_not_relevant(t, func, seq![sub]);
    }
    assert forall|i: int| 0 <= i < v.parts.len() implies r.parts[i] == #[trigger] v.parts[i] by {
        assert(is_free_of(v.parts[i], func));
        lemma_realized_free(v.parts[i], func, sub);
    }
    assert(r.parts =~= v.parts);
}

proof fn lemma_free_for_params(
    v: ValueModel,
    func: FunctionModel,
    params: Seq<Option<Trace>>,
    n: int,
)
    requires
        is_free_of(v, func),
    ensures
        value_for_params(v, func, params, n) == v,
    decreases n,
{
    if n > 0 {
        lemma_free_for_params(v, func, params, n - 1);
        lemma_realized_free(v, func, (SyntheticSlot::Param((n - 1) as usize), params[n - 1]));
    }
}

proof fn lemma_free_for_captures(
    v: ValueModel,
    func: FunctionModel,
    own: usize,
    concretes: Seq<Substitution>,
    outer: ValueModel,
    n: int,
)
    requires
        is_free_of(v, func),
        0 <= n <= concretes.len(),
    ensures
        value_for_captures(v, func, own, concretes, outer, n) == v,
    decreases n,
{
    if n > 0 {
        lemma_free_for_captures(v, func, own, concretes, outer, n - 1);
        let c = concretes[n - 1];
        lemma_realized_free(v, func, c);
        lemma_realized_free(v, func, (c.0, carried(outer)));
        if crate::taint::funcs::captures::call_site::is_placeholder(v, func, c.0) {
            let tag = placeholder(func, c.0);
            assert(set![tag].contains(tag));
            assert(label_or_bottom(v.own).contains(placeholder(func, c.0)));
        }
    }
}

/// What a function writes to a variable that it captures comes out where it is
/// called: a variable that then carries nothing that waits for the call has, behind
/// the call, just the tags that it has at the end of the function, along with those
/// that it had if it is declared outside of the branches that are being visited.
pub proof fn law_writes_to_captured_variables_come_out(
    local: SymbolModel,
    outer: SymbolModel,
    func: FunctionModel,
    own: usize,
    site: SiteModel,
    concretes: Seq<Substitution>,
    outside_split: bool,
)
    requires
        value_sound(local.value),
        value_sound(outer.value),
        is_free_of(local.value, func),
        outer.mutable,
    ensures
        ({
            let now = written_to(local, outer, func, own, site, concretes, outside_split);
            &&& value_sound(now.value)
            &&& all_tags(local.value).subset_of(all_tags(now.value))
            &&& !outside_split ==> all_tags(now.value) == all_tags(local.value)
            &&& outside_split ==> all_tags(now.value) == all_tags(local.value).union(
                all_tags(outer.value),
            ) || all_tags(now.value) == all_tags(outer.value) && all_tags(outer.value) == all_tags(
                local.value,
            )
        }),
{
    let v = local.value;
    lemma_free_for_params(v, func, site.params, site.params.len() as int);
    lemma_free_for_captures(v, func, own, concretes, outer.value, concretes.len() as int);
    lemma_realized_free(v, func, (SyntheticSlot::CallSiteBranch, site.branch));
    assert(value_at_site(v, func, own, site, concretes, outer.value) == v);
    law_values_carry_their_tags(v);
    let tag = placeholder(func, SyntheticSlot::Capture(own));
    if all_tags(v) == set![tag] {
        assert(all_tags(v).contains(tag));
        lemma_free_tags(v, func, tag);
    }
    let name = Some(local.declared_name.inner.content);
    if values_agree(v, outer.value, true) {
        lemma_agreeing_tags(v, outer.value, true);
    }
    let both = merged(
        outer.value,
        v,
        LabelBacktraceKind::Assignment,
        outer.value.location,
    );
    law_merging_keeps_tags(
        outer.value,
        v,
        LabelBacktraceKind::Assignment,
        outer.value.location,
    );
    law_nesting_adds_tags(
        both,
        LabelBacktraceKind::Assignment,
        name,
        outer.value.location,
        Seq::<Trace>::empty(),
    );
    assert(spread(Seq::<Trace>::empty()) =~= Set::<TagModel>::empty());
    assert(all_tags(outer.value).union(all_tags(v)).union(Set::<TagModel>::empty()) =~= all_tags(
        v,
    ).union(all_tags(outer.value)));
}

proof fn lemma_free_tags(v: ValueModel, func: FunctionModel, tag: TagModel)
    requires
        is_free_of(v, func),
        exists|slot: SyntheticSlot| tag == #[trigger] placeholder(func, slot),
    ensures
        !all_tags(v).contains(tag),
    decreases v,
{
    let slot = choose|slot: SyntheticSlot| tag == #[trigger] placeholder(func, slot);
    assert(!label_or_bottom(v.own).contains(placeholder(func, slot)));
    crate::values::part_laws::law_tags_are_somewhere(v, tag);
    if all_tags(v).contains(tag) {
        let i = choose|i: int|
            0 <= i < v.parts.len() && all_tags(#[trigger] v.parts[i]).contains(tag);
        assert(is_free_of(v.parts[i], func));
        lemma_free_tags(v.parts[i], func, tag);
    }
}

/// A variable that a function captures and does not write to stays as it is.
pub proof fn law_untouched_captured_variables_stay(
    local: SymbolModel,
    outer: SymbolModel,
    func: FunctionModel,
    own: usize,
    site: SiteModel,
    concretes: Seq<Substitution>,
    outside_split: bool,
)
    requires
        value_sound(local.value),
        all_tags(local.value) == set![
            TagModel::Synthetic { func, slot: SyntheticSlot::Capture(own) },
        ],
    ensures
        written_to(local, outer, func, own, site, concretes, outside_split) == outer,
{
    law_values_carry_their_tags(local.value);
}

/// An argument of a call that is put off has, when the call is made, the tags that
/// it had before, and those that the variable behind it has by then, if one is
/// behind it, and no others.
pub proof fn law_put_off_arguments_may_have_changed(
    saved: Seq<ValueModel>,
    currents: Seq<Option<ValueModel>>,
    i: int,
)
    requires
        0 <= i < saved.len(),
        value_sound(saved[i]),
        i < currents.len() ==> (currents[i] matches Some(v) ==> value_sound(v)),
    ensures
        all_observed(saved, currents).len() == saved.len(),
        value_sound(all_observed(saved, currents)[i]),
        all_tags(all_observed(saved, currents)[i]) == all_tags(saved[i]).union(
            if i < currents.len() && currents[i] is Some {
                all_tags(currents[i]->0)
            } else {
                Set::<TagModel>::empty()
            },
        ),
{
    if i < currents.len() && currents[i] is Some {
        let now = ValueModel { location: saved[i].location, ..currents[i]->0 };
        lemma_parts_of(currents[i]->0, now, now.parts.len() as int);
        assert(all_tags(now) =~= all_tags(currents[i]->0));
        assert(value_sound(now));
        law_merging_keeps_tags(
            saved[i],
            now,
            LabelBacktraceKind::Expression,
            saved[i].location,
        );
    } else {
        assert(all_tags(saved[i]) =~= all_tags(saved[i]).union(Set::<TagModel>::empty()));
    }
}

/// What a function hands over to the body of a loop at a place has the tags of all
/// that it handed over there, and of the branches under which it did, and no others.
pub proof fn law_handed_over_values_add_up(
    values: Seq<Option<Trace>>,
    flows: Seq<Option<Trace>>,
    branch: Option<Trace>,
    at: PinnedModel<Location>,
    i: int,
)
    requires
        0 <= i < values.len(),
        values[i] matches Some(t) ==> sound(t),
        i < flows.len() ==> (flows[i] matches Some(t) ==> sound(t)),
        branch matches Some(t) ==> sound(t),
    ensures
        ({
            let r = with_yield(values, flows, branch, at);
            &&& r.len() == values.len()
            &&& r[i] matches Some(t) ==> sound(t)
            &&& forall|x: TagModel|
                #[trigger] label_or_bottom(r[i]).contains(x) <==> label_or_bottom(
                    values[i],
                ).contains(x) || label_or_bottom(branch).contains(x) || (i < flows.len()
                    && label_or_bottom(flows[i]).contains(x))
        }),
{
    let flow = if i < flows.len() {
        flows[i]
    } else {
        None
    };
    lemma_combined(flow, branch, LabelBacktraceKind::Expression, at);
    lemma_combined(
        values[i],
        combined(flow, branch, LabelBacktraceKind::Expression, at),
        LabelBacktraceKind::Expression,
        at,
    );
}

proof fn lemma_call_branch(t: Trace, func: FunctionModel, branch: Option<Trace>, x: TagModel)
    requires
        sound(t),
        anchored(t, func),
        branch matches Some(b) ==> sound(b) && !has_placeholder(b.label, func),
    ensures
        ({
            let subs = seq![(SyntheticSlot::CallSiteBranch, branch)];
            let r = realized(t, func, subs, false);
            let tag = TagModel::Synthetic { func, slot: SyntheticSlot::CallSiteBranch };
            &&& r matches Some(y) ==> sound(y)
            &&& label_or_bottom(r).contains(x) <==> t.label.contains(x) && x != tag
                || t.label.contains(tag) && label_or_bottom(branch).contains(x)
        }),
{
    let subs = seq![(SyntheticSlot::CallSiteBranch, branch)];
    assert(settled_substitutions(func, subs));
    assert(sound_substitutions(subs));
    law_placeholders_give_way(t, func, subs, false);
    law_realization_is_sound(t, func, subs, false);
    let tag = placeholder(func, SyntheticSlot::CallSiteBranch);
    assert(is_filled(func, subs, x) <==> x == tag) by {
        if x == tag {
            assert(subs[0].0 == SyntheticSlot::CallSiteBranch);
        }
    }
    assert(is_supplied(t.label, func, subs, x) <==> t.label.contains(tag) && label_or_bottom(
        branch,
    ).contains(x)) by {
        if t.label.contains(tag) && label_or_bottom(branch).contains(x) {
            assert(subs[0].0 == SyntheticSlot::CallSiteBranch);
        }
    }
}

/// A call takes effect under the branch around it, and under what the function
/// itself carries; where that depends on whether the function is called, under what
/// decides that. Nothing else has a part in it.
pub proof fn law_calls_take_effect_under_their_branch(
    branches: BranchModel,
    func: FunctionModel,
    own: Option<Trace>,
    at: PinnedModel<Location>,
    x: TagModel,
)
    requires
        own matches Some(t) ==> sound(t) && anchored(t, func),
        branches.current() matches Some(b) ==> sound(b) && !has_placeholder(b.label, func),
    ensures
        label_or_bottom(effective_branch(branches, func, own, at)).contains(x) <==> label_or_bottom(
            branches.current(),
        ).contains(x) || label_or_bottom(own).contains(x) && x != (TagModel::Synthetic {
            func,
            slot: SyntheticSlot::CallSiteBranch,
        }),
        effective_branch(branches, func, own, at) matches Some(t) ==> sound(t),
{
    let branch = branches.current();
    let realized_own = match own {
        Some(t) => {
            lemma_call_branch(t, func, branch, x);
            realized(t, func, seq![(SyntheticSlot::CallSiteBranch, branch)], false)
        },
        None => None,
    };
    lemma_combined(branch, realized_own, LabelBacktraceKind::Branch, at);
}

/// What is gone through in a loop over a function has, at each place, the tags of
/// what the function hands over there; where that depends on whether the function is
/// called, those of what decides that take the place of the placeholder.
pub proof fn law_yielded_values_keep_tags(
    called: ValueModel,
    count: nat,
    yields: Seq<Option<Trace>>,
    func: FunctionModel,
    branch: Option<Trace>,
    at: PinnedModel<Location>,
    i: int,
    x: TagModel,
)
    requires
        count > 0,
        0 <= i < yields.len(),
        yields[i] matches Some(t) && sound(t) && anchored(t, func),
        branch matches Some(b) ==> sound(b) && !has_placeholder(b.label, func),
    ensures
        ({
            let r = yielded_values(called, count, yields, func, branch, at);
            let label = yields[i]->0.label;
            let tag = TagModel::Synthetic { func, slot: SyntheticSlot::CallSiteBranch };
            &&& r.len() == yields.len()
            &&& label.contains(x) && x != tag || label.contains(tag) && label_or_bottom(
                branch,
            ).contains(x) ==> all_tags(r[i]).contains(x)
            &&& all_tags(r[i]).contains(x) && !all_tags(called).contains(x) ==> label.contains(x)
                && x != tag || label.contains(tag) && label_or_bottom(branch).contains(x)
        }),
{
    let t = yields[i]->0;
    lemma_call_branch(t, func, branch, x);
    let subs = seq![(SyntheticSlot::CallSiteBranch, branch)];
    let r = yielded_values(called, count, yields, func, branch, at);
    if let Some(y) = realized(t, func, subs, false) {
        lemma_simple(Some(y), at);
        lemma_parts_of(ValueModel::simple(Some(y), at), r[i], 0);
        assert(all_tags(r[i]) =~= y.label);
    }
}

/// What is gone through in a loop over a value has the tags of the value: all of
/// them at each place, and no others.
pub proof fn law_ranges_keep_tags(v: ValueModel, is_integer: bool, at: PinnedModel<Location>)
    requires
        value_sound(v),
    ensures
        range_values(v, is_integer, at).len() > 0,
        v.form is Slice || v.form is Array || v.form is Mapping ==> range_values(
            v,
            is_integer,
            at,
        ).len() == 2,
        forall|i: int|
            0 <= i < range_values(v, is_integer, at).len() ==> all_tags(
                #[trigger] range_values(v, is_integer, at)[i],
            ) == all_tags(v),
{
    law_values_carry_their_tags(v);
    lemma_simple(carried(v), at);
    law_reads_have_the_tags_of_the_part(v, None, at);
}

/// What depends on what the body of a loop feeds back has the placeholder for that,
/// besides the tags that it had, and no others.
pub proof fn law_fed_back_results_wait_for_the_loop(
    results: Seq<ValueModel>,
    owner: Option<FunctionModel>,
    at: PinnedModel<Location>,
    i: int,
)
    requires
        0 <= i < results.len(),
        value_sound(results[i]),
    ensures
        fed_back(results, owner, at).len() == results.len(),
        value_sound(fed_back(results, owner, at)[i]),
        owner is None ==> fed_back(results, owner, at) == results,
        owner matches Some(func) ==> all_tags(fed_back(results, owner, at)[i]) == all_tags(
            results[i],
        ).insert(TagModel::Synthetic { func, slot: SyntheticSlot::YieldFeedback }),
{
    if let Some(func) = owner {
        let tag = TagModel::Synthetic { func, slot: SyntheticSlot::YieldFeedback };
        let label = set![tag];
        assert(label.contains(tag));
        assert(is_plain(label));
        let root = root_trace(LabelBacktraceKind::FunctionParameter, label, None, at)->0;
        assert(spread(root.children) =~= Set::<TagModel>::empty());
        assert(sound(root));
        lemma_one(Some(root));
        assert(listed(Some(root)) =~= seq![root]);
        law_nesting_adds_tags(
            results[i],
            LabelBacktraceKind::Expression,
            None,
            at,
            listed(Some(root)),
        );
        assert(all_tags(results[i]).union(label) =~= all_tags(results[i]).insert(tag));
    }
}

/// The name that a choice between types declares stands for a variable with the
/// tags of the value that is tested, and no others.
pub proof fn law_choices_between_types_bind_their_value(
    ctx: ContextModel,
    t: TableModel,
    id: SpanModel,
    value: ValueModel,
)
    requires
        t.current < t.scopes.len(),
        t.symbols.len() < usize::MAX,
    ensures
        ({
            let now = switch_bound(ctx, t, id, value).1;
            let s = t.symbols.len() as int;
            &&& now.resolved(Some(now.current), id.content) == Some(s as usize)
            &&& now.symbols.len() == s + 1
            &&& all_tags(now.symbols[s].value) == all_tags(value)
            &&& now.symbols[s].mutable
            &&& forall|i: int| 0 <= i < s ==> #[trigger] now.symbols[i] == t.symbols[i]
        }),
{
}

proof fn lemma_either(target: SymbolModel, source: SymbolModel)
    requires
        value_sound(target.value),
        value_sound(source.value),
    ensures
        value_sound(either(target, source).value),
        all_tags(either(target, source).value) == all_tags(target.value).union(
            all_tags(source.value),
        ),
{
    if values_agree(target.value, source.value, true) {
        lemma_agreeing_tags(target.value, source.value, true);
        assert(all_tags(target.value) =~= all_tags(target.value).union(all_tags(source.value)));
    }
    law_merging_keeps_tags(
        target.value,
        source.value,
        LabelBacktraceKind::ClosureCaptureBinding,
        target.value.location,
    );
}

proof fn lemma_propagated(
    symbols: Seq<SymbolModel>,
    cells: Seq<CellModel>,
    path: Seq<usize>,
    current: SymbolModel,
    n: int,
)
    requires
        0 <= n <= cells.len(),
        forall|k: int| 0 <= k < cells.len() ==> (#[trigger] cells[k]).symbol < symbols.len(),
        forall|j: int, k: int|
            0 <= j < k < cells.len() ==> (#[trigger] cells[j]).symbol != (
            #[trigger] cells[k]).symbol,
    ensures
        propagated(symbols, cells, path, current, n).len() == symbols.len(),
        forall|k: int|
            0 <= k < n ==> propagated(symbols, cells, path, current, n)[(
            #[trigger] cells[k]).symbol as int] == reached(
                cells[k],
                path,
                symbols[cells[k].symbol as int],
                current,
            ),
        forall|k: int|
            n <= k < cells.len() ==> propagated(symbols, cells, path, current, n)[(
            #[trigger] cells[k]).symbol as int] == symbols[cells[k].symbol as int],
    decreases n,
{
    if n > 0 {
        lemma_propagated(symbols, cells, path, current, n - 1);
        let before = propagated(symbols, cells, path, current, n - 1);
        let now = propagated(symbols, cells, path, current, n);
        assert forall|k: int| 0 <= k < n implies now[(#[trigger] cells[k]).symbol as int]
            == reached(cells[k], path, symbols[cells[k].symbol as int], current) by {
            if k < n - 1 {
                assert(cells[k].symbol != cells[n - 1].symbol);
            }
        }
        assert forall|k: int| n <= k < cells.len() implies now[(
        #[trigger] cells[k]).symbol as int] == symbols[cells[k].symbol as int] by {
            assert(cells[n - 1].symbol != cells[k].symbol);
        }
    }
}

/// What is written on a way reaches all cells of ways that go on from it, which then
/// have just its tags, and all cells of ways that lead to it, which then have its
/// tags besides their own.
pub proof fn law_writes_reach_what_follows(
    symbols: Seq<SymbolModel>,
    cells: Seq<CellModel>,
    path: Seq<usize>,
    current: SymbolModel,
    i: int,
)
    requires
        forall|k: int| 0 <= k < cells.len() ==> (#[trigger] cells[k]).symbol < symbols.len(),
        forall|j: int, k: int|
            0 <= j < k < cells.len() ==> (#[trigger] cells[j]).symbol != (
            #[trigger] cells[k]).symbol,
        0 <= i < cells.len(),
        value_sound(symbols[cells[i].symbol as int].value),
        value_sound(current.value),
    ensures
        ({
            let now = propagated(symbols, cells, path, current, cells.len() as int)[
                cells[i].symbol as int];
            let before = symbols[cells[i].symbol as int];
            &&& path.is_prefix_of(cells[i].path) ==> all_tags(now.value) == all_tags(current.value)
                && now.known_const == current.known_const
            &&& cells[i].path.is_prefix_of(path) && cells[i].path != path ==> all_tags(now.value)
                == all_tags(before.value).union(all_tags(current.value))
        }),
{
    lemma_propagated(symbols, cells, path, current, cells.len() as int);
    let before = symbols[cells[i].symbol as int];
    lemma_either(before, current);
    if cells[i].path.is_prefix_of(path) && path.is_prefix_of(cells[i].path) {
        assert(cells[i].path =~= path);
    }
}

/// What may be any of several has the tags of all of them, and no others.
pub proof fn law_any_of_several_has_all_tags(symbols: Seq<SymbolModel>, ids: Seq<usize>)
    requires
        ids.len() > 0,
        forall|i: int|
            0 <= i < ids.len() ==> (#[trigger] ids[i]) < symbols.len() && value_sound(
                symbols[ids[i] as int].value,
            ),
    ensures
        value_sound(any_of(symbols, ids).value),
        forall|x: TagModel|
            #[trigger] all_tags(any_of(symbols, ids).value).contains(x) <==> exists|i: int|
                0 <= i < ids.len() && all_tags(symbols[(#[trigger] ids[i]) as int].value).contains(
                    x,
                ),
    decreases ids.len(),
{
    if ids.len() == 1 {
        assert(ids[0] < symbols.len());
        assert forall|x: TagModel|
            #[trigger] all_tags(any_of(symbols, ids).value).contains(x) <==> exists|i: int|
                0 <= i < ids.len() && all_tags(symbols[(#[trigger] ids[i]) as int].value).contains(
                    x,
                ) by {
            if all_tags(any_of(symbols, ids).value).contains(x) {
                assert(all_tags(symbols[ids[0] as int].value).contains(x));
            }
        }
    } else {
        let front = ids.drop_last();
        assert forall|i: int| 0 <= i < front.len() implies (#[trigger] front[i]) < symbols.len()
            && value_sound(symbols[front[i] as int].value) by {
            assert(front[i] == ids[i]);
        }
        law_any_of_several_has_all_tags(symbols, front);
        let last = ids.last();
        assert(ids[ids.len() - 1] == last);
        lemma_either(any_of(symbols, front), symbols[last as int]);
        assert forall|x: TagModel|
            #[trigger] all_tags(any_of(symbols, ids).value).contains(x) <==> exists|i: int|
                0 <= i < ids.len() && all_tags(symbols[(#[trigger] ids[i]) as int].value).contains(
                    x,
                ) by {
            if all_tags(any_of(symbols, front).value).contains(x) {
                let i = choose|i: int|
                    0 <= i < front.len() && all_tags(
                        symbols[(#[trigger] front[i]) as int].value,
                    ).contains(x);
                assert(front[i] == ids[i]);
                assert(all_tags(symbols[ids[i] as int].value).contains(x));
            }
            if all_tags(symbols[last as int].value).contains(x) {
                assert(all_tags(symbols[ids[ids.len() - 1] as int].value).contains(x));
            }
            if exists|i: int|
                0 <= i < ids.len() && all_tags(symbols[(#[trigger] ids[i]) as int].value).contains(
                    x,
                ) {
                let i = choose|i: int|
                    0 <= i < ids.len() && all_tags(
                        symbols[(#[trigger] ids[i]) as int].value,
                    ).contains(x);
                if i < front.len() {
                    assert(front[i] == ids[i]);
                    assert(all_tags(symbols[front[i] as int].value).contains(x));
                }
            }
        }
    }
}

} // verus!
