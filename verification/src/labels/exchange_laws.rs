//! What holds of placeholders that give way to what takes their place.

use vstd::prelude::*;

use crate::functions::FunctionModel;
use crate::labels::backtraces::{all_realized, derived, first_relevant, folded, label_or_bottom,
    lemma_first_relevant, lemma_weight, listed, placeholder, realized, shows_placeholder, weight,
    Substitution, Trace};
use crate::labels::tags::{SyntheticSlot, TagModel};
use crate::labels::trace_laws::{is_plain, law_derived, law_realization_of_nothing, lemma_plain,
    lemma_spread_push, lemma_summed_plain, spread};
use crate::labels::{collapsed, joined, rebound, rebound_tag, remapped, remapped_tag};

verus! {

/// Whether a tag is a placeholder that something takes the place of.
pub open spec fn is_filled(func: FunctionModel, subs: Seq<Substitution>, x: TagModel) -> bool {
    exists|i: int| 0 <= i < subs.len() && x == placeholder(func, (#[trigger] subs[i]).0)
}

/// Whether a tag is one of what takes the place of a placeholder in a label.
pub open spec fn is_supplied(
    label: Set<TagModel>,
    func: FunctionModel,
    subs: Seq<Substitution>,
    x: TagModel,
) -> bool {
    exists|i: int|
        0 <= i < subs.len() && label.contains(placeholder(func, (#[trigger] subs[i]).0))
            && label_or_bottom(subs[i].1).contains(x)
}

/// The tags of a label once each placeholder has given way to the tags of what
/// takes its place.
pub open spec fn exchanged_tags(
    label: Set<TagModel>,
    func: FunctionModel,
    subs: Seq<Substitution>,
) -> Set<TagModel> {
    Set::new(
        |x: TagModel|
            label.contains(x) && !is_filled(func, subs, x) || is_supplied(label, func, subs, x),
    )
}

/// Whether a trace is anchored: children make up the label of their parent, and a
/// placeholder of a function stands alone where it comes from.
pub open spec fn anchored(t: Trace, func: FunctionModel) -> bool
    decreases t,
{
    &&& is_plain(t.label)
    &&& t.label != Set::<TagModel>::empty()
    &&& all_anchored(t.children, func)
    &&& t.children.len() > 0 ==> spread(t.children) == t.label
    &&& has_placeholder(t.label, func) && (t.children.len() == 0 || shows_placeholder(t.kind))
        ==> t.label.len() == 1 && (shows_placeholder(t.kind) || t.kind is Branch)
}

/// Whether every trace of a list is anchored.
pub open spec fn all_anchored(ts: Seq<Trace>, func: FunctionModel) -> bool
    decreases ts,
{
    forall|i: int| 0 <= i < ts.len() ==> anchored(#[trigger] ts[i], func)
}

/// Whether a label has a placeholder of a function.
pub open spec fn has_placeholder(label: Set<TagModel>, func: FunctionModel) -> bool {
    exists|slot: SyntheticSlot| label.contains(#[trigger] placeholder(func, slot))
}

/// Whether at most one thing takes the place of each placeholder, and none of
/// these has a placeholder of the function.
pub open spec fn settled_substitutions(func: FunctionModel, subs: Seq<Substitution>) -> bool {
    &&& forall|i: int, j: int|
        0 <= i < j < subs.len() ==> (#[trigger] subs[i]).0 != (#[trigger] subs[j]).0
    &&& forall|i: int|
        0 <= i < subs.len() ==> ((#[trigger] subs[i]).1 matches Some(c) ==> is_plain(c.label)
            && c.label != Set::<TagModel>::empty() && !has_placeholder(c.label, func))
}

proof fn lemma_settled_skip(func: FunctionModel, subs: Seq<Substitution>, k: int)
    requires
        settled_substitutions(func, subs),
        0 <= k <= subs.len(),
    ensures
        settled_substitutions(func, subs.skip(k)),
{
    let rest = subs.skip(k);
    assert forall|i: int, j: int| 0 <= i < j < rest.len() implies (#[trigger] rest[i]).0 != (
    #[trigger] rest[j]).0 by {
        assert(rest[i] == subs[i + k]);
        assert(rest[j] == subs[j + k]);
    }
    assert forall|i: int| 0 <= i < rest.len() implies ((#[trigger] rest[i]).1 matches Some(c)
        ==> is_plain(c.label) && c.label != Set::<TagModel>::empty() && !has_placeholder(
        c.label,
        func,
    )) by {
        assert(rest[i] == subs[i + k]);
    }
}

proof fn lemma_exchanged_skip(
    label: Set<TagModel>,
    func: FunctionModel,
    subs: Seq<Substitution>,
    k: int,
)
    requires
        0 <= k <= subs.len(),
        forall|i: int|
            0 <= i < k ==> !label.contains(placeholder(func, (#[trigger] subs[i]).0)),
    ensures
        exchanged_tags(label, func, subs) == exchanged_tags(label, func, subs.skip(k)),
{
    let rest = subs.skip(k);
    assert forall|x: TagModel| exchanged_tags(label, func, subs).contains(x) == exchanged_tags(
        label,
        func,
        rest,
    ).contains(x) by {
        if is_supplied(label, func, subs, x) {
            let i = choose|i: int|
                0 <= i < subs.len() && label.contains(placeholder(func, (#[trigger] subs[i]).0))
                    && label_or_bottom(subs[i].1).contains(x);
            assert(i >= k);
            assert(rest[i - k] == subs[i]);
            assert(is_supplied(label, func, rest, x));
        }
        if is_supplied(label, func, rest, x) {
            let i = choose|i: int|
                0 <= i < rest.len() && label.contains(placeholder(func, (#[trigger] rest[i]).0))
                    && label_or_bottom(rest[i].1).contains(x);
            assert(rest[i] == subs[i + k]);
            assert(label.contains(placeholder(func, subs[i + k].0)));
            assert(is_supplied(label, func, subs, x));
        }
        if label.contains(x) && is_filled(func, subs, x) {
            let i = choose|i: int|
                0 <= i < subs.len() && x == placeholder(func, (#[trigger] subs[i]).0);
            assert(i >= k);
            assert(rest[i - k] == subs[i]);
            assert(is_filled(func, rest, x));
        }
        if label.contains(x) && is_filled(func, rest, x) {
            let i = choose|i: int|
                0 <= i < rest.len() && x == placeholder(func, (#[trigger] rest[i]).0);
            assert(rest[i] == subs[i + k]);
            assert(x == placeholder(func, subs[i + k].0));
            assert(is_filled(func, subs, x));
        }
    }
    assert(exchanged_tags(label, func, subs) =~= exchanged_tags(label, func, rest));
}

proof fn lemma_exchanged_union(
    a: Set<TagModel>,
    b: Set<TagModel>,
    func: FunctionModel,
    subs: Seq<Substitution>,
)
    ensures
        exchanged_tags(a.union(b), func, subs) == exchanged_tags(a, func, subs).union(
            exchanged_tags(b, func, subs),
        ),
{
    assert forall|x: TagModel| exchanged_tags(a.union(b), func, subs).contains(x)
        == exchanged_tags(a, func, subs).union(exchanged_tags(b, func, subs)).contains(x) by {
        if is_supplied(a.union(b), func, subs, x) {
            let i = choose|i: int|
                0 <= i < subs.len() && a.union(b).contains(
                    placeholder(func, (#[trigger] subs[i]).0),
                ) && label_or_bottom(subs[i].1).contains(x);
            assert(a.contains(placeholder(func, subs[i].0)) || b.contains(
                placeholder(func, subs[i].0),
            ));
        }
        if is_supplied(a, func, subs, x) {
            let i = choose|i: int|
                0 <= i < subs.len() && a.contains(placeholder(func, (#[trigger] subs[i]).0))
                    && label_or_bottom(subs[i].1).contains(x);
            assert(a.union(b).contains(placeholder(func, subs[i].0)));
        }
        if is_supplied(b, func, subs, x) {
            let i = choose|i: int|
                0 <= i < subs.len() && b.contains(placeholder(func, (#[trigger] subs[i]).0))
                    && label_or_bottom(subs[i].1).contains(x);
            assert(a.union(b).contains(placeholder(func, subs[i].0)));
        }
    }
    assert(exchanged_tags(a.union(b), func, subs) =~= exchanged_tags(a, func, subs).union(
        exchanged_tags(b, func, subs),
    ));
}

proof fn lemma_nothing_exchanged(func: FunctionModel, subs: Seq<Substitution>)
    ensures
        exchanged_tags(Set::<TagModel>::empty(), func, subs) == Set::<TagModel>::empty(),
{
    assert(exchanged_tags(Set::<TagModel>::empty(), func, subs) =~= Set::<TagModel>::empty());
}

/// A placeholder alone gives way to just the tags of what takes its place.
pub proof fn lemma_single_exchanged(
    label: Set<TagModel>,
    func: FunctionModel,
    subs: Seq<Substitution>,
    k: int,
)
    requires
        0 <= k < subs.len(),
        label == set![placeholder(func, subs[k].0)],
        forall|i: int, j: int|
            0 <= i < j < subs.len() ==> (#[trigger] subs[i]).0 != (#[trigger] subs[j]).0,
    ensures
        exchanged_tags(label, func, subs) == label_or_bottom(subs[k].1),
{
    assert forall|x: TagModel| exchanged_tags(label, func, subs).contains(x) == label_or_bottom(
        subs[k].1,
    ).contains(x) by {
        if label.contains(x) {
            assert(x == placeholder(func, subs[k].0));
            assert(is_filled(func, subs, x));
        }
        if is_supplied(label, func, subs, x) {
            let i = choose|i: int|
                0 <= i < subs.len() && label.contains(placeholder(func, (#[trigger] subs[i]).0))
                    && label_or_bottom(subs[i].1).contains(x);
            assert(placeholder(func, subs[i].0) == placeholder(func, subs[k].0));
            assert(subs[i].0 == subs[k].0);
            assert(i == k);
        }
        if label_or_bottom(subs[k].1).contains(x) {
            assert(label.contains(placeholder(func, subs[k].0)));
            assert(is_supplied(label, func, subs, x));
        }
    }
    assert(exchanged_tags(label, func, subs) =~= label_or_bottom(subs[k].1));
}

/// When placeholders are substituted in an anchored trace by what has none of them,
/// each of them gives way to just the tags of what takes its place, and all other
/// tags stay. Nothing is left of the trace exactly if no tag is left.
pub proof fn law_placeholders_give_way(
    t: Trace,
    func: FunctionModel,
    subs: Seq<Substitution>,
    aggregates: bool,
)
    requires
        anchored(t, func),
        settled_substitutions(func, subs),
    ensures
        label_or_bottom(realized(t, func, subs, aggregates)) == exchanged_tags(
            t.label,
            func,
            subs,
        ),
        realized(t, func, subs, aggregates) matches Some(r) ==> is_plain(r.label) && r.label
            != Set::<TagModel>::empty(),
    decreases t, 1int,
{
    let k = first_relevant(t.label, func, subs);
    lemma_first_relevant(t.label, func, subs);
    lemma_exchanged_skip(t.label, func, subs, k);
    if k >= subs.len() {
        assert(subs.skip(k) =~= Seq::<Substitution>::empty());
        assert(exchanged_tags(t.label, func, subs.skip(k)) =~= t.label);
    } else {
        lemma_weight(subs, k);
        reveal_with_fuel(weight, 2);
        lemma_settled_skip(func, subs, k);
        let slot = subs[k].0;
        let tag = placeholder(func, slot);
        let rest = subs.skip(k + 1);
        let concrete = subs[k].1;
        assert(t.label.contains(placeholder(func, slot)));
        assert(has_placeholder(t.label, func));
        if let Some(c) = concrete {
            assert(!c.label.contains(placeholder(func, slot)));
        }
        let kept = t.label.remove(tag);
        let label = match concrete {
            Some(c) => joined(c.label, kept),
            None => kept,
        };
        if let Some(c) = concrete {
            lemma_plain(c.label, kept);
        }
        assert(!label.contains(tag));
        assert(label != t.label);
        if t.label.len() == 1 && (shows_placeholder(t.kind) || (t.kind is Branch
            && t.children.len() == 0)) {
            assert(t.label =~= set![tag]) by {
                let others = t.label.remove(tag);
                assert(others.len() == 0);
                assert(others =~= Set::<TagModel>::empty());
            }
            lemma_single_exchanged(t.label, func, subs, k);
            assert(kept =~= Set::<TagModel>::empty());
            if let Some(c) = concrete {
                law_derived(slot.realized_kind(), c.label, t.symbol, t.location, seq![c]);
                let x = derived(slot.realized_kind(), c.label, t.symbol, t.location, seq![c])->0;
                assert forall|i: int| 0 <= i < rest.len() implies !c.label.contains(
                    placeholder(func, (#[trigger] rest[i]).0),
                ) by {
                    if c.label.contains(placeholder(func, rest[i].0)) {
                        assert(has_placeholder(c.label, func));
                    }
                }
                law_realization_of_nothing(x, func, rest, aggregates);
                law_realization_of_nothing(c, func, rest, aggregates);
                assert(listed(concrete) =~= seq![c]);
            }
        } else {
            assert(t.children.len() > 0 && !shows_placeholder(t.kind));
            lemma_all_give_way(t.children, func, subs.skip(k), aggregates);
            let kids = all_realized(t.children, func, subs.skip(k), aggregates);
            lemma_summed_plain(kids);
            law_derived(t.kind, spread(kids), t.symbol, t.location, kids);
            assert(realized(t, func, subs, aggregates) == folded(
                kids,
                t.kind,
                t.symbol,
                t.location,
            ));
        }
    }
}

proof fn lemma_all_give_way(
    ts: Seq<Trace>,
    func: FunctionModel,
    subs: Seq<Substitution>,
    aggregates: bool,
)
    requires
        all_anchored(ts, func),
        settled_substitutions(func, subs),
    ensures
        spread(all_realized(ts, func, subs, aggregates)) == exchanged_tags(
            spread(ts),
            func,
            subs,
        ),
        forall|i: int|
            0 <= i < all_realized(ts, func, subs, aggregates).len() ==> is_plain(
                (#[trigger] all_realized(ts, func, subs, aggregates)[i]).label,
            ),
    decreases ts, 0int,
{
    let rs = all_realized(ts, func, subs, aggregates);
    if ts.len() == 0 {
        assert(spread(rs) =~= Set::<TagModel>::empty());
        assert(spread(ts) =~= Set::<TagModel>::empty());
        lemma_nothing_exchanged(func, subs);
    } else {
        let front = ts.subrange(0, ts.len() - 1);
        let last = ts[ts.len() - 1];
        assert(anchored(last, func));
        assert forall|i: int| 0 <= i < front.len() implies anchored(#[trigger] front[i], func) by {
            assert(front[i] == ts[i]);
        }
        lemma_all_give_way(front, func, subs, aggregates);
        law_placeholders_give_way(last, func, subs, aggregates);
        let fs = all_realized(front, func, subs, aggregates);
        assert(front.push(last) =~= ts);
        lemma_spread_push(front, last);
        lemma_exchanged_union(spread(front), last.label, func, subs);
        if let Some(r) = realized(last, func, subs, aggregates) {
            lemma_spread_push(fs, r);
            assert(rs == fs.push(r));
            assert forall|i: int| 0 <= i < rs.len() implies is_plain((#[trigger] rs[i]).label) by {
                if i < fs.len() {
                    assert(rs[i] == fs[i]);
                }
            }
        } else {
            assert(exchanged_tags(last.label, func, subs) =~= Set::<TagModel>::empty());
            assert(spread(rs) =~= exchanged_tags(spread(ts), func, subs));
        }
    }
}

proof fn lemma_collapsed_plain(s: Set<TagModel>)
    requires
        is_plain(s),
    ensures
        collapsed(s) == s,
{
    lemma_plain(s, s);
    assert(s.union(s) =~= s);
}

/// A label whose placeholders are given from one function to another has each
/// placeholder of the first one for the other one, at the same place or, for a
/// captured variable, at the place that it gets; and it keeps all other tags. It has
/// no others.
pub proof fn law_placeholders_change_hands(
    s: Set<TagModel>,
    from: FunctionModel,
    to: FunctionModel,
    places: Map<usize, usize>,
    x: TagModel,
)
    requires
        is_plain(s),
    ensures
        rebound(s, from, to).contains(x) <==> (s.contains(x) && !(x matches TagModel::Synthetic {
            func,
            ..
        } && func == from && from != to)) || (x matches TagModel::Synthetic { func, slot } && func
            == to && s.contains(placeholder(from, slot))),
        remapped(s, from, to, places).contains(x) <==> exists|t: TagModel|
            #![trigger s.contains(t)]
            s.contains(t) && match t {
                TagModel::Synthetic { func, slot } => if func == from {
                    match slot {
                        SyntheticSlot::Capture(i) => x == placeholder(
                            to,
                            SyntheticSlot::Capture(
                                if places.dom().contains(i) {
                                    places[i]
                                } else {
                                    i
                                },
                            ),
                        ),
                        _ => x == placeholder(to, slot),
                    }
                } else {
                    x == t
                },
                _ => x == t,
            },
{
    let f = |t: TagModel| rebound_tag(t, from, to);
    let g = |t: TagModel| remapped_tag(t, from, to, places);
    s.lemma_map_finite(f);
    s.lemma_map_finite(g);
    assert(is_plain(s.map(f)));
    assert(is_plain(s.map(g)));
    lemma_collapsed_plain(s.map(f));
    lemma_collapsed_plain(s.map(g));
    if let TagModel::Synthetic { func, slot } = x {
        if func == to && s.contains(placeholder(from, slot)) {
            assert(f(placeholder(from, slot)) == x);
            assert(s.map(f).contains(x));
        }
    }
    if s.contains(x) {
        if let TagModel::Synthetic { func, slot } = x {
            if func != from || from == to {
                assert(f(x) == x);
                assert(s.map(f).contains(x));
            }
        } else {
            assert(f(x) == x);
            assert(s.map(f).contains(x));
        }
    }
    if s.map(f).contains(x) {
        let t = choose|t: TagModel| s.contains(t) && x == f(t);
        assert(s.contains(t));
    }
    if s.map(g).contains(x) {
        let t = choose|t: TagModel| s.contains(t) && x == g(t);
        assert(s.contains(t));
    }
    if exists|t: TagModel|
        #![trigger s.contains(t)]
        s.contains(t) && x == remapped_tag(t, from, to, places) {
        let t = choose|t: TagModel|
            #![trigger s.contains(t)]
            s.contains(t) && x == remapped_tag(t, from, to, places);
        assert(g(t) == x);
        assert(s.map(g).contains(x));
    }
}

} // verus!
