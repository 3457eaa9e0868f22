//! What holds of backtraces as a whole.

use vstd::prelude::*;

use crate::functions::FunctionModel;
use crate::labels::backtraces::{all_realized, all_restricted, derived, extended, first_relevant,
    flattened, folded, framed, gathered, is_recursive, label_or_bottom, labels_of,
    lemma_first_relevant, lemma_weight, listed, placeholder, realized, restricted,
    shows_placeholder, sorted_tags, spine_has, subtracted, tag_roots, united, weight,
    LabelBacktraceKind, Substitution, Trace};
use crate::labels::laws::lemma_joined_nonempty;
use crate::labels::tags::{LabelTag, TagModel};
use crate::labels::{covers, is_canonical, joined, met, summed, within, without};
use crate::locations::{Location, PinnedModel};
use crate::ordered::increasing;

verus! {

/// Whether a label is a finite one without wildcards.
pub open spec fn is_plain(s: Set<TagModel>) -> bool {
    &&& s.finite()
    &&& forall|t: TagModel| #[trigger] s.contains(t) ==> !(t is AxisWildcard)
}

/// All tags of all labels of a list of traces.
pub open spec fn spread(ts: Seq<Trace>) -> Set<TagModel> {
    Set::new(|x: TagModel| exists|i: int| 0 <= i < ts.len() && (#[trigger] ts[i]).label.contains(x))
}

/// Whether the labels of traces have no tag in common.
pub open spec fn are_disjoint(ts: Seq<Trace>) -> bool {
    forall|i: int, j: int|
        0 <= i < j < ts.len() ==> (#[trigger] ts[i]).label.disjoint((#[trigger] ts[j]).label)
}

/// Whether a trace and all below it are as they should be: no label is bottom,
/// the labels of children lie within that of their parent, and the labels of
/// siblings have nothing in common.
pub open spec fn sound(t: Trace) -> bool
    decreases t,
{
    &&& t.label != Set::<TagModel>::empty()
    &&& is_plain(t.label)
    &&& all_sound(t.children)
    &&& spread(t.children).subset_of(t.label)
    &&& are_disjoint(t.children)
}

/// Whether every trace of a list is sound.
pub open spec fn all_sound(ts: Seq<Trace>) -> bool
    decreases ts,
{
    forall|i: int| 0 <= i < ts.len() ==> sound(#[trigger] ts[i])
}

/// Among labels without wildcards, to cover is to contain.
pub proof fn lemma_plain(a: Set<TagModel>, b: Set<TagModel>)
    requires
        is_plain(a),
    ensures
        is_canonical(a),
        forall|t: TagModel| covers(a, t) == a.contains(t),
        within(b, a) == b.subset_of(a),
        met(a, b).subset_of(a),
        is_plain(met(a, b)),
        is_plain(b) ==> met(a, b) == a.intersect(b),
        is_plain(b) ==> without(b, a) == b.difference(a),
        is_plain(b) ==> joined(a, b) == a.union(b),
        is_plain(b) ==> is_plain(joined(a, b)),
        is_plain(without(a, b)),
        without(a, b).subset_of(a),
{
    assert forall|t: TagModel| covers(a, t) == a.contains(t) by {
        if let Some(w) = t.wildcard() {
            assert(!a.contains(w));
        }
    }
    if b.subset_of(a) {
        assert(within(b, a));
    }
    assert forall|t: TagModel| met(a, b).contains(t) implies a.contains(t) by {
        assert(covers(a, t) == a.contains(t));
    }
    vstd::set_lib::lemma_len_subset(met(a, b), a);
    vstd::set_lib::lemma_len_subset(without(a, b), a);
    if within(b, a) {
        assert forall|t: TagModel| b.contains(t) implies a.contains(t) by {
            assert(covers(a, t));
        }
    }
    if is_plain(b) {
        assert forall|t: TagModel| covers(b, t) == b.contains(t) by {
            if let Some(w) = t.wildcard() {
                assert(!b.contains(w));
            }
        }
        assert(met(a, b) =~= a.intersect(b));
        assert(without(b, a) =~= b.difference(a));
        assert(joined(a, b) =~= a.union(b));
    }
}

/// The union of labels without wildcards is their plain union.
pub proof fn lemma_summed_plain(ts: Seq<Trace>)
    requires
        forall|i: int| 0 <= i < ts.len() ==> is_plain((#[trigger] ts[i]).label),
    ensures
        summed(labels_of(ts)) == spread(ts),
        is_plain(spread(ts)),
    decreases ts.len(),
{
    if ts.len() == 0 {
        assert(spread(ts) =~= Set::<TagModel>::empty());
    } else {
        let front = ts.drop_last();
        lemma_summed_plain(front);
        assert(labels_of(ts).drop_last() =~= labels_of(front));
        assert(labels_of(ts).last() == ts.last().label);
        lemma_plain(spread(front), ts.last().label);
        lemma_spread_push(front, ts.last());
        assert(front.push(ts.last()) =~= ts);
    }
}

/// The tags of a list of traces with one more.
pub proof fn lemma_spread_push(ts: Seq<Trace>, t: Trace)
    ensures
        spread(ts.push(t)) == spread(ts).union(t.label),
{
    let all = ts.push(t);
    assert forall|x: TagModel| spread(all).contains(x) == spread(ts).union(t.label).contains(x) by {
        if spread(ts).contains(x) {
            let i = choose|i: int| 0 <= i < ts.len() && (#[trigger] ts[i]).label.contains(x);
            assert(all[i].label.contains(x));
        }
        if t.label.contains(x) {
            assert(all[ts.len() as int].label.contains(x));
        }
        if spread(all).contains(x) {
            let i = choose|i: int| 0 <= i < all.len() && (#[trigger] all[i]).label.contains(x);
            if i < ts.len() {
                assert(ts[i].label.contains(x));
            }
        }
    }
    assert(spread(all) =~= spread(ts).union(t.label));
}

/// The label of an assembled trace is the one asked for.
pub proof fn lemma_framed(
    kind: LabelBacktraceKind,
    label: Set<TagModel>,
    symbol: Option<Seq<char>>,
    location: PinnedModel<Location>,
    children: Seq<Trace>,
)
    ensures
        framed(kind, label, symbol, location, children).label == label,
        label != Set::<TagModel>::empty() && is_plain(label) && all_sound(children) && spread(
            children,
        ).subset_of(label) && are_disjoint(children) ==> sound(
            framed(kind, label, symbol, location, children),
        ),
{
    if children.len() == 1 && spine_has(children[0], kind, symbol, location, label) {
        reveal_with_fuel(spine_has, 1);
    }
}

/// Restricting a trace intersects its label and keeps the trace sound.
pub proof fn lemma_restricted(t: Trace, c: Set<TagModel>)
    requires
        sound(t),
    ensures
        restricted(t, c) is None <==> met(t.label, c) == Set::<TagModel>::empty(),
        restricted(t, c) matches Some(r) ==> sound(r) && r.label == met(t.label, c),
    decreases t,
{
    lemma_plain(t.label, c);
    if within(t.label, c) {
        assert(met(t.label, c) =~= t.label) by {
            assert forall|x: TagModel| t.label.contains(x) implies met(t.label, c).contains(x) by {
                assert(covers(c, x));
            }
        }
    } else if met(t.label, c) != Set::<TagModel>::empty() {
        lemma_all_restricted(t.children, c);
        let kids = all_restricted(t.children, c);
        assert(spread(kids).subset_of(met(t.label, c)));
        lemma_framed(t.kind, met(t.label, c), t.symbol, t.location, kids);
    }
}

/// Restricting traces keeps them sound and disjoint, and what is left of their
/// tags is what the label covers.
pub proof fn lemma_all_restricted(ts: Seq<Trace>, c: Set<TagModel>)
    requires
        all_sound(ts),
        are_disjoint(ts),
    ensures
        all_sound(all_restricted(ts, c)),
        are_disjoint(all_restricted(ts, c)),
        forall|x: TagModel|
            #[trigger] spread(all_restricted(ts, c)).contains(x) <==> spread(ts).contains(x)
                && covers(c, x),
    decreases ts,
{
    let rs = all_restricted(ts, c);
    if ts.len() > 0 {
        let front = ts.subrange(0, ts.len() - 1);
        let last = ts[ts.len() - 1];
        assert(sound(last));
        assert forall|i: int| 0 <= i < front.len() implies sound(#[trigger] front[i]) by {
            assert(front[i] == ts[i]);
        }
        assert forall|i: int, j: int| 0 <= i < j < front.len() implies (
        #[trigger] front[i]).label.disjoint((#[trigger] front[j]).label) by {
            assert(front[i] == ts[i] && front[j] == ts[j]);
        }
        lemma_all_restricted(front, c);
        lemma_restricted(last, c);
        lemma_plain(last.label, c);
        let fs = all_restricted(front, c);
        assert(front.push(last) =~= ts);
        lemma_spread_push(front, last);
        assert forall|x: TagModel| met(last.label, c).contains(x) == (last.label.contains(x)
            && covers(c, x)) by {
            if c.contains(x) && covers(last.label, x) {
                assert(last.label.contains(x));
            }
        }
        if let Some(r) = restricted(last, c) {
            lemma_spread_push(fs, r);
            assert(rs == fs.push(r));
            assert forall|i: int, j: int| 0 <= i < j < rs.len() implies (
            #[trigger] rs[i]).label.disjoint((#[trigger] rs[j]).label) by {
                if j == fs.len() {
                    assert(rs[i] == fs[i]);
                    assert forall|x: TagModel| !(rs[i].label.contains(x) && r.label.contains(x)) by {
                        if rs[i].label.contains(x) && r.label.contains(x) {
                            assert(spread(fs).contains(x));
                            assert(spread(front).contains(x));
                            let m = choose|m: int|
                                0 <= m < front.len() && (#[trigger] front[m]).label.contains(x);
                            assert(ts[m].label.disjoint(ts[ts.len() - 1].label));
                            assert(ts[m] == front[m]);
                        }
                    }
                } else {
                    assert(rs[i] == fs[i] && rs[j] == fs[j]);
                }
            }
            assert forall|i: int| 0 <= i < rs.len() implies sound(#[trigger] rs[i]) by {
                if i < fs.len() {
                    assert(rs[i] == fs[i]);
                }
            }
        } else {
            assert(rs == fs);
            assert forall|x: TagModel| #[trigger] spread(rs).contains(x) <==> spread(ts).contains(x)
                && covers(c, x) by {
                assert(!met(last.label, c).contains(x));
            }
        }
    } else {
        assert(rs =~= Seq::<Trace>::empty());
        assert(spread(rs) =~= Set::<TagModel>::empty());
        assert(spread(ts) =~= Set::<TagModel>::empty());
    }
}

/// What traces contribute to a label is sound and disjoint, and together with
/// what is left makes up the label.
pub proof fn lemma_gathered(ts: Seq<Trace>, label: Set<TagModel>)
    requires
        all_sound(ts),
        is_plain(label),
    ensures
        all_sound(gathered(ts, label).0),
        are_disjoint(gathered(ts, label).0),
        spread(gathered(ts, label).0) == label.intersect(spread(ts)),
        gathered(ts, label).1 == label.difference(spread(ts)),
    decreases ts.len(),
{
    let (rs, left) = gathered(ts, label);
    if ts.len() == 0 {
        assert(spread(rs) =~= label.intersect(spread(ts)));
        assert(left =~= label.difference(spread(ts)));
    } else {
        let front = ts.drop_last();
        let last = ts.last();
        assert(sound(last));
        assert forall|i: int| 0 <= i < front.len() implies sound(#[trigger] front[i]) by {
            assert(front[i] == ts[i]);
        }
        lemma_gathered(front, label);
        let (fs, fleft) = gathered(front, label);
        vstd::set_lib::lemma_len_subset(fleft, label);
        assert(is_plain(fleft));
        lemma_restricted(last, fleft);
        lemma_plain(last.label, fleft);
        lemma_spread_push(front, last);
        assert(front.push(last) =~= ts);
        if let Some(r) = restricted(last, fleft) {
            assert(r.label == last.label.intersect(fleft));
            vstd::set_lib::lemma_len_subset(r.label, fleft);
            lemma_plain(r.label, fleft);
            lemma_spread_push(fs, r);
            assert(rs == fs.push(r));
            assert(left =~= label.difference(spread(ts)));
            assert(spread(rs) =~= label.intersect(spread(ts)));
            assert forall|i: int, j: int| 0 <= i < j < rs.len() implies (
            #[trigger] rs[i]).label.disjoint((#[trigger] rs[j]).label) by {
                if j == fs.len() {
                    assert(rs[i] == fs[i]);
                    assert forall|x: TagModel| !(rs[i].label.contains(x) && r.label.contains(x)) by {
                        if rs[i].label.contains(x) {
                            assert(spread(fs).contains(x));
                        }
                    }
                } else {
                    assert(rs[i] == fs[i] && rs[j] == fs[j]);
                }
            }
            assert forall|i: int| 0 <= i < rs.len() implies sound(#[trigger] rs[i]) by {
                if i < fs.len() {
                    assert(rs[i] == fs[i]);
                }
            }
        } else {
            assert(last.label.intersect(fleft) =~= Set::<TagModel>::empty());
            assert forall|x: TagModel| !(last.label.contains(x) && fleft.contains(x)) by {
                assert(!last.label.intersect(fleft).contains(x));
            }
            assert(rs == fs && left == fleft);
            assert forall|x: TagModel| spread(rs).contains(x) == label.intersect(
                spread(ts),
            ).contains(x) by {
                assert(!(last.label.contains(x) && fleft.contains(x)));
                assert(spread(fs).contains(x) == label.intersect(spread(front)).contains(x));
            }
            assert(spread(rs) =~= label.intersect(spread(ts)));
            assert(left =~= label.difference(spread(ts)));
        }
    }
}

/// A backtrace is there exactly if its label is not bottom, and then has that
/// label; where no wildcard is at play and what it is derived from is sound, it
/// is sound too.
pub proof fn law_derived(
    kind: LabelBacktraceKind,
    label: Set<TagModel>,
    symbol: Option<Seq<char>>,
    location: PinnedModel<Location>,
    children: Seq<Trace>,
)
    ensures
        derived(kind, label, symbol, location, children) is None <==> label == Set::<
            TagModel,
        >::empty(),
        derived(kind, label, symbol, location, children) matches Some(r) ==> r.label == label,
        is_plain(label) && all_sound(children) ==> (derived(
            kind,
            label,
            symbol,
            location,
            children,
        ) matches Some(r) ==> sound(r)),
{
    let kids = gathered(children, label).0;
    lemma_framed(kind, label, symbol, location, kids);
    if is_plain(label) && all_sound(children) {
        lemma_gathered(children, label);
    }
}

/// A fold is there exactly if one of its children is, has the union of their
/// labels, and is sound if they are.
pub proof fn law_fold(
    children: Seq<Trace>,
    kind: LabelBacktraceKind,
    symbol: Option<Seq<char>>,
    location: PinnedModel<Location>,
)
    requires
        all_sound(children),
    ensures
        folded(children, kind, symbol, location) is None <==> children.len() == 0,
        folded(children, kind, symbol, location) matches Some(r) ==> sound(r) && r.label == spread(
            children,
        ),
{
    lemma_summed_plain(children);
    law_derived(kind, spread(children), symbol, location, children);
    if children.len() > 0 {
        assert(sound(children[0]));
        assert(exists|x: TagModel| children[0].label.contains(x)) by {
            if forall|x: TagModel| !children[0].label.contains(x) {
                assert(children[0].label =~= Set::<TagModel>::empty());
            }
        }
        let x = choose|x: TagModel| children[0].label.contains(x);
        assert(spread(children).contains(x));
    } else {
        assert(spread(children) =~= Set::<TagModel>::empty());
    }
}

/// The union of two sound backtraces, and a sound backtrace with one more
/// child, are sound and have the union of the labels.
pub proof fn law_union_of_backtraces(
    a: Trace,
    b: Trace,
    kind: LabelBacktraceKind,
    location: PinnedModel<Location>,
)
    requires
        sound(a),
        sound(b),
    ensures
        sound(united(a, b, kind, location)),
        united(a, b, kind, location).label == a.label.union(b.label),
        sound(extended(a, b)),
        extended(a, b).label == a.label.union(b.label),
{
    lemma_plain(a.label, b.label);
    lemma_joined_nonempty(a.label, b.label);
    law_derived(kind, joined(a.label, b.label), None, location, seq![a, b]);
    assert(all_sound(seq![a, b]));
    let both = seq![b] + a.children;
    assert(all_sound(both)) by {
        assert forall|i: int| 0 <= i < both.len() implies sound(#[trigger] both[i]) by {
            if i > 0 {
                assert(both[i] == a.children[i - 1]);
            }
        }
    }
    law_derived(a.kind, joined(a.label, b.label), a.symbol, a.location, seq![a, b]);
    law_derived(a.kind, joined(a.label, b.label), a.symbol, a.location, both);
}

/// What is left of a sound backtrace after a subtraction is sound, has the
/// tags that were not covered, and is there exactly if there are any.
pub proof fn law_subtraction(t: Trace, label: Set<TagModel>)
    requires
        sound(t),
    ensures
        subtracted(t, label) is None <==> without(t.label, label) == Set::<TagModel>::empty(),
        subtracted(t, label) matches Some(r) ==> sound(r) && r.label == without(t.label, label),
{
    lemma_plain(t.label, label);
    if label == Set::<TagModel>::empty() {
        assert(without(t.label, label) =~= t.label);
    } else {
        let c = without(t.label, label);
        lemma_restricted(t, c);
        lemma_plain(t.label, c);
        assert(met(t.label, c) =~= c);
    }
}

/// Restricting a sound backtrace intersects its label; it leaves nothing
/// exactly if the intersection is bottom; and the result is sound.
pub proof fn law_restriction_of_backtraces(t: Trace, c: Set<TagModel>)
    requires
        sound(t),
    ensures
        restricted(t, c) is None <==> met(t.label, c) == Set::<TagModel>::empty(),
        restricted(t, c) matches Some(r) ==> sound(r) && r.label == met(t.label, c),
{
    lemma_restricted(t, c);
}

/// A backtrace without any of the placeholders to be substituted stays as it
/// is.
pub proof fn law_realization_of_nothing(
    t: Trace,
    func: FunctionModel,
    subs: Seq<Substitution>,
    aggregates: bool,
)
    requires
        forall|i: int|
            0 <= i < subs.len() ==> !t.label.contains(placeholder(func, (#[trigger] subs[i]).0)),
    ensures
        realized(t, func, subs, aggregates) == Some(t),
{
    lemma_first_relevant(t.label, func, subs);
}

/// Every finite set of tags can be listed in increasing order.
pub proof fn lemma_sorted_tags(s: Set<TagModel>)
    requires
        s.finite(),
    ensures
        increasing::<LabelTag>(sorted_tags(s)),
        sorted_tags(s).to_set() == s,
{
    let q = crate::ordered::lemma_increasing_exists::<LabelTag>(s);
    assert(increasing::<LabelTag>(q) && q.to_set() == s);
}

/// Whether every trace that takes the place of a placeholder is sound.
pub open spec fn sound_substitutions(subs: Seq<Substitution>) -> bool {
    forall|i: int| 0 <= i < subs.len() ==> ((#[trigger] subs[i]).1 matches Some(c) ==> sound(c))
}

/// All tags of the traces that take the place of placeholders.
pub open spec fn supplied(subs: Seq<Substitution>) -> Set<TagModel> {
    Set::new(
        |x: TagModel|
            exists|i: int|
                0 <= i < subs.len() && label_or_bottom((#[trigger] subs[i]).1).contains(x),
    )
}

proof fn lemma_supplied_skip(subs: Seq<Substitution>, k: int)
    requires
        0 <= k <= subs.len(),
        sound_substitutions(subs),
    ensures
        supplied(subs.skip(k)).subset_of(supplied(subs)),
        sound_substitutions(subs.skip(k)),
{
    let rest = subs.skip(k);
    assert forall|x: TagModel| supplied(rest).contains(x) implies supplied(subs).contains(x) by {
        let i = choose|i: int|
            0 <= i < rest.len() && label_or_bottom((#[trigger] rest[i]).1).contains(x);
        assert(rest[i] == subs[i + k]);
    }
    assert forall|i: int| 0 <= i < rest.len() implies ((#[trigger] rest[i]).1 matches Some(c)
        ==> sound(c)) by {
        assert(rest[i] == subs[i + k]);
    }
}

proof fn lemma_flattened(t: Trace, label: Set<TagModel>)
    requires
        is_plain(label),
    ensures
        flattened(t, label) is None <==> label == Set::<TagModel>::empty(),
        flattened(t, label) matches Some(r) ==> sound(r) && r.label == label,
{
    lemma_sorted_tags(label);
    let tags = sorted_tags(label);
    let roots = tag_roots(t, tags);
    assert forall|i: int| 0 <= i < roots.len() implies sound(#[trigger] roots[i]) by {
        let r = roots[i];
        assert(tags.contains(tags[i]));
        assert(label.contains(tags[i]));
        assert(r.label == set![tags[i]]);
        assert(r.label.contains(tags[i]));
        assert(spread(r.children) =~= Set::<TagModel>::empty());
    }
    law_derived(t.kind, label, t.symbol, t.location, roots);
}

/// Substituting placeholders in a sound backtrace by sound backtraces leaves a
/// sound backtrace, with no tag that neither it nor one of them had.
pub proof fn law_realization_is_sound(
    t: Trace,
    func: FunctionModel,
    subs: Seq<Substitution>,
    aggregates: bool,
)
    requires
        sound(t),
        sound_substitutions(subs),
    ensures
        realized(t, func, subs, aggregates) matches Some(r) ==> sound(r) && r.label.subset_of(
            t.label.union(supplied(subs)),
        ),
    decreases weight(subs), t,
{
    let k = first_relevant(t.label, func, subs);
    lemma_first_relevant(t.label, func, subs);
    if k < subs.len() {
        lemma_weight(subs, k);
        lemma_supplied_skip(subs, k);
        lemma_supplied_skip(subs, k + 1);
        reveal_with_fuel(weight, 2);
        let slot = subs[k].0;
        let tag = placeholder(func, slot);
        let rest = subs.skip(k + 1);
        let recursive = is_recursive(func, subs[k]);
        let none = seq![(slot, None::<Trace>)];
        let concrete = if slot is Capture && recursive {
            realized(subs[k].1->0, func, none, false)
        } else {
            subs[k].1
        };
        if slot is Capture && recursive {
            law_realization_is_sound(subs[k].1->0, func, none, false);
            assert(supplied(none) =~= Set::<TagModel>::empty());
        }
        assert(concrete matches Some(c) ==> sound(c) && c.label.subset_of(supplied(subs))) by {
            if let Some(c) = concrete {
                let given = subs[k].1->0;
                assert forall|x: TagModel| c.label.contains(x) implies supplied(subs).contains(
                    x,
                ) by {
                    assert(given.label.contains(x));
                    assert(label_or_bottom(subs[k].1).contains(x));
                }
            }
        }
        let kept = t.label.remove(tag);
        let label = match concrete {
            Some(c) => joined(c.label, kept),
            None => kept,
        };
        if let Some(c) = concrete {
            lemma_plain(c.label, kept);
        }
        assert(is_plain(label));
        assert(label.subset_of(t.label.union(supplied(subs))));
        if label == t.label {
            law_realization_is_sound(t, func, rest, aggregates);
        } else if recursive && !(slot is Capture) {
            lemma_joined_nonempty(concrete->0.label, kept);
            lemma_flattened(t, label);
            law_realization_is_sound(flattened(t, label)->0, func, rest, aggregates);
        } else if shows_placeholder(t.kind) && t.label.len() == 1 {
            law_derived(
                slot.realized_kind(),
                label_or_bottom(concrete),
                t.symbol,
                t.location,
                listed(concrete),
            );
            if let Some(x) = derived(
                slot.realized_kind(),
                label_or_bottom(concrete),
                t.symbol,
                t.location,
                listed(concrete),
            ) {
                law_realization_is_sound(x, func, rest, aggregates);
            }
        } else if shows_placeholder(t.kind) && (recursive || !aggregates) {
        } else if t.kind is Branch && t.children.len() == 0 && t.label.len() == 1 {
            if let Some(c) = concrete {
                law_realization_is_sound(c, func, rest, aggregates);
            }
        } else {
            lemma_all_realized_sound(t.children, func, subs.skip(k), aggregates);
            let kids = all_realized(t.children, func, subs.skip(k), aggregates);
            law_fold(kids, t.kind, t.symbol, t.location);
        }
    }
}

proof fn lemma_all_realized_sound(
    ts: Seq<Trace>,
    func: FunctionModel,
    subs: Seq<Substitution>,
    aggregates: bool,
)
    requires
        all_sound(ts),
        sound_substitutions(subs),
    ensures
        all_sound(all_realized(ts, func, subs, aggregates)),
        spread(all_realized(ts, func, subs, aggregates)).subset_of(
            spread(ts).union(supplied(subs)),
        ),
    decreases weight(subs), ts,
{
    let rs = all_realized(ts, func, subs, aggregates);
    if ts.len() == 0 {
        assert(spread(rs) =~= Set::<TagModel>::empty());
    } else {
        let front = ts.subrange(0, ts.len() - 1);
        let last = ts[ts.len() - 1];
        assert(sound(last));
        assert forall|i: int| 0 <= i < front.len() implies sound(#[trigger] front[i]) by {
            assert(front[i] == ts[i]);
        }
        lemma_all_realized_sound(front, func, subs, aggregates);
        law_realization_is_sound(last, func, subs, aggregates);
        let fs = all_realized(front, func, subs, aggregates);
        assert(front.push(last) =~= ts);
        lemma_spread_push(front, last);
        if let Some(r) = realized(last, func, subs, aggregates) {
            lemma_spread_push(fs, r);
            assert(rs == fs.push(r));
            assert forall|i: int| 0 <= i < rs.len() implies sound(#[trigger] rs[i]) by {
                if i < fs.len() {
                    assert(rs[i] == fs[i]);
                }
            }
        }
    }
}

/// Whether a trace is grounded: children make up the label of their parent,
/// and a placeholder at the bottom stands there alone, as a parameter, a
/// captured symbol or a branch.
pub open spec fn grounded(t: Trace) -> bool
    decreases t,
{
    &&& is_plain(t.label)
    &&& t.label != Set::<TagModel>::empty()
    &&& all_grounded(t.children)
    &&& t.children.len() > 0 ==> spread(t.children) == t.label
    &&& t.children.len() == 0 && crate::labels::has_synthetic(t.label) ==> t.label.len() == 1 && (
    shows_placeholder(t.kind) || t.kind is Branch)
}

/// Whether every trace of a list is grounded.
pub open spec fn all_grounded(ts: Seq<Trace>) -> bool
    decreases ts,
{
    forall|i: int| 0 <= i < ts.len() ==> grounded(#[trigger] ts[i])
}

/// A label in which a tag, if it is there, gives way to others.
pub open spec fn exchanged(
    label: Set<TagModel>,
    tag: TagModel,
    others: Set<TagModel>,
) -> Set<TagModel> {
    if label.contains(tag) {
        label.remove(tag).union(others)
    } else {
        label
    }
}

/// A label with placeholders substituted one after the other.
pub open spec fn substituted(
    label: Set<TagModel>,
    func: FunctionModel,
    subs: Seq<Substitution>,
) -> Set<TagModel>
    decreases subs.len(),
{
    if subs.len() == 0 {
        label
    } else {
        substituted(
            exchanged(label, placeholder(func, subs[0].0), label_or_bottom(subs[0].1)),
            func,
            subs.skip(1),
        )
    }
}

/// Whether the traces that take the place of placeholders are grounded, and
/// none of them has the placeholder whose place it takes.
pub open spec fn proper_substitutions(func: FunctionModel, subs: Seq<Substitution>) -> bool {
    forall|i: int|
        0 <= i < subs.len() ==> !is_recursive(func, #[trigger] subs[i]) && (subs[i].1 matches Some(
            c,
        ) ==> grounded(c))
}

proof fn lemma_proper_skip(func: FunctionModel, subs: Seq<Substitution>, k: int)
    requires
        0 <= k <= subs.len(),
        proper_substitutions(func, subs),
    ensures
        proper_substitutions(func, subs.skip(k)),
{
    let rest = subs.skip(k);
    assert forall|i: int| 0 <= i < rest.len() implies !is_recursive(func, #[trigger] rest[i]) && (
    rest[i].1 matches Some(c) ==> grounded(c)) by {
        assert(rest[i] == subs[i + k]);
    }
}

proof fn lemma_substituted_skip(
    label: Set<TagModel>,
    func: FunctionModel,
    subs: Seq<Substitution>,
    k: int,
)
    requires
        0 <= k <= subs.len(),
        forall|i: int|
            0 <= i < k ==> !label.contains(placeholder(func, (#[trigger] subs[i]).0)),
    ensures
        substituted(label, func, subs) == substituted(label, func, subs.skip(k)),
    decreases k,
{
    if k == 0 {
        assert(subs.skip(0) =~= subs);
    } else {
        let rest = subs.skip(1);
        assert forall|i: int| 0 <= i < k - 1 implies !label.contains(
            placeholder(func, (#[trigger] rest[i]).0),
        ) by {
            assert(rest[i] == subs[i + 1]);
        }
        lemma_substituted_skip(label, func, rest, k - 1);
        assert(rest.skip(k - 1) =~= subs.skip(k));
        assert(!label.contains(placeholder(func, subs[0].0)));
    }
}

/// Substitution works tag by tag: it may be done on the parts of a label.
pub proof fn lemma_substituted_union(
    a: Set<TagModel>,
    b: Set<TagModel>,
    func: FunctionModel,
    subs: Seq<Substitution>,
)
    ensures
        substituted(a.union(b), func, subs) == substituted(a, func, subs).union(
            substituted(b, func, subs),
        ),
    decreases subs.len(),
{
    if subs.len() > 0 {
        let tag = placeholder(func, subs[0].0);
        let c = label_or_bottom(subs[0].1);
        assert(exchanged(a.union(b), tag, c) =~= exchanged(a, tag, c).union(exchanged(b, tag, c)));
        lemma_substituted_union(exchanged(a, tag, c), exchanged(b, tag, c), func, subs.skip(1));
    }
}

proof fn lemma_substituted_empty(func: FunctionModel, subs: Seq<Substitution>)
    ensures
        substituted(Set::<TagModel>::empty(), func, subs) == Set::<TagModel>::empty(),
    decreases subs.len(),
{
    if subs.len() > 0 {
        lemma_substituted_empty(func, subs.skip(1));
    }
}

/// Where a trace with one child is derived from it under the same label, it is
/// grounded if the child is.
proof fn lemma_single_derived(
    kind: LabelBacktraceKind,
    symbol: Option<Seq<char>>,
    location: PinnedModel<Location>,
    c: Trace,
)
    requires
        grounded(c),
    ensures
        derived(kind, c.label, symbol, location, seq![c]) matches Some(x) && grounded(x) && x.label
            == c.label,
{
    let one = seq![c];
    assert(one.drop_last() =~= Seq::<Trace>::empty());
    crate::labels::laws::law_subset_order(c.label, c.label, c.label);
    reveal_with_fuel(gathered, 2);
    assert(gathered(one, c.label).0 =~= one);
    lemma_spread_push(Seq::<Trace>::empty(), c);
    assert(Seq::<Trace>::empty().push(c) =~= one);
    assert(spread(Seq::<Trace>::empty()) =~= Set::<TagModel>::empty());
    assert(spread(one) =~= c.label);
    lemma_framed(kind, c.label, symbol, location, one);
}

/// When placeholders are substituted for the sake of enforcement, in a
/// grounded backtrace and by grounded ones that do not refer back to them, the
/// label that results is the label in which each placeholder has given way to
/// what takes its place. In particular nothing is left of the backtrace exactly
/// if nothing is left of its label.
pub proof fn law_enforcement_realization(t: Trace, func: FunctionModel, subs: Seq<Substitution>)
    requires
        grounded(t),
        proper_substitutions(func, subs),
    ensures
        label_or_bottom(realized(t, func, subs, true)) == substituted(t.label, func, subs),
        realized(t, func, subs, true) matches Some(r) ==> is_plain(r.label) && r.label != Set::<
            TagModel,
        >::empty(),
    decreases weight(subs), t,
{
    let k = first_relevant(t.label, func, subs);
    lemma_first_relevant(t.label, func, subs);
    lemma_substituted_skip(t.label, func, subs, k);
    if k >= subs.len() {
        assert(subs.skip(k) =~= Seq::<Substitution>::empty());
    } else {
        lemma_weight(subs, k);
        lemma_proper_skip(func, subs, k);
        lemma_proper_skip(func, subs, k + 1);
        let slot = subs[k].0;
        let tag = placeholder(func, slot);
        let rest = subs.skip(k + 1);
        let concrete = subs[k].1;
        assert(!is_recursive(func, subs[k]));
        assert(subs.skip(k)[0] == subs[k]);
        assert(subs.skip(k).skip(1) =~= rest);
        let kept = t.label.remove(tag);
        let label = match concrete {
            Some(c) => joined(c.label, kept),
            None => kept,
        };
        if let Some(c) = concrete {
            lemma_plain(c.label, kept);
            assert(label =~= exchanged(t.label, tag, c.label));
        } else {
            assert(label =~= exchanged(t.label, tag, Set::<TagModel>::empty()));
        }
        assert(substituted(t.label, func, subs) == substituted(label, func, rest));
        if label == t.label {
            law_enforcement_realization(t, func, rest);
        } else if t.label.len() == 1 && (shows_placeholder(t.kind) || (t.kind is Branch
            && t.children.len() == 0)) {
            assert(t.label =~= set![tag]) by {
                lemma_only_element(t.label, tag);
            }
            assert(kept =~= Set::<TagModel>::empty());
            assert(label =~= label_or_bottom(concrete));
            if let Some(c) = concrete {
                lemma_single_derived(slot.realized_kind(), t.symbol, t.location, c);
                if shows_placeholder(t.kind) {
                    law_enforcement_realization(
                        derived(slot.realized_kind(), c.label, t.symbol, t.location, seq![c])->0,
                        func,
                        rest,
                    );
                } else {
                    law_enforcement_realization(c, func, rest);
                }
            } else {
                lemma_substituted_empty(func, rest);
                assert(listed(concrete) =~= Seq::<Trace>::empty());
            }
        } else {
            assert(t.children.len() > 0) by {
                if t.children.len() == 0 {
                    assert(crate::labels::has_synthetic(t.label)) by {
                        assert(t.label.contains(tag) && tag is Synthetic);
                    }
                }
            }
            lemma_all_enforced(t.children, func, subs.skip(k));
            let kids = all_realized(t.children, func, subs.skip(k), true);
            lemma_summed_plain(kids);
            law_derived(t.kind, spread(kids), t.symbol, t.location, kids);
            assert(spread(kids) == substituted(t.label, func, subs.skip(k)));
        }
    }
}

proof fn lemma_all_enforced(ts: Seq<Trace>, func: FunctionModel, subs: Seq<Substitution>)
    requires
        all_grounded(ts),
        proper_substitutions(func, subs),
    ensures
        spread(all_realized(ts, func, subs, true)) == substituted(spread(ts), func, subs),
        forall|i: int|
            0 <= i < all_realized(ts, func, subs, true).len() ==> is_plain(
                (#[trigger] all_realized(ts, func, subs, true)[i]).label,
            ),
    decreases weight(subs), ts,
{
    let rs = all_realized(ts, func, subs, true);
    if ts.len() == 0 {
        assert(spread(rs) =~= Set::<TagModel>::empty());
        assert(spread(ts) =~= Set::<TagModel>::empty());
        lemma_substituted_empty(func, subs);
    } else {
        let front = ts.subrange(0, ts.len() - 1);
        let last = ts[ts.len() - 1];
        assert(grounded(last));
        assert forall|i: int| 0 <= i < front.len() implies grounded(#[trigger] front[i]) by {
            assert(front[i] == ts[i]);
        }
        lemma_all_enforced(front, func, subs);
        law_enforcement_realization(last, func, subs);
        let fs = all_realized(front, func, subs, true);
        assert(front.push(last) =~= ts);
        lemma_spread_push(front, last);
        lemma_substituted_union(spread(front), last.label, func, subs);
        if let Some(r) = realized(last, func, subs, true) {
            lemma_spread_push(fs, r);
            assert(rs == fs.push(r));
            assert forall|i: int| 0 <= i < rs.len() implies is_plain((#[trigger] rs[i]).label) by {
                if i < fs.len() {
                    assert(rs[i] == fs[i]);
                }
            }
        } else {
            assert(substituted(last.label, func, subs) =~= Set::<TagModel>::empty());
            assert(spread(rs) =~= substituted(spread(ts), func, subs));
        }
    }
}

proof fn lemma_only_element(s: Set<TagModel>, x: TagModel)
    requires
        s.len() == 1,
        s.finite(),
        s.contains(x),
    ensures
        s == set![x],
{
    let rest = s.remove(x);
    assert(rest.len() == 0);
    assert(rest =~= Set::<TagModel>::empty());
    assert(s =~= set![x]);
}

/// After placeholders have been substituted by labels that have none of them,
/// none of them is left.
pub proof fn law_no_placeholder_escapes(
    label: Set<TagModel>,
    func: FunctionModel,
    subs: Seq<Substitution>,
    i: int,
)
    requires
        0 <= i < subs.len(),
        forall|j: int|
            0 <= j < subs.len() ==> !label_or_bottom((#[trigger] subs[j]).1).contains(
                placeholder(func, subs[i].0),
            ),
    ensures
        !substituted(label, func, subs).contains(placeholder(func, subs[i].0)),
    decreases subs.len(),
{
    let tag = placeholder(func, subs[i].0);
    let next = exchanged(label, placeholder(func, subs[0].0), label_or_bottom(subs[0].1));
    let rest = subs.skip(1);
    assert forall|j: int| 0 <= j < rest.len() implies !label_or_bottom(
        (#[trigger] rest[j]).1,
    ).contains(tag) by {
        assert(rest[j] == subs[j + 1]);
    }
    if i > 0 {
        assert(rest[i - 1] == subs[i]);
        law_no_placeholder_escapes(next, func, rest, i - 1);
    } else {
        assert(!next.contains(tag));
        lemma_never_reintroduced(next, func, rest, tag);
    }
}

proof fn lemma_never_reintroduced(
    label: Set<TagModel>,
    func: FunctionModel,
    subs: Seq<Substitution>,
    tag: TagModel,
)
    requires
        !label.contains(tag),
        forall|j: int|
            0 <= j < subs.len() ==> !label_or_bottom((#[trigger] subs[j]).1).contains(tag),
    ensures
        !substituted(label, func, subs).contains(tag),
    decreases subs.len(),
{
    if subs.len() > 0 {
        let rest = subs.skip(1);
        assert forall|j: int| 0 <= j < rest.len() implies !label_or_bottom(
            (#[trigger] rest[j]).1,
        ).contains(tag) by {
            assert(rest[j] == subs[j + 1]);
        }
        assert(!label_or_bottom(subs[0].1).contains(tag));
        lemma_never_reintroduced(
            exchanged(label, placeholder(func, subs[0].0), label_or_bottom(subs[0].1)),
            func,
            rest,
            tag,
        );
    }
}

} // verus!
