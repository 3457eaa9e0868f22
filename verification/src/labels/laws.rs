//! What holds of labels as a whole.

use vstd::prelude::*;

use crate::labels::tags::{ConcreteModel, TagModel};
use crate::labels::{axes_of, collapsed, covers, is_canonical, joined, label_relation, met, on_axes,
    summed, within, without, written};
use crate::ordered::Order;

verus! {

/// Collapsing a set makes it canonical, covers the same tags, and changes
/// nothing in a set that is canonical already.
pub proof fn lemma_collapsed(s: Set<TagModel>)
    ensures
        is_canonical(collapsed(s)),
        forall|t: TagModel| covers(collapsed(s), t) == covers(s, t),
        is_canonical(s) ==> collapsed(s) == s,
{
    assert forall|t: TagModel| covers(collapsed(s), t) == covers(s, t) by {
        if let Some(w) = t.wildcard() {
            assert(w.wildcard() is None);
            assert(collapsed(s).contains(w) == s.contains(w));
        }
    }
    if is_canonical(s) {
        assert(collapsed(s) =~= s);
    }
}

/// Labels that were written down are canonical: none of their tags is a
/// wildcard.
pub proof fn lemma_written_canonical(texts: Seq<Seq<char>>)
    ensures
        is_canonical(written(texts)),
        forall|t: TagModel| #[trigger] written(texts).contains(t) ==> t is Concrete,
{
    let f = |s: Seq<char>| TagModel::Concrete(ConcreteModel::parsed(s));
    let all = texts.map_values(f);
    assert forall|t: TagModel| #[trigger] written(texts).contains(t) implies t is Concrete by {
        assert(all.contains(t));
        let i = choose|i: int| 0 <= i < all.len() && all[i] == t;
        assert(all[i] == f(texts[i]));
    }
}

/// The image of a set with one more element.
pub proof fn lemma_map_insert<A, B>(s: Set<A>, x: A, f: spec_fn(A) -> B)
    ensures
        s.insert(x).map(f) == s.map(f).insert(f(x)),
{
    assert forall|y: B| s.insert(x).map(f).contains(y) == s.map(f).insert(f(x)).contains(y) by {
        if s.map(f).contains(y) {
            let a = choose|a: A| s.contains(a) && y == f(a);
            assert(s.insert(x).contains(a));
        }
        if y == f(x) {
            assert(s.insert(x).contains(x));
        }
    }
    assert(s.insert(x).map(f) =~= s.map(f).insert(f(x)));
}

/// The axes of a label with one more tag.
pub proof fn lemma_axes_insert(s: Set<TagModel>, x: TagModel)
    ensures
        axes_of(s.insert(x)) == match x.axis() {
            Some(axis) => axes_of(s).insert(axis),
            None => axes_of(s),
        },
{
    let r = match x.axis() {
        Some(axis) => axes_of(s).insert(axis),
        None => axes_of(s),
    };
    assert forall|axis: Seq<char>| axes_of(s.insert(x)).contains(axis) == r.contains(axis) by {
        if axes_of(s).contains(axis) {
            let t = choose|t: TagModel| #[trigger] s.contains(t) && t.axis() == Some(axis);
            assert(s.insert(x).contains(t));
        }
        if x.axis() == Some(axis) {
            assert(s.insert(x).contains(x));
        }
    }
    assert(axes_of(s.insert(x)) =~= r);
}

/// The set of a sequence of one element.
pub proof fn lemma_single<A>(s: Seq<A>)
    requires
        s.len() == 1,
    ensures
        s.to_set() == set![s[0]],
{
    assert(s.contains(s[0]));
    assert(s.to_set() =~= set![s[0]]);
}

/// The intersection of two canonical labels is canonical.
pub proof fn lemma_met_canonical(a: Set<TagModel>, b: Set<TagModel>)
    requires
        is_canonical(a),
        is_canonical(b),
    ensures
        is_canonical(met(a, b)),
{
    assert forall|t: TagModel| #[trigger] met(a, b).contains(t) implies !(t.wildcard() matches Some(
        w,
    ) && met(a, b).contains(w)) by {
        if let Some(w) = t.wildcard() {
            assert(w.wildcard() is None);
        }
    }
}

/// The union of two labels is empty only if both are.
pub proof fn lemma_joined_nonempty(a: Set<TagModel>, b: Set<TagModel>)
    ensures
        joined(a, b) == Set::<TagModel>::empty() <==> a == Set::<TagModel>::empty() && b == Set::<
            TagModel,
        >::empty(),
{
    law_union_is_least_upper_bound(a, b, a);
    if joined(a, b) == Set::<TagModel>::empty() {
        assert forall|t: TagModel| !a.contains(t) && !b.contains(t) by {
            assert(!covers(joined(a, b), t));
        }
        assert(a =~= Set::<TagModel>::empty());
        assert(b =~= Set::<TagModel>::empty());
    }
    if a == Set::<TagModel>::empty() && b == Set::<TagModel>::empty() {
        assert(joined(a, b) =~= Set::<TagModel>::empty());
    }
}

/// The union of labels one of which is not empty is not empty.
pub proof fn lemma_summed_nonempty(labels: Seq<Set<TagModel>>, i: int)
    requires
        0 <= i < labels.len(),
        labels[i] != Set::<TagModel>::empty(),
    ensures
        summed(labels) != Set::<TagModel>::empty(),
    decreases labels.len(),
{
    lemma_joined_nonempty(summed(labels.drop_last()), labels.last());
    if i < labels.len() - 1 {
        lemma_summed_nonempty(labels.drop_last(), i);
    }
}

/// Joining labels neither depends on their order nor on their grouping,
/// joining a label with itself changes nothing, and bottom is neutral.
pub proof fn law_union(a: Set<TagModel>, b: Set<TagModel>, c: Set<TagModel>)
    ensures
        joined(a, b) == joined(b, a),
        joined(joined(a, b), c) == joined(a, joined(b, c)),
        is_canonical(a) ==> joined(a, a) == a,
        is_canonical(a) ==> joined(a, Set::<TagModel>::empty()) == a,
        is_canonical(joined(a, b)),
{
    assert(a.union(b) =~= b.union(a));
    lemma_collapsed(a.union(b));
    lemma_collapsed(b.union(c));
    assert(joined(joined(a, b), c) =~= joined(a, joined(b, c))) by {
        assert forall|t: TagModel| joined(joined(a, b), c).contains(t) == joined(
            a,
            joined(b, c),
        ).contains(t) by {
            if let Some(w) = t.wildcard() {
                assert(w.wildcard() is None);
            }
        }
    }
    lemma_collapsed(a);
    assert(a.union(a) =~= a);
    assert(a.union(Set::<TagModel>::empty()) =~= a);
}

/// The union of two labels covers exactly what either of them covers, and is
/// the least label that does.
pub proof fn law_union_is_least_upper_bound(
    a: Set<TagModel>,
    b: Set<TagModel>,
    c: Set<TagModel>,
)
    ensures
        forall|t: TagModel| covers(joined(a, b), t) == (covers(a, t) || covers(b, t)),
        within(a, joined(a, b)),
        within(b, joined(a, b)),
        within(a, c) && within(b, c) ==> within(joined(a, b), c),
{
    lemma_collapsed(a.union(b));
}

/// Being covered orders the labels: it is reflexive, transitive and, between
/// canonical labels, antisymmetric; bottom is the least label.
pub proof fn law_subset_order(a: Set<TagModel>, b: Set<TagModel>, c: Set<TagModel>)
    ensures
        within(a, a),
        within(a, b) && within(b, c) ==> within(a, c),
        is_canonical(a) && is_canonical(b) && within(a, b) && within(b, a) ==> a == b,
        within(Set::<TagModel>::empty(), a),
        within(a, Set::<TagModel>::empty()) ==> a == Set::<TagModel>::empty(),
{
    if within(a, b) && within(b, c) {
        assert forall|t: TagModel| #[trigger] a.contains(t) implies covers(c, t) by {
            if !b.contains(t) {
                let w = t.wildcard()->0;
                assert(b.contains(w));
                assert(w.wildcard() is None);
            }
        }
    }
    if is_canonical(a) && is_canonical(b) && within(a, b) && within(b, a) {
        assert forall|t: TagModel| a.contains(t) == b.contains(t) by {
            if let Some(w) = t.wildcard() {
                assert(w.wildcard() is None);
                assert(a.contains(w) == b.contains(w));
            }
        }
        assert(a =~= b);
    }
    if within(a, Set::<TagModel>::empty()) {
        assert(a =~= Set::<TagModel>::empty());
    }
}

/// The intersection of two canonical labels covers exactly what both of them
/// cover, and is the greatest label that both cover.
pub proof fn law_intersection_is_greatest_lower_bound(
    a: Set<TagModel>,
    b: Set<TagModel>,
    c: Set<TagModel>,
)
    ensures
        met(a, b) == met(b, a),
        within(met(a, b), a),
        within(met(a, b), b),
        within(c, a) && within(c, b) ==> within(c, met(a, b)),
        forall|t: TagModel| covers(met(a, b), t) ==> covers(a, t) && covers(b, t),
        forall|t: TagModel| covers(a, t) && covers(b, t) ==> covers(met(a, b), t),
{
    assert(met(a, b) =~= met(b, a));
    assert forall|t: TagModel| #![auto] covers(a, t) && covers(b, t) implies covers(met(a, b), t) by {
        if let Some(w) = t.wildcard() {
            assert(w.wildcard() is None);
        }
    }
    assert forall|t: TagModel| covers(met(a, b), t) implies covers(a, t) && covers(b, t) by {
        if let Some(w) = t.wildcard() {
            assert(w.wildcard() is None);
            if met(a, b).contains(w) {
                assert(a.contains(w) && b.contains(w));
            }
        }
    }
}

/// What is left of a label after a subtraction: it lies within the label, none
/// of its tags is covered by what was subtracted, and together with that the
/// label is covered again.
pub proof fn law_difference(a: Set<TagModel>, b: Set<TagModel>)
    ensures
        within(without(a, b), a),
        forall|t: TagModel| #[trigger] without(a, b).contains(t) ==> !covers(b, t),
        within(a, joined(without(a, b), b)),
        within(a, b) <==> without(a, b) == Set::<TagModel>::empty(),
        is_canonical(a) ==> is_canonical(without(a, b)),
        without(a, Set::<TagModel>::empty()) == a,
{
    law_union_is_least_upper_bound(without(a, b), b, a);
    if within(a, b) {
        assert(without(a, b) =~= Set::<TagModel>::empty());
    }
    if without(a, b) == Set::<TagModel>::empty() {
        assert forall|t: TagModel| #[trigger] a.contains(t) implies covers(b, t) by {
            assert(!without(a, b).contains(t));
        }
    }
    assert(without(a, Set::<TagModel>::empty()) =~= a);
}

/// Where no wildcard is at play, what is left after a subtraction has nothing
/// in common with what was subtracted.
pub proof fn law_difference_disjoint(a: Set<TagModel>, b: Set<TagModel>)
    requires
        forall|t: TagModel| #[trigger] a.contains(t) ==> !(t is AxisWildcard),
    ensures
        met(without(a, b), b) == Set::<TagModel>::empty(),
{
    assert forall|t: TagModel| !met(without(a, b), b).contains(t) by {
        if let Some(w) = t.wildcard() {
            assert(!a.contains(w));
        }
    }
    assert(met(without(a, b), b) =~= Set::<TagModel>::empty());
}

/// Restricting a label to some axes leaves a part of it, changes nothing the
/// second time, and changes nothing at all if the axes are the label's own.
pub proof fn law_restriction(s: Set<TagModel>, axes: Set<Seq<char>>)
    ensures
        on_axes(s, axes).subset_of(s),
        on_axes(on_axes(s, axes), axes) == on_axes(s, axes),
        on_axes(s, axes_of(s)) == s,
        is_canonical(s) ==> is_canonical(on_axes(s, axes)),
{
    assert(on_axes(on_axes(s, axes), axes) =~= on_axes(s, axes));
    assert(on_axes(s, axes_of(s)) =~= s);
}

/// The relation between two canonical labels, seen from the other side, is the
/// opposite one.
pub proof fn law_relation(a: Set<TagModel>, b: Set<TagModel>)
    requires
        is_canonical(a),
        is_canonical(b),
    ensures
        label_relation(b, a) == match label_relation(a, b) {
            Some(o) => Some(o.flip()),
            None => None,
        },
        (label_relation(a, b) matches Some(Order::Less) || label_relation(a, b) matches Some(
            Order::Equal,
        )) <==> within(a, b),
{
    law_subset_order(a, b, a);
}

/// A written `axis:*` is kept as it is until wildcards are accepted; after
/// that the label covers every concrete tag on the axis.
pub proof fn law_accepting_wildcards(s: Set<TagModel>, axis: Seq<char>, tag: Seq<char>)
    requires
        s.contains(TagModel::Concrete(ConcreteModel { axis: Some(axis), tag: "*"@ })),
    ensures
        covers(
            collapsed(s.map(|t: TagModel| t.upgraded())),
            TagModel::Concrete(ConcreteModel { axis: Some(axis), tag }),
        ),
{
    let f = |t: TagModel| t.upgraded();
    let star = TagModel::Concrete(ConcreteModel { axis: Some(axis), tag: "*"@ });
    assert(f(star) == TagModel::AxisWildcard(axis));
    assert(s.map(f).contains(f(star)));
    lemma_collapsed(s.map(f));
}

/// The union of a list of labels covers exactly what one of them covers.
pub proof fn law_sum(labels: Seq<Set<TagModel>>)
    ensures
        is_canonical(summed(labels)),
        forall|t: TagModel|
            #[trigger] covers(summed(labels), t) <==> exists|i: int|
                0 <= i < labels.len() && covers(#[trigger] labels[i], t),
    decreases labels.len(),
{
    if labels.len() > 0 {
        let front = labels.drop_last();
        law_sum(front);
        law_union(summed(front), labels.last(), labels.last());
        law_union_is_least_upper_bound(summed(front), labels.last(), labels.last());
        assert forall|t: TagModel| #[trigger] covers(summed(labels), t) <==> exists|i: int|
            0 <= i < labels.len() && covers(#[trigger] labels[i], t) by {
            if covers(summed(front), t) {
                let i = choose|i: int| 0 <= i < front.len() && covers(#[trigger] front[i], t);
                assert(covers(labels[i], t));
            }
            if exists|i: int| 0 <= i < labels.len() && covers(#[trigger] labels[i], t) {
                let i = choose|i: int| 0 <= i < labels.len() && covers(#[trigger] labels[i], t);
                if i < front.len() {
                    assert(covers(front[i], t));
                }
            }
        }
    }
}

} // verus!
