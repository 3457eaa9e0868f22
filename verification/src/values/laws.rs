//! What holds of the labels of values.

use vstd::prelude::*;

use crate::labels::backtraces::{combined, label_or_bottom, listed, LabelBacktraceKind, Trace};
use crate::labels::tags::TagModel;
use crate::labels::trace_laws::{all_sound, law_fold, law_subtraction, law_union_of_backtraces,
    sound, spread};
use crate::labels::without;
use crate::locations::{Location, PinnedModel};
use crate::values::{carried, carried_by_parts, merged, relieved, same_shape, ValueModel};

verus! {

/// Whether what a value and its parts carry is as it should be.
pub open spec fn value_sound(v: ValueModel) -> bool
    decreases v,
{
    &&& v.own matches Some(t) ==> sound(t)
    &&& forall|i: int| 0 <= i < v.parts.len() ==> value_sound(#[trigger] v.parts[i])
}

/// The tags of the parts of a value up to a position.
pub open spec fn tags_by_parts(v: ValueModel, n: int) -> Set<TagModel>
    decreases v, n,
{
    if n <= 0 || n > v.parts.len() {
        Set::<TagModel>::empty()
    } else {
        tags_by_parts(v, n - 1).union(all_tags(v.parts[n - 1]))
    }
}

/// The tags of a value and its parts.
pub open spec fn all_tags(v: ValueModel) -> Set<TagModel>
    decreases v, v.parts.len() + 1,
{
    label_or_bottom(v.own).union(tags_by_parts(v, v.parts.len() as int))
}

proof fn lemma_listed(ts: Seq<Trace>, t: Option<Trace>)
    requires
        all_sound(ts),
        t matches Some(x) ==> sound(x),
    ensures
        all_sound(ts + listed(t)),
        spread(ts + listed(t)) == spread(ts).union(label_or_bottom(t)),
        all_sound(listed(t) + ts),
        spread(listed(t) + ts) == spread(ts).union(label_or_bottom(t)),
{
    let behind = ts + listed(t);
    let before = listed(t) + ts;
    let all = spread(ts).union(label_or_bottom(t));
    assert forall|i: int| 0 <= i < behind.len() implies sound(#[trigger] behind[i]) by {
        if i < ts.len() {
            assert(behind[i] == ts[i]);
        }
    }
    assert forall|i: int| 0 <= i < before.len() implies sound(#[trigger] before[i]) by {
        let k = listed(t).len() as int;
        if i >= k {
            assert(before[i] == ts[i - k]);
        }
    }
    assert forall|x: TagModel| spread(behind).contains(x) == all.contains(x) by {
        if spread(ts).contains(x) {
            let i = choose|i: int| 0 <= i < ts.len() && (#[trigger] ts[i]).label.contains(x);
            assert(behind[i].label.contains(x));
        }
        if label_or_bottom(t).contains(x) {
            assert(behind[ts.len() as int].label.contains(x));
        }
        if spread(behind).contains(x) {
            let i = choose|i: int| 0 <= i < behind.len() && (#[trigger] behind[i]).label.contains(x);
            if i < ts.len() {
                assert(ts[i].label.contains(x));
            }
        }
    }
    assert forall|x: TagModel| spread(before).contains(x) == all.contains(x) by {
        let k = listed(t).len() as int;
        if spread(ts).contains(x) {
            let i = choose|i: int| 0 <= i < ts.len() && (#[trigger] ts[i]).label.contains(x);
            assert(before[i + k].label.contains(x));
        }
        if label_or_bottom(t).contains(x) {
            assert(before[0].label.contains(x));
        }
        if spread(before).contains(x) {
            let i = choose|i: int| 0 <= i < before.len() && (#[trigger] before[i]).label.contains(x);
            if i >= k {
                assert(ts[i - k].label.contains(x));
            }
        }
    }
    assert(spread(behind) =~= all);
    assert(spread(before) =~= all);
}

proof fn lemma_carried_by_parts(v: ValueModel, n: int)
    requires
        value_sound(v),
        0 <= n <= v.parts.len(),
    ensures
        all_sound(carried_by_parts(v, n)),
        spread(carried_by_parts(v, n)) == tags_by_parts(v, n),
    decreases v, n,
{
    if n == 0 {
        assert(spread(carried_by_parts(v, n)) =~= Set::<TagModel>::empty());
    } else {
        lemma_carried_by_parts(v, n - 1);
        assert(value_sound(v.parts[n - 1]));
        law_values_carry_their_tags(v.parts[n - 1]);
        lemma_listed(carried_by_parts(v, n - 1), carried(v.parts[n - 1]));
    }
}

/// What a value carries has all tags of the value and its parts, and no others.
pub proof fn law_values_carry_their_tags(v: ValueModel)
    requires
        value_sound(v),
    ensures
        carried(v) matches Some(t) ==> sound(t),
        label_or_bottom(carried(v)) == all_tags(v),
    decreases v, v.parts.len() + 1,
{
    let n = v.parts.len() as int;
    if n == 0 {
        assert(all_tags(v) =~= label_or_bottom(v.own));
    } else {
        lemma_carried_by_parts(v, n);
        let parts = carried_by_parts(v, n);
        lemma_listed(parts, v.own);
        let children = listed(v.own) + parts;
        law_fold(children, LabelBacktraceKind::Expression, None, v.location);
        assert(all_tags(v) =~= spread(children));
        if children.len() == 0 {
            assert(spread(children) =~= Set::<TagModel>::empty());
        }
    }
}

proof fn lemma_same_parts(a: ValueModel, b: ValueModel, n: int)
    requires
        a.parts == b.parts,
    ensures
        tags_by_parts(a, n) == tags_by_parts(b, n),
    decreases n,
{
    if 0 < n <= a.parts.len() {
        lemma_same_parts(a, b, n - 1);
    }
}

/// A value with something more that it carries has the tags of both.
pub proof fn law_nesting_adds_tags(
    v: ValueModel,
    kind: LabelBacktraceKind,
    symbol: Option<Seq<char>>,
    at: PinnedModel<Location>,
    more: Seq<Trace>,
)
    requires
        value_sound(v),
        all_sound(more),
    ensures
        value_sound(v.nesting(kind, symbol, at, more)),
        all_tags(v.nesting(kind, symbol, at, more)) == all_tags(v).union(spread(more)),
{
    let r = v.nesting(kind, symbol, at, more);
    lemma_listed(more, v.own);
    let children = listed(v.own) + more;
    law_fold(children, kind, symbol, at);
    if children.len() == 0 {
        assert(spread(children) =~= Set::<TagModel>::empty());
    }
    lemma_same_parts(v, r, v.parts.len() as int);
    assert(label_or_bottom(r.own) == spread(children));
    assert(all_tags(r) =~= all_tags(v).union(spread(more)));
}

proof fn lemma_relieved_parts(v: ValueModel, label: Set<TagModel>, n: int)
    requires
        value_sound(v),
        0 <= n <= v.parts.len(),
    ensures
        tags_by_parts(relieved(v, label), n) == without(tags_by_parts(v, n), label),
        forall|i: int| 0 <= i < n ==> value_sound(#[trigger] relieved(v, label).parts[i]),
    decreases v, n,
{
    let r = relieved(v, label);
    if n == 0 {
        assert(without(tags_by_parts(v, n), label) =~= Set::<TagModel>::empty());
    } else {
        lemma_relieved_parts(v, label, n - 1);
        assert(value_sound(v.parts[n - 1]));
        assert(r.parts[n - 1] == relieved(v.parts[n - 1], label));
        law_revocation_removes_tags(v.parts[n - 1], label);
        assert(tags_by_parts(r, n) =~= without(tags_by_parts(v, n), label));
    }
}

/// A value from which a label is taken away has the tags that the label does not
/// cover, and no others.
pub proof fn law_revocation_removes_tags(v: ValueModel, label: Set<TagModel>)
    requires
        value_sound(v),
    ensures
        value_sound(relieved(v, label)),
        all_tags(relieved(v, label)) == without(all_tags(v), label),
    decreases v, v.parts.len() + 1,
{
    let r = relieved(v, label);
    lemma_relieved_parts(v, label, v.parts.len() as int);
    if let Some(t) = v.own {
        law_subtraction(t, label);
        assert(label_or_bottom(r.own) == without(t.label, label));
    } else {
        assert(without(label_or_bottom(v.own), label) =~= Set::<TagModel>::empty());
    }
    assert(all_tags(r) =~= without(all_tags(v), label));
}

pub proof fn lemma_combined(
    a: Option<Trace>,
    b: Option<Trace>,
    kind: LabelBacktraceKind,
    at: PinnedModel<Location>,
)
    requires
        a matches Some(x) ==> sound(x),
        b matches Some(x) ==> sound(x),
    ensures
        combined(a, b, kind, at) matches Some(x) ==> sound(x),
        label_or_bottom(combined(a, b, kind, at)) == label_or_bottom(a).union(label_or_bottom(b)),
{
    match (a, b) {
        (Some(x), Some(y)) => {
            law_union_of_backtraces(x, y, kind, at);
        },
        _ => {
            assert(label_or_bottom(a).union(Set::<TagModel>::empty()) =~= label_or_bottom(a));
            assert(Set::<TagModel>::empty().union(label_or_bottom(b)) =~= label_or_bottom(b));
        },
    }
}

proof fn lemma_merged_parts(
    a: ValueModel,
    b: ValueModel,
    kind: LabelBacktraceKind,
    at: PinnedModel<Location>,
    n: int,
)
    requires
        value_sound(a),
        value_sound(b),
        same_shape(a, b),
        0 <= n <= a.parts.len(),
    ensures
        tags_by_parts(merged(a, b, kind, at), n) == tags_by_parts(a, n).union(
            tags_by_parts(b, n),
        ),
        forall|i: int| 0 <= i < n ==> value_sound(#[trigger] merged(a, b, kind, at).parts[i]),
    decreases a, n,
{
    let r = merged(a, b, kind, at);
    if n == 0 {
        assert(tags_by_parts(r, n) =~= tags_by_parts(a, n).union(tags_by_parts(b, n)));
    } else {
        lemma_merged_parts(a, b, kind, at, n - 1);
        assert(value_sound(a.parts[n - 1]));
        assert(value_sound(b.parts[n - 1]));
        assert(r.parts[n - 1] == merged(a.parts[n - 1], b.parts[n - 1], kind, at));
        law_merging_keeps_tags(a.parts[n - 1], b.parts[n - 1], kind, at);
        assert(tags_by_parts(r, n) =~= tags_by_parts(a, n).union(tags_by_parts(b, n)));
    }
}

/// Where two ways meet, a value has the tags that it has on either of them.
pub proof fn law_merging_keeps_tags(
    a: ValueModel,
    b: ValueModel,
    kind: LabelBacktraceKind,
    at: PinnedModel<Location>,
)
    requires
        value_sound(a),
        value_sound(b),
    ensures
        value_sound(merged(a, b, kind, at)),
        all_tags(merged(a, b, kind, at)) == all_tags(a).union(all_tags(b)),
    decreases a, a.parts.len() + 1,
{
    let r = merged(a, b, kind, at);
    if same_shape(a, b) {
        lemma_merged_parts(a, b, kind, at, a.parts.len() as int);
        lemma_combined(a.own, b.own, kind, at);
    } else {
        law_values_carry_their_tags(a);
        law_values_carry_their_tags(b);
        lemma_combined(carried(a), carried(b), kind, at);
    }
    assert(all_tags(r) =~= all_tags(a).union(all_tags(b)));
}

/// The tags of a part are tags of the whole.
pub proof fn law_parts_show_in_the_whole(v: ValueModel, i: int)
    requires
        0 <= i < v.parts.len(),
    ensures
        all_tags(v.parts[i]).subset_of(all_tags(v)),
{
    lemma_part_tags(v, i, v.parts.len() as int);
}

proof fn lemma_part_tags(v: ValueModel, i: int, n: int)
    requires
        0 <= i < n <= v.parts.len(),
    ensures
        all_tags(v.parts[i]).subset_of(tags_by_parts(v, n)),
    decreases n,
{
    if i < n - 1 {
        lemma_part_tags(v, i, n - 1);
    }
}

} // verus!
