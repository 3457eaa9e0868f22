//! What holds of the labels of parts of values.

use vstd::prelude::*;

use crate::labels::backtraces::{combined, folded, label_or_bottom, listed, LabelBacktraceKind,
    Trace};
use crate::labels::tags::TagModel;
use crate::labels::trace_laws::{all_sound, law_fold, sound, spread};
use crate::locations::{Location, PinnedModel};
use crate::taint::mutation::StepModel;
use crate::values::composites::{keyed, placed};
use crate::values::laws::{all_tags, law_nesting_adds_tags, law_parts_show_in_the_whole,
    law_values_carry_their_tags, lemma_combined, tags_by_parts, value_sound};
use crate::values::{carried, lemma_part_index, lemma_part_index_is, merged, part_index, same_shape,
    FormModel, KeyModel, ValueModel};

verus! {

/// Whether whatever is read from one value has all the tags that it has where it
/// is read from another one.
pub open spec fn richer(v: ValueModel, w: ValueModel) -> bool
    decreases w,
{
    ||| v.parts.len() == 0 && all_tags(w).subset_of(label_or_bottom(v.own))
    ||| {
        &&& v.parts.len() == w.parts.len()
        &&& label_or_bottom(w.own).subset_of(label_or_bottom(v.own))
        &&& forall|i: int|
            0 <= i < w.parts.len() ==> (#[trigger] w.parts[i]).key == v.parts[i].key && richer(
                v.parts[i],
                w.parts[i],
            )
    }
}

proof fn lemma_tag_of_part(v: ValueModel, x: TagModel, n: int)
    requires
        0 <= n <= v.parts.len(),
        tags_by_parts(v, n).contains(x),
    ensures
        exists|i: int| 0 <= i < n && all_tags(#[trigger] v.parts[i]).contains(x),
    decreases n,
{
    if n > 0 {
        if tags_by_parts(v, n - 1).contains(x) {
            lemma_tag_of_part(v, x, n - 1);
        } else {
            assert(all_tags(v.parts[n - 1]).contains(x));
        }
    }
}

/// A tag of a value is one that it has as a whole, or one of a part.
pub proof fn law_tags_are_somewhere(v: ValueModel, x: TagModel)
    ensures
        all_tags(v).contains(x) <==> label_or_bottom(v.own).contains(x) || exists|i: int|
            0 <= i < v.parts.len() && all_tags(#[trigger] v.parts[i]).contains(x),
{
    if tags_by_parts(v, v.parts.len() as int).contains(x) {
        lemma_tag_of_part(v, x, v.parts.len() as int);
    }
    if exists|i: int| 0 <= i < v.parts.len() && all_tags(#[trigger] v.parts[i]).contains(x) {
        let i = choose|i: int| 0 <= i < v.parts.len() && all_tags(#[trigger] v.parts[i]).contains(x);
        law_parts_show_in_the_whole(v, i);
    }
}

pub proof fn lemma_richer_tags(v: ValueModel, w: ValueModel)
    requires
        richer(v, w),
    ensures
        all_tags(w).subset_of(all_tags(v)),
    decreases w,
{
    assert forall|x: TagModel| all_tags(w).contains(x) implies all_tags(v).contains(x) by {
        law_tags_are_somewhere(w, x);
        law_tags_are_somewhere(v, x);
        if v.parts.len() == 0 && all_tags(w).subset_of(label_or_bottom(v.own)) {
        } else if !label_or_bottom(w.own).contains(x) {
            let i = choose|i: int|
                0 <= i < w.parts.len() && all_tags(#[trigger] w.parts[i]).contains(x);
            lemma_richer_tags(v.parts[i], w.parts[i]);
            assert(all_tags(v.parts[i]).contains(x));
        }
    }
}

pub proof fn lemma_richer_same(v: ValueModel, w: ValueModel)
    requires
        v.parts == w.parts,
        label_or_bottom(w.own).subset_of(label_or_bottom(v.own)),
    ensures
        richer(v, w),
    decreases w,
{
    assert forall|i: int| 0 <= i < w.parts.len() implies (#[trigger] w.parts[i]).key
        == v.parts[i].key && richer(v.parts[i], w.parts[i]) by {
        lemma_richer_same(v.parts[i], w.parts[i]);
    }
}

proof fn lemma_same_keys(a: Seq<ValueModel>, b: Seq<ValueModel>, key: KeyModel)
    requires
        a.len() == b.len(),
        forall|i: int| 0 <= i < a.len() ==> (#[trigger] a[i]).key == b[i].key,
    ensures
        part_index(a, key) == part_index(b, key),
{
    lemma_part_index(a, key);
    let p = part_index(a, key);
    assert forall|k: int| 0 <= k < p implies (#[trigger] b[k]).key != key by {
        assert(a[k].key != key);
    }
    if p < a.len() {
        assert(a[p].key == key);
    }
    lemma_part_index_is(b, key, p);
}

proof fn lemma_taken(v: ValueModel, part: ValueModel, at: PinnedModel<Location>)
    requires
        value_sound(part),
        v.own matches Some(t) ==> sound(t),
    ensures
        value_sound(v.taken(part, at)),
        label_or_bottom(v.taken(part, at).own) == label_or_bottom(part.own).union(
            label_or_bottom(v.own),
        ),
        all_tags(v.taken(part, at)) == all_tags(part).union(label_or_bottom(v.own)),
{
    let r = v.taken(part, at);
    lemma_combined(part.own, v.own, LabelBacktraceKind::Expression, at);
    assert forall|i: int| 0 <= i < r.parts.len() implies value_sound(#[trigger] r.parts[i]) by {
        assert(value_sound(part.parts[i]));
    }
    assert forall|x: TagModel| all_tags(r).contains(x) == all_tags(part).union(
        label_or_bottom(v.own),
    ).contains(x) by {
        law_tags_are_somewhere(r, x);
        law_tags_are_somewhere(part, x);
    }
    assert(all_tags(r) =~= all_tags(part).union(label_or_bottom(v.own)));
}

/// What is read under a key has the tags of the first part under the key, or, if
/// there is none, of the first one under no known key; and in any case those that
/// the value has as a whole. What is read under an unknown key has all tags of the
/// value. There are no others.
pub proof fn law_reads_have_the_tags_of_the_part(
    v: ValueModel,
    key: Option<KeyModel>,
    at: PinnedModel<Location>,
)
    requires
        value_sound(v),
    ensures
        value_sound(v.read_at(key, at)),
        all_tags(v.read_at(key, at)).subset_of(all_tags(v)),
        key is None ==> all_tags(v.read_at(key, at)) == all_tags(v),
        key matches Some(k) ==> forall|i: int|
            0 <= i < v.parts.len() && (#[trigger] v.parts[i]).key == k && (forall|j: int|
                0 <= j < i ==> (#[trigger] v.parts[j]).key != k) ==> all_tags(v.read_at(key, at))
                == all_tags(v.parts[i]).union(label_or_bottom(v.own)),
        key matches Some(k) ==> (forall|j: int|
            0 <= j < v.parts.len() ==> (#[trigger] v.parts[j]).key != k) ==> forall|i: int|
            0 <= i < v.parts.len() && (#[trigger] v.parts[i]).key is Others && (forall|j: int|
                0 <= j < i ==> !((#[trigger] v.parts[j]).key is Others)) ==> all_tags(
                v.read_at(key, at),
            ) == all_tags(v.parts[i]).union(label_or_bottom(v.own)),
        key matches Some(k) ==> (forall|j: int|
            0 <= j < v.parts.len() ==> (#[trigger] v.parts[j]).key != k && !(v.parts[j].key
                is Others)) ==> all_tags(v.read_at(key, at)) == label_or_bottom(v.own),
{
    let r = v.read_at(key, at);
    law_values_carry_their_tags(v);
    match key {
        Some(k) => {
            let p = part_index(v.parts, k);
            let q = part_index(v.parts, KeyModel::Others);
            lemma_part_index(v.parts, k);
            lemma_part_index(v.parts, KeyModel::Others);
            if p < v.parts.len() {
                assert(value_sound(v.parts[p]));
                lemma_taken(v, v.parts[p], at);
                law_parts_show_in_the_whole(v, p);
                assert forall|i: int|
                    0 <= i < v.parts.len() && (#[trigger] v.parts[i]).key == k && (forall|j: int|
                        0 <= j < i ==> (#[trigger] v.parts[j]).key != k) implies i == p by {
                    lemma_part_index_is(v.parts, k, i);
                }
                assert(v.parts[p].key == k);
            } else if q < v.parts.len() {
                assert(value_sound(v.parts[q]));
                lemma_taken(v, v.parts[q], at);
                law_parts_show_in_the_whole(v, q);
                assert forall|i: int|
                    0 <= i < v.parts.len() && (#[trigger] v.parts[i]).key is Others && (forall|
                        j: int,
                    |
                        0 <= j < i ==> !((#[trigger] v.parts[j]).key is Others)) implies i == q by {
                    lemma_part_index_is(v.parts, KeyModel::Others, i);
                }
                assert(v.parts[q].key is Others);
            } else {
                assert(all_tags(r) =~= label_or_bottom(v.own));
            }
        },
        None => {
            assert(all_tags(r) =~= all_tags(v));
        },
    }
}

proof fn lemma_richer_read(
    v: ValueModel,
    w: ValueModel,
    key: Option<KeyModel>,
    a: PinnedModel<Location>,
    b: PinnedModel<Location>,
)
    requires
        value_sound(v),
        value_sound(w),
        richer(v, w),
    ensures
        richer(v.read_at(key, a), w.read_at(key, b)),
{
    let x = v.read_at(key, a);
    let y = w.read_at(key, b);
    law_reads_have_the_tags_of_the_part(v, key, a);
    law_reads_have_the_tags_of_the_part(w, key, b);
    law_values_carry_their_tags(v);
    lemma_richer_tags(v, w);
    if v.parts.len() == 0 && all_tags(w).subset_of(label_or_bottom(v.own)) {
        assert(x.parts.len() == 0);
        assert(label_or_bottom(x.own) =~= label_or_bottom(v.own));
    } else if let Some(k) = key {
        assert forall|i: int| 0 <= i < v.parts.len() implies (#[trigger] v.parts[i]).key
            == w.parts[i].key by {
            assert(w.parts[i].key == v.parts[i].key);
        }
        lemma_same_keys(v.parts, w.parts, k);
        lemma_same_keys(v.parts, w.parts, KeyModel::Others);
        let p = part_index(v.parts, k);
        let q = part_index(v.parts, KeyModel::Others);
        lemma_part_index(v.parts, k);
        lemma_part_index(v.parts, KeyModel::Others);
        if p < v.parts.len() || q < v.parts.len() {
            let i = if p < v.parts.len() {
                p
            } else {
                q
            };
            assert(w.parts[i].key == v.parts[i].key);
            assert(richer(v.parts[i], w.parts[i]));
            assert(value_sound(v.parts[i]));
            assert(value_sound(w.parts[i]));
            lemma_taken(v, v.parts[i], a);
            lemma_taken(w, w.parts[i], b);
        } else {
            assert(all_tags(y) =~= label_or_bottom(w.own));
        }
    } else {
        assert(x.parts.len() == 0);
        assert(label_or_bottom(x.own) == all_tags(v));
    }
}

pub proof fn lemma_richer_along(
    v: ValueModel,
    w: ValueModel,
    path: Seq<StepModel>,
    a: PinnedModel<Location>,
    b: PinnedModel<Location>,
)
    requires
        value_sound(v),
        value_sound(w),
        richer(v, w),
    ensures
        value_sound(v.read_along(path, a)),
        value_sound(w.read_along(path, b)),
        all_tags(v.read_along(path, a)).subset_of(all_tags(v)),
        all_tags(w.read_along(path, b)).subset_of(all_tags(v.read_along(path, a))),
    decreases path.len(),
{
    if path.len() == 0 {
        lemma_richer_tags(v, w);
    } else {
        law_reads_have_the_tags_of_the_part(v, path[0].key, a);
        law_reads_have_the_tags_of_the_part(w, path[0].key, b);
        lemma_richer_read(v, w, path[0].key, a, b);
        lemma_richer_along(
            v.read_at(path[0].key, a),
            w.read_at(path[0].key, b),
            path.skip(1),
            a,
            b,
        );
    }
}

/// What is read from a value that may be one or the other of two has all the tags
/// that it has where it is read from either.
pub proof fn lemma_merged_is_richer(
    a: ValueModel,
    b: ValueModel,
    kind: LabelBacktraceKind,
    at: PinnedModel<Location>,
)
    requires
        value_sound(a),
        value_sound(b),
    ensures
        richer(merged(a, b, kind, at), a),
        richer(merged(a, b, kind, at), b),
    decreases a,
{
    let r = merged(a, b, kind, at);
    if same_shape(a, b) {
        lemma_combined(a.own, b.own, kind, at);
        assert forall|i: int| 0 <= i < a.parts.len() implies (#[trigger] a.parts[i]).key
            == r.parts[i].key && richer(r.parts[i], a.parts[i]) && b.parts[i].key == r.parts[i].key
            && richer(r.parts[i], b.parts[i]) by {
            assert(a.parts[i].key == b.parts[i].key);
            assert(value_sound(b.parts[i]));
            assert(r.parts[i] == merged(a.parts[i], b.parts[i], kind, at));
            lemma_merged_is_richer(a.parts[i], b.parts[i], kind, at);
        }
        assert forall|i: int| 0 <= i < b.parts.len() implies (#[trigger] b.parts[i]).key
            == r.parts[i].key && richer(r.parts[i], b.parts[i]) by {
            assert(a.parts[i].key == r.parts[i].key);
        }
    } else {
        law_values_carry_their_tags(a);
        law_values_carry_their_tags(b);
        lemma_combined(carried(a), carried(b), kind, at);
    }
}

proof fn lemma_placed(
    c: ValueModel,
    w: ValueModel,
    key: KeyModel,
    v: ValueModel,
)
    requires
        value_sound(c),
        value_sound(v),
        w.own == c.own,
        w.parts == placed(c.parts, key, v),
    ensures
        value_sound(w),
        all_tags(w).subset_of(all_tags(c).union(all_tags(v))),
        all_tags(v).subset_of(all_tags(w)),
        part_index(w.parts, key) < w.parts.len(),
        w.parts[part_index(w.parts, key)] == (ValueModel { key, ..v }),
{
    let p = part_index(c.parts, key);
    let new = ValueModel { key, ..v };
    lemma_part_index(c.parts, key);
    assert(value_sound(new)) by {
        assert forall|i: int| 0 <= i < new.parts.len() implies value_sound(
            #[trigger] new.parts[i],
        ) by {
            assert(value_sound(v.parts[i]));
        }
    }
    lemma_richer_same(new, v);
    lemma_richer_same(v, new);
    lemma_richer_tags(new, v);
    lemma_richer_tags(v, new);
    assert forall|k: int| 0 <= k < p implies (#[trigger] w.parts[k]).key != key by {
        assert(c.parts[k].key != key);
    }
    lemma_part_index_is(w.parts, key, p);
    assert forall|i: int| 0 <= i < w.parts.len() implies value_sound(#[trigger] w.parts[i]) by {
        if i != p {
            assert(w.parts[i] == c.parts[i]);
            assert(value_sound(c.parts[i]));
        }
    }
    law_parts_show_in_the_whole(w, p);
    assert forall|x: TagModel| all_tags(w).contains(x) implies all_tags(c).union(
        all_tags(v),
    ).contains(x) by {
        law_tags_are_somewhere(w, x);
        law_tags_are_somewhere(c, x);
        if !label_or_bottom(w.own).contains(x) {
            let i = choose|i: int|
                0 <= i < w.parts.len() && all_tags(#[trigger] w.parts[i]).contains(x);
            if i != p {
                assert(all_tags(c.parts[i]).contains(x));
            }
        }
    }
}

/// A write adds nothing but the tags of what is written and of the key; what is
/// read back under the same key has all of these.
pub proof fn law_writes_keep_tags(
    c: ValueModel,
    form: FormModel,
    key: Option<KeyModel>,
    v: ValueModel,
    key_flow: Option<Trace>,
    at: PinnedModel<Location>,
    later: PinnedModel<Location>,
)
    requires
        value_sound(c),
        value_sound(v),
        key_flow matches Some(t) ==> sound(t),
    ensures
        ({
            let w = c.written_at(form, key, v, key_flow, at);
            &&& value_sound(w)
            &&& w.form == form
            &&& all_tags(w).subset_of(
                all_tags(c).union(all_tags(v)).union(label_or_bottom(key_flow)),
            )
            &&& all_tags(v).union(label_or_bottom(key_flow)).subset_of(
                all_tags(w.read_at(key, later)),
            )
            &&& richer(w.read_at(key, later), v)
        }),
{
    let w = c.written_at(form, key, v, key_flow, at);
    let shaped = ValueModel { form, ..c };
    assert(value_sound(shaped)) by {
        assert forall|i: int| 0 <= i < shaped.parts.len() implies value_sound(
            #[trigger] shaped.parts[i],
        ) by {
            assert(value_sound(c.parts[i]));
        }
    }
    lemma_richer_same(c, shaped);
    lemma_richer_same(shaped, c);
    lemma_richer_tags(c, shaped);
    lemma_richer_tags(shaped, c);
    match key {
        Some(k) => {
            let new = match key_flow {
                Some(t) => v.nesting(LabelBacktraceKind::Expression, None, at, seq![t]),
                None => v,
            };
            if let Some(t) = key_flow {
                assert(all_sound(seq![t]));
                law_nesting_adds_tags(v, LabelBacktraceKind::Expression, None, at, seq![t]);
                assert forall|x: TagModel| spread(seq![t]).contains(x) == t.label.contains(x) by {
                    if t.label.contains(x) {
                        assert(seq![t][0].label.contains(x));
                    }
                }
                assert(spread(seq![t]) =~= t.label);
                lemma_nested_own(v, t, at);
            }
            assert(all_tags(new) =~= all_tags(v).union(label_or_bottom(key_flow)));
            lemma_placed(c, w, k, new);
            law_reads_have_the_tags_of_the_part(w, key, later);
            let p = part_index(w.parts, k);
            lemma_part_index(w.parts, k);
            let r = w.read_at(key, later);
            assert(value_sound(w.parts[p]));
            lemma_taken(w, w.parts[p], later);
            assert(r == w.taken(w.parts[p], later));
            lemma_richer_same(w.parts[p], new);
            lemma_richer_tags(w.parts[p], new);
            lemma_richer_same(r, v);
        },
        None => {
            law_values_carry_their_tags(v);
            let flows = listed(carried(v)) + listed(key_flow);
            assert(all_sound(flows));
            law_fold(flows, LabelBacktraceKind::Expression, None, at);
            let flow = folded(flows, LabelBacktraceKind::Expression, None, at);
            let tags = all_tags(v).union(label_or_bottom(key_flow));
            assert forall|x: TagModel| spread(flows).contains(x) == tags.contains(x) by {
                if all_tags(v).contains(x) {
                    assert(flows[0].label.contains(x));
                }
                if label_or_bottom(key_flow).contains(x) {
                    assert(flows[flows.len() - 1].label.contains(x));
                }
            }
            assert(spread(flows) =~= tags);
            assert(label_or_bottom(flow) =~= tags) by {
                if flows.len() == 0 {
                    assert(tags =~= Set::<TagModel>::empty());
                }
            }
            lemma_with_others(shaped, flow, at);
            law_reads_have_the_tags_of_the_part(w, key, later);
            law_values_carry_their_tags(w);
            let r = w.read_at(key, later);
            assert(r.parts.len() == 0);
            assert(label_or_bottom(r.own) == all_tags(w));
        },
    }
}

proof fn lemma_nested_own(v: ValueModel, t: Trace, at: PinnedModel<Location>)
    requires
        value_sound(v),
        sound(t),
    ensures
        label_or_bottom(v.own).subset_of(
            label_or_bottom(v.nesting(LabelBacktraceKind::Expression, None, at, seq![t]).own),
        ),
{
    let children = listed(v.own) + seq![t];
    assert(all_sound(children));
    law_fold(children, LabelBacktraceKind::Expression, None, at);
    assert forall|x: TagModel| label_or_bottom(v.own).contains(x) implies spread(
        children,
    ).contains(x) by {
        assert(children[0].label.contains(x));
    }
}

/// Something more that a value carries under no known key adds its tags and no
/// others.
pub proof fn lemma_with_others(v: ValueModel, flow: Option<Trace>, at: PinnedModel<Location>)
    requires
        value_sound(v),
        flow matches Some(t) ==> sound(t),
    ensures
        value_sound(v.with_others(flow, at)),
        all_tags(v.with_others(flow, at)).subset_of(all_tags(v).union(label_or_bottom(flow))),
        label_or_bottom(flow).subset_of(all_tags(v.with_others(flow, at))),
        all_tags(v).subset_of(all_tags(v.with_others(flow, at))),
{
    if flow is Some {
        let w = v.with_others(flow, at);
        let p = part_index(v.parts, KeyModel::Others);
        lemma_part_index(v.parts, KeyModel::Others);
        if p < v.parts.len() {
            assert(value_sound(v.parts[p]));
            law_values_carry_their_tags(v.parts[p]);
            law_parts_show_in_the_whole(v, p);
        }
        lemma_combined(v.others(), flow, LabelBacktraceKind::Expression, at);
        let part = ValueModel::simple(
            combined(v.others(), flow, LabelBacktraceKind::Expression, at),
            at,
        );
        assert(value_sound(part));
        assert(all_tags(part) =~= label_or_bottom(v.others()).union(label_or_bottom(flow)));
        lemma_placed(v, w, KeyModel::Others, part);
        assert forall|x: TagModel| all_tags(v).contains(x) implies all_tags(w).contains(x) by {
            law_tags_are_somewhere(v, x);
            law_tags_are_somewhere(w, x);
            if !label_or_bottom(v.own).contains(x) {
                let i = choose|i: int|
                    0 <= i < v.parts.len() && all_tags(#[trigger] v.parts[i]).contains(x);
                if i == p {
                    assert(all_tags(part).contains(x));
                } else {
                    assert(w.parts[i] == v.parts[i]);
                    assert(all_tags(w.parts[i]).contains(x));
                }
            }
        }
    }
}

proof fn lemma_part_at(v: ValueModel, key: Option<KeyModel>, at: PinnedModel<Location>)
    requires
        value_sound(v),
    ensures
        value_sound(v.part_at(key, at)),
        all_tags(v.part_at(key, at)).subset_of(all_tags(v)),
{
    let q = part_index(v.parts, KeyModel::Others);
    lemma_part_index(v.parts, KeyModel::Others);
    let r = v.part_at(key, at);
    match key {
        Some(k) => {
            let p = part_index(v.parts, k);
            lemma_part_index(v.parts, k);
            if p < v.parts.len() || q < v.parts.len() {
                let i = if p < v.parts.len() {
                    p
                } else {
                    q
                };
                let part = v.parts[i];
                assert(value_sound(part));
                assert forall|j: int| 0 <= j < r.parts.len() implies value_sound(
                    #[trigger] r.parts[j],
                ) by {
                    assert(value_sound(part.parts[j]));
                }
                lemma_richer_same(part, r);
                lemma_richer_tags(part, r);
                law_parts_show_in_the_whole(v, i);
            } else {
                assert(all_tags(r) =~= Set::<TagModel>::empty());
            }
        },
        None => {
            if q < v.parts.len() {
                assert(value_sound(v.parts[q]));
                law_values_carry_their_tags(v.parts[q]);
                law_parts_show_in_the_whole(v, q);
            }
            assert(all_tags(r) =~= label_or_bottom(v.others()));
        },
    }
}

/// The tags of the keys along a path.
pub open spec fn path_tags(path: Seq<StepModel>) -> Set<TagModel> {
    Set::new(
        |x: TagModel|
            exists|i: int|
                0 <= i < path.len() && label_or_bottom((#[trigger] path[i]).key_flow).contains(x),
    )
}

/// Whether what the keys along a path carry is as it should be.
pub open spec fn path_sound(path: Seq<StepModel>) -> bool {
    forall|i: int|
        0 <= i < path.len() ==> ((#[trigger] path[i]).key_flow matches Some(t) ==> sound(t))
}

/// What is written at the end of a path is read back there with all its tags, and
/// nothing but these and those of the keys is added to the whole.
pub proof fn law_writes_along_paths_keep_tags(
    c: ValueModel,
    path: Seq<StepModel>,
    v: ValueModel,
    at: PinnedModel<Location>,
    later: PinnedModel<Location>,
)
    requires
        value_sound(c),
        value_sound(v),
        path_sound(path),
    ensures
        ({
            let w = c.written_along(path, v, at);
            &&& value_sound(w)
            &&& value_sound(w.read_along(path, later))
            &&& all_tags(v).subset_of(all_tags(w.read_along(path, later)))
            &&& all_tags(w).subset_of(all_tags(c).union(all_tags(v)).union(path_tags(path)))
        }),
    decreases path.len(),
{
    if path.len() > 0 {
        let rest = path.skip(1);
        let part = c.part_at(path[0].key, at);
        let x = part.written_along(rest, v, at);
        let w = c.written_along(path, v, at);
        lemma_part_at(c, path[0].key, at);
        assert forall|i: int| 0 <= i < rest.len() implies ((
        #[trigger] rest[i]).key_flow matches Some(t) ==> sound(t)) by {
            assert(rest[i] == path[i + 1]);
        }
        law_writes_along_paths_keep_tags(part, rest, v, at, later);
        law_writes_keep_tags(c, path[0].form, path[0].key, x, path[0].key_flow, at, later);
        let r = w.read_at(path[0].key, later);
        law_reads_have_the_tags_of_the_part(w, path[0].key, later);
        lemma_richer_along(r, x, rest, later, later);
        assert forall|t: TagModel| all_tags(w).contains(t) implies all_tags(c).union(
            all_tags(v),
        ).union(path_tags(path)).contains(t) by {
            if path_tags(rest).contains(t) {
                let i = choose|i: int|
                    0 <= i < rest.len() && label_or_bottom((#[trigger] rest[i]).key_flow).contains(
                        t,
                    );
                assert(rest[i] == path[i + 1]);
                assert(label_or_bottom(path[i + 1].key_flow).contains(t));
            }
            if label_or_bottom(path[0].key_flow).contains(t) {
                assert(path_tags(path).contains(t));
            }
        }
    }
}

pub proof fn lemma_keyed(entries: Seq<(KeyModel, ValueModel)>, n: int)
    requires
        0 <= n <= entries.len(),
        forall|i: int| 0 <= i < entries.len() ==> value_sound((#[trigger] entries[i]).1),
    ensures
        forall|i: int| 0 <= i < keyed(entries, n).len() ==> value_sound(
            #[trigger] keyed(entries, n)[i],
        ),
        forall|i: int|
            0 <= i < n && (forall|j: int| i < j < n ==> (#[trigger] entries[j]).0 != entries[i].0)
                ==> {
                let p = part_index(keyed(entries, n), (#[trigger] entries[i]).0);
                &&& 0 <= p < keyed(entries, n).len()
                &&& keyed(entries, n)[p] == (ValueModel { key: entries[i].0, ..entries[i].1 })
            },
        forall|k: KeyModel|
            (forall|i: int| 0 <= i < n ==> (#[trigger] entries[i]).0 != k) ==> #[trigger] part_index(
                keyed(entries, n),
                k,
            ) == keyed(entries, n).len(),
    decreases n,
{
    if n == 0 {
        assert forall|k: KeyModel| #[trigger] part_index(keyed(entries, 0), k) == 0 by {}
    } else {
        lemma_keyed(entries, n - 1);
        let before = keyed(entries, n - 1);
        let now = keyed(entries, n);
        let key = entries[n - 1].0;
        let new = ValueModel { key, ..entries[n - 1].1 };
        let q = part_index(before, key);
        lemma_part_index(before, key);
        assert(value_sound(entries[n - 1].1));
        assert(value_sound(new)) by {
            assert forall|i: int| 0 <= i < new.parts.len() implies value_sound(
                #[trigger] new.parts[i],
            ) by {
                assert(value_sound(entries[n - 1].1.parts[i]));
            }
        }
        assert forall|i: int| 0 <= i < now.len() implies value_sound(#[trigger] now[i]) by {
            if i != q {
                assert(now[i] == before[i]);
            }
        }
        assert forall|i: int|
            0 <= i < n && (forall|j: int| i < j < n ==> (#[trigger] entries[j]).0 != entries[i].0)
            implies {
            let p = part_index(now, (#[trigger] entries[i]).0);
            &&& 0 <= p < now.len()
            &&& now[p] == (ValueModel { key: entries[i].0, ..entries[i].1 })
        } by {
            let k = entries[i].0;
            if i == n - 1 {
                assert forall|j: int| 0 <= j < q implies (#[trigger] now[j]).key != key by {
                    assert(before[j].key != key);
                }
                lemma_part_index_is(now, key, q);
            } else {
                assert(entries[n - 1].0 != k);
                let p = part_index(before, k);
                lemma_part_index(before, k);
                assert forall|j: int| 0 <= j < p implies (#[trigger] now[j]).key != k by {
                    assert(before[j].key != k);
                }
                assert(now[p] == before[p]);
                lemma_part_index_is(now, k, p);
            }
        }
        assert forall|k: KeyModel|
            (forall|i: int| 0 <= i < n ==> (#[trigger] entries[i]).0 != k) implies #[trigger] part_index(
            now,
            k,
        ) == now.len() by {
            assert(entries[n - 1].0 != k);
            assert(part_index(before, k) == before.len());
            lemma_part_index(before, k);
            assert forall|j: int| 0 <= j < now.len() implies (#[trigger] now[j]).key != k by {
                if j != q {
                    assert(now[j] == before[j]);
                    assert(before[j].key != k);
                }
            }
            lemma_part_index_is(now, k, now.len() as int);
        }
    }
}

/// What is read from a value that was made of parts has, under a known key, the
/// tags of the last of these that was given under the key, and no others.
pub proof fn law_composed_values_keep_their_parts(
    form: FormModel,
    entries: Seq<(KeyModel, ValueModel)>,
    i: int,
    at: PinnedModel<Location>,
    later: PinnedModel<Location>,
)
    requires
        forall|j: int| 0 <= j < entries.len() ==> value_sound((#[trigger] entries[j]).1),
        0 <= i < entries.len(),
        forall|j: int| i < j < entries.len() ==> (#[trigger] entries[j]).0 != entries[i].0,
    ensures
        ({
            let v = ValueModel::composed(form, entries, Seq::<ValueModel>::empty(), at, None);
            &&& value_sound(v)
            &&& all_tags(v.read_at(Some(entries[i].0), later)) == all_tags(entries[i].1)
        }),
{
    let v = ValueModel::composed(form, entries, Seq::<ValueModel>::empty(), at, None);
    lemma_keyed(entries, entries.len() as int);
    law_fold(Seq::<Trace>::empty(), LabelBacktraceKind::Expression, None, at);
    let p = part_index(v.parts, entries[i].0);
    assert(v.parts[p] == (ValueModel { key: entries[i].0, ..entries[i].1 }));
    assert(value_sound(v));
    lemma_part_index(v.parts, entries[i].0);
    law_reads_have_the_tags_of_the_part(v, Some(entries[i].0), later);
    lemma_richer_same(v.parts[p], entries[i].1);
    lemma_richer_same(entries[i].1, v.parts[p]);
    lemma_richer_tags(v.parts[p], entries[i].1);
    lemma_richer_tags(entries[i].1, v.parts[p]);
    assert(all_tags(v.read_at(Some(entries[i].0), later)) =~= all_tags(entries[i].1));
}

} // verus!
