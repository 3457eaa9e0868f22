//! What holds of the results of calls to which the policy applies.

use vstd::prelude::*;

use crate::labels::backtraces::{label_or_bottom, listed, root_trace, LabelBacktraceKind, Trace};
use crate::labels::laws::law_sum;
use crate::labels::tags::TagModel;
use crate::labels::trace_laws::{all_sound, is_plain, lemma_plain, sound, spread};
use crate::labels::{covers, summed};
use crate::locations::{Location, PinnedModel};
use crate::policy::blanket_directives::{BlanketDirectiveKind, DirectiveModel};
use crate::policy::targets::occurs_in;
use crate::taint::funcs::call_results::{concerns, labels_for, revoked, revoked_at,
    revoked_expandable, sourced, sourced_at, sourced_expandable};
use crate::taint::laws::expressions::{lemma_concat, lemma_folded, lemma_one, lemma_relieved_part};
use crate::taint::laws::lemma_parts_of;
use crate::values::laws::{all_tags, law_nesting_adds_tags, law_revocation_removes_tags,
    value_sound};
use crate::values::part_laws::law_reads_have_the_tags_of_the_part;
use crate::values::{lemma_part_index, lemma_part_index_is, part_index, relieved, KeyModel,
    ValueModel};

verus! {

/// Whether a directive concerns a result of a call: it is meant for the result, or
/// for all of them, and nothing that is known of the argument that it asks for
/// speaks against it.
pub open spec fn reaches_result(
    d: DirectiveModel,
    known: Seq<Option<Seq<char>>>,
    index: int,
) -> bool {
    &&& d.results.len() == 0 || d.results.contains(index as usize)
    &&& d.predicate matches Some((arg, text, contained)) ==> arg >= known.len()
        || known[arg as int] is None || (if contained {
        occurs_in(text, known[arg as int]->0)
    } else {
        known[arg as int]->0 == text
    })
}

/// Whether a source gives a result of a call a tag.
pub open spec fn gives_tag(
    ds: Seq<DirectiveModel>,
    known: Seq<Option<Seq<char>>>,
    index: int,
    x: TagModel,
) -> bool {
    exists|k: int|
        0 <= k < ds.len() && (#[trigger] ds[k]).kind is Source && reaches_result(
            ds[k],
            known,
            index,
        ) && ds[k].label.contains(x)
}

/// Whether a revocation takes a tag away from a result of a call.
pub open spec fn takes_tag(
    ds: Seq<DirectiveModel>,
    known: Seq<Option<Seq<char>>>,
    index: int,
    x: TagModel,
) -> bool {
    exists|k: int|
        0 <= k < ds.len() && (#[trigger] ds[k]).kind is Revocation && reaches_result(
            ds[k],
            known,
            index,
        ) && covers(ds[k].label, x)
}

/// Whether the labels of all sources are ones without wildcards.
pub open spec fn sources_plain(ds: Seq<DirectiveModel>) -> bool {
    forall|k: int| 0 <= k < ds.len() && (#[trigger] ds[k]).kind is Source ==> is_plain(ds[k].label)
}

proof fn lemma_labels_for(
    ds: Seq<DirectiveModel>,
    kind: BlanketDirectiveKind,
    known: Seq<Option<Seq<char>>>,
    index: int,
    n: int,
)
    requires
        0 <= n <= ds.len(),
    ensures
        forall|k: int|
            0 <= k < n && (#[trigger] ds[k]).kind == kind && reaches_result(ds[k], known, index)
                && ds[k].label != Set::<TagModel>::empty() ==> labels_for(
                ds,
                kind,
                known,
                index,
                n,
            ).contains(ds[k].label),
        forall|i: int|
            0 <= i < labels_for(ds, kind, known, index, n).len() ==> exists|k: int|
                0 <= k < n && (#[trigger] ds[k]).kind == kind && reaches_result(
                    ds[k],
                    known,
                    index,
                ) && ds[k].label == #[trigger] labels_for(ds, kind, known, index, n)[i],
    decreases n,
{
    if n > 0 {
        lemma_labels_for(ds, kind, known, index, n - 1);
        let before = labels_for(ds, kind, known, index, n - 1);
        let now = labels_for(ds, kind, known, index, n);
        assert forall|k: int|
            0 <= k < n && (#[trigger] ds[k]).kind == kind && reaches_result(ds[k], known, index)
                && ds[k].label != Set::<TagModel>::empty() implies now.contains(ds[k].label) by {
            if k < n - 1 {
                let i = choose|i: int| 0 <= i < before.len() && before[i] == ds[k].label;
                assert(now[i] == before[i]);
            } else {
                assert(now[now.len() - 1] == ds[k].label);
            }
        }
        assert forall|i: int| 0 <= i < now.len() implies exists|k: int|
            0 <= k < n && (#[trigger] ds[k]).kind == kind && reaches_result(ds[k], known, index)
                && ds[k].label == #[trigger] now[i] by {
            if i < before.len() {
                assert(now[i] == before[i]);
                let k = choose|k: int|
                    0 <= k < n - 1 && (#[trigger] ds[k]).kind == kind && reaches_result(
                        ds[k],
                        known,
                        index,
                    ) && ds[k].label == before[i];
                assert(ds[k].label == now[i]);
            } else {
                assert(ds[n - 1].label == now[i]);
            }
        }
    }
}

proof fn lemma_summed_union(labels: Seq<Set<TagModel>>)
    requires
        forall|i: int| 0 <= i < labels.len() ==> is_plain(#[trigger] labels[i]),
    ensures
        is_plain(summed(labels)),
        forall|x: TagModel|
            #[trigger] summed(labels).contains(x) <==> exists|i: int|
                0 <= i < labels.len() && (#[trigger] labels[i]).contains(x),
    decreases labels.len(),
{
    if labels.len() > 0 {
        let front = labels.drop_last();
        assert forall|i: int| 0 <= i < front.len() implies is_plain(#[trigger] front[i]) by {
            assert(front[i] == labels[i]);
        }
        lemma_summed_union(front);
        lemma_plain(summed(front), labels.last());
        assert(is_plain(labels[labels.len() - 1]));
        assert forall|x: TagModel| #[trigger] summed(labels).contains(x) <==> exists|i: int|
            0 <= i < labels.len() && (#[trigger] labels[i]).contains(x) by {
            if summed(front).contains(x) {
                let i = choose|i: int| 0 <= i < front.len() && (#[trigger] front[i]).contains(x);
                assert(labels[i].contains(x));
            }
            if exists|i: int| 0 <= i < labels.len() && (#[trigger] labels[i]).contains(x) {
                let i = choose|i: int| 0 <= i < labels.len() && (#[trigger] labels[i]).contains(x);
                if i < front.len() {
                    assert(front[i].contains(x));
                }
            }
        }
    }
}

/// A result has, besides the tags that it had, all tags of the sources that
/// concern it, and no others.
pub proof fn law_sources_label_results(
    results: Seq<ValueModel>,
    ds: Seq<DirectiveModel>,
    known: Seq<Option<Seq<char>>>,
    at: PinnedModel<Location>,
    i: int,
)
    requires
        0 <= i < results.len(),
        !(results.len() == 1 && results[0].is_expandable()),
        value_sound(results[i]),
        sources_plain(ds),
    ensures
        sourced(results, ds, known, at).len() == results.len(),
        value_sound(sourced(results, ds, known, at)[i]),
        forall|x: TagModel|
            #[trigger] all_tags(sourced(results, ds, known, at)[i]).contains(x) <==> all_tags(
                results[i],
            ).contains(x) || gives_tag(ds, known, i, x),
        sourced(results, ds, known, at)[i].form == results[i].form,
{
    let kind = BlanketDirectiveKind::Source;
    let labels = labels_for(ds, kind, known, i, ds.len() as int);
    lemma_labels_for(ds, kind, known, i, ds.len() as int);
    assert forall|j: int| 0 <= j < labels.len() implies is_plain(#[trigger] labels[j]) by {
        let k = choose|k: int|
            0 <= k < ds.len() && (#[trigger] ds[k]).kind == kind && reaches_result(ds[k], known, i)
                && ds[k].label == labels[j];
        assert(ds[k].kind is Source);
    }
    lemma_summed_union(labels);
    let label = summed(labels);
    assert forall|x: TagModel| label.contains(x) <==> gives_tag(ds, known, i, x) by {
        if label.contains(x) {
            let j = choose|j: int| 0 <= j < labels.len() && (#[trigger] labels[j]).contains(x);
            let k = choose|k: int|
                0 <= k < ds.len() && (#[trigger] ds[k]).kind == kind && reaches_result(
                    ds[k],
                    known,
                    i,
                ) && ds[k].label == labels[j];
            assert(ds[k].kind is Source);
        }
        if gives_tag(ds, known, i, x) {
            let k = choose|k: int|
                0 <= k < ds.len() && (#[trigger] ds[k]).kind is Source && reaches_result(
                    ds[k],
                    known,
                    i,
                ) && ds[k].label.contains(x);
            assert(ds[k].kind == kind);
            assert(labels.contains(ds[k].label));
            let j = choose|j: int| 0 <= j < labels.len() && labels[j] == ds[k].label;
            assert(labels[j].contains(x));
        }
    }
    if let Some(root) = root_trace(LabelBacktraceKind::BlanketSource, label, None, at) {
        assert(spread(root.children) =~= Set::<TagModel>::empty());
        assert(sound(root));
        assert(all_sound(seq![root]));
        law_nesting_adds_tags(results[i], LabelBacktraceKind::Expression, None, at, seq![root]);
        assert forall|x: TagModel| spread(seq![root]).contains(x) == label.contains(x) by {
            if label.contains(x) {
                assert(seq![root][0].label.contains(x));
            }
        }
    } else {
        assert forall|x: TagModel| !gives_tag(ds, known, i, x) by {
            assert(!label.contains(x));
        }
    }
}

/// A result has the tags that it had, but for those that a revocation that
/// concerns it covers.
pub proof fn law_revocations_relieve_results(
    results: Seq<ValueModel>,
    ds: Seq<DirectiveModel>,
    known: Seq<Option<Seq<char>>>,
    i: int,
)
    requires
        0 <= i < results.len(),
        !(results.len() == 1 && results[0].is_expandable()),
        value_sound(results[i]),
    ensures
        revoked(results, ds, known).len() == results.len(),
        value_sound(revoked(results, ds, known)[i]),
        forall|x: TagModel|
            #[trigger] all_tags(revoked(results, ds, known)[i]).contains(x) <==> all_tags(
                results[i],
            ).contains(x) && !takes_tag(ds, known, i, x),
{
    let kind = BlanketDirectiveKind::Revocation;
    let labels = labels_for(ds, kind, known, i, ds.len() as int);
    lemma_labels_for(ds, kind, known, i, ds.len() as int);
    law_sum(labels);
    let label = summed(labels);
    law_revocation_removes_tags(results[i], label);
    assert forall|x: TagModel| covers(label, x) <==> takes_tag(ds, known, i, x) by {
        if covers(label, x) {
            let j = choose|j: int| 0 <= j < labels.len() && covers(#[trigger] labels[j], x);
            let k = choose|k: int|
                0 <= k < ds.len() && (#[trigger] ds[k]).kind == kind && reaches_result(
                    ds[k],
                    known,
                    i,
                ) && ds[k].label == labels[j];
            assert(ds[k].kind is Revocation);
        }
        if takes_tag(ds, known, i, x) {
            let k = choose|k: int|
                0 <= k < ds.len() && (#[trigger] ds[k]).kind is Revocation && reaches_result(
                    ds[k],
                    known,
                    i,
                ) && covers(ds[k].label, x);
            assert(ds[k].kind == kind);
            assert(ds[k].label != Set::<TagModel>::empty());
            assert(labels.contains(ds[k].label));
            let j = choose|j: int| 0 <= j < labels.len() && labels[j] == ds[k].label;
            assert(covers(labels[j], x));
        }
    }
}

/// Whether a result of a call that stands for several has a tag at a position.
pub open spec fn has_tag_at(v: ValueModel, k: usize, x: TagModel) -> bool {
    all_tags(v.read_at(Some(KeyModel::Index(k)), v.location)).contains(x)
}

/// Whether a value has a part at a position, or one that stands for all of them.
pub open spec fn has_place(v: ValueModel, k: usize) -> bool {
    exists|i: int|
        0 <= i < v.parts.len() && ((#[trigger] v.parts[i]).key == KeyModel::Index(k)
            || v.parts[i].key is Others)
}

/// The position of the part that is read at a position.
spec fn read_part(v: ValueModel, k: usize) -> int {
    let p = part_index(v.parts, KeyModel::Index(k));
    if p < v.parts.len() {
        p
    } else {
        part_index(v.parts, KeyModel::Others)
    }
}

proof fn lemma_read_part(v: ValueModel, k: usize)
    requires
        value_sound(v),
        has_place(v, k),
    ensures
        0 <= read_part(v, k) < v.parts.len(),
        forall|x: TagModel|
            #[trigger] has_tag_at(v, k, x) <==> label_or_bottom(v.own).contains(x) || all_tags(
                v.parts[read_part(v, k)],
            ).contains(x),
{
    let key = KeyModel::Index(k);
    lemma_part_index(v.parts, key);
    lemma_part_index(v.parts, KeyModel::Others);
    law_reads_have_the_tags_of_the_part(v, Some(key), v.location);
    let p = part_index(v.parts, key);
    let o = part_index(v.parts, KeyModel::Others);
    let i = choose|i: int|
        0 <= i < v.parts.len() && ((#[trigger] v.parts[i]).key == key || v.parts[i].key is Others);
    if p < v.parts.len() {
        assert(v.parts[p].key == key);
    } else {
        assert(v.parts[i].key == KeyModel::Others);
        assert(v.parts[o].key is Others);
        assert forall|j: int| 0 <= j < o implies !((#[trigger] v.parts[j]).key is Others) by {
            assert(v.parts[j].key != KeyModel::Others);
        }
    }
}

proof fn lemma_focused(v: ValueModel, index: usize, k: usize)
    requires
        value_sound(v),
        has_place(v, index),
        has_place(v, k),
    ensures
        ({
            let w = v.focused(index);
            let p = part_index(w.parts, KeyModel::Index(index));
            &&& value_sound(w)
            &&& w.own == v.own
            &&& w.form == v.form
            &&& w.location == v.location
            &&& p < w.parts.len()
            &&& read_part(w, index) == p
            &&& all_tags(w.parts[p]) == all_tags(v.parts[read_part(v, index)])
            &&& has_place(w, k)
            &&& k != index ==> read_part(w, k) == read_part(v, k) && w.parts[read_part(w, k)]
                == v.parts[read_part(v, k)] && read_part(w, k) != p
            &&& 0 <= read_part(w, k) < w.parts.len()
        }),
{
    let w = v.focused(index);
    let ki = KeyModel::Index(index);
    let kk = KeyModel::Index(k);
    lemma_read_part(v, index);
    lemma_read_part(v, k);
    lemma_part_index(v.parts, ki);
    lemma_part_index(v.parts, kk);
    lemma_part_index(v.parts, KeyModel::Others);
    let n = v.parts.len() as int;
    if part_index(v.parts, ki) >= n {
        let o = part_index(v.parts, KeyModel::Others);
        let new = ValueModel { key: ki, ..v.parts[o] };
        lemma_parts_of(v.parts[o], new, new.parts.len() as int);
        assert(value_sound(v.parts[o]));
        assert(value_sound(new));
        assert(w.parts == v.parts.push(new));
        assert forall|i: int| 0 <= i < n implies (#[trigger] w.parts[i]).key != ki by {
            assert(w.parts[i] == v.parts[i]);
        }
        lemma_part_index_is(w.parts, ki, n);
        assert forall|i: int| 0 <= i < w.parts.len() implies value_sound(#[trigger] w.parts[i]) by {
            if i < n {
                assert(w.parts[i] == v.parts[i]);
            }
        }
        if k != index {
            let pk = part_index(v.parts, kk);
            if pk < n {
                assert forall|i: int| 0 <= i < pk implies (#[trigger] w.parts[i]).key != kk by {
                    assert(w.parts[i] == v.parts[i]);
                }
                assert(w.parts[pk] == v.parts[pk]);
                lemma_part_index_is(w.parts, kk, pk);
            } else {
                assert forall|i: int| 0 <= i < w.parts.len() implies (#[trigger] w.parts[i]).key
                    != kk by {
                    if i < n {
                        assert(w.parts[i] == v.parts[i]);
                    }
                }
                lemma_part_index_is(w.parts, kk, w.parts.len() as int);
                assert forall|i: int| 0 <= i < o implies (#[trigger] w.parts[i]).key
                    != KeyModel::Others by {
                    assert(w.parts[i] == v.parts[i]);
                }
                assert(w.parts[o] == v.parts[o]);
                lemma_part_index_is(w.parts, KeyModel::Others, o);
            }
        }
        assert(w.parts[n].key == ki);
        assert(w.parts[read_part(v, k)] == v.parts[read_part(v, k)]);
        assert(has_place(w, k)) by {
            let r = read_part(v, k);
            assert(w.parts[r].key == kk || w.parts[r].key is Others);
        }
    } else if k != index {
        let r = read_part(v, k);
        assert(v.parts[r].key != ki);
    }
}

proof fn lemma_changed_part(
    w: ValueModel,
    p: int,
    new: ValueModel,
    index: usize,
    k: usize,
)
    requires
        value_sound(w),
        p == part_index(w.parts, KeyModel::Index(index)),
        0 <= p < w.parts.len(),
        new.key == w.parts[p].key,
        value_sound(new),
        has_place(w, k),
    ensures
        ({
            let u = ValueModel { parts: w.parts.update(p, new), ..w };
            &&& value_sound(u)
            &&& has_place(u, k)
            &&& read_part(u, k) == read_part(w, k)
            &&& u.parts[read_part(u, k)] == if read_part(w, k) == p {
                new
            } else {
                w.parts[read_part(w, k)]
            }
        }),
{
    let u = ValueModel { parts: w.parts.update(p, new), ..w };
    lemma_read_part(w, k);
    assert forall|i: int| 0 <= i < u.parts.len() implies value_sound(#[trigger] u.parts[i]) by {
        if i != p {
            assert(u.parts[i] == w.parts[i]);
        }
    }
    assert forall|i: int| 0 <= i < u.parts.len() implies (#[trigger] u.parts[i]).key
        == w.parts[i].key by {}
    lemma_keys_alike(w.parts, u.parts, KeyModel::Index(k));
    lemma_keys_alike(w.parts, u.parts, KeyModel::Others);
    let r = read_part(w, k);
    lemma_part_index(w.parts, KeyModel::Index(k));
    lemma_part_index(w.parts, KeyModel::Others);
    assert(u.parts[r].key == w.parts[r].key);
    assert(u.parts[r].key == KeyModel::Index(k) || u.parts[r].key is Others);
}

proof fn lemma_keys_alike(a: Seq<ValueModel>, b: Seq<ValueModel>, key: KeyModel)
    requires
        a.len() == b.len(),
        forall|i: int| 0 <= i < b.len() ==> (#[trigger] b[i]).key == a[i].key,
    ensures
        part_index(a, key) == part_index(b, key),
{
    lemma_part_index(a, key);
    let p = part_index(a, key);
    assert forall|i: int| 0 <= i < p implies (#[trigger] b[i]).key != key by {
        assert(a[i].key != key);
    }
    lemma_part_index_is(b, key, p);
}

proof fn lemma_nested_at(
    v: ValueModel,
    index: usize,
    root: Trace,
    at: PinnedModel<Location>,
    k: usize,
)
    requires
        value_sound(v),
        sound(root),
        has_place(v, index),
        has_place(v, k),
    ensures
        ({
            let w = v.nesting_at(index, LabelBacktraceKind::Expression, at, seq![root]);
            &&& value_sound(w)
            &&& has_place(w, k)
            &&& w.own == v.own
            &&& forall|x: TagModel|
                #[trigger] has_tag_at(w, k, x) <==> has_tag_at(v, k, x) || k == index
                    && root.label.contains(x)
        }),
{
    let kind = LabelBacktraceKind::Expression;
    let f = v.focused(index);
    lemma_focused(v, index, k);
    lemma_focused(v, index, index);
    let p = part_index(f.parts, KeyModel::Index(index));
    assert(value_sound(f.parts[p]));
    assert(all_sound(seq![root]));
    assert forall|x: TagModel| spread(seq![root]).contains(x) == root.label.contains(x) by {
        if root.label.contains(x) {
            assert(seq![root][0].label.contains(x));
        }
    }
    assert(spread(seq![root]) =~= root.label);
    law_nesting_adds_tags(f.parts[p], kind, None, at, seq![root]);
    let new = f.parts[p].nesting(kind, None, at, seq![root]);
    lemma_changed_part(f, p, new, index, k);
    let w = v.nesting_at(index, kind, at, seq![root]);
    lemma_read_part(v, k);
    lemma_read_part(w, k);
}

proof fn lemma_relieved_at(v: ValueModel, index: usize, label: Set<TagModel>, k: usize)
    requires
        value_sound(v),
        has_place(v, index),
        has_place(v, k),
    ensures
        ({
            let w = v.relieved_at(index, label);
            &&& value_sound(w)
            &&& has_place(w, k)
            &&& w.own == v.own
            &&& forall|x: TagModel|
                !label_or_bottom(v.own).contains(x) ==> (#[trigger] has_tag_at(w, k, x)
                    <==> has_tag_at(v, k, x) && !(k == index && covers(label, x)))
        }),
{
    let f = v.focused(index);
    lemma_focused(v, index, k);
    lemma_focused(v, index, index);
    let p = part_index(f.parts, KeyModel::Index(index));
    assert(value_sound(f.parts[p]));
    law_revocation_removes_tags(f.parts[p], label);
    lemma_changed_part(f, p, relieved(f.parts[p], label), index, k);
    let w = v.relieved_at(index, label);
    lemma_read_part(v, k);
    lemma_read_part(w, k);
}

proof fn lemma_sourced_at(
    v: ValueModel,
    positions: Seq<usize>,
    root: Trace,
    at: PinnedModel<Location>,
    n: int,
    k: usize,
)
    requires
        value_sound(v),
        sound(root),
        0 <= n <= positions.len(),
        has_others(v),
    ensures
        ({
            let w = sourced_at(v, positions, root, at, n);
            &&& value_sound(w)
            &&& has_others(w)
            &&& forall|x: TagModel|
                #[trigger] has_tag_at(w, k, x) <==> has_tag_at(v, k, x) || root.label.contains(x)
                    && exists|j: int| 0 <= j < n && #[trigger] positions[j] == k
        }),
    decreases n,
{
    if n > 0 {
        lemma_sourced_at(v, positions, root, at, n - 1, k);
        let before = sourced_at(v, positions, root, at, n - 1);
        let w = sourced_at(v, positions, root, at, n);
        lemma_others_place(before, positions[n - 1]);
        lemma_others_place(before, k);
        lemma_nested_at(before, positions[n - 1], root, at, k);
        lemma_keeps_others(
            before,
            positions[n - 1],
            before.focused(positions[n - 1]).parts[part_index(
                before.focused(positions[n - 1]).parts,
                KeyModel::Index(positions[n - 1]),
            )].nesting(LabelBacktraceKind::Expression, None, at, seq![root]),
        );
        assert forall|x: TagModel|
            #[trigger] has_tag_at(w, k, x) <==> has_tag_at(v, k, x) || root.label.contains(x)
                && exists|j: int| 0 <= j < n && #[trigger] positions[j] == k by {
            if exists|j: int| 0 <= j < n - 1 && #[trigger] positions[j] == k {
                let j = choose|j: int| 0 <= j < n - 1 && #[trigger] positions[j] == k;
                assert(positions[j] == k);
            }
            if exists|j: int| 0 <= j < n && #[trigger] positions[j] == k {
                let j = choose|j: int| 0 <= j < n && #[trigger] positions[j] == k;
                assert(j < n - 1 || positions[n - 1] == k);
            }
        }
    }
}

/// Whether a value has a part that stands for all positions, as one does of which
/// it is not known for how many values it stands.
pub open spec fn has_others(v: ValueModel) -> bool {
    exists|i: int| 0 <= i < v.parts.len() && (#[trigger] v.parts[i]).key is Others
}

proof fn lemma_others_place(v: ValueModel, k: usize)
    requires
        has_others(v),
    ensures
        has_place(v, k),
{
    let i = choose|i: int| 0 <= i < v.parts.len() && (#[trigger] v.parts[i]).key is Others;
    assert(v.parts[i].key is Others);
}

proof fn lemma_keeps_others(v: ValueModel, index: usize, new: ValueModel)
    requires
        has_others(v),
    ensures
        ({
            let f = v.focused(index);
            let p = part_index(f.parts, KeyModel::Index(index));
            &&& has_others(f)
            &&& p < f.parts.len() ==> has_others(
                (ValueModel { parts: f.parts.update(p, new), ..f }),
            )
        }),
{
    let i = choose|i: int| 0 <= i < v.parts.len() && (#[trigger] v.parts[i]).key is Others;
    let f = v.focused(index);
    assert(f.parts[i] == v.parts[i]);
    lemma_part_index(f.parts, KeyModel::Index(index));
    let p = part_index(f.parts, KeyModel::Index(index));
    if p < f.parts.len() {
        let u = ValueModel { parts: f.parts.update(p, new), ..f };
        assert(u.parts[i] == f.parts[i]);
    }
}

proof fn lemma_sourced_expandable(
    v: ValueModel,
    ds: Seq<DirectiveModel>,
    known: Seq<Option<Seq<char>>>,
    at: PinnedModel<Location>,
    n: int,
    k: usize,
)
    requires
        value_sound(v),
        has_others(v),
        sources_plain(ds),
        0 <= n <= ds.len(),
    ensures
        ({
            let w = sourced_expandable(v, ds, known, at, n);
            &&& value_sound(w)
            &&& has_others(w)
            &&& forall|x: TagModel|
                #[trigger] has_tag_at(w, k, x) <==> has_tag_at(v, k, x) || exists|j: int|
                    0 <= j < n && (#[trigger] ds[j]).kind is Source && reaches_result(
                        ds[j],
                        known,
                        k as int,
                    ) && ds[j].label.contains(x)
        }),
    decreases n,
{
    if n > 0 {
        lemma_sourced_expandable(v, ds, known, at, n - 1, k);
        let before = sourced_expandable(v, ds, known, at, n - 1);
        let w = sourced_expandable(v, ds, known, at, n);
        let d = ds[n - 1];
        lemma_others_place(before, k);
        lemma_read_part(before, k);
        if concerns(d, BlanketDirectiveKind::Source, known) {
            let root = root_trace(LabelBacktraceKind::BlanketSource, d.label, None, at)->0;
            assert(d.kind is Source);
            assert(is_plain(d.label));
            assert(spread(root.children) =~= Set::<TagModel>::empty());
            assert(sound(root));
            if d.results.len() == 0 {
                assert(all_sound(seq![root]));
                lemma_one(before.own);
                lemma_one(Some(root));
                assert(listed(Some(root)) =~= seq![root]);
                lemma_concat(listed(before.own), seq![root]);
                lemma_folded(
                    listed(before.own) + seq![root],
                    LabelBacktraceKind::Expression,
                    at,
                );
                law_nesting_adds_tags(before, LabelBacktraceKind::Expression, None, at, seq![root]);
                assert(w.parts == before.parts);
                assert(has_others(w)) by {
                    let i = choose|i: int|
                        0 <= i < before.parts.len() && (#[trigger] before.parts[i]).key is Others;
                    assert(w.parts[i].key is Others);
                }
                lemma_others_place(w, k);
                lemma_read_part(w, k);
            } else {
                lemma_sourced_at(before, d.results, root, at, d.results.len() as int, k);
            }
        }
        assert forall|x: TagModel|
            #[trigger] has_tag_at(w, k, x) <==> has_tag_at(v, k, x) || exists|j: int|
                0 <= j < n && (#[trigger] ds[j]).kind is Source && reaches_result(
                    ds[j],
                    known,
                    k as int,
                ) && ds[j].label.contains(x) by {
            let now = d.kind is Source && reaches_result(d, known, k as int) && d.label.contains(x);
            assert(has_tag_at(w, k, x) <==> has_tag_at(before, k, x) || now) by {
                if d.results.contains(k) {
                    let j = choose|j: int| 0 <= j < d.results.len() && d.results[j] == k;
                    assert(d.results[j] == k);
                }
                if exists|j: int| 0 <= j < d.results.len() && #[trigger] d.results[j] == k {
                    assert(d.results.contains(k));
                }
                if d.label.contains(x) {
                    assert(d.label != Set::<TagModel>::empty());
                }
            }
            if now {
                assert(ds[n - 1].kind is Source);
            }
            if exists|j: int|
                0 <= j < n && (#[trigger] ds[j]).kind is Source && reaches_result(
                    ds[j],
                    known,
                    k as int,
                ) && ds[j].label.contains(x) {
                let j = choose|j: int|
                    0 <= j < n && (#[trigger] ds[j]).kind is Source && reaches_result(
                        ds[j],
                        known,
                        k as int,
                    ) && ds[j].label.contains(x);
                if j < n - 1 {
                    assert(has_tag_at(before, k, x));
                }
            }
        }
    }
}

/// Of what a call gives of which it is not known for how many results it stands,
/// each has, besides the tags that it had, all tags of the sources that concern
/// it, and no others.
pub proof fn law_sources_label_open_results(
    v: ValueModel,
    ds: Seq<DirectiveModel>,
    known: Seq<Option<Seq<char>>>,
    at: PinnedModel<Location>,
    k: usize,
    x: TagModel,
)
    requires
        v.is_expandable(),
        value_sound(v),
        has_others(v),
        sources_plain(ds),
    ensures
        ({
            let r = sourced(seq![v], ds, known, at);
            &&& r.len() == 1
            &&& value_sound(r[0])
            &&& has_tag_at(r[0], k, x) <==> has_tag_at(v, k, x) || gives_tag(
                ds,
                known,
                k as int,
                x,
            )
        }),
{
    lemma_sourced_expandable(v, ds, known, at, ds.len() as int, k);
    assert(has_tag_at(sourced(seq![v], ds, known, at)[0], k, x) <==> has_tag_at(v, k, x)
        || gives_tag(ds, known, k as int, x));
}

proof fn lemma_revoked_at(
    v: ValueModel,
    positions: Seq<usize>,
    label: Set<TagModel>,
    n: int,
    k: usize,
)
    requires
        value_sound(v),
        0 <= n <= positions.len(),
        has_others(v),
    ensures
        ({
            let w = revoked_at(v, positions, label, n);
            &&& value_sound(w)
            &&& has_others(w)
            &&& w.own == v.own
            &&& forall|x: TagModel|
                !label_or_bottom(v.own).contains(x) ==> (#[trigger] has_tag_at(w, k, x)
                    <==> has_tag_at(v, k, x) && !(covers(label, x) && exists|j: int|
                    0 <= j < n && #[trigger] positions[j] == k))
        }),
    decreases n,
{
    if n > 0 {
        lemma_revoked_at(v, positions, label, n - 1, k);
        let before = revoked_at(v, positions, label, n - 1);
        let w = revoked_at(v, positions, label, n);
        let index = positions[n - 1];
        lemma_others_place(before, index);
        lemma_others_place(before, k);
        lemma_relieved_at(before, index, label, k);
        let f = before.focused(index);
        lemma_keeps_others(
            before,
            index,
            relieved(f.parts[part_index(f.parts, KeyModel::Index(index))], label),
        );
        assert forall|x: TagModel| !label_or_bottom(v.own).contains(x) implies (
        #[trigger] has_tag_at(w, k, x) <==> has_tag_at(v, k, x) && !(covers(label, x) && exists|
            j: int,
        |
            0 <= j < n && #[trigger] positions[j] == k)) by {
            if exists|j: int| 0 <= j < n - 1 && #[trigger] positions[j] == k {
                let j = choose|j: int| 0 <= j < n - 1 && #[trigger] positions[j] == k;
                assert(positions[j] == k);
            }
            if exists|j: int| 0 <= j < n && #[trigger] positions[j] == k {
                let j = choose|j: int| 0 <= j < n && #[trigger] positions[j] == k;
                assert(j < n - 1 || positions[n - 1] == k);
            }
        }
    }
}

proof fn lemma_revoked_expandable(
    v: ValueModel,
    ds: Seq<DirectiveModel>,
    known: Seq<Option<Seq<char>>>,
    n: int,
    k: usize,
)
    requires
        value_sound(v),
        has_others(v),
        0 <= n <= ds.len(),
    ensures
        ({
            let w = revoked_expandable(v, ds, known, n);
            &&& value_sound(w)
            &&& has_others(w)
            &&& label_or_bottom(w.own).subset_of(label_or_bottom(v.own))
            &&& forall|x: TagModel|
                !label_or_bottom(v.own).contains(x) ==> (#[trigger] has_tag_at(w, k, x)
                    <==> has_tag_at(v, k, x) && !exists|j: int|
                    0 <= j < n && (#[trigger] ds[j]).kind is Revocation && reaches_result(
                        ds[j],
                        known,
                        k as int,
                    ) && covers(ds[j].label, x))
        }),
    decreases n,
{
    if n > 0 {
        lemma_revoked_expandable(v, ds, known, n - 1, k);
        let before = revoked_expandable(v, ds, known, n - 1);
        let w = revoked_expandable(v, ds, known, n);
        let d = ds[n - 1];
        lemma_others_place(before, k);
        lemma_read_part(before, k);
        if concerns(d, BlanketDirectiveKind::Revocation, known) {
            if d.results.len() == 0 {
                lemma_relieved_whole(before, d.label, k);
            } else {
                lemma_revoked_at(before, d.results, d.label, d.results.len() as int, k);
            }
        }
        assert forall|x: TagModel| !label_or_bottom(v.own).contains(x) implies (
        #[trigger] has_tag_at(w, k, x) <==> has_tag_at(v, k, x) && !exists|j: int|
            0 <= j < n && (#[trigger] ds[j]).kind is Revocation && reaches_result(
                ds[j],
                known,
                k as int,
            ) && covers(ds[j].label, x)) by {
            let now = d.kind is Revocation && reaches_result(d, known, k as int) && covers(
                d.label,
                x,
            );
            assert(!label_or_bottom(before.own).contains(x));
            assert(has_tag_at(w, k, x) <==> has_tag_at(before, k, x) && !now) by {
                if d.results.contains(k) {
                    let j = choose|j: int| 0 <= j < d.results.len() && d.results[j] == k;
                    assert(d.results[j] == k);
                }
                if exists|j: int| 0 <= j < d.results.len() && #[trigger] d.results[j] == k {
                    assert(d.results.contains(k));
                }
                if covers(d.label, x) {
                    assert(d.label != Set::<TagModel>::empty());
                }
            }
            if now {
                assert(ds[n - 1].kind is Revocation);
            }
            if exists|j: int|
                0 <= j < n && (#[trigger] ds[j]).kind is Revocation && reaches_result(
                    ds[j],
                    known,
                    k as int,
                ) && covers(ds[j].label, x) {
                let j = choose|j: int|
                    0 <= j < n && (#[trigger] ds[j]).kind is Revocation && reaches_result(
                        ds[j],
                        known,
                        k as int,
                    ) && covers(ds[j].label, x);
                if j < n - 1 {
                    assert(!has_tag_at(before, k, x));
                }
            }
        }
    }
}

proof fn lemma_relieved_whole(v: ValueModel, label: Set<TagModel>, k: usize)
    requires
        value_sound(v),
        has_others(v),
    ensures
        ({
            let w = relieved(v, label);
            &&& value_sound(w)
            &&& has_others(w)
            &&& label_or_bottom(w.own).subset_of(label_or_bottom(v.own))
            &&& forall|x: TagModel|
                !label_or_bottom(v.own).contains(x) ==> (#[trigger] has_tag_at(w, k, x)
                    <==> has_tag_at(v, k, x) && !covers(label, x))
        }),
{
    let w = relieved(v, label);
    law_revocation_removes_tags(v, label);
    lemma_others_place(v, k);
    lemma_read_part(v, k);
    assert forall|i: int| 0 <= i < w.parts.len() implies (#[trigger] w.parts[i]).key
        == v.parts[i].key by {
        lemma_relieved_part(v, label, i);
    }
    lemma_keys_alike(v.parts, w.parts, KeyModel::Index(k));
    lemma_keys_alike(v.parts, w.parts, KeyModel::Others);
    assert(has_others(w)) by {
        let i = choose|i: int| 0 <= i < v.parts.len() && (#[trigger] v.parts[i]).key is Others;
        assert(w.parts[i].key is Others);
    }
    lemma_others_place(w, k);
    lemma_read_part(w, k);
    lemma_relieved_part(v, label, read_part(v, k));
    let bare = ValueModel { parts: Seq::<ValueModel>::empty(), ..v };
    law_revocation_removes_tags(bare, label);
    assert(relieved(bare, label).own == w.own);
    assert(all_tags(bare) =~= label_or_bottom(v.own));
    assert(all_tags(relieved(bare, label)) =~= label_or_bottom(w.own));
}

/// Of what a call gives of which it is not known for how many results it stands,
/// each loses just the tags that a revocation that concerns it covers. Those that
/// all of it has as a whole are another matter: only a revocation that is meant for
/// all results reaches them.
pub proof fn law_revocations_relieve_open_results(
    v: ValueModel,
    ds: Seq<DirectiveModel>,
    known: Seq<Option<Seq<char>>>,
    k: usize,
    x: TagModel,
)
    requires
        v.is_expandable(),
        value_sound(v),
        has_others(v),
        !label_or_bottom(v.own).contains(x),
    ensures
        ({
            let r = revoked(seq![v], ds, known);
            &&& r.len() == 1
            &&& value_sound(r[0])
            &&& has_tag_at(r[0], k, x) <==> has_tag_at(v, k, x) && !takes_tag(
                ds,
                known,
                k as int,
                x,
            )
        }),
{
    lemma_revoked_expandable(v, ds, known, ds.len() as int, k);
    assert(has_tag_at(revoked(seq![v], ds, known)[0], k, x) <==> has_tag_at(v, k, x) && !takes_tag(
        ds,
        known,
        k as int,
        x,
    ));
}

} // verus!
