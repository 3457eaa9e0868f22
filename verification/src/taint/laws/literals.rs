//! What holds of the labels of literals.

use vstd::prelude::*;

use crate::context::reports::LogModel;
use crate::context::ContextModel;
use crate::labels::backtraces::{combined, folded, label_or_bottom, LabelBacktraceKind};
use crate::labels::tags::TagModel;
use crate::labels::trace_laws::{all_sound, sound, spread};
use crate::locations::{Location, PinnedModel, SpanModel};
use crate::policy::blanket_directives::DirectiveModel;
use crate::symbols::table::TableModel;
use crate::taint::exprs::literals::{declared_names, elements_of, fields_of, integer_elements, literal_visited,
    map_elements_of, map_entries, names_for, nested_value, positions_fit, relevant, struct_entries, ElementKey, FieldDecl,
    LiteralNode, MapElement, MapElementModel};
use crate::taint::exprs::visits::{evaluated, ExprModel};
use crate::taint::funcs::builtins::{made, optional_flow, present};
use crate::taint::funcs::converted;
use crate::taint::laws::builtins::lemma_others;
use crate::taint::laws::expressions::{lemma_concat, lemma_folded, lemma_one, lemma_simple};
use crate::taint::laws::lemma_parts_of;
use crate::taint::laws::policies::{law_revocations_relieve_results, takes_tag};
use crate::values::composites::{carried_by, keyed};
use crate::values::laws::{all_tags, law_values_carry_their_tags, lemma_combined, value_sound};
use crate::values::part_laws::{law_reads_have_the_tags_of_the_part, lemma_keyed,
    lemma_with_others};
use crate::values::{carried, lemma_part_index, part_index, values_of, FormModel, KeyModel,
    TypeKind, TypeModel, Value, ValueModel};

verus! {

/// Whether a value is one that nothing is lost without: it has no tags, and nothing
/// is known of its form.
pub open spec fn is_bare(v: ValueModel) -> bool {
    v.form is Simple && all_tags(v) == Set::<TagModel>::empty()
}

proof fn lemma_bare(v: ValueModel)
    requires
        value_sound(v),
    ensures
        v.negligible() == is_bare(v),
{
    law_values_carry_their_tags(v);
    match carried(v) {
        Some(t) => {
            assert(sound(t));
            assert(t.label == all_tags(v));
        },
        None => {
            assert(all_tags(v) =~= Set::<TagModel>::empty());
        },
    }
}

/// Whether one of some values has a tag.
pub open spec fn any_tag(values: Seq<ValueModel>, x: TagModel) -> bool {
    exists|i: int| 0 <= i < values.len() && all_tags(#[trigger] values[i]).contains(x)
}

/// Those of some entries that there are.
spec fn flat(given: Seq<Option<(KeyModel, ValueModel)>>, n: int) -> Seq<(KeyModel, ValueModel)>
    decreases n,
{
    if n <= 0 {
        Seq::<(KeyModel, ValueModel)>::empty()
    } else {
        match given[n - 1] {
            Some(e) => flat(given, n - 1).push(e),
            None => flat(given, n - 1),
        }
    }
}

/// Whether an entry is the last one of its key.
spec fn is_last(given: Seq<Option<(KeyModel, ValueModel)>>, i: int, n: int) -> bool {
    &&& 0 <= i < n
    &&& given[i] is Some
    &&& forall|j: int|
        i < j < n ==> (#[trigger] given[j] matches Some(f) ==> f.0 != (given[i]->0).0)
}

/// Whether an entry stands somewhere, and none with its key behind it.
spec fn stands_last(s: Seq<(KeyModel, ValueModel)>, m: int, e: (KeyModel, ValueModel)) -> bool {
    &&& 0 <= m < s.len()
    &&& s[m] == e
    &&& forall|j: int| m < j < s.len() ==> (#[trigger] s[j]).0 != e.0
}

proof fn lemma_flat(given: Seq<Option<(KeyModel, ValueModel)>>, n: int)
    requires
        0 <= n <= given.len(),
    ensures
        forall|i: int|
            #[trigger] is_last(given, i, n) ==> exists|m: int|
                stands_last(flat(given, n), m, given[i]->0),
        forall|m: int|
            0 <= m < flat(given, n).len() ==> exists|i: int|
                0 <= i < n && #[trigger] given[i] == Some(#[trigger] flat(given, n)[m]),
    decreases n,
{
    if n > 0 {
        lemma_flat(given, n - 1);
        let before = flat(given, n - 1);
        let now = flat(given, n);
        assert forall|i: int| #[trigger] is_last(given, i, n) implies exists|m: int|
            stands_last(now, m, given[i]->0) by {
            if i == n - 1 {
                assert(stands_last(now, now.len() - 1, given[i]->0));
            } else {
                assert(is_last(given, i, n - 1));
                let m = choose|m: int| stands_last(before, m, given[i]->0);
                assert(given[n - 1] matches Some(f) ==> f.0 != (given[i]->0).0);
                assert forall|j: int| m < j < now.len() implies (#[trigger] now[j]).0 != (
                given[i]->0).0 by {
                    if j < before.len() {
                        assert(now[j] == before[j]);
                    }
                }
                assert(now[m] == before[m]);
                assert(stands_last(now, m, given[i]->0));
            }
        }
        assert forall|m: int| 0 <= m < now.len() implies exists|i: int|
            0 <= i < n && #[trigger] given[i] == Some(#[trigger] now[m]) by {
            if m < before.len() {
                assert(now[m] == before[m]);
                let i = choose|i: int| 0 <= i < n - 1 && #[trigger] given[i] == Some(before[m]);
                assert(given[i] == Some(now[m]));
            } else {
                assert(given[n - 1] == Some(now[m]));
            }
        }
    }
}

proof fn lemma_carried_by_all(values: Seq<ValueModel>, n: int)
    requires
        0 <= n <= values.len(),
        forall|i: int| 0 <= i < values.len() ==> value_sound(#[trigger] values[i]),
    ensures
        all_sound(carried_by(values, n)),
        forall|x: TagModel|
            #[trigger] spread(carried_by(values, n)).contains(x) <==> exists|i: int|
                0 <= i < n && all_tags(#[trigger] values[i]).contains(x),
    decreases n,
{
    let now = carried_by(values, n);
    if n > 0 {
        lemma_carried_by_all(values, n - 1);
        let before = carried_by(values, n - 1);
        assert(value_sound(values[n - 1]));
        law_values_carry_their_tags(values[n - 1]);
        lemma_one(carried(values[n - 1]));
        lemma_concat(before, crate::labels::backtraces::listed(carried(values[n - 1])));
        assert forall|x: TagModel|
            #[trigger] spread(now).contains(x) <==> exists|i: int|
                0 <= i < n && all_tags(#[trigger] values[i]).contains(x) by {
            if spread(now).contains(x) && !spread(before).contains(x) {
                assert(all_tags(values[n - 1]).contains(x));
            }
            if exists|i: int| 0 <= i < n && all_tags(#[trigger] values[i]).contains(x) {
                let i = choose|i: int| 0 <= i < n && all_tags(#[trigger] values[i]).contains(x);
                if i < n - 1 {
                    assert(spread(before).contains(x));
                }
            }
        }
    } else {
        assert(spread(now) =~= Set::<TagModel>::empty());
    }
}

proof fn lemma_composed(
    form: FormModel,
    entries: Seq<(KeyModel, ValueModel)>,
    others: Seq<ValueModel>,
    at: PinnedModel<Location>,
    declared_type: Option<TypeModel>,
    k: KeyModel,
    later: PinnedModel<Location>,
)
    requires
        forall|i: int|
            0 <= i < entries.len() ==> value_sound((#[trigger] entries[i]).1) && !(
            entries[i].0 is Others),
        forall|i: int| 0 <= i < others.len() ==> value_sound(#[trigger] others[i]),
        !(k is Others),
    ensures
        ({
            let v = ValueModel::composed(form, entries, others, at, declared_type);
            &&& value_sound(v)
            &&& v.form == form
            &&& forall|m: int|
                #[trigger] stands_last(entries, m, entries[m]) && entries[m].0 == k ==> all_tags(
                    v.read_at(Some(k), later),
                ) == all_tags(entries[m].1)
            &&& (forall|m: int| 0 <= m < entries.len() ==> (#[trigger] entries[m]).0 != k)
                ==> forall|x: TagModel|
                #[trigger] all_tags(v.read_at(Some(k), later)).contains(x) <==> any_tag(others, x)
            &&& forall|x: TagModel, i: int|
                0 <= i < others.len() && #[trigger] all_tags(others[i]).contains(x) ==> all_tags(
                    v,
                ).contains(x)
        }),
{
    let n = entries.len() as int;
    let v = ValueModel::composed(form, entries, others, at, declared_type);
    let bare = ValueModel {
        key: KeyModel::Whole,
        form,
        own: None,
        location: at,
        declared_type,
        parts: keyed(entries, n),
    };
    lemma_keyed(entries, n);
    assert(value_sound(bare));
    lemma_carried_by_all(others, others.len() as int);
    let ts = carried_by(others, others.len() as int);
    lemma_folded(ts, LabelBacktraceKind::Expression, at);
    let flow = folded(ts, LabelBacktraceKind::Expression, None, at);
    lemma_with_others(bare, flow, at);
    lemma_others(bare, flow, at, k);
    law_reads_have_the_tags_of_the_part(v, Some(k), later);
    lemma_part_index(v.parts, k);
    lemma_part_index(v.parts, KeyModel::Others);
    lemma_part_index(bare.parts, k);
    assert(part_index(bare.parts, KeyModel::Others) == bare.parts.len());
    let p = part_index(v.parts, k);
    let o = part_index(v.parts, KeyModel::Others);
    assert forall|m: int|
        #[trigger] stands_last(entries, m, entries[m]) && entries[m].0 == k implies all_tags(
        v.read_at(Some(k), later),
    ) == all_tags(entries[m].1) by {
        let q = part_index(bare.parts, k);
        assert(bare.parts[q] == (ValueModel { key: k, ..entries[m].1 }));
        assert(v.parts[p] == bare.parts[q]);
        lemma_parts_of(entries[m].1, v.parts[p], entries[m].1.parts.len() as int);
        assert(v.parts[p].key == k);
        assert(all_tags(v.parts[p]).union(label_or_bottom(v.own)) =~= all_tags(entries[m].1));
    }
    if forall|m: int| 0 <= m < entries.len() ==> (#[trigger] entries[m]).0 != k {
        assert(p >= v.parts.len());
        assert(label_or_bottom(v.others()) =~= spread(ts));
        assert(all_tags(v.read_at(Some(k), later)) =~= spread(ts)) by {
            if o < v.parts.len() {
                assert(value_sound(v.parts[o]));
                law_values_carry_their_tags(v.parts[o]);
                assert(v.parts[o].key is Others);
                assert forall|j: int| 0 <= j < o implies !((
                #[trigger] v.parts[j]).key is Others) by {
                    assert(v.parts[j].key != KeyModel::Others);
                }
            } else {
                assert forall|j: int| 0 <= j < v.parts.len() implies (#[trigger] v.parts[j]).key
                    != k && !(v.parts[j].key is Others) by {
                    assert(v.parts[j].key != KeyModel::Others);
                }
            }
        }
    }
    assert forall|x: TagModel, i: int|
        0 <= i < others.len() && #[trigger] all_tags(others[i]).contains(x) implies all_tags(
        v,
    ).contains(x) by {
        assert(spread(ts).contains(x));
    }
}

/// Where the next element of an array or slice stands that gives no position.
pub open spec fn next_place(elements: Seq<(ElementKey, ValueModel)>, n: int) -> nat
    decreases n,
{
    if n <= 0 {
        0
    } else {
        match elements[n - 1].0 {
            ElementKey::Known(k) => if is_bare(elements[n - 1].1) {
                next_place(elements, n - 1) + 1
            } else {
                k as nat + 1
            },
            _ => next_place(elements, n - 1) + 1,
        }
    }
}

/// Where an element of an array or slice stands, if that is known: where it says,
/// or behind the one before it.
pub open spec fn place(elements: Seq<(ElementKey, ValueModel)>, i: int) -> Option<nat> {
    match elements[i].0 {
        ElementKey::Default => Some(next_place(elements, i)),
        ElementKey::Known(k) => Some(k as nat),
        ElementKey::Unknown => None,
    }
}

spec fn given_elements(elements: Seq<(ElementKey, ValueModel)>) -> Seq<
    Option<(KeyModel, ValueModel)>,
> {
    Seq::new(
        elements.len(),
        |i: int|
            if is_bare(elements[i].1) || place(elements, i) is None {
                None
            } else {
                Some((KeyModel::Index(place(elements, i)->0 as usize), elements[i].1))
            },
    )
}

proof fn lemma_next_place(elements: Seq<(ElementKey, Value)>, n: int)
    requires
        positions_fit(elements),
        elements.len() < usize::MAX,
        0 <= n <= elements.len(),
    ensures
        next_place(elements_of(elements), n) <= usize::MAX - (elements.len() - n),
    decreases n,
{
    if n > 0 {
        lemma_next_place(elements, n - 1);
        assert(elements_of(elements)[n - 1].0 == elements[n - 1].0);
    }
}

proof fn lemma_elements(elements: Seq<(ElementKey, ValueModel)>, n: int)
    requires
        0 <= n <= elements.len(),
        forall|i: int| 0 <= i < elements.len() ==> value_sound((#[trigger] elements[i]).1),
    ensures
        integer_elements(elements, n).next == next_place(elements, n),
        integer_elements(elements, n).entries == flat(given_elements(elements), n),
        forall|i: int|
            0 <= i < integer_elements(elements, n).others.len() ==> value_sound(
                #[trigger] integer_elements(elements, n).others[i],
            ),
        forall|x: TagModel|
            #[trigger] any_tag(integer_elements(elements, n).others, x) <==> exists|i: int|
                0 <= i < n && (#[trigger] elements[i]).0 is Unknown && #[trigger] all_tags(
                    elements[i].1,
                ).contains(x),
    decreases n,
{
    if n > 0 {
        lemma_elements(elements, n - 1);
        let before = integer_elements(elements, n - 1);
        let now = integer_elements(elements, n);
        let (key, value) = elements[n - 1];
        assert(value_sound(elements[n - 1].1));
        lemma_bare(value);
        assert forall|i: int| 0 <= i < now.others.len() implies value_sound(
            #[trigger] now.others[i],
        ) by {
            if i < before.others.len() {
                assert(now.others[i] == before.others[i]);
            }
        }
        assert forall|x: TagModel|
            #[trigger] any_tag(now.others, x) <==> (exists|i: int|
                0 <= i < n && (#[trigger] elements[i]).0 is Unknown && #[trigger] all_tags(
                    elements[i].1,
                ).contains(x)) by {
            if any_tag(now.others, x) {
                let i = choose|i: int|
                    0 <= i < now.others.len() && all_tags(#[trigger] now.others[i]).contains(x);
                if i < before.others.len() {
                    assert(all_tags(before.others[i]).contains(x));
                    assert(any_tag(before.others, x));
                    let j = choose|j: int|
                        0 <= j < n - 1 && (#[trigger] elements[j]).0 is Unknown
                            && #[trigger] all_tags(elements[j].1).contains(x);
                    assert(elements[j].0 is Unknown);
                } else {
                    assert(elements[n - 1].0 is Unknown);
                    assert(all_tags(elements[n - 1].1).contains(x));
                }
            }
            if exists|i: int|
                0 <= i < n && (#[trigger] elements[i]).0 is Unknown && #[trigger] all_tags(
                    elements[i].1,
                ).contains(x) {
                let i = choose|i: int|
                    0 <= i < n && (#[trigger] elements[i]).0 is Unknown && #[trigger] all_tags(
                        elements[i].1,
                    ).contains(x);
                if i < n - 1 {
                    assert(any_tag(before.others, x));
                    let j = choose|j: int|
                        0 <= j < before.others.len() && all_tags(
                            #[trigger] before.others[j],
                        ).contains(x);
                    assert(now.others[j] == before.others[j]);
                } else {
                    assert(!is_bare(value));
                    assert(all_tags(now.others[now.others.len() - 1]).contains(x));
                }
            }
        }
    }
}

/// What is read from a literal of an array or slice at a position has the tags of
/// the element that the literal gives there, and no others. Where it gives none,
/// it has those of the elements whose positions are not known, and no others.
pub proof fn law_listed_elements_are_read_back(
    elements: Vec<(ElementKey, Value)>,
    is_slice: bool,
    log: LogModel,
    at: PinnedModel<Location>,
    declared_type: Option<TypeModel>,
    position: usize,
    later: PinnedModel<Location>,
)
    requires
        positions_fit(elements@),
        elements@.len() < usize::MAX,
        forall|i: int| 0 <= i < elements@.len() ==> value_sound((#[trigger] elements@[i]).1@),
    ensures
        ({
            let es = elements_of(elements@);
            let node = if is_slice {
                LiteralNode::Slice(elements)
            } else {
                LiteralNode::Array(elements)
            };
            let r = literal_visited(log, node, at, declared_type).1;
            let read = r.read_at(Some(KeyModel::Index(position)), later);
            &&& value_sound(r)
            &&& r.form == if is_slice {
                FormModel::Slice
            } else {
                FormModel::Array
            }
            &&& forall|i: int|
                0 <= i < es.len() && #[trigger] place(es, i) == Some(position as nat) && !is_bare(
                    es[i].1,
                ) && (forall|j: int|
                    i < j < es.len() && !is_bare(es[j].1) ==> #[trigger] place(es, j) != Some(
                        position as nat,
                    )) ==> all_tags(read) == all_tags(es[i].1)
            &&& (forall|i: int|
                0 <= i < es.len() && !is_bare(es[i].1) ==> #[trigger] place(es, i) != Some(
                    position as nat,
                )) ==> forall|x: TagModel|
                #[trigger] all_tags(read).contains(x) <==> exists|i: int|
                    0 <= i < es.len() && (#[trigger] es[i]).0 is Unknown && #[trigger] all_tags(
                        es[i].1,
                    ).contains(x)
        }),
{
    let es = elements_of(elements@);
    let n = es.len() as int;
    let k = KeyModel::Index(position);
    let given = given_elements(es);
    assert forall|i: int| 0 <= i < es.len() implies value_sound((#[trigger] es[i]).1) by {
        assert(es[i].1 == elements@[i].1@);
    }
    lemma_elements(es, n);
    lemma_flat(given, n);
    let entries = integer_elements(es, n).entries;
    let others = integer_elements(es, n).others;
    assert forall|i: int| 0 <= i < n implies (#[trigger] place(es, i) matches Some(p) ==> p
        <= usize::MAX) by {
        lemma_next_place(elements@, i);
    }
    assert forall|m: int| 0 <= m < entries.len() implies value_sound((#[trigger] entries[m]).1)
        && !(entries[m].0 is Others) by {
        let i = choose|i: int| 0 <= i < n && #[trigger] given[i] == Some(entries[m]);
        assert(value_sound(es[i].1));
    }
    let form = if is_slice {
        FormModel::Slice
    } else {
        FormModel::Array
    };
    lemma_composed(form, entries, others, at, declared_type, k, later);
    let r = ValueModel::composed(form, entries, others, at, declared_type);
    assert forall|i: int|
        0 <= i < es.len() && #[trigger] place(es, i) == Some(position as nat) && !is_bare(es[i].1)
            && (forall|j: int|
            i < j < es.len() && !is_bare(es[j].1) ==> #[trigger] place(es, j) != Some(
                position as nat,
            )) implies all_tags(r.read_at(Some(k), later)) == all_tags(es[i].1) by {
        assert(given[i] == Some((k, es[i].1)));
        assert forall|j: int| i < j < n implies (#[trigger] given[j] matches Some(f) ==> f.0
            != k) by {
            if given[j] is Some {
                assert(place(es, j) != Some(position as nat));
            }
        }
        assert(is_last(given, i, n));
        let m = choose|m: int| stands_last(entries, m, given[i]->0);
        assert(stands_last(entries, m, entries[m]));
    }
    if forall|i: int|
        0 <= i < es.len() && !is_bare(es[i].1) ==> #[trigger] place(es, i) != Some(
            position as nat,
        ) {
        assert forall|m: int| 0 <= m < entries.len() implies (#[trigger] entries[m]).0 != k by {
            let i = choose|i: int| 0 <= i < n && #[trigger] given[i] == Some(entries[m]);
            assert(place(es, i) != Some(position as nat));
        }
    }
}

spec fn given_map(elements: Seq<MapElementModel>) -> Seq<Option<(KeyModel, ValueModel)>> {
    Seq::new(
        elements.len(),
        |i: int|
            match elements[i].key_const {
                Some(k) => if is_bare(elements[i].value) {
                    None
                } else {
                    Some((KeyModel::Text(k), elements[i].value))
                },
                None => None,
            },
    )
}

/// Whether an element of a map under a key that is not known brings in a tag, or
/// its key does.
pub open spec fn brings_in(e: MapElementModel, x: TagModel) -> bool {
    &&& e.key_const is None
    &&& !is_bare(e.value)
    &&& all_tags(e.value).contains(x) || (e.key_value matches Some(v) && all_tags(v).contains(x))
}

/// Whether what an element of a map and its key carry is as it should be.
pub open spec fn map_element_sound(e: MapElementModel) -> bool {
    value_sound(e.value) && (e.key_value matches Some(v) ==> value_sound(v))
}

proof fn lemma_map(elements: Seq<MapElementModel>, n: int)
    requires
        0 <= n <= elements.len(),
        forall|i: int| 0 <= i < elements.len() ==> map_element_sound(#[trigger] elements[i]),
    ensures
        map_entries(elements, n).0 == flat(given_map(elements), n),
        forall|i: int|
            0 <= i < map_entries(elements, n).1.len() ==> value_sound(
                #[trigger] map_entries(elements, n).1[i],
            ),
        forall|x: TagModel|
            #[trigger] any_tag(map_entries(elements, n).1, x) <==> exists|i: int|
                0 <= i < n && #[trigger] brings_in(elements[i], x),
    decreases n,
{
    if n > 0 {
        lemma_map(elements, n - 1);
        let before = map_entries(elements, n - 1).1;
        let now = map_entries(elements, n).1;
        let e = elements[n - 1];
        assert(map_element_sound(elements[n - 1]));
        lemma_bare(e.value);
        assert forall|i: int| 0 <= i < now.len() implies value_sound(#[trigger] now[i]) by {
            if i < before.len() {
                assert(now[i] == before[i]);
            }
        }
        assert forall|x: TagModel|
            #[trigger] any_tag(now, x) <==> (exists|i: int| 0 <= i < n && #[trigger] brings_in(elements[i], x)) by {
            if any_tag(now, x) {
                let i = choose|i: int|
                    0 <= i < now.len() && all_tags(#[trigger] now[i]).contains(x);
                if i < before.len() {
                    assert(all_tags(before[i]).contains(x));
                    assert(any_tag(before, x));
                    let j = choose|j: int| 0 <= j < n - 1 && #[trigger] brings_in(elements[j], x);
                    assert(brings_in(elements[j], x));
                } else {
                    assert(brings_in(elements[n - 1], x));
                }
            }
            if exists|i: int| 0 <= i < n && #[trigger] brings_in(elements[i], x) {
                let i = choose|i: int| 0 <= i < n && #[trigger] brings_in(elements[i], x);
                if i < n - 1 {
                    assert(any_tag(before, x));
                    let j = choose|j: int|
                        0 <= j < before.len() && all_tags(#[trigger] before[j]).contains(x);
                    assert(now[j] == before[j]);
                } else if all_tags(e.value).contains(x) {
                    assert(all_tags(now[now.len() - 1]).contains(x));
                } else {
                    assert(all_tags(now[now.len() - 2]).contains(x));
                }
            }
        }
    }
}

/// What is read from a literal of a map under a known key has the tags of the
/// element that the literal gives there, and no others. Where it gives none, it has
/// those of the elements under keys that are not known, and of these keys, and no
/// others.
pub proof fn law_mapped_elements_are_read_back(
    elements: Vec<MapElement>,
    log: LogModel,
    at: PinnedModel<Location>,
    declared_type: Option<TypeModel>,
    key: Seq<char>,
    later: PinnedModel<Location>,
)
    requires
        forall|i: int|
            0 <= i < elements@.len() ==> map_element_sound((#[trigger] elements@[i])@),
    ensures
        ({
            let es = map_elements_of(elements@);
            let r = literal_visited(log, LiteralNode::Mapping(elements), at, declared_type).1;
            let read = r.read_at(Some(KeyModel::Text(key)), later);
            &&& value_sound(r)
            &&& r.form is Mapping
            &&& forall|i: int|
                0 <= i < es.len() && (#[trigger] es[i]).key_const == Some(key) && !is_bare(
                    es[i].value,
                ) && (forall|j: int|
                    i < j < es.len() && !is_bare((#[trigger] es[j]).value) ==> es[j].key_const
                        != Some(key)) ==> all_tags(read) == all_tags(es[i].value)
            &&& (forall|i: int|
                0 <= i < es.len() && !is_bare((#[trigger] es[i]).value) ==> es[i].key_const
                    != Some(key)) ==> forall|x: TagModel|
                #[trigger] all_tags(read).contains(x) <==> exists|i: int|
                    0 <= i < es.len() && #[trigger] brings_in(es[i], x)
        }),
{
    let es = map_elements_of(elements@);
    let n = es.len() as int;
    let k = KeyModel::Text(key);
    let given = given_map(es);
    assert forall|i: int| 0 <= i < es.len() implies map_element_sound(#[trigger] es[i]) by {
        assert(es[i] == elements@[i]@);
    }
    lemma_map(es, n);
    lemma_flat(given, n);
    let (entries, others) = map_entries(es, n);
    assert forall|m: int| 0 <= m < entries.len() implies value_sound((#[trigger] entries[m]).1)
        && !(entries[m].0 is Others) by {
        let i = choose|i: int| 0 <= i < n && #[trigger] given[i] == Some(entries[m]);
        assert(map_element_sound(es[i]));
    }
    lemma_composed(FormModel::Mapping, entries, others, at, declared_type, k, later);
    let r = ValueModel::composed(FormModel::Mapping, entries, others, at, declared_type);
    assert forall|i: int|
        0 <= i < es.len() && (#[trigger] es[i]).key_const == Some(key) && !is_bare(es[i].value) && (
        forall|j: int|
            i < j < es.len() && !is_bare((#[trigger] es[j]).value) ==> es[j].key_const != Some(
                key,
            )) implies all_tags(r.read_at(Some(k), later)) == all_tags(es[i].value) by {
        assert(given[i] == Some((k, es[i].value)));
        assert forall|j: int| i < j < n implies (#[trigger] given[j] matches Some(f) ==> f.0
            != k) by {
            if given[j] is Some {
                assert(!is_bare(es[j].value));
            }
        }
        assert(is_last(given, i, n));
        let m = choose|m: int| stands_last(entries, m, given[i]->0);
        assert(stands_last(entries, m, entries[m]));
    }
    if forall|i: int|
        0 <= i < es.len() && !is_bare((#[trigger] es[i]).value) ==> es[i].key_const != Some(key) {
        assert forall|m: int| 0 <= m < entries.len() implies (#[trigger] entries[m]).0 != k by {
            let i = choose|i: int| 0 <= i < n && #[trigger] given[i] == Some(entries[m]);
            assert(!is_bare(es[i].value));
        }
    }
}

spec fn given_fields(fields: Seq<(Option<SpanModel>, ValueModel)>, leave_out: bool) -> Seq<
    Option<(KeyModel, ValueModel)>,
> {
    Seq::new(
        fields.len(),
        |i: int|
            match fields[i].0 {
                Some(id) => if leave_out && is_bare(fields[i].1) {
                    None
                } else {
                    Some((KeyModel::Text(id.content), fields[i].1))
                },
                None => None,
            },
    )
}

proof fn lemma_fields(
    log: LogModel,
    fields: Seq<(Option<SpanModel>, ValueModel)>,
    leave_out: bool,
    n: int,
)
    requires
        0 <= n <= fields.len(),
        forall|i: int| 0 <= i < fields.len() ==> value_sound((#[trigger] fields[i]).1),
    ensures
        struct_entries(log, fields, leave_out, n).1 == flat(given_fields(fields, leave_out), n),
    decreases n,
{
    if n > 0 {
        lemma_fields(log, fields, leave_out, n - 1);
        assert(value_sound(fields[n - 1].1));
        lemma_bare(fields[n - 1].1);
    }
}

proof fn lemma_struct(
    log: LogModel,
    fields: Seq<(Option<SpanModel>, ValueModel)>,
    leave_out: bool,
    at: PinnedModel<Location>,
    declared_type: Option<TypeModel>,
    i: int,
    later: PinnedModel<Location>,
)
    requires
        forall|j: int| 0 <= j < fields.len() ==> value_sound((#[trigger] fields[j]).1),
        0 <= i < fields.len(),
        fields[i].0 is Some,
        forall|j: int|
            0 <= j < fields.len() && j != i ==> ((#[trigger] fields[j]).0 matches Some(id) ==>
                id.content != fields[i].0->0.content),
    ensures
        ({
            let entries = struct_entries(log, fields, leave_out, fields.len() as int).1;
            let r = ValueModel::composed(
                FormModel::Struct,
                entries,
                Seq::<ValueModel>::empty(),
                at,
                declared_type,
            );
            &&& value_sound(r)
            &&& r.form is Struct
            &&& all_tags(
                r.read_at(Some(KeyModel::Text(fields[i].0->0.content)), later),
            ) == all_tags(fields[i].1)
        }),
{
    let n = fields.len() as int;
    let k = KeyModel::Text(fields[i].0->0.content);
    let given = given_fields(fields, leave_out);
    lemma_fields(log, fields, leave_out, n);
    lemma_flat(given, n);
    let entries = struct_entries(log, fields, leave_out, n).1;
    let none = Seq::<ValueModel>::empty();
    assert forall|m: int| 0 <= m < entries.len() implies value_sound((#[trigger] entries[m]).1)
        && !(entries[m].0 is Others) by {
        let j = choose|j: int| 0 <= j < n && #[trigger] given[j] == Some(entries[m]);
        assert(value_sound(fields[j].1));
    }
    lemma_composed(FormModel::Struct, entries, none, at, declared_type, k, later);
    let r = ValueModel::composed(FormModel::Struct, entries, none, at, declared_type);
    if given[i] is Some {
        assert forall|j: int| i < j < n implies (#[trigger] given[j] matches Some(f) ==> f.0
            != k) by {
            assert(fields[j].0 matches Some(id) ==> id.content != fields[i].0->0.content);
        }
        assert(is_last(given, i, n));
        let m = choose|m: int| stands_last(entries, m, given[i]->0);
        assert(stands_last(entries, m, entries[m]));
    } else {
        assert forall|m: int| 0 <= m < entries.len() implies (#[trigger] entries[m]).0 != k by {
            let j = choose|j: int| 0 <= j < n && #[trigger] given[j] == Some(entries[m]);
            assert(j != i);
            assert(fields[j].0 matches Some(id) ==> id.content != fields[i].0->0.content);
        }
        assert(all_tags(r.read_at(Some(k), later)) =~= Set::<TagModel>::empty());
    }
}

/// What is read from a literal of a struct under the name of a field has the tags
/// of the value that the literal gives the field, and no others.
pub proof fn law_given_fields_are_read_back(
    fields: Vec<(Option<crate::locations::Span>, Value)>,
    log: LogModel,
    at: PinnedModel<Location>,
    declared_type: Option<TypeModel>,
    i: int,
    later: PinnedModel<Location>,
)
    requires
        forall|j: int| 0 <= j < fields@.len() ==> value_sound((#[trigger] fields@[j]).1@),
        0 <= i < fields@.len(),
        fields@[i].0 is Some,
        forall|j: int|
            0 <= j < fields@.len() && j != i ==> ((#[trigger] fields@[j]).0 matches Some(id) ==>
                id@.content != fields@[i].0->0@.content),
    ensures
        ({
            let r = literal_visited(log, LiteralNode::KeyedStruct(fields), at, declared_type).1;
            &&& value_sound(r)
            &&& r.form is Struct
            &&& all_tags(
                r.read_at(Some(KeyModel::Text(fields@[i].0->0@.content)), later),
            ) == all_tags(fields@[i].1@)
        }),
{
    let fs = fields_of(fields@);
    assert forall|j: int| 0 <= j < fs.len() implies value_sound((#[trigger] fs[j]).1) by {
        assert(fs[j].1 == fields@[j].1@);
    }
    assert forall|j: int| 0 <= j < fs.len() && j != i implies ((#[trigger] fs[j]).0 matches Some(
        id,
    ) ==> id.content != fs[i].0->0.content) by {
        assert(fields@[j].0 matches Some(id) ==> id@.content != fields@[i].0->0@.content);
    }
    lemma_struct(log, fs, true, at, declared_type, i, later);
}

/// What is read from a literal of a struct that lists its values in the order in
/// which the fields are declared has, under the name of a field, the tags of the
/// value at the place of the field, and no others.
pub proof fn law_listed_fields_are_read_back(
    decls: Vec<FieldDecl>,
    values: Vec<Value>,
    log: LogModel,
    at: PinnedModel<Location>,
    declared_type: Option<TypeModel>,
    i: int,
    later: PinnedModel<Location>,
)
    requires
        forall|j: int| 0 <= j < values@.len() ==> value_sound((#[trigger] values@[j])@),
        names_for(Some(decls@), values@.len()) is Some,
        0 <= i < values@.len(),
        ({
            let names = names_for(Some(decls@), values@.len())->0;
            names[i] is Some && forall|j: int|
                0 <= j < names.len() && j != i ==> (#[trigger] names[j] matches Some(id)
                    ==> id.content != names[i]->0.content)
        }),
    ensures
        ({
            let node = LiteralNode::ListedStruct(Some(decls), values);
            let r = literal_visited(log, node, at, declared_type).1;
            let name = names_for(Some(decls@), values@.len())->0[i]->0;
            &&& value_sound(r)
            &&& r.form is Struct
            &&& all_tags(r.read_at(Some(KeyModel::Text(name.content)), later)) == all_tags(
                values@[i]@,
            )
        }),
{
    let vs = values_of(values@);
    let names = names_for(Some(decls@), values@.len())->0;
    let fields = Seq::new(vs.len(), |j: int| (names[j], vs[j]));
    assert forall|j: int| 0 <= j < fields.len() implies value_sound((#[trigger] fields[j]).1) by {
        assert(vs[j] == values@[j]@);
    }
    assert forall|j: int| 0 <= j < fields.len() && j != i implies ((
    #[trigger] fields[j]).0 matches Some(id) ==> id.content != fields[i].0->0.content) by {
        assert(names[j] matches Some(id) ==> id.content != names[i]->0.content);
    }
    lemma_struct(log, fields, false, at, declared_type, i, later);
}

/// What is read from a literal of a struct whose declaration is not known has,
/// under whatever name, the tags of all values, and no others.
pub proof fn law_unknown_fields_have_all_tags(
    values: Vec<Value>,
    log: LogModel,
    at: PinnedModel<Location>,
    declared_type: Option<TypeModel>,
    name: Seq<char>,
    later: PinnedModel<Location>,
    x: TagModel,
)
    requires
        forall|j: int| 0 <= j < values@.len() ==> value_sound((#[trigger] values@[j])@),
    ensures
        ({
            let node = LiteralNode::ListedStruct(None, values);
            let r = literal_visited(log, node, at, declared_type).1;
            &&& value_sound(r)
            &&& all_tags(r.read_at(Some(KeyModel::Text(name)), later)).contains(x) <==> any_tag(
                values_of(values@),
                x,
            )
        }),
{
    let vs = values_of(values@);
    assert forall|j: int| 0 <= j < vs.len() implies value_sound(#[trigger] vs[j]) by {
        assert(vs[j] == values@[j]@);
    }
    lemma_composed(
        FormModel::Struct,
        Seq::<(KeyModel, ValueModel)>::empty(),
        vs,
        at,
        declared_type,
        KeyModel::Text(name),
        later,
    );
}

/// The names of the fields of a struct stand in the order of their declarations:
/// where each of these gives one, a field has the name that its declaration gives.
pub proof fn law_fields_are_named_in_order(decls: Seq<FieldDecl>, i: int)
    requires
        forall|j: int|
            0 <= j < decls.len() ==> ((#[trigger] decls[j]) matches FieldDecl::Explicit(ids)
                && ids@.len() == 1),
        0 <= i < decls.len(),
    ensures
        names_for(Some(decls), decls.len()) is Some,
        names_for(Some(decls), decls.len())->0[i] == match decls[i]->Explicit_0@[0] {
            Some(id) => Some(id@),
            None => None,
        },
{
    lemma_named_in_order(decls);
}

proof fn lemma_named_in_order(decls: Seq<FieldDecl>)
    requires
        forall|j: int|
            0 <= j < decls.len() ==> ((#[trigger] decls[j]) matches FieldDecl::Explicit(ids)
                && ids@.len() == 1),
    ensures
        declared_names(decls) is Some,
        declared_names(decls)->0.len() == decls.len(),
        forall|i: int|
            0 <= i < decls.len() ==> #[trigger] declared_names(decls)->0[i] == match (
            decls[i]->Explicit_0)@[0] {
                Some(id) => Some(id@),
                None => None,
            },
    decreases decls.len(),
{
    if decls.len() > 0 {
        let front = decls.drop_last();
        assert forall|j: int| 0 <= j < front.len() implies ((#[trigger] front[j]) matches
            FieldDecl::Explicit(ids) && ids@.len() == 1) by {
            assert(front[j] == decls[j]);
        }
        lemma_named_in_order(front);
        assert(decls.last() == decls[decls.len() - 1]);
        assert forall|i: int| 0 <= i < decls.len() implies #[trigger] declared_names(decls)->0[i]
            == match (decls[i]->Explicit_0)@[0] {
            Some(id) => Some(id@),
            None => None,
        } by {
            if i < front.len() {
                assert(front[i] == decls[i]);
                assert(declared_names(decls)->0[i] == declared_names(front)->0[i]);
            }
        }
    }
}

proof fn lemma_relevant(values: Seq<ValueModel>, n: int)
    requires
        0 <= n <= values.len(),
        forall|i: int| 0 <= i < values.len() ==> value_sound(#[trigger] values[i]),
    ensures
        forall|i: int| 0 <= i < relevant(values, n).len() ==> value_sound(
            #[trigger] relevant(values, n)[i],
        ),
        forall|x: TagModel|
            #[trigger] any_tag(relevant(values, n), x) <==> exists|i: int|
                0 <= i < n && all_tags(#[trigger] values[i]).contains(x),
    decreases n,
{
    if n > 0 {
        lemma_relevant(values, n - 1);
        let before = relevant(values, n - 1);
        let now = relevant(values, n);
        assert(value_sound(values[n - 1]));
        lemma_bare(values[n - 1]);
        assert forall|i: int| 0 <= i < now.len() implies value_sound(#[trigger] now[i]) by {
            if i < before.len() {
                assert(now[i] == before[i]);
            }
        }
        assert forall|x: TagModel|
            #[trigger] any_tag(now, x) <==> exists|i: int|
                0 <= i < n && all_tags(#[trigger] values[i]).contains(x) by {
            if any_tag(now, x) {
                let i = choose|i: int| 0 <= i < now.len() && all_tags(#[trigger] now[i]).contains(x);
                if i < before.len() {
                    assert(all_tags(before[i]).contains(x));
                    assert(any_tag(before, x));
                } else {
                    assert(all_tags(values[n - 1]).contains(x));
                }
            }
            if exists|i: int| 0 <= i < n && all_tags(#[trigger] values[i]).contains(x) {
                let i = choose|i: int| 0 <= i < n && all_tags(#[trigger] values[i]).contains(x);
                if i < n - 1 {
                    assert(any_tag(before, x));
                    let j = choose|j: int|
                        0 <= j < before.len() && all_tags(#[trigger] before[j]).contains(x);
                    assert(now[j] == before[j]);
                } else {
                    assert(all_tags(now[now.len() - 1]).contains(x));
                }
            }
        }
    }
}

/// A list of elements without a type of its own has the tags of all elements, and
/// no others.
pub proof fn law_nested_elements_keep_tags(
    values: Seq<ValueModel>,
    at: PinnedModel<Location>,
    x: TagModel,
)
    requires
        forall|i: int| 0 <= i < values.len() ==> value_sound(#[trigger] values[i]),
    ensures
        value_sound(nested_value(values, at)),
        all_tags(nested_value(values, at)).contains(x) <==> any_tag(values, x),
{
    let n = values.len() as int;
    lemma_relevant(values, n);
    let kept = relevant(values, n);
    lemma_carried_by_all(kept, kept.len() as int);
    let ts = carried_by(kept, kept.len() as int);
    lemma_folded(ts, LabelBacktraceKind::Expression, at);
    lemma_simple(folded(ts, LabelBacktraceKind::Expression, None, at), at);
    assert(any_tag(kept, x) <==> any_tag(values, x));
    if kept.len() == 1 {
        if all_tags(kept[0]).contains(x) {
            assert(any_tag(kept, x));
        }
    }
}

/// Whether one of the sizes that `make` is given and makes use of has a tag: none
/// where it makes a map, and only the first one where it makes a channel.
pub open spec fn sizes_have_tag(
    kind: Option<TypeKind>,
    n: Option<ValueModel>,
    m: Option<ValueModel>,
    x: TagModel,
) -> bool {
    match kind {
        Some(TypeKind::Mapping) => false,
        Some(TypeKind::Channel) => n matches Some(v) && all_tags(v).contains(x),
        _ => (n matches Some(v) && all_tags(v).contains(x)) || (m matches Some(v) && all_tags(
            v,
        ).contains(x)),
    }
}

/// What `make` gives has the tags of the sizes that it is given, wherever it is
/// read, but for those that the policy takes away, and no others.
pub proof fn law_made_values_have_the_tags_of_their_sizes(
    ctx: ContextModel,
    t: TableModel,
    kind: Option<TypeKind>,
    n: Option<ValueModel>,
    m: Option<ValueModel>,
    declared_type: Option<TypeModel>,
    ds: Seq<DirectiveModel>,
    consts: Seq<Option<Seq<char>>>,
    location: Location,
    x: TagModel,
)
    requires
        n matches Some(v) ==> value_sound(v),
        m matches Some(v) ==> value_sound(v),
    ensures
        ({
            let node = ExprModel::Make {
                kind,
                n,
                m,
                declared_type,
                directives: ds,
                arg_consts: consts,
            };
            let r = evaluated(ctx, t, node, location).value;
            &&& value_sound(r)
            &&& all_tags(r).contains(x) <==> sizes_have_tag(kind, n, m, x) && !takes_tag(
                ds,
                consts,
                0,
                x,
            )
        }),
{
    let at = PinnedModel { file: ctx.log.file->0, inner: location };
    let v = made(kind, n, m, declared_type, at);
    if let Some(a) = n {
        law_values_carry_their_tags(a);
    }
    if let Some(b) = m {
        law_values_carry_their_tags(b);
    }
    let nothing = Seq::<(KeyModel, ValueModel)>::empty();
    let form = match kind {
        Some(TypeKind::Slice) => FormModel::Slice,
        Some(TypeKind::Mapping) => FormModel::Mapping,
        _ => FormModel::Channel,
    };
    let bare = ValueModel {
        key: KeyModel::Whole,
        form,
        own: None,
        location: at,
        declared_type,
        parts: keyed(nothing, 0),
    };
    assert(bare.parts =~= Seq::<ValueModel>::empty());
    assert(value_sound(bare));
    assert(all_tags(bare) =~= Set::<TagModel>::empty());
    let others = match kind {
        Some(TypeKind::Slice) => present(n, m),
        _ => Seq::<ValueModel>::empty(),
    };
    assert forall|i: int| 0 <= i < others.len() implies value_sound(#[trigger] others[i]) by {}
    lemma_carried_by_all(others, others.len() as int);
    let ts = carried_by(others, others.len() as int);
    lemma_folded(ts, LabelBacktraceKind::Expression, at);
    let flow = folded(ts, LabelBacktraceKind::Expression, None, at);
    lemma_with_others(bare, flow, at);
    let composed = ValueModel::composed(form, nothing, others, at, declared_type);
    assert(composed == bare.with_others(flow, at));
    if kind == Some(TypeKind::Slice) {
        assert(any_tag(others, x) <==> sizes_have_tag(kind, n, m, x)) by {
            if let Some(a) = n {
                assert(others[0] == a);
            }
            if let Some(b) = m {
                assert(others[others.len() - 1] == b);
            }
        }
        assert(all_tags(v).contains(x) <==> any_tag(others, x));
    } else if kind == Some(TypeKind::Mapping) {
        assert(!any_tag(others, x));
    } else if kind == Some(TypeKind::Channel) {
        assert(!any_tag(others, x));
        lemma_with_others(composed, optional_flow(n), at);
    } else {
        lemma_combined(optional_flow(n), optional_flow(m), LabelBacktraceKind::Expression, at);
        let sum = combined(
            optional_flow(n),
            optional_flow(m),
            LabelBacktraceKind::Expression,
            at,
        );
        lemma_simple(sum, at);
        lemma_parts_of(ValueModel::simple(sum, at), v, 0);
    }
    law_revocations_relieve_results(seq![v], ds, consts, 0);
}

/// A conversion keeps the tags of what is converted, as a whole and of each part.
pub proof fn law_conversions_keep_tags(
    v: ValueModel,
    target: Option<TypeModel>,
    at: PinnedModel<Location>,
)
    requires
        value_sound(v),
    ensures
        value_sound(converted(seq![v], target, at)),
        all_tags(converted(seq![v], target, at)) == all_tags(v),
        label_or_bottom(converted(seq![v], target, at).own) == label_or_bottom(v.own),
        converted(seq![v], target, at).parts == v.parts,
        converted(seq![v], target, at).form == v.form,
        converted(seq![v], target, at).declared_type == target,
{
    let r = converted(seq![v], target, at);
    lemma_parts_of(v, r, v.parts.len() as int);
    assert(all_tags(r) =~= all_tags(v));
}

} // verus!
