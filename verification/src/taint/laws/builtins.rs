//! What holds of the labels of what predeclared functions give and write.

use vstd::prelude::*;

use crate::errors::ErrorModel;
use crate::labels::backtraces::{combined, label_or_bottom, listed, LabelBacktraceKind, Trace};
use crate::labels::tags::TagModel;
use crate::labels::trace_laws::sound;
use crate::locations::{Location, PinnedModel};
use crate::taint::funcs::builtins::{appended, builtin_called, copied_into, BuiltinKind};
use crate::taint::laws::expressions::{lemma_one, lemma_simple};
use crate::taint::laws::lemma_parts_of;
use crate::values::laws::{all_tags, law_nesting_adds_tags, law_values_carry_their_tags,
    lemma_combined, value_sound};
use crate::values::part_laws::{law_reads_have_the_tags_of_the_part, law_tags_are_somewhere,
    law_writes_keep_tags, lemma_with_others};
use crate::values::{carried, lemma_part_index, lemma_part_index_is, part_index, FormModel,
    KeyModel, ValueModel};

verus! {

/// Whether what the arguments of a call carry is as it should be.
pub open spec fn args_sound(args: Seq<ValueModel>) -> bool {
    forall|i: int| 0 <= i < args.len() ==> value_sound(#[trigger] args[i])
}

pub proof fn lemma_others(v: ValueModel, flow: Option<Trace>, at: PinnedModel<Location>, k: KeyModel)
    requires
        value_sound(v),
        flow matches Some(t) ==> sound(t),
        !(k is Others),
    ensures
        ({
            let w = v.with_others(flow, at);
            let p = part_index(w.parts, k);
            &&& w.own == v.own
            &&& w.form == v.form
            &&& w.others() matches Some(t) ==> sound(t)
            &&& label_or_bottom(w.others()) == label_or_bottom(v.others()).union(
                label_or_bottom(flow),
            )
            &&& p < w.parts.len() <==> part_index(v.parts, k) < v.parts.len()
            &&& p < w.parts.len() ==> w.parts[p] == v.parts[part_index(v.parts, k)]
        }),
{
    let w = v.with_others(flow, at);
    let o = part_index(v.parts, KeyModel::Others);
    let q = part_index(v.parts, k);
    lemma_part_index(v.parts, KeyModel::Others);
    lemma_part_index(v.parts, k);
    lemma_part_index(w.parts, k);
    if o < v.parts.len() {
        assert(value_sound(v.parts[o]));
        law_values_carry_their_tags(v.parts[o]);
    }
    if flow is Some {
        lemma_combined(v.others(), flow, LabelBacktraceKind::Expression, at);
        let sum = combined(v.others(), flow, LabelBacktraceKind::Expression, at);
        lemma_simple(sum, at);
        assert forall|i: int| 0 <= i < o implies (#[trigger] w.parts[i]).key != KeyModel::Others by {
            assert(v.parts[i].key != KeyModel::Others);
        }
        lemma_part_index_is(w.parts, KeyModel::Others, o);
        lemma_parts_of(ValueModel::simple(sum, at), w.parts[o], 0);
        law_values_carry_their_tags(w.parts[o]);
        if q < v.parts.len() {
            assert(q != o);
            assert forall|i: int| 0 <= i < q implies (#[trigger] w.parts[i]).key != k by {
                if i != o {
                    assert(w.parts[i] == v.parts[i]);
                }
            }
            lemma_part_index_is(w.parts, k, q);
        } else {
            assert forall|i: int| 0 <= i < w.parts.len() implies (#[trigger] w.parts[i]).key
                != k by {
                if i != o {
                    assert(w.parts[i] == v.parts[i]);
                }
            }
            lemma_part_index_is(w.parts, k, w.parts.len() as int);
        }
    } else {
        assert(label_or_bottom(w.others()) =~= label_or_bottom(v.others()).union(
            label_or_bottom(flow),
        ));
    }
}

proof fn lemma_appended(
    args: Seq<ValueModel>,
    at: PinnedModel<Location>,
    k: KeyModel,
    n: int,
)
    requires
        args_sound(args),
        1 <= n <= args.len(),
        !(k is Others),
    ensures
        ({
            let slice = args[0];
            let r = appended(slice, args, at, n);
            let p = part_index(r.parts, k);
            &&& value_sound(r)
            &&& r.form is Slice
            &&& r.own == slice.own
            &&& forall|x: TagModel|
                #[trigger] all_tags(r).contains(x) <==> exists|i: int|
                    0 <= i < n && all_tags(#[trigger] args[i]).contains(x)
            &&& p < r.parts.len() <==> part_index(slice.parts, k) < slice.parts.len()
            &&& p < r.parts.len() ==> r.parts[p] == slice.parts[part_index(slice.parts, k)]
            &&& r.others() matches Some(t) ==> sound(t)
            &&& forall|x: TagModel, i: int|
                1 <= i < n && #[trigger] all_tags(args[i]).contains(x) ==> label_or_bottom(
                    r.others(),
                ).contains(x)
        }),
    decreases n,
{
    let slice = args[0];
    let r = appended(slice, args, at, n);
    assert(value_sound(args[0]));
    if n <= 1 {
        lemma_parts_of(slice, r, slice.parts.len() as int);
        assert(all_tags(r) =~= all_tags(slice));
        let o = part_index(r.parts, KeyModel::Others);
        lemma_part_index(r.parts, KeyModel::Others);
        lemma_part_index(r.parts, k);
        if o < r.parts.len() {
            assert(value_sound(slice.parts[o]));
            law_values_carry_their_tags(r.parts[o]);
        }
        assert forall|x: TagModel|
            #[trigger] all_tags(r).contains(x) <==> exists|i: int|
                0 <= i < n && all_tags(#[trigger] args[i]).contains(x) by {
            if all_tags(r).contains(x) {
                assert(all_tags(args[0]).contains(x));
            }
        }
    } else {
        lemma_appended(args, at, k, n - 1);
        let before = appended(slice, args, at, n - 1);
        assert(value_sound(args[n - 1]));
        law_values_carry_their_tags(args[n - 1]);
        let flow = carried(args[n - 1]);
        lemma_with_others(before, flow, at);
        lemma_others(before, flow, at, k);
        assert forall|x: TagModel|
            #[trigger] all_tags(r).contains(x) <==> exists|i: int|
                0 <= i < n && all_tags(#[trigger] args[i]).contains(x) by {
            if all_tags(r).contains(x) {
                if all_tags(before).contains(x) {
                    let i = choose|i: int|
                        0 <= i < n - 1 && all_tags(#[trigger] args[i]).contains(x);
                    assert(all_tags(args[i]).contains(x));
                } else {
                    assert(all_tags(args[n - 1]).contains(x));
                }
            }
            if exists|i: int| 0 <= i < n && all_tags(#[trigger] args[i]).contains(x) {
                let i = choose|i: int| 0 <= i < n && all_tags(#[trigger] args[i]).contains(x);
                if i < n - 1 {
                    assert(all_tags(before).contains(x));
                }
            }
        }
    }
}

/// The slice that `append` gives has the tags of the slice that it is given and of
/// all elements, and no others. What is read from it at a position that was told
/// apart before has the tags that it had there; at any other one, it has the tags
/// of all elements that were appended.
pub proof fn law_appended_elements_keep_tags(
    args: Seq<ValueModel>,
    variadic: bool,
    branch: Option<Trace>,
    at: PinnedModel<Location>,
    later: PinnedModel<Location>,
    position: usize,
    x: TagModel,
)
    requires
        args_sound(args),
        if variadic {
            args.len() == 2
        } else {
            args.len() >= 2
        },
        args[0].form is Simple || args[0].form is Slice,
    ensures
        ({
            let m = builtin_called(BuiltinKind::Append { variadic }, args, branch, at);
            let k = KeyModel::Index(position);
            let r = m.results[0];
            let told_apart = exists|p: int|
                0 <= p < args[0].parts.len() && (#[trigger] args[0].parts[p]).key == k;
            &&& m.fault is None
            &&& m.written is None
            &&& m.results.len() == 1
            &&& value_sound(r)
            &&& all_tags(r).contains(x) <==> exists|i: int|
                0 <= i < args.len() && all_tags(#[trigger] args[i]).contains(x)
            &&& told_apart ==> all_tags(r.read_at(Some(k), later)) == all_tags(
                args[0].read_at(Some(k), later),
            )
            &&& !told_apart ==> forall|i: int|
                1 <= i < args.len() && all_tags(#[trigger] args[i]).contains(x) ==> all_tags(
                    r.read_at(Some(k), later),
                ).contains(x)
        }),
{
    let k = KeyModel::Index(position);
    let slice = args[0];
    let n = args.len() as int;
    let r = appended(slice, args, at, n);
    lemma_appended(args, at, k, n);
    assert(value_sound(slice));
    lemma_part_index(slice.parts, k);
    lemma_part_index(r.parts, k);
    lemma_part_index(r.parts, KeyModel::Others);
    law_reads_have_the_tags_of_the_part(r, Some(k), later);
    law_reads_have_the_tags_of_the_part(slice, Some(k), later);
    let p = part_index(slice.parts, k);
    let q = part_index(r.parts, k);
    let o = part_index(r.parts, KeyModel::Others);
    if exists|j: int| 0 <= j < slice.parts.len() && (#[trigger] slice.parts[j]).key == k {
        assert(p < slice.parts.len());
        assert(q < r.parts.len());
        assert(r.parts[q].key == k);
        assert(slice.parts[p].key == k);
    } else {
        assert(p >= slice.parts.len());
        assert(q >= r.parts.len());
        assert forall|i: int| 1 <= i < n && all_tags(#[trigger] args[i]).contains(x) implies
            all_tags(r.read_at(Some(k), later)).contains(x) by {
            assert(label_or_bottom(r.others()).contains(x));
            assert(o < r.parts.len());
            assert(value_sound(r.parts[o]));
            law_values_carry_their_tags(r.parts[o]);
            assert(r.parts[o].key is Others);
            assert forall|j: int| 0 <= j < o implies !((#[trigger] r.parts[j]).key is Others) by {
                assert(r.parts[j].key != KeyModel::Others);
            }
        }
    }
}

proof fn lemma_blurred(v: ValueModel, form: FormModel, at: PinnedModel<Location>)
    requires
        value_sound(v),
    ensures
        ({
            let w = v.blurred(form, at);
            &&& value_sound(w)
            &&& all_tags(w) == all_tags(v)
            &&& w.own is None
            &&& w.form == form
            &&& forall|i: int| 0 <= i < w.parts.len() ==> (#[trigger] w.parts[i]).key is Others
        }),
{
    let bare = ValueModel { form, own: None, parts: Seq::<ValueModel>::empty(), ..v };
    law_values_carry_their_tags(v);
    assert(all_tags(bare) =~= Set::<TagModel>::empty());
    lemma_with_others(bare, carried(v), at);
    lemma_part_index(bare.parts, KeyModel::Others);
    assert(all_tags(v.blurred(form, at)) =~= all_tags(v));
}

proof fn lemma_read_blurred(v: ValueModel, key: KeyModel, at: PinnedModel<Location>)
    requires
        value_sound(v),
        v.own is None,
        v.parts.len() <= 1,
        forall|i: int| 0 <= i < v.parts.len() ==> (#[trigger] v.parts[i]).key is Others,
    ensures
        all_tags(v.read_at(Some(key), at)) == all_tags(v),
{
    law_reads_have_the_tags_of_the_part(v, Some(key), at);
    assert forall|x: TagModel| all_tags(v.read_at(Some(key), at)).contains(x) == all_tags(
        v,
    ).contains(x) by {
        law_tags_are_somewhere(v, x);
        if v.parts.len() == 1 {
            assert(v.parts[0].key is Others);
        }
    }
    assert(all_tags(v.read_at(Some(key), at)) =~= all_tags(v));
}

/// The slice to which `copy` copies has the tags that it had and those of what is
/// copied, wherever it is read; so has the number of elements. Neither has any
/// others.
pub proof fn law_copied_elements_keep_tags(
    dst: ValueModel,
    src: ValueModel,
    branch: Option<Trace>,
    at: PinnedModel<Location>,
    later: PinnedModel<Location>,
    position: usize,
)
    requires
        value_sound(dst),
        value_sound(src),
        dst.form is Simple || dst.form is Slice,
    ensures
        ({
            let m = builtin_called(BuiltinKind::Copy, seq![dst, src], branch, at);
            let both = all_tags(dst).union(all_tags(src));
            &&& m.fault is None
            &&& m.results.len() == 1
            &&& all_tags(m.results[0]) == both
            &&& m.written matches Some(w) && value_sound(w) && all_tags(w) == both && all_tags(
                w.read_at(Some(KeyModel::Index(position)), later),
            ) == both
        }),
{
    law_values_carry_their_tags(dst);
    law_values_carry_their_tags(src);
    lemma_combined(carried(dst), carried(src), LabelBacktraceKind::Expression, at);
    lemma_simple(combined(carried(dst), carried(src), LabelBacktraceKind::Expression, at), at);
    let bare = dst.blurred(FormModel::Slice, at);
    lemma_blurred(dst, FormModel::Slice, at);
    lemma_with_others(bare, carried(src), at);
    let w = copied_into(dst, src, at);
    assert(all_tags(w) =~= all_tags(dst).union(all_tags(src)));
    lemma_part_index(bare.parts, KeyModel::Others);
    assert(bare.parts.len() <= 1);
    if bare.parts.len() == 1 {
        assert(bare.parts[0].key is Others);
        lemma_part_index_is(bare.parts, KeyModel::Others, 0);
    }
    lemma_read_blurred(w, KeyModel::Index(position), later);
}

/// What is cleared keeps its tags if it may be a slice, and loses them if it is a
/// map. Nothing else can be cleared: that is reported.
pub proof fn law_cleared_values(
    v: ValueModel,
    branch: Option<Trace>,
    at: PinnedModel<Location>,
)
    requires
        value_sound(v),
    ensures
        ({
            let m = builtin_called(BuiltinKind::Clear, seq![v], branch, at);
            let slice = v.form is Simple || v.form is Slice;
            &&& m.results.len() == 0
            &&& v.form is Mapping || slice <==> m.written is Some
            &&& v.form is Mapping || slice <==> m.fault is None
            &&& m.fault matches Some(e) ==> e == (ErrorModel::UnexpectedBuiltInArgShape {
                location: at.inner,
            })
            &&& v.form is Mapping ==> all_tags(m.written->0) == Set::<TagModel>::empty()
            &&& slice ==> all_tags(m.written->0) == all_tags(v)
        }),
{
    lemma_blurred(v, FormModel::Slice, at);
    lemma_simple(None, at);
}

/// A channel that is closed has the tags that it had and those of the branch under
/// which that is done, and no others.
pub proof fn law_closed_channels_have_the_tags_of_the_branch(
    v: ValueModel,
    branch: Option<Trace>,
    at: PinnedModel<Location>,
)
    requires
        value_sound(v),
        v.form is Simple || v.form is Channel,
        branch matches Some(t) ==> sound(t),
    ensures
        ({
            let m = builtin_called(BuiltinKind::Close, seq![v], branch, at);
            &&& m.fault is None
            &&& m.results.len() == 0
            &&& m.written matches Some(w) && value_sound(w) && all_tags(w) == all_tags(v).union(
                label_or_bottom(branch),
            )
        }),
{
    let open = ValueModel { form: FormModel::Channel, ..v };
    lemma_parts_of(v, open, v.parts.len() as int);
    assert(all_tags(open) =~= all_tags(v));
    assert(value_sound(open));
    if let Some(t) = branch {
        lemma_one(branch);
        assert(listed(branch) =~= seq![t]);
        law_nesting_adds_tags(open, LabelBacktraceKind::Branch, None, at, listed(branch));
    } else {
        assert(all_tags(v) =~= all_tags(v).union(label_or_bottom(branch)));
    }
}

/// Once an element is deleted from a map, what is read there has the tags of the
/// key, and only these and those that the map has as a whole. If it is not known
/// which element that is, the map keeps all its tags.
pub proof fn law_deleted_elements_lose_their_tags(
    map: ValueModel,
    key: Option<KeyModel>,
    key_value: ValueModel,
    branch: Option<Trace>,
    at: PinnedModel<Location>,
    later: PinnedModel<Location>,
)
    requires
        value_sound(map),
        value_sound(key_value),
        map.form is Simple || map.form is Mapping,
    ensures
        ({
            let m = builtin_called(BuiltinKind::Delete { key }, seq![map, key_value], branch, at);
            &&& m.fault is None
            &&& m.results.len() == 0
            &&& m.written matches Some(w) && {
                &&& value_sound(w)
                &&& key is Some ==> all_tags(w.read_at(key, later)) == label_or_bottom(
                    map.own,
                ).union(all_tags(key_value))
                &&& key is None ==> all_tags(w) == all_tags(map).union(all_tags(key_value))
            }
        }),
{
    let flow = carried(key_value);
    law_values_carry_their_tags(key_value);
    let nothing = ValueModel::simple(None, at);
    lemma_simple(None, at);
    law_writes_keep_tags(map, FormModel::Mapping, key, nothing, flow, at, later);
    let w = map.written_at(FormModel::Mapping, key, nothing, flow, at);
    law_reads_have_the_tags_of_the_part(w, key, later);
    lemma_one(flow);
    match key {
        Some(k) => {
            let p = part_index(map.parts, k);
            lemma_part_index(map.parts, k);
            assert forall|i: int| 0 <= i < p implies (#[trigger] w.parts[i]).key != k by {
                assert(map.parts[i].key != k);
            }
            if let Some(t) = flow {
                assert(listed(flow) =~= seq![t]);
                law_nesting_adds_tags(
                    nothing,
                    LabelBacktraceKind::Expression,
                    None,
                    at,
                    listed(flow),
                );
            }
            let put = match flow {
                Some(t) => nothing.nesting(LabelBacktraceKind::Expression, None, at, seq![t]),
                None => nothing,
            };
            assert(all_tags(put) =~= all_tags(key_value));
            assert(w.parts[p] == (ValueModel { key: k, ..put }));
            lemma_parts_of(put, w.parts[p], put.parts.len() as int);
            assert(all_tags(w.parts[p]) =~= all_tags(put));
            assert(w.parts[p].key == k);
            assert(all_tags(w.read_at(key, later)) =~= label_or_bottom(map.own).union(
                all_tags(key_value),
            ));
        },
        None => {
            let shaped = ValueModel { form: FormModel::Mapping, ..map };
            lemma_parts_of(map, shaped, map.parts.len() as int);
            assert(all_tags(shaped) =~= all_tags(map));
            assert(carried(nothing) is None) by {
                law_values_carry_their_tags(nothing);
                assert(label_or_bottom(carried(nothing)) =~= Set::<TagModel>::empty());
            }
            assert(listed(carried(nothing)) + listed(flow) =~= listed(flow));
            crate::taint::laws::expressions::lemma_folded(
                listed(flow),
                LabelBacktraceKind::Expression,
                at,
            );
            let more = crate::labels::backtraces::folded(
                listed(flow),
                LabelBacktraceKind::Expression,
                None,
                at,
            );
            lemma_with_others(shaped, more, at);
            assert(all_tags(w) =~= all_tags(map).union(all_tags(key_value)));
        },
    }
}

/// The length of a value has the tags of the value, and no others.
pub proof fn law_lengths_have_the_tags_of_the_value(
    v: ValueModel,
    branch: Option<Trace>,
    at: PinnedModel<Location>,
)
    requires
        value_sound(v),
    ensures
        ({
            let m = builtin_called(BuiltinKind::Len, seq![v], branch, at);
            &&& m.fault is None
            &&& m.written is None
            &&& m.results.len() == 1
            &&& all_tags(m.results[0]) == all_tags(v)
        }),
{
    law_values_carry_their_tags(v);
    lemma_simple(carried(v), at);
}

/// The number of arguments that a predeclared function needs, and whether it takes
/// more of them.
pub open spec fn wanted(which: BuiltinKind) -> (usize, bool) {
    match which {
        BuiltinKind::Append { variadic } => (2, !variadic),
        BuiltinKind::Copy | BuiltinKind::Delete { .. } => (2, false),
        BuiltinKind::Clear | BuiltinKind::Close | BuiltinKind::Len => (1, false),
    }
}

/// A call of a predeclared function with too few arguments writes nothing and
/// gives nothing that has tags, and is reported with both numbers; so is one with
/// too many, as far as the arguments are of the right shape.
pub proof fn law_miscounted_arguments_are_reported(
    which: BuiltinKind,
    args: Seq<ValueModel>,
    branch: Option<Trace>,
    at: PinnedModel<Location>,
)
    requires
        args.len() <= usize::MAX,
    ensures
        ({
            let m = builtin_called(which, args, branch, at);
            let (expected, more) = wanted(which);
            let wrong = args.len() < expected || args.len() > expected && !more && (
            which is Append ==> args[0].form is Simple || args[0].form is Slice);
            let report = Some(
                ErrorModel::IncorrectCallCardinality {
                    expected,
                    found: args.len() as usize,
                    location: at.inner,
                },
            );
            &&& wrong <==> m.fault == report
            &&& m.fault is Some ==> m.written is None
            &&& wrong ==> forall|i: int|
                0 <= i < m.results.len() ==> all_tags(#[trigger] m.results[i]) == Set::<
                    TagModel,
                >::empty()
        }),
{
    lemma_simple(None, at);
}

} // verus!
