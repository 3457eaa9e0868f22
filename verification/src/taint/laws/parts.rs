//! What holds of flows into and out of parts of values.

use vstd::prelude::*;

use crate::context::ContextModel;
use crate::errors::ErrorModel;
use crate::labels::backtraces::{label_or_bottom, Trace};
use crate::labels::tags::TagModel;
use crate::labels::trace_laws::sound;
use crate::labels::{covers, within};
use crate::locations::{Location, PinnedModel};
use crate::policy::targets::position;
use crate::policy::{law_sinks_accept_less, SinkModel};
use crate::symbols::table::TableModel;
use crate::symbols::SymbolModel;
use crate::taint::enforcement::{aggregated, is_open, sink_triggered};
use crate::taint::exprs::component::{indexed, key_of_index};
use crate::taint::laws::{law_assignments_carry_tags, law_sinks_report_values, written_tags};
use crate::taint::mutation::{AssignmentModel, LeftModel, StepModel};
use crate::values::composites::law_writes_stay_apart;
use crate::values::laws::{all_tags, law_merging_keeps_tags, law_values_carry_their_tags,
    value_sound};
use crate::values::part_laws::{law_reads_have_the_tags_of_the_part, law_writes_along_paths_keep_tags,
    law_writes_keep_tags, lemma_merged_is_richer, lemma_richer_along, lemma_richer_same,
    lemma_richer_tags, path_sound, path_tags};
use crate::values::{carried, lemma_part_index_is, merged, FormModel, KeyModel, ValueModel};

verus! {

proof fn lemma_written(
    a: AssignmentModel,
    current: ValueModel,
    left: LeftModel,
    branch: Option<Trace>,
    at: PinnedModel<Location>,
    s: SymbolModel,
)
    requires
        value_sound(a.rhs),
        value_sound(current),
        a.explicit matches Some(t) ==> sound(t),
        branch matches Some(t) ==> sound(t),
    ensures
        value_sound(a.written(current, left.name.content, branch, at)),
        all_tags(a.written(current, left.name.content, branch, at)) == written_tags(
            a,
            current,
            branch,
        ),
{
    let b = AssignmentModel { outside_split: false, ..a };
    let whole = LeftModel { path: Seq::<StepModel>::empty(), ..left };
    let symbol = SymbolModel { value: current, ..s };
    law_assignments_carry_tags(b, symbol, whole, branch, at);
    assert(b.applied(symbol, whole, branch, at).value == b.written(
        current,
        left.name.content,
        branch,
        at,
    ));
    assert(b.written(current, left.name.content, branch, at) == a.written(
        current,
        left.name.content,
        branch,
        at,
    ));
    assert(written_tags(b, current, branch) == written_tags(a, current, branch));
}

/// Whether an assignment, and where it is made, are as they should be.
pub open spec fn assignment_sound(
    a: AssignmentModel,
    ctx: ContextModel,
    t: TableModel,
    left: LeftModel,
) -> bool {
    &&& left.symbol < t.symbols.len()
    &&& value_sound(a.rhs)
    &&& value_sound(t.symbols[left.symbol as int].value)
    &&& a.explicit matches Some(x) ==> sound(x)
    &&& ctx.branches.current() matches Some(x) ==> sound(x)
    &&& path_sound(left.path)
}

/// After an assignment to a variable, or to a part of one along any path, what is
/// read back along the path has all tags of the value that was assigned, all that
/// an annotation added, and all of the branch under which the assignment was made,
/// but for those that an annotation takes away. One that keeps the old value, as
/// `+=` does, or one to a variable that is declared outside of the branches that
/// are being visited, leaves the tags that were there before. Nothing but these
/// tags and those of the keys on the way is added to the variable, and no other
/// variable changes.
pub proof fn law_assigned_parts_carry_tags(
    a: AssignmentModel,
    ctx: ContextModel,
    t: TableModel,
    left: LeftModel,
    later: PinnedModel<Location>,
)
    requires
        assignment_sound(a, ctx, t, left),
        t.symbols[left.symbol as int].mutable,
        t.symbols[left.symbol as int].value.has_path(
            left.path,
            PinnedModel { file: ctx.log.file->0, inner: a.location },
        ),
    ensures
        ({
            let old_value = t.symbols[left.symbol as int].value;
            let new = a.assigned(ctx, t, left);
            let now = new.symbols[left.symbol as int].value;
            let part = now.read_along(left.path, later);
            let branch = label_or_bottom(ctx.branches.current());
            let before = all_tags(old_value.read_along(left.path, later));
            &&& value_sound(now)
            &&& value_sound(part)
            &&& forall|x: TagModel| #[trigger]
                branch.contains(x) && !covers(a.subtract, x) ==> all_tags(part).contains(x)
            &&& forall|x: TagModel| #[trigger]
                all_tags(a.rhs).contains(x) && !covers(a.subtract, x) ==> all_tags(part).contains(
                    x,
                )
            &&& forall|x: TagModel| #[trigger]
                label_or_bottom(a.explicit).contains(x) && !covers(a.subtract, x) ==> all_tags(
                    part,
                ).contains(x)
            &&& !a.simple ==> forall|x: TagModel| #[trigger]
                before.contains(x) && !covers(a.subtract, x) ==> all_tags(part).contains(x)
            &&& a.outside_split ==> before.subset_of(all_tags(part))
            &&& all_tags(now).subset_of(
                all_tags(old_value).union(all_tags(a.rhs)).union(
                    label_or_bottom(a.explicit),
                ).union(branch).union(path_tags(left.path)),
            )
            &&& new.symbols.len() == t.symbols.len()
            &&& forall|i: int|
                0 <= i < t.symbols.len() && i != left.symbol ==> (#[trigger] new.symbols[i])
                    == t.symbols[i]
        }),
{
    let s = t.symbols[left.symbol as int];
    let at = PinnedModel { file: ctx.log.file->0, inner: a.location };
    let branch = ctx.branches.current();
    let current = s.value.read_along(left.path, at);
    lemma_richer_same(s.value, s.value);
    lemma_richer_along(s.value, s.value, left.path, at, later);
    lemma_richer_along(s.value, s.value, left.path, later, at);
    lemma_written(a, current, left, branch, at, s);
    let w = a.written(current, left.name.content, branch, at);
    let wrote = s.value.written_along(left.path, w, at);
    law_writes_along_paths_keep_tags(s.value, left.path, w, at, later);
    let now = a.assigned(ctx, t, left).symbols[left.symbol as int].value;
    assert(now == a.applied(s, left, branch, at).value);
    let part = now.read_along(left.path, later);
    if a.outside_split {
        assert(now == merged(s.value, wrote, a.kind, at));
        law_merging_keeps_tags(s.value, wrote, a.kind, at);
        lemma_merged_is_richer(s.value, wrote, a.kind, at);
        lemma_richer_along(now, wrote, left.path, later, later);
        lemma_richer_along(now, s.value, left.path, later, later);
    }
    assert(all_tags(w).subset_of(all_tags(part)));
    assert forall|x: TagModel| #[trigger]
        label_or_bottom(branch).contains(x) && !covers(a.subtract, x) implies all_tags(
        part,
    ).contains(x) by {
        assert(written_tags(a, current, branch).contains(x));
    }
    assert forall|x: TagModel| #[trigger]
        all_tags(a.rhs).contains(x) && !covers(a.subtract, x) implies all_tags(part).contains(x) by {
        assert(written_tags(a, current, branch).contains(x));
    }
    assert forall|x: TagModel| #[trigger]
        label_or_bottom(a.explicit).contains(x) && !covers(a.subtract, x) implies all_tags(
        part,
    ).contains(x) by {
        assert(written_tags(a, current, branch).contains(x));
    }
    if !a.simple {
        assert forall|x: TagModel| #[trigger]
            all_tags(s.value.read_along(left.path, later)).contains(x) && !covers(
                a.subtract,
                x,
            ) implies all_tags(part).contains(x) by {
            assert(all_tags(current).contains(x));
            assert(written_tags(a, current, branch).contains(x));
        }
    }
    assert(all_tags(current).subset_of(all_tags(s.value)));
    assert forall|x: TagModel| all_tags(now).contains(x) implies all_tags(s.value).union(
        all_tags(a.rhs),
    ).union(label_or_bottom(a.explicit)).union(label_or_bottom(branch)).union(
        path_tags(left.path),
    ).contains(x) by {
        if all_tags(w).contains(x) {
            assert(written_tags(a, current, branch).contains(x));
        }
    }
}

/// An assignment to something that cannot change, or that has no such part, is
/// reported, and leaves everything as it was. No other one is.
pub proof fn law_impossible_assignments_are_reported(
    a: AssignmentModel,
    ctx: ContextModel,
    t: TableModel,
    left: LeftModel,
)
    requires
        ctx.log.listens(),
        ctx.log.file is Some,
        left.symbol < t.symbols.len(),
    ensures
        ({
            let s = t.symbols[left.symbol as int];
            let at = PinnedModel { file: ctx.log.file->0, inner: a.location };
            let after = a.reported(ctx, t, left).log.errors;
            &&& s.mutable && s.value.has_path(left.path, at) ==> a.reported(ctx, t, left) == ctx
            &&& !s.mutable ==> after.len() == ctx.log.errors.len() + 1 && after.last().kind
                == (ErrorModel::ImmutableLeftValue { symbol: left.name }) && a.assigned(
                ctx,
                t,
                left,
            ) == t
            &&& s.mutable && !s.value.has_path(left.path, at) ==> after.len()
                == ctx.log.errors.len() + 1 && after.last().kind
                == (ErrorModel::InvalidLeftValue { location: a.location }) && a.assigned(
                ctx,
                t,
                left,
            ) == t
        }),
{
}

/// What is assigned to a part, or decides whether something is, does not leave it
/// unnoticed: where the part is read back and reaches a sink that does not accept
/// the tags of the one, or of the other, that is reported, unless it depends on a
/// call.
pub proof fn law_flows_through_parts_are_reported(
    a: AssignmentModel,
    ctx: ContextModel,
    t: TableModel,
    left: LeftModel,
    later: PinnedModel<Location>,
    there: ContextModel,
    sink: SinkModel,
)
    requires
        assignment_sound(a, ctx, t, left),
        t.symbols[left.symbol as int].mutable,
        t.symbols[left.symbol as int].value.has_path(
            left.path,
            PinnedModel { file: ctx.log.file->0, inner: a.location },
        ),
        a.subtract == Set::<TagModel>::empty(),
        there.log.listens(),
        there.log.file is Some,
        there.branches.current() matches Some(x) ==> sound(x),
        !sink.accepts(all_tags(a.rhs)) || !sink.accepts(label_or_bottom(ctx.branches.current())),
        !is_open(
            aggregated(
                there,
                carried(
                    a.assigned(ctx, t, left).symbols[left.symbol as int].value.read_along(
                        left.path,
                        later,
                    ),
                ),
                sink.location,
            ),
        ),
    ensures
        sink_triggered(
            there,
            sink,
            carried(
                a.assigned(ctx, t, left).symbols[left.symbol as int].value.read_along(
                    left.path,
                    later,
                ),
            ),
        ).log.errors.len() > there.log.errors.len(),
{
    law_assigned_parts_carry_tags(a, ctx, t, left, later);
    let part = a.assigned(ctx, t, left).symbols[left.symbol as int].value.read_along(
        left.path,
        later,
    );
    let branch = label_or_bottom(ctx.branches.current());
    assert forall|x: TagModel| #[trigger] all_tags(a.rhs).contains(x) implies covers(
        all_tags(part),
        x,
    ) by {
        assert(!covers(a.subtract, x));
    }
    assert forall|x: TagModel| #[trigger] branch.contains(x) implies covers(all_tags(part), x) by {
        assert(!covers(a.subtract, x));
    }
    assert(within(all_tags(a.rhs), all_tags(part)));
    assert(within(branch, all_tags(part)));
    if sink.accepts(all_tags(part)) {
        law_sinks_accept_less(sink, all_tags(a.rhs), all_tags(part));
        law_sinks_accept_less(sink, branch, all_tags(part));
    }
    law_sinks_report_values(there, sink, part);
}

proof fn lemma_moved(v: ValueModel, w: ValueModel)
    requires
        v.parts == w.parts,
        v.own == w.own,
        value_sound(w),
    ensures
        value_sound(v),
        all_tags(v) == all_tags(w),
{
    assert forall|i: int| 0 <= i < v.parts.len() implies value_sound(#[trigger] v.parts[i]) by {
        assert(value_sound(w.parts[i]));
    }
    lemma_richer_same(v, w);
    lemma_richer_same(w, v);
    lemma_richer_tags(v, w);
    lemma_richer_tags(w, v);
    assert(all_tags(v) =~= all_tags(w));
}

/// Where one value is expected, an element is what is read at its key; where two
/// are, as of a map, the second, which tells whether the element is there, has the
/// same tags.
proof fn lemma_indexed(base: ValueModel, index: Option<Seq<char>>, at: PinnedModel<Location>)
    requires
        value_sound(base),
    ensures
        ({
            let element = base.read_at(key_of_index(base.form, index), at);
            let r = indexed(base, index, at);
            &&& value_sound(r)
            &&& all_tags(r) == all_tags(element)
            &&& !element.is_expandable() ==> all_tags(r.collapsed()) == all_tags(element)
                && value_sound(r.collapsed())
            &&& base.form is Mapping ==> r.expands_to(2) && all_tags(r.expanded(2)[0]) == all_tags(
                element,
            ) && all_tags(r.expanded(2)[1]) == all_tags(element)
        }),
{
    let key = key_of_index(base.form, index);
    let element = base.read_at(key, at);
    let r = indexed(base, index, at);
    law_reads_have_the_tags_of_the_part(base, key, at);
    law_values_carry_their_tags(element);
    if base.form is Mapping {
        let first = r.parts[0];
        let second = r.parts[1];
        assert(first.key == KeyModel::Index(0));
        assert(second.key == KeyModel::Index(1));
        lemma_moved(first, element);
        assert(value_sound(second));
        assert(all_tags(second) =~= all_tags(element));
        assert(r.parts.len() == 2);
        assert(value_sound(r)) by {
            assert forall|i: int| 0 <= i < r.parts.len() implies value_sound(
                #[trigger] r.parts[i],
            ) by {
                assert(i == 0 || i == 1);
            }
        }
        assert forall|x: TagModel| all_tags(r).contains(x) == all_tags(element).contains(x) by {
            crate::values::part_laws::law_tags_are_somewhere(r, x);
            if all_tags(element).contains(x) {
                assert(all_tags(r.parts[0]).contains(x));
            }
            if exists|i: int| 0 <= i < r.parts.len() && all_tags(#[trigger] r.parts[i]).contains(x) {
                let i = choose|i: int|
                    0 <= i < r.parts.len() && all_tags(#[trigger] r.parts[i]).contains(x);
                assert(i == 0 || i == 1);
            }
        }
        assert(all_tags(r) =~= all_tags(element));
        lemma_part_index_is(r.parts, KeyModel::Index(0), 0);
        lemma_part_index_is(r.parts, KeyModel::Index(1), 1);
        law_reads_have_the_tags_of_the_part(r, Some(KeyModel::Index(0)), r.location);
        law_reads_have_the_tags_of_the_part(r, Some(KeyModel::Index(1)), r.location);
        assert(all_tags(r.parts[0]).union(label_or_bottom(r.own)) =~= all_tags(element));
        assert(all_tags(r.parts[1]).union(label_or_bottom(r.own)) =~= all_tags(element));
    }
}

/// The key that an index stands for: the text itself in a map, and a number in an
/// array, a slice or what may be one.
pub open spec fn stands_for(form: FormModel, text: Seq<char>, key: KeyModel) -> bool {
    if form is Mapping {
        key == KeyModel::Text(text)
    } else {
        position(text) matches Some(i) && key == KeyModel::Index(i)
    }
}

/// An element that is read at a known index has the tags of the first part under
/// the key that this stands for, and of the value as a whole; one that is read at
/// an unknown index has all tags of all elements. There are no others.
pub proof fn law_elements_have_their_tags(
    base: ValueModel,
    index: Option<Seq<char>>,
    at: PinnedModel<Location>,
)
    requires
        value_sound(base),
    ensures
        ({
            let r = indexed(base, index, at);
            &&& value_sound(r)
            &&& index is None ==> all_tags(r) == all_tags(base)
            &&& all_tags(r).subset_of(all_tags(base))
            &&& index matches Some(text) ==> forall|i: int|
                0 <= i < base.parts.len() && stands_for(
                    base.form,
                    text,
                    (#[trigger] base.parts[i]).key,
                ) && (forall|j: int|
                    0 <= j < i ==> (#[trigger] base.parts[j]).key != base.parts[i].key)
                    ==> all_tags(r) == all_tags(base.parts[i]).union(label_or_bottom(base.own))
            &&& base.form is Mapping ==> r.expands_to(2) && all_tags(r.expanded(2)[0]) == all_tags(
                r,
            ) && all_tags(r.expanded(2)[1]) == all_tags(r) && all_tags(
                r.expanded(1)[0],
            ) == all_tags(r)
        }),
{
    lemma_indexed(base, index, at);
    law_reads_have_the_tags_of_the_part(base, key_of_index(base.form, index), at);
    let r = indexed(base, index, at);
    assert(r.expanded(1)[0] == r.expanded(2)[0]);
}

/// What is written to an element of a map, slice or array is read back with all
/// its tags, and those of the index, where the same index is given, and also where
/// an unknown one is.
pub proof fn law_written_elements_are_read_back(
    base: ValueModel,
    form: FormModel,
    index: Option<Seq<char>>,
    v: ValueModel,
    key_flow: Option<Trace>,
    at: PinnedModel<Location>,
    later: PinnedModel<Location>,
)
    requires
        value_sound(base),
        value_sound(v),
        key_flow matches Some(t) ==> sound(t),
    ensures
        ({
            let w = base.written_at(form, key_of_index(form, index), v, key_flow, at);
            let tags = all_tags(v).union(label_or_bottom(key_flow));
            &&& tags.subset_of(all_tags(indexed(w, index, later)))
            &&& tags.subset_of(all_tags(indexed(w, None, later)))
            &&& all_tags(indexed(w, None, later)).subset_of(all_tags(base).union(tags))
            &&& form is Mapping ==> tags.subset_of(all_tags(indexed(w, index, later).expanded(1)[0]))
                && tags.subset_of(all_tags(indexed(w, index, later).expanded(2)[0]))
        }),
{
    let key = key_of_index(form, index);
    let w = base.written_at(form, key, v, key_flow, at);
    law_writes_keep_tags(base, form, key, v, key_flow, at, later);
    lemma_indexed(w, index, later);
    lemma_indexed(w, None, later);
    law_elements_have_their_tags(w, index, later);
    law_elements_have_their_tags(w, None, later);
    law_reads_have_the_tags_of_the_part(w, key, later);
}

/// A write to an element of a map leaves what is read at another known key alone.
pub proof fn law_elements_stay_apart(
    base: ValueModel,
    key: Seq<char>,
    other: Seq<char>,
    v: ValueModel,
    at: PinnedModel<Location>,
)
    requires
        base.form is Mapping,
        key != other,
    ensures
        indexed(
            base.written_at(
                FormModel::Mapping,
                key_of_index(FormModel::Mapping, Some(key)),
                v,
                None,
                at,
            ),
            Some(other),
            at,
        ) == indexed(base, Some(other), at),
{
    law_writes_stay_apart(
        base,
        FormModel::Mapping,
        KeyModel::Text(key),
        KeyModel::Text(other),
        v,
        at,
    );
}

} // verus!
