//! What holds of the labels of expressions.

use vstd::prelude::*;

use crate::context::ContextModel;
use crate::errors::{ErrorModel, FindingModel};
use crate::labels::backtraces::{folded, label_or_bottom, listed, root_trace, LabelBacktraceKind,
    Trace};
use crate::labels::laws::law_union_is_least_upper_bound;
use crate::labels::tags::TagModel;
use crate::labels::trace_laws::{all_sound, is_plain, law_fold, lemma_plain, sound, spread};
use crate::labels::{covers, without};
use crate::locations::{Location, PinnedModel, SpanModel};
use crate::policy::blanket_directives::{BlanketDirectiveKind, DirectiveModel};
use crate::symbols::table::TableModel;
use crate::taint::exprs::component::{also_carrying, any_sink, carried_in_slice, sliced, MemberModel,
    SliceBound};
use crate::taint::exprs::names::{any_callable, blanket_source, directives_label, operand_value,
    ResolvedOperand};
use crate::taint::exprs::visits::{evaluated, evaluated_log, ExprModel};
use crate::taint::funcs::call_results::carrying;
use crate::taint::laws::calls::lemma_carrying_tags;
use crate::taint::laws::lemma_parts_of;
use crate::taint::laws::law_operations_keep_tags;
use crate::taint::laws::policies::{law_revocations_relieve_results, sources_plain, takes_tag};
use crate::values::laws::{all_tags, law_nesting_adds_tags, law_revocation_removes_tags,
    law_values_carry_their_tags, lemma_combined, value_sound};
use crate::values::part_laws::{law_reads_have_the_tags_of_the_part, law_tags_are_somewhere};
use crate::values::{carried, relieved, FormModel, KeyModel, TypeModel, ValueModel};

verus! {

pub proof fn lemma_concat(a: Seq<Trace>, b: Seq<Trace>)
    requires
        all_sound(a),
        all_sound(b),
    ensures
        all_sound(a + b),
        spread(a + b) == spread(a).union(spread(b)),
{
    let c = a + b;
    assert forall|i: int| 0 <= i < c.len() implies sound(#[trigger] c[i]) by {
        if i < a.len() {
            assert(c[i] == a[i]);
        } else {
            assert(c[i] == b[i - a.len()]);
        }
    }
    assert forall|x: TagModel| spread(c).contains(x) == spread(a).union(spread(b)).contains(x) by {
        if spread(a).contains(x) {
            let i = choose|i: int| 0 <= i < a.len() && (#[trigger] a[i]).label.contains(x);
            assert(c[i] == a[i]);
        }
        if spread(b).contains(x) {
            let i = choose|i: int| 0 <= i < b.len() && (#[trigger] b[i]).label.contains(x);
            assert(c[i + a.len()] == b[i]);
        }
        if spread(c).contains(x) {
            let i = choose|i: int| 0 <= i < c.len() && (#[trigger] c[i]).label.contains(x);
            if i < a.len() {
                assert(a[i].label.contains(x));
            } else {
                assert(b[i - a.len()].label.contains(x));
            }
        }
    }
    assert(spread(c) =~= spread(a).union(spread(b)));
}

pub proof fn lemma_folded(ts: Seq<Trace>, kind: LabelBacktraceKind, at: PinnedModel<Location>)
    requires
        all_sound(ts),
    ensures
        folded(ts, kind, None, at) matches Some(t) ==> sound(t),
        label_or_bottom(folded(ts, kind, None, at)) == spread(ts),
{
    law_fold(ts, kind, None, at);
    if ts.len() == 0 {
        assert(spread(ts) =~= Set::<TagModel>::empty());
    }
}

pub proof fn lemma_one(t: Option<Trace>)
    requires
        t matches Some(x) ==> sound(x),
    ensures
        all_sound(listed(t)),
        spread(listed(t)) == label_or_bottom(t),
{
    assert forall|x: TagModel| spread(listed(t)).contains(x) == label_or_bottom(t).contains(x) by {
        if let Some(y) = t {
            assert(listed(t)[0] == y);
        }
    }
    assert(spread(listed(t)) =~= label_or_bottom(t));
}

pub proof fn lemma_simple(flow: Option<Trace>, at: PinnedModel<Location>)
    requires
        flow matches Some(t) ==> sound(t),
    ensures
        value_sound(ValueModel::simple(flow, at)),
        all_tags(ValueModel::simple(flow, at)) == label_or_bottom(flow),
{
    assert(all_tags(ValueModel::simple(flow, at)) =~= label_or_bottom(flow));
}

/// Whether an element may lie between two bounds: nothing that is known of its
/// position and of the bounds speaks against it.
pub open spec fn may_lie(key: KeyModel, low: SliceBound, high: SliceBound) -> bool {
    key matches KeyModel::Index(p) ==> {
        &&& !(low matches SliceBound::Known(l) && p < l)
        &&& !(high matches SliceBound::Known(h) && h <= p)
    }
}

proof fn lemma_carried_in_slice(v: ValueModel, low: SliceBound, high: SliceBound, n: int)
    requires
        value_sound(v),
        0 <= n <= v.parts.len(),
    ensures
        all_sound(carried_in_slice(v, low, high, n)),
        forall|x: TagModel|
            #[trigger] spread(carried_in_slice(v, low, high, n)).contains(x) <==> exists|i: int|
                0 <= i < n && may_lie((#[trigger] v.parts[i]).key, low, high) && all_tags(
                    v.parts[i],
                ).contains(x),
    decreases n,
{
    let now = carried_in_slice(v, low, high, n);
    if n <= 0 {
        assert(spread(now) =~= Set::<TagModel>::empty());
    } else {
        lemma_carried_in_slice(v, low, high, n - 1);
        let before = carried_in_slice(v, low, high, n - 1);
        let part = v.parts[n - 1];
        assert(value_sound(part));
        law_values_carry_their_tags(part);
        lemma_one(carried(part));
        lemma_concat(before, listed(carried(part)));
        assert forall|x: TagModel|
            #[trigger] spread(now).contains(x) <==> exists|i: int|
                0 <= i < n && may_lie((#[trigger] v.parts[i]).key, low, high) && all_tags(
                    v.parts[i],
                ).contains(x) by {
            if exists|i: int|
                0 <= i < n && may_lie((#[trigger] v.parts[i]).key, low, high) && all_tags(
                    v.parts[i],
                ).contains(x) {
                let i = choose|i: int|
                    0 <= i < n && may_lie((#[trigger] v.parts[i]).key, low, high) && all_tags(
                        v.parts[i],
                    ).contains(x);
                if i < n - 1 {
                    assert(spread(before).contains(x));
                } else {
                    assert(label_or_bottom(carried(part)).contains(x));
                }
            }
            if spread(now).contains(x) && !spread(before).contains(x) {
                assert(may_lie(v.parts[n - 1].key, low, high));
                assert(all_tags(v.parts[n - 1]).contains(x));
            }
        }
    }
}

/// A slice has the tags that the value has as a whole, those of the elements that
/// may lie between its bounds, and those of the bounds, and no others. Where a
/// bound is not known, any element may lie there.
pub proof fn law_slices_have_the_tags_between_their_bounds(
    ctx: ContextModel,
    t: TableModel,
    base: ValueModel,
    low: SliceBound,
    high: SliceBound,
    has_max: bool,
    bounds: Seq<Option<Trace>>,
    location: Location,
    x: TagModel,
)
    requires
        value_sound(base),
        base.form is Simple || base.form is Array || base.form is Slice,
        forall|i: int|
            0 <= i < bounds.len() ==> (#[trigger] bounds[i] matches Some(b) ==> sound(b)),
    ensures
        ({
            let node = ExprModel::Slicing { base, low, high, has_max, bounds };
            let r = evaluated(ctx, t, node, location).value;
            let anywhere = low is Unknown || high is Unknown || base.form is Simple && !has_max;
            &&& value_sound(r)
            &&& all_tags(r).contains(x) <==> (label_or_bottom(base.own).contains(x) || (exists|
                i: int,
            |
                0 <= i < base.parts.len() && (anywhere || may_lie(
                    (#[trigger] base.parts[i]).key,
                    low,
                    high,
                )) && all_tags(base.parts[i]).contains(x)) || exists|i: int|
                0 <= i < bounds.len() && label_or_bottom(#[trigger] bounds[i]).contains(x))
            &&& evaluated_log(ctx, t, node, location) == ctx.log
        }),
{
    let at = PinnedModel { file: ctx.log.file->0, inner: location };
    let node = ExprModel::Slicing { base, low, high, has_max, bounds };
    let r = evaluated(ctx, t, node, location).value;
    let n = base.parts.len() as int;
    law_values_carry_their_tags(base);
    law_tags_are_somewhere(base, x);
    lemma_carrying_tags(bounds);
    lemma_carried_in_slice(base, low, high, n);
    lemma_one(base.own);
    let within = listed(base.own) + carried_in_slice(base, low, high, n);
    lemma_concat(listed(base.own), carried_in_slice(base, low, high, n));
    lemma_folded(within, LabelBacktraceKind::Expression, at);
    let inner = if !has_max && base.form is Simple {
        carried(base)
    } else {
        sliced(base, low, high, at)
    };
    lemma_one(inner);
    lemma_concat(listed(inner), carrying(bounds));
    lemma_folded(listed(inner) + carrying(bounds), LabelBacktraceKind::Expression, at);
    let flow = folded(
        listed(inner) + carrying(bounds),
        LabelBacktraceKind::Expression,
        None,
        at,
    );
    lemma_simple(flow, at);
    lemma_parts_of(ValueModel::simple(flow, at), r, 0);
}

/// Of a value that has no elements, none is read, and no slice is taken: that is
/// reported.
pub proof fn law_values_without_elements_are_reported(
    ctx: ContextModel,
    t: TableModel,
    base: ValueModel,
    index: Option<Seq<char>>,
    low: SliceBound,
    high: SliceBound,
    has_max: bool,
    bounds: Seq<Option<Trace>>,
    location: Location,
)
    requires
        ctx.log.listens(),
        ctx.log.file is Some,
    ensures
        !(base.form is Simple || base.form is Array || base.form is Slice) ==> evaluated_log(
            ctx,
            t,
            ExprModel::Slicing { base, low, high, has_max, bounds },
            location,
        ).errors == ctx.log.errors.push(
            FindingModel {
                kind: ErrorModel::InvalidSlicingBase { location },
                file: ctx.log.file->0,
            },
        ),
        !(base.form is Simple || base.form is Array || base.form is Slice || base.form is Mapping)
            ==> evaluated_log(ctx, t, ExprModel::Indexing { base, index }, location).errors
            == ctx.log.errors.push(
            FindingModel {
                kind: ErrorModel::InvalidIndexingBase { location },
                file: ctx.log.file->0,
            },
        ),
        base.form is Simple || base.form is Array || base.form is Slice || base.form is Mapping
            ==> evaluated_log(ctx, t, ExprModel::Indexing { base, index }, location) == ctx.log,
{
}

/// Whether a directive of a kind has a tag. Directives that only apply to some
/// calls, or to some of their results, may be left out.
pub open spec fn has_tag(
    ds: Seq<DirectiveModel>,
    kind: BlanketDirectiveKind,
    with_calls: bool,
    x: TagModel,
) -> bool {
    exists|k: int|
        0 <= k < ds.len() && (#[trigger] ds[k]).kind == kind && (with_calls || (
        ds[k].predicate is None && ds[k].result_selector == Set::<usize>::empty())) && covers(
            ds[k].label,
            x,
        )
}

proof fn lemma_directives_label(
    ds: Seq<DirectiveModel>,
    kind: BlanketDirectiveKind,
    with_calls: bool,
    n: int,
)
    requires
        0 <= n <= ds.len(),
    ensures
        forall|x: TagModel|
            #[trigger] covers(directives_label(ds, kind, with_calls, n), x) <==> exists|k: int|
                0 <= k < n && (#[trigger] ds[k]).kind == kind && (with_calls || (
                ds[k].predicate is None && ds[k].result_selector == Set::<usize>::empty()))
                    && covers(ds[k].label, x),
        (forall|k: int| 0 <= k < n && (#[trigger] ds[k]).kind == kind ==> is_plain(ds[k].label))
            ==> is_plain(directives_label(ds, kind, with_calls, n)),
    decreases n,
{
    if n > 0 {
        lemma_directives_label(ds, kind, with_calls, n - 1);
        let before = directives_label(ds, kind, with_calls, n - 1);
        law_union_is_least_upper_bound(before, ds[n - 1].label, before);
        if is_plain(before) {
            lemma_plain(before, ds[n - 1].label);
        }
        let now = directives_label(ds, kind, with_calls, n);
        assert forall|x: TagModel|
            #[trigger] covers(now, x) <==> exists|k: int|
                0 <= k < n && (#[trigger] ds[k]).kind == kind && (with_calls || (
                ds[k].predicate is None && ds[k].result_selector == Set::<usize>::empty()))
                    && covers(ds[k].label, x) by {
            if exists|k: int|
                0 <= k < n && (#[trigger] ds[k]).kind == kind && (with_calls || (
                ds[k].predicate is None && ds[k].result_selector == Set::<usize>::empty()))
                    && covers(ds[k].label, x) {
                let k = choose|k: int|
                    0 <= k < n && (#[trigger] ds[k]).kind == kind && (with_calls || (
                    ds[k].predicate is None && ds[k].result_selector == Set::<usize>::empty()))
                        && covers(ds[k].label, x);
                if k < n - 1 {
                    assert(covers(before, x));
                }
            }
            if covers(now, x) && !covers(before, x) {
                assert(covers(ds[n - 1].label, x));
            }
        }
    } else {
        assert forall|x: TagModel| !covers(#[trigger] directives_label(ds, kind, with_calls, n), x)
            by {}
    }
}

proof fn lemma_blanket_source(
    ds: Seq<DirectiveModel>,
    with_calls: bool,
    at: PinnedModel<Location>,
)
    requires
        sources_plain(ds),
    ensures
        blanket_source(ds, with_calls, at) matches Some(t) ==> sound(t),
        forall|x: TagModel|
            #[trigger] label_or_bottom(blanket_source(ds, with_calls, at)).contains(x) <==> has_tag(
                ds,
                BlanketDirectiveKind::Source,
                with_calls,
                x,
            ),
{
    let kind = BlanketDirectiveKind::Source;
    let n = ds.len() as int;
    lemma_directives_label(ds, kind, with_calls, n);
    let label = directives_label(ds, kind, with_calls, n);
    assert(is_plain(label));
    lemma_plain(label, label);
    if let Some(root) = root_trace(LabelBacktraceKind::BlanketSource, label, None, at) {
        assert(spread(root.children) =~= Set::<TagModel>::empty());
        assert(sound(root));
    }
    assert forall|x: TagModel|
        #[trigger] label_or_bottom(blanket_source(ds, with_calls, at)).contains(x) <==> has_tag(
            ds,
            kind,
            with_calls,
            x,
        ) by {
        assert(label.contains(x) == covers(label, x));
    }
}

pub proof fn lemma_relieved_part(v: ValueModel, label: Set<TagModel>, i: int)
    requires
        value_sound(v),
        0 <= i < v.parts.len(),
    ensures
        relieved(v, label).parts.len() == v.parts.len(),
        relieved(v, label).parts[i].key == v.parts[i].key,
        all_tags(relieved(v, label).parts[i]) == without(all_tags(v.parts[i]), label),
{
    assert(value_sound(v.parts[i]));
    law_revocation_removes_tags(v.parts[i], label);
}

/// A name has the tags of the variable that it stands for, along with those of the
/// sources that the policy declares for it, but for those that it revokes; each
/// part of it has those of that part of the variable that are not revoked.
pub proof fn law_names_have_the_tags_of_their_symbols(
    ctx: ContextModel,
    t: TableModel,
    name: SpanModel,
    qualifier: Option<SpanModel>,
    ds: Seq<DirectiveModel>,
    location: Location,
    s: usize,
    x: TagModel,
)
    requires
        t.operand(
            name.content,
            match qualifier {
                Some(q) => Some(q.content),
                None => None,
            },
            any_callable(ds),
        ) == ResolvedOperand::Symbol(s),
        s < t.symbols.len(),
        value_sound(t.symbols[s as int].value),
        sources_plain(ds),
    ensures
        ({
            let node = ExprModel::Name { name, qualifier, directives: ds };
            let r = evaluated(ctx, t, node, location).value;
            let v = t.symbols[s as int].value;
            let gone = has_tag(ds, BlanketDirectiveKind::Revocation, false, x);
            let given = has_tag(ds, BlanketDirectiveKind::Source, false, x);
            &&& value_sound(r)
            &&& all_tags(r).contains(x) <==> (all_tags(v).contains(x) || given) && !gone
            &&& r.parts.len() == v.parts.len()
            &&& forall|i: int|
                0 <= i < v.parts.len() ==> (#[trigger] r.parts[i]).key == v.parts[i].key && (
                all_tags(r.parts[i]).contains(x) <==> all_tags(v.parts[i]).contains(x) && !gone)
        }),
{
    let at = PinnedModel { file: ctx.log.file->0, inner: name.location };
    let v = t.symbols[s as int].value;
    let node = ExprModel::Name { name, qualifier, directives: ds };
    let r = evaluated(ctx, t, node, location).value;
    let source = blanket_source(ds, false, at);
    lemma_blanket_source(ds, false, at);
    lemma_one(source);
    law_nesting_adds_tags(
        v,
        LabelBacktraceKind::Expression,
        Some(name.content),
        at,
        listed(source),
    );
    let nested = v.nesting(
        LabelBacktraceKind::Expression,
        Some(name.content),
        at,
        listed(source),
    );
    let here = ValueModel { location: at, ..nested };
    lemma_parts_of(nested, here, nested.parts.len() as int);
    let n = ds.len() as int;
    let label = directives_label(ds, BlanketDirectiveKind::Revocation, false, n);
    lemma_directives_label(ds, BlanketDirectiveKind::Revocation, false, n);
    law_revocation_removes_tags(here, label);
    let own = operand_value(v, name.content, ds, at);
    assert(own == relieved(here, label));
    lemma_parts_of(own, r, own.parts.len() as int);
    assert(value_sound(r));
    assert forall|i: int| 0 <= i < v.parts.len() implies (#[trigger] r.parts[i]).key
        == v.parts[i].key && (all_tags(r.parts[i]).contains(x) <==> all_tags(v.parts[i]).contains(x)
        && !has_tag(ds, BlanketDirectiveKind::Revocation, false, x)) by {
        lemma_relieved_part(here, label, i);
    }
}

proof fn lemma_also_carrying(v: ValueModel, more: Seq<Trace>, at: PinnedModel<Location>)
    requires
        value_sound(v),
        all_sound(more),
    ensures
        value_sound(also_carrying(v, more, at)),
        all_tags(also_carrying(v, more, at)) == all_tags(v).union(spread(more)),
{
    law_nesting_adds_tags(v, LabelBacktraceKind::Expression, None, at, more);
    if more.len() == 0 {
        assert(spread(more) =~= Set::<TagModel>::empty());
        assert(all_tags(v) =~= all_tags(v).union(spread(more)));
    }
}

/// Whether a selection from a value gives a field: no method is behind the name,
/// and either the type is known to have the field, or nothing that is known of the
/// type or said by the policy speaks against a field.
pub open spec fn is_field(
    t: TableModel,
    base: ValueModel,
    selector: Seq<char>,
    member: MemberModel,
) -> bool {
    &&& base.form is Simple || base.form is Struct
    &&& base.declared_type is None || member.method is None
    &&& base.declared_type is Some && member.field is Some || t.unique_method(selector) is None && (
    base.declared_type is None || member.base_is_external || base.declared_type->0.kind is Struct)
        && !any_sink(member.directives)
}

/// A field that is selected has the tags that are read there, along with those of
/// the sources that the policy declares for the field and those with which its
/// declaration is annotated, and no others.
pub proof fn law_fields_have_their_tags(
    ctx: ContextModel,
    t: TableModel,
    base: ValueModel,
    selector: SpanModel,
    member: MemberModel,
    location: Location,
    x: TagModel,
)
    requires
        is_field(t, base, selector.content, member),
        value_sound(base),
        sources_plain(member.directives),
        member.field matches Some((_, Some(tag))) ==> sound(tag),
    ensures
        ({
            let node = ExprModel::Selection { base, selector, member };
            let at = PinnedModel { file: ctx.log.file->0, inner: location };
            let r = evaluated(ctx, t, node, location).value;
            let declared = base.declared_type is Some && member.field is Some && label_or_bottom(
                (member.field->0).1,
            ).contains(x);
            &&& value_sound(r)
            &&& all_tags(r).contains(x) <==> (all_tags(
                base.read_at(Some(KeyModel::Text(selector.content)), at),
            ).contains(x) || has_tag(member.directives, BlanketDirectiveKind::Source, true, x)
                || declared)
            &&& evaluated_log(ctx, t, node, location) == ctx.log
        }),
{
    let at = PinnedModel { file: ctx.log.file->0, inner: location };
    let field = base.read_at(Some(KeyModel::Text(selector.content)), at);
    law_reads_have_the_tags_of_the_part(base, Some(KeyModel::Text(selector.content)), at);
    let source = blanket_source(member.directives, true, at);
    lemma_blanket_source(member.directives, true, at);
    lemma_one(source);
    if base.declared_type is Some && member.field is Some {
        let (declared_type, tag) = member.field->0;
        let typed = ValueModel { declared_type, ..field };
        lemma_parts_of(field, typed, field.parts.len() as int);
        lemma_one(tag);
        lemma_concat(listed(source), listed(tag));
        lemma_also_carrying(typed, listed(source) + listed(tag), at);
    } else {
        lemma_also_carrying(field, listed(source), at);
    }
}

/// A method that is selected from a value has the tags of the value, along with
/// those of the method itself and of the sources that the policy declares for it,
/// and no others.
pub proof fn law_methods_have_the_tags_of_their_receiver(
    ctx: ContextModel,
    t: TableModel,
    base: ValueModel,
    selector: SpanModel,
    member: MemberModel,
    location: Location,
    x: TagModel,
)
    requires
        !(base.form is Package),
        base.declared_type is Some,
        member.method matches Some(m) && m < t.symbols.len() && value_sound(
            t.symbols[m as int].value,
        ),
        value_sound(base),
        sources_plain(member.directives),
    ensures
        ({
            let node = ExprModel::Selection { base, selector, member };
            let r = evaluated(ctx, t, node, location).value;
            let method = t.symbols[member.method->0 as int].value;
            &&& value_sound(r)
            &&& r.form == method.form
            &&& all_tags(r).contains(x) <==> (all_tags(base).contains(x) || all_tags(
                method,
            ).contains(x) || has_tag(member.directives, BlanketDirectiveKind::Source, true, x))
        }),
{
    let at = PinnedModel { file: ctx.log.file->0, inner: location };
    let method = t.symbols[member.method->0 as int].value;
    law_values_carry_their_tags(base);
    let source = blanket_source(member.directives, true, at);
    lemma_blanket_source(member.directives, true, at);
    lemma_one(source);
    lemma_one(carried(base));
    let bound = match carried(base) {
        Some(b) => {
            assert(listed(carried(base)) =~= seq![b]);
            law_nesting_adds_tags(
                method,
                LabelBacktraceKind::MethodReceiver,
                None,
                at,
                listed(carried(base)),
            );
            method.nesting(LabelBacktraceKind::MethodReceiver, None, at, seq![b])
        },
        None => method,
    };
    lemma_also_carrying(bound, listed(source), at);
}

/// The result of an operation has the tags of both operands, but for those that
/// the policy for the operator takes away, and no others.
pub proof fn law_operators_keep_tags(
    ctx: ContextModel,
    t: TableModel,
    left: Option<Trace>,
    right: Option<Trace>,
    short_circuits: bool,
    consts: Seq<Option<Seq<char>>>,
    ds: Seq<DirectiveModel>,
    location: Location,
    x: TagModel,
)
    requires
        left matches Some(l) ==> sound(l),
        right matches Some(r) ==> sound(r),
    ensures
        ({
            let node = ExprModel::BinaryOp { left, right, short_circuits, consts, directives: ds };
            let r = evaluated(ctx, t, node, location).value;
            &&& value_sound(r)
            &&& all_tags(r).contains(x) <==> (label_or_bottom(left).contains(x) || label_or_bottom(
                right,
            ).contains(x)) && !takes_tag(ds, consts, 0, x)
        }),
{
    let at = PinnedModel { file: ctx.log.file->0, inner: location };
    let flow = crate::taint::exprs::binary_flow(left, right, short_circuits, at);
    law_operations_keep_tags(left, right, short_circuits, at);
    let second = match (left, right) {
        (Some(l), Some(r)) => if short_circuits {
            crate::labels::trace_laws::law_union_of_backtraces(
                r,
                l,
                LabelBacktraceKind::ShortCircuit,
                at,
            );
            Some(crate::labels::backtraces::united(r, l, LabelBacktraceKind::ShortCircuit, at))
        } else {
            right
        },
        _ => right,
    };
    lemma_combined(left, second, LabelBacktraceKind::Expression, at);
    lemma_simple(flow, at);
    law_revocations_relieve_results(seq![ValueModel::simple(flow, at)], ds, consts, 0);
}

/// Both of what a type assertion gives, the value and whether the assertion holds,
/// have the tags of the value that it is made of, and no others.
pub proof fn law_type_assertions_keep_tags(
    ctx: ContextModel,
    t: TableModel,
    base: ValueModel,
    declared_type: Option<TypeModel>,
    location: Location,
    i: int,
)
    requires
        value_sound(base),
        0 <= i < 2,
    ensures
        ({
            let node = ExprModel::TypeAssertion { base, declared_type };
            let r = evaluated(ctx, t, node, location).value;
            &&& value_sound(r)
            &&& r.expands_to(2)
            &&& all_tags(r.expanded(2)[i]) == all_tags(base)
        }),
{
    let at = PinnedModel { file: ctx.log.file->0, inner: location };
    let node = ExprModel::TypeAssertion { base, declared_type };
    let r = evaluated(ctx, t, node, location).value;
    let value = ValueModel { declared_type, ..base };
    lemma_parts_of(base, value, base.parts.len() as int);
    law_values_carry_their_tags(value);
    let holds = ValueModel { location: at, ..value.downgraded() };
    assert(all_tags(holds) =~= all_tags(base));
    lemma_pair(value, holds, at, i);
}

pub proof fn lemma_pair(
    first: ValueModel,
    second: ValueModel,
    at: PinnedModel<Location>,
    i: int,
)
    requires
        value_sound(first),
        value_sound(second),
        0 <= i < 2,
    ensures
        value_sound(ValueModel::paired(first, second, at)),
        all_tags(ValueModel::paired(first, second, at).expanded(2)[i]) == all_tags(
            if i == 0 {
                first
            } else {
                second
            },
        ),
{
    let r = ValueModel::paired(first, second, at);
    let one = r.parts[0];
    let two = r.parts[1];
    lemma_parts_of(first, one, first.parts.len() as int);
    lemma_parts_of(second, two, second.parts.len() as int);
    assert(value_sound(one));
    assert(value_sound(two));
    assert forall|j: int| 0 <= j < r.parts.len() implies value_sound(#[trigger] r.parts[j]) by {
        assert(j == 0 || j == 1);
    }
    assert(value_sound(r));
    law_reads_have_the_tags_of_the_part(r, Some(KeyModel::Index(i as usize)), r.location);
    assert(r.parts[i].key == KeyModel::Index(i as usize));
    assert(all_tags(r.parts[i]).union(label_or_bottom(r.own)) =~= all_tags(r.parts[i]));
}

/// What is received from a channel has all its tags, and whether anything was has
/// those that it has as a whole; both have those of the branch under which it is
/// received, which the channel keeps. None has any others.
#[verifier::rlimit(50)]
pub proof fn law_received_values_have_the_tags_of_the_channel(
    ctx: ContextModel,
    t: TableModel,
    target: ValueModel,
    location: Location,
)
    requires
        value_sound(target),
        target.form is Simple || target.form is Channel,
        ctx.branches.current() matches Some(b) ==> sound(b),
    ensures
        ({
            let r = evaluated(ctx, t, ExprModel::Receive(target), location);
            let branch = label_or_bottom(ctx.branches.current());
            &&& value_sound(r.value)
            &&& r.value.expands_to(2)
            &&& all_tags(r.value.expanded(2)[0]) == all_tags(target).union(branch)
            &&& all_tags(r.value.expanded(2)[1]) == label_or_bottom(target.own).union(branch)
            &&& r.channel matches Some(c) && value_sound(c) && all_tags(c) == all_tags(
                target,
            ).union(branch)
        }),
{
    let at = PinnedModel { file: ctx.log.file->0, inner: location };
    let branch = ctx.branches.current();
    let open = ValueModel { form: FormModel::Channel, ..target };
    lemma_parts_of(target, open, target.parts.len() as int);
    assert(all_tags(open) =~= all_tags(target));
    assert(value_sound(open));
    let used = target.used_under(branch, at);
    match branch {
        Some(b) => {
            lemma_one(branch);
            assert(listed(branch) =~= seq![b]);
            law_nesting_adds_tags(open, LabelBacktraceKind::Branch, None, at, listed(branch));
            lemma_one(open.own);
            lemma_concat(listed(open.own), listed(branch));
            lemma_folded(listed(open.own) + listed(branch), LabelBacktraceKind::Branch, at);
        },
        None => {
            assert(all_tags(used) =~= all_tags(target).union(label_or_bottom(branch)));
            assert(label_or_bottom(used.own) =~= label_or_bottom(target.own).union(
                label_or_bottom(branch),
            ));
        },
    }
    law_values_carry_their_tags(used);
    lemma_simple(carried(used), at);
    lemma_simple(used.own, at);
    lemma_pair(ValueModel::simple(carried(used), at), ValueModel::simple(used.own, at), at, 0);
    lemma_pair(ValueModel::simple(carried(used), at), ValueModel::simple(used.own, at), at, 1);
}

} // verus!
