//! What holds of flows as a whole.

use vstd::prelude::*;

use crate::context::ContextModel;
use crate::labels::backtraces::{folded, label_or_bottom, listed, united, LabelBacktraceKind,
    Trace};
use crate::labels::tags::TagModel;
use crate::labels::trace_laws::{all_sound, law_fold, law_union_of_backtraces, sound, spread};
use crate::labels::{covers, within, without};
use crate::locations::{Location, PinnedModel};
use crate::policy::{law_sinks_accept_less, SinkModel};
use crate::symbols::SymbolModel;
use crate::taint::enforcement::{aggregated, is_open, law_insecure_flows_are_reported,
    sink_triggered};
use crate::taint::exprs::binary_flow;
use crate::taint::mutation::{AssignmentModel, LeftModel};
use crate::values::laws::{all_tags, law_merging_keeps_tags, law_nesting_adds_tags,
    law_parts_show_in_the_whole, law_revocation_removes_tags, law_values_carry_their_tags,
    lemma_combined, tags_by_parts, value_sound};
use crate::values::{carried, lemma_part_index, part_index, FormModel, KeyModel, ValueModel};

pub mod builtins;
pub mod calls;
pub mod captures;
pub mod checks;
pub mod declarations;
pub mod deferrals;
pub mod expressions;
pub mod functions;
pub mod guards;
pub mod literals;
pub mod parts;
pub mod policies;

verus! {

proof fn lemma_two(a: Option<Trace>, b: Option<Trace>)
    requires
        a matches Some(x) ==> sound(x),
        b matches Some(x) ==> sound(x),
    ensures
        all_sound(listed(a) + listed(b)),
        spread(listed(a) + listed(b)) == label_or_bottom(a).union(label_or_bottom(b)),
{
    let all = listed(a) + listed(b);
    let tags = label_or_bottom(a).union(label_or_bottom(b));
    assert forall|x: TagModel| spread(all).contains(x) == tags.contains(x) by {
        if label_or_bottom(a).contains(x) {
            assert(all[0].label.contains(x));
        }
        if label_or_bottom(b).contains(x) {
            assert(all[all.len() - 1].label.contains(x));
        }
        if spread(all).contains(x) {
            let i = choose|i: int| 0 <= i < all.len() && (#[trigger] all[i]).label.contains(x);
            assert(all[i].label.contains(x));
        }
    }
    assert(spread(all) =~= tags);
}

proof fn lemma_parts_of(a: ValueModel, b: ValueModel, n: int)
    requires
        a.parts == b.parts,
    ensures
        tags_by_parts(a, n) == tags_by_parts(b, n),
    decreases n,
{
    if 0 < n <= a.parts.len() {
        lemma_parts_of(a, b, n - 1);
    }
}

/// The tags that an assignment writes: those of the value, those that an
/// annotation adds, those of the branches around, and, if the old value is not
/// lost, those of that; but for those that an annotation takes away.
pub open spec fn written_tags(
    a: AssignmentModel,
    current: ValueModel,
    branch: Option<Trace>,
) -> Set<TagModel> {
    let base = if a.simple {
        all_tags(a.rhs)
    } else {
        all_tags(current).union(all_tags(a.rhs))
    };
    without(
        base.union(label_or_bottom(a.explicit)).union(label_or_bottom(branch)),
        a.subtract,
    )
}

/// A variable to which something is assigned has the tags that are written,
/// along with those that it had if it is declared outside of the branches that
/// are being visited, and no others.
pub proof fn law_assignments_carry_tags(
    a: AssignmentModel,
    s: SymbolModel,
    left: LeftModel,
    branch: Option<Trace>,
    at: PinnedModel<Location>,
)
    requires
        left.path.len() == 0,
        value_sound(a.rhs),
        value_sound(s.value),
        a.explicit matches Some(t) ==> sound(t),
        branch matches Some(t) ==> sound(t),
    ensures
        ({
            let now = a.applied(s, left, branch, at).value;
            &&& value_sound(now)
            &&& all_tags(now) == if a.outside_split {
                all_tags(s.value).union(written_tags(a, s.value, branch))
            } else {
                written_tags(a, s.value, branch)
            }
        }),
{
    law_values_carry_their_tags(s.value);
    law_values_carry_their_tags(a.rhs);
    let flows = listed(carried(s.value)) + listed(carried(a.rhs));
    lemma_two(carried(s.value), carried(a.rhs));
    law_fold(flows, LabelBacktraceKind::Expression, None, at);
    if flows.len() == 0 {
        assert(spread(flows) =~= Set::<TagModel>::empty());
    }
    let base = if a.simple {
        a.rhs
    } else {
        ValueModel::simple(folded(flows, LabelBacktraceKind::Expression, None, at), at)
    };
    let placed = ValueModel { location: at, ..base };
    lemma_parts_of(base, placed, base.parts.len() as int);
    if !a.simple {
        assert(all_tags(placed) =~= all_tags(s.value).union(all_tags(a.rhs)));
    }
    lemma_two(a.explicit, branch);
    let more = listed(a.explicit) + listed(branch);
    law_nesting_adds_tags(placed, a.kind, Some(left.name.content), at, more);
    let nested = placed.nesting(a.kind, Some(left.name.content), at, more);
    law_revocation_removes_tags(nested, a.subtract);
    let written = a.written(s.value, left.name.content, branch, at);
    assert(all_tags(nested) =~= all_tags(placed).union(label_or_bottom(a.explicit)).union(
        label_or_bottom(branch),
    ));
    assert(all_tags(written) == written_tags(a, s.value, branch));
    law_merging_keeps_tags(s.value, written, a.kind, at);
}

/// A value with tags that a sink does not accept is reported where it reaches
/// the sink, under whatever branches, unless what reaches the sink depends on a
/// call.
pub proof fn law_sinks_report_values(ctx: ContextModel, sink: SinkModel, v: ValueModel)
    requires
        ctx.log.listens(),
        ctx.log.file is Some,
        value_sound(v),
        ctx.branches.current() matches Some(t) ==> sound(t),
        !sink.accepts(all_tags(v)),
        !is_open(aggregated(ctx, carried(v), sink.location)),
    ensures
        sink_triggered(ctx, sink, carried(v)).log.errors.len() > ctx.log.errors.len(),
{
    law_values_carry_their_tags(v);
    let found = aggregated(ctx, carried(v), sink.location);
    let at = PinnedModel { file: ctx.log.file->0, inner: sink.location };
    match (carried(v), ctx.branches.current()) {
        (Some(a), Some(b)) => {
            law_union_of_backtraces(a, b, LabelBacktraceKind::EnforcementAggregation, at);
        },
        _ => {},
    }
    assert forall|t: TagModel| #[trigger] all_tags(v).contains(t) implies covers(
        label_or_bottom(found),
        t,
    ) by {
        assert(label_or_bottom(found).contains(t));
    }
    if sink.accepts(label_or_bottom(found)) {
        law_sinks_accept_less(sink, all_tags(v), label_or_bottom(found));
    }
    law_insecure_flows_are_reported(ctx, sink, carried(v));
}

/// What is assigned to a variable, or decides whether something is, does not
/// leave it unnoticed: where the variable reaches a sink that does not accept
/// the tags of the one, or of the other, that is reported, unless it depends on
/// a call.
pub proof fn law_flows_through_variables_are_reported(
    a: AssignmentModel,
    s: SymbolModel,
    left: LeftModel,
    branch: Option<Trace>,
    at: PinnedModel<Location>,
    ctx: ContextModel,
    sink: SinkModel,
)
    requires
        left.path.len() == 0,
        a.subtract == Set::<TagModel>::empty(),
        value_sound(a.rhs),
        value_sound(s.value),
        a.explicit matches Some(t) ==> sound(t),
        branch matches Some(t) ==> sound(t),
        ctx.log.listens(),
        ctx.log.file is Some,
        ctx.branches.current() matches Some(t) ==> sound(t),
        !sink.accepts(all_tags(a.rhs)) || !sink.accepts(label_or_bottom(branch)),
        !is_open(
            aggregated(ctx, carried(a.applied(s, left, branch, at).value), sink.location),
        ),
    ensures
        sink_triggered(
            ctx,
            sink,
            carried(a.applied(s, left, branch, at).value),
        ).log.errors.len() > ctx.log.errors.len(),
{
    law_assignments_carry_tags(a, s, left, branch, at);
    let now = a.applied(s, left, branch, at).value;
    assert forall|t: TagModel| #[trigger] all_tags(a.rhs).contains(t) implies covers(
        all_tags(now),
        t,
    ) by {
        assert(!covers(a.subtract, t));
        assert(all_tags(now).contains(t));
    }
    assert forall|t: TagModel| #[trigger] label_or_bottom(branch).contains(t) implies covers(
        all_tags(now),
        t,
    ) by {
        assert(!covers(a.subtract, t));
        assert(all_tags(now).contains(t));
    }
    assert(within(all_tags(a.rhs), all_tags(now)));
    assert(within(label_or_bottom(branch), all_tags(now)));
    if sink.accepts(all_tags(now)) {
        law_sinks_accept_less(sink, all_tags(a.rhs), all_tags(now));
        law_sinks_accept_less(sink, label_or_bottom(branch), all_tags(now));
    }
    law_sinks_report_values(ctx, sink, now);
}

/// The result of an operation has the tags of both operands, and no others.
pub proof fn law_operations_keep_tags(
    left: Option<Trace>,
    right: Option<Trace>,
    short_circuits: bool,
    at: PinnedModel<Location>,
)
    requires
        left matches Some(t) ==> sound(t),
        right matches Some(t) ==> sound(t),
    ensures
        label_or_bottom(binary_flow(left, right, short_circuits, at)) == label_or_bottom(
            left,
        ).union(label_or_bottom(right)),
{
    let second = match (left, right) {
        (Some(l), Some(r)) => if short_circuits {
            law_union_of_backtraces(r, l, LabelBacktraceKind::ShortCircuit, at);
            Some(united(r, l, LabelBacktraceKind::ShortCircuit, at))
        } else {
            right
        },
        _ => right,
    };
    lemma_combined(left, second, LabelBacktraceKind::Expression, at);
    assert(label_or_bottom(left).union(label_or_bottom(second)) =~= label_or_bottom(left).union(
        label_or_bottom(right),
    ));
}

/// What is received from a channel has the tags of what was sent to it, and of
/// what decided whether that was done.
pub proof fn law_channels_hand_on_tags(
    channel: ValueModel,
    flow: Trace,
    branch: Option<Trace>,
    at: PinnedModel<Location>,
    later: PinnedModel<Location>,
)
    requires
        value_sound(channel),
        sound(flow),
        branch matches Some(t) ==> sound(t),
    ensures
        ({
            let received = channel.sent_to(Some(flow), branch, at).received(later);
            &&& flow.label.subset_of(all_tags(received))
            &&& label_or_bottom(branch).subset_of(all_tags(received))
        }),
{
    let open = ValueModel { form: FormModel::Channel, ..channel };
    let used = channel.used_under(branch, at);
    assert(value_sound(open));
    if let Some(t) = branch {
        lemma_two(open.own, branch);
        assert(listed(branch) =~= seq![t]);
        law_fold(listed(open.own) + seq![t], LabelBacktraceKind::Branch, None, at);
    }
    assert(value_sound(used));
    assert(label_or_bottom(branch).subset_of(label_or_bottom(used.own)));
    let sent = channel.sent_to(Some(flow), branch, at);
    let p = part_index(used.parts, KeyModel::Others);
    lemma_part_index(used.parts, KeyModel::Others);
    if p < used.parts.len() {
        assert(value_sound(used.parts[p]));
        law_values_carry_their_tags(used.parts[p]);
    }
    lemma_combined(used.others(), Some(flow), LabelBacktraceKind::Expression, at);
    let added = sent.parts[p];
    assert(value_sound(added));
    assert(flow.label.subset_of(all_tags(added)));
    assert forall|i: int| 0 <= i < sent.parts.len() implies value_sound(
        #[trigger] sent.parts[i],
    ) by {
        if i != p {
            assert(sent.parts[i] == used.parts[i]);
            assert(value_sound(used.parts[i]));
        }
    }
    assert(value_sound(sent));
    law_parts_show_in_the_whole(sent, p);
    law_values_carry_their_tags(sent);
    let received = sent.received(later);
    law_parts_show_in_the_whole(received, 0);
    assert(label_or_bottom(received.parts[0].own).subset_of(all_tags(received.parts[0])));
}

} // verus!
