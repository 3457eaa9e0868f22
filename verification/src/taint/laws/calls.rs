//! What holds of calls.

use vstd::prelude::*;

use crate::context::ContextModel;
use crate::functions::FunctionModel;
use crate::labels::backtraces::{label_or_bottom, placeholder, LabelBacktraceKind, Substitution,
    Trace};
use crate::labels::exchange_laws::{anchored, exchanged_tags, has_placeholder, is_filled,
    is_supplied, law_placeholders_give_way, settled_substitutions};
use crate::labels::tags::{SyntheticSlot, TagModel};
use crate::labels::trace_laws::{all_sound, law_fold, law_realization_is_sound, sound,
    sound_substitutions, spread};
use crate::taint::funcs::call_application::{accessed_through, call_substitutions, relocated,
    CallModel};
use crate::taint::funcs::call_results::{carrying, revoked, sourced, with_result_types};
use crate::taint::funcs::{SignatureModel, SummaryModel};
use crate::taint::laws::policies::{gives_tag, law_revocations_relieve_results,
    law_sources_label_results, sources_plain, takes_tag};
use crate::values::laws::{all_tags, law_nesting_adds_tags, law_values_carry_their_tags,
    value_sound};
use crate::values::part_laws::{law_tags_are_somewhere, lemma_richer_same, lemma_richer_tags};
use crate::values::{carried, value_realized, ValueModel};

verus! {

/// Whether all that a value carries is anchored.
pub open spec fn value_anchored(v: ValueModel, func: FunctionModel) -> bool
    decreases v,
{
    &&& v.own matches Some(t) ==> anchored(t, func)
    &&& forall|i: int| 0 <= i < v.parts.len() ==> value_anchored(#[trigger] v.parts[i], func)
}

/// A value in which placeholders are substituted has the tags of the value in
/// which each of them has given way to the tags of what takes its place.
pub proof fn law_placeholders_give_way_in_values(
    v: ValueModel,
    func: FunctionModel,
    subs: Seq<Substitution>,
)
    requires
        value_sound(v),
        value_anchored(v, func),
        settled_substitutions(func, subs),
        sound_substitutions(subs),
    ensures
        value_sound(value_realized(v, func, subs)),
        all_tags(value_realized(v, func, subs)) == exchanged_tags(all_tags(v), func, subs),
    decreases v,
{
    let r = value_realized(v, func, subs);
    let goal = exchanged_tags(all_tags(v), func, subs);
    if let Some(t) = v.own {
        law_realization_is_sound(t, func, subs, false);
        law_placeholders_give_way(t, func, subs, false);
    }
    assert(label_or_bottom(r.own) =~= exchanged_tags(label_or_bottom(v.own), func, subs));
    assert forall|i: int| 0 <= i < v.parts.len() implies value_sound(#[trigger] r.parts[i])
        && all_tags(r.parts[i]) == exchanged_tags(all_tags(v.parts[i]), func, subs) by {
        assert(value_sound(v.parts[i]));
        assert(value_anchored(v.parts[i], func));
        assert(r.parts[i] == value_realized(v.parts[i], func, subs));
        law_placeholders_give_way_in_values(v.parts[i], func, subs);
    }
    assert forall|x: TagModel| all_tags(r).contains(x) == goal.contains(x) by {
        law_tags_are_somewhere(r, x);
        law_tags_are_somewhere(v, x);
        if all_tags(r).contains(x) {
            if label_or_bottom(r.own).contains(x) {
                lemma_exchanged_within(label_or_bottom(v.own), all_tags(v), func, subs);
            } else {
                let i = choose|i: int|
                    0 <= i < r.parts.len() && all_tags(#[trigger] r.parts[i]).contains(x);
                crate::values::laws::law_parts_show_in_the_whole(v, i);
                lemma_exchanged_within(all_tags(v.parts[i]), all_tags(v), func, subs);
            }
        }
        if goal.contains(x) {
            let y = if all_tags(v).contains(x) && !is_filled(func, subs, x) {
                x
            } else {
                let k = choose|k: int|
                    0 <= k < subs.len() && all_tags(v).contains(
                        placeholder(func, (#[trigger] subs[k]).0),
                    ) && label_or_bottom(subs[k].1).contains(x);
                placeholder(func, subs[k].0)
            };
            law_tags_are_somewhere(v, y);
            assert(all_tags(v).contains(y));
            if label_or_bottom(v.own).contains(y) {
                assert(exchanged_tags(label_or_bottom(v.own), func, subs).contains(x));
            } else {
                let i = choose|i: int|
                    0 <= i < v.parts.len() && all_tags(#[trigger] v.parts[i]).contains(y);
                assert(exchanged_tags(all_tags(v.parts[i]), func, subs).contains(x));
                assert(all_tags(r.parts[i]).contains(x));
            }
        }
    }
    assert(all_tags(r) =~= goal);
}

proof fn lemma_exchanged_within(
    a: Set<TagModel>,
    b: Set<TagModel>,
    func: FunctionModel,
    subs: Seq<Substitution>,
)
    requires
        a.subset_of(b),
    ensures
        exchanged_tags(a, func, subs).subset_of(exchanged_tags(b, func, subs)),
{
    assert forall|x: TagModel| exchanged_tags(a, func, subs).contains(x) implies exchanged_tags(
        b,
        func,
        subs,
    ).contains(x) by {
        if is_supplied(a, func, subs, x) {
            let i = choose|i: int|
                0 <= i < subs.len() && a.contains(placeholder(func, (#[trigger] subs[i]).0))
                    && label_or_bottom(subs[i].1).contains(x);
            assert(b.contains(placeholder(func, subs[i].0)));
        }
    }
}

pub proof fn lemma_carrying_tags(flows: Seq<Option<Trace>>)
    requires
        forall|i: int| 0 <= i < flows.len() ==> (#[trigger] flows[i] matches Some(t) ==> sound(t)),
    ensures
        all_sound(carrying(flows)),
        forall|x: TagModel|
            #[trigger] spread(carrying(flows)).contains(x) <==> exists|i: int|
                0 <= i < flows.len() && label_or_bottom(#[trigger] flows[i]).contains(x),
    decreases flows.len(),
{
    let all = carrying(flows);
    if flows.len() == 0 {
        assert(spread(all) =~= Set::<TagModel>::empty());
    } else {
        let front = flows.drop_last();
        assert forall|i: int| 0 <= i < front.len() implies (#[trigger] front[i] matches Some(t)
            ==> sound(t)) by {
            assert(front[i] == flows[i]);
        }
        lemma_carrying_tags(front);
        let before = carrying(front);
        assert(flows.last() == flows[flows.len() - 1]);
        assert forall|i: int| 0 <= i < all.len() implies sound(#[trigger] all[i]) by {
            if i < before.len() {
                assert(all[i] == before[i]);
            }
        }
        assert forall|x: TagModel| #[trigger] spread(all).contains(x) <==> exists|i: int|
            0 <= i < flows.len() && label_or_bottom(#[trigger] flows[i]).contains(x) by {
            if spread(all).contains(x) {
                let k = choose|k: int| 0 <= k < all.len() && (#[trigger] all[k]).label.contains(x);
                if k < before.len() {
                    assert(before[k].label.contains(x));
                    assert(spread(before).contains(x));
                    let i = choose|i: int|
                        0 <= i < front.len() && label_or_bottom(#[trigger] front[i]).contains(x);
                    assert(label_or_bottom(flows[i]).contains(x));
                } else {
                    assert(label_or_bottom(flows[flows.len() - 1]).contains(x));
                }
            }
            if exists|i: int|
                0 <= i < flows.len() && label_or_bottom(#[trigger] flows[i]).contains(x) {
                let i = choose|i: int|
                    0 <= i < flows.len() && label_or_bottom(#[trigger] flows[i]).contains(x);
                if i < front.len() {
                    assert(label_or_bottom(front[i]).contains(x));
                    assert(spread(before).contains(x));
                    let k = choose|k: int|
                        0 <= k < before.len() && (#[trigger] before[k]).label.contains(x);
                    assert(all[k].label.contains(x));
                } else {
                    assert(all[before.len() as int].label.contains(x));
                }
            }
        }
    }
}

/// Whether a call passes a tag for the parameter at a position: the tag is one of
/// the argument there; if the parameter takes any number of arguments, of one of
/// those from there on; if it is a function, of what that is worth.
pub open spec fn passes_tag(m: CallModel, s: SignatureModel, i: int, x: TagModel) -> bool {
    if s.slots()[i].variadic {
        exists|j: int| i <= j < m.args.len() && all_tags(#[trigger] m.args[j]).contains(x)
    } else if s.slots()[i].is_function {
        label_or_bottom(m.hybrids[i]).contains(x)
    } else {
        all_tags(m.args[i]).contains(x)
    }
}

/// Whether a function is called as it is declared, and all that is passed to it is
/// as it should be and has no placeholder of the function itself.
pub open spec fn call_sound(m: CallModel, ctx: ContextModel, func: SummaryModel) -> bool {
    &&& func.signature is Some
    &&& ({
        let slots = func.signature->0.slots();
        &&& slots.len() <= usize::MAX
        &&& forall|i: int|
            0 <= i < slots.len() ==> if (#[trigger] slots[i]).variadic {
                i <= m.args.len()
            } else {
                i < m.args.len()
            }
    })
    &&& m.hybrids.len() == m.args.len()
    &&& forall|j: int|
        0 <= j < m.args.len() ==> value_sound(#[trigger] m.args[j]) && !has_placeholder(
            all_tags(m.args[j]),
            func.func,
        )
    &&& forall|j: int| 0 <= j < m.hybrids.len() ==> is_passable(#[trigger] m.hybrids[j], func.func)
    &&& m.receiver matches Some(v) ==> value_sound(v) && !has_placeholder(all_tags(v), func.func)
    &&& is_passable(ctx.branches.current(), func.func)
    &&& are_captures(m.entry_captures, func.func)
    &&& are_captures(m.outcome_captures, func.func)
}

/// Whether something can take the place of a placeholder of a function.
pub open spec fn is_passable(t: Option<Trace>, func: FunctionModel) -> bool {
    t matches Some(c) ==> sound(c) && !has_placeholder(c.label, func)
}

/// Whether substitutions are ones of different captured symbols.
pub open spec fn are_captures(subs: Seq<Substitution>, func: FunctionModel) -> bool {
    &&& forall|j: int|
        0 <= j < subs.len() ==> (#[trigger] subs[j]).0 is Capture && is_passable(subs[j].1, func)
    &&& forall|i: int, j: int|
        0 <= i < j < subs.len() ==> (#[trigger] subs[i]).0 != (#[trigger] subs[j]).0
}

proof fn lemma_passed(m: CallModel, ctx: ContextModel, func: SummaryModel, i: int)
    requires
        call_sound(m, ctx, func),
        0 <= i < func.signature->0.slots().len(),
    ensures
        is_passable(m.passed(ctx, func)[i], func.func),
        forall|x: TagModel|
            #[trigger] label_or_bottom(m.passed(ctx, func)[i]).contains(x) <==> passes_tag(
                m,
                func.signature->0,
                i,
                x,
            ),
{
    let slot = func.signature->0.slots()[i];
    let flows = m.flows();
    assert forall|j: int| 0 <= j < flows.len() implies (#[trigger] flows[j] matches Some(t)
        ==> sound(t)) && label_or_bottom(flows[j]) == all_tags(m.args[j]) by {
        assert(value_sound(m.args[j]));
        law_values_carry_their_tags(m.args[j]);
    }
    if slot.variadic {
        let rest = flows.skip(i);
        assert forall|j: int| 0 <= j < rest.len() implies (#[trigger] rest[j] matches Some(t)
            ==> sound(t)) by {
            assert(rest[j] == flows[j + i]);
        }
        lemma_carrying_tags(rest);
        law_fold(
            carrying(rest),
            LabelBacktraceKind::FunctionVariadicAggregation,
            slot.name,
            m.at(ctx),
        );
        let got = label_or_bottom(m.passed(ctx, func)[i]);
        if carrying(rest).len() == 0 {
            assert(spread(carrying(rest)) =~= Set::<TagModel>::empty());
        }
        assert(got =~= spread(carrying(rest)));
        assert forall|x: TagModel| #[trigger] got.contains(x) <==> passes_tag(
            m,
            func.signature->0,
            i,
            x,
        ) by {
            if got.contains(x) {
                let j = choose|j: int|
                    0 <= j < rest.len() && label_or_bottom(#[trigger] rest[j]).contains(x);
                assert(rest[j] == flows[j + i]);
                assert(all_tags(m.args[j + i]).contains(x));
            }
            if passes_tag(m, func.signature->0, i, x) {
                let j = choose|j: int|
                    i <= j < m.args.len() && all_tags(#[trigger] m.args[j]).contains(x);
                assert(rest[j - i] == flows[j]);
                assert(label_or_bottom(rest[j - i]).contains(x));
            }
        }
        if has_placeholder(got, func.func) {
            let s = choose|s: SyntheticSlot| got.contains(#[trigger] placeholder(func.func, s));
            let x = placeholder(func.func, s);
            assert(passes_tag(m, func.signature->0, i, x));
            let j = choose|j: int| i <= j < m.args.len() && all_tags(#[trigger] m.args[j]).contains(x);
            assert(has_placeholder(all_tags(m.args[j]), func.func));
        }
    } else if slot.is_function {
        assert(is_passable(m.hybrids[i], func.func));
    } else {
        assert(flows[i] == carried(m.args[i]));
        assert(label_or_bottom(flows[i]) == all_tags(m.args[i]));
        assert(!has_placeholder(all_tags(m.args[i]), func.func));
    }
}

/// Whether a call supplies a tag for a slot of a function.
pub open spec fn supplies(
    m: CallModel,
    func: SummaryModel,
    branch: Option<Trace>,
    captures: Seq<Substitution>,
    slot: SyntheticSlot,
    x: TagModel,
) -> bool {
    match slot {
        SyntheticSlot::Param(i) => i < func.signature->0.slots().len() && passes_tag(
            m,
            func.signature->0,
            i as int,
            x,
        ),
        SyntheticSlot::Receiver => m.receiver matches Some(v) && all_tags(v).contains(x),
        SyntheticSlot::CallSiteBranch => label_or_bottom(branch).contains(x),
        SyntheticSlot::YieldFeedback => false,
        SyntheticSlot::Capture(_) => exists|j: int|
            0 <= j < captures.len() && (#[trigger] captures[j]).0 == slot && label_or_bottom(
                captures[j].1,
            ).contains(x),
    }
}

/// Whether a call fills a slot of a function.
pub open spec fn fills(
    m: CallModel,
    func: SummaryModel,
    captures: Seq<Substitution>,
    slot: SyntheticSlot,
) -> bool {
    match slot {
        SyntheticSlot::Param(i) => i < func.signature->0.slots().len(),
        SyntheticSlot::Receiver => m.receiver is Some || func.has_receiver,
        SyntheticSlot::CallSiteBranch => true,
        SyntheticSlot::YieldFeedback => true,
        SyntheticSlot::Capture(_) => exists|j: int|
            0 <= j < captures.len() && (#[trigger] captures[j]).0 == slot,
    }
}

pub proof fn lemma_substitutions(
    m: CallModel,
    ctx: ContextModel,
    func: SummaryModel,
    branch: Option<Trace>,
    captures: Seq<Substitution>,
)
    requires
        call_sound(m, ctx, func),
        is_passable(branch, func.func),
        are_captures(captures, func.func),
    ensures
        ({
            let subs = call_substitutions(
                m.passed(ctx, func),
                m.receiver_flow(func),
                branch,
                None,
                captures,
            );
            &&& settled_substitutions(func.func, subs)
            &&& sound_substitutions(subs)
            &&& forall|slot: SyntheticSlot|
                is_filled(func.func, subs, #[trigger] placeholder(func.func, slot)) <==> fills(
                    m,
                    func,
                    captures,
                    slot,
                )
            &&& forall|label: Set<TagModel>, x: TagModel|
                #[trigger] is_supplied(label, func.func, subs, x) <==> exists|slot: SyntheticSlot|
                    label.contains(#[trigger] placeholder(func.func, slot)) && supplies(
                        m,
                        func,
                        branch,
                        captures,
                        slot,
                        x,
                    )
        }),
{
    let params = m.passed(ctx, func);
    let receiver = m.receiver_flow(func);
    let subs = call_substitutions(params, receiver, branch, None, captures);
    let n = params.len() as int;
    let r: int = if receiver is Some {
        1
    } else {
        0
    };
    if let Some(v) = m.receiver {
        law_values_carry_their_tags(v);
    }
    assert(subs.len() == n + r + 2 + captures.len());
    assert forall|i: int| 0 <= i < n implies #[trigger] subs[i] == (
        SyntheticSlot::Param(i as usize),
        params[i],
    ) by {}
    if receiver is Some {
        assert(subs[n] == (SyntheticSlot::Receiver, receiver->0));
    }
    assert(subs[n + r] == (SyntheticSlot::CallSiteBranch, branch));
    assert(subs[n + r + 1] == (SyntheticSlot::YieldFeedback, None::<Trace>));
    assert forall|j: int| 0 <= j < captures.len() implies #[trigger] captures[j] == subs[n + r + 2
        + j] by {}
    assert forall|i: int, j: int| 0 <= i < j < subs.len() implies (#[trigger] subs[i]).0 != (
    #[trigger] subs[j]).0 by {
        if j >= n + r + 2 {
            let b = j - (n + r + 2);
            assert(subs[j] == captures[b]);
            assert(captures[b].0 is Capture);
            if i >= n + r + 2 {
                let a = i - (n + r + 2);
                assert(subs[i] == captures[a]);
                assert(captures[a].0 != captures[b].0);
            }
        }
    }
    assert forall|i: int| 0 <= i < subs.len() implies is_passable(
        (#[trigger] subs[i]).1,
        func.func,
    ) by {
        if i < n {
            lemma_passed(m, ctx, func, i);
        } else if i >= n + r + 2 {
            assert(subs[i] == captures[i - (n + r + 2)]);
        }
    }
    assert forall|slot: SyntheticSlot|
        is_filled(func.func, subs, #[trigger] placeholder(func.func, slot)) <==> fills(
            m,
            func,
            captures,
            slot,
        ) by {
        let x = placeholder(func.func, slot);
        if is_filled(func.func, subs, x) {
            let i = choose|i: int|
                0 <= i < subs.len() && x == placeholder(func.func, (#[trigger] subs[i]).0);
            assert(subs[i].0 == slot);
            if i >= n + r + 2 {
                assert(subs[i] == captures[i - (n + r + 2)]);
            }
        }
        if fills(m, func, captures, slot) {
            let i = match slot {
                SyntheticSlot::Param(i) => i as int,
                SyntheticSlot::Receiver => n,
                SyntheticSlot::CallSiteBranch => n + r,
                SyntheticSlot::YieldFeedback => n + r + 1,
                SyntheticSlot::Capture(_) => n + r + 2 + choose|j: int|
                    0 <= j < captures.len() && (#[trigger] captures[j]).0 == slot,
            };
            assert(subs[i].0 == slot);
        }
    }
    assert forall|label: Set<TagModel>, x: TagModel| #[trigger]
        is_supplied(label, func.func, subs, x) <==> exists|slot: SyntheticSlot|
            label.contains(#[trigger] placeholder(func.func, slot)) && supplies(
                m,
                func,
                branch,
                captures,
                slot,
                x,
            ) by {
        if is_supplied(label, func.func, subs, x) {
            let i = choose|i: int|
                0 <= i < subs.len() && label.contains(
                    placeholder(func.func, (#[trigger] subs[i]).0),
                ) && label_or_bottom(subs[i].1).contains(x);
            let slot = subs[i].0;
            assert(label.contains(placeholder(func.func, slot)));
            if i < n {
                lemma_passed(m, ctx, func, i);
            } else if i >= n + r + 2 {
                assert(subs[i] == captures[i - (n + r + 2)]);
            }
            assert(supplies(m, func, branch, captures, slot, x));
        }
        if exists|slot: SyntheticSlot|
            label.contains(#[trigger] placeholder(func.func, slot)) && supplies(
                m,
                func,
                branch,
                captures,
                slot,
                x,
            ) {
            let slot = choose|slot: SyntheticSlot|
                label.contains(#[trigger] placeholder(func.func, slot)) && supplies(
                    m,
                    func,
                    branch,
                    captures,
                    slot,
                    x,
                );
            let i = match slot {
                SyntheticSlot::Param(i) => i as int,
                SyntheticSlot::Receiver => n,
                SyntheticSlot::CallSiteBranch => n + r,
                SyntheticSlot::YieldFeedback => n + r + 1,
                SyntheticSlot::Capture(_) => n + r + 2 + choose|j: int|
                    0 <= j < captures.len() && (#[trigger] captures[j]).0 == slot
                        && label_or_bottom(captures[j].1).contains(x),
            };
            if i < n {
                lemma_passed(m, ctx, func, i);
            }
            assert(subs[i].0 == slot);
            assert(label_or_bottom(subs[i].1).contains(x));
        }
    }
}

/// Whether a value that a function returns brings a tag out of a call: the tag is
/// one of its own, or one that the call supplies for a slot whose placeholder the
/// value has.
pub open spec fn brings_out(
    m: CallModel,
    func: SummaryModel,
    branch: Option<Trace>,
    captures: Seq<Substitution>,
    tags: Set<TagModel>,
    x: TagModel,
) -> bool {
    ||| tags.contains(x) && forall|slot: SyntheticSlot| #[trigger]
        placeholder(func.func, slot) == x ==> !fills(m, func, captures, slot)
    ||| exists|slot: SyntheticSlot|
        tags.contains(#[trigger] placeholder(func.func, slot)) && supplies(
            m,
            func,
            branch,
            captures,
            slot,
            x,
        )
}

pub proof fn lemma_brings_out(
    m: CallModel,
    ctx: ContextModel,
    func: SummaryModel,
    branch: Option<Trace>,
    captures: Seq<Substitution>,
    tags: Set<TagModel>,
)
    requires
        call_sound(m, ctx, func),
        is_passable(branch, func.func),
        are_captures(captures, func.func),
    ensures
        ({
            let subs = call_substitutions(
                m.passed(ctx, func),
                m.receiver_flow(func),
                branch,
                None,
                captures,
            );
            forall|x: TagModel|
                #[trigger] exchanged_tags(tags, func.func, subs).contains(x) <==> brings_out(
                    m,
                    func,
                    branch,
                    captures,
                    tags,
                    x,
                )
        }),
{
    lemma_substitutions(m, ctx, func, branch, captures);
    let subs = call_substitutions(
        m.passed(ctx, func),
        m.receiver_flow(func),
        branch,
        None,
        captures,
    );
    assert forall|x: TagModel| #[trigger]
        exchanged_tags(tags, func.func, subs).contains(x) <==> brings_out(
            m,
            func,
            branch,
            captures,
            tags,
            x,
        ) by {
        assert(is_supplied(tags, func.func, subs, x) <==> exists|slot: SyntheticSlot|
            tags.contains(#[trigger] placeholder(func.func, slot)) && supplies(
                m,
                func,
                branch,
                captures,
                slot,
                x,
            ));
        if is_filled(func.func, subs, x) {
            let i = choose|i: int|
                0 <= i < subs.len() && x == placeholder(func.func, (#[trigger] subs[i]).0);
            assert(is_filled(func.func, subs, placeholder(func.func, subs[i].0)));
            assert(fills(m, func, captures, subs[i].0));
        } else {
            assert forall|slot: SyntheticSlot| #[trigger]
                placeholder(func.func, slot) == x implies !fills(m, func, captures, slot) by {
                assert(!is_filled(func.func, subs, placeholder(func.func, slot)));
            }
        }
    }
}

proof fn lemma_typed(v: ValueModel, w: ValueModel)
    requires
        value_sound(v),
        w.own == v.own && w.parts == v.parts || w.own == carried(v) && w.parts.len() == 0,
    ensures
        all_tags(w) == all_tags(v),
        value_sound(w),
{
    law_values_carry_their_tags(v);
    if w.own == v.own && w.parts == v.parts {
        assert forall|i: int| 0 <= i < w.parts.len() implies value_sound(#[trigger] w.parts[i]) by {
            assert(value_sound(v.parts[i]));
        }
        lemma_richer_same(v, w);
        lemma_richer_same(w, v);
        lemma_richer_tags(v, w);
        lemma_richer_tags(w, v);
    }
    assert(all_tags(w) =~= all_tags(v));
}

/// The tags of a result of a call of a function with a known body are those that
/// what the body returns brings out of the call, those of the function itself, and
/// those that the policy gives, but for those that the policy takes away: what
/// stands for a parameter, the receiver, a captured symbol or the branch around is
/// tied to what just this call passes for it.
pub proof fn law_results_are_tied_to_what_is_passed(
    m: CallModel,
    ctx: ContextModel,
    func: SummaryModel,
    i: int,
)
    requires
        call_sound(m, ctx, func),
        func.outcome is Some,
        0 <= i < func.outcome->0.len(),
        !(func.outcome->0.len() == 1 && func.outcome->0[0].is_expandable()),
        value_sound(func.outcome->0[i]),
        value_anchored(func.outcome->0[i], func.func),
        func.own matches Some(t) ==> sound(t),
        sources_plain(func.directives),
    ensures
        m.results(ctx, func).len() == func.outcome->0.len(),
        value_sound(m.results(ctx, func)[i]),
        forall|x: TagModel|
            #[trigger] all_tags(m.results(ctx, func)[i]).contains(x) <==> !takes_tag(
                func.directives,
                m.known,
                i,
                x,
            ) && (brings_out(
                m,
                func,
                ctx.branches.current(),
                m.outcome_captures,
                all_tags(func.outcome->0[i]),
                x,
            ) || label_or_bottom(func.own).contains(x) || gives_tag(
                func.directives,
                m.known,
                i,
                x,
            )),
{
    let at = m.at(ctx);
    let branch = ctx.branches.current();
    let o = func.outcome->0;
    let subs = m.result_substitutions(ctx, func);
    lemma_substitutions(m, ctx, func, branch, m.outcome_captures);
    lemma_brings_out(m, ctx, func, branch, m.outcome_captures, all_tags(o[i]));
    let first = o.map_values(|v: ValueModel| value_realized(v, func.func, subs));
    law_placeholders_give_way_in_values(o[i], func.func, subs);
    assert(first[i] == value_realized(o[i], func.func, subs));
    law_sources_label_results(first, func.directives, m.known, at, i);
    let second = sourced(first, func.directives, m.known, at);
    let third = accessed_through(second, func.own, at);
    if let Some(t) = func.own {
        assert(all_sound(seq![t]));
        law_nesting_adds_tags(second[i], LabelBacktraceKind::Expression, None, at, seq![t]);
        assert forall|x: TagModel| spread(seq![t]).contains(x) == t.label.contains(x) by {
            if t.label.contains(x) {
                assert(seq![t][0].label.contains(x));
            }
        }
    }
    assert(value_sound(third[i]));
    assert forall|x: TagModel| #[trigger] all_tags(third[i]).contains(x) <==> all_tags(
        second[i],
    ).contains(x) || label_or_bottom(func.own).contains(x) by {}
    assert(third.len() == o.len());
    if third.len() == 1 {
        assert(third[0].form == o[0].form);
    }
    law_revocations_relieve_results(third, func.directives, m.known, i);
    let fourth = revoked(third, func.directives, m.known);
    let fifth = relocated(fourth, at);
    lemma_typed(fourth[i], fifth[i]);
    let last = with_result_types(fifth, func.declared_result_types);
    lemma_typed(fifth[i], last[i]);
    assert(m.results(ctx, func) == last);
}

/// A function that hands on one of its parameters, which is neither one that takes
/// any number of arguments nor a function, gives a result with just the tags of
/// the argument at the position of the parameter.
pub proof fn law_parameters_stand_for_their_own_arguments(
    m: CallModel,
    ctx: ContextModel,
    func: SummaryModel,
    result: int,
    param: int,
)
    requires
        call_sound(m, ctx, func),
        func.outcome is Some,
        0 <= result < func.outcome->0.len(),
        !(func.outcome->0.len() == 1 && func.outcome->0[0].is_expandable()),
        value_sound(func.outcome->0[result]),
        value_anchored(func.outcome->0[result], func.func),
        func.own is None,
        func.directives.len() == 0,
        0 <= param < func.signature->0.slots().len(),
        !func.signature->0.slots()[param].variadic,
        !func.signature->0.slots()[param].is_function,
        all_tags(func.outcome->0[result]) == set![
            placeholder(func.func, SyntheticSlot::Param(param as usize)),
        ],
    ensures
        all_tags(m.results(ctx, func)[result]) == all_tags(m.args[param]),
{
    law_results_are_tied_to_what_is_passed(m, ctx, func, result);
    let own = SyntheticSlot::Param(param as usize);
    let tags = all_tags(func.outcome->0[result]);
    let r = all_tags(m.results(ctx, func)[result]);
    assert forall|x: TagModel| #[trigger] r.contains(x) <==> all_tags(m.args[param]).contains(x) by {
        let branch = ctx.branches.current();
        assert(!takes_tag(func.directives, m.known, result, x));
        assert(!gives_tag(func.directives, m.known, result, x));
        if brings_out(m, func, branch, m.outcome_captures, tags, x) {
            if tags.contains(x) {
                assert(x == placeholder(func.func, own));
                assert(fills(m, func, m.outcome_captures, own));
            }
            let slot = choose|slot: SyntheticSlot|
                tags.contains(#[trigger] placeholder(func.func, slot)) && supplies(
                    m,
                    func,
                    branch,
                    m.outcome_captures,
                    slot,
                    x,
                );
            assert(placeholder(func.func, slot) == placeholder(func.func, own));
            assert(slot == own);
        }
        if all_tags(m.args[param]).contains(x) {
            assert(tags.contains(placeholder(func.func, own)));
            assert(supplies(m, func, branch, m.outcome_captures, own, x));
        }
    }
    assert(r =~= all_tags(m.args[param]));
}

/// What a call returns does not change where only arguments change for which what
/// the body returns has no placeholder.
pub proof fn law_other_arguments_do_not_matter(
    a: CallModel,
    b: CallModel,
    ctx: ContextModel,
    func: SummaryModel,
    result: int,
)
    requires
        call_sound(a, ctx, func),
        call_sound(b, ctx, func),
        func.outcome is Some,
        0 <= result < func.outcome->0.len(),
        !(func.outcome->0.len() == 1 && func.outcome->0[0].is_expandable()),
        value_sound(func.outcome->0[result]),
        value_anchored(func.outcome->0[result], func.func),
        func.own matches Some(t) ==> sound(t),
        sources_plain(func.directives),
        a.known == b.known,
        a.receiver == b.receiver,
        a.outcome_captures == b.outcome_captures,
        a.args.len() == b.args.len(),
        forall|i: int|
            0 <= i < func.signature->0.slots().len() ==> !(#[trigger] func.signature->0.slots()[i]).variadic
                && (all_tags(func.outcome->0[result]).contains(
                placeholder(func.func, SyntheticSlot::Param(i as usize)),
            ) ==> all_tags(a.args[i]) == all_tags(b.args[i]) && label_or_bottom(a.hybrids[i])
                == label_or_bottom(b.hybrids[i])),
    ensures
        all_tags(a.results(ctx, func)[result]) == all_tags(b.results(ctx, func)[result]),
{
    law_results_are_tied_to_what_is_passed(a, ctx, func, result);
    law_results_are_tied_to_what_is_passed(b, ctx, func, result);
    let tags = all_tags(func.outcome->0[result]);
    let branch = ctx.branches.current();
    let captures = a.outcome_captures;
    assert forall|x: TagModel| all_tags(a.results(ctx, func)[result]).contains(x) == all_tags(
        b.results(ctx, func)[result],
    ).contains(x) by {
        assert forall|slot: SyntheticSlot|
            tags.contains(#[trigger] placeholder(func.func, slot)) implies supplies(
            a,
            func,
            branch,
            captures,
            slot,
            x,
        ) == supplies(b, func, branch, captures, slot, x) by {
            if let SyntheticSlot::Param(i) = slot {
                if i < func.signature->0.slots().len() {
                    assert(!func.signature->0.slots()[i as int].variadic);
                }
            }
        }
        assert forall|slot: SyntheticSlot| fills(a, func, captures, slot) == #[trigger] fills(
            b,
            func,
            captures,
            slot,
        ) by {}
        assert(brings_out(a, func, branch, captures, tags, x) == brings_out(
            b,
            func,
            branch,
            captures,
            tags,
            x,
        ));
    }
    assert(all_tags(a.results(ctx, func)[result]) =~= all_tags(b.results(ctx, func)[result]));
}

} // verus!
