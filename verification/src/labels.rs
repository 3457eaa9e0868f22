//! Labels: sets of tags that describe where data comes from.
//!
//! A label may be empty, in which case it is called bottom. A concrete tag on
//! an axis specializes the wildcard of that axis; a label that has the
//! wildcard covers all of its specializations and never lists them.

use vstd::prelude::*;

use crate::functions::{FunctionModel, FunctionRef};
use crate::labels::tags::{ConcreteModel, IntoCowStr, LabelTag, SyntheticSlot, TagModel};
use crate::ordered::{lemma_to_set_take, same, same_text, Order, Ordered, OrderedMap, OrderedSet};

pub mod backtraces;
pub mod exchange_laws;
pub mod laws;
pub mod tags;
pub mod trace_laws;

verus! {

/// Whether a set of tags covers a tag: it has the tag or its wildcard.
pub open spec fn covers(s: Set<TagModel>, t: TagModel) -> bool {
    s.contains(t) || (t.wildcard() matches Some(w) && s.contains(w))
}

/// Whether a set of tags lists no tag of which it has the wildcard.
pub open spec fn is_canonical(s: Set<TagModel>) -> bool {
    forall|t: TagModel| #[trigger] s.contains(t) ==> !(t.wildcard() matches Some(w) && s.contains(w))
}

/// A set of tags without those of which it has the wildcard.
pub open spec fn collapsed(s: Set<TagModel>) -> Set<TagModel> {
    Set::new(|t: TagModel| s.contains(t) && !(t.wildcard() matches Some(w) && s.contains(w)))
}

/// The tags of either label.
pub open spec fn joined(a: Set<TagModel>, b: Set<TagModel>) -> Set<TagModel> {
    collapsed(a.union(b))
}

/// The tags of each label that the other covers.
pub open spec fn met(a: Set<TagModel>, b: Set<TagModel>) -> Set<TagModel> {
    Set::new(|t: TagModel| (a.contains(t) && covers(b, t)) || (b.contains(t) && covers(a, t)))
}

/// The tags of the first label that the second does not cover.
pub open spec fn without(a: Set<TagModel>, b: Set<TagModel>) -> Set<TagModel> {
    Set::new(|t: TagModel| a.contains(t) && !covers(b, t))
}

/// Whether the second label covers every tag of the first.
pub open spec fn within(a: Set<TagModel>, b: Set<TagModel>) -> bool {
    forall|t: TagModel| #[trigger] a.contains(t) ==> covers(b, t)
}

/// The tags that have no axis or one of the given axes.
pub open spec fn on_axes(s: Set<TagModel>, axes: Set<Seq<char>>) -> Set<TagModel> {
    Set::new(
        |t: TagModel|
            s.contains(t) && match t.axis() {
                Some(axis) => axes.contains(axis),
                None => true,
            },
    )
}

/// The axes that the tags of a label mention.
pub open spec fn axes_of(s: Set<TagModel>) -> Set<Seq<char>> {
    Set::new(|axis: Seq<char>| exists|t: TagModel| #[trigger] s.contains(t) && t.axis() == Some(axis))
}

/// The label of a list of written tags.
pub open spec fn written(texts: Seq<Seq<char>>) -> Set<TagModel> {
    texts.map_values(|s: Seq<char>| TagModel::Concrete(ConcreteModel::parsed(s))).to_set()
}

/// A label with the placeholders of one function given to another.
pub open spec fn rebound(
    s: Set<TagModel>,
    from: FunctionModel,
    to: FunctionModel,
) -> Set<TagModel> {
    collapsed(s.map(|t: TagModel| rebound_tag(t, from, to)))
}

/// A tag, given to another function if it is a placeholder of the first.
pub open spec fn rebound_tag(t: TagModel, from: FunctionModel, to: FunctionModel) -> TagModel {
    match t {
        TagModel::Synthetic { func, slot } if func == from => TagModel::Synthetic {
            func: to,
            slot,
        },
        _ => t,
    }
}

/// A label with the placeholders of one function given to another, and with
/// the indices of captured symbols renumbered.
pub open spec fn remapped(
    s: Set<TagModel>,
    from: FunctionModel,
    to: FunctionModel,
    capture_slots: Map<usize, usize>,
) -> Set<TagModel> {
    collapsed(s.map(|t: TagModel| remapped_tag(t, from, to, capture_slots)))
}

/// A tag, given to another function if it is a placeholder of the first. A
/// captured symbol that has no new index keeps its own.
pub open spec fn remapped_tag(
    t: TagModel,
    from: FunctionModel,
    to: FunctionModel,
    capture_slots: Map<usize, usize>,
) -> TagModel {
    match t {
        TagModel::Synthetic { func, slot } if func == from => TagModel::Synthetic {
            func: to,
            slot: remapped_slot(slot, capture_slots),
        },
        _ => t,
    }
}

/// A slot with the index of a captured symbol renumbered.
pub open spec fn remapped_slot(
    slot: SyntheticSlot,
    capture_slots: Map<usize, usize>,
) -> SyntheticSlot {
    match slot {
        SyntheticSlot::Capture(i) if capture_slots.dom().contains(i) => SyntheticSlot::Capture(
            capture_slots[i],
        ),
        _ => slot,
    }
}

/// The texts that a list of values stands for.
pub open spec fn texts_of<'a, S: IntoCowStr<'a>>(tags: Seq<S>) -> Seq<Seq<char>> {
    tags.map_values(|s: S| s.text())
}

/// The longest pieces of a list of texts that hold no arrow.
pub open spec fn split_at_arrows(texts: Seq<Seq<char>>) -> Seq<Seq<Seq<char>>>
    decreases texts.len(),
{
    if texts.len() == 0 {
        seq![Seq::<Seq<char>>::empty()]
    } else {
        let front = split_at_arrows(texts.drop_last());
        if texts.last() == "->"@ {
            front.push(Seq::<Seq<char>>::empty())
        } else {
            front.drop_last().push(front.last().push(texts.last()))
        }
    }
}

/// How a list of tags is written.
pub open spec fn tags_text(tags: Seq<LabelTag>) -> Seq<char>
    decreases tags.len(),
{
    if tags.len() == 0 {
        ""@
    } else if tags.len() == 1 {
        tags[0].text()
    } else {
        tags_text(tags.drop_last()) + ", "@ + tags.last().text()
    }
}

/// The security typing of some piece of data.
#[derive(Debug)]
pub enum Label {
    /// A set of tags, which is not empty.
    Tags(OrderedSet<LabelTag>),
    /// The empty label.
    Bottom,
}

impl View for Label {
    type V = Set<TagModel>;

    open spec fn view(&self) -> Set<TagModel> {
        match self {
            Label::Tags(tags) => tags@,
            Label::Bottom => Set::<TagModel>::empty(),
        }
    }
}

impl Label {
    /// A copy of the label that is one that the analysis can produce, if there
    /// is one.
    pub fn settled(&self) -> (r: Option<Self>)
        ensures
            r is Some <==> is_canonical(self@),
            r matches Some(label) ==> label.wf() && label@ == self@,
    {
        match self {
            Label::Tags(tags) => {
                let kept = discard_wildcard_specializations(tags.duplicate());
                if kept.same(tags) {
                    Some(Self::from_set(kept))
                } else {
                    proof {
                        if is_canonical(self@) {
                            assert(collapsed(self@) =~= self@);
                        }
                    }
                    None
                }
            },
            Label::Bottom => {
                proof {
                    assert(is_canonical(Set::<TagModel>::empty()));
                }
                Some(Label::Bottom)
            },
        }
    }

    /// Whether the label is one that the analysis can produce: it is canonical,
    /// and it is bottom if it has no tag.
    pub open spec fn wf(&self) -> bool {
        &&& is_canonical(self@)
        &&& self is Tags ==> self@ != Set::<TagModel>::empty()
    }

    /// The tags as they are stored, in increasing order.
    pub open spec fn stored(&self) -> Seq<LabelTag> {
        match self {
            Label::Tags(tags) => tags.stored(),
            Label::Bottom => Seq::<LabelTag>::empty(),
        }
    }

    fn from_set(tags: OrderedSet<LabelTag>) -> (r: Self)
        requires
            is_canonical(tags@),
        ensures
            r.wf(),
            r@ == tags@,
    {
        if tags.len() == 0 {
            proof {
                assert(tags@ =~= Set::<TagModel>::empty());
            }
            Label::Bottom
        } else {
            proof {
                assert(tags@.len() != 0);
            }
            Label::Tags(tags)
        }
    }

    /// The label of a list of written tags.
    pub fn from_tags<'a, S: IntoCowStr<'a>>(tags: Vec<S>) -> (r: Self)
        ensures
            r.wf(),
            r@ == written(texts_of(tags@)),
    {
        let ghost texts = texts_of(tags@);
        let mut rest = tags;
        let mut set: OrderedSet<LabelTag> = OrderedSet::new();
        let ghost all = texts.map_values(
            |s: Seq<char>| TagModel::Concrete(ConcreteModel::parsed(s)),
        );
        proof {
            assert(texts_of(rest@) =~= texts.take(rest@.len() as int));
            assert(set@ =~= all.skip(all.len() as int).to_set());
        }
        while rest.len() > 0
            invariant
                rest@.len() <= texts.len(),
                all == texts.map_values(
                    |s: Seq<char>| TagModel::Concrete(ConcreteModel::parsed(s)),
                ),
                texts_of(rest@) == texts.take(rest@.len() as int),
                set@ == all.skip(rest@.len() as int).to_set(),
            decreases rest.len(),
        {
            let ghost n = rest@.len() as int;
            proof {
                assert(texts_of(rest@)[n - 1] == rest@[n - 1].text());
                assert(texts.take(n)[n - 1] == texts[n - 1]);
            }
            if let Some(s) = rest.pop() {
                let text = tags::into_text(s);
                set.insert(LabelTag::from_text(text.as_str()));
            }
            proof {
                assert(texts_of(rest@) =~= texts.take(n - 1));
                assert(all.skip(n - 1) =~= seq![all[n - 1]] + all.skip(n));
                crate::ordered::lemma_to_set_push_front(all[n - 1], all.skip(n));
            }
        }
        proof {
            assert(all.skip(0) =~= all);
            laws::lemma_written_canonical(texts);
        }
        Self::from_set(set)
    }

    /// One label for each piece of a list of written tags, as parted by `->`.
    pub fn sequence_from_tags(tags: &Vec<&str>) -> (r: Vec<Self>)
        ensures
            r@.len() == split_at_arrows(texts_of(tags@)).len(),
            forall|i: int|
                0 <= i < r@.len() ==> (#[trigger] r@[i]).wf() && r@[i]@ == written(
                    split_at_arrows(texts_of(tags@))[i],
                ),
    {
        let ghost texts = texts_of(tags@);
        let mut labels: Vec<Self> = Vec::new();
        let mut piece: Vec<&str> = Vec::new();
        let n: usize = tags.len();
        let mut i: usize = 0;
        proof {
            assert(texts.take(0) =~= Seq::<Seq<char>>::empty());
            assert(texts_of(piece@) =~= Seq::<Seq<char>>::empty());
        }
        while i < n
            invariant
                n == tags@.len(),
                i <= n,
                texts == texts_of(tags@),
                split_at_arrows(texts.take(i as int)).len() == labels@.len() + 1,
                texts_of(piece@) == split_at_arrows(texts.take(i as int)).last(),
                forall|k: int|
                    0 <= k < labels@.len() ==> (#[trigger] labels@[k]).wf() && labels@[k]@
                        == written(split_at_arrows(texts.take(i as int))[k]),
            decreases n - i,
        {
            let tag = tags[i];
            let ghost before = split_at_arrows(texts.take(i as int));
            proof {
                assert(texts.take(i + 1).drop_last() =~= texts.take(i as int));
                assert(texts[i as int] == tag@);
                assert(texts.take(i + 1).last() == tag@);
            }
            if same_text(tag, "->") {
                labels.push(Self::from_tags(piece));
                piece = Vec::new();
                proof {
                    assert(texts_of(piece@) =~= Seq::<Seq<char>>::empty());
                }
            } else {
                let ghost texts_before = texts_of(piece@);
                piece.push(tag);
                proof {
                    assert(texts_of(piece@) =~= texts_before.push(tag@));
                }
            }
            i = i + 1;
        }
        proof {
            assert(texts.take(n as int) =~= texts);
        }
        labels.push(Self::from_tags(piece));
        labels
    }

    /// The label of one tag.
    pub fn from_single(tag: LabelTag) -> (r: Self)
        ensures
            r.wf(),
            r is Tags,
            r@ == set![tag@],
    {
        let mut set: OrderedSet<LabelTag> = OrderedSet::new();
        set.insert(tag);
        proof {
            assert(set@ =~= set![tag@]);
            assert(set@.contains(tag@));
        }
        Label::Tags(set)
    }

    /// Turns every tag `axis:*` into the wildcard for that axis, and drops the
    /// tags that specialize one.
    pub fn accept_wildcards(&mut self)
        requires
            old(self).wf(),
        ensures
            final(self).wf(),
            final(self)@ == collapsed(old(self)@.map(|t: TagModel| t.upgraded())),
    {
        let ghost before = self@;
        let mut upgraded: OrderedSet<LabelTag> = OrderedSet::new();
        let n: usize = self.count();
        let mut i: usize = 0;
        let ghost listing = self.listing();
        proof {
            assert(upgraded@ =~= listing.take(0).to_set().map(|t: TagModel| t.upgraded()));
        }
        while i < n
            invariant
                i <= n,
                n == listing.len(),
                listing == self.listing(),
                upgraded@ == listing.take(i as int).to_set().map(|t: TagModel| t.upgraded()),
            decreases n - i,
        {
            let tag = self.tag_at(i).clone();
            upgraded.insert(tag.try_upgrade_to_wildcard());
            proof {
                lemma_to_set_take(listing, i as int);
                laws::lemma_map_insert(
                    listing.take(i as int).to_set(),
                    listing[i as int],
                    |t: TagModel| t.upgraded(),
                );
            }
            i = i + 1;
        }
        proof {
            assert(listing.take(n as int) =~= listing);
            laws::lemma_collapsed(upgraded@);
        }
        let tags = discard_wildcard_specializations(upgraded);
        *self = Self::from_set(tags);
    }

    /// The tags in increasing order.
    pub open spec fn listing(&self) -> Seq<TagModel> {
        match self {
            Label::Tags(tags) => tags.listing(),
            Label::Bottom => Seq::<TagModel>::empty(),
        }
    }

    /// The number of tags.
    pub fn count(&self) -> (r: usize)
        ensures
            r == self.listing().len(),
            r == self.stored().len(),
            self@ == self.listing().to_set(),
            crate::ordered::increasing::<LabelTag>(self.listing()),
    {
        match self {
            Label::Tags(tags) => tags.len(),
            Label::Bottom => {
                proof {
                    assert(Seq::<TagModel>::empty().to_set() =~= Set::<TagModel>::empty());
                }
                0
            },
        }
    }

    /// The tag at a position of the listing.
    pub fn tag_at(&self, i: usize) -> (r: &LabelTag)
        requires
            i < self.listing().len(),
        ensures
            r@ == self.listing()[i as int],
            *r == self.stored()[i as int],
            self@.contains(r@),
    {
        match self {
            Label::Tags(tags) => tags.at(i),
            Label::Bottom => {
                proof {
                    assert(false);
                }
                vstd::pervasive::unreached()
            },
        }
    }

    /// The tags of either label.
    pub fn union(&self, other: &Self) -> (r: Self)
        requires
            self.wf(),
            other.wf(),
        ensures
            r.wf(),
            r@ == joined(self@, other@),
    {
        match (self, other) {
            (Label::Bottom, l) => {
                proof {
                    assert(joined(self@, other@) =~= other@);
                }
                l.clone()
            },
            (l, Label::Bottom) => {
                proof {
                    assert(joined(self@, other@) =~= self@);
                }
                l.clone()
            },
            (Label::Tags(left), Label::Tags(right)) => {
                let both = left.union(right);
                proof {
                    laws::lemma_collapsed(both@);
                }
                Self::from_set(discard_wildcard_specializations(both))
            },
        }
    }

    /// The tags of each label that the other covers.
    pub fn intersect(&self, other: &Self) -> (r: Self)
        requires
            self.wf(),
            other.wf(),
        ensures
            r.wf(),
            r@ == met(self@, other@),
    {
        match (self, other) {
            (Label::Tags(left), Label::Tags(right)) => {
                let common = covered_part(left, right);
                let other_way = covered_part(right, left);
                let tags = common.union(&other_way);
                proof {
                    assert(tags@ =~= met(self@, other@));
                    laws::lemma_met_canonical(self@, other@);
                }
                Self::from_set(tags)
            },
            _ => {
                proof {
                    assert(met(self@, other@) =~= Set::<TagModel>::empty());
                }
                Label::Bottom
            },
        }
    }

    /// The tags of this label that the other does not cover.
    pub fn difference(&self, other: &Self) -> (r: Self)
        requires
            self.wf(),
            other.wf(),
        ensures
            r.wf(),
            r@ == without(self@, other@),
    {
        match (self, other) {
            (Label::Bottom, _) => {
                proof {
                    assert(without(self@, other@) =~= Set::<TagModel>::empty());
                }
                Label::Bottom
            },
            (_, Label::Bottom) => {
                proof {
                    assert(without(self@, other@) =~= self@);
                }
                self.clone()
            },
            (Label::Tags(left), Label::Tags(right)) => {
                let covered = covered_part(left, right);
                let tags = left.difference(&covered);
                proof {
                    assert(tags@ =~= without(self@, other@));
                }
                Self::from_set(tags)
            },
        }
    }

    /// Whether another label covers every tag of this one.
    pub fn is_subset_of(&self, other: &Self) -> (r: bool)
        requires
            self.wf(),
            other.wf(),
        ensures
            r == within(self@, other@),
    {
        match self {
            Label::Bottom => true,
            Label::Tags(sub) => {
                let n: usize = sub.len();
                let mut i: usize = 0;
                while i < n
                    invariant
                        i <= n,
                        n == sub.listing().len(),
                        sub@ == sub.listing().to_set(),
                        self@ == sub@,
                        forall|k: int|
                            0 <= k < i ==> covers(other@, #[trigger] sub.listing()[k]),
                    decreases n - i,
                {
                    let tag = sub.at(i);
                    if !other.contains(tag) {
                        return false;
                    }
                    i = i + 1;
                }
                proof {
                    assert forall|t: TagModel| #[trigger] self@.contains(t) implies covers(
                        other@,
                        t,
                    ) by {
                        assert(sub.listing().contains(t));
                    }
                }
                true
            },
        }
    }

    /// Whether the label covers a tag.
    pub fn contains(&self, tag: &LabelTag) -> (r: bool)
        ensures
            r == covers(self@, tag@),
    {
        match self {
            Label::Bottom => false,
            Label::Tags(tags) => set_covers(tags, tag),
        }
    }

    /// The tags that have no axis or one of the given axes.
    pub fn restrict_to_axes(&self, axes: &OrderedSet<String>) -> (r: Self)
        requires
            self.wf(),
        ensures
            r.wf(),
            r@ == on_axes(self@, axes@),
    {
        let mut kept: OrderedSet<LabelTag> = OrderedSet::new();
        let n: usize = self.count();
        let mut i: usize = 0;
        let ghost listing = self.listing();
        proof {
            assert(kept@ =~= on_axes(listing.take(0).to_set(), axes@));
        }
        while i < n
            invariant
                i <= n,
                n == listing.len(),
                listing == self.listing(),
                kept@ == on_axes(listing.take(i as int).to_set(), axes@),
            decreases n - i,
        {
            let tag = self.tag_at(i);
            let keep = match tag.axis() {
                Some(axis) => axes.contains(&axis.to_owned()),
                None => true,
            };
            if keep {
                kept.insert(tag.clone());
            }
            proof {
                lemma_to_set_take(listing, i as int);
                assert(kept@ =~= on_axes(listing.take(i + 1).to_set(), axes@));
            }
            i = i + 1;
        }
        proof {
            assert(listing.take(n as int) =~= listing);
        }
        Self::from_set(kept)
    }

    /// Whether the label has no tags.
    pub fn is_bottom(&self) -> (r: bool)
        ensures
            r == (self is Bottom),
            self.wf() ==> r == (self@ == Set::<TagModel>::empty()),
    {
        match self {
            Label::Bottom => true,
            Label::Tags(_) => false,
        }
    }

    /// The tags in increasing order: concrete ones, then wildcards, then
    /// placeholders, each lexicographically.
    pub fn tags(&self) -> (r: Vec<LabelTag>)
        ensures
            r@.map_values(|t: LabelTag| t@) == self.listing(),
            self.listing().to_set() == self@,
            crate::ordered::increasing::<LabelTag>(self.listing()),
    {
        let n: usize = self.count();
        let mut r: Vec<LabelTag> = Vec::new();
        let mut i: usize = 0;
        while i < n
            invariant
                i <= n,
                n == self.listing().len(),
                r@.len() == i,
                forall|k: int| 0 <= k < i ==> (#[trigger] r@[k])@ == self.listing()[k],
            decreases n - i,
        {
            r.push(self.tag_at(i).clone());
            i = i + 1;
        }
        proof {
            assert(r@.map_values(|t: LabelTag| t@) =~= self.listing());
        }
        r
    }

    /// The axes that the tags mention.
    pub fn axes(&self) -> (r: OrderedSet<String>)
        ensures
            r@ == axes_of(self@),
    {
        let mut axes: OrderedSet<String> = OrderedSet::new();
        let n: usize = self.count();
        let mut i: usize = 0;
        let ghost listing = self.listing();
        proof {
            assert(axes@ =~= axes_of(listing.take(0).to_set()));
        }
        while i < n
            invariant
                i <= n,
                n == listing.len(),
                listing == self.listing(),
                axes@ == axes_of(listing.take(i as int).to_set()),
            decreases n - i,
        {
            let tag = self.tag_at(i);
            if let Some(axis) = tag.axis() {
                axes.insert(axis.to_owned());
            }
            proof {
                lemma_to_set_take(listing, i as int);
                laws::lemma_axes_insert(listing.take(i as int).to_set(), listing[i as int]);
                assert(axes@ =~= axes_of(listing.take(i + 1).to_set()));
            }
            i = i + 1;
        }
        proof {
            assert(listing.take(n as int) =~= listing);
        }
        axes
    }

    /// The only tag of a label that has exactly one.
    pub fn as_single(&self) -> (r: Option<&LabelTag>)
        ensures
            r is Some <==> self@.len() == 1,
            r matches Some(t) ==> self@ == set![t@],
    {
        match self {
            Label::Tags(tags) => {
                if tags.len() == 1 {
                    let t = tags.at(0);
                    proof {
                        laws::lemma_single(tags.listing());
                    }
                    Some(t)
                } else {
                    None
                }
            },
            Label::Bottom => None,
        }
    }

    /// Whether the label has a placeholder.
    pub fn has_any_synthetic(&self) -> (r: bool)
        ensures
            r == has_synthetic(self@),
    {
        let n: usize = self.count();
        let mut i: usize = 0;
        while i < n
            invariant
                i <= n,
                n == self.listing().len(),
                self@ == self.listing().to_set(),
                forall|k: int| 0 <= k < i ==> !(#[trigger] self.listing()[k] is Synthetic),
            decreases n - i,
        {
            let tag = self.tag_at(i);
            if let LabelTag::Synthetic { .. } = tag {
                return true;
            }
            i = i + 1;
        }
        proof {
            assert forall|t: TagModel| #[trigger] self@.contains(t) implies !(t is Synthetic) by {
                assert(self.listing().contains(t));
            }
        }
        false
    }

    /// Whether the label consists of the placeholder for a slot of a function.
    pub fn is_synthetic_representation(&self, func: &FunctionRef, slot: SyntheticSlot) -> (r: bool)
        ensures
            r == (self@ == set![TagModel::Synthetic { func: func@, slot }]),
    {
        let ghost probe = TagModel::Synthetic { func: func@, slot };
        match self.as_single() {
            Some(t) => {
                proof {
                    assert(self@.contains(t@));
                    if self@ == set![probe] {
                        assert(set![probe].contains(t@));
                    }
                }
                t.is_synthetic_representation(func, slot)
            },
            None => {
                proof {
                    if self@ == set![probe] {
                        assert(set![probe] =~= Set::<TagModel>::empty().insert(probe));
                        assert(self@.len() == 1);
                    }
                }
                false
            },
        }
    }

    /// Whether the label has the placeholder for a slot of a function.
    pub fn contains_synthetic_representation(
        &self,
        func: &FunctionRef,
        slot: SyntheticSlot,
    ) -> (r: bool)
        ensures
            r == self@.contains(TagModel::Synthetic { func: func@, slot }),
    {
        let probe = LabelTag::Synthetic { func: func.duplicate(), slot, identifier: None };
        match self {
            Label::Tags(tags) => tags.contains(&probe),
            Label::Bottom => false,
        }
    }

    /// The label without the placeholder for a slot of a function.
    pub fn without_synthetic(&self, func: &FunctionRef, slot: SyntheticSlot) -> (r: Self)
        requires
            self.wf(),
        ensures
            r.wf(),
            r@ == self@.remove(TagModel::Synthetic { func: func@, slot }),
    {
        let probe = Self::from_single(
            LabelTag::Synthetic { func: func.duplicate(), slot, identifier: None },
        );
        proof {
            let t = TagModel::Synthetic { func: func@, slot };
            assert(without(self@, set![t]) =~= self@.remove(t));
        }
        self.difference(&probe)
    }

    /// The label with the placeholders of one function given to another.
    pub fn rebind_synthetic_func(&self, from_func: &FunctionRef, to_func: &FunctionRef) -> (r: Self)
        requires
            self.wf(),
        ensures
            r.wf(),
            r@ == rebound(self@, from_func@, to_func@),
    {
        let mut set: OrderedSet<LabelTag> = OrderedSet::new();
        let n: usize = self.count();
        let mut i: usize = 0;
        let ghost listing = self.listing();
        let ghost f = |t: TagModel| rebound_tag(t, from_func@, to_func@);
        proof {
            assert(set@ =~= listing.take(0).to_set().map(f));
        }
        while i < n
            invariant
                i <= n,
                n == listing.len(),
                listing == self.listing(),
                f == |t: TagModel| rebound_tag(t, from_func@, to_func@),
                set@ == listing.take(i as int).to_set().map(f),
            decreases n - i,
        {
            let tag = self.tag_at(i);
            let new_tag = match tag {
                LabelTag::Synthetic { func, slot, identifier } => {
                    if same(func, from_func) {
                        let identifier = match identifier {
                            Some(id) => Some(id.clone()),
                            None => None,
                        };
                        LabelTag::Synthetic { func: to_func.duplicate(), slot: *slot, identifier }
                    } else {
                        tag.clone()
                    }
                },
                _ => tag.clone(),
            };
            proof {
                assert(new_tag@ == f(tag@));
            }
            set.insert(new_tag);
            proof {
                lemma_to_set_take(listing, i as int);
                laws::lemma_map_insert(listing.take(i as int).to_set(), listing[i as int], f);
            }
            i = i + 1;
        }
        proof {
            assert(listing.take(n as int) =~= listing);
            laws::lemma_collapsed(set@);
        }
        Self::from_set(discard_wildcard_specializations(set))
    }

    /// The label with the placeholders of one function given to another, and
    /// with the indices of captured symbols renumbered.
    pub fn remap_synthetics(
        &self,
        from_func: &FunctionRef,
        to_func: &FunctionRef,
        capture_slots: &OrderedMap<usize, usize>,
    ) -> (r: Self)
        requires
            self.wf(),
        ensures
            r.wf(),
            r@ == remapped(self@, from_func@, to_func@, capture_slots@),
            self is Tags ==> r is Tags,
    {
        let mut set: OrderedSet<LabelTag> = OrderedSet::new();
        let n: usize = self.count();
        let mut i: usize = 0;
        let ghost listing = self.listing();
        let ghost f = |t: TagModel| remapped_tag(t, from_func@, to_func@, capture_slots@);
        proof {
            assert(set@ =~= listing.take(0).to_set().map(f));
        }
        while i < n
            invariant
                i <= n,
                n == listing.len(),
                listing == self.listing(),
                f == |t: TagModel| remapped_tag(t, from_func@, to_func@, capture_slots@),
                set@ == listing.take(i as int).to_set().map(f),
            decreases n - i,
        {
            let tag = self.tag_at(i);
            let new_tag = match tag {
                LabelTag::Synthetic { func, slot, identifier } => {
                    if same(func, from_func) {
                        let identifier = match identifier {
                            Some(id) => Some(id.clone()),
                            None => None,
                        };
                        let new_slot = match slot {
                            SyntheticSlot::Capture(index) => match capture_slots.get(index) {
                                Some(mapped) => SyntheticSlot::Capture(*mapped),
                                None => *slot,
                            },
                            _ => *slot,
                        };
                        LabelTag::Synthetic { func: to_func.duplicate(), slot: new_slot, identifier }
                    } else {
                        tag.clone()
                    }
                },
                _ => tag.clone(),
            };
            proof {
                assert(new_tag@ == f(tag@));
            }
            set.insert(new_tag);
            proof {
                lemma_to_set_take(listing, i as int);
                laws::lemma_map_insert(listing.take(i as int).to_set(), listing[i as int], f);
            }
            i = i + 1;
        }
        proof {
            assert(listing.take(n as int) =~= listing);
            laws::lemma_collapsed(set@);
            if self is Tags {
                let t = choose|t: TagModel| self@.contains(t);
                if self@ =~= Set::<TagModel>::empty() {
                }
                assert(set@.contains(f(t)));
                assert(crate::labels::covers(collapsed(set@), f(t)));
            }
        }
        Self::from_set(discard_wildcard_specializations(set))
    }

    /// How two labels relate: equal, covered by the other, covering it, or
    /// neither.
    pub fn relation(&self, other: &Self) -> (r: Option<Order>)
        requires
            self.wf(),
            other.wf(),
        ensures
            r == label_relation(self@, other@),
    {
        if self.same_as(other) {
            Some(Order::Equal)
        } else if self.is_subset_of(other) {
            Some(Order::Less)
        } else if other.is_subset_of(self) {
            Some(Order::Greater)
        } else {
            None
        }
    }

    /// Whether two labels have the same tags.
    pub fn same_as(&self, other: &Self) -> (r: bool)
        ensures
            r == (self@ == other@),
    {
        match (self, other) {
            (Label::Tags(a), Label::Tags(b)) => a.same(b),
            (Label::Bottom, Label::Bottom) => true,
            (Label::Tags(a), Label::Bottom) | (Label::Bottom, Label::Tags(a)) => {
                let n: usize = a.len();
                proof {
                    if n == 0 {
                        assert(a@ =~= Set::<TagModel>::empty());
                    }
                }
                n == 0
            },
        }
    }

    /// How the label is written.
    pub fn to_text(&self) -> (r: String)
        ensures
            r@ == "{"@ + tags_text(self.stored()) + "}"@,
    {
        let n: usize = self.count();
        let mut inner = "".to_owned();
        let mut i: usize = 0;
        let ghost stored = self.stored();
        while i < n
            invariant
                i <= n,
                n == self.listing().len(),
                n == stored.len(),
                stored == self.stored(),
                inner@ == tags_text(stored.take(i as int)),
            decreases n - i,
        {
            let text = self.tag_at(i).to_text();
            proof {
                assert(stored.take(i + 1).drop_last() =~= stored.take(i as int));
                assert(stored.take(i + 1).last() == stored[i as int]);
            }
            if i == 0 {
                inner = text;
            } else {
                inner = inner.concat(", ").concat(text.as_str());
            }
            i = i + 1;
        }
        proof {
            assert(stored.take(n as int) =~= stored);
        }
        "{".to_owned().concat(inner.as_str()).concat("}")
    }
}

/// How two labels relate: equal, covered by the other, covering it, or
/// neither.
pub open spec fn label_relation(a: Set<TagModel>, b: Set<TagModel>) -> Option<Order> {
    if a == b {
        Some(Order::Equal)
    } else if within(a, b) {
        Some(Order::Less)
    } else if within(b, a) {
        Some(Order::Greater)
    } else {
        None
    }
}

/// Whether a label has a placeholder.
pub open spec fn has_synthetic(s: Set<TagModel>) -> bool {
    exists|t: TagModel| #[trigger] s.contains(t) && t is Synthetic
}

/// The union of a list of labels, from the first to the last.
pub open spec fn summed(labels: Seq<Set<TagModel>>) -> Set<TagModel>
    decreases labels.len(),
{
    if labels.len() == 0 {
        Set::<TagModel>::empty()
    } else {
        joined(summed(labels.drop_last()), labels.last())
    }
}

/// The views of a list of labels.
pub open spec fn label_views(labels: Seq<Label>) -> Seq<Set<TagModel>> {
    labels.map_values(|l: Label| l@)
}

impl Clone for Label {
    fn clone(&self) -> (r: Self)
        ensures
            r@ == self@,
            self.wf() ==> r.wf(),
            r is Bottom == self is Bottom,
    {
        match self {
            Label::Tags(tags) => Label::Tags(tags.duplicate()),
            Label::Bottom => Label::Bottom,
        }
    }
}

impl PartialEq for Label {
    fn eq(&self, other: &Self) -> (r: bool) {
        match (self, other) {
            (Label::Tags(a), Label::Tags(b)) => a.same(b),
            (Label::Bottom, Label::Bottom) => true,
            _ => false,
        }
    }
}

impl vstd::std_specs::cmp::PartialEqSpecImpl for Label {
    open spec fn obeys_eq_spec() -> bool {
        true
    }

    open spec fn eq_spec(&self, other: &Self) -> bool {
        self@ == other@ && (self is Bottom) == (other is Bottom)
    }
}

fn set_covers(tags: &OrderedSet<LabelTag>, tag: &LabelTag) -> (r: bool)
    ensures
        r == covers(tags@, tag@),
{
    if tags.contains(tag) {
        return true;
    }
    match tag.wildcard() {
        Some(w) => tags.contains(&w),
        None => false,
    }
}

/// The tags of the first set that the second covers.
fn covered_part(left: &OrderedSet<LabelTag>, right: &OrderedSet<LabelTag>) -> (r: OrderedSet<
    LabelTag,
>)
    ensures
        r@ == Set::new(|t: TagModel| left@.contains(t) && covers(right@, t)),
{
    let mut kept: OrderedSet<LabelTag> = OrderedSet::new();
    let n: usize = left.len();
    let mut i: usize = 0;
    let ghost listing = left.listing();
    proof {
        assert(kept@ =~= Set::new(
            |t: TagModel| listing.take(0).to_set().contains(t) && covers(right@, t),
        ));
    }
    while i < n
        invariant
            i <= n,
            n == listing.len(),
            listing == left.listing(),
            kept@ == Set::new(
                |t: TagModel| listing.take(i as int).to_set().contains(t) && covers(right@, t),
            ),
        decreases n - i,
    {
        let tag = left.at(i);
        if set_covers(right, tag) {
            kept.insert(tag.clone());
        }
        proof {
            lemma_to_set_take(listing, i as int);
            assert(kept@ =~= Set::new(
                |t: TagModel| listing.take(i + 1).to_set().contains(t) && covers(right@, t),
            ));
        }
        i = i + 1;
    }
    proof {
        assert(listing.take(n as int) =~= listing);
        assert(kept@ =~= Set::new(|t: TagModel| left@.contains(t) && covers(right@, t)));
    }
    kept
}

/// Drops the tags of which the set has the wildcard: `{cat, dir:*, dir:north}`
/// becomes `{cat, dir:*}`.
pub fn discard_wildcard_specializations(set: OrderedSet<LabelTag>) -> (r: OrderedSet<LabelTag>)
    ensures
        r@ == collapsed(set@),
        is_canonical(r@),
{
    let mut kept: OrderedSet<LabelTag> = OrderedSet::new();
    let n: usize = set.len();
    let mut i: usize = 0;
    let ghost listing = set.listing();
    let ghost keeps = |t: TagModel| !(t.wildcard() matches Some(w) && set@.contains(w));
    proof {
        assert(kept@ =~= listing.take(0).to_set().filter(keeps));
    }
    while i < n
        invariant
            i <= n,
            n == listing.len(),
            listing == set.listing(),
            keeps == |t: TagModel| !(t.wildcard() matches Some(w) && set@.contains(w)),
            kept@ == listing.take(i as int).to_set().filter(keeps),
        decreases n - i,
    {
        let tag = set.at(i);
        let keep = match tag.wildcard() {
            Some(w) => !set.contains(&w),
            None => true,
        };
        if keep {
            kept.insert(tag.clone());
        }
        proof {
            lemma_to_set_take(listing, i as int);
            assert(keep == keeps(tag@));
            assert(kept@ =~= listing.take(i + 1).to_set().filter(keeps));
        }
        i = i + 1;
    }
    proof {
        assert(listing.take(n as int) =~= listing);
        assert(kept@ =~= collapsed(set@));
        laws::lemma_collapsed(set@);
    }
    kept
}

} // verus!
