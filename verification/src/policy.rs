//! The security policy: sinks, and what they accept.

use vstd::prelude::*;

use crate::labels::laws::law_intersection_is_greatest_lower_bound;
use crate::labels::tags::{IntoCowStr, TagModel};
use crate::labels::{axes_of, collapsed, covers, met, on_axes, texts_of, within, written, Label};
use crate::locations::Location;

pub mod blanket_directives;
pub mod target_laws;
pub mod targets;

verus! {

/// What kind of construct a sink is attached to.
#[derive(Clone, Copy, Debug, PartialEq, Eq, Structural, Hash)]
pub enum SinkKind {
    /// The declaration of a variable or constant.
    Declaration,
    /// The assignment to an existing symbol.
    Assignment,
    /// A function call.
    Call,
    /// A declared function or a function literal.
    Function,
    /// A send statement.
    Send,
}

/// A sink that the security policy declares.
#[derive(Debug)]
pub struct SinkDescriptor {
    /// What it is attached to.
    pub kind: SinkKind,
    /// Whether it lists what it allows, rather than what it denies.
    pub allow: bool,
    /// What it allows or denies.
    pub label: Label,
    /// Where it stands.
    pub location: Location,
}

/// What a [`SinkDescriptor`] stands for.
#[verifier::ext_equal]
pub struct SinkModel {
    pub kind: SinkKind,
    pub allow: bool,
    pub label: Set<TagModel>,
    pub location: Location,
}

impl View for SinkDescriptor {
    type V = SinkModel;

    open spec fn view(&self) -> SinkModel {
        SinkModel {
            kind: self.kind,
            allow: self.allow,
            label: self.label@,
            location: self.location,
        }
    }
}

/// What a list of written tags stands for where wildcards are accepted.
pub open spec fn written_policy(texts: Seq<Seq<char>>) -> Set<TagModel> {
    collapsed(written(texts).map(|t: TagModel| t.upgraded()))
}

impl SinkModel {
    /// Whether a sink accepts a label. Every sink accepts bottom. One that
    /// lists what it allows accepts a label whose part on the axes that it
    /// names, along with the tags without an axis, it covers; one that lists
    /// what it denies accepts a label that has nothing in common with it.
    pub open spec fn accepts(self, label: Set<TagModel>) -> bool {
        ||| label == Set::<TagModel>::empty()
        ||| self.allow && within(on_axes(label, axes_of(self.label)), self.label)
        ||| !self.allow && met(label, self.label) == Set::<TagModel>::empty()
    }
}

impl SinkDescriptor {
    /// A sink with the given tags; none for one that would deny nothing.
    pub fn new<'a, S: IntoCowStr<'a>>(
        kind: SinkKind,
        allow: bool,
        tags: Vec<S>,
        location: Location,
    ) -> (r: Option<Self>)
        ensures
            r is None <==> !allow && tags@.len() == 0,
            r matches Some(sink) ==> sink.label.wf() && sink@ == (SinkModel {
                kind,
                allow,
                label: written_policy(texts_of(tags@)),
                location,
            }),
    {
        if !allow && tags.len() == 0 {
            return None;
        }
        let mut label = Label::from_tags(tags);
        label.accept_wildcards();
        Some(SinkDescriptor { kind, allow, label, location })
    }

    /// Whether the sink accepts a label.
    pub fn accepts(&self, label: &Label) -> (r: bool)
        requires
            self.label.wf(),
            label.wf(),
        ensures
            r == self@.accepts(label@),
    {
        if label.is_bottom() {
            return true;
        }
        if self.allow {
            let axes = self.label.axes();
            let restricted = label.restrict_to_axes(&axes);
            restricted.is_subset_of(&self.label)
        } else {
            label.intersect(&self.label).is_bottom()
        }
    }

    /// Whether two sinks are the same.
    pub fn same_as(&self, other: &Self) -> (r: bool)
        ensures
            r == (self@ == other@),
    {
        self.kind == other.kind && self.allow == other.allow && self.location == other.location
            && self.label.same_as(&other.label)
    }
}

impl Clone for SinkDescriptor {
    fn clone(&self) -> (r: Self)
        ensures
            r@ == self@,
            self.label.wf() ==> r.label.wf(),
    {
        SinkDescriptor {
            kind: self.kind,
            allow: self.allow,
            label: self.label.clone(),
            location: self.location,
        }
    }
}

/// A sink that accepts a label accepts every label that lies within it, bottom
/// among them.
pub proof fn law_sinks_accept_less(sink: SinkModel, less: Set<TagModel>, more: Set<TagModel>)
    requires
        within(less, more),
        sink.accepts(more),
    ensures
        sink.accepts(less),
        sink.accepts(Set::<TagModel>::empty()),
{
    let axes = axes_of(sink.label);
    if more == Set::<TagModel>::empty() {
        assert(less =~= Set::<TagModel>::empty());
    } else if sink.allow {
        assert forall|t: TagModel| #[trigger] on_axes(less, axes).contains(t) implies covers(
            sink.label,
            t,
        ) by {
            assert(covers(more, t));
            if more.contains(t) {
                assert(on_axes(more, axes).contains(t));
            } else {
                let w = t.wildcard()->0;
                assert(w.axis() == t.axis());
                assert(on_axes(more, axes).contains(w));
                assert(covers(sink.label, w));
            }
        }
    } else {
        law_intersection_is_greatest_lower_bound(less, sink.label, less);
        law_intersection_is_greatest_lower_bound(more, sink.label, more);
        assert forall|t: TagModel| !met(less, sink.label).contains(t) by {
            if met(less, sink.label).contains(t) {
                assert(covers(met(less, sink.label), t));
                assert(covers(less, t) && covers(sink.label, t));
                assert(covers(more, t)) by {
                    if !less.contains(t) {
                        let w = t.wildcard()->0;
                        assert(less.contains(w));
                        assert(covers(more, w));
                        assert(w.wildcard() is None);
                    }
                }
                assert(covers(met(more, sink.label), t));
            }
        }
        assert(met(less, sink.label) =~= Set::<TagModel>::empty());
    }
}

/// A sink that denies a tag accepts no label that has it, and one that denies
/// a whole axis accepts no label with a concrete tag on it.
pub proof fn law_denied_tags(sink: SinkModel, label: Set<TagModel>, tag: TagModel)
    requires
        !sink.allow,
        label.contains(tag),
        covers(sink.label, tag),
    ensures
        !sink.accepts(label),
{
    assert(met(label, sink.label).contains(tag));
}

/// A sink that lists what it allows has no say on tags on other axes.
pub proof fn law_allow_ignores_other_axes(
    sink: SinkModel,
    label: Set<TagModel>,
    tag: TagModel,
)
    requires
        sink.allow,
        sink.accepts(label),
        label != Set::<TagModel>::empty(),
        tag.axis() matches Some(axis) && !axes_of(sink.label).contains(axis),
    ensures
        sink.accepts(label.insert(tag)),
{
    let axes = axes_of(sink.label);
    assert(on_axes(label.insert(tag), axes) =~= on_axes(label, axes));
}

} // verus!
