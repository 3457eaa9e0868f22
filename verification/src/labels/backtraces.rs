//! The history of how labels came to be.

use vstd::prelude::*;

use crate::functions::{FunctionModel, FunctionRef};
use crate::labels::tags::{text_of, LabelTag, SyntheticSlot, TagModel};
use crate::labels::laws;
use crate::labels::{joined, met, summed, within, without, Label};
use crate::locations::{Location, Pinned, PinnedModel};
use crate::ordered::{increasing, lemma_increasing_determined, same, same_text, Ordered, OrderedMap};

verus! {

/// The operation that resulted in the assignment of a label.
#[derive(Clone, Copy, Debug, PartialEq, Eq, Structural, Hash)]
pub enum LabelBacktraceKind {
    /// An explicit annotation in the source.
    ExplicitAnnotation,
    /// An explicit instruction in the tag of a struct field.
    ExplicitFieldTag,
    /// A blanket source of information.
    BlanketSource,
    /// The assignment of a tainted expression to a variable.
    Assignment,
    /// The initialization of a declared variable.
    DeclarationInitialization,
    /// The parts of a composite expression, taken together.
    Expression,
    /// The possible short-circuiting of a logical operation.
    ShortCircuit,
    /// What the surrounding control flow implies.
    Branch,
    /// A value sent into a channel.
    Send,
    /// The values received from a channel.
    Receive,
    /// A placeholder for a declared parameter.
    FunctionParameter,
    /// The binding of an argument at an invocation.
    FunctionArgument,
    /// The arguments passed to a variadic parameter, taken together.
    FunctionVariadicAggregation,
    /// The receiver of a method where it is bound.
    MethodReceiver,
    /// A placeholder for a symbol captured from an outer scope.
    ClosureCapture,
    /// The binding of a captured symbol at an invocation.
    ClosureCaptureBinding,
    /// One expression of a return statement.
    Return,
    /// The result of a function without known implementation.
    BlackboxCall,
    /// The copying of one slice to another.
    SliceCopy,
    /// The removal of all elements of a slice or map.
    CollectionClear,
    /// The closing of a channel.
    ChannelClose,
    /// The removal of one element of a map.
    MapElementDelete,
    /// Everything that bears on the evaluation of a flow.
    EnforcementAggregation,
}

/// What a [`LabelBacktrace`] stands for.
#[verifier::ext_equal]
pub struct Trace {
    pub kind: LabelBacktraceKind,
    pub label: Set<TagModel>,
    pub symbol: Option<Seq<char>>,
    pub location: PinnedModel<Location>,
    pub children: Seq<Trace>,
}

/// The labels of a list of traces.
pub open spec fn labels_of(ts: Seq<Trace>) -> Seq<Set<TagModel>> {
    ts.map_values(|t: Trace| t.label)
}

/// Whether a frame stands on the spine of a trace: on the path through only
/// children, as long as the label stays the one given.
pub open spec fn spine_has(
    t: Trace,
    kind: LabelBacktraceKind,
    symbol: Option<Seq<char>>,
    location: PinnedModel<Location>,
    label: Set<TagModel>,
) -> bool
    decreases t,
{
    &&& t.label == label
    &&& {
        ||| t.kind == kind && t.symbol == symbol && t.location == location
        ||| t.children.len() == 1 && spine_has(t.children[0], kind, symbol, location, label)
    }
}

/// The trace with the given parts, or its only child if that already shows the
/// same frame for the same label.
pub open spec fn framed(
    kind: LabelBacktraceKind,
    label: Set<TagModel>,
    symbol: Option<Seq<char>>,
    location: PinnedModel<Location>,
    children: Seq<Trace>,
) -> Trace {
    if children.len() == 1 && spine_has(children[0], kind, symbol, location, label) {
        children[0]
    } else {
        Trace { kind, label, symbol, location, children }
    }
}

/// The part of a trace that concerns the tags of a label, if there is any.
pub open spec fn restricted(t: Trace, c: Set<TagModel>) -> Option<Trace>
    decreases t,
{
    if within(t.label, c) {
        Some(t)
    } else if met(t.label, c) == Set::<TagModel>::empty() {
        None
    } else {
        Some(
            framed(
                t.kind,
                met(t.label, c),
                t.symbol,
                t.location,
                all_restricted(t.children, c),
            ),
        )
    }
}

/// The parts of traces that concern the tags of a label.
pub open spec fn all_restricted(ts: Seq<Trace>, c: Set<TagModel>) -> Seq<Trace>
    decreases ts,
{
    if ts.len() == 0 {
        Seq::<Trace>::empty()
    } else {
        let front = all_restricted(ts.subrange(0, ts.len() - 1), c);
        match restricted(ts[ts.len() - 1], c) {
            Some(t) => front.push(t),
            None => front,
        }
    }
}

/// What traces contribute to a label, one after the other, each only for the
/// tags that the ones before it left; and the tags that are left in the end.
pub open spec fn gathered(ts: Seq<Trace>, label: Set<TagModel>) -> (Seq<Trace>, Set<TagModel>)
    decreases ts.len(),
{
    if ts.len() == 0 {
        (Seq::<Trace>::empty(), label)
    } else {
        let (front, left) = gathered(ts.drop_last(), label);
        match restricted(ts.last(), left) {
            Some(t) => (front.push(t), without(left, t.label)),
            None => (front, left),
        }
    }
}

/// A trace without children; none for the empty label.
pub open spec fn root_trace(
    kind: LabelBacktraceKind,
    label: Set<TagModel>,
    symbol: Option<Seq<char>>,
    location: PinnedModel<Location>,
) -> Option<Trace> {
    if label == Set::<TagModel>::empty() {
        None
    } else {
        Some(Trace { kind, label, symbol, location, children: Seq::<Trace>::empty() })
    }
}

/// A trace with the given label, derived from others; none for the empty
/// label.
pub open spec fn derived(
    kind: LabelBacktraceKind,
    label: Set<TagModel>,
    symbol: Option<Seq<char>>,
    location: PinnedModel<Location>,
    children: Seq<Trace>,
) -> Option<Trace> {
    if label == Set::<TagModel>::empty() {
        None
    } else {
        Some(framed(kind, label, symbol, location, gathered(children, label).0))
    }
}

/// A trace with the union of the labels of others, derived from them.
pub open spec fn folded(
    children: Seq<Trace>,
    kind: LabelBacktraceKind,
    symbol: Option<Seq<char>>,
    location: PinnedModel<Location>,
) -> Option<Trace> {
    derived(kind, summed(labels_of(children)), symbol, location, children)
}

/// A trace with one more child.
pub open spec fn extended(t: Trace, child: Trace) -> Trace {
    let children = if t.children.len() == 0 && crate::labels::has_synthetic(t.label) {
        seq![t, child]
    } else {
        seq![child] + t.children
    };
    derived(t.kind, joined(t.label, child.label), t.symbol, t.location, children)->0
}

/// A trace above two others.
pub open spec fn united(
    a: Trace,
    b: Trace,
    kind: LabelBacktraceKind,
    location: PinnedModel<Location>,
) -> Trace {
    match derived(kind, joined(a.label, b.label), None, location, seq![a, b]) {
        Some(t) => t,
        None => a,
    }
}

/// A trace above those of two that exist.
pub open spec fn combined(
    a: Option<Trace>,
    b: Option<Trace>,
    kind: LabelBacktraceKind,
    location: PinnedModel<Location>,
) -> Option<Trace> {
    match (a, b) {
        (Some(x), Some(y)) => Some(united(x, y, kind, location)),
        (Some(x), None) => Some(x),
        (None, y) => y,
    }
}

/// The tags of a label in increasing order.
pub open spec fn sorted_tags(s: Set<TagModel>) -> Seq<TagModel> {
    choose|q: Seq<TagModel>| increasing::<LabelTag>(q) && #[trigger] q.to_set() == s
}

/// The kind of a root that shows a single tag of a trace of the given kind.
pub open spec fn root_kind(tag: TagModel, kind: LabelBacktraceKind) -> LabelBacktraceKind {
    match tag {
        TagModel::Synthetic { slot, .. } => match slot {
            SyntheticSlot::Param(_) | SyntheticSlot::Receiver => {
                LabelBacktraceKind::FunctionParameter
            },
            SyntheticSlot::Capture(_) => LabelBacktraceKind::ClosureCapture,
            SyntheticSlot::CallSiteBranch | SyntheticSlot::YieldFeedback => {
                LabelBacktraceKind::Branch
            },
        },
        _ => kind,
    }
}

/// A root for each of some tags, in the frame of a trace.
pub open spec fn tag_roots(t: Trace, tags: Seq<TagModel>) -> Seq<Trace> {
    tags.map_values(
        |tag: TagModel|
            Trace {
                kind: root_kind(tag, t.kind),
                label: set![tag],
                symbol: t.symbol,
                location: t.location,
                children: Seq::<Trace>::empty(),
            },
    )
}

/// A trace with another label, and one root for each of its tags.
pub open spec fn flattened(t: Trace, label: Set<TagModel>) -> Option<Trace> {
    derived(t.kind, label, t.symbol, t.location, tag_roots(t, sorted_tags(label)))
}

/// A placeholder and the trace, if any, that takes its place.
pub type Substitution = (SyntheticSlot, Option<Trace>);

/// The placeholder for a slot of a function.
pub open spec fn placeholder(func: FunctionModel, slot: SyntheticSlot) -> TagModel {
    TagModel::Synthetic { func, slot }
}

/// The position of the first substitution that concerns a label; the number of
/// substitutions if none does.
pub open spec fn first_relevant(
    label: Set<TagModel>,
    func: FunctionModel,
    subs: Seq<Substitution>,
) -> int
    decreases subs.len(),
{
    if subs.len() == 0 || label.contains(placeholder(func, subs[0].0)) {
        0
    } else {
        1 + first_relevant(label, func, subs.skip(1))
    }
}

/// Counts substitutions, those with a trace twice.
pub open spec fn weight(subs: Seq<Substitution>) -> nat
    decreases subs.len(),
{
    if subs.len() == 0 {
        0
    } else {
        weight(subs.skip(1)) + (if subs[0].1 is Some {
            2nat
        } else {
            1nat
        })
    }
}

/// The first substitution that concerns a label is a valid position or the
/// end, and leaves out all before it.
pub proof fn lemma_first_relevant(
    label: Set<TagModel>,
    func: FunctionModel,
    subs: Seq<Substitution>,
)
    ensures
        0 <= first_relevant(label, func, subs) <= subs.len(),
        first_relevant(label, func, subs) < subs.len() ==> label.contains(
            placeholder(func, subs[first_relevant(label, func, subs)].0),
        ),
        forall|i: int|
            0 <= i < first_relevant(label, func, subs) ==> !label.contains(
                placeholder(func, (#[trigger] subs[i]).0),
            ),
    decreases subs.len(),
{
    if subs.len() > 0 && !label.contains(placeholder(func, subs[0].0)) {
        let rest = subs.skip(1);
        lemma_first_relevant(label, func, rest);
        assert forall|i: int| 0 <= i < first_relevant(label, func, subs) implies !label.contains(
            placeholder(func, (#[trigger] subs[i]).0),
        ) by {
            if i > 0 {
                assert(rest[i - 1] == subs[i]);
            }
        }
    }
}

/// Leaving out substitutions at the front makes them weigh less.
pub proof fn lemma_weight(subs: Seq<Substitution>, k: int)
    requires
        0 <= k < subs.len(),
    ensures
        weight(subs.skip(k)) <= weight(subs),
        weight(subs.skip(k + 1)) < weight(subs),
        subs[k].1 is Some ==> weight(subs) >= 2,
    decreases k,
{
    if k == 0 {
        assert(subs.skip(0) =~= subs);
    } else {
        let rest = subs.skip(1);
        lemma_weight(rest, k - 1);
        assert(rest.skip(k - 1) =~= subs.skip(k));
        assert(rest.skip(k) =~= subs.skip(k + 1));
        assert(rest[k - 1] == subs[k]);
    }
}

/// Whether the trace that takes the place of a placeholder has the placeholder
/// itself.
pub open spec fn is_recursive(func: FunctionModel, sub: Substitution) -> bool {
    sub.1 matches Some(c) && c.label.contains(placeholder(func, sub.0))
}

/// Whether traces of this kind show a placeholder for a parameter or for a
/// captured symbol.
pub open spec fn shows_placeholder(kind: LabelBacktraceKind) -> bool {
    kind is FunctionParameter || kind is ClosureCapture
}

/// The label of a trace, or the empty one.
pub open spec fn label_or_bottom(t: Option<Trace>) -> Set<TagModel> {
    match t {
        Some(x) => x.label,
        None => Set::<TagModel>::empty(),
    }
}

/// The trace, if any, as a list.
pub open spec fn listed(t: Option<Trace>) -> Seq<Trace> {
    match t {
        Some(x) => seq![x],
        None => Seq::<Trace>::empty(),
    }
}

/// A trace with the placeholders of a function substituted, in order: what
/// takes the place of one placeholder is itself subject to the substitutions
/// that follow. None if nothing is left.
pub open spec fn realized(
    t: Trace,
    func: FunctionModel,
    subs: Seq<Substitution>,
    aggregates: bool,
) -> Option<Trace>
    decreases weight(subs), t,
{
    let k = first_relevant(t.label, func, subs);
    if !(0 <= k < subs.len()) {
        Some(t)
    } else {
        proof {
            lemma_weight(subs, k);
            reveal_with_fuel(weight, 2);
        }
        let slot = subs[k].0;
        let tag = placeholder(func, slot);
        let rest = subs.skip(k + 1);
        let recursive = is_recursive(func, subs[k]);
        let concrete = if slot is Capture && recursive {
            realized(subs[k].1->0, func, seq![(slot, None::<Trace>)], false)
        } else {
            subs[k].1
        };
        let label = match concrete {
            Some(c) => joined(c.label, t.label.remove(tag)),
            None => t.label.remove(tag),
        };
        if label == t.label {
            realized(t, func, rest, aggregates)
        } else if recursive && !(slot is Capture) {
            realized(flattened(t, label)->0, func, rest, aggregates)
        } else if shows_placeholder(t.kind) && t.label.len() == 1 {
            match derived(
                slot.realized_kind(),
                label_or_bottom(concrete),
                t.symbol,
                t.location,
                listed(concrete),
            ) {
                Some(x) => realized(x, func, rest, aggregates),
                None => None,
            }
        } else if shows_placeholder(t.kind) && (recursive || !aggregates) {
            Some(t)
        } else if t.kind is Branch && t.children.len() == 0 && t.label.len() == 1 {
            match concrete {
                Some(c) => realized(c, func, rest, aggregates),
                None => None,
            }
        } else {
            folded(
                all_realized(t.children, func, subs.skip(k), aggregates),
                t.kind,
                t.symbol,
                t.location,
            )
        }
    }
}

/// The traces of a list with the placeholders of a function substituted, as
/// far as anything is left of them.
pub open spec fn all_realized(
    ts: Seq<Trace>,
    func: FunctionModel,
    subs: Seq<Substitution>,
    aggregates: bool,
) -> Seq<Trace>
    decreases weight(subs), ts,
{
    if ts.len() == 0 {
        Seq::<Trace>::empty()
    } else {
        let front = all_realized(ts.subrange(0, ts.len() - 1), func, subs, aggregates);
        match realized(ts[ts.len() - 1], func, subs, aggregates) {
            Some(t) => front.push(t),
            None => front,
        }
    }
}

/// The history of operations that led to the attribution of a label.
///
/// The label is never bottom. The children account for the label: they show
/// disjoint parts of it, unless wildcards are at play.
#[derive(Debug)]
pub struct LabelBacktrace {
    kind: LabelBacktraceKind,
    label: Label,
    symbol: Option<String>,
    location: Pinned<Location>,
    children: Vec<LabelBacktrace>,
}

impl LabelBacktrace {
    /// What the backtrace stands for.
    pub closed spec fn trace(self) -> Trace
        decreases self,
    {
        Trace {
            kind: self.kind,
            label: self.label@,
            symbol: text_of(self.symbol),
            location: self.location@,
            children: Seq::new(
                self.children@.len(),
                |i: int|
                    if 0 <= i < self.children@.len() {
                        self.children@[i].trace()
                    } else {
                        arbitrary()
                    },
            ),
        }
    }
}

impl View for LabelBacktrace {
    type V = Trace;

    open spec fn view(&self) -> Trace {
        self.trace()
    }
}

/// What a list of backtraces stands for.
pub open spec fn traces_of(s: Seq<LabelBacktrace>) -> Seq<Trace> {
    s.map_values(|b: LabelBacktrace| b@)
}

/// What a list of references to backtraces stands for.
pub open spec fn traces_of_refs(s: Seq<&LabelBacktrace>) -> Seq<Trace> {
    s.map_values(|b: &LabelBacktrace| b@)
}

/// What an optional backtrace stands for.
pub open spec fn trace_of(b: Option<LabelBacktrace>) -> Option<Trace> {
    match b {
        Some(x) => Some(x@),
        None => None,
    }
}

/// What an optional reference to a backtrace stands for.
pub open spec fn trace_of_ref(b: Option<&LabelBacktrace>) -> Option<Trace> {
    match b {
        Some(x) => Some(x@),
        None => None,
    }
}

/// What a list of substitutions stands for.
pub open spec fn substitutions_of(
    subs: Seq<(SyntheticSlot, Option<&LabelBacktrace>)>,
) -> Seq<Substitution> {
    subs.map_values(|p: (SyntheticSlot, Option<&LabelBacktrace>)| (p.0, trace_of_ref(p.1)))
}

/// A copy of an optional text.
pub fn copy_text(s: &Option<String>) -> (r: Option<String>)
    ensures
        text_of(r) == text_of(*s),
{
    match s {
        Some(t) => Some(t.clone()),
        None => None,
    }
}

/// Whether two optional texts are the same.
pub fn same_optional_text(a: &Option<String>, b: &Option<String>) -> (r: bool)
    ensures
        r == (text_of(*a) == text_of(*b)),
{
    match (a, b) {
        (Some(x), Some(y)) => same_text(x.as_str(), y.as_str()),
        (None, None) => true,
        _ => false,
    }
}

impl LabelBacktrace {
    #[verifier::type_invariant]
    spec fn inv(&self) -> bool {
        self.label.wf() && self.label is Tags
    }

    proof fn lemma_children(&self)
        ensures
            self@.children == traces_of(self.children@),
    {
        assert(self@.children =~= traces_of(self.children@));
    }

    fn assemble(
        kind: LabelBacktraceKind,
        label: Label,
        symbol: Option<String>,
        location: Pinned<Location>,
        children: Vec<LabelBacktrace>,
    ) -> (r: Self)
        requires
            label.wf(),
            label is Tags,
        ensures
            r@ == (Trace {
                kind,
                label: label@,
                symbol: text_of(symbol),
                location: location@,
                children: traces_of(children@),
            }),
    {
        let r = LabelBacktrace { kind, label, symbol, location, children };
        proof {
            r.lemma_children();
        }
        r
    }

    /// A backtrace without children; none for bottom.
    pub fn new_root(
        kind: LabelBacktraceKind,
        label: Label,
        symbol: Option<String>,
        location: Pinned<Location>,
    ) -> (r: Option<Self>)
        requires
            label.wf(),
        ensures
            trace_of(r) == root_trace(kind, label@, text_of(symbol), location@),
    {
        if label.is_bottom() {
            None
        } else {
            let children: Vec<LabelBacktrace> = Vec::new();
            proof {
                assert(traces_of(children@) =~= Seq::<Trace>::empty());
            }
            Some(Self::assemble(kind, label, symbol, location, children))
        }
    }

    /// A backtrace with the given label, derived from others; none for bottom.
    pub fn new(
        kind: LabelBacktraceKind,
        label: Label,
        symbol: Option<String>,
        location: Pinned<Location>,
        children: &Vec<&LabelBacktrace>,
    ) -> (r: Option<Self>)
        requires
            label.wf(),
        ensures
            trace_of(r) == derived(
                kind,
                label@,
                text_of(symbol),
                location@,
                traces_of_refs(children@),
            ),
    {
        if label.is_bottom() {
            return None;
        }
        let ghost ts = traces_of_refs(children@);
        let mut remaining = label.clone();
        let mut kept: Vec<LabelBacktrace> = Vec::new();
        let n: usize = children.len();
        let mut i: usize = 0;
        proof {
            assert(ts.take(0) =~= Seq::<Trace>::empty());
            assert(traces_of(kept@) =~= Seq::<Trace>::empty());
        }
        while i < n
            invariant
                i <= n,
                n == children@.len(),
                ts == traces_of_refs(children@),
                remaining.wf(),
                gathered(ts.take(i as int), label@) == (traces_of(kept@), remaining@),
            decreases n - i,
        {
            proof {
                assert(ts.take(i + 1).drop_last() =~= ts.take(i as int));
                assert(ts.take(i + 1).last() == children@[i as int]@);
            }
            let child = children[i].restrict_to_label(&remaining);
            if let Some(c) = child {
                let left = remaining.difference(c.label());
                let ghost before = traces_of(kept@);
                let ghost added = c@;
                remaining = left;
                kept.push(c);
                proof {
                    assert(traces_of(kept@) =~= before.push(added));
                }
            }
            i = i + 1;
        }
        proof {
            assert(ts.take(n as int) =~= ts);
        }
        Some(Self::from_normalized_parts(kind, label, symbol, location, kept))
    }

    /// The backtrace with the given parts, or its only child if that already
    /// shows the same frame for the same label.
    fn from_normalized_parts(
        kind: LabelBacktraceKind,
        label: Label,
        symbol: Option<String>,
        location: Pinned<Location>,
        children: Vec<LabelBacktrace>,
    ) -> (r: Self)
        requires
            label.wf(),
            label is Tags,
        ensures
            r@ == framed(kind, label@, text_of(symbol), location@, traces_of(children@)),
    {
        if children.len() == 1 {
            proof {
                assert(traces_of(children@)[0] == children@[0]@);
            }
            if children[0].contains_frame_on_full_label_spine(kind, &symbol, &location, &label) {
                let mut children = children;
                let single = children.pop();
                if let Some(c) = single {
                    return c;
                }
                proof {
                    assert(false);
                }
                return vstd::pervasive::unreached();
            }
        }
        Self::assemble(kind, label, symbol, location, children)
    }

    fn contains_frame_on_full_label_spine(
        &self,
        kind: LabelBacktraceKind,
        symbol: &Option<String>,
        location: &Pinned<Location>,
        label: &Label,
    ) -> (r: bool)
        requires
            label.wf(),
        ensures
            r == spine_has(self@, kind, text_of(*symbol), location@, label@),
        decreases self,
    {
        proof {
            use_type_invariant(self);
            self.lemma_children();
        }
        if !self.label.same_as(label) {
            return false;
        }
        if self.kind == kind && same_optional_text(&self.symbol, symbol) && same(
            &self.location,
            location,
        ) {
            return true;
        }
        if self.children.len() == 1 {
            proof {
                assert(self@.children[0] == self.children@[0]@);
            }
            self.children[0].contains_frame_on_full_label_spine(kind, symbol, location, label)
        } else {
            false
        }
    }

    /// The part of the backtrace that concerns the tags of a label, if there
    /// is any.
    pub fn restrict_to_label(&self, constraint: &Label) -> (r: Option<Self>)
        requires
            constraint.wf(),
        ensures
            trace_of(r) == restricted(self@, constraint@),
        decreases self,
    {
        proof {
            use_type_invariant(self);
            self.lemma_children();
        }
        if self.label.is_subset_of(constraint) {
            return Some(self.clone());
        }
        let new_label = self.label.intersect(constraint);
        if new_label.is_bottom() {
            return None;
        }
        let mut children: Vec<LabelBacktrace> = Vec::new();
        let ghost ts = self@.children;
        let n: usize = self.children.len();
        let mut i: usize = 0;
        proof {
            assert(ts.subrange(0, 0) =~= Seq::<Trace>::empty());
            assert(traces_of(children@) =~= Seq::<Trace>::empty());
        }
        while i < n
            invariant
                i <= n,
                n == self.children@.len(),
                ts == traces_of(self.children@),
                constraint.wf(),
                traces_of(children@) == all_restricted(ts.subrange(0, i as int), constraint@),
            decreases n - i,
        {
            proof {
                let upto = ts.subrange(0, i + 1);
                assert(upto.subrange(0, upto.len() - 1) =~= ts.subrange(0, i as int));
                assert(upto[upto.len() - 1] == self.children@[i as int]@);
            }
            let child = self.children[i].restrict_to_label(constraint);
            if let Some(c) = child {
                let ghost before = traces_of(children@);
                let ghost added = c@;
                children.push(c);
                proof {
                    assert(traces_of(children@) =~= before.push(added));
                }
            }
            i = i + 1;
        }
        proof {
            assert(ts.subrange(0, n as int) =~= ts);
        }
        Some(
            Self::from_normalized_parts(
                self.kind,
                new_label,
                copy_text(&self.symbol),
                self.location.duplicate(),
                children,
            ),
        )
    }

    /// The kind of operation that caused the attribution of the label.
    pub fn kind(&self) -> (r: LabelBacktraceKind)
        ensures
            r == self@.kind,
    {
        self.kind
    }

    /// The label that the backtrace describes, which is never bottom.
    pub fn label(&self) -> (r: &Label)
        ensures
            r@ == self@.label,
            r.wf(),
            r is Tags,
            r@ != Set::<TagModel>::empty(),
    {
        proof {
            use_type_invariant(self);
        }
        &self.label
    }

    /// The symbol that has the label, if any.
    pub fn symbol(&self) -> (r: &Option<String>)
        ensures
            text_of(*r) == self@.symbol,
    {
        &self.symbol
    }

    /// Where the operation took place.
    pub fn location(&self) -> (r: &Pinned<Location>)
        ensures
            r@ == self@.location,
    {
        &self.location
    }

    /// The backtraces from which this one is derived.
    pub fn children(&self) -> (r: &Vec<LabelBacktrace>)
        ensures
            traces_of(r@) == self@.children,
    {
        proof {
            self.lemma_children();
        }
        &self.children
    }
}

/// A trace with the placeholders of one function given to another throughout.
pub open spec fn trace_remapped(
    t: Trace,
    from: FunctionModel,
    to: FunctionModel,
    capture_slots: Map<usize, usize>,
) -> Trace
    decreases t,
{
    if t.children.len() == 0 {
        Trace { label: crate::labels::remapped(t.label, from, to, capture_slots), ..t }
    } else {
        folded(
            all_remapped(t.children, from, to, capture_slots),
            t.kind,
            t.symbol,
            t.location,
        )->0
    }
}

/// Traces with the placeholders of one function given to another throughout.
pub open spec fn all_remapped(
    ts: Seq<Trace>,
    from: FunctionModel,
    to: FunctionModel,
    capture_slots: Map<usize, usize>,
) -> Seq<Trace>
    decreases ts,
{
    if ts.len() == 0 {
        Seq::<Trace>::empty()
    } else {
        all_remapped(ts.subrange(0, ts.len() - 1), from, to, capture_slots).push(
            trace_remapped(ts[ts.len() - 1], from, to, capture_slots),
        )
    }
}

/// What is left of a trace once the tags of a label are taken away from it.
pub open spec fn subtracted(t: Trace, label: Set<TagModel>) -> Option<Trace> {
    if label == Set::<TagModel>::empty() {
        Some(t)
    } else if without(t.label, label) == Set::<TagModel>::empty() {
        None
    } else {
        restricted(t, without(t.label, label))
    }
}

/// The union of the labels of backtraces.
fn sum_of_labels(children: &Vec<&LabelBacktrace>) -> (r: Label)
    ensures
        r.wf(),
        r@ == summed(labels_of(traces_of_refs(children@))),
{
    let ghost ls = labels_of(traces_of_refs(children@));
    let mut sum = Label::Bottom;
    let n: usize = children.len();
    let mut i: usize = 0;
    while i < n
        invariant
            i <= n,
            n == children@.len(),
            ls == labels_of(traces_of_refs(children@)),
            sum.wf(),
            sum@ == summed(ls.take(i as int)),
        decreases n - i,
    {
        proof {
            assert(ls.take(i + 1).drop_last() =~= ls.take(i as int));
            assert(ls.take(i + 1).last() == children@[i as int]@.label);
        }
        sum = sum.union(children[i].label());
        i = i + 1;
    }
    proof {
        assert(ls.take(n as int) =~= ls);
    }
    sum
}

/// References to all backtraces of a list.
pub fn refs_to<'a>(v: &'a Vec<LabelBacktrace>) -> (r: Vec<&'a LabelBacktrace>)
    ensures
        traces_of_refs(r@) == traces_of(v@),
        r@.len() == v@.len(),
{
    let mut r: Vec<&'a LabelBacktrace> = Vec::new();
    let n: usize = v.len();
    let mut i: usize = 0;
    while i < n
        invariant
            i <= n,
            n == v@.len(),
            r@.len() == i,
            forall|k: int| 0 <= k < i ==> (#[trigger] r@[k])@ == v@[k]@,
        decreases n - i,
    {
        r.push(&v[i]);
        i = i + 1;
    }
    proof {
        assert(traces_of_refs(r@) =~= traces_of(v@));
    }
    r
}

impl LabelBacktrace {
    /// A backtrace with the union of the labels of others, derived from them;
    /// none if there are no others.
    pub fn fold(
        children: &Vec<&LabelBacktrace>,
        with_kind: LabelBacktraceKind,
        with_symbol: Option<String>,
        at_location: Pinned<Location>,
    ) -> (r: Option<Self>)
        ensures
            trace_of(r) == folded(
                traces_of_refs(children@),
                with_kind,
                text_of(with_symbol),
                at_location@,
            ),
    {
        let label = sum_of_labels(children);
        Self::new(with_kind, label, with_symbol, at_location, children)
    }

    /// The same backtrace with one more child.
    pub fn with_child(&self, child: &Self) -> (r: Self)
        ensures
            r@ == extended(self@, child@),
    {
        proof {
            use_type_invariant(self);
            use_type_invariant(child);
            self.lemma_children();
            laws::law_union_is_least_upper_bound(self@.label, child@.label, child@.label);
            laws::lemma_joined_nonempty(self@.label, child@.label);
        }
        let keep_self_as_child = self.children.len() == 0 && self.label.has_any_synthetic();
        let mut children: Vec<&LabelBacktrace> = Vec::new();
        if keep_self_as_child {
            children.push(self);
            children.push(child);
            proof {
                assert(traces_of_refs(children@) =~= seq![self@, child@]);
            }
        } else {
            children.push(child);
            proof {
                assert(traces_of_refs(children@) =~= seq![child@] + self@.children.take(0));
            }
            let n: usize = self.children.len();
            let mut i: usize = 0;
            while i < n
                invariant
                    i <= n,
                    n == self.children@.len(),
                    self@.children == traces_of(self.children@),
                    traces_of_refs(children@) == seq![child@] + self@.children.take(i as int),
                decreases n - i,
            {
                let ghost before = traces_of_refs(children@);
                children.push(&self.children[i]);
                proof {
                    assert(traces_of_refs(children@) =~= before.push(self.children@[i as int]@));
                    assert(self@.children.take(i + 1) =~= self@.children.take(i as int).push(
                        self@.children[i as int],
                    ));
                }
                i = i + 1;
            }
            proof {
                assert(self@.children.take(n as int) =~= self@.children);
            }
        }
        let label = self.label.union(child.label());
        let new = Self::new(
            self.kind,
            label,
            copy_text(&self.symbol),
            self.location.duplicate(),
            &children,
        );
        match new {
            Some(b) => b,
            None => {
                proof {
                    assert(false);
                }
                vstd::pervasive::unreached()
            },
        }
    }

    /// A backtrace with this one as its only child.
    pub fn into_single_child(
        self,
        parent_kind: LabelBacktraceKind,
        parent_symbol: Option<String>,
        parent_location: Pinned<Location>,
    ) -> (r: Self)
        ensures
            r@ == framed(
                parent_kind,
                self@.label,
                text_of(parent_symbol),
                parent_location@,
                seq![self@],
            ),
    {
        proof {
            use_type_invariant(&self);
        }
        let label = self.label.clone();
        let ghost t = self@;
        let mut children: Vec<LabelBacktrace> = Vec::new();
        children.push(self);
        proof {
            assert(traces_of(children@) =~= seq![t]);
        }
        Self::from_normalized_parts(parent_kind, label, parent_symbol, parent_location, children)
    }

    /// A backtrace above this one and another.
    pub fn union(
        &self,
        other: &Self,
        with_kind: LabelBacktraceKind,
        at_location: Pinned<Location>,
    ) -> (r: Self)
        ensures
            r@ == united(self@, other@, with_kind, at_location@),
    {
        proof {
            use_type_invariant(self);
            use_type_invariant(other);
            laws::lemma_joined_nonempty(self@.label, other@.label);
        }
        let mut children: Vec<&LabelBacktrace> = Vec::new();
        children.push(self);
        children.push(other);
        proof {
            assert(traces_of_refs(children@) =~= seq![self@, other@]);
        }
        let label = self.label.union(other.label());
        let new = Self::new(with_kind, label, None, at_location, &children);
        match new {
            Some(b) => b,
            None => {
                proof {
                    assert(false);
                }
                vstd::pervasive::unreached()
            },
        }
    }

    /// The union of two backtraces, or the only one that there is.
    pub fn combine_options(
        a: Option<Self>,
        b: Option<Self>,
        with_kind: LabelBacktraceKind,
        at_location: &Pinned<Location>,
    ) -> (r: Option<Self>)
        ensures
            trace_of(r) == combined(trace_of(a), trace_of(b), with_kind, at_location@),
    {
        match (a, b) {
            (None, None) => None,
            (Some(x), None) => Some(x),
            (None, Some(y)) => Some(y),
            (Some(x), Some(y)) => Some(x.union(&y, with_kind, at_location.duplicate())),
        }
    }

    /// The backtrace with a placeholder substituted.
    pub fn realize(
        &self,
        from_func: &FunctionRef,
        from_slot: SyntheticSlot,
        concrete: Option<&Self>,
    ) -> (r: Option<Self>)
        ensures
            trace_of(r) == realized(
                self@,
                from_func@,
                seq![(from_slot, trace_of_ref(concrete))],
                false,
            ),
        decreases weight(seq![(from_slot, trace_of_ref(concrete))]), self, 1int,
    {
        let mut subs: Vec<(SyntheticSlot, Option<&LabelBacktrace>)> = Vec::new();
        subs.push((from_slot, concrete));
        proof {
            assert(substitutions_of(subs@) =~= seq![(from_slot, trace_of_ref(concrete))]);
            assert(substitutions_of(subs@).skip(0) =~= substitutions_of(subs@));
        }
        self.realize_all_inner(from_func, &subs, 0, false)
    }

    /// The backtrace with several placeholders substituted, in order: what
    /// takes the place of one is affected only by the substitutions after it.
    pub fn realize_all(
        &self,
        from_func: &FunctionRef,
        substitutions: &Vec<(SyntheticSlot, Option<&LabelBacktrace>)>,
    ) -> (r: Option<Self>)
        ensures
            trace_of(r) == realized(
                self@,
                from_func@,
                substitutions_of(substitutions@),
                false,
            ),
    {
        proof {
            assert(substitutions_of(substitutions@).skip(0) =~= substitutions_of(substitutions@));
        }
        self.realize_all_inner(from_func, substitutions, 0, false)
    }

    /// Like [`LabelBacktrace::realize_all`], but aggregates of placeholders
    /// are taken apart, so that none that can be substituted stays.
    pub fn realize_all_for_enforcement(
        &self,
        from_func: &FunctionRef,
        substitutions: &Vec<(SyntheticSlot, Option<&LabelBacktrace>)>,
    ) -> (r: Option<Self>)
        ensures
            trace_of(r) == realized(self@, from_func@, substitutions_of(substitutions@), true),
    {
        proof {
            assert(substitutions_of(substitutions@).skip(0) =~= substitutions_of(substitutions@));
        }
        self.realize_all_inner(from_func, substitutions, 0, true)
    }

    /// The position of the first substitution that concerns this backtrace.
    fn find_relevant(
        &self,
        from_func: &FunctionRef,
        substitutions: &Vec<(SyntheticSlot, Option<&LabelBacktrace>)>,
        from: usize,
    ) -> (r: usize)
        requires
            from <= substitutions@.len(),
        ensures
            r == from + first_relevant(
                self@.label,
                from_func@,
                substitutions_of(substitutions@).skip(from as int),
            ),
            r <= substitutions@.len(),
    {
        let ghost subs = substitutions_of(substitutions@);
        let n: usize = substitutions.len();
        let mut i: usize = from;
        while i < n
            invariant
                from <= i <= n,
                n == substitutions@.len(),
                subs == substitutions_of(substitutions@),
                from + first_relevant(self@.label, from_func@, subs.skip(from as int)) == i
                    + first_relevant(self@.label, from_func@, subs.skip(i as int)),
            decreases n - i,
        {
            let (slot, _) = substitutions[i];
            proof {
                assert(subs.skip(i as int)[0] == subs[i as int]);
                assert(subs.skip(i as int).skip(1) =~= subs.skip(i + 1));
            }
            if self.label.contains_synthetic_representation(from_func, slot) {
                return i;
            }
            i = i + 1;
        }
        n
    }

    #[verifier::rlimit(40)]
    fn realize_all_inner(
        &self,
        from_func: &FunctionRef,
        substitutions: &Vec<(SyntheticSlot, Option<&LabelBacktrace>)>,
        from: usize,
        realize_aggregates: bool,
    ) -> (r: Option<Self>)
        requires
            from <= substitutions@.len(),
        ensures
            trace_of(r) == realized(
                self@,
                from_func@,
                substitutions_of(substitutions@).skip(from as int),
                realize_aggregates,
            ),
        decreases weight(substitutions_of(substitutions@).skip(from as int)), self, 0int,
    {
        proof {
            use_type_invariant(self);
            self.lemma_children();
        }
        let ghost all = substitutions_of(substitutions@);
        let ghost subs = all.skip(from as int);
        let found: usize = self.find_relevant(from_func, substitutions, from);
        let ghost k = first_relevant(self@.label, from_func@, subs);
        if found == substitutions.len() {
            return Some(self.clone());
        }
        let (from_slot, concrete) = substitutions[found];
        let next: usize = found + 1;
        let ghost tag = placeholder(from_func@, from_slot);
        proof {
            lemma_first_relevant(self@.label, from_func@, subs);
            lemma_weight(subs, k);
            assert(subs[k] == all[found as int]);
            assert(subs.skip(k + 1) =~= all.skip(next as int));
            assert(subs.skip(k) =~= all.skip(found as int));
            reveal_with_fuel(weight, 2);
        }
        let is_recursive_substitution = match concrete {
            Some(c) => c.label().contains_synthetic_representation(from_func, from_slot),
            None => false,
        };
        let is_capture = match from_slot {
            SyntheticSlot::Capture(_) => true,
            _ => false,
        };
        let stripped: Option<LabelBacktrace> = if is_capture && is_recursive_substitution {
            match concrete {
                Some(c) => {
                    proof {
                        assert(weight(seq![(from_slot, None::<Trace>)]) == 1);
                    }
                    c.realize(from_func, from_slot, None)
                },
                None => None,
            }
        } else {
            None
        };
        let concrete: Option<&LabelBacktrace> = if is_capture && is_recursive_substitution {
            stripped.as_ref()
        } else {
            concrete
        };
        let without_slot = self.label.without_synthetic(from_func, from_slot);
        let realized_label = match concrete {
            Some(c) => c.label().union(&without_slot),
            None => without_slot,
        };
        if realized_label.same_as(&self.label) {
            return self.realize_all_inner(from_func, substitutions, next, realize_aggregates);
        }
        if is_recursive_substitution && !is_capture {
            proof {
                laws::lemma_joined_nonempty(concrete->0@.label, self@.label.remove(tag));
            }
            let flat = self.flatten_to_label(realized_label);
            return match flat {
                Some(f) => f.realize_all_inner(
                    from_func,
                    substitutions,
                    next,
                    realize_aggregates,
                ),
                None => {
                    proof {
                        assert(false);
                    }
                    vstd::pervasive::unreached()
                },
            };
        }
        let param_or_capture = match self.kind {
            LabelBacktraceKind::FunctionParameter | LabelBacktraceKind::ClosureCapture => true,
            _ => false,
        };
        let single = self.label.as_single().is_some();
        if param_or_capture && single {
            let mut children: Vec<&LabelBacktrace> = Vec::new();
            let label = match concrete {
                Some(c) => {
                    children.push(c);
                    c.label().clone()
                },
                None => Label::Bottom,
            };
            proof {
                assert(traces_of_refs(children@) =~= listed(trace_of_ref(concrete)));
            }
            let new = Self::new(
                from_slot.realized_backtrace_kind(),
                label,
                copy_text(&self.symbol),
                self.location.duplicate(),
                &children,
            );
            match new {
                Some(x) => x.realize_all_inner(from_func, substitutions, next, realize_aggregates),
                None => None,
            }
        } else if param_or_capture && (is_recursive_substitution || !realize_aggregates) {
            Some(self.clone())
        } else if self.is_branch() && self.children.len() == 0 && single {
            match concrete {
                Some(c) => c.realize_all_inner(from_func, substitutions, next, realize_aggregates),
                None => None,
            }
        } else {
            let mut children: Vec<LabelBacktrace> = Vec::new();
            let ghost ts = self@.children;
            let n: usize = self.children.len();
            let mut i: usize = 0;
            proof {
                assert(ts.subrange(0, 0) =~= Seq::<Trace>::empty());
                assert(traces_of(children@) =~= Seq::<Trace>::empty());
            }
            while i < n
                invariant
                    i <= n,
                    n == self.children@.len(),
                    ts == traces_of(self.children@),
                    found < substitutions@.len(),
                    all == substitutions_of(substitutions@),
                    weight(all.skip(found as int)) <= weight(all.skip(from as int)),
                    traces_of(children@) == all_realized(
                        ts.subrange(0, i as int),
                        from_func@,
                        all.skip(found as int),
                        realize_aggregates,
                    ),
                decreases n - i,
            {
                proof {
                    let upto = ts.subrange(0, i + 1);
                    assert(upto.subrange(0, upto.len() - 1) =~= ts.subrange(0, i as int));
                    assert(upto[upto.len() - 1] == self.children@[i as int]@);
                }
                let child = self.children[i].realize_all_inner(
                    from_func,
                    substitutions,
                    found,
                    realize_aggregates,
                );
                if let Some(c) = child {
                    let ghost before = traces_of(children@);
                    let ghost added = c@;
                    children.push(c);
                    proof {
                        assert(traces_of(children@) =~= before.push(added));
                    }
                }
                i = i + 1;
            }
            proof {
                assert(ts.subrange(0, n as int) =~= ts);
            }
            Self::fold(
                &refs_to(&children),
                self.kind,
                copy_text(&self.symbol),
                self.location.duplicate(),
            )
        }
    }

    fn is_branch(&self) -> (r: bool)
        ensures
            r == (self@.kind is Branch),
    {
        match self.kind {
            LabelBacktraceKind::Branch => true,
            _ => false,
        }
    }

    /// The frame of this backtrace with another label, and one root for each
    /// of its tags; none for bottom.
    fn flatten_to_label(&self, label: Label) -> (r: Option<Self>)
        requires
            label.wf(),
        ensures
            trace_of(r) == flattened(self@, label@),
    {
        let mut roots: Vec<LabelBacktrace> = Vec::new();
        let n: usize = label.count();
        let ghost tags = label.listing();
        let ghost ts = tag_roots(self@, tags);
        let mut i: usize = 0;
        proof {
            assert(sorted_tags(label@) == tags) by {
                assert(tags.to_set() == label@);
                lemma_increasing_determined::<LabelTag>(sorted_tags(label@), tags);
            }
        }
        while i < n
            invariant
                i <= n,
                n == tags.len(),
                tags == label.listing(),
                ts == tag_roots(self@, tags),
                roots@.len() == i,
                forall|k: int| 0 <= k < i ==> (#[trigger] roots@[k])@ == ts[k],
            decreases n - i,
        {
            let tag = label.tag_at(i);
            let kind = match tag {
                LabelTag::Synthetic { slot, .. } => match slot {
                    SyntheticSlot::Param(_) | SyntheticSlot::Receiver => {
                        LabelBacktraceKind::FunctionParameter
                    },
                    SyntheticSlot::Capture(_) => LabelBacktraceKind::ClosureCapture,
                    SyntheticSlot::CallSiteBranch | SyntheticSlot::YieldFeedback => {
                        LabelBacktraceKind::Branch
                    },
                },
                _ => self.kind,
            };
            let single = Label::from_single(tag.clone());
            let children: Vec<LabelBacktrace> = Vec::new();
            proof {
                assert(traces_of(children@) =~= Seq::<Trace>::empty());
            }
            let root = Self::assemble(
                kind,
                single,
                copy_text(&self.symbol),
                self.location.duplicate(),
                children,
            );
            proof {
                assert(root@ == ts[i as int]);
            }
            roots.push(root);
            i = i + 1;
        }
        proof {
            assert(traces_of(roots@) =~= ts);
        }
        Self::new(
            self.kind,
            label,
            copy_text(&self.symbol),
            self.location.duplicate(),
            &refs_to(&roots),
        )
    }

    /// The backtrace with the placeholders of one function given to another
    /// throughout, and with the indices of captured symbols renumbered.
    pub fn remap_synthetics(
        &self,
        from_func: &FunctionRef,
        to_func: &FunctionRef,
        capture_slots: &OrderedMap<usize, usize>,
    ) -> (r: Self)
        ensures
            r@ == trace_remapped(self@, from_func@, to_func@, capture_slots@),
        decreases self,
    {
        proof {
            use_type_invariant(self);
            self.lemma_children();
        }
        if self.children.len() == 0 {
            let label = self.label.remap_synthetics(from_func, to_func, capture_slots);
            let children: Vec<LabelBacktrace> = Vec::new();
            proof {
                assert(traces_of(children@) =~= self@.children);
            }
            return Self::assemble(
                self.kind,
                label,
                copy_text(&self.symbol),
                self.location.duplicate(),
                children,
            );
        }
        let mut children: Vec<LabelBacktrace> = Vec::new();
        let ghost ts = self@.children;
        let n: usize = self.children.len();
        let mut i: usize = 0;
        proof {
            assert(ts.subrange(0, 0) =~= Seq::<Trace>::empty());
            assert(traces_of(children@) =~= Seq::<Trace>::empty());
        }
        while i < n
            invariant
                i <= n,
                n == self.children@.len(),
                ts == traces_of(self.children@),
                children@.len() == i,
                traces_of(children@) == all_remapped(
                    ts.subrange(0, i as int),
                    from_func@,
                    to_func@,
                    capture_slots@,
                ),
            decreases n - i,
        {
            proof {
                let upto = ts.subrange(0, i + 1);
                assert(upto.subrange(0, upto.len() - 1) =~= ts.subrange(0, i as int));
                assert(upto[upto.len() - 1] == self.children@[i as int]@);
            }
            let child = self.children[i].remap_synthetics(from_func, to_func, capture_slots);
            let ghost before = traces_of(children@);
            let ghost added = child@;
            children.push(child);
            proof {
                assert(traces_of(children@) =~= before.push(added));
            }
            i = i + 1;
        }
        proof {
            assert(ts.subrange(0, n as int) =~= ts);
        }
        let new = Self::fold(
            &refs_to(&children),
            self.kind,
            copy_text(&self.symbol),
            self.location.duplicate(),
        );
        match new {
            Some(b) => b,
            None => {
                let first = children[0].label();
                proof {
                    let all = labels_of(traces_of(children@));
                    assert(all[0] == first@);
                    laws::lemma_summed_nonempty(all, 0);
                    assert(false);
                }
                vstd::pervasive::unreached()
            },
        }
    }

    /// Takes the tags of a label away from the backtrace. If nothing would be
    /// left, it stays as it is and the result is `false`.
    pub fn subtract_label(&mut self, subtract: &Label) -> (r: bool)
        requires
            subtract.wf(),
        ensures
            r == (subtracted(old(self)@, subtract@) is Some),
            r ==> Some(final(self)@) == subtracted(old(self)@, subtract@),
            !r ==> final(self)@ == old(self)@,
    {
        if subtract.is_bottom() {
            return true;
        }
        let constraint = self.label().difference(subtract);
        if constraint.is_bottom() {
            return false;
        }
        let new = self.restrict_to_label(&constraint);
        match new {
            Some(b) => {
                *self = b;
                true
            },
            None => false,
        }
    }

    /// Whether two backtraces agree in everything but their children.
    pub fn shallow_eq(&self, other: &Self) -> (r: bool)
        ensures
            r == (self@.kind == other@.kind && self@.label == other@.label && self@.symbol
                == other@.symbol && self@.location == other@.location),
    {
        proof {
            use_type_invariant(self);
            use_type_invariant(other);
        }
        self.kind == other.kind && self.label.same_as(&other.label) && same_optional_text(
            &self.symbol,
            &other.symbol,
        ) && same(&self.location, &other.location)
    }

    /// Whether two backtraces are the same throughout.
    pub fn same_as(&self, other: &Self) -> (r: bool)
        ensures
            r == (self@ == other@),
        decreases self,
    {
        proof {
            self.lemma_children();
            other.lemma_children();
        }
        proof {
            assert(self@.children.len() == self.children@.len());
            assert(other@.children.len() == other.children@.len());
        }
        if !self.shallow_eq(other) || self.children.len() != other.children.len() {
            return false;
        }
        let n: usize = self.children.len();
        let mut i: usize = 0;
        while i < n
            invariant
                i <= n,
                n == self.children@.len(),
                n == other.children@.len(),
                self@.children == traces_of(self.children@),
                other@.children == traces_of(other.children@),
                forall|k: int| 0 <= k < i ==> (#[trigger] self.children@[k])@ == other.children@[k]@,
            decreases n - i,
        {
            if !self.children[i].same_as(&other.children[i]) {
                proof {
                    assert(self@.children[i as int] != other@.children[i as int]);
                }
                return false;
            }
            i = i + 1;
        }
        proof {
            assert(self@.children =~= other@.children);
            assert(self@ =~= other@);
        }
        true
    }
}

impl Clone for LabelBacktrace {
    fn clone(&self) -> (r: Self)
        ensures
            r@ == self@,
        decreases self,
    {
        proof {
            use_type_invariant(self);
            self.lemma_children();
        }
        let mut children: Vec<LabelBacktrace> = Vec::new();
        let n: usize = self.children.len();
        let mut i: usize = 0;
        while i < n
            invariant
                i <= n,
                n == self.children@.len(),
                children@.len() == i,
                forall|k: int| 0 <= k < i ==> (#[trigger] children@[k])@ == self.children@[k]@,
            decreases n - i,
        {
            children.push(self.children[i].clone());
            i = i + 1;
        }
        proof {
            assert(traces_of(children@) =~= traces_of(self.children@));
        }
        Self::assemble(
            self.kind,
            self.label.clone(),
            copy_text(&self.symbol),
            self.location.duplicate(),
            children,
        )
    }
}

} // verus!
