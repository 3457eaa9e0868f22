//! The tags of which labels are made.

use std::borrow::Cow;

use vstd::prelude::*;

use crate::functions::{function_order, FunctionModel, FunctionRef};
use crate::labels::backtraces::LabelBacktraceKind;
use crate::locations::Span;
use crate::ordered::{compare_text, compare_usize, nat_order, same, same_text, text_order,
    text_order_equal, text_order_flip, text_order_transitive, Order, Ordered};
use crate::text::{decimal, digits, find_char, first_of, trim, trimmed};

verus! {

/// Easy conversion to a text that is owned or borrowed, whichever the value
/// already is.
pub trait IntoCowStr<'a>: Sized {
    /// The text that the value stands for.
    spec fn text(&self) -> Seq<char>;

    /// Consumes a value and converts it into a clone-on-write text.
    fn into_cow(self) -> (r: Cow<'a, str>)
        ensures
            r@ == self.text(),
    ;
}

impl<'a> IntoCowStr<'a> for &'a str {
    open spec fn text(&self) -> Seq<char> {
        (*self)@
    }

    fn into_cow(self) -> (r: Cow<'a, str>) {
        Cow::Borrowed(self)
    }
}

impl<'a> IntoCowStr<'a> for &&'a str {
    open spec fn text(&self) -> Seq<char> {
        (**self)@
    }

    fn into_cow(self) -> (r: Cow<'a, str>) {
        Cow::Borrowed(*self)
    }
}

impl<'a> IntoCowStr<'a> for String {
    open spec fn text(&self) -> Seq<char> {
        self@
    }

    fn into_cow(self) -> (r: Cow<'a, str>) {
        Cow::Owned(self)
    }
}

impl<'a> IntoCowStr<'a> for &'a String {
    open spec fn text(&self) -> Seq<char> {
        (*self)@
    }

    fn into_cow(self) -> (r: Cow<'a, str>) {
        Cow::Borrowed(self.as_str())
    }
}

pub fn into_text<'a, S: IntoCowStr<'a>>(s: S) -> (r: String)
    ensures
        r@ == s.text(),
{
    match s.into_cow() {
        Cow::Borrowed(b) => b.to_owned(),
        Cow::Owned(o) => o,
    }
}

/// A tag with the axis to which it is bound, if any, both in canonical form.
#[derive(Debug, Hash)]
pub struct ConcreteLabelTag {
    axis: Option<String>,
    tag: String,
}

/// What a [`ConcreteLabelTag`] stands for.
#[verifier::ext_equal]
pub struct ConcreteModel {
    pub axis: Option<Seq<char>>,
    pub tag: Seq<char>,
}

/// The view of an optional text.
pub open spec fn text_of(s: Option<String>) -> Option<Seq<char>> {
    match s {
        Some(t) => Some(t@),
        None => None,
    }
}

impl View for ConcreteLabelTag {
    type V = ConcreteModel;

    closed spec fn view(&self) -> ConcreteModel {
        ConcreteModel { axis: text_of(self.axis), tag: self.tag@ }
    }
}

impl ConcreteModel {
    /// What is left of a tag after a prefix character, if anything is.
    pub open spec fn unprefixed(tag: Seq<char>, prefix: char) -> Option<Seq<char>> {
        if tag.len() > 0 && tag[0] == prefix && trimmed(tag.drop_first()).len() > 0 {
            Some(trimmed(tag.drop_first()))
        } else {
            None
        }
    }

    /// The canonical form of an axis and a tag: a tag without an axis that
    /// begins with a well-known prefix is bound to the axis of that prefix.
    pub open spec fn canonical(axis: Option<Seq<char>>, tag: Seq<char>) -> ConcreteModel {
        match (axis, Self::unprefixed(tag, '$'), Self::unprefixed(tag, '?')) {
            (None, Some(rest), _) => ConcreteModel { axis: Some("secret"@), tag: rest },
            (None, None, Some(rest)) => ConcreteModel { axis: Some("untrusted"@), tag: rest },
            _ => ConcreteModel { axis, tag },
        }
    }

    /// What a written tag stands for: the first colon parts the axis from the
    /// tag, unless either of them would be blank.
    pub open spec fn parsed(s: Seq<char>) -> ConcreteModel {
        let i = first_of(s, ':');
        if i < s.len() && trimmed(s.take(i)).len() > 0 && trimmed(s.skip(i + 1)).len() > 0 {
            Self::canonical(Some(trimmed(s.take(i))), trimmed(s.skip(i + 1)))
        } else {
            Self::canonical(None, s)
        }
    }

    /// How the tag is written.
    pub open spec fn text(self) -> Seq<char> {
        match self.axis {
            Some(axis) => axis + ":"@ + self.tag,
            None => self.tag,
        }
    }
}

fn strip_char_prefix<'a>(s: &'a str, prefix: char) -> (r: Option<&'a str>)
    ensures
        r is Some <==> ConcreteModel::unprefixed(s@, prefix) is Some,
        r matches Some(rest) ==> ConcreteModel::unprefixed(s@, prefix) == Some(rest@),
{
    let n: usize = s.unicode_len();
    if n == 0 || s.get_char(0) != prefix {
        return None;
    }
    let tail = s.substring_char(1, n);
    proof {
        assert(tail@ =~= s@.drop_first());
    }
    let rest = trim(tail);
    if rest.is_empty() {
        None
    } else {
        Some(rest)
    }
}

impl ConcreteLabelTag {
    /// Puts an axis, if there is one, and a tag into canonical form.
    ///
    /// If no axis is given and the tag carries a well-known prefix, the prefix
    /// is stripped and the tag is bound to the axis of the prefix: `$` stands
    /// for `secret` and `?` for `untrusted`.
    pub fn new<'a, A: IntoCowStr<'a>, T: IntoCowStr<'a>>(axis: Option<A>, tag: T) -> (r: Self)
        ensures
            r@ == ConcreteModel::canonical(
                match axis {
                    Some(a) => Some(a.text()),
                    None => None,
                },
                tag.text(),
            ),
    {
        let tag = into_text(tag);
        match axis {
            Some(a) => ConcreteLabelTag { axis: Some(into_text(a)), tag },
            None => {
                if let Some(rest) = strip_char_prefix(tag.as_str(), '$') {
                    return ConcreteLabelTag {
                        axis: Some("secret".to_owned()),
                        tag: rest.to_owned(),
                    };
                }
                if let Some(rest) = strip_char_prefix(tag.as_str(), '?') {
                    return ConcreteLabelTag {
                        axis: Some("untrusted".to_owned()),
                        tag: rest.to_owned(),
                    };
                }
                ConcreteLabelTag { axis: None, tag }
            },
        }
    }

    /// Reads a written tag, such as `violet`, `$env` or `dir:north`.
    pub fn from_text(s: &str) -> (r: Self)
        ensures
            r@ == ConcreteModel::parsed(s@),
    {
        let n: usize = s.unicode_len();
        let i: usize = find_char(s, ':');
        if i < n {
            let before = s.substring_char(0, i);
            let after = s.substring_char(i + 1, n);
            proof {
                assert(before@ =~= s@.take(i as int));
                assert(after@ =~= s@.skip(i + 1));
            }
            let axis = trim(before);
            let tag = trim(after);
            if !axis.is_empty() && !tag.is_empty() {
                return Self::new(Some(axis), tag);
            }
        }
        Self::new(None::<&str>, s)
    }

    /// The axis to which the tag is bound, if any.
    pub fn axis(&self) -> (r: Option<&str>)
        ensures
            r is Some <==> self@.axis is Some,
            r matches Some(a) ==> self@.axis == Some(a@),
    {
        match &self.axis {
            Some(a) => Some(a.as_str()),
            None => None,
        }
    }

    /// The tag without its axis.
    pub fn tag(&self) -> (r: &str)
        ensures
            r@ == self@.tag,
    {
        self.tag.as_str()
    }

    /// How the tag is written.
    pub fn to_text(&self) -> (r: String)
        ensures
            r@ == self@.text(),
    {
        match &self.axis {
            Some(axis) => axis.clone().concat(":").concat(self.tag.as_str()),
            None => self.tag.clone(),
        }
    }
}

impl Clone for ConcreteLabelTag {
    fn clone(&self) -> (r: Self)
        ensures
            r@ == self@,
    {
        let axis = match &self.axis {
            Some(a) => Some(a.clone()),
            None => None,
        };
        ConcreteLabelTag { axis, tag: self.tag.clone() }
    }
}

/// Compares two optional texts; the absent one comes first.
pub open spec fn axis_order(a: Option<Seq<char>>, b: Option<Seq<char>>) -> Order {
    match (a, b) {
        (None, None) => Order::Equal,
        (None, Some(_)) => Order::Less,
        (Some(_), None) => Order::Greater,
        (Some(x), Some(y)) => text_order(x, y),
    }
}

impl Ordered for ConcreteLabelTag {
    open spec fn order(a: ConcreteModel, b: ConcreteModel) -> Order {
        axis_order(a.axis, b.axis).then_by(text_order(a.tag, b.tag))
    }

    proof fn order_equal(a: ConcreteModel, b: ConcreteModel) {
        text_order_equal(a.tag, b.tag);
        if let (Some(x), Some(y)) = (a.axis, b.axis) {
            text_order_equal(x, y);
        }
    }

    proof fn order_flip(a: ConcreteModel, b: ConcreteModel) {
        text_order_flip(a.tag, b.tag);
        if let (Some(x), Some(y)) = (a.axis, b.axis) {
            text_order_flip(x, y);
        }
    }

    proof fn order_transitive(a: ConcreteModel, b: ConcreteModel, c: ConcreteModel) {
        if text_order(a.tag, b.tag) is Less && text_order(b.tag, c.tag) is Less {
            text_order_transitive(a.tag, b.tag, c.tag);
        }
        if let (Some(x), Some(y), Some(z)) = (a.axis, b.axis, c.axis) {
            text_order_equal(x, y);
            text_order_equal(y, z);
            text_order_equal(x, z);
            if text_order(x, y) is Less && text_order(y, z) is Less {
                text_order_transitive(x, y, z);
            }
        }
    }

    fn compare(&self, other: &Self) -> (r: Order) {
        let first = match (&self.axis, &other.axis) {
            (None, None) => Order::Equal,
            (None, Some(_)) => Order::Less,
            (Some(_), None) => Order::Greater,
            (Some(x), Some(y)) => compare_text(x.as_str(), y.as_str()),
        };
        match first {
            Order::Equal => compare_text(self.tag.as_str(), other.tag.as_str()),
            o => o,
        }
    }

    fn duplicate(&self) -> (r: Self) {
        self.clone()
    }
}

/// What a synthetic tag stands in for, within one function.
#[derive(Clone, Copy, Debug, PartialEq, Eq, Structural, Hash)]
pub enum SyntheticSlot {
    /// The label of the argument for the parameter at this index.
    Param(usize),
    /// The label of the receiver of a method.
    Receiver,
    /// The label of the captured symbol registered under this index.
    Capture(usize),
    /// The label of the branch in which the function is invoked.
    CallSiteBranch,
    /// The label fed back from a loop body to the iterator that drives it.
    YieldFeedback,
}

impl SyntheticSlot {
    /// Where the kind of slot stands among the kinds.
    pub open spec fn rank(self) -> nat {
        match self {
            SyntheticSlot::Param(_) => 0,
            SyntheticSlot::Receiver => 1,
            SyntheticSlot::Capture(_) => 2,
            SyntheticSlot::CallSiteBranch => 3,
            SyntheticSlot::YieldFeedback => 4,
        }
    }

    /// The index that a slot holds; 0 for one that holds none.
    pub open spec fn index(self) -> nat {
        match self {
            SyntheticSlot::Param(i) => i as nat,
            SyntheticSlot::Capture(i) => i as nat,
            _ => 0,
        }
    }

    /// How a slot is written.
    pub open spec fn text(self) -> Seq<char> {
        match self {
            SyntheticSlot::Param(i) => "#"@ + digits(i as nat),
            SyntheticSlot::Receiver => "$RECEIVER"@,
            SyntheticSlot::Capture(i) => "$CAPTURE#"@ + digits(i as nat),
            SyntheticSlot::CallSiteBranch => "$BRANCH"@,
            SyntheticSlot::YieldFeedback => "$YIELD_FEEDBACK"@,
        }
    }

    /// The operation that a slot turns into once its label is known.
    pub open spec fn realized_kind(self) -> LabelBacktraceKind {
        match self {
            SyntheticSlot::Param(_) => LabelBacktraceKind::FunctionArgument,
            SyntheticSlot::Receiver => LabelBacktraceKind::MethodReceiver,
            SyntheticSlot::Capture(_) => LabelBacktraceKind::ClosureCaptureBinding,
            SyntheticSlot::CallSiteBranch | SyntheticSlot::YieldFeedback => {
                LabelBacktraceKind::Branch
            },
        }
    }

    /// The operation that a slot turns into once its label is known.
    pub fn realized_backtrace_kind(&self) -> (r: LabelBacktraceKind)
        ensures
            r == self.realized_kind(),
    {
        match self {
            SyntheticSlot::Param(_) => LabelBacktraceKind::FunctionArgument,
            SyntheticSlot::Receiver => LabelBacktraceKind::MethodReceiver,
            SyntheticSlot::Capture(_) => LabelBacktraceKind::ClosureCaptureBinding,
            SyntheticSlot::CallSiteBranch | SyntheticSlot::YieldFeedback => {
                LabelBacktraceKind::Branch
            },
        }
    }

    /// How a slot is written.
    pub fn to_text(&self) -> (r: String)
        ensures
            r@ == self.text(),
    {
        match self {
            SyntheticSlot::Param(i) => "#".to_owned().concat(decimal(*i).as_str()),
            SyntheticSlot::Receiver => "$RECEIVER".to_owned(),
            SyntheticSlot::Capture(i) => "$CAPTURE#".to_owned().concat(decimal(*i).as_str()),
            SyntheticSlot::CallSiteBranch => "$BRANCH".to_owned(),
            SyntheticSlot::YieldFeedback => "$YIELD_FEEDBACK".to_owned(),
        }
    }
}

/// Compares two slots by kind, then by index.
pub open spec fn slot_order(a: SyntheticSlot, b: SyntheticSlot) -> Order {
    nat_order(a.rank(), b.rank()).then_by(nat_order(a.index(), b.index()))
}

fn compare_slots(a: SyntheticSlot, b: SyntheticSlot) -> (r: Order)
    ensures
        r == slot_order(a, b),
{
    let (x, i): (usize, usize) = slot_key(a);
    let (y, j): (usize, usize) = slot_key(b);
    match compare_usize(x, y) {
        Order::Equal => compare_usize(i, j),
        o => o,
    }
}

fn slot_key(a: SyntheticSlot) -> (r: (usize, usize))
    ensures
        r.0 == a.rank(),
        r.1 == a.index(),
{
    match a {
        SyntheticSlot::Param(i) => (0, i),
        SyntheticSlot::Receiver => (1, 0),
        SyntheticSlot::Capture(i) => (2, i),
        SyntheticSlot::CallSiteBranch => (3, 0),
        SyntheticSlot::YieldFeedback => (4, 0),
    }
}

/// One tag of a label.
#[derive(Debug, Hash)]
pub enum LabelTag {
    /// A tag that a user wrote, like `blue` or `dir:north`.
    Concrete(ConcreteLabelTag),
    /// A shorthand for all concrete tags of one axis, like `dir:*`.
    AxisWildcard(String),
    /// A placeholder for a label that is not known yet.
    Synthetic {
        /// The function to which the placeholder belongs.
        func: FunctionRef,
        /// What it stands in for within that function.
        slot: SyntheticSlot,
        /// The identifier of the parameter, if any. It serves people only: two
        /// placeholders for the same slot of one function are the same tag.
        identifier: Option<Span>,
    },
}

/// What a [`LabelTag`] stands for.
#[verifier::ext_equal]
pub enum TagModel {
    Concrete(ConcreteModel),
    AxisWildcard(Seq<char>),
    Synthetic { func: FunctionModel, slot: SyntheticSlot },
}

impl View for LabelTag {
    type V = TagModel;

    open spec fn view(&self) -> TagModel {
        match self {
            LabelTag::Concrete(c) => TagModel::Concrete(c@),
            LabelTag::AxisWildcard(axis) => TagModel::AxisWildcard(axis@),
            LabelTag::Synthetic { func, slot, .. } => TagModel::Synthetic {
                func: func@,
                slot: *slot,
            },
        }
    }
}

impl TagModel {
    /// The axis of a tag, if it has one.
    pub open spec fn axis(self) -> Option<Seq<char>> {
        match self {
            TagModel::Concrete(c) => c.axis,
            TagModel::AxisWildcard(axis) => Some(axis),
            TagModel::Synthetic { .. } => None,
        }
    }

    /// The wildcard that a tag specializes, if it is a concrete one on an axis.
    pub open spec fn wildcard(self) -> Option<TagModel> {
        match self {
            TagModel::Concrete(c) => match c.axis {
                Some(axis) => Some(TagModel::AxisWildcard(axis)),
                None => None,
            },
            _ => None,
        }
    }

    /// The tag that a written `axis:*` becomes where wildcards are accepted.
    pub open spec fn upgraded(self) -> TagModel {
        match self {
            TagModel::Concrete(c) => match c.axis {
                Some(axis) => if c.tag == "*"@ {
                    TagModel::AxisWildcard(axis)
                } else {
                    self
                },
                None => self,
            },
            _ => self,
        }
    }

    /// Where the kind of tag stands among the kinds.
    pub open spec fn rank(self) -> nat {
        match self {
            TagModel::Concrete(_) => 0,
            TagModel::AxisWildcard(_) => 1,
            TagModel::Synthetic { .. } => 2,
        }
    }
}

impl LabelTag {
    /// Reads a written tag as a concrete one.
    pub fn from_text(s: &str) -> (r: Self)
        ensures
            r@ == TagModel::Concrete(ConcreteModel::parsed(s@)),
    {
        LabelTag::Concrete(ConcreteLabelTag::from_text(s))
    }

    /// The axis of the tag, if it has one.
    pub fn axis(&self) -> (r: Option<&str>)
        ensures
            r is Some <==> self@.axis() is Some,
            r matches Some(a) ==> self@.axis() == Some(a@),
    {
        match self {
            LabelTag::Concrete(c) => c.axis(),
            LabelTag::AxisWildcard(axis) => Some(axis.as_str()),
            LabelTag::Synthetic { .. } => None,
        }
    }

    /// The wildcard that the tag specializes, if it is a concrete one on an
    /// axis.
    pub fn wildcard(&self) -> (r: Option<LabelTag>)
        ensures
            r is Some <==> self@.wildcard() is Some,
            r matches Some(w) ==> self@.wildcard() == Some(w@),
    {
        match self {
            LabelTag::Concrete(c) => match c.axis() {
                Some(axis) => Some(LabelTag::AxisWildcard(axis.to_owned())),
                None => None,
            },
            _ => None,
        }
    }

    /// Turns a concrete tag `axis:*` into the wildcard for that axis, and
    /// leaves every other tag as it is.
    pub fn try_upgrade_to_wildcard(self) -> (r: Self)
        ensures
            r@ == self@.upgraded(),
    {
        if let LabelTag::Concrete(c) = &self {
            if let Some(axis) = c.axis() {
                if same_text(c.tag(), "*") {
                    return LabelTag::AxisWildcard(axis.to_owned());
                }
            }
        }
        self
    }

    /// Whether the tag is the placeholder for a slot of a function.
    pub fn is_synthetic_representation(&self, func: &FunctionRef, slot: SyntheticSlot) -> (r: bool)
        ensures
            r == (self@ == TagModel::Synthetic { func: func@, slot }),
    {
        match self {
            LabelTag::Synthetic { func: tag_func, slot: tag_slot, .. } => {
                *tag_slot == slot && same(tag_func, func)
            },
            _ => false,
        }
    }

    /// How the tag is written.
    pub open spec fn text(&self) -> Seq<char> {
        match self {
            LabelTag::Concrete(c) => c@.text(),
            LabelTag::AxisWildcard(axis) => axis@ + ":*"@,
            LabelTag::Synthetic { func, slot, identifier } => {
                let head = "<"@ + function_text(func@) + slot.text();
                match identifier {
                    Some(id) => head + ":"@ + id@.content + ">"@,
                    None => head + ">"@,
                }
            },
        }
    }

    /// How the tag is written.
    pub fn to_text(&self) -> (r: String)
        ensures
            r@ == self.text(),
    {
        match self {
            LabelTag::Concrete(c) => c.to_text(),
            LabelTag::AxisWildcard(axis) => axis.clone().concat(":*"),
            LabelTag::Synthetic { func, slot, identifier } => {
                let head = "<".to_owned().concat(func.to_text().as_str()).concat(
                    slot.to_text().as_str(),
                );
                match identifier {
                    Some(id) => head.concat(":").concat(id.content()).concat(">"),
                    None => head.concat(">"),
                }
            },
        }
    }
}

/// How a reference to a function is written.
pub open spec fn function_text(f: FunctionModel) -> Seq<char> {
    match f {
        FunctionModel::Named(name) => name.inner.content,
        FunctionModel::BuiltIn(name) => name,
        FunctionModel::Anonymous(at) => "func@"@ + digits(at.inner.start as nat),
        FunctionModel::BlackboxInference(at) => "func@"@ + digits(at.inner.start as nat),
    }
}

impl Clone for LabelTag {
    fn clone(&self) -> (r: Self)
        ensures
            r@ == self@,
            r.text() == self.text(),
    {
        match self {
            LabelTag::Concrete(c) => LabelTag::Concrete(c.clone()),
            LabelTag::AxisWildcard(axis) => LabelTag::AxisWildcard(axis.clone()),
            LabelTag::Synthetic { func, slot, identifier } => {
                let identifier = match identifier {
                    Some(id) => Some(id.clone()),
                    None => None,
                };
                LabelTag::Synthetic { func: func.duplicate(), slot: *slot, identifier }
            },
        }
    }
}

/// Compares two tags by kind, then by what they hold.
pub open spec fn tag_order(a: TagModel, b: TagModel) -> Order {
    match (a, b) {
        (TagModel::Concrete(x), TagModel::Concrete(y)) => ConcreteLabelTag::order(x, y),
        (TagModel::AxisWildcard(x), TagModel::AxisWildcard(y)) => text_order(x, y),
        (
            TagModel::Synthetic { func: f, slot: s },
            TagModel::Synthetic { func: g, slot: t },
        ) => function_order(f, g).then_by(slot_order(s, t)),
        _ => nat_order(a.rank(), b.rank()),
    }
}

impl Ordered for LabelTag {
    open spec fn order(a: TagModel, b: TagModel) -> Order {
        tag_order(a, b)
    }

    proof fn order_equal(a: TagModel, b: TagModel) {
        assert(Self::order(a, b) == tag_order(a, b));
        match (a, b) {
            (TagModel::Concrete(x), TagModel::Concrete(y)) => {
                ConcreteLabelTag::order_equal(x, y);
            },
            (TagModel::AxisWildcard(x), TagModel::AxisWildcard(y)) => {
                text_order_equal(x, y);
            },
            (
                TagModel::Synthetic { func: f, slot: s },
                TagModel::Synthetic { func: g, slot: t },
            ) => {
                FunctionRef::order_equal(f, g);
            },
            _ => {},
        }
    }

    proof fn order_flip(a: TagModel, b: TagModel) {
        assert(Self::order(a, b) == tag_order(a, b));
        assert(Self::order(b, a) == tag_order(b, a));
        match (a, b) {
            (TagModel::Concrete(x), TagModel::Concrete(y)) => {
                ConcreteLabelTag::order_flip(x, y);
            },
            (TagModel::AxisWildcard(x), TagModel::AxisWildcard(y)) => {
                text_order_flip(x, y);
            },
            (
                TagModel::Synthetic { func: f, slot: s },
                TagModel::Synthetic { func: g, slot: t },
            ) => {
                FunctionRef::order_flip(f, g);
            },
            _ => {},
        }
    }

    proof fn order_transitive(a: TagModel, b: TagModel, c: TagModel) {
        assert(Self::order(a, b) == tag_order(a, b));
        assert(Self::order(b, c) == tag_order(b, c));
        assert(Self::order(a, c) == tag_order(a, c));
        match (a, b, c) {
            (TagModel::Concrete(x), TagModel::Concrete(y), TagModel::Concrete(z)) => {
                ConcreteLabelTag::order_transitive(x, y, z);
            },
            (TagModel::AxisWildcard(x), TagModel::AxisWildcard(y), TagModel::AxisWildcard(z)) => {
                text_order_transitive(x, y, z);
            },
            (
                TagModel::Synthetic { func: f, slot: s },
                TagModel::Synthetic { func: g, slot: t },
                TagModel::Synthetic { func: h, slot: u },
            ) => {
                FunctionRef::order_equal(f, g);
                FunctionRef::order_equal(g, h);
                FunctionRef::order_equal(f, h);
                if function_order(f, g) is Less && function_order(g, h) is Less {
                    FunctionRef::order_transitive(f, g, h);
                }
            },
            _ => {},
        }
    }

    fn compare(&self, other: &Self) -> (r: Order) {
        match (self, other) {
            (LabelTag::Concrete(x), LabelTag::Concrete(y)) => x.compare(y),
            (LabelTag::AxisWildcard(x), LabelTag::AxisWildcard(y)) => compare_text(
                x.as_str(),
                y.as_str(),
            ),
            (
                LabelTag::Synthetic { func: f, slot: s, .. },
                LabelTag::Synthetic { func: g, slot: t, .. },
            ) => match f.compare(g) {
                Order::Equal => compare_slots(*s, *t),
                o => o,
            },
            (LabelTag::Concrete(_), _) => Order::Less,
            (LabelTag::AxisWildcard(_), LabelTag::Concrete(_)) => Order::Greater,
            (LabelTag::AxisWildcard(_), _) => Order::Less,
            (LabelTag::Synthetic { .. }, _) => Order::Greater,
        }
    }

    fn duplicate(&self) -> (r: Self) {
        self.clone()
    }
}

impl PartialEq for LabelTag {
    fn eq(&self, other: &Self) -> (r: bool) {
        same(self, other)
    }
}

impl vstd::std_specs::cmp::PartialEqSpecImpl for LabelTag {
    open spec fn obeys_eq_spec() -> bool {
        true
    }

    open spec fn eq_spec(&self, other: &Self) -> bool {
        self@ == other@
    }
}

} // verus!
