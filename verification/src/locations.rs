//! Where things stand in source files.

use vstd::prelude::*;

use crate::ordered::{compare_path, compare_text, compare_usize, nat_order, path_order,
    path_order_equal, path_order_flip, path_order_transitive, same_text, text_order,
    text_order_equal, text_order_flip, text_order_transitive, Order, Ordered};

verus! {

/// A half-open range of positions within one file.
#[derive(Clone, Copy, Debug, PartialEq, Eq, Structural, Hash)]
pub struct Location {
    pub start: usize,
    pub end: usize,
}

impl View for Location {
    type V = Location;

    open spec fn view(&self) -> Location {
        *self
    }
}

/// Compares two ranges by their starts, then by their ends.
pub open spec fn location_order(a: Location, b: Location) -> Order {
    nat_order(a.start as nat, b.start as nat).then_by(nat_order(a.end as nat, b.end as nat))
}

impl Ordered for Location {
    open spec fn order(a: Location, b: Location) -> Order {
        location_order(a, b)
    }

    proof fn order_equal(a: Location, b: Location) {
    }

    proof fn order_flip(a: Location, b: Location) {
    }

    proof fn order_transitive(a: Location, b: Location, c: Location) {
    }

    fn compare(&self, other: &Self) -> (r: Order) {
        let r = match compare_usize(self.start, other.start) {
            Order::Equal => compare_usize(self.end, other.end),
            o => o,
        };
        proof {
            assert(r == location_order(*self, *other));
            assert(self@ == *self);
            assert(other@ == *other);
            assert(Self::order(*self, *other) == location_order(*self, *other));
        }
        r
    }

    fn duplicate(&self) -> (r: Self) {
        *self
    }
}

/// A piece of source text together with its range.
#[derive(Debug, Hash)]
pub struct Span {
    pub content: String,
    pub location: Location,
}

/// What a [`Span`] stands for.
#[verifier::ext_equal]
pub struct SpanModel {
    pub content: Seq<char>,
    pub location: Location,
}

impl View for Span {
    type V = SpanModel;

    open spec fn view(&self) -> SpanModel {
        SpanModel { content: self.content@, location: self.location }
    }
}

impl Span {
    /// The source text.
    pub fn content(&self) -> (r: &str)
        ensures
            r@ == self@.content,
    {
        self.content.as_str()
    }

    /// The range of the source text.
    pub fn location(&self) -> (r: Location)
        ensures
            r == self@.location,
    {
        self.location
    }
}

impl Clone for Span {
    fn clone(&self) -> (r: Self)
        ensures
            r@ == self@,
    {
        Span { content: self.content.clone(), location: self.location }
    }
}

/// Compares two pieces of source text by their ranges, then by their text.
pub open spec fn span_order(a: SpanModel, b: SpanModel) -> Order {
    location_order(a.location, b.location).then_by(text_order(a.content, b.content))
}

impl Ordered for Span {
    open spec fn order(a: SpanModel, b: SpanModel) -> Order {
        span_order(a, b)
    }

    proof fn order_equal(a: SpanModel, b: SpanModel) {
        text_order_equal(a.content, b.content);
    }

    proof fn order_flip(a: SpanModel, b: SpanModel) {
        text_order_flip(a.content, b.content);
    }

    proof fn order_transitive(a: SpanModel, b: SpanModel, c: SpanModel) {
        if text_order(a.content, b.content) is Less && text_order(b.content, c.content) is Less {
            text_order_transitive(a.content, b.content, c.content);
        }
    }

    fn compare(&self, other: &Self) -> (r: Order) {
        match self.location.compare(&other.location) {
            Order::Equal => compare_text(self.content.as_str(), other.content.as_str()),
            o => o,
        }
    }

    fn duplicate(&self) -> (r: Self) {
        self.clone()
    }
}

/// Something bound to one specific file.
///
/// The file is named by its virtual path, which is rooted in the base of the
/// Go module.
#[derive(Debug, Hash)]
pub struct Pinned<T> {
    virtual_file_path: String,
    inner: T,
}

/// What a [`Pinned`] stands for.
#[verifier::ext_equal]
pub struct PinnedModel<M> {
    pub file: Seq<char>,
    pub inner: M,
}

impl<T: View> View for Pinned<T> {
    type V = PinnedModel<T::V>;

    closed spec fn view(&self) -> PinnedModel<T::V> {
        PinnedModel { file: self.virtual_file_path@, inner: self.inner@ }
    }
}

impl<T: View> Pinned<T> {
    /// Binds something to a file.
    pub fn new(virtual_file_path: &str, inner: T) -> (r: Self)
        ensures
            r@ == (PinnedModel { file: virtual_file_path@, inner: inner@ }),
    {
        Pinned { virtual_file_path: virtual_file_path.to_owned(), inner }
    }

    /// The file to which the content is bound.
    pub fn file(&self) -> (r: &str)
        ensures
            r@ == self@.file,
    {
        self.virtual_file_path.as_str()
    }

    /// The content without its file.
    pub fn inner(&self) -> (r: &T)
        ensures
            r@ == self@.inner,
    {
        &self.inner
    }
}

impl Pinned<Span> {
    /// The source text.
    pub fn content(&self) -> (r: &str)
        ensures
            r@ == self@.inner.content,
    {
        self.inner.content()
    }

    /// The range of the source text, bound to the same file.
    pub fn pinned_location(&self) -> (r: Pinned<Location>)
        ensures
            r@ == (PinnedModel { file: self@.file, inner: self@.inner.location }),
    {
        Pinned { virtual_file_path: self.virtual_file_path.clone(), inner: self.inner.location }
    }
}

/// Whether a range lies within another one of the same file.
pub open spec fn lies_within(a: PinnedModel<Location>, b: PinnedModel<Location>) -> bool {
    a.file == b.file && b.inner.start <= a.inner.start && a.inner.end <= b.inner.end
}

/// How two ranges relate in their file: comparable only within one file, and
/// then only if they are equal or one both starts and ends before the other.
pub open spec fn location_precedence(
    a: PinnedModel<Location>,
    b: PinnedModel<Location>,
) -> Option<Order> {
    if a.file != b.file {
        None
    } else if a.inner == b.inner {
        Some(Order::Equal)
    } else if a.inner.start < b.inner.start && a.inner.end < b.inner.end {
        Some(Order::Less)
    } else if a.inner.start > b.inner.start && a.inner.end > b.inner.end {
        Some(Order::Greater)
    } else {
        None
    }
}

impl Pinned<Location> {
    /// Whether this range lies within another one of the same file.
    pub fn contained_in(&self, other: &Self) -> (r: bool)
        ensures
            r == lies_within(self@, other@),
    {
        same_text(self.file(), other.file()) && self.inner.start >= other.inner.start
            && self.inner.end <= other.inner.end
    }

    /// How this range relates to another.
    pub fn precedence(&self, other: &Self) -> (r: Option<Order>)
        ensures
            r == location_precedence(self@, other@),
    {
        if !same_text(self.file(), other.file()) {
            return None;
        }
        if self.inner == other.inner {
            return Some(Order::Equal);
        }
        if self.inner.start < other.inner.start {
            if self.inner.end < other.inner.end {
                Some(Order::Less)
            } else {
                None
            }
        } else if self.inner.start > other.inner.start {
            if self.inner.end > other.inner.end {
                Some(Order::Greater)
            } else {
                None
            }
        } else {
            None
        }
    }

    /// The placeholder for a range that is not known.
    pub fn fake() -> (r: Self)
        ensures
            r@ == (PinnedModel { file: "/main.go"@, inner: (Location { start: 0, end: 1 }) }),
    {
        Pinned::new("/main.go", Location { start: 0, end: 1 })
    }
}

impl<T: Ordered> Ordered for Pinned<T> {
    open spec fn order(a: PinnedModel<T::V>, b: PinnedModel<T::V>) -> Order {
        path_order(a.file, b.file).then_by(T::order(a.inner, b.inner))
    }

    proof fn order_equal(a: PinnedModel<T::V>, b: PinnedModel<T::V>) {
        path_order_equal(a.file, b.file);
        T::order_equal(a.inner, b.inner);
    }

    proof fn order_flip(a: PinnedModel<T::V>, b: PinnedModel<T::V>) {
        path_order_flip(a.file, b.file);
        T::order_flip(a.inner, b.inner);
    }

    proof fn order_transitive(
        a: PinnedModel<T::V>,
        b: PinnedModel<T::V>,
        c: PinnedModel<T::V>,
    ) {
        path_order_equal(a.file, b.file);
        path_order_equal(b.file, c.file);
        path_order_equal(a.file, c.file);
        if path_order(a.file, b.file) is Less && path_order(b.file, c.file) is Less {
            path_order_transitive(a.file, b.file, c.file);
        }
        if T::order(a.inner, b.inner) is Less && T::order(b.inner, c.inner) is Less {
            T::order_transitive(a.inner, b.inner, c.inner);
        }
    }

    fn compare(&self, other: &Self) -> (r: Order) {
        match compare_path(self.file(), other.file()) {
            Order::Equal => self.inner.compare(&other.inner),
            o => o,
        }
    }

    fn duplicate(&self) -> (r: Self) {
        Pinned {
            virtual_file_path: self.virtual_file_path.clone(),
            inner: self.inner.duplicate(),
        }
    }
}

/// A range that lies within another lies within everything that the other
/// lies within; every range lies within itself; and two that lie within one
/// another are the same.
pub proof fn law_containment(
    a: PinnedModel<Location>,
    b: PinnedModel<Location>,
    c: PinnedModel<Location>,
)
    ensures
        lies_within(a, a),
        lies_within(a, b) && lies_within(b, c) ==> lies_within(a, c),
        lies_within(a, b) && lies_within(b, a) ==> a == b,
{
}

} // verus!
