//! Total orders, and sets and maps kept sorted by them.

use vstd::prelude::*;

verus! {

/// The outcome of comparing two values.
#[derive(Clone, Copy, Debug, PartialEq, Eq, Structural)]
pub enum Order {
    Less,
    Equal,
    Greater,
}

impl Order {
    /// The outcome of the same comparison with its two sides exchanged.
    pub open spec fn flip(self) -> Order {
        match self {
            Order::Less => Order::Greater,
            Order::Equal => Order::Equal,
            Order::Greater => Order::Less,
        }
    }

    /// This outcome, or `next` if this one leaves the matter undecided.
    pub open spec fn then_by(self, next: Order) -> Order {
        if self is Equal {
            next
        } else {
            self
        }
    }
}

/// Compares two unsigned integers.
pub open spec fn nat_order(a: nat, b: nat) -> Order {
    if a < b {
        Order::Less
    } else if a == b {
        Order::Equal
    } else {
        Order::Greater
    }
}

/// Compares two texts by the first character at which they differ; a proper
/// prefix comes first.
pub open spec fn text_order(a: Seq<char>, b: Seq<char>) -> Order
    decreases a.len(),
{
    if a.len() == 0 && b.len() == 0 {
        Order::Equal
    } else if a.len() == 0 {
        Order::Less
    } else if b.len() == 0 {
        Order::Greater
    } else if a[0] == b[0] {
        text_order(a.drop_first(), b.drop_first())
    } else if a[0] < b[0] {
        Order::Less
    } else {
        Order::Greater
    }
}

/// Only equal texts compare as equal.
pub proof fn text_order_equal(a: Seq<char>, b: Seq<char>)
    ensures
        (text_order(a, b) is Equal) <==> a == b,
    decreases a.len(),
{
    if a.len() == 0 || b.len() == 0 {
        assert(a.len() == 0 && b.len() == 0 ==> a =~= b);
    } else {
        text_order_equal(a.drop_first(), b.drop_first());
        if a[0] == b[0] && a.drop_first() == b.drop_first() {
            assert(a =~= seq![a[0]] + a.drop_first());
            assert(b =~= seq![b[0]] + b.drop_first());
        }
    }
}

/// Exchanging the two sides of a comparison of texts flips its outcome.
pub proof fn text_order_flip(a: Seq<char>, b: Seq<char>)
    ensures
        text_order(b, a) == text_order(a, b).flip(),
    decreases a.len(),
{
    if a.len() > 0 && b.len() > 0 {
        text_order_flip(a.drop_first(), b.drop_first());
    }
}

/// The order of texts is transitive.
pub proof fn text_order_transitive(a: Seq<char>, b: Seq<char>, c: Seq<char>)
    requires
        text_order(a, b) is Less,
        text_order(b, c) is Less,
    ensures
        text_order(a, c) is Less,
    decreases a.len(),
{
    if a.len() > 0 && b.len() > 0 && c.len() > 0 && a[0] == b[0] && b[0] == c[0] {
        text_order_transitive(a.drop_first(), b.drop_first(), c.drop_first());
    }
}

/// Compares two texts.
pub fn compare_text(a: &str, b: &str) -> (r: Order)
    ensures
        r == text_order(a@, b@),
{
    let n: usize = a.unicode_len();
    let m: usize = b.unicode_len();
    let mut i: usize = 0;
    proof {
        assert(a@.skip(0) =~= a@);
        assert(b@.skip(0) =~= b@);
    }
    while i < n && i < m
        invariant
            n == a@.len(),
            m == b@.len(),
            i <= n,
            i <= m,
            text_order(a@, b@) == text_order(a@.skip(i as int), b@.skip(i as int)),
        decreases n - i,
    {
        let x = a.get_char(i);
        let y = b.get_char(i);
        proof {
            assert(a@.skip(i as int).drop_first() =~= a@.skip(i + 1));
            assert(b@.skip(i as int).drop_first() =~= b@.skip(i + 1));
        }
        if x != y {
            return if x < y { Order::Less } else { Order::Greater };
        }
        i = i + 1;
    }
    if n == m {
        Order::Equal
    } else if n < m {
        Order::Less
    } else {
        Order::Greater
    }
}

/// Compares two paths by the first component at which they differ; a proper
/// prefix comes first. A component ends at a slash, so that a slash comes
/// before any other character.
pub open spec fn path_order(a: Seq<char>, b: Seq<char>) -> Order
    decreases a.len(),
{
    if a.len() == 0 && b.len() == 0 {
        Order::Equal
    } else if a.len() == 0 {
        Order::Less
    } else if b.len() == 0 {
        Order::Greater
    } else if a[0] == b[0] {
        path_order(a.drop_first(), b.drop_first())
    } else if a[0] == '/' || b[0] != '/' && a[0] < b[0] {
        Order::Less
    } else {
        Order::Greater
    }
}

/// Only equal paths compare as equal.
pub proof fn path_order_equal(a: Seq<char>, b: Seq<char>)
    ensures
        (path_order(a, b) is Equal) <==> a == b,
    decreases a.len(),
{
    if a.len() == 0 || b.len() == 0 {
        assert(a.len() == 0 && b.len() == 0 ==> a =~= b);
    } else {
        path_order_equal(a.drop_first(), b.drop_first());
        if a[0] == b[0] && a.drop_first() == b.drop_first() {
            assert(a =~= seq![a[0]] + a.drop_first());
            assert(b =~= seq![b[0]] + b.drop_first());
        }
    }
}

/// Exchanging the two sides of a comparison of paths flips its outcome.
pub proof fn path_order_flip(a: Seq<char>, b: Seq<char>)
    ensures
        path_order(b, a) == path_order(a, b).flip(),
    decreases a.len(),
{
    if a.len() > 0 && b.len() > 0 {
        path_order_flip(a.drop_first(), b.drop_first());
    }
}

/// The order of paths is transitive.
pub proof fn path_order_transitive(a: Seq<char>, b: Seq<char>, c: Seq<char>)
    requires
        path_order(a, b) is Less,
        path_order(b, c) is Less,
    ensures
        path_order(a, c) is Less,
    decreases a.len(),
{
    if a.len() > 0 && b.len() > 0 && c.len() > 0 && a[0] == b[0] && b[0] == c[0] {
        path_order_transitive(a.drop_first(), b.drop_first(), c.drop_first());
    }
}

/// Compares two paths.
pub fn compare_path(a: &str, b: &str) -> (r: Order)
    ensures
        r == path_order(a@, b@),
{
    let n: usize = a.unicode_len();
    let m: usize = b.unicode_len();
    let mut i: usize = 0;
    proof {
        assert(a@.skip(0) =~= a@);
        assert(b@.skip(0) =~= b@);
    }
    while i < n && i < m
        invariant
            n == a@.len(),
            m == b@.len(),
            i <= n,
            i <= m,
            path_order(a@, b@) == path_order(a@.skip(i as int), b@.skip(i as int)),
        decreases n - i,
    {
        let x = a.get_char(i);
        let y = b.get_char(i);
        proof {
            assert(a@.skip(i as int).drop_first() =~= a@.skip(i + 1));
            assert(b@.skip(i as int).drop_first() =~= b@.skip(i + 1));
        }
        if x != y {
            return if x == '/' || y != '/' && x < y { Order::Less } else { Order::Greater };
        }
        i = i + 1;
    }
    if n == m {
        Order::Equal
    } else if n < m {
        Order::Less
    } else {
        Order::Greater
    }
}

/// Whether two texts are the same.
pub fn same_text(a: &str, b: &str) -> (r: bool)
    ensures
        r == (a@ == b@),
{
    proof {
        text_order_equal(a@, b@);
    }
    match compare_text(a, b) {
        Order::Equal => true,
        _ => false,
    }
}

/// Compares two machine integers.
pub fn compare_usize(a: usize, b: usize) -> (r: Order)
    ensures
        r == nat_order(a as nat, b as nat),
{
    if a < b {
        Order::Less
    } else if a == b {
        Order::Equal
    } else {
        Order::Greater
    }
}

/// A type whose views are totally ordered.
pub trait Ordered: View + Sized {
    spec fn order(a: Self::V, b: Self::V) -> Order;

    proof fn order_equal(a: Self::V, b: Self::V)
        ensures
            (Self::order(a, b) is Equal) <==> a == b,
    ;

    proof fn order_flip(a: Self::V, b: Self::V)
        ensures
            Self::order(b, a) == Self::order(a, b).flip(),
    ;

    proof fn order_transitive(a: Self::V, b: Self::V, c: Self::V)
        requires
            Self::order(a, b) is Less,
            Self::order(b, c) is Less,
        ensures
            Self::order(a, c) is Less,
    ;

    fn compare(&self, other: &Self) -> (r: Order)
        ensures
            r == Self::order(self@, other@),
    ;

    fn duplicate(&self) -> (r: Self)
        ensures
            r@ == self@,
    ;
}

/// Whether two values are equal as far as their views go.
pub fn same<T: Ordered>(a: &T, b: &T) -> (r: bool)
    ensures
        r == (a@ == b@),
{
    proof {
        T::order_equal(a@, b@);
    }
    match a.compare(b) {
        Order::Equal => true,
        _ => false,
    }
}

impl Ordered for String {
    open spec fn order(a: Seq<char>, b: Seq<char>) -> Order {
        text_order(a, b)
    }

    proof fn order_equal(a: Seq<char>, b: Seq<char>) {
        text_order_equal(a, b);
    }

    proof fn order_flip(a: Seq<char>, b: Seq<char>) {
        text_order_flip(a, b);
    }

    proof fn order_transitive(a: Seq<char>, b: Seq<char>, c: Seq<char>) {
        text_order_transitive(a, b, c);
    }

    fn compare(&self, other: &Self) -> (r: Order) {
        compare_text(self.as_str(), other.as_str())
    }

    fn duplicate(&self) -> (r: Self) {
        self.clone()
    }
}

impl Ordered for usize {
    open spec fn order(a: usize, b: usize) -> Order {
        nat_order(a as nat, b as nat)
    }

    proof fn order_equal(a: usize, b: usize) {
    }

    proof fn order_flip(a: usize, b: usize) {
    }

    proof fn order_transitive(a: usize, b: usize, c: usize) {
    }

    fn compare(&self, other: &Self) -> (r: Order) {
        compare_usize(*self, *other)
    }

    fn duplicate(&self) -> (r: Self) {
        *self
    }
}

/// Whether a sequence is strictly increasing.
pub open spec fn increasing<T: Ordered>(s: Seq<T::V>) -> bool {
    forall|i: int, j: int| 0 <= i < j < s.len() ==> T::order(#[trigger] s[i], #[trigger] s[j]) is Less
}

/// A set kept as a strictly increasing vector.
#[derive(Debug)]
#[verifier::reject_recursive_types(T)]
pub struct OrderedSet<T: Ordered> {
    items: Vec<T>,
}

impl<T: Ordered> View for OrderedSet<T> {
    type V = Set<T::V>;

    closed spec fn view(&self) -> Set<T::V> {
        self.listing().to_set()
    }
}

impl<T: Ordered> OrderedSet<T> {
    /// The elements in increasing order.
    pub closed spec fn listing(&self) -> Seq<T::V> {
        self.items@.map_values(|t: T| t@)
    }

    /// The elements as they are stored, in increasing order.
    pub closed spec fn stored(&self) -> Seq<T> {
        self.items@
    }

    #[verifier::type_invariant]
    spec fn inv(&self) -> bool {
        increasing::<T>(self.listing())
    }

    /// The elements are those that are listed.
    pub proof fn lemma_listed(&self)
        ensures
            self@ == self.listing().to_set(),
    {
    }

    /// The empty set.
    pub fn new() -> (r: Self)
        ensures
            r@ == Set::<T::V>::empty(),
            r.listing() == Seq::<T::V>::empty(),
    {
        let r = OrderedSet { items: Vec::new() };
        proof {
            assert(r.listing() =~= Seq::<T::V>::empty());
            assert(r@ =~= Set::<T::V>::empty());
        }
        r
    }

    /// The number of elements.
    pub fn len(&self) -> (r: usize)
        ensures
            r == self.listing().len(),
            r == self@.len(),
            self@.finite(),
            r == self.stored().len(),
            increasing::<T>(self.listing()),
            self@ == self.listing().to_set(),
    {
        proof {
            use_type_invariant(self);
            lemma_increasing_distinct::<T>(self.listing());
            self.listing().unique_seq_to_set();
        }
        self.items.len()
    }

    /// The element at a position of the listing.
    pub fn at(&self, i: usize) -> (r: &T)
        requires
            i < self.listing().len(),
        ensures
            r@ == self.listing()[i as int],
            *r == self.stored()[i as int],
            self@.contains(r@),
    {
        proof {
            assert(self.listing()[i as int] == self.items@[i as int]@);
            assert(self.listing().contains(self.listing()[i as int]));
        }
        &self.items[i]
    }

    /// Where an element stands, or where it would have to be put.
    fn position(&self, x: &T) -> (r: (bool, usize))
        ensures
            r.1 <= self.items@.len(),
            r.0 ==> r.1 < self.items@.len() && self.items@[r.1 as int]@ == x@,
            r.0 == self@.contains(x@),
            !r.0 ==> forall|i: int|
                0 <= i < r.1 ==> T::order(#[trigger] self.listing()[i], x@) is Less,
            !r.0 ==> forall|i: int|
                r.1 <= i < self.items@.len() ==> T::order(x@, #[trigger] self.listing()[i]) is Less,
    {
        proof {
            use_type_invariant(self);
        }
        let n: usize = self.items.len();
        let mut i: usize = 0;
        while i < n
            invariant
                n == self.items@.len(),
                i <= n,
                increasing::<T>(self.listing()),
                forall|k: int| 0 <= k < i ==> T::order(#[trigger] self.listing()[k], x@) is Less,
            decreases n - i,
        {
            let o = self.items[i].compare(x);
            proof {
                assert(self.listing()[i as int] == self.items@[i as int]@);
            }
            match o {
                Order::Less => {
                    i = i + 1;
                },
                Order::Equal => {
                    proof {
                        T::order_equal(self.listing()[i as int], x@);
                        assert(self.listing().contains(x@));
                    }
                    return (true, i);
                },
                Order::Greater => {
                    proof {
                        T::order_flip(self.listing()[i as int], x@);
                        assert forall|k: int| i <= k < n implies T::order(
                            x@,
                            #[trigger] self.listing()[k],
                        ) is Less by {
                            if k > i {
                                T::order_transitive(
                                    x@,
                                    self.listing()[i as int],
                                    self.listing()[k],
                                );
                            }
                        }
                        self.lemma_absent(x@, i as int);
                    }
                    return (false, i);
                },
            }
        }
        proof {
            self.lemma_absent(x@, n as int);
        }
        (false, n)
    }

    proof fn lemma_absent(&self, x: T::V, p: int)
        requires
            0 <= p <= self.items@.len(),
            forall|i: int| 0 <= i < p ==> T::order(#[trigger] self.listing()[i], x) is Less,
            forall|i: int|
                p <= i < self.items@.len() ==> T::order(x, #[trigger] self.listing()[i]) is Less,
        ensures
            !self@.contains(x),
    {
        if self.listing().contains(x) {
            let i = choose|i: int| 0 <= i < self.listing().len() && self.listing()[i] == x;
            T::order_equal(x, x);
            assert(T::order(self.listing()[i], x) is Less || T::order(x, self.listing()[i]) is Less);
        }
    }

    /// Whether the set has an element.
    pub fn contains(&self, x: &T) -> (r: bool)
        ensures
            r == self@.contains(x@),
    {
        self.position(x).0
    }

    /// Adds an element; returns whether it was absent. One that is already
    /// there stays as it is.
    pub fn insert(&mut self, x: T) -> (r: bool)
        ensures
            r == !old(self)@.contains(x@),
            final(self)@ == old(self)@.insert(x@),
    {
        let (found, p) = self.position(&x);
        if found {
            proof {
                assert(self@ =~= self@.insert(x@));
            }
            return false;
        }
        self.insert_at(p, x);
        true
    }

    /// Adds an absent element at the position at which it belongs.
    fn insert_at(&mut self, p: usize, x: T)
        requires
            p <= old(self).listing().len(),
            forall|i: int|
                0 <= i < p ==> T::order(#[trigger] old(self).listing()[i], x@) is Less,
            forall|i: int|
                p <= i < old(self).listing().len() ==> T::order(
                    x@,
                    #[trigger] old(self).listing()[i],
                ) is Less,
        ensures
            final(self)@ == old(self)@.insert(x@),
            final(self).listing() == old(self).listing().insert(p as int, x@),
            increasing::<T>(final(self).listing()),
    {
        proof {
            use_type_invariant(&*self);
        }
        let ghost before = self.listing();
        let ghost v = x@;
        let mut items: Vec<T> = Vec::new();
        std::mem::swap(&mut items, &mut self.items);
        items.insert(p, x);
        proof {
            let after = items@.map_values(|t: T| t@);
            assert(after =~= before.insert(p as int, v));
            lemma_insert_increasing::<T>(before, p as int, v);
            assert(after.to_set() =~= before.to_set().insert(v)) by {
                assert forall|y: T::V| after.contains(y) == (before.contains(y) || y == v) by {
                    if before.contains(y) {
                        let k = choose|k: int| 0 <= k < before.len() && before[k] == y;
                        assert(after[if k < p { k } else { k + 1 }] == y);
                    }
                    if y == v {
                        assert(after[p as int] == y);
                    }
                    if after.contains(y) {
                        let k = choose|k: int| 0 <= k < after.len() && after[k] == y;
                        if k < p {
                            assert(before[k] == y);
                        } else if k > p {
                            assert(before[k - 1] == y);
                        }
                    }
                }
            }
        }
        self.items = items;
    }

    /// Drops the element at a position of the listing.
    fn remove_at(&mut self, p: usize)
        requires
            p < old(self).listing().len(),
        ensures
            final(self).listing() == old(self).listing().remove(p as int),
            increasing::<T>(final(self).listing()),
    {
        proof {
            use_type_invariant(&*self);
        }
        let ghost before = self.listing();
        let mut items: Vec<T> = Vec::new();
        std::mem::swap(&mut items, &mut self.items);
        let _x = items.remove(p);
        proof {
            let after = items@.map_values(|t: T| t@);
            assert(after =~= before.remove(p as int));
            assert forall|i: int, j: int| 0 <= i < j < after.len() implies T::order(
                #[trigger] after[i],
                #[trigger] after[j],
            ) is Less by {
                let a = if i < p { i } else { i + 1 };
                let b = if j < p { j } else { j + 1 };
                assert(after[i] == before[a] && after[j] == before[b]);
            }
        }
        self.items = items;
    }

    /// A copy.
    pub fn duplicate(&self) -> (r: Self)
        ensures
            r@ == self@,
            r.listing() == self.listing(),
    {
        proof {
            use_type_invariant(self);
        }
        let n: usize = self.items.len();
        let mut items: Vec<T> = Vec::new();
        let mut i: usize = 0;
        while i < n
            invariant
                n == self.items@.len(),
                i <= n,
                items@.len() == i,
                forall|k: int| 0 <= k < i ==> (#[trigger] items@[k])@ == self.items@[k]@,
            decreases n - i,
        {
            items.push(self.items[i].duplicate());
            i = i + 1;
        }
        proof {
            assert(items@.map_values(|t: T| t@) =~= self.listing());
        }
        OrderedSet { items }
    }

    /// The set of the elements of a vector.
    pub fn from_vec(v: Vec<T>) -> (r: Self)
        ensures
            r@ == v@.map_values(|t: T| t@).to_set(),
    {
        let ghost all = v@.map_values(|t: T| t@);
        let mut rest = v;
        let mut r: OrderedSet<T> = OrderedSet::new();
        proof {
            assert(rest@.map_values(|t: T| t@) =~= all);
            assert(r@ =~= all.skip(all.len() as int).to_set());
        }
        while rest.len() > 0
            invariant
                rest@.len() <= all.len(),
                rest@.map_values(|t: T| t@) == all.take(rest@.len() as int),
                r@ == all.skip(rest@.len() as int).to_set(),
            decreases rest.len(),
        {
            let ghost n = rest@.len();
            let ghost v = rest@[n - 1]@;
            proof {
                assert(rest@.map_values(|t: T| t@)[n - 1] == v);
                assert(all.take(n as int)[n - 1] == all[n - 1]);
            }
            let x = rest.pop();
            if let Some(x) = x {
                r.insert(x);
            }
            proof {
                assert(rest@.map_values(|t: T| t@) =~= all.take(n - 1));
                assert(all.skip(n - 1) =~= seq![v] + all.skip(n as int));
                assert(all.skip(n - 1).to_set() =~= all.skip(n as int).to_set().insert(v)) by {
                    lemma_to_set_push_front(v, all.skip(n as int));
                }
            }
        }
        proof {
            assert(all.skip(0) =~= all);
        }
        r
    }

    /// The elements of either set.
    pub fn union(&self, other: &Self) -> (r: Self)
        ensures
            r@ == self@.union(other@),
    {
        let mut r = self.duplicate();
        let n: usize = other.len();
        let mut i: usize = 0;
        proof {
            assert(other.listing().take(0).to_set() =~= Set::<T::V>::empty());
            assert(r@ =~= self@.union(Set::<T::V>::empty()));
        }
        while i < n
            invariant
                i <= n,
                n == other.listing().len(),
                r@ == self@.union(other.listing().take(i as int).to_set()),
            decreases n - i,
        {
            r.insert(other.at(i).duplicate());
            proof {
                lemma_to_set_take(other.listing(), i as int);
                assert(r@ =~= self@.union(other.listing().take(i + 1).to_set()));
            }
            i = i + 1;
        }
        proof {
            assert(other.listing().take(n as int) =~= other.listing());
        }
        r
    }

    /// The elements of both sets.
    pub fn intersection(&self, other: &Self) -> (r: Self)
        ensures
            r@ == self@.intersect(other@),
    {
        let mut r = Self::new();
        let n: usize = self.len();
        let mut i: usize = 0;
        proof {
            assert(self.listing().take(0).to_set() =~= Set::<T::V>::empty());
            assert(r@ =~= Set::<T::V>::empty().intersect(other@));
        }
        while i < n
            invariant
                i <= n,
                n == self.listing().len(),
                r@ == self.listing().take(i as int).to_set().intersect(other@),
            decreases n - i,
        {
            let x = self.at(i);
            let shared = other.contains(x);
            if shared {
                r.insert(x.duplicate());
            }
            proof {
                lemma_to_set_take(self.listing(), i as int);
                assert(r@ =~= self.listing().take(i + 1).to_set().intersect(other@));
            }
            i = i + 1;
        }
        proof {
            assert(self.listing().take(n as int) =~= self.listing());
        }
        r
    }

    /// The elements of this set that the other lacks.
    pub fn difference(&self, other: &Self) -> (r: Self)
        ensures
            r@ == self@.difference(other@),
    {
        let mut r = Self::new();
        let n: usize = self.len();
        let mut i: usize = 0;
        proof {
            assert(self.listing().take(0).to_set() =~= Set::<T::V>::empty());
            assert(r@ =~= Set::<T::V>::empty().difference(other@));
        }
        while i < n
            invariant
                i <= n,
                n == self.listing().len(),
                r@ == self.listing().take(i as int).to_set().difference(other@),
            decreases n - i,
        {
            let x = self.at(i);
            let shared = other.contains(x);
            if !shared {
                r.insert(x.duplicate());
            }
            proof {
                lemma_to_set_take(self.listing(), i as int);
                assert(r@ =~= self.listing().take(i + 1).to_set().difference(other@));
            }
            i = i + 1;
        }
        proof {
            assert(self.listing().take(n as int) =~= self.listing());
        }
        r
    }

    /// Whether two sets have the same elements.
    pub fn same(&self, other: &Self) -> (r: bool)
        ensures
            r == (self@ == other@),
    {
        self.subset_of(other) && other.subset_of(self)
    }

    /// Whether every element is also one of the other set.
    pub fn subset_of(&self, other: &Self) -> (r: bool)
        ensures
            r == self@.subset_of(other@),
            r && other@.subset_of(self@) ==> self@ == other@,
            self@ == other@ ==> r,
    {
        let n: usize = self.len();
        let mut i: usize = 0;
        while i < n
            invariant
                i <= n,
                n == self.listing().len(),
                self@ == self.listing().to_set(),
                forall|k: int| 0 <= k < i ==> other@.contains(#[trigger] self.listing()[k]),
            decreases n - i,
        {
            let x = self.at(i);
            if !other.contains(x) {
                return false;
            }
            i = i + 1;
        }
        proof {
            assert forall|y: T::V| self@.contains(y) implies other@.contains(y) by {
                assert(self.listing().contains(y));
            }
            if other@.subset_of(self@) {
                assert(self@ =~= other@);
            }
        }
        true
    }
}

/// Two strictly increasing sequences with the same elements are equal.
pub proof fn lemma_increasing_determined<T: Ordered>(a: Seq<T::V>, b: Seq<T::V>)
    requires
        increasing::<T>(a),
        increasing::<T>(b),
        a.to_set() == b.to_set(),
    ensures
        a == b,
    decreases a.len(),
{
    lemma_increasing_distinct::<T>(a);
    lemma_increasing_distinct::<T>(b);
    a.unique_seq_to_set();
    b.unique_seq_to_set();
    assert(a.len() == b.len());
    if a.len() > 0 {
        let n = a.len() as int;
        assert(a.to_set().contains(a[n - 1]));
        assert(b.to_set().contains(b[n - 1]));
        let i = choose|i: int| 0 <= i < n && b[i] == a[n - 1];
        let j = choose|j: int| 0 <= j < n && a[j] == b[n - 1];
        if i < n - 1 && j < n - 1 {
            assert(T::order(b[i], b[n - 1]) is Less);
            assert(T::order(a[j], a[n - 1]) is Less);
            T::order_flip(a[n - 1], b[n - 1]);
        }
        assert(a[n - 1] == b[n - 1]);
        let c = a.drop_last();
        let d = b.drop_last();
        assert(c.to_set() =~= d.to_set()) by {
            assert forall|y: T::V| c.contains(y) == d.contains(y) by {
                if c.contains(y) {
                    let k = choose|k: int| 0 <= k < c.len() && c[k] == y;
                    assert(a[k] == y);
                    assert(a.to_set().contains(y));
                    assert(b.contains(y));
                    let l = choose|l: int| 0 <= l < n && b[l] == y;
                    assert(l < n - 1);
                    assert(d[l] == y);
                }
                if d.contains(y) {
                    let k = choose|k: int| 0 <= k < d.len() && d[k] == y;
                    assert(b[k] == y);
                    assert(b.to_set().contains(y));
                    assert(a.contains(y));
                    let l = choose|l: int| 0 <= l < n && a[l] == y;
                    assert(l < n - 1);
                    assert(c[l] == y);
                }
            }
        }
        lemma_increasing_determined::<T>(c, d);
        assert(a =~= c.push(a[n - 1]));
        assert(b =~= d.push(b[n - 1]));
    }
}

/// What the first elements of a sequence are once one more is counted in.
pub proof fn lemma_to_set_take<A>(s: Seq<A>, i: int)
    requires
        0 <= i < s.len(),
    ensures
        s.take(i + 1).to_set() == s.take(i).to_set().insert(s[i]),
{
    let a = s.take(i + 1);
    let b = s.take(i);
    assert forall|y: A| a.contains(y) == (b.contains(y) || y == s[i]) by {
        if a.contains(y) {
            let k = choose|k: int| 0 <= k < a.len() && a[k] == y;
            if k < i {
                assert(b[k] == y);
            }
        }
        if b.contains(y) {
            let k = choose|k: int| 0 <= k < b.len() && b[k] == y;
            assert(a[k] == y);
        }
        if y == s[i] {
            assert(a[i] == y);
        }
    }
    assert(a.to_set() =~= b.to_set().insert(s[i]));
}

pub proof fn lemma_to_set_push_front<A>(x: A, s: Seq<A>)
    ensures
        (seq![x] + s).to_set() == s.to_set().insert(x),
{
    let a = seq![x] + s;
    assert forall|y: A| a.contains(y) == (s.contains(y) || y == x) by {
        if a.contains(y) {
            let k = choose|k: int| 0 <= k < a.len() && a[k] == y;
            if k > 0 {
                assert(s[k - 1] == y);
            }
        }
        if s.contains(y) {
            let k = choose|k: int| 0 <= k < s.len() && s[k] == y;
            assert(a[k + 1] == y);
        }
        if y == x {
            assert(a[0] == y);
        }
    }
    assert(a.to_set() =~= s.to_set().insert(x));
}

/// Putting an element where it belongs keeps a sequence strictly increasing.
pub proof fn lemma_insert_increasing<T: Ordered>(s: Seq<T::V>, p: int, x: T::V)
    requires
        0 <= p <= s.len(),
        increasing::<T>(s),
        forall|i: int| 0 <= i < p ==> T::order(#[trigger] s[i], x) is Less,
        forall|i: int| p <= i < s.len() ==> T::order(x, #[trigger] s[i]) is Less,
    ensures
        increasing::<T>(s.insert(p, x)),
{
    let t = s.insert(p, x);
    assert forall|i: int, j: int| 0 <= i < j < t.len() implies T::order(
        #[trigger] t[i],
        #[trigger] t[j],
    ) is Less by {
        let a = if i < p { i } else { i - 1 };
        let b = if j < p { j } else { j - 1 };
        if i != p {
            assert(t[i] == s[a]);
        }
        if j != p {
            assert(t[j] == s[b]);
        }
    }
}

/// A strictly increasing sequence holds nothing twice.
pub proof fn lemma_increasing_distinct<T: Ordered>(s: Seq<T::V>)
    requires
        increasing::<T>(s),
    ensures
        s.no_duplicates(),
{
    assert forall|i: int, j: int| 0 <= i < s.len() && 0 <= j < s.len() && i != j implies s[i] != s[j] by {
        if i < j {
            T::order_equal(s[i], s[j]);
        } else {
            T::order_equal(s[j], s[i]);
        }
    }
}

/// The position at which an element would have to be put into a strictly
/// increasing sequence.
pub open spec fn insertion_point<T: Ordered>(s: Seq<T::V>, x: T::V) -> int
    decreases s.len(),
{
    if s.len() == 0 || T::order(s.last(), x) is Less {
        s.len() as int
    } else {
        insertion_point::<T>(s.drop_last(), x)
    }
}

/// What stands before the insertion point is smaller, what stands after it is
/// larger.
pub proof fn lemma_insertion_point<T: Ordered>(s: Seq<T::V>, x: T::V)
    requires
        increasing::<T>(s),
        !s.contains(x),
    ensures
        0 <= insertion_point::<T>(s, x) <= s.len(),
        forall|i: int|
            0 <= i < insertion_point::<T>(s, x) ==> T::order(#[trigger] s[i], x) is Less,
        forall|i: int|
            insertion_point::<T>(s, x) <= i < s.len() ==> T::order(x, #[trigger] s[i]) is Less,
    decreases s.len(),
{
    if s.len() > 0 {
        let n = s.len() - 1;
        if T::order(s.last(), x) is Less {
            assert forall|i: int| 0 <= i < s.len() implies T::order(#[trigger] s[i], x) is Less by {
                if i < n {
                    T::order_transitive(s[i], s[n], x);
                }
            }
        } else {
            let t = s.drop_last();
            assert(!t.contains(x)) by {
                if t.contains(x) {
                    let k = choose|k: int| 0 <= k < t.len() && t[k] == x;
                    assert(s[k] == x);
                }
            }
            lemma_insertion_point::<T>(t, x);
            assert(s.contains(s[n]));
            T::order_equal(s[n], x);
            T::order_flip(s[n], x);
            let p = insertion_point::<T>(s, x);
            assert forall|i: int| 0 <= i < p implies T::order(#[trigger] s[i], x) is Less by {
                assert(t[i] == s[i]);
            }
            assert forall|i: int| p <= i < s.len() implies T::order(x, #[trigger] s[i]) is Less by {
                if i < n {
                    assert(t[i] == s[i]);
                }
            }
        }
    }
}

/// Every finite set can be listed in strictly increasing order.
pub proof fn lemma_increasing_exists<T: Ordered>(s: Set<T::V>) -> (r: Seq<T::V>)
    requires
        s.finite(),
    ensures
        increasing::<T>(r),
        r.to_set() == s,
    decreases s.len(),
{
    if s.len() == 0 {
        let q = Seq::<T::V>::empty();
        assert(q.to_set() =~= s);
        q
    } else {
        let x = s.choose();
        let q = lemma_increasing_exists::<T>(s.remove(x));
        assert(!q.contains(x)) by {
            if q.contains(x) {
                assert(q.to_set().contains(x));
            }
        }
        let p = insertion_point::<T>(q, x);
        lemma_insertion_point::<T>(q, x);
        lemma_insert_increasing::<T>(q, p, x);
        let r = q.insert(p, x);
        assert forall|y: T::V| r.contains(y) == s.contains(y) by {
            if r.contains(y) {
                let k = choose|k: int| 0 <= k < r.len() && r[k] == y;
                if k < p {
                    assert(q[k] == y);
                    assert(q.to_set().contains(y));
                } else if k > p {
                    assert(q[k - 1] == y);
                    assert(q.to_set().contains(y));
                }
            }
            if s.contains(y) {
                if y == x {
                    assert(r[p] == y);
                } else {
                    assert(q.to_set().contains(y));
                    assert(q.contains(y));
                    let k = choose|k: int| 0 <= k < q.len() && q[k] == y;
                    assert(r[if k < p { k } else { k + 1 }] == y);
                }
            }
        }
        assert(r.to_set() =~= s);
        r
    }
}

/// Compares two lists by the first elements at which they differ; a proper
/// prefix comes first.
pub open spec fn listing_order<T: Ordered>(a: Seq<T::V>, b: Seq<T::V>) -> Order
    decreases a.len(),
{
    if a.len() == 0 && b.len() == 0 {
        Order::Equal
    } else if a.len() == 0 {
        Order::Less
    } else if b.len() == 0 {
        Order::Greater
    } else {
        T::order(a[0], b[0]).then_by(listing_order::<T>(a.drop_first(), b.drop_first()))
    }
}

/// Only equal lists compare as equal.
pub proof fn listing_order_equal<T: Ordered>(a: Seq<T::V>, b: Seq<T::V>)
    ensures
        (listing_order::<T>(a, b) is Equal) <==> a == b,
    decreases a.len(),
{
    if a.len() > 0 && b.len() > 0 {
        T::order_equal(a[0], b[0]);
        listing_order_equal::<T>(a.drop_first(), b.drop_first());
        if a[0] == b[0] && a.drop_first() == b.drop_first() {
            assert(a =~= seq![a[0]] + a.drop_first());
            assert(b =~= seq![b[0]] + b.drop_first());
        }
    } else if a.len() == 0 && b.len() == 0 {
        assert(a =~= b);
    }
}

/// Exchanging the two sides of a comparison of lists flips its outcome.
pub proof fn listing_order_flip<T: Ordered>(a: Seq<T::V>, b: Seq<T::V>)
    ensures
        listing_order::<T>(b, a) == listing_order::<T>(a, b).flip(),
    decreases a.len(),
{
    if a.len() > 0 && b.len() > 0 {
        T::order_flip(a[0], b[0]);
        listing_order_flip::<T>(a.drop_first(), b.drop_first());
    }
}

/// The order of lists is transitive.
pub proof fn listing_order_transitive<T: Ordered>(a: Seq<T::V>, b: Seq<T::V>, c: Seq<T::V>)
    requires
        listing_order::<T>(a, b) is Less,
        listing_order::<T>(b, c) is Less,
    ensures
        listing_order::<T>(a, c) is Less,
    decreases a.len(),
{
    if a.len() > 0 && b.len() > 0 && c.len() > 0 {
        T::order_equal(a[0], b[0]);
        T::order_equal(b[0], c[0]);
        T::order_equal(a[0], c[0]);
        if T::order(a[0], b[0]) is Less && T::order(b[0], c[0]) is Less {
            T::order_transitive(a[0], b[0], c[0]);
        }
        if a[0] == b[0] && b[0] == c[0] {
            listing_order_transitive::<T>(a.drop_first(), b.drop_first(), c.drop_first());
        }
    }
}

/// Compares two sets by their listings.
pub fn compare_listings<T: Ordered>(a: &OrderedSet<T>, b: &OrderedSet<T>) -> (r: Order)
    ensures
        r == listing_order::<T>(a.listing(), b.listing()),
{
    let n: usize = a.len();
    let m: usize = b.len();
    let ghost x = a.listing();
    let ghost y = b.listing();
    let mut i: usize = 0;
    proof {
        assert(x.skip(0) =~= x);
        assert(y.skip(0) =~= y);
    }
    while i < n && i < m
        invariant
            n == x.len(),
            m == y.len(),
            x == a.listing(),
            y == b.listing(),
            i <= n,
            i <= m,
            listing_order::<T>(x, y) == listing_order::<T>(x.skip(i as int), y.skip(i as int)),
        decreases n - i,
    {
        proof {
            assert(x.skip(i as int).drop_first() =~= x.skip(i + 1));
            assert(y.skip(i as int).drop_first() =~= y.skip(i + 1));
        }
        match a.at(i).compare(b.at(i)) {
            Order::Equal => {
                i = i + 1;
            },
            o => {
                return o;
            },
        }
    }
    if n == m {
        Order::Equal
    } else if n < m {
        Order::Less
    } else {
        Order::Greater
    }
}

/// A map kept as a vector of entries with strictly increasing keys.
#[derive(Debug)]
#[verifier::reject_recursive_types(K)]
#[verifier::reject_recursive_types(V)]
pub struct OrderedMap<K: Ordered, V> {
    keys: OrderedSet<K>,
    values: Vec<V>,
}

impl<K: Ordered, V> View for OrderedMap<K, V> {
    type V = Map<K::V, V>;

    closed spec fn view(&self) -> Map<K::V, V> {
        Map::new(
            |k: K::V| self.keys.listing().contains(k),
            |k: K::V| self.values@[self.keys.listing().index_of(k)],
        )
    }
}

impl<K: Ordered, V> OrderedMap<K, V> {
    /// The keys in increasing order.
    pub closed spec fn listing(&self) -> Seq<K::V> {
        self.keys.listing()
    }

    #[verifier::type_invariant]
    spec fn inv(&self) -> bool {
        &&& self.values@.len() == self.keys.listing().len()
        &&& increasing::<K>(self.keys.listing())
    }

    /// The empty map.
    pub fn new() -> (r: Self)
        ensures
            r@ == Map::<K::V, V>::empty(),
            r.listing() == Seq::<K::V>::empty(),
    {
        let r = OrderedMap { keys: OrderedSet::new(), values: Vec::new() };
        proof {
            assert(r@ =~= Map::<K::V, V>::empty());
        }
        r
    }

    /// The number of entries.
    pub fn len(&self) -> (r: usize)
        ensures
            r == self.listing().len(),
            increasing::<K>(self.listing()),
            forall|k: K::V| self@.dom().contains(k) == self.listing().contains(k),
    {
        proof {
            use_type_invariant(self);
        }
        self.values.len()
    }

    /// The key at a position of the listing.
    pub fn key_at(&self, i: usize) -> (r: &K)
        requires
            i < self.listing().len(),
        ensures
            r@ == self.listing()[i as int],
    {
        self.keys.at(i)
    }

    /// The value whose key stands at a position of the listing.
    pub fn value_at(&self, i: usize) -> (r: &V)
        requires
            i < self.listing().len(),
        ensures
            self@.dom().contains(self.listing()[i as int]),
            *r == self@[self.listing()[i as int]],
    {
        proof {
            use_type_invariant(self);
            let ks = self.keys.listing();
            lemma_increasing_distinct::<K>(ks);
            lemma_index_of(ks, i as int);
        }
        &self.values[i]
    }

    /// The value of a key.
    pub fn get(&self, k: &K) -> (r: Option<&V>)
        ensures
            r is Some <==> self@.dom().contains(k@),
            r matches Some(v) ==> *v == self@[k@],
    {
        proof {
            use_type_invariant(self);
        }
        let (found, p) = self.keys.position(k);
        if found {
            proof {
                let ks = self.keys.listing();
                assert(ks[p as int] == k@);
                lemma_increasing_distinct::<K>(ks);
                lemma_index_of(ks, p as int);
            }
            Some(&self.values[p])
        } else {
            proof {
                assert(!self.keys.listing().to_set().contains(k@));
            }
            None
        }
    }

    /// Whether a key has a value.
    pub fn contains_key(&self, k: &K) -> (r: bool)
        ensures
            r == self@.dom().contains(k@),
    {
        self.get(k).is_some()
    }

    /// Gives a key a value, in place of the one that it had, if any.
    pub fn insert(&mut self, k: K, v: V)
        ensures
            final(self)@ == old(self)@.insert(k@, v),
    {
        proof {
            use_type_invariant(&*self);
        }
        let ghost before = self@;
        let ghost ks = self.keys.listing();
        let ghost vs = self.values@;
        let ghost kv = k@;
        let mut keys: OrderedSet<K> = OrderedSet::new();
        let mut values: Vec<V> = Vec::new();
        let mut old_self = OrderedMap { keys, values };
        std::mem::swap(&mut old_self, self);
        let OrderedMap { keys: mut keys, values: mut values } = old_self;
        let (found, p) = keys.position(&k);
        if found {
            values.set(p, v);
            proof {
                assert(ks[p as int] == kv);
                lemma_increasing_distinct::<K>(ks);
                lemma_index_of(ks, p as int);
            }
            *self = OrderedMap { keys, values };
            proof {
                assert forall|x: K::V| #[trigger] ks.contains(x) && x != kv implies ks.index_of(x) != p as int by {
                    let q = ks.index_of(x);
                    lemma_contains_index_of(ks, x);
                }
                assert forall|x: K::V| ks.contains(x) implies 0 <= #[trigger] ks.index_of(x) < ks.len() by {
                    lemma_contains_index_of(ks, x);
                }
                assert(self@ =~= before.insert(kv, v));
            }
        } else {
            values.insert(p, v);
            keys.insert_at(p, k);
            *self = OrderedMap { keys, values };
            proof {
                let ts = self.keys.listing();
                lemma_increasing_distinct::<K>(ks);
                lemma_increasing_distinct::<K>(ts);
                assert(!ks.to_set().contains(kv));
                assert forall|x: K::V| ts.contains(x) == (ks.contains(x) || x == kv) by {
                    if ks.contains(x) {
                        lemma_contains_index_of(ks, x);
                        let q = ks.index_of(x);
                        assert(ts[if q < p { q } else { q + 1 }] == x);
                    }
                    if x == kv {
                        assert(ts[p as int] == x);
                    }
                    if ts.contains(x) {
                        lemma_contains_index_of(ts, x);
                        let q = ts.index_of(x);
                        if q < p {
                            assert(ks[q] == x);
                        } else if q > p {
                            assert(ks[q - 1] == x);
                        }
                    }
                }
                assert forall|x: K::V| ts.contains(x) implies self.values@[ts.index_of(x)] == (if x == kv {
                    v
                } else {
                    vs[ks.index_of(x)]
                }) by {
                    if x == kv {
                        assert(ts[p as int] == kv);
                        lemma_index_of(ts, p as int);
                    } else {
                        assert(ks.contains(x));
                        lemma_contains_index_of(ks, x);
                        let q = ks.index_of(x);
                        let t = if q < p { q } else { q + 1 };
                        assert(ts[t] == x);
                        lemma_index_of(ts, t);
                    }
                }
                assert(self@ =~= before.insert(kv, v));
            }
        }
    }

    /// Takes a key and its value out of the map.
    pub fn remove(&mut self, k: &K) -> (r: Option<V>)
        ensures
            r is Some <==> old(self)@.dom().contains(k@),
            r matches Some(v) ==> v == old(self)@[k@],
            final(self)@ == old(self)@.remove(k@),
    {
        proof {
            use_type_invariant(&*self);
        }
        let ghost before = self@;
        let ghost ks = self.keys.listing();
        let ghost vs = self.values@;
        let ghost kv = k@;
        let (found, p) = self.keys.position(k);
        if !found {
            proof {
                assert(!ks.to_set().contains(kv));
                assert(before.remove(kv) =~= before);
            }
            return None;
        }
        let mut old_self: OrderedMap<K, V> = OrderedMap::new();
        std::mem::swap(&mut old_self, self);
        let OrderedMap { keys: mut keys, values: mut values } = old_self;
        keys.remove_at(p);
        let v = values.remove(p);
        *self = OrderedMap { keys, values };
        proof {
            let ts = self.keys.listing();
            lemma_increasing_distinct::<K>(ks);
            lemma_increasing_distinct::<K>(ts);
            assert(ks[p as int] == kv);
            lemma_index_of(ks, p as int);
            assert forall|x: K::V| ts.contains(x) == (ks.contains(x) && x != kv) by {
                if ts.contains(x) {
                    lemma_contains_index_of(ts, x);
                    let q = ts.index_of(x);
                    assert(ks[if q < p { q } else { q + 1 }] == x);
                }
                if ks.contains(x) && x != kv {
                    lemma_contains_index_of(ks, x);
                    let q = ks.index_of(x);
                    assert(q != p);
                    assert(ts[if q < p { q } else { q - 1 }] == x);
                }
            }
            assert forall|x: K::V| ts.contains(x) implies self.values@[ts.index_of(x)]
                == vs[ks.index_of(x)] by {
                assert(ks.contains(x));
                lemma_contains_index_of(ks, x);
                let q = ks.index_of(x);
                let t = if q < p { q } else { q - 1 };
                assert(ts[t] == x);
                lemma_index_of(ts, t);
            }
            assert(self@ =~= before.remove(kv));
        }
        Some(v)
    }
}

/// In a sequence without repetition each element is found where it stands.
pub proof fn lemma_index_of<A>(s: Seq<A>, i: int)
    requires
        s.no_duplicates(),
        0 <= i < s.len(),
    ensures
        s.contains(s[i]),
        s.index_of(s[i]) == i,
{
    assert(s.contains(s[i]));
    lemma_contains_index_of(s, s[i]);
}

/// The index of an element is a position at which it stands.
pub proof fn lemma_contains_index_of<A>(s: Seq<A>, x: A)
    requires
        s.contains(x),
    ensures
        0 <= s.index_of(x) < s.len(),
        s[s.index_of(x)] == x,
{
    let i = choose|i: int| 0 <= i < s.len() && s[i] == x;
    assert(s.index_of(x) == choose|i: int| 0 <= i < s.len() && s[i] == x);
}

} // verus!
