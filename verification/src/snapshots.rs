//! Comparing states by what matters for convergence.

use vstd::prelude::*;

use crate::labels::backtraces::LabelBacktrace;
use crate::ordered::{same_text, Ordered, OrderedMap};
use crate::policy::targets::SimpleConstValue;
use crate::policy::SinkDescriptor;
use crate::symbols::{const_of, summaries_of};
use crate::taint::funcs::summaries::summaries_alike;
use crate::taint::funcs::{FunctionSummary, SummaryModel};
use crate::values::{values_alike, Value, ValueModel};

verus! {

/// A value that must not be changed where it is used.
pub struct AssumedImmutable<T>(T);

impl<T> AssumedImmutable<T> {
    /// The value.
    pub closed spec fn inner(self) -> T {
        self.0
    }

    /// Wraps a value.
    pub fn new(inner: T) -> (r: Self)
        ensures
            r.inner() == inner,
    {
        AssumedImmutable(inner)
    }

    /// The value, for one who accepts the condition.
    pub fn get(self) -> (r: T)
        ensures
            r == self.inner(),
    {
        self.0
    }
}

/// A symbol at some point of the analysis.
#[derive(Debug)]
pub struct SymbolTableSnapshotItem {
    namespace: String,
    path: Vec<usize>,
    name: String,
    mutable: bool,
    value: Value,
    known_const: Option<SimpleConstValue>,
    functions: Vec<FunctionSummary>,
}

/// What a [`SymbolTableSnapshotItem`] stands for.
#[verifier::ext_equal]
pub struct ItemModel {
    /// The package, or the type of the receiver, to which it belongs.
    pub namespace: Seq<char>,
    /// Which scopes lead to it, from the innermost one outwards.
    pub path: Seq<usize>,
    /// The name.
    pub name: Seq<char>,
    /// Whether it can get another value.
    pub mutable: bool,
    /// The value.
    pub value: ValueModel,
    /// What it is known to be, if it is a constant.
    pub known_const: Option<Seq<char>>,
    /// What is known of the functions in the value.
    pub functions: Seq<SummaryModel>,
}

impl View for SymbolTableSnapshotItem {
    type V = ItemModel;

    closed spec fn view(&self) -> ItemModel {
        ItemModel {
            namespace: self.namespace@,
            path: self.path@,
            name: self.name@,
            mutable: self.mutable,
            value: self.value@,
            known_const: const_of(self.known_const),
            functions: summaries_of(self.functions@),
        }
    }
}

impl SymbolTableSnapshotItem {
    /// A symbol in an outermost scope, whose value has no functions in it.
    pub fn new(
        namespace: String,
        name: String,
        mutable: bool,
        value: Value,
        known_const: Option<SimpleConstValue>,
    ) -> (r: Self)
        ensures
            r@ == (ItemModel {
                namespace: namespace@,
                path: Seq::<usize>::empty(),
                name: name@,
                mutable,
                value: value@,
                known_const: const_of(known_const),
                functions: Seq::<SummaryModel>::empty(),
            }),
    {
        let r = SymbolTableSnapshotItem {
            namespace,
            path: Vec::new(),
            name,
            mutable,
            value,
            known_const,
            functions: Vec::new(),
        };
        proof {
            assert(summaries_of(r.functions@) =~= Seq::<SummaryModel>::empty());
        }
        r
    }

    /// Notes what is known of the functions in the value.
    pub fn set_functions(&mut self, functions: Vec<FunctionSummary>)
        ensures
            final(self)@ == (ItemModel { functions: summaries_of(functions@), ..old(self)@ }),
    {
        self.functions = functions;
    }

    /// Notes that the symbol lies in the scope at a position of the one around
    /// it.
    pub fn push_to_path(&mut self, index: usize)
        ensures
            final(self)@ == (ItemModel { path: old(self)@.path.push(index), ..old(self)@ }),
    {
        self.path.push(index);
    }
}

/// What a list of symbols stands for.
pub open spec fn items_of(s: Seq<SymbolTableSnapshotItem>) -> Seq<ItemModel> {
    s.map_values(|i: SymbolTableSnapshotItem| i@)
}

/// Whether two symbols differ in nothing that matters.
pub open spec fn items_alike(a: ItemModel, b: ItemModel) -> bool {
    &&& a.namespace == b.namespace
    &&& a.path == b.path
    &&& a.name == b.name
    &&& a.mutable == b.mutable
    &&& values_alike(a.value, b.value)
    &&& a.known_const == b.known_const
    &&& a.functions.len() == b.functions.len()
    &&& forall|i: int|
        0 <= i < a.functions.len() ==> summaries_alike(#[trigger] a.functions[i], b.functions[i])
}

/// What is known of functions is alike one by one.
proof fn lemma_functions_alike(a: &Vec<FunctionSummary>, b: &Vec<FunctionSummary>)
    ensures
        a.alike(b) == (a@.len() == b@.len() && forall|i: int|
            0 <= i < a@.len() ==> summaries_alike(
                #[trigger] summaries_of(a@)[i],
                summaries_of(b@)[i],
            )),
{
    if a.alike(b) {
        assert forall|i: int| 0 <= i < a@.len() implies summaries_alike(
            #[trigger] summaries_of(a@)[i],
            summaries_of(b@)[i],
        ) by {
            assert(a@[i].alike(&b@[i]));
        }
    }
    if a@.len() == b@.len() && forall|i: int|
        0 <= i < a@.len() ==> summaries_alike(
            #[trigger] summaries_of(a@)[i],
            summaries_of(b@)[i],
        ) {
        assert forall|i: int| 0 <= i < a@.len() implies (#[trigger] a@[i]).alike(&b@[i]) by {
            assert(summaries_alike(summaries_of(a@)[i], summaries_of(b@)[i]));
        }
    }
}

fn same_path(a: &Vec<usize>, b: &Vec<usize>) -> (r: bool)
    ensures
        r == (a@ == b@),
{
    let n: usize = a.len();
    if n != b.len() {
        return false;
    }
    let mut i: usize = 0;
    while i < n
        invariant
            i <= n,
            n == a@.len(),
            n == b@.len(),
            forall|k: int| 0 <= k < i ==> a@[k] == b@[k],
        decreases n - i,
    {
        if a[i] != b[i] {
            return false;
        }
        i = i + 1;
    }
    proof {
        assert(a@ =~= b@);
    }
    true
}

impl SnapshotAware for SymbolTableSnapshotItem {
    open spec fn alike(&self, other: &Self) -> bool {
        items_alike(self@, other@)
    }

    proof fn alike_reflexive(a: &Self) {
        Value::alike_reflexive(&a.value);
        Vec::<FunctionSummary>::alike_reflexive(&a.functions);
        lemma_functions_alike(&a.functions, &a.functions);
    }

    proof fn alike_symmetric(a: &Self, b: &Self) {
        Value::alike_symmetric(&a.value, &b.value);
        lemma_functions_alike(&a.functions, &b.functions);
        Vec::<FunctionSummary>::alike_symmetric(&a.functions, &b.functions);
        lemma_functions_alike(&b.functions, &a.functions);
    }

    proof fn alike_transitive(a: &Self, b: &Self, c: &Self) {
        Value::alike_transitive(&a.value, &b.value, &c.value);
        lemma_functions_alike(&a.functions, &b.functions);
        lemma_functions_alike(&b.functions, &c.functions);
        Vec::<FunctionSummary>::alike_transitive(&a.functions, &b.functions, &c.functions);
        lemma_functions_alike(&a.functions, &c.functions);
    }

    fn snapshot_aware_eq(&self, other: &Self) -> (r: bool) {
        let same_const = match (&self.known_const, &other.known_const) {
            (Some(a), Some(b)) => same_text(a.text.as_str(), b.text.as_str()),
            (None, None) => true,
            _ => false,
        };
        proof {
            lemma_functions_alike(&self.functions, &other.functions);
        }
        same_const && same_text(self.namespace.as_str(), other.namespace.as_str()) && same_path(
            &self.path,
            &other.path,
        ) && same_text(self.name.as_str(), other.name.as_str()) && self.mutable == other.mutable
            && self.value.snapshot_aware_eq(&other.value) && self.functions.snapshot_aware_eq(
            &other.functions,
        )
    }
}

/// All symbols at some point of the analysis.
#[derive(Debug)]
pub struct SymbolTableSnapshot(Vec<SymbolTableSnapshotItem>);

impl View for SymbolTableSnapshot {
    type V = Seq<ItemModel>;

    closed spec fn view(&self) -> Seq<ItemModel> {
        items_of(self.0@)
    }
}

impl SymbolTableSnapshot {
    /// The symbols of a list.
    pub fn from_items(items: Vec<SymbolTableSnapshotItem>) -> (r: Self)
        ensures
            r@ == items_of(items@),
    {
        SymbolTableSnapshot(items)
    }

    /// Whether two snapshots differ in nothing that matters.
    pub fn same_as(&self, other: &Self) -> (r: bool)
        ensures
            r == (self@.len() == other@.len() && forall|i: int|
                0 <= i < self@.len() ==> items_alike(#[trigger] self@[i], other@[i])),
    {
        let r = self.0.snapshot_aware_eq(&other.0);
        proof {
            let a = self.0@;
            let b = other.0@;
            if r {
                assert forall|i: int| 0 <= i < self@.len() implies items_alike(
                    #[trigger] self@[i],
                    other@[i],
                ) by {
                    assert(a[i].alike(&b[i]));
                }
            } else if a.len() == b.len() {
                let i = choose|i: int| 0 <= i < a.len() && !(#[trigger] a[i]).alike(&b[i]);
                assert(!items_alike(self@[i], other@[i]));
            }
        }
        r
    }
}

/// Comparison by what matters for convergence. Of a backtrace, that is its
/// label.
pub trait SnapshotAware {
    /// Whether two values differ in nothing that matters.
    spec fn alike(&self, other: &Self) -> bool;

    /// Every value is like itself.
    proof fn alike_reflexive(a: &Self)
        ensures
            a.alike(a),
    ;

    /// Likeness goes both ways.
    proof fn alike_symmetric(a: &Self, b: &Self)
        requires
            a.alike(b),
        ensures
            b.alike(a),
    ;

    /// Likeness carries over.
    proof fn alike_transitive(a: &Self, b: &Self, c: &Self)
        requires
            a.alike(b),
            b.alike(c),
        ensures
            a.alike(c),
    ;

    /// Whether two values differ in nothing that matters.
    fn snapshot_aware_eq(&self, other: &Self) -> (r: bool)
        ensures
            r == self.alike(other),
    ;
}

impl SnapshotAware for LabelBacktrace {
    open spec fn alike(&self, other: &Self) -> bool {
        self@.label == other@.label
    }

    proof fn alike_reflexive(a: &Self) {
    }

    proof fn alike_symmetric(a: &Self, b: &Self) {
    }

    proof fn alike_transitive(a: &Self, b: &Self, c: &Self) {
    }

    fn snapshot_aware_eq(&self, other: &Self) -> (r: bool) {
        self.label().same_as(other.label())
    }
}

impl SnapshotAware for SinkDescriptor {
    open spec fn alike(&self, other: &Self) -> bool {
        self@ == other@
    }

    proof fn alike_reflexive(a: &Self) {
    }

    proof fn alike_symmetric(a: &Self, b: &Self) {
    }

    proof fn alike_transitive(a: &Self, b: &Self, c: &Self) {
    }

    fn snapshot_aware_eq(&self, other: &Self) -> (r: bool) {
        self.same_as(other)
    }
}

impl<T: SnapshotAware> SnapshotAware for &T {
    open spec fn alike(&self, other: &Self) -> bool {
        (**self).alike(*other)
    }

    proof fn alike_reflexive(a: &Self) {
        T::alike_reflexive(*a);
    }

    proof fn alike_symmetric(a: &Self, b: &Self) {
        T::alike_symmetric(*a, *b);
    }

    proof fn alike_transitive(a: &Self, b: &Self, c: &Self) {
        T::alike_transitive(*a, *b, *c);
    }

    fn snapshot_aware_eq(&self, other: &Self) -> (r: bool) {
        (**self).snapshot_aware_eq(*other)
    }
}

impl<T: SnapshotAware> SnapshotAware for Option<T> {
    open spec fn alike(&self, other: &Self) -> bool {
        match (self, other) {
            (Some(a), Some(b)) => a.alike(b),
            (None, None) => true,
            _ => false,
        }
    }

    proof fn alike_reflexive(a: &Self) {
        match a {
            Some(x) => T::alike_reflexive(x),
            None => {},
        }
    }

    proof fn alike_symmetric(a: &Self, b: &Self) {
        match (a, b) {
            (Some(x), Some(y)) => T::alike_symmetric(x, y),
            _ => {},
        }
    }

    proof fn alike_transitive(a: &Self, b: &Self, c: &Self) {
        match (a, b, c) {
            (Some(x), Some(y), Some(z)) => T::alike_transitive(x, y, z),
            _ => {},
        }
    }

    fn snapshot_aware_eq(&self, other: &Self) -> (r: bool) {
        match (self, other) {
            (Some(a), Some(b)) => a.snapshot_aware_eq(b),
            (None, None) => true,
            _ => false,
        }
    }
}

impl<T: SnapshotAware, U: SnapshotAware> SnapshotAware for (T, U) {
    open spec fn alike(&self, other: &Self) -> bool {
        self.0.alike(&other.0) && self.1.alike(&other.1)
    }

    proof fn alike_reflexive(a: &Self) {
        T::alike_reflexive(&a.0);
        U::alike_reflexive(&a.1);
    }

    proof fn alike_symmetric(a: &Self, b: &Self) {
        T::alike_symmetric(&a.0, &b.0);
        U::alike_symmetric(&a.1, &b.1);
    }

    proof fn alike_transitive(a: &Self, b: &Self, c: &Self) {
        T::alike_transitive(&a.0, &b.0, &c.0);
        U::alike_transitive(&a.1, &b.1, &c.1);
    }

    fn snapshot_aware_eq(&self, other: &Self) -> (r: bool) {
        self.0.snapshot_aware_eq(&other.0) && self.1.snapshot_aware_eq(&other.1)
    }
}

impl<T: SnapshotAware> SnapshotAware for Vec<T> {
    open spec fn alike(&self, other: &Self) -> bool {
        &&& self@.len() == other@.len()
        &&& forall|i: int| 0 <= i < self@.len() ==> (#[trigger] self@[i]).alike(&other@[i])
    }

    proof fn alike_reflexive(a: &Self) {
        assert forall|i: int| 0 <= i < a@.len() implies (#[trigger] a@[i]).alike(&a@[i]) by {
            T::alike_reflexive(&a@[i]);
        }
    }

    proof fn alike_symmetric(a: &Self, b: &Self) {
        assert forall|i: int| 0 <= i < b@.len() implies (#[trigger] b@[i]).alike(&a@[i]) by {
            assert(a@[i].alike(&b@[i]));
            T::alike_symmetric(&a@[i], &b@[i]);
        }
    }

    proof fn alike_transitive(a: &Self, b: &Self, c: &Self) {
        assert forall|i: int| 0 <= i < a@.len() implies (#[trigger] a@[i]).alike(&c@[i]) by {
            assert(b@[i].alike(&c@[i]));
            T::alike_transitive(&a@[i], &b@[i], &c@[i]);
        }
    }

    fn snapshot_aware_eq(&self, other: &Self) -> (r: bool) {
        let n: usize = self.len();
        if n != other.len() {
            return false;
        }
        let mut i: usize = 0;
        while i < n
            invariant
                i <= n,
                n == self@.len(),
                n == other@.len(),
                forall|k: int| 0 <= k < i ==> (#[trigger] self@[k]).alike(&other@[k]),
            decreases n - i,
        {
            if !self[i].snapshot_aware_eq(&other[i]) {
                proof {
                    if self.alike(other) {
                        assert(self@[i as int].alike(&other@[i as int]));
                    }
                }
                return false;
            }
            i = i + 1;
        }
        true
    }
}

impl<K: Ordered, V: SnapshotAware> SnapshotAware for OrderedMap<K, V> {
    open spec fn alike(&self, other: &Self) -> bool {
        &&& self@.dom() == other@.dom()
        &&& forall|k: K::V| #[trigger]
            self@.dom().contains(k) ==> self@[k].alike(&other@[k])
    }

    proof fn alike_reflexive(a: &Self) {
        assert forall|k: K::V| #[trigger] a@.dom().contains(k) implies a@[k].alike(&a@[k]) by {
            V::alike_reflexive(&a@[k]);
        }
    }

    proof fn alike_symmetric(a: &Self, b: &Self) {
        assert forall|k: K::V| #[trigger] b@.dom().contains(k) implies b@[k].alike(&a@[k]) by {
            assert(a@.dom().contains(k));
            V::alike_symmetric(&a@[k], &b@[k]);
        }
    }

    proof fn alike_transitive(a: &Self, b: &Self, c: &Self) {
        assert forall|k: K::V| #[trigger] a@.dom().contains(k) implies a@[k].alike(&c@[k]) by {
            assert(b@.dom().contains(k));
            V::alike_transitive(&a@[k], &b@[k], &c@[k]);
        }
    }

    fn snapshot_aware_eq(&self, other: &Self) -> (r: bool) {
        self.alike_to(other)
    }
}

impl<K: Ordered, V: SnapshotAware> OrderedMap<K, V> {
    fn alike_to(&self, other: &Self) -> (r: bool)
        ensures
            r == self.alike(other),
    {
        let n: usize = self.len();
        let m: usize = other.len();
        let mut i: usize = 0;
        while i < n
            invariant
                i <= n,
                n == self.listing().len(),
                forall|x: K::V| self@.dom().contains(x) == self.listing().contains(x),
                forall|k: int|
                    0 <= k < i ==> other@.dom().contains(#[trigger] self.listing()[k])
                        && self@[self.listing()[k]].alike(&other@[self.listing()[k]]),
            decreases n - i,
        {
            let ghost key = self.listing()[i as int];
            proof {
                assert(self.listing().contains(key));
            }
            match other.get(self.key_at(i)) {
                Some(theirs) => {
                    if !self.value_at(i).snapshot_aware_eq(theirs) {
                        proof {
                            if self.alike(other) {
                                assert(self@.dom().contains(key));
                            }
                        }
                        return false;
                    }
                },
                None => {
                    proof {
                        if self.alike(other) {
                            assert(other@.dom().contains(key));
                        }
                    }
                    return false;
                },
            }
            i = i + 1;
        }
        let mut j: usize = 0;
        while j < m
            invariant
                j <= m,
                m == other.listing().len(),
                forall|x: K::V| other@.dom().contains(x) == other.listing().contains(x),
                forall|k: int|
                    0 <= k < j ==> self@.dom().contains(#[trigger] other.listing()[k]),
            decreases m - j,
        {
            let ghost key = other.listing()[j as int];
            if !self.contains_key(other.key_at(j)) {
                proof {
                    assert(other.listing().contains(key));
                    if self.alike(other) {
                        assert(self@.dom().contains(key));
                    }
                }
                return false;
            }
            j = j + 1;
        }
        proof {
            assert forall|k: K::V| self@.dom().contains(k) implies other@.dom().contains(k)
                && self@[k].alike(&other@[k]) by {
                assert(self.listing().contains(k));
                let p = choose|p: int| 0 <= p < self.listing().len() && self.listing()[p] == k;
                assert(other@.dom().contains(self.listing()[p]));
            }
            assert forall|k: K::V| other@.dom().contains(k) implies self@.dom().contains(k) by {
                assert(other.listing().contains(k));
                let p = choose|p: int| 0 <= p < other.listing().len() && other.listing()[p] == k;
                assert(self@.dom().contains(other.listing()[p]));
            }
            assert(self@.dom() =~= other@.dom());
        }
        true
    }
}

impl SnapshotAware for usize {
    open spec fn alike(&self, other: &Self) -> bool {
        *self == *other
    }

    proof fn alike_reflexive(a: &Self) {
    }

    proof fn alike_symmetric(a: &Self, b: &Self) {
    }

    proof fn alike_transitive(a: &Self, b: &Self, c: &Self) {
    }

    fn snapshot_aware_eq(&self, other: &Self) -> (r: bool) {
        *self == *other
    }
}

impl SnapshotAware for bool {
    open spec fn alike(&self, other: &Self) -> bool {
        *self == *other
    }

    proof fn alike_reflexive(a: &Self) {
    }

    proof fn alike_symmetric(a: &Self, b: &Self) {
    }

    proof fn alike_transitive(a: &Self, b: &Self, c: &Self) {
    }

    fn snapshot_aware_eq(&self, other: &Self) -> (r: bool) {
        *self == *other
    }
}

} // verus!
