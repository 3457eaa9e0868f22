//! Directives that apply to every access of a symbol.

use vstd::prelude::*;

use crate::labels::tags::TagModel;
use crate::labels::Label;
use crate::ordered::{increasing, lemma_contains_index_of, Ordered, OrderedMap, OrderedSet};
use crate::policy::targets::{predicate_of, BlanketSourceArgPredicate};

verus! {

/// What a directive says of its target.
#[derive(Clone, Copy, Debug, PartialEq, Eq, Structural)]
pub enum BlanketDirectiveKind {
    /// It yields a label.
    Source,
    /// It takes a label away.
    Revocation,
    /// It accepts only what lies within a label.
    AllowSink,
    /// It accepts only what has nothing in common with a label.
    DenySink,
}

impl BlanketDirectiveKind {
    /// Whether a directive of this kind checks values.
    pub open spec fn is_sink(self) -> bool {
        self is AllowSink || self is DenySink
    }
}

/// A directive that applies to every access of a symbol.
#[derive(Debug)]
pub struct BlanketDirective {
    kind: BlanketDirectiveKind,
    label: Label,
    result_selector: OrderedSet<usize>,
    arg_index: Option<usize>,
    arg_predicate: Option<BlanketSourceArgPredicate>,
}

/// What a [`BlanketDirective`] stands for.
#[verifier::ext_equal]
pub struct DirectiveModel {
    pub kind: BlanketDirectiveKind,
    pub label: Set<TagModel>,
    pub result_selector: Set<usize>,
    /// The positions of the results that are meant, in increasing order.
    pub results: Seq<usize>,
    pub arg_index: Option<usize>,
    /// The position of an argument, what it is held against, and whether it is
    /// enough that it contains that.
    pub predicate: Option<(usize, Seq<char>, bool)>,
}

impl View for BlanketDirective {
    type V = DirectiveModel;

    closed spec fn view(&self) -> DirectiveModel {
        DirectiveModel {
            kind: self.kind,
            label: self.label@,
            result_selector: self.result_selector@,
            results: self.result_selector.listing(),
            arg_index: self.arg_index,
            predicate: predicate_of(self.arg_predicate),
        }
    }
}

/// What several directives stand for.
pub open spec fn directives_of(s: Seq<BlanketDirective>) -> Seq<DirectiveModel> {
    s.map_values(|d: BlanketDirective| d@)
}

impl BlanketDirective {
    #[verifier::type_invariant]
    spec fn inv(&self) -> bool {
        self.label.wf()
    }

    /// A directive. Sinks know neither a condition nor single results, and
    /// only sinks know single arguments.
    pub fn new(
        kind: BlanketDirectiveKind,
        result_selector: OrderedSet<usize>,
        arg_index: Option<usize>,
        arg_predicate: Option<BlanketSourceArgPredicate>,
        label: Label,
    ) -> (r: Self)
        requires
            label.wf(),
        ensures
            r@.kind == kind,
            r@.label == label@,
            r@.results.len() == 0 <==> r@.result_selector == Set::<usize>::empty(),
            kind.is_sink() ==> r@.result_selector == Set::<usize>::empty() && r@.arg_index
                == arg_index && r@.predicate is None,
            !kind.is_sink() ==> r@.result_selector == result_selector@ && r@.arg_index is None
                && r@.predicate == predicate_of(arg_predicate),
    {
        proof {
            result_selector.lemma_listed();
            let listing = result_selector.listing();
            if listing.len() > 0 {
                assert(listing.to_set().contains(listing[0]));
            } else {
                assert(listing.to_set() =~= Set::<usize>::empty());
            }
        }
        match kind {
            BlanketDirectiveKind::Source | BlanketDirectiveKind::Revocation => BlanketDirective {
                kind,
                label,
                result_selector,
                arg_index: None,
                arg_predicate,
            },
            BlanketDirectiveKind::AllowSink | BlanketDirectiveKind::DenySink => BlanketDirective {
                kind,
                label,
                result_selector: OrderedSet::new(),
                arg_index,
                arg_predicate: None,
            },
        }
    }

    /// What the directive says of its target.
    pub fn kind(&self) -> (r: BlanketDirectiveKind)
        ensures
            r == self@.kind,
    {
        self.kind
    }

    /// The label in question.
    pub fn label(&self) -> (r: &Label)
        ensures
            r@ == self@.label,
            r.wf(),
    {
        proof {
            use_type_invariant(self);
        }
        &self.label
    }

    /// The positions of the results that are meant; all if empty.
    pub fn result_selector(&self) -> (r: &OrderedSet<usize>)
        ensures
            r@ == self@.result_selector,
            r.listing() == self@.results,
    {
        &self.result_selector
    }

    /// The position of the argument that is meant; all if absent.
    pub fn arg_index(&self) -> (r: Option<usize>)
        ensures
            r == self@.arg_index,
    {
        self.arg_index
    }

    /// The condition on an argument, if there is one.
    pub fn arg_predicate(&self) -> (r: Option<&BlanketSourceArgPredicate>)
        ensures
            predicate_of(match r {
                Some(p) => Some(*p),
                None => None,
            }) == self@.predicate,
    {
        match &self.arg_predicate {
            Some(p) => Some(p),
            None => None,
        }
    }

    /// Whether only a call tells whether, or for which results, the directive
    /// applies.
    pub fn should_resolve_at_call_time(&self) -> (r: bool)
        ensures
            r == (self@.predicate is Some || self@.result_selector != Set::<usize>::empty()),
    {
        let n: usize = self.result_selector.len();
        proof {
            if n == 0 {
                assert(self.result_selector@ =~= Set::<usize>::empty());
            }
        }
        self.arg_predicate.is_some() || n != 0
    }

    /// A copy.
    pub fn duplicate(&self) -> (r: Self)
        ensures
            r@ == self@,
    {
        proof {
            use_type_invariant(self);
        }
        let r = BlanketDirective {
            kind: self.kind,
            label: self.label.clone(),
            result_selector: self.result_selector.duplicate(),
            arg_index: self.arg_index,
            arg_predicate: match &self.arg_predicate {
                Some(p) => Some(p.duplicate()),
                None => None,
            },
        };
        proof {
            assert(r@ =~= self@);
        }
        r
    }

    fn selects_same(&self, other: &Self) -> (r: bool)
        ensures
            r == (self@.results == other@.results),
    {
        let n: usize = self.result_selector.len();
        if n != other.result_selector.len() {
            return false;
        }
        let mut i: usize = 0;
        while i < n
            invariant
                i <= n,
                n == self@.results.len(),
                n == other@.results.len(),
                self@.results == self.result_selector.listing(),
                other@.results == other.result_selector.listing(),
                forall|k: int| 0 <= k < i ==> self@.results[k] == other@.results[k],
            decreases n - i,
        {
            if *self.result_selector.at(i) != *other.result_selector.at(i) {
                return false;
            }
            i = i + 1;
        }
        proof {
            assert(self@.results =~= other@.results);
        }
        true
    }

    /// Whether two directives are the same.
    pub fn same_as(&self, other: &Self) -> (r: bool)
        ensures
            r == (self@ == other@),
    {
        proof {
            use_type_invariant(self);
            use_type_invariant(other);
            self.result_selector.lemma_listed();
            other.result_selector.lemma_listed();
        }
        let same_predicate = match (&self.arg_predicate, &other.arg_predicate) {
            (Some(a), Some(b)) => a.same_as(b),
            (None, None) => true,
            _ => false,
        };
        let r = self.kind == other.kind && self.label.same_as(&other.label) && self.selects_same(
            other,
        ) && self.arg_index == other.arg_index && same_predicate;
        proof {
            if r {
                assert(self@ =~= other@);
            }
        }
        r
    }
}

/// The directives for the symbols, and the members of types, of a package.
#[derive(Debug)]
pub struct PackageBlanketDirectives {
    symbols: OrderedMap<String, Vec<BlanketDirective>>,
    type_members: OrderedMap<String, OrderedMap<String, Vec<BlanketDirective>>>,
}

impl PackageBlanketDirectives {
    /// The directives for a symbol, or for a member of a type, in the order in
    /// which they were added.
    pub closed spec fn at(
        &self,
        owner_type: Option<Seq<char>>,
        member_name: Seq<char>,
    ) -> Seq<BlanketDirective> {
        match owner_type {
            None => if self.symbols@.dom().contains(member_name) {
                self.symbols@[member_name]@
            } else {
                Seq::<BlanketDirective>::empty()
            },
            Some(t) => if self.type_members@.dom().contains(t)
                && self.type_members@[t]@.dom().contains(member_name) {
                self.type_members@[t]@[member_name]@
            } else {
                Seq::<BlanketDirective>::empty()
            },
        }
    }

    /// Whether there is a directive for a symbol, or for a member of a type.
    pub closed spec fn has(&self, owner_type: Option<Seq<char>>, member_name: Seq<char>) -> bool {
        match owner_type {
            None => self.symbols@.dom().contains(member_name),
            Some(t) => self.type_members@.dom().contains(t)
                && self.type_members@[t]@.dom().contains(member_name),
        }
    }

    /// No directives.
    pub fn new() -> (r: Self)
        ensures
            forall|t: Option<Seq<char>>, m: Seq<char>|
                !#[trigger] r.has(t, m) && r.at(t, m) == Seq::<BlanketDirective>::empty(),
    {
        PackageBlanketDirectives { symbols: OrderedMap::new(), type_members: OrderedMap::new() }
    }

    /// The directives for a symbol, or for a member of a type, if any.
    pub fn get(&self, owner_type: Option<&str>, member_name: &str) -> (r: Option<
        &Vec<BlanketDirective>,
    >)
        ensures
            r is Some <==> self.has(
                match owner_type {
                    Some(t) => Some(t@),
                    None => None,
                },
                member_name@,
            ),
            (match r {
                Some(v) => v@,
                None => Seq::<BlanketDirective>::empty(),
            }) == self.at(
                match owner_type {
                    Some(t) => Some(t@),
                    None => None,
                },
                member_name@,
            ),
    {
        match owner_type {
            None => self.symbols.get(&member_name.to_owned()),
            Some(t) => match self.type_members.get(&t.to_owned()) {
                Some(inner) => inner.get(&member_name.to_owned()),
                None => None,
            },
        }
    }

    /// Adds a directive for a symbol, or for a member of a type, behind those
    /// that there are.
    pub fn push(
        &mut self,
        owner_type: Option<String>,
        member_name: String,
        directive: BlanketDirective,
    )
        ensures
            final(self).has(crate::labels::tags::text_of(owner_type), member_name@),
            final(self).at(crate::labels::tags::text_of(owner_type), member_name@) == old(self).at(
                crate::labels::tags::text_of(owner_type),
                member_name@,
            ).push(directive),
            forall|t: Option<Seq<char>>, m: Seq<char>|
                (t != crate::labels::tags::text_of(owner_type) || m != member_name@) ==> #[trigger]
                    final(self).has(t, m) == old(self).has(t, m) && final(self).at(t, m) == old(
                    self,
                ).at(t, m),
    {
        match owner_type {
            None => {
                let mut entry = match self.symbols.remove(&member_name) {
                    Some(v) => v,
                    None => Vec::new(),
                };
                entry.push(directive);
                self.symbols.insert(member_name, entry);
            },
            Some(t) => {
                let mut inner = match self.type_members.remove(&t) {
                    Some(m) => m,
                    None => OrderedMap::new(),
                };
                let mut entry = match inner.remove(&member_name) {
                    Some(v) => v,
                    None => Vec::new(),
                };
                entry.push(directive);
                inner.insert(member_name, entry);
                self.type_members.insert(t, inner);
            },
        }
    }

    spec fn symbol_keys(&self, n: int) -> Seq<(Option<Seq<char>>, Seq<char>)> {
        Seq::new(n as nat, |i: int| (None::<Seq<char>>, self.symbols.listing()[i]))
    }

    spec fn keys_of_type(&self, j: int, n: int) -> Seq<(Option<Seq<char>>, Seq<char>)> {
        let t = self.type_members.listing()[j];
        Seq::new(n as nat, |i: int| (Some(t), self.type_members@[t].listing()[i]))
    }

    spec fn member_keys(&self, n: int) -> Seq<(Option<Seq<char>>, Seq<char>)>
        decreases n,
    {
        if n <= 0 {
            Seq::<(Option<Seq<char>>, Seq<char>)>::empty()
        } else {
            let t = self.type_members.listing()[n - 1];
            self.member_keys(n - 1) + self.keys_of_type(
                n - 1,
                self.type_members@[t].listing().len() as int,
            )
        }
    }

    /// The symbols and members for which there are directives, each once: the
    /// symbols in order, then the members of each type in order.
    pub closed spec fn keys(&self) -> Seq<(Option<Seq<char>>, Seq<char>)> {
        self.symbol_keys(self.symbols.listing().len() as int) + self.member_keys(
            self.type_members.listing().len() as int,
        )
    }

    /// The directives under the first of some keys, key by key.
    pub open spec fn under(&self, keys: Seq<(Option<Seq<char>>, Seq<char>)>, n: int) -> Seq<
        BlanketDirective,
    >
        decreases n,
    {
        if n <= 0 {
            Seq::<BlanketDirective>::empty()
        } else {
            self.under(keys, n - 1) + self.at(keys[n - 1].0, keys[n - 1].1)
        }
    }

    proof fn lemma_under_prefix(
        &self,
        a: Seq<(Option<Seq<char>>, Seq<char>)>,
        b: Seq<(Option<Seq<char>>, Seq<char>)>,
        n: int,
    )
        requires
            n <= a.len(),
        ensures
            self.under(a + b, n) == self.under(a, n),
        decreases n,
    {
        if n > 0 {
            self.lemma_under_prefix(a, b, n - 1);
            assert((a + b)[n - 1] == a[n - 1]);
        }
    }

    proof fn lemma_member_keys(&self, n: int)
        requires
            self.orderly(),
            0 <= n <= self.type_members.listing().len(),
        ensures
            forall|i: int, j: int|
                0 <= i < j < self.member_keys(n).len() ==> self.member_keys(n)[i]
                    != self.member_keys(n)[j],
            forall|i: int|
                0 <= i < self.member_keys(n).len() ==> (#[trigger] self.member_keys(n)[i]).0
                    is Some && self.has(self.member_keys(n)[i].0, self.member_keys(n)[i].1)
                    && exists|k: int|
                    0 <= k < n && #[trigger] self.type_members.listing()[k]
                        == self.member_keys(n)[i].0->0,
            forall|k: int, m: Seq<char>|
                0 <= k < n && #[trigger] self.has(Some(self.type_members.listing()[k]), m)
                    ==> self.member_keys(n).contains((Some(self.type_members.listing()[k]), m)),
        decreases n,
    {
        if n > 0 {
            self.lemma_member_keys(n - 1);
            let types = self.type_members.listing();
            let t = types[n - 1];
            let inner = self.type_members@[t].listing();
            let before = self.member_keys(n - 1);
            let own = self.keys_of_type(n - 1, inner.len() as int);
            let all = self.member_keys(n);
            assert(types.contains(t));
            assert forall|i: int| 0 <= i < all.len() implies (#[trigger] all[i]).0 is Some
                && self.has(all[i].0, all[i].1) && exists|k: int|
                0 <= k < n && #[trigger] types[k] == all[i].0->0 by {
                if i < before.len() {
                    assert(all[i] == before[i]);
                    let k = choose|k: int|
                        0 <= k < n - 1 && #[trigger] types[k] == before[i].0->0;
                    assert(types[k] == all[i].0->0);
                } else {
                    let x = i - before.len();
                    assert(all[i] == own[x]);
                    assert(inner.contains(inner[x]));
                    assert(types[n - 1] == all[i].0->0);
                }
            }
            assert forall|i: int, j: int| 0 <= i < j < all.len() implies all[i] != all[j] by {
                if j >= before.len() {
                    let y = j - before.len();
                    assert(all[j] == own[y]);
                    if i < before.len() {
                        assert(all[i] == before[i]);
                        let k = choose|k: int|
                            0 <= k < n - 1 && #[trigger] types[k] == before[i].0->0;
                        assert(types[k] != types[n - 1]);
                    } else {
                        assert(all[i] == own[i - before.len()]);
                        assert(inner[i - before.len()] != inner[y]);
                    }
                } else {
                    assert(all[i] == before[i] && all[j] == before[j]);
                }
            }
            assert forall|k: int, m: Seq<char>|
                0 <= k < n && #[trigger] self.has(Some(types[k]), m) implies all.contains(
                (Some(types[k]), m),
            ) by {
                if k < n - 1 {
                    let i = choose|i: int|
                        0 <= i < before.len() && before[i] == (Some(types[k]), m);
                    assert(all[i] == (Some(types[k]), m));
                } else {
                    lemma_contains_index_of(inner, m);
                    let x = inner.index_of(m);
                    assert(all[before.len() + x] == own[x]);
                }
            }
        }
    }

    spec fn orderly(&self) -> bool {
        &&& distinct(self.symbols.listing())
        &&& distinct(self.type_members.listing())
        &&& forall|m: Seq<char>| #[trigger]
            self.symbols@.dom().contains(m) == self.symbols.listing().contains(m)
        &&& forall|t: Seq<char>| #[trigger]
            self.type_members@.dom().contains(t) == self.type_members.listing().contains(t)
        &&& forall|t: Seq<char>| #[trigger]
            self.type_members@.dom().contains(t) ==> {
                &&& distinct(self.type_members@[t].listing())
                &&& forall|m: Seq<char>| #[trigger]
                    self.type_members@[t]@.dom().contains(m) == self.type_members@[t].listing().contains(
                    m,
                )
            }
    }

    proof fn lemma_keys(&self)
        requires
            self.orderly(),
        ensures
            forall|i: int, j: int|
                0 <= i < j < self.keys().len() ==> self.keys()[i] != self.keys()[j],
            forall|t: Option<Seq<char>>, m: Seq<char>| #[trigger]
                self.has(t, m) <==> self.keys().contains((t, m)),
    {
        let names = self.symbols.listing();
        let types = self.type_members.listing();
        let a = self.symbol_keys(names.len() as int);
        let b = self.member_keys(types.len() as int);
        let all = self.keys();
        self.lemma_member_keys(types.len() as int);
        assert forall|i: int, j: int| 0 <= i < j < all.len() implies all[i] != all[j] by {
            if j < a.len() {
                assert(names[i] != names[j]);
            } else {
                assert(all[j] == b[j - a.len()]);
                if i >= a.len() {
                    assert(all[i] == b[i - a.len()]);
                }
            }
        }
        assert forall|t: Option<Seq<char>>, m: Seq<char>| #[trigger] self.has(t, m)
            <==> all.contains((t, m)) by {
            if self.has(t, m) {
                match t {
                    None => {
                        lemma_contains_index_of(names, m);
                        assert(all[names.index_of(m)] == (t, m));
                    },
                    Some(x) => {
                        lemma_contains_index_of(types, x);
                        let k = types.index_of(x);
                        assert(self.has(Some(types[k]), m));
                        let i = choose|i: int| 0 <= i < b.len() && b[i] == (t, m);
                        assert(all[a.len() + i] == (t, m));
                    },
                }
            }
            if all.contains((t, m)) {
                let i = choose|i: int| 0 <= i < all.len() && all[i] == (t, m);
                if i < a.len() {
                    assert(names.contains(names[i]));
                } else {
                    assert(all[i] == b[i - a.len()]);
                }
            }
        }
    }

    /// Whether a directive is one of those for some symbol or member.
    pub open spec fn lists(&self, d: BlanketDirective) -> bool {
        exists|t: Option<Seq<char>>, m: Seq<char>| #[trigger] self.at(t, m).contains(d)
    }

    proof fn lemma_under_contains(
        &self,
        keys: Seq<(Option<Seq<char>>, Seq<char>)>,
        n: int,
        d: BlanketDirective,
    )
        requires
            0 <= n <= keys.len(),
        ensures
            self.under(keys, n).contains(d) <==> exists|k: int|
                0 <= k < n && self.at((#[trigger] keys[k]).0, keys[k].1).contains(d),
        decreases n,
    {
        if n > 0 {
            self.lemma_under_contains(keys, n - 1, d);
            let before = self.under(keys, n - 1);
            let own = self.at(keys[n - 1].0, keys[n - 1].1);
            let all = self.under(keys, n);
            if all.contains(d) {
                let i = choose|i: int| 0 <= i < all.len() && all[i] == d;
                if i < before.len() {
                    assert(before[i] == d);
                    let k = choose|k: int|
                        0 <= k < n - 1 && self.at((#[trigger] keys[k]).0, keys[k].1).contains(d);
                    assert(0 <= k < n);
                } else {
                    assert(own[i - before.len()] == d);
                }
            }
            if before.contains(d) {
                let i = choose|i: int| 0 <= i < before.len() && before[i] == d;
                assert(all[i] == d);
            }
            if own.contains(d) {
                let i = choose|i: int| 0 <= i < own.len() && own[i] == d;
                assert(all[before.len() + i] == d);
            }
            if exists|k: int| 0 <= k < n && self.at((#[trigger] keys[k]).0, keys[k].1).contains(d) {
                let k = choose|k: int|
                    0 <= k < n && self.at((#[trigger] keys[k]).0, keys[k].1).contains(d);
                assert(k < n - 1 || k == n - 1);
            }
        }
    }

    proof fn lemma_lists(&self, d: BlanketDirective)
        requires
            forall|t: Option<Seq<char>>, m: Seq<char>| #[trigger]
                self.has(t, m) <==> self.keys().contains((t, m)),
        ensures
            self.lists(d) <==> self.under(self.keys(), self.keys().len() as int).contains(d),
    {
        let keys = self.keys();
        self.lemma_under_contains(keys, keys.len() as int, d);
        if self.lists(d) {
            let (t, m) = choose|t: Option<Seq<char>>, m: Seq<char>| #[trigger]
                self.at(t, m).contains(d);
            assert(self.has(t, m));
            let k = choose|k: int| 0 <= k < keys.len() && keys[k] == (t, m);
            assert(self.at(keys[k].0, keys[k].1).contains(d));
        }
    }

    /// All directives, symbol by symbol and then member by member; those for one
    /// symbol or member in the order in which they were added.
    pub fn iter(&self) -> (r: Vec<&BlanketDirective>)
        ensures
            directives_behind(r@) == self.under(self.keys(), self.keys().len() as int),
            forall|i: int, j: int|
                0 <= i < j < self.keys().len() ==> self.keys()[i] != self.keys()[j],
            forall|t: Option<Seq<char>>, m: Seq<char>| #[trigger]
                self.has(t, m) <==> self.keys().contains((t, m)),
            forall|d: BlanketDirective| self.lists(d) <==> #[trigger] r@.contains(&d),
    {
        let mut r: Vec<&BlanketDirective> = Vec::new();
        let n: usize = self.symbols.len();
        let m: usize = self.type_members.len();
        let ghost names = self.symbols.listing();
        let ghost types = self.type_members.listing();
        proof {
            assert(distinct(names)) by {
                lemma_increasing_is_distinct(names);
            }
            assert(distinct(types)) by {
                lemma_increasing_is_distinct(types);
            }
            assert(directives_behind(r@) =~= self.under(self.symbol_keys(0), 0));
        }
        let mut i: usize = 0;
        while i < n
            invariant
                i <= n,
                n == names.len(),
                names == self.symbols.listing(),
                forall|x: Seq<char>| #[trigger] self.symbols@.dom().contains(x) == names.contains(x),
                directives_behind(r@) == self.under(self.symbol_keys(i as int), i as int),
            decreases n - i,
        {
            let own = self.symbols.value_at(i);
            let ghost before = directives_behind(r@);
            append_refs(&mut r, own);
            proof {
                let a = self.symbol_keys(i as int);
                let b = self.symbol_keys(i + 1);
                assert(b =~= a.push(b[i as int]));
                assert(b =~= a + seq![b[i as int]]);
                self.lemma_under_prefix(a, seq![b[i as int]], i as int);
                assert(names.contains(names[i as int]));
                assert(self.at(None, names[i as int]) == own@);
            }
            i = i + 1;
        }
        let ghost a = self.symbol_keys(n as int);
        let mut j: usize = 0;
        proof {
            assert(a + self.member_keys(0) =~= a);
        }
        while j < m
            invariant
                j <= m,
                m == types.len(),
                types == self.type_members.listing(),
                distinct(types),
                forall|x: Seq<char>| #[trigger]
                    self.type_members@.dom().contains(x) == types.contains(x),
                forall|k: int|
                    0 <= k < j ==> distinct(
                        self.type_members@[#[trigger] types[k]].listing(),
                    ) && forall|x: Seq<char>| #[trigger]
                        self.type_members@[types[k]]@.dom().contains(x)
                            == self.type_members@[types[k]].listing().contains(x),
                directives_behind(r@) == self.under(
                    a + self.member_keys(j as int),
                    (a + self.member_keys(j as int)).len() as int,
                ),
            decreases m - j,
        {
            let inner = self.type_members.value_at(j);
            let ghost t = types[j as int];
            let ghost so_far = a + self.member_keys(j as int);
            let ghost own_keys = inner.listing();
            proof {
                assert(types.contains(t));
                assert(*inner == self.type_members@[t]);
            }
            let c: usize = inner.len();
            proof {
                lemma_increasing_is_distinct(own_keys);
                assert(so_far + self.keys_of_type(j as int, 0) =~= so_far);
            }
            let mut k: usize = 0;
            while k < c
                invariant
                    k <= c,
                    c == own_keys.len(),
                    own_keys == inner.listing(),
                    j < types.len(),
                    types == self.type_members.listing(),
                    t == types[j as int],
                    self.type_members@.dom().contains(t),
                    *inner == self.type_members@[t],
                    forall|x: Seq<char>| #[trigger]
                        inner@.dom().contains(x) == own_keys.contains(x),
                    directives_behind(r@) == self.under(
                        so_far + self.keys_of_type(j as int, k as int),
                        (so_far + self.keys_of_type(j as int, k as int)).len() as int,
                    ),
                decreases c - k,
            {
                let own = inner.value_at(k);
                append_refs(&mut r, own);
                proof {
                    let x = so_far + self.keys_of_type(j as int, k as int);
                    let y = so_far + self.keys_of_type(j as int, k + 1);
                    let last = y[y.len() - 1];
                    assert(y =~= x + seq![last]);
                    self.lemma_under_prefix(x, seq![last], x.len() as int);
                    assert(own_keys.contains(own_keys[k as int]));
                    assert(self.at(Some(t), own_keys[k as int]) == own@);
                }
                k = k + 1;
            }
            proof {
                assert(so_far + self.keys_of_type(j as int, c as int) =~= a + self.member_keys(
                    j + 1,
                ));
            }
            j = j + 1;
        }
        proof {
            assert forall|t: Seq<char>| #[trigger] self.type_members@.dom().contains(t) implies {
                &&& distinct(self.type_members@[t].listing())
                &&& forall|m: Seq<char>| #[trigger]
                    self.type_members@[t]@.dom().contains(m) == self.type_members@[t].listing().contains(
                    m,
                )
            } by {
                lemma_contains_index_of(types, t);
                assert(types[types.index_of(t)] == t);
            }
            self.lemma_keys();
            assert forall|d: BlanketDirective| self.lists(d) <==> #[trigger] r@.contains(&d) by {
                self.lemma_lists(d);
                let all = directives_behind(r@);
                if r@.contains(&d) {
                    let i = choose|i: int| 0 <= i < r@.len() && r@[i] == &d;
                    assert(all[i] == d);
                }
                if all.contains(d) {
                    let i = choose|i: int| 0 <= i < all.len() && all[i] == d;
                    assert(r@[i] == &d);
                }
            }
        }
        r
    }
}

/// What references to directives refer to.
pub open spec fn directives_behind(s: Seq<&BlanketDirective>) -> Seq<BlanketDirective> {
    s.map_values(|d: &BlanketDirective| *d)
}

/// Whether nothing occurs twice in a list.
spec fn distinct(s: Seq<Seq<char>>) -> bool {
    forall|i: int, j: int| 0 <= i < j < s.len() ==> s[i] != s[j]
}

proof fn lemma_increasing_is_distinct(s: Seq<Seq<char>>)
    requires
        increasing::<String>(s),
    ensures
        distinct(s),
{
    assert forall|i: int, j: int| 0 <= i < j < s.len() implies s[i] != s[j] by {
        String::order_equal(s[i], s[j]);
    }
}

fn append_refs<'a>(r: &mut Vec<&'a BlanketDirective>, own: &'a Vec<BlanketDirective>)
    ensures
        directives_behind(final(r)@) == directives_behind(old(r)@) + own@,
{
    let ghost before = directives_behind(r@);
    let n: usize = own.len();
    let mut i: usize = 0;
    proof {
        assert(own@.take(0) =~= Seq::<BlanketDirective>::empty());
        assert(before + own@.take(0) =~= before);
    }
    while i < n
        invariant
            i <= n,
            n == own@.len(),
            directives_behind(r@) == before + own@.take(i as int),
        decreases n - i,
    {
        let ghost held = r@;
        r.push(&own[i]);
        proof {
            assert(directives_behind(r@) =~= directives_behind(held).push(own@[i as int]));
            assert(own@.take(i + 1) =~= own@.take(i as int).push(own@[i as int]));
        }
        i = i + 1;
    }
    proof {
        assert(own@.take(n as int) =~= own@);
    }
}

} // verus!
