//! Going through all symbols.

use vstd::prelude::*;

use crate::locations::{Pinned, PinnedModel, Span, SpanModel};
use crate::ordered::same;
use crate::symbols::table::{PackageScopeEnvelope, SymbolTable, TableModel};

verus! {

impl TableModel {
    /// Whether a symbol has a name in a scope, or is a method of a package, and
    /// was declared as said.
    pub open spec fn declares(self, symbol: usize, declaration: PinnedModel<SpanModel>) -> bool {
        &&& symbol < self.symbols.len()
        &&& self.symbols[symbol as int].declared_name == declaration
        &&& {
            ||| exists|i: int|
                0 <= i < self.scopes.len() && self.names_in(
                    i,
                    declaration.inner.content,
                    symbol,
                )
            ||| exists|p: Seq<char>, t: Seq<char>|
                self.has_method(p, t, declaration.inner.content, symbol)
        }
    }

    /// The symbol that a name stands for in a scope, if it was declared as said.
    pub open spec fn declared_in_scope(
        self,
        scope: int,
        declaration: PinnedModel<SpanModel>,
    ) -> Option<usize> {
        let names = self.scopes[scope].symbols;
        let name = declaration.inner.content;
        if names.dom().contains(name) && self.symbols[names[name] as int].declared_name
            == declaration {
            Some(names[name])
        } else {
            None
        }
    }

    /// The symbol that was declared as said, from a scope on: outer scopes come
    /// before those in them.
    pub open spec fn declared_from(
        self,
        declaration: PinnedModel<SpanModel>,
        scope: int,
    ) -> Option<usize>
        decreases self.scopes.len() - scope,
    {
        if scope < 0 || scope >= self.scopes.len() {
            None
        } else {
            match self.declared_in_scope(scope, declaration) {
                Some(s) => Some(s),
                None => self.declared_from(declaration, scope + 1),
            }
        }
    }

    /// The symbol that has a name and was declared as said.
    pub open spec fn declared_symbol(self, declaration: PinnedModel<SpanModel>) -> Option<usize> {
        self.declared_from(declaration, 0)
    }

    /// Whether a name stands for a symbol in a scope.
    pub open spec fn names_in(self, scope: int, name: Seq<char>, symbol: usize) -> bool {
        self.scopes[scope].symbols.dom().contains(name) && self.scopes[scope].symbols[name]
            == symbol
    }

    /// Whether a symbol is a method of a package.
    pub open spec fn has_method(
        self,
        path: Seq<char>,
        receiver_type: Seq<char>,
        name: Seq<char>,
        symbol: usize,
    ) -> bool {
        &&& self.packages.dom().contains(path)
        &&& self.packages[path] matches Some(e)
        &&& e.has(receiver_type, name)
        &&& e.at(receiver_type, name) == symbol
    }
}

impl SymbolTable {
    fn is_declared_as(&self, id: usize, declaration: &Pinned<Span>) -> (r: bool)
        requires
            id < self@.symbols.len(),
        ensures
            r == (self@.symbols[id as int].declared_name == declaration@),
    {
        same(&self.symbols[id].declared_name, declaration)
    }

    /// The symbol that has a name and was declared as said.
    pub fn find_declared_symbol(&self, declaration: &Pinned<Span>) -> (r: Option<usize>)
        requires
            self@.wf(),
        ensures
            r == self@.declared_symbol(declaration@),
            r matches Some(s) ==> s < self@.symbols.len(),
    {
        let key = declaration.content().to_owned();
        let n: usize = self.scopes.len();
        let mut i: usize = 0;
        while i < n
            invariant
                i <= n,
                n == self.scopes@.len(),
                self@.wf(),
                self@.scopes.len() == n,
                key@ == declaration@.inner.content,
                self@.declared_symbol(declaration@) == self@.declared_from(
                    declaration@,
                    i as int,
                ),
            decreases n - i,
        {
            proof {
                assert(self@.scopes[i as int] == self.scopes@[i as int]@);
            }
            if let Some(id) = self.scopes[i].symbols.get(&key) {
                proof {
                    assert(self@.scopes[i as int].symbols.dom().contains(key@));
                }
                if self.is_declared_as(*id, declaration) {
                    return Some(*id);
                }
            }
            i = i + 1;
        }
        None
    }

    /// The symbol that was declared as said, wherever that was.
    pub fn get_symbol_by_declaration(&self, declaration: &Pinned<Span>) -> (r: Option<usize>)
        requires
            self@.wf(),
        ensures
            r matches Some(s) ==> self@.declares(s, declaration@),
            r is None ==> forall|s: usize| !#[trigger] self@.declares(s, declaration@),
    {
        let key = declaration.content().to_owned();
        let ghost name = declaration@.inner.content;
        let n: usize = self.scopes.len();
        let mut i: usize = 0;
        while i < n
            invariant
                i <= n,
                n == self.scopes@.len(),
                self@.wf(),
                self@.scopes.len() == n,
                key@ == name,
                name == declaration@.inner.content,
                forall|k: int, s: usize|
                    0 <= k < i && s < self@.symbols.len() && #[trigger] self@.names_in(k, name, s)
                        ==> self@.symbols[s as int].declared_name != declaration@,
            decreases n - i,
        {
            proof {
                assert(self@.scopes[i as int] == self.scopes@[i as int]@);
            }
            if let Some(id) = self.scopes[i].symbols.get(&key) {
                proof {
                    assert(self@.scopes[i as int].symbols.dom().contains(name));
                    assert(self@.names_in(i as int, name, *id));
                }
                if self.is_declared_as(*id, declaration) {
                    return Some(*id);
                }
            }
            i = i + 1;
        }
        let m: usize = self.packages.len();
        let ghost paths = self.packages.listing();
        let mut p: usize = 0;
        while p < m
            invariant
                p <= m,
                m == paths.len(),
                paths == self.packages.listing(),
                self@.wf(),
                key@ == name,
                name == declaration@.inner.content,
                forall|x: Seq<char>| #[trigger]
                    self.packages@.dom().contains(x) == paths.contains(x),
                forall|k: int, t: Seq<char>, s: usize|
                    0 <= k < p && #[trigger] self@.has_method(paths[k], t, name, s)
                        ==> self@.symbols[s as int].declared_name != declaration@,
            decreases m - p,
        {
            let ghost path = paths[p as int];
            proof {
                assert(paths.contains(path));
                assert(self.packages@.dom().contains(path));
                assert(self@.packages.dom().contains(path));
            }
            match self.packages.value_at(p) {
                Some(envelope) => {
                    proof {
                        assert(self@.packages[path] == Some(envelope@));
                    }
                    if let Some(id) = self.find_method(envelope, &key, declaration, Ghost(path)) {
                        return Some(id);
                    }
                },
                None => {
                    proof {
                        assert(self@.packages[path] is None);
                    }
                },
            }
            p = p + 1;
        }
        proof {
            assert forall|s: usize| !#[trigger] self@.declares(s, declaration@) by {
                if self@.declares(s, declaration@) {
                    if exists|i: int| 0 <= i < self@.scopes.len() && self@.names_in(i, name, s) {
                        let i = choose|i: int|
                            0 <= i < self@.scopes.len() && self@.names_in(i, name, s);
                        assert(self@.names_in(i, name, s));
                    } else {
                        let (q, t) = choose|q: Seq<char>, t: Seq<char>|
                            self@.has_method(q, t, name, s);
                        assert(self.packages@.dom().contains(q));
                        assert(paths.contains(q));
                        let k = choose|k: int| 0 <= k < paths.len() && paths[k] == q;
                        assert(self@.has_method(paths[k], t, name, s));
                    }
                }
            }
        }
        None
    }

    fn find_method(
        &self,
        envelope: &PackageScopeEnvelope,
        key: &String,
        declaration: &Pinned<Span>,
        Ghost(path): Ghost<Seq<char>>,
    ) -> (r: Option<usize>)
        requires
            self@.wf(),
            self@.packages.dom().contains(path),
            self@.packages[path] == Some(envelope@),
            key@ == declaration@.inner.content,
        ensures
            r matches Some(s) ==> self@.declares(s, declaration@),
            r is None ==> forall|t: Seq<char>, s: usize| #[trigger]
                self@.has_method(path, t, key@, s) ==> self@.symbols[s as int].declared_name
                    != declaration@,
    {
        let n: usize = envelope.methods.len();
        let ghost types = envelope.methods.listing();
        let mut i: usize = 0;
        while i < n
            invariant
                i <= n,
                n == types.len(),
                types == envelope.methods.listing(),
                self@.wf(),
                self@.packages.dom().contains(path),
                self@.packages[path] == Some(envelope@),
                key@ == declaration@.inner.content,
                forall|x: Seq<char>| #[trigger]
                    envelope.methods@.dom().contains(x) == types.contains(x),
                forall|k: int, s: usize|
                    0 <= k < i && #[trigger] self@.has_method(path, types[k], key@, s)
                        ==> self@.symbols[s as int].declared_name != declaration@,
            decreases n - i,
        {
            let of_type = envelope.methods.value_at(i);
            let ghost t = types[i as int];
            proof {
                assert(types.contains(t));
            }
            if let Some(id) = of_type.get(key) {
                proof {
                    assert(envelope@.has(t, key@));
                    assert(self@.has_method(path, t, key@, *id));
                }
                if self.is_declared_as(*id, declaration) {
                    return Some(*id);
                }
            }
            i = i + 1;
        }
        proof {
            assert forall|t: Seq<char>, s: usize| #[trigger]
                self@.has_method(path, t, key@, s) implies self@.symbols[s as int].declared_name
                != declaration@ by {
                assert(envelope.methods@.dom().contains(t));
                assert(types.contains(t));
                let k = choose|k: int| 0 <= k < types.len() && types[k] == t;
                assert(self@.has_method(path, types[k], key@, s));
            }
        }
        None
    }
}

} // verus!
