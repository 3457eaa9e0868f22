//! The table of all symbols.

use vstd::prelude::*;

use crate::context::deferred_checks::{checks_of, DeferredEnforcementCheck};
use crate::labels::tags::text_of;
use crate::locations::{Pinned, PinnedModel, Span, SpanModel};
use crate::ordered::{same, OrderedMap};
use crate::policy::targets::SimpleConstValue;
use crate::symbols::universe::{new_universe, predeclared, universe_functions, universe_names,
    universe_symbols};
use crate::symbols::{const_of, summaries_of, symbols_of, Scope, ScopeModel, Symbol, SymbolModel};
use crate::taint::funcs::{FunctionSummary, SummaryModel};
use crate::text::{is_uppercase, uppercase};
use crate::values::Value;

pub mod listings;
pub mod packages;
pub mod snapshotting;

verus! {

/// What is known of a package.
#[derive(Debug)]
pub struct PackageScopeEnvelope {
    /// The name from its package clause.
    pub package_name: Pinned<Span>,
    /// The position of its outermost scope.
    pub scope: usize,
    /// The positions of the symbols of its methods, by the type of the receiver
    /// and by name.
    pub methods: OrderedMap<String, OrderedMap<String, usize>>,
    /// The scope in its outermost scope at which to go on.
    pub next_child_index: usize,
}

/// What a [`PackageScopeEnvelope`] stands for.
#[verifier::ext_equal]
pub struct EnvelopeModel {
    pub package_name: PinnedModel<SpanModel>,
    pub scope: usize,
    pub methods: Map<Seq<char>, Map<Seq<char>, usize>>,
    pub next_child_index: usize,
}

/// What a map of methods stands for.
pub open spec fn methods_of(m: Map<Seq<char>, OrderedMap<String, usize>>) -> Map<
    Seq<char>,
    Map<Seq<char>, usize>,
> {
    m.map_values(|inner: OrderedMap<String, usize>| inner@)
}

impl EnvelopeModel {
    /// Whether a type has a method of a name.
    pub open spec fn has(self, receiver_type: Seq<char>, name: Seq<char>) -> bool {
        self.methods.dom().contains(receiver_type) && self.methods[receiver_type].dom().contains(
            name,
        )
    }

    /// The symbol of a method.
    pub open spec fn at(self, receiver_type: Seq<char>, name: Seq<char>) -> usize {
        self.methods[receiver_type][name]
    }

    /// What is known once a method is declared.
    pub open spec fn with(
        self,
        receiver_type: Seq<char>,
        name: Seq<char>,
        symbol: usize,
    ) -> EnvelopeModel {
        let of_type = if self.methods.dom().contains(receiver_type) {
            self.methods[receiver_type]
        } else {
            Map::<Seq<char>, usize>::empty()
        };
        EnvelopeModel {
            methods: self.methods.insert(receiver_type, of_type.insert(name, symbol)),
            ..self
        }
    }
}

impl View for PackageScopeEnvelope {
    type V = EnvelopeModel;

    open spec fn view(&self) -> EnvelopeModel {
        EnvelopeModel {
            package_name: self.package_name@,
            scope: self.scope,
            methods: methods_of(self.methods@),
            next_child_index: self.next_child_index,
        }
    }
}

/// What is known of a package; none if its source is not available.
pub open spec fn envelope_of(e: Option<PackageScopeEnvelope>) -> Option<EnvelopeModel> {
    match e {
        Some(x) => Some(x@),
        None => None,
    }
}

/// What is known of packages.
pub open spec fn packages_of(m: Map<Seq<char>, Option<PackageScopeEnvelope>>) -> Map<
    Seq<char>,
    Option<EnvelopeModel>,
> {
    m.map_values(|e: Option<PackageScopeEnvelope>| envelope_of(e))
}

/// What a list of scopes stands for.
pub open spec fn scopes_of(s: Seq<Scope>) -> Seq<ScopeModel> {
    s.map_values(|x: Scope| x@)
}

/// What texts under texts stand for.
pub open spec fn imports_of(m: Map<Seq<char>, String>) -> Map<Seq<char>, Seq<char>> {
    m.map_values(|s: String| s@)
}

/// The table of all symbols.
#[derive(Debug)]
pub struct SymbolTable {
    symbols: Vec<Symbol>,
    functions: Vec<FunctionSummary>,
    scopes: Vec<Scope>,
    packages: OrderedMap<String, Option<PackageScopeEnvelope>>,
    named_imports: OrderedMap<String, String>,
    wildcard_imports: Vec<String>,
    current_scope: usize,
    current_package_path: Option<String>,
    current_cursor: Vec<usize>,
}

/// What a [`SymbolTable`] stands for.
#[verifier::ext_equal]
pub struct TableModel {
    /// All symbols.
    pub symbols: Seq<SymbolModel>,
    /// All functions.
    pub functions: Seq<SummaryModel>,
    /// All scopes. The first one is the universe.
    pub scopes: Seq<ScopeModel>,
    /// The packages, by path; none for one whose source is not available.
    pub packages: Map<Seq<char>, Option<EnvelopeModel>>,
    /// The packages that the current file imports under a name.
    pub named_imports: Map<Seq<char>, Seq<char>>,
    /// The packages of which the current file imports all names.
    pub wildcard_imports: Seq<Seq<char>>,
    /// The current scope.
    pub current: usize,
    /// The path of the current package.
    pub package: Option<Seq<char>>,
    /// How many scopes were entered in each of the scopes around, down to the
    /// current one.
    pub cursor: Seq<usize>,
}

impl View for SymbolTable {
    type V = TableModel;

    closed spec fn view(&self) -> TableModel {
        TableModel {
            symbols: symbols_of(self.symbols@),
            functions: summaries_of(self.functions@),
            scopes: scopes_of(self.scopes@),
            packages: packages_of(self.packages@),
            named_imports: imports_of(self.named_imports@),
            wildcard_imports: crate::build_constraints::views(self.wildcard_imports@),
            current: self.current_scope,
            package: text_of(self.current_package_path),
            cursor: self.current_cursor@,
        }
    }
}

/// The symbol that a name stands for in a scope or in those around it.
pub open spec fn found_from(scopes: Seq<ScopeModel>, at: int, name: Seq<char>) -> Option<usize>
    decreases at,
{
    if !(0 <= at < scopes.len()) {
        None
    } else if scopes[at].symbols.dom().contains(name) {
        Some(scopes[at].symbols[name])
    } else {
        match scopes[at].parent {
            Some(p) => if p < at {
                found_from(scopes, p as int, name)
            } else {
                None
            },
            None => None,
        }
    }
}

/// Whether a name is visible in other packages.
pub open spec fn is_exported(name: Seq<char>) -> bool {
    name.len() > 0 && uppercase(name[0])
}

/// How deep a scope lies below an outermost one.
pub open spec fn depth_of(scopes: Seq<ScopeModel>, at: int) -> nat
    decreases at,
{
    if !(0 <= at < scopes.len()) {
        0
    } else {
        match scopes[at].parent {
            Some(p) => if p < at {
                depth_of(scopes, p as int) + 1
            } else {
                0
            },
            None => 0,
        }
    }
}

impl TableModel {
    /// The table without a name of the current scope, if its symbol was declared
    /// as said.
    pub open spec fn hiding(self, declaration: PinnedModel<SpanModel>) -> TableModel {
        let here = self.scopes[self.current as int];
        let name = declaration.inner.content;
        if here.symbols.dom().contains(name) && self.symbols[here.symbols[name] as int].declared_name
            == declaration {
            TableModel {
                scopes: self.scopes.update(
                    self.current as int,
                    ScopeModel { symbols: here.symbols.remove(name), ..here },
                ),
                ..self
            }
        } else {
            self
        }
    }
    /// The symbol that a name stands for in the outermost scope of a package.
    pub open spec fn in_package(self, path: Seq<char>, name: Seq<char>) -> Option<usize> {
        if self.packages.dom().contains(path) {
            match self.packages[path] {
                Some(e) => if self.scopes[e.scope as int].symbols.dom().contains(name) {
                    Some(self.scopes[e.scope as int].symbols[name])
                } else {
                    None
                },
                None => None,
            }
        } else {
            None
        }
    }

    /// The symbol that a name stands for in the first of some packages in which
    /// it stands for one.
    pub open spec fn in_packages(self, paths: Seq<Seq<char>>, name: Seq<char>) -> Option<usize>
        decreases paths.len(),
    {
        if paths.len() == 0 {
            None
        } else {
            match self.in_package(paths[0], name) {
                Some(s) => Some(s),
                None => self.in_packages(paths.skip(1), name),
            }
        }
    }

    /// The symbol that a name stands for from a scope on: in it and those
    /// around it, then in packages of which all exported names are imported,
    /// then in the universe.
    pub open spec fn resolved(self, from: Option<usize>, name: Seq<char>) -> Option<usize> {
        let lexical = match from {
            Some(s) => found_from(self.scopes, s as int, name),
            None => None,
        };
        match lexical {
            Some(s) => Some(s),
            None => {
                let imported = if is_exported(name) {
                    self.in_packages(self.wildcard_imports, name)
                } else {
                    None
                };
                match imported {
                    Some(s) => Some(s),
                    None => if self.scopes[0].symbols.dom().contains(name) {
                        Some(self.scopes[0].symbols[name])
                    } else {
                        None
                    },
                }
            },
        }
    }

    /// Whether the table is one that its operations can produce.
    pub open spec fn wf(self) -> bool {
        &&& self.scopes.len() > 0
        &&& self.scopes[0].parent is None
        &&& self.current < self.scopes.len()
        &&& forall|i: int|
            0 <= i < self.scopes.len() ==> ((#[trigger] self.scopes[i]).parent matches Some(p) ==> p
                < i)
        &&& forall|i: int, k: int|
            0 <= i < self.scopes.len() && 0 <= k < self.scopes[i].children.len() ==> i
                < #[trigger] self.scopes[i].children[k] < self.scopes.len()
                && self.scopes[self.scopes[i].children[k] as int].parent == Some(i as usize)
        &&& forall|i: int, n: Seq<char>|
            0 <= i < self.scopes.len() && #[trigger] self.scopes[i].symbols.dom().contains(n)
                ==> self.scopes[i].symbols[n] < self.symbols.len()
        &&& forall|p: Seq<char>| #[trigger]
            self.packages.dom().contains(p) ==> (self.packages[p] matches Some(e) ==> {
                &&& e.scope < self.scopes.len()
                &&& self.scopes[e.scope as int].parent is None
                &&& forall|t: Seq<char>, n: Seq<char>| #[trigger]
                    e.has(t, n) ==> e.at(t, n) < self.symbols.len()
            })
        &&& self.cursor.len() > 0 ==> self.cursor.len() == depth_of(
            self.scopes,
            self.current as int,
        ) + 1
    }
}

/// The first table: the universe, and a scope that belongs to no package.
pub open spec fn first_table() -> TableModel {
    TableModel {
        symbols: universe_symbols(predeclared().len() as int),
        functions: universe_functions(predeclared().len() as int),
        scopes: seq![
            ScopeModel {
                symbols: universe_names(predeclared().len() as int),
                parent: None,
                children: Seq::<usize>::empty(),
            },
            empty_scope(None),
        ],
        packages: Map::<Seq<char>, Option<EnvelopeModel>>::empty().insert("fmt"@, None),
        named_imports: Map::<Seq<char>, Seq<char>>::empty(),
        wildcard_imports: Seq::<Seq<char>>::empty(),
        current: 1,
        package: None,
        cursor: Seq::<usize>::empty(),
    }
}

/// A scope without names.
pub open spec fn empty_scope(parent: Option<usize>) -> ScopeModel {
    ScopeModel { symbols: Map::<Seq<char>, usize>::empty(), parent, children: Seq::<usize>::empty() }
}

fn new_scope(parent: Option<usize>) -> (r: Scope)
    ensures
        r@ == empty_scope(parent),
{
    Scope { symbols: OrderedMap::new(), parent, children: Vec::new() }
}

proof fn lemma_universe_names(n: int)
    requires
        0 <= n <= predeclared().len(),
    ensures
        forall|x: Seq<char>| #[trigger]
            universe_names(n).dom().contains(x) ==> universe_names(n)[x] < n,
    decreases n,
{
    assert(predeclared().len() == 35);
    if n > 0 {
        lemma_universe_names(n - 1);
        assert forall|x: Seq<char>| #[trigger] universe_names(n).dom().contains(x) implies universe_names(
            n,
        )[x] < n by {
            if x != predeclared()[n - 1].0 {
                assert(universe_names(n - 1).dom().contains(x));
            }
        }
    }
}

impl SymbolTable {
    /// The table before any package is entered.
    pub fn new() -> (r: Self)
        ensures
            r@ == first_table(),
            r@.wf(),
    {
        let (universe, symbols, functions) = new_universe();
        let mut scopes: Vec<Scope> = Vec::new();
        scopes.push(universe);
        scopes.push(new_scope(None));
        let mut packages: OrderedMap<String, Option<PackageScopeEnvelope>> = OrderedMap::new();
        packages.insert("fmt".to_owned(), None);
        let r = SymbolTable {
            symbols,
            functions,
            scopes,
            packages,
            named_imports: OrderedMap::new(),
            wildcard_imports: Vec::new(),
            current_scope: 1,
            current_package_path: None,
            current_cursor: Vec::new(),
        };
        proof {
            lemma_universe_names(predeclared().len() as int);
            assert(r@.scopes =~= first_table().scopes);
            assert(r@.packages =~= first_table().packages);
            assert(r@.named_imports =~= first_table().named_imports);
            assert(r@.wildcard_imports =~= first_table().wildcard_imports);
            assert(r@ =~= first_table());
        }
        r
    }
}

/// Parents decide how deep a scope lies.
proof fn lemma_depth(a: Seq<ScopeModel>, b: Seq<ScopeModel>, at: int)
    requires
        0 <= at < a.len(),
        a.len() <= b.len(),
        forall|i: int| 0 <= i < a.len() ==> (#[trigger] a[i]).parent == b[i].parent,
    ensures
        depth_of(a, at) == depth_of(b, at),
    decreases at,
{
    assert(a[at].parent == b[at].parent);
    if let Some(p) = a[at].parent {
        if p < at {
            lemma_depth(a, b, p as int);
        }
    }
}

/// What names stand for are symbols of the table.
pub proof fn lemma_found_in_range(t: TableModel, at: int, name: Seq<char>)
    requires
        t.wf(),
    ensures
        found_from(t.scopes, at, name) matches Some(s) ==> s < t.symbols.len(),
    decreases at,
{
    if 0 <= at < t.scopes.len() && !t.scopes[at].symbols.dom().contains(name) {
        if let Some(p) = t.scopes[at].parent {
            if p < at {
                lemma_found_in_range(t, p as int, name);
            }
        }
    }
}

/// What names stand for in packages are symbols of the table.
pub proof fn lemma_in_packages_in_range(t: TableModel, paths: Seq<Seq<char>>, name: Seq<char>)
    requires
        t.wf(),
    ensures
        t.in_packages(paths, name) matches Some(s) ==> s < t.symbols.len(),
    decreases paths.len(),
{
    if paths.len() > 0 {
        lemma_in_package_in_range(t, paths[0], name);
        lemma_in_packages_in_range(t, paths.skip(1), name);
    }
}

/// What a name stands for in a package is a symbol of the table.
pub proof fn lemma_in_package_in_range(t: TableModel, path: Seq<char>, name: Seq<char>)
    requires
        t.wf(),
    ensures
        t.in_package(path, name) matches Some(s) ==> s < t.symbols.len(),
{
    if t.packages.dom().contains(path) {
        if let Some(e) = t.packages[path] {
            assert(e.scope < t.scopes.len());
        }
    }
}

/// What a name stands for is a symbol of the table.
pub proof fn lemma_resolved_in_range(t: TableModel, from: Option<usize>, name: Seq<char>)
    requires
        t.wf(),
    ensures
        t.resolved(from, name) matches Some(s) ==> s < t.symbols.len(),
{
    if let Some(s) = from {
        lemma_found_in_range(t, s as int, name);
    }
    lemma_in_packages_in_range(t, t.wildcard_imports, name);
}

impl SymbolTable {
    /// The symbol at a position.
    pub fn symbol(&self, id: usize) -> (r: &Symbol)
        requires
            id < self@.symbols.len(),
        ensures
            r@ == self@.symbols[id as int],
    {
        &self.symbols[id]
    }

    /// How many symbols there are.
    pub fn symbol_count(&self) -> (r: usize)
        ensures
            r == self@.symbols.len(),
    {
        self.symbols.len()
    }

    /// How many functions there are.
    pub fn function_count(&self) -> (r: usize)
        ensures
            r == self@.functions.len(),
    {
        self.functions.len()
    }

    /// The function at a position.
    pub fn function(&self, id: usize) -> (r: &FunctionSummary)
        requires
            id < self@.functions.len(),
        ensures
            r@ == self@.functions[id as int],
    {
        &self.functions[id]
    }

    /// Adds a function, and returns its position.
    pub fn add_function(&mut self, function: FunctionSummary) -> (r: usize)
        requires
            old(self)@.wf(),
        ensures
            final(self)@.wf(),
            r == old(self)@.functions.len(),
            final(self)@ == (TableModel {
                functions: old(self)@.functions.push(function@),
                ..old(self)@
            }),
    {
        let ghost before = self@;
        let id: usize = self.functions.len();
        let ghost m = function@;
        self.functions.push(function);
        proof {
            assert(summaries_of(self.functions@) =~= before.functions.push(m));
            assert(self@ =~= TableModel { functions: before.functions.push(m), ..before });
        }
        id
    }

    /// Adds a symbol, without a name, and returns its position.
    pub fn add_symbol(&mut self, symbol: Symbol) -> (r: usize)
        requires
            old(self)@.wf(),
        ensures
            final(self)@.wf(),
            r == old(self)@.symbols.len(),
            final(self)@ == (TableModel {
                symbols: old(self)@.symbols.push(symbol@),
                ..old(self)@
            }),
    {
        let ghost before = self@;
        let id: usize = self.symbols.len();
        let ghost m = symbol@;
        self.symbols.push(symbol);
        proof {
            assert(symbols_of(self.symbols@) =~= before.symbols.push(m));
            assert(self@ =~= TableModel { symbols: before.symbols.push(m), ..before });
        }
        id
    }

    /// Gives a symbol another value.
    pub fn set_value(&mut self, id: usize, value: Value, known_const: Option<SimpleConstValue>)
        requires
            old(self)@.wf(),
            id < old(self)@.symbols.len(),
        ensures
            final(self)@.wf(),
            final(self)@ == (TableModel {
                symbols: old(self)@.symbols.update(
                    id as int,
                    SymbolModel {
                        value: value@,
                        known_const: const_of(known_const),
                        ..old(self)@.symbols[id as int]
                    },
                ),
                ..old(self)@
            }),
    {
        let ghost before = self@;
        let mut symbol = self.symbols.remove(id);
        symbol.value = value;
        symbol.known_const = known_const;
        let ghost m = symbol@;
        self.symbols.insert(id, symbol);
        proof {
            assert(symbols_of(self.symbols@) =~= before.symbols.update(id as int, m));
            assert(self@ =~= TableModel { symbols: before.symbols.update(id as int, m), ..before });
        }
    }

    /// Replaces what is known of a function.
    pub fn set_function(&mut self, id: usize, function: FunctionSummary)
        requires
            old(self)@.wf(),
            id < old(self)@.functions.len(),
        ensures
            final(self)@.wf(),
            final(self)@ == (TableModel {
                functions: old(self)@.functions.update(id as int, function@),
                ..old(self)@
            }),
    {
        let ghost before = self@;
        let ghost m = function@;
        self.functions.set(id, function);
        proof {
            assert(summaries_of(self.functions@) =~= before.functions.update(id as int, m));
            assert(self@ =~= TableModel {
                functions: before.functions.update(id as int, m),
                ..before
            });
        }
    }

    /// Says what a function returns.
    pub fn set_outcome(&mut self, id: usize, outcome: Vec<Value>)
        requires
            old(self)@.wf(),
            id < old(self)@.functions.len(),
        ensures
            final(self)@.wf(),
            final(self)@ == (TableModel {
                functions: old(self)@.functions.update(
                    id as int,
                    SummaryModel {
                        outcome: Some(crate::values::values_of(outcome@)),
                        ..old(self)@.functions[id as int]
                    },
                ),
                ..old(self)@
            }),
    {
        let ghost before = self@;
        let mut function = self.functions.remove(id);
        function.outcome = Some(outcome);
        let ghost m = function@;
        self.functions.insert(id, function);
        proof {
            assert(summaries_of(self.functions@) =~= before.functions.update(id as int, m));
            assert(self@ =~= TableModel {
                functions: before.functions.update(id as int, m),
                ..before
            });
        }
    }

    /// Says which checks are made whenever a function is called.
    pub fn set_deferred_checks(&mut self, id: usize, checks: Vec<DeferredEnforcementCheck>)
        requires
            old(self)@.wf(),
            id < old(self)@.functions.len(),
        ensures
            final(self)@.wf(),
            final(self)@ == (TableModel {
                functions: old(self)@.functions.update(
                    id as int,
                    SummaryModel {
                        deferred_checks: checks_of(checks@),
                        ..old(self)@.functions[id as int]
                    },
                ),
                ..old(self)@
            }),
    {
        let ghost before = self@;
        let mut function = self.functions.remove(id);
        function.deferred_checks = checks;
        let ghost m = function@;
        self.functions.insert(id, function);
        proof {
            assert(summaries_of(self.functions@) =~= before.functions.update(id as int, m));
            assert(self@ =~= TableModel {
                functions: before.functions.update(id as int, m),
                ..before
            });
        }
    }

    /// Takes a name out of the current scope, if its symbol was declared as said.
    pub fn hide_current_symbol_declared_at(&mut self, declaration: &Pinned<Span>)
        requires
            old(self)@.wf(),
        ensures
            final(self)@.wf(),
            final(self)@ == old(self)@.hiding(declaration@),
    {
        let ghost before = self@;
        let current: usize = self.current_scope;
        let key = declaration.content().to_owned();
        proof {
            assert(before.scopes[current as int] == self.scopes@[current as int]@);
        }
        let found = match self.scopes[current].symbols.get(&key) {
            Some(id) => same(&self.symbols[*id].declared_name, declaration),
            None => false,
        };
        if !found {
            return;
        }
        let mut scope = self.scopes.remove(current);
        let ghost m = scope@;
        scope.symbols.remove(&key);
        proof {
            assert(scope@ =~= ScopeModel { symbols: m.symbols.remove(key@), ..m });
        }
        self.scopes.insert(current, scope);
        proof {
            assert(scopes_of(self.scopes@) =~= before.scopes.update(
                current as int,
                ScopeModel { symbols: m.symbols.remove(key@), ..m },
            ));
            assert(self@ =~= before.hiding(declaration@));
            lemma_hiding_depth(before, declaration@, self@.current as int);
        }
    }

    /// Rules out that a symbol gets another value.
    pub fn mark_immutable(&mut self, id: usize)
        requires
            old(self)@.wf(),
            id < old(self)@.symbols.len(),
        ensures
            final(self)@.wf(),
            final(self)@ == (TableModel {
                symbols: old(self)@.symbols.update(
                    id as int,
                    SymbolModel { mutable: false, ..old(self)@.symbols[id as int] },
                ),
                ..old(self)@
            }),
    {
        let ghost before = self@;
        let mut symbol = self.symbols.remove(id);
        symbol.mutable = false;
        let ghost m = symbol@;
        self.symbols.insert(id, symbol);
        proof {
            assert(symbols_of(self.symbols@) =~= before.symbols.update(id as int, m));
            assert(self@ =~= TableModel { symbols: before.symbols.update(id as int, m), ..before });
        }
    }

    fn search_package(&self, path: &String, name: &String) -> (r: Option<usize>)
        requires
            self@.wf(),
        ensures
            r == self@.in_package(path@, name@),
    {
        match self.packages.get(path) {
            Some(Some(envelope)) => {
                proof {
                    assert(self@.packages.dom().contains(path@));
                    assert(self@.packages[path@] == Some(envelope@));
                }
                match self.scopes[envelope.scope].symbols.get(name) {
                    Some(id) => Some(*id),
                    None => None,
                }
            },
            Some(None) => {
                proof {
                    assert(self@.packages[path@] is None);
                }
                None
            },
            None => None,
        }
    }

    fn get_symbol_from_scope_chain(&self, upwards_from: Option<usize>, name: &str) -> (r: Option<
        usize,
    >)
        requires
            self@.wf(),
            upwards_from matches Some(s) ==> s < self@.scopes.len(),
        ensures
            r == self@.resolved(upwards_from, name@),
    {
        let key = name.to_owned();
        let ghost scopes = self@.scopes;
        let mut checking = upwards_from;
        while checking.is_some()
            invariant
                self@.wf(),
                scopes == self@.scopes,
                key@ == name@,
                checking matches Some(s) ==> s < scopes.len(),
                (match upwards_from {
                    Some(s) => found_from(scopes, s as int, name@),
                    None => None,
                }) == (match checking {
                    Some(s) => found_from(scopes, s as int, name@),
                    None => None,
                }),
            decreases
                match checking {
                    Some(s) => s + 1,
                    None => 0int,
                },
        {
            let at: usize = match checking {
                Some(s) => s,
                None => 0,
            };
            proof {
                assert(scopes[at as int] == self.scopes@[at as int]@);
            }
            if let Some(id) = self.scopes[at].symbols.get(&key) {
                return Some(*id);
            }
            checking = self.scopes[at].parent;
        }
        let exported = if name.unicode_len() > 0 {
            is_uppercase(name.get_char(0))
        } else {
            false
        };
        if exported {
            let ghost paths = self@.wildcard_imports;
            let n: usize = self.wildcard_imports.len();
            let mut i: usize = 0;
            proof {
                assert(paths.skip(0) =~= paths);
            }
            while i < n
                invariant
                    i <= n,
                    n == self.wildcard_imports@.len(),
                    self@.wf(),
                    key@ == name@,
                    (match upwards_from {
                        Some(s) => found_from(self@.scopes, s as int, name@),
                        None => None,
                    }) is None,
                    is_exported(name@),
                    paths == self@.wildcard_imports,
                    paths == crate::build_constraints::views(self.wildcard_imports@),
                    self@.in_packages(paths, name@) == self@.in_packages(
                        paths.skip(i as int),
                        name@,
                    ),
                decreases n - i,
            {
                proof {
                    assert(paths.skip(i as int)[0] == self.wildcard_imports@[i as int]@);
                    assert(paths.skip(i as int).skip(1) =~= paths.skip(i + 1));
                }
                if let Some(id) = self.search_package(&self.wildcard_imports[i], &key) {
                    return Some(id);
                }
                i = i + 1;
            }
        }
        proof {
            assert(self@.scopes[0] == self.scopes@[0]@);
        }
        match self.scopes[0].symbols.get(&key) {
            Some(id) => Some(*id),
            None => None,
        }
    }

    /// The symbol that a name stands for in the current scope.
    pub fn get_symbol(&self, name: &str) -> (r: Option<usize>)
        requires
            self@.wf(),
        ensures
            r == self@.resolved(Some(self@.current), name@),
    {
        self.get_symbol_from_scope_chain(Some(self.current_scope), name)
    }

    fn get_parent_scope(&self) -> (r: Option<usize>)
        requires
            self@.wf(),
        ensures
            r == self@.scopes[self@.current as int].parent,
    {
        proof {
            assert(self@.scopes[self@.current as int] == self.scopes@[self.current_scope as int]@);
        }
        self.scopes[self.current_scope].parent
    }

    /// The symbol that a name stands for in the scopes around the current one.
    pub fn get_symbol_above_current_scope(&self, name: &str) -> (r: Option<usize>)
        requires
            self@.wf(),
        ensures
            r == self@.resolved(self@.scopes[self@.current as int].parent, name@),
    {
        self.get_symbol_from_scope_chain(self.get_parent_scope(), name)
    }

    /// The symbol that a name stands for in the current scope itself.
    pub fn get_declared_in_current_scope(&self, name: &str) -> (r: Option<usize>)
        requires
            self@.wf(),
        ensures
            r == (if self@.scopes[self@.current as int].symbols.dom().contains(name@) {
                Some(self@.scopes[self@.current as int].symbols[name@])
            } else {
                None
            }),
            r matches Some(s) ==> s < self@.symbols.len(),
    {
        proof {
            assert(self@.scopes[self@.current as int] == self.scopes@[self.current_scope as int]@);
        }
        match self.scopes[self.current_scope].symbols.get(&name.to_owned()) {
            Some(id) => Some(*id),
            None => None,
        }
    }

    /// Whether a name stands for what is predeclared.
    pub fn resolves_to_predeclared(&self, name: &str) -> (r: bool)
        requires
            self@.wf(),
        ensures
            r == (self@.scopes[0].symbols.dom().contains(name@) && self@.resolved(
                Some(self@.current),
                name@,
            ) == Some(self@.scopes[0].symbols[name@])),
    {
        let key = name.to_owned();
        proof {
            assert(self@.scopes[0] == self.scopes@[0]@);
        }
        match self.scopes[0].symbols.get(&key) {
            Some(id) => match self.get_symbol(name) {
                Some(found) => found == *id,
                None => false,
            },
            None => false,
        }
    }

    /// Goes into the next scope in the current one, which is made if there is
    /// none yet.
    pub fn select_next_child_scope(&mut self)
        requires
            old(self)@.wf(),
            old(self)@.cursor.len() > 0,
            old(self)@.cursor.last() < usize::MAX,
            old(self)@.scopes.len() < usize::MAX,
        ensures
            final(self)@.wf(),
            final(self)@ == old(self)@.in_next_child(),
    {
        let ghost before = self@;
        let n: usize = self.current_cursor.len();
        let index: usize = self.current_cursor[n - 1];
        let at: usize = self.current_scope;
        let ghost scope = before.scopes[at as int];
        proof {
            assert(scope == self.scopes@[at as int]@);
        }
        let child = if index < self.scopes[at].children.len() {
            self.scopes[at].children[index]
        } else {
            let new: usize = self.scopes.len();
            let mut current = self.scopes.remove(at);
            current.children.push(new);
            self.scopes.insert(at, current);
            self.scopes.push(new_scope(Some(at)));
            proof {
                assert(scopes_of(self.scopes@) =~= before.scopes.update(
                    at as int,
                    ScopeModel { children: scope.children.push(new), ..scope },
                ).push(empty_scope(Some(at))));
            }
            new
        };
        self.current_scope = child;
        self.current_cursor.set(n - 1, index + 1);
        self.current_cursor.push(0);
        proof {
            let after = before.in_next_child();
            assert(self@ =~= after);
            lemma_in_next_child(before);
        }
    }

    /// Goes to the scope around the current one, if there is one.
    pub fn select_parent_scope(&mut self)
        requires
            old(self)@.wf(),
        ensures
            final(self)@.wf(),
            final(self)@ == old(self)@.in_parent(),
    {
        let ghost before = self@;
        if let Some(parent) = self.get_parent_scope() {
            self.current_scope = parent;
            let _count = self.current_cursor.pop();
            proof {
                assert(self@ =~= before.in_parent());
            }
        }
    }

    /// Whether another scope can be entered.
    pub fn has_room(&self) -> (r: bool)
        ensures
            r == self@.has_room(),
    {
        let n: usize = self.current_cursor.len();
        n > 0 && self.current_cursor[n - 1] < usize::MAX && self.scopes.len() < usize::MAX
    }

    /// Whether there is room for one more scope.
    pub fn can_grow(&self) -> (r: bool)
        ensures
            r == (self@.scopes.len() < usize::MAX),
    {
        self.scopes.len() < usize::MAX
    }

    /// How many scopes in the current one have been entered.
    pub fn current_child_scope_cursor(&self) -> (r: usize)
        ensures
            r == self@.position(),
    {
        let n: usize = self.current_cursor.len();
        if n > 0 {
            self.current_cursor[n - 1]
        } else {
            0
        }
    }

    /// Goes back, or on, to where so many scopes in the current one have been
    /// entered.
    pub fn set_child_scope_cursor(&mut self, position: usize)
        requires
            old(self)@.wf(),
        ensures
            final(self)@.wf(),
            final(self)@ == old(self)@.repositioned(position),
    {
        let ghost before = self@;
        let n: usize = self.current_cursor.len();
        if n > 0 {
            self.current_cursor.set(n - 1, position);
        }
        proof {
            assert(self@ =~= before.repositioned(position));
        }
    }

    /// Makes the scope that was entered last the next one again.
    pub fn rewind_child_scope_cursor(&mut self)
        requires
            old(self)@.wf(),
        ensures
            final(self)@.wf(),
            final(self)@ == old(self)@.rewound(),
    {
        let ghost before = self@;
        let n: usize = self.current_cursor.len();
        if n > 0 {
            let index: usize = self.current_cursor[n - 1];
            if index > 0 {
                self.current_cursor.set(n - 1, index - 1);
            }
        }
        proof {
            assert(self@ =~= before.rewound());
        }
    }

    /// Declares a name in the current scope, and returns the symbol that it
    /// stood for there before.
    pub fn declare_new_symbol(&mut self, name: &str, symbol: usize) -> (r: Option<usize>)
        requires
            old(self)@.wf(),
            symbol < old(self)@.symbols.len(),
        ensures
            final(self)@.wf(),
            final(self)@ == old(self)@.declaring(name@, symbol),
            r == if old(self)@.scopes[old(self)@.current as int].symbols.dom().contains(name@) {
                Some(old(self)@.scopes[old(self)@.current as int].symbols[name@])
            } else {
                None
            },
    {
        let ghost before = self@;
        let at: usize = self.current_scope;
        proof {
            assert(before.scopes[at as int] == self.scopes@[at as int]@);
        }
        let key = name.to_owned();
        let mut scope = self.scopes.remove(at);
        let previous = match scope.symbols.get(&key) {
            Some(id) => Some(*id),
            None => None,
        };
        scope.symbols.insert(key, symbol);
        let ghost m = scope@;
        self.scopes.insert(at, scope);
        proof {
            assert(scopes_of(self.scopes@) =~= before.scopes.update(at as int, m));
            assert(self@ =~= before.declaring(name@, symbol));
            lemma_same_parents(before, self@);
        }
        previous
    }
}

/// What only concerns names leaves the table well-formed.
proof fn lemma_same_parents(a: TableModel, b: TableModel)
    requires
        a.wf(),
        b.scopes.len() == a.scopes.len(),
        b.current == a.current,
        forall|i: int| 0 <= i < a.scopes.len() ==> (#[trigger] a.scopes[i]).parent == b.scopes[i].parent,
    ensures
        depth_of(a.scopes, a.current as int) == depth_of(b.scopes, b.current as int),
{
    lemma_depth(a.scopes, b.scopes, a.current as int);
}

impl TableModel {
    /// The table once the next scope in the current one is entered.
    pub open spec fn in_next_child(self) -> TableModel {
        let index = self.cursor.last();
        let scope = self.scopes[self.current as int];
        let cursor = self.cursor.drop_last().push((index + 1) as usize).push(0);
        if index < scope.children.len() {
            TableModel { current: scope.children[index as int], cursor, ..self }
        } else {
            let new = self.scopes.len() as usize;
            TableModel {
                scopes: self.scopes.update(
                    self.current as int,
                    ScopeModel { children: scope.children.push(new), ..scope },
                ).push(empty_scope(Some(self.current))),
                current: new,
                cursor,
                ..self
            }
        }
    }

    /// The table once the scope around the current one is entered.
    pub open spec fn in_parent(self) -> TableModel {
        match self.scopes[self.current as int].parent {
            Some(parent) => TableModel {
                current: parent,
                cursor: if self.cursor.len() > 0 {
                    self.cursor.drop_last()
                } else {
                    self.cursor
                },
                ..self
            },
            None => self,
        }
    }

    /// Whether another scope can be entered.
    pub open spec fn has_room(self) -> bool {
        &&& self.cursor.len() > 0
        &&& self.cursor.last() < usize::MAX
        &&& self.scopes.len() < usize::MAX
    }

    /// How many scopes in the current one have been entered.
    pub open spec fn position(self) -> usize {
        if self.cursor.len() > 0 {
            self.cursor.last()
        } else {
            0
        }
    }

    /// The table where so many scopes in the current one have been entered.
    pub open spec fn repositioned(self, position: usize) -> TableModel {
        if self.cursor.len() > 0 {
            TableModel { cursor: self.cursor.update(self.cursor.len() - 1, position), ..self }
        } else {
            self
        }
    }

    /// The table once the scope that was entered last is the next one again.
    pub open spec fn rewound(self) -> TableModel {
        if self.cursor.len() > 0 && self.cursor.last() > 0 {
            TableModel {
                cursor: self.cursor.update(
                    self.cursor.len() - 1,
                    (self.cursor.last() - 1) as usize,
                ),
                ..self
            }
        } else {
            self
        }
    }

    /// The table once a name is declared in the current scope.
    pub open spec fn declaring(self, name: Seq<char>, symbol: usize) -> TableModel {
        let scope = self.scopes[self.current as int];
        TableModel {
            scopes: self.scopes.update(
                self.current as int,
                ScopeModel { symbols: scope.symbols.insert(name, symbol), ..scope },
            ),
            ..self
        }
    }
}

proof fn lemma_in_next_child(t: TableModel)
    requires
        t.wf(),
        t.cursor.len() > 0,
        t.cursor.last() < usize::MAX,
        t.scopes.len() < usize::MAX,
    ensures
        t.in_next_child().wf(),
        t.in_next_child().scopes[t.in_next_child().current as int].parent == Some(t.current),
{
    let n = t.in_next_child();
    let scope = t.scopes[t.current as int];
    let index = t.cursor.last();
    if index < scope.children.len() {
        let child = scope.children[index as int];
        assert(t.scopes[t.current as int].children[index as int] == child);
        assert(depth_of(n.scopes, child as int) == depth_of(n.scopes, t.current as int) + 1);
    } else {
        let new = t.scopes.len() as usize;
        lemma_depth(t.scopes, n.scopes, t.current as int);
        assert(n.scopes[new as int] == empty_scope(Some(t.current)));
        assert(depth_of(n.scopes, new as int) == depth_of(n.scopes, t.current as int) + 1);
        assert forall|i: int, k: int|
            0 <= i < n.scopes.len() && 0 <= k < n.scopes[i].children.len() implies i
            < #[trigger] n.scopes[i].children[k] < n.scopes.len()
            && n.scopes[n.scopes[i].children[k] as int].parent == Some(i as usize) by {
            if i == new {
            } else if i == t.current && k == scope.children.len() {
            } else {
                assert(n.scopes[i].children[k] == t.scopes[i].children[k]);
            }
        }
        assert forall|i: int, x: Seq<char>|
            0 <= i < n.scopes.len() && #[trigger] n.scopes[i].symbols.dom().contains(
                x,
            ) implies n.scopes[i].symbols[x] < n.symbols.len() by {
            if i < new {
                assert(t.scopes[i].symbols.dom().contains(x));
            }
        }
        assert forall|p: Seq<char>| #[trigger] n.packages.dom().contains(p) implies (
        n.packages[p] matches Some(e) ==> {
            &&& e.scope < n.scopes.len()
            &&& n.scopes[e.scope as int].parent is None
            &&& forall|t: Seq<char>, m: Seq<char>| #[trigger]
                e.has(t, m) ==> e.at(t, m) < n.symbols.len()
        }) by {
            assert(t.packages.dom().contains(p));
        }
    }
}

/// Going into a scope and out of it again leads back, and the next scope to be
/// entered is the one after it.
pub proof fn law_child_and_parent(t: TableModel)
    requires
        t.wf(),
        t.cursor.len() > 0,
        t.cursor.last() < usize::MAX,
        t.scopes.len() < usize::MAX,
    ensures
        t.in_next_child().in_parent().current == t.current,
        t.in_next_child().in_parent().cursor == t.cursor.drop_last().push(
            (t.cursor.last() + 1) as usize,
        ),
{
    lemma_in_next_child(t);
    let cursor = t.cursor.drop_last().push((t.cursor.last() + 1) as usize);
    assert(cursor.push(0).drop_last() =~= cursor);
}

/// A scope is entered again, with all that was declared in it, if the one
/// around it is rewound.
pub proof fn law_rewinding_reenters(t: TableModel)
    requires
        t.wf(),
        t.cursor.len() > 0,
        t.cursor.last() < usize::MAX,
        t.cursor.last() <= t.scopes[t.current as int].children.len(),
        t.scopes.len() < usize::MAX,
    ensures
        ({
            let inside = t.in_next_child();
            let again = inside.in_parent().rewound().in_next_child();
            again.current == inside.current && again.scopes == inside.scopes
        }),
{
    lemma_in_next_child(t);
    law_child_and_parent(t);
    let outside = t.in_next_child().in_parent();
    let back = outside.rewound();
    assert(outside.cursor.last() == t.cursor.last() + 1);
    assert(back.cursor.last() == t.cursor.last());
}

/// A name that was just declared stands for the symbol with which it was.
pub proof fn law_declared_names_resolve(t: TableModel, name: Seq<char>, symbol: usize)
    requires
        t.wf(),
    ensures
        t.declaring(name, symbol).resolved(Some(t.current), name) == Some(symbol),
{
}

proof fn lemma_found(a: Seq<ScopeModel>, b: Seq<ScopeModel>, at: int, name: Seq<char>)
    requires
        0 <= at < a.len(),
        a.len() <= b.len(),
        forall|i: int|
            0 <= i < a.len() ==> (#[trigger] a[i]).parent == b[i].parent && a[i].symbols
                == b[i].symbols,
    ensures
        found_from(a, at, name) == found_from(b, at, name),
    decreases at,
{
    assert(a[at].parent == b[at].parent && a[at].symbols == b[at].symbols);
    if !a[at].symbols.dom().contains(name) {
        if let Some(p) = a[at].parent {
            if p < at {
                lemma_found(a, b, p as int, name);
            }
        }
    }
}

/// A scope that is entered for the first time hides nothing.
pub proof fn law_new_scopes_hide_nothing(t: TableModel, name: Seq<char>)
    requires
        t.wf(),
        t.cursor.len() > 0,
        t.cursor.last() < usize::MAX,
        t.cursor.last() >= t.scopes[t.current as int].children.len(),
        t.scopes.len() < usize::MAX,
    ensures
        ({
            let n = t.in_next_child();
            n.resolved(Some(n.current), name) == t.resolved(Some(t.current), name)
        }),
{
    let n = t.in_next_child();
    let new = n.current as int;
    assert(n.scopes[new] == empty_scope(Some(t.current)));
    assert(found_from(n.scopes, new, name) == found_from(n.scopes, t.current as int, name));
    lemma_found(t.scopes, n.scopes, t.current as int, name);
    lemma_in_packages(t, n, t.wildcard_imports, name);
    assert(n.scopes[0].symbols == t.scopes[0].symbols);
}

proof fn lemma_in_packages(a: TableModel, b: TableModel, paths: Seq<Seq<char>>, name: Seq<char>)
    requires
        a.wf(),
        a.packages == b.packages,
        a.scopes.len() <= b.scopes.len(),
        forall|i: int| 0 <= i < a.scopes.len() ==> (#[trigger] a.scopes[i]).symbols == b.scopes[i].symbols,
    ensures
        a.in_packages(paths, name) == b.in_packages(paths, name),
    decreases paths.len(),
{
    if paths.len() > 0 {
        if a.packages.dom().contains(paths[0]) {
            if let Some(e) = a.packages[paths[0]] {
                assert(a.scopes[e.scope as int].symbols == b.scopes[e.scope as int].symbols);
            }
        }
        lemma_in_packages(a, b, paths.skip(1), name);
    }
}

proof fn lemma_hiding_depth(t: TableModel, declaration: PinnedModel<SpanModel>, at: int)
    requires
        t.wf(),
        0 <= at < t.scopes.len(),
    ensures
        depth_of(t.hiding(declaration).scopes, at) == depth_of(t.scopes, at),
    decreases at,
{
    if let Some(p) = t.scopes[at].parent {
        if p < at {
            lemma_hiding_depth(t, declaration, p as int);
        }
    }
}

} // verus!
