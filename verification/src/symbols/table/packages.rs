//! Packages and imports.

use vstd::prelude::*;

use crate::locations::{Pinned, PinnedModel, Span, SpanModel};
use crate::ordered::{increasing, same_text, Ordered, OrderedMap};
use crate::symbols::table::{depth_of, empty_scope, envelope_of, is_exported, methods_of, new_scope,
    packages_of, scopes_of, EnvelopeModel, PackageScopeEnvelope, SymbolTable, TableModel};
use crate::text::{cut_at_last, is_uppercase, split_at_last, starts_with};

verus! {

/// What a name behind a qualifier stands for.
#[derive(Clone, Copy, Debug, PartialEq, Eq, Structural)]
pub enum QualifiedSymbolResolutionResult {
    /// The qualifier stands for no package.
    UnknownQualifier,
    /// The package is not known, or not yet.
    PendingAnalysis,
    /// The package exports no such name.
    UnknownSymbol,
    /// The symbol at this position.
    Success(usize),
}

/// How often a character occurs in a text.
pub open spec fn occurrences(s: Seq<char>, c: char) -> nat
    decreases s.len(),
{
    if s.len() == 0 {
        0
    } else {
        occurrences(s.drop_last(), c) + if s.last() == c {
            1nat
        } else {
            0nat
        }
    }
}

/// What stands behind the last slash.
pub open spec fn last_component(path: Seq<char>) -> Seq<char> {
    match cut_at_last(path, '/') {
        Some((_, back)) => back,
        None => path,
    }
}

/// Whether the last component of a path is a revision: in those of certain
/// hosts, the fourth one is.
pub open spec fn ends_in_revision(path: Seq<char>) -> bool {
    ("github.com"@.is_prefix_of(path) || "bitbucket.com"@.is_prefix_of(path)) && occurrences(
        path,
        '/',
    ) == 3
}

/// The name under which a package is taken to be imported: the last component
/// of its path, or the one before if that is a revision.
pub open spec fn inferred_qualifier(path: Seq<char>) -> Seq<char> {
    match cut_at_last(path, '/') {
        Some((front, back)) => if ends_in_revision(path) {
            last_component(front)
        } else {
            back
        },
        None => path,
    }
}

fn count_char(s: &str, c: char) -> (r: usize)
    ensures
        r == occurrences(s@, c),
{
    let n: usize = s.unicode_len();
    let mut i: usize = 0;
    let mut count: usize = 0;
    proof {
        assert(s@.take(0) =~= Seq::<char>::empty());
    }
    while i < n
        invariant
            i <= n,
            n == s@.len(),
            count <= i,
            count == occurrences(s@.take(i as int), c),
        decreases n - i,
    {
        proof {
            assert(s@.take(i + 1).drop_last() =~= s@.take(i as int));
            assert(s@.take(i + 1).last() == s@[i as int]);
        }
        if s.get_char(i) == c {
            count = count + 1;
        }
        i = i + 1;
    }
    proof {
        assert(s@.take(n as int) =~= s@);
    }
    count
}

/// The name under which a package is taken to be imported.
pub fn infer_qualifier_from_import_path(path: &str) -> (r: String)
    ensures
        r@ == inferred_qualifier(path@),
{
    let revision = (starts_with(path, "github.com") || starts_with(path, "bitbucket.com"))
        && count_char(path, '/') == 3;
    match split_at_last(path, '/') {
        Some((front, back)) => if revision {
            match split_at_last(front, '/') {
                Some((_, name)) => name.to_owned(),
                None => front.to_owned(),
            }
        } else {
            back.to_owned()
        },
        None => path.to_owned(),
    }
}

impl TableModel {
    /// What is known of a package, if its source is available.
    pub open spec fn known(self, path: Seq<char>) -> Option<EnvelopeModel> {
        if self.packages.dom().contains(path) {
            self.packages[path]
        } else {
            None
        }
    }

    /// The envelope with which a package is entered.
    pub open spec fn entry(self, name: PinnedModel<SpanModel>, path: Seq<char>) -> EnvelopeModel {
        match self.known(path) {
            Some(e) => e,
            None => EnvelopeModel {
                package_name: name,
                scope: self.scopes.len() as usize,
                methods: Map::<Seq<char>, Map<Seq<char>, usize>>::empty(),
                next_child_index: 0,
            },
        }
    }

    /// The table once a package is entered.
    pub open spec fn in_entered_package(
        self,
        name: PinnedModel<SpanModel>,
        path: Seq<char>,
    ) -> TableModel {
        let e = self.entry(name, path);
        TableModel {
            scopes: if self.known(path) is Some {
                self.scopes
            } else {
                self.scopes.push(empty_scope(None))
            },
            packages: self.packages.insert(path, Some(e)),
            named_imports: Map::<Seq<char>, Seq<char>>::empty(),
            wildcard_imports: Seq::<Seq<char>>::empty(),
            current: e.scope,
            package: Some(path),
            cursor: seq![e.next_child_index],
            ..self
        }
    }

    /// The table once it is noted where to go on in a package.
    pub open spec fn with_progress(self, path: Seq<char>) -> TableModel {
        match self.known(path) {
            Some(e) => if self.cursor.len() > 0 {
                TableModel {
                    packages: self.packages.insert(
                        path,
                        Some(EnvelopeModel { next_child_index: self.cursor[0], ..e }),
                    ),
                    ..self
                }
            } else {
                self
            },
            None => self,
        }
    }

    /// The table once all packages start over.
    pub open spec fn without_progress(self) -> TableModel {
        TableModel {
            packages: self.packages.map_values(
                |e: Option<EnvelopeModel>|
                    match e {
                        Some(x) => Some(EnvelopeModel { next_child_index: 0, ..x }),
                        None => None,
                    },
            ),
            ..self
        }
    }

    /// What a name behind a qualifier stands for.
    pub open spec fn qualified(
        self,
        qualifier: Seq<char>,
        name: Seq<char>,
    ) -> QualifiedSymbolResolutionResult {
        if !self.named_imports.dom().contains(qualifier) {
            QualifiedSymbolResolutionResult::UnknownQualifier
        } else if self.known(self.named_imports[qualifier]) is None {
            QualifiedSymbolResolutionResult::PendingAnalysis
        } else {
            match self.in_package(self.named_imports[qualifier], name) {
                Some(s) => if is_exported(name) {
                    QualifiedSymbolResolutionResult::Success(s)
                } else {
                    QualifiedSymbolResolutionResult::UnknownSymbol
                },
                None => QualifiedSymbolResolutionResult::UnknownSymbol,
            }
        }
    }

    /// The name under which a package is imported, as far as it can be told.
    pub open spec fn import_name(
        self,
        qualifier: Option<Seq<char>>,
        path: Seq<char>,
        infer: bool,
    ) -> Option<Seq<char>> {
        match qualifier {
            Some(q) => Some(q),
            None => match self.known(path) {
                Some(e) => Some(e.package_name.inner.content),
                None => if infer {
                    Some(inferred_qualifier(path))
                } else {
                    None
                },
            },
        }
    }

    /// The table once a package is imported under a name.
    pub open spec fn importing(self, name: Seq<char>, path: Seq<char>) -> TableModel {
        if name == "."@ {
            TableModel { wildcard_imports: self.wildcard_imports.push(path), ..self }
        } else {
            TableModel { named_imports: self.named_imports.insert(name, path), ..self }
        }
    }

    /// The table once a method is declared in the current package.
    pub open spec fn declaring_method(
        self,
        receiver_type: Seq<char>,
        name: Seq<char>,
        symbol: usize,
    ) -> TableModel {
        let e = self.known(self.package->0)->0;
        TableModel {
            packages: self.packages.insert(
                self.package->0,
                Some(e.with(receiver_type, name, symbol)),
            ),
            ..self
        }
    }

    /// Whether a method of the current package is the only one of its name.
    pub open spec fn is_unique_method(self, receiver_type: Seq<char>, name: Seq<char>) -> bool {
        &&& self.package matches Some(path)
        &&& self.known(path) matches Some(e)
        &&& e.has(receiver_type, name)
        &&& forall|other: Seq<char>| #[trigger] e.has(other, name) ==> other == receiver_type
    }

    /// The symbol of a method of the current package.
    pub open spec fn method(self, receiver_type: Seq<char>, name: Seq<char>) -> usize {
        self.known(self.package->0)->0.at(receiver_type, name)
    }

    /// The symbol of the method of a type in a package.
    pub open spec fn method_of_type(
        self,
        path: Seq<char>,
        receiver_type: Seq<char>,
        name: Seq<char>,
    ) -> Option<usize> {
        match self.known(path) {
            Some(e) => if e.has(receiver_type, name) {
                Some(e.at(receiver_type, name))
            } else {
                None
            },
            None => None,
        }
    }

    /// Whether there is a method of a name.
    pub open spec fn has_any_method(self, name: Seq<char>) -> bool {
        exists|path: Seq<char>, receiver_type: Seq<char>|
            #[trigger] self.method_of_type(path, receiver_type, name) is Some
    }

    /// The symbol of the only method of a name in the current package.
    pub open spec fn unique_method(self, name: Seq<char>) -> Option<usize> {
        if exists|t: Seq<char>| #[trigger] self.is_unique_method(t, name) {
            Some(self.method(choose|t: Seq<char>| #[trigger] self.is_unique_method(t, name), name))
        } else {
            None
        }
    }
}

/// The only method of a name is the only one.
pub proof fn lemma_unique_method(t: TableModel, receiver_type: Seq<char>, name: Seq<char>)
    requires
        t.wf(),
        t.is_unique_method(receiver_type, name),
    ensures
        t.unique_method(name) == Some(t.method(receiver_type, name)),
        t.method(receiver_type, name) < t.symbols.len(),
{
    let other = choose|x: Seq<char>| #[trigger] t.is_unique_method(x, name);
    assert(t.is_unique_method(other, name));
    let e = t.known(t.package->0)->0;
    assert(e.has(other, name));
    assert(other == receiver_type);
}

impl SymbolTable {
    /// Enters a package, as is done for each of its files, and returns its
    /// name: that with which it was entered first.
    pub fn enter_package(&mut self, name: Pinned<Span>, path: &str) -> (r: Pinned<Span>)
        requires
            old(self)@.wf(),
            old(self)@.packages.dom().contains(path@) ==> old(self)@.packages[path@] is Some,
            old(self)@.scopes.len() < usize::MAX,
        ensures
            final(self)@.wf(),
            final(self)@ == old(self)@.in_entered_package(name@, path@),
            r@ == old(self)@.entry(name@, path@).package_name,
    {
        let ghost before = self@;
        let key = path.to_owned();
        let found = self.packages.remove(&key);
        let ghost e = before.entry(name@, path@);
        let envelope = match found {
            Some(Some(envelope)) => {
                proof {
                    assert(before.packages.dom().contains(path@));
                    assert(before.packages[path@] == Some(envelope@));
                }
                envelope
            },
            _ => {
                proof {
                    assert(before.known(path@) is None);
                }
                let scope: usize = self.scopes.len();
                self.scopes.push(new_scope(None));
                let envelope = PackageScopeEnvelope {
                    package_name: name,
                    scope,
                    methods: OrderedMap::new(),
                    next_child_index: 0,
                };
                proof {
                    assert(envelope@.methods =~= e.methods);
                    assert(scopes_of(self.scopes@) =~= before.scopes.push(empty_scope(None)));
                }
                envelope
            },
        };
        proof {
            assert(envelope@ == e);
        }
        let package_name = envelope.package_name.duplicate();
        self.named_imports = OrderedMap::new();
        self.wildcard_imports = Vec::new();
        self.current_scope = envelope.scope;
        self.current_package_path = Some(path.to_owned());
        let mut cursor: Vec<usize> = Vec::new();
        cursor.push(envelope.next_child_index);
        self.current_cursor = cursor;
        self.packages.insert(key, Some(envelope));
        proof {
            let after = before.in_entered_package(name@, path@);
            assert(self@.packages =~= after.packages);
            assert(self@.named_imports =~= after.named_imports);
            assert(self@.wildcard_imports =~= after.wildcard_imports);
            assert(self@.cursor =~= after.cursor);
            assert(self@ =~= after);
            lemma_entered(before, name@, path@);
        }
        package_name
    }

    /// Notes where to go on in a package.
    pub fn save_package_progress(&mut self, path: &str)
        requires
            old(self)@.wf(),
        ensures
            final(self)@.wf(),
            final(self)@ == old(self)@.with_progress(path@),
    {
        let ghost before = self@;
        let key = path.to_owned();
        if self.current_cursor.len() == 0 {
            return;
        }
        let index: usize = self.current_cursor[0];
        match self.packages.remove(&key) {
            Some(Some(mut envelope)) => {
                let ghost e = envelope@;
                proof {
                    assert(before.packages.dom().contains(path@));
                    assert(before.packages[path@] == Some(e));
                }
                envelope.next_child_index = index;
                self.packages.insert(key, Some(envelope));
                proof {
                    assert(self@.packages =~= before.with_progress(path@).packages);
                    assert(self@ =~= before.with_progress(path@));
                    lemma_same_methods(e, self@.packages[path@]->0);
                    assert forall|p: Seq<char>| #[trigger] self@.packages.dom().contains(p) implies (
                    self@.packages[p] matches Some(x) ==> {
                        &&& x.scope < self@.scopes.len()
                        &&& self@.scopes[x.scope as int].parent is None
                        &&& forall|t: Seq<char>, m: Seq<char>| #[trigger]
                            x.has(t, m) ==> x.at(t, m) < self@.symbols.len()
                    }) by {
                        assert(before.packages.dom().contains(p));
                        let x = before.packages[p];
                        if p == path@ {
                            assert(forall|t: Seq<char>, m: Seq<char>|
                                #[trigger] self@.packages[p]->0.has(t, m) ==> e.has(t, m));
                        }
                    }
                }
            },
            Some(None) => {
                proof {
                    assert(before.packages[path@] is None);
                }
                self.packages.insert(key, None);
                proof {
                    assert(self@.packages =~= before.packages);
                    assert(self@ =~= before);
                }
            },
            None => {
                proof {
                    assert(self@.packages =~= before.packages);
                    assert(self@ =~= before);
                }
            },
        }
    }

    /// Lets all packages start over.
    pub fn clear_all_package_progress(&mut self)
        requires
            old(self)@.wf(),
        ensures
            final(self)@.wf(),
            final(self)@ == old(self)@.without_progress(),
    {
        let ghost before = self@;
        let ghost target = before.without_progress().packages;
        let mut done: OrderedMap<String, Option<PackageScopeEnvelope>> = OrderedMap::new();
        let n: usize = self.packages.len();
        let ghost keys = self.packages.listing();
        let mut names: Vec<String> = Vec::new();
        let mut i: usize = 0;
        while i < n
            invariant
                i <= n,
                n == keys.len(),
                keys == self.packages.listing(),
                names@.len() == i,
                forall|k: int| 0 <= k < i ==> (#[trigger] names@[k])@ == keys[k],
            decreases n - i,
        {
            names.push(self.packages.key_at(i).clone());
            i = i + 1;
        }
        let ghost all = self.packages@;
        let mut packages: OrderedMap<String, Option<PackageScopeEnvelope>> = OrderedMap::new();
        std::mem::swap(&mut packages, &mut self.packages);
        proof {
            crate::ordered::lemma_increasing_distinct::<String>(keys);
            assert forall|k: int| 0 <= k < n implies packages@.dom().contains(#[trigger] keys[k]) by {
                assert(keys.contains(keys[k]));
            }
        }
        let mut j: usize = 0;
        while j < n
            invariant
                j <= n,
                n == keys.len(),
                n == names@.len(),
                keys.no_duplicates(),
                forall|k: int| 0 <= k < n ==> (#[trigger] names@[k])@ == keys[k],
                forall|x: Seq<char>| #[trigger] all.dom().contains(x) == keys.contains(x),
                before.packages == packages_of(all),
                target == before.without_progress().packages,
                forall|k: int|
                    j <= k < n ==> packages@.dom().contains(#[trigger] keys[k])
                        && packages@[keys[k]] == all[keys[k]],
                forall|k: int|
                    0 <= k < j ==> done@.dom().contains(#[trigger] keys[k]) && envelope_of(
                        done@[keys[k]],
                    ) == target[keys[k]],
                forall|x: Seq<char>| #[trigger]
                    done@.dom().contains(x) ==> exists|k: int| 0 <= k < j && keys[k] == x,
            decreases n - j,
        {
            let ghost key = keys[j as int];
            let ghost held = done@;
            proof {
                assert(keys.contains(key));
                assert(all.dom().contains(key));
                assert(before.packages.dom().contains(key));
            }
            let found = packages.remove(&names[j]);
            let next = match found {
                Some(Some(mut envelope)) => {
                    envelope.next_child_index = 0;
                    Some(envelope)
                },
                _ => None,
            };
            proof {
                assert(envelope_of(next) == target[key]);
            }
            done.insert(names[j].clone(), next);
            proof {
                assert forall|x: Seq<char>| #[trigger] done@.dom().contains(x) implies exists|k: int|
                    0 <= k < j + 1 && keys[k] == x by {
                    if x == key {
                        assert(keys[j as int] == x);
                    } else {
                        assert(held.dom().contains(x));
                        let k = choose|k: int| 0 <= k < j && keys[k] == x;
                        assert(keys[k] == x);
                    }
                }
            }
            j = j + 1;
        }
        self.packages = done;
        proof {
            assert forall|x: Seq<char>| #[trigger] target.dom().contains(x) == done@.dom().contains(
                x,
            ) by {
                if target.dom().contains(x) {
                    assert(all.dom().contains(x));
                    let k = choose|k: int| 0 <= k < keys.len() && keys[k] == x;
                    assert(done@.dom().contains(keys[k]));
                }
                if done@.dom().contains(x) {
                    let k = choose|k: int| 0 <= k < n && keys[k] == x;
                    assert(keys.contains(x));
                    assert(all.dom().contains(x));
                }
            }
            assert forall|x: Seq<char>| #[trigger] target.dom().contains(x) implies target[x]
                == packages_of(done@)[x] by {
                assert(done@.dom().contains(x));
                let k = choose|k: int| 0 <= k < n && keys[k] == x;
                assert(done@.dom().contains(keys[k]));
            }
            assert(self@.packages =~= target);
            assert(self@ =~= before.without_progress());
            assert(self@.wf()) by {
                assert forall|p: Seq<char>| #[trigger] self@.packages.dom().contains(p) implies (
                self@.packages[p] matches Some(e) ==> {
                    &&& e.scope < self@.scopes.len()
                    &&& self@.scopes[e.scope as int].parent is None
                    &&& forall|t: Seq<char>, m: Seq<char>| #[trigger] e.has(t, m) ==> e.at(t, m) < self@.symbols.len()
                }) by {
                    assert(before.packages.dom().contains(p));
                    if let Some(x) = before.packages[p] {
                        lemma_same_methods(x, self@.packages[p]->0);
                    }
                }
            }
        }
    }

    /// What a name behind a qualifier stands for.
    pub fn get_qualified_symbol(
        &self,
        qualifier: &str,
        name: &str,
    ) -> (r: QualifiedSymbolResolutionResult)
        requires
            self@.wf(),
        ensures
            r == self@.qualified(qualifier@, name@),
    {
        let path = match self.named_imports.get(&qualifier.to_owned()) {
            Some(path) => path,
            None => {
                return QualifiedSymbolResolutionResult::UnknownQualifier;
            },
        };
        proof {
            assert(self@.named_imports[qualifier@] == path@);
        }
        match self.packages.get(path) {
            Some(Some(envelope)) => {
                proof {
                    assert(self@.packages.dom().contains(path@));
                    assert(self@.packages[path@] == Some(envelope@));
                }
                let exported = if name.unicode_len() > 0 {
                    is_uppercase(name.get_char(0))
                } else {
                    false
                };
                if exported {
                    match self.search_package(path, &name.to_owned()) {
                        Some(id) => QualifiedSymbolResolutionResult::Success(id),
                        None => QualifiedSymbolResolutionResult::UnknownSymbol,
                    }
                } else {
                    QualifiedSymbolResolutionResult::UnknownSymbol
                }
            },
            Some(None) => {
                proof {
                    assert(self@.packages[path@] is None);
                }
                QualifiedSymbolResolutionResult::PendingAnalysis
            },
            None => QualifiedSymbolResolutionResult::PendingAnalysis,
        }
    }

    /// Imports a package. Without a name, that of the package is taken, or,
    /// if wanted, one inferred from its path. Returns whether another package
    /// had that name before; none if no name could be found.
    pub fn register_import_spec(
        &mut self,
        qualifier: Option<String>,
        path: &str,
        infer_from_path: bool,
    ) -> (r: Option<bool>)
        requires
            old(self)@.wf(),
        ensures
            final(self)@.wf(),
            match old(self)@.import_name(
                match qualifier {
                    Some(q) => Some(q@),
                    None => None,
                },
                path@,
                infer_from_path,
            ) {
                Some(name) => {
                    &&& final(self)@ == old(self)@.importing(name, path@)
                    &&& r == Some(
                        name != "."@ && old(self)@.named_imports.dom().contains(name),
                    )
                },
                None => final(self)@ == old(self)@ && r is None,
            },
    {
        let ghost before = self@;
        let key = path.to_owned();
        let name = match qualifier {
            Some(q) => q,
            None => match self.packages.get(&key) {
                Some(Some(envelope)) => {
                    proof {
                        assert(before.packages.dom().contains(path@));
                        assert(before.packages[path@] == Some(envelope@));
                    }
                    envelope.package_name.content().to_owned()
                },
                other => {
                    proof {
                        if let Some(e) = other {
                            assert(before.packages[path@] is None);
                        }
                    }
                    if infer_from_path {
                        infer_qualifier_from_import_path(path)
                    } else {
                        return None;
                    }
                },
            },
        };
        if same_text(name.as_str(), ".") {
            self.wildcard_imports.push(key);
            proof {
                assert(self@.wildcard_imports =~= before.wildcard_imports.push(path@));
                assert(self@ =~= before.importing("."@, path@));
            }
            Some(false)
        } else {
            let conflicted = self.named_imports.contains_key(&name);
            let ghost q = name@;
            self.named_imports.insert(name, key);
            proof {
                assert(self@.named_imports =~= before.named_imports.insert(q, path@));
                assert(self@ =~= before.importing(q, path@));
            }
            Some(conflicted)
        }
    }

    /// Whether a package is imported under a name.
    pub fn qualifier_exists(&self, qualifier: &str) -> (r: bool)
        ensures
            r == self@.named_imports.dom().contains(qualifier@),
    {
        self.named_imports.contains_key(&qualifier.to_owned())
    }

    /// The path of the package that is imported under a name.
    pub fn package_path_for_qualifier(&self, qualifier: &str) -> (r: Option<&String>)
        ensures
            r is Some <==> self@.named_imports.dom().contains(qualifier@),
            r matches Some(p) ==> p@ == self@.named_imports[qualifier@],
    {
        self.named_imports.get(&qualifier.to_owned())
    }

    /// How many packages there are of which all names are imported.
    pub fn wildcard_import_count(&self) -> (r: usize)
        ensures
            r == self@.wildcard_imports.len(),
    {
        self.wildcard_imports.len()
    }

    /// The path of a package of which all names are imported.
    pub fn wildcard_import(&self, at: usize) -> (r: &String)
        requires
            at < self@.wildcard_imports.len(),
        ensures
            r@ == self@.wildcard_imports[at as int],
    {
        &self.wildcard_imports[at]
    }

    /// Whether the source of a package has been read.
    pub fn is_package_known(&self, path: &String) -> (r: bool)
        ensures
            r == self@.known(path@) is Some,
    {
        match self.packages.get(path) {
            Some(Some(envelope)) => {
                proof {
                    assert(self@.packages[path@] == Some(envelope@));
                }
                true
            },
            Some(None) => {
                proof {
                    assert(self@.packages[path@] is None);
                }
                false
            },
            None => false,
        }
    }

    /// Whether a package has been given up without its source.
    pub fn is_package_sealed(&self, path: &String) -> (r: bool)
        ensures
            r == (self@.packages.dom().contains(path@) && self@.packages[path@] is None),
    {
        match self.packages.get(path) {
            Some(Some(envelope)) => {
                proof {
                    assert(self@.packages[path@] == Some(envelope@));
                }
                false
            },
            Some(None) => {
                proof {
                    assert(self@.packages[path@] is None);
                }
                true
            },
            None => false,
        }
    }
    /// Whether the package that is imported under a name is one whose source
    /// is known not to be available.
    pub fn is_package_blackbox(&self, qualifier: &str) -> (r: bool)
        ensures
            r == (self@.named_imports.dom().contains(qualifier@) && self@.packages.dom().contains(
                self@.named_imports[qualifier@],
            ) && self@.packages[self@.named_imports[qualifier@]] is None),
    {
        match self.named_imports.get(&qualifier.to_owned()) {
            Some(path) => match self.packages.get(path) {
                Some(envelope) => envelope.is_none(),
                None => false,
            },
            None => false,
        }
    }

    /// Declares a method of a type of the current package, and returns the
    /// symbol that it had before.
    pub fn declare_new_method(
        &mut self,
        receiver_type: &str,
        name: &str,
        symbol: usize,
    ) -> (r: Option<usize>)
        requires
            old(self)@.wf(),
            old(self)@.package is Some,
            old(self)@.known(old(self)@.package->0) is Some,
            symbol < old(self)@.symbols.len(),
        ensures
            final(self)@.wf(),
            final(self)@ == old(self)@.declaring_method(receiver_type@, name@, symbol),
            r == ({
                let e = old(self)@.known(old(self)@.package->0)->0;
                if e.has(receiver_type@, name@) {
                    Some(e.at(receiver_type@, name@))
                } else {
                    None
                }
            }),
    {
        let ghost before = self@;
        let path = match &self.current_package_path {
            Some(p) => p.clone(),
            None => {
                proof {
                    assert(false);
                }
                vstd::pervasive::unreached()
            },
        };
        let type_key = receiver_type.to_owned();
        let name_key = name.to_owned();
        match self.packages.remove(&path) {
            Some(Some(mut envelope)) => {
                let ghost e = envelope@;
                let ghost held = envelope.methods@;
                proof {
                    assert(before.packages[path@] == Some(e));
                    assert(e.methods =~= methods_of(held));
                }
                let mut of_type = match envelope.methods.remove(&type_key) {
                    Some(m) => m,
                    None => OrderedMap::new(),
                };
                let previous = match of_type.get(&name_key) {
                    Some(id) => Some(*id),
                    None => None,
                };
                of_type.insert(name_key, symbol);
                envelope.methods.insert(type_key, of_type);
                proof {
                    assert(envelope@ =~= e.with(receiver_type@, name@, symbol));
                }
                self.packages.insert(path, Some(envelope));
                proof {
                    let after = before.declaring_method(receiver_type@, name@, symbol);
                    assert(self@.packages =~= after.packages);
                    assert(self@ =~= after);
                    assert(self@.wf()) by {
                        assert forall|p: Seq<char>| #[trigger]
                            self@.packages.dom().contains(p) implies (
                        self@.packages[p] matches Some(x) ==> {
                            &&& x.scope < self@.scopes.len()
                            &&& self@.scopes[x.scope as int].parent is None
                            &&& forall|t: Seq<char>, m: Seq<char>| #[trigger] x.has(t, m) ==> x.at(t, m) < self@.symbols.len()
                        }) by {
                            assert(before.packages.dom().contains(p));
                            if p == path@ {
                                let x = self@.packages[p]->0;
                                assert forall|t: Seq<char>, m: Seq<char>| #[trigger]
                                    x.has(t, m) implies x.at(t, m) < self@.symbols.len() by {
                                    if t != receiver_type@ || m != name@ {
                                        assert(e.has(t, m));
                                    }
                                }
                            }
                        }
                    }
                }
                previous
            },
            _ => {
                proof {
                    assert(false);
                }
                vstd::pervasive::unreached()
            },
        }
    }

    /// The path of the current package.
    pub fn current_package_path(&self) -> (r: Option<String>)
        ensures
            crate::labels::tags::text_of(r) == self@.package,
    {
        match &self.current_package_path {
            Some(p) => Some(p.clone()),
            None => None,
        }
    }

    /// Whether there is a method of a name.
    pub fn any_method_named(&self, name: &str) -> (r: bool)
        requires
            self@.wf(),
        ensures
            r == self@.has_any_method(name@),
    {
        let key = name.to_owned();
        let ghost paths = self.packages.listing();
        let n: usize = self.packages.len();
        let mut i: usize = 0;
        while i < n
            invariant
                i <= n,
                n == paths.len(),
                paths == self.packages.listing(),
                key@ == name@,
                forall|k: int, t: Seq<char>|
                    0 <= k < i ==> #[trigger] self@.method_of_type(paths[k], t, name@) is None,
            decreases n - i,
        {
            let ghost path = paths[i as int];
            let entry = self.packages.value_at(i);
            proof {
                assert(paths.contains(path));
                assert(self.packages@.dom().contains(path));
                assert(self@.packages.dom().contains(path));
            }
            if let Some(envelope) = entry {
                let ghost types = envelope.methods.listing();
                let m: usize = envelope.methods.len();
                let mut j: usize = 0;
                proof {
                    assert(self@.known(path) == Some(envelope@));
                }
                while j < m
                    invariant
                        j <= m,
                        m == types.len(),
                        types == envelope.methods.listing(),
                        key@ == name@,
                        self@.known(path) == Some(envelope@),
                        forall|k: int| 0 <= k < j ==> !#[trigger] envelope@.has(types[k], name@),
                    decreases m - j,
                {
                    let of_type = envelope.methods.value_at(j);
                    proof {
                        assert(types.contains(types[j as int]));
                        assert(envelope.methods@.dom().contains(types[j as int]));
                    }
                    if of_type.contains_key(&key) {
                        proof {
                            assert(envelope@.has(types[j as int], name@));
                            assert(self@.method_of_type(path, types[j as int], name@) is Some);
                        }
                        return true;
                    }
                    j = j + 1;
                }
                proof {
                    assert forall|t: Seq<char>| #[trigger]
                        self@.method_of_type(path, t, name@) is None by {
                        if envelope@.has(t, name@) {
                            assert(envelope.methods@.dom().contains(t));
                            assert(types.contains(t));
                            let k = choose|k: int| 0 <= k < types.len() && types[k] == t;
                            assert(!envelope@.has(types[k], name@));
                        }
                    }
                }
            } else {
                proof {
                    assert(self@.packages[path] is None);
                }
            }
            i = i + 1;
        }
        proof {
            assert forall|p: Seq<char>, t: Seq<char>| #[trigger]
                self@.method_of_type(p, t, name@) is None by {
                if self@.known(p) is Some {
                    assert(self.packages@.dom().contains(p));
                    assert(paths.contains(p));
                    let k = choose|k: int| 0 <= k < paths.len() && paths[k] == p;
                    assert(self@.method_of_type(paths[k], t, name@) is None);
                }
            }
        }
        false
    }

    /// The method of a type in a package.
    pub fn get_method(&self, path: &String, receiver_type: &String, name: &str) -> (r: Option<usize>)
        requires
            self@.wf(),
        ensures
            r == self@.method_of_type(path@, receiver_type@, name@),
            r matches Some(s) ==> s < self@.symbols.len(),
    {
        let envelope = match self.packages.get(path) {
            Some(Some(e)) => e,
            Some(None) => {
                proof {
                    assert(self@.packages[path@] is None);
                }
                return None;
            },
            None => {
                return None;
            },
        };
        proof {
            assert(self@.packages.dom().contains(path@));
            assert(self@.packages[path@] == Some(envelope@));
        }
        let key = name.to_owned();
        match envelope.methods.get(receiver_type) {
            Some(of_type) => match of_type.get(&key) {
                Some(id) => {
                    proof {
                        assert(envelope@.has(receiver_type@, name@));
                    }
                    Some(*id)
                },
                None => None,
            },
            None => None,
        }
    }

    /// The only method of a name in the current package, whatever the type of
    /// its receiver.
    pub fn lookup_unique_method_in_current_package(&self, name: &str) -> (r: Option<usize>)
        requires
            self@.wf(),
        ensures
            r matches Some(s) ==> exists|t: Seq<char>| #[trigger]
                self@.is_unique_method(t, name@) && self@.method(t, name@) == s,
            r is None ==> forall|t: Seq<char>| !#[trigger] self@.is_unique_method(t, name@),
    {
        let path = match &self.current_package_path {
            Some(p) => p,
            None => {
                return None;
            },
        };
        let envelope = match self.packages.get(path) {
            Some(Some(e)) => e,
            Some(None) => {
                proof {
                    assert(self@.packages[path@] is None);
                }
                return None;
            },
            None => {
                return None;
            },
        };
        let ghost e = envelope@;
        proof {
            assert(self@.packages.dom().contains(path@));
            assert(self@.packages[path@] == Some(envelope@));
        }
        let key = name.to_owned();
        let n: usize = envelope.methods.len();
        let ghost types = envelope.methods.listing();
        let mut found: Option<usize> = None;
        let ghost mut at: Seq<char> = Seq::empty();
        let mut i: usize = 0;
        while i < n
            invariant
                i <= n,
                n == types.len(),
                types == envelope.methods.listing(),
                key@ == name@,
                
                increasing::<String>(types),
                forall|x: Seq<char>| #[trigger]
                    envelope.methods@.dom().contains(x) == types.contains(x),
                self@.package == Some(path@),
                self@.known(path@) == Some(envelope@),
                envelope@ == e,
                found is None ==> forall|k: int|
                    0 <= k < i ==> !#[trigger] e.has(types[k], name@),
                found matches Some(s) ==> e.has(at, name@) && e.at(at, name@) == s && forall|k: int|
                    0 <= k < i && #[trigger] e.has(types[k], name@) ==> types[k]
                        == at,
                found is Some ==> exists|k: int| 0 <= k < i && types[k] == at,
            decreases n - i,
        {
            let of_type = envelope.methods.value_at(i);
            let ghost t = types[i as int];
            proof {
                assert(types.contains(t));
                assert(envelope.methods@.dom().contains(t));
                crate::ordered::lemma_increasing_distinct::<String>(types);
            }
            if let Some(id) = of_type.get(&key) {
                proof {
                    assert(e.has(t, name@));
                }
                if found.is_some() {
                    proof {
                        let k = choose|k: int| 0 <= k < i && types[k] == at;
                        assert(t != at);
                        assert forall|x: Seq<char>| !#[trigger] self@.is_unique_method(x, name@) by {
                            if self@.is_unique_method(x, name@) {
                                assert(e.has(at, name@));
                                assert(at == x);
                                assert(t == x);
                            }
                        }
                    }
                    return None;
                }
                found = Some(*id);
                proof {
                    at = t;
                    assert(types[i as int] == at);
                }
            }
            i = i + 1;
        }
        proof {
            assert forall|x: Seq<char>| #[trigger] e.has(x, name@) implies exists|
                k: int,
            | 0 <= k < n && types[k] == x by {
                assert(envelope.methods@.dom().contains(x));
                assert(types.contains(x));
            }
            if found is Some {
                assert(self@.is_unique_method(at, name@)) by {
                    assert forall|other: Seq<char>| #[trigger]
                        e.has(other, name@) implies other == at by {
                        let k = choose|k: int| 0 <= k < n && types[k] == other;
                        assert(e.has(types[k], name@));
                    }
                }
            } else {
                assert forall|x: Seq<char>| !#[trigger] self@.is_unique_method(x, name@) by {
                    if self@.is_unique_method(x, name@) {
                        assert(e.has(x, name@));
                        let k = choose|k: int| 0 <= k < n && types[k] == x;
                        assert(e.has(types[k], name@));
                    }
                }
            }
        }
        found
    }
}

proof fn lemma_same_methods(a: EnvelopeModel, b: EnvelopeModel)
    requires
        a.methods == b.methods,
    ensures
        forall|t: Seq<char>, m: Seq<char>|
            #![trigger a.has(t, m)]
            #![trigger b.has(t, m)]
            a.has(t, m) == b.has(t, m) && a.at(t, m) == b.at(t, m),
{
}

proof fn lemma_entered(t: TableModel, name: PinnedModel<SpanModel>, path: Seq<char>)
    requires
        t.wf(),
        t.packages.dom().contains(path) ==> t.packages[path] is Some,
        t.scopes.len() < usize::MAX,
    ensures
        t.in_entered_package(name, path).wf(),
{
    let n = t.in_entered_package(name, path);
    let e = t.entry(name, path);
    assert forall|i: int| 0 <= i < t.scopes.len() implies n.scopes[i] == t.scopes[i] by {}
    assert forall|i: int, k: int|
        0 <= i < n.scopes.len() && 0 <= k < n.scopes[i].children.len() implies i
        < #[trigger] n.scopes[i].children[k] < n.scopes.len()
        && n.scopes[n.scopes[i].children[k] as int].parent == Some(i as usize) by {
        if i < t.scopes.len() {
            assert(t.scopes[i].children[k] == n.scopes[i].children[k]);
        }
    }
    assert forall|i: int, x: Seq<char>|
        0 <= i < n.scopes.len() && #[trigger] n.scopes[i].symbols.dom().contains(
            x,
        ) implies n.scopes[i].symbols[x] < n.symbols.len() by {
        if i < t.scopes.len() {
            assert(t.scopes[i].symbols.dom().contains(x));
        }
    }
    assert forall|p: Seq<char>| #[trigger] n.packages.dom().contains(p) implies (
    n.packages[p] matches Some(x) ==> {
        &&& x.scope < n.scopes.len()
        &&& n.scopes[x.scope as int].parent is None
        &&& forall|t: Seq<char>, m: Seq<char>| #[trigger] x.has(t, m) ==> x.at(t, m) < n.symbols.len()
    }) by {
        if p != path {
            assert(t.packages.dom().contains(p));
        } else if t.known(path) is Some {
            assert(t.packages.dom().contains(path));
        }
    }
    assert(n.scopes[e.scope as int].parent is None);
    assert(depth_of(n.scopes, e.scope as int) == 0);
}

/// After an import, the exported names of the package stand behind its
/// qualifier for what they stand for in it.
pub proof fn law_imports_resolve(
    t: TableModel,
    qualifier: Seq<char>,
    path: Seq<char>,
    name: Seq<char>,
)
    requires
        qualifier != "."@,
        t.known(path) is Some,
        is_exported(name),
    ensures
        t.importing(qualifier, path).qualified(qualifier, name) == match t.in_package(path, name) {
            Some(s) => QualifiedSymbolResolutionResult::Success(s),
            None => QualifiedSymbolResolutionResult::UnknownSymbol,
        },
{
}

/// What a package does not export stands for nothing in other packages.
pub proof fn law_private_names_stay_private(t: TableModel, qualifier: Seq<char>, name: Seq<char>)
    requires
        !is_exported(name),
    ensures
        !(t.qualified(qualifier, name) is Success),
{
}

} // verus!
