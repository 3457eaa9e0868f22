//! Taking snapshots of the table.

use vstd::prelude::*;

use crate::ordered::{increasing, lemma_increasing_determined, OrderedMap};
use crate::policy::targets::SimpleConstValue;
use crate::snapshots::{items_of, ItemModel, SymbolTableSnapshot, SymbolTableSnapshotItem};
use crate::symbols::table::{EnvelopeModel, PackageScopeEnvelope, SymbolTable, TableModel};
use crate::symbols::{summaries_of, SymbolModel};
use crate::taint::funcs::{FunctionSummary, SummaryModel};
use crate::values::{values_of, FormModel, Value, ValueForm, ValueModel};

verus! {

/// The texts of a set, in order.
pub open spec fn in_order(s: Set<Seq<char>>) -> Seq<Seq<char>> {
    choose|q: Seq<Seq<char>>| increasing::<String>(q) && #[trigger] q.to_set() == s
}

proof fn lemma_in_order(q: Seq<Seq<char>>, s: Set<Seq<char>>)
    requires
        increasing::<String>(q),
        forall|x: Seq<char>| s.contains(x) == q.contains(x),
    ensures
        in_order(s) == q,
{
    assert(q.to_set() =~= s);
    lemma_increasing_determined::<String>(in_order(s), q);
}

/// A symbol in a snapshot.
pub open spec fn item(
    namespace: Seq<char>,
    name: Seq<char>,
    symbol: SymbolModel,
    functions: Seq<SummaryModel>,
) -> ItemModel {
    ItemModel {
        namespace,
        path: Seq::<usize>::empty(),
        name,
        mutable: symbol.mutable,
        value: symbol.value,
        known_const: symbol.known_const,
        functions,
    }
}

/// Symbols that lie one scope further in.
pub open spec fn deeper(items: Seq<ItemModel>, index: usize) -> Seq<ItemModel> {
    items.map_values(|i: ItemModel| ItemModel { path: i.path.push(index), ..i })
}

/// Symbols under names, in the order of the names.
pub open spec fn named_items(
    t: TableModel,
    names: Map<Seq<char>, usize>,
    namespace: Seq<char>,
) -> Seq<ItemModel> {
    in_order(names.dom()).map_values(|n: Seq<char>| t.item_for(namespace, n, names[n]))
}

impl TableModel {
    /// What is known of the functions in a value and in its first parts.
    pub open spec fn functions_in(self, v: ValueModel, n: int) -> Seq<SummaryModel>
        decreases v, n,
    {
        if n <= 0 || n > v.parts.len() {
            match v.form {
                FormModel::Function(f) => if f < self.functions.len() {
                    seq![self.functions[f as int]]
                } else {
                    Seq::<SummaryModel>::empty()
                },
                _ => Seq::<SummaryModel>::empty(),
            }
        } else {
            let part = v.parts[n - 1];
            self.functions_in(v, n - 1) + self.functions_in(part, part.parts.len() as int)
        }
    }

    /// A symbol of the table in a snapshot.
    pub open spec fn item_for(
        self,
        namespace: Seq<char>,
        name: Seq<char>,
        symbol: usize,
    ) -> ItemModel {
        let s = self.symbols[symbol as int];
        item(namespace, name, s, self.functions_in(s.value, s.value.parts.len() as int))
    }

    /// The symbols in a scope, followed by those in the first scopes in it.
    pub open spec fn scope_items(self, scope: int, namespace: Seq<char>, n: int) -> Seq<ItemModel>
        decreases self.scopes.len() - scope, n,
    {
        if !(0 <= scope < self.scopes.len()) {
            Seq::<ItemModel>::empty()
        } else if n <= 0 || n > self.scopes[scope].children.len() {
            named_items(self, self.scopes[scope].symbols, namespace)
        } else {
            let child = self.scopes[scope].children[n - 1] as int;
            self.scope_items(scope, namespace, n - 1) + if scope < child < self.scopes.len() {
                deeper(
                    self.scope_items(
                        child,
                        namespace,
                        self.scopes[child].children.len() as int,
                    ),
                    (n - 1) as usize,
                )
            } else {
                Seq::<ItemModel>::empty()
            }
        }
    }

    /// The methods of the first types of a package.
    pub open spec fn method_items(self, e: EnvelopeModel, path: Seq<char>, n: int) -> Seq<ItemModel>
        decreases n,
    {
        if n <= 0 {
            Seq::<ItemModel>::empty()
        } else {
            let t = in_order(e.methods.dom())[n - 1];
            self.method_items(e, path, n - 1) + named_items(
                self,
                e.methods[t],
                path + "#"@ + t,
            )
        }
    }

    /// The symbols of the first packages.
    pub open spec fn package_items(self, n: int) -> Seq<ItemModel>
        decreases n,
    {
        if n <= 0 {
            Seq::<ItemModel>::empty()
        } else {
            let path = in_order(self.packages.dom())[n - 1];
            self.package_items(n - 1) + match self.packages[path] {
                Some(e) => self.items_in(path, e),
                None => Seq::<ItemModel>::empty(),
            }
        }
    }

    /// The symbols of a package.
    pub open spec fn items_in(self, path: Seq<char>, e: EnvelopeModel) -> Seq<ItemModel> {
        self.scope_items(
            e.scope as int,
            path,
            self.scopes[e.scope as int].children.len() as int,
        ) + self.method_items(e, path, in_order(e.methods.dom()).len() as int)
    }
}

fn append_items(
    items: &mut Vec<SymbolTableSnapshotItem>,
    more: Vec<SymbolTableSnapshotItem>,
)
    ensures
        items_of(final(items)@) == items_of(old(items)@) + items_of(more@),
{
    let mut more = more;
    let ghost before = items@;
    let ghost added = more@;
    items.append(&mut more);
    proof {
        assert(items@ =~= before + added);
        assert(items_of(items@) =~= items_of(before) + items_of(added));
    }
}

impl SymbolTable {
    fn collect_functions(&self, value: &Value) -> (r: Vec<FunctionSummary>)
        ensures
            summaries_of(r@) == self@.functions_in(value@, value@.parts.len() as int),
        decreases value,
    {
        let mut r: Vec<FunctionSummary> = Vec::new();
        proof {
            value.lemma_parts();
        }
        if let ValueForm::Function(f) = &value.form {
            if *f < self.functions.len() {
                r.push(self.functions[*f].duplicate());
            }
        }
        proof {
            assert(summaries_of(r@) =~= self@.functions_in(value@, 0));
        }
        let n: usize = value.parts.len();
        let mut i: usize = 0;
        while i < n
            invariant
                i <= n,
                n == value.parts@.len(),
                value@.parts == values_of(value.parts@),
                summaries_of(r@) == self@.functions_in(value@, i as int),
            decreases n - i,
        {
            let ghost before = summaries_of(r@);
            let mut more = self.collect_functions(&value.parts[i]);
            let ghost added = summaries_of(more@);
            let ghost all = r@ + more@;
            r.append(&mut more);
            proof {
                assert(r@ =~= all);
                assert(summaries_of(r@) =~= before + added);
                assert(value@.parts[i as int] == value.parts@[i as int]@);
            }
            i = i + 1;
        }
        r
    }

    fn snapshot_names(&self, names: &OrderedMap<String, usize>, namespace: &str) -> (r: Vec<
        SymbolTableSnapshotItem,
    >)
        requires
            forall|n: Seq<char>| #[trigger]
                names@.dom().contains(n) ==> names@[n] < self@.symbols.len(),
        ensures
            items_of(r@) == named_items(self@, names@, namespace@),
    {
        let mut items: Vec<SymbolTableSnapshotItem> = Vec::new();
        let n: usize = names.len();
        let ghost keys = names.listing();
        let mut i: usize = 0;
        while i < n
            invariant
                i <= n,
                n == keys.len(),
                keys == names.listing(),
                forall|x: Seq<char>| #[trigger] names@.dom().contains(x) == keys.contains(x),
                forall|x: Seq<char>| #[trigger]
                    names@.dom().contains(x) ==> names@[x] < self@.symbols.len(),
                items@.len() == i,
                forall|k: int|
                    0 <= k < i ==> (#[trigger] items@[k])@ == self@.item_for(
                        namespace@,
                        keys[k],
                        names@[keys[k]],
                    ),
            decreases n - i,
        {
            let name = names.key_at(i);
            let id: usize = *names.value_at(i);
            proof {
                assert(keys.contains(keys[i as int]));
            }
            let symbol = &self.symbols[id];
            let known_const = match &symbol.known_const {
                Some(c) => Some(SimpleConstValue { text: c.text.clone() }),
                None => None,
            };
            let mut one = SymbolTableSnapshotItem::new(
                namespace.to_owned(),
                name.clone(),
                symbol.mutable,
                symbol.value.clone(),
                known_const,
            );
            one.set_functions(self.collect_functions(&symbol.value));
            proof {
                assert(one@ =~= self@.item_for(namespace@, name@, id));
            }
            items.push(one);
            i = i + 1;
        }
        proof {
            lemma_in_order(keys, names@.dom());
            assert(items_of(items@) =~= named_items(self@, names@, namespace@));
        }
        items
    }

    fn partial_snapshot(&self, scope: usize, namespace: &str) -> (r: Vec<SymbolTableSnapshotItem>)
        requires
            self@.wf(),
            scope < self@.scopes.len(),
        ensures
            items_of(r@) == self@.scope_items(
                scope as int,
                namespace@,
                self@.scopes[scope as int].children.len() as int,
            ),
        decreases self@.scopes.len() - scope,
    {
        proof {
            let names = self.scopes@[scope as int].symbols@;
            assert(self@.scopes[scope as int] == self.scopes@[scope as int]@);
            assert forall|n: Seq<char>| #[trigger] names.dom().contains(n) implies names[n]
                < self@.symbols.len() by {
                assert(self@.scopes[scope as int].symbols.dom().contains(n));
            }
        }
        let mut items = self.snapshot_names(&self.scopes[scope].symbols, namespace);
        let n: usize = self.scopes[scope].children.len();
        let mut i: usize = 0;
        while i < n
            invariant
                i <= n,
                self@.wf(),
                scope < self@.scopes.len(),
                self@.scopes.len() == self.scopes@.len(),
                self@.scopes[scope as int] == self.scopes@[scope as int]@,
                n == self.scopes@[scope as int].children@.len(),
                items_of(items@) == self@.scope_items(scope as int, namespace@, i as int),
            decreases n - i,
        {
            let child: usize = self.scopes[scope].children[i];
            proof {
                assert(self@.scopes[scope as int].children[i as int] == child);
            }
            let mut sub = self.partial_snapshot(child, namespace);
            let ghost all = items_of(sub@);
            let m: usize = sub.len();
            let mut j: usize = 0;
            while j < m
                invariant
                    j <= m,
                    m == sub@.len(),
                    m == all.len(),
                    forall|k: int|
                        0 <= k < j ==> (#[trigger] sub@[k])@ == (ItemModel {
                            path: all[k].path.push(i),
                            ..all[k]
                        }),
                    forall|k: int| j <= k < m ==> (#[trigger] sub@[k])@ == all[k],
                decreases m - j,
            {
                let mut x = sub.remove(j);
                x.push_to_path(i);
                sub.insert(j, x);
                j = j + 1;
            }
            proof {
                assert(items_of(sub@) =~= deeper(all, i));
            }
            append_items(&mut items, sub);
            i = i + 1;
        }
        items
    }

    fn partial_method_snapshot(&self, envelope: &PackageScopeEnvelope, package_path: &str) -> (r: Vec<
        SymbolTableSnapshotItem,
    >)
        requires
            forall|t: Seq<char>, n: Seq<char>| #[trigger]
                envelope@.has(t, n) ==> envelope@.at(t, n) < self@.symbols.len(),
        ensures
            items_of(r@) == self@.method_items(
                envelope@,
                package_path@,
                in_order(envelope@.methods.dom()).len() as int,
            ),
    {
        let mut items: Vec<SymbolTableSnapshotItem> = Vec::new();
        let n: usize = envelope.methods.len();
        let ghost types = envelope.methods.listing();
        let ghost e = envelope@;
        proof {
            lemma_in_order(types, e.methods.dom());
            assert(items_of(items@) =~= self@.method_items(e, package_path@, 0));
        }
        let mut i: usize = 0;
        while i < n
            invariant
                i <= n,
                n == types.len(),
                types == envelope.methods.listing(),
                types == in_order(e.methods.dom()),
                e == envelope@,
                forall|x: Seq<char>| #[trigger]
                    envelope.methods@.dom().contains(x) == types.contains(x),
                forall|t: Seq<char>, n: Seq<char>| #[trigger]
                    e.has(t, n) ==> e.at(t, n) < self@.symbols.len(),
                items_of(items@) == self@.method_items(e, package_path@, i as int),
            decreases n - i,
        {
            let receiver_type = envelope.methods.key_at(i);
            let of_type = envelope.methods.value_at(i);
            let ghost t = types[i as int];
            proof {
                assert(types.contains(t));
                assert(e.methods[t] == of_type@);
                assert forall|n: Seq<char>| #[trigger] of_type@.dom().contains(n) implies of_type@[n]
                    < self@.symbols.len() by {
                    assert(e.has(t, n));
                }
            }
            let mut namespace = package_path.to_owned();
            namespace.append("#");
            namespace.append(receiver_type.as_str());
            let sub = self.snapshot_names(of_type, namespace.as_str());
            append_items(&mut items, sub);
            i = i + 1;
        }
        items
    }

    /// All symbols of all packages, in a fixed order.
    pub fn snapshot(&self) -> (r: SymbolTableSnapshot)
        requires
            self@.wf(),
        ensures
            r@ == self@.package_items(in_order(self@.packages.dom()).len() as int),
    {
        let mut items: Vec<SymbolTableSnapshotItem> = Vec::new();
        let n: usize = self.packages.len();
        let ghost paths = self.packages.listing();
        proof {
            lemma_in_order(paths, self@.packages.dom());
            assert(items_of(items@) =~= self@.package_items(0));
        }
        let mut i: usize = 0;
        while i < n
            invariant
                i <= n,
                n == paths.len(),
                paths == self.packages.listing(),
                paths == in_order(self@.packages.dom()),
                self@.wf(),
                forall|x: Seq<char>| #[trigger]
                    self.packages@.dom().contains(x) == paths.contains(x),
                items_of(items@) == self@.package_items(i as int),
            decreases n - i,
        {
            let path = self.packages.key_at(i);
            let ghost before = items_of(items@);
            proof {
                assert(paths.contains(paths[i as int]));
                assert(self@.packages.dom().contains(path@));
            }
            match self.packages.value_at(i) {
                Some(envelope) => {
                    proof {
                        assert(self@.packages[path@] == Some(envelope@));
                    }
                    let sub = self.partial_snapshot(envelope.scope, path.as_str());
                    let methods = self.partial_method_snapshot(envelope, path.as_str());
                    let ghost a = items_of(sub@);
                    let ghost b = items_of(methods@);
                    append_items(&mut items, sub);
                    append_items(&mut items, methods);
                    proof {
                        assert(before + a + b =~= before + (a + b));
                    }
                },
                None => {
                    proof {
                        assert(self@.packages[path@] is None);
                        assert(before + Seq::<ItemModel>::empty() =~= before);
                    }
                },
            }
            i = i + 1;
        }
        SymbolTableSnapshot::from_items(items)
    }

    /// The symbols of each package whose source is available.
    pub fn snapshot_per_package(&self) -> (r: OrderedMap<String, SymbolTableSnapshot>)
        requires
            self@.wf(),
        ensures
            forall|p: Seq<char>| #[trigger] r@.dom().contains(p) <==> self@.known(p) is Some,
            forall|p: Seq<char>| #[trigger]
                r@.dom().contains(p) ==> r@[p]@ == self@.items_in(p, self@.known(p)->0),
    {
        let mut r: OrderedMap<String, SymbolTableSnapshot> = OrderedMap::new();
        let n: usize = self.packages.len();
        let ghost paths = self.packages.listing();
        let mut i: usize = 0;
        while i < n
            invariant
                i <= n,
                n == paths.len(),
                paths == self.packages.listing(),
                self@.wf(),
                forall|x: Seq<char>| #[trigger]
                    self.packages@.dom().contains(x) == paths.contains(x),
                forall|p: Seq<char>| #[trigger]
                    r@.dom().contains(p) <==> self@.known(p) is Some && paths.take(
                        i as int,
                    ).contains(p),
                forall|p: Seq<char>| #[trigger]
                    r@.dom().contains(p) ==> r@[p]@ == self@.items_in(p, self@.known(p)->0),
            decreases n - i,
        {
            let path = self.packages.key_at(i);
            let ghost before = r@;
            proof {
                assert(paths.contains(paths[i as int]));
                assert(self@.packages.dom().contains(path@));
                assert(paths.take(i + 1) =~= paths.take(i as int).push(path@));
                assert forall|p: Seq<char>|
                    paths.take(i + 1).contains(p) == (paths.take(i as int).contains(p) || p
                        == path@) by {
                    let first = paths.take(i as int);
                    if first.contains(p) {
                        let k = choose|k: int| 0 <= k < first.len() && first[k] == p;
                        assert(paths.take(i + 1)[k] == p);
                    }
                    if p == path@ {
                        assert(paths.take(i + 1)[i as int] == p);
                    }
                }
            }
            match self.packages.value_at(i) {
                Some(envelope) => {
                    proof {
                        assert(self@.packages[path@] == Some(envelope@));
                    }
                    let mut items = self.partial_snapshot(envelope.scope, path.as_str());
                    let methods = self.partial_method_snapshot(envelope, path.as_str());
                    append_items(&mut items, methods);
                    r.insert(path.clone(), SymbolTableSnapshot::from_items(items));
                },
                None => {
                    proof {
                        assert(self@.packages[path@] is None);
                    }
                },
            }
            proof {
                assert forall|p: Seq<char>| #[trigger]
                    r@.dom().contains(p) <==> self@.known(p) is Some && paths.take(
                        i + 1,
                    ).contains(p) by {
                    assert(before.dom().contains(p) <==> self@.known(p) is Some && paths.take(
                        i as int,
                    ).contains(p));
                }
            }
            i = i + 1;
        }
        proof {
            assert(paths.take(n as int) =~= paths);
            assert forall|p: Seq<char>| #[trigger]
                r@.dom().contains(p) <==> self@.known(p) is Some by {
                if self@.known(p) is Some {
                    assert(self.packages@.dom().contains(p));
                }
            }
        }
        r
    }
}

} // verus!
