//! Functions around their bodies.

use vstd::prelude::*;

use crate::ast::{Annotation, FunctionShape, Node, TypeNode};
use crate::context::declarations::declared;
use crate::context::ContextModel;
use crate::decls::{base_type_name, declare_function_or_method, is_in_package, owner_of,
    receiver_base_type_name, symbol_declared};
use crate::functions::{FunctionModel, FunctionRef};
use crate::locations::{Location, Pinned, PinnedModel, Span, SpanModel};
use crate::ordered::{increasing, lemma_increasing_determined, same, Ordered, OrderedMap};
use crate::policy::blanket_directives::{directives_of, BlanketDirective, DirectiveModel};
use crate::symbols::table::{methods_of, SymbolTable, TableModel};
use crate::symbols::{Symbol, SymbolModel};
use crate::taint::funcs::bodies::with_function;
use crate::taint::funcs::captures::collector::{collect_captured_symbols, collected, with_names,
    NamesModel};
use crate::taint::funcs::captures::realization::{declarations_of, has_fallbacks, Declaration};
use crate::taint::funcs::captures::{captures_of, gather_captures, gathered,
    record_capture_fallbacks, references_of, register_captures, registered, with_fallbacks,
    CaptureBinding, CaptureModel, CapturedSymbol, ReferenceModel};
use crate::taint::funcs::definitions::{build_function_value, definition, definition_reported};
use crate::taint::funcs::summaries::{copy_signature, copy_types, function_value,
    make_function_value};
use crate::taint::funcs::{SummaryModel, Yielding, YieldingModel};
use crate::taint::implicit::{Place, PlaceModel};
use crate::taint::visits::callees::{collect_definitions, definitions_of, have_fallbacks};
use crate::taint::visits::Env;
use crate::values::{types_of, Value, ValueModel};

verus! {

/// The elements of a set, in increasing order.
pub open spec fn in_order<T: Ordered>(s: Set<T::V>) -> Seq<T::V> {
    choose|q: Seq<T::V>| #[trigger] increasing::<T>(q) && q.to_set() == s
}

proof fn lemma_in_order<T: Ordered>(q: Seq<T::V>)
    requires
        increasing::<T>(q),
    ensures
        in_order::<T>(q.to_set()) == q,
{
    let r = in_order::<T>(q.to_set());
    assert(increasing::<T>(r) && r.to_set() == q.to_set());
    lemma_increasing_determined::<T>(r, q);
}

/// What an optional name stands for.
pub open spec fn pinned_of(name: Option<Pinned<Span>>) -> Option<PinnedModel<SpanModel>> {
    match name {
        Some(n) => Some(n@),
        None => None,
    }
}

/// The symbol of a function that was declared as said before.
pub open spec fn known_function(
    t: TableModel,
    name: PinnedModel<SpanModel>,
    owner: Option<Seq<char>>,
) -> Option<usize> {
    match owner {
        Some(o) => match t.method_of_type(t.package->0, o, name.inner.content) {
            Some(s) => if t.symbols[s as int].declared_name == name {
                Some(s)
            } else {
                None
            },
            None => None,
        },
        None => t.declared_symbol(name),
    }
}

/// The state and the table once a function has a name. One that had it before
/// gets a new value in its place.
pub open spec fn function_named(
    ctx: ContextModel,
    t: TableModel,
    name: PinnedModel<SpanModel>,
    owner: Option<Seq<char>>,
    value: ValueModel,
) -> (ContextModel, TableModel) {
    match known_function(t, name, owner) {
        Some(s) => (
            ctx,
            TableModel {
                symbols: t.symbols.update(
                    s as int,
                    SymbolModel { value, known_const: None, ..t.symbols[s as int] },
                ),
                ..t
            },
        ),
        None => symbol_declared(
            ctx,
            t,
            SymbolModel { declared_name: name, mutable: false, value, known_const: None },
            owner,
        ),
    }
}

impl<'a> Env<'a> {
    /// What the policy says of a function that is declared in the current
    /// package.
    pub open spec fn said_of_function(
        self,
        t: TableModel,
        name: Option<PinnedModel<SpanModel>>,
        owner: Option<Seq<char>>,
    ) -> Seq<DirectiveModel> {
        match name {
            Some(n) => self.said(t.package->0, owner, n.inner.content),
            None => Seq::<DirectiveModel>::empty(),
        }
    }
}

impl PlaceModel {
    /// The place once a function is defined, before its body is visited. It is
    /// the last function of the table.
    #[verifier::opaque]
    pub open spec fn function_defined(
        self,
        env: Env<'_>,
        func: FunctionModel,
        name: Option<PinnedModel<SpanModel>>,
        shape: FunctionShape,
        annotation: Option<&Annotation>,
        at: PinnedModel<Location>,
    ) -> PlaceModel {
        let owner = owner_of(shape.receiver_type);
        let plain = definition(
            func,
            shape.signature@,
            shape.receiver_type is Some,
            annotation,
            env.said_of_function(self.table, name, owner),
            types_of(shape.result_types@),
            at,
        );
        let f = SummaryModel {
            yielding: match shape.yields {
                Some((param, count)) => Some(
                    YieldingModel {
                        param: PinnedModel { file: self.ctx.log.file->0, inner: param@ },
                        values: Seq::new(count as nat, |i: int| None),
                    },
                ),
                None => None,
            },
            ..plain
        };
        let ctx = ContextModel { log: definition_reported(self.ctx.log, annotation), ..self.ctx };
        let t = with_function(self.table, f);
        let (ctx, table) = match name {
            Some(n) => function_named(
                ctx,
                t,
                n,
                owner,
                function_value(self.table.functions.len() as usize, f.own, at),
            ),
            None => (ctx, t),
        };
        PlaceModel { ctx, table, ..self }
    }

    /// The place in the body of a function, once what it captures is registered.
    #[verifier::opaque]
    pub open spec fn captures_registered(
        self,
        func: FunctionModel,
        function: usize,
        names: Seq<Span>,
        body: Node,
        at: PinnedModel<Location>,
    ) -> PlaceModel {
        let captured = collected(
            body,
            NamesModel {
                declared: with_names(Set::<Seq<char>>::empty(), names, names.len() as int),
                captured: Set::<Seq<char>>::empty(),
            },
        ).captured;
        let found = gathered(
            self.table,
            Map::<Seq<char>, Map<Seq<char>, usize>>::empty(),
            definitions_of(self.table),
            func.is_main(),
            Seq::<Declaration>::empty(),
            in_order::<String>(captured).map_values(
                |n: Seq<char>| ReferenceModel::Unqualified(n),
            ),
        );
        let order = in_order::<Pinned<Span>>(found.dom());
        let (table, captures) = registered(
            self.table,
            func,
            at,
            order,
            found,
            Map::<Declaration, usize>::empty(),
            order.len() as int,
        );
        if function < table.functions.len() {
            PlaceModel {
                table: TableModel {
                    functions: table.functions.update(
                        function as int,
                        SummaryModel { captures, ..table.functions[function as int] },
                    ),
                    ..table
                },
                active: seq![function] + self.active,
                ..self
            }
        } else {
            PlaceModel { table, ..self }.stopped()
        }
    }

    /// The place once it is known what the symbols that a function captures fall
    /// back on.
    #[verifier::opaque]
    pub open spec fn fallbacks_recorded(self, function: usize) -> PlaceModel {
        if function >= self.table.functions.len() || !has_fallbacks(self.table) || !cells_in(
            self.table,
            self.table.functions[function as int].captures,
        ) {
            self.stopped()
        } else {
            let f = self.table.functions[function as int];
            PlaceModel {
                table: TableModel {
                    functions: self.table.functions.update(
                        function as int,
                        SummaryModel {
                            captures: with_fallbacks(
                                f.captures,
                                self.table,
                                definitions_of(self.table),
                                f.captures.len() as int,
                            ),
                            ..f
                        },
                    ),
                    ..self.table
                },
                ..self
            }
        }
    }

    /// The place once the innermost function is no longer being visited.
    pub open spec fn function_put_away(self) -> PlaceModel {
        PlaceModel {
            active: if self.active.len() > 0 {
                self.active.skip(1)
            } else {
                self.active
            },
            ..self
        }
    }
}

/// The symbol of a function that was declared as said before.
fn find_known_function(table: &SymbolTable, name: &Pinned<Span>, owner: Option<&str>) -> (r: Option<
    usize,
>)
    requires
        table@.wf(),
        table@.package is Some,
    ensures
        r == known_function(
            table@,
            name@,
            match owner {
                Some(o) => Some(o@),
                None => None,
            },
        ),
        r matches Some(s) ==> s < table@.symbols.len(),
{
    match owner {
        Some(o) => {
            let path = match table.current_package_path() {
                Some(p) => p,
                None => {
                    return None;
                },
            };
            match table.get_method(&path, &o.to_owned(), name.content()) {
                Some(s) => if same(&table.symbol(s).declared_name, name) {
                    Some(s)
                } else {
                    None
                },
                None => None,
            }
        },
        None => table.find_declared_symbol(name),
    }
}

fn name_function(
    place: &mut Place,
    name: Pinned<Span>,
    receiver: Option<&TypeNode>,
    value: Value,
)
    requires
        old(place).wf(),
        is_in_package(old(place)@.table),
    ensures
        final(place).wf(),
        ({
            let (ctx, table) = function_named(
                old(place)@.ctx,
                old(place)@.table,
                name@,
                match receiver {
                    Some(r) => base_type_name(*r),
                    None => None,
                },
                value@,
            );
            final(place)@ == (PlaceModel { ctx, table, ..old(place)@ })
        }),
{
    let ghost before = place@;
    let ghost goal = function_named(
        before.ctx,
        before.table,
        name@,
        match receiver {
            Some(r) => base_type_name(*r),
            None => None,
        },
        value@,
    );
    let owner = match receiver {
        Some(r) => receiver_base_type_name(r),
        None => None,
    };
    match find_known_function(&place.table, &name, owner) {
        Some(s) => {
            place.table.set_value(s, value, None);
        },
        None => {
            declare_function_or_method(
                &mut place.ctx,
                &mut place.table,
                receiver,
                Symbol { declared_name: name, mutable: false, value, known_const: None },
            );
        },
    }
    proof {
        assert(place@ =~= PlaceModel { ctx: goal.0, table: goal.1, ..before });
    }
}

impl Place {
    /// Defines a function, before its body is visited.
    pub fn define(
        &mut self,
        env: &Env<'_>,
        func: &FunctionRef,
        name: Option<Pinned<Span>>,
        shape: &FunctionShape,
        annotation: Option<&Annotation>,
        at: &Pinned<Location>,
    ) -> (r: usize)
        requires
            old(self).wf(),
            is_in_package(old(self)@.table),
        ensures
            final(self).wf(),
            final(self)@ == old(self)@.function_defined(
                *env,
                func@,
                pinned_of(name),
                *shape,
                annotation,
                at@,
            ),
            r == old(self)@.table.functions.len(),
    {
        proof {
            reveal(PlaceModel::function_defined);
        }
        let ghost before = self@;
        let ghost label = pinned_of(name);
        let receiver = shape.receiver_type.as_ref();
        let owner = match receiver {
            Some(r) => receiver_base_type_name(r),
            None => None,
        };
        let policy = match &name {
            Some(n) => match self.table.current_package_path() {
                Some(path) => env.directives(path.as_str(), owner, n.content()),
                None => Vec::new(),
            },
            None => {
                let none: Vec<BlanketDirective> = Vec::new();
                proof {
                    assert(directives_of(none@) =~= Seq::<DirectiveModel>::empty());
                }
                none
            },
        };
        let mut f = build_function_value(
            &mut self.ctx.log,
            func.duplicate(),
            copy_signature(&shape.signature),
            shape.receiver_type.is_some(),
            annotation,
            policy,
            copy_types(&shape.result_types),
            at,
        );
        let ghost plain = f@;
        f.yielding = match &shape.yields {
            Some((param, count)) => Some(
                Yielding::new(self.ctx.log.pin(param.duplicate()), *count),
            ),
            None => None,
        };
        let id: usize = self.table.function_count();
        let value = make_function_value(id, crate::context::branches::copy_trace(&f.own), at);
        let ghost given = f@;
        self.table.add_function(f);
        proof {
            assert(is_in_package(self.table@));
            assert(self.ctx@.log.file == before.ctx.log.file);
        }
        let ghost middle = self@;
        if let Some(n) = name {
            name_function(self, n, receiver, value);
        }
        proof {
            assert(given =~= SummaryModel { yielding: given.yielding, ..plain });
            assert(self@ =~= before.function_defined(*env, func@, label, *shape, annotation, at@));
        }
        id
    }

    /// Registers what a function captures, in its body.
    pub fn capture(
        &mut self,
        func: &FunctionRef,
        function: usize,
        names: &Vec<Span>,
        body: &Node,
        at: &Pinned<Location>,
    )
        requires
            old(self).wf(),
        ensures
            final(self).wf(),
            final(self)@ == old(self)@.captures_registered(func@, function, names@, *body, at@),
    {
        proof {
            reveal(PlaceModel::captures_registered);
        }
        let ghost before = self@;
        let captured = collect_captured_symbols(names, body);
        let n: usize = captured.len();
        let ghost listing = captured.listing();
        proof {
            lemma_in_order::<String>(listing);
        }
        let ghost wanted = listing.map_values(|n: Seq<char>| ReferenceModel::Unqualified(n));
        let mut references: Vec<CapturedSymbol> = Vec::new();
        let mut i: usize = 0;
        while i < n
            invariant
                i <= n,
                n == listing.len(),
                listing == captured.listing(),
                wanted == listing.map_values(|n: Seq<char>| ReferenceModel::Unqualified(n)),
                references@.len() == i,
                forall|k: int| 0 <= k < i ==> (#[trigger] references@[k])@ == wanted[k],
            decreases n - i,
        {
            references.push(CapturedSymbol::Unqualified(captured.at(i).clone()));
            i = i + 1;
        }
        proof {
            assert(references_of(references@) =~= wanted);
        }
        let methods: OrderedMap<String, OrderedMap<String, usize>> = OrderedMap::new();
        let previous: Vec<Pinned<Span>> = Vec::new();
        let cells: OrderedMap<Pinned<Span>, usize> = OrderedMap::new();
        let definitions = collect_definitions(&self.table);
        proof {
            assert(methods_of(methods@) =~= Map::<Seq<char>, Map<Seq<char>, usize>>::empty());
            assert(declarations_of(previous@) =~= Seq::<Declaration>::empty());
        }
        let found = gather_captures(
            &self.table,
            &methods,
            &definitions,
            func,
            &previous,
            &references,
        );
        let _count: usize = found.len();
        proof {
            assert(found.listing().to_set() =~= found@.dom());
            lemma_in_order::<Pinned<Span>>(found.listing());
        }
        let captures = register_captures(&mut self.table, func, at, &found, &cells);
        let ghost cs = captures_of(captures@);
        if function >= self.table.function_count() {
            self.halted = true;
            proof {
                assert(self@ =~= before.captures_registered(func@, function, names@, *body, at@));
            }
            return;
        }
        let mut f = self.table.function(function).duplicate();
        let ghost g = f@;
        f.captures = captures;
        proof {
            assert(f@ =~= SummaryModel { captures: cs, ..g });
        }
        self.table.set_function(function, f);
        let ghost active = self.active@;
        self.active.insert(0, function);
        proof {
            assert(self.active@ =~= seq![function] + active);
            assert(self@ =~= before.captures_registered(func@, function, names@, *body, at@));
        }
    }

    /// Records what the symbols that a function captures fall back on.
    pub fn record_fallbacks(&mut self, function: usize)
        requires
            old(self).wf(),
        ensures
            final(self).wf(),
            final(self)@ == old(self)@.fallbacks_recorded(function),
    {
        proof {
            reveal(PlaceModel::fallbacks_recorded);
        }
        let ghost before = self@;
        if function >= self.table.function_count() || !have_fallbacks(&self.table) {
            self.halted = true;
            proof {
                assert(self@ =~= before.stopped());
            }
            return;
        }
        let definitions = collect_definitions(&self.table);
        let mut f = self.table.function(function).duplicate();
        let ghost g = f@;
        if !cells_fit(&self.table, &f.captures) {
            self.halted = true;
            proof {
                assert(self@ =~= before.stopped());
            }
            return;
        }
        f.captures = record_capture_fallbacks(&self.table, &definitions, f.captures);
        proof {
            assert(f@ =~= SummaryModel {
                captures: with_fallbacks(
                    g.captures,
                    before.table,
                    definitions_of(before.table),
                    g.captures.len() as int,
                ),
                ..g
            });
        }
        self.table.set_function(function, f);
        proof {
            assert(self@ =~= before.fallbacks_recorded(function));
        }
    }

    /// Stops visiting the innermost function.
    pub fn put_function_away(&mut self)
        requires
            old(self).wf(),
        ensures
            final(self).wf(),
            final(self)@ == old(self)@.function_put_away(),
    {
        let ghost before = self@;
        if self.active.len() > 0 {
            self.active.remove(0);
        }
        proof {
            assert(self@ =~= before.function_put_away());
        }
    }
}

/// Whether what symbols are in an iteration are symbols of a table.
pub open spec fn cells_in(t: TableModel, captures: Seq<CaptureModel>) -> bool {
    forall|i: int|
        0 <= i < captures.len() ==> ((#[trigger] captures[i]).iteration_cell matches Some(c) ==> c
            < t.symbols.len())
}

fn cells_fit(table: &SymbolTable, captures: &Vec<CaptureBinding>) -> (r: bool)
    ensures
        r == cells_in(table@, captures_of(captures@)),
        r ==> forall|i: int|
            0 <= i < captures@.len() ==> ((#[trigger] captures@[i]).iteration_cell matches Some(c)
                ==> c < table@.symbols.len()),
{
    let ghost cs = captures_of(captures@);
    let n: usize = captures.len();
    let mut i: usize = 0;
    while i < n
        invariant
            i <= n,
            n == captures@.len(),
            cs == captures_of(captures@),
            forall|k: int|
                0 <= k < i ==> ((#[trigger] cs[k]).iteration_cell matches Some(c) ==> c
                    < table@.symbols.len()),
            forall|k: int|
                0 <= k < i ==> ((#[trigger] captures@[k]).iteration_cell matches Some(c) ==> c
                    < table@.symbols.len()),
        decreases n - i,
    {
        proof {
            assert(cs[i as int] == captures@[i as int]@);
        }
        if let Some(c) = captures[i].iteration_cell {
            if c >= table.symbol_count() {
                return false;
            }
        }
        i = i + 1;
    }
    true
}

} // verus!
