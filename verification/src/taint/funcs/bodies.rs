//! Functions from their definition to the end of their bodies.

use vstd::prelude::*;

use crate::ast::{Annotation, TypeNode};
use crate::context::{AnalysisContext, ContextModel};
use crate::decls::{base_type_name, declare_function_or_method, is_in_package, symbol_declared};
use crate::functions::{FunctionModel, FunctionRef};
use crate::context::branches::copy_trace;
use crate::labels::backtraces::LabelBacktraceKind;
use crate::labels::tags::{SyntheticSlot, TagModel};
use crate::labels::Label;
use crate::locations::{Location, Pinned, PinnedModel, Span, SpanModel};
use crate::ordered::{same_text, Ordered};
use crate::policy::blanket_directives::{directives_of, BlanketDirective};
use crate::policy::targets::SimpleConstValue;
use crate::symbols::table::{SymbolTable, TableModel};
use crate::symbols::{Symbol, SymbolModel};
use crate::taint::explicit::{all_assigned, known_of, lefts_of, spans_of, visit_raw_assignment,
    zero_declared, KnownModel};
use crate::taint::funcs::definitions::{bind_named_result_locals, body_entered, body_left,
    build_function_value, checks_put_off, declare_parameter, declare_parameters,
    definition, definition_reported, enter_body, leave_body, names_of_params,
    parameter_declared, parameters_declared, results_bound, NamedResults};
use crate::taint::funcs::outcomes::{finalize_named_result_outcome, finalized, optional_values};
use crate::taint::funcs::summaries::{function_value, make_function_value};
use crate::taint::funcs::{Signature, SummaryModel};
use crate::taint::implicit::{Place, PlaceModel};
use crate::taint::mutation::{LeftModel, LeftValue, StepModel};
use crate::values::{type_of, types_of, values_of, TypeInfo, Value, ValueModel};

verus! {

/// The table once a function is known.
pub open spec fn with_function(t: TableModel, f: SummaryModel) -> TableModel {
    TableModel { functions: t.functions.push(f), ..t }
}

/// Whether a function is declared, given the state and the table before that: it
/// takes the place of the symbol that was declared under the same name at the
/// same place, if there is one, or else becomes a new one.
pub open spec fn function_declared(
    ctx: ContextModel,
    t: TableModel,
    name: PinnedModel<SpanModel>,
    receiver: Option<TypeNode>,
    value: ValueModel,
    after: (ContextModel, TableModel),
) -> bool {
    if exists|s: usize| #[trigger] t.declares(s, name) {
        &&& after.0 == ctx
        &&& exists|s: usize|
            #[trigger] t.declares(s, name) && after.1 == (TableModel {
                symbols: t.symbols.update(
                    s as int,
                    SymbolModel { value, known_const: None, ..t.symbols[s as int] },
                ),
                ..t
            })
    } else {
        after == symbol_declared(
            ctx,
            t,
            SymbolModel { declared_name: name, mutable: false, value, known_const: None },
            match receiver {
                Some(r) => base_type_name(r),
                None => None,
            },
        )
    }
}

/// Declares a function, or a method, with a value.
pub fn declare_function(
    ctx: &mut AnalysisContext,
    table: &mut SymbolTable,
    name: Pinned<Span>,
    receiver: Option<&TypeNode>,
    value: Value,
)
    requires
        old(ctx).wf(),
        old(table)@.wf(),
        is_in_package(old(table)@),
    ensures
        final(ctx).wf(),
        final(table)@.wf(),
        is_in_package(final(table)@),
        final(ctx)@.log.file == old(ctx)@.log.file,
        function_declared(
            old(ctx)@,
            old(table)@,
            name@,
            match receiver {
                Some(r) => Some(*r),
                None => None,
            },
            value@,
            (final(ctx)@, final(table)@),
        ),
{
    let ghost t = table@;
    match table.get_symbol_by_declaration(&name) {
        Some(existing) => {
            proof {
                assert(t.declares(existing, name@));
            }
            table.set_value(existing, value, None);
        },
        None => {
            let symbol = Symbol { declared_name: name, mutable: false, value, known_const: None };
            declare_function_or_method(ctx, table, receiver, symbol);
        },
    }
}

/// Takes note of a function before its body is visited, and returns where it
/// stands in the table.
pub fn define_function(
    ctx: &mut AnalysisContext,
    table: &mut SymbolTable,
    func: FunctionRef,
    name: Option<Pinned<Span>>,
    receiver: Option<&TypeNode>,
    signature: Signature,
    annotation: Option<&Annotation>,
    policy: Vec<BlanketDirective>,
    declared_result_types: Vec<Option<TypeInfo>>,
    at: &Pinned<Location>,
) -> (r: usize)
    requires
        old(ctx).wf(),
        old(table)@.wf(),
        is_in_package(old(table)@),
    ensures
        final(ctx).wf(),
        final(table)@.wf(),
        is_in_package(final(table)@),
        final(ctx)@.log.file == old(ctx)@.log.file,
        r == old(table)@.functions.len(),
        ({
            let f = definition(
                func@,
                signature@,
                receiver is Some,
                annotation,
                directives_of(policy@),
                types_of(declared_result_types@),
                at@,
            );
            let reported = ContextModel {
                log: definition_reported(old(ctx)@.log, annotation),
                ..old(ctx)@
            };
            match name {
                Some(n) => function_declared(
                    reported,
                    with_function(old(table)@, f),
                    n@,
                    match receiver {
                        Some(x) => Some(*x),
                        None => None,
                    },
                    function_value(r, f.own, at@),
                    (final(ctx)@, final(table)@),
                ),
                None => final(ctx)@ == reported && final(table)@ == with_function(old(table)@, f),
            }
        }),
{
    let ghost start = ctx@;
    let ghost t = table@;
    let summary = build_function_value(
        &mut ctx.log,
        func,
        signature,
        receiver.is_some(),
        annotation,
        policy,
        declared_result_types,
        at,
    );
    proof {
        assert(ctx@ =~= ContextModel {
            log: definition_reported(start.log, annotation),
            ..start
        });
    }
    let own = copy_trace(&summary.own);
    let r: usize = table.add_function(summary);
    if let Some(n) = name {
        let value = make_function_value(r, own, at);
        declare_function(ctx, table, n, receiver, value);
    }
    r
}

/// The receiver of a method, as its body sees it.
#[derive(Debug)]
pub struct ReceiverDecl {
    /// Its name, if it has one.
    pub id: Option<Span>,
    /// Its type, if it is known.
    pub declared_type: Option<TypeInfo>,
}

/// The state and the table once the receiver of a method is declared.
pub open spec fn receiver_declared(
    ctx: ContextModel,
    t: TableModel,
    func: FunctionModel,
    receiver: Option<&ReceiverDecl>,
) -> (ContextModel, TableModel) {
    match receiver {
        Some(r) => parameter_declared(
            ctx,
            t,
            func,
            SyntheticSlot::Receiver,
            match r.id {
                Some(id) => Some(id@),
                None => None,
            },
            type_of(r.declared_type),
        ),
        None => (ctx, t),
    }
}

/// The state and the table once all that a function declares before its body is
/// declared.
pub open spec fn locals_declared(
    ctx: ContextModel,
    t: TableModel,
    func: FunctionModel,
    receiver: Option<&ReceiverDecl>,
    names: Seq<Option<SpanModel>>,
    types: Seq<Option<crate::values::TypeModel>>,
    results: Seq<NamedResults>,
) -> (ContextModel, TableModel) {
    let first = receiver_declared(ctx, t, func, receiver);
    let second = parameters_declared(first.0, first.1, func, names, types, names.len() as int);
    results_bound(second.0, second.1, results, results.len() as int)
}

proof fn lemma_parameters_keep_branches(
    ctx: ContextModel,
    t: TableModel,
    func: FunctionModel,
    names: Seq<Option<SpanModel>>,
    types: Seq<Option<crate::values::TypeModel>>,
    n: int,
)
    ensures
        parameters_declared(ctx, t, func, names, types, n).0.branches == ctx.branches,
    decreases n,
{
    if n > 0 {
        lemma_parameters_keep_branches(ctx, t, func, names, types, n - 1);
    }
}

proof fn lemma_zeros_keep_branches(
    ctx: ContextModel,
    t: TableModel,
    ids: Seq<SpanModel>,
    declared_type: Option<crate::values::TypeModel>,
    n: int,
)
    ensures
        zero_declared(ctx, t, ids, true, declared_type, None, n).0.branches == ctx.branches,
    decreases n,
{
    if n > 0 {
        lemma_zeros_keep_branches(ctx, t, ids, declared_type, n - 1);
    }
}

proof fn lemma_results_keep_branches(
    ctx: ContextModel,
    t: TableModel,
    results: Seq<NamedResults>,
    n: int,
)
    ensures
        results_bound(ctx, t, results, n).0.branches == ctx.branches,
    decreases n,
{
    if n > 0 {
        lemma_results_keep_branches(ctx, t, results, n - 1);
        let (before, table) = results_bound(ctx, t, results, n - 1);
        let last = results[n - 1];
        lemma_zeros_keep_branches(
            before,
            table,
            spans_of(last.ids@),
            type_of(last.declared_type),
            last.ids@.len() as int,
        );
    }
}

/// Whether the value that a function returns at a position is given to the named
/// result there.
pub open spec fn is_prepared(t: TableModel, ids: Seq<SpanModel>, count: nat, i: int) -> bool {
    &&& i < count
    &&& ids[i].content != "_"@
    &&& t.resolved(Some(t.current), ids[i].content) is Some
}

/// The first named results to which something is assigned.
pub open spec fn prepared_lefts(
    t: TableModel,
    ids: Seq<SpanModel>,
    count: nat,
    n: int,
) -> Seq<LeftModel>
    decreases n,
{
    if n <= 0 {
        Seq::<LeftModel>::empty()
    } else {
        let before = prepared_lefts(t, ids, count, n - 1);
        if is_prepared(t, ids, count, n - 1) {
            before.push(
                LeftModel {
                    symbol: t.resolved(Some(t.current), ids[n - 1].content)->0,
                    name: ids[n - 1],
                    path: Seq::<StepModel>::empty(),
                },
            )
        } else {
            before
        }
    }
}

/// What is assigned to the first named results.
pub open spec fn prepared_values(
    t: TableModel,
    ids: Seq<SpanModel>,
    outcome: Seq<ValueModel>,
    n: int,
) -> Seq<KnownModel>
    decreases n,
{
    if n <= 0 {
        Seq::<KnownModel>::empty()
    } else {
        let before = prepared_values(t, ids, outcome, n - 1);
        if is_prepared(t, ids, outcome.len(), n - 1) {
            before.push((outcome[n - 1], None))
        } else {
            before
        }
    }
}

impl PlaceModel {
    /// The place in the body of a function.
    pub open spec fn function_opened(
        self,
        func: FunctionModel,
        receiver: Option<&ReceiverDecl>,
        names: Seq<Option<SpanModel>>,
        types: Seq<Option<crate::values::TypeModel>>,
        results: Seq<NamedResults>,
        at: PinnedModel<Location>,
    ) -> PlaceModel {
        let inside = self.in_scope();
        let (ctx, table) = locals_declared(
            inside.ctx,
            inside.table,
            func,
            receiver,
            names,
            types,
            results,
        );
        PlaceModel { ctx: body_entered(ctx, func, at), table, ..inside }
    }

    /// The place once the named results of a function have what it returns, so
    /// that calls that are put off find it there.
    pub open spec fn results_prepared(
        self,
        function: usize,
        ids: Seq<SpanModel>,
        location: Location,
    ) -> PlaceModel {
        match self.table.functions[function as int].outcome {
            Some(outcome) => {
                let lefts = prepared_lefts(self.table, ids, outcome.len(), ids.len() as int);
                let (ctx, table) = all_assigned(
                    self.ctx,
                    self.table,
                    lefts,
                    LabelBacktraceKind::Return,
                    prepared_values(self.table, ids, outcome, ids.len() as int),
                    true,
                    None,
                    Set::<TagModel>::empty(),
                    location,
                    self.regions,
                    lefts.len() as int,
                );
                PlaceModel { ctx, table, ..self }
            },
            None => self,
        }
    }

    /// The last value of a named result.
    pub open spec fn last_value(self, id: SpanModel) -> Option<ValueModel> {
        let local = self.table.scopes[self.table.current as int].symbols;
        if id.content != "_"@ && local.dom().contains(id.content) {
            Some(self.table.symbols[local[id.content] as int].value)
        } else {
            None
        }
    }

    /// The place behind the body of a function.
    pub open spec fn function_closed(
        self,
        func: FunctionModel,
        function: usize,
        ids: Seq<SpanModel>,
        location: Location,
    ) -> PlaceModel {
        let f = self.table.functions[function as int];
        let named = Seq::new(ids.len(), |i: int| self.last_value(ids[i]));
        let done = SummaryModel {
            outcome: match f.outcome {
                Some(outcome) => Some(
                    finalized(outcome, named, self.ctx.branches.current(), self.at(location)),
                ),
                None => None,
            },
            deferred_checks: checks_put_off(self.ctx),
            ..f
        };
        PlaceModel {
            ctx: body_left(self.ctx, func),
            table: (TableModel {
                functions: self.table.functions.update(function as int, done),
                ..self.table
            }).in_parent(),
            ..self
        }
    }
}

fn copy_values(values: &Vec<Value>) -> (r: Vec<Value>)
    ensures
        values_of(r@) == values_of(values@),
{
    let mut r: Vec<Value> = Vec::new();
    let n: usize = values.len();
    let mut i: usize = 0;
    while i < n
        invariant
            i <= n,
            n == values@.len(),
            r@.len() == i,
            forall|k: int| 0 <= k < i ==> (#[trigger] r@[k])@ == values@[k]@,
        decreases n - i,
    {
        r.push(values[i].clone());
        i = i + 1;
    }
    proof {
        assert(values_of(r@) =~= values_of(values@));
    }
    r
}

impl Place {
    /// Goes into the body of a function, in a scope in which its receiver, its
    /// parameters and its named results are declared.
    pub fn open_function(
        &mut self,
        func: &FunctionRef,
        receiver: Option<&ReceiverDecl>,
        signature: &Signature,
        types: &Vec<Option<TypeInfo>>,
        results: &Vec<NamedResults>,
        at: &Pinned<Location>,
    )
        requires
            old(self).wf(),
            old(self)@.has_room(),
            old(self)@.ctx.branches.depth < 255,
        ensures
            final(self).wf(),
            final(self)@ == old(self)@.function_opened(
                func@,
                receiver,
                names_of_params(signature@.params),
                types_of(types@),
                results@,
                at@,
            ),
    {
        self.enter_scope();
        let ghost inside = self@;
        let ghost names = names_of_params(signature@.params);
        if let Some(r) = receiver {
            declare_parameter(
                &mut self.ctx,
                &mut self.table,
                func,
                SyntheticSlot::Receiver,
                r.id.as_ref(),
                &r.declared_type,
            );
        }
        let ghost first = (self.ctx@, self.table@);
        declare_parameters(&mut self.ctx, &mut self.table, func, signature, types);
        let ghost second = (self.ctx@, self.table@);
        bind_named_result_locals(&mut self.ctx, &mut self.table, results);
        proof {
            lemma_parameters_keep_branches(
                first.0,
                first.1,
                func@,
                names,
                types_of(types@),
                names.len() as int,
            );
            lemma_results_keep_branches(second.0, second.1, results@, results@.len() as int);
        }
        enter_body(&mut self.ctx, func, at);
    }

    /// Gives what a function returns to its named results.
    pub fn prepare_named_result_params_for_defers(
        &mut self,
        function: usize,
        ids: &Vec<Span>,
        location: Location,
    )
        requires
            old(self).wf(),
            function < old(self)@.table.functions.len(),
        ensures
            final(self).wf(),
            final(self)@ == old(self)@.results_prepared(function, spans_of(ids@), location),
    {
        let ghost before = self@;
        let ghost t = self.table@;
        let ghost names = spans_of(ids@);
        let outcome = match &self.table.function(function).outcome {
            Some(o) => copy_values(o),
            None => {
                return;
            },
        };
        let ghost given = values_of(outcome@);
        let mut lefts: Vec<LeftValue> = Vec::new();
        let mut rhs: Vec<(Value, Option<SimpleConstValue>)> = Vec::new();
        let n: usize = ids.len();
        let mut i: usize = 0;
        proof {
            assert(lefts_of(lefts@) =~= Seq::<LeftModel>::empty());
            assert(known_of(rhs@) =~= Seq::<KnownModel>::empty());
        }
        while i < n
            invariant
                i <= n,
                n == ids@.len(),
                names == spans_of(ids@),
                given == values_of(outcome@),
                self.table@ == t,
                t.wf(),
                lefts_of(lefts@) == prepared_lefts(t, names, given.len(), i as int),
                known_of(rhs@) == prepared_values(t, names, given, i as int),
                lefts@.len() == rhs@.len(),
                forall|k: int|
                    0 <= k < lefts@.len() ==> (#[trigger] lefts@[k]).symbol < t.symbols.len(),
            decreases n - i,
        {
            let id = &ids[i];
            proof {
                assert(names[i as int] == id@);
            }
            if i < outcome.len() && !same_text(id.content(), "_") {
                if let Some(symbol) = self.table.get_symbol(id.content()) {
                    proof {
                        crate::symbols::table::lemma_resolved_in_range(
                            t,
                            Some(t.current),
                            id@.content,
                        );
                    }
                    let ghost ls = lefts_of(lefts@);
                    let ghost vs = known_of(rhs@);
                    let path: Vec<crate::taint::mutation::PathStep> = Vec::new();
                    proof {
                        assert(crate::taint::mutation::steps_of(path@) =~= Seq::<
                            StepModel,
                        >::empty());
                    }
                    let left = LeftValue { symbol, name: id.duplicate(), path };
                    let ghost l = left@;
                    lefts.push(left);
                    rhs.push((outcome[i].clone(), None));
                    proof {
                        assert(lefts_of(lefts@) =~= ls.push(l));
                        assert(known_of(rhs@) =~= vs.push((given[i as int], None)));
                    }
                }
            }
            i = i + 1;
        }
        visit_raw_assignment(
            &mut self.ctx,
            &mut self.table,
            LabelBacktraceKind::Return,
            true,
            &lefts,
            rhs,
            None,
            &Label::Bottom,
            location,
            &self.regions,
        );
        proof {
            assert(lefts_of(lefts@).len() == lefts@.len());
            assert(self@ =~= before.results_prepared(function, names, location));
        }
    }

    /// Comes out of the body of a function: what it returns is now known, as far
    /// as it has been visited, and so are the checks to be made when it is
    /// called.
    pub fn close_function(
        &mut self,
        func: &FunctionRef,
        function: usize,
        ids: &Vec<Span>,
        location: Location,
    )
        requires
            old(self).wf(),
            function < old(self)@.table.functions.len(),
            old(self)@.ctx.branches.depth > 0,
        ensures
            final(self).wf(),
            final(self)@ == old(self)@.function_closed(
                func@,
                function,
                spans_of(ids@),
                location,
            ),
    {
        let ghost before = self@;
        let ghost names = spans_of(ids@);
        let ghost wanted = Seq::new(names.len(), |i: int| before.last_value(names[i]));
        let mut named: Vec<Option<Value>> = Vec::new();
        let n: usize = ids.len();
        let mut i: usize = 0;
        proof {
            assert(optional_values(named@) =~= wanted.take(0));
        }
        while i < n
            invariant
                i <= n,
                n == ids@.len(),
                names == spans_of(ids@),
                wanted == Seq::new(names.len(), |i: int| before.last_value(names[i])),
                self@ == before,
                self.wf(),
                optional_values(named@) == wanted.take(i as int),
            decreases n - i,
        {
            let id = &ids[i];
            let ghost sofar = optional_values(named@);
            proof {
                assert(names[i as int] == id@);
                assert(wanted.take(i + 1) =~= wanted.take(i as int).push(wanted[i as int]));
            }
            let last = if same_text(id.content(), "_") {
                None
            } else {
                match self.table.get_declared_in_current_scope(id.content()) {
                    Some(symbol) => Some(self.table.symbol(symbol).value.clone()),
                    None => None,
                }
            };
            named.push(last);
            proof {
                assert(optional_values(named@) =~= sofar.push(wanted[i as int]));
            }
            i = i + 1;
        }
        proof {
            assert(wanted.take(n as int) =~= wanted);
        }
        let at = self.ctx.log.pin(location);
        let outcome = match &self.table.function(function).outcome {
            Some(o) => Some(finalize_named_result_outcome(&self.ctx.branches, o, &named, &at)),
            None => None,
        };
        if let Some(o) = outcome {
            self.table.set_outcome(function, o);
        }
        leave_body(&mut self.ctx, &mut self.table, func, function);
        proof {
            assert(self.table@.functions =~= before.function_closed(
                func@,
                function,
                names,
                location,
            ).table.functions);
        }
        self.table.select_parent_scope();
        proof {
            assert(self@ =~= before.function_closed(func@, function, names, location));
        }
    }
}

} // verus!
