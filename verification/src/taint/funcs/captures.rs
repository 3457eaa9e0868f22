//! What functions capture from outer scopes.

use vstd::prelude::*;

use crate::functions::{FunctionModel, FunctionRef};
use crate::labels::backtraces::{placeholder, trace_of, LabelBacktrace, LabelBacktraceKind, Trace};
use crate::labels::tags::{LabelTag, SyntheticSlot};
use crate::labels::Label;
use crate::locations::{Location, Pinned, PinnedModel, Span, SpanModel};
use crate::ordered::{same, Ordered, OrderedMap};
use crate::symbols::table::packages::QualifiedSymbolResolutionResult;
use crate::symbols::table::{lemma_in_package_in_range, lemma_resolved_in_range, methods_of,
    SymbolTable, TableModel};
use crate::symbols::{Symbol, SymbolModel};
use crate::taint::funcs::captures::realization::{declarations_of, derive_hybrid_symbol_backtrace,
    environment_of, has_fallbacks, hybrid_symbol, Declaration};
use crate::values::{copy_type, FormModel, KeyModel, Value, ValueForm, ValueModel};

pub mod call_site;
pub mod collector;
pub mod realization;

verus! {

/// A symbol that a function captures.
#[derive(Debug)]
pub struct CaptureBinding {
    /// Where the captured symbol is declared.
    pub declaration: Pinned<Span>,
    /// The number of its placeholder.
    pub index: usize,
    /// The position of the symbol that stands for it in the function.
    pub local_symbol: usize,
    /// The position of the symbol of an iteration, if it is one.
    pub iteration_cell: Option<usize>,
    /// What the captured symbol carried when the function was declared, if that
    /// is known.
    pub hybrid_fallback: Option<Option<LabelBacktrace>>,
    /// What the function itself writes to it.
    pub mutation_backtrace: Option<LabelBacktrace>,
}

/// What a [`CaptureBinding`] stands for.
#[verifier::ext_equal]
pub struct CaptureModel {
    pub declaration: PinnedModel<SpanModel>,
    pub index: usize,
    pub local_symbol: usize,
    pub iteration_cell: Option<usize>,
    pub hybrid_fallback: Option<Option<Trace>>,
    pub mutation: Option<Trace>,
}

impl View for CaptureBinding {
    type V = CaptureModel;

    open spec fn view(&self) -> CaptureModel {
        CaptureModel {
            declaration: self.declaration@,
            index: self.index,
            local_symbol: self.local_symbol,
            iteration_cell: self.iteration_cell,
            hybrid_fallback: match self.hybrid_fallback {
                Some(b) => Some(trace_of(b)),
                None => None,
            },
            mutation: trace_of(self.mutation_backtrace),
        }
    }
}

/// What a list of captures stands for.
pub open spec fn captures_of(s: Seq<CaptureBinding>) -> Seq<CaptureModel> {
    s.map_values(|c: CaptureBinding| c@)
}

/// A name that a function refers to but does not declare.
#[derive(Debug)]
pub enum CapturedSymbol {
    /// A name alone.
    Unqualified(String),
    /// A name behind another one.
    Selection { base: String, selector: String },
}

/// What a [`CapturedSymbol`] stands for.
#[verifier::ext_equal]
pub enum ReferenceModel {
    Unqualified(Seq<char>),
    Selection { base: Seq<char>, selector: Seq<char> },
}

impl View for CapturedSymbol {
    type V = ReferenceModel;

    open spec fn view(&self) -> ReferenceModel {
        match self {
            CapturedSymbol::Unqualified(n) => ReferenceModel::Unqualified(n@),
            CapturedSymbol::Selection { base, selector } => ReferenceModel::Selection {
                base: base@,
                selector: selector@,
            },
        }
    }
}

/// What a list of references stands for.
pub open spec fn references_of(s: Seq<CapturedSymbol>) -> Seq<ReferenceModel> {
    s.map_values(|c: CapturedSymbol| c@)
}

/// The methods of types, by the names of both.
pub type MethodsModel = Map<Seq<char>, Map<Seq<char>, usize>>;

/// The symbol that a reference stands for, and whether the function refers to
/// it by its name alone.
pub open spec fn referenced_symbol(
    t: TableModel,
    methods: MethodsModel,
    c: ReferenceModel,
) -> Option<(usize, bool)> {
    match c {
        ReferenceModel::Unqualified(name) => match t.resolved(
            t.scopes[t.current as int].parent,
            name,
        ) {
            Some(s) => Some((s, true)),
            None => None,
        },
        ReferenceModel::Selection { base, selector } => match t.resolved(Some(t.current), base) {
            Some(b) => match t.symbols[b as int].value.declared_type {
                Some(ty) => if methods.dom().contains(ty.name) && methods[ty.name].dom().contains(
                    selector,
                ) {
                    Some((methods[ty.name][selector], false))
                } else {
                    None
                },
                None => None,
            },
            None => match t.qualified(base, selector) {
                QualifiedSymbolResolutionResult::Success(s) => Some((s, false)),
                _ => None,
            },
        },
    }
}

/// The captured symbols, and whether each gets a name in the function.
pub type Gathered = Map<Declaration, (usize, bool)>;

/// The captured symbols with one more. The first symbol stays if there was one
/// with the same declaration.
pub open spec fn gathering(
    m: Gathered,
    declaration: Declaration,
    symbol: usize,
    bind: bool,
) -> Gathered {
    if m.dom().contains(declaration) {
        m.insert(declaration, (m[declaration].0, m[declaration].1 || bind))
    } else {
        m.insert(declaration, (symbol, bind))
    }
}

/// The captured symbols with the first of those that are known by where they
/// are declared.
pub open spec fn gathering_declared(
    m: Gathered,
    definitions: Map<Declaration, usize>,
    declarations: Seq<Declaration>,
    n: int,
) -> Gathered
    decreases n,
{
    if n <= 0 {
        m
    } else {
        let before = gathering_declared(m, definitions, declarations, n - 1);
        let d = declarations[n - 1];
        if definitions.dom().contains(d) {
            gathering(before, d, definitions[d], false)
        } else {
            before
        }
    }
}

/// Where captured symbols are declared.
pub open spec fn declarations_captured(captures: Seq<CaptureModel>) -> Seq<Declaration> {
    captures.map_values(|c: CaptureModel| c.declaration)
}

/// The captured symbols with what a symbol adds to them: itself, if it can get
/// another value; what it captures, if it is a function.
pub open spec fn gathering_symbol(
    m: Gathered,
    t: TableModel,
    definitions: Map<Declaration, usize>,
    symbol: usize,
    bind: bool,
) -> Gathered {
    let s = t.symbols[symbol as int];
    if s.mutable {
        gathering(m, s.declared_name, symbol, bind)
    } else {
        match s.value.form {
            FormModel::Function(f) => if f < t.functions.len() {
                let ds = declarations_captured(t.functions[f as int].captures);
                gathering_declared(m, definitions, ds, ds.len() as int)
            } else {
                m
            },
            _ => m,
        }
    }
}

/// The captured symbols with what the first references add to them.
pub open spec fn gathering_referenced(
    m: Gathered,
    t: TableModel,
    methods: MethodsModel,
    definitions: Map<Declaration, usize>,
    references: Seq<ReferenceModel>,
    n: int,
) -> Gathered
    decreases n,
{
    if n <= 0 {
        m
    } else {
        let before = gathering_referenced(m, t, methods, definitions, references, n - 1);
        match referenced_symbol(t, methods, references[n - 1]) {
            Some((s, bind)) => gathering_symbol(before, t, definitions, s, bind),
            None => before,
        }
    }
}

/// All that a function captures: what it captured before, then what it refers
/// to. The first function of a program captures nothing.
pub open spec fn gathered(
    t: TableModel,
    methods: MethodsModel,
    definitions: Map<Declaration, usize>,
    is_main: bool,
    previous: Seq<Declaration>,
    references: Seq<ReferenceModel>,
) -> Gathered {
    if is_main {
        Map::<Declaration, (usize, bool)>::empty()
    } else {
        gathering_referenced(
            gathering_declared(
                Map::<Declaration, (usize, bool)>::empty(),
                definitions,
                previous,
                previous.len() as int,
            ),
            t,
            methods,
            definitions,
            references,
            references.len() as int,
        )
    }
}

/// Whether all captured symbols are symbols of a table.
pub open spec fn gathered_in(m: Gathered, t: TableModel) -> bool {
    forall|d: Declaration| #[trigger] m.dom().contains(d) ==> m[d].0 < t.symbols.len()
}

/// Whether all symbols that declarations stand for are symbols of a table.
pub open spec fn definitions_in(definitions: Map<Declaration, usize>, t: TableModel) -> bool {
    forall|d: Declaration| #[trigger]
        definitions.dom().contains(d) ==> definitions[d] < t.symbols.len()
}

/// Whether all methods are symbols of a table.
pub open spec fn methods_in(methods: MethodsModel, t: TableModel) -> bool {
    forall|ty: Seq<char>, n: Seq<char>|
        methods.dom().contains(ty) && #[trigger] methods[ty].dom().contains(n) ==> methods[ty][n]
            < t.symbols.len()
}

fn insert_capture(
    captures: &mut OrderedMap<Pinned<Span>, (usize, bool)>,
    declaration: &Pinned<Span>,
    symbol: usize,
    bind_in_function_scope: bool,
)
    ensures
        final(captures)@ == gathering(
            old(captures)@,
            declaration@,
            symbol,
            bind_in_function_scope,
        ),
{
    let entry = match captures.get(declaration) {
        Some((first, bind)) => (*first, *bind || bind_in_function_scope),
        None => (symbol, bind_in_function_scope),
    };
    captures.insert(declaration.duplicate(), entry);
}

fn insert_relayed(
    captures: &mut OrderedMap<Pinned<Span>, (usize, bool)>,
    definitions: &OrderedMap<Pinned<Span>, usize>,
    relayed: &Vec<CaptureBinding>,
)
    ensures
        final(captures)@ == gathering_declared(
            old(captures)@,
            definitions@,
            declarations_captured(captures_of(relayed@)),
            relayed@.len() as int,
        ),
{
    let ghost first = captures@;
    let ghost ds = declarations_captured(captures_of(relayed@));
    let n: usize = relayed.len();
    let mut i: usize = 0;
    while i < n
        invariant
            i <= n,
            n == relayed@.len(),
            ds == declarations_captured(captures_of(relayed@)),
            captures@ == gathering_declared(first, definitions@, ds, i as int),
        decreases n - i,
    {
        proof {
            assert(ds[i as int] == relayed@[i as int].declaration@);
        }
        if let Some(s) = definitions.get(&relayed[i].declaration) {
            insert_capture(captures, &relayed[i].declaration, *s, false);
        }
        i = i + 1;
    }
}

fn resolve_reference(
    table: &SymbolTable,
    methods: &OrderedMap<String, OrderedMap<String, usize>>,
    captured: &CapturedSymbol,
) -> (r: Option<(usize, bool)>)
    requires
        table@.wf(),
        methods_in(methods_of(methods@), table@),
    ensures
        r == referenced_symbol(table@, methods_of(methods@), captured@),
        r matches Some((s, _)) ==> s < table@.symbols.len(),
{
    match captured {
        CapturedSymbol::Unqualified(name) => {
            proof {
                lemma_resolved_in_range(
                    table@,
                    table@.scopes[table@.current as int].parent,
                    name@,
                );
            }
            match table.get_symbol_above_current_scope(name.as_str()) {
                Some(s) => Some((s, true)),
                None => None,
            }
        },
        CapturedSymbol::Selection { base, selector } => {
            proof {
                lemma_resolved_in_range(table@, Some(table@.current), base@);
            }
            match table.get_symbol(base.as_str()) {
                Some(b) => match &table.symbol(b).value.declared_type {
                    Some(ty) => match methods.get(&ty.name) {
                        Some(of_type) => match of_type.get(selector) {
                            Some(s) => {
                                proof {
                                    assert(methods_of(methods@).dom().contains(ty.name@));
                                    assert(methods_of(methods@)[ty.name@].dom().contains(
                                        selector@,
                                    ));
                                }
                                Some((*s, false))
                            },
                            None => None,
                        },
                        None => None,
                    },
                    None => None,
                },
                None => {
                    proof {
                        lemma_in_package_in_range(
                            table@,
                            table@.named_imports[base@],
                            selector@,
                        );
                    }
                    match table.get_qualified_symbol(base.as_str(), selector.as_str()) {
                        QualifiedSymbolResolutionResult::Success(s) => Some((s, false)),
                        _ => None,
                    }
                },
            }
        },
    }
}

/// Finds all that a function captures.
pub fn gather_captures(
    table: &SymbolTable,
    methods: &OrderedMap<String, OrderedMap<String, usize>>,
    definitions: &OrderedMap<Pinned<Span>, usize>,
    func: &FunctionRef,
    previous_captures: &Vec<Pinned<Span>>,
    referenced: &Vec<CapturedSymbol>,
) -> (r: OrderedMap<Pinned<Span>, (usize, bool)>)
    requires
        table@.wf(),
        methods_in(methods_of(methods@), table@),
        definitions_in(definitions@, table@),
    ensures
        gathered_in(r@, table@),
        r@ == gathered(
            table@,
            methods_of(methods@),
            definitions@,
            func@.is_main(),
            declarations_of(previous_captures@),
            references_of(referenced@),
        ),
{
    let mut captures: OrderedMap<Pinned<Span>, (usize, bool)> = OrderedMap::new();
    if func.is_main() {
        return captures;
    }
    let ghost nothing = Map::<Declaration, (usize, bool)>::empty();
    let ghost ds = declarations_of(previous_captures@);
    let n: usize = previous_captures.len();
    let mut i: usize = 0;
    while i < n
        invariant
            i <= n,
            n == previous_captures@.len(),
            ds == declarations_of(previous_captures@),
            definitions_in(definitions@, table@),
            gathered_in(captures@, table@),
            captures@ == gathering_declared(nothing, definitions@, ds, i as int),
        decreases n - i,
    {
        proof {
            assert(ds[i as int] == previous_captures@[i as int]@);
        }
        if let Some(s) = definitions.get(&previous_captures[i]) {
            insert_capture(&mut captures, &previous_captures[i], *s, false);
        }
        i = i + 1;
    }
    let ghost first = captures@;
    let ghost rs = references_of(referenced@);
    let m: usize = referenced.len();
    let mut j: usize = 0;
    while j < m
        invariant
            j <= m,
            m == referenced@.len(),
            rs == references_of(referenced@),
            table@.wf(),
            methods_in(methods_of(methods@), table@),
            definitions_in(definitions@, table@),
            gathered_in(captures@, table@),
            captures@ == gathering_referenced(
                first,
                table@,
                methods_of(methods@),
                definitions@,
                rs,
                j as int,
            ),
        decreases m - j,
    {
        proof {
            assert(rs[j as int] == referenced@[j as int]@);
        }
        if let Some((id, bind)) = resolve_reference(table, methods, &referenced[j]) {
            let symbol = table.symbol(id);
            if symbol.mutable {
                insert_capture(&mut captures, &symbol.declared_name, id, bind);
            } else {
                match &symbol.value.form {
                    ValueForm::Function(f) => {
                        if *f < table.function_count() {
                            let relayed = &table.function(*f).captures;
                            let ghost before = captures@;
                            insert_relayed(&mut captures, definitions, relayed);
                            proof {
                                lemma_gathered_in(
                                    before,
                                    table@,
                                    definitions@,
                                    declarations_captured(captures_of(relayed@)),
                                    relayed@.len() as int,
                                );
                            }
                        }
                    },
                    _ => {},
                }
            }
        }
        j = j + 1;
    }
    captures
}

proof fn lemma_gathered_in(
    m: Gathered,
    t: TableModel,
    definitions: Map<Declaration, usize>,
    declarations: Seq<Declaration>,
    n: int,
)
    requires
        gathered_in(m, t),
        definitions_in(definitions, t),
    ensures
        gathered_in(gathering_declared(m, definitions, declarations, n), t),
    decreases n,
{
    if n > 0 {
        lemma_gathered_in(m, t, definitions, declarations, n - 1);
    }
}

/// What a captured symbol carries in the function at first: its placeholder.
pub open spec fn capture_trace(
    func: FunctionModel,
    index: usize,
    name: Seq<char>,
    location: PinnedModel<Location>,
) -> Trace {
    Trace {
        kind: LabelBacktraceKind::ClosureCapture,
        label: set![placeholder(func, SyntheticSlot::Capture(index))],
        symbol: Some(name),
        location,
        children: Seq::<Trace>::empty(),
    }
}

impl ValueModel {
    /// A value of the same form and type, that carries nothing but a trace.
    pub open spec fn shape_with(self, t: Trace) -> ValueModel {
        ValueModel {
            key: KeyModel::Whole,
            form: self.form,
            own: Some(t),
            location: t.location,
            declared_type: self.declared_type,
            parts: Seq::<ValueModel>::empty(),
        }
    }
}

impl Value {
    /// A value of the same form and type, that carries nothing but a backtrace.
    pub fn copy_shape(&self, backtrace: LabelBacktrace) -> (r: Value)
        ensures
            r@ == self@.shape_with(backtrace@),
    {
        let location = backtrace.location().duplicate();
        let r = Value::new(
            self.form.clone(),
            Some(backtrace),
            location,
            copy_type(&self.declared_type),
            Vec::new(),
        );
        proof {
            assert(r@.parts =~= Seq::<ValueModel>::empty());
        }
        r
    }
}

/// The symbol that a captured one is read from: that of the current iteration,
/// if there is one.
pub open spec fn source_of(
    cells: Map<Declaration, usize>,
    declaration: Declaration,
    outer: usize,
) -> usize {
    if cells.dom().contains(declaration) {
        cells[declaration]
    } else {
        outer
    }
}

/// The table and what is known of the captured symbols, once the first of them
/// are registered. Each gets a symbol of its own in the function, which starts
/// with its placeholder; and a name there, if the function refers to it by
/// name.
pub open spec fn registered(
    t: TableModel,
    func: FunctionModel,
    location: PinnedModel<Location>,
    order: Seq<Declaration>,
    m: Gathered,
    cells: Map<Declaration, usize>,
    n: int,
) -> (TableModel, Seq<CaptureModel>)
    decreases n,
{
    if n <= 0 {
        (t, Seq::<CaptureModel>::empty())
    } else {
        let (before, captures) = registered(t, func, location, order, m, cells, n - 1);
        let d = order[n - 1];
        let index = (n - 1) as usize;
        let id = before.symbols.len() as usize;
        let local = SymbolModel {
            declared_name: d,
            mutable: true,
            value: before.symbols[source_of(cells, d, m[d].0) as int].value.shape_with(
                capture_trace(func, index, d.inner.content, location),
            ),
            known_const: None,
        };
        let added = TableModel { symbols: before.symbols.push(local), ..before };
        (
            if m[d].1 {
                added.declaring(d.inner.content, id)
            } else {
                added
            },
            captures.push(
                CaptureModel {
                    declaration: d,
                    index,
                    local_symbol: id,
                    iteration_cell: if cells.dom().contains(d) {
                        Some(cells[d])
                    } else {
                        None
                    },
                    hybrid_fallback: Some(None),
                    mutation: None,
                },
            ),
        )
    }
}

/// Registers what a function captures.
pub fn register_captures(
    table: &mut SymbolTable,
    func: &FunctionRef,
    location: &Pinned<Location>,
    captures: &OrderedMap<Pinned<Span>, (usize, bool)>,
    cells: &OrderedMap<Pinned<Span>, usize>,
) -> (r: Vec<CaptureBinding>)
    requires
        old(table)@.wf(),
        gathered_in(captures@, old(table)@),
        definitions_in(cells@, old(table)@),
    ensures
        final(table)@.wf(),
        (final(table)@, captures_of(r@)) == registered(
            old(table)@,
            func@,
            location@,
            captures.listing(),
            captures@,
            cells@,
            captures.listing().len() as int,
        ),
{
    let ghost first = table@;
    let ghost order = captures.listing();
    let mut bindings: Vec<CaptureBinding> = Vec::new();
    let n: usize = captures.len();
    let mut i: usize = 0;
    proof {
        assert(captures_of(bindings@) =~= Seq::<CaptureModel>::empty());
    }
    while i < n
        invariant
            i <= n,
            n == order.len(),
            order == captures.listing(),
            first == old(table)@,
            table@.wf(),
            table@.symbols.len() >= first.symbols.len(),
            gathered_in(captures@, first),
            definitions_in(cells@, first),
            (table@, captures_of(bindings@)) == registered(
                first,
                func@,
                location@,
                order,
                captures@,
                cells@,
                i as int,
            ),
        decreases n - i,
    {
        let declaration = captures.key_at(i);
        let (outer, bind) = *captures.value_at(i);
        let ghost d = declaration@;
        let ghost before = table@;
        let ghost known = captures_of(bindings@);
        let cell: Option<usize> = match cells.get(declaration) {
            Some(c) => Some(*c),
            None => None,
        };
        let source: usize = match cell {
            Some(c) => c,
            None => outer,
        };
        let tag = LabelTag::Synthetic {
            func: func.duplicate(),
            slot: SyntheticSlot::Capture(i),
            identifier: Some(declaration.inner().duplicate()),
        };
        let root = LabelBacktrace::new_root(
            LabelBacktraceKind::ClosureCapture,
            Label::from_single(tag),
            Some(declaration.content().to_owned()),
            location.duplicate(),
        );
        let local_value = match root {
            Some(b) => {
                proof {
                    assert(b@ =~= capture_trace(func@, i, d.inner.content, location@));
                }
                table.symbol(source).value.copy_shape(b)
            },
            None => {
                proof {
                    let tags = set![placeholder(func@, SyntheticSlot::Capture(i))];
                    assert(tags.contains(placeholder(func@, SyntheticSlot::Capture(i))));
                    assert(false);
                }
                vstd::pervasive::unreached()
            },
        };
        let id: usize = table.add_symbol(
            Symbol {
                declared_name: declaration.duplicate(),
                mutable: true,
                value: local_value,
                known_const: None,
            },
        );
        if bind {
            let _ = table.declare_new_symbol(declaration.content(), id);
        }
        bindings.push(
            CaptureBinding {
                declaration: declaration.duplicate(),
                index: i,
                local_symbol: id,
                iteration_cell: cell,
                hybrid_fallback: Some(None),
                mutation_backtrace: None,
            },
        );
        proof {
            let goal = registered(first, func@, location@, order, captures@, cells@, i + 1);
            assert(captures_of(bindings@) =~= known.push(bindings@.last()@));
            assert(captures_of(bindings@) =~= goal.1);
            assert(table@ =~= goal.0);
        }
        i = i + 1;
    }
    bindings
}

/// The symbol that stands for a captured one in the innermost of some functions
/// that captures it.
pub open spec fn captured_in(
    t: TableModel,
    active: Seq<usize>,
    declaration: Declaration,
) -> Option<usize>
    decreases active.len(),
{
    if active.len() == 0 {
        None
    } else {
        match local_for(t.functions[active[0] as int].captures, declaration) {
            Some(s) => Some(s),
            None => captured_in(t, active.skip(1), declaration),
        }
    }
}

/// The symbol that stands for a captured one among the symbols that a function
/// captures.
pub open spec fn local_for(captures: Seq<CaptureModel>, declaration: Declaration) -> Option<usize>
    decreases captures.len(),
{
    if captures.len() == 0 {
        None
    } else if captures[0].declaration == declaration {
        Some(captures[0].local_symbol)
    } else {
        local_for(captures.skip(1), declaration)
    }
}

fn find_local(captures: &Vec<CaptureBinding>, declaration: &Pinned<Span>) -> (r: Option<usize>)
    ensures
        r == local_for(captures_of(captures@), declaration@),
{
    let ghost cs = captures_of(captures@);
    let n: usize = captures.len();
    let mut i: usize = 0;
    proof {
        assert(cs.skip(0) =~= cs);
    }
    while i < n
        invariant
            i <= n,
            n == captures@.len(),
            cs == captures_of(captures@),
            local_for(cs, declaration@) == local_for(cs.skip(i as int), declaration@),
        decreases n - i,
    {
        proof {
            assert(cs.skip(i as int)[0] == captures@[i as int]@);
            assert(cs.skip(i as int).skip(1) =~= cs.skip(i + 1));
        }
        if same(&captures[i].declaration, declaration) {
            return Some(captures[i].local_symbol);
        }
        i = i + 1;
    }
    None
}

/// The symbol that stands for a captured one: that of the innermost active
/// function which captures it, or the captured one itself.
pub open spec fn symbol_captured(
    t: TableModel,
    active: Seq<usize>,
    declaration: Declaration,
) -> Option<usize> {
    match captured_in(t, active, declaration) {
        Some(s) => Some(s),
        None => t.declared_symbol(declaration),
    }
}

/// The symbol that a call of a function writes to for one that it captures.
pub open spec fn runtime_symbol(
    t: TableModel,
    active: Seq<usize>,
    c: CaptureModel,
) -> Option<usize> {
    match c.iteration_cell {
        Some(cell) => Some(cell),
        None => symbol_captured(t, active, c.declaration),
    }
}

/// The symbol that a declaration stands for where some functions are being
/// visited, the innermost first: the symbol that stands for it in one of them,
/// or else the declared one.
pub fn resolve_capture_symbol(
    table: &SymbolTable,
    active_functions: &Vec<usize>,
    declaration: &Pinned<Span>,
) -> (r: Option<usize>)
    requires
        table@.wf(),
        forall|i: int|
            0 <= i < active_functions@.len() ==> #[trigger] active_functions@[i]
                < table@.functions.len(),
    ensures
        r == symbol_captured(table@, active_functions@, declaration@),
{
    let ghost fs = active_functions@;
    let n: usize = active_functions.len();
    let mut i: usize = 0;
    proof {
        assert(fs.skip(0) =~= fs);
    }
    while i < n
        invariant
            i <= n,
            fs == active_functions@,
            n == fs.len(),
            forall|i: int|
                0 <= i < active_functions@.len() ==> #[trigger] active_functions@[i]
                    < table@.functions.len(),
            captured_in(table@, fs, declaration@) == captured_in(
                table@,
                fs.skip(i as int),
                declaration@,
            ),
        decreases n - i,
    {
        proof {
            assert(fs.skip(i as int)[0] == fs[i as int]);
            assert(fs.skip(i as int).skip(1) =~= fs.skip(i + 1));
        }
        if let Some(s) = find_local(&table.function(active_functions[i]).captures, declaration) {
            return Some(s);
        }
        i = i + 1;
    }
    table.find_declared_symbol(declaration)
}

/// The symbol to read and write where some functions are being visited, the
/// innermost first: one that can get another value is looked up again.
pub fn resolve_accessed_capture(
    table: &SymbolTable,
    active_functions: &Vec<usize>,
    symbol: usize,
) -> (r: Option<usize>)
    requires
        table@.wf(),
        symbol < table@.symbols.len(),
        forall|i: int|
            0 <= i < active_functions@.len() ==> #[trigger] active_functions@[i]
                < table@.functions.len(),
    ensures
        !table@.symbols[symbol as int].mutable ==> r == Some(symbol),
        table@.symbols[symbol as int].mutable ==> r == symbol_captured(
            table@,
            active_functions@,
            table@.symbols[symbol as int].declared_name,
        ),
{
    let accessed = table.symbol(symbol);
    if accessed.mutable {
        resolve_capture_symbol(table, active_functions, &accessed.declared_name)
    } else {
        Some(symbol)
    }
}

/// The symbol to which a call writes what a function wrote to a symbol that it
/// captures: that of an iteration, if it captured that one.
pub fn resolve_capture_runtime_symbol(
    table: &SymbolTable,
    active_functions: &Vec<usize>,
    binding: &CaptureBinding,
) -> (r: Option<usize>)
    requires
        table@.wf(),
        forall|i: int|
            0 <= i < active_functions@.len() ==> #[trigger] active_functions@[i]
                < table@.functions.len(),
    ensures
        r == runtime_symbol(table@, active_functions@, binding@),
{
    match binding.iteration_cell {
        Some(cell) => Some(cell),
        None => resolve_capture_symbol(table, active_functions, &binding.declaration),
    }
}

/// What is known of captured symbols once it is recorded what the first of them
/// carry now. Nothing is recorded of those that stand for nothing.
pub open spec fn with_fallbacks(
    captures: Seq<CaptureModel>,
    t: TableModel,
    definitions: Map<Declaration, usize>,
    n: int,
) -> Seq<CaptureModel> {
    Seq::new(
        captures.len(),
        |i: int|
            {
                let c = captures[i];
                let symbol = definition_of(c, definitions);
                if i < n && symbol is Some {
                    CaptureModel {
                        hybrid_fallback: Some(
                            hybrid_symbol(
                                t,
                                definitions,
                                Map::<Declaration, Option<Trace>>::empty(),
                                Seq::<Declaration>::empty(),
                                symbol->0,
                            ),
                        ),
                        ..c
                    }
                } else {
                    c
                }
            },
    )
}

/// The symbol that a captured one is read from where the function is declared.
pub open spec fn definition_of(c: CaptureModel, definitions: Map<Declaration, usize>) -> Option<
    usize,
> {
    match c.iteration_cell {
        Some(s) => Some(s),
        None => if definitions.dom().contains(c.declaration) {
            Some(definitions[c.declaration])
        } else {
            None
        },
    }
}

/// Records what captured symbols carry as the function is declared.
pub fn record_capture_fallbacks(
    table: &SymbolTable,
    definitions: &OrderedMap<Pinned<Span>, usize>,
    captures: Vec<CaptureBinding>,
) -> (r: Vec<CaptureBinding>)
    requires
        has_fallbacks(table@),
        definitions_in(definitions@, table@),
        forall|i: int|
            0 <= i < captures@.len() ==> ((#[trigger] captures@[i]).iteration_cell matches Some(c)
                ==> c < table@.symbols.len()),
    ensures
        captures_of(r@) == with_fallbacks(
            captures_of(captures@),
            table@,
            definitions@,
            captures@.len() as int,
        ),
{
    let ghost first = captures_of(captures@);
    let ghost all = captures@;
    let env: OrderedMap<Pinned<Span>, Option<LabelBacktrace>> = OrderedMap::new();
    proof {
        assert(environment_of(env@) =~= Map::<Declaration, Option<Trace>>::empty());
    }
    let mut left = captures;
    let mut r: Vec<CaptureBinding> = Vec::new();
    let n: usize = left.len();
    let mut i: usize = 0;
    proof {
        assert(all.skip(0) =~= all);
    }
    while i < n
        invariant
            i <= n,
            n == all.len(),
            all == captures@,
            first == captures_of(all),
            left@ == all.skip(i as int),
            has_fallbacks(table@),
            definitions_in(definitions@, table@),
            environment_of(env@) == Map::<Declaration, Option<Trace>>::empty(),
            forall|i: int|
                0 <= i < all.len() ==> ((#[trigger] all[i]).iteration_cell matches Some(c) ==> c
                    < table@.symbols.len()),
            r@.len() == i,
            forall|k: int|
                0 <= k < i ==> (#[trigger] r@[k])@ == with_fallbacks(
                    first,
                    table@,
                    definitions@,
                    n as int,
                )[k],
        decreases n - i,
    {
        let mut binding = left.remove(0);
        proof {
            assert(binding == all[i as int]);
            assert(left@ =~= all.skip(i + 1));
            assert(first[i as int] == binding@);
        }
        let symbol: Option<usize> = match binding.iteration_cell {
            Some(cell) => Some(cell),
            None => match definitions.get(&binding.declaration) {
                Some(s) => Some(*s),
                None => None,
            },
        };
        if let Some(s) = symbol {
            binding.hybrid_fallback = Some(
                derive_hybrid_symbol_backtrace(table, definitions, &env, s),
            );
        }
        proof {
            assert(binding@ =~= with_fallbacks(first, table@, definitions@, n as int)[i as int]);
        }
        r.push(binding);
        i = i + 1;
    }
    proof {
        assert(captures_of(r@) =~= with_fallbacks(first, table@, definitions@, n as int));
    }
    r
}

} // verus!
