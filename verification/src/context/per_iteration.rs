//! The variables that each iteration of a loop has for itself.
//!
//! A function literal in the body of a loop captures the variable of its own
//! iteration. There is one cell for each way through the branches of the body;
//! what is written on one of them reaches the cells of those that may belong
//! to the same iteration.

use vstd::prelude::*;

use crate::labels::backtraces::LabelBacktraceKind;
use crate::locations::{Pinned, PinnedModel, Span, SpanModel};
use crate::ordered::{same_text, Ordered, OrderedMap};
use crate::policy::targets::SimpleConstValue;
use crate::symbols::table::{SymbolTable, TableModel};
use crate::symbols::{const_of, Symbol, SymbolModel};
use crate::values::{merged, values_agree};

verus! {

/// The symbol for one way through the branches of a loop.
#[derive(Debug)]
pub struct IterationCell {
    /// The arms that were taken, from the outermost branch inwards.
    pub path: Vec<usize>,
    /// The position of the symbol.
    pub symbol: usize,
}

/// What an [`IterationCell`] stands for.
#[verifier::ext_equal]
pub struct CellModel {
    pub path: Seq<usize>,
    pub symbol: usize,
}

impl View for IterationCell {
    type V = CellModel;

    open spec fn view(&self) -> CellModel {
        CellModel { path: self.path@, symbol: self.symbol }
    }
}

/// What a list of cells stands for.
pub open spec fn cells_of(s: Seq<IterationCell>) -> Seq<CellModel> {
    s.map_values(|c: IterationCell| c@)
}

/// A variable that each iteration has for itself.
#[derive(Debug)]
pub struct PerIterationBinding {
    source: usize,
    cells: Vec<IterationCell>,
}

/// What a [`PerIterationBinding`] stands for.
#[verifier::ext_equal]
pub struct BindingModel {
    /// The symbol of the variable.
    pub source: usize,
    /// The cells.
    pub cells: Seq<CellModel>,
}

impl View for PerIterationBinding {
    type V = BindingModel;

    closed spec fn view(&self) -> BindingModel {
        BindingModel { source: self.source, cells: cells_of(self.cells@) }
    }
}

/// A symbol once another one is copied to it.
pub open spec fn overwritten(target: SymbolModel, source: SymbolModel) -> SymbolModel {
    SymbolModel { value: source.value, known_const: source.known_const, ..target }
}

/// A symbol once it may also be another one.
pub open spec fn either(target: SymbolModel, source: SymbolModel) -> SymbolModel {
    if values_agree(target.value, source.value, true) && target.known_const == source.known_const {
        target
    } else {
        SymbolModel {
            value: merged(
                target.value,
                source.value,
                LabelBacktraceKind::ClosureCaptureBinding,
                target.value.location,
            ),
            known_const: if target.known_const == source.known_const {
                target.known_const
            } else {
                None
            },
            ..target
        }
    }
}

/// What a cell is, once something was written on a way: the same, if the write
/// comes before or at the point that it stands for; either, if it comes later.
pub open spec fn reached(
    cell: CellModel,
    path: Seq<usize>,
    symbol: SymbolModel,
    current: SymbolModel,
) -> SymbolModel {
    if path.is_prefix_of(cell.path) {
        overwritten(symbol, current)
    } else if cell.path.is_prefix_of(path) {
        either(symbol, current)
    } else {
        symbol
    }
}

/// All symbols once a write has reached the first cells.
pub open spec fn propagated(
    symbols: Seq<SymbolModel>,
    cells: Seq<CellModel>,
    path: Seq<usize>,
    current: SymbolModel,
    n: int,
) -> Seq<SymbolModel>
    decreases n,
{
    if n <= 0 {
        symbols
    } else {
        let before = propagated(symbols, cells, path, current, n - 1);
        let c = cells[n - 1];
        before.update(
            c.symbol as int,
            reached(c, path, before[c.symbol as int], current),
        )
    }
}

/// Whether there is a cell for a way.
pub open spec fn has_cell(cells: Seq<CellModel>, path: Seq<usize>) -> bool {
    exists|i: int| 0 <= i < cells.len() && (#[trigger] cells[i]).path == path
}

/// Whether one of two ways begins with the other.
pub open spec fn are_compatible(a: Seq<usize>, b: Seq<usize>) -> bool {
    a.is_prefix_of(b) || b.is_prefix_of(a)
}

/// The cells, up to a position, for ways of which one begins with the other.
pub open spec fn compatible(cells: Seq<CellModel>, path: Seq<usize>, n: int) -> Seq<usize>
    decreases n,
{
    if n <= 0 {
        Seq::<usize>::empty()
    } else {
        let before = compatible(cells, path, n - 1);
        if are_compatible(cells[n - 1].path, path) {
            before.push(cells[n - 1].symbol)
        } else {
            before
        }
    }
}

/// A symbol that may be any of several.
pub open spec fn any_of(symbols: Seq<SymbolModel>, ids: Seq<usize>) -> SymbolModel
    decreases ids.len(),
{
    if ids.len() <= 1 {
        symbols[ids[0] as int]
    } else {
        either(any_of(symbols, ids.drop_last()), symbols[ids.last() as int])
    }
}

impl BindingModel {
    /// Whether the binding belongs to a table: there is an initial cell, for
    /// the beginning of all ways that lead to another one, and all symbols are
    /// in the table.
    pub open spec fn fits(self, symbols: nat) -> bool {
        &&& self.source < symbols
        &&& self.cells.len() > 0
        &&& forall|i: int|
            0 <= i < self.cells.len() ==> (#[trigger] self.cells[i]).symbol < symbols
    }

    /// The position of the first cell for a way; the number of cells if there
    /// is none.
    pub open spec fn cell_at(self, path: Seq<usize>, from: int) -> int
        decreases self.cells.len() - from,
    {
        if from >= self.cells.len() {
            self.cells.len() as int
        } else if self.cells[from].path == path {
            from
        } else {
            self.cell_at(path, from + 1)
        }
    }
}

fn is_prefix(a: &Vec<usize>, b: &Vec<usize>) -> (r: bool)
    ensures
        r == a@.is_prefix_of(b@),
{
    let n: usize = a.len();
    if n > b.len() {
        return false;
    }
    let mut i: usize = 0;
    while i < n
        invariant
            i <= n,
            n == a@.len(),
            n <= b@.len(),
            forall|k: int| 0 <= k < i ==> a@[k] == b@[k],
        decreases n - i,
    {
        if a[i] != b[i] {
            proof {
                if a@.is_prefix_of(b@) {
                    assert(b@.subrange(0, n as int)[i as int] == a@[i as int]);
                }
            }
            return false;
        }
        i = i + 1;
    }
    proof {
        assert(b@.subrange(0, n as int) =~= a@);
    }
    true
}

fn copy_path(path: &Vec<usize>) -> (r: Vec<usize>)
    ensures
        r@ == path@,
{
    let mut r: Vec<usize> = Vec::new();
    let n: usize = path.len();
    let mut i: usize = 0;
    while i < n
        invariant
            i <= n,
            n == path@.len(),
            r@ == path@.take(i as int),
        decreases n - i,
    {
        r.push(path[i]);
        proof {
            assert(r@ =~= path@.take(i + 1));
        }
        i = i + 1;
    }
    proof {
        assert(path@.take(n as int) =~= path@);
    }
    r
}

fn copy_const(c: &Option<SimpleConstValue>) -> (r: Option<SimpleConstValue>)
    ensures
        const_of(r) == const_of(*c),
{
    match c {
        Some(v) => Some(SimpleConstValue { text: v.text.clone() }),
        None => None,
    }
}

fn same_const(a: &Option<SimpleConstValue>, b: &Option<SimpleConstValue>) -> (r: bool)
    ensures
        r == (const_of(*a) == const_of(*b)),
{
    match (a, b) {
        (Some(x), Some(y)) => same_text(x.text.as_str(), y.text.as_str()),
        (None, None) => true,
        _ => false,
    }
}

fn copy_symbol(table: &SymbolTable, id: usize) -> (r: Symbol)
    requires
        id < table@.symbols.len(),
    ensures
        r@ == table@.symbols[id as int],
{
    let symbol = table.symbol(id);
    Symbol {
        declared_name: symbol.declared_name.duplicate(),
        mutable: symbol.mutable,
        value: symbol.value.clone(),
        known_const: copy_const(&symbol.known_const),
    }
}

fn overwrite_symbol(table: &mut SymbolTable, source: usize, target: usize)
    requires
        old(table)@.wf(),
        source < old(table)@.symbols.len(),
        target < old(table)@.symbols.len(),
    ensures
        final(table)@.wf(),
        final(table)@ == (TableModel {
            symbols: old(table)@.symbols.update(
                target as int,
                overwritten(
                    old(table)@.symbols[target as int],
                    old(table)@.symbols[source as int],
                ),
            ),
            ..old(table)@
        }),
{
    let symbol = copy_symbol(table, source);
    table.set_value(target, symbol.value, symbol.known_const);
}

fn merge_symbol(table: &mut SymbolTable, source: usize, target: usize)
    requires
        old(table)@.wf(),
        source < old(table)@.symbols.len(),
        target < old(table)@.symbols.len(),
    ensures
        final(table)@.wf(),
        final(table)@ == (TableModel {
            symbols: old(table)@.symbols.update(
                target as int,
                either(old(table)@.symbols[target as int], old(table)@.symbols[source as int]),
            ),
            ..old(table)@
        }),
{
    let ghost before = table@;
    let a = copy_symbol(table, target);
    let b = copy_symbol(table, source);
    let agree = same_const(&a.known_const, &b.known_const);
    if a.value.agrees_with(&b.value) && agree {
        proof {
            assert(before.symbols.update(target as int, before.symbols[target as int])
                =~= before.symbols);
        }
        return;
    }
    let merged_value = a.value.merge_with(
        &b.value,
        LabelBacktraceKind::ClosureCaptureBinding,
        &a.value.location,
    );
    let known_const = if agree {
        a.known_const
    } else {
        None
    };
    table.set_value(target, merged_value, known_const);
}

impl PerIterationBinding {
    /// A variable with one cell, for the way on which it is declared.
    pub fn new(table: &mut SymbolTable, source: usize, path: Vec<usize>) -> (r: Self)
        requires
            old(table)@.wf(),
            source < old(table)@.symbols.len(),
        ensures
            final(table)@.wf(),
            final(table)@ == (TableModel {
                symbols: old(table)@.symbols.push(old(table)@.symbols[source as int]),
                ..old(table)@
            }),
            r@ == (BindingModel {
                source,
                cells: seq![
                    CellModel { path: path@, symbol: old(table)@.symbols.len() as usize },
                ],
            }),
            r@.fits(final(table)@.symbols.len()),
    {
        let copy = copy_symbol(table, source);
        let id: usize = table.add_symbol(copy);
        let mut cells: Vec<IterationCell> = Vec::new();
        let cell = IterationCell { path, symbol: id };
        let ghost m = cell@;
        cells.push(cell);
        proof {
            assert(cells_of(cells@) =~= seq![m]);
        }
        PerIterationBinding { source, cells }
    }

    /// Whether this is the variable of a symbol.
    pub fn tracks(&self, symbol: usize) -> (r: bool)
        ensures
            r == (self@.source == symbol),
    {
        self.source == symbol
    }

    /// The position of the symbol for a way, which is made if there is none
    /// yet: it may then be any of those that may belong to the same iteration.
    pub fn capture_cell(&mut self, table: &mut SymbolTable, path: Vec<usize>) -> (r: usize)
        requires
            old(table)@.wf(),
            old(self)@.fits(old(table)@.symbols.len()),
            compatible(old(self)@.cells, path@, old(self)@.cells.len() as int).len() > 0,
        ensures
            final(table)@.wf(),
            final(self)@.fits(final(table)@.symbols.len()),
            ({
                let at = old(self)@.cell_at(path@, 0);
                if at < old(self)@.cells.len() {
                    &&& *final(self) == *old(self)
                    &&& final(table)@ == old(table)@
                    &&& r == old(self)@.cells[at].symbol
                } else {
                    let ids = compatible(
                        old(self)@.cells,
                        path@,
                        old(self)@.cells.len() as int,
                    );
                    &&& r == old(table)@.symbols.len()
                    &&& final(table)@ == (TableModel {
                        symbols: old(table)@.symbols.push(any_of(old(table)@.symbols, ids)),
                        ..old(table)@
                    })
                    &&& final(self)@ == (BindingModel {
                        cells: old(self)@.cells.push(CellModel { path: path@, symbol: r }),
                        ..old(self)@
                    })
                }
            }),
    {
        let ghost start = table@;
        let ghost cells = self@.cells;
        let n: usize = self.cells.len();
        proof {
            assert(cells.len() == n);
        }
        let mut i: usize = 0;
        while i < n
            invariant
                i <= n,
                n == self.cells@.len(),
                cells == self@.cells,
                cells == cells_of(self.cells@),
                *self == *old(self),
                *table == *old(table),
                table@.wf(),
                self@.fits(table@.symbols.len()),
                self@.cell_at(path@, 0) == self@.cell_at(path@, i as int),
            decreases n - i,
        {
            proof {
                assert(cells[i as int] == self.cells@[i as int]@);
            }
            if same_path(&self.cells[i].path, &path) {
                return self.cells[i].symbol;
            }
            i = i + 1;
        }
        let mut f: usize = 0;
        while f < n && !(is_prefix(&self.cells[f].path, &path) || is_prefix(
            &path,
            &self.cells[f].path,
        ))
            invariant
                f <= n,
                n == self.cells@.len(),
                cells == cells_of(self.cells@),
                compatible(cells, path@, f as int) == Seq::<usize>::empty(),
            decreases n - f,
        {
            proof {
                assert(cells[f as int] == self.cells@[f as int]@);
            }
            f = f + 1;
        }
        proof {
            assert(f < n);
            assert(cells[f as int] == self.cells@[f as int]@);
        }
        let first: usize = self.cells[f].symbol;
        proof {
            assert(compatible(cells, path@, f + 1) =~= seq![first]);
        }
        let copy = copy_symbol(table, first);
        let id: usize = table.add_symbol(copy);
        let mut j: usize = f + 1;
        while j < n
            invariant
                1 <= j <= n,
                n == self.cells@.len(),
                cells == cells_of(self.cells@),
                *self == *old(self),
                start.wf(),
                table@.wf(),
                id == start.symbols.len(),
                forall|k: int| 0 <= k < cells.len() ==> (#[trigger] cells[k]).symbol < id,
                compatible(cells, path@, j as int).len() > 0,
                forall|k: int|
                    0 <= k < compatible(cells, path@, j as int).len() ==> #[trigger] compatible(
                        cells,
                        path@,
                        j as int,
                    )[k] < id,
                table@ == (TableModel {
                    symbols: start.symbols.push(
                        any_of(start.symbols, compatible(cells, path@, j as int)),
                    ),
                    ..start
                }),
            decreases n - j,
        {
            let ghost sofar = compatible(cells, path@, j as int);
            let cell = &self.cells[j];
            proof {
                assert(cells[j as int] == cell@);
            }
            if is_prefix(&cell.path, &path) || is_prefix(&path, &cell.path) {
                let source: usize = cell.symbol;
                merge_symbol(table, source, id);
                proof {
                    let more = sofar.push(source);
                    assert(compatible(cells, path@, j + 1) == more);
                    assert(more.drop_last() =~= sofar);
                    assert(any_of(start.symbols, more) == either(
                        any_of(start.symbols, sofar),
                        start.symbols[source as int],
                    ));
                    assert(table@.symbols =~= start.symbols.push(any_of(start.symbols, more)));
                }
            }
            j = j + 1;
        }
        let cell = IterationCell { path, symbol: id };
        let ghost m = cell@;
        self.cells.push(cell);
        proof {
            assert(self@.cells =~= cells.push(m));
            assert forall|k: int| 0 <= k < self@.cells.len() implies (#[trigger] self@.cells[k]).symbol
                < table@.symbols.len() by {
                if k < cells.len() {
                    assert(self@.cells[k] == cells[k]);
                }
            }
        }
        id
    }

    /// Takes note of the value of the variable on a way.
    pub fn record_value(&mut self, table: &mut SymbolTable, path: &Vec<usize>)
        requires
            old(table)@.wf(),
            old(self)@.fits(old(table)@.symbols.len()),
        ensures
            final(table)@.wf(),
            final(self)@.fits(final(table)@.symbols.len()),
            final(table)@ == old(table)@.with_write(
                old(self)@.cells,
                path@,
                old(table)@.symbols[old(self)@.source as int],
            ),
            final(self)@ == old(self)@.with_write(path@, old(table)@.symbols.len() as usize),
    {
        let copy = copy_symbol(table, self.source);
        self.propagate_value(table, path, copy);
    }

    /// Takes note of the value of a cell.
    pub fn record_cell_value(&mut self, table: &mut SymbolTable, symbol: usize)
        requires
            old(table)@.wf(),
            old(self)@.fits(old(table)@.symbols.len()),
            symbol < old(table)@.symbols.len(),
        ensures
            final(table)@.wf(),
            final(self)@.fits(final(table)@.symbols.len()),
            match old(self)@.way_of(symbol, 0) {
                Some(path) => {
                    &&& final(table)@ == old(table)@.with_write(
                        old(self)@.cells,
                        path,
                        old(table)@.symbols[symbol as int],
                    )
                    &&& final(self)@ == old(self)@.with_write(
                        path,
                        old(table)@.symbols.len() as usize,
                    )
                },
                None => final(table)@ == old(table)@ && *final(self) == *old(self),
            },
    {
        let ghost cells = self@.cells;
        let n: usize = self.cells.len();
        let mut i: usize = 0;
        while i < n
            invariant
                i <= n,
                n == self.cells@.len(),
                cells == self@.cells,
                cells == cells_of(self.cells@),
                *self == *old(self),
                *table == *old(table),
                table@.wf(),
                self@.fits(table@.symbols.len()),
                symbol < table@.symbols.len(),
                self@.way_of(symbol, 0) == self@.way_of(symbol, i as int),
            decreases n - i,
        {
            proof {
                assert(cells[i as int] == self.cells@[i as int]@);
            }
            if self.cells[i].symbol == symbol {
                let path = copy_path(&self.cells[i].path);
                let copy = copy_symbol(table, symbol);
                self.propagate_value(table, &path, copy);
                return;
            }
            i = i + 1;
        }
    }

    fn propagate_value(&mut self, table: &mut SymbolTable, path: &Vec<usize>, current: Symbol)
        requires
            old(table)@.wf(),
            old(self)@.fits(old(table)@.symbols.len()),
        ensures
            final(table)@.wf(),
            final(self)@.fits(final(table)@.symbols.len()),
            final(table)@ == old(table)@.with_write(old(self)@.cells, path@, current@),
            final(self)@ == old(self)@.with_write(path@, old(table)@.symbols.len() as usize),
    {
        let ghost cells = self@.cells;
        let ghost cm = current@;
        let id: usize = table.add_symbol(current);
        let ghost start = table@;
        let mut found_exact = false;
        let n: usize = self.cells.len();
        let mut i: usize = 0;
        while i < n
            invariant
                i <= n,
                n == self.cells@.len(),
                n == cells.len(),
                cells == cells_of(self.cells@),
                *self == *old(self),
                table@.wf(),
                start.symbols.len() == id + 1,
                start.symbols[id as int] == cm,
                forall|k: int| 0 <= k < cells.len() ==> (#[trigger] cells[k]).symbol < id,
                found_exact == exists|k: int| 0 <= k < i && (#[trigger] cells[k]).path == path@,
                table@.symbols.len() == start.symbols.len(),
                table@.symbols[id as int] == cm,
                table@ == (TableModel {
                    symbols: propagated(start.symbols, cells, path@, cm, i as int),
                    ..start
                }),
            decreases n - i,
        {
            let cell = &self.cells[i];
            let target: usize = cell.symbol;
            let ghost before = table@.symbols;
            proof {
                assert(cells[i as int] == cell@);
            }
            if same_path(&cell.path, path) {
                found_exact = true;
            }
            if is_prefix(path, &cell.path) {
                overwrite_symbol(table, id, target);
            } else if is_prefix(&cell.path, path) {
                merge_symbol(table, id, target);
            } else {
                proof {
                    assert(before.update(target as int, before[target as int]) =~= before);
                }
            }
            i = i + 1;
        }
        if !found_exact {
            let cell = IterationCell { path: copy_path(path), symbol: id };
            let ghost m = cell@;
            self.cells.push(cell);
            proof {
                assert(self@.cells =~= cells.push(m));
                assert forall|k: int| 0 <= k < self@.cells.len() implies (
                #[trigger] self@.cells[k]).symbol < table@.symbols.len() by {
                    if k < cells.len() {
                        assert(self@.cells[k] == cells[k]);
                    }
                }
            }
        }
    }
}

fn same_path(a: &Vec<usize>, b: &Vec<usize>) -> (r: bool)
    ensures
        r == (a@ == b@),
{
    let r = a.len() == b.len() && is_prefix(a, b);
    proof {
        if r {
            assert(b@.subrange(0, b@.len() as int) =~= b@);
        }
        if a@ == b@ {
            assert(b@.subrange(0, b@.len() as int) =~= b@);
        }
    }
    r
}

impl TableModel {
    /// The table once something is written on a way: a symbol is added for it,
    /// and it reaches the cells.
    pub open spec fn with_write(
        self,
        cells: Seq<CellModel>,
        path: Seq<usize>,
        current: SymbolModel,
    ) -> TableModel {
        TableModel {
            symbols: propagated(
                self.symbols.push(current),
                cells,
                path,
                current,
                cells.len() as int,
            ),
            ..self
        }
    }
}

impl BindingModel {
    /// The binding once something is written on a way: there is then a cell for
    /// it.
    pub open spec fn with_write(self, path: Seq<usize>, symbol: usize) -> BindingModel {
        if has_cell(self.cells, path) {
            self
        } else {
            BindingModel { cells: self.cells.push(CellModel { path, symbol }), ..self }
        }
    }

    /// The way of the first cell, from a position on, with a symbol.
    pub open spec fn way_of(self, symbol: usize, from: int) -> Option<Seq<usize>>
        decreases self.cells.len() - from,
    {
        if from >= self.cells.len() {
            None
        } else if self.cells[from].symbol == symbol {
            Some(self.cells[from].path)
        } else {
            self.way_of(symbol, from + 1)
        }
    }
}

/// The variables that each iteration has for itself, by their declarations.
#[derive(Debug)]
pub struct PerIterationBindings(OrderedMap<Pinned<Span>, PerIterationBinding>);

impl View for PerIterationBindings {
    type V = Map<PinnedModel<SpanModel>, BindingModel>;

    closed spec fn view(&self) -> Map<PinnedModel<SpanModel>, BindingModel> {
        self.0@.map_values(|b: PerIterationBinding| b@)
    }
}

/// Whether all bindings belong to a table.
pub open spec fn all_fit(
    bindings: Map<PinnedModel<SpanModel>, BindingModel>,
    symbols: nat,
) -> bool {
    forall|d: PinnedModel<SpanModel>| #[trigger]
        bindings.dom().contains(d) ==> bindings[d].fits(symbols)
}

/// Whether there is a binding for a symbol.
pub open spec fn is_tracked(
    bindings: Map<PinnedModel<SpanModel>, BindingModel>,
    symbols: Seq<SymbolModel>,
    symbol: usize,
) -> bool {
    let d = symbols[symbol as int].declared_name;
    bindings.dom().contains(d) && bindings[d].source == symbol
}

impl PerIterationBindings {
    /// No variables.
    pub fn new() -> (r: Self)
        ensures
            r@ == Map::<PinnedModel<SpanModel>, BindingModel>::empty(),
    {
        let r = PerIterationBindings(OrderedMap::new());
        proof {
            assert(r@ =~= Map::<PinnedModel<SpanModel>, BindingModel>::empty());
        }
        r
    }

    /// Takes note that a variable is declared, again or for the first time, in
    /// the body of a loop.
    pub fn register(&mut self, table: &mut SymbolTable, symbol: usize, path: Vec<usize>)
        requires
            old(table)@.wf(),
            symbol < old(table)@.symbols.len(),
            all_fit(old(self)@, old(table)@.symbols.len()),
        ensures
            final(table)@.wf(),
            all_fit(final(self)@, final(table)@.symbols.len()),
            ({
                let d = old(table)@.symbols[symbol as int].declared_name;
                if is_tracked(old(self)@, old(table)@.symbols, symbol) {
                    &&& final(table)@ == old(table)@.with_write(
                        old(self)@[d].cells,
                        path@,
                        old(table)@.symbols[symbol as int],
                    )
                    &&& final(self)@ == old(self)@.insert(
                        d,
                        old(self)@[d].with_write(path@, old(table)@.symbols.len() as usize),
                    )
                } else {
                    &&& final(table)@ == (TableModel {
                        symbols: old(table)@.symbols.push(old(table)@.symbols[symbol as int]),
                        ..old(table)@
                    })
                    &&& final(self)@ == old(self)@.insert(
                        d,
                        BindingModel {
                            source: symbol,
                            cells: seq![
                                CellModel {
                                    path: path@,
                                    symbol: old(table)@.symbols.len() as usize,
                                },
                            ],
                        },
                    )
                }
            }),
    {
        let ghost before = self@;
        let ghost start = table@;
        let declaration = table.symbol(symbol).declared_name.duplicate();
        let ghost d = declaration@;
        let held = self.0.remove(&declaration);
        let binding = match held {
            Some(mut binding) => {
                proof {
                    assert(before.dom().contains(d));
                    assert(before[d] == binding@);
                }
                if binding.tracks(symbol) {
                    binding.record_value(table, &path);
                    binding
                } else {
                    PerIterationBinding::new(table, symbol, path)
                }
            },
            None => PerIterationBinding::new(table, symbol, path),
        };
        let ghost b = binding@;
        self.0.insert(declaration, binding);
        proof {
            assert(self@ =~= before.insert(d, b));
            if is_tracked(before, start.symbols, symbol) {
                assert(before[d].fits(start.symbols.len()));
                lemma_propagated_length(
                    start.symbols.push(start.symbols[symbol as int]),
                    before[d].cells,
                    path@,
                    start.symbols[symbol as int],
                    before[d].cells.len() as int,
                );
            }
            lemma_still_fit(before, start.symbols.len(), table@.symbols.len());
        }
    }

    /// Whether a symbol is a variable that each iteration has for itself.
    pub fn contains(&self, table: &SymbolTable, symbol: usize) -> (r: bool)
        requires
            symbol < table@.symbols.len(),
        ensures
            r == is_tracked(self@, table@.symbols, symbol),
    {
        match self.0.get(&table.symbol(symbol).declared_name) {
            Some(binding) => {
                proof {
                    let d = table@.symbols[symbol as int].declared_name;
                    assert(self@.dom().contains(d));
                    assert(self@[d] == binding@);
                }
                binding.tracks(symbol)
            },
            None => false,
        }
    }
}

proof fn lemma_propagated_length(
    symbols: Seq<SymbolModel>,
    cells: Seq<CellModel>,
    path: Seq<usize>,
    current: SymbolModel,
    n: int,
)
    requires
        0 <= n <= cells.len(),
        forall|k: int| 0 <= k < cells.len() ==> (#[trigger] cells[k]).symbol < symbols.len(),
    ensures
        propagated(symbols, cells, path, current, n).len() == symbols.len(),
    decreases n,
{
    if n > 0 {
        assert(cells[n - 1].symbol < symbols.len());
        lemma_propagated_length(symbols, cells, path, current, n - 1);
    }
}

proof fn lemma_still_fit(
    bindings: Map<PinnedModel<SpanModel>, BindingModel>,
    few: nat,
    many: nat,
)
    requires
        all_fit(bindings, few),
        few <= many,
    ensures
        all_fit(bindings, many),
{
    assert forall|d: PinnedModel<SpanModel>| #[trigger]
        bindings.dom().contains(d) implies bindings[d].fits(many) by {
        assert(bindings[d].fits(few));
    }
}

/// What is written on a way reaches no cell of a way that has parted from it.
pub proof fn law_writes_stay_on_their_way(
    symbols: Seq<SymbolModel>,
    cells: Seq<CellModel>,
    path: Seq<usize>,
    current: SymbolModel,
    n: int,
    id: int,
)
    requires
        0 <= n <= cells.len(),
        0 <= id < symbols.len(),
        forall|k: int|
            0 <= k < n ==> (#[trigger] cells[k]).symbol < symbols.len() && (cells[k].symbol == id
                ==> !are_compatible(cells[k].path, path)),
    ensures
        propagated(symbols, cells, path, current, n)[id] == symbols[id],
        propagated(symbols, cells, path, current, n).len() == symbols.len(),
    decreases n,
{
    if n > 0 {
        law_writes_stay_on_their_way(symbols, cells, path, current, n - 1, id);
        assert(cells[n - 1].symbol < symbols.len());
    }
}

} // verus!
