//! Symbols and their scopes.

use vstd::prelude::*;

use crate::locations::{Pinned, PinnedModel, Span, SpanModel};
use crate::ordered::OrderedMap;
use crate::policy::targets::SimpleConstValue;
use crate::taint::funcs::{FunctionSummary, SummaryModel};
use crate::values::{Value, ValueModel};

pub mod table;
pub mod universe;

verus! {

/// A symbol.
#[derive(Debug)]
pub struct Symbol {
    /// The name, where it is declared.
    pub declared_name: Pinned<Span>,
    /// Whether it can get another value.
    pub mutable: bool,
    /// Its value.
    pub value: Value,
    /// What it is known to be, if it is a constant.
    pub known_const: Option<SimpleConstValue>,
}

/// What a [`Symbol`] stands for.
#[verifier::ext_equal]
pub struct SymbolModel {
    pub declared_name: PinnedModel<SpanModel>,
    pub mutable: bool,
    pub value: ValueModel,
    pub known_const: Option<Seq<char>>,
}

/// What a constant is known to be.
pub open spec fn const_of(c: Option<SimpleConstValue>) -> Option<Seq<char>> {
    match c {
        Some(v) => Some(v.text@),
        None => None,
    }
}

impl View for Symbol {
    type V = SymbolModel;

    open spec fn view(&self) -> SymbolModel {
        SymbolModel {
            declared_name: self.declared_name@,
            mutable: self.mutable,
            value: self.value@,
            known_const: const_of(self.known_const),
        }
    }
}

/// What a list of symbols stands for.
pub open spec fn symbols_of(s: Seq<Symbol>) -> Seq<SymbolModel> {
    s.map_values(|x: Symbol| x@)
}

/// What a list of functions stands for.
pub open spec fn summaries_of(s: Seq<FunctionSummary>) -> Seq<SummaryModel> {
    s.map_values(|x: FunctionSummary| x@)
}

/// A block in which names are declared.
#[derive(Debug)]
pub struct Scope {
    /// The names, with the positions of their symbols.
    pub symbols: OrderedMap<String, usize>,
    /// The position of the scope around it.
    pub parent: Option<usize>,
    /// The positions of the scopes in it.
    pub children: Vec<usize>,
}

/// What a [`Scope`] stands for.
#[verifier::ext_equal]
pub struct ScopeModel {
    pub symbols: Map<Seq<char>, usize>,
    pub parent: Option<usize>,
    pub children: Seq<usize>,
}

impl View for Scope {
    type V = ScopeModel;

    open spec fn view(&self) -> ScopeModel {
        ScopeModel { symbols: self.symbols@, parent: self.parent, children: self.children@ }
    }
}

} // verus!
