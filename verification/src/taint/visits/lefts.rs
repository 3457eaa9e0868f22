//! What can be assigned to.

use vstd::prelude::*;

use crate::context::ContextModel;
use crate::errors::{AnalysisErrorKind, ErrorModel};
use crate::labels::backtraces::{trace_of, LabelBacktrace, Trace};
use crate::locations::{Location, PinnedModel, Span, SpanModel};
use crate::ordered::{same_text, Ordered};
use crate::policy::targets::SimpleConstValue;
use crate::symbols::table::packages::QualifiedSymbolResolutionResult;
use crate::symbols::table::TableModel;
use crate::symbols::{const_of, Symbol, SymbolModel};
use crate::taint::exprs::component::{find_key, key_of_index};
use crate::taint::implicit::{Place, PlaceModel};
use crate::taint::mutation::{steps_of, LeftModel, LeftValue, PathStep, StepModel};
use crate::values::{FormModel, KeyModel, PartKey, TypeKind, Value, ValueForm, ValueModel};

verus! {

/// What an optional left value stands for.
pub open spec fn left_of(l: Option<LeftValue>) -> Option<LeftModel> {
    match l {
        Some(x) => Some(x@),
        None => None,
    }
}

impl PlaceModel {
    /// The place once an error is reported.
    pub open spec fn reporting(self, error: ErrorModel) -> PlaceModel {
        PlaceModel {
            ctx: ContextModel { log: self.ctx.log.with_error(error), ..self.ctx },
            ..self
        }
    }

    /// The place, and what a name is to an assignment: its symbol; for the blank
    /// name, a symbol that has no name.
    pub open spec fn left_named(self, name: SpanModel) -> (PlaceModel, Option<LeftModel>) {
        let t = self.table;
        if name.content == "_"@ {
            let symbol = SymbolModel {
                declared_name: PinnedModel { file: self.ctx.log.file->0, inner: name },
                mutable: true,
                value: ValueModel::simple(None, self.at(name.location)),
                known_const: None,
            };
            (
                PlaceModel {
                    table: TableModel { symbols: t.symbols.push(symbol), ..t },
                    ..self
                },
                Some(
                    LeftModel {
                        symbol: t.symbols.len() as usize,
                        name,
                        path: Seq::<StepModel>::empty(),
                    },
                ),
            )
        } else {
            match t.resolved(Some(t.current), name.content) {
                Some(s) => (
                    self,
                    Some(LeftModel { symbol: s, name, path: Seq::<StepModel>::empty() }),
                ),
                None => (self.reporting(ErrorModel::UnknownSymbol { found: name }), None),
            }
        }
    }

    /// Whether a name is the qualifier of a package, and no symbol.
    pub open spec fn is_qualifier(self, name: Seq<char>) -> bool {
        self.table.resolved(Some(self.table.current), name) is None
            && self.table.named_imports.dom().contains(name)
    }

    /// The place, and what a name behind a package is to an assignment.
    pub open spec fn left_qualified(self, qualifier: Seq<char>, name: SpanModel) -> (
        PlaceModel,
        Option<LeftModel>,
    ) {
        match self.table.qualified(qualifier, name.content) {
            QualifiedSymbolResolutionResult::Success(s) => (
                self,
                Some(LeftModel { symbol: s, name, path: Seq::<StepModel>::empty() }),
            ),
            _ => (self.reporting(ErrorModel::UnknownSymbol { found: name }), None),
        }
    }

    /// The place once a value is written to something.
    pub open spec fn with_written(
        self,
        left: LeftModel,
        value: ValueModel,
        location: Location,
    ) -> PlaceModel {
        let at = self.at(location);
        if left.symbol < self.table.symbols.len() {
            let s = self.table.symbols[left.symbol as int];
            if s.value.has_path(left.path, at) {
                PlaceModel {
                    table: TableModel {
                        symbols: self.table.symbols.update(
                            left.symbol as int,
                            SymbolModel {
                                value: s.value.written_along(left.path, value, at),
                                known_const: None,
                                ..s
                            },
                        ),
                        ..self.table
                    },
                    ..self
                }
            } else {
                self
            }
        } else {
            self
        }
    }
}

/// A member of something that is assigned to.
pub open spec fn left_selected(left: LeftModel, selector: Seq<char>) -> LeftModel {
    LeftModel {
        path: left.path.push(
            StepModel {
                form: FormModel::Struct,
                key: Some(KeyModel::Text(selector)),
                key_flow: None,
            },
        ),
        ..left
    }
}

/// The form in which elements of a value are written.
pub open spec fn container_form(v: ValueModel) -> FormModel {
    match v.form {
        FormModel::Mapping => FormModel::Mapping,
        FormModel::Array => FormModel::Array,
        FormModel::Slice => FormModel::Slice,
        _ => match v.declared_type {
            Some(t) => match t.kind {
                TypeKind::Mapping => FormModel::Mapping,
                TypeKind::Array => FormModel::Array,
                _ => FormModel::Slice,
            },
            None => FormModel::Slice,
        },
    }
}

/// An element of something that is assigned to.
pub open spec fn left_indexed(
    left: LeftModel,
    container: ValueModel,
    known: Option<Seq<char>>,
    flow: Option<Trace>,
) -> LeftModel {
    let form = container_form(container);
    LeftModel {
        path: left.path.push(
            StepModel {
                form,
                key: key_of_index(
                    form,
                    if flow is None {
                        known
                    } else {
                        None
                    },
                ),
                key_flow: flow,
            },
        ),
        ..left
    }
}

fn find_container_form(v: &Value) -> (r: ValueForm)
    ensures
        r@ == container_form(v@),
{
    match &v.form {
        ValueForm::Mapping => ValueForm::Mapping,
        ValueForm::Array => ValueForm::Array,
        ValueForm::Slice => ValueForm::Slice,
        _ => match &v.declared_type {
            Some(t) => match t.kind {
                TypeKind::Mapping => ValueForm::Mapping,
                TypeKind::Array => ValueForm::Array,
                _ => ValueForm::Slice,
            },
            None => ValueForm::Slice,
        },
    }
}

/// A member of something that is assigned to.
pub fn select_left(left: LeftValue, selector: &str) -> (r: LeftValue)
    ensures
        r@ == left_selected(left@, selector@),
        r.symbol == left.symbol,
{
    let ghost m = left@;
    let mut r = left;
    r.path.push(
        PathStep {
            form: ValueForm::Struct,
            key: Some(PartKey::Text(selector.to_owned())),
            key_backtrace: None,
        },
    );
    proof {
        assert(steps_of(r.path@) =~= left_selected(m, selector@).path);
    }
    r
}

/// An element of something that is assigned to.
pub fn index_left(
    left: LeftValue,
    container: &Value,
    known: Option<SimpleConstValue>,
    flow: Option<LabelBacktrace>,
) -> (r: LeftValue)
    ensures
        r@ == left_indexed(left@, container@, const_of(known), trace_of(flow)),
        r.symbol == left.symbol,
{
    let ghost m = left@;
    let ghost goal = left_indexed(left@, container@, const_of(known), trace_of(flow));
    let mut r = left;
    let form = find_container_form(container);
    let known = if flow.is_none() {
        known
    } else {
        None
    };
    let key = find_key(&form, &known);
    r.path.push(PathStep { form, key, key_backtrace: flow });
    proof {
        assert(steps_of(r.path@) =~= goal.path);
    }
    r
}

fn no_steps() -> (r: Vec<PathStep>)
    ensures
        steps_of(r@) == Seq::<StepModel>::empty(),
{
    let r: Vec<PathStep> = Vec::new();
    proof {
        assert(steps_of(r@) =~= Seq::<StepModel>::empty());
    }
    r
}

impl Place {
    /// Reports an error.
    pub fn report(&mut self, error: AnalysisErrorKind)
        requires
            old(self).wf(),
        ensures
            final(self).wf(),
            final(self)@ == old(self)@.reporting(error@),
    {
        let ghost before = self@;
        self.ctx.log.report_error(error);
        proof {
            assert(self@ =~= before.reporting(error@));
        }
    }

    /// What a name is to an assignment.
    pub fn name_left(&mut self, name: &Span) -> (r: Option<LeftValue>)
        requires
            old(self).wf(),
        ensures
            final(self).wf(),
            (final(self)@, left_of(r)) == old(self)@.left_named(name@),
    {
        let ghost before = self@;
        if same_text(name.content(), "_") {
            let declared_name = self.ctx.log.pin(name.duplicate());
            let at = self.ctx.log.pin(name.location);
            let symbol: usize = self.table.add_symbol(
                Symbol {
                    declared_name,
                    mutable: true,
                    value: Value::from_backtrace_or_bottom_at(None, &at),
                    known_const: None,
                },
            );
            proof {
                assert(self@ =~= before.left_named(name@).0);
            }
            return Some(LeftValue { symbol, name: name.duplicate(), path: no_steps() });
        }
        match self.table.get_symbol(name.content()) {
            Some(symbol) => Some(LeftValue { symbol, name: name.duplicate(), path: no_steps() }),
            None => {
                self.report(AnalysisErrorKind::UnknownSymbol { found: name.duplicate() });
                None
            },
        }
    }

    /// Whether a name is the qualifier of a package, and no symbol.
    pub fn names_package(&self, name: &str) -> (r: bool)
        requires
            self.wf(),
        ensures
            r == self@.is_qualifier(name@),
    {
        self.table.get_symbol(name).is_none() && self.table.qualifier_exists(name)
    }

    /// What a name behind a package is to an assignment.
    pub fn qualified_left(&mut self, qualifier: &str, name: &Span) -> (r: Option<LeftValue>)
        requires
            old(self).wf(),
        ensures
            final(self).wf(),
            (final(self)@, left_of(r)) == old(self)@.left_qualified(qualifier@, name@),
    {
        match self.table.get_qualified_symbol(qualifier, name.content()) {
            QualifiedSymbolResolutionResult::Success(symbol) => Some(
                LeftValue { symbol, name: name.duplicate(), path: no_steps() },
            ),
            _ => {
                self.report(AnalysisErrorKind::UnknownSymbol { found: name.duplicate() });
                None
            },
        }
    }

    /// Writes a value to something.
    pub fn write(&mut self, left: &LeftValue, value: Value, location: Location)
        requires
            old(self).wf(),
        ensures
            final(self).wf(),
            final(self)@ == old(self)@.with_written(left@, value@, location),
    {
        let ghost before = self@;
        if left.symbol >= self.table.symbol_count() {
            return;
        }
        let at = self.ctx.log.pin(location);
        proof {
            assert(steps_of(left.path@).skip(0) =~= steps_of(left.path@));
        }
        if !self.table.symbol(left.symbol).value.admits_path(&left.path, 0, &at) {
            return;
        }
        let mut whole = self.table.symbol(left.symbol).value.clone();
        whole.set_along(&left.path, 0, value, &at);
        self.table.set_value(left.symbol, whole, None);
        proof {
            assert(self@ =~= before.with_written(left@, value@, location));
        }
    }

    /// What something that is assigned to holds.
    pub fn read(&self, left: &LeftValue, location: Location) -> (r: Value)
        requires
            self.wf(),
            left.symbol < self@.table.symbols.len(),
        ensures
            r@ == self@.table.symbols[left.symbol as int].value.read_along(
                left@.path,
                self@.at(location),
            ),
    {
        let at = self.ctx.log.pin(location);
        proof {
            assert(steps_of(left.path@).skip(0) =~= steps_of(left.path@));
        }
        self.table.symbol(left.symbol).value.get_along(&left.path, 0, &at)
    }
}

} // verus!
