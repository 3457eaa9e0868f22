//! What is declared before any package.

use vstd::prelude::*;

use crate::functions::{FunctionModel, FunctionRef};
use crate::locations::{Location, Pinned, PinnedModel, Span, SpanModel};
use crate::ordered::OrderedMap;
use crate::policy::blanket_directives::DirectiveModel;
use crate::symbols::{Scope, ScopeModel, Symbol, SymbolModel};
use crate::taint::funcs::captures::CaptureModel;
use crate::taint::funcs::{FunctionSummary, ParamDecl, ParamModel, Signature, SignatureModel,
    SummaryModel};
use crate::values::{FormModel, TypeModel, Value, ValueForm, ValueModel};
use crate::context::deferred_checks::CheckModel;

verus! {

/// What a predeclared name stands for.
#[derive(Clone, Copy, Debug, PartialEq, Eq, Structural)]
pub enum PredeclaredKind {
    /// A constant.
    Constant,
    /// A function with so many parameters, the last of which may take any
    /// number of arguments, and so many results.
    Function { params: usize, variadic: bool, results: usize },
    /// A type, which can be called to convert a value.
    Type,
}

/// The predeclared names, in the order in which they are declared.
pub open spec fn predeclared() -> Seq<(Seq<char>, PredeclaredKind)> {
    seq![
        ("true"@, PredeclaredKind::Constant),
        ("false"@, PredeclaredKind::Constant),
        ("iota"@, PredeclaredKind::Constant),
        ("nil"@, PredeclaredKind::Constant),
        ("len"@, PredeclaredKind::Function { params: 1, variadic: false, results: 1 }),
        ("cap"@, PredeclaredKind::Function { params: 1, variadic: false, results: 1 }),
        ("min"@, PredeclaredKind::Function { params: 1, variadic: true, results: 1 }),
        ("max"@, PredeclaredKind::Function { params: 1, variadic: true, results: 1 }),
        ("panic"@, PredeclaredKind::Function { params: 1, variadic: false, results: 0 }),
        ("recover"@, PredeclaredKind::Function { params: 0, variadic: false, results: 1 }),
        ("complex"@, PredeclaredKind::Function { params: 2, variadic: false, results: 1 }),
        ("real"@, PredeclaredKind::Function { params: 1, variadic: false, results: 1 }),
        ("imag"@, PredeclaredKind::Function { params: 1, variadic: false, results: 1 }),
        ("any"@, PredeclaredKind::Type),
        ("bool"@, PredeclaredKind::Type),
        ("byte"@, PredeclaredKind::Type),
        ("comparable"@, PredeclaredKind::Type),
        ("complex64"@, PredeclaredKind::Type),
        ("complex128"@, PredeclaredKind::Type),
        ("error"@, PredeclaredKind::Type),
        ("float32"@, PredeclaredKind::Type),
        ("float64"@, PredeclaredKind::Type),
        ("int"@, PredeclaredKind::Type),
        ("int8"@, PredeclaredKind::Type),
        ("int16"@, PredeclaredKind::Type),
        ("int32"@, PredeclaredKind::Type),
        ("int64"@, PredeclaredKind::Type),
        ("rune"@, PredeclaredKind::Type),
        ("string"@, PredeclaredKind::Type),
        ("uint"@, PredeclaredKind::Type),
        ("uint8"@, PredeclaredKind::Type),
        ("uint16"@, PredeclaredKind::Type),
        ("uint32"@, PredeclaredKind::Type),
        ("uint64"@, PredeclaredKind::Type),
        ("uintptr"@, PredeclaredKind::Type),
    ]
}

/// The predeclared names, in the order in which they are declared.
fn predeclared_names() -> (r: Vec<(&'static str, PredeclaredKind)>)
    ensures
        r@.len() == predeclared().len(),
        forall|i: int|
            0 <= i < r@.len() ==> (#[trigger] r@[i]).0@ == predeclared()[i].0 && r@[i].1
                == predeclared()[i].1,
{
    let unary = PredeclaredKind::Function { params: 1, variadic: false, results: 1 };
    let extremum = PredeclaredKind::Function { params: 1, variadic: true, results: 1 };
    let r: Vec<(&'static str, PredeclaredKind)> = vec![
        ("true", PredeclaredKind::Constant),
        ("false", PredeclaredKind::Constant),
        ("iota", PredeclaredKind::Constant),
        ("nil", PredeclaredKind::Constant),
        ("len", unary),
        ("cap", unary),
        ("min", extremum),
        ("max", extremum),
        ("panic", PredeclaredKind::Function { params: 1, variadic: false, results: 0 }),
        ("recover", PredeclaredKind::Function { params: 0, variadic: false, results: 1 }),
        ("complex", PredeclaredKind::Function { params: 2, variadic: false, results: 1 }),
        ("real", unary),
        ("imag", unary),
        ("any", PredeclaredKind::Type),
        ("bool", PredeclaredKind::Type),
        ("byte", PredeclaredKind::Type),
        ("comparable", PredeclaredKind::Type),
        ("complex64", PredeclaredKind::Type),
        ("complex128", PredeclaredKind::Type),
        ("error", PredeclaredKind::Type),
        ("float32", PredeclaredKind::Type),
        ("float64", PredeclaredKind::Type),
        ("int", PredeclaredKind::Type),
        ("int8", PredeclaredKind::Type),
        ("int16", PredeclaredKind::Type),
        ("int32", PredeclaredKind::Type),
        ("int64", PredeclaredKind::Type),
        ("rune", PredeclaredKind::Type),
        ("string", PredeclaredKind::Type),
        ("uint", PredeclaredKind::Type),
        ("uint8", PredeclaredKind::Type),
        ("uint16", PredeclaredKind::Type),
        ("uint32", PredeclaredKind::Type),
        ("uint64", PredeclaredKind::Type),
        ("uintptr", PredeclaredKind::Type),
    ];
    r
}

/// Where predeclared names are taken to stand: in no file.
pub open spec fn nowhere() -> PinnedModel<Location> {
    PinnedModel { file: Seq::<char>::empty(), inner: Location { start: 0, end: 1 } }
}

/// The value of a predeclared name, given how many functions there are before.
pub open spec fn predeclared_value(kind: PredeclaredKind, functions: int) -> ValueModel {
    ValueModel {
        form: match kind {
            PredeclaredKind::Constant => FormModel::Simple,
            _ => FormModel::Function(functions as usize),
        },
        ..ValueModel::simple(None, nowhere())
    }
}

/// The symbol of a predeclared name.
pub open spec fn predeclared_symbol(
    name: Seq<char>,
    kind: PredeclaredKind,
    functions: int,
) -> SymbolModel {
    SymbolModel {
        declared_name: PinnedModel {
            file: Seq::<char>::empty(),
            inner: SpanModel { content: name, location: Location { start: 0, end: 0 } },
        },
        mutable: false,
        value: predeclared_value(kind, functions),
        known_const: None,
    }
}

/// What is known of a predeclared function or type.
pub open spec fn predeclared_function(name: Seq<char>, kind: PredeclaredKind) -> SummaryModel {
    SummaryModel {
        func: FunctionModel::BuiltIn(name),
        own: None,
        signature: match kind {
            PredeclaredKind::Function { params, variadic, results } => Some(
                SignatureModel {
                    params: Seq::new(
                        params as nat,
                        |i: int|
                            ParamModel {
                                ids: Seq::<SpanModel>::empty(),
                                variadic: variadic && i == params - 1,
                                is_function: false,
                            },
                    ),
                    result_count: results as nat,
                },
            ),
            _ => None,
        },
        has_receiver: false,
        is_type_constructor: kind is Type,
        directives: Seq::<DirectiveModel>::empty(),
        deferred_checks: Seq::<CheckModel>::empty(),
        outcome: None,
        call_count: 0,
        declared_result_types: Seq::<Option<TypeModel>>::empty(),
        captures: Seq::<CaptureModel>::empty(),
        yielding: None,
    }
}

/// How many of the first predeclared names are functions or types.
pub open spec fn functions_before(n: int) -> int
    decreases n,
{
    if n <= 0 {
        0
    } else {
        functions_before(n - 1) + if predeclared()[n - 1].1 is Constant {
            0int
        } else {
            1int
        }
    }
}

/// The names of the universe up to a position, with their symbols.
pub open spec fn universe_names(n: int) -> Map<Seq<char>, usize>
    decreases n,
{
    if n <= 0 {
        Map::<Seq<char>, usize>::empty()
    } else {
        universe_names(n - 1).insert(predeclared()[n - 1].0, (n - 1) as usize)
    }
}

/// The functions of the universe up to a position.
pub open spec fn universe_functions(n: int) -> Seq<SummaryModel>
    decreases n,
{
    if n <= 0 {
        Seq::<SummaryModel>::empty()
    } else if predeclared()[n - 1].1 is Constant {
        universe_functions(n - 1)
    } else {
        universe_functions(n - 1).push(
            predeclared_function(predeclared()[n - 1].0, predeclared()[n - 1].1),
        )
    }
}

/// The symbols of the universe.
pub open spec fn universe_symbols(n: int) -> Seq<SymbolModel> {
    Seq::new(
        n as nat,
        |i: int| predeclared_symbol(predeclared()[i].0, predeclared()[i].1, functions_before(i)),
    )
}

fn summary_for(name: &str, kind: PredeclaredKind) -> (r: FunctionSummary)
    ensures
        r.wf(),
        r@ == predeclared_function(name@, kind),
{
    let mut r = FunctionSummary::new_unknown(FunctionRef::BuiltIn(name.to_owned()), None, false);
    match kind {
        PredeclaredKind::Function { params, variadic, results } => {
            let mut decls: Vec<ParamDecl> = Vec::new();
            let mut i: usize = 0;
            while i < params
                invariant
                    i <= params,
                    decls@.len() == i,
                    forall|k: int|
                        0 <= k < i ==> (#[trigger] decls@[k])@ == (ParamModel {
                            ids: Seq::<SpanModel>::empty(),
                            variadic: variadic && k == params - 1,
                            is_function: false,
                        }),
                decreases params - i,
            {
                let decl = ParamDecl {
                    ids: Vec::new(),
                    variadic: variadic && i == params - 1,
                    is_function: false,
                };
                proof {
                    assert(decl@.ids =~= Seq::<SpanModel>::empty());
                }
                decls.push(decl);
                i = i + 1;
            }
            let signature = Signature { params: decls, result_count: results };
            proof {
                assert(signature@.params =~= predeclared_function(name@, kind).signature->0.params);
            }
            r.signature = Some(signature);
        },
        PredeclaredKind::Type => {
            r.is_type_constructor = true;
        },
        PredeclaredKind::Constant => {},
    }
    r
}

/// The scope with all predeclared names, along with the symbols and functions
/// that they stand for.
pub fn new_universe() -> (r: (Scope, Vec<Symbol>, Vec<FunctionSummary>))
    ensures
        r.0@ == (ScopeModel {
            symbols: universe_names(predeclared().len() as int),
            parent: None,
            children: Seq::<usize>::empty(),
        }),
        crate::symbols::symbols_of(r.1@) == universe_symbols(predeclared().len() as int),
        crate::symbols::summaries_of(r.2@) == universe_functions(predeclared().len() as int),
        forall|i: int| 0 <= i < r.2@.len() ==> (#[trigger] r.2@[i]).wf(),
{
    let names = predeclared_names();
    let mut scope_symbols: OrderedMap<String, usize> = OrderedMap::new();
    let mut symbols: Vec<Symbol> = Vec::new();
    let mut functions: Vec<FunctionSummary> = Vec::new();
    let n: usize = names.len();
    let mut i: usize = 0;
    proof {
        assert(crate::symbols::symbols_of(symbols@) =~= universe_symbols(0));
        assert(crate::symbols::summaries_of(functions@) =~= universe_functions(0));
    }
    while i < n
        invariant
            i <= n,
            n == names@.len(),
            n == predeclared().len(),
            forall|k: int|
                0 <= k < n ==> (#[trigger] names@[k]).0@ == predeclared()[k].0 && names@[k].1
                    == predeclared()[k].1,
            scope_symbols@ == universe_names(i as int),
            crate::symbols::symbols_of(symbols@) == universe_symbols(i as int),
            crate::symbols::summaries_of(functions@) == universe_functions(i as int),
            functions@.len() == functions_before(i as int),
            symbols@.len() == i,
            forall|k: int| 0 <= k < functions@.len() ==> (#[trigger] functions@[k]).wf(),
        decreases n - i,
    {
        let (name, kind) = names[i];
        let at = Pinned::new("", Location { start: 0, end: 1 });
        proof {
            reveal_strlit("");
            assert(""@ =~= Seq::<char>::empty());
        }
        let ghost fs = crate::symbols::summaries_of(functions@);
        let form = match kind {
            PredeclaredKind::Constant => ValueForm::Simple,
            _ => ValueForm::Function(functions.len()),
        };
        match kind {
            PredeclaredKind::Constant => {},
            _ => {
                let summary = summary_for(name, kind);
                let ghost sm = summary@;
                functions.push(summary);
                proof {
                    assert(crate::symbols::summaries_of(functions@) =~= fs.push(sm));
                }
            },
        }
        let value = Value::new(form, None, at, None, Vec::new());
        proof {
            assert(value@.parts =~= Seq::<ValueModel>::empty());
        }
        let symbol = Symbol {
            declared_name: Pinned::new(
                "",
                Span { content: name.to_owned(), location: Location { start: 0, end: 0 } },
            ),
            mutable: false,
            value,
            known_const: None,
        };
        let ghost before = crate::symbols::symbols_of(symbols@);
        let ghost m = symbol@;
        symbols.push(symbol);
        scope_symbols.insert(name.to_owned(), i);
        proof {
            assert(m =~= predeclared_symbol(
                predeclared()[i as int].0,
                predeclared()[i as int].1,
                functions_before(i as int),
            ));
            assert(crate::symbols::symbols_of(symbols@) =~= before.push(m));
            assert(universe_symbols(i + 1) =~= universe_symbols(i as int).push(m));
        }
        i = i + 1;
    }
    let scope = Scope { symbols: scope_symbols, parent: None, children: Vec::new() };
    (scope, symbols, functions)
}

} // verus!
