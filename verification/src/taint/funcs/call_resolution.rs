//! From a call to what is called.

use vstd::prelude::*;

use crate::context::reports::{ErrorLog, LogModel};
use crate::errors::{AnalysisErrorKind, ErrorModel};
use crate::functions::{FunctionModel, FunctionRef};
use crate::labels::backtraces::{listed, trace_of, traces_of, LabelBacktrace, Trace};
use crate::locations::{Location, Pinned, PinnedModel, Span, SpanModel};
use crate::ordered::{same, same_text, Ordered};
use crate::policy::targets::SimpleConstValue;
use crate::symbols::table::{lemma_resolved_in_range, SymbolTable, TableModel};
use crate::taint::exprs::component::{also_carrying, nest_field_backtraces, FieldInfo};
use crate::taint::funcs::{bound_to_receiver, nest_receiver_backtrace, FunctionSummary,
    SignatureModel, SummaryModel};
use crate::values::{FormModel, KeyModel, PartKey, TypeModel, Value, ValueForm, ValueModel};

verus! {

/// An argument of a call.
#[derive(Debug)]
pub struct Argument {
    /// Its value.
    pub value: Value,
    /// What it is known to be, if it is a constant.
    pub known_const: Option<SimpleConstValue>,
    /// What it carries where it is called as a function.
    pub hybrid: Option<LabelBacktrace>,
}

/// The values of arguments.
pub open spec fn argument_values(args: Seq<Argument>) -> Seq<ValueModel> {
    args.map_values(|a: Argument| a.value@)
}

/// What arguments carry where they are called as functions.
pub open spec fn argument_hybrids(args: Seq<Argument>) -> Seq<Option<Trace>> {
    args.map_values(|a: Argument| trace_of(a.hybrid))
}

/// What arguments are known to be.
pub open spec fn argument_consts(args: Seq<Argument>) -> Seq<Option<Seq<char>>> {
    args.map_values(
        |a: Argument|
            match a.known_const {
                Some(c) => Some(c.text@),
                None => None,
            },
    )
}

/// A call that is ready to be applied.
#[derive(Debug)]
pub struct ResolvedCall {
    /// Whether the function is taken for one of which nothing is known.
    pub as_blackbox: bool,
    /// The arguments.
    pub args: Vec<Argument>,
    /// The receiver, if the call has the form of a method call.
    pub method_receiver_value: Option<Value>,
}

/// Whether a name is that of a built-in function with a handling of its own.
pub open spec fn is_special_builtin(name: Seq<char>) -> bool {
    ||| name == "append"@
    ||| name == "copy"@
    ||| name == "clear"@
    ||| name == "close"@
    ||| name == "delete"@
    ||| name == "len"@
    ||| name == "cap"@
}

/// Whether a call of a name is one of a built-in function with a handling of
/// its own, given whether the name resolves to what is predeclared.
pub fn is_special_builtin_call(name: &str, predeclared: bool) -> (r: bool)
    ensures
        r == (predeclared && is_special_builtin(name@)),
{
    predeclared && (same_text(name, "append") || same_text(name, "copy") || same_text(name, "clear")
        || same_text(name, "close") || same_text(name, "delete") || same_text(name, "len")
        || same_text(name, "cap"))
}

/// Whether the only method of a name in a package cannot be meant by a call,
/// going by the number of arguments.
pub open spec fn is_incompatible(method: Option<SummaryModel>, args: nat) -> bool {
    match method {
        Some(m) => m.signature matches Some(s) && !s.admits(args),
        None => false,
    }
}

/// What an optional function stands for.
pub open spec fn summary_of(f: Option<&FunctionSummary>) -> Option<SummaryModel> {
    match f {
        Some(x) => Some(x@),
        None => None,
    }
}

/// Whether the only method of a name in a package cannot be meant by a call.
///
/// If there is such a method, it is the one that the name was resolved to.
pub fn is_incompatible_cardinality_method(
    unique_method: Option<&FunctionSummary>,
    candidate: &FunctionSummary,
    args_len: usize,
) -> (r: bool)
    requires
        unique_method matches Some(m) ==> m@.signature is Some ==> m@.func == candidate@.func,
    ensures
        r == is_incompatible(summary_of(unique_method), args_len as nat),
{
    match unique_method {
        Some(m) => match &m.signature {
            Some(signature) => !signature.admits(args_len),
            None => false,
        },
        None => false,
    }
}

/// The declared type of the first result, if there is one.
pub open spec fn first_result_type(types: Seq<Option<TypeModel>>) -> Option<TypeModel> {
    if types.len() > 0 {
        types[0]
    } else {
        None
    }
}

/// Whether a function is taken for one of which nothing is known: if it was
/// found by its name alone, and cannot be meant.
pub open spec fn is_blackboxed(
    found_by_type: bool,
    is_method_form: bool,
    unique_method: Option<SummaryModel>,
    args: nat,
) -> bool {
    !found_by_type && is_method_form && is_incompatible(unique_method, args)
}

/// How many arguments a signature asks for at least.
pub open spec fn asked_for(s: SignatureModel) -> nat {
    if s.is_variadic() && s.slots().len() > 0 {
        (s.slots().len() - 1) as nat
    } else {
        s.slots().len()
    }
}

/// The number of arguments that a call does not have, if it does not match.
pub open spec fn mismatch(func: SummaryModel, as_blackbox: bool, args: nat) -> Option<nat> {
    if as_blackbox {
        None
    } else {
        match func.signature {
            Some(s) => if s.admits(args) {
                None
            } else {
                Some(asked_for(s))
            },
            None => None,
        }
    }
}

/// What becomes of a call, before any argument of it is evaluated.
#[derive(Clone, Copy, Debug, PartialEq, Eq, Structural)]
pub enum CallDecision {
    /// Nothing: it has no results, and no argument is evaluated.
    Refused,
    /// A conversion of its only argument.
    Convert,
    /// A conversion with the wrong number of arguments, none of which is
    /// evaluated.
    ConvertNothing,
    /// A call of the function, or of one of which nothing is known in its place.
    Apply { as_blackbox: bool },
}

/// What becomes of a call with so many arguments.
pub open spec fn decided(
    func: Option<SummaryModel>,
    found_by_type: bool,
    is_method_form: bool,
    unique_method: Option<SummaryModel>,
    args: nat,
) -> CallDecision {
    match func {
        None => CallDecision::Refused,
        Some(f) => if f.is_type_constructor {
            if args == 1 {
                CallDecision::Convert
            } else {
                CallDecision::ConvertNothing
            }
        } else {
            let as_blackbox = is_blackboxed(found_by_type, is_method_form, unique_method, args);
            if mismatch(f, as_blackbox, args) is Some {
                CallDecision::Refused
            } else {
                CallDecision::Apply { as_blackbox }
            }
        },
    }
}

/// The log once it is decided what becomes of a call.
pub open spec fn decision_reported(
    log: LogModel,
    func: Option<SummaryModel>,
    found_by_type: bool,
    is_method_form: bool,
    unique_method: Option<SummaryModel>,
    args: nat,
    location: Location,
) -> LogModel {
    match func {
        None => log.with_error(ErrorModel::IllegalCallExpression { location }),
        Some(f) => if f.is_type_constructor {
            if args == 1 {
                log
            } else {
                log.with_error(
                    ErrorModel::IncorrectCallCardinality {
                        expected: 1,
                        found: args as usize,
                        location,
                    },
                )
            }
        } else {
            match mismatch(
                f,
                is_blackboxed(found_by_type, is_method_form, unique_method, args),
                args,
            ) {
                Some(expected) => log.with_error(
                    ErrorModel::IncorrectCallCardinality {
                        expected: expected as usize,
                        found: args as usize,
                        location,
                    },
                ),
                None => log,
            }
        },
    }
}

/// Decides what becomes of a call with so many arguments, none of which has
/// been evaluated. One that is not of a function, or has the wrong number of
/// arguments, is reported.
///
/// `found_by_type` says that the function was found by the type of the
/// receiver, and `unique_method` is the only method of the selected name in
/// the current package, if there is exactly one.
pub fn decide_call(
    log: &mut ErrorLog,
    func: Option<&FunctionSummary>,
    found_by_type: bool,
    is_method_form: bool,
    unique_method: Option<&FunctionSummary>,
    args: usize,
    location: Location,
) -> (r: CallDecision)
    requires
        func matches Some(f) ==> (unique_method matches Some(m) ==> m@.signature is Some ==> m@.func
            == f@.func),
    ensures
        r == decided(
            summary_of(func),
            found_by_type,
            is_method_form,
            summary_of(unique_method),
            args as nat,
        ),
        final(log)@ == decision_reported(
            old(log)@,
            summary_of(func),
            found_by_type,
            is_method_form,
            summary_of(unique_method),
            args as nat,
            location,
        ),
{
    let f = match func {
        Some(f) => f,
        None => {
            log.report_error(AnalysisErrorKind::IllegalCallExpression { location });
            return CallDecision::Refused;
        },
    };
    if f.is_type_constructor {
        if args == 1 {
            return CallDecision::Convert;
        }
        log.report_error(
            AnalysisErrorKind::IncorrectCallCardinality { expected: 1, found: args, location },
        );
        return CallDecision::ConvertNothing;
    }
    let as_blackbox = if found_by_type || !is_method_form {
        false
    } else {
        is_incompatible_cardinality_method(unique_method, f, args)
    };
    if !as_blackbox {
        if let Some(signature) = &f.signature {
            if !signature.admits(args) {
                let count: usize = signature.count_inputs();
                let n: usize = signature.params.len();
                proof {
                    assert(signature@.params.len() == n);
                }
                let variadic = n > 0 && signature.params[n - 1].variadic;
                let expected: usize = if variadic && count > 0 {
                    count - 1
                } else {
                    count
                };
                log.report_error(
                    AnalysisErrorKind::IncorrectCallCardinality { expected, found: args, location },
                );
                return CallDecision::Refused;
            }
        }
    }
    CallDecision::Apply { as_blackbox }
}

/// A call with the wrong number of arguments has no results.
pub proof fn law_incomplete_calls_are_refused(
    f: SummaryModel,
    found_by_type: bool,
    is_method_form: bool,
    unique_method: Option<SummaryModel>,
    args: nat,
)
    requires
        !f.is_type_constructor,
        f.signature is Some,
        !f.signature->0.admits(args),
        !is_blackboxed(found_by_type, is_method_form, unique_method, args),
    ensures
        decided(Some(f), found_by_type, is_method_form, unique_method, args) is Refused,
{
}

/// A call that is applied to a function with known parameters has an argument
/// for each of them, but for a last one that takes any number.
pub proof fn law_applied_calls_are_complete(s: SignatureModel, args: nat, index: int)
    requires
        s.admits(args),
        0 <= index < s.slots().len(),
        !s.slots()[index].variadic,
    ensures
        index < args,
{
    if index >= args {
        assert(index == s.slots().len() - 1);
        let p = s.params.last();
        let front = crate::taint::funcs::slots_of(s.params.drop_last());
        let back = crate::taint::funcs::slots_of_param(p);
        assert(s.slots() == front + back);
        assert(s.slots()[index] == back[index - front.len()]);
    }
}

/// What a member of a value is that its type tells: a method, bound to the
/// value, or a field of a struct, with what its declaration says that it
/// carries.
pub open spec fn typed_callee(
    t: TableModel,
    base: ValueModel,
    selector: Seq<char>,
    method: Option<usize>,
    field: Option<Option<Trace>>,
    is_struct: bool,
    at: PinnedModel<Location>,
) -> Option<ValueModel> {
    match method {
        Some(m) => Some(bound_to_receiver(t.symbols[m as int].value, base, at)),
        None => match field {
            Some(tag) => if is_struct && base.form.can_become(FormModel::Struct) {
                Some(
                    also_carrying(
                        base.read_at(Some(KeyModel::Text(selector)), at),
                        listed(tag),
                        at,
                    ),
                )
            } else {
                None
            },
            None => None,
        },
    }
}

/// What a member of a value is, if its type tells. `method` is the method of
/// that name that the type has, `field` its field, and `is_struct` says whether
/// it is known to be made of fields.
pub fn try_extract_typed_selection_callee(
    table: &SymbolTable,
    base: &Value,
    selector: &str,
    method: Option<usize>,
    field: Option<&FieldInfo>,
    is_struct: bool,
    at: Pinned<Location>,
) -> (r: Option<Value>)
    requires
        method matches Some(m) ==> m < table@.symbols.len(),
    ensures
        (match r {
            Some(v) => Some(v@),
            None => None,
        }) == typed_callee(
            table@,
            base@,
            selector@,
            method,
            match field {
                Some(f) => Some(trace_of(f.tag_backtrace)),
                None => None,
            },
            is_struct,
            at@,
        ),
{
    match method {
        Some(m) => Some(nest_receiver_backtrace(table.symbol(m).value.clone(), base, at)),
        None => match field {
            Some(f) => {
                if !is_struct || !base.form.can_become(&ValueForm::Struct) {
                    return None;
                }
                let value = base.get_at_key(Some(&PartKey::Text(selector.to_owned())), &at);
                let mut extras: Vec<LabelBacktrace> = Vec::new();
                if let Some(b) = &f.tag_backtrace {
                    extras.push(b.clone());
                }
                proof {
                    assert(traces_of(extras@) =~= listed(trace_of(f.tag_backtrace)));
                }
                Some(nest_field_backtraces(value, &extras, &at))
            },
            None => None,
        },
    }
}

/// The function whose parameter a name stands for, if it is the one through
/// which the function under declaration yields values.
pub open spec fn yield_owner(
    t: TableModel,
    current: Option<(FunctionModel, Option<PinnedModel<SpanModel>>)>,
    name: Seq<char>,
) -> Option<FunctionModel> {
    match (current, t.resolved(Some(t.current), name)) {
        (Some((func, Some(param))), Some(s)) => if t.symbols[s as int].declared_name == param {
            Some(func)
        } else {
            None
        },
        _ => None,
    }
}

/// The function under declaration, if a call of a name is how it yields values.
/// `current` is that function, with the parameter through which it does so.
pub fn resolve_current_yield_owner(
    table: &SymbolTable,
    current: Option<(&FunctionRef, Option<&Pinned<Span>>)>,
    name: &str,
) -> (r: Option<FunctionRef>)
    requires
        table@.wf(),
    ensures
        (match r {
            Some(f) => Some(f@),
            None => None,
        }) == yield_owner(
            table@,
            match current {
                Some((f, p)) => Some(
                    (
                        f@,
                        match p {
                            Some(d) => Some(d@),
                            None => None,
                        },
                    ),
                ),
                None => None,
            },
            name@,
        ),
{
    let (func, param) = match current {
        Some((func, Some(param))) => (func, param),
        _ => {
            return None;
        },
    };
    proof {
        lemma_resolved_in_range(table@, Some(table@.current), name@);
    }
    match table.get_symbol(name) {
        Some(s) => {
            if same(&table.symbol(s).declared_name, param) {
                Some(func.duplicate())
            } else {
                None
            }
        },
        None => None,
    }
}

} // verus!
