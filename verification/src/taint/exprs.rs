//! Expressions.

use vstd::prelude::*;

use crate::context::reports::{ErrorLog, LogModel};
use crate::errors::{AnalysisErrorKind, ErrorModel};
use crate::labels::backtraces::{combined, framed, trace_of, united, LabelBacktrace, LabelBacktraceKind, Trace};
use crate::locations::{Location, Pinned, PinnedModel};
use crate::ordered::Ordered;
use crate::policy::blanket_directives::{directives_of, BlanketDirective};
use crate::policy::targets::{known_texts, SimpleConstValue};
use crate::symbols::const_of;
use crate::taint::explicit::{known_of, KnownModel};
use crate::taint::funcs::call_results::{apply_call_blanket_revocations, revoked};
use crate::values::{type_of, values_of, TypeInfo, TypeModel, Value, ValueModel};

pub mod component;
pub mod literals;
pub mod names;
pub mod visits;

verus! {

/// The value of an expression where one is needed.
pub open spec fn single_value(
    values: Seq<ValueModel>,
    at: PinnedModel<Location>,
) -> ValueModel {
    if values.len() == 1 {
        values[0].collapsed()
    } else {
        ValueModel::simple(None, at)
    }
}

/// The log once one value of an expression is needed.
pub open spec fn single_reported(log: LogModel, count: nat, location: Location) -> LogModel {
    if count == 0 {
        log.with_error(ErrorModel::UnexpectedVoidExpression { location })
    } else if count > 1 {
        log.with_error(ErrorModel::UnexpectedMultiValueExpression { location })
    } else {
        log
    }
}

/// The value of an expression where one is needed. If it has none or several,
/// that is reported.
pub fn expect_single(log: &mut ErrorLog, values: Vec<Value>, location: Location) -> (r: Value)
    requires
        old(log)@.file is Some,
    ensures
        r@ == single_value(
            values_of(values@),
            PinnedModel { file: old(log)@.file->0, inner: location },
        ),
        final(log)@ == single_reported(old(log)@, values@.len(), location),
{
    let n: usize = values.len();
    let at = log.pin(location);
    if n == 0 {
        log.report_error(AnalysisErrorKind::UnexpectedVoidExpression { location });
        return Value::new_bottom(at, None);
    }
    if n > 1 {
        log.report_error(AnalysisErrorKind::UnexpectedMultiValueExpression { location });
        return Value::new_bottom(at, None);
    }
    let mut left = values;
    let value = left.remove(0);
    proof {
        assert(values_of(values@)[0] == value@);
    }
    value.extract_collapsed_single()
}

/// The values of an expression, with what it is known to be if it has one.
pub open spec fn known_if_single(values: Seq<ValueModel>, known: Option<Seq<char>>) -> Seq<
    KnownModel,
> {
    values.map_values(
        |v: ValueModel|
            (
                v,
                if values.len() == 1 {
                    known
                } else {
                    None
                },
            ),
    )
}

/// The values of an expression, with what it is known to be if it has one.
pub fn pair_with_const(values: Vec<Value>, known_const: Option<SimpleConstValue>) -> (r: Vec<
    (Value, Option<SimpleConstValue>),
>)
    ensures
        known_of(r@) == known_if_single(values_of(values@), const_of(known_const)),
{
    let ghost all = values@;
    let ghost goal = known_if_single(values_of(all), const_of(known_const));
    let n: usize = values.len();
    let mut left = values;
    let mut r: Vec<(Value, Option<SimpleConstValue>)> = Vec::new();
    if n == 1 {
        let value = left.remove(0);
        proof {
            assert(value == all[0]);
        }
        r.push((value, known_const));
        proof {
            assert(known_of(r@) =~= goal);
        }
        return r;
    }
    let mut i: usize = 0;
    proof {
        assert(all.skip(0) =~= all);
    }
    while i < n
        invariant
            i <= n,
            n == all.len(),
            left@ == all.skip(i as int),
            r@.len() == i,
            forall|k: int| 0 <= k < i ==> (#[trigger] r@[k]).0@ == all[k]@ && r@[k].1 is None,
        decreases n - i,
    {
        let value = left.remove(0);
        proof {
            assert(value == all[i as int]);
            assert(left@ =~= all.skip(i + 1));
        }
        r.push((value, None));
        i = i + 1;
    }
    proof {
        assert(known_of(r@) =~= goal);
    }
    r
}

/// What an expression is known to be if nothing that it carries would be lost
/// with that.
pub fn keep_const_if_untainted(
    backtrace: &Option<LabelBacktrace>,
    known_const: Option<SimpleConstValue>,
) -> (r: Option<SimpleConstValue>)
    ensures
        const_of(r) == if trace_of(*backtrace) is None {
            const_of(known_const)
        } else {
            None
        },
{
    match backtrace {
        Some(_) => None,
        None => known_const,
    }
}

/// What decides whether the right operand of an operation is evaluated.
pub open spec fn short_circuit_branch(
    left: Option<Trace>,
    short_circuits: bool,
    at: PinnedModel<Location>,
) -> Option<Trace> {
    match left {
        Some(t) => if short_circuits {
            Some(framed(LabelBacktraceKind::ShortCircuit, t.label, None, at, seq![t]))
        } else {
            None
        },
        None => None,
    }
}

/// What decides whether the right operand of an operation is evaluated: the
/// left one, if it can settle the result.
pub fn derive_short_circuit_branch(
    left: &Option<LabelBacktrace>,
    short_circuits: bool,
    at: &Pinned<Location>,
) -> (r: Option<LabelBacktrace>)
    ensures
        trace_of(r) == short_circuit_branch(trace_of(*left), short_circuits, at@),
{
    match left {
        Some(b) => {
            if short_circuits {
                Some(
                    b.clone().into_single_child(
                        LabelBacktraceKind::ShortCircuit,
                        None,
                        at.duplicate(),
                    ),
                )
            } else {
                None
            }
        },
        None => None,
    }
}

/// What the result of an operation with two operands carries. If the left one
/// decides whether the right one is evaluated, it also comes in with that.
pub open spec fn binary_flow(
    left: Option<Trace>,
    right: Option<Trace>,
    short_circuits: bool,
    at: PinnedModel<Location>,
) -> Option<Trace> {
    let second = match (left, right) {
        (Some(l), Some(r)) => if short_circuits {
            Some(united(r, l, LabelBacktraceKind::ShortCircuit, at))
        } else {
            right
        },
        _ => right,
    };
    combined(left, second, LabelBacktraceKind::Expression, at)
}

/// The result of an operation with two operands, from which the policy for the
/// operator takes labels away.
pub fn visit_binary_op(
    left: Option<LabelBacktrace>,
    right: Option<LabelBacktrace>,
    short_circuits: bool,
    operand_consts: &Vec<Option<SimpleConstValue>>,
    operator_directives: &Vec<BlanketDirective>,
    at: &Pinned<Location>,
) -> (r: Value)
    ensures
        seq![r@] == revoked(
            seq![
                ValueModel::simple(
                    binary_flow(trace_of(left), trace_of(right), short_circuits, at@),
                    at@,
                ),
            ],
            directives_of(operator_directives@),
            known_texts(operand_consts@),
        ),
{
    let ghost flow = binary_flow(trace_of(left), trace_of(right), short_circuits, at@);
    let second = match (&left, right) {
        (Some(l), Some(raw)) => {
            if short_circuits {
                Some(raw.union(l, LabelBacktraceKind::ShortCircuit, at.duplicate()))
            } else {
                Some(raw)
            }
        },
        (_, other) => other,
    };
    let backtrace = LabelBacktrace::combine_options(
        left,
        second,
        LabelBacktraceKind::Expression,
        at,
    );
    proof {
        assert(trace_of(backtrace) == flow);
    }
    let result = Value::from_backtrace_or_bottom_at(backtrace, at);
    apply_operator_blanket_revocations(result, operator_directives, operand_consts)
}

/// The result of an operation, from which the policy for the operator takes
/// labels away.
pub fn apply_operator_blanket_revocations(
    result: Value,
    directives: &Vec<BlanketDirective>,
    operand_consts: &Vec<Option<SimpleConstValue>>,
) -> (r: Value)
    ensures
        seq![r@] == revoked(
            seq![result@],
            directives_of(directives@),
            known_texts(operand_consts@)),
{
    let mut results: Vec<Value> = Vec::new();
    let ghost m = result@;
    results.push(result);
    proof {
        assert(values_of(results@) =~= seq![m]);
    }
    apply_call_blanket_revocations(&mut results, directives, operand_consts);
    let r = results.remove(0);
    proof {
        assert(revoked(seq![m], directives_of(directives@), known_texts(operand_consts@)) =~= seq![r@]);
    }
    r
}

/// The value of a type assertion: where two values are expected, the second one
/// tells whether the assertion holds.
pub open spec fn asserted_value(
    base: ValueModel,
    declared_type: Option<TypeModel>,
    at: PinnedModel<Location>,
) -> ValueModel {
    let value = ValueModel { declared_type, ..base };
    ValueModel::paired(value, ValueModel { location: at, ..value.downgraded() }, at)
}

/// The value of a type assertion.
pub fn visit_type_assertion_with_base(
    base: &Value,
    declared_type: Option<TypeInfo>,
    at: Pinned<Location>,
) -> (r: Value)
    ensures
        r@ == asserted_value(base@, type_of(declared_type), at@),
{
    let mut value = base.clone();
    value.set_declared_type(declared_type);
    let mut holds = value.clone();
    holds.downgrade();
    holds.set_location(at.duplicate());
    Value::pair(value, holds, at)
}

} // verus!
