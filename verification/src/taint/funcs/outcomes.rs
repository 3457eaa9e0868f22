//! What functions return.

use vstd::prelude::*;

use crate::context::branches::{BranchState, DeferTarget, TargetModel};
use crate::context::reports::ErrorLog;
use crate::context::{AnalysisContext, ContextModel};
use crate::errors::{AnalysisErrorKind, ErrorModel};
use crate::labels::backtraces::{listed, traces_of, LabelBacktrace, LabelBacktraceKind, Trace};
use crate::locations::{Location, Pinned, PinnedModel};
use crate::ordered::Ordered;
use crate::symbols::table::{SymbolTable, TableModel};
use crate::taint::funcs::SummaryModel;
use crate::values::{merged, values_of, Value, ValueForm, ValueModel};

verus! {

/// A value as it is returned: it also carries what decides whether it is.
pub open spec fn returned(
    v: ValueModel,
    branch: Option<Trace>,
    at: PinnedModel<Location>,
) -> ValueModel {
    v.nesting(LabelBacktraceKind::Return, None, at, listed(branch))
}

/// Values as they are returned.
pub open spec fn all_returned(
    values: Seq<ValueModel>,
    branch: Option<Trace>,
    at: PinnedModel<Location>,
) -> Seq<ValueModel> {
    values.map_values(|v: ValueModel| returned(v, branch, at))
}

/// What a return statement returns that hands on what a call does: a single
/// value that stands for as many as are expected becomes these.
pub open spec fn handed_on(values: Seq<ValueModel>, result_count: Option<nat>) -> Seq<ValueModel> {
    if result_count is Some && values.len() == 1 && values[0].form is Mobius {
        values[0].expanded(result_count->0)
    } else {
        values
    }
}

fn nest_return(value: Value, branches: &BranchState, at: &Pinned<Location>) -> (r: Value)
    ensures
        r@ == returned(value@, branches@.current(), at@),
{
    let mut more: Vec<LabelBacktrace> = Vec::new();
    if let Some(b) = branches.branch_backtrace() {
        more.push(b.clone());
    }
    proof {
        assert(traces_of(more@) =~= listed(branches@.current()));
    }
    let mut r = value;
    r.nest_backtrace(LabelBacktraceKind::Return, None, at.duplicate(), &more);
    r
}

/// What a return statement returns, whose expressions have these values.
pub fn calculate_outcome(
    branches: &BranchState,
    values: Vec<Value>,
    at: &Pinned<Location>,
) -> (r: Vec<Value>)
    ensures
        values_of(r@) == all_returned(values_of(values@), branches@.current(), at@),
{
    let ghost all = values@;
    let mut left = values;
    let mut r: Vec<Value> = Vec::new();
    let n: usize = left.len();
    let mut i: usize = 0;
    proof {
        assert(all.skip(0) =~= all);
    }
    while i < n
        invariant
            i <= n,
            n == all.len(),
            left@ == all.skip(i as int),
            r@.len() == i,
            forall|k: int|
                0 <= k < i ==> (#[trigger] r@[k])@ == returned(
                    all[k]@,
                    branches@.current(),
                    at@,
                ),
        decreases n - i,
    {
        let value = left.remove(0);
        proof {
            assert(value == all[i as int]);
            assert(left@ =~= all.skip(i + 1));
        }
        r.push(nest_return(value, branches, at));
        i = i + 1;
    }
    proof {
        assert(values_of(r@) =~= all_returned(values_of(all), branches@.current(), at@));
    }
    r
}

/// What a return statement returns that hands on what a call does.
pub fn hand_on(values: Vec<Value>, result_count: Option<usize>) -> (r: Vec<Value>)
    ensures
        values_of(r@) == handed_on(
            values_of(values@),
            match result_count {
                Some(n) => Some(n as nat),
                None => None,
            },
        ),
{
    if values.len() != 1 {
        return values;
    }
    proof {
        assert(values_of(values@)[0] == values@[0]@);
    }
    let mobius = match &values[0].form {
        ValueForm::Mobius => true,
        _ => false,
    };
    match result_count {
        Some(n) => {
            if mobius {
                match values[0].try_expand_to(n) {
                    Some(expanded) => expanded,
                    None => values,
                }
            } else {
                values
            }
        },
        None => values,
    }
}

/// What a function returns that may return one thing or another.
pub open spec fn merged_outcomes(
    existing: Seq<ValueModel>,
    new: Seq<ValueModel>,
    at: PinnedModel<Location>,
) -> Seq<ValueModel> {
    Seq::new(
        if existing.len() < new.len() {
            existing.len()
        } else {
            new.len()
        },
        |i: int| merged(new[i], existing[i], LabelBacktraceKind::Return, at),
    )
}

/// What a function returns that may return one thing or another. If these are
/// not equally many values, that is reported.
pub fn merge_outcomes(
    log: &mut ErrorLog,
    existing: &Vec<Value>,
    new: &Vec<Value>,
    location: Location,
) -> (r: Vec<Value>)
    requires
        old(log)@.file is Some,
    ensures
        values_of(r@) == merged_outcomes(
            values_of(existing@),
            values_of(new@),
            PinnedModel { file: old(log)@.file->0, inner: location },
        ),
        final(log)@ == if existing@.len() == new@.len() {
            old(log)@
        } else {
            old(log)@.with_error(
                ErrorModel::MismatchingReturnCardinality {
                    expected: existing@.len() as usize,
                    found: new@.len() as usize,
                    location,
                },
            )
        },
{
    let at = log.pin(location);
    if new.len() != existing.len() {
        log.report_error(
            AnalysisErrorKind::MismatchingReturnCardinality {
                expected: existing.len(),
                found: new.len(),
                location,
            },
        );
    }
    let mut r: Vec<Value> = Vec::new();
    let n: usize = if existing.len() < new.len() {
        existing.len()
    } else {
        new.len()
    };
    let mut i: usize = 0;
    while i < n
        invariant
            i <= n,
            n <= existing@.len(),
            n <= new@.len(),
            r@.len() == i,
            forall|k: int|
                0 <= k < i ==> (#[trigger] r@[k])@ == merged(
                    new@[k]@,
                    existing@[k]@,
                    LabelBacktraceKind::Return,
                    at@,
                ),
        decreases n - i,
    {
        r.push(new[i].merge_with(&existing[i], LabelBacktraceKind::Return, &at));
        i = i + 1;
    }
    proof {
        assert(values_of(r@) =~= merged_outcomes(values_of(existing@), values_of(new@), at@));
    }
    r
}

/// What a function returns after a return statement: what it does, or what it
/// returned before.
pub open spec fn outcome_after(
    existing: Option<Seq<ValueModel>>,
    new: Seq<ValueModel>,
    at: PinnedModel<Location>,
) -> Seq<ValueModel> {
    match existing {
        Some(e) => merged_outcomes(e, new, at),
        None => new,
    }
}

/// The state after a return statement of a function that returns these values.
/// What decided whether it is reached has an effect until the function ends.
pub open spec fn return_visited(
    ctx: ContextModel,
    existing: Option<Seq<ValueModel>>,
    new: Seq<ValueModel>,
    location: Location,
) -> ContextModel {
    ContextModel {
        log: match existing {
            Some(e) => if e.len() == new.len() {
                ctx.log
            } else {
                ctx.log.with_error(
                    ErrorModel::MismatchingReturnCardinality {
                        expected: e.len() as usize,
                        found: new.len() as usize,
                        location,
                    },
                )
            },
            None => ctx.log,
        },
        branches: ctx.branches.deferring(
            TargetModel::Function,
            PinnedModel { file: ctx.log.file->0, inner: location },
        ),
        ..ctx
    }
}

/// Visits a return statement in a function, whose expressions have these
/// values; or which hands on what a single call returns. One outside of any
/// function is reported.
pub fn visit_return(
    ctx: &mut AnalysisContext,
    table: &mut SymbolTable,
    current: Option<usize>,
    values: Vec<Value>,
    hands_on: bool,
    location: Location,
)
    requires
        old(ctx).wf(),
        old(table)@.wf(),
        old(ctx)@.log.file is Some,
        current matches Some(f) ==> f < old(table)@.functions.len(),
    ensures
        final(ctx)@.log.file is Some,
        final(ctx).wf(),
        final(table)@.wf(),
        match current {
            None => {
                &&& final(table)@ == old(table)@
                &&& final(ctx)@ == (ContextModel {
                    log: old(ctx)@.log.with_error(ErrorModel::UnexpectedReturn { location }),
                    ..old(ctx)@
                })
            },
            Some(f) => {
                let func = old(table)@.functions[f as int];
                let at = PinnedModel { file: old(ctx)@.log.file->0, inner: location };
                let new = if hands_on {
                    handed_on(
                        values_of(values@),
                        match func.signature {
                            Some(s) => Some(s.result_count),
                            None => None,
                        },
                    )
                } else {
                    all_returned(values_of(values@), old(ctx)@.branches.current(), at)
                };
                &&& final(ctx)@ == return_visited(old(ctx)@, func.outcome, new, location)
                &&& final(table)@ == (TableModel {
                    functions: old(table)@.functions.update(
                        f as int,
                        SummaryModel {
                            outcome: Some(outcome_after(func.outcome, new, at)),
                            ..func
                        },
                    ),
                    ..old(table)@
                })
            },
        },
{
    let ghost start = ctx@;
    let id: usize = match current {
        Some(f) => f,
        None => {
            ctx.log.report_error(AnalysisErrorKind::UnexpectedReturn { location });
            proof {
                assert(ctx@ =~= (ContextModel {
                    log: start.log.with_error(ErrorModel::UnexpectedReturn { location }),
                    ..start
                }));
            }
            return;
        },
    };
    let at = ctx.log.pin(location);
    let new = if hands_on {
        let result_count: Option<usize> = match &table.function(id).signature {
            Some(s) => Some(s.result_count),
            None => None,
        };
        hand_on(values, result_count)
    } else {
        calculate_outcome(&ctx.branches, values, &at)
    };
    let ghost models = values_of(new@);
    let ghost func = table@.functions[id as int];
    let outcome = match &table.function(id).outcome {
        Some(existing) => {
            proof {
                assert(values_of(existing@).len() == existing@.len());
                assert(models.len() == new@.len());
            }
            merge_outcomes(&mut ctx.log, existing, &new, location)
        },
        None => new,
    };
    table.set_outcome(id, outcome);
    ctx.branches.defer_branch_backtrace(DeferTarget::Function, at);
    proof {
        assert(ctx@ =~= return_visited(start, func.outcome, models, location));
    }
}

/// What a function returns once its named results have their last values.
pub open spec fn finalized(
    outcome: Seq<ValueModel>,
    named: Seq<Option<ValueModel>>,
    branch: Option<Trace>,
    at: PinnedModel<Location>,
) -> Seq<ValueModel> {
    Seq::new(
        outcome.len(),
        |i: int|
            if i < named.len() && named[i] is Some {
                returned(named[i]->0, branch, at)
            } else {
                outcome[i]
            },
    )
}

/// What a list of optional values stands for.
pub open spec fn optional_values(s: Seq<Option<Value>>) -> Seq<Option<ValueModel>> {
    s.map_values(
        |v: Option<Value>|
            match v {
                Some(x) => Some(x@),
                None => None,
            },
    )
}

/// What a function returns once its named results have their last values; none
/// is given for one without a name.
pub fn finalize_named_result_outcome(
    branches: &BranchState,
    outcome: &Vec<Value>,
    named: &Vec<Option<Value>>,
    at: &Pinned<Location>,
) -> (r: Vec<Value>)
    ensures
        values_of(r@) == finalized(
            values_of(outcome@),
            optional_values(named@),
            branches@.current(),
            at@,
        ),
{
    let ghost goal = finalized(
        values_of(outcome@),
        optional_values(named@),
        branches@.current(),
        at@,
    );
    let mut r: Vec<Value> = Vec::new();
    let n: usize = outcome.len();
    let mut i: usize = 0;
    while i < n
        invariant
            i <= n,
            n == outcome@.len(),
            goal == finalized(
                values_of(outcome@),
                optional_values(named@),
                branches@.current(),
                at@,
            ),
            r@.len() == i,
            forall|k: int| 0 <= k < i ==> (#[trigger] r@[k])@ == goal[k],
        decreases n - i,
    {
        let value = if i < named.len() {
            proof {
                assert(optional_values(named@)[i as int] is Some == named@[i as int] is Some);
            }
            match &named[i] {
                Some(v) => nest_return(v.clone(), branches, at),
                None => outcome[i].clone(),
            }
        } else {
            outcome[i].clone()
        };
        r.push(value);
        i = i + 1;
    }
    proof {
        assert(values_of(r@) =~= goal);
    }
    r
}

} // verus!
