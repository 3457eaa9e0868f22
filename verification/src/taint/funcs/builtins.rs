//! Predeclared functions that are not called like others.

use vstd::prelude::*;

use crate::context::branches::BranchState;
use crate::context::reports::{ErrorLog, LogModel};
use crate::errors::{AnalysisErrorKind, ErrorModel};
use crate::labels::backtraces::{combined, trace_of, traces_of, LabelBacktrace, LabelBacktraceKind,
    Trace};
use crate::locations::{Location, Pinned, PinnedModel};
use crate::ordered::Ordered;
use crate::policy::blanket_directives::{directives_of, BlanketDirective};
use crate::policy::targets::{known_texts, SimpleConstValue};
use crate::taint::funcs::call_results::{apply_call_blanket_revocations, revoked};
use crate::values::composites::entries_of;
use crate::values::{carried, type_of, values_of, FormModel, KeyModel, PartKey, TypeInfo, TypeKind,
    TypeModel, Value, ValueForm, ValueModel};

verus! {

/// What an optional value carries.
pub open spec fn optional_flow(v: Option<ValueModel>) -> Option<Trace> {
    match v {
        Some(x) => carried(x),
        None => None,
    }
}

/// What an optional value stands for.
pub open spec fn optional_value(v: Option<Value>) -> Option<ValueModel> {
    match v {
        Some(x) => Some(x@),
        None => None,
    }
}

/// The values that there are.
pub open spec fn present(a: Option<ValueModel>, b: Option<ValueModel>) -> Seq<ValueModel> {
    (match a {
        Some(x) => seq![x],
        None => Seq::<ValueModel>::empty(),
    }) + (match b {
        Some(x) => seq![x],
        None => Seq::<ValueModel>::empty(),
    })
}

/// What `make` gives: a slice of which everything may carry what its length and
/// capacity do; an empty map; or a channel from which everything received
/// carries what the size of its buffer does.
pub open spec fn made(
    kind: Option<TypeKind>,
    n: Option<ValueModel>,
    m: Option<ValueModel>,
    declared_type: Option<TypeModel>,
    at: PinnedModel<Location>,
) -> ValueModel {
    let nothing = Seq::<(KeyModel, ValueModel)>::empty();
    match kind {
        Some(TypeKind::Slice) => ValueModel::composed(
            FormModel::Slice,
            nothing,
            present(n, m),
            at,
            declared_type,
        ),
        Some(TypeKind::Mapping) => ValueModel::composed(
            FormModel::Mapping,
            nothing,
            Seq::<ValueModel>::empty(),
            at,
            declared_type,
        ),
        Some(TypeKind::Channel) => ValueModel::composed(
            FormModel::Channel,
            nothing,
            Seq::<ValueModel>::empty(),
            at,
            declared_type,
        ).with_others(optional_flow(n), at),
        _ => ValueModel {
            declared_type,
            ..ValueModel::simple(
                combined(
                    optional_flow(n),
                    optional_flow(m),
                    LabelBacktraceKind::Expression,
                    at,
                ),
                at,
            )
        },
    }
}

/// The log after a call of `make`.
pub open spec fn make_reported(
    log: LogModel,
    kind: Option<TypeKind>,
    has_m: bool,
    location: Location,
) -> LogModel {
    match kind {
        Some(TypeKind::Slice) => log,
        Some(TypeKind::Mapping) | Some(TypeKind::Channel) => if has_m {
            log.with_error(
                ErrorModel::IncorrectCallCardinality { expected: 2, found: 3, location },
            )
        } else {
            log
        },
        _ => log.with_error(ErrorModel::UnexpectedBuiltInArgShape { location }),
    }
}

fn flow_of(v: &Option<Value>) -> (r: Option<LabelBacktrace>)
    ensures
        trace_of(r) == optional_flow(optional_value(*v)),
{
    match v {
        Some(x) => x.backtrace(),
        None => None,
    }
}

fn compose_without_keys(
    form: ValueForm,
    others: &Vec<Value>,
    location: Pinned<Location>,
    declared_type: Option<TypeInfo>,
) -> (r: Value)
    ensures
        r@ == ValueModel::composed(
            form@,
            Seq::<(KeyModel, ValueModel)>::empty(),
            values_of(others@),
            location@,
            type_of(declared_type),
        ),
{
    let entries: Vec<(PartKey, Value)> = Vec::new();
    proof {
        assert(entries_of(entries@) =~= Seq::<(KeyModel, ValueModel)>::empty());
    }
    Value::compose(form, entries, others, location, declared_type)
}

/// Visits a call of `make` for a type of a kind, with up to two more arguments.
pub fn visit_make(
    log: &mut ErrorLog,
    kind: Option<TypeKind>,
    n: Option<Value>,
    m: Option<Value>,
    declared_type: Option<TypeInfo>,
    location: Location,
) -> (r: Value)
    requires
        old(log)@.file is Some,
    ensures
        r@ == made(
            kind,
            optional_value(n),
            optional_value(m),
            type_of(declared_type),
            PinnedModel { file: old(log)@.file->0, inner: location },
        ),
        final(log)@ == make_reported(old(log)@, kind, m is Some, location),
{
    let at = log.pin(location);
    match kind {
        Some(TypeKind::Slice) => {
            let ghost goal = present(optional_value(n), optional_value(m));
            let mut others: Vec<Value> = Vec::new();
            if let Some(v) = n {
                others.push(v);
            }
            if let Some(v) = m {
                others.push(v);
            }
            proof {
                assert(values_of(others@) =~= goal);
            }
            compose_without_keys(ValueForm::Slice, &others, at, declared_type)
        },
        Some(TypeKind::Mapping) | Some(TypeKind::Channel) => {
            if m.is_some() {
                log.report_error(
                    AnalysisErrorKind::IncorrectCallCardinality { expected: 2, found: 3, location },
                );
            }
            let nothing: Vec<Value> = Vec::new();
            proof {
                assert(values_of(nothing@) =~= Seq::<ValueModel>::empty());
            }
            match kind {
                Some(TypeKind::Channel) => {
                    let initial = flow_of(&n);
                    let mut channel = compose_without_keys(
                        ValueForm::Channel,
                        &nothing,
                        at.duplicate(),
                        declared_type,
                    );
                    channel.set_dyn(initial, &at);
                    channel
                },
                _ => compose_without_keys(ValueForm::Mapping, &nothing, at, declared_type),
            }
        },
        _ => {
            log.report_error(AnalysisErrorKind::UnexpectedBuiltInArgShape { location });
            let backtrace = LabelBacktrace::combine_options(
                flow_of(&n),
                flow_of(&m),
                LabelBacktraceKind::Expression,
                &at,
            );
            let mut r = Value::from_backtrace_or_bottom_at(backtrace, &at);
            r.set_declared_type(declared_type);
            r
        },
    }
}

/// The results of a predeclared function, from which the policy for it takes
/// labels away.
pub fn apply_predeclared_blanket_revocations(
    results: &mut Vec<Value>,
    directives: &Vec<BlanketDirective>,
    arg_consts: &Vec<Option<SimpleConstValue>>,
)
    ensures
        values_of(final(results)@) == revoked(
            values_of(old(results)@),
            directives_of(directives@),
            known_texts(arg_consts@),
        ),
{
    apply_call_blanket_revocations(results, directives, arg_consts);
}

/// A slice to which the elements up to a position are appended.
pub open spec fn appended(
    slice: ValueModel,
    args: Seq<ValueModel>,
    at: PinnedModel<Location>,
    n: int,
) -> ValueModel
    decreases n,
{
    if n <= 1 {
        ValueModel { form: FormModel::Slice, ..slice }
    } else {
        appended(slice, args, at, n - 1).with_others(carried(args[n - 1]), at)
    }
}

/// What `append` is reported for, if anything: it needs a slice and at least
/// one element, or a slice and exactly one other one.
pub open spec fn append_fault(
    args: Seq<ValueModel>,
    variadic: bool,
    location: Location,
) -> Option<ErrorModel> {
    if args.len() < 2 {
        Some(
            ErrorModel::IncorrectCallCardinality {
                expected: 2,
                found: args.len() as usize,
                location,
            },
        )
    } else if !args[0].form.can_become(FormModel::Slice) {
        Some(ErrorModel::UnexpectedBuiltInArgShape { location })
    } else if variadic && args.len() != 2 {
        Some(
            ErrorModel::IncorrectCallCardinality {
                expected: 2,
                found: args.len() as usize,
                location,
            },
        )
    } else {
        None
    }
}

/// Visits a call of `append`. The slice itself stays as it is.
pub fn visit_append(
    log: &mut ErrorLog,
    args: &Vec<Value>,
    variadic: bool,
    location: Location,
) -> (r: Value)
    requires
        old(log)@.file is Some,
    ensures
        ({
            let at = PinnedModel { file: old(log)@.file->0, inner: location };
            match append_fault(values_of(args@), variadic, location) {
                Some(e) => r@ == ValueModel::simple(None, at) && final(log)@ == old(
                    log,
                )@.with_error(e),
                None => r@ == appended(
                    args@[0]@,
                    values_of(args@),
                    at,
                    args@.len() as int,
                ) && final(log)@ == old(log)@,
            }
        }),
{
    let ghost vs = values_of(args@);
    let at = log.pin(location);
    let n: usize = args.len();
    if n < 2 {
        log.report_error(
            AnalysisErrorKind::IncorrectCallCardinality { expected: 2, found: n, location },
        );
        return Value::new_bottom(at, None);
    }
    proof {
        assert(vs[0] == args@[0]@);
    }
    if !args[0].form.can_become(&ValueForm::Slice) {
        log.report_error(AnalysisErrorKind::UnexpectedBuiltInArgShape { location });
        return Value::new_bottom(at, None);
    }
    if variadic && n != 2 {
        log.report_error(
            AnalysisErrorKind::IncorrectCallCardinality { expected: 2, found: n, location },
        );
        return Value::new_bottom(at, None);
    }
    let mut result = args[0].clone();
    proof {
        result.lemma_parts();
    }
    result.form = ValueForm::Slice;
    proof {
        result.lemma_parts();
    }
    let mut i: usize = 1;
    while i < n
        invariant
            1 <= i <= n,
            n == args@.len(),
            vs == values_of(args@),
            result@ == appended(args@[0]@, vs, at@, i as int),
        decreases n - i,
    {
        proof {
            assert(vs[i as int] == args@[i as int]@);
        }
        result.set_dyn(args[i].backtrace(), &at);
        i = i + 1;
    }
    result
}

/// What `copy` gives: it carries all that both slices do, as all elements
/// matter to how many are copied.
pub open spec fn copied_count(
    dst: ValueModel,
    src: ValueModel,
    at: PinnedModel<Location>,
) -> ValueModel {
    ValueModel::simple(
        combined(carried(dst), carried(src), LabelBacktraceKind::Expression, at),
        at,
    )
}

/// The slice to which `copy` copies. Nothing is known any more of where it
/// carries what.
pub open spec fn copied_into(
    dst: ValueModel,
    src: ValueModel,
    at: PinnedModel<Location>,
) -> ValueModel {
    dst.blurred(FormModel::Slice, at).with_others(carried(src), at)
}

/// Visits a call of `copy`. Returns the new value of the slice that is copied
/// to, if it is one, and the number of elements.
pub fn visit_copy(
    log: &mut ErrorLog,
    dst: &Value,
    src: &Value,
    location: Location,
) -> (r: (Option<Value>, Value))
    requires
        old(log)@.file is Some,
    ensures
        ({
            let at = PinnedModel { file: old(log)@.file->0, inner: location };
            &&& r.1@ == copied_count(dst@, src@, at)
            &&& if dst@.form.can_become(FormModel::Slice) {
                r.0 is Some && r.0->0@ == copied_into(dst@, src@, at) && final(log)@ == old(log)@
            } else {
                r.0 is None && final(log)@ == old(log)@.with_error(
                    ErrorModel::UnexpectedBuiltInArgShape { location },
                )
            }
        }),
{
    let at = log.pin(location);
    let both = LabelBacktrace::combine_options(
        dst.backtrace(),
        src.backtrace(),
        LabelBacktraceKind::Expression,
        &at,
    );
    let count = Value::from_backtrace_or_bottom_at(both, &at);
    if !dst.form.can_become(&ValueForm::Slice) {
        log.report_error(AnalysisErrorKind::UnexpectedBuiltInArgShape { location });
        return (None, count);
    }
    let mut target = dst.clone();
    target.blur(ValueForm::Slice, &at);
    target.set_dyn(src.backtrace(), &at);
    (Some(target), count)
}

/// What `clear` makes of a value, if it can be cleared: nothing is left of a
/// map, but a slice keeps its length, and so all that it carries.
pub open spec fn cleared(v: ValueModel, at: PinnedModel<Location>) -> Option<ValueModel> {
    if v.form is Mapping {
        Some(ValueModel::simple(None, at))
    } else if v.form.can_become(FormModel::Slice) {
        Some(v.blurred(FormModel::Slice, at))
    } else {
        None
    }
}

/// Visits a call of `clear`. Returns the new value of what is cleared, if it
/// can be.
pub fn visit_clear(log: &mut ErrorLog, value: &Value, location: Location) -> (r: Option<Value>)
    requires
        old(log)@.file is Some,
    ensures
        optional_value(r) == cleared(
            value@,
            PinnedModel { file: old(log)@.file->0, inner: location },
        ),
        final(log)@ == if r is Some {
            old(log)@
        } else {
            old(log)@.with_error(ErrorModel::UnexpectedBuiltInArgShape { location })
        },
{
    let at = log.pin(location);
    if let ValueForm::Mapping = &value.form {
        return Some(Value::new_bottom(at, None));
    }
    if value.form.can_become(&ValueForm::Slice) {
        let mut r = value.clone();
        r.blur(ValueForm::Slice, &at);
        return Some(r);
    }
    log.report_error(AnalysisErrorKind::UnexpectedBuiltInArgShape { location });
    None
}

/// A channel after it is closed: it carries what decides whether that is done.
pub open spec fn closed_channel(
    v: ValueModel,
    branch: Option<Trace>,
    at: PinnedModel<Location>,
) -> ValueModel {
    match branch {
        Some(t) => if v.form.can_become(FormModel::Channel) {
            (ValueModel { form: FormModel::Channel, ..v }).nesting(
                LabelBacktraceKind::Branch,
                None,
                at,
                seq![t],
            )
        } else {
            v
        },
        None => v,
    }
}

/// Visits a call of `close`. Returns the new value of the channel.
pub fn close_channel(branches: &BranchState, target: Value, at: &Pinned<Location>) -> (r: Value)
    ensures
        r@ == closed_channel(target@, branches@.current(), at@),
{
    let mut r = target;
    if let Some(b) = branches.branch_backtrace() {
        if r.form.can_become(&ValueForm::Channel) {
            proof {
                r.lemma_parts();
            }
            r.form = ValueForm::Channel;
            proof {
                r.lemma_parts();
            }
            let mut more: Vec<LabelBacktrace> = Vec::new();
            more.push(b.clone());
            proof {
                assert(traces_of(more@) =~= seq![b@]);
            }
            r.nest_backtrace(LabelBacktraceKind::Branch, None, at.duplicate(), &more);
        }
    }
    r
}

/// A map after an element is deleted: it is like one that carries nothing.
pub open spec fn deleted(
    v: ValueModel,
    key: Option<KeyModel>,
    key_flow: Option<Trace>,
    at: PinnedModel<Location>,
) -> ValueModel {
    v.written_at(FormModel::Mapping, key, ValueModel::simple(None, at), key_flow, at)
}

/// Visits a call of `delete`. Returns the new value of the map, if it is one.
pub fn visit_delete(
    log: &mut ErrorLog,
    map: &Value,
    key: Option<PartKey>,
    key_backtrace: Option<LabelBacktrace>,
    location: Location,
) -> (r: Option<Value>)
    requires
        old(log)@.file is Some,
    ensures
        ({
            let at = PinnedModel { file: old(log)@.file->0, inner: location };
            if map@.form.can_become(FormModel::Mapping) {
                &&& optional_value(r) == Some(
                    deleted(
                        map@,
                        match key {
                            Some(k) => Some(k@),
                            None => None,
                        },
                        trace_of(key_backtrace),
                        at,
                    ),
                )
                &&& final(log)@ == old(log)@
            } else {
                r is None && final(log)@ == old(log)@.with_error(
                    ErrorModel::UnexpectedBuiltInArgShape { location },
                )
            }
        }),
{
    let at = log.pin(location);
    if !map.form.can_become(&ValueForm::Mapping) {
        log.report_error(AnalysisErrorKind::UnexpectedBuiltInArgShape { location });
        return None;
    }
    let mut r = map.clone();
    let nothing = Value::from_backtrace_or_bottom_at(None, &at);
    r.set_at_key(ValueForm::Mapping, key, nothing, key_backtrace, &at);
    Some(r)
}

/// Visits a call of `len`: the length of a value carries all that the value
/// does.
pub fn visit_len(value: &Value, at: &Pinned<Location>) -> (r: Value)
    ensures
        r@ == ValueModel::simple(carried(value@), at@),
{
    Value::from_backtrace_or_bottom_at(value.backtrace(), at)
}

/// Whether a predeclared function is called with as many arguments as it
/// takes. If not, that is reported.
pub fn check_cardinality(
    log: &mut ErrorLog,
    expected: usize,
    found: usize,
    location: Location,
) -> (r: bool)
    ensures
        r == (expected == found),
        final(log)@ == if r {
            old(log)@
        } else {
            old(log)@.with_error(
                ErrorModel::IncorrectCallCardinality { expected, found, location },
            )
        },
{
    if expected == found {
        return true;
    }
    log.report_error(AnalysisErrorKind::IncorrectCallCardinality { expected, found, location });
    false
}

/// A predeclared function that is not called like others.
#[derive(Debug)]
pub enum SpecialBuiltin {
    /// `append`, whose last argument may be a list of arguments.
    Append { variadic: bool },
    /// `copy`.
    Copy,
    /// `clear`.
    Clear,
    /// `close`.
    Close,
    /// `delete`, with the key of the second argument, if it is known.
    Delete { key: Option<PartKey> },
    /// `len` or `cap`.
    Len,
}

/// What a call of a predeclared function comes to.
#[verifier::ext_equal]
pub struct BuiltinModel {
    /// Its results.
    pub results: Seq<ValueModel>,
    /// The value that its first argument gets.
    pub written: Option<ValueModel>,
    /// What is wrong with it.
    pub fault: Option<ErrorModel>,
}

/// A call with the wrong number of arguments.
pub open spec fn miscounted(
    expected: usize,
    found: nat,
    results: Seq<ValueModel>,
    location: Location,
) -> BuiltinModel {
    BuiltinModel {
        results,
        written: None,
        fault: Some(
            ErrorModel::IncorrectCallCardinality { expected, found: found as usize, location },
        ),
    }
}

/// What a call of a predeclared function comes to, before the policy has its
/// What a [`SpecialBuiltin`] stands for.
pub enum BuiltinKind {
    Append { variadic: bool },
    Copy,
    Clear,
    Close,
    Delete { key: Option<KeyModel> },
    Len,
}

impl View for SpecialBuiltin {
    type V = BuiltinKind;

    open spec fn view(&self) -> BuiltinKind {
        match self {
            SpecialBuiltin::Append { variadic } => BuiltinKind::Append { variadic: *variadic },
            SpecialBuiltin::Copy => BuiltinKind::Copy,
            SpecialBuiltin::Clear => BuiltinKind::Clear,
            SpecialBuiltin::Close => BuiltinKind::Close,
            SpecialBuiltin::Delete { key } => BuiltinKind::Delete {
                key: match key {
                    Some(k) => Some(k@),
                    None => None,
                },
            },
            SpecialBuiltin::Len => BuiltinKind::Len,
        }
    }
}

/// say.
pub open spec fn builtin_called(
    which: BuiltinKind,
    args: Seq<ValueModel>,
    branch: Option<Trace>,
    at: PinnedModel<Location>,
) -> BuiltinModel {
    let none = Seq::<ValueModel>::empty();
    let bottom = seq![ValueModel::simple(None, at)];
    let shape = Some(ErrorModel::UnexpectedBuiltInArgShape { location: at.inner });
    match which {
        BuiltinKind::Append { variadic } => match append_fault(args, variadic, at.inner) {
            Some(e) => BuiltinModel { results: bottom, written: None, fault: Some(e) },
            None => BuiltinModel {
                results: seq![appended(args[0], args, at, args.len() as int)],
                written: None,
                fault: None,
            },
        },
        BuiltinKind::Copy => if args.len() != 2 {
            miscounted(2, args.len(), bottom, at.inner)
        } else if args[0].form.can_become(FormModel::Slice) {
            BuiltinModel {
                results: seq![copied_count(args[0], args[1], at)],
                written: Some(copied_into(args[0], args[1], at)),
                fault: None,
            }
        } else {
            BuiltinModel {
                results: seq![copied_count(args[0], args[1], at)],
                written: None,
                fault: shape,
            }
        },
        BuiltinKind::Clear => if args.len() != 1 {
            miscounted(1, args.len(), none, at.inner)
        } else {
            let now = cleared(args[0], at);
            BuiltinModel {
                results: none,
                written: now,
                fault: if now is Some {
                    None
                } else {
                    shape
                },
            }
        },
        BuiltinKind::Close => if args.len() != 1 {
            miscounted(1, args.len(), none, at.inner)
        } else {
            BuiltinModel {
                results: none,
                written: Some(closed_channel(args[0], branch, at)),
                fault: None,
            }
        },
        BuiltinKind::Delete { key } => if args.len() != 2 {
            miscounted(2, args.len(), none, at.inner)
        } else if args[0].form.can_become(FormModel::Mapping) {
            BuiltinModel {
                results: none,
                written: Some(
                    deleted(
                        args[0],
                        key,
                        carried(args[1]),
                        at,
                    ),
                ),
                fault: None,
            }
        } else {
            BuiltinModel { results: none, written: None, fault: shape }
        },
        BuiltinKind::Len => if args.len() != 1 {
            miscounted(1, args.len(), bottom, at.inner)
        } else {
            BuiltinModel {
                results: seq![ValueModel::simple(carried(args[0]), at)],
                written: None,
                fault: None,
            }
        },
    }
}

fn one_value(v: Value) -> (r: Vec<Value>)
    ensures
        values_of(r@) == seq![v@],
{
    let ghost m = v@;
    let mut r: Vec<Value> = Vec::new();
    r.push(v);
    proof {
        assert(values_of(r@) =~= seq![m]);
    }
    r
}

fn no_values() -> (r: Vec<Value>)
    ensures
        values_of(r@) == Seq::<ValueModel>::empty(),
{
    let r: Vec<Value> = Vec::new();
    proof {
        assert(values_of(r@) =~= Seq::<ValueModel>::empty());
    }
    r
}

fn apply_special_builtin(
    log: &mut ErrorLog,
    branches: &BranchState,
    which: SpecialBuiltin,
    args: &Vec<Value>,
    location: Location,
) -> (r: (Vec<Value>, Option<Value>))
    requires
        old(log)@.file is Some,
    ensures
        ({
            let m = builtin_called(
                which@,
                values_of(args@),
                branches@.current(),
                PinnedModel { file: old(log)@.file->0, inner: location },
            );
            &&& values_of(r.0@) == m.results
            &&& optional_value(r.1) == m.written
            &&& final(log)@ == match m.fault {
                Some(e) => old(log)@.with_error(e),
                None => old(log)@,
            }
        }),
{
    let at = log.pin(location);
    let n: usize = args.len();
    proof {
        assert forall|i: int| 0 <= i < n implies #[trigger] values_of(args@)[i] == args@[i]@ by {
        }
        assert(values_of(args@).len() == n);
        if n == 1 {
            assert(values_of(args@)[0] == args@[0]@);
        }
        if n == 2 {
            assert(values_of(args@)[0] == args@[0]@);
            assert(values_of(args@)[1] == args@[1]@);
        }
    }
    match which {
        SpecialBuiltin::Append { variadic } => {
            proof {
                if n > 0 {
                    assert(values_of(args@)[0] == args@[0]@);
                }
            }
            (one_value(visit_append(log, args, variadic, location)), None)
        },
        SpecialBuiltin::Copy => {
            if !check_cardinality(log, 2, n, location) {
                return (one_value(Value::from_backtrace_or_bottom_at(None, &at)), None);
            }
            let (written, count) = visit_copy(log, &args[0], &args[1], location);
            (one_value(count), written)
        },
        SpecialBuiltin::Clear => {
            if !check_cardinality(log, 1, n, location) {
                return (no_values(), None);
            }
            let written = visit_clear(log, &args[0], location);
            (no_values(), written)
        },
        SpecialBuiltin::Close => {
            if !check_cardinality(log, 1, n, location) {
                return (no_values(), None);
            }
            (no_values(), Some(close_channel(branches, args[0].clone(), &at)))
        },
        SpecialBuiltin::Delete { key } => {
            if !check_cardinality(log, 2, n, location) {
                return (no_values(), None);
            }
            let flow = args[1].backtrace();
            let written = visit_delete(log, &args[0], key, flow, location);
            (no_values(), written)
        },
        SpecialBuiltin::Len => {
            if !check_cardinality(log, 1, n, location) {
                return (one_value(Value::from_backtrace_or_bottom_at(None, &at)), None);
            }
            (one_value(visit_len(&args[0], &at)), None)
        },
    }
}

/// Visits a call of a predeclared function that is not called like others, with
/// what the policy says of it. Returns its results, and the value that its
/// first argument gets.
pub fn visit_special_builtin_call(
    log: &mut ErrorLog,
    branches: &BranchState,
    which: SpecialBuiltin,
    args: &Vec<Value>,
    directives: &Vec<BlanketDirective>,
    arg_consts: &Vec<Option<SimpleConstValue>>,
    location: Location,
) -> (r: (Vec<Value>, Option<Value>))
    requires
        old(log)@.file is Some,
    ensures
        ({
            let m = builtin_called(
                which@,
                values_of(args@),
                branches@.current(),
                PinnedModel { file: old(log)@.file->0, inner: location },
            );
            &&& values_of(r.0@) == revoked(m.results, directives_of(directives@), known_texts(arg_consts@))
            &&& optional_value(r.1) == m.written
            &&& final(log)@ == match m.fault {
                Some(e) => old(log)@.with_error(e),
                None => old(log)@,
            }
        }),
{
    let (called, written) = apply_special_builtin(log, branches, which, args, location);
    let mut results = called;
    apply_predeclared_blanket_revocations(&mut results, directives, arg_consts);
    (results, written)
}

} // verus!
