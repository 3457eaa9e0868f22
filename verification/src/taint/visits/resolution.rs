//! Calls.

use vstd::prelude::*;

use crate::ast::{Node, NodeKind};
use crate::context::ContextModel;
use crate::errors::{AnalysisErrorKind, ErrorModel};
use crate::labels::backtraces::LabelBacktraceKind;
use crate::labels::tags::{text_of, TagModel};
use crate::labels::Label;
use crate::locations::Location;
use crate::ordered::{same, same_text, Ordered};
use crate::policy::targets::{known_texts, SimpleConstValue};
use crate::symbols::const_of;
use crate::symbols::table::packages::lemma_unique_method;
use crate::symbols::table::{SymbolTable, TableModel};
use crate::taint::explicit::{all_assigned, known_of, lefts_of, visit_raw_assignment, KnownModel};
use crate::taint::exprs::component::{find_key, key_of_index};
use crate::taint::exprs::visits::{ExprModel, ExprNode};
use crate::taint::funcs::builtins::{builtin_called, optional_value, visit_special_builtin_call,
    BuiltinKind, SpecialBuiltin};
use crate::taint::funcs::call_resolution::{decide_call, decided, decision_reported,
    first_result_type, is_special_builtin, is_special_builtin_call,
    try_extract_typed_selection_callee, typed_callee, CallDecision};
use crate::taint::funcs::call_results::revoked;
use crate::taint::funcs::captures::collector::{root_of, root_operand};
use crate::taint::funcs::defers::by_reference;
use crate::taint::funcs::{converted, FunctionSummary, SummaryModel};
use crate::taint::implicit::{Place, PlaceModel};
use crate::taint::mutation::{LeftModel, LeftValue};
use crate::taint::visits::callees::{called, find_callee};
use crate::taint::visits::calls::{apply_call_operands, call_applied, CallOperands, OperandsModel};
use crate::taint::visits::exprs::{left_visited, no_values, only_value, single_visited,
    singles_visited, visit_left, visit_single_expr, visit_single_exprs};
use crate::taint::visits::{known_in, try_resolve_simple_const, Env};
use crate::values::{carried, copy_type, type_of, values_of, FormModel, KeyModel, TypeInfo, TypeKind,
    TypeModel, Value, ValueForm, ValueModel};

verus! {

/// What is called.
#[derive(Debug)]
pub struct Callee {
    /// Its value.
    pub value: Value,
    /// Whether it was found by the type of the receiver.
    pub by_type: bool,
    /// The receiver, if it is called as a method.
    pub receiver: Option<Value>,
    /// The name behind the receiver, if it is called as a method.
    pub selector: Option<String>,
}

/// What a [`Callee`] stands for.
#[verifier::ext_equal]
pub struct CalleeModel {
    pub value: ValueModel,
    pub by_type: bool,
    pub receiver: Option<ValueModel>,
    pub selector: Option<Seq<char>>,
}

impl View for Callee {
    type V = CalleeModel;

    open spec fn view(&self) -> CalleeModel {
        CalleeModel {
            value: self.value@,
            by_type: self.by_type,
            receiver: optional_value(self.receiver),
            selector: text_of(self.selector),
        }
    }
}

/// What a call comes to before it is applied.
#[derive(Debug)]
pub enum Resolution {
    /// Its results, as there is nothing to apply.
    Final(Vec<Value>),
    /// A call whose operands have been evaluated.
    Pending(CallOperands),
}

/// What a [`Resolution`] stands for.
#[verifier::ext_equal]
pub enum ResolutionModel {
    Final(Seq<ValueModel>),
    Pending(OperandsModel),
}

impl View for Resolution {
    type V = ResolutionModel;

    open spec fn view(&self) -> ResolutionModel {
        match self {
            Resolution::Final(values) => ResolutionModel::Final(values_of(values@)),
            Resolution::Pending(call) => ResolutionModel::Pending(call@),
        }
    }
}

/// Whether a value is one of a struct.
pub open spec fn is_struct(v: ValueModel) -> bool {
    v.declared_type matches Some(t) && t.kind is Struct
}

/// What a selection is that is called, once its base has been evaluated. The
/// type of the base tells, if it can; otherwise it is selected as always.
pub open spec fn selected_callee(
    env: Env<'_>,
    q: PlaceModel,
    base: ValueModel,
    node: Node,
) -> (PlaceModel, CalleeModel) {
    let selector = node.names@[0]@;
    let member = env.member_of(q.table, base, selector.content);
    let as_method = !(base.form is Package);
    let extracted = if as_method {
        typed_callee(
            q.table,
            base,
            selector.content,
            member.method,
            match member.field {
                Some(f) => Some(f.1),
                None => None,
            },
            is_struct(base),
            q.at(node.location),
        )
    } else {
        None
    };
    let m = ExprModel::Selection { base, selector, member };
    let receiver = if as_method {
        Some(base)
    } else {
        None
    };
    let name = if as_method {
        Some(selector.content)
    } else {
        None
    };
    match extracted {
        Some(v) => (
            q,
            CalleeModel { value: v, by_type: true, receiver, selector: name },
        ),
        None => (
            q.after(m, node.location),
            CalleeModel {
                value: q.value_of(m, node.location).value.collapsed(),
                by_type: false,
                receiver,
                selector: name,
            },
        ),
    }
}

/// What is called, and the place once that is visited. The base of a selection
/// is visited once.
pub open spec fn callee_visited(env: Env<'_>, p: PlaceModel, node: Node, limit: nat) -> (
    PlaceModel,
    CalleeModel,
)
    decreases limit, 0int, node, 11int, 0int,
{
    if node.kind is Selection && node.children@.len() == 1 && node.names@.len() > 0 {
        let (q, base) = single_visited(env, p, node.children@[0], limit);
        selected_callee(env, q, base, node)
    } else {
        let (q, value) = single_visited(env, p, node, limit);
        (q, CalleeModel { value, by_type: false, receiver: None, selector: None })
    }
}

/// The only method of a name in the current package, if it is a function.
pub open spec fn unique_callee(t: TableModel, selector: Option<Seq<char>>) -> Option<SummaryModel> {
    match selector {
        Some(name) => match t.unique_method(name) {
            Some(m) => t.callee(t.symbols[m as int].value),
            None => None,
        },
        None => None,
    }
}

/// Whether the only method of the name that is called is what is called.
pub open spec fn is_consistent(func: Option<SummaryModel>, unique: Option<SummaryModel>) -> bool {
    func is Some && unique is Some && unique->0.signature is Some ==> unique->0.func
        == func->0.func
}

/// The place once it is decided what becomes of a call.
pub open spec fn after_decision(
    p: PlaceModel,
    callee: CalleeModel,
    args: nat,
    location: Location,
) -> PlaceModel {
    PlaceModel {
        ctx: ContextModel {
            log: decision_reported(
                p.ctx.log,
                called(p.table, callee.value),
                callee.by_type,
                callee.receiver is Some,
                unique_callee(p.table, callee.selector),
                args,
                location,
            ),
            ..p.ctx
        },
        ..p
    }
}

/// What becomes of a call.
pub open spec fn decision_on(p: PlaceModel, callee: CalleeModel, args: nat) -> CallDecision {
    decided(
        called(p.table, callee.value),
        callee.by_type,
        callee.receiver is Some,
        unique_callee(p.table, callee.selector),
        args,
    )
}

/// The type to which a call converts.
pub open spec fn target_type(t: TableModel, callee: ValueModel) -> Option<TypeModel> {
    match called(t, callee) {
        Some(f) => first_result_type(f.declared_result_types),
        None => None,
    }
}

/// The name that is called, if it is just a name.
pub open spec fn called_name(node: Node) -> Option<Seq<char>> {
    if node.kind is Name && node.names@.len() == 1 {
        Some(node.names@[0]@.content)
    } else {
        None
    }
}

/// What a call comes to before it is applied, and the place then. Arguments are
/// only visited once it is decided that the call is applied, or converts.
pub open spec fn call_resolved(env: Env<'_>, p: PlaceModel, node: Node, limit: nat) -> (
    PlaceModel,
    ResolutionModel,
)
    decreases limit, 0int, node, 7int, 0int,
{
    if node.children@.len() == 0 {
        (p.stopped(), ResolutionModel::Final(no_values()))
    } else {
        let args = (node.children@.len() - 1) as nat;
        let (q, callee) = callee_visited(env, p, node.children@[0], limit);
        if !is_consistent(
            called(q.table, callee.value),
            unique_callee(q.table, callee.selector),
        ) {
            (q.stopped(), ResolutionModel::Final(no_values()))
        } else {
            let r = after_decision(q, callee, args, node.location);
            let ty = target_type(q.table, callee.value);
            match decision_on(q, callee, args) {
                CallDecision::Refused => (r, ResolutionModel::Final(no_values())),
                CallDecision::ConvertNothing => (
                    r,
                    ResolutionModel::Final(
                        seq![converted(no_values(), ty, r.at(node.location))],
                    ),
                ),
                CallDecision::Convert => {
                    let (s, value) = single_visited(env, r, node.children@[1], limit);
                    (
                        s,
                        ResolutionModel::Final(
                            seq![converted(seq![value], ty, s.at(node.location))],
                        ),
                    )
                },
                CallDecision::Apply { as_blackbox } => {
                    let (s, values) = singles_visited(
                        env,
                        r,
                        node,
                        1,
                        node.children@.len() as int,
                        limit,
                    );
                    (
                        s,
                        ResolutionModel::Pending(
                            OperandsModel {
                                callee: callee.value,
                                as_blackbox,
                                args: values.map_values(|k: KnownModel| k.0),
                                consts: values.map_values(|k: KnownModel| k.1),
                                receiver: callee.receiver,
                                name: called_name(node.children@[0]),
                                location: node.location,
                            },
                        ),
                    )
                },
            }
        }
    }
}

/// Whether a call is one of a function that is known to the language and treated
/// as an expression of its own.
pub open spec fn is_builtin_call(p: PlaceModel, node: Node) -> bool {
    node.children@.len() > 0 && called_name(node.children@[0]) is Some && {
        let name = called_name(node.children@[0])->0;
        let t = p.table;
        t.scopes[0].symbols.dom().contains(name) && t.resolved(Some(t.current), name) == Some(
            t.scopes[0].symbols[name],
        ) && is_special_builtin(name)
    }
}

/// The results of a call, and the place once it is visited.
pub open spec fn call_visited(env: Env<'_>, p: PlaceModel, node: Node, limit: nat) -> (
    PlaceModel,
    Seq<ValueModel>,
)
    decreases limit, 0int, node, 8int, 0int,
{
    if is_builtin_call(p, node) {
        builtin_visited(env, p, node, limit)
    } else {
        let (q, resolution) = call_resolved(env, p, node, limit);
        match resolution {
            ResolutionModel::Final(values) => (q, values),
            ResolutionModel::Pending(call) => call_applied(
                q,
                call,
                by_reference(&node.annotation),
                limit,
            ),
        }
    }
}

/// How many arguments a function takes that is known to the language.
pub open spec fn builtin_arity(name: Seq<char>) -> usize {
    if name == "append"@ || name == "copy"@ || name == "delete"@ {
        2
    } else {
        1
    }
}

/// Whether a function that is known to the language has a result.
pub open spec fn builtin_has_result(name: Seq<char>) -> bool {
    name == "append"@ || name == "copy"@ || name == "len"@ || name == "cap"@
}

/// Whether a function that is known to the language changes its first argument,
/// and as what kind of assignment, if it is one.
pub open spec fn builtin_writes(name: Seq<char>) -> Option<Option<LabelBacktraceKind>> {
    if name == "copy"@ {
        Some(Some(LabelBacktraceKind::SliceCopy))
    } else if name == "clear"@ {
        Some(Some(LabelBacktraceKind::CollectionClear))
    } else if name == "delete"@ {
        Some(Some(LabelBacktraceKind::MapElementDelete))
    } else if name == "close"@ {
        Some(None)
    } else {
        None
    }
}

/// Which function it is that is known to the language.
pub open spec fn builtin_kind(
    name: Seq<char>,
    variadic: bool,
    key: Option<KeyModel>,
) -> BuiltinKind {
    if name == "append"@ {
        BuiltinKind::Append { variadic }
    } else if name == "copy"@ {
        BuiltinKind::Copy
    } else if name == "clear"@ {
        BuiltinKind::Clear
    } else if name == "close"@ {
        BuiltinKind::Close
    } else if name == "delete"@ {
        BuiltinKind::Delete { key }
    } else {
        BuiltinKind::Len
    }
}

impl PlaceModel {
    /// The place once something has got another value in an assignment.
    #[verifier::opaque]
    pub open spec fn reassigned(
        self,
        kind: LabelBacktraceKind,
        left: LeftModel,
        value: ValueModel,
        location: Location,
    ) -> PlaceModel {
        if left.symbol < self.table.symbols.len() {
            let (ctx, table) = all_assigned(
                self.ctx,
                self.table,
                seq![left],
                kind,
                seq![(value, None)],
                true,
                None,
                Set::<TagModel>::empty(),
                location,
                self.regions,
                1,
            );
            PlaceModel { ctx, table, ..self }
        } else {
            self.stopped()
        }
    }

    /// The place and the results once a function is called that is known to the
    /// language. `target` is what it changes, if that can be.
    #[verifier::opaque]
    pub open spec fn builtin_done(
        self,
        env: Env<'_>,
        name: Seq<char>,
        kind: BuiltinKind,
        args: Seq<ValueModel>,
        consts: Seq<Option<Seq<char>>>,
        target: Option<LeftModel>,
        location: Location,
    ) -> (PlaceModel, Seq<ValueModel>) {
        let m = builtin_called(kind, args, self.ctx.branches.current(), self.at(location));
        let q = match m.fault {
            Some(e) => self.reporting(e),
            None => self,
        };
        (
            match (m.written, target, builtin_writes(name)) {
                (Some(v), Some(l), Some(Some(k))) => q.reassigned(k, l, v, location),
                (Some(v), Some(l), Some(None)) => q.with_written(l, v, location),
                _ => q,
            },
            revoked(m.results, env.said("builtin"@, None, name), consts),
        )
    }
}

/// What the first argument of a function is that is known to the language, and
/// the place once it is visited: what can be assigned to is visited as such, if
/// it is changed.
pub open spec fn target_visited(
    env: Env<'_>,
    p: PlaceModel,
    node: Node,
    changes: bool,
    limit: nat,
) -> (PlaceModel, ValueModel, Option<LeftModel>)
    decreases limit, 0int, node, 11int, 0int,
{
    if changes && root_of(node) is Some {
        let (q, left) = left_visited(env, p, node, limit);
        let (r, value) = q.read_left(left, node.location);
        (r, value, Some(left))
    } else {
        let (q, value) = single_visited(env, p, node, limit);
        (q, value, None)
    }
}

/// The results of a call of a function that is known to the language, and the
/// place once it is visited. One with the wrong number of arguments is reported,
/// and none is visited.
pub open spec fn builtin_visited(env: Env<'_>, p: PlaceModel, node: Node, limit: nat) -> (
    PlaceModel,
    Seq<ValueModel>,
)
    decreases limit, 0int, node, 7int, 0int,
{
    if node.children@.len() == 0 {
        (p.stopped(), no_values())
    } else {
        let name = called_name(node.children@[0])->0;
        let count = (node.children@.len() - 1) as nat;
        let arity = builtin_arity(name);
        let variadic = node.kind matches NodeKind::Call { variadic } && variadic;
        if count < arity || (name != "append"@ && count > arity) {
            (
                p.reporting(
                    ErrorModel::IncorrectCallCardinality {
                        expected: arity,
                        found: count as usize,
                        location: node.location,
                    },
                ),
                if builtin_has_result(name) {
                    seq![ValueModel::simple(None, p.at(node.location))]
                } else {
                    no_values()
                },
            )
        } else if name == "copy"@ || name == "delete"@ {
            let first = known_in(p.table, node.children@[1]);
            let second = known_in(p.table, node.children@[2]);
            let (q, other) = single_visited(env, p, node.children@[2], limit);
            let (r, target, left) = target_visited(env, q, node.children@[1], true, limit);
            let key = key_of_index(
                FormModel::Mapping,
                if carried(other) is None {
                    second
                } else {
                    None
                },
            );
            r.builtin_done(
                env,
                name,
                builtin_kind(name, variadic, key),
                seq![target, other],
                seq![first, second],
                left,
                node.location,
            )
        } else if name == "append"@ {
            let (q, values) = singles_visited(
                env,
                p,
                node,
                1,
                node.children@.len() as int,
                limit,
            );
            q.builtin_done(
                env,
                name,
                builtin_kind(name, variadic, None),
                values.map_values(|k: KnownModel| k.0),
                values.map_values(|k: KnownModel| k.1),
                None,
                node.location,
            )
        } else {
            let known = known_in(p.table, node.children@[1]);
            let (q, target, left) = target_visited(
                env,
                p,
                node.children@[1],
                builtin_writes(name) is Some,
                limit,
            );
            q.builtin_done(
                env,
                name,
                builtin_kind(name, variadic, None),
                seq![target],
                seq![known],
                left,
                node.location,
            )
        }
    }
}

fn find_unique_callee(table: &SymbolTable, selector: &Option<String>) -> (r: Option<
    FunctionSummary,
>)
    requires
        table@.wf(),
    ensures
        unique_callee(table@, text_of(*selector)) == match r {
            Some(f) => Some(f@),
            None => None,
        },
{
    match selector {
        Some(name) => match table.lookup_unique_method_in_current_package(name.as_str()) {
            Some(m) => {
                proof {
                    let ty = choose|ty: Seq<char>| #[trigger]
                        table@.is_unique_method(ty, name@) && table@.method(ty, name@) == m;
                    lemma_unique_method(table@, ty, name@);
                }
                table.callee(&table.symbol(m).value)
            },
            None => None,
        },
        None => None,
    }
}

fn select_callee(env: &Env<'_>, place: &mut Place, base: Value, node: &Node) -> (r: Callee)
    requires
        old(place).wf(),
        node.names@.len() > 0,
    ensures
        final(place).wf(),
        (final(place)@, r@) == selected_callee(*env, old(place)@, base@, *node),
{
    let selector = node.names[0].duplicate();
    let member = env.member(&place.table, &base, selector.content());
    let as_method = match &base.form {
        ValueForm::Package(_) => false,
        _ => true,
    };
    let at = place.ctx.log.pin(node.location);
    let of_struct = match &base.declared_type {
        Some(t) => match t.kind {
            TypeKind::Struct => true,
            _ => false,
        },
        None => false,
    };
    let extracted = if as_method {
        try_extract_typed_selection_callee(
            &place.table,
            &base,
            selector.content(),
            member.method,
            member.field.as_ref(),
            of_struct,
            at,
        )
    } else {
        None
    };
    let receiver = if as_method {
        Some(base.clone())
    } else {
        None
    };
    let name = if as_method {
        Some(selector.content().to_owned())
    } else {
        None
    };
    match extracted {
        Some(value) => Callee { value, by_type: true, receiver, selector: name },
        None => {
            let result = place.evaluate(
                ExprNode::Selection { base, selector, member },
                node.location,
            );
            let value = result.value.extract_collapsed_single();
            Callee { value, by_type: false, receiver, selector: name }
        },
    }
}

fn visit_callee(env: &Env<'_>, place: &mut Place, node: &Node, limit: usize) -> (r: Callee)
    requires
        old(place).wf(),
    ensures
        final(place).wf(),
        (final(place)@, r@) == callee_visited(*env, old(place)@, *node, limit as nat),
    decreases limit, 0int, node, 11int, 0int,
{
    let selects = match node.kind {
        NodeKind::Selection => node.children.len() == 1 && node.names.len() > 0,
        _ => false,
    };
    if selects {
        let base = visit_single_expr(env, place, &node.children[0], limit);
        return select_callee(env, place, base, node);
    }
    let value = visit_single_expr(env, place, node, limit);
    Callee { value, by_type: false, receiver: None, selector: None }
}

fn decide(place: &mut Place, callee: &Callee, args: usize, location: Location) -> (r: Option<
    (CallDecision, Option<TypeInfo>),
>)
    requires
        old(place).wf(),
    ensures
        final(place).wf(),
        ({
            let p = old(place)@;
            let ok = is_consistent(
                called(p.table, callee@.value),
                unique_callee(p.table, callee@.selector),
            );
            &&& r is Some == ok
            &&& !ok ==> final(place)@ == p
            &&& r matches Some((d, ty)) ==> {
                &&& final(place)@ == after_decision(p, callee@, args as nat, location)
                &&& d == decision_on(p, callee@, args as nat)
                &&& type_of(ty) == target_type(p.table, callee@.value)
            }
        }),
{
    let ghost before = place@;
    let func = find_callee(&place.table, &callee.value);
    let unique = find_unique_callee(&place.table, &callee.selector);
    let consistent = match (&func, &unique) {
        (Some(f), Some(u)) => u.signature.is_none() || same(&u.func, &f.func),
        _ => true,
    };
    if !consistent {
        return None;
    }
    let ty = match &func {
        Some(f) => if f.declared_result_types.len() > 0 {
            copy_type(&f.declared_result_types[0])
        } else {
            None
        },
        None => None,
    };
    let d = decide_call(
        &mut place.ctx.log,
        func.as_ref(),
        callee.by_type,
        callee.receiver.is_some(),
        unique.as_ref(),
        args,
        location,
    );
    proof {
        assert(place@ =~= after_decision(before, callee@, args as nat, location));
    }
    Some((d, ty))
}

fn convert(operand: Option<Value>, ty: Option<TypeInfo>, place: &Place, location: Location) -> (r:
    Value)
    requires
        place.wf(),
    ensures
        r@ == converted(
            match operand {
                Some(v) => seq![v@],
                None => no_values(),
            },
            type_of(ty),
            place@.at(location),
        ),
{
    let at = place.ctx.log.pin(location);
    match operand {
        Some(v) => {
            let ghost m = v@;
            let mut r = v;
            r.location = at;
            r.declared_type = ty;
            proof {
                assert(r@ =~= ValueModel {
                    location: place@.at(location),
                    declared_type: type_of(ty),
                    ..m
                });
            }
            r
        },
        None => Value::new_bottom(at, ty),
    }
}

/// Values and what is known of them, apart.
fn split_known(values: Vec<(Value, Option<SimpleConstValue>)>) -> (r: (
    Vec<Value>,
    Vec<Option<SimpleConstValue>>,
))
    ensures
        values_of(r.0@) == known_of(values@).map_values(|k: KnownModel| k.0),
        known_texts(r.1@) == known_of(values@).map_values(|k: KnownModel| k.1),
        r.0@.len() == r.1@.len(),
{
    let ghost all = values@;
    let mut rest = values;
    let n: usize = rest.len();
    let mut vs: Vec<Value> = Vec::new();
    let mut cs: Vec<Option<SimpleConstValue>> = Vec::new();
    let mut i: usize = 0;
    proof {
        assert(rest@ =~= all.skip(0));
    }
    while i < n
        invariant
            i <= n,
            n == all.len(),
            rest@ == all.skip(i as int),
            vs@.len() == i,
            cs@.len() == i,
            forall|k: int| 0 <= k < i ==> (#[trigger] vs@[k])@ == all[k].0@,
            forall|k: int| 0 <= k < i ==> const_of(#[trigger] cs@[k]) == const_of(all[k].1),
        decreases n - i,
    {
        let (v, c) = rest.remove(0);
        proof {
            assert((v, c) == all[i as int]);
            assert(rest@ =~= all.skip(i + 1));
        }
        vs.push(v);
        cs.push(c);
        i = i + 1;
    }
    proof {
        assert(values_of(vs@) =~= known_of(all).map_values(|k: KnownModel| k.0));
        assert(known_texts(cs@) =~= known_of(all).map_values(|k: KnownModel| k.1));
    }
    (vs, cs)
}

pub(super) fn read_called_name(node: &Node) -> (r: Option<String>)
    ensures
        text_of(r) == called_name(*node),
{
    match node.kind {
        NodeKind::Name => if node.names.len() == 1 {
            Some(node.names[0].content().to_owned())
        } else {
            None
        },
        _ => None,
    }
}

/// Finds out what a call comes to before it is applied.
pub fn resolve_call(env: &Env<'_>, place: &mut Place, node: &Node, limit: usize) -> (r: Resolution)
    requires
        old(place).wf(),
    ensures
        final(place).wf(),
        (final(place)@, r@) == call_resolved(*env, old(place)@, *node, limit as nat),
        r matches Resolution::Pending(call) ==> call.args@.len() == call.consts@.len(),
    decreases limit, 0int, node, 7int, 0int,
{
    if node.children.len() == 0 {
        return Resolution::Final(place.give_up());
    }
    let callee = visit_callee(env, place, &node.children[0], limit);
    let args: usize = node.children.len() - 1;
    let (decision, ty) = match decide(place, &callee, args, node.location) {
        Some(d) => d,
        None => {
            return Resolution::Final(place.give_up());
        },
    };
    match decision {
        CallDecision::Refused => {
            let none: Vec<Value> = Vec::new();
            proof {
                assert(values_of(none@) =~= no_values());
            }
            Resolution::Final(none)
        },
        CallDecision::ConvertNothing => Resolution::Final(
            only_value(convert(None, ty, place, node.location)),
        ),
        CallDecision::Convert => {
            let value = visit_single_expr(env, place, &node.children[1], limit);
            Resolution::Final(only_value(convert(Some(value), ty, place, node.location)))
        },
        CallDecision::Apply { as_blackbox } => {
            let values = visit_single_exprs(env, place, node, 1, limit);
            let (args, consts) = split_known(values);
            Resolution::Pending(
                CallOperands {
                    callee: callee.value,
                    as_blackbox,
                    args,
                    consts,
                    receiver: callee.receiver,
                    name: read_called_name(&node.children[0]),
                    location: node.location,
                },
            )
        },
    }
}

/// Whether a call is one of a function that is known to the language and treated
/// as an expression of its own.
pub fn calls_builtin(place: &Place, node: &Node) -> (r: bool)
    requires
        place.wf(),
    ensures
        r == is_builtin_call(place@, *node),
{
    if node.children.len() > 0 {
        if let Some(name) = read_called_name(&node.children[0]) {
            let predeclared = place.table.resolves_to_predeclared(name.as_str());
            return is_special_builtin_call(name.as_str(), predeclared);
        }
    }
    false
}

/// Visits a call.
pub fn visit_call(env: &Env<'_>, place: &mut Place, node: &Node, limit: usize) -> (r: Vec<Value>)
    requires
        old(place).wf(),
    ensures
        final(place).wf(),
        (final(place)@, values_of(r@)) == call_visited(*env, old(place)@, *node, limit as nat),
    decreases limit, 0int, node, 8int, 0int,
{
    if node.children.len() > 0 {
        if let Some(name) = read_called_name(&node.children[0]) {
            let predeclared = place.table.resolves_to_predeclared(name.as_str());
            if is_special_builtin_call(name.as_str(), predeclared) {
                return visit_builtin(env, place, node, name, limit);
            }
        }
    }
    match resolve_call(env, place, node, limit) {
        Resolution::Final(values) => values,
        Resolution::Pending(call) => apply_call_operands(
            place,
            call,
            node.annotation.as_ref(),
            limit,
        ),
    }
}

fn reassign(
    place: &mut Place,
    kind: LabelBacktraceKind,
    left: LeftValue,
    value: Value,
    location: Location,
)
    requires
        old(place).wf(),
    ensures
        final(place).wf(),
        final(place)@ == old(place)@.reassigned(kind, left@, value@, location),
{
    proof {
        reveal(PlaceModel::reassigned);
    }
    let ghost before = place@;
    let ghost l = left@;
    let ghost v = value@;
    if left.symbol >= place.table.symbol_count() {
        let _none = place.give_up();
        return;
    }
    let mut lefts: Vec<LeftValue> = Vec::new();
    lefts.push(left);
    let mut rhs: Vec<(Value, Option<SimpleConstValue>)> = Vec::new();
    rhs.push((value, None));
    proof {
        assert(lefts_of(lefts@) =~= seq![l]);
        assert(known_of(rhs@) =~= seq![(v, None)]);
    }
    visit_raw_assignment(
        &mut place.ctx,
        &mut place.table,
        kind,
        true,
        &lefts,
        rhs,
        None,
        &Label::Bottom,
        location,
        &place.regions,
    );
    proof {
        assert(place@ =~= before.reassigned(kind, l, v, location));
    }
}

fn finish_builtin(
    env: &Env<'_>,
    place: &mut Place,
    name: &String,
    kind: SpecialBuiltin,
    args: Vec<Value>,
    consts: Vec<Option<SimpleConstValue>>,
    target: Option<LeftValue>,
    location: Location,
) -> (r: Vec<Value>)
    requires
        old(place).wf(),
    ensures
        final(place).wf(),
        (final(place)@, values_of(r@)) == old(place)@.builtin_done(
            *env,
            name@,
            kind@,
            values_of(args@),
            known_texts(consts@),
            crate::taint::visits::lefts::left_of(target),
            location,
        ),
{
    proof {
        reveal(PlaceModel::builtin_done);
    }
    let ghost before = place@;
    let directives = env.directives("builtin", None, name.as_str());
    let (results, written) = visit_special_builtin_call(
        &mut place.ctx.log,
        &place.ctx.branches,
        kind,
        &args,
        &directives,
        &consts,
        location,
    );
    proof {
        let m = builtin_called(
            kind@,
            values_of(args@),
            before.ctx.branches.current(),
            before.at(location),
        );
        assert(place@ =~= match m.fault {
            Some(e) => before.reporting(e),
            None => before,
        });
    }
    if let Some(v) = written {
        if let Some(l) = target {
            if same_text(name.as_str(), "copy") {
                reassign(place, LabelBacktraceKind::SliceCopy, l, v, location);
            } else if same_text(name.as_str(), "clear") {
                reassign(place, LabelBacktraceKind::CollectionClear, l, v, location);
            } else if same_text(name.as_str(), "delete") {
                reassign(place, LabelBacktraceKind::MapElementDelete, l, v, location);
            } else if same_text(name.as_str(), "close") {
                place.write(&l, v, location);
            }
        }
    }
    results
}

pub(super) fn visit_target(
    env: &Env<'_>,
    place: &mut Place,
    node: &Node,
    changes: bool,
    limit: usize,
) -> (r: (Value, Option<LeftValue>))
    requires
        old(place).wf(),
    ensures
        final(place).wf(),
        (final(place)@, r.0@, crate::taint::visits::lefts::left_of(r.1)) == target_visited(
            *env,
            old(place)@,
            *node,
            changes,
            limit as nat,
        ),
    decreases limit, 0int, node, 11int, 0int,
{
    if changes && root_operand(node).is_some() {
        let left = visit_left(env, place, node, limit);
        let value = place.read_if_there(&left, node.location);
        return (value, Some(left));
    }
    (visit_single_expr(env, place, node, limit), None)
}

fn two<T>(a: T, b: T) -> (r: Vec<T>)
    ensures
        r@ == seq![a, b],
{
    let mut r: Vec<T> = Vec::new();
    r.push(a);
    r.push(b);
    proof {
        assert(r@ =~= seq![a, b]);
    }
    r
}

fn one<T>(a: T) -> (r: Vec<T>)
    ensures
        r@ == seq![a],
{
    let mut r: Vec<T> = Vec::new();
    r.push(a);
    proof {
        assert(r@ =~= seq![a]);
    }
    r
}

fn visit_builtin(
    env: &Env<'_>,
    place: &mut Place,
    node: &Node,
    name: String,
    limit: usize,
) -> (r: Vec<Value>)
    requires
        old(place).wf(),
        node.children@.len() > 0,
        called_name(node.children@[0]) == Some(name@),
    ensures
        final(place).wf(),
        (final(place)@, values_of(r@)) == builtin_visited(*env, old(place)@, *node, limit as nat),
    decreases limit, 0int, node, 7int, 0int,
{
    let count: usize = node.children.len() - 1;
    let appends = same_text(name.as_str(), "append");
    let copies = same_text(name.as_str(), "copy");
    let deletes = same_text(name.as_str(), "delete");
    let arity: usize = if appends || copies || deletes {
        2
    } else {
        1
    };
    if count < arity || (!appends && count > arity) {
        return refuse_builtin(env, place, node, name, arity, limit);
    }
    if appends {
        return visit_append(env, place, node, name, limit);
    }
    if copies || deletes {
        return visit_copy_or_delete(env, place, node, name, deletes, limit);
    }
    visit_unary_builtin(env, place, node, name, limit)
}

fn refuse_builtin(
    env: &Env<'_>,
    place: &mut Place,
    node: &Node,
    name: String,
    arity: usize,
    limit: usize,
) -> (r: Vec<Value>)
    requires
        old(place).wf(),
        node.children@.len() > 0,
        called_name(node.children@[0]) == Some(name@),
        arity == builtin_arity(name@),
        node.children@.len() - 1 < arity || (name@ != "append"@ && node.children@.len() - 1
            > arity),
    ensures
        final(place).wf(),
        (final(place)@, values_of(r@)) == builtin_visited(*env, old(place)@, *node, limit as nat),
{
    let count: usize = node.children.len() - 1;
    place.report(
        AnalysisErrorKind::IncorrectCallCardinality {
            expected: arity,
            found: count,
            location: node.location,
        },
    );
    let given = same_text(name.as_str(), "append") || same_text(name.as_str(), "copy")
        || same_text(name.as_str(), "len") || same_text(name.as_str(), "cap");
    if given {
        let at = place.ctx.log.pin(node.location);
        return only_value(Value::from_backtrace_or_bottom_at(None, &at));
    }
    let none: Vec<Value> = Vec::new();
    proof {
        assert(values_of(none@) =~= no_values());
    }
    none
}

fn visit_append(
    env: &Env<'_>,
    place: &mut Place,
    node: &Node,
    name: String,
    limit: usize,
) -> (r: Vec<Value>)
    requires
        old(place).wf(),
        node.children@.len() >= 3,
        called_name(node.children@[0]) == Some(name@),
        name@ == "append"@,
    ensures
        final(place).wf(),
        (final(place)@, values_of(r@)) == builtin_visited(*env, old(place)@, *node, limit as nat),
    decreases limit, 0int, node, 6int, 0int,
{
    proof {
        reveal_strlit("append");
        reveal_strlit("copy");
        reveal_strlit("delete");
        assert(name@[0] == 'a');
        assert("delete"@[0] == 'd');
        assert("copy"@[0] == 'c');
    }
    let variadic = match node.kind {
        NodeKind::Call { variadic } => variadic,
        _ => false,
    };
    let values = visit_single_exprs(env, place, node, 1, limit);
    let (args, consts) = split_known(values);
    finish_builtin(
        env,
        place,
        &name,
        SpecialBuiltin::Append { variadic },
        args,
        consts,
        None,
        node.location,
    )
}

fn visit_unary_builtin(
    env: &Env<'_>,
    place: &mut Place,
    node: &Node,
    name: String,
    limit: usize,
) -> (r: Vec<Value>)
    requires
        old(place).wf(),
        node.children@.len() == 2,
        called_name(node.children@[0]) == Some(name@),
        name@ != "append"@,
        name@ != "copy"@,
        name@ != "delete"@,
    ensures
        final(place).wf(),
        (final(place)@, values_of(r@)) == builtin_visited(*env, old(place)@, *node, limit as nat),
    decreases limit, 0int, node, 6int, 0int,
{
    proof {
        reveal_strlit("clear");
        reveal_strlit("close");
    }
    let known = try_resolve_simple_const(&place.table, &node.children[1]);
    let clears = same_text(name.as_str(), "clear");
    let closes = same_text(name.as_str(), "close");
    let (target, left) = visit_target(env, place, &node.children[1], clears || closes, limit);
    let kind = if clears {
        SpecialBuiltin::Clear
    } else if closes {
        SpecialBuiltin::Close
    } else {
        SpecialBuiltin::Len
    };
    let ghost v = target@;
    let ghost k = const_of(known);
    let args = one(target);
    let consts = one(known);
    proof {
        assert(values_of(args@) =~= seq![v]);
        assert(known_texts(consts@) =~= seq![k]);
    }
    finish_builtin(env, place, &name, kind, args, consts, left, node.location)
}

#[verifier::rlimit(40)]
#[verifier::spinoff_prover]
fn visit_copy_or_delete(
    env: &Env<'_>,
    place: &mut Place,
    node: &Node,
    name: String,
    deletes: bool,
    limit: usize,
) -> (r: Vec<Value>)
    requires
        old(place).wf(),
        node.children@.len() == 3,
        called_name(node.children@[0]) == Some(name@),
        name@ == "copy"@ || name@ == "delete"@,
        deletes == (name@ == "delete"@),
    ensures
        final(place).wf(),
        (final(place)@, values_of(r@)) == builtin_visited(*env, old(place)@, *node, limit as nat),
    decreases limit, 0int, node, 6int, 0int,
{
    let first = try_resolve_simple_const(&place.table, &node.children[1]);
    let second = try_resolve_simple_const(&place.table, &node.children[2]);
    let ghost f = const_of(first);
    let ghost s = const_of(second);
    let other = visit_single_expr(env, place, &node.children[2], limit);
    let (target, left) = visit_target(env, place, &node.children[1], true, limit);
    let kind = if deletes {
        let known = match &second {
            Some(c) => if other.backtrace().is_none() {
                Some(SimpleConstValue { text: c.text.clone() })
            } else {
                None
            },
            None => None,
        };
        SpecialBuiltin::Delete { key: find_key(&ValueForm::Mapping, &known) }
    } else {
        SpecialBuiltin::Copy
    };
    let ghost a = target@;
    let ghost b = other@;
    let args = two(target, other);
    let consts = two(first, second);
    proof {
        assert(values_of(args@) =~= seq![a, b]);
        assert(known_texts(consts@) =~= seq![f, s]);
        reveal_strlit("copy");
        reveal_strlit("delete");
        reveal_strlit("append");
        reveal_strlit("clear");
        reveal_strlit("close");
        assert("append"@[0] == 'a');
        assert(name@[0] != 'a');
        assert("delete"@.len() == 6 && "copy"@.len() == 4);
    }
    finish_builtin(env, place, &name, kind, args, consts, left, node.location)
}

} // verus!
