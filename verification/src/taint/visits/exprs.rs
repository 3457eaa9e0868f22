//! Expressions.

use vstd::prelude::*;

use crate::ast::{Node, NodeKind};
use crate::context::ContextModel;
use crate::errors::AnalysisErrorKind;
use crate::labels::backtraces::{trace_of, LabelBacktrace, Trace};
use crate::locations::{Location, Span, SpanModel};
use crate::ordered::Ordered;
use crate::policy::blanket_directives::{directives_of, BlanketDirective, DirectiveModel};
use crate::policy::targets::{known_texts, parse_position, position, SimpleConstValue};
use crate::symbols::const_of;
use crate::taint::explicit::{known_of, lefts_of, KnownModel};
use crate::taint::exprs::component::SliceBound;
use crate::taint::exprs::visits::{ExprModel, ExprNode};
use crate::taint::exprs::{derive_short_circuit_branch, expect_single, known_if_single,
    pair_with_const, short_circuit_branch, single_reported, single_value};
use crate::taint::funcs::call_checks::flows_of;
use crate::taint::funcs::captures::collector::{root_of, root_operand};
use crate::taint::implicit::{Place, PlaceModel};
use crate::taint::mutation::{LeftModel, LeftValue};
use crate::taint::visits::composites::{composite_visited, visit_composite};
use crate::taint::visits::lefts::{index_left, left_indexed, left_of, left_selected, select_left};
use crate::taint::visits::resolution::{call_visited, visit_call};
use crate::taint::visits::literals::{literal_visited, visit_function_literal};
use crate::taint::visits::{known_in, literally, read_literal, try_resolve_simple_const, type_named,
    Env};
use crate::values::{carried, copy_type, type_of, values_of, Value, ValueModel};

verus! {

/// No values.
pub open spec fn no_values() -> Seq<ValueModel> {
    Seq::<ValueModel>::empty()
}

impl PlaceModel {
    /// The place, and the only value of an expression; if there is not exactly
    /// one, that is reported.
    pub open spec fn single(self, values: Seq<ValueModel>, location: Location) -> (
        PlaceModel,
        ValueModel,
    ) {
        (
            PlaceModel {
                ctx: ContextModel {
                    log: single_reported(self.ctx.log, values.len(), location),
                    ..self.ctx
                },
                ..self
            },
            single_value(values, self.at(location)),
        )
    }

    /// The place on a branch, if it is one.
    pub open spec fn on_branch(self, branch: Option<Trace>) -> PlaceModel {
        match branch {
            Some(b) => self.with_branches(self.ctx.branches.entered(b)),
            None => self,
        }
    }

    /// The place behind a branch, if it was one.
    pub open spec fn off_branch(self, branch: Option<Trace>) -> PlaceModel {
        match branch {
            Some(_) => self.with_branches(self.ctx.branches.left()),
            None => self,
        }
    }

    /// The place and the value once an expression is evaluated whose operands
    /// have been.
    pub open spec fn yielding(self, node: ExprModel, location: Location) -> (
        PlaceModel,
        Seq<ValueModel>,
    ) {
        (self.after(node, location), seq![self.value_of(node, location).value])
    }
}

/// What an expression comes to, and the place once it is visited. Function
/// literals and loops in it are followed up to a limit.
pub open spec fn expr_visited(env: Env<'_>, p: PlaceModel, node: Node, limit: nat) -> (
    PlaceModel,
    Seq<ValueModel>,
)
    decreases limit, 0int, node, 9int, 0int,
{
    match node.kind {
        NodeKind::Name => name_visited(env, p, node),
        NodeKind::Literal => p.yielding(ExprModel::Literal, node.location),
        NodeKind::Composite => composite_visited(env, p, node, limit),
        NodeKind::Selection => selection_visited(env, p, node, limit),
        NodeKind::Indexing => indexing_visited(env, p, node, limit),
        NodeKind::Slicing { .. } => slicing_visited(env, p, node, limit),
        NodeKind::Bracketed => bracketed_visited(env, p, node, limit),
        NodeKind::TypeAssertion => assertion_visited(env, p, node, limit),
        NodeKind::Conversion | NodeKind::Instantiation | NodeKind::Unary { .. } => operand_passed(
            env,
            p,
            node,
            limit,
        ),
        NodeKind::Binary { short_circuits } => binary_visited(env, p, node, short_circuits, limit),
        NodeKind::Receive => receive_visited(env, p, node, limit),
        NodeKind::Call { .. } => call_visited(env, p, node, limit),
        NodeKind::Make => make_visited(env, p, node, limit),
        NodeKind::New => (
            p,
            seq![ValueModel {
                declared_type: type_of(node.declared_type),
                ..ValueModel::simple(None, p.at(node.location))
            }],
        ),
        NodeKind::FunctionLiteral => literal_visited(env, p, node, limit),
        _ => (p.stopped(), no_values()),
    }
}

/// The only value of an expression, and the place once it is visited.
pub open spec fn single_visited(env: Env<'_>, p: PlaceModel, node: Node, limit: nat) -> (
    PlaceModel,
    ValueModel,
)
    decreases limit, 0int, node, 10int, 0int,
{
    let (q, values) = expr_visited(env, p, node, limit);
    q.single(values, node.location)
}

/// The values of some children of a node, one of each, with what is known of
/// them, and the place once they are visited.
pub open spec fn singles_visited(
    env: Env<'_>,
    p: PlaceModel,
    node: Node,
    from: int,
    n: int,
    limit: nat,
) -> (PlaceModel, Seq<KnownModel>)
    decreases limit, 0int, node, 5int, n,
{
    if n <= from || n <= 0 || n > node.children@.len() {
        (p, Seq::<KnownModel>::empty())
    } else {
        let (q, before) = singles_visited(env, p, node, from, n - 1, limit);
        let known = known_in(q.table, node.children@[n - 1]);
        let (r, value) = single_visited(env, q, node.children@[n - 1], limit);
        (r, before.push((value, known)))
    }
}

/// The values of the last children of a node, with what is known of them, and
/// the place once they are visited. If there is just one, it may have any number
/// of values.
pub open spec fn multi_visited(
    env: Env<'_>,
    p: PlaceModel,
    node: Node,
    from: int,
    limit: nat,
) -> (PlaceModel, Seq<KnownModel>)
    decreases limit, 0int, node, 6int, 0int,
{
    if from >= 0 && node.children@.len() == from + 1 {
        let known = known_in(p.table, node.children@[from]);
        let (q, values) = expr_visited(env, p, node.children@[from], limit);
        (q, known_if_single(values, known))
    } else {
        singles_visited(env, p, node, from, node.children@.len() as int, limit)
    }
}

/// What a name comes to, and the place once it is visited.
pub open spec fn name_visited(env: Env<'_>, p: PlaceModel, node: Node) -> (
    PlaceModel,
    Seq<ValueModel>,
) {
    if node.names@.len() == 0 {
        (p.stopped(), no_values())
    } else {
        let name = node.names@[0]@;
        let qualifier = if node.names@.len() > 1 {
            Some(node.names@[1]@)
        } else {
            None
        };
        p.yielding(
            ExprModel::Name {
                name,
                qualifier,
                directives: env.said_of_operand(
                    p.table,
                    name.content,
                    match qualifier {
                        Some(q) => Some(q.content),
                        None => None,
                    },
                ),
            },
            node.location,
        )
    }
}

/// What a selection comes to, and the place once it is visited.
pub open spec fn selection_visited(env: Env<'_>, p: PlaceModel, node: Node, limit: nat) -> (
    PlaceModel,
    Seq<ValueModel>,
)
    decreases limit, 0int, node, 8int, 0int,
{
    if node.children@.len() != 1 || node.names@.len() == 0 {
        (p.stopped(), no_values())
    } else {
        let (q, base) = single_visited(env, p, node.children@[0], limit);
        let selector = node.names@[0]@;
        q.yielding(
            ExprModel::Selection {
                base,
                selector,
                member: env.member_of(q.table, base, selector.content),
            },
            node.location,
        )
    }
}

/// What an element comes to, and the place once it is visited.
pub open spec fn indexing_visited(env: Env<'_>, p: PlaceModel, node: Node, limit: nat) -> (
    PlaceModel,
    Seq<ValueModel>,
)
    decreases limit, 0int, node, 8int, 0int,
{
    if node.children@.len() != 2 {
        (p.stopped(), no_values())
    } else {
        let (q, base) = single_visited(env, p, node.children@[0], limit);
        q.yielding(
            ExprModel::Indexing { base, index: literally(node.children@[1]) },
            node.location,
        )
    }
}

/// What is known of a bound.
pub open spec fn bound_of(node: Node, given: bool, at: int) -> SliceBound {
    if !given || at >= node.children@.len() {
        SliceBound::Omitted
    } else {
        match literally(node.children@[at]) {
            Some(text) => match position(text) {
                Some(i) => SliceBound::Known(i),
                None => SliceBound::Unknown,
            },
            None => SliceBound::Unknown,
        }
    }
}

/// What known values carry.
pub open spec fn known_flows(values: Seq<KnownModel>) -> Seq<Option<Trace>> {
    values.map_values(|k: KnownModel| carried(k.0))
}

/// What some elements come to, and the place once they are visited.
pub open spec fn slicing_visited(env: Env<'_>, p: PlaceModel, node: Node, limit: nat) -> (
    PlaceModel,
    Seq<ValueModel>,
)
    decreases limit, 0int, node, 8int, 0int,
{
    match node.kind {
        NodeKind::Slicing { has_low, has_high, has_max } => if node.children@.len() == 0 {
            (p.stopped(), no_values())
        } else {
            let (q, base) = single_visited(env, p, node.children@[0], limit);
            let (r, bounds) = singles_visited(
                env,
                q,
                node,
                1,
                node.children@.len() as int,
                limit,
            );
            r.yielding(
                ExprModel::Slicing {
                    base,
                    low: bound_of(node, has_low, 1),
                    high: bound_of(node, has_high, if has_low { 2 } else { 1 }),
                    has_max,
                    bounds: known_flows(bounds),
                },
                node.location,
            )
        },
        _ => (p.stopped(), no_values()),
    }
}

/// What a function with a type, or an element, comes to, and the place once it
/// is visited.
pub open spec fn bracketed_visited(env: Env<'_>, p: PlaceModel, node: Node, limit: nat) -> (
    PlaceModel,
    Seq<ValueModel>,
)
    decreases limit, 0int, node, 8int, 0int,
{
    if node.children@.len() != 2 {
        (p.stopped(), no_values())
    } else {
        let (q, base) = single_visited(env, p, node.children@[0], limit);
        let inner = node.children@[1];
        q.yielding(
            ExprModel::AmbiguousBracketAccess {
                base,
                is_type_known: inner.kind is Name && inner.names@.len() > 0 && type_named(
                    env.types@,
                    inner.names@[0]@.content,
                ) is Some,
                index: literally(inner),
            },
            node.location,
        )
    }
}

/// What a type assertion comes to, and the place once it is visited.
pub open spec fn assertion_visited(env: Env<'_>, p: PlaceModel, node: Node, limit: nat) -> (
    PlaceModel,
    Seq<ValueModel>,
)
    decreases limit, 0int, node, 8int, 0int,
{
    if node.children@.len() != 1 {
        (p.stopped(), no_values())
    } else {
        let (q, base) = single_visited(env, p, node.children@[0], limit);
        q.yielding(
            ExprModel::TypeAssertion { base, declared_type: type_of(node.declared_type) },
            node.location,
        )
    }
}

/// What an operand comes to that is passed on, and the place once it is visited.
pub open spec fn operand_passed(env: Env<'_>, p: PlaceModel, node: Node, limit: nat) -> (
    PlaceModel,
    Seq<ValueModel>,
)
    decreases limit, 0int, node, 8int, 0int,
{
    if node.children@.len() != 1 {
        (p.stopped(), no_values())
    } else {
        let (q, value) = single_visited(env, p, node.children@[0], limit);
        (
            q,
            seq![
                if node.kind is Instantiation {
                    ValueModel { location: q.at(node.location), ..value }
                } else {
                    value
                },
            ],
        )
    }
}

/// What an operator between two operands comes to, and the place once it is
/// visited. Where the left one can leave the right one unevaluated, the right
/// one is visited on a branch that depends on the left one.
pub open spec fn binary_visited(
    env: Env<'_>,
    p: PlaceModel,
    node: Node,
    short_circuits: bool,
    limit: nat,
) -> (PlaceModel, Seq<ValueModel>)
    decreases limit, 0int, node, 8int, 0int,
{
    if node.children@.len() != 2 {
        (p.stopped(), no_values())
    } else {
        let first = known_in(p.table, node.children@[0]);
        let (q, left) = single_visited(env, p, node.children@[0], limit);
        let branch = short_circuit_branch(carried(left), short_circuits, q.at(node.location));
        let inside = q.on_branch(branch);
        let second = known_in(inside.table, node.children@[1]);
        let (r, right) = single_visited(env, inside, node.children@[1], limit);
        r.off_branch(branch).yielding(
            ExprModel::BinaryOp {
                left: carried(left),
                right: carried(right),
                short_circuits,
                consts: seq![first, second],
                directives: match node.text {
                    Some(name) => env.said("operator"@, None, name@),
                    None => Seq::<DirectiveModel>::empty(),
                },
            },
            node.location,
        )
    }
}

/// What is received, and the place after that. On a branch, the channel tells
/// that it was received from.
pub open spec fn receive_visited(env: Env<'_>, p: PlaceModel, node: Node, limit: nat) -> (
    PlaceModel,
    Seq<ValueModel>,
)
    decreases limit, 0int, node, 8int, 0int,
{
    if node.children@.len() != 1 {
        (p.stopped(), no_values())
    } else if p.ctx.branches.current() is Some && root_of(node.children@[0]) is Some {
        let (q, left) = left_visited(env, p, node.children@[0], limit);
        let (r, target) = q.read_left(left, node.location);
        let m = ExprModel::Receive(target);
        let result = r.value_of(m, node.location);
        (
            match result.channel {
                Some(c) => r.after(m, node.location).with_written(left, c, node.location),
                None => r.after(m, node.location),
            },
            seq![result.value],
        )
    } else {
        let (q, target) = single_visited(env, p, node.children@[0], limit);
        q.yielding(ExprModel::Receive(target), node.location)
    }
}

impl PlaceModel {
    /// What something that is assigned to holds, if it is there.
    pub open spec fn read_left(self, left: LeftModel, location: Location) -> (
        PlaceModel,
        ValueModel,
    ) {
        if left.symbol < self.table.symbols.len() {
            (
                self,
                self.table.symbols[left.symbol as int].value.read_along(
                    left.path,
                    self.at(location),
                ),
            )
        } else {
            (self.stopped(), ValueModel::simple(None, self.at(location)))
        }
    }
}

/// What a call of `make` comes to, and the place once it is visited.
pub open spec fn make_visited(env: Env<'_>, p: PlaceModel, node: Node, limit: nat) -> (
    PlaceModel,
    Seq<ValueModel>,
)
    decreases limit, 0int, node, 8int, 0int,
{
    if node.children@.len() > 2 {
        (p.stopped(), no_values())
    } else {
        let (q, sizes) = singles_visited(env, p, node, 0, node.children@.len() as int, limit);
        let t = q.table;
        let is_predeclared = t.scopes[0].symbols.dom().contains("make"@) && t.resolved(
            Some(t.current),
            "make"@,
        ) == Some(t.scopes[0].symbols["make"@]);
        q.yielding(
            ExprModel::Make {
                kind: match node.declared_type {
                    Some(ty) => Some(ty.kind),
                    None => None,
                },
                n: if sizes.len() > 0 {
                    Some(sizes[0].0)
                } else {
                    None
                },
                m: if sizes.len() > 1 {
                    Some(sizes[1].0)
                } else {
                    None
                },
                declared_type: type_of(node.declared_type),
                directives: if is_predeclared {
                    env.said("builtin"@, None, "make"@)
                } else {
                    Seq::<DirectiveModel>::empty()
                },
                arg_consts: seq![None::<Seq<char>>] + sizes.map_values(|k: KnownModel| k.1),
            },
            node.location,
        )
    }
}

/// What an expression is to an assignment, and the place once it is visited.
/// What cannot be assigned to is reported, and stands for a symbol without a
/// name.
pub open spec fn left_visited(env: Env<'_>, p: PlaceModel, node: Node, limit: nat) -> (
    PlaceModel,
    LeftModel,
)
    decreases limit, 0int, node, 9int, 0int,
{
    match node.kind {
        NodeKind::Name => if node.names@.len() > 0 {
            p.or_nameless(p.left_named(node.names@[0]@), node.location)
        } else {
            p.or_nameless((p.stopped(), None), node.location)
        },
        NodeKind::Selection => if node.children@.len() != 1 || node.names@.len() == 0 {
            p.or_nameless((p.stopped(), None), node.location)
        } else {
            let base = node.children@[0];
            let selector = node.names@[0]@;
            if base.kind is Name && base.names@.len() == 1 && p.is_qualifier(
                base.names@[0]@.content,
            ) {
                p.or_nameless(p.left_qualified(base.names@[0]@.content, selector), node.location)
            } else {
                let (q, left) = left_visited(env, p, node.children@[0], limit);
                (q, left_selected(left, selector.content))
            }
        },
        NodeKind::Indexing => if node.children@.len() != 2 {
            p.or_nameless((p.stopped(), None), node.location)
        } else {
            let (q, left) = left_visited(env, p, node.children@[0], limit);
            let known = known_in(q.table, node.children@[1]);
            let (r, index) = single_visited(env, q, node.children@[1], limit);
            let (s, container) = r.read_left(left, node.location);
            (s, left_indexed(left, container, known, carried(index)))
        },
        NodeKind::Unary { .. } => if node.children@.len() != 1 {
            p.or_nameless((p.stopped(), None), node.location)
        } else {
            left_visited(env, p, node.children@[0], limit)
        },
        _ => p.or_nameless(
            (
                p.reporting(
                    crate::errors::ErrorModel::InvalidLeftValue { location: node.location },
                ),
                None,
            ),
            node.location,
        ),
    }
}

impl PlaceModel {
    /// What was found to be assigned to, or else a symbol without a name.
    pub open spec fn or_nameless(
        self,
        found: (PlaceModel, Option<LeftModel>),
        location: Location,
    ) -> (PlaceModel, LeftModel) {
        match found.1 {
            Some(l) => (found.0, l),
            None => {
                let (q, l) = found.0.left_named(SpanModel { content: "_"@, location });
                (q, l->0)
            },
        }
    }
}

/// What the first children of a node are to an assignment, and the place once
/// they are visited.
pub open spec fn lefts_visited(
    env: Env<'_>,
    p: PlaceModel,
    node: Node,
    n: int,
    limit: nat,
) -> (PlaceModel, Seq<LeftModel>)
    decreases limit, 0int, node, 5int, n,
{
    if n <= 0 || n > node.children@.len() {
        (p, Seq::<LeftModel>::empty())
    } else {
        let (q, before) = lefts_visited(env, p, node, n - 1, limit);
        let (r, left) = left_visited(env, q, node.children@[n - 1], limit);
        (r, before.push(left))
    }
}

impl Place {
    /// The only value of an expression; if there is not exactly one, that is
    /// reported.
    pub fn expect(&mut self, values: Vec<Value>, location: Location) -> (r: Value)
        requires
            old(self).wf(),
        ensures
            final(self).wf(),
            (final(self)@, r@) == old(self)@.single(values_of(values@), location),
    {
        let ghost before = self@;
        let ghost given = values_of(values@);
        let r = expect_single(&mut self.ctx.log, values, location);
        proof {
            assert(self@ =~= before.single(given, location).0);
        }
        r
    }

    /// Goes on a branch, if it is one.
    pub fn enter_branch(&mut self, branch: Option<LabelBacktrace>)
        requires
            old(self).wf(),
        ensures
            final(self).wf(),
            final(self)@ == old(self)@.on_branch(trace_of(branch)),
    {
        let ghost before = self@;
        let ghost t = trace_of(branch);
        if let Some(b) = branch {
            self.ctx.branches.push_branch_backtrace(b);
        }
        proof {
            assert(self@ =~= before.on_branch(t));
        }
    }

    /// Comes off a branch, if it was one.
    pub fn leave_branch(&mut self, entered: bool, Ghost(branch): Ghost<Option<Trace>>)
        requires
            old(self).wf(),
            entered == branch is Some,
        ensures
            final(self).wf(),
            final(self)@ == old(self)@.off_branch(branch),
    {
        let ghost before = self@;
        if entered {
            self.ctx.branches.pop_branch_backtrace();
        }
        proof {
            assert(self@ =~= before.off_branch(branch));
        }
    }

    /// Stops at a limit.
    pub fn give_up(&mut self) -> (r: Vec<Value>)
        requires
            old(self).wf(),
        ensures
            final(self).wf(),
            final(self)@ == old(self)@.stopped(),
            values_of(r@) == no_values(),
    {
        let ghost before = self@;
        self.halted = true;
        let r: Vec<Value> = Vec::new();
        proof {
            assert(self@ =~= before.stopped());
            assert(values_of(r@) =~= no_values());
        }
        r
    }

    /// What something that is assigned to holds, if it is there.
    pub fn read_if_there(&mut self, left: &LeftValue, location: Location) -> (r: Value)
        requires
            old(self).wf(),
        ensures
            final(self).wf(),
            (final(self)@, r@) == old(self)@.read_left(left@, location),
    {
        if left.symbol < self.table.symbol_count() {
            return self.read(left, location);
        }
        let ghost before = self@;
        self.halted = true;
        proof {
            assert(self@ =~= before.stopped());
        }
        let at = self.ctx.log.pin(location);
        Value::from_backtrace_or_bottom_at(None, &at)
    }

    /// What was found to be assigned to, or else a symbol without a name.
    fn or_nameless_left(&mut self, found: Option<LeftValue>, location: Location) -> (r: LeftValue)
        requires
            old(self).wf(),
        ensures
            final(self).wf(),
            forall|p: PlaceModel|
                (final(self)@, r@) == #[trigger] p.or_nameless((old(self)@, left_of(found)), location),
    {
        match found {
            Some(l) => l,
            None => {
                let name = Span { content: "_".to_owned(), location };
                let ghost before = self@;
                match self.name_left(&name) {
                    Some(l) => l,
                    None => {
                        proof {
                            assert(name@.content == "_"@);
                            assert(before.left_named(name@).1 is Some);
                        }
                        LeftValue { symbol: 0, name, path: Vec::new() }
                    },
                }
            },
        }
    }
}

/// A list of one value.
pub fn only_value(v: Value) -> (r: Vec<Value>)
    ensures
        values_of(r@) == seq![v@],
{
    let ghost m = v@;
    let mut r: Vec<Value> = Vec::new();
    r.push(v);
    proof {
        assert(values_of(r@) =~= seq![m]);
    }
    r
}

/// Visits an expression.
pub fn visit_expr(env: &Env<'_>, place: &mut Place, node: &Node, limit: usize) -> (r: Vec<Value>)
    requires
        old(place).wf(),
    ensures
        final(place).wf(),
        (final(place)@, values_of(r@)) == expr_visited(*env, old(place)@, *node, limit as nat),
    decreases limit, 0int, node, 9int, 0int,
{
    match node.kind {
        NodeKind::Name => visit_name(env, place, node),
        NodeKind::Literal => {
            let result = place.evaluate(ExprNode::Literal, node.location);
            only_value(result.value)
        },
        NodeKind::Composite => visit_composite(env, place, node, limit),
        NodeKind::Selection => visit_selection(env, place, node, limit),
        NodeKind::Indexing => visit_indexing(env, place, node, limit),
        NodeKind::Slicing { .. } => visit_slicing(env, place, node, limit),
        NodeKind::Bracketed => visit_bracketed(env, place, node, limit),
        NodeKind::TypeAssertion => visit_type_assertion(env, place, node, limit),
        NodeKind::Conversion | NodeKind::Instantiation | NodeKind::Unary { .. } => pass_operand(
            env,
            place,
            node,
            limit,
        ),
        NodeKind::Binary { short_circuits } => visit_binary(
            env,
            place,
            node,
            short_circuits,
            limit,
        ),
        NodeKind::Receive => visit_receive(env, place, node, limit),
        NodeKind::Call { .. } => visit_call(env, place, node, limit),
        NodeKind::Make => visit_make_call(env, place, node, limit),
        NodeKind::New => {
            let at = place.ctx.log.pin(node.location);
            only_value(Value::new_bottom(at, copy_type(&node.declared_type)))
        },
        NodeKind::FunctionLiteral => visit_function_literal(env, place, node, limit),
        _ => place.give_up(),
    }
}

/// Visits an expression that has to have one value.
pub fn visit_single_expr(env: &Env<'_>, place: &mut Place, node: &Node, limit: usize) -> (r: Value)
    requires
        old(place).wf(),
    ensures
        final(place).wf(),
        (final(place)@, r@) == single_visited(*env, old(place)@, *node, limit as nat),
    decreases limit, 0int, node, 10int, 0int,
{
    let values = visit_expr(env, place, node, limit);
    place.expect(values, node.location)
}

/// Visits some children of a node, each of which has to have one value.
pub fn visit_single_exprs(
    env: &Env<'_>,
    place: &mut Place,
    node: &Node,
    from: usize,
    limit: usize,
) -> (r: Vec<(Value, Option<SimpleConstValue>)>)
    requires
        old(place).wf(),
        from <= node.children@.len(),
    ensures
        final(place).wf(),
        (final(place)@, known_of(r@)) == singles_visited(
            *env,
            old(place)@,
            *node,
            from as int,
            node.children@.len() as int,
            limit as nat,
        ),
        r@.len() == node.children@.len() - from,
    decreases limit, 0int, node, 5int, node.children@.len(),
{
    let ghost start = place@;
    let mut r: Vec<(Value, Option<SimpleConstValue>)> = Vec::new();
    let n: usize = node.children.len();
    let mut i: usize = from;
    proof {
        assert(known_of(r@) =~= Seq::<KnownModel>::empty());
    }
    while i < n
        invariant
            from <= i <= n,
            n == node.children@.len(),
            place.wf(),
            r@.len() == i - from,
            (place@, known_of(r@)) == singles_visited(
                *env,
                start,
                *node,
                from as int,
                i as int,
                limit as nat,
            ),
        decreases n - i,
    {
        let ghost before = known_of(r@);
        let known = try_resolve_simple_const(&place.table, &node.children[i]);
        let value = visit_single_expr(env, place, &node.children[i], limit);
        let ghost k = (value@, const_of(known));
        r.push((value, known));
        proof {
            assert(known_of(r@) =~= before.push(k));
        }
        i = i + 1;
    }
    r
}

/// Visits the last children of a node. If there is just one, it may have any
/// number of values.
pub fn visit_multi_exprs_with_consts(
    env: &Env<'_>,
    place: &mut Place,
    node: &Node,
    from: usize,
    limit: usize,
) -> (r: Vec<(Value, Option<SimpleConstValue>)>)
    requires
        old(place).wf(),
        from <= node.children@.len(),
    ensures
        final(place).wf(),
        (final(place)@, known_of(r@)) == multi_visited(
            *env,
            old(place)@,
            *node,
            from as int,
            limit as nat,
        ),
    decreases limit, 0int, node, 6int, 0int,
{
    if node.children.len() - from == 1 {
        let known = try_resolve_simple_const(&place.table, &node.children[from]);
        let values = visit_expr(env, place, &node.children[from], limit);
        return pair_with_const(values, known);
    }
    visit_single_exprs(env, place, node, from, limit)
}

fn visit_name(env: &Env<'_>, place: &mut Place, node: &Node) -> (r: Vec<Value>)
    requires
        old(place).wf(),
    ensures
        final(place).wf(),
        (final(place)@, values_of(r@)) == name_visited(*env, old(place)@, *node),
{
    if node.names.len() == 0 {
        return place.give_up();
    }
    let name = node.names[0].duplicate();
    let (qualifier, directives) = if node.names.len() > 1 {
        (
            Some(node.names[1].duplicate()),
            env.directives_for_operand(
                &place.table,
                node.names[0].content(),
                Some(node.names[1].content()),
            ),
        )
    } else {
        (None, env.directives_for_operand(&place.table, node.names[0].content(), None))
    };
    let expr = ExprNode::Name { name, qualifier, directives };
    proof {
        let q = if node.names@.len() > 1 {
            Some(node.names@[1]@)
        } else {
            None
        };
        assert(expr@ =~= ExprModel::Name {
            name: node.names@[0]@,
            qualifier: q,
            directives: env.said_of_operand(
                place@.table,
                node.names@[0]@.content,
                match q {
                    Some(x) => Some(x.content),
                    None => None,
                },
            ),
        });
    }
    let result = place.evaluate(expr, node.location);
    only_value(result.value)
}

fn visit_selection(env: &Env<'_>, place: &mut Place, node: &Node, limit: usize) -> (r: Vec<Value>)
    requires
        old(place).wf(),
    ensures
        final(place).wf(),
        (final(place)@, values_of(r@)) == selection_visited(
            *env,
            old(place)@,
            *node,
            limit as nat,
        ),
    decreases limit, 0int, node, 8int, 0int,
{
    if node.children.len() != 1 || node.names.len() == 0 {
        return place.give_up();
    }
    let base = visit_single_expr(env, place, &node.children[0], limit);
    let selector = node.names[0].duplicate();
    let member = env.member(&place.table, &base, selector.content());
    let result = place.evaluate(ExprNode::Selection { base, selector, member }, node.location);
    only_value(result.value)
}

fn visit_indexing(env: &Env<'_>, place: &mut Place, node: &Node, limit: usize) -> (r: Vec<Value>)
    requires
        old(place).wf(),
    ensures
        final(place).wf(),
        (final(place)@, values_of(r@)) == indexing_visited(*env, old(place)@, *node, limit as nat),
    decreases limit, 0int, node, 8int, 0int,
{
    if node.children.len() != 2 {
        return place.give_up();
    }
    let base = visit_single_expr(env, place, &node.children[0], limit);
    let index = read_literal(&node.children[1]);
    let result = place.evaluate(ExprNode::Indexing { base, index }, node.location);
    only_value(result.value)
}

fn read_bound(node: &Node, given: bool, at: usize) -> (r: SliceBound)
    ensures
        r == bound_of(*node, given, at as int),
{
    if !given || at >= node.children.len() {
        return SliceBound::Omitted;
    }
    match read_literal(&node.children[at]) {
        Some(c) => match parse_position(c.text.as_str()) {
            Some(i) => SliceBound::Known(i),
            None => SliceBound::Unknown,
        },
        None => SliceBound::Unknown,
    }
}

/// What known values carry.
pub fn carry_all(values: &Vec<(Value, Option<SimpleConstValue>)>) -> (r: Vec<
    Option<LabelBacktrace>,
>)
    ensures
        flows_of(r@) == known_flows(known_of(values@)),
{
    let mut r: Vec<Option<LabelBacktrace>> = Vec::new();
    let n: usize = values.len();
    let mut i: usize = 0;
    while i < n
        invariant
            i <= n,
            n == values@.len(),
            r@.len() == i,
            forall|k: int| 0 <= k < i ==> trace_of(#[trigger] r@[k]) == carried(values@[k].0@),
        decreases n - i,
    {
        r.push(values[i].0.backtrace());
        i = i + 1;
    }
    proof {
        assert(flows_of(r@) =~= known_flows(known_of(values@)));
    }
    r
}

fn visit_slicing(env: &Env<'_>, place: &mut Place, node: &Node, limit: usize) -> (r: Vec<Value>)
    requires
        old(place).wf(),
    ensures
        final(place).wf(),
        (final(place)@, values_of(r@)) == slicing_visited(*env, old(place)@, *node, limit as nat),
    decreases limit, 0int, node, 8int, 0int,
{
    match node.kind {
        NodeKind::Slicing { has_low, has_high, has_max } => {
            if node.children.len() == 0 {
                return place.give_up();
            }
            let base = visit_single_expr(env, place, &node.children[0], limit);
            let bounds = visit_single_exprs(env, place, node, 1, limit);
            let low = read_bound(node, has_low, 1);
            let high = read_bound(
                node,
                has_high,
                if has_low {
                    2
                } else {
                    1
                },
            );
            let flows = carry_all(&bounds);
            let result = place.evaluate(
                ExprNode::Slicing { base, low, high, has_max, bounds: flows },
                node.location,
            );
            only_value(result.value)
        },
        _ => place.give_up(),
    }
}

fn visit_bracketed(env: &Env<'_>, place: &mut Place, node: &Node, limit: usize) -> (r: Vec<Value>)
    requires
        old(place).wf(),
    ensures
        final(place).wf(),
        (final(place)@, values_of(r@)) == bracketed_visited(
            *env,
            old(place)@,
            *node,
            limit as nat,
        ),
    decreases limit, 0int, node, 8int, 0int,
{
    if node.children.len() != 2 {
        return place.give_up();
    }
    let base = visit_single_expr(env, place, &node.children[0], limit);
    let inner = &node.children[1];
    let is_type_known = match inner.kind {
        NodeKind::Name => inner.names.len() > 0 && env.knows_type(inner.names[0].content()),
        _ => false,
    };
    let index = read_literal(inner);
    let result = place.evaluate(
        ExprNode::AmbiguousBracketAccess { base, is_type_known, index },
        node.location,
    );
    only_value(result.value)
}

fn visit_type_assertion(env: &Env<'_>, place: &mut Place, node: &Node, limit: usize) -> (r: Vec<
    Value,
>)
    requires
        old(place).wf(),
    ensures
        final(place).wf(),
        (final(place)@, values_of(r@)) == assertion_visited(
            *env,
            old(place)@,
            *node,
            limit as nat,
        ),
    decreases limit, 0int, node, 8int, 0int,
{
    if node.children.len() != 1 {
        return place.give_up();
    }
    let base = visit_single_expr(env, place, &node.children[0], limit);
    let result = place.evaluate(
        ExprNode::TypeAssertion { base, declared_type: copy_type(&node.declared_type) },
        node.location,
    );
    only_value(result.value)
}

fn pass_operand(env: &Env<'_>, place: &mut Place, node: &Node, limit: usize) -> (r: Vec<Value>)
    requires
        old(place).wf(),
    ensures
        final(place).wf(),
        (final(place)@, values_of(r@)) == operand_passed(*env, old(place)@, *node, limit as nat),
    decreases limit, 0int, node, 8int, 0int,
{
    if node.children.len() != 1 {
        return place.give_up();
    }
    let mut value = visit_single_expr(env, place, &node.children[0], limit);
    if let NodeKind::Instantiation = node.kind {
        let ghost before = value@;
        value.location = place.ctx.log.pin(node.location);
        proof {
            assert(value@ =~= ValueModel { location: place@.at(node.location), ..before });
        }
    }
    only_value(value)
}

fn visit_binary(
    env: &Env<'_>,
    place: &mut Place,
    node: &Node,
    short_circuits: bool,
    limit: usize,
) -> (r: Vec<Value>)
    requires
        old(place).wf(),
    ensures
        final(place).wf(),
        (final(place)@, values_of(r@)) == binary_visited(
            *env,
            old(place)@,
            *node,
            short_circuits,
            limit as nat,
        ),
    decreases limit, 0int, node, 8int, 0int,
{
    if node.children.len() != 2 {
        return place.give_up();
    }
    let first = try_resolve_simple_const(&place.table, &node.children[0]);
    let left_value = visit_single_expr(env, place, &node.children[0], limit);
    let left = left_value.backtrace();
    let at = place.ctx.log.pin(node.location);
    let branch = derive_short_circuit_branch(&left, short_circuits, &at);
    let entered = branch.is_some();
    let ghost b = trace_of(branch);
    place.enter_branch(branch);
    let second = try_resolve_simple_const(&place.table, &node.children[1]);
    let right_value = visit_single_expr(env, place, &node.children[1], limit);
    place.leave_branch(entered, Ghost(b));
    let right = right_value.backtrace();
    let mut consts: Vec<Option<SimpleConstValue>> = Vec::new();
    let ghost known = seq![const_of(first), const_of(second)];
    consts.push(first);
    consts.push(second);
    proof {
        assert(known_texts(consts@) =~= known);
    }
    let directives = match &node.text {
        Some(name) => env.directives("operator", None, name.as_str()),
        None => {
            let none: Vec<BlanketDirective> = Vec::new();
            proof {
                assert(directives_of(none@) =~= Seq::<DirectiveModel>::empty());
            }
            none
        },
    };
    let result = place.evaluate(
        ExprNode::BinaryOp { left, right, short_circuits, consts, directives },
        node.location,
    );
    only_value(result.value)
}

/// Visits an expression that receives from a channel.
pub fn visit_receive(env: &Env<'_>, place: &mut Place, node: &Node, limit: usize) -> (r: Vec<Value>)
    requires
        old(place).wf(),
    ensures
        final(place).wf(),
        (final(place)@, values_of(r@)) == receive_visited(*env, old(place)@, *node, limit as nat),
    decreases limit, 0int, node, 8int, 0int,
{
    if node.children.len() != 1 {
        return place.give_up();
    }
    let on_branch = place.ctx.branches.branch_backtrace().is_some();
    if on_branch && root_operand(&node.children[0]).is_some() {
        let left = visit_left(env, place, &node.children[0], limit);
        let target = place.read_if_there(&left, node.location);
        let result = place.evaluate(ExprNode::Receive(target), node.location);
        if let Some(c) = result.channel {
            place.write(&left, c, node.location);
        }
        return only_value(result.value);
    }
    let target = visit_single_expr(env, place, &node.children[0], limit);
    let result = place.evaluate(ExprNode::Receive(target), node.location);
    only_value(result.value)
}

fn visit_make_call(env: &Env<'_>, place: &mut Place, node: &Node, limit: usize) -> (r: Vec<Value>)
    requires
        old(place).wf(),
    ensures
        final(place).wf(),
        (final(place)@, values_of(r@)) == make_visited(*env, old(place)@, *node, limit as nat),
    decreases limit, 0int, node, 8int, 0int,
{
    if node.children.len() > 2 {
        return place.give_up();
    }
    let mut sizes = visit_single_exprs(env, place, node, 0, limit);
    let ghost all = known_of(sizes@);
    let ghost count = sizes@.len();
    let mut arg_consts: Vec<Option<SimpleConstValue>> = Vec::new();
    arg_consts.push(None);
    let (n, m) = if sizes.len() == 2 {
        let second = sizes.remove(1);
        let first = sizes.remove(0);
        arg_consts.push(first.1);
        arg_consts.push(second.1);
        (Some(first.0), Some(second.0))
    } else if sizes.len() == 1 {
        let first = sizes.remove(0);
        arg_consts.push(first.1);
        (Some(first.0), None)
    } else {
        (None, None)
    };
    proof {
        assert(known_texts(arg_consts@) =~= seq![None::<Seq<char>>] + all.map_values(
            |k: KnownModel| k.1,
        ));
    }
    let directives = if place.table.resolves_to_predeclared("make") {
        env.directives("builtin", None, "make")
    } else {
        let none: Vec<BlanketDirective> = Vec::new();
        proof {
            assert(directives_of(none@) =~= Seq::<DirectiveModel>::empty());
        }
        none
    };
    let kind = match &node.declared_type {
        Some(ty) => Some(ty.kind),
        None => None,
    };
    let result = place.evaluate(
        ExprNode::Make {
            kind,
            n,
            m,
            declared_type: copy_type(&node.declared_type),
            directives,
            arg_consts,
        },
        node.location,
    );
    only_value(result.value)
}

/// Visits an expression that is assigned to.
pub fn visit_left(env: &Env<'_>, place: &mut Place, node: &Node, limit: usize) -> (r: LeftValue)
    requires
        old(place).wf(),
    ensures
        final(place).wf(),
        (final(place)@, r@) == left_visited(*env, old(place)@, *node, limit as nat),
    decreases limit, 0int, node, 9int, 0int,
{
    match node.kind {
        NodeKind::Name => {
            if node.names.len() > 0 {
                let found = place.name_left(&node.names[0]);
                return place.or_nameless_left(found, node.location);
            }
        },
        NodeKind::Selection => {
            if node.children.len() == 1 && node.names.len() > 0 {
                let base = &node.children[0];
                let named = match base.kind {
                    NodeKind::Name => base.names.len() == 1,
                    _ => false,
                };
                if named && place.names_package(base.names[0].content()) {
                    let found = place.qualified_left(base.names[0].content(), &node.names[0]);
                    return place.or_nameless_left(found, node.location);
                }
                let left = visit_left(env, place, &node.children[0], limit);
                return select_left(left, node.names[0].content());
            }
        },
        NodeKind::Indexing => {
            if node.children.len() == 2 {
                let left = visit_left(env, place, &node.children[0], limit);
                let known = try_resolve_simple_const(&place.table, &node.children[1]);
                let index = visit_single_expr(env, place, &node.children[1], limit);
                let container = place.read_if_there(&left, node.location);
                return index_left(left, &container, known, index.backtrace());
            }
        },
        NodeKind::Unary { .. } => {
            if node.children.len() == 1 {
                return visit_left(env, place, &node.children[0], limit);
            }
        },
        _ => {
            place.report(AnalysisErrorKind::InvalidLeftValue { location: node.location });
            return place.or_nameless_left(None, node.location);
        },
    }
    let _none = place.give_up();
    place.or_nameless_left(None, node.location)
}

/// Visits the first children of a node, which are assigned to.
pub fn visit_lefts(
    env: &Env<'_>,
    place: &mut Place,
    node: &Node,
    count: usize,
    limit: usize,
) -> (r: Vec<LeftValue>)
    requires
        old(place).wf(),
        count <= node.children@.len(),
    ensures
        final(place).wf(),
        (final(place)@, lefts_of(r@)) == lefts_visited(
            *env,
            old(place)@,
            *node,
            count as int,
            limit as nat,
        ),
    decreases limit, 0int, node, 5int, count,
{
    let ghost start = place@;
    let mut r: Vec<LeftValue> = Vec::new();
    let mut i: usize = 0;
    proof {
        assert(lefts_of(r@) =~= Seq::<LeftModel>::empty());
    }
    while i < count
        invariant
            i <= count,
            count <= node.children@.len(),
            place.wf(),
            (place@, lefts_of(r@)) == lefts_visited(
                *env,
                start,
                *node,
                i as int,
                limit as nat,
            ),
        decreases count - i,
    {
        let ghost before = lefts_of(r@);
        let left = visit_left(env, place, &node.children[i], limit);
        let ghost l = left@;
        r.push(left);
        proof {
            assert(lefts_of(r@) =~= before.push(l));
        }
        i = i + 1;
    }
    r
}

} // verus!
