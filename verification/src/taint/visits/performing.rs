//! Statements, and what loops and select statements ask for.

use vstd::prelude::*;

use crate::ast::{Node, NodeKind};
use crate::errors::{AnalysisErrorKind, ErrorModel};
use crate::labels::backtraces::{trace_of, LabelBacktrace, LabelBacktraceKind};
use crate::labels::tags::text_of;
use crate::locations::{Location, Span, SpanModel};
use crate::ordered::same_text;
use crate::policy::targets::SimpleConstValue;
use crate::symbols::table::lemma_resolved_in_range;
use crate::taint::explicit::{exprs_from, find_spec_exprs, known_of, spans_of, BindingShape,
    KnownModel};
use crate::taint::exprs::visits::{ExprModel, ExprNode};
use crate::taint::funcs::builtins::optional_value;
use crate::taint::funcs::captures::collector::{root_of, root_operand};
use crate::taint::funcs::defers::by_reference;
use crate::taint::implicit::{derive_current_for_range_operand, fold_ranged_channel,
    get_for_range_values, get_iter_function_range_values, gives_integer, is_integer_call,
    range_values, should_fold_operand, yielded_values, Place, PlaceModel};
use crate::taint::mutation::{LeftModel, LeftValue};
use crate::taint::visits::callees::{called, find_callee};
use crate::taint::visits::calls::{CallOperands, OperandsModel};
use crate::taint::visits::exprs::{expr_visited, lefts_visited, multi_visited, only_value,
    single_visited, singles_visited, visit_expr, visit_lefts, visit_multi_exprs_with_consts,
    visit_single_expr, visit_single_exprs};
use crate::taint::visits::lefts::left_of;
use crate::taint::visits::resolution::{call_resolved, call_visited, called_name, calls_builtin, is_builtin_call,
    read_called_name, resolve_call, target_visited, visit_call, visit_target, Resolution,
    ResolutionModel};
use crate::taint::visits::Env;
use crate::values::{carried, merged, values_of, FormModel, Value, ValueForm, ValueModel};

verus! {

/// What a loop or a clause of a select statement works with, once it has been
/// evaluated.
#[derive(Debug)]
pub struct Kept {
    /// Where the statement stands that it belongs to.
    pub location: Location,
    /// What a loop goes through, or the channel.
    pub operand: Value,
    /// What is sent to the channel, if anything.
    pub payload: Option<Value>,
    /// What holds the operand, if something does that can be assigned to.
    pub left: Option<LeftValue>,
}

/// What a [`Kept`] stands for.
#[verifier::ext_equal]
pub struct KeptModel {
    pub location: Location,
    pub operand: ValueModel,
    pub payload: Option<ValueModel>,
    pub left: Option<LeftModel>,
}

impl View for Kept {
    type V = KeptModel;

    open spec fn view(&self) -> KeptModel {
        KeptModel {
            location: self.location,
            operand: self.operand@,
            payload: optional_value(self.payload),
            left: left_of(self.left),
        }
    }
}

/// The last part of a node, or the node itself.
pub open spec fn last_of(node: Node) -> Node {
    if node.children@.len() > 0 {
        node.children@.last()
    } else {
        node
    }
}

/// The same values, of which nothing is known.
pub open spec fn unknown(values: Seq<ValueModel>) -> Seq<KnownModel> {
    values.map_values(|v: ValueModel| (v, None::<Seq<char>>))
}

/// Whether a declaration is one of variables.
pub open spec fn is_mutable(node: Node) -> bool {
    text_of(node.text) != Some("const"@)
}

/// The shapes of the parts of a declaration.
pub open spec fn shapes_of(specs: Seq<Node>) -> Seq<BindingShape> {
    specs.map_values(
        |s: Node|
            BindingShape {
                expr_count: s.children@.len() as usize,
                has_type: s.declared_type is Some,
            },
    )
}

impl PlaceModel {
    /// The place once a value is written to something, if there is something.
    pub open spec fn with_written_if(
        self,
        left: Option<LeftModel>,
        value: ValueModel,
        location: Location,
    ) -> PlaceModel {
        match left {
            Some(l) => self.with_written(l, value, location),
            None => self,
        }
    }

    /// The place and the value that is received from a channel, once that shows
    /// that it was used.
    pub open spec fn taken(self, k: KeptModel, location: Location) -> (PlaceModel, ValueModel) {
        let m = ExprModel::Receive(k.operand);
        let result = self.value_of(m, location);
        let q = self.after(m, location);
        (
            match result.channel {
                Some(c) => q.with_written_if(k.left, c, location),
                None => q,
            },
            result.value,
        )
    }

    /// What results with names hold.
    pub open spec fn named_values(self, names: Seq<SpanModel>, location: Location) -> Seq<
        ValueModel,
    > {
        names.map_values(
            |s: SpanModel|
                match self.table.resolved(Some(self.table.current), s.content) {
                    Some(i) => self.table.symbols[i as int].value,
                    None => ValueModel::simple(None, self.at(location)),
                },
        )
    }

    /// What a loop goes through now: a map that a variable holds may have
    /// changed since.
    pub open spec fn ranged(self, operand: ValueModel, node: Node) -> ValueModel {
        match (operand.form, called_name(node)) {
            (FormModel::Mapping, Some(name)) => match self.table.resolved(
                Some(self.table.current),
                name,
            ) {
                Some(s) => merged(
                    operand,
                    self.table.symbols[s as int].value,
                    LabelBacktraceKind::Assignment,
                    self.at(node.location),
                ),
                None => operand,
            },
            _ => operand,
        }
    }

    /// The values of an iteration.
    pub open spec fn iterated(self, operand: ValueModel, node: Node) -> Seq<ValueModel> {
        let at = self.at(node.location);
        let now = self.ranged(operand, node);
        match called(self.table, now) {
            Some(f) => match f.yielding {
                Some(y) => yielded_values(
                    ValueModel::simple(carried(now), at),
                    y.values.len(),
                    y.values,
                    f.func,
                    self.ctx.branches.current(),
                    at,
                ),
                None => range_values(now, false, at),
            },
            None => range_values(
                now,
                node.kind is Call && node.children@.len() > 0 && match called_name(
                    node.children@[0],
                ) {
                    Some(name) => gives_integer(self.table, name),
                    None => false,
                },
                at,
            ),
        }
    }

    /// Whether what a loop goes through is to show under which conditions.
    pub open spec fn folds(self, node: Node) -> bool {
        self.ctx.branches.current() is Some && root_of(node) is Some && match self.table.resolved(
            Some(self.table.current),
            root_of(node)->0,
        ) {
            Some(s) => self.table.symbols[s as int].mutable,
            None => true,
        }
    }
}

/// The place once something is sent.
#[verifier::opaque]
pub open spec fn send_visited(env: Env<'_>, p: PlaceModel, node: Node, limit: nat) -> PlaceModel
{
    if node.children@.len() != 2 {
        p.stopped()
    } else {
        let (q, channel, left) = target_visited(env, p, node.children@[0], true, limit);
        let (r, payload) = single_visited(env, q, node.children@[1], limit);
        let (s, sent) = r.send_done(
            channel,
            payload,
            by_reference(&node.annotation),
            node.location,
        );
        s.with_written_if(left, sent, node.location)
    }
}

/// The place once an assignment is made. What is assigned is visited first.
#[verifier::opaque]
pub open spec fn assignment_visited(
    env: Env<'_>,
    p: PlaceModel,
    node: Node,
    count: int,
    limit: nat,
) -> PlaceModel
{
    if count > node.children@.len() {
        p.stopped()
    } else {
        let (q, rhs) = multi_visited(env, p, node, count, limit);
        if node.text is Some && count != 1 {
            q.reporting(
                ErrorModel::MultiComplexAssignment { location: node.location, num: count as usize },
            )
        } else {
            let (r, lefts) = lefts_visited(env, q, node, count, limit);
            r.assignment_done(
                node.text is None,
                lefts,
                rhs,
                by_reference(&node.annotation),
                node.location,
            )
        }
    }
}

/// The place once one is added or taken away: an assignment of a number that
/// carries nothing, which is not a simple one.
#[verifier::opaque]
pub open spec fn incdec_visited(env: Env<'_>, p: PlaceModel, node: Node, limit: nat) -> PlaceModel
{
    if node.children@.len() != 1 {
        p.stopped()
    } else {
        let one = ValueModel::simple(None, p.at(node.location));
        let (r, lefts) = lefts_visited(env, p, node, 1, limit);
        r.assignment_done(false, lefts, seq![(one, Some("1"@))], None, node.location)
    }
}

/// The place once the first parts of a declaration are visited.
pub open spec fn bindings_visited(
    env: Env<'_>,
    p: PlaceModel,
    node: Node,
    n: int,
    limit: nat,
) -> PlaceModel
    decreases n,
{
    if n <= 0 || n > node.children@.len() {
        p
    } else {
        let q = bindings_visited(env, p, node, n - 1, limit);
        let spec_node = node.children@[n - 1];
        let from = exprs_from(shapes_of(node.children@), is_mutable(node), n - 1);
        if 0 <= from < node.children@.len() {
            let (r, rhs) = multi_visited(env, q, node.children@[from], 0, limit);
            r.binding_done(
                spans_of(spec_node.names@),
                rhs,
                node.children@[from].children@.len() > 0,
                is_mutable(node),
                by_reference(&node.annotation),
                spec_node.declared_type is Some,
                crate::values::type_of(spec_node.declared_type),
                None,
                node.location,
            )
        } else {
            q.stopped()
        }
    }
}

/// The place once a function is left. A single call hands on all its results; a
/// statement without expressions gives the results with names.
#[verifier::opaque]
pub open spec fn return_visited(
    env: Env<'_>,
    p: PlaceModel,
    node: Node,
    names: Seq<SpanModel>,
    limit: nat,
) -> PlaceModel
{
    if node.children@.len() == 0 {
        p.return_done(p.named_values(names, node.location), false, node.location)
    } else if node.children@.len() == 1 && node.children@[0].kind is Call {
        let (q, values) = expr_visited(env, p, node.children@[0], limit);
        q.return_done(values, true, node.location)
    } else {
        let (q, values) = singles_visited(
            env,
            p,
            node,
            0,
            node.children@.len() as int,
            limit,
        );
        q.return_done(values.map_values(|k: KnownModel| k.0), false, node.location)
    }
}

/// The place once the operands of a call that is put off are evaluated, and the
/// call, if there is something left to do.
#[verifier::opaque]
pub open spec fn call_put_off(env: Env<'_>, p: PlaceModel, node: Node, limit: nat) -> (
    PlaceModel,
    Option<OperandsModel>,
)
{
    if is_builtin_call(p, node) {
        (call_visited(env, p, node, limit).0, None)
    } else {
        let (q, resolution) = call_resolved(env, p, node, limit);
        match resolution {
            ResolutionModel::Final(_) => (q, None),
            ResolutionModel::Pending(call) => (q, Some(call)),
        }
    }
}

/// The place once a statement is carried out that holds no others, and the call
/// that it puts off, if it does. `names` are those of the results of the
/// function around it.
#[verifier::opaque]
pub open spec fn performed(
    env: Env<'_>,
    p: PlaceModel,
    node: Node,
    names: Seq<SpanModel>,
    limit: nat,
) -> (PlaceModel, Option<OperandsModel>)
{
    match node.kind {
        NodeKind::Evaluation => if node.children@.len() == 1 {
            let (q, values) = expr_visited(env, p, node.children@[0], limit);
            (
                q.evaluation_done(
                    values,
                    by_reference(&node.annotation),
                    node.children@[0].location,
                ),
                None,
            )
        } else {
            (p.stopped(), None)
        },
        NodeKind::Send => (send_visited(env, p, node, limit), None),
        NodeKind::IncDec => (incdec_visited(env, p, node, limit), None),
        NodeKind::Assignment(count) => (
            assignment_visited(env, p, node, count as int, limit),
            None,
        ),
        NodeKind::ShortDecl => {
            let hidden = p.names_hidden(spans_of(node.names@), node.names@.len() as int);
            let (q, rhs) = multi_visited(env, hidden, node, 0, limit);
            (
                q.short_done(
                    spans_of(node.names@),
                    rhs,
                    by_reference(&node.annotation),
                    node.location,
                ),
                None,
            )
        },
        NodeKind::BindingDecl => (
            bindings_visited(env, p, node, node.children@.len() as int, limit),
            None,
        ),
        NodeKind::Return => (return_visited(env, p, node, names, limit), None),
        NodeKind::Go => if node.children@.len() == 1 {
            (call_visited(env, p, node.children@[0], limit).0, None)
        } else {
            (p.stopped(), None)
        },
        NodeKind::Defer => if node.children@.len() == 1 {
            call_put_off(env, p, node.children@[0], limit)
        } else {
            (p.stopped(), None)
        },
        _ => (p, None),
    }
}

/// The place once what a loop goes through is evaluated, and what that is.
#[verifier::opaque]
pub open spec fn range_prepared(env: Env<'_>, p: PlaceModel, node: Node, limit: nat) -> (
    PlaceModel,
    Option<KeptModel>,
)
{
    if node.children@.len() == 0 {
        (p.stopped(), None)
    } else {
        let last = node.children@[node.children@.len() - 1];
        let (q, value, left) = target_visited(env, p, last, p.folds(last), limit);
        let operand = if left is Some && value.form is Channel {
            value.used_under(q.ctx.branches.current(), q.at(last.location))
        } else {
            value
        };
        (
            if left is Some && value.form is Channel {
                q.with_written_if(left, operand, last.location)
            } else {
                q
            },
            Some(KeptModel { location: node.location, operand, payload: None, left }),
        )
    }
}

/// The place once the names of a loop are given the values of an iteration.
#[verifier::opaque]
pub open spec fn range_bound(
    env: Env<'_>,
    p: PlaceModel,
    node: Node,
    kept: KeptModel,
    limit: nat,
) -> PlaceModel
{
    let values = p.iterated(kept.operand, last_of(node));
    match node.kind {
        NodeKind::RangeDecl => if node.names@.len() == 0 {
            p
        } else {
            p.short_done(
                spans_of(node.names@),
                unknown(first_values(values, node.names@.len())),
                None,
                node.location,
            )
        },
        NodeKind::RangeAssignment(count) => if count == 0 {
            p
        } else if count > node.children@.len() {
            p.stopped()
        } else {
            let (q, lefts) = lefts_visited(env, p, node, count as int, limit);
            q.assignment_done(
                true,
                lefts,
                unknown(first_values(values, count as nat)),
                None,
                node.location,
            )
        },
        _ => p.stopped(),
    }
}

/// The first values of a list, as far as there are so many.
pub open spec fn first_values(values: Seq<ValueModel>, n: nat) -> Seq<ValueModel> {
    if values.len() > n {
        values.take(n as int)
    } else {
        values
    }
}

/// The place once the operands of a communication are evaluated, and what these
/// are.
#[verifier::opaque]
pub open spec fn communication_prepared(env: Env<'_>, p: PlaceModel, node: Node, limit: nat) -> (
    PlaceModel,
    Option<KeptModel>,
)
{
    if node.kind is Send {
        if node.children@.len() != 2 {
            (p.stopped(), None)
        } else {
            let (q, channel, left) = target_visited(env, p, node.children@[0], true, limit);
            let (r, payload) = single_visited(env, q, node.children@[1], limit);
            (
                r,
                Some(
                    KeptModel {
                        location: node.location,
                        operand: channel,
                        payload: Some(payload),
                        left,
                    },
                ),
            )
        }
    } else if node.children@.len() == 0 {
        (p.stopped(), None)
    } else {
        let last = node.children@[node.children@.len() - 1];
        if last.children@.len() != 1 {
            (p.stopped(), None)
        } else {
            let (q, channel, left) = target_visited(env, p, last.children@[0], true, limit);
            (
                q,
                Some(
                    KeptModel { location: node.location, operand: channel, payload: None, left },
                ),
            )
        }
    }
}

/// The place once a communication is carried out.
#[verifier::opaque]
pub open spec fn communicated(
    env: Env<'_>,
    p: PlaceModel,
    node: Node,
    kept: KeptModel,
    limit: nat,
) -> PlaceModel
{
    match node.kind {
        NodeKind::Send => match kept.payload {
            Some(payload) => {
                let (q, sent) = p.send_done(
                    kept.operand,
                    payload,
                    by_reference(&node.annotation),
                    node.location,
                );
                q.with_written_if(kept.left, sent, node.location)
            },
            None => p.stopped(),
        },
        NodeKind::Evaluation => p.taken(kept, last_of(node).location).0,
        NodeKind::Assignment(count) => if count > node.children@.len() {
            p.stopped()
        } else {
            let (q, value) = p.taken(kept, last_of(node).location);
            let (r, lefts) = lefts_visited(env, q, node, count as int, limit);
            r.assignment_done(
                true,
                lefts,
                unknown(seq![value]),
                by_reference(&node.annotation),
                node.location,
            )
        },
        NodeKind::ShortDecl => {
            let (q, value) = p.taken(kept, last_of(node).location);
            q.short_done(
                spans_of(node.names@),
                unknown(seq![value]),
                by_reference(&node.annotation),
                node.location,
            )
        },
        _ => p.stopped(),
    }
}

impl Place {
    fn write_if(&mut self, left: &Option<LeftValue>, value: Value, location: Location)
        requires
            old(self).wf(),
        ensures
            final(self).wf(),
            final(self)@ == old(self)@.with_written_if(left_of(*left), value@, location),
    {
        if let Some(l) = left {
            self.write(l, value, location);
        }
    }

    fn take_received(&mut self, kept: &Kept, location: Location) -> (r: Value)
        requires
            old(self).wf(),
        ensures
            final(self).wf(),
            (final(self)@, r@) == old(self)@.taken(kept@, location),
    {
        let result = self.evaluate(ExprNode::Receive(kept.operand.clone()), location);
        if let Some(c) = result.channel {
            self.write_if(&kept.left, c, location);
        }
        result.value
    }

    fn read_results(&self, names: &Vec<Span>, location: Location) -> (r: Vec<Value>)
        requires
            self.wf(),
        ensures
            values_of(r@) == self@.named_values(spans_of(names@), location),
    {
        let n: usize = names.len();
        let mut r: Vec<Value> = Vec::new();
        let ghost goal = self@.named_values(spans_of(names@), location);
        let mut i: usize = 0;
        while i < n
            invariant
                i <= n,
                n == names@.len(),
                self.wf(),
                goal == self@.named_values(spans_of(names@), location),
                r@.len() == i,
                forall|k: int| 0 <= k < i ==> (#[trigger] r@[k])@ == goal[k],
            decreases n - i,
        {
            let name = names[i].content();
            proof {
                lemma_resolved_in_range(self.table@, Some(self.table@.current), name@);
                assert(spans_of(names@)[i as int] == names@[i as int]@);
            }
            let v = match self.table.get_symbol(name) {
                Some(s) => self.table.symbol(s).value.clone(),
                None => Value::from_backtrace_or_bottom_at(None, &self.ctx.log.pin(location)),
            };
            r.push(v);
            i = i + 1;
        }
        proof {
            assert(values_of(r@) =~= goal);
        }
        r
    }

    fn find_ranged(&self, operand: &Value, node: &Node) -> (r: Value)
        requires
            self.wf(),
        ensures
            r@ == self@.ranged(operand@, *node),
    {
        let is_map = match &operand.form {
            ValueForm::Mapping => true,
            _ => false,
        };
        if is_map {
            if let Some(name) = read_called_name(node) {
                proof {
                    lemma_resolved_in_range(self.table@, Some(self.table@.current), name@);
                }
                if let Some(s) = self.table.get_symbol(name.as_str()) {
                    let at = self.ctx.log.pin(node.location);
                    return derive_current_for_range_operand(
                        operand,
                        Some(&self.table.symbol(s).value),
                        &at,
                    );
                }
            }
        }
        operand.clone()
    }

    fn iterate(&self, operand: &Value, node: &Node) -> (r: Vec<Value>)
        requires
            self.wf(),
        ensures
            values_of(r@) == self@.iterated(operand@, *node),
    {
        let at = self.ctx.log.pin(node.location);
        let now = self.find_ranged(operand, node);
        match find_callee(&self.table, &now) {
            Some(f) => match &f.yielding {
                Some(y) => {
                    let value = Value::from_backtrace_or_bottom_at(now.backtrace(), &at);
                    get_iter_function_range_values(
                        &value,
                        y.values.len(),
                        &y.values,
                        &f.func,
                        self.ctx.branches.branch_backtrace(),
                        &at,
                    )
                },
                None => get_for_range_values(&now, false, &at),
            },
            None => {
                let mut integer = false;
                if let NodeKind::Call { .. } = node.kind {
                    if node.children.len() > 0 {
                        if let Some(name) = read_called_name(&node.children[0]) {
                            integer = is_integer_call(&self.table, name.as_str());
                        }
                    }
                }
                get_for_range_values(&now, integer, &at)
            },
        }
    }
}

fn last_at(node: &Node) -> (r: &Node)
    ensures
        *r == last_of(*node),
{
    let n: usize = node.children.len();
    if n > 0 {
        &node.children[n - 1]
    } else {
        node
    }
}

/// The first values of a list, without anything that is known of them.
fn without_known(values: Vec<Value>, count: usize) -> (r: Vec<(Value, Option<SimpleConstValue>)>)
    ensures
        known_of(r@) == unknown(first_values(values_of(values@), count as nat)),
{
    let n: usize = if values.len() > count {
        count
    } else {
        values.len()
    };
    let mut r: Vec<(Value, Option<SimpleConstValue>)> = Vec::new();
    let mut i: usize = 0;
    while i < n
        invariant
            i <= n <= values@.len(),
            r@.len() == i,
            forall|k: int|
                0 <= k < i ==> (#[trigger] r@[k]).0@ == values@[k]@ && r@[k].1 is None,
        decreases n - i,
    {
        r.push((values[i].clone(), None));
        i = i + 1;
    }
    proof {
        assert(known_of(r@) =~= unknown(first_values(values_of(values@), count as nat)));
    }
    r
}

/// Visits a send statement.
pub fn visit_send(env: &Env<'_>, place: &mut Place, node: &Node, limit: usize)
    requires
        old(place).wf(),
    ensures
        final(place).wf(),
        final(place)@ == send_visited(*env, old(place)@, *node, limit as nat),
{
    proof {
        reveal(send_visited);
    }
    if node.children.len() != 2 {
        let _none = place.give_up();
        return;
    }
    let (channel, left) = visit_target(env, place, &node.children[0], true, limit);
    let payload = visit_single_expr(env, place, &node.children[1], limit);
    let sent = place.finish_send(channel, &payload, node.annotation.as_ref(), node.location);
    place.write_if(&left, sent, node.location);
}

/// Visits an assignment.
pub fn visit_assignment(env: &Env<'_>, place: &mut Place, node: &Node, count: usize, limit: usize)
    requires
        old(place).wf(),
    ensures
        final(place).wf(),
        final(place)@ == assignment_visited(
            *env,
            old(place)@,
            *node,
            count as int,
            limit as nat,
        ),
{
    proof {
        reveal(assignment_visited);
    }
    if count > node.children.len() {
        let _none = place.give_up();
        return;
    }
    let rhs = visit_multi_exprs_with_consts(env, place, node, count, limit);
    if node.text.is_some() && count != 1 {
        place.report(
            AnalysisErrorKind::MultiComplexAssignment { location: node.location, num: count },
        );
        return;
    }
    let lefts = visit_lefts(env, place, node, count, limit);
    place.finish_assignment(
        node.text.is_none(),
        &lefts,
        rhs,
        node.annotation.as_ref(),
        node.location,
    );
}

/// Visits a statement that adds one or takes one away.
pub fn visit_incdec(env: &Env<'_>, place: &mut Place, node: &Node, limit: usize)
    requires
        old(place).wf(),
    ensures
        final(place).wf(),
        final(place)@ == incdec_visited(*env, old(place)@, *node, limit as nat),
{
    proof {
        reveal(incdec_visited);
    }
    if node.children.len() != 1 {
        let _none = place.give_up();
        return;
    }
    let at = place.ctx.log.pin(node.location);
    let one = Value::from_backtrace_or_bottom_at(None, &at);
    let ghost v = one@;
    let mut rhs: Vec<(Value, Option<SimpleConstValue>)> = Vec::new();
    rhs.push((one, Some(SimpleConstValue { text: "1".to_owned() })));
    proof {
        assert(known_of(rhs@) =~= seq![(v, Some("1"@))]);
    }
    let lefts = visit_lefts(env, place, node, 1, limit);
    place.finish_assignment(false, &lefts, rhs, None, node.location);
}

fn find_shapes(node: &Node) -> (r: Vec<BindingShape>)
    ensures
        r@ == shapes_of(node.children@),
{
    let n: usize = node.children.len();
    let mut r: Vec<BindingShape> = Vec::new();
    let mut i: usize = 0;
    while i < n
        invariant
            i <= n,
            n == node.children@.len(),
            r@.len() == i,
            forall|k: int| 0 <= k < i ==> (#[trigger] r@[k]) == shapes_of(node.children@)[k],
        decreases n - i,
    {
        r.push(
            BindingShape {
                expr_count: node.children[i].children.len(),
                has_type: node.children[i].declared_type.is_some(),
            },
        );
        i = i + 1;
    }
    proof {
        assert(r@ =~= shapes_of(node.children@));
    }
    r
}

fn find_mutable(node: &Node) -> (r: bool)
    ensures
        r == is_mutable(*node),
{
    match &node.text {
        Some(t) => !same_text(t.as_str(), "const"),
        None => true,
    }
}

/// Visits a declaration of constants or variables.
pub fn visit_binding_decl(env: &Env<'_>, place: &mut Place, node: &Node, count: usize, limit: usize)
    requires
        old(place).wf(),
        count <= node.children@.len(),
    ensures
        final(place).wf(),
        final(place)@ == bindings_visited(*env, old(place)@, *node, count as int, limit as nat),
    decreases count,
{
    if count == 0 {
        return;
    }
    visit_binding_decl(env, place, node, count - 1, limit);
    let shapes = find_shapes(node);
    let mutable = find_mutable(node);
    let from: usize = find_spec_exprs(&shapes, mutable, count - 1);
    let rhs = visit_multi_exprs_with_consts(env, place, &node.children[from], 0, limit);
    let part = &node.children[count - 1];
    place.finish_binding(
        &part.names,
        rhs,
        node.children[from].children.len() > 0,
        mutable,
        node.annotation.as_ref(),
        part.declared_type.is_some(),
        &part.declared_type,
        &None,
        node.location,
    );
}

fn without_consts(values: &Vec<(Value, Option<SimpleConstValue>)>) -> (r: Vec<Value>)
    ensures
        values_of(r@) == known_of(values@).map_values(|k: KnownModel| k.0),
{
    let n: usize = values.len();
    let mut r: Vec<Value> = Vec::new();
    let mut i: usize = 0;
    while i < n
        invariant
            i <= n,
            n == values@.len(),
            r@.len() == i,
            forall|k: int| 0 <= k < i ==> (#[trigger] r@[k])@ == values@[k].0@,
        decreases n - i,
    {
        r.push(values[i].0.clone());
        i = i + 1;
    }
    proof {
        assert(values_of(r@) =~= known_of(values@).map_values(|k: KnownModel| k.0));
    }
    r
}

/// Visits a statement that leaves a function.
pub fn visit_return_statement(
    env: &Env<'_>,
    place: &mut Place,
    node: &Node,
    names: &Vec<Span>,
    limit: usize,
)
    requires
        old(place).wf(),
    ensures
        final(place).wf(),
        final(place)@ == return_visited(
            *env,
            old(place)@,
            *node,
            spans_of(names@),
            limit as nat,
        ),
{
    proof {
        reveal(return_visited);
    }
    if node.children.len() == 0 {
        let values = place.read_results(names, node.location);
        place.finish_return(values, false, node.location);
        return;
    }
    if node.children.len() == 1 {
        if let NodeKind::Call { .. } = node.children[0].kind {
            let values = visit_expr(env, place, &node.children[0], limit);
            place.finish_return(values, true, node.location);
            return;
        }
    }
    let known = visit_single_exprs(env, place, node, 0, limit);
    let values = without_consts(&known);
    place.finish_return(values, false, node.location);
}

/// Visits a call that is put off. Its operands are evaluated now.
pub fn visit_defer(env: &Env<'_>, place: &mut Place, call: &Node, limit: usize) -> (r: Option<
    CallOperands,
>)
    requires
        old(place).wf(),
    ensures
        final(place).wf(),
        (
            final(place)@,
            match r {
                Some(c) => Some(c@),
                None => None,
            },
        ) == call_put_off(*env, old(place)@, *call, limit as nat),
        r matches Some(c) ==> c.args@.len() == c.consts@.len(),
{
    proof {
        reveal(call_put_off);
    }
    if calls_builtin(place, call) {
        let _values = visit_call(env, place, call, limit);
        return None;
    }
    match resolve_call(env, place, call, limit) {
        Resolution::Final(_) => None,
        Resolution::Pending(c) => Some(c),
    }
}

/// Carries out a statement that holds no others.
pub fn perform(
    env: &Env<'_>,
    place: &mut Place,
    node: &Node,
    names: &Vec<Span>,
    limit: usize,
) -> (r: Option<CallOperands>)
    requires
        old(place).wf(),
    ensures
        final(place).wf(),
        (
            final(place)@,
            match r {
                Some(c) => Some(c@),
                None => None,
            },
        ) == performed(*env, old(place)@, *node, spans_of(names@), limit as nat),
        r matches Some(c) ==> c.args@.len() == c.consts@.len(),
{
    proof {
        reveal(performed);
    }
    match node.kind {
        NodeKind::Evaluation => {
            if node.children.len() == 1 {
                let values = visit_expr(env, place, &node.children[0], limit);
                place.finish_evaluation(
                    &values,
                    node.annotation.as_ref(),
                    node.children[0].location,
                );
            } else {
                let _none = place.give_up();
            }
            None
        },
        NodeKind::Send => {
            visit_send(env, place, node, limit);
            None
        },
        NodeKind::IncDec => {
            visit_incdec(env, place, node, limit);
            None
        },
        NodeKind::Assignment(count) => {
            visit_assignment(env, place, node, count, limit);
            None
        },
        NodeKind::ShortDecl => {
            place.hide_names(&node.names);
            let rhs = visit_multi_exprs_with_consts(env, place, node, 0, limit);
            place.finish_short_decl(&node.names, rhs, node.annotation.as_ref(), node.location);
            None
        },
        NodeKind::BindingDecl => {
            visit_binding_decl(env, place, node, node.children.len(), limit);
            None
        },
        NodeKind::Return => {
            visit_return_statement(env, place, node, names, limit);
            None
        },
        NodeKind::Go => {
            if node.children.len() == 1 {
                let _values = visit_call(env, place, &node.children[0], limit);
            } else {
                let _none = place.give_up();
            }
            None
        },
        NodeKind::Defer => {
            if node.children.len() == 1 {
                visit_defer(env, place, &node.children[0], limit)
            } else {
                let _none = place.give_up();
                None
            }
        },
        _ => None,
    }
}

/// Evaluates what a loop goes through.
pub fn prepare_range(env: &Env<'_>, place: &mut Place, node: &Node, limit: usize) -> (r: Option<
    Kept,
>)
    requires
        old(place).wf(),
    ensures
        final(place).wf(),
        (
            final(place)@,
            match r {
                Some(k) => Some(k@),
                None => None,
            },
        ) == range_prepared(*env, old(place)@, *node, limit as nat),
{
    proof {
        reveal(range_prepared);
    }
    let n: usize = node.children.len();
    if n == 0 {
        let _none = place.give_up();
        return None;
    }
    let last = &node.children[n - 1];
    let root = match root_operand(last) {
        Some(s) => Some(s.content()),
        None => None,
    };
    let folds = should_fold_operand(&place.ctx.branches, &place.table, root);
    let (value, left) = visit_target(env, place, last, folds, limit);
    let is_channel = match &value.form {
        ValueForm::Channel => true,
        _ => false,
    };
    if left.is_some() && is_channel {
        let at = place.ctx.log.pin(last.location);
        let operand = fold_ranged_channel(&place.ctx.branches, value, &at);
        place.write_if(&left, operand.clone(), last.location);
        return Some(Kept { location: node.location, operand, payload: None, left });
    }
    Some(Kept { location: node.location, operand: value, payload: None, left })
}

/// What decides how many iterations there are.
pub fn derive_range(place: &Place, node: &Node, kept: &Kept) -> (r: Option<LabelBacktrace>)
    requires
        place.wf(),
    ensures
        trace_of(r) == carried(place@.ranged(kept@.operand, last_of(*node))),
{
    place.find_ranged(&kept.operand, last_at(node)).backtrace()
}

/// Gives the names of a loop the values of an iteration.
pub fn bind_range(env: &Env<'_>, place: &mut Place, node: &Node, kept: &Kept, limit: usize)
    requires
        old(place).wf(),
    ensures
        final(place).wf(),
        final(place)@ == range_bound(*env, old(place)@, *node, kept@, limit as nat),
{
    proof {
        reveal(range_bound);
    }
    let values = place.iterate(&kept.operand, last_at(node));
    match node.kind {
        NodeKind::RangeDecl => {
            if node.names.len() > 0 {
                let rhs = without_known(values, node.names.len());
                place.finish_short_decl(&node.names, rhs, None, node.location);
            }
        },
        NodeKind::RangeAssignment(count) => {
            if count == 0 {
                return;
            }
            if count > node.children.len() {
                let _none = place.give_up();
                return;
            }
            let rhs = without_known(values, count);
            let lefts = visit_lefts(env, place, node, count, limit);
            place.finish_assignment(true, &lefts, rhs, None, node.location);
        },
        _ => {
            let _none = place.give_up();
        },
    }
}

/// Evaluates the operands of a communication.
pub fn prepare_communication(env: &Env<'_>, place: &mut Place, node: &Node, limit: usize) -> (r:
    Option<Kept>)
    requires
        old(place).wf(),
    ensures
        final(place).wf(),
        (
            final(place)@,
            match r {
                Some(k) => Some(k@),
                None => None,
            },
        ) == communication_prepared(*env, old(place)@, *node, limit as nat),
{
    proof {
        reveal(communication_prepared);
    }
    let n: usize = node.children.len();
    if let NodeKind::Send = node.kind {
        if n != 2 {
            let _none = place.give_up();
            return None;
        }
        let (operand, left) = visit_target(env, place, &node.children[0], true, limit);
        let payload = visit_single_expr(env, place, &node.children[1], limit);
        return Some(Kept { location: node.location, operand, payload: Some(payload), left });
    }
    if n == 0 {
        let _none = place.give_up();
        return None;
    }
    let last = &node.children[n - 1];
    if last.children.len() != 1 {
        let _none = place.give_up();
        return None;
    }
    let (operand, left) = visit_target(env, place, &last.children[0], true, limit);
    Some(Kept { location: node.location, operand, payload: None, left })
}

/// Carries out a communication.
pub fn communicate(env: &Env<'_>, place: &mut Place, node: &Node, kept: &Kept, limit: usize)
    requires
        old(place).wf(),
    ensures
        final(place).wf(),
        final(place)@ == communicated(*env, old(place)@, *node, kept@, limit as nat),
{
    proof {
        reveal(communicated);
    }
    match node.kind {
        NodeKind::Send => match &kept.payload {
            Some(payload) => {
                let sent = place.finish_send(
                    kept.operand.clone(),
                    payload,
                    node.annotation.as_ref(),
                    node.location,
                );
                place.write_if(&kept.left, sent, node.location);
            },
            None => {
                let _none = place.give_up();
            },
        },
        NodeKind::Evaluation => {
            let _value = place.take_received(kept, last_at(node).location);
        },
        NodeKind::Assignment(count) => {
            if count > node.children.len() {
                let _none = place.give_up();
                return;
            }
            let value = place.take_received(kept, last_at(node).location);
            let rhs = without_known(only_value(value), 1);
            let lefts = visit_lefts(env, place, node, count, limit);
            place.finish_assignment(true, &lefts, rhs, node.annotation.as_ref(), node.location);
        },
        NodeKind::ShortDecl => {
            let value = place.take_received(kept, last_at(node).location);
            let rhs = without_known(only_value(value), 1);
            place.finish_short_decl(&node.names, rhs, node.annotation.as_ref(), node.location);
        },
        _ => {
            let _none = place.give_up();
        },
    }
}

} // verus!
