//! Expressions whose operands have been evaluated.

use vstd::prelude::*;

use crate::context::reports::LogModel;
use crate::context::{AnalysisContext, ContextModel};
use crate::errors::ErrorModel;
use crate::labels::backtraces::{trace_of, LabelBacktrace, Trace};
use crate::locations::{Location, PinnedModel, Span, SpanModel};
use crate::policy::blanket_directives::{directives_of, BlanketDirective, DirectiveModel};
use crate::policy::targets::{known_texts, SimpleConstValue};
use crate::symbols::const_of;
use crate::symbols::table::{SymbolTable, TableModel};
use crate::taint::channels::receive_from_channel;
use crate::taint::exprs::component::{bracketed, indexed, slice_value,
    visit_ambiguous_bracket_access, visit_indexing_with, visit_selection_with_base,
    visit_slicing_with_base, Member, MemberModel, SliceBound, selection_visited};
use crate::taint::exprs::names::{operand_visited, visit_operand_name};
use crate::taint::exprs::{asserted_value, binary_flow, visit_binary_op,
    visit_type_assertion_with_base};
use crate::taint::funcs::builtins::{make_reported, made, optional_value, visit_make};
use crate::taint::funcs::call_checks::flows_of;
use crate::taint::funcs::call_results::{apply_call_blanket_revocations, revoked};
use crate::values::{type_of, values_of, FormModel, TypeInfo, TypeKind, TypeModel, Value, ValueModel};

verus! {

/// An expression whose operands have been evaluated.
#[derive(Debug)]
pub enum ExprNode {
    /// A name, with what the policy says of it.
    Name { name: Span, qualifier: Option<Span>, directives: Vec<BlanketDirective> },
    /// A number, a text or another value without parts.
    Literal,
    /// A call of `make`, with what the policy says of it.
    Make {
        kind: Option<TypeKind>,
        n: Option<Value>,
        m: Option<Value>,
        declared_type: Option<TypeInfo>,
        directives: Vec<BlanketDirective>,
        arg_consts: Vec<Option<SimpleConstValue>>,
    },
    /// A member of a value.
    Selection { base: Value, selector: Span, member: Member },
    /// An element of a value.
    Indexing { base: Value, index: Option<SimpleConstValue> },
    /// Some elements of a value.
    Slicing {
        base: Value,
        low: SliceBound,
        high: SliceBound,
        has_max: bool,
        bounds: Vec<Option<LabelBacktrace>>,
    },
    /// A value as one of another type, or with an operator before it.
    Passed(Value),
    /// A value of which a type is asserted.
    TypeAssertion { base: Value, declared_type: Option<TypeInfo> },
    /// A function with the types that it is used with, or an element of a
    /// value.
    AmbiguousBracketAccess { base: Value, is_type_known: bool, index: Option<SimpleConstValue> },
    /// What is received from a channel.
    Receive(Value),
    /// Two values with an operator between them, and what the policy says of
    /// the operator.
    BinaryOp {
        left: Option<LabelBacktrace>,
        right: Option<LabelBacktrace>,
        short_circuits: bool,
        consts: Vec<Option<SimpleConstValue>>,
        directives: Vec<BlanketDirective>,
    },
}

/// What an [`ExprNode`] stands for.
#[verifier::ext_equal]
pub enum ExprModel {
    Name {
        name: SpanModel,
        qualifier: Option<SpanModel>,
        directives: Seq<DirectiveModel>,
    },
    Literal,
    Make {
        kind: Option<TypeKind>,
        n: Option<ValueModel>,
        m: Option<ValueModel>,
        declared_type: Option<TypeModel>,
        directives: Seq<DirectiveModel>,
        arg_consts: Seq<Option<Seq<char>>>,
    },
    Selection { base: ValueModel, selector: SpanModel, member: MemberModel },
    Indexing { base: ValueModel, index: Option<Seq<char>> },
    Slicing {
        base: ValueModel,
        low: SliceBound,
        high: SliceBound,
        has_max: bool,
        bounds: Seq<Option<Trace>>,
    },
    Passed(ValueModel),
    TypeAssertion { base: ValueModel, declared_type: Option<TypeModel> },
    AmbiguousBracketAccess { base: ValueModel, is_type_known: bool, index: Option<Seq<char>> },
    Receive(ValueModel),
    BinaryOp {
        left: Option<Trace>,
        right: Option<Trace>,
        short_circuits: bool,
        consts: Seq<Option<Seq<char>>>,
        directives: Seq<DirectiveModel>,
    },
}

impl View for ExprNode {
    type V = ExprModel;

    open spec fn view(&self) -> ExprModel {
        match self {
            ExprNode::Name { name, qualifier, directives } => ExprModel::Name {
                name: name@,
                qualifier: match qualifier {
                    Some(q) => Some(q@),
                    None => None,
                },
                directives: directives_of(directives@),
            },
            ExprNode::Literal => ExprModel::Literal,
            ExprNode::Make { kind, n, m, declared_type, directives, arg_consts } =>
                ExprModel::Make {
                kind: *kind,
                n: optional_value(*n),
                m: optional_value(*m),
                declared_type: type_of(*declared_type),
                directives: directives_of(directives@),
                arg_consts: known_texts(arg_consts@),
            },
            ExprNode::Selection { base, selector, member } => ExprModel::Selection {
                base: base@,
                selector: selector@,
                member: member@,
            },
            ExprNode::Indexing { base, index } => ExprModel::Indexing {
                base: base@,
                index: const_of(*index),
            },
            ExprNode::Slicing { base, low, high, has_max, bounds } => ExprModel::Slicing {
                base: base@,
                low: *low,
                high: *high,
                has_max: *has_max,
                bounds: flows_of(bounds@),
            },
            ExprNode::Passed(value) => ExprModel::Passed(value@),
            ExprNode::TypeAssertion { base, declared_type } => ExprModel::TypeAssertion {
                base: base@,
                declared_type: type_of(*declared_type),
            },
            ExprNode::AmbiguousBracketAccess { base, is_type_known, index } =>
                ExprModel::AmbiguousBracketAccess {
                base: base@,
                is_type_known: *is_type_known,
                index: const_of(*index),
            },
            ExprNode::Receive(value) => ExprModel::Receive(value@),
            ExprNode::BinaryOp { left, right, short_circuits, consts, directives } =>
                ExprModel::BinaryOp {
                left: trace_of(*left),
                right: trace_of(*right),
                short_circuits: *short_circuits,
                consts: known_texts(consts@),
                directives: directives_of(directives@),
            },
        }
    }
}

/// What an expression comes to.
#[derive(Debug)]
pub struct ExprResult {
    /// Its value.
    pub value: Value,
    /// The channel from which it received, after that.
    pub channel: Option<Value>,
}

/// What a [`ExprResult`] stands for.
pub struct ResultModel {
    pub value: ValueModel,
    pub channel: Option<ValueModel>,
}

impl View for ExprResult {
    type V = ResultModel;

    open spec fn view(&self) -> ResultModel {
        ResultModel { value: self.value@, channel: optional_value(self.channel) }
    }
}

/// A result that is just a value.
pub open spec fn plain(value: ValueModel) -> ResultModel {
    ResultModel { value, channel: None }
}

/// What an expression comes to.
pub open spec fn evaluated(
    ctx: ContextModel,
    t: TableModel,
    node: ExprModel,
    location: Location,
) -> ResultModel {
    let at = PinnedModel { file: ctx.log.file->0, inner: location };
    match node {
        ExprModel::Name { name, qualifier, directives } => plain(
            operand_visited(
                t,
                name,
                qualifier,
                directives,
                PinnedModel { file: ctx.log.file->0, inner: name.location },
            ).1,
        ),
        ExprModel::Literal => plain(ValueModel::simple(None, at)),
        ExprModel::Make { kind, n, m, declared_type, directives, arg_consts } => plain(
            revoked(
                seq![made(kind, n, m, declared_type, at)],
                directives,
                arg_consts,
            )[0],
        ),
        ExprModel::Selection { base, selector, member } => plain(
            selection_visited(ctx.log, t, base, selector, member, location).2,
        ),
        ExprModel::Indexing { base, index } => if base.form.is_indexable() {
            plain(indexed(base, index, at))
        } else {
            plain(ValueModel::simple(None, at))
        },
        ExprModel::Slicing { base, low, high, has_max, bounds } => plain(
            slice_value(base, low, high, bounds, has_max, at),
        ),
        ExprModel::Passed(value) => plain(value),
        ExprModel::TypeAssertion { base, declared_type } => plain(
            asserted_value(base, declared_type, at),
        ),
        ExprModel::AmbiguousBracketAccess { base, is_type_known, index } => plain(
            bracketed(base, is_type_known, index, at),
        ),
        ExprModel::Receive(target) => if target.form.can_become(FormModel::Channel) {
            let channel = target.used_under(ctx.branches.current(), at);
            ResultModel {
                value: channel.received(at),
                channel: Some(channel),
            }
        } else {
            plain(ValueModel::simple(None, at))
        },
        ExprModel::BinaryOp { left, right, short_circuits, consts, directives } => plain(
            revoked(
                seq![ValueModel::simple(binary_flow(left, right, short_circuits, at), at)],
                directives,
                consts,
            )[0],
        ),
    }
}

/// The table once an expression is evaluated.
pub open spec fn evaluated_table(
    ctx: ContextModel,
    t: TableModel,
    node: ExprModel,
    location: Location,
) -> TableModel {
    match node {
        ExprModel::Name { name, qualifier, directives } => operand_visited(
            t,
            name,
            qualifier,
            directives,
            PinnedModel { file: ctx.log.file->0, inner: name.location },
        ).0,
        ExprModel::Selection { base, selector, member } => selection_visited(
            ctx.log,
            t,
            base,
            selector,
            member,
            location,
        ).1,
        _ => t,
    }
}

/// The log once an expression is evaluated.
pub open spec fn evaluated_log(
    ctx: ContextModel,
    t: TableModel,
    node: ExprModel,
    location: Location,
) -> LogModel {
    match node {
        ExprModel::Name { name, qualifier, .. } => t.operand_reported(ctx.log, name, qualifier),
        ExprModel::Make { kind, m, .. } => make_reported(ctx.log, kind, m is Some, location),
        ExprModel::Selection { base, selector, member } => selection_visited(
            ctx.log,
            t,
            base,
            selector,
            member,
            location,
        ).0,
        ExprModel::Indexing { base, .. } => if base.form.is_indexable() {
            ctx.log
        } else {
            ctx.log.with_error(ErrorModel::InvalidIndexingBase { location })
        },
        ExprModel::Slicing { base, .. } => if base.form.is_sliceable() {
            ctx.log
        } else {
            ctx.log.with_error(ErrorModel::InvalidSlicingBase { location })
        },
        ExprModel::AmbiguousBracketAccess { base, is_type_known, .. } => if is_type_known
            || base.form is Function || base.form.is_indexable() {
            ctx.log
        } else {
            ctx.log.with_error(ErrorModel::InvalidIndexingBase { location })
        },
        ExprModel::Receive(target) => if target.form.can_become(FormModel::Channel) {
            ctx.log
        } else {
            ctx.log.with_error(ErrorModel::InvalidReceiveOperand { location })
        },
        _ => ctx.log,
    }
}

fn plainly(value: Value) -> (r: ExprResult)
    ensures
        r@ == plain(value@),
{
    ExprResult { value, channel: None }
}

/// Evaluates an expression whose operands have been evaluated.
pub fn visit_evaluated(
    ctx: &mut AnalysisContext,
    table: &mut SymbolTable,
    node: ExprNode,
    location: Location,
) -> (r: ExprResult)
    requires
        old(ctx).wf(),
        old(table)@.wf(),
        old(ctx)@.log.file is Some,
        node matches ExprNode::Selection { member, .. } ==> (member.method matches Some(m) ==> m
            < old(table)@.symbols.len()),
    ensures
        final(ctx).wf(),
        final(table)@.wf(),
        r@ == evaluated(old(ctx)@, old(table)@, node@, location),
        final(table)@ == evaluated_table(old(ctx)@, old(table)@, node@, location),
        final(ctx)@ == (ContextModel {
            log: evaluated_log(old(ctx)@, old(table)@, node@, location),
            ..old(ctx)@
        }),
{
    let ghost start = ctx@;
    let at = ctx.log.pin(location);
    let r = match node {
        ExprNode::Name { name, qualifier, directives } => plainly(
            visit_operand_name(&mut ctx.log, table, &name, qualifier.as_ref(), &directives),
        ),
        ExprNode::Literal => plainly(Value::from_backtrace_or_bottom_at(None, &at)),
        ExprNode::Make { kind, n, m, declared_type, directives, arg_consts } => {
            let value = visit_make(&mut ctx.log, kind, n, m, declared_type, location);
            let ghost one = value@;
            let mut results: Vec<Value> = Vec::new();
            results.push(value);
            proof {
                assert(values_of(results@) =~= seq![one]);
            }
            apply_call_blanket_revocations(&mut results, &directives, &arg_consts);
            proof {
                assert(values_of(results@)[0] == results@[0]@);
            }
            plainly(results.remove(0))
        },
        ExprNode::Selection { base, selector, member } => {
            let value = visit_selection_with_base(
                &mut ctx.log,
                table,
                &base,
                &selector,
                &member,
                location,
            );
            plainly(value)
        },
        ExprNode::Indexing { base, index } => plainly(
            visit_indexing_with(&mut ctx.log, &base, &index, location),
        ),
        ExprNode::Slicing { base, low, high, has_max, bounds } => plainly(
            visit_slicing_with_base(&mut ctx.log, &base, low, high, has_max, &bounds, location),
        ),
        ExprNode::Passed(value) => plainly(value),
        ExprNode::TypeAssertion { base, declared_type } => plainly(
            visit_type_assertion_with_base(&base, declared_type, at),
        ),
        ExprNode::AmbiguousBracketAccess { base, is_type_known, index } => plainly(
            visit_ambiguous_bracket_access(&mut ctx.log, base, is_type_known, &index, location),
        ),
        ExprNode::Receive(target) => {
            let (channel, received) = receive_from_channel(
                &mut ctx.log,
                &ctx.branches,
                target,
                location,
            );
            match received {
                Some(value) => ExprResult {
                    value,
                    channel: Some(channel),
                },
                None => plainly(Value::from_backtrace_or_bottom_at(None, &at)),
            }
        },
        ExprNode::BinaryOp { left, right, short_circuits, consts, directives } => {
            let value = visit_binary_op(left, right, short_circuits, &consts, &directives, &at);
            proof {
                assert(seq![value@][0] == value@);
            }
            plainly(value)
        },
    };
    proof {
        assert(ctx@ =~= ContextModel {
            log: evaluated_log(start, old(table)@, node@, location),
            ..start
        });
    }
    r
}

} // verus!
