//! Function literals.

use vstd::prelude::*;

use crate::ast::Node;
use crate::functions::{FunctionModel, FunctionRef};
use crate::locations::{Location, Pinned};
use crate::ordered::Ordered;
use crate::taint::funcs::defers::by_reference;
use crate::taint::funcs::summaries::{function_value, make_function_value};
use crate::taint::implicit::{Place, PlaceModel};
use crate::taint::visits::exprs::{no_values, only_value};
use crate::taint::visits::runs::stands_in_package;
use crate::taint::visits::Env;
use crate::decls::is_in_package;
use crate::values::{values_of, Value, ValueModel};

verus! {

/// The value of a function literal, and the place once it is defined. Its body is
/// not visited, which halts a visit if it has one.
pub open spec fn literal_visited(env: Env<'_>, p: PlaceModel, node: Node, limit: nat) -> (
    PlaceModel,
    Seq<ValueModel>,
) {
    if node.function is Some && is_in_package(p.table) {
        let at = p.at(node.location);
        let own = p.table.functions.len() as usize;
        let q = p.function_defined(
            env,
            FunctionModel::Anonymous(at),
            None,
            node.function->0,
            by_reference(&node.annotation),
            at,
        );
        if own < q.table.functions.len() {
            (
                if node.children@.len() > 0 {
                    q.stopped()
                } else {
                    q
                },
                seq![function_value(own, q.table.functions[own as int].own, at)],
            )
        } else {
            (q.stopped(), no_values())
        }
    } else {
        (p.stopped(), no_values())
    }
}

fn find_function_value(place: &Place, own: usize, at: &Pinned<Location>) -> (r: Value)
    requires
        own < place@.table.functions.len(),
    ensures
        r@ == function_value(own, place@.table.functions[own as int].own, at@),
{
    let carries = match &place.table.function(own).own {
        Some(b) => Some(b.clone()),
        None => None,
    };
    make_function_value(own, carries, at)
}

/// Visits a function literal.
pub fn visit_function_literal(env: &Env<'_>, place: &mut Place, node: &Node, limit: usize) -> (r:
    Vec<Value>)
    requires
        old(place).wf(),
    ensures
        final(place).wf(),
        (final(place)@, values_of(r@)) == literal_visited(*env, old(place)@, *node, limit as nat),
{
    if let Some(shape) = &node.function {
        if stands_in_package(&place.table) {
            let at = place.ctx.log.pin(node.location);
            let func = FunctionRef::Anonymous(at.duplicate());
            let own: usize = place.define(
                env,
                &func,
                None,
                shape,
                node.annotation.as_ref(),
                &at,
            );
            if own < place.table.function_count() {
                let value = find_function_value(place, own, &at);
                if node.children.len() > 0 {
                    let _none = place.give_up();
                }
                return only_value(value);
            }
        }
    }
    place.give_up()
}

} // verus!
