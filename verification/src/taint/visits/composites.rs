//! Literals with parts.

use vstd::prelude::*;

use crate::ast::Node;
use crate::taint::implicit::{Place, PlaceModel};
use crate::taint::visits::Env;
use crate::values::{values_of, Value, ValueModel};

verus! {

/// The place at a literal with parts: its parts are not visited, which halts a
/// visit.
pub open spec fn composite_visited(env: Env<'_>, p: PlaceModel, node: Node, limit: nat) -> (
    PlaceModel,
    Seq<ValueModel>,
) {
    (p.stopped(), Seq::<ValueModel>::empty())
}

/// Comes to a literal with parts.
pub fn visit_composite(env: &Env<'_>, place: &mut Place, node: &Node, limit: usize) -> (r: Vec<
    Value,
>)
    requires
        old(place).wf(),
    ensures
        final(place).wf(),
        (final(place)@, values_of(r@)) == composite_visited(*env, old(place)@, *node, limit as nat),
{
    place.give_up()
}

} // verus!
