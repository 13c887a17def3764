//! What it takes for two things to be equal, and how numbers are compared.
use crate::double::{lemma_magnitude_nonnegative, Double};
use crate::drag::DragState;
use crate::geometry::{Point, Size, Viewport};
use crate::graph::{FlowEdge, FlowNode, NodeId, NodeMove};
use vstd::prelude::*;
use vstd::std_specs::cmp::PartialEqSpec;
use vstd::std_specs::convert::FromSpec;

verus! {

/// Two numbers are equal if and only if neither is a NaN and their values are the same.
pub proof fn numbers_are_equal_by_value(a: Double, b: Double)
    ensures
        a.eq_spec(&b) <==> !a.nan() && !b.nan() && a.value() == b.value(),
        a.eq_spec(&b) <==> b.eq_spec(&a),
        a.eq_spec(&a) <==> !a.nan(),
{
}

/// Points are equal if and only if both coordinates are; a point with a NaN equals
/// nothing.
pub proof fn points_are_equal_by_coordinates(a: Point, b: Point)
    ensures
        a.eq_spec(&b) <==> a.x.eq_spec(&b.x) && a.y.eq_spec(&b.y),
        a.eq_spec(&b) <==> b.eq_spec(&a),
{
}

/// Sizes are equal if and only if both extents are.
pub proof fn sizes_are_equal_by_extents(a: Size, b: Size)
    ensures
        a.eq_spec(&b) <==> a.width.eq_spec(&b.width) && a.height.eq_spec(&b.height),
        a.eq_spec(&b) <==> b.eq_spec(&a),
{
}

/// Viewports are equal if and only if their offsets and their zooms are.
pub proof fn viewports_are_equal_by_offset_and_zoom(a: Viewport, b: Viewport)
    ensures
        a.eq_spec(&b) <==> a.x.eq_spec(&b.x) && a.y.eq_spec(&b.y) && a.zoom.eq_spec(&b.zoom),
        a.eq_spec(&b) <==> b.eq_spec(&a),
{
}

/// Names are equal if and only if their texts are, and a name made of a text has that
/// text.
pub proof fn names_are_equal_by_text(a: NodeId, b: NodeId, text: String)
    ensures
        a.eq_spec(&b) <==> a.0@ == b.0@,
        NodeId::from_spec(text).0@ == text@,
{
}

/// Nodes are equal if and only if their names, positions and sizes are.
pub proof fn nodes_are_equal_by_parts(a: FlowNode, b: FlowNode)
    ensures
        a.eq_spec(&b) <==> a.id.eq_spec(&b.id) && a.position.eq_spec(&b.position) && a.size.eq_spec(
            &b.size,
        ),
{
}

/// Edges are equal if and only if all that is known of them is: two edges that differ in
/// one thing alone are different.
pub proof fn edges_are_equal_by_parts(a: FlowEdge, b: FlowEdge)
    ensures
        a.id@ != b.id@ ==> !a.eq_spec(&b),
        !a.source.eq_spec(&b.source) ==> !a.eq_spec(&b),
        !a.target.eq_spec(&b.target) ==> !a.eq_spec(&b),
        !a.source_offset.eq_spec(&b.source_offset) ==> !a.eq_spec(&b),
        !a.target_offset.eq_spec(&b.target_offset) ==> !a.eq_spec(&b),
        (a.label is Some) != (b.label is Some) ==> !a.eq_spec(&b),
        a.label is Some && b.label is Some && a.label->0@ != b.label->0@ ==> !a.eq_spec(&b),
        a.dashed != b.dashed ==> !a.eq_spec(&b),
        a.emphasis != b.emphasis ==> !a.eq_spec(&b),
        a == b && !a.source_offset.nan() && !a.target_offset.nan() ==> a.eq_spec(&b),
        a.eq_spec(&b) <==> b.eq_spec(&a),
{
}

/// An edge equals every copy of it that has the same texts and the same numbers.
pub proof fn edges_with_equal_parts_are_equal(a: FlowEdge, b: FlowEdge)
    requires
        a.id@ == b.id@,
        a.source@ == b.source@,
        a.target@ == b.target@,
        a.source_offset.eq_spec(&b.source_offset),
        a.target_offset.eq_spec(&b.target_offset),
        a.label is Some <==> b.label is Some,
        a.label is Some ==> a.label->0@ == b.label->0@,
        a.dashed == b.dashed,
        a.emphasis == b.emphasis,
    ensures
        a.eq_spec(&b),
{
}

/// Moves are equal if and only if they move the same node to the same place.
pub proof fn moves_are_equal_by_parts(a: NodeMove, b: NodeMove)
    ensures
        a.eq_spec(&b) <==> a.id.eq_spec(&b.id) && a.position.eq_spec(&b.position),
{
}

/// Interactions are equal if and only if the same node was pressed at the same place, was
/// at the same place, and has been dragged or not.
pub proof fn interactions_are_equal_by_parts(a: DragState, b: DragState)
    ensures
        a.eq_spec(&b) <==> a->id.eq_spec(&b->id) && a->start.eq_spec(&b->start)
            && a->origin.eq_spec(&b->origin) && a->moved == b->moved,
{
}

/// Of any two numbers one is at most the other, and less means at most and not equal; a
/// NaN is not comparable.
pub proof fn numbers_are_ordered(a: Double, b: Double, c: Double)
    ensures
        !a.nan() && !b.nan() ==> a.spec_le(b) || b.spec_le(a),
        a.spec_lt(b) <==> a.spec_le(b) && !a.eq_spec(&b),
        a.spec_le(b) && b.spec_le(c) ==> a.spec_le(c),
        a.spec_le(b) && b.spec_le(a) ==> a.eq_spec(&b),
        a.nan() || b.nan() ==> !a.spec_le(b) && !a.spec_lt(b) && !a.eq_spec(&b),
{
}

/// The lesser of two numbers is one of them and at most both, the greater is one of them
/// and at least both; a NaN is passed over.
pub proof fn lesser_and_greater(a: Double, b: Double)
    ensures
        a.spec_min(b) == a || a.spec_min(b) == b,
        a.spec_max(b) == a || a.spec_max(b) == b,
        !a.nan() ==> a.spec_min(b).spec_le(a) && a.spec_le(a.spec_max(b)),
        !b.nan() ==> a.spec_min(b).spec_le(b) && b.spec_le(a.spec_max(b)),
        a.nan() ==> a.spec_min(b) == b && a.spec_max(b) == b,
        b.nan() && !a.nan() ==> a.spec_min(b) == a && a.spec_max(b) == a,
{
}

/// A number that is kept between two limits lies between them, and is the number itself
/// if that does; else it is the limit that the number is beyond. A NaN stays.
pub proof fn clamped_numbers_lie_between(a: Double, low: Double, high: Double)
    requires
        low.spec_le(high),
    ensures
        !a.nan() ==> low.spec_le(a.spec_clamp(low, high)) && a.spec_clamp(low, high).spec_le(high),
        low.spec_le(a) && a.spec_le(high) ==> a.spec_clamp(low, high) == a,
        a.spec_lt(low) ==> a.spec_clamp(low, high) == low,
        high.spec_lt(a) ==> a.spec_clamp(low, high) == high,
        a.nan() ==> a.spec_clamp(low, high) == a,
        a.spec_clamp(low, high).spec_clamp(low, high) == a.spec_clamp(low, high),
{
}

/// Changing the sign turns the value around, and twice changes nothing; without its sign a
/// number is its own size.
pub proof fn signs_turn_values(a: Double)
    ensures
        a.spec_neg().value() == -a.value(),
        a.spec_neg().nan() == a.nan(),
        a.spec_neg().spec_neg() == a,
        a.spec_abs().value() == a.value() || a.spec_abs().value() == -a.value(),
        a.spec_abs().value() >= 0,
        a.spec_abs().nan() == a.nan(),
        a.spec_neg().spec_abs() == a.spec_abs(),
{
    lemma_magnitude_nonnegative(a.magnitude());
}

} // verus!
