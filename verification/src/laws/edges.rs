//! Where an edge is drawn, and how it is styled.
use crate::accuracy::{
    difference_error, lemma_round_error, lemma_weighted, product_error, quotient_error, sum_error,
};
use crate::arithmetic::one;
use crate::double::{abs_int, magnitude_gap, Double};
use crate::graph::{FlowEdge, FlowNode};
use crate::laws::constants::{constants_are_what_they_say, whole};
use crate::laws::fractions::{
    fractions_add, fractions_divide, is_fraction, is_moderate, whole_is_fraction,
};
use crate::rounding::lemma_round_is;
use crate::scene::{
    has_node, is_drawn, names_node, placed, spec_edge_curve, PlacedEdge, LABEL_FRACTION_BITS,
    LABEL_HALF_HEIGHT_BITS, LABEL_HALF_WIDTH_BITS,
};
use crate::viewport::TWO_BITS;
use vstd::arithmetic::power2::lemma_pow2_pos;
use vstd::prelude::*;

verus! {

/// Computing where an edge meets a side of a node, in the vertical, does not leave the
/// finite numbers.
pub open spec fn meeting_is_finite(node: FlowNode, offset: Double) -> bool {
    let half = node.size.height.spec_div(Double { bits: TWO_BITS });
    let middle = node.position.y.spec_add(half);
    &&& node.position.y.finite()
    &&& node.size.height.finite()
    &&& offset.finite()
    &&& half.finite()
    &&& middle.finite()
    &&& middle.spec_add(offset).finite()
}

/// An edge that meets a side of the node at `y` meets it `offset` below the middle
/// between the node's top and its bottom, up to the rounding of three steps.
pub open spec fn meets_middle(node: FlowNode, offset: Double, y: Double) -> bool {
    let half = node.size.height.spec_div(Double { bits: TWO_BITS });
    let middle = node.position.y.spec_add(half);
    let (top, height) = (node.position.y.value(), node.size.height.value());
    abs_int(2 * (y.value() - offset.value()) - (top + (top + height))) <= magnitude_gap(
        y.magnitude(),
    ) + magnitude_gap(middle.magnitude()) + magnitude_gap(half.magnitude())
}

/// Half of a number, up to rounding.
proof fn lemma_half(a: Double)
    requires
        a.finite(),
        a.spec_div(Double { bits: TWO_BITS }).finite(),
    ensures
        abs_int(2 * a.spec_div(Double { bits: TWO_BITS }).value() - a.value()) <= magnitude_gap(
            a.spec_div(Double { bits: TWO_BITS }).magnitude(),
        ),
{
    let two = Double { bits: TWO_BITS };
    let half = a.spec_div(two);
    constants_are_what_they_say();
    lemma_pow2_pos(1074);
    let s = one();
    assert(whole(2) == 2 * s) by (nonlinear_arith)
        requires
            s == one(),
    ;
    quotient_error(a, two);
    let (h, v, g) = (half.value(), a.value(), magnitude_gap(half.magnitude()));
    let e = 2 * h - v;
    assert(h * (2 * s) - v * s == s * e) by (nonlinear_arith)
        requires
            e == 2 * h - v,
    ;
    assert(abs_int(e) <= g) by (nonlinear_arith)
        requires
            2 * abs_int(s * e) <= g * (2 * s),
            s > 0,
    ;
}

/// The curve of an edge meets the two nodes at the middles of their sides: it leaves the
/// source's right side and arrives at the target's left side, each time as far below the
/// middle as the offset says; up to rounding.
pub proof fn edge_ends_on_the_sides(
    source: FlowNode,
    target: FlowNode,
    source_offset: Double,
    target_offset: Double,
)
    requires
        meeting_is_finite(source, source_offset),
        meeting_is_finite(target, target_offset),
        source.position.x.finite(),
        source.size.width.finite(),
        source.position.x.spec_add(source.size.width).finite(),
    ensures
        ({
            let c = spec_edge_curve(source, target, source_offset, target_offset);
            let right = source.position.x.value() + source.size.width.value();
            &&& meets_middle(source, source_offset, c.y1)
            &&& meets_middle(target, target_offset, c.y2)
            &&& 2 * abs_int(c.x1.value() - right) <= magnitude_gap(c.x1.magnitude())
            &&& c.x2 == target.position.x
        }),
{
    sum_error(source.position.x, source.size.width);
    lemma_meets_middle(source, source_offset);
    lemma_meets_middle(target, target_offset);
}

/// Each end of the curve is its node's own: the start is the same whatever the target is,
/// and the end whatever the source is.
pub proof fn edge_ends_are_independent(
    source: FlowNode,
    target: FlowNode,
    source_offset: Double,
    target_offset: Double,
    other: FlowNode,
    other_offset: Double,
)
    ensures
        ({
            let c = spec_edge_curve(source, target, source_offset, target_offset);
            let from = spec_edge_curve(source, other, source_offset, other_offset);
            let to = spec_edge_curve(other, target, other_offset, target_offset);
            &&& c.x1 == from.x1
            &&& c.y1 == from.y1
            &&& c.x2 == to.x2
            &&& c.y2 == to.y2
        }),
{
}

/// The control points lie halfway between the ends, up to the rounding of two steps.
pub proof fn edge_bends_halfway(
    source: FlowNode,
    target: FlowNode,
    source_offset: Double,
    target_offset: Double,
)
    requires
        ({
            let c = spec_edge_curve(source, target, source_offset, target_offset);
            &&& c.x1.finite()
            &&& c.x2.finite()
            &&& c.x1.spec_add(c.x2).finite()
            &&& c.x1.spec_add(c.x2).spec_div(Double { bits: TWO_BITS }).finite()
        }),
    ensures
        ({
            let c = spec_edge_curve(source, target, source_offset, target_offset);
            &&& c.mid_x.finite()
            &&& 2 * abs_int(2 * c.mid_x.value() - (c.x1.value() + c.x2.value())) <= 2
                * magnitude_gap(c.mid_x.magnitude()) + magnitude_gap(
                c.x1.spec_add(c.x2).magnitude(),
            )
        }),
{
    let c = spec_edge_curve(source, target, source_offset, target_offset);
    sum_error(c.x1, c.x2);
    lemma_half(c.x1.spec_add(c.x2));
}

/// Placing a label between `from` and `to` does not leave the finite numbers.
pub open spec fn labelling_is_finite(from: Double, to: Double, half: Double) -> bool {
    let way = to.spec_sub(from);
    let part = way.spec_mul(Double { bits: LABEL_FRACTION_BITS });
    let center = from.spec_add(part);
    &&& from.finite()
    &&& to.finite()
    &&& half.finite()
    &&& way.finite()
    &&& part.finite()
    &&& center.finite()
    &&& center.spec_sub(half).finite()
}

/// In one coordinate, a label that starts at `start` and is twice `half` long has its
/// center at 0.68 of the way between the ends, up to the rounding of four steps and of
/// the fraction itself. (Both sides are multiplied by a hundred and by one.)
pub open spec fn labelled_at_fraction(from: Double, to: Double, half: int, start: Double) -> bool {
    let fraction = Double { bits: LABEL_FRACTION_BITS };
    let way = to.spec_sub(from);
    let part = way.spec_mul(fraction);
    let center = from.spec_add(part);
    let error = 100 * (one() * (start.value() + half - from.value())) - 68 * (one() * (to.value()
        - from.value()));
    2 * abs_int(error) <= 100 * (one() * (magnitude_gap(start.magnitude()) + magnitude_gap(
        center.magnitude(),
    ) + magnitude_gap(part.magnitude()))) + 68 * (one() * magnitude_gap(way.magnitude())) + 100 * (
    abs_int(way.value()) * magnitude_gap(LABEL_FRACTION_BITS as int))
}

proof fn lemma_labelled(from: Double, to: Double, half: Double)
    requires
        labelling_is_finite(from, to, half),
    ensures
        ({
            let part = to.spec_sub(from).spec_mul(Double { bits: LABEL_FRACTION_BITS });
            labelled_at_fraction(from, to, half.value(), from.spec_add(part).spec_sub(half))
        }),
{
    let fraction = Double { bits: LABEL_FRACTION_BITS };
    let way = to.spec_sub(from);
    let part = way.spec_mul(fraction);
    let center = from.spec_add(part);
    let start = center.spec_sub(half);
    difference_error(to, from);
    product_error(way, fraction);
    sum_error(from, part);
    difference_error(center, half);
    constants_are_what_they_say();
    lemma_pow2_pos(1074);
    let s = one();
    lemma_round_is(68 * s, 100, LABEL_FRACTION_BITS as int);
    lemma_round_error(68 * s, 100);
    let (x, y, h, w, p, c, r) = (
        from.value(),
        to.value(),
        half.value(),
        way.value(),
        part.value(),
        center.value(),
        start.value(),
    );
    let (f, g) = (fraction.value(), magnitude_gap(LABEL_FRACTION_BITS as int));
    let (gr, gc, gp, gw) = (
        magnitude_gap(start.magnitude()),
        magnitude_gap(center.magnitude()),
        magnitude_gap(part.magnitude()),
        magnitude_gap(way.magnitude()),
    );
    let (e1, e2, e5) = (r - (c - h), c - (x + p), w - (y - x));
    let e3 = p * s - w * f;
    let e4 = f * 100 - 68 * s;
    lemma_weighted(s, e1, gr);
    lemma_weighted(s, e2, gc);
    lemma_weighted(s, e5, gw);
    lemma_weighted(w, e4, g * 100);
    assert(s * (r + h - x) == s * e1 + s * e2 + p * s) by (nonlinear_arith)
        requires
            e1 == r - (c - h),
            e2 == c - (x + p),
    ;
    assert(w * e4 == 100 * (w * f) - 68 * (s * w)) by (nonlinear_arith)
        requires
            e4 == f * 100 - 68 * s,
    ;
    assert(s * w == s * (y - x) + s * e5) by (nonlinear_arith)
        requires
            e5 == w - (y - x),
    ;
    let error = 100 * (s * (r + h - x)) - 68 * (s * (y - x));
    assert(error == 100 * (s * e1) + 100 * (s * e2) + 100 * e3 + w * e4 + 68 * (s * e5));
    let aw = abs_int(w);
    assert(aw * (g * 100) == 100 * (aw * g)) by (nonlinear_arith);
    assert(s * (gr + gc + gp) == s * gr + s * gc + gp * s) by (nonlinear_arith);
}

/// The label's center lies at 0.68 of the way from the start of the curve to its end, in
/// both coordinates, up to rounding. The label is 44 wide and 20 high.
pub proof fn label_lies_along_the_edge(
    source: FlowNode,
    target: FlowNode,
    source_offset: Double,
    target_offset: Double,
)
    requires
        ({
            let c = spec_edge_curve(source, target, source_offset, target_offset);
            &&& labelling_is_finite(c.x1, c.x2, Double { bits: LABEL_HALF_WIDTH_BITS })
            &&& labelling_is_finite(c.y1, c.y2, Double { bits: LABEL_HALF_HEIGHT_BITS })
        }),
    ensures
        ({
            let c = spec_edge_curve(source, target, source_offset, target_offset);
            &&& labelled_at_fraction(c.x1, c.x2, 22 * one(), c.label_x)
            &&& labelled_at_fraction(c.y1, c.y2, 10 * one(), c.label_y)
        }),
{
    let c = spec_edge_curve(source, target, source_offset, target_offset);
    constants_are_what_they_say();
    assert(whole(22) == 22 * one() && whole(10) == 10 * one()) by (nonlinear_arith);
    lemma_labelled(c.x1, c.x2, Double { bits: LABEL_HALF_WIDTH_BITS });
    lemma_labelled(c.y1, c.y2, Double { bits: LABEL_HALF_HEIGHT_BITS });
}

/// In binary fractions the ends and the bend are exact. In units of `1 / 2^k` the source
/// is at `(sx, sy)`, `sw` wide and `2 * sh` high, the target at `(tx, ty)` and `2 * th`
/// high, the offsets are `so` and `to`, and twice `bend` is the sum of the two ends.
pub proof fn edge_is_exact_in_fractions(
    source: FlowNode,
    target: FlowNode,
    source_offset: Double,
    target_offset: Double,
    sx: int,
    sy: int,
    sw: int,
    sh: int,
    so: int,
    tx: int,
    ty: int,
    th: int,
    to: int,
    bend: int,
    k: nat,
)
    requires
        is_fraction(source.position.x, sx, k),
        is_fraction(source.position.y, sy, k),
        is_fraction(source.size.width, sw, k),
        is_fraction(source.size.height, sh * 2, k),
        is_fraction(source_offset, so, k),
        is_fraction(target.position.x, tx, k),
        is_fraction(target.position.y, ty, k),
        is_fraction(target.size.height, th * 2, k),
        is_fraction(target_offset, to, k),
        bend * 2 == sx + sw + tx,
        is_moderate(sx + sw),
        is_moderate(sh),
        is_moderate(sy + sh),
        is_moderate(sy + sh + so),
        is_moderate(th),
        is_moderate(ty + th),
        is_moderate(ty + th + to),
        is_moderate(bend),
        is_moderate(sx + sw + tx),
    ensures
        ({
            let c = spec_edge_curve(source, target, source_offset, target_offset);
            &&& is_fraction(c.x1, sx + sw, k)
            &&& is_fraction(c.y1, sy + sh + so, k)
            &&& is_fraction(c.x2, tx, k)
            &&& is_fraction(c.y2, ty + th + to, k)
            &&& is_fraction(c.mid_x, bend, k)
        }),
{
    let two = Double { bits: TWO_BITS };
    constants_are_what_they_say();
    whole_is_fraction(two, 2);
    let c = spec_edge_curve(source, target, source_offset, target_offset);
    fractions_add(source.position.x, source.size.width, sx, sw, k);
    fractions_divide(source.size.height, two, sh, 2, k, 0);
    let half = source.size.height.spec_div(two);
    fractions_add(source.position.y, half, sy, sh, k);
    fractions_add(source.position.y.spec_add(half), source_offset, sy + sh, so, k);
    fractions_divide(target.size.height, two, th, 2, k, 0);
    let half = target.size.height.spec_div(two);
    fractions_add(target.position.y, half, ty, th, k);
    fractions_add(target.position.y.spec_add(half), target_offset, ty + th, to, k);
    fractions_add(c.x1, c.x2, sx + sw, tx, k);
    fractions_divide(c.x1.spec_add(c.x2), two, bend, 2, k, 0);
}

/// An edge is drawn if and only if both of its ends are names of nodes.
pub proof fn edges_with_both_ends_are_drawn(nodes: Seq<FlowNode>, edge: FlowEdge)
    ensures
        is_drawn(nodes, edge) <==> (exists|i: int|
            0 <= i < nodes.len() && (#[trigger] nodes[i]).id@ == edge.source@) && (exists|j: int|
            0 <= j < nodes.len() && (#[trigger] nodes[j]).id@ == edge.target@),
{
}

/// A drawn edge joins its own nodes: it starts at the right side of a node that has the
/// name of its source and ends at the left side of one that has the name of its target,
/// each the last of that name; and it is drawn between no others.
pub proof fn drawn_edges_join_their_nodes(nodes: Seq<FlowNode>, edges: Seq<FlowEdge>, p: PlacedEdge)
    requires
        placed(nodes, edges, p),
    ensures
        0 <= p.index < edges.len(),
        exists|i: int, j: int|
            {
                let edge = edges[p.index as int];
                &&& 0 <= i < nodes.len()
                &&& 0 <= j < nodes.len()
                &&& (#[trigger] nodes[i]).id@ == edge.source@
                &&& (#[trigger] nodes[j]).id@ == edge.target@
                &&& forall|k: int| i < k < nodes.len() ==> (#[trigger] nodes[k]).id@ != edge.source@
                &&& forall|k: int| j < k < nodes.len() ==> (#[trigger] nodes[k]).id@ != edge.target@
                &&& p.curve.x1 == nodes[i].position.x.spec_add(nodes[i].size.width)
                &&& p.curve.x2 == nodes[j].position.x
                &&& meeting_is_finite(nodes[i], edge.source_offset) ==> meets_middle(
                    nodes[i],
                    edge.source_offset,
                    p.curve.y1,
                )
                &&& meeting_is_finite(nodes[j], edge.target_offset) ==> meets_middle(
                    nodes[j],
                    edge.target_offset,
                    p.curve.y2,
                )
            },
{
    let edge = edges[p.index as int];
    let (i, j) = choose|i: int, j: int|
        {
            &&& #[trigger] names_node(nodes, edge.source@, i)
            &&& #[trigger] names_node(nodes, edge.target@, j)
            &&& p.curve == spec_edge_curve(
                nodes[i],
                nodes[j],
                edge.source_offset,
                edge.target_offset,
            )
        };
    if meeting_is_finite(nodes[i], edge.source_offset) {
        lemma_meets_middle(nodes[i], edge.source_offset);
    }
    if meeting_is_finite(nodes[j], edge.target_offset) {
        lemma_meets_middle(nodes[j], edge.target_offset);
    }
    assert(nodes[i].id@ == edge.source@ && nodes[j].id@ == edge.target@);
}

proof fn lemma_meets_middle(node: FlowNode, offset: Double)
    requires
        meeting_is_finite(node, offset),
    ensures
        ({
            let half = node.size.height.spec_div(Double { bits: TWO_BITS });
            meets_middle(node, offset, node.position.y.spec_add(half).spec_add(offset))
        }),
{
    let half = node.size.height.spec_div(Double { bits: TWO_BITS });
    lemma_half(node.size.height);
    sum_error(node.position.y, half);
    sum_error(node.position.y.spec_add(half), offset);
}

/// A name means the last node that has it: one that is added takes its name over, and
/// leaves all other names.
pub proof fn later_nodes_take_names_over(nodes: Seq<FlowNode>, node: FlowNode, id: Seq<char>, i: int)
    ensures
        names_node(nodes.push(node), node.id@, nodes.len() as int),
        id != node.id@ ==> (names_node(nodes.push(node), id, i) <==> names_node(nodes, id, i)),
        has_node(nodes.push(node), id) <==> id == node.id@ || has_node(nodes, id),
{
    let more = nodes.push(node);
    assert(more[nodes.len() as int] == node);
    assert(forall|k: int| 0 <= k < nodes.len() ==> #[trigger] more[k] == nodes[k]);
    if id != node.id@ && names_node(nodes, id, i) {
        assert(more[i].id@ == id);
    }
    if id != node.id@ && names_node(more, id, i) {
        assert(nodes[i].id@ == id);
        assert forall|k: int| i < k < nodes.len() implies (#[trigger] nodes[k]).id@ != id by {
            assert(more[k] == nodes[k]);
        }
    }
    if has_node(nodes, id) {
        let k = choose|k: int| 0 <= k < nodes.len() && (#[trigger] nodes[k]).id@ == id;
        assert(more[k].id@ == id);
    }
    if has_node(more, id) && id != node.id@ {
        let k = choose|k: int| 0 <= k < more.len() && (#[trigger] more[k]).id@ == id;
        assert(nodes[k].id@ == id);
    }
}

} // verus!
