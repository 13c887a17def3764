//! What is drawn of the edges, and where.
use crate::double::Double;
use crate::graph::{FlowEdge, FlowNode, NodeId};
use crate::viewport::TWO_BITS;
use vstd::prelude::*;

verus! {

/// The pattern of the number nearest to `0.68`, how far along an edge its label is.
pub const LABEL_FRACTION_BITS: u64 = 0x3fe5_c28f_5c28_f5c3;

/// The pattern of `22`, half the width of a label.
pub const LABEL_HALF_WIDTH_BITS: u64 = 0x4036_0000_0000_0000;

/// The pattern of `10`, half the height of a label.
pub const LABEL_HALF_HEIGHT_BITS: u64 = 0x4024_0000_0000_0000;

/// The node that an edge means by `id`: `i` is the last one of that name.
pub open spec fn names_node(nodes: Seq<FlowNode>, id: Seq<char>, i: int) -> bool {
    &&& 0 <= i < nodes.len()
    &&& nodes[i].id@ == id
    &&& forall|j: int| i < j < nodes.len() ==> (#[trigger] nodes[j]).id@ != id
}

/// Whether any node has that name.
pub open spec fn has_node(nodes: Seq<FlowNode>, id: Seq<char>) -> bool {
    exists|j: int| 0 <= j < nodes.len() && (#[trigger] nodes[j]).id@ == id
}

/// The index of the node that is meant by `id`. Where several nodes have the name it
/// is the last of them.
pub fn find_node(nodes: &[FlowNode], id: &NodeId) -> (r: Option<usize>)
    ensures
        match r {
            Some(i) => names_node(nodes@, id@, i as int),
            None => !has_node(nodes@, id@),
        },
        match r {
            Some(i) => i < nodes@.len() && nodes@[i as int].id@ == id@ && forall|j: int|
                i < j < nodes@.len() ==> (#[trigger] nodes@[j]).id@ != id@,
            None => forall|j: int| 0 <= j < nodes@.len() ==> (#[trigger] nodes@[j]).id@ != id@,
        },
{
    let mut i: usize = nodes.len();
    while i > 0
        invariant
            i <= nodes@.len(),
            forall|j: int| i <= j < nodes@.len() ==> (#[trigger] nodes@[j]).id@ != id@,
        decreases i,
    {
        i = i - 1;
        if nodes[i].id == *id {
            return Some(i);
        }
    }
    None
}

/// An edge on the canvas: a cubic curve from `(x1, y1)` to `(x2, y2)` whose control
/// points lie at the horizontal middle, and the upper left corner of its label.
#[derive(Clone, Copy, Debug)]
pub struct EdgeCurve {
    pub x1: Double,
    pub y1: Double,
    pub x2: Double,
    pub y2: Double,
    pub mid_x: Double,
    pub label_x: Double,
    pub label_y: Double,
}

/// The middle of a node's height, moved down by `offset`.
pub open spec fn side_middle(node: FlowNode, offset: Double) -> Double {
    node.position.y.spec_add(node.size.height.spec_div(Double { bits: TWO_BITS })).spec_add(offset)
}

/// The coordinate at which the label of a curve from `from` to `to` starts.
pub open spec fn label_start(from: Double, to: Double, half: Double) -> Double {
    from.spec_add(to.spec_sub(from).spec_mul(Double { bits: LABEL_FRACTION_BITS })).spec_sub(half)
}

/// The curve of an edge: it leaves the middle of the source's right side and arrives
/// at the middle of the target's left side, each moved down by its offset.
pub open spec fn spec_edge_curve(
    source: FlowNode,
    target: FlowNode,
    source_offset: Double,
    target_offset: Double,
) -> EdgeCurve {
    let x1 = source.position.x.spec_add(source.size.width);
    let y1 = side_middle(source, source_offset);
    let x2 = target.position.x;
    let y2 = side_middle(target, target_offset);
    EdgeCurve {
        x1,
        y1,
        x2,
        y2,
        mid_x: x1.spec_add(x2).spec_div(Double { bits: TWO_BITS }),
        label_x: label_start(x1, x2, Double { bits: LABEL_HALF_WIDTH_BITS }),
        label_y: label_start(y1, y2, Double { bits: LABEL_HALF_HEIGHT_BITS }),
    }
}

/// The curve of an edge between two nodes.
pub fn edge_curve(source: &FlowNode, target: &FlowNode, edge: &FlowEdge) -> (r: EdgeCurve)
    ensures
        r == spec_edge_curve(*source, *target, edge.source_offset, edge.target_offset),
        r.x1 == source.position.x.spec_add(source.size.width),
        r.y1 == source.position.y.spec_add(
            source.size.height.spec_div(Double { bits: TWO_BITS }),
        ).spec_add(edge.source_offset),
        r.x2 == target.position.x,
        r.y2 == target.position.y.spec_add(
            target.size.height.spec_div(Double { bits: TWO_BITS }),
        ).spec_add(edge.target_offset),
        r.mid_x == r.x1.spec_add(r.x2).spec_div(Double { bits: TWO_BITS }),
        r.label_x == r.x1.spec_add(
            r.x2.spec_sub(r.x1).spec_mul(Double { bits: LABEL_FRACTION_BITS }),
        ).spec_sub(Double { bits: LABEL_HALF_WIDTH_BITS }),
        r.label_y == r.y1.spec_add(
            r.y2.spec_sub(r.y1).spec_mul(Double { bits: LABEL_FRACTION_BITS }),
        ).spec_sub(Double { bits: LABEL_HALF_HEIGHT_BITS }),
{
    let two: Double = Double { bits: TWO_BITS };
    let fraction: Double = Double { bits: LABEL_FRACTION_BITS };
    let x1: Double = source.position.x.plus(source.size.width);
    let y1: Double = source.position.y.plus(source.size.height.over(two)).plus(edge.source_offset);
    let x2: Double = target.position.x;
    let y2: Double = target.position.y.plus(target.size.height.over(two)).plus(edge.target_offset);
    EdgeCurve {
        x1,
        y1,
        x2,
        y2,
        mid_x: x1.plus(x2).over(two),
        label_x: x1.plus(x2.minus(x1).times(fraction)).minus(
            Double { bits: LABEL_HALF_WIDTH_BITS },
        ),
        label_y: y1.plus(y2.minus(y1).times(fraction)).minus(
            Double { bits: LABEL_HALF_HEIGHT_BITS },
        ),
    }
}

/// An edge that is drawn: its index, and its curve.
#[derive(Clone, Copy, Debug)]
pub struct PlacedEdge {
    pub index: usize,
    pub curve: EdgeCurve,
}

/// Whether both ends of an edge are nodes of the graph.
pub open spec fn is_drawn(nodes: Seq<FlowNode>, edge: FlowEdge) -> bool {
    has_node(nodes, edge.source@) && has_node(nodes, edge.target@)
}

/// The number of edges that are drawn.
pub open spec fn drawn_count(nodes: Seq<FlowNode>, edges: Seq<FlowEdge>) -> nat
    decreases edges.len(),
{
    if edges.len() == 0 {
        0
    } else {
        drawn_count(nodes, edges.drop_last()) + if is_drawn(nodes, edges.last()) {
            1nat
        } else {
            0nat
        }
    }
}

/// The placement `p` shows the edge that it names, between the nodes that the edge
/// means.
pub open spec fn placed(nodes: Seq<FlowNode>, edges: Seq<FlowEdge>, p: PlacedEdge) -> bool {
    &&& p.index < edges.len()
    &&& exists|i: int, j: int|
        {
            &&& #[trigger] names_node(nodes, edges[p.index as int].source@, i)
            &&& #[trigger] names_node(nodes, edges[p.index as int].target@, j)
            &&& p.curve == spec_edge_curve(
                nodes[i],
                nodes[j],
                edges[p.index as int].source_offset,
                edges[p.index as int].target_offset,
            )
        }
}

/// The edges that are drawn, in their order: those whose two ends are nodes of the
/// graph.
pub fn place_edges(nodes: &[FlowNode], edges: &[FlowEdge]) -> (r: Vec<PlacedEdge>)
    ensures
        r@.len() == drawn_count(nodes@, edges@),
        forall|k: int| 0 <= k < r@.len() ==> placed(nodes@, edges@, #[trigger] r@[k]),
        forall|k: int, l: int| 0 <= k < l < r@.len() ==> r@[k].index < r@[l].index,
        forall|e: int|
            0 <= e < edges@.len() && is_drawn(nodes@, #[trigger] edges@[e]) ==> exists|k: int|
                0 <= k < r@.len() && (#[trigger] r@[k]).index == e,
        forall|e: int, i: int, j: int|
            0 <= e < edges@.len() && 0 <= i < nodes@.len() && 0 <= j < nodes@.len()
                && (#[trigger] nodes@[i]).id@ == (#[trigger] edges@[e]).source@ && (
            #[trigger] nodes@[j]).id@ == edges@[e].target@ ==> exists|k: int|
                0 <= k < r@.len() && (#[trigger] r@[k]).index == e,
        forall|k: int|
            0 <= k < r@.len() ==> (#[trigger] r@[k]).index < edges@.len() && has_node(
                nodes@,
                edges@[r@[k].index as int].source@,
            ) && has_node(nodes@, edges@[r@[k].index as int].target@),
{
    let mut r: Vec<PlacedEdge> = Vec::new();
    let mut e: usize = 0;
    while e < edges.len()
        invariant
            e <= edges@.len(),
            r@.len() == drawn_count(nodes@, edges@.take(e as int)),
            forall|k: int|
                0 <= k < r@.len() ==> placed(nodes@, edges@, #[trigger] r@[k]) && r@[k].index < e,
            forall|k: int, l: int| 0 <= k < l < r@.len() ==> r@[k].index < r@[l].index,
            forall|f: int|
                0 <= f < e && is_drawn(nodes@, #[trigger] edges@[f]) ==> exists|k: int|
                    0 <= k < r@.len() && (#[trigger] r@[k]).index == f,
        decreases edges@.len() - e,
    {
        let ghost before = r@;
        let edge: &FlowEdge = &edges[e];
        let source: Option<usize> = find_node(nodes, &edge.source);
        let target: Option<usize> = find_node(nodes, &edge.target);
        proof {
            assert(edges@.take(e + 1).drop_last() =~= edges@.take(e as int));
            assert(edges@.take(e + 1).last() == edges@[e as int]);
        }
        if let (Some(i), Some(j)) = (source, target) {
            let curve: EdgeCurve = edge_curve(&nodes[i], &nodes[j], edge);
            r.push(PlacedEdge { index: e, curve });
            proof {
                assert(nodes@[i as int].id@ == edge.source@);
                assert(nodes@[j as int].id@ == edge.target@);
                let p = r@.last();
                assert(names_node(nodes@, edges@[p.index as int].source@, i as int));
                assert(names_node(nodes@, edges@[p.index as int].target@, j as int));
                assert(placed(nodes@, edges@, p));
                assert(r@[before.len() as int].index == e);
                assert forall|f: int|
                    0 <= f < e + 1 && is_drawn(nodes@, #[trigger] edges@[f]) implies exists|k: int|
                    0 <= k < r@.len() && (#[trigger] r@[k]).index == f by {
                    if f < e {
                        let k = choose|k: int|
                            0 <= k < before.len() && (#[trigger] before[k]).index == f;
                        assert(r@[k].index == f);
                    } else {
                        assert(r@[before.len() as int].index == f);
                    }
                }
            }
        }
        e = e + 1;
    }
    assert(edges@.take(e as int) =~= edges@);
    r
}

/// An edge means one node at each end, so it has one place.
pub proof fn placement_is_unique(
    nodes: Seq<FlowNode>,
    edges: Seq<FlowEdge>,
    p: PlacedEdge,
    q: PlacedEdge,
)
    requires
        placed(nodes, edges, p),
        placed(nodes, edges, q),
        p.index == q.index,
    ensures
        p == q,
        is_drawn(nodes, edges[p.index as int]),
{
    let edge = edges[p.index as int];
    let (i, j) = choose|i: int, j: int|
        {
            &&& #[trigger] names_node(nodes, edge.source@, i)
            &&& #[trigger] names_node(nodes, edge.target@, j)
            &&& p.curve == spec_edge_curve(
                nodes[i],
                nodes[j],
                edge.source_offset,
                edge.target_offset,
            )
        };
    let (k, l) = choose|i: int, j: int|
        {
            &&& #[trigger] names_node(nodes, edge.source@, i)
            &&& #[trigger] names_node(nodes, edge.target@, j)
            &&& q.curve == spec_edge_curve(
                nodes[i],
                nodes[j],
                edge.source_offset,
                edge.target_offset,
            )
        };
    name_means_one_node(nodes, edge.source@, i, k);
    name_means_one_node(nodes, edge.target@, j, l);
}

/// A name means at most one node.
pub proof fn name_means_one_node(nodes: Seq<FlowNode>, id: Seq<char>, i: int, j: int)
    requires
        names_node(nodes, id, i),
        names_node(nodes, id, j),
    ensures
        i == j,
        has_node(nodes, id),
{
    assert(nodes[i].id@ == id);
    assert(nodes[j].id@ == id);
}

} // verus!
