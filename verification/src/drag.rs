//! Dragging a node, and telling a drag from a click.
use crate::double::Double;
use crate::geometry::Point;
use crate::graph::{FlowNode, NodeId, NodeMove};
use vstd::prelude::*;

verus! {

/// The pattern of `9`, the square of the distance in pixels from which on a press
/// becomes a drag.
pub const DRAG_THRESHOLD_SQUARED_BITS: u64 = 0x4022_0000_0000_0000;

/// The button number of the primary mouse button.
pub const PRIMARY_BUTTON: i16 = 0;

/// A mouse interaction that has begun and not ended.
#[derive(Debug)]
pub enum DragState {
    /// A node has been pressed.
    Node {
        id: NodeId,
        /// Where on the screen it was pressed.
        start: Point,
        /// Where in the graph it was then.
        origin: Point,
        /// Whether the pointer has since moved far enough to be dragging.
        moved: bool,
    },
}

impl Clone for DragState {
    fn clone(&self) -> (r: DragState)
        ensures
            r == *self,
    {
        match self {
            DragState::Node { id, start, origin, moved } => DragState::Node {
                id: id.clone(),
                start: *start,
                origin: *origin,
                moved: *moved,
            },
        }
    }
}

impl PartialEq for DragState {
    fn eq(&self, other: &DragState) -> (r: bool) {
        match (self, other) {
            (
                DragState::Node { id, start, origin, moved },
                DragState::Node { id: id2, start: start2, origin: origin2, moved: moved2 },
            ) => *id == *id2 && *start == *start2 && *origin == *origin2 && *moved == *moved2,
        }
    }
}

impl vstd::std_specs::cmp::PartialEqSpecImpl for DragState {
    open spec fn obeys_eq_spec() -> bool {
        true
    }

    open spec fn eq_spec(&self, other: &DragState) -> bool {
        &&& self->id@ == other->id@
        &&& self->start.same_as(other->start)
        &&& self->origin.same_as(other->origin)
        &&& self->moved == other->moved
    }
}

/// What became of a press on a node.
#[derive(Clone, Copy, Debug, PartialEq, Eq, Structural)]
pub enum NodePress {
    /// Another button than the primary one: the event is not the node's.
    Ignored,
    /// The event ends at the node, and nothing begins.
    Stopped,
    /// The event ends at the node, and a drag may have begun.
    Begun,
}

/// The square of the distance between two points.
pub open spec fn distance_squared(start: Point, current: Point) -> Double {
    let dx = current.x.spec_sub(start.x);
    let dy = current.y.spec_sub(start.y);
    dx.spec_mul(dx).spec_add(dy.spec_mul(dy))
}

/// Whether the pointer is far enough from where it was pressed to be dragging.
pub open spec fn beyond_threshold(start: Point, current: Point) -> bool {
    Double { bits: DRAG_THRESHOLD_SQUARED_BITS }.spec_le(distance_squared(start, current))
}

/// Whether the pointer is far enough from where it was pressed to be dragging:
/// three pixels.
pub fn exceeds_node_drag_threshold(start: Point, current: Point) -> (r: bool)
    ensures
        r == beyond_threshold(start, current),
        r == ({
            let (dx, dy) = (current.x.spec_sub(start.x), current.y.spec_sub(start.y));
            (Double { bits: DRAG_THRESHOLD_SQUARED_BITS }).spec_le(
                dx.spec_mul(dx).spec_add(dy.spec_mul(dy)),
            )
        }),
{
    let delta_x: Double = current.x.minus(start.x);
    let delta_y: Double = current.y.minus(start.y);
    Double { bits: DRAG_THRESHOLD_SQUARED_BITS }.at_most(
        delta_x.times(delta_x).plus(delta_y.times(delta_y)),
    )
}

/// The drag that a press on a node at `pointer` begins.
pub open spec fn pressed(node: FlowNode, pointer: Point) -> DragState {
    DragState::Node { id: node.id, start: pointer, origin: node.position, moved: false }
}

/// Handles a press of `button` on a node. `exempt` says whether the press was on a
/// part of the node that must not drag it.
pub fn press_node(
    drag: &mut Option<DragState>,
    button: i16,
    exempt: bool,
    node: &FlowNode,
    pointer: Point,
) -> (r: NodePress)
    ensures
        r == if button != PRIMARY_BUTTON {
            NodePress::Ignored
        } else if exempt {
            NodePress::Stopped
        } else {
            NodePress::Begun
        },
        r == NodePress::Begun ==> *final(drag) == Some(pressed(*node, pointer)),
        r != NodePress::Begun ==> *final(drag) == *old(drag),
        r == NodePress::Ignored <==> button != 0,
        r == NodePress::Stopped <==> button == 0 && exempt,
        r == NodePress::Begun ==> *final(drag) == Some(
            DragState::Node { id: node.id, start: pointer, origin: node.position, moved: false },
        ),
{
    if button != PRIMARY_BUTTON {
        return NodePress::Ignored;
    }
    if exempt {
        return NodePress::Stopped;
    }
    *drag = Some(
        DragState::Node {
            id: node.id.clone(),
            start: pointer,
            origin: node.position,
            moved: false,
        },
    );
    NodePress::Begun
}

/// Where a node that was at `origin` is when the pointer has gone from `start` to
/// `pointer` under the given zoom.
pub open spec fn dragged_position(origin: Point, start: Point, pointer: Point, zoom: Double) -> Point {
    Point {
        x: origin.x.spec_add(pointer.x.spec_sub(start.x).spec_div(zoom)),
        y: origin.y.spec_add(pointer.y.spec_sub(start.y).spec_div(zoom)),
    }
}

/// The interaction after the pointer has moved to `pointer`.
pub open spec fn after_move(drag: Option<DragState>, pointer: Point) -> Option<DragState> {
    match drag {
        None => None,
        Some(DragState::Node { id, start, origin, moved }) => Some(
            DragState::Node {
                id,
                start,
                origin,
                moved: moved || beyond_threshold(start, pointer),
            },
        ),
    }
}

/// The move that is reported when the pointer comes to `pointer`.
pub open spec fn reported_move(drag: Option<DragState>, pointer: Point, zoom: Double) -> Option<NodeMove> {
    match drag {
        None => None,
        Some(DragState::Node { id, start, origin, moved }) => if moved || beyond_threshold(
            start,
            pointer,
        ) {
            Some(NodeMove { id, position: dragged_position(origin, start, pointer, zoom) })
        } else {
            None
        },
    }
}

/// Handles a pointer movement over the canvas. Until the pointer has once gone
/// beyond the threshold nothing moves; from then on every movement is reported.
pub fn move_drag(drag: &mut Option<DragState>, pointer: Point, zoom: Double) -> (r: Option<NodeMove>)
    ensures
        r == reported_move(*old(drag), pointer, zoom),
        *final(drag) == after_move(*old(drag), pointer),
        match *old(drag) {
            None => r is None && *final(drag) is None,
            Some(DragState::Node { id, start, origin, moved }) => {
                let far = beyond_threshold(start, pointer);
                let position = Point {
                    x: origin.x.spec_add(pointer.x.spec_sub(start.x).spec_div(zoom)),
                    y: origin.y.spec_add(pointer.y.spec_sub(start.y).spec_div(zoom)),
                };
                &&& *final(drag) == Some(
                    DragState::Node { id, start, origin, moved: moved || far },
                )
                &&& moved || far ==> r == Some(NodeMove { id, position })
                &&& !moved && !far ==> r is None
            },
        },
{
    match drag.take() {
        None => None,
        Some(DragState::Node { id, start, origin, moved }) => {
            let dragging: bool = moved || exceeds_node_drag_threshold(start, pointer);
            let report: Option<NodeMove> = if dragging {
                let delta_x: Double = pointer.x.minus(start.x);
                let delta_y: Double = pointer.y.minus(start.y);
                Some(
                    NodeMove {
                        id: id.clone(),
                        position: Point {
                            x: origin.x.plus(delta_x.over(zoom)),
                            y: origin.y.plus(delta_y.over(zoom)),
                        },
                    },
                )
            } else {
                None
            };
            *drag = Some(DragState::Node { id, start, origin, moved: dragging });
            report
        },
    }
}

/// Handles a release over the canvas or anywhere in the window, and the window's
/// loss of focus: the interaction is over.
pub fn release_drag(drag: &mut Option<DragState>)
    ensures
        *final(drag) is None,
{
    *drag = None;
}

/// Whether releasing over the node `id` is a click on it.
pub open spec fn is_click(drag: Option<DragState>, id: Seq<char>) -> bool {
    match drag {
        None => false,
        Some(DragState::Node { id: pressed_id, start, origin, moved }) => !moved && pressed_id@
            == id,
    }
}

/// Handles a release over the node `id`: the interaction is over. It was a click if
/// that node had been pressed and not dragged.
pub fn release_node(drag: &mut Option<DragState>, id: &NodeId) -> (r: bool)
    ensures
        r == is_click(*old(drag), id@),
        r <==> (*old(drag) matches Some(
            DragState::Node { id: pressed_id, start, origin, moved },
        ) && !moved && pressed_id@ == id@),
        *final(drag) is None,
{
    match drag.take() {
        None => false,
        Some(DragState::Node { id: pressed_id, start: _, origin: _, moved }) => !moved
            && pressed_id == *id,
    }
}

/// The interaction after the pointer has been at all of `pointers`, in order.
pub open spec fn after_moves(drag: Option<DragState>, pointers: Seq<Point>) -> Option<DragState>
    decreases pointers.len(),
{
    if pointers.len() == 0 {
        drag
    } else {
        after_move(after_moves(drag, pointers.drop_last()), pointers.last())
    }
}

/// Whatever the pointer does in between, a press remembers its node, where it was
/// pressed and where it was, and drags if and only if the pointer was once beyond the
/// threshold.
pub proof fn press_is_remembered(node: FlowNode, press: Point, pointers: Seq<Point>)
    ensures
        after_moves(Some(pressed(node, press)), pointers) == Some(
            DragState::Node {
                id: node.id,
                start: press,
                origin: node.position,
                moved: exists|i: int|
                    0 <= i < pointers.len() && beyond_threshold(press, #[trigger] pointers[i]),
            },
        ),
    decreases pointers.len(),
{
    if pointers.len() > 0 {
        let before = pointers.drop_last();
        press_is_remembered(node, press, before);
        if exists|i: int| 0 <= i < before.len() && beyond_threshold(press, #[trigger] before[i]) {
            let i = choose|i: int|
                0 <= i < before.len() && beyond_threshold(press, #[trigger] before[i]);
            assert(pointers[i] == before[i]);
        }
        if exists|i: int|
            0 <= i < pointers.len() && beyond_threshold(press, #[trigger] pointers[i]) {
            let i = choose|i: int|
                0 <= i < pointers.len() && beyond_threshold(press, #[trigger] pointers[i]);
            if i < before.len() {
                assert(before[i] == pointers[i]);
            }
        }
        assert(pointers[pointers.len() - 1] == pointers.last());
    }
}

/// A release over a node is a click on it if and only if that node was pressed and
/// the pointer stayed within the threshold.
pub proof fn click_or_drag(node: FlowNode, press: Point, pointers: Seq<Point>, id: Seq<char>)
    ensures
        is_click(after_moves(Some(pressed(node, press)), pointers), id) <==> node.id@ == id && (
        forall|i: int|
            0 <= i < pointers.len() ==> !beyond_threshold(press, #[trigger] pointers[i])),
{
    press_is_remembered(node, press, pointers);
}

/// A movement is reported if and only if the pointer is or has been beyond the
/// threshold; where the node goes depends on the pointer's last position alone.
pub proof fn drag_follows_pointer(
    node: FlowNode,
    press: Point,
    pointers: Seq<Point>,
    pointer: Point,
    zoom: Double,
)
    ensures
        reported_move(after_moves(Some(pressed(node, press)), pointers), pointer, zoom) == if (
        exists|i: int|
            0 <= i < pointers.len() && beyond_threshold(press, #[trigger] pointers[i]))
            || beyond_threshold(press, pointer) {
            Some(
                NodeMove {
                    id: node.id,
                    position: dragged_position(node.position, press, pointer, zoom),
                },
            )
        } else {
            None
        },
{
    press_is_remembered(node, press, pointers);
}

/// Without a pressed node the pointer moves nothing.
pub proof fn idle_pointer_moves_nothing(pointers: Seq<Point>, pointer: Point, zoom: Double)
    ensures
        after_moves(None, pointers) is None,
        reported_move(after_moves(None, pointers), pointer, zoom) is None,
        forall|id: Seq<char>| !is_click(after_moves(None, pointers), id),
    decreases pointers.len(),
{
    if pointers.len() > 0 {
        idle_pointer_moves_nothing(pointers.drop_last(), pointer, zoom);
    }
}

} // verus!
