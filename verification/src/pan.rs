//! Dragging the canvas itself.
use crate::double::Double;
use crate::drag::PRIMARY_BUTTON;
use crate::geometry::{Point, Viewport};
use vstd::prelude::*;

verus! {

/// A pan that has begun and not ended. While it lasts the viewport that the
/// application knows stays as it was; what is shown is [`Pan::latest`].
#[derive(Clone, Copy, Debug)]
pub struct Pan {
    /// Where on the screen the canvas was pressed.
    pub start: Point,
    /// The viewport's offset then.
    pub origin: Point,
    /// The viewport as it is shown now.
    pub latest: Viewport,
}

/// The offset of a viewport that was at `origin` when the canvas was pressed at
/// `start`, with the pointer now at `pointer`.
pub open spec fn panned_offset(origin: Double, start: Double, pointer: Double) -> Double {
    origin.spec_add(pointer).spec_sub(start)
}

/// The pan that a press at `start` on a canvas with the given viewport begins.
pub open spec fn begun(viewport: Viewport, start: Point) -> Pan {
    Pan { start, origin: Point { x: viewport.x, y: viewport.y }, latest: viewport }
}

/// The pan after the pointer has moved to `pointer`.
pub open spec fn pan_moved(pan: Pan, pointer: Point) -> Pan {
    Pan {
        start: pan.start,
        origin: pan.origin,
        latest: Viewport {
            x: panned_offset(pan.origin.x, pan.start.x, pointer.x),
            y: panned_offset(pan.origin.y, pan.start.y, pointer.y),
            zoom: pan.latest.zoom,
        },
    }
}

/// Handles a press of `button` on the canvas: the primary button begins a pan, in
/// place of one that has not ended.
pub fn press_canvas(pan: &mut Option<Pan>, button: i16, viewport: Viewport, start: Point) -> (r: bool)
    ensures
        r == (button == PRIMARY_BUTTON),
        r ==> *final(pan) == Some(begun(viewport, start)),
        !r ==> *final(pan) == *old(pan),
        r <==> button == 0,
        r ==> *final(pan) == Some(
            Pan { start, origin: Point { x: viewport.x, y: viewport.y }, latest: viewport },
        ),
{
    if button != PRIMARY_BUTTON {
        return false;
    }
    *pan = Some(Pan { start, origin: Point { x: viewport.x, y: viewport.y }, latest: viewport });
    true
}

/// Handles a pointer movement: returns the viewport to show, if there is a pan.
pub fn move_pan(pan: &mut Option<Pan>, pointer: Point) -> (r: Option<Viewport>)
    ensures
        match *old(pan) {
            None => *final(pan) is None && r is None,
            Some(p) => *final(pan) == Some(pan_moved(p, pointer)) && r == Some(
                pan_moved(p, pointer).latest,
            ),
        },
        match *old(pan) {
            None => r is None,
            Some(p) => {
                let shown = Viewport {
                    x: p.origin.x.spec_add(pointer.x).spec_sub(p.start.x),
                    y: p.origin.y.spec_add(pointer.y).spec_sub(p.start.y),
                    zoom: p.latest.zoom,
                };
                &&& r == Some(shown)
                &&& *final(pan) == Some(Pan { start: p.start, origin: p.origin, latest: shown })
            },
        },
{
    match *pan {
        None => None,
        Some(p) => {
            let latest: Viewport = Viewport {
                x: p.origin.x.plus(pointer.x).minus(p.start.x),
                y: p.origin.y.plus(pointer.y).minus(p.start.y),
                zoom: p.latest.zoom,
            };
            *pan = Some(Pan { start: p.start, origin: p.origin, latest });
            Some(latest)
        },
    }
}

/// Handles the end of a pan: returns the viewport to commit, if there was a pan.
pub fn finish_pan(pan: &mut Option<Pan>) -> (r: Option<Viewport>)
    ensures
        match *old(pan) {
            None => r is None,
            Some(p) => r == Some(p.latest),
        },
        *final(pan) is None,
{
    match pan.take() {
        None => None,
        Some(p) => Some(p.latest),
    }
}

/// The pan after the pointer has been at all of `pointers`, in order.
pub open spec fn pan_moves(pan: Pan, pointers: Seq<Point>) -> Pan
    decreases pointers.len(),
{
    if pointers.len() == 0 {
        pan
    } else {
        pan_moved(pan_moves(pan, pointers.drop_last()), pointers.last())
    }
}

/// A pan that ends shows and commits what the pointer's last position asks for,
/// whatever its path was, and keeps the zoom. Without a movement it commits the
/// viewport unchanged.
pub proof fn pan_commits_last_position(viewport: Viewport, start: Point, pointers: Seq<Point>)
    ensures
        pan_moves(begun(viewport, start), pointers).latest == if pointers.len() == 0 {
            viewport
        } else {
            Viewport {
                x: panned_offset(viewport.x, start.x, pointers.last().x),
                y: panned_offset(viewport.y, start.y, pointers.last().y),
                zoom: viewport.zoom,
            }
        },
        pan_moves(begun(viewport, start), pointers).start == start,
        pan_moves(begun(viewport, start), pointers).origin == (Point {
            x: viewport.x,
            y: viewport.y,
        }),
    decreases pointers.len(),
{
    if pointers.len() > 0 {
        pan_commits_last_position(viewport, start, pointers.drop_last());
    }
}

} // verus!
