//! Committing a pan draws what the pan has drawn already.
use crate::geometry::{Point, Viewport};
use crate::pan::{begun, pan_moved, pan_moves};
use crate::style::{
    background_position_text, dots_style_text, frame_style_text, transform_text, DOTS_TILE,
};
use crate::viewport::spec_dots_size;
use vstd::prelude::*;

verus! {

/// Whether `part` occurs in `text`.
pub open spec fn holds(text: Seq<char>, part: Seq<char>) -> bool {
    exists|before: Seq<char>, after: Seq<char>| text == #[trigger] (before + part + after)
}

/// The scene's style holds its transformation.
pub proof fn frame_style_holds_transform(x: Seq<char>, y: Seq<char>, zoom: Seq<char>)
    ensures
        holds(frame_style_text(x, y, zoom), transform_text(x, y, zoom)),
{
    let before = "position: absolute; left: 0; top: 0; transform-origin: 0 0; transform: "@;
    let after = "; will-change: transform;"@;
    assert(frame_style_text(x, y, zoom) == before + transform_text(x, y, zoom) + after);
}

/// The background's style holds its position.
pub proof fn dots_style_holds_position(size: Seq<char>, x: Seq<char>, y: Seq<char>)
    ensures
        holds(dots_style_text(size, x, y), background_position_text(x, y)),
{
    let before =
        "position: absolute; inset: 0; pointer-events: none; background-image: "@ + DOTS_TILE@
        + "; background-repeat: repeat; background-size: "@ + size + "px "@ + size
        + "px; background-position: "@;
    let after = ";"@;
    assert(dots_style_text(size, x, y) == before + background_position_text(x, y) + after);
}

/// Drawing the committed viewport writes the transformation and the background position
/// that the last movement of the pan wrote, so that nothing jumps when it ends.
pub proof fn commit_does_not_jump(viewport: Viewport, start: Point, pointers: Seq<Point>)
    requires
        pointers.len() > 0,
    ensures
        ({
            let shown = pan_moved(
                pan_moves(begun(viewport, start), pointers.drop_last()),
                pointers.last(),
            ).latest;
            let committed = pan_moves(begun(viewport, start), pointers).latest;
            let size = spec_dots_size(committed.zoom);
            &&& committed == shown
            &&& holds(
                frame_style_text(
                    committed.x.display_text(),
                    committed.y.display_text(),
                    committed.zoom.display_text(),
                ),
                transform_text(
                    shown.x.display_text(),
                    shown.y.display_text(),
                    shown.zoom.display_text(),
                ),
            )
            &&& holds(
                dots_style_text(
                    size.display_text(),
                    committed.x.spec_rem_euclid(size).display_text(),
                    committed.y.spec_rem_euclid(size).display_text(),
                ),
                background_position_text(
                    shown.x.spec_rem_euclid(spec_dots_size(shown.zoom)).display_text(),
                    shown.y.spec_rem_euclid(spec_dots_size(shown.zoom)).display_text(),
                ),
            )
        }),
{
    let v = pan_moves(begun(viewport, start), pointers).latest;
    let size = spec_dots_size(v.zoom);
    frame_style_holds_transform(v.x.display_text(), v.y.display_text(), v.zoom.display_text());
    dots_style_holds_position(
        size.display_text(),
        v.x.spec_rem_euclid(size).display_text(),
        v.y.spec_rem_euclid(size).display_text(),
    );
}

} // verus!
