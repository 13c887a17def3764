//! Points, sizes and the viewport.
use crate::double::Double;
use vstd::prelude::*;

verus! {

/// The pattern of `1`.
pub const ONE_BITS: u64 = 0x3ff0_0000_0000_0000;

/// The pattern of `24`.
pub const TWENTY_FOUR_BITS: u64 = 0x4038_0000_0000_0000;

/// A position, on the screen or in the graph.
#[derive(Clone, Copy, Debug)]
pub struct Point {
    pub x: Double,
    pub y: Double,
}

impl Point {
    /// Whether both are the same position.
    pub open spec fn same_as(self, other: Point) -> bool {
        self.x.spec_eq(other.x) && self.y.spec_eq(other.y)
    }

    /// The point with the given coordinates.
    pub fn new(x: Double, y: Double) -> (r: Point)
        ensures
            r == (Point { x, y }),
    {
        Point { x, y }
    }
}

impl Default for Point {
    /// The origin.
    fn default() -> (r: Point)
        ensures
            r.x.bits == 0,
            r.y.bits == 0,
    {
        Point { x: Double { bits: 0 }, y: Double { bits: 0 } }
    }
}

impl PartialEq for Point {
    fn eq(&self, other: &Point) -> (r: bool) {
        self.x.equals(other.x) && self.y.equals(other.y)
    }
}

impl vstd::std_specs::cmp::PartialEqSpecImpl for Point {
    open spec fn obeys_eq_spec() -> bool {
        true
    }

    open spec fn eq_spec(&self, other: &Point) -> bool {
        (*self).same_as(*other)
    }
}

/// A width and a height.
#[derive(Clone, Copy, Debug)]
pub struct Size {
    pub width: Double,
    pub height: Double,
}

impl Size {
    /// Whether both have the same extents.
    pub open spec fn same_as(self, other: Size) -> bool {
        self.width.spec_eq(other.width) && self.height.spec_eq(other.height)
    }

    /// The size with the given extents.
    pub fn new(width: Double, height: Double) -> (r: Size)
        ensures
            r == (Size { width, height }),
    {
        Size { width, height }
    }
}

impl Default for Size {
    /// Nothing wide and nothing high.
    fn default() -> (r: Size)
        ensures
            r.width.bits == 0,
            r.height.bits == 0,
    {
        Size { width: Double { bits: 0 }, height: Double { bits: 0 } }
    }
}

impl PartialEq for Size {
    fn eq(&self, other: &Size) -> (r: bool) {
        self.width.equals(other.width) && self.height.equals(other.height)
    }
}

impl vstd::std_specs::cmp::PartialEqSpecImpl for Size {
    open spec fn obeys_eq_spec() -> bool {
        true
    }

    open spec fn eq_spec(&self, other: &Size) -> bool {
        (*self).same_as(*other)
    }
}

/// How the graph is placed on the screen: the graph point `g` is shown at
/// `g * zoom + (x, y)`.
#[derive(Clone, Copy, Debug)]
pub struct Viewport {
    pub x: Double,
    pub y: Double,
    pub zoom: Double,
}

impl Viewport {
    /// The viewport of a new canvas: a margin of 24 and no magnification.
    pub open spec fn initial() -> Viewport {
        Viewport {
            x: Double { bits: TWENTY_FOUR_BITS },
            y: Double { bits: TWENTY_FOUR_BITS },
            zoom: Double { bits: ONE_BITS },
        }
    }
}

impl Default for Viewport {
    fn default() -> (r: Viewport)
        ensures
            r == Viewport::initial(),
            r.x.bits == TWENTY_FOUR_BITS,
            r.y.bits == TWENTY_FOUR_BITS,
            r.zoom.bits == ONE_BITS,
    {
        Viewport {
            x: Double { bits: TWENTY_FOUR_BITS },
            y: Double { bits: TWENTY_FOUR_BITS },
            zoom: Double { bits: ONE_BITS },
        }
    }
}

impl PartialEq for Viewport {
    fn eq(&self, other: &Viewport) -> (r: bool) {
        self.x.equals(other.x) && self.y.equals(other.y) && self.zoom.equals(other.zoom)
    }
}

impl vstd::std_specs::cmp::PartialEqSpecImpl for Viewport {
    open spec fn obeys_eq_spec() -> bool {
        true
    }

    open spec fn eq_spec(&self, other: &Viewport) -> bool {
        self.x.spec_eq(other.x) && self.y.spec_eq(other.y) && self.zoom.spec_eq(other.zoom)
    }
}

} // verus!
