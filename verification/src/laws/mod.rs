//! What holds of the canvas as a whole: theorems over the specifications of the
//! functions.
pub mod background;
pub mod constants;
pub mod edges;
pub mod equality;
pub mod fit;
pub mod fractions;
pub mod motion;
pub mod nearest;
pub mod order;
pub mod reading;
pub mod redraw;
pub mod shift;
pub mod texts;
pub mod zoom;
