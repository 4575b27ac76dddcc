//! Drawing surface abstraction for chart rendering.

use vstd::prelude::*;

verus! {

/// A point on a drawing surface, in device units.
#[derive(Clone, Copy, PartialEq, Eq, Structural, Debug)]
pub struct Point {
    pub x: i64,
    pub y: i64,
}

/// An RGB color.
#[derive(Clone, Copy, PartialEq, Eq, Structural, Debug)]
pub struct Color {
    pub r: u8,
    pub g: u8,
    pub b: u8,
}

/// A generic canvas trait.  Implement this trait to become a drawing
/// surface.
pub trait Canvas {
    /// Select the pen color for subsequent drawing.
    fn set_pen(&mut self, color: Color);

    /// Print text at the given position.
    fn print_text(&mut self, p: &Point, text: &str);

    /// Draw a line between two points.
    fn draw_line(&mut self, p1: &Point, p2: &Point);
}

} // verus!
