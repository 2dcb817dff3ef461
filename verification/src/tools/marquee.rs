//! The marquee tools' shapes.
use vstd::prelude::*;

verus! {

/// Which marquee a tool id is.
#[derive(Clone, Copy, Debug, PartialEq, Eq, Structural)]
pub enum Shape {
    Rect,
    Ellipse,
    /// One whole row: a click, no drag.
    Row,
    /// One whole column: a click, no drag.
    Column,
}

} // verus!
