//! The shape tools' kinds.
use vstd::prelude::*;

verus! {

/// Which shape a tool id draws.
#[derive(Clone, Copy, Debug, PartialEq, Eq, Structural)]
pub enum Kind {
    Rect,
    Rounded,
    Ellipse,
    Polygon,
    Line,
}

} // verus!
