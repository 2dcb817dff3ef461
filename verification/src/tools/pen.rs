//! The pen tools' kinds.
use vstd::prelude::*;

verus! {

/// Which pen tool an instance is.
#[derive(Clone, Copy, Debug, PartialEq, Eq, Structural)]
pub enum Kind {
    Pen,
    Freeform,
    Curvature,
    AnchorAdd,
    AnchorDelete,
    AnchorConvert,
    Direct,
}

} // verus!
