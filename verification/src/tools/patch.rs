//! The Patch tools' kinds.
use vstd::prelude::*;

verus! {

/// Which patch tool an instance is.
#[derive(Clone, Copy, Debug, PartialEq, Eq, Structural)]
pub enum Kind {
    Patch,
    ContentMove,
}

} // verus!
