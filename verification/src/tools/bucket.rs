//! The click tools of the paint-bucket family.
use vstd::prelude::*;

verus! {

/// The Paint Bucket: fills the region a click picks.
#[derive(Clone, Copy, Debug, PartialEq, Eq, Structural)]
pub struct Bucket;

/// The Magic Eraser: clears the region a click picks.
#[derive(Clone, Copy, Debug, PartialEq, Eq, Structural)]
pub struct MagicEraser;

/// The Red Eye tool: fixes the pupil a click picks.
#[derive(Clone, Copy, Debug, PartialEq, Eq, Structural)]
pub struct RedEye;

impl Bucket {
    /// The UI tool id, which keys the tool's option bar.
    pub fn id(&self) -> (id: &'static str)
        ensures
            id@ == "paint-bucket"@,
    {
        "paint-bucket"
    }
}

impl MagicEraser {
    /// The UI tool id, which keys the tool's option bar.
    pub fn id(&self) -> (id: &'static str)
        ensures
            id@ == "eraser-magic"@,
    {
        "eraser-magic"
    }
}

impl RedEye {
    /// The UI tool id, which keys the tool's option bar.
    pub fn id(&self) -> (id: &'static str)
        ensures
            id@ == "red-eye"@,
    {
        "red-eye"
    }
}

} // verus!
