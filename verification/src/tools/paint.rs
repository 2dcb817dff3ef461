//! The painting tools' kinds.
use vstd::prelude::*;

verus! {

/// Which painting tool an instance is.
#[derive(Clone, Copy, Debug, PartialEq, Eq, Structural)]
pub enum Kind {
    Brush,
    Pencil,
    Eraser,
    Clone,
    Heal,
    SpotHeal,
    BgEraser,
    Dodge,
    Burn,
    Sponge,
    Blur,
    Sharpen,
    Smudge,
    PatternStamp,
    HistoryBrush,
    ArtHistory,
    ColorReplace,
}

} // verus!
