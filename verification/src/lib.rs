//! The verified core of the Fotox engine: the parts of the application core
//! that compute on plain values (codecs, geometry on integer grids, document
//! bookkeeping, option parsing), each with a contract proved by Verus.
use vstd::prelude::*;

pub mod b64;
pub mod brushes;
pub mod channels;
pub mod clipboard;
pub mod documents;
pub mod export;
pub mod layers;
pub mod mips;
pub mod outline;
pub mod paths;
pub mod patterns;
pub mod prefs;
pub mod raster;
pub mod render;
pub mod strings;
pub mod thumbs;
pub mod tools;

pub use export::ExportChoice;

verus! {

/// What a pointer event over the viewport is.
#[derive(Clone, Copy, Debug, PartialEq, Eq, Structural)]
pub enum PointerKind {
    Down,
    Move,
    Up,
    /// Pointer left the viewport (hover state must be cleared).
    Leave,
}

/// The modifier keys held during an event.
#[derive(Clone, Copy, Debug, PartialEq, Eq, Structural)]
pub struct Modifiers {
    pub shift: bool,
    pub ctrl: bool,
    pub alt: bool,
    /// Space held (temporary hand tool, Photoshop behaviour).
    pub space: bool,
}

impl Default for Modifiers {
    /// No modifier held.
    fn default() -> (m: Self)
        ensures
            !m.shift && !m.ctrl && !m.alt && !m.space,
    {
        Modifiers { shift: false, ctrl: false, alt: false, space: false }
    }
}

/// Cursor to show over the viewport.
#[derive(Clone, Copy, Debug, PartialEq, Eq, Structural)]
pub enum CursorShape {
    Default,
    Crosshair,
    Grab,
    Grabbing,
    ZoomIn,
    ZoomOut,
    /// Four arrows: something is being moved (the selection outline).
    Move,
    /// Brush outline is drawn by the viewport overlay; hide the OS cursor.
    Hidden,
    /// The I-beam of the Type tool.
    Text,
}

} // verus!
