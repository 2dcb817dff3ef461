//! Tiled RGBA images as plain values: a grid of tiles that are empty, one
//! solid colour, or `TILE × TILE` pixels of four channels each.
use vstd::prelude::*;

verus! {

/// Pixels along a tile's side.
pub const TILE: u32 = 256;

/// Channel values a tile holds: `TILE × TILE` pixels of four channels.
pub const TILE_VALUES: usize = 262144;

/// One tile of a [`Raster`].
pub enum Slot {
    /// Nothing stored: every pixel transparent.
    Empty,
    /// Every pixel this colour (channel values of the raster's depth).
    Solid([u16; 4]),
    /// `TILE × TILE` pixels, row-major, four channel values each.
    Data(Vec<u16>),
}

/// A tiled RGBA image: `width × height` pixels in tiles of `TILE × TILE`,
/// `slots` row-major over the tile grid. Channel values are 16-bit when
/// `deep`, else 8-bit (at most 255).
pub struct Raster {
    pub width: u32,
    pub height: u32,
    pub deep: bool,
    pub slots: Vec<Slot>,
}

/// Tiles needed to cover `n` pixels.
pub open spec fn tiles_for(n: int) -> int {
    (n + 255) / 256
}

/// Whether a tile holds pixels (it is not [`Slot::Empty`]).
pub open spec fn filled(slot: Slot) -> bool {
    !(slot is Empty)
}

impl Raster {
    /// Tile columns.
    pub open spec fn cols(&self) -> int {
        tiles_for(self.width as int)
    }

    /// Tile rows.
    pub open spec fn rows(&self) -> int {
        tiles_for(self.height as int)
    }

    /// Tile `(tx, ty)`.
    pub open spec fn slot(&self, tx: int, ty: int) -> Slot {
        self.slots@[ty * self.cols() + tx]
    }

    /// The grid has one slot per tile, data tiles hold a tile's worth of
    /// values, and 8-bit values fit in a byte.
    pub open spec fn wf(&self) -> bool {
        &&& 1 <= self.width <= 0x7fff_ffff
        &&& 1 <= self.height <= 0x7fff_ffff
        &&& self.slots@.len() == self.cols() * self.rows()
        &&& forall|k: int|
            #![trigger self.slots@[k]]
            0 <= k < self.slots@.len() ==> match self.slots@[k] {
                Slot::Empty => true,
                Slot::Solid(v) => self.deep || (v[0] <= 255 && v[1] <= 255 && v[2] <= 255 && v[3] <= 255),
                Slot::Data(d) => d@.len() == TILE_VALUES && (self.deep || forall|i: int|
                    0 <= i < TILE_VALUES ==> #[trigger] d@[i] <= 255),
            }
    }

    /// Channel `c` of pixel `(x, y)` (inside the image): the tile's value,
    /// 0 in an empty tile.
    pub open spec fn value(&self, x: int, y: int, c: int) -> u16 {
        match self.slot(x / 256, y / 256) {
            Slot::Empty => 0,
            Slot::Solid(v) => v[c],
            Slot::Data(d) => d@[((y % 256) * 256 + x % 256) * 4 + c],
        }
    }

    /// Whether pixel `(x, y)` is in the image.
    pub open spec fn contains(&self, x: int, y: int) -> bool {
        0 <= x < self.width && 0 <= y < self.height
    }

    /// Whether pixel `(x, y)` counts as having alpha: it is in the image and
    /// its tile is solid, or stores an alpha above zero for it.
    pub open spec fn covered(&self, x: int, y: int) -> bool {
        &&& self.contains(x, y)
        &&& match self.slot(x / 256, y / 256) {
            Slot::Empty => false,
            Slot::Solid(_) => true,
            Slot::Data(d) => d@[((y % 256) * 256 + x % 256) * 4 + 3] > 0,
        }
    }
}

/// Row `ty + 1` of a grid `cols` wide starts `cols` slots after row `ty`.
pub proof fn lemma_next_row(ty: int, cols: int, rows: int)
    requires
        0 <= ty < rows,
        cols >= 0,
    ensures
        (ty + 1) * cols == ty * cols + cols,
        (ty + 1) * cols <= cols * rows,
        ty * cols >= 0,
{
    assert((ty + 1) * cols == ty * cols + cols) by (nonlinear_arith);
    assert((ty + 1) * cols <= cols * rows) by (nonlinear_arith)
        requires
            ty + 1 <= rows,
            cols >= 0,
    ;
    assert(ty * cols >= 0) by (nonlinear_arith)
        requires
            ty >= 0,
            cols >= 0,
    ;
}

/// Slot `ty · cols + tx` is in the grid.
pub proof fn lemma_slot_index(tx: int, ty: int, cols: int, rows: int)
    requires
        0 <= tx < cols,
        0 <= ty < rows,
    ensures
        0 <= ty * cols + tx < cols * rows,
        ty * cols + tx < rows * cols,
{
    assert(0 <= ty * cols + tx < cols * rows) by (nonlinear_arith)
        requires
            0 <= tx < cols,
            0 <= ty < rows,
    ;
    assert(cols * rows == rows * cols) by (nonlinear_arith);
}

} // verus!
