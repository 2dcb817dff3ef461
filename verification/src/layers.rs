//! The document's layer tree as the Layers panel draws it.
//!
//! A document stores its layers **bottom → top** (the order the compositor
//! blends in), and a group's children likewise. The panel draws the other
//! way round, so every sibling list is walked back to front. A group's row
//! comes *before* its children's rows (the panel shows the group above
//! them), which is what makes the flat list and the depths a complete tree.
//! Only structure, names, blend modes and flags are read: one row per layer.
use vstd::prelude::*;

verus! {

/// What a layer is, as the panel shows it.
#[derive(Clone, Copy, Debug, PartialEq, Eq, Structural)]
pub enum Kind {
    Pixel,
    Group,
    Adjustment,
    SolidFill,
    Shape,
    Text,
    FillLayer,
}

/// A layer of the tree: what the panel reads of it. `expanded` and
/// `children` (bottom → top) mean something for groups only.
pub struct Layer {
    pub id: u64,
    pub name: String,
    pub kind: Kind,
    /// The blend mode by its key (`normal`, `multiply`, …).
    pub blend: String,
    pub visible: bool,
    pub clipped: bool,
    pub has_mask: bool,
    pub locked_pixels: bool,
    pub locked_position: bool,
    pub locked_transparency: bool,
    pub expanded: bool,
    pub children: Vec<Layer>,
}

/// One row of the panel.
pub struct PanelRow {
    pub id: u64,
    pub name: String,
    pub kind: Kind,
    /// The blend mode by its key (`normal`, `multiply`, …).
    pub blend: String,
    /// Group nesting level: 0 for root layers, one more per group.
    pub depth: u32,
    pub visible: bool,
    pub clipped: bool,
    /// A mask is there (enabled or not).
    pub has_mask: bool,
    /// Locked in some way: pixels, position or transparency.
    pub locked: bool,
    pub locked_pixels: bool,
    pub locked_transparency: bool,
    pub locked_position: bool,
    /// An expanded group (never set for anything else).
    pub expanded: bool,
    pub selected: bool,
}

/// The row of `layer` at `depth`.
pub open spec fn row_of(layer: Layer, depth: int, selected: Seq<u64>) -> PanelRow {
    PanelRow {
        id: layer.id,
        name: layer.name,
        kind: layer.kind,
        blend: layer.blend,
        depth: depth as u32,
        visible: layer.visible,
        clipped: layer.clipped,
        has_mask: layer.has_mask,
        locked: layer.locked_pixels || layer.locked_position || layer.locked_transparency,
        locked_pixels: layer.locked_pixels,
        locked_transparency: layer.locked_transparency,
        locked_position: layer.locked_position,
        expanded: layer.kind == Kind::Group && layer.expanded,
        selected: selected.contains(layer.id),
    }
}

/// The panel rows of the sibling list `layers` (bottom → top) at `depth`:
/// the top layer's row, then its children's rows one level deeper, then
/// the rows of the layers below it.
pub open spec fn rows(layers: Seq<Layer>, depth: int, selected: Seq<u64>) -> Seq<PanelRow>
    decreases layers,
{
    if layers.len() == 0 {
        Seq::empty()
    } else {
        let top = layers.last();
        proof {
            assert(decreases_to!(layers => layers[layers.len() - 1]));
            assert(decreases_to!(top => top.children));
        }
        let below = if top.kind == Kind::Group {
            proof {
                assert(decreases_to!(top.children => top.children@));
            }
            rows(top.children@, depth + 1, selected)
        } else {
            Seq::empty()
        };
        seq![row_of(top, depth, selected)] + below + rows(
            layers.drop_last(),
            depth,
            selected,
        )
    }
}

/// Every depth the rows of `layers` at `depth` get fits in a `u32`.
pub open spec fn depths_fit(layers: Seq<Layer>, depth: int) -> bool
    decreases layers,
{
    if layers.len() == 0 {
        true
    } else {
        let top = layers.last();
        proof {
            assert(decreases_to!(layers => layers[layers.len() - 1]));
            assert(decreases_to!(top => top.children));
        }
        let below = if top.kind == Kind::Group {
            proof {
                assert(decreases_to!(top.children => top.children@));
            }
            depths_fit(top.children@, depth + 1)
        } else {
            true
        };
        0 <= depth <= u32::MAX && below && depths_fit(layers.drop_last(), depth)
    }
}

/// The number of layers in `layers`, counting every group's contents.
pub open spec fn count(layers: Seq<Layer>) -> nat
    decreases layers,
{
    if layers.len() == 0 {
        0
    } else {
        let top = layers.last();
        proof {
            assert(decreases_to!(layers => layers[layers.len() - 1]));
            assert(decreases_to!(top => top.children));
        }
        let below = if top.kind == Kind::Group {
            proof {
                assert(decreases_to!(top.children => top.children@));
            }
            count(top.children@)
        } else {
            0
        };
        1 + below + count(layers.drop_last())
    }
}

/// The rows of two sibling lists one above the other: the upper list's
/// rows come first.
proof fn lemma_rows_append(a: Seq<Layer>, b: Seq<Layer>, depth: int, selected: Seq<u64>)
    ensures
        rows(a + b, depth, selected) == rows(b, depth, selected) + rows(a, depth, selected),
        depths_fit(a + b, depth) == (depths_fit(a, depth) && depths_fit(b, depth)),
        count(a + b) == count(a) + count(b),
    decreases b.len(),
{
    if b.len() == 0 {
        assert(a + b =~= a);
        assert(rows(b, depth, selected) =~= Seq::<PanelRow>::empty());
        assert(rows(a + b, depth, selected) =~= rows(b, depth, selected) + rows(a, depth, selected));
    } else {
        let ab = a + b;
        assert(ab.last() == b.last());
        assert(ab.drop_last() =~= a + b.drop_last());
        lemma_rows_append(a, b.drop_last(), depth, selected);
        let top = b.last();
        let below = if top.kind == Kind::Group {
            rows(top.children@, depth + 1, selected)
        } else {
            Seq::empty()
        };
        assert(rows(ab, depth, selected) =~= seq![row_of(top, depth, selected)] + below + (rows(
            b.drop_last(),
            depth,
            selected,
        ) + rows(a, depth, selected)));
        assert(rows(ab, depth, selected) =~= rows(b, depth, selected) + rows(a, depth, selected));
    }
}

/// One row per layer: the panel's list is exactly as long as the tree has
/// layers, groups and their contents included.
pub proof fn law_one_row_per_layer(layers: Seq<Layer>, depth: int, selected: Seq<u64>)
    ensures
        rows(layers, depth, selected).len() == count(layers),
    decreases layers,
{
    if layers.len() > 0 {
        let top = layers.last();
        assert(decreases_to!(layers => layers[layers.len() - 1]));
        if top.kind == Kind::Group {
            assert(decreases_to!(top.children => top.children@));
            law_one_row_per_layer(top.children@, depth + 1, selected);
        }
        law_one_row_per_layer(layers.drop_last(), depth, selected);
    }
}

/// A row shows its layer: its id, name, kind, blend mode, visibility,
/// clipping and mask as the layer has them, its depth, each lock as the
/// layer has it and the lock icon lit exactly when the layer has a lock of
/// any kind (pixels, position or transparency), expanded only for an
/// expanded group, and selected exactly when its id is among `selected`.
pub proof fn law_a_row_shows_the_layers_locks(layer: Layer, depth: int, selected: Seq<u64>)
    ensures
        row_of(layer, depth, selected).id == layer.id,
        row_of(layer, depth, selected).name == layer.name,
        row_of(layer, depth, selected).kind == layer.kind,
        row_of(layer, depth, selected).blend == layer.blend,
        row_of(layer, depth, selected).depth == depth as u32,
        row_of(layer, depth, selected).visible == layer.visible,
        row_of(layer, depth, selected).clipped == layer.clipped,
        row_of(layer, depth, selected).has_mask == layer.has_mask,
        row_of(layer, depth, selected).expanded == (layer.kind == Kind::Group && layer.expanded),
        row_of(layer, depth, selected).selected == selected.contains(layer.id),
        row_of(layer, depth, selected).locked == (layer.locked_pixels || layer.locked_position
            || layer.locked_transparency),
        row_of(layer, depth, selected).locked_pixels == layer.locked_pixels,
        row_of(layer, depth, selected).locked_position == layer.locked_position,
        row_of(layer, depth, selected).locked_transparency == layer.locked_transparency,
{
}

/// In every row of the panel the lock icon is lit exactly when one of the
/// row's three locks is set.
pub proof fn law_every_row_lights_the_lock_for_any_lock(layers: Seq<Layer>, depth: int, selected: Seq<u64>)
    ensures
        forall|k: int|
            0 <= k < rows(layers, depth, selected).len() ==> (#[trigger] rows(layers, depth, selected)[k]).locked
                == (rows(layers, depth, selected)[k].locked_pixels || rows(layers, depth, selected)[k].locked_position
                || rows(layers, depth, selected)[k].locked_transparency),
    decreases layers,
{
    if layers.len() > 0 {
        let top = layers.last();
        assert(decreases_to!(layers => layers[layers.len() - 1]));
        let below = if top.kind == Kind::Group {
            assert(decreases_to!(top.children => top.children@));
            law_every_row_lights_the_lock_for_any_lock(top.children@, depth + 1, selected);
            rows(top.children@, depth + 1, selected)
        } else {
            Seq::empty()
        };
        law_every_row_lights_the_lock_for_any_lock(layers.drop_last(), depth, selected);
        law_a_row_shows_the_layers_locks(top, depth, selected);
        let rest = rows(layers.drop_last(), depth, selected);
        let all = rows(layers, depth, selected);
        assert(all == seq![row_of(top, depth, selected)] + below + rest);
        assert forall|k: int| 0 <= k < all.len() implies (#[trigger] all[k]).locked == (all[k].locked_pixels
            || all[k].locked_position || all[k].locked_transparency) by {
            if k == 0 {
            } else if k < 1 + below.len() {
                assert(all[k] == below[k - 1]);
            } else {
                assert(all[k] == rest[k - 1 - below.len()]);
            }
        }
    }
}

/// Whether `id` is one of `ids`.
fn contains_id(ids: &Vec<u64>, id: u64) -> (found: bool)
    ensures
        found == ids@.contains(id),
{
    let mut i: usize = 0;
    while i < ids.len()
        invariant
            i <= ids@.len(),
            forall|j: int| 0 <= j < i ==> ids@[j] != id,
        decreases ids@.len() - i,
    {
        if ids[i] == id {
            return true;
        }
        i = i + 1;
    }
    false
}

/// The row of `layer` at `depth`.
fn layer_row(layer: &Layer, depth: u32, selected: &Vec<u64>) -> (row: PanelRow)
    ensures
        row == row_of(*layer, depth as int, selected@),
{
    PanelRow {
        id: layer.id,
        name: layer.name.clone(),
        kind: layer.kind,
        blend: layer.blend.clone(),
        depth,
        visible: layer.visible,
        clipped: layer.clipped,
        has_mask: layer.has_mask,
        locked: layer.locked_pixels || layer.locked_position || layer.locked_transparency,
        locked_pixels: layer.locked_pixels,
        locked_transparency: layer.locked_transparency,
        locked_position: layer.locked_position,
        expanded: layer.kind == Kind::Group && layer.expanded,
        selected: contains_id(selected, layer.id),
    }
}

/// Append the rows of `layers` (bottom → top) at `depth`: top-first, each
/// group followed by its children one level deeper.
fn flatten(layers: &Vec<Layer>, depth: u32, selected: &Vec<u64>, out: &mut Vec<PanelRow>)
    requires
        depths_fit(layers@, depth as int),
    ensures
        final(out)@ == old(out)@ + rows(layers@, depth as int, selected@),
    decreases layers@,
{
    let n = layers.len();
    let mut i: usize = n;
    proof {
        assert(layers@.subrange(0, n as int) =~= layers@);
        assert(layers@.subrange(n as int, n as int) =~= Seq::<Layer>::empty());
        assert(out@ =~= old(out)@ + rows(layers@.subrange(i as int, n as int), depth as int, selected@));
    }
    while i > 0
        invariant
            n == layers@.len(),
            i <= n,
            depths_fit(layers@.subrange(0, i as int), depth as int),
            out@ == old(out)@ + rows(layers@.subrange(i as int, n as int), depth as int, selected@),
        decreases i,
    {
        let ghost done = layers@.subrange(i as int, n as int);
        let ghost prefix = layers@.subrange(0, i as int);
        i = i - 1;
        let layer = &layers[i];
        proof {
            assert(prefix.last() == layers@[i as int]);
            assert(prefix.drop_last() =~= layers@.subrange(0, i as int));
            assert(layers@.subrange(i as int, n as int) =~= seq![layers@[i as int]] + done);
            lemma_rows_append(seq![layers@[i as int]], done, depth as int, selected@);
            let one = seq![layers@[i as int]];
            assert(one.drop_last() =~= Seq::<Layer>::empty());
            assert(one.last() == layers@[i as int]);
        }
        out.push(layer_row(layer, depth, selected));
        if layer.kind == Kind::Group && layer.children.len() > 0 {
            proof {
                assert(decreases_to!(layers@ => layers@[i as int]));
                assert(decreases_to!(layers@[i as int] => layers@[i as int].children));
                assert(decreases_to!(layers@[i as int].children => layers@[i as int].children@));
                assert(depths_fit(prefix, depth as int));
                assert(depths_fit(layer.children@, depth + 1));
                assert(depth + 1 <= u32::MAX);
            }
            flatten(&layer.children, depth + 1, selected, out);
        }
        proof {
            let one = seq![layers@[i as int]];
            let below = if layer.kind == Kind::Group {
                rows(layer.children@, depth + 1, selected@)
            } else {
                Seq::<PanelRow>::empty()
            };
            if layer.children@.len() == 0 {
                assert(rows(layer.children@, depth + 1, selected@) =~= Seq::<PanelRow>::empty());
            }
            assert(rows(one, depth as int, selected@) =~= seq![row_of(*layer, depth as int, selected@)] + below + rows(
                one.drop_last(),
                depth as int,
                selected@,
            ));
            assert(out@ =~= old(out)@ + rows(layers@.subrange(i as int, n as int), depth as int, selected@));
        }
    }
    proof {
        assert(layers@.subrange(0, n as int) =~= layers@);
    }
}

/// The panel's rows for the document's root layers `layers` (bottom → top)
/// and its selected layer ids: top → bottom, each group immediately
/// followed by its children, `depth` the nesting level.
pub fn layer_infos(layers: &Vec<Layer>, selected: &Vec<u64>) -> (infos: Vec<PanelRow>)
    requires
        depths_fit(layers@, 0),
    ensures
        infos@ == rows(layers@, 0, selected@),
{
    let mut out: Vec<PanelRow> = Vec::new();
    flatten(layers, 0, selected, &mut out);
    proof {
        assert(out@ =~= rows(layers@, 0, selected@));
    }
    out
}

} // verus!
