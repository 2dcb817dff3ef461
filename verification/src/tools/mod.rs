//! Viewport tools: which tool a UI tool id is, and the option-bar and
//! modifier readings the selection tools share.
use vstd::prelude::*;
use vstd::string::StringExecFns;

use crate::strings::{str_eq, strip_prefix};
use crate::tools::kinds::{registered, spec_registered};
use crate::{Modifiers, PointerKind};

pub mod bucket;
pub mod crop;
pub mod eyedropper;
pub mod gradient;
pub mod kinds;
pub mod lasso;
pub mod marquee;
pub mod move_tool;
pub mod paint;
pub mod patch;
pub mod pen;
pub mod shape;
pub mod transform;
pub mod type_tool;

verus! {

/// Which swatch a picked colour goes to (Alt with the eyedropper = background).
#[derive(Clone, Copy, Debug, PartialEq, Eq, Structural)]
pub enum ColorTarget {
    Foreground,
    Background,
}

impl ColorTarget {
    /// The `target` field of the UI's "colour picked" message.
    pub fn as_str(self) -> (s: &'static str)
        ensures
            self == ColorTarget::Foreground ==> s@ == "fg"@,
            self == ColorTarget::Background ==> s@ == "bg"@,
    {
        match self {
            ColorTarget::Foreground => "fg",
            ColorTarget::Background => "bg",
        }
    }
}

/// How a new selection combines with the one there.
#[derive(Clone, Copy, Debug, PartialEq, Eq, Structural)]
pub enum SelectMode {
    Replace,
    Add,
    Subtract,
    Intersect,
}

/// The mode a press asks for: Shift adds, Alt subtracts, Shift+Alt
/// intersects (Photoshop's modifiers), anything else is the option bar's Mode.
pub fn mode_at_press(modifiers: Modifiers, option: SelectMode) -> (mode: SelectMode)
    ensures
        mode == (if modifiers.shift && modifiers.alt {
            SelectMode::Intersect
        } else if modifiers.shift {
            SelectMode::Add
        } else if modifiers.alt {
            SelectMode::Subtract
        } else {
            option
        }),
{
    if modifiers.shift && modifiers.alt {
        SelectMode::Intersect
    } else if modifiers.shift {
        SelectMode::Add
    } else if modifiers.alt {
        SelectMode::Subtract
    } else {
        option
    }
}

/// The mode a wording of the Mode control names; New (Replace) otherwise.
pub open spec fn spec_mode_of_wording(wording: Seq<char>) -> SelectMode {
    if wording == "Add to selection"@ {
        SelectMode::Add
    } else if wording == "Subtract from selection"@ {
        SelectMode::Subtract
    } else if wording == "Intersect with selection"@ {
        SelectMode::Intersect
    } else {
        SelectMode::Replace
    }
}

/// The Selection Mode the option bar is set to. The bar's Mode control is a
/// button group, which reports its index (0 New, 1 Add, 2 Subtract,
/// 3 Intersect); a wording is accepted too, so the value survives the bar
/// being rebuilt as a drop-down. `index` is the control's value when it is
/// one of those whole numbers.
pub open spec fn spec_selection_mode(index: Option<u64>, wording: Option<Seq<char>>) -> SelectMode {
    match index {
        Some(0) => SelectMode::Replace,
        Some(1) => SelectMode::Add,
        Some(2) => SelectMode::Subtract,
        Some(3) => SelectMode::Intersect,
        _ => match wording {
            Some(w) => spec_mode_of_wording(w),
            None => SelectMode::Replace,
        },
    }
}

/// The selection mode of the option bar: its button index, else its wording.
pub fn selection_mode(index: Option<u64>, wording: Option<&str>) -> (mode: SelectMode)
    ensures
        mode == spec_selection_mode(
            index,
            match wording {
                Some(w) => Some(w@),
                None => None,
            },
        ),
{
    match index {
        Some(0) => SelectMode::Replace,
        Some(1) => SelectMode::Add,
        Some(2) => SelectMode::Subtract,
        Some(3) => SelectMode::Intersect,
        _ => match wording {
            Some(w) => if str_eq(w, "Add to selection") {
                SelectMode::Add
            } else if str_eq(w, "Subtract from selection") {
                SelectMode::Subtract
            } else if str_eq(w, "Intersect with selection") {
                SelectMode::Intersect
            } else {
                SelectMode::Replace
            },
            None => SelectMode::Replace,
        },
    }
}

/// The move an arrow key asks for: 1 px, 10 px with Shift.
pub open spec fn spec_nudge_step(key: Seq<char>) -> Option<(i32, i32)> {
    let shifted = "Shift+"@.is_prefix_of(key);
    let step: i32 = if shifted { 10 } else { 1 };
    let arrow = if shifted { key.skip("Shift+"@.len() as int) } else { key };
    if arrow == "ArrowLeft"@ {
        Some(((-step) as i32, 0))
    } else if arrow == "ArrowRight"@ {
        Some((step, 0))
    } else if arrow == "ArrowUp"@ {
        Some((0, (-step) as i32))
    } else if arrow == "ArrowDown"@ {
        Some((0, step))
    } else {
        None
    }
}

/// The arrow keys move the selection outline by 1 px, Shift+arrow by 10 px
/// (Photoshop, with a selection tool active). `None` for any other key.
pub fn nudge_step(key: &str) -> (delta: Option<(i32, i32)>)
    ensures
        delta == spec_nudge_step(key@),
{
    let (step, arrow): (i32, &str) = match strip_prefix(key, "Shift+") {
        Some(arrow) => (10, arrow),
        None => (1, key),
    };
    if str_eq(arrow, "ArrowLeft") {
        Some((-step, 0))
    } else if str_eq(arrow, "ArrowRight") {
        Some((step, 0))
    } else if str_eq(arrow, "ArrowUp") {
        Some((0, -step))
    } else if str_eq(arrow, "ArrowDown") {
        Some((0, step))
    } else {
        None
    }
}

/// A key is `Shift+` and an arrow exactly when it was written so.
proof fn lemma_shifted_key(shift: bool, arrow: Seq<char>)
    requires
        arrow.len() >= 7,
        arrow[0] == 'A',
    ensures
        ({
            let key = if shift { "Shift+"@ + arrow } else { arrow };
            &&& "Shift+"@.is_prefix_of(key) == shift
            &&& shift ==> key.skip("Shift+"@.len() as int) == arrow
        }),
{
    reveal_strlit("Shift+");
    if shift {
        let key = "Shift+"@ + arrow;
        assert(key.subrange(0, 6) =~= "Shift+"@);
        assert(key.skip(6) =~= arrow);
    } else {
        assert(arrow[0] != "Shift+"@[0]);
    }
}

/// The arrow keys nudge the way they point, by the same distance: Up moves
/// up (y grows downwards) and Down as far down, Left as far left as Right
/// goes right; 1 px plain, 10 px with Shift.
pub proof fn law_arrows_nudge_the_way_they_point(shift: bool)
    ensures
        ({
            let d: i32 = if shift { 10 } else { 1 };
            let key = |arrow: Seq<char>| if shift { "Shift+"@ + arrow } else { arrow };
            &&& spec_nudge_step(key("ArrowUp"@)) == Some((0i32, -d as i32))
            &&& spec_nudge_step(key("ArrowDown"@)) == Some((0i32, d))
            &&& spec_nudge_step(key("ArrowLeft"@)) == Some((-d as i32, 0i32))
            &&& spec_nudge_step(key("ArrowRight"@)) == Some((d, 0i32))
        }),
{
    reveal_strlit("ArrowUp");
    reveal_strlit("ArrowDown");
    reveal_strlit("ArrowLeft");
    reveal_strlit("ArrowRight");
    lemma_shifted_key(shift, "ArrowUp"@);
    lemma_shifted_key(shift, "ArrowDown"@);
    lemma_shifted_key(shift, "ArrowLeft"@);
    lemma_shifted_key(shift, "ArrowRight"@);
    assert("ArrowUp"@ != "ArrowLeft"@);
    assert("ArrowUp"@ != "ArrowRight"@);
    assert("ArrowDown"@ != "ArrowLeft"@) by {
        assert("ArrowDown"@[5] != "ArrowLeft"@[5]);
    }
    assert("ArrowDown"@ != "ArrowRight"@);
    assert("ArrowDown"@ != "ArrowUp"@);
    assert("ArrowLeft"@ != "ArrowRight"@);
}

/// The tool a UI tool id is.
#[derive(Clone, Copy, Debug, PartialEq, Eq, Structural)]
pub enum ToolKind {
    Eyedropper,
    Crop,
    Marquee(marquee::Shape),
    Lasso(lasso::Kind),
    MagicWand,
    Paint(paint::Kind),
    Shape(shape::Kind),
    PathSelect,
    Type,
    Move,
    /// Known but not implemented yet: it says so in a toast.
    NotYet,
    /// A click tool: the Paint Bucket.
    PaintBucket,
    /// A click tool: the Magic Eraser.
    MagicEraser,
    /// A drag tool: the Gradient.
    Gradient,
    /// A click tool: Red Eye.
    RedEye,
}

/// The painting tools, by UI tool id.
pub open spec fn spec_paint_tool(id: Seq<char>) -> Option<paint::Kind> {
    if id == "brush"@ {
        Some(paint::Kind::Brush)
    } else if id == "pencil"@ {
        Some(paint::Kind::Pencil)
    } else if id == "eraser"@ {
        Some(paint::Kind::Eraser)
    } else if id == "clone"@ {
        Some(paint::Kind::Clone)
    } else if id == "heal-brush"@ {
        Some(paint::Kind::Heal)
    } else if id == "heal"@ {
        Some(paint::Kind::SpotHeal)
    } else if id == "eraser-bg"@ {
        Some(paint::Kind::BgEraser)
    } else if id == "dodge"@ {
        Some(paint::Kind::Dodge)
    } else if id == "burn"@ {
        Some(paint::Kind::Burn)
    } else if id == "sponge"@ {
        Some(paint::Kind::Sponge)
    } else if id == "blur"@ {
        Some(paint::Kind::Blur)
    } else if id == "sharpen"@ {
        Some(paint::Kind::Sharpen)
    } else if id == "smudge"@ {
        Some(paint::Kind::Smudge)
    } else if id == "pattern-stamp"@ {
        Some(paint::Kind::PatternStamp)
    } else if id == "history-brush"@ {
        Some(paint::Kind::HistoryBrush)
    } else if id == "art-history"@ {
        Some(paint::Kind::ArtHistory)
    } else if id == "color-replace"@ {
        Some(paint::Kind::ColorReplace)
    } else {
        None
    }
}

/// Whether the id is a tool Fotox knows but has not implemented.
pub open spec fn spec_not_yet(id: Seq<char>) -> bool {
    id == "quick-select"@ || id == "object-select"@ || id == "lasso-magnet"@ || id
        == "shape-custom"@ || id == "shape-3d"@
}

/// The tool a UI tool id maps to, or `None` for an id Fotox does not know.
pub open spec fn spec_tool_of(id: Seq<char>) -> Option<ToolKind> {
    if id == "eyedropper"@ {
        Some(ToolKind::Eyedropper)
    } else if id == "crop"@ {
        Some(ToolKind::Crop)
    } else if id == "marquee"@ {
        Some(ToolKind::Marquee(marquee::Shape::Rect))
    } else if id == "marquee-ellipse"@ {
        Some(ToolKind::Marquee(marquee::Shape::Ellipse))
    } else if id == "marquee-row"@ {
        Some(ToolKind::Marquee(marquee::Shape::Row))
    } else if id == "marquee-col"@ {
        Some(ToolKind::Marquee(marquee::Shape::Column))
    } else if id == "lasso"@ {
        Some(ToolKind::Lasso(lasso::Kind::Freehand))
    } else if id == "lasso-poly"@ {
        Some(ToolKind::Lasso(lasso::Kind::Polygonal))
    } else if id == "magic-wand"@ {
        Some(ToolKind::MagicWand)
    } else if spec_paint_tool(id) is Some {
        Some(ToolKind::Paint(spec_paint_tool(id)->0))
    } else if id == "shape"@ {
        Some(ToolKind::Shape(shape::Kind::Rect))
    } else if id == "shape-rounded"@ {
        Some(ToolKind::Shape(shape::Kind::Rounded))
    } else if id == "shape-ellipse"@ {
        Some(ToolKind::Shape(shape::Kind::Ellipse))
    } else if id == "shape-polygon"@ {
        Some(ToolKind::Shape(shape::Kind::Polygon))
    } else if id == "shape-line"@ {
        Some(ToolKind::Shape(shape::Kind::Line))
    } else if id == "path-select"@ {
        Some(ToolKind::PathSelect)
    } else if id == "type"@ {
        Some(ToolKind::Type)
    } else if id == "move"@ {
        Some(ToolKind::Move)
    } else if spec_not_yet(id) {
        Some(ToolKind::NotYet)
    } else {
        spec_registered(id)
    }
}


/// The painting tool a UI tool id is.
fn paint_tool(id: &str) -> (kind: Option<paint::Kind>)
    ensures
        kind == spec_paint_tool(id@),
{
    if str_eq(id, "brush") {
        Some(paint::Kind::Brush)
    } else if str_eq(id, "pencil") {
        Some(paint::Kind::Pencil)
    } else if str_eq(id, "eraser") {
        Some(paint::Kind::Eraser)
    } else if str_eq(id, "clone") {
        Some(paint::Kind::Clone)
    } else if str_eq(id, "heal-brush") {
        Some(paint::Kind::Heal)
    } else if str_eq(id, "heal") {
        Some(paint::Kind::SpotHeal)
    } else if str_eq(id, "eraser-bg") {
        Some(paint::Kind::BgEraser)
    } else if str_eq(id, "dodge") {
        Some(paint::Kind::Dodge)
    } else if str_eq(id, "burn") {
        Some(paint::Kind::Burn)
    } else if str_eq(id, "sponge") {
        Some(paint::Kind::Sponge)
    } else if str_eq(id, "blur") {
        Some(paint::Kind::Blur)
    } else if str_eq(id, "sharpen") {
        Some(paint::Kind::Sharpen)
    } else if str_eq(id, "smudge") {
        Some(paint::Kind::Smudge)
    } else if str_eq(id, "pattern-stamp") {
        Some(paint::Kind::PatternStamp)
    } else if str_eq(id, "history-brush") {
        Some(paint::Kind::HistoryBrush)
    } else if str_eq(id, "art-history") {
        Some(paint::Kind::ArtHistory)
    } else if str_eq(id, "color-replace") {
        Some(paint::Kind::ColorReplace)
    } else {
        None
    }
}

/// The tool a UI tool id maps to, or `None` for an id Fotox does not know
/// at all. A tool that is not implemented yet maps to [`ToolKind::NotYet`],
/// which says so in a toast instead of silently ignoring the pointer.
pub fn tool_of(id: &str) -> (kind: Option<ToolKind>)
    ensures
        kind == spec_tool_of(id@),
{
    if str_eq(id, "eyedropper") {
        return Some(ToolKind::Eyedropper);
    }
    if str_eq(id, "crop") {
        return Some(ToolKind::Crop);
    }
    if str_eq(id, "marquee") {
        return Some(ToolKind::Marquee(marquee::Shape::Rect));
    }
    if str_eq(id, "marquee-ellipse") {
        return Some(ToolKind::Marquee(marquee::Shape::Ellipse));
    }
    if str_eq(id, "marquee-row") {
        return Some(ToolKind::Marquee(marquee::Shape::Row));
    }
    if str_eq(id, "marquee-col") {
        return Some(ToolKind::Marquee(marquee::Shape::Column));
    }
    if str_eq(id, "lasso") {
        return Some(ToolKind::Lasso(lasso::Kind::Freehand));
    }
    if str_eq(id, "lasso-poly") {
        return Some(ToolKind::Lasso(lasso::Kind::Polygonal));
    }
    if str_eq(id, "magic-wand") {
        return Some(ToolKind::MagicWand);
    }
    if let Some(kind) = paint_tool(id) {
        return Some(ToolKind::Paint(kind));
    }
    if str_eq(id, "shape") {
        return Some(ToolKind::Shape(shape::Kind::Rect));
    }
    if str_eq(id, "shape-rounded") {
        return Some(ToolKind::Shape(shape::Kind::Rounded));
    }
    if str_eq(id, "shape-ellipse") {
        return Some(ToolKind::Shape(shape::Kind::Ellipse));
    }
    if str_eq(id, "shape-polygon") {
        return Some(ToolKind::Shape(shape::Kind::Polygon));
    }
    if str_eq(id, "shape-line") {
        return Some(ToolKind::Shape(shape::Kind::Line));
    }
    if str_eq(id, "path-select") {
        return Some(ToolKind::PathSelect);
    }
    if str_eq(id, "type") {
        return Some(ToolKind::Type);
    }
    if str_eq(id, "move") {
        return Some(ToolKind::Move);
    }
    if str_eq(id, "quick-select") || str_eq(id, "object-select") || str_eq(id, "lasso-magnet")
        || str_eq(id, "shape-custom") || str_eq(id, "shape-3d") {
        return Some(ToolKind::NotYet);
    }
    registered(id)
}

/// The Photoshop name of a tool that is not implemented, for the toast.
pub open spec fn spec_not_yet_name(id: Seq<char>) -> Seq<char> {
    if id == "quick-select"@ {
        "Quick Selection"@
    } else if id == "object-select"@ {
        "Object Selection"@
    } else if id == "lasso-magnet"@ {
        "Magnetic Lasso"@
    } else if id == "shape-custom"@ {
        "Custom Shape"@
    } else if id == "shape-3d"@ {
        "3D Object"@
    } else {
        "This tool"@
    }
}

/// The Photoshop name of a tool that is not implemented, for the toast.
pub fn not_yet_name(id: &str) -> (name: &'static str)
    ensures
        name@ == spec_not_yet_name(id@),
{
    if str_eq(id, "quick-select") {
        "Quick Selection"
    } else if str_eq(id, "object-select") {
        "Object Selection"
    } else if str_eq(id, "lasso-magnet") {
        "Magnetic Lasso"
    } else if str_eq(id, "shape-custom") {
        "Custom Shape"
    } else if str_eq(id, "shape-3d") {
        "3D Object"
    } else {
        "This tool"
    }
}

/// What a tool that is not implemented yet says for a pointer event: a
/// toast on the press only, so a drag does not spam toasts.
pub fn not_yet_message(id: &str, kind: PointerKind) -> (info: Option<String>)
    ensures
        kind != PointerKind::Down ==> info is None,
        kind == PointerKind::Down ==> (info matches Some(text) && text@ == spec_not_yet_name(id@)
            + " is not implemented yet"@),
{
    if kind != PointerKind::Down {
        return None;
    }
    let mut text = String::from_str(not_yet_name(id));
    text.append(" is not implemented yet");
    Some(text)
}

} // verus!
