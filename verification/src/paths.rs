//! The Paths panel's actions and Layer ▸ Vector Mask: which command an
//! action id asks for, given its arguments and the little document state
//! the choice reads.
use vstd::prelude::*;
use vstd::string::StringExecFns;

use crate::strings::{str_eq, strip_prefix};
use crate::tools::SelectMode;

verus! {

/// A path of the document: the Work Path or a saved path by its index.
#[derive(Clone, Copy, Debug, PartialEq, Eq, Structural)]
pub enum PathTarget {
    Work,
    Saved(usize),
}

/// The brush engine's tool for Stroke Path.
#[derive(Clone, Copy, Debug, PartialEq, Eq, Structural)]
pub enum StrokeTool {
    Brush,
    Pencil,
    Eraser,
}

/// One of the two colours of the tool bar.
#[derive(Clone, Copy, Debug, PartialEq, Eq, Structural)]
pub enum Swatch {
    Foreground,
    Background,
}

/// What Fill Path fills with.
#[derive(Clone, Copy, Debug, PartialEq, Eq, Structural)]
pub enum FillSource {
    /// The pattern of the library by its id.
    Pattern(u64),
    Color(Swatch),
}

/// The plain-value arguments of a Paths panel action (those that are not
/// numbers with a fraction, which the caller reads itself).
#[derive(Debug, PartialEq, Eq)]
pub struct PathArgs {
    /// The path the action is for.
    pub target: Option<PathTarget>,
    /// Stroke Path: the painting tool whose options make the brush.
    pub tool: Option<String>,
    /// Stroke Path: whether to simulate pressure.
    pub pressure: Option<bool>,
    /// Fill Path: what to fill with (`Pattern`, `Background Colour`, …).
    pub fill_with: Option<String>,
    /// Make Selection: `add`, `subtract`, `intersect` or else replace.
    pub mode: Option<String>,
    /// Save Path and Rename Path: the name.
    pub name: Option<String>,
}

/// The command a Paths panel action sends.
#[derive(Debug, PartialEq, Eq)]
pub enum PathAction {
    /// Stroke the path with the options of the tool named `tool`, drawn as
    /// `kind` in `color`.
    Stroke { target: PathTarget, tool: String, kind: StrokeTool, color: Swatch, pressure: bool },
    Fill { target: PathTarget, source: FillSource },
    /// Make Selection (its feather is read by the caller).
    ToSelection { target: PathTarget, mode: SelectMode },
    /// Make Work Path from the selection (its tolerance is read by the
    /// caller).
    FromSelection,
    /// Save the Work Path under `name`.
    Save { name: String },
    /// A new empty path, appended after the saved ones.
    New { target: PathTarget },
    Delete { target: PathTarget },
    Rename { index: usize, name: String },
    /// Make `path` the active path (none: deselect).
    Select { path: Option<PathTarget> },
    /// A known action with nothing to send (renaming the Work Path).
    Nothing,
}

/// The path an action is for: the one its arguments name, else the active
/// path, else the Work Path.
pub open spec fn target_for(args: PathArgs, active: Option<PathTarget>) -> PathTarget {
    match args.target {
        Some(t) => t,
        None => match active {
            Some(t) => t,
            None => PathTarget::Work,
        },
    }
}

/// A string argument as text, or `default` when it is missing.
pub open spec fn text_or(arg: Option<String>, default: Seq<char>) -> Seq<char> {
    match arg {
        Some(s) => s@,
        None => default,
    }
}

/// Whether a string argument is present and reads `text`.
pub open spec fn reads(arg: Option<String>, text: Seq<char>) -> bool {
    arg matches Some(s) && s@ == text
}

/// The brush engine's tool and colour for a painting tool's name: the
/// pencil in the foreground colour, the eraser in the background colour,
/// any other tool as the brush in the foreground colour.
pub open spec fn stroke_kind(tool: Seq<char>) -> (StrokeTool, Swatch) {
    if tool == "pencil"@ {
        (StrokeTool::Pencil, Swatch::Foreground)
    } else if tool == "eraser"@ {
        (StrokeTool::Eraser, Swatch::Background)
    } else {
        (StrokeTool::Brush, Swatch::Foreground)
    }
}

/// What Fill Path fills with: the current pattern when asked for one and
/// there is one, the background colour when asked for it, else the
/// foreground colour.
pub open spec fn fill_source(fill_with: Option<String>, pattern: Option<u64>) -> FillSource {
    if reads(fill_with, "Pattern"@) && pattern is Some {
        FillSource::Pattern(pattern->0)
    } else if reads(fill_with, "Background Colour"@) {
        FillSource::Color(Swatch::Background)
    } else {
        FillSource::Color(Swatch::Foreground)
    }
}

/// How Make Selection combines with the selection.
pub open spec fn selection_mode_of(mode: Option<String>) -> SelectMode {
    if reads(mode, "add"@) {
        SelectMode::Add
    } else if reads(mode, "subtract"@) {
        SelectMode::Subtract
    } else if reads(mode, "intersect"@) {
        SelectMode::Intersect
    } else {
        SelectMode::Replace
    }
}

/// Whether `action` is what the Paths panel action `id` sends, with
/// arguments `args`, active path `active`, `saved` saved paths and the
/// library's current pattern `pattern`; `None` for an id that is not one of
/// the panel's actions.
pub open spec fn is_path_action(
    action: Option<PathAction>,
    id: Seq<char>,
    args: PathArgs,
    active: Option<PathTarget>,
    saved: usize,
    pattern: Option<u64>,
) -> bool {
    let target = target_for(args, active);
    if id == "path:stroke"@ {
        let tool = text_or(args.tool, "brush"@);
        &&& action matches Some(PathAction::Stroke { target: t, tool: name, kind, color, pressure })
        &&& t == target && name@ == tool && (kind, color) == stroke_kind(tool)
        &&& pressure == match args.pressure {
            Some(p) => p,
            None => false,
        }
    } else if id == "path:fill"@ {
        action == Some(PathAction::Fill { target, source: fill_source(args.fill_with, pattern) })
    } else if id == "path:to-selection"@ {
        action == Some(PathAction::ToSelection { target, mode: selection_mode_of(args.mode) })
    } else if id == "path:from-selection"@ {
        action == Some(PathAction::FromSelection)
    } else if id == "path:save"@ {
        action matches Some(PathAction::Save { name }) && name@ == text_or(args.name, ""@)
    } else if id == "path:new"@ {
        action == Some(PathAction::New { target: PathTarget::Saved(saved) })
    } else if id == "path:delete"@ {
        action == Some(PathAction::Delete { target })
    } else if id == "path:rename"@ {
        match target {
            PathTarget::Saved(index) => action matches Some(PathAction::Rename { index: i, name }) && i
                == index && name@ == text_or(args.name, ""@),
            PathTarget::Work => action == Some(PathAction::Nothing),
        }
    } else if id == "path:select"@ {
        action == Some(PathAction::Select { path: args.target })
    } else {
        action is None
    }
}

/// A string argument, or `default` when it is missing.
fn string_or(arg: &Option<String>, default: &str) -> (s: String)
    ensures
        s@ == text_or(*arg, default@),
{
    match arg {
        Some(s) => s.clone(),
        None => String::from_str(default),
    }
}

/// Whether a string argument is present and reads `text`.
fn arg_reads(arg: &Option<String>, text: &str) -> (r: bool)
    ensures
        r == reads(*arg, text@),
{
    match arg {
        Some(s) => str_eq(s.as_str(), text),
        None => false,
    }
}

/// The command the Paths panel action `id` sends (see [`is_path_action`]),
/// or `None` when `id` is not one of the panel's actions.
pub fn path_action(
    id: &str,
    args: &PathArgs,
    active: Option<PathTarget>,
    saved: usize,
    pattern: Option<u64>,
) -> (action: Option<PathAction>)
    ensures
        is_path_action(action, id@, *args, active, saved, pattern),
{
    let target = match args.target {
        Some(t) => t,
        None => match active {
            Some(t) => t,
            None => PathTarget::Work,
        },
    };
    if str_eq(id, "path:stroke") {
        let tool = string_or(&args.tool, "brush");
        let (kind, color) = if str_eq(tool.as_str(), "pencil") {
            (StrokeTool::Pencil, Swatch::Foreground)
        } else if str_eq(tool.as_str(), "eraser") {
            (StrokeTool::Eraser, Swatch::Background)
        } else {
            (StrokeTool::Brush, Swatch::Foreground)
        };
        let pressure = match args.pressure {
            Some(p) => p,
            None => false,
        };
        Some(PathAction::Stroke { target, tool, kind, color, pressure })
    } else if str_eq(id, "path:fill") {
        let source = if arg_reads(&args.fill_with, "Pattern") && pattern.is_some() {
            FillSource::Pattern(pattern.unwrap())
        } else if arg_reads(&args.fill_with, "Background Colour") {
            FillSource::Color(Swatch::Background)
        } else {
            FillSource::Color(Swatch::Foreground)
        };
        Some(PathAction::Fill { target, source })
    } else if str_eq(id, "path:to-selection") {
        let mode = if arg_reads(&args.mode, "add") {
            SelectMode::Add
        } else if arg_reads(&args.mode, "subtract") {
            SelectMode::Subtract
        } else if arg_reads(&args.mode, "intersect") {
            SelectMode::Intersect
        } else {
            SelectMode::Replace
        };
        Some(PathAction::ToSelection { target, mode })
    } else if str_eq(id, "path:from-selection") {
        Some(PathAction::FromSelection)
    } else if str_eq(id, "path:save") {
        Some(PathAction::Save { name: string_or(&args.name, "") })
    } else if str_eq(id, "path:new") {
        Some(PathAction::New { target: PathTarget::Saved(saved) })
    } else if str_eq(id, "path:delete") {
        Some(PathAction::Delete { target })
    } else if str_eq(id, "path:rename") {
        match target {
            PathTarget::Saved(index) => Some(PathAction::Rename { index, name: string_or(&args.name, "") }),
            PathTarget::Work => Some(PathAction::Nothing),
        }
    } else if str_eq(id, "path:select") {
        Some(PathAction::Select { path: args.target })
    } else {
        None
    }
}

// ---------------------------------------------------------------------------
// Layer ▸ Vector Mask
// ---------------------------------------------------------------------------

/// How a Vector Mask action changes the active layer's vector mask.
#[derive(Clone, Copy, Debug, PartialEq, Eq, Structural)]
pub enum MaskChange {
    /// A mask of the whole canvas's rectangle.
    RevealAll,
    /// A mask of an empty path.
    HideAll,
    /// A mask of the active path, else of the Work Path.
    FromPath,
    Remove,
    /// The current mask, now enabled or not.
    SetEnabled(bool),
}

/// What a Vector Mask action does.
#[derive(Clone, Copy, Debug, PartialEq, Eq, Structural)]
pub enum VmaskPlan {
    /// Change the mask, as one step of the history.
    Change(MaskChange),
    /// No path to make the mask from: tell the user.
    NeedPath,
    /// Copy the mask's path to the Work Path for the pen tools to edit.
    EditAsWorkPath,
}

/// What the Vector Mask action `id` does, given whether the active layer
/// has a vector mask (and whether it is enabled) and whether there is a
/// path to make one from; `None` when it does nothing.
pub open spec fn spec_vector_mask_plan(id: Seq<char>, current: Option<bool>, has_path: bool) -> Option<
    VmaskPlan,
> {
    if id == "vmask:reveal-all"@ {
        Some(VmaskPlan::Change(MaskChange::RevealAll))
    } else if id == "vmask:hide-all"@ {
        Some(VmaskPlan::Change(MaskChange::HideAll))
    } else if id == "vmask:current-path"@ {
        if has_path {
            Some(VmaskPlan::Change(MaskChange::FromPath))
        } else {
            Some(VmaskPlan::NeedPath)
        }
    } else if id == "vmask:delete"@ {
        Some(VmaskPlan::Change(MaskChange::Remove))
    } else if id == "vmask:toggle"@ {
        match current {
            Some(enabled) => Some(VmaskPlan::Change(MaskChange::SetEnabled(!enabled))),
            None => None,
        }
    } else if id == "vmask:edit"@ {
        match current {
            Some(_) => Some(VmaskPlan::EditAsWorkPath),
            None => None,
        }
    } else {
        None
    }
}

/// What the Vector Mask action `id` does (see [`spec_vector_mask_plan`]).
pub fn vector_mask_plan(id: &str, current: Option<bool>, has_path: bool) -> (plan: Option<VmaskPlan>)
    ensures
        plan == spec_vector_mask_plan(id@, current, has_path),
{
    if str_eq(id, "vmask:reveal-all") {
        Some(VmaskPlan::Change(MaskChange::RevealAll))
    } else if str_eq(id, "vmask:hide-all") {
        Some(VmaskPlan::Change(MaskChange::HideAll))
    } else if str_eq(id, "vmask:current-path") {
        if has_path {
            Some(VmaskPlan::Change(MaskChange::FromPath))
        } else {
            Some(VmaskPlan::NeedPath)
        }
    } else if str_eq(id, "vmask:delete") {
        Some(VmaskPlan::Change(MaskChange::Remove))
    } else if str_eq(id, "vmask:toggle") {
        match current {
            Some(enabled) => Some(VmaskPlan::Change(MaskChange::SetEnabled(!enabled))),
            None => None,
        }
    } else if str_eq(id, "vmask:edit") {
        match current {
            Some(_) => Some(VmaskPlan::EditAsWorkPath),
            None => None,
        }
    } else {
        None
    }
}

/// The history label of a plan's step, or the text told to the user.
pub open spec fn spec_plan_text(plan: VmaskPlan) -> Seq<char> {
    match plan {
        VmaskPlan::Change(MaskChange::Remove) => "Delete Vector Mask"@,
        VmaskPlan::Change(MaskChange::SetEnabled(true)) => "Enable Vector Mask"@,
        VmaskPlan::Change(MaskChange::SetEnabled(false)) => "Disable Vector Mask"@,
        VmaskPlan::Change(_) => "Add Vector Mask"@,
        VmaskPlan::NeedPath => "Select a path in the Paths panel first"@,
        VmaskPlan::EditAsWorkPath => "Work Path"@,
    }
}

impl VmaskPlan {
    /// The history label of the step, or the text told to the user.
    pub fn text(&self) -> (text: &'static str)
        ensures
            text@ == spec_plan_text(*self),
    {
        match self {
            VmaskPlan::Change(MaskChange::Remove) => "Delete Vector Mask",
            VmaskPlan::Change(MaskChange::SetEnabled(true)) => "Enable Vector Mask",
            VmaskPlan::Change(MaskChange::SetEnabled(false)) => "Disable Vector Mask",
            VmaskPlan::Change(_) => "Add Vector Mask",
            VmaskPlan::NeedPath => "Select a path in the Paths panel first",
            VmaskPlan::EditAsWorkPath => "Work Path",
        }
    }
}

// ---------------------------------------------------------------------------
// Routing an action of the two menus
// ---------------------------------------------------------------------------

/// What the open document tells the two menus' actions.
#[derive(Clone, Copy, Debug, PartialEq, Eq, Structural)]
pub struct DocState {
    /// The active path, if any.
    pub active_path: Option<PathTarget>,
    /// How many paths are saved.
    pub saved_paths: usize,
    /// The library's current pattern, if any.
    pub current_pattern: Option<u64>,
    /// There is an active layer.
    pub has_layer: bool,
    /// The active layer's vector mask: whether it is enabled, if it has one.
    pub vector_mask: Option<bool>,
    /// There is a path to make a mask from (the active path or the Work
    /// Path).
    pub has_path: bool,
}

/// What an action of the Paths panel or of Layer ▸ Vector Mask asks for.
#[derive(Debug, PartialEq, Eq)]
pub enum Request {
    /// A Paths panel command.
    Path(PathAction),
    /// A Vector Mask step.
    Mask(VmaskPlan),
    /// A known action with nothing to do now.
    Nothing,
}

/// Whether `request` is what action `id` of the two menus asks for, with
/// arguments `args` and the open document `doc` (none: no document open);
/// `None` when `id` belongs to neither menu. A `vmask:` action needs an
/// active layer; a `path:` action a document.
pub open spec fn is_menu_request(request: Option<Request>, id: Seq<char>, args: PathArgs, doc: Option<DocState>) -> bool {
    if "vmask:"@.is_prefix_of(id) {
        match doc {
            Some(d) if d.has_layer => request == Some(
                match spec_vector_mask_plan(id, d.vector_mask, d.has_path) {
                    Some(plan) => Request::Mask(plan),
                    None => Request::Nothing,
                },
            ),
            _ => request == Some(Request::Nothing),
        }
    } else if "path:"@.is_prefix_of(id) {
        match doc {
            None => request == Some(Request::Nothing),
            Some(d) => match request {
                None => is_path_action(None, id, args, d.active_path, d.saved_paths, d.current_pattern),
                Some(Request::Nothing) => is_path_action(
                    Some(PathAction::Nothing),
                    id,
                    args,
                    d.active_path,
                    d.saved_paths,
                    d.current_pattern,
                ),
                Some(Request::Path(action)) => !(action is Nothing) && is_path_action(
                    Some(action),
                    id,
                    args,
                    d.active_path,
                    d.saved_paths,
                    d.current_pattern,
                ),
                Some(Request::Mask(_)) => false,
            },
        }
    } else {
        request is None
    }
}

/// What action `id` of the Paths panel or of Layer ▸ Vector Mask asks for
/// (see [`is_menu_request`]).
pub fn menu_request(id: &str, args: &PathArgs, doc: Option<DocState>) -> (request: Option<Request>)
    ensures
        is_menu_request(request, id@, *args, doc),
{
    if strip_prefix(id, "vmask:").is_some() {
        match doc {
            Some(d) => {
                if d.has_layer {
                    match vector_mask_plan(id, d.vector_mask, d.has_path) {
                        Some(plan) => Some(Request::Mask(plan)),
                        None => Some(Request::Nothing),
                    }
                } else {
                    Some(Request::Nothing)
                }
            },
            None => Some(Request::Nothing),
        }
    } else if strip_prefix(id, "path:").is_some() {
        match doc {
            None => Some(Request::Nothing),
            Some(d) => match path_action(id, args, d.active_path, d.saved_paths, d.current_pattern) {
                None => None,
                Some(PathAction::Nothing) => Some(Request::Nothing),
                Some(action) => Some(Request::Path(action)),
            },
        }
    } else {
        None
    }
}

} // verus!
