use fx_engine::paths::{
    menu_request, path_action, vector_mask_plan, DocState, FillSource, MaskChange, PathAction, PathArgs, PathTarget,
    Request, StrokeTool, Swatch, VmaskPlan,
};
use fx_engine::tools::SelectMode;

fn no_args() -> PathArgs {
    PathArgs { target: None, tool: None, pressure: None, fill_with: None, mode: None, name: None }
}

#[test]
fn stroke_path_defaults_to_the_brush_without_pressure_on_the_active_path() {
    let action = path_action("path:stroke", &no_args(), Some(PathTarget::Saved(2)), 3, None);
    assert_eq!(
        action,
        Some(PathAction::Stroke {
            target: PathTarget::Saved(2),
            tool: "brush".to_string(),
            kind: StrokeTool::Brush,
            color: Swatch::Foreground,
            pressure: false,
        })
    );
}

#[test]
fn stroke_path_uses_the_tools_colour() {
    let mut args = no_args();
    args.tool = Some("eraser".to_string());
    args.pressure = Some(true);
    args.target = Some(PathTarget::Work);
    let action = path_action("path:stroke", &args, Some(PathTarget::Saved(0)), 1, None);
    assert_eq!(
        action,
        Some(PathAction::Stroke {
            target: PathTarget::Work,
            tool: "eraser".to_string(),
            kind: StrokeTool::Eraser,
            color: Swatch::Background,
            pressure: true,
        })
    );
    args.tool = Some("pencil".to_string());
    assert!(matches!(
        path_action("path:stroke", &args, None, 0, None),
        Some(PathAction::Stroke { kind: StrokeTool::Pencil, color: Swatch::Foreground, .. })
    ));
    args.tool = Some("smudge".to_string());
    assert!(matches!(
        path_action("path:stroke", &args, None, 0, None),
        Some(PathAction::Stroke { kind: StrokeTool::Brush, color: Swatch::Foreground, .. })
    ));
}

#[test]
fn fill_path_picks_its_source() {
    let mut args = no_args();
    assert_eq!(
        path_action("path:fill", &args, None, 0, Some(7)),
        Some(PathAction::Fill { target: PathTarget::Work, source: FillSource::Color(Swatch::Foreground) })
    );
    args.fill_with = Some("Pattern".to_string());
    assert_eq!(
        path_action("path:fill", &args, None, 0, Some(7)),
        Some(PathAction::Fill { target: PathTarget::Work, source: FillSource::Pattern(7) })
    );
    // Asked for a pattern with none chosen: the foreground colour.
    assert_eq!(
        path_action("path:fill", &args, None, 0, None),
        Some(PathAction::Fill { target: PathTarget::Work, source: FillSource::Color(Swatch::Foreground) })
    );
    args.fill_with = Some("Background Colour".to_string());
    assert_eq!(
        path_action("path:fill", &args, None, 0, Some(7)),
        Some(PathAction::Fill { target: PathTarget::Work, source: FillSource::Color(Swatch::Background) })
    );
}

#[test]
fn make_selection_reads_its_mode() {
    let mut args = no_args();
    for (mode, expected) in [
        (Some("add"), SelectMode::Add),
        (Some("subtract"), SelectMode::Subtract),
        (Some("intersect"), SelectMode::Intersect),
        (Some("replace"), SelectMode::Replace),
        (None, SelectMode::Replace),
    ] {
        args.mode = mode.map(str::to_string);
        assert_eq!(
            path_action("path:to-selection", &args, Some(PathTarget::Saved(1)), 2, None),
            Some(PathAction::ToSelection { target: PathTarget::Saved(1), mode: expected })
        );
    }
}

#[test]
fn the_other_path_actions() {
    let mut args = no_args();
    assert_eq!(path_action("path:from-selection", &args, None, 0, None), Some(PathAction::FromSelection));
    assert_eq!(path_action("path:save", &args, None, 0, None), Some(PathAction::Save { name: String::new() }));
    args.name = Some("Outline".to_string());
    assert_eq!(
        path_action("path:save", &args, None, 0, None),
        Some(PathAction::Save { name: "Outline".to_string() })
    );
    assert_eq!(
        path_action("path:new", &args, Some(PathTarget::Work), 4, None),
        Some(PathAction::New { target: PathTarget::Saved(4) })
    );
    assert_eq!(
        path_action("path:delete", &args, Some(PathTarget::Saved(1)), 4, None),
        Some(PathAction::Delete { target: PathTarget::Saved(1) })
    );
    assert_eq!(
        path_action("path:rename", &args, Some(PathTarget::Saved(3)), 4, None),
        Some(PathAction::Rename { index: 3, name: "Outline".to_string() })
    );
    // The Work Path is not renamed.
    assert_eq!(path_action("path:rename", &args, None, 4, None), Some(PathAction::Nothing));
    // Select takes the argument's target only, not the active path.
    assert_eq!(
        path_action("path:select", &args, Some(PathTarget::Saved(0)), 4, None),
        Some(PathAction::Select { path: None })
    );
    args.target = Some(PathTarget::Saved(2));
    assert_eq!(
        path_action("path:select", &args, None, 4, None),
        Some(PathAction::Select { path: Some(PathTarget::Saved(2)) })
    );
    assert_eq!(path_action("path:unknown", &args, None, 4, None), None);
    assert_eq!(path_action("layer:new", &args, None, 4, None), None);
}

#[test]
fn vector_mask_actions_plan_their_step() {
    let add = |change| Some(VmaskPlan::Change(change));
    assert_eq!(vector_mask_plan("vmask:reveal-all", None, false), add(MaskChange::RevealAll));
    assert_eq!(vector_mask_plan("vmask:hide-all", None, false), add(MaskChange::HideAll));
    assert_eq!(vector_mask_plan("vmask:current-path", None, true), add(MaskChange::FromPath));
    assert_eq!(vector_mask_plan("vmask:current-path", None, false), Some(VmaskPlan::NeedPath));
    assert_eq!(vector_mask_plan("vmask:delete", Some(true), false), add(MaskChange::Remove));
    assert_eq!(vector_mask_plan("vmask:toggle", Some(true), false), add(MaskChange::SetEnabled(false)));
    assert_eq!(vector_mask_plan("vmask:toggle", Some(false), false), add(MaskChange::SetEnabled(true)));
    assert_eq!(vector_mask_plan("vmask:toggle", None, true), None);
    assert_eq!(vector_mask_plan("vmask:edit", Some(false), false), Some(VmaskPlan::EditAsWorkPath));
    assert_eq!(vector_mask_plan("vmask:edit", None, true), None);
    assert_eq!(vector_mask_plan("vmask:other", Some(true), true), None);
}

#[test]
fn vector_mask_steps_have_their_labels() {
    assert_eq!(VmaskPlan::Change(MaskChange::RevealAll).text(), "Add Vector Mask");
    assert_eq!(VmaskPlan::Change(MaskChange::HideAll).text(), "Add Vector Mask");
    assert_eq!(VmaskPlan::Change(MaskChange::FromPath).text(), "Add Vector Mask");
    assert_eq!(VmaskPlan::Change(MaskChange::Remove).text(), "Delete Vector Mask");
    assert_eq!(VmaskPlan::Change(MaskChange::SetEnabled(true)).text(), "Enable Vector Mask");
    assert_eq!(VmaskPlan::Change(MaskChange::SetEnabled(false)).text(), "Disable Vector Mask");
    assert_eq!(VmaskPlan::NeedPath.text(), "Select a path in the Paths panel first");
    assert_eq!(VmaskPlan::EditAsWorkPath.text(), "Work Path");
}

#[test]
fn the_menus_route_their_actions() {
    let doc = DocState {
        active_path: Some(PathTarget::Saved(1)),
        saved_paths: 2,
        current_pattern: None,
        has_layer: true,
        vector_mask: Some(true),
        has_path: true,
    };
    let args = no_args();
    assert_eq!(menu_request("vmask:toggle", &args, Some(doc)), Some(Request::Mask(VmaskPlan::Change(MaskChange::SetEnabled(false)))));
    assert_eq!(menu_request("vmask:edit", &args, Some(DocState { vector_mask: None, ..doc })), Some(Request::Nothing));
    assert_eq!(menu_request("vmask:delete", &args, Some(DocState { has_layer: false, ..doc })), Some(Request::Nothing));
    assert_eq!(menu_request("vmask:delete", &args, None), Some(Request::Nothing));
    assert_eq!(
        menu_request("path:delete", &args, Some(doc)),
        Some(Request::Path(PathAction::Delete { target: PathTarget::Saved(1) }))
    );
    assert_eq!(menu_request("path:rename", &args, Some(DocState { active_path: None, ..doc })), Some(Request::Nothing));
    assert_eq!(menu_request("path:stroke", &args, None), Some(Request::Nothing));
    assert_eq!(menu_request("path:unknown", &args, Some(doc)), None);
    assert_eq!(menu_request("layer:new", &args, Some(doc)), None);
}
