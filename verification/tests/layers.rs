use fx_engine::layers::{layer_infos, Kind, Layer, PanelRow};

fn layer(id: u64, name: &str, kind: Kind) -> Layer {
    Layer {
        id,
        name: name.to_string(),
        kind,
        blend: "normal".to_string(),
        visible: true,
        clipped: false,
        has_mask: false,
        locked_pixels: false,
        locked_position: false,
        locked_transparency: false,
        expanded: false,
        children: Vec::new(),
    }
}

fn pixel_layer(id: u64, name: &str) -> Layer {
    layer(id, name, Kind::Pixel)
}

fn group(id: u64, name: &str, expanded: bool, children: Vec<Layer>) -> Layer {
    Layer { expanded, children, ..layer(id, name, Kind::Group) }
}

fn solid(id: u64, name: &str) -> Layer {
    layer(id, name, Kind::SolidFill)
}

fn adjustment(id: u64, name: &str) -> Layer {
    layer(id, name, Kind::Adjustment)
}

/// Bottom → top: `A`, `Group( B, Inner( Curves ) )`, `Pixel`.
fn doc() -> Vec<Layer> {
    let inner = group(4, "Inner", false, vec![adjustment(5, "Curves")]);
    vec![solid(1, "A"), group(2, "Group", true, vec![solid(3, "B"), inner]), pixel_layer(6, "Pixel")]
}

fn ids(infos: &[PanelRow]) -> Vec<u64> {
    infos.iter().map(|i| i.id).collect()
}

fn find(layers: &mut [Layer], id: u64) -> Option<&mut Layer> {
    for layer in layers.iter_mut() {
        if layer.id == id {
            return Some(layer);
        }
        if let Some(found) = find(&mut layer.children, id) {
            return Some(found);
        }
    }
    None
}

#[test]
fn panel_order_is_top_to_bottom_with_depths() {
    let infos = layer_infos(&doc(), &Vec::new());
    assert_eq!(ids(&infos), [6, 2, 4, 5, 3, 1]);
    assert_eq!(infos.iter().map(|i| i.depth).collect::<Vec<_>>(), [0, 0, 1, 2, 1, 0], "depth = group nesting level");
}

#[test]
fn every_layer_kind_maps_to_its_protocol_kind() {
    let infos = layer_infos(&doc(), &Vec::new());
    let kind_of = |id: u64| infos.iter().find(|i| i.id == id).unwrap().kind;
    assert_eq!(kind_of(1), Kind::SolidFill);
    assert_eq!(kind_of(2), Kind::Group);
    assert_eq!(kind_of(5), Kind::Adjustment);
    assert_eq!(kind_of(6), Kind::Pixel);
}

#[test]
fn flags_and_properties_come_across() {
    let mut layers = doc();
    let a = find(&mut layers, 1).unwrap();
    a.visible = false;
    a.clipped = true;
    a.locked_position = true;
    a.has_mask = true;
    a.blend = "multiply".to_string();

    let infos = layer_infos(&layers, &Vec::new());
    let a = &infos[5];
    assert_eq!(a.id, 1);
    assert_eq!(a.name, "A");
    assert!(!a.visible);
    assert!(a.clipped);
    assert!(a.has_mask, "a disabled mask is still shown in the row");
    assert!(a.locked, "a position lock alone lights the lock flag");
    assert!(!a.expanded, "expanded is a group-only flag");
    assert_eq!(a.blend, "multiply");

    assert!(infos.iter().find(|i| i.id == 5).unwrap().name == "Curves");
}

#[test]
fn pixel_lock_also_sets_locked() {
    let mut layers = doc();
    find(&mut layers, 6).unwrap().locked_pixels = true;
    let infos = layer_infos(&layers, &Vec::new());
    assert!(infos[0].locked);
    assert!(infos[0].locked_pixels);
    assert!(!infos[1].locked);
}

#[test]
fn expanded_comes_from_the_group_only() {
    let mut layers = doc();
    // A stray flag on a non-group changes nothing.
    find(&mut layers, 1).unwrap().expanded = true;
    let infos = layer_infos(&layers, &Vec::new());
    let expanded = |id: u64| infos.iter().find(|i| i.id == id).unwrap().expanded;
    assert!(expanded(2), "a group with expanded = true");
    assert!(!expanded(4), "a group with expanded = false");
    assert!(!expanded(1) && !expanded(6), "non-groups never expand");
}

#[test]
fn selection_mirrors_the_document() {
    let infos = layer_infos(&doc(), &vec![3, 6]);
    let selected = infos.iter().filter(|i| i.selected).map(|i| i.id).collect::<Vec<_>>();
    assert_eq!(selected, [6, 3], "every selected layer is flagged, order is panel order");
}

#[test]
fn selection_of_a_deleted_layer_is_ignored() {
    assert!(layer_infos(&doc(), &vec![99]).iter().all(|i| !i.selected));
}

#[test]
fn empty_document_yields_no_layers() {
    assert!(layer_infos(&Vec::new(), &Vec::new()).is_empty());
}

#[test]
fn group_without_children_is_a_single_row() {
    let layers = vec![group(1, "Empty group", true, Vec::new()), solid(2, "B")];
    let infos = layer_infos(&layers, &Vec::new());
    assert_eq!(ids(&infos), [2, 1]);
    assert_eq!(infos[1].depth, 0);
}

#[test]
fn a_layer_that_is_not_a_group_hides_its_children() {
    let mut stray = pixel_layer(1, "P");
    stray.children = vec![solid(2, "inside")];
    let infos = layer_infos(&vec![stray], &Vec::new());
    assert_eq!(ids(&infos), [1]);
}

#[test]
fn there_is_one_row_per_layer() {
    let infos = layer_infos(&doc(), &Vec::new());
    assert_eq!(infos.len(), 6);
}
