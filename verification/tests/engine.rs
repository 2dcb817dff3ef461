use fx_engine::b64::{decode, decode_upload, encode};
use fx_engine::documents::{DocId, Documents, OpenDoc};
use fx_engine::render::{level_count, slot_of, Ready, EMPTY_SLOT};
use fx_engine::thumbs::{fitted, solid_thumbnail, thumbnail_level};
use fx_engine::tools::{mode_at_press, not_yet_message, not_yet_name, selection_mode, tool_of, ColorTarget, SelectMode, ToolKind};
use fx_engine::tools::{lasso, marquee, nudge_step, paint};
use fx_engine::tools::transform::{instant_turn, turn_centre, turn_offset, Mode};
use fx_engine::{Modifiers, PointerKind};

#[test]
fn thumbnails_keep_the_document_aspect() {
	assert_eq!(fitted(30_000, 20_000, 48), (48, 32));
	assert_eq!(fitted(1000, 4000, 40), (10, 40));
	assert_eq!(fitted(5, 5, 0), (1, 1));
}

#[test]
fn solid_fill_thumbnail() {
	let thumb = solid_thumbnail([65535, 32896, 0, 65535], 100, 100, 8);
	assert_eq!(&thumb.pixels[..4], &[255, 128, 0, 255]);
	assert_eq!(thumb.pixels.len(), 8 * 8 * 4);
}

#[test]
fn level_count_matches_tiled_image() {
	for ((w, h), levels) in [((1, 1), 1), ((256, 256), 1), ((257, 10), 2), ((30_000, 30_000), 8), ((1000, 70_000), 10)] {
		assert_eq!(level_count(w, h), levels, "{w} × {h}");
	}
}

#[test]
fn the_thumbnail_reads_the_deepest_level_with_enough_pixels() {
	// 2048 wide, 64 wanted: level 5 has 64 pixels, level 6 only 32.
	assert_eq!(thumbnail_level(2048, 1024, 64, 32, 4), 3);
	assert_eq!(thumbnail_level(2048, 1024, 64, 32, 10), 5);
	assert_eq!(thumbnail_level(100, 100, 100, 100, 3), 0);
}

#[test]
fn base64_round_trips_and_pads() {
	assert_eq!(encode(b"hello"), "aGVsbG8=");
	assert_eq!(encode(b"hell"), "aGVsbA==");
	assert_eq!(encode(b"hel"), "aGVs");
	assert_eq!(encode(b""), "");
	let data: Vec<u8> = (0..=255u8).collect();
	assert_eq!(decode(&encode(&data)), data);
	assert_eq!(decode("aGVsbG8="), b"hello");
	assert_eq!(decode("a G V s\nbG8"), b"hello", "anything that is not a digit is skipped");
	assert_eq!(decode("-_-_"), decode("+/+/"), "the URL-safe alphabet decodes too");
}

#[test]
fn an_upload_may_be_a_data_url() {
	assert_eq!(decode_upload("data:image/png;base64,aGVsbG8="), b"hello");
	assert_eq!(decode_upload("aGVsbG8="), b"hello");
}

fn open(docs: &mut Documents<()>, id: DocId) {
	docs.add(OpenDoc::new(id, "a.png".to_string(), ()));
}

#[test]
fn closing_activates_the_neighbour() {
	let mut docs: Documents<()> = Documents::new();
	let ids: Vec<DocId> = (0..3).map(|_| docs.allocate_id()).collect();
	for &id in &ids {
		open(&mut docs, id);
	}
	assert_eq!(docs.active_id(), Some(ids[2]));
	docs.activate(ids[1]);
	docs.close(ids[1]);
	assert_eq!(docs.active_id(), Some(ids[0]), "left neighbour");
	docs.close(ids[0]);
	assert_eq!(docs.active_id(), Some(ids[2]));
	docs.close(ids[2]);
	assert_eq!(docs.active_id(), None);
	assert!(docs.is_empty());
	assert!(!docs.activate(ids[0]), "a closed document cannot be activated");
}

#[test]
fn allocated_ids_start_at_one_and_grow() {
	let mut docs: Documents<()> = Documents::new();
	assert_eq!(docs.allocate_id(), DocId(1));
	assert_eq!(docs.allocate_id(), DocId(2));
	open(&mut docs, DocId(2));
	docs.get_mut(DocId(2)).unwrap().dirty = true;
	assert!(docs.get(DocId(2)).unwrap().dirty);
	assert!(docs.get(DocId(1)).is_none());
	assert_eq!(docs.ids(), vec![DocId(2)]);
}

#[test]
fn unknown_tools_have_no_implementation() {
	assert!(tool_of("mixer-brush").is_none(), "not implemented");
	assert!(tool_of("brush").is_some());
	assert!(tool_of("eyedropper").is_some());
	for id in ["marquee", "marquee-ellipse", "marquee-row", "marquee-col", "lasso", "lasso-poly", "magic-wand", "crop"] {
		assert!(tool_of(id).is_some(), "{id}");
	}
	assert_eq!(tool_of("lasso-poly"), Some(ToolKind::Lasso(lasso::Kind::Polygonal)));
	assert_eq!(tool_of("marquee-col"), Some(ToolKind::Marquee(marquee::Shape::Column)));
	assert_eq!(tool_of("heal"), Some(ToolKind::Paint(paint::Kind::SpotHeal)));
	assert_eq!(tool_of("gradient"), Some(ToolKind::Gradient));
}

#[test]
fn a_tool_that_is_not_implemented_says_so_once_per_click() {
	assert_eq!(tool_of("quick-select"), Some(ToolKind::NotYet), "quick selection has a placeholder");
	let info = not_yet_message("quick-select", PointerKind::Down);
	assert!(info.unwrap().contains("Quick Selection"));
	// A move after the click stays quiet, so a drag does not spam toasts.
	assert!(not_yet_message("quick-select", PointerKind::Move).is_none());
	assert_eq!(not_yet_name("shape-3d"), "3D Object");
	assert_eq!(not_yet_name("paint"), "This tool");
}

#[test]
fn the_selection_mode_comes_from_the_option_bar_or_the_modifiers() {
	assert_eq!(selection_mode(Some(2), None), SelectMode::Subtract, "the button group's index");
	assert_eq!(selection_mode(None, None), SelectMode::Replace, "no options: New selection");
	let plain = Modifiers::default();
	let shift = Modifiers { shift: true, ..Default::default() };
	let alt = Modifiers { alt: true, ..Default::default() };
	let both = Modifiers { shift: true, alt: true, ..Default::default() };
	assert_eq!(mode_at_press(plain, SelectMode::Replace), SelectMode::Replace);
	assert_eq!(mode_at_press(shift, SelectMode::Replace), SelectMode::Add);
	assert_eq!(mode_at_press(alt, SelectMode::Replace), SelectMode::Subtract);
	assert_eq!(mode_at_press(both, SelectMode::Replace), SelectMode::Intersect);
	// A wording works too (a drop-down instead of the button group).
	assert_eq!(selection_mode(None, Some("Add to selection")), SelectMode::Add);
}

#[test]
fn arrows_nudge_by_one_and_shift_arrows_by_ten() {
	assert_eq!(nudge_step("ArrowLeft"), Some((-1, 0)));
	assert_eq!(nudge_step("Shift+ArrowDown"), Some((0, 10)));
	assert_eq!(nudge_step("Shift+Enter"), None);
	assert_eq!(nudge_step("Enter"), None);
}

#[test]
fn transform_actions_and_instant_turns() {
	assert_eq!(Mode::of_action("xf:warp"), Some(Mode::Warp));
	assert_eq!(Mode::of_action("xf:flip-h"), None);
	assert_eq!(instant_turn("xf:rot90cw"), Some([0, -1, 1, 0]));
	assert_eq!(instant_turn("xf:free"), None);
	assert_eq!(ColorTarget::Background.as_str(), "bg");
	assert_eq!(ColorTarget::Foreground.as_str(), "fg");
}

#[test]
fn a_tile_that_composited_to_nothing_has_no_slot() {
    assert_eq!(slot_of(Ready::Slot(7)), 7);
    assert_eq!(slot_of(Ready::Empty), EMPTY_SLOT);
    assert_eq!(EMPTY_SLOT, u32::MAX);
}

/// Where the instant item `id` about the box `rect` takes the point `p`,
/// all in half pixels.
fn turn(id: &str, rect: [i64; 4], p: (i64, i64)) -> (i64, i64) {
    let m = instant_turn(id).expect("an instant item");
    let c = turn_centre(rect);
    let e = turn_offset(m, c);
    let (a, b, cc, d) = (m[0] as i64, m[1] as i64, m[2] as i64, m[3] as i64);
    (a * p.0 + b * p.1 + e.0, cc * p.0 + d * p.1 + e.1)
}

#[test]
fn instant_turns_land_pixel_centres_on_pixel_centres() {
    for id in ["xf:rot180", "xf:rot90cw", "xf:rot90ccw", "xf:flip-h", "xf:flip-v"] {
        // Odd and even sizes, odd and even offsets.
        for rect in [[0, 0, 100, 60], [3, 7, 104, 58], [10, 10, 11, 12]] {
            // (3.5, 7.5), (50.5, 20.5), (0.5, 0.5) in half pixels.
            for (x, y) in [(7, 15), (101, 41), (1, 1)] {
                let (u, v) = turn(id, rect, (x, y));
                assert!(u.rem_euclid(2) == 1 && v.rem_euclid(2) == 1, "{id} {rect:?}: ({x}, {y}) → ({u}, {v})");
            }
        }
    }
    // A quarter turn clockwise about (50, 30): the right-middle goes below.
    assert_eq!(turn("xf:rot90cw", [0, 0, 100, 60], (200, 60)), (100, 160));
}
