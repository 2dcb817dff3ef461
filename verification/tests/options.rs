use fx_engine::brushes::{tip_pixels, TipData};
use fx_engine::documents::{profile_name, ColorProfile, SnapshotState};
use fx_engine::export::{apply_choice, default_settings, Chroma, ExportChoice, Format};
use fx_engine::tools::bucket::{Bucket, MagicEraser, RedEye};
use fx_engine::tools::crop::{handles, ratio_of, Grab};
use fx_engine::tools::eyedropper::sample_options;

#[test]
fn jpeg_defaults_are_eight_bit_without_alpha() {
    let s = default_settings(Format::Jpeg, true, false);
    assert_eq!((s.bits, s.alpha, s.quality, s.chroma, s.cmyk), (8, false, 90, Chroma::Full, false));
    let s = default_settings(Format::Tiff, true, false);
    assert_eq!((s.bits, s.alpha), (16, true));
    let s = default_settings(Format::Png, false, true);
    assert_eq!((s.bits, s.alpha), (8, false));
}

#[test]
fn the_dialog_choices_override_the_defaults() {
    let base = default_settings(Format::Png, true, false);
    assert_eq!(apply_choice(base, None, false, false), base);
    let choice = ExportChoice { eight_bit: true, transparency: Some(false), quality: 250, chroma_half: true, cmyk: None };
    let s = apply_choice(base, Some(&choice), false, false);
    assert_eq!((s.bits, s.alpha, s.quality, s.chroma), (8, false, 100, Chroma::Half));
    // Automatic transparency follows the document.
    let auto = ExportChoice { eight_bit: false, transparency: None, quality: 80, chroma_half: false, cmyk: None };
    assert!(apply_choice(base, Some(&auto), false, false).alpha);
    assert!(!apply_choice(base, Some(&auto), true, false).alpha);
    // JPEG never has alpha, whatever the dialog says.
    let jpeg = default_settings(Format::Jpeg, false, false);
    let wants_alpha = ExportChoice { eight_bit: false, transparency: Some(true), quality: 80, chroma_half: false, cmyk: None };
    assert!(!apply_choice(jpeg, Some(&wants_alpha), false, false).alpha);
    // CMYK drops alpha.
    let tiff = default_settings(Format::Tiff, true, false);
    let cmyk = ExportChoice { cmyk: Some("press.icc".to_string()), ..wants_alpha };
    let s = apply_choice(tiff, Some(&cmyk), false, true);
    assert!(s.cmyk && !s.alpha);
}

#[test]
fn a_tip_needs_a_pixel_per_grey_byte() {
    // "AAECAw==" is the bytes 0, 1, 2, 3.
    let tip = TipData { width: 2, height: 2, gray: "AAECAw==".to_string() };
    assert_eq!(tip_pixels(&tip), Some(vec![0, 1, 2, 3]));
    let short = TipData { width: 3, height: 2, gray: "AAECAw==".to_string() };
    assert_eq!(tip_pixels(&short), None);
}

#[test]
fn the_eyedropper_reads_its_option_bar() {
    let o = sample_options(Some("3 by 3 Average"), Some("Current Layer"));
    assert_eq!((o.area, o.current_layer), (3, true));
    let o = sample_options(Some("5 by 5 Average"), Some("All Layers"));
    assert_eq!((o.area, o.current_layer), (5, false));
    let o = sample_options(Some("Point Sample"), None);
    assert_eq!((o.area, o.current_layer), (1, false));
    let o = sample_options(None, None);
    assert_eq!((o.area, o.current_layer), (1, false));
}

#[test]
fn click_tools_have_their_ui_ids() {
    assert_eq!(Bucket.id(), "paint-bucket");
    assert_eq!(MagicEraser.id(), "eraser-magic");
    assert_eq!(RedEye.id(), "red-eye");
}

#[test]
fn snapshots_follow_revisions_and_invalidation() {
    let mut state = SnapshotState::new();
    assert!(!state.reusable(0), "nothing taken yet");
    state.taken(0);
    assert!(state.reusable(0), "unchanged document → same snapshot");
    state.invalidate();
    assert!(!state.reusable(0));
    state.taken(0);
    assert!(state.reusable(0));
    assert!(!state.reusable(1), "a new revision takes a new snapshot");
}

#[test]
fn profiles_have_their_tab_names() {
    assert_eq!(profile_name(ColorProfile::Srgb), "sRGB IEC61966-2.1");
    assert_eq!(profile_name(ColorProfile::AdobeRgb1998), "Adobe RGB (1998)");
    assert_eq!(profile_name(ColorProfile::Icc), "Embedded profile");
}

#[test]
fn crop_handles_move_their_edges() {
    let all = handles();
    assert_eq!(all[0], Grab::TopLeft);
    assert_eq!(all[7], Grab::Left);
    for grab in all {
        assert!(grab.is_handle());
        assert!(grab.moves_left() || grab.moves_right() || grab.moves_top() || grab.moves_bottom());
        assert!(!(grab.moves_left() && grab.moves_right()));
        assert!(!(grab.moves_top() && grab.moves_bottom()));
    }
    for other in [Grab::Move, Grab::Rotate, Grab::New] {
        assert!(!other.is_handle());
        assert!(!(other.moves_left() || other.moves_right() || other.moves_top() || other.moves_bottom()));
    }
    assert!(Grab::TopRight.moves_top() && Grab::TopRight.moves_right());
    assert!(Grab::Bottom.moves_bottom() && !Grab::Bottom.moves_left());
}

#[test]
fn the_crop_ratio_menu() {
    assert_eq!(ratio_of(Some("1:1 (Square)"), 10, 20), Some((1, 1)));
    assert_eq!(ratio_of(Some("16:9"), 10, 20), Some((16, 9)));
    assert_eq!(ratio_of(Some("Original Ratio"), 300, 200), Some((300, 200)));
    assert_eq!(ratio_of(Some("Original Ratio"), 300, 0), Some((300, 1)));
    assert_eq!(ratio_of(Some("Unconstrained"), 300, 200), None);
    assert_eq!(ratio_of(None, 300, 200), None);
}

fn key(entry: &str) -> String {
    fx_engine::tools::kinds::blend_key(entry).into_iter().collect()
}

#[test]
fn a_mode_entry_names_its_blend_key() {
    assert_eq!(key("Linear Dodge (Add)"), "linear_dodge");
    assert_eq!(key("Normal"), "normal");
    assert_eq!(key("Soft Light"), "soft_light");
    assert_eq!(key("Non-Linear (x) (y)"), "non_linear");
    assert_eq!(key(""), "");
    assert_eq!(key("(Add)"), "(add)", "only a space before the bracket starts an explanation");
}

#[test]
fn the_kind_built_tools_by_id() {
    assert_eq!(fx_engine::tools::kinds::registered("gradient"), Some(fx_engine::tools::ToolKind::Gradient));
    assert_eq!(fx_engine::tools::kinds::registered("red-eye"), Some(fx_engine::tools::ToolKind::RedEye));
    assert_eq!(fx_engine::tools::kinds::registered("brush"), None);
}
