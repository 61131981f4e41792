use timecloud::color::{parse_background_color, parse_hex_color};
use timecloud::layout::{fading_words, needs_full_relayout};
use timecloud::render::{
    apply_darkening_overlay, article_overlay_positions, format_title, orientation_transform,
    UprightTransform,
};
use timecloud::report::{fmt_bool, mark_default};
use timecloud::LayoutMode;

#[test]
fn palette_colors_parse() {
    assert_eq!(parse_hex_color("#2a9d8f"), [0x2a, 0x9d, 0x8f, 255]);
    assert_eq!(parse_hex_color("##E76F51"), [0xe7, 0x6f, 0x51, 255]);
    assert_eq!(parse_hex_color("zz+fxx"), [0, 15, 0, 255]);
}

#[test]
fn background_color_defaults_per_channel() {
    assert_eq!(parse_background_color("#FAF9F6"), [250, 249, 246, 255]);
    assert_eq!(parse_background_color("#1a1a2e"), [0x1a, 0x1a, 0x2e, 255]);
    assert_eq!(parse_background_color("#gg00hh"), [250, 0, 246, 255]);
}

#[test]
fn darkening_halves_color_keeps_alpha() {
    let mut px = vec![200, 100, 0, 255, 10, 20, 30, 40, 7];
    apply_darkening_overlay(&mut px, 127);
    assert_eq!(px, vec![100, 50, 0, 255, 5, 10, 15, 40, 7]);
}

#[test]
fn long_titles_are_cut() {
    let long = "a".repeat(60);
    assert_eq!(format_title(&long), format!("{}...", "a".repeat(47)));
    assert_eq!(format_title("Short"), "Short");
    assert_eq!(format_title(&"b".repeat(50)), "b".repeat(50));
}

#[test]
fn overlay_lines_from_the_bottom() {
    // date above title: 1080 - 40 - (72 + 12 + 56) = 900
    assert_eq!(article_overlay_positions(1080, true, true), (900, 968));
    assert_eq!(article_overlay_positions(1080, false, true), (968, 968));
    assert_eq!(article_overlay_positions(1080, true, false), (984, 1052));
}

#[test]
fn exif_orientations() {
    assert_eq!(orientation_transform(1), UprightTransform::Unchanged);
    assert_eq!(orientation_transform(6), UprightTransform::Rotate90);
    assert_eq!(orientation_transform(5), UprightTransform::Rotate90ThenFlipHorizontal);
    assert_eq!(orientation_transform(9), UprightTransform::Unchanged);
}

fn words(ws: &[&str]) -> Vec<String> {
    ws.iter().map(|s| s.to_string()).collect()
}

fn entries(ws: &[&str]) -> Vec<(String, u32)> {
    ws.iter().map(|s| (s.to_string(), 1)).collect()
}

#[test]
fn relayout_decisions() {
    let top = entries(&["a", "b", "c"]);
    // first layout
    assert!(needs_full_relayout(true, &vec![], 0, 0, 120, &top, &vec![]));
    // never again with relayout disabled
    assert!(!needs_full_relayout(true, &words(&["a"]), 500, 0, 120, &top, &vec![]));
    // cooldown not elapsed
    assert!(!needs_full_relayout(false, &words(&["a"]), 100, 0, 120, &top, &vec![]));
    // a top word has no place yet
    assert!(needs_full_relayout(false, &words(&["a", "b", "c"]), 200, 0, 120, &top, &words(&["a", "b"])));
    // everything placed, same top three
    assert!(!needs_full_relayout(false, &words(&["a", "b", "c"]), 200, 0, 120, &top, &words(&["a", "b", "c"])));
    // top three reshuffled
    assert!(needs_full_relayout(false, &words(&["b", "a", "c"]), 200, 0, 120, &top, &words(&["a", "b", "c"])));
}

#[test]
fn words_leaving_the_top_fade() {
    let placed = words(&["a", "x", "b"]);
    assert_eq!(fading_words(&placed, &entries(&["a", "b"])), vec![false, true, false]);
    assert_eq!(fading_words(&placed, &vec![]), vec![true, true, true]);
}

#[test]
fn report_marks_custom_values() {
    assert_eq!(mark_default("60", true), "60  ");
    assert_eq!(mark_default("30", false), "30 *");
    assert_eq!(fmt_bool(true, true, "yes", "no"), "yes  ");
    assert_eq!(fmt_bool(false, true, "yes", "no"), "no *");
}

#[test]
fn amoeba_is_the_default_layout() {
    assert_eq!(LayoutMode::default(), LayoutMode::Amoeba);
}
