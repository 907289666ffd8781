use shapebit::chrome::{
    application_color_levels, application_hash, chrome_button_at, chrome_label,
    compositor_controls_enabled, icon_glyph, inset_window_rectangle, truncate_label,
    ChromeButton,
};
use shapebit::layout::Rect;

fn floored(value: f64) -> i32 {
    value.floor() as i32
}

#[test]
fn gutters_are_small_and_symmetric() {
    assert_eq!(
        inset_window_rectangle(Rect::new(0, 0, 600, 400)),
        Rect::new(3, 3, 594, 394)
    );
}

#[test]
fn chrome_buttons_are_ordered_focus_collapse_close() {
    let rectangle = Rect::new(100, 50, 500, 300);

    assert_eq!(
        chrome_button_at(rectangle, floored(515.0), floored(60.0)),
        Some(ChromeButton::Focus)
    );
    assert_eq!(
        chrome_button_at(rectangle, floored(550.0), floored(60.0)),
        Some(ChromeButton::Collapse)
    );
    assert_eq!(
        chrome_button_at(rectangle, floored(585.0), floored(60.0)),
        Some(ChromeButton::Close)
    );
    assert_eq!(chrome_button_at(rectangle, floored(400.0), floored(100.0)), None);
}

#[test]
fn long_titles_are_compact() {
    assert_eq!(truncate_label("ShapeBit Settings", 10), "ShapeBit …");
}

#[test]
fn client_decorated_windows_do_not_get_duplicate_controls() {
    assert!(!compositor_controls_enabled(false, false));
    assert!(compositor_controls_enabled(true, false));
    assert!(compositor_controls_enabled(false, true));
}

#[test]
fn tiny_tiles_keep_at_least_one_unit() {
    assert_eq!(inset_window_rectangle(Rect::new(10, 20, 4, 1)), Rect::new(10, 20, 4, 1));
    assert_eq!(inset_window_rectangle(Rect::new(-5, -5, 2, 2)), Rect::new(-4, -4, 1, 1));
}

#[test]
fn buttons_outside_the_title_bar_are_not_hit() {
    let rectangle = Rect::new(0, 0, 200, 20);
    assert_eq!(chrome_button_at(rectangle, 199, 19), Some(ChromeButton::Close));
    assert_eq!(chrome_button_at(rectangle, 199, 20), None);
    assert_eq!(chrome_button_at(rectangle, 200, 0), None);
    assert_eq!(chrome_button_at(rectangle, 166, 0), Some(ChromeButton::Close));
    assert_eq!(chrome_button_at(rectangle, 165, 0), Some(ChromeButton::Collapse));
    assert_eq!(chrome_button_at(rectangle, 98, 0), Some(ChromeButton::Focus));
    assert_eq!(chrome_button_at(rectangle, 97, 0), None);
    assert_eq!(chrome_button_at(rectangle, -1, 0), None);
}

#[test]
fn short_labels_are_kept_and_tiny_limits_give_an_ellipsis() {
    assert_eq!(truncate_label("Files", 5), "Files");
    assert_eq!(truncate_label("Files", 1), "…");
    assert_eq!(truncate_label("Files", 0), "…");
    assert_eq!(truncate_label("Files", 2), "F…");
    assert_eq!(truncate_label("", 0), "");
}

#[test]
fn application_colors_follow_the_name_hash() {
    assert_eq!(application_hash(""), 0);
    assert_eq!(application_hash("a"), 97);
    assert_eq!(application_hash("ab"), 97 * 33 + 98);
    let hash = application_hash("org.example.Editor");
    assert_eq!(
        application_color_levels("org.example.Editor"),
        [hash & 0x3f, (hash >> 6) & 0x3f, (hash >> 12) & 0x3f]
    );
    assert_eq!(application_color_levels("ab"), [(3299 & 0x3f), (3299 >> 6) & 0x3f, 0]);
}

#[test]
fn title_bar_labels_fall_back_to_the_application_and_fit_the_bar() {
    assert_eq!(chrome_label("Notes", "Editor", 500), "Notes");
    assert_eq!(chrome_label("   ", "Editor", 500), "Editor");
    assert_eq!(chrome_label("", "Editor", 500), "Editor");
    assert_eq!(chrome_label("A long window title", "Editor", 150 + 7 * 10), "A long wi…");
    assert_eq!(chrome_label("Notes", "Editor", 0), "…");
}

#[test]
fn icons_show_the_first_letter_or_digit_in_uppercase() {
    assert_eq!(icon_glyph("editor"), 'E');
    assert_eq!(icon_glyph("--3d viewer"), '3');
    assert_eq!(icon_glyph("é"), 'É');
    assert_eq!(icon_glyph("--"), 'A');
    assert_eq!(icon_glyph(""), 'A');
}

#[test]
fn chrome_label_treats_unicode_white_space_as_blank() {
    assert_eq!(chrome_label("\u{a0}\t\u{2029}", "Editor", 500), "Editor");
    assert_eq!(chrome_label(" x ", "Editor", 500), " x ");
}
