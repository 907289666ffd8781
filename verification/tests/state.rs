use shapebit::chrome::{ChromeButton, WindowChrome};
use shapebit::layout::{DropEdge, Layout, Rect};
use shapebit::state::{
    chrome_application_name, chrome_press, drop_preview, edge_preview, hovered_window_chrome,
    layout_area, minimum_tile_size, point_in_rect, pointer_over_window_chrome,
    presented_rectangle, presented_window_rectangle, pressed_window_chrome,
    record_bar_drop_target, tile_under, tiled_client_size, tiled_window_location,
    toggled_presentation, update_workspace_edge_hold_state, window_chrome,
    workspace_bar_drop_target_at, workspace_edge_hold_elapsed, ChromePress, Presentation,
    WORKSPACE_EDGE_HOLD_DELAY,
};
use shapebit::state::{
    open_held_edge,
    drag_step, hidden_items, window_configuration, window_drag_target, WindowConfiguration,
    WindowDragTarget, WindowDragTargetKey,
};
use shapebit::workspaces::WorkspaceDirection;

const MILLISECOND: u64 = 1_000_000;

fn floored(value: f64) -> i32 {
    value.floor() as i32
}

#[test]
fn tiled_client_size_matches_content_tile() {
    let tile = Rect::new(0, 0, 600, 742);

    assert_eq!(tiled_client_size(tile), (600, 742));
}

#[test]
fn tiled_location_places_content_at_tile_origin() {
    let tile = Rect::new(600, 0, 600, 742);

    assert_eq!(tiled_window_location(tile), (600, 0));
}

#[test]
fn presentation_changes_rendered_geometry_without_changing_the_tile() {
    let tile = Rect::new(600, 0, 600, 742);
    let layout_area = Rect::new(0, 0, 1200, 742);
    let output_size = (1200, 800);

    assert_eq!(
        presented_rectangle(Presentation::Normal, tile, layout_area, output_size),
        tile
    );
    assert_eq!(
        presented_rectangle(Presentation::Expanded, tile, layout_area, output_size),
        layout_area
    );
    assert_eq!(
        presented_rectangle(Presentation::Fullscreen, tile, layout_area, output_size),
        Rect::new(0, 0, 1200, 800)
    );
}

#[test]
fn workspace_edge_hold_opens_only_after_the_full_delay() {
    let started = 5 * MILLISECOND;

    assert!(!workspace_edge_hold_elapsed(
        started,
        started + WORKSPACE_EDGE_HOLD_DELAY - MILLISECOND
    ));
    assert!(workspace_edge_hold_elapsed(
        started,
        started + WORKSPACE_EDGE_HOLD_DELAY
    ));
}

#[test]
fn workspace_edge_hold_latches_until_the_pointer_leaves_the_edge() {
    let now: u64 = 42;
    let mut started = None;
    let mut latched = Some(WorkspaceDirection::Next);

    assert!(update_workspace_edge_hold_state(
        &mut started,
        &mut latched,
        Some(WorkspaceDirection::Next),
        now,
    ));
    assert_eq!(started, None);

    assert!(!update_workspace_edge_hold_state(
        &mut started,
        &mut latched,
        None,
        now,
    ));
    assert_eq!(latched, None);

    assert!(!update_workspace_edge_hold_state(
        &mut started,
        &mut latched,
        Some(WorkspaceDirection::Next),
        now,
    ));
    assert_eq!(started, Some((WorkspaceDirection::Next, now)));
}

#[test]
fn bar_geometry_targets_only_an_inactive_workspace_segment() {
    let targets = [
        (1, Rect::new(500, 8, 100, 42)),
        (2, Rect::new(605, 8, 120, 42)),
    ];
    let output = (1280, 800);

    assert_eq!(
        workspace_bar_drop_target_at(&targets, 1, floored(650.0), floored(770.0), output),
        Some((2, Rect::new(605, 750, 120, 42)))
    );
    assert_eq!(
        workspace_bar_drop_target_at(&targets, 1, floored(550.0), floored(770.0), output),
        None
    );
    assert_eq!(
        workspace_bar_drop_target_at(&targets, 1, floored(650.0), floored(700.0), output),
        None
    );
}

#[test]
fn an_edge_hold_keeps_its_start_and_restarts_on_the_other_edge() {
    let mut started = None;
    let mut latched = None;
    assert!(!update_workspace_edge_hold_state(
        &mut started,
        &mut latched,
        Some(WorkspaceDirection::Previous),
        10u64,
    ));
    assert!(!update_workspace_edge_hold_state(
        &mut started,
        &mut latched,
        Some(WorkspaceDirection::Previous),
        20u64,
    ));
    assert_eq!(started, Some((WorkspaceDirection::Previous, 10)));
    assert!(!update_workspace_edge_hold_state(
        &mut started,
        &mut latched,
        Some(WorkspaceDirection::Next),
        30u64,
    ));
    assert_eq!(started, Some((WorkspaceDirection::Next, 30)));
    assert!(!workspace_edge_hold_elapsed(100, 50));
}

#[test]
fn tiles_are_at_least_the_minimum_plus_the_gutter() {
    assert_eq!(minimum_tile_size((0, 0)), (326, 246));
    assert_eq!(minimum_tile_size((500, 100)), (506, 246));
    assert_eq!(minimum_tile_size((-5, 900)), (326, 906));
}

#[test]
fn the_layout_area_leaves_room_for_the_bar() {
    assert_eq!(layout_area((1280, 800), true), Rect::new(0, 0, 1280, 742));
    assert_eq!(layout_area((1280, 800), false), Rect::new(0, 0, 1280, 800));
    assert_eq!(layout_area((0, 20), true), Rect::new(0, 0, 1, 1));
    assert_eq!(tiled_client_size(Rect::new(0, 0, 0, -4)), (1, 1));
}

#[test]
fn points_on_the_far_edges_are_outside() {
    let rectangle = Rect::new(10, 20, 30, 40);
    assert!(point_in_rect(10, 20, rectangle));
    assert!(point_in_rect(39, 59, rectangle));
    assert!(!point_in_rect(40, 30, rectangle));
    assert!(!point_in_rect(20, 60, rectangle));
    assert!(!point_in_rect(9, 30, rectangle));
}

#[test]
fn bar_segments_replace_earlier_ones_and_must_lie_within_the_bar() {
    let mut targets = vec![(1, Rect::new(0, 0, 10, 10)), (2, Rect::new(20, 0, 10, 10))];
    assert!(record_bar_drop_target(&mut targets, 1, Rect::new(40, 8, 100, 42), 1280));
    assert_eq!(
        targets,
        [(2, Rect::new(20, 0, 10, 10)), (1, Rect::new(40, 8, 100, 42))]
    );
    assert!(!record_bar_drop_target(&mut targets, 3, Rect::new(0, 8, 100, 51), 1280));
    assert!(!record_bar_drop_target(&mut targets, 3, Rect::new(1200, 8, 100, 10), 1280));
    assert!(!record_bar_drop_target(&mut targets, 3, Rect::new(-1, 8, 100, 10), 1280));
    assert!(!record_bar_drop_target(&mut targets, 3, Rect::new(0, 8, 0, 10), 1280));
    assert_eq!(targets.len(), 2);
}

#[test]
fn normal_is_the_default_presentation() {
    assert_eq!(Presentation::default(), Presentation::Normal);
}

#[test]
fn title_bars_name_the_application() {
    assert_eq!(chrome_application_name("Notes", "org.gnome.text-editor"), "text editor");
    assert_eq!(chrome_application_name("my_notes", ""), "my notes");
    assert_eq!(chrome_application_name("", "org.example."), "Application");
    assert_eq!(chrome_application_name("", "files"), "files");
}

fn chrome(id: usize, rectangle: Rect, collapsed: bool, controls: bool) -> WindowChrome {
    WindowChrome {
        window_id: id,
        rectangle,
        application: String::new(),
        title: String::new(),
        focused: false,
        revealed: false,
        collapsed,
        controls_enabled: controls,
        hovered_button: None,
    }
}

#[test]
fn chrome_is_revealed_for_hovered_server_decorated_windows() {
    let rectangle = Rect::new(100, 50, 500, 300);
    let shown = window_chrome(
        7,
        rectangle,
        false,
        Some(7),
        None,
        "Notes".into(),
        "org.example.Editor",
        true,
        Some(7),
        (585, 60),
    );
    assert_eq!(shown.application, "Editor");
    assert_eq!(shown.title, "Notes");
    assert!(shown.focused && shown.controls_enabled && shown.revealed && !shown.collapsed);
    assert_eq!(shown.hovered_button, Some(ChromeButton::Close));

    let hidden = window_chrome(
        8,
        rectangle,
        false,
        Some(7),
        None,
        String::new(),
        "",
        true,
        Some(7),
        (585, 60),
    );
    assert!(!hidden.focused && hidden.controls_enabled && !hidden.revealed);
    assert_eq!(hidden.hovered_button, None);

    let client_decorated = window_chrome(
        9, rectangle, false, None, Some(9), String::new(), "", false, Some(9), (585, 60),
    );
    assert!(!client_decorated.controls_enabled && !client_decorated.revealed);

    let spine = window_chrome(
        10, rectangle, true, None, None, String::new(), "", false, None, (0, 0),
    );
    assert!(spine.controls_enabled && spine.revealed);
}

#[test]
fn the_reveal_strip_and_the_hovered_title_bar_keep_the_chrome_hovered() {
    let chromes = [
        chrome(1, Rect::new(0, 0, 100, 100), false, false),
        chrome(2, Rect::new(0, 0, 100, 100), false, true),
        chrome(3, Rect::new(200, 0, 28, 100), true, true),
    ];
    assert_eq!(hovered_window_chrome(&chromes, 50, 3, None), Some(2));
    assert_eq!(hovered_window_chrome(&chromes, 50, 20, None), None);
    assert_eq!(hovered_window_chrome(&chromes, 50, 20, Some(2)), Some(2));
    assert_eq!(hovered_window_chrome(&chromes, 50, 40, Some(2)), None);
    assert_eq!(hovered_window_chrome(&chromes, 210, 90, None), Some(3));

    assert!(pointer_over_window_chrome(&chromes, Some(2), 50, 20));
    assert!(!pointer_over_window_chrome(&chromes, Some(2), 50, 40));
    assert!(pointer_over_window_chrome(&chromes, Some(3), 0, 0));
    assert!(!pointer_over_window_chrome(&chromes, Some(1), 50, 3));
    assert!(!pointer_over_window_chrome(&chromes, None, 50, 3));

    assert_eq!(pressed_window_chrome(&chromes, Some(3)), Some(2));
    assert_eq!(pressed_window_chrome(&chromes, Some(1)), None);
    assert_eq!(pressed_window_chrome(&chromes, None), None);
}

#[test]
fn presses_on_the_chrome_pick_the_button_under_the_pointer() {
    let rectangle = Rect::new(100, 50, 500, 300);
    let open = chrome(1, rectangle, false, true);
    assert_eq!(chrome_press(&open, 515, 60), ChromePress::ToggleExpanded);
    assert_eq!(chrome_press(&open, 550, 60), ChromePress::Collapse);
    assert_eq!(chrome_press(&open, 585, 60), ChromePress::Close);
    assert_eq!(chrome_press(&open, 400, 60), ChromePress::Drag);
    let spine = chrome(2, rectangle, true, true);
    assert_eq!(chrome_press(&spine, 585, 60), ChromePress::Restore);
    assert_eq!(toggled_presentation(Presentation::Expanded), Presentation::Normal);
    assert_eq!(toggled_presentation(Presentation::Normal), Presentation::Expanded);
    assert_eq!(toggled_presentation(Presentation::Fullscreen), Presentation::Expanded);
}

#[test]
fn normally_presented_windows_are_inset_by_the_gutter() {
    let tile = Rect::new(600, 0, 600, 742);
    let area = Rect::new(0, 0, 1200, 742);
    assert_eq!(
        presented_window_rectangle(Presentation::Normal, tile, area, (1200, 800)),
        Rect::new(603, 3, 594, 736)
    );
    assert_eq!(
        presented_window_rectangle(Presentation::Expanded, tile, area, (1200, 800)),
        area
    );
    assert_eq!(
        presented_window_rectangle(Presentation::Fullscreen, tile, area, (0, -3)),
        Rect::new(0, 0, 1, 1)
    );
}

#[test]
fn drops_target_the_tile_under_the_pointer_and_preview_the_move() {
    let area = Rect::new(0, 0, 1200, 800);
    let mut layout: Layout<u32> = Layout::default();
    layout.insert(1, area);
    layout.insert(2, area);
    layout.insert(3, area);
    let placements = layout.placements(area);
    assert_eq!(placements.len(), 3);

    let (under, rectangle) = tile_under(&layout, &3, 10, 10, area).unwrap();
    assert_eq!(under, 1);
    assert_eq!(rectangle, placements[0].1);
    let own = placements.iter().find(|(item, _)| *item == 3).unwrap().1;
    assert_eq!(tile_under(&layout, &3, own.x, own.y, area), None);
    assert_eq!(tile_under(&layout, &3, -5, 10, area), None);

    let mut moved = layout.clone();
    moved.move_next_to(&3, &1, DropEdge::Left, area, (1, 1));
    let expected = moved.placements(area).into_iter().find(|(item, _)| *item == 3).unwrap().1;
    assert_eq!(drop_preview(&layout, &3, &1, DropEdge::Left, area, (1, 1)), Some(expected));
    assert_eq!(drop_preview(&layout, &3, &3, DropEdge::Left, area, (1, 1)), None);
    assert_eq!(drop_preview(&layout, &9, &1, DropEdge::Left, area, (1, 1)), None);
}

#[test]
fn edge_previews_hug_the_sides_of_the_layout_area() {
    let area = Rect::new(0, 0, 1280, 742);
    assert_eq!(edge_preview(WorkspaceDirection::Previous, area), Rect::new(0, 0, 24, 742));
    assert_eq!(edge_preview(WorkspaceDirection::Next, area), Rect::new(1256, 0, 24, 742));
    assert_eq!(
        edge_preview(WorkspaceDirection::Next, Rect::new(10, 0, 20, 5)),
        Rect::new(10, 0, 20, 5)
    );
}

#[test]
fn windows_are_configured_by_presentation() {
    let area = Rect::new(0, 0, 1200, 742);
    assert_eq!(
        window_configuration(Presentation::Normal, Rect::new(3, 3, 594, 0), area, (1200, 800)),
        WindowConfiguration {
            size: (594, 1),
            bounds: (1200, 742),
            tiled: true,
            maximized: false,
            fullscreen: false,
        }
    );
    let expanded = window_configuration(Presentation::Expanded, area, area, (1200, 800));
    assert!(expanded.maximized && !expanded.tiled && !expanded.fullscreen);
    let fullscreen =
        window_configuration(Presentation::Fullscreen, Rect::new(0, 0, 1200, 800), area, (1200, 800));
    assert_eq!(fullscreen.bounds, (1200, 800));
    assert!(fullscreen.fullscreen);
}

#[test]
fn stacked_windows_are_hidden() {
    let area = Rect::new(0, 0, 1200, 800);
    let mut layout: Layout<u32> = Layout::default();
    layout.insert_with_minimum(1, area, (700, 500));
    layout.insert_with_minimum(2, area, (700, 500));
    assert_eq!(hidden_items(&layout, area), [1]);
    layout.focus(&1);
    assert_eq!(hidden_items(&layout, area), [2]);
    let empty: Layout<u32> = Layout::default();
    assert!(hidden_items(&empty, area).is_empty());
}

#[test]
fn drag_targets_prefer_the_bar_then_the_edge_then_a_tile() {
    let preview = Rect::new(1, 2, 3, 4);
    let bar = Some((7, preview));
    let edge = Some((WorkspaceDirection::Next, preview));
    let tile = Some((3usize, DropEdge::Top, preview));
    assert_eq!(
        window_drag_target(bar, edge, tile),
        Some(WindowDragTarget::WorkspaceBar { workspace_id: 7, preview })
    );
    assert_eq!(
        window_drag_target(None, edge, tile),
        Some(WindowDragTarget::WorkspaceEdge { direction: WorkspaceDirection::Next, preview })
    );
    let chosen = window_drag_target(None, None, tile).unwrap();
    assert_eq!(chosen.key(), WindowDragTargetKey::Tile(3, DropEdge::Top));
    assert_eq!(chosen.preview(), preview);
    assert_eq!(window_drag_target(None, None, None), None);
}

#[test]
fn drag_steps_report_target_changes_and_honour_the_latch() {
    let preview = Rect::new(0, 0, 24, 742);
    let next_edge = WindowDragTarget::WorkspaceEdge { direction: WorkspaceDirection::Next, preview };
    let mut started = None;
    let mut latched = None;

    let (kept, changed) = drag_step(None, Some(next_edge), &mut started, &mut latched, 5u64);
    assert_eq!(kept, Some(next_edge));
    assert!(changed);
    assert_eq!(started, Some((WorkspaceDirection::Next, 5)));

    let moved = WindowDragTarget::WorkspaceEdge {
        direction: WorkspaceDirection::Next,
        preview: Rect::new(9, 9, 9, 9),
    };
    let (_, changed) = drag_step(kept, Some(moved), &mut started, &mut latched, 6u64);
    assert!(!changed);

    latched = Some(WorkspaceDirection::Next);
    let (kept, changed) = drag_step(Some(moved), Some(next_edge), &mut started, &mut latched, 7u64);
    assert_eq!(kept, None);
    assert!(changed);
    assert_eq!(started, None);
}

#[test]
fn a_full_hold_latches_its_edge() {
    let mut started = Some((WorkspaceDirection::Next, 100u64));
    let mut latched = None;
    assert_eq!(open_held_edge(&mut started, &mut latched, 100 + WORKSPACE_EDGE_HOLD_DELAY - 1), None);
    assert_eq!(started, Some((WorkspaceDirection::Next, 100)));
    assert_eq!(
        open_held_edge(&mut started, &mut latched, 100 + WORKSPACE_EDGE_HOLD_DELAY),
        Some(WorkspaceDirection::Next)
    );
    assert_eq!(started, None);
    assert_eq!(latched, Some(WorkspaceDirection::Next));
    assert_eq!(open_held_edge(&mut started, &mut latched, u64::MAX), None);
}

#[test]
fn bar_search_stops_at_the_first_inactive_segment_under_the_pointer() {
    let targets = [
        (1, Rect::new(0, i32::MAX, 100, 42)),
        (2, Rect::new(605, 8, 120, 42)),
        (3, Rect::new(0, i32::MAX, 100, 42)),
    ];
    assert_eq!(
        workspace_bar_drop_target_at(&targets, 1, 650, 770, (1280, 800)),
        Some((2, Rect::new(605, 750, 120, 42)))
    );
}
