use shapebit::layout::{DropEdge, InsertResult, Layout, Rect, COLLAPSED_SPINE_SIZE};

fn wide() -> Rect {
    Rect::new(0, 0, 1200, 800)
}

#[test]
fn first_item_fills_the_area() {
    let mut layout = Layout::default();
    assert_eq!(layout.insert('a', wide()), InsertResult::First);
    assert_eq!(layout.placements(wide()), [('a', wide())]);
}

#[test]
fn splits_the_focused_regions_longer_axis() {
    let mut layout = Layout::default();
    layout.insert('a', wide());
    layout.insert('b', wide());
    layout.insert('c', wide());
    assert_eq!(
        layout.placements(wide()),
        [
            ('a', Rect::new(0, 0, 600, 800)),
            ('b', Rect::new(600, 0, 600, 400)),
            ('c', Rect::new(600, 400, 600, 400)),
        ]
    );
}

#[test]
fn inserts_beside_explicit_focus() {
    let mut layout = Layout::default();
    layout.insert('a', wide());
    layout.insert('b', wide());
    assert!(layout.focus(&'a'));
    layout.insert('c', wide());
    assert_eq!(
        layout.placements(wide()),
        [
            ('a', Rect::new(0, 0, 600, 400)),
            ('c', Rect::new(0, 400, 600, 400)),
            ('b', Rect::new(600, 0, 600, 800)),
        ]
    );
}

#[test]
fn stacks_when_a_split_would_violate_a_minimum_size() {
    let mut layout = Layout::default();
    layout.insert_with_minimum('a', wide(), (700, 500));
    assert_eq!(
        layout.insert_with_minimum('b', wide(), (700, 500)),
        InsertResult::Stacked
    );
    assert_eq!((layout.len(), layout.region_count()), (2, 1));
    assert_eq!(layout.placements(wide()), [('b', wide())]);
    assert_eq!(layout.items(), ['a', 'b']);
}

#[test]
fn focusing_a_stack_member_makes_it_visible() {
    let mut layout = Layout::default();
    layout.insert_with_minimum('a', wide(), (700, 500));
    layout.insert_with_minimum('b', wide(), (700, 500));
    assert!(layout.focus(&'a'));
    assert_eq!(layout.placements(wide()), [('a', wide())]);
}

#[test]
fn closing_the_active_stack_member_restores_the_remaining_member() {
    let mut layout = Layout::default();
    layout.insert_with_minimum('a', wide(), (700, 500));
    layout.insert_with_minimum('b', wide(), (700, 500));
    assert!(layout.retain(|item| *item != 'b'));
    assert_eq!(layout.placements(wide()), [('a', wide())]);
    assert_eq!(layout.focused(), Some(&'a'));
}

#[test]
fn removing_a_region_gives_its_space_to_its_sibling() {
    let mut layout = Layout::default();
    layout.insert('a', wide());
    layout.insert('b', wide());
    assert!(layout.focus(&'a'));
    layout.insert('c', wide());
    assert!(layout.retain(|item| *item != 'b'));
    assert_eq!(
        layout.placements(wide()),
        [
            ('a', Rect::new(0, 0, 1200, 400)),
            ('c', Rect::new(0, 400, 1200, 400)),
        ]
    );
}

#[test]
fn collapsing_a_region_creates_a_spine_and_expands_its_sibling() {
    let mut layout = Layout::default();
    layout.insert('a', wide());
    layout.insert('b', wide());

    assert!(layout.collapse(&'a'));
    assert_eq!(
        layout.collapsed_placements(wide()),
        [('a', Rect::new(0, 0, COLLAPSED_SPINE_SIZE, 800))]
    );
    assert_eq!(
        layout.placements(wide()),
        [(
            'b',
            Rect::new(COLLAPSED_SPINE_SIZE, 0, 1200 - COLLAPSED_SPINE_SIZE, 800)
        )]
    );

    assert!(layout.restore(&'a'));
    assert_eq!(
        layout.placements(wide()),
        [
            ('a', Rect::new(0, 0, 600, 800)),
            ('b', Rect::new(600, 0, 600, 800)),
        ]
    );
}

#[test]
fn removing_focus_restores_the_most_recent_surviving_item() {
    let mut layout = Layout::default();
    layout.insert('a', wide());
    layout.insert('b', wide());
    layout.insert('c', wide());
    assert!(layout.focus(&'a'));
    assert!(layout.focus(&'b'));
    assert!(layout.focus(&'c'));

    assert!(layout.retain(|item| *item != 'c'));
    assert_eq!(layout.focused(), Some(&'b'));
}

#[test]
fn boundary_resize_persists_a_ratio_and_respects_minimums() {
    let mut layout = Layout::default();
    layout.insert_with_minimum('a', wide(), (300, 200));
    layout.insert_with_minimum('b', wide(), (300, 200));
    let boundary = layout.boundary_at(600, 300, wide(), 6).unwrap();

    assert!(layout.resize_boundary(&boundary, 800, 300, wide()));
    assert_eq!(
        layout.placements(wide()),
        [
            ('a', Rect::new(0, 0, 799, 800)),
            ('b', Rect::new(799, 0, 401, 800)),
        ]
    );

    assert!(layout.resize_boundary(&boundary, 1100, 300, wide()));
    assert_eq!(
        layout.placements(wide()),
        [
            ('a', Rect::new(0, 0, 900, 800)),
            ('b', Rect::new(900, 0, 300, 800)),
        ]
    );
}

#[test]
fn moves_an_existing_item_to_a_requested_target_edge() {
    let mut layout = Layout::default();
    layout.insert('a', wide());
    layout.insert('b', wide());
    layout.insert('c', wide());

    assert_eq!(
        layout.move_next_to(&'c', &'a', DropEdge::Left, wide(), (1, 1)),
        Some(InsertResult::Tiled)
    );
    assert_eq!(
        layout.placements(wide()),
        [
            ('c', Rect::new(0, 0, 300, 800)),
            ('a', Rect::new(300, 0, 300, 800)),
            ('b', Rect::new(600, 0, 600, 800)),
        ]
    );
    assert_eq!(layout.focused(), Some(&'c'));
}

#[test]
fn rejects_an_invalid_move_without_mutating_the_layout() {
    let mut layout = Layout::default();
    layout.insert('a', wide());
    layout.insert('b', wide());
    let unchanged = layout.clone();

    assert_eq!(
        layout.move_next_to(&'a', &'z', DropEdge::Bottom, wide(), (1, 1)),
        None
    );
    assert_eq!(layout, unchanged);
}

#[test]
fn moved_item_stacks_when_the_requested_split_is_too_small() {
    let mut layout = Layout::default();
    layout.insert('a', wide());
    layout.insert('b', wide());

    assert_eq!(
        layout.move_next_to(&'b', &'a', DropEdge::Left, wide(), (700, 500)),
        Some(InsertResult::Stacked)
    );
    assert_eq!(layout.placements(wide()), [('b', wide())]);
    assert_eq!((layout.len(), layout.region_count()), (2, 1));
}

fn disjoint(a: Rect, b: Rect) -> bool {
    a.x + a.width <= b.x || b.x + b.width <= a.x || a.y + a.height <= b.y || b.y + b.height <= a.y
}

#[test]
fn expanded_placements_tile_the_area() {
    let area = Rect::new(10, 20, 1001, 777);
    let mut layout = Layout::default();
    for item in ['a', 'b', 'c', 'd', 'e'] {
        layout.insert(item, area);
    }
    let placements = layout.placements(area);
    assert_eq!(placements.len(), layout.region_count());
    assert!(layout.collapsed_placements(area).is_empty());
    let mut covered: i64 = 0;
    for (i, (_, r)) in placements.iter().enumerate() {
        assert!(r.width >= 0 && r.height >= 0);
        assert!(area.x <= r.x && r.x + r.width <= area.x + area.width);
        assert!(area.y <= r.y && r.y + r.height <= area.y + area.height);
        covered += r.width as i64 * r.height as i64;
        for (j, (_, s)) in placements.iter().enumerate() {
            if i != j {
                assert!(disjoint(*r, *s));
            }
        }
    }
    assert_eq!(covered, 1001 * 777);
}

#[test]
fn no_item_is_both_expanded_and_collapsed() {
    let mut layout = Layout::default();
    for item in ['a', 'b', 'c'] {
        layout.insert(item, wide());
    }
    assert!(layout.collapse(&'b'));
    let expanded: Vec<char> = layout.placements(wide()).iter().map(|(t, _)| *t).collect();
    let collapsed: Vec<char> = layout.collapsed_placements(wide()).iter().map(|(t, _)| *t).collect();
    assert_eq!(collapsed, ['b']);
    assert_eq!(expanded.len() + collapsed.len(), layout.region_count());
    assert!(expanded.iter().all(|t| !collapsed.contains(t)));
}

#[test]
fn resizing_to_the_same_point_twice_changes_nothing() {
    let mut layout = Layout::default();
    layout.insert_with_minimum('a', wide(), (300, 200));
    layout.insert_with_minimum('b', wide(), (300, 200));
    let boundary = layout.boundary_at(600, 300, wide(), 6).unwrap();
    assert!(layout.resize_boundary(&boundary, 700, 300, wide()));
    let once = layout.placements(wide());
    assert!(!layout.resize_boundary(&boundary, 700, 300, wide()));
    assert_eq!(layout.placements(wide()), once);
}

#[test]
fn tiling_adds_a_region_and_stacking_does_not() {
    let mut layout = Layout::default();
    assert_eq!(layout.insert_with_minimum('a', wide(), (300, 200)), InsertResult::First);
    assert_eq!(layout.region_count(), 1);
    assert_eq!(layout.insert_with_minimum('b', wide(), (300, 200)), InsertResult::Tiled);
    assert_eq!(layout.region_count(), 2);
    assert_eq!(layout.insert_with_minimum('c', wide(), (700, 700)), InsertResult::Stacked);
    assert_eq!(layout.region_count(), 2);
    assert_eq!(
        layout.move_next_to(&'a', &'b', DropEdge::Bottom, wide(), (1, 1)),
        Some(InsertResult::Stacked)
    );
    assert_eq!(layout.region_count(), 1);
}
