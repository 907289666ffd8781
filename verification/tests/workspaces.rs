use shapebit::layout::{InsertResult, Rect};
use shapebit::workspaces::{WorkspaceDirection, WorkspaceSet, WorkspaceSnapshot};

fn ids(workspaces: &WorkspaceSet<usize>) -> Vec<u32> {
    workspaces.iter().map(|workspace| workspace.id).collect::<Vec<_>>()
}

fn area() -> Rect {
    Rect::new(0, 0, 1200, 800)
}

#[test]
fn starts_with_one_active_workspace() {
    let workspaces: WorkspaceSet<usize> = WorkspaceSet::default();

    assert_eq!(workspaces.active_id(), 1);
    assert!(workspaces.contains(1));
}

#[test]
fn creates_and_activates_workspace_with_stable_identity() {
    let mut workspaces: WorkspaceSet<usize> = WorkspaceSet::default();

    let (id, position) = workspaces.create();

    assert_eq!((id, position), (2, 1));
    assert!(workspaces.activate(id));
    assert_eq!(workspaces.active_id(), 2);
}

#[test]
fn rejects_unknown_workspace_identity() {
    let mut workspaces: WorkspaceSet<usize> = WorkspaceSet::default();

    assert!(!workspaces.activate(99));
    assert_eq!(workspaces.active_id(), 1);
}

#[test]
fn reorders_without_changing_the_active_workspace() {
    let mut workspaces: WorkspaceSet<usize> = WorkspaceSet::default();
    let (second, _) = workspaces.create();
    let (third, _) = workspaces.create();
    assert!(workspaces.activate(second));

    assert!(workspaces.reorder(third, 0));
    assert_eq!(
        workspaces
            .iter()
            .map(|workspace| workspace.id)
            .collect::<Vec<_>>(),
        [third, 1, second]
    );
    assert_eq!(workspaces.active_id(), second);
    assert!(!workspaces.reorder(99, 0));
}

#[test]
fn creates_background_workspaces_on_either_side() {
    let mut workspaces: WorkspaceSet<usize> = WorkspaceSet::default();
    let (right, right_position) = workspaces.create_at(workspaces.len());
    let (left, left_position) = workspaces.create_at(0);

    assert_eq!((left_position, right_position), (0, 1));
    assert_eq!(workspaces.active_id(), 1);
    assert_eq!(
        workspaces
            .iter()
            .map(|workspace| workspace.id)
            .collect::<Vec<_>>(),
        [left, 1, right]
    );
    assert_eq!(
        workspaces.adjacent_id(WorkspaceDirection::Previous),
        Some(left)
    );
    assert_eq!(
        workspaces.adjacent_id(WorkspaceDirection::Next),
        Some(right)
    );
}

#[test]
fn positions_past_the_end_append_and_reorders_clamp_to_the_last_position() {
    let mut workspaces: WorkspaceSet<usize> = WorkspaceSet::default();
    assert_eq!(workspaces.create_at(usize::MAX), (2, 1));
    assert_eq!(workspaces.create_at(7), (3, 2));
    assert!(workspaces.reorder(1, u32::MAX));
    assert_eq!(ids(&workspaces), [2, 3, 1]);
    assert!(!workspaces.reorder(1, 2));
    assert_eq!(workspaces.active_id(), 1);
    assert!(workspaces.is_active(1));
    assert!(!workspaces.is_active(2));
    assert_eq!(workspaces.adjacent_id(WorkspaceDirection::Next), None);
    assert_eq!(workspaces.adjacent_id(WorkspaceDirection::Previous), Some(3));
    assert_eq!(workspaces.len(), 3);
}

#[test]
fn snapshots_report_positions_and_the_active_workspace() {
    let mut workspaces: WorkspaceSet<usize> = WorkspaceSet::default();
    workspaces.create_at(0);
    assert_eq!(
        workspaces.workspace_snapshots(),
        [
            WorkspaceSnapshot { id: 2, position: 0, active: false },
            WorkspaceSnapshot { id: 1, position: 1, active: true },
        ]
    );
}

#[test]
fn transfers_move_an_item_between_workspaces() {
    let mut workspaces: WorkspaceSet<usize> = WorkspaceSet::default();
    let (second, _) = workspaces.create();
    assert_eq!(workspaces.active_layout_mut().insert(10, area()), InsertResult::First);
    workspaces.active_layout_mut().insert(11, area());

    assert_eq!(workspaces.transfer(&10, second, area(), (1, 1)), Some((InsertResult::First, 1)));
    assert_eq!(workspaces.active_layout().items(), [11]);
    assert_eq!(workspaces.layout_mut(second).unwrap().items(), [10]);

    assert_eq!(workspaces.transfer(&10, second, area(), (1, 1)), None);
    assert_eq!(workspaces.transfer(&12, second, area(), (1, 1)), None);
    assert_eq!(workspaces.transfer(&11, 99, area(), (1, 1)), None);
    assert!(workspaces.layout_mut(99).is_none());
}

#[test]
fn retaining_alive_items_reports_changes() {
    let mut workspaces: WorkspaceSet<usize> = WorkspaceSet::default();
    let (second, _) = workspaces.create();
    workspaces.active_layout_mut().insert(1, area());
    workspaces.active_layout_mut().insert(2, area());
    workspaces.layout_mut(second).unwrap().insert(3, area());

    assert!(!workspaces.retain_alive(&|_: &usize| true));
    assert!(workspaces.retain_alive(&|item: &usize| *item != 3));
    assert_eq!(workspaces.active_layout().items(), [1, 2]);
    assert_eq!(workspaces.layout_mut(second).unwrap().len(), 0);
    assert_eq!(ids(&workspaces), [1, 2]);
}

#[test]
fn edge_transfers_open_a_background_workspace_when_there_is_none() {
    let mut workspaces: WorkspaceSet<usize> = WorkspaceSet::default();
    workspaces.active_layout_mut().insert(10, area());
    workspaces.active_layout_mut().insert(11, area());

    let (target, created, moved) =
        workspaces.transfer_at_edge(&10, WorkspaceDirection::Previous, area(), (1, 1));
    assert_eq!((target, created, moved), (2, true, Some((InsertResult::First, 1))));
    assert_eq!(ids(&workspaces), [2, 1]);
    assert_eq!(workspaces.active_id(), 1);

    let (target, created, moved) =
        workspaces.transfer_at_edge(&11, WorkspaceDirection::Previous, area(), (1, 1));
    assert_eq!(target, 2);
    assert!(!created);
    assert_eq!(moved.map(|(_, source)| source), Some(1));
    assert_eq!(workspaces.layout_mut(2).unwrap().len(), 2);

    assert_eq!(workspaces.neighbour(WorkspaceDirection::Next), (3, true));
    assert_eq!(ids(&workspaces), [2, 1, 3]);
    assert_eq!(workspaces.create_background_workspace(WorkspaceDirection::Previous), (4, 0));
    assert_eq!(ids(&workspaces), [4, 2, 1, 3]);
}

#[test]
fn items_are_found_with_their_workspaces() {
    let mut workspaces: WorkspaceSet<usize> = WorkspaceSet::default();
    let (second, _) = workspaces.create();
    workspaces.active_layout_mut().insert(10, area());
    workspaces.layout_mut(second).unwrap().insert(20, area());
    workspaces.layout_mut(second).unwrap().insert(21, area());

    assert_eq!(workspaces.workspace_of(&21), Some(second));
    assert_eq!(workspaces.workspace_of(&10), Some(1));
    assert_eq!(workspaces.workspace_of(&99), None);
    let mut entries = workspaces.items_with_workspaces();
    assert_eq!(entries.len(), 3);
    assert_eq!(entries[0], (1, 10));
    entries.sort();
    assert_eq!(entries, [(1, 10), (2, 20), (2, 21)]);
}
