use shapebit::drop::{end_drag, transfer_follow_up, DropOutcome, DropTarget, TransferFollowUp};
use shapebit::layout::{DropEdge, InsertResult, Rect};
use shapebit::workspaces::{WorkspaceDirection, WorkspaceSet};

fn area() -> Rect {
    Rect::new(0, 0, 1200, 800)
}

fn two_tiles() -> WorkspaceSet<usize> {
    let mut workspaces: WorkspaceSet<usize> = WorkspaceSet::default();
    workspaces.active_layout_mut().insert(10, area());
    workspaces.active_layout_mut().insert(11, area());
    workspaces
}

#[test]
fn dropping_next_to_a_tile_moves_the_window_there() {
    let mut workspaces = two_tiles();
    let target = DropTarget::Tile { window: 11, edge: DropEdge::Right };
    let outcome = end_drag(&mut workspaces, &10, Some(target), area(), (1, 1), false);
    assert_eq!(outcome, DropOutcome::Tiled(InsertResult::Tiled));
    assert_eq!(workspaces.active_layout().items(), [11, 10]);
    assert_eq!(workspaces.active_layout().focused(), Some(&10));
}

#[test]
fn a_drop_on_nothing_restores_the_layout_or_keeps_a_held_window_focused() {
    let mut workspaces = two_tiles();
    let on_itself = DropTarget::Tile { window: 10, edge: DropEdge::Left };
    assert_eq!(
        end_drag(&mut workspaces, &10, Some(on_itself), area(), (1, 1), false),
        DropOutcome::Restored { focus: false }
    );
    assert_eq!(workspaces.active_layout().items(), [10, 11]);
    assert_eq!(
        end_drag(&mut workspaces, &10, None, area(), (1, 1), true),
        DropOutcome::Restored { focus: true }
    );
    assert_eq!(workspaces.active_layout().items(), [10, 11]);
}

#[test]
fn a_bar_drop_moves_the_window_to_that_workspace() {
    let mut workspaces = two_tiles();
    let (second, _) = workspaces.create();
    let target = DropTarget::WorkspaceBar { workspace_id: second };
    assert_eq!(
        end_drag(&mut workspaces, &10, Some(target), area(), (1, 1), false),
        DropOutcome::Transferred { workspace_id: second, moved: Some((InsertResult::First, 1)) }
    );
    assert_eq!(workspaces.active_layout().items(), [11]);
    assert_eq!(workspaces.layout_mut(second).unwrap().items(), [10]);
}

#[test]
fn an_edge_drop_creates_the_neighbouring_workspace_when_there_is_none() {
    let mut workspaces = two_tiles();
    let target = DropTarget::WorkspaceEdge { direction: WorkspaceDirection::Next };
    assert_eq!(
        end_drag(&mut workspaces, &11, Some(target), area(), (1, 1), false),
        DropOutcome::TransferredAtEdge {
            workspace_id: 2,
            created: true,
            moved: Some((InsertResult::First, 1)),
        }
    );
    assert_eq!(workspaces.len(), 2);
    assert_eq!(workspaces.active_id(), 1);
    assert_eq!(workspaces.layout_mut(2).unwrap().items(), [11]);
}

#[test]
fn leaving_the_shown_workspace_falls_back_before_arriving_focuses() {
    assert_eq!(
        transfer_follow_up(true, false, false),
        TransferFollowUp::FocusFallback { unmap: true }
    );
    assert_eq!(
        transfer_follow_up(true, true, true),
        TransferFollowUp::FocusFallback { unmap: false }
    );
    assert_eq!(transfer_follow_up(false, true, false), TransferFollowUp::FocusWindow);
    assert_eq!(transfer_follow_up(false, false, true), TransferFollowUp::BarOnly);
}
