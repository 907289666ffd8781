//! What ending a window drag does to the Workspaces, and what the
//! compositor does after a window changes Workspace.

use vstd::prelude::*;

use crate::layout::geometry::Rect;
use crate::layout::model::{layout_items, layout_move_next_to, layout_wf, DropEdge, InsertResult, LayoutItem};
use crate::workspaces::{
    workspaces_wf, ws_adjacent_id, ws_neighbour, ws_transfer, WorkspaceDirection, WorkspaceSet, WorkspaceSetView,
};

verus! {

/// Where a dragged window is dropped: next to a tile of the shown layout,
/// on a bar segment, or at a screen edge.
#[derive(Debug)]
pub enum DropTarget<T> {
    Tile { window: T, edge: DropEdge },
    WorkspaceBar { workspace_id: u32 },
    WorkspaceEdge { direction: WorkspaceDirection },
}

/// What a drop did.
#[derive(Clone, Copy, Debug, PartialEq, Eq)]
pub enum DropOutcome {
    /// The window moved next to a tile; the compositor focuses it.
    Tiled(InsertResult),
    /// The shown layout is configured again; `focus` says whether the
    /// window is focused (it arrived by a held edge) or merely restored.
    Restored { focus: bool },
    /// The window moved to the Workspace of a bar segment; `None` when
    /// nothing moved.
    Transferred { workspace_id: u32, moved: Option<(InsertResult, u32)> },
    /// The window moved to the neighbouring Workspace, `created` when that
    /// Workspace was made for it; `None` when nothing moved.
    TransferredAtEdge { workspace_id: u32, created: bool, moved: Option<(InsertResult, u32)> },
}

/// What dropping `dragged` on `target` does: next to a tile it moves within
/// the shown layout; on a bar segment it moves to that Workspace; at an
/// edge it moves to the neighbouring Workspace (made when there is none);
/// otherwise nothing moves and the window keeps focus only when a held
/// edge brought it here.
pub open spec fn spec_drop<T>(
    v: WorkspaceSetView<T>,
    dragged: T,
    target: Option<DropTarget<T>>,
    area: Rect,
    minimum: (i32, i32),
    transferred_during_hold: bool,
) -> (WorkspaceSetView<T>, DropOutcome) {
    match target {
        Some(DropTarget::Tile { window, edge }) => {
            let (layout, result) = layout_move_next_to(
                v.layouts[v.active],
                dragged,
                window,
                edge,
                area,
                minimum,
            );
            (
                WorkspaceSetView { layouts: v.layouts.update(v.active, layout), ..v },
                match result {
                    Some(placement) => DropOutcome::Tiled(placement),
                    None => DropOutcome::Restored { focus: transferred_during_hold },
                },
            )
        },
        Some(DropTarget::WorkspaceBar { workspace_id }) => {
            let (after, moved) = ws_transfer(v, dragged, workspace_id, area, minimum);
            (after, DropOutcome::Transferred { workspace_id, moved })
        },
        Some(DropTarget::WorkspaceEdge { direction }) => {
            let (between, (workspace_id, created)) = ws_neighbour(v, direction);
            let (after, moved) = ws_transfer(between, dragged, workspace_id, area, minimum);
            (after, DropOutcome::TransferredAtEdge { workspace_id, created, moved })
        },
        None => (v, DropOutcome::Restored { focus: transferred_during_hold }),
    }
}

/// Ends a drag of `dragged` over `target` (see `spec_drop`).
pub fn end_drag<T: LayoutItem>(
    workspaces: &mut WorkspaceSet<T>,
    dragged: &T,
    target: Option<DropTarget<T>>,
    area: Rect,
    minimum: (i32, i32),
    transferred_during_hold: bool,
) -> (outcome: DropOutcome)
    requires
        old(workspaces).wf(),
        area.is_bounded(),
        forall|i: int|
            0 <= i < old(workspaces)@.layouts.len() ==> layout_items(
                #[trigger] old(workspaces)@.layouts[i],
            ).len() < usize::MAX,
        target matches Some(DropTarget::WorkspaceEdge { direction }) ==> (ws_adjacent_id(
            old(workspaces)@,
            direction,
        ) is None ==> old(workspaces)@.next_id < u32::MAX),
    ensures
        final(workspaces).wf(),
        (final(workspaces)@, outcome) == spec_drop(
            old(workspaces)@,
            *dragged,
            target,
            area,
            minimum,
            transferred_during_hold,
        ),
{
    match target {
        Some(DropTarget::Tile { window, edge }) => {
            let ghost before = workspaces@;
            let layout = workspaces.active_layout_mut();
            let result = layout.move_next_to(dragged, &window, edge, area, minimum);
            proof {
                let after = workspaces@;
                assert forall|i: int| 0 <= i < after.layouts.len() implies layout_wf(
                    #[trigger] after.layouts[i],
                ) by {
                    if i != before.active {
                        assert(after.layouts[i] == before.layouts[i]);
                    }
                }
                assert(workspaces_wf(after));
            }
            match result {
                Some(placement) => DropOutcome::Tiled(placement),
                None => DropOutcome::Restored { focus: transferred_during_hold },
            }
        },
        Some(DropTarget::WorkspaceBar { workspace_id }) => {
            let moved = workspaces.transfer(dragged, workspace_id, area, minimum);
            DropOutcome::Transferred { workspace_id, moved }
        },
        Some(DropTarget::WorkspaceEdge { direction }) => {
            let (workspace_id, created, moved) = workspaces.transfer_at_edge(
                dragged,
                direction,
                area,
                minimum,
            );
            DropOutcome::TransferredAtEdge { workspace_id, created, moved }
        },
        None => DropOutcome::Restored { focus: transferred_during_hold },
    }
}

/// What the compositor does once a window has changed Workspace.
#[derive(Clone, Copy, Debug, PartialEq, Eq, Structural)]
pub enum TransferFollowUp {
    /// The window left the shown Workspace: it is unmapped unless it is
    /// being dragged, and focus falls back to the shown layout's focused
    /// window, or to nothing.
    FocusFallback { unmap: bool },
    /// The window arrived on the shown Workspace and is focused.
    FocusWindow,
    /// Neither Workspace is shown: only the bar is redrawn.
    BarOnly,
}

/// The follow-up of a transfer: leaving the shown Workspace comes first,
/// then arriving on it.
pub fn transfer_follow_up(source_was_active: bool, target_is_active: bool, dragged: bool) -> (follow_up:
    TransferFollowUp)
    ensures
        follow_up == if source_was_active {
            TransferFollowUp::FocusFallback { unmap: !dragged }
        } else if target_is_active {
            TransferFollowUp::FocusWindow
        } else {
            TransferFollowUp::BarOnly
        },
{
    if source_was_active {
        TransferFollowUp::FocusFallback { unmap: !dragged }
    } else if target_is_active {
        TransferFollowUp::FocusWindow
    } else {
        TransferFollowUp::BarOnly
    }
}

} // verus!
