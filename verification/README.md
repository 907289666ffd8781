# shapebit

The window-management core of the ShapeBit desktop, written in Verus and
proved against its contracts.

- `src/layout/` — the tiling of one Workspace: a tree of splits and regions
  (stacks of windows), insertion beside the focus or at a chosen edge,
  focus history, collapsing to spines, boundary resizing, and where each
  window is placed. `laws.rs` states what holds across operations.
- `src/workspaces.rs` — the session's Workspaces with stable identities,
  exactly one active; creation, activation, reordering and moving a window
  between Workspaces.
- `src/state.rs` — the compositor's policy on plain values: presentation,
  tile sizes, title-bar hover and presses, drag targets, the bar's drop
  segments and the edge hold that opens a neighbouring Workspace.
- `src/drop.rs` — what ending a window drag does to the Workspaces, and
  what follows a window changing Workspace.
- `src/chrome.rs` — title-bar geometry, labels and icon colours.
- `src/options.rs` — the compositor's command line.
- `src/shell.rs`, `src/shell_supervisor.rs` — the shell manager's
  requests, shell readiness and the development shell's restart schedule.
- `src/presentation.rs`, `src/protocol_state.rs`, `src/overview.rs`,
  `src/entries.rs` — the shell's model: what it knows of Workspaces and
  windows, how it groups windows by application, the launcher's order and
  search, and the Overview's card order, selection and navigation.
- `src/bar.rs` — the Workspace bar's segments: order, numbers, tooltips
  and application badges.
- `src/text.rs` — character-level text helpers.
- `tests/` — scenarios run against the compiled library.
- `app/` — glue for the programs around the library: reading the command
  line from the operating system, clock readings, and the floating-point
  pointer geometry and colours.
