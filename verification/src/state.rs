//! The compositor's window-management policy on plain values: where a
//! presented window goes, how large a tile must be, which bar segment or
//! screen edge a dragged window targets, and when an edge hold opens the
//! neighbouring Workspace. Pointer positions are whole logical units (the
//! pointer position rounded down); times are nanoseconds on one clock.

use vstd::prelude::*;

use crate::chrome::{
    chrome_button_at, compositor_controls_enabled, spec_chrome_button_at, ChromeButton,
    WindowChrome, CHROME_HEIGHT, CHROME_REVEAL_HEIGHT, WINDOW_GUTTER,
};
use crate::layout::geometry::{max_int, min_int, Rect};
use crate::layout::laws::law_placements_are_bounded;
use crate::layout::model::{
    layout_items, layout_move_next_to, layout_placements, DropEdge, LayoutItem,
};
use crate::layout::Layout;
use crate::text::{after_last, char_count, copy_str, last_segment, push_char};
use crate::workspaces::WorkspaceDirection;

verus! {

/// Height of the shell bar at the bottom of the output.
pub const BAR_HEIGHT: i32 = 58;

/// The smallest tile width a window is given, gutter excluded.
pub const MINIMUM_TILE_WIDTH: i32 = 320;

/// The smallest tile height a window is given, gutter excluded.
pub const MINIMUM_TILE_HEIGHT: i32 = 240;

/// Width of the strip at each side of the output that targets the
/// neighbouring Workspace.
pub const WORKSPACE_EDGE_ZONE: i32 = 24;

/// How long a dragged window must stay on an edge before the neighbouring
/// Workspace opens: 650 ms.
pub const WORKSPACE_EDGE_HOLD_DELAY: u64 = 650_000_000;

/// How a window is shown.
#[derive(Clone, Copy, Debug, PartialEq, Eq, Structural)]
pub enum Presentation {
    Normal,
    Expanded,
    Fullscreen,
}

impl Default for Presentation {
    fn default() -> (presentation: Self)
        ensures
            presentation == Presentation::Normal,
    {
        Presentation::Normal
    }
}

/// Why a surface cannot become the shell bar.
#[derive(Clone, Copy, Debug, PartialEq, Eq, Structural)]
pub enum RegisterBarError {
    AlreadyHasBar,
    InvalidOutput,
}

/// Why a surface cannot become the Overview.
#[derive(Clone, Copy, Debug, PartialEq, Eq, Structural)]
pub enum RegisterOverviewError {
    AlreadyHasOverview,
    InvalidOutput,
}

/// Whether a surface may become the shell bar: refused while there is a
/// bar, then for an output the compositor does not manage.
pub fn register_bar(has_bar: bool, output_known: bool) -> (registered: Result<(), RegisterBarError>)
    ensures
        registered == if has_bar {
            Err(RegisterBarError::AlreadyHasBar)
        } else if !output_known {
            Err(RegisterBarError::InvalidOutput)
        } else {
            Ok(())
        },
{
    if has_bar {
        Err(RegisterBarError::AlreadyHasBar)
    } else if !output_known {
        Err(RegisterBarError::InvalidOutput)
    } else {
        Ok(())
    }
}

/// Whether a surface may become the Overview: refused while there is one,
/// then for an output the compositor does not manage.
pub fn register_overview(has_overview: bool, output_known: bool) -> (registered: Result<
    (),
    RegisterOverviewError,
>)
    ensures
        registered == if has_overview {
            Err(RegisterOverviewError::AlreadyHasOverview)
        } else if !output_known {
            Err(RegisterOverviewError::InvalidOutput)
        } else {
            Ok(())
        },
{
    if has_overview {
        Err(RegisterOverviewError::AlreadyHasOverview)
    } else if !output_known {
        Err(RegisterOverviewError::InvalidOutput)
    } else {
        Ok(())
    }
}

/// The far edges of the rectangle are representable.
pub open spec fn edges_fit(r: Rect) -> bool {
    &&& i32::MIN <= r.x + r.width <= i32::MAX
    &&& i32::MIN <= r.y + r.height <= i32::MAX
}

pub open spec fn spec_presented_rectangle(
    presentation: Presentation,
    tile: Rect,
    layout_area: Rect,
    output_size: (i32, i32),
) -> Rect {
    match presentation {
        Presentation::Normal => tile,
        Presentation::Expanded => layout_area,
        Presentation::Fullscreen => Rect {
            x: 0,
            y: 0,
            width: max_int(output_size.0 as int, 1) as i32,
            height: max_int(output_size.1 as int, 1) as i32,
        },
    }
}

/// Where a window is drawn: its tile, the whole layout area when expanded,
/// or the whole output (at least one unit each way) when fullscreen.
pub fn presented_rectangle(
    presentation: Presentation,
    tile: Rect,
    layout_area: Rect,
    output_size: (i32, i32),
) -> (rectangle: Rect)
    ensures
        rectangle == spec_presented_rectangle(presentation, tile, layout_area, output_size),
{
    match presentation {
        Presentation::Normal => tile,
        Presentation::Expanded => layout_area,
        Presentation::Fullscreen => Rect::new(
            0,
            0,
            if output_size.0 >= 1 {
                output_size.0
            } else {
                1
            },
            if output_size.1 >= 1 {
                output_size.1
            } else {
                1
            },
        ),
    }
}

/// The size a tiled client is asked to take: its tile's, at least one unit
/// each way.
pub fn tiled_client_size(tile: Rect) -> (size: (i32, i32))
    ensures
        size == (max_int(tile.width as int, 1) as i32, max_int(tile.height as int, 1) as i32),
{
    (if tile.width >= 1 {
        tile.width
    } else {
        1
    }, if tile.height >= 1 {
        tile.height
    } else {
        1
    })
}

/// Where a tiled client is placed: its tile's origin.
pub fn tiled_window_location(tile: Rect) -> (location: (i32, i32))
    ensures
        location == (tile.x, tile.y),
{
    (tile.x, tile.y)
}

/// The tile a window needs: the size it asks for, raised to the smallest
/// tile, plus the gutter on both sides.
pub fn minimum_tile_size(requested: (i32, i32)) -> (minimum: (i32, i32))
    requires
        requested.0 <= i32::MAX - 2 * WINDOW_GUTTER,
        requested.1 <= i32::MAX - 2 * WINDOW_GUTTER,
    ensures
        minimum.0 == max_int(requested.0 as int, MINIMUM_TILE_WIDTH as int) + 2 * WINDOW_GUTTER,
        minimum.1 == max_int(requested.1 as int, MINIMUM_TILE_HEIGHT as int) + 2 * WINDOW_GUTTER,
{
    let width = if requested.0 >= MINIMUM_TILE_WIDTH {
        requested.0
    } else {
        MINIMUM_TILE_WIDTH
    };
    let height = if requested.1 >= MINIMUM_TILE_HEIGHT {
        requested.1
    } else {
        MINIMUM_TILE_HEIGHT
    };
    (width + WINDOW_GUTTER * 2, height + WINDOW_GUTTER * 2)
}

/// Whether the whole-unit point `(x, y)` lies in the rectangle (its far
/// edges excluded).
pub fn point_in_rect(x: i32, y: i32, rectangle: Rect) -> (inside: bool)
    requires
        edges_fit(rectangle),
    ensures
        inside == rectangle.contains_point(x as int, y as int),
{
    x >= rectangle.x && x < rectangle.x + rectangle.width && y >= rectangle.y && y
        < rectangle.y + rectangle.height
}

pub open spec fn spec_layout_area(output_size: (i32, i32), has_bar: bool) -> Rect {
    let reserved = if has_bar {
        BAR_HEIGHT as int
    } else {
        0
    };
    Rect {
        x: 0,
        y: 0,
        width: max_int(output_size.0 as int, 1) as i32,
        height: max_int(output_size.1 - reserved, 1) as i32,
    }
}

/// The part of the output that windows tile: all of it, less the bar's
/// height when there is a bar, at least one unit each way.
pub fn layout_area(output_size: (i32, i32), has_bar: bool) -> (area: Rect)
    requires
        output_size.1 >= i32::MIN + BAR_HEIGHT,
    ensures
        area == spec_layout_area(output_size, has_bar),
{
    let reserved = if has_bar {
        BAR_HEIGHT
    } else {
        0
    };
    let height = output_size.1 - reserved;
    Rect::new(0, 0, if output_size.0 >= 1 {
        output_size.0
    } else {
        1
    }, if height >= 1 {
        height
    } else {
        1
    })
}

/// Whether the edge hold that started at `started` has lasted the full
/// delay at `now` (no time has passed when `now` is earlier).
pub fn workspace_edge_hold_elapsed(started: u64, now: u64) -> (elapsed: bool)
    ensures
        elapsed == (now >= started && now - started >= WORKSPACE_EDGE_HOLD_DELAY),
{
    now.saturating_sub(started) >= WORKSPACE_EDGE_HOLD_DELAY
}

/// One step of the edge hold: the pointer is on the edge `target` (or on
/// none) at `now`. A latched edge keeps answering `true` and starts no hold
/// until the pointer leaves every edge; another edge starts a hold unless
/// one is already running for it.
pub open spec fn edge_hold_step<I>(
    started: Option<(WorkspaceDirection, I)>,
    latched: Option<WorkspaceDirection>,
    target: Option<WorkspaceDirection>,
    now: I,
) -> (Option<(WorkspaceDirection, I)>, Option<WorkspaceDirection>, bool) {
    match target {
        Some(direction) => if latched == Some(direction) {
            (None, latched, true)
        } else {
            match started {
                Some((known, _)) => if known == direction {
                    (started, latched, false)
                } else {
                    (Some((direction, now)), latched, false)
                },
                None => (Some((direction, now)), latched, false),
            }
        },
        None => (None, None, false),
    }
}

/// Advances the edge hold (see `edge_hold_step`); `true` while the pointer
/// stays on the edge that already opened a Workspace.
pub fn update_workspace_edge_hold_state<I: Copy>(
    started: &mut Option<(WorkspaceDirection, I)>,
    latched: &mut Option<WorkspaceDirection>,
    target: Option<WorkspaceDirection>,
    now: I,
) -> (held: bool)
    ensures
        (*final(started), *final(latched), held) == edge_hold_step(
            *old(started),
            *old(latched),
            target,
            now,
        ),
{
    match target {
        Some(direction) => {
            let is_latched = match *latched {
                Some(l) => l == direction,
                None => false,
            };
            if is_latched {
                *started = None;
                true
            } else {
                let restart = match *started {
                    Some((known, _)) => known != direction,
                    None => true,
                };
                if restart {
                    *started = Some((direction, now));
                }
                false
            }
        },
        None => {
            *started = None;
            *latched = None;
            false
        },
    }
}

/// Whether the hold started at `started` has lasted the full delay at `now`.
pub open spec fn hold_elapsed(started: u64, now: u64) -> bool {
    now >= started && now - started >= WORKSPACE_EDGE_HOLD_DELAY
}

/// Ends an edge hold that has lasted the full delay at `now`: the edge
/// latches and its direction is given, for the neighbouring Workspace to
/// open. Before the delay, or without a hold, nothing changes.
pub fn open_held_edge(
    started: &mut Option<(WorkspaceDirection, u64)>,
    latched: &mut Option<WorkspaceDirection>,
    now: u64,
) -> (opened: Option<WorkspaceDirection>)
    ensures
        match *old(started) {
            Some((direction, since)) => if hold_elapsed(since, now) {
                &&& opened == Some(direction)
                &&& *final(started) is None
                &&& *final(latched) == Some(direction)
            } else {
                &&& opened is None
                &&& *final(started) == *old(started)
                &&& *final(latched) == *old(latched)
            },
            None => {
                &&& opened is None
                &&& *final(started) is None
                &&& *final(latched) == *old(latched)
            },
        },
{
    match *started {
        Some((direction, since)) => {
            if workspace_edge_hold_elapsed(since, now) {
                *started = None;
                *latched = Some(direction);
                Some(direction)
            } else {
                None
            }
        },
        None => None,
    }
}

/// Where a bar segment lies on the output, the bar standing at `bar_y`.
pub open spec fn on_output(rectangle: Rect, bar_y: int) -> Rect {
    Rect { y: (bar_y + rectangle.y) as i32, ..rectangle }
}

/// The top of the bar: the output's height less the bar's, at least zero.
pub open spec fn bar_top(output_size: (i32, i32)) -> int {
    max_int(output_size.1 - BAR_HEIGHT, 0)
}

/// The first segment, among those of inactive Workspaces, under the point,
/// with its rectangle on the output.
pub open spec fn spec_bar_drop_target(
    targets: Seq<(u32, Rect)>,
    active_id: u32,
    x: int,
    y: int,
    bar_y: int,
) -> Option<(u32, Rect)>
    decreases targets.len(),
{
    if targets.len() == 0 {
        None
    } else {
        let (id, rectangle) = targets[0];
        let placed = on_output(rectangle, bar_y);
        if id != active_id && placed.contains_point(x, y) {
            Some((id, placed))
        } else {
            spec_bar_drop_target(targets.drop_first(), active_id, x, y, bar_y)
        }
    }
}

/// The sums that the search for a bar segment under `(x, y)` computes are
/// representable: for each inactive Workspace's segment it looks at, up to
/// the first hit, the segment's top on the output, then (only as far as
/// the point passes each earlier comparison) its right and bottom edges.
pub open spec fn bar_scan_fits(
    targets: Seq<(u32, Rect)>,
    active_id: u32,
    x: int,
    y: int,
    bar_y: int,
) -> bool
    decreases targets.len(),
{
    if targets.len() == 0 {
        true
    } else {
        let (id, r) = targets[0];
        if id == active_id {
            bar_scan_fits(targets.drop_first(), active_id, x, y, bar_y)
        } else {
            let top = bar_y + r.y;
            &&& i32::MIN <= top <= i32::MAX
            &&& x >= r.x ==> i32::MIN <= r.x + r.width <= i32::MAX
            &&& x >= r.x && x < r.x + r.width && y >= top ==> i32::MIN <= top + r.height
                <= i32::MAX
            &&& on_output(r, bar_y).contains_point(x, y) || bar_scan_fits(
                targets.drop_first(),
                active_id,
                x,
                y,
                bar_y,
            )
        }
    }
}

/// The bar segment of an inactive Workspace under the pointer at `(x, y)`,
/// with its rectangle on the output. Segments are given in bar coordinates.
pub fn workspace_bar_drop_target_at(
    targets: &[(u32, Rect)],
    active_id: u32,
    x: i32,
    y: i32,
    output_size: (i32, i32),
) -> (target: Option<(u32, Rect)>)
    requires
        output_size.1 >= i32::MIN + BAR_HEIGHT,
        bar_scan_fits(targets@, active_id, x as int, y as int, bar_top(output_size)),
    ensures
        target == spec_bar_drop_target(
            targets@,
            active_id,
            x as int,
            y as int,
            bar_top(output_size),
        ),
{
    let bar_y = if output_size.1 - BAR_HEIGHT >= 0 {
        output_size.1 - BAR_HEIGHT
    } else {
        0
    };
    let mut i: usize = 0;
    proof {
        assert(targets@.subrange(0, targets@.len() as int) =~= targets@);
    }
    while i < targets.len()
        invariant
            0 <= i <= targets@.len(),
            bar_y == bar_top(output_size),
            bar_scan_fits(
                targets@.subrange(i as int, targets@.len() as int),
                active_id,
                x as int,
                y as int,
                bar_y as int,
            ),
            spec_bar_drop_target(targets@, active_id, x as int, y as int, bar_y as int)
                == spec_bar_drop_target(
                targets@.subrange(i as int, targets@.len() as int),
                active_id,
                x as int,
                y as int,
                bar_y as int,
            ),
        decreases targets@.len() - i,
    {
        let (id, rectangle) = targets[i];
        proof {
            let rest = targets@.subrange(i as int, targets@.len() as int);
            assert(rest[0] == targets@[i as int]);
            assert(rest.drop_first() =~= targets@.subrange(i + 1, targets@.len() as int));
        }
        if id != active_id {
            let top = bar_y + rectangle.y;
            if x >= rectangle.x && x < rectangle.x + rectangle.width && y >= top && y < top
                + rectangle.height {
                return Some((id, Rect::new(rectangle.x, top, rectangle.width, rectangle.height)));
            }
        }
        i += 1;
    }
    None
}

/// A bar segment is accepted when it lies within the bar: not before its
/// origin, not empty, and not past the output's width or the bar's height.
pub open spec fn segment_within_bar(rectangle: Rect, output_width: int) -> bool {
    &&& rectangle.x >= 0
    &&& rectangle.y >= 0
    &&& rectangle.width > 0
    &&& rectangle.height > 0
    &&& rectangle.x + rectangle.width <= output_width
    &&& rectangle.y + rectangle.height <= BAR_HEIGHT
}

pub open spec fn other_workspace(workspace_id: u32) -> spec_fn((u32, Rect)) -> bool {
    |target: (u32, Rect)| target.0 != workspace_id
}

/// Records the bar segment of Workspace `workspace_id`, replacing an earlier
/// one; a segment outside the bar is ignored. Reports whether it was
/// recorded.
pub fn record_bar_drop_target(
    targets: &mut Vec<(u32, Rect)>,
    workspace_id: u32,
    rectangle: Rect,
    output_width: i32,
) -> (recorded: bool)
    ensures
        recorded == segment_within_bar(rectangle, output_width as int),
        recorded ==> final(targets)@ == old(targets)@.filter(other_workspace(workspace_id)).push(
            (workspace_id, rectangle),
        ),
        !recorded ==> final(targets)@ == old(targets)@,
{
    let right = rectangle.x as i64 + rectangle.width as i64;
    let bottom = rectangle.y as i64 + rectangle.height as i64;
    if rectangle.x < 0 || rectangle.y < 0 || rectangle.width <= 0 || rectangle.height <= 0 || right
        > output_width as i64 || bottom > BAR_HEIGHT as i64 {
        return false;
    }
    let ghost before = targets@;
    let mut kept: Vec<(u32, Rect)> = Vec::new();
    let mut i: usize = 0;
    while i < targets.len()
        invariant
            0 <= i <= targets@.len(),
            targets@ == before,
            kept@ == before.take(i as int).filter(other_workspace(workspace_id)),
        decreases targets@.len() - i,
    {
        proof {
            reveal_with_fuel(Seq::<_>::filter, 1);
            assert(before.take(i + 1).drop_last() =~= before.take(i as int));
        }
        let target = targets[i];
        if target.0 != workspace_id {
            kept.push(target);
        }
        i += 1;
    }
    proof {
        assert(before.take(before.len() as int) =~= before);
    }
    kept.push((workspace_id, rectangle));
    *targets = kept;
    true
}

/// A hold keeps the time it started while the pointer stays on the same
/// edge: a second step on that edge changes nothing.
pub proof fn law_edge_hold_keeps_its_start<I>(
    started: Option<(WorkspaceDirection, I)>,
    latched: Option<WorkspaceDirection>,
    direction: WorkspaceDirection,
    first: I,
    second: I,
)
    ensures
        ({
            let (s1, l1, held) = edge_hold_step(started, latched, Some(direction), first);
            !held ==> {
                &&& s1 matches Some((d, _)) && d == direction
                &&& edge_hold_step(s1, l1, Some(direction), second) == (s1, l1, false)
            }
        }),
{
}

/// A latched edge answers `true` for as long as the pointer stays on it and
/// runs no hold; leaving every edge forgets both the hold and the latch.
pub proof fn law_latched_edge_holds_until_left<I>(
    started: Option<(WorkspaceDirection, I)>,
    direction: WorkspaceDirection,
    now: I,
)
    ensures
        edge_hold_step(started, Some(direction), Some(direction), now) == (
            None::<(WorkspaceDirection, I)>,
            Some(direction),
            true,
        ),
        edge_hold_step(started, Some(direction), None, now) == (
            None::<(WorkspaceDirection, I)>,
            None::<WorkspaceDirection>,
            false,
        ),
{
}

/// Dashes and underscores read as spaces.
pub open spec fn spaced(s: Seq<char>) -> Seq<char> {
    s.map_values(|c: char| if c == '-' || c == '_' { ' ' } else { c })
}

/// The application named in a window's title bar: the last component of
/// its application identity, else its title, else `Application`, with
/// dashes and underscores shown as spaces.
pub open spec fn spec_chrome_application_name(title: Seq<char>, application_id: Seq<char>) -> Seq<
    char,
> {
    let segment = last_segment(application_id, '.');
    spaced(
        if segment.len() > 0 {
            segment
        } else if title.len() > 0 {
            title
        } else {
            "Application"@
        },
    )
}

fn spaced_copy(s: &str) -> (copy: String)
    ensures
        copy@ == spaced(s@),
{
    crate::text::char_count_fits(s);
    let mut copy = String::new();
    for c in it: s.chars()
        invariant
            it.seq() == s@,
            copy@ == spaced(s@.take(it.index() as int)),
            s@.len() <= usize::MAX,
    {
        proof {
            assert(spaced(s@.take(it.index() + 1)) =~= spaced(s@.take(it.index() as int)).push(
                if c == '-' || c == '_' {
                    ' '
                } else {
                    c
                },
            ));
        }
        push_char(&mut copy, if c == '-' || c == '_' { ' ' } else { c });
    }
    proof {
        assert(s@.take(s@.len() as int) =~= s@);
    }
    copy
}

pub fn chrome_application_name(title: &str, application_id: &str) -> (name: String)
    ensures
        name@ == spec_chrome_application_name(title@, application_id@),
{
    let segment = after_last(application_id, '.');
    if char_count(segment.as_str()) > 0 {
        spaced_copy(segment.as_str())
    } else if char_count(title) > 0 {
        spaced_copy(title)
    } else {
        spaced_copy("Application")
    }
}

/// The strip at a window's top edge that reveals its title bar.
pub open spec fn reveal_strip(r: Rect) -> Rect {
    Rect { height: min_int(CHROME_REVEAL_HEIGHT as int, r.height as int) as i32, ..r }
}

/// The title bar of a window.
pub open spec fn title_bar(r: Rect) -> Rect {
    Rect { height: min_int(CHROME_HEIGHT as int, r.height as int) as i32, ..r }
}

fn strip(r: Rect, height: i32) -> (strip: Rect)
    ensures
        strip == (Rect { height: min_int(height as int, r.height as int) as i32, ..r }),
{
    Rect::new(r.x, r.y, r.width, if height < r.height {
        height
    } else {
        r.height
    })
}

/// Everything the title bar of one window shows: the application's name,
/// whether the window is focused, whether the compositor draws controls
/// (for server-decorated windows and collapsed spines), whether they are
/// revealed (on a spine, under the pointer, or while dragged) and the
/// button under the pointer at `pointer` while revealed.
pub fn window_chrome(
    window_id: usize,
    rectangle: Rect,
    collapsed: bool,
    focused: Option<usize>,
    dragged: Option<usize>,
    title: String,
    application_id: &str,
    server_decorated: bool,
    hovered: Option<usize>,
    pointer: (i32, i32),
) -> (chrome: WindowChrome)
    requires
        edges_fit(rectangle),
    ensures
        chrome.window_id == window_id,
        chrome.rectangle == rectangle,
        chrome.application@ == spec_chrome_application_name(title@, application_id@),
        chrome.title@ == title@,
        chrome.focused == (focused == Some(window_id)),
        chrome.collapsed == collapsed,
        chrome.controls_enabled == (server_decorated || collapsed),
        chrome.revealed == (chrome.controls_enabled && (collapsed || hovered == Some(window_id)
            || dragged == Some(window_id))),
        chrome.hovered_button == if chrome.revealed {
            spec_chrome_button_at(rectangle, pointer.0 as int, pointer.1 as int)
        } else {
            None
        },
{
    let application = chrome_application_name(title.as_str(), application_id);
    let controls_enabled = compositor_controls_enabled(server_decorated, collapsed);
    let is_hovered = match hovered {
        Some(h) => h == window_id,
        None => false,
    };
    let is_dragged = match dragged {
        Some(d) => d == window_id,
        None => false,
    };
    let is_focused = match focused {
        Some(f) => f == window_id,
        None => false,
    };
    let revealed = controls_enabled && (collapsed || is_hovered || is_dragged);
    let hovered_button = if revealed {
        chrome_button_at(rectangle, pointer.0, pointer.1)
    } else {
        None
    };
    WindowChrome {
        window_id,
        rectangle,
        application,
        title,
        focused: is_focused,
        revealed,
        collapsed,
        controls_enabled,
        hovered_button,
    }
}

/// Whether the pointer at `(x, y)` hovers the chrome: anywhere on a spine;
/// else on the reveal strip, or anywhere on the title bar of the chrome
/// hovered before.
pub open spec fn hovers(chrome: WindowChrome, x: int, y: int, previous: Option<usize>) -> bool {
    &&& chrome.controls_enabled
    &&& if chrome.collapsed {
        chrome.rectangle.contains_point(x, y)
    } else {
        reveal_strip(chrome.rectangle).contains_point(x, y) || (previous == Some(chrome.window_id)
            && title_bar(chrome.rectangle).contains_point(x, y))
    }
}

/// The window of the first chrome that the pointer hovers.
pub open spec fn first_hovered(
    chromes: Seq<WindowChrome>,
    x: int,
    y: int,
    previous: Option<usize>,
) -> Option<usize>
    decreases chromes.len(),
{
    if chromes.len() == 0 {
        None
    } else if hovers(chromes[0], x, y, previous) {
        Some(chromes[0].window_id)
    } else {
        first_hovered(chromes.drop_first(), x, y, previous)
    }
}

/// The window whose chrome the pointer at `(x, y)` hovers, the chrome
/// hovered before being `previous`.
pub fn hovered_window_chrome(
    chromes: &[WindowChrome],
    x: i32,
    y: i32,
    previous: Option<usize>,
) -> (hovered: Option<usize>)
    requires
        forall|i: int| 0 <= i < chromes@.len() ==> edges_fit((#[trigger] chromes@[i]).rectangle),
    ensures
        hovered == first_hovered(chromes@, x as int, y as int, previous),
{
    let mut i: usize = 0;
    proof {
        assert(chromes@.subrange(0, chromes@.len() as int) =~= chromes@);
    }
    while i < chromes.len()
        invariant
            0 <= i <= chromes@.len(),
            forall|k: int| 0 <= k < chromes@.len() ==> edges_fit((#[trigger] chromes@[k]).rectangle),
            first_hovered(chromes@, x as int, y as int, previous) == first_hovered(
                chromes@.subrange(i as int, chromes@.len() as int),
                x as int,
                y as int,
                previous,
            ),
        decreases chromes@.len() - i,
    {
        let chrome = &chromes[i];
        proof {
            let rest = chromes@.subrange(i as int, chromes@.len() as int);
            assert(rest[0] == chromes@[i as int]);
            assert(rest.drop_first() =~= chromes@.subrange(i + 1, chromes@.len() as int));
            assert(edges_fit(chromes@[i as int].rectangle));
        }
        if chrome.controls_enabled {
            let hit = if chrome.collapsed {
                point_in_rect(x, y, chrome.rectangle)
            } else {
                let was_hovered = match previous {
                    Some(p) => p == chrome.window_id,
                    None => false,
                };
                point_in_rect(x, y, strip(chrome.rectangle, CHROME_REVEAL_HEIGHT)) || (was_hovered
                    && point_in_rect(x, y, strip(chrome.rectangle, CHROME_HEIGHT)))
            };
            if hit {
                return Some(chrome.window_id);
            }
        }
        i += 1;
    }
    None
}

/// The chrome whose controls are enabled and that belongs to the hovered
/// window.
pub open spec fn is_hovered_chrome(chrome: WindowChrome, hovered: Option<usize>) -> bool {
    chrome.controls_enabled && chrome.window_id == match hovered {
        Some(h) => h,
        None => usize::MAX,
    }
}

/// Whether the pointer at `(x, y)` is over the hovered window's chrome: a
/// spine, or its title bar.
pub fn pointer_over_window_chrome(
    chromes: &[WindowChrome],
    hovered: Option<usize>,
    x: i32,
    y: i32,
) -> (over: bool)
    requires
        forall|i: int| 0 <= i < chromes@.len() ==> edges_fit((#[trigger] chromes@[i]).rectangle),
    ensures
        over == exists|i: int|
            0 <= i < chromes@.len() && is_hovered_chrome(#[trigger] chromes@[i], hovered) && (
            chromes@[i].collapsed || title_bar(chromes@[i].rectangle).contains_point(
                x as int,
                y as int,
            )),
{
    let target = match hovered {
        Some(h) => h,
        None => usize::MAX,
    };
    let mut i: usize = 0;
    while i < chromes.len()
        invariant
            0 <= i <= chromes@.len(),
            target == match hovered {
                Some(h) => h,
                None => usize::MAX,
            },
            forall|k: int| 0 <= k < chromes@.len() ==> edges_fit((#[trigger] chromes@[k]).rectangle),
            forall|k: int|
                0 <= k < i ==> !(is_hovered_chrome(#[trigger] chromes@[k], hovered) && (
                chromes@[k].collapsed || title_bar(chromes@[k].rectangle).contains_point(
                    x as int,
                    y as int,
                ))),
        decreases chromes@.len() - i,
    {
        let chrome = &chromes[i];
        proof {
            assert(edges_fit(chromes@[i as int].rectangle));
        }
        if chrome.controls_enabled && chrome.window_id == target && (chrome.collapsed
            || point_in_rect(x, y, strip(chrome.rectangle, CHROME_HEIGHT))) {
            return true;
        }
        i += 1;
    }
    false
}

/// The position of the first chrome whose controls belong to the hovered
/// window.
pub fn pressed_window_chrome(chromes: &[WindowChrome], hovered: Option<usize>) -> (found: Option<
    usize,
>)
    ensures
        match found {
            Some(i) => i < chromes@.len() && is_hovered_chrome(chromes@[i as int], hovered) && forall|
                k: int,
            |
                0 <= k < i ==> !is_hovered_chrome(#[trigger] chromes@[k], hovered),
            None => forall|k: int|
                0 <= k < chromes@.len() ==> !is_hovered_chrome(#[trigger] chromes@[k], hovered),
        },
{
    let target = match hovered {
        Some(h) => h,
        None => usize::MAX,
    };
    let mut i: usize = 0;
    while i < chromes.len()
        invariant
            0 <= i <= chromes@.len(),
            target == match hovered {
                Some(h) => h,
                None => usize::MAX,
            },
            forall|k: int| 0 <= k < i ==> !is_hovered_chrome(#[trigger] chromes@[k], hovered),
        decreases chromes@.len() - i,
    {
        if chromes[i].controls_enabled && chromes[i].window_id == target {
            return Some(i);
        }
        i += 1;
    }
    None
}

/// What a press on a window's chrome does.
#[derive(Clone, Copy, Debug, PartialEq, Eq, Structural)]
pub enum ChromePress {
    /// Restores a collapsed window from its spine.
    Restore,
    /// Asks the window to close.
    Close,
    /// Collapses the window to a spine.
    Collapse,
    /// Switches the window between expanded and normal.
    ToggleExpanded,
    /// Starts dragging the window.
    Drag,
}

pub open spec fn spec_chrome_press(chrome: WindowChrome, x: int, y: int) -> ChromePress {
    if chrome.collapsed {
        ChromePress::Restore
    } else {
        match spec_chrome_button_at(chrome.rectangle, x, y) {
            Some(ChromeButton::Close) => ChromePress::Close,
            Some(ChromeButton::Collapse) => ChromePress::Collapse,
            Some(ChromeButton::Focus) => ChromePress::ToggleExpanded,
            None => ChromePress::Drag,
        }
    }
}

/// The effect of a press at `(x, y)` on a window's chrome.
pub fn chrome_press(chrome: &WindowChrome, x: i32, y: i32) -> (press: ChromePress)
    requires
        edges_fit(chrome.rectangle),
    ensures
        press == spec_chrome_press(*chrome, x as int, y as int),
{
    if chrome.collapsed {
        return ChromePress::Restore;
    }
    match chrome_button_at(chrome.rectangle, x, y) {
        Some(ChromeButton::Close) => ChromePress::Close,
        Some(ChromeButton::Collapse) => ChromePress::Collapse,
        Some(ChromeButton::Focus) => ChromePress::ToggleExpanded,
        None => ChromePress::Drag,
    }
}

/// The focus button switches a window between expanded and normal.
pub fn toggled_presentation(presentation: Presentation) -> (toggled: Presentation)
    ensures
        toggled == if presentation == Presentation::Expanded {
            Presentation::Normal
        } else {
            Presentation::Expanded
        },
{
    match presentation {
        Presentation::Expanded => Presentation::Normal,
        _ => Presentation::Expanded,
    }
}

/// Where a placed window is drawn: its presented rectangle, inset by the
/// gutter when it is shown normally.
pub fn presented_window_rectangle(
    presentation: Presentation,
    tile: Rect,
    layout_area: Rect,
    output_size: (i32, i32),
) -> (rectangle: Rect)
    requires
        presentation == Presentation::Normal ==> crate::chrome::inset_fits(tile),
    ensures
        rectangle == if presentation == Presentation::Normal {
            crate::chrome::spec_inset_window_rectangle(tile)
        } else {
            spec_presented_rectangle(presentation, tile, layout_area, output_size)
        },
{
    let rectangle = presented_rectangle(presentation, tile, layout_area, output_size);
    match presentation {
        Presentation::Normal => crate::chrome::inset_window_rectangle(rectangle),
        _ => rectangle,
    }
}

/// The first placement, other than the dragged window's, under the point.
pub open spec fn spec_tile_under<T>(placements: Seq<(T, Rect)>, dragged: T, x: int, y: int) -> Option<
    (T, Rect),
>
    decreases placements.len(),
{
    if placements.len() == 0 {
        None
    } else if placements[0].0 != dragged && placements[0].1.contains_point(x, y) {
        Some(placements[0])
    } else {
        spec_tile_under(placements.drop_first(), dragged, x, y)
    }
}

/// The rectangle of the first placement of `item`.
pub open spec fn spec_placement_of<T>(placements: Seq<(T, Rect)>, item: T) -> Option<Rect>
    decreases placements.len(),
{
    if placements.len() == 0 {
        None
    } else if placements[0].0 == item {
        Some(placements[0].1)
    } else {
        spec_placement_of(placements.drop_first(), item)
    }
}

/// The tile under the pointer at `(x, y)` that a dragged window can be
/// dropped next to: the first shown tile under it that is not the dragged
/// window's own.
pub fn tile_under<T: LayoutItem>(layout: &Layout<T>, dragged: &T, x: i32, y: i32, area: Rect) -> (found:
    Option<(T, Rect)>)
    requires
        layout.wf(),
        area.is_bounded(),
    ensures
        found == spec_tile_under(layout_placements(layout@, area, false), *dragged, x as int, y as int),
{
    let placements = layout.placements(area);
    proof {
        law_placements_are_bounded(layout@, area, false);
        assert(placements@.subrange(0, placements@.len() as int) =~= placements@);
    }
    let mut i: usize = 0;
    while i < placements.len()
        invariant
            0 <= i <= placements@.len(),
            placements@ == layout_placements(layout@, area, false),
            forall|k: int| 0 <= k < placements@.len() ==> (#[trigger] placements@[k]).1.is_bounded(),
            spec_tile_under(placements@, *dragged, x as int, y as int) == spec_tile_under(
                placements@.subrange(i as int, placements@.len() as int),
                *dragged,
                x as int,
                y as int,
            ),
        decreases placements@.len() - i,
    {
        let (item, rectangle) = placements[i];
        proof {
            let rest = placements@.subrange(i as int, placements@.len() as int);
            assert(rest[0] == placements@[i as int]);
            assert(rest.drop_first() =~= placements@.subrange(i + 1, placements@.len() as int));
            assert(placements@[i as int].1.is_bounded());
        }
        if !item.same_item(dragged) && point_in_rect(x, y, rectangle) {
            return Some((item, rectangle));
        }
        i += 1;
    }
    None
}

fn placement_of<T: LayoutItem>(placements: &Vec<(T, Rect)>, item: &T) -> (found: Option<Rect>)
    ensures
        found == spec_placement_of(placements@, *item),
{
    let mut i: usize = 0;
    proof {
        assert(placements@.subrange(0, placements@.len() as int) =~= placements@);
    }
    while i < placements.len()
        invariant
            0 <= i <= placements@.len(),
            spec_placement_of(placements@, *item) == spec_placement_of(
                placements@.subrange(i as int, placements@.len() as int),
                *item,
            ),
        decreases placements@.len() - i,
    {
        proof {
            let rest = placements@.subrange(i as int, placements@.len() as int);
            assert(rest[0] == placements@[i as int]);
            assert(rest.drop_first() =~= placements@.subrange(i + 1, placements@.len() as int));
        }
        if placements[i].0.same_item(item) {
            return Some(placements[i].1);
        }
        i += 1;
    }
    None
}

/// Where the dragged window would be shown if dropped at `edge` of the
/// region holding `target`: its tile in a copy of the layout after the
/// move; `None` when the move is refused.
pub fn drop_preview<T: LayoutItem>(
    layout: &Layout<T>,
    dragged: &T,
    target: &T,
    edge: DropEdge,
    area: Rect,
    minimum: (i32, i32),
) -> (preview: Option<Rect>)
    requires
        layout.wf(),
        area.is_bounded(),
    ensures
        preview == match layout_move_next_to(layout@, *dragged, *target, edge, area, minimum).1 {
            Some(_) => spec_placement_of(
                layout_placements(
                    layout_move_next_to(layout@, *dragged, *target, edge, area, minimum).0,
                    area,
                    false,
                ),
                *dragged,
            ),
            None => None,
        },
{
    let mut moved = layout.clone();
    match moved.move_next_to(dragged, target, edge, area, minimum) {
        Some(_) => {
            let placements = moved.placements(area);
            placement_of(&placements, dragged)
        },
        None => None,
    }
}

/// The strip at the side of the layout area that previews a transfer to
/// the neighbouring Workspace.
pub fn edge_preview(direction: WorkspaceDirection, area: Rect) -> (preview: Rect)
    requires
        area.is_bounded(),
    ensures
        preview == (Rect {
            x: match direction {
                WorkspaceDirection::Previous => area.x as int,
                WorkspaceDirection::Next => area.x + area.width - min_int(
                    WORKSPACE_EDGE_ZONE as int,
                    area.width as int,
                ),
            } as i32,
            y: area.y,
            width: min_int(WORKSPACE_EDGE_ZONE as int, area.width as int) as i32,
            height: area.height,
        }),
{
    let width = if WORKSPACE_EDGE_ZONE < area.width {
        WORKSPACE_EDGE_ZONE
    } else {
        area.width
    };
    let x = match direction {
        WorkspaceDirection::Previous => area.x,
        WorkspaceDirection::Next => area.x + area.width - width,
    };
    Rect::new(x, area.y, width, area.height)
}

/// How a placed window is configured: the size its client is asked to
/// take, the bounds it may grow to, and its presentation states.
#[derive(Clone, Copy, Debug, PartialEq, Eq)]
pub struct WindowConfiguration {
    pub size: (i32, i32),
    pub bounds: (i32, i32),
    /// Tiled against all four edges.
    pub tiled: bool,
    pub maximized: bool,
    pub fullscreen: bool,
}

/// A window drawn at `rectangle` is asked to take its size (at least one
/// unit each way); a fullscreen window may grow to the output, others to the
/// layout area; normal windows are tiled, expanded ones maximized.
pub fn window_configuration(
    presentation: Presentation,
    rectangle: Rect,
    layout_area: Rect,
    output_size: (i32, i32),
) -> (configuration: WindowConfiguration)
    ensures
        configuration == (WindowConfiguration {
            size: (
                max_int(rectangle.width as int, 1) as i32,
                max_int(rectangle.height as int, 1) as i32,
            ),
            bounds: if presentation == Presentation::Fullscreen {
                output_size
            } else {
                (layout_area.width, layout_area.height)
            },
            tiled: presentation == Presentation::Normal,
            maximized: presentation == Presentation::Expanded,
            fullscreen: presentation == Presentation::Fullscreen,
        }),
{
    let size = tiled_client_size(rectangle);
    match presentation {
        Presentation::Normal => WindowConfiguration {
            size,
            bounds: (layout_area.width, layout_area.height),
            tiled: true,
            maximized: false,
            fullscreen: false,
        },
        Presentation::Expanded => WindowConfiguration {
            size,
            bounds: (layout_area.width, layout_area.height),
            tiled: false,
            maximized: true,
            fullscreen: false,
        },
        Presentation::Fullscreen => WindowConfiguration {
            size,
            bounds: output_size,
            tiled: false,
            maximized: false,
            fullscreen: true,
        },
    }
}

pub open spec fn not_placed<T>(placements: Seq<(T, Rect)>) -> spec_fn(T) -> bool {
    |t: T| !placements.map_values(|p: (T, Rect)| p.0).contains(t)
}

/// The items of the layout that no expanded region shows: they are taken
/// off the screen.
pub fn hidden_items<T: LayoutItem>(layout: &Layout<T>, area: Rect) -> (hidden: Vec<T>)
    requires
        layout.wf(),
        area.is_bounded(),
    ensures
        hidden@ == layout_items(layout@).filter(
            not_placed(layout_placements(layout@, area, false)),
        ),
{
    let placements = layout.placements(area);
    let ghost shown = placements@.map_values(|p: (T, Rect)| p.0);
    let mut shown_items: Vec<T> = Vec::new();
    let mut k: usize = 0;
    while k < placements.len()
        invariant
            0 <= k <= placements@.len(),
            shown == placements@.map_values(|p: (T, Rect)| p.0),
            shown_items@ == shown.take(k as int),
        decreases placements@.len() - k,
    {
        shown_items.push(placements[k].0);
        proof {
            assert(shown.take(k + 1) =~= shown.take(k as int).push(shown[k as int]));
        }
        k += 1;
    }
    proof {
        assert(shown.take(placements@.len() as int) =~= shown);
    }
    let items = layout.items();
    let mut hidden: Vec<T> = Vec::new();
    let mut i: usize = 0;
    while i < items.len()
        invariant
            0 <= i <= items@.len(),
            items@ == layout_items(layout@),
            shown_items@ == shown,
            shown == layout_placements(layout@, area, false).map_values(|p: (T, Rect)| p.0),
            hidden@ == items@.take(i as int).filter(
                not_placed(layout_placements(layout@, area, false)),
            ),
        decreases items@.len() - i,
    {
        proof {
            reveal_with_fuel(Seq::<_>::filter, 1);
            assert(items@.take(i + 1).drop_last() =~= items@.take(i as int));
        }
        let item = items[i];
        if !crate::layout::region::vec_contains(&shown_items, &item) {
            hidden.push(item);
        }
        i += 1;
    }
    proof {
        assert(items@.take(items@.len() as int) =~= items@);
    }
    hidden
}

/// What a dragged window is over: a tile (by window and edge), a bar
/// segment, or a screen edge; each with the preview drawn for it.
#[derive(Clone, Copy, Debug, PartialEq, Eq, Structural)]
pub enum WindowDragTarget {
    Tile { window: usize, edge: DropEdge, preview: Rect },
    WorkspaceBar { workspace_id: u32, preview: Rect },
    WorkspaceEdge { direction: WorkspaceDirection, preview: Rect },
}

/// What makes two drag targets the same, the preview aside.
#[derive(Clone, Copy, Debug, PartialEq, Eq, Structural)]
pub enum WindowDragTargetKey {
    Tile(usize, DropEdge),
    WorkspaceBar(u32),
    WorkspaceEdge(WorkspaceDirection),
}

pub open spec fn target_key(target: WindowDragTarget) -> WindowDragTargetKey {
    match target {
        WindowDragTarget::Tile { window, edge, .. } => WindowDragTargetKey::Tile(window, edge),
        WindowDragTarget::WorkspaceBar { workspace_id, .. } => WindowDragTargetKey::WorkspaceBar(
            workspace_id,
        ),
        WindowDragTarget::WorkspaceEdge { direction, .. } => WindowDragTargetKey::WorkspaceEdge(
            direction,
        ),
    }
}

impl WindowDragTarget {
    pub fn key(&self) -> (key: WindowDragTargetKey)
        ensures
            key == target_key(*self),
    {
        match *self {
            WindowDragTarget::Tile { window, edge, .. } => WindowDragTargetKey::Tile(window, edge),
            WindowDragTarget::WorkspaceBar { workspace_id, .. } => WindowDragTargetKey::WorkspaceBar(
                workspace_id,
            ),
            WindowDragTarget::WorkspaceEdge { direction, .. } => WindowDragTargetKey::WorkspaceEdge(
                direction,
            ),
        }
    }

    pub fn preview(&self) -> (preview: Rect)
        ensures
            preview == match *self {
                WindowDragTarget::Tile { preview, .. } => preview,
                WindowDragTarget::WorkspaceBar { preview, .. } => preview,
                WindowDragTarget::WorkspaceEdge { preview, .. } => preview,
            },
    {
        match *self {
            WindowDragTarget::Tile { preview, .. } => preview,
            WindowDragTarget::WorkspaceBar { preview, .. } => preview,
            WindowDragTarget::WorkspaceEdge { preview, .. } => preview,
        }
    }
}

pub open spec fn option_key(target: Option<WindowDragTarget>) -> Option<WindowDragTargetKey> {
    match target {
        Some(t) => Some(target_key(t)),
        None => None,
    }
}

/// The target a drag is over: a bar segment before a screen edge, a screen
/// edge before a tile.
pub fn window_drag_target(
    bar: Option<(u32, Rect)>,
    edge: Option<(WorkspaceDirection, Rect)>,
    tile: Option<(usize, DropEdge, Rect)>,
) -> (target: Option<WindowDragTarget>)
    ensures
        target == match bar {
            Some((workspace_id, preview)) => Some(
                WindowDragTarget::WorkspaceBar { workspace_id, preview },
            ),
            None => match edge {
                Some((direction, preview)) => Some(
                    WindowDragTarget::WorkspaceEdge { direction, preview },
                ),
                None => match tile {
                    Some((window, edge, preview)) => Some(
                        WindowDragTarget::Tile { window, edge, preview },
                    ),
                    None => None,
                },
            },
        },
{
    match bar {
        Some((workspace_id, preview)) => Some(WindowDragTarget::WorkspaceBar { workspace_id, preview }),
        None => match edge {
            Some((direction, preview)) => Some(WindowDragTarget::WorkspaceEdge { direction, preview }),
            None => match tile {
                Some((window, edge, preview)) => Some(WindowDragTarget::Tile { window, edge, preview }),
                None => None,
            },
        },
    }
}

/// One step of a drag over `target` at `now`: the edge hold advances (see
/// `edge_hold_step`) and, while the latched edge holds, the drag targets
/// nothing. Gives the target kept and whether it differs (by key) from the
/// previous one.
pub fn drag_step<I: Copy>(
    previous: Option<WindowDragTarget>,
    target: Option<WindowDragTarget>,
    started: &mut Option<(WorkspaceDirection, I)>,
    latched: &mut Option<WorkspaceDirection>,
    now: I,
) -> (step: (Option<WindowDragTarget>, bool))
    ensures
        ({
            let edge = match target {
                Some(WindowDragTarget::WorkspaceEdge { direction, .. }) => Some(direction),
                _ => None,
            };
            let (s, l, held) = edge_hold_step(*old(started), *old(latched), edge, now);
            &&& *final(started) == s
            &&& *final(latched) == l
            &&& step.0 == if held {
                None
            } else {
                target
            }
            &&& step.1 == (option_key(previous) != option_key(step.0))
        }),
{
    let edge = match target {
        Some(WindowDragTarget::WorkspaceEdge { direction, .. }) => Some(direction),
        _ => None,
    };
    let held = update_workspace_edge_hold_state(started, latched, edge, now);
    let kept = if held {
        None
    } else {
        target
    };
    let previous_key = match previous {
        Some(t) => Some(t.key()),
        None => None,
    };
    let kept_key = match kept {
        Some(t) => Some(t.key()),
        None => None,
    };
    let changed = match (previous_key, kept_key) {
        (Some(a), Some(b)) => a != b,
        (None, None) => false,
        _ => true,
    };
    (kept, changed)
}

/// A bar drop target is never the active Workspace's segment, and the
/// pointer is on it.
pub proof fn law_bar_targets_are_inactive(
    targets: Seq<(u32, Rect)>,
    active_id: u32,
    x: int,
    y: int,
    bar_y: int,
)
    ensures
        spec_bar_drop_target(targets, active_id, x, y, bar_y) matches Some((id, placed)) ==> id
            != active_id && placed.contains_point(x, y),
    decreases targets.len(),
{
    if targets.len() > 0 {
        law_bar_targets_are_inactive(targets.drop_first(), active_id, x, y, bar_y);
    }
}

/// A dragged window is never dropped next to itself, and the tile it is
/// dropped next to lies under the pointer.
pub proof fn law_drops_target_another_tile<T>(
    placements: Seq<(T, Rect)>,
    dragged: T,
    x: int,
    y: int,
)
    ensures
        spec_tile_under(placements, dragged, x, y) matches Some((item, rectangle)) ==> item
            != dragged && rectangle.contains_point(x, y),
    decreases placements.len(),
{
    if placements.len() > 0 {
        law_drops_target_another_tile(placements.drop_first(), dragged, x, y);
    }
}

} // verus!
