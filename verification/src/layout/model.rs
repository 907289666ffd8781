use vstd::prelude::*;

use super::geometry::{
    clamp_int, max_int, spec_split, spec_split_for_collapsed, spine, Axis, Rect, COLLAPSED_SPINE_SIZE,
    HALF_RATIO, RATIO_SCALE,
};

verus! {

/// Items that a layout holds: plain values whose equality is decided by
/// `same_item`.
pub trait LayoutItem: Copy {
    fn same_item(&self, other: &Self) -> (same: bool)
        ensures
            same == (*self == *other),
    ;
}

impl LayoutItem for char {
    fn same_item(&self, other: &Self) -> (same: bool) {
        *self == *other
    }
}

impl LayoutItem for u32 {
    fn same_item(&self, other: &Self) -> (same: bool) {
        *self == *other
    }
}

impl LayoutItem for u64 {
    fn same_item(&self, other: &Self) -> (same: bool) {
        *self == *other
    }
}

impl LayoutItem for usize {
    fn same_item(&self, other: &Self) -> (same: bool) {
        *self == *other
    }
}

/// How an item entered the layout.
#[derive(Clone, Copy, Debug, PartialEq, Eq, Structural)]
pub enum InsertResult {
    /// It is the only item.
    First,
    /// It received a region of its own.
    Tiled,
    /// It joined the stack of an existing region.
    Stacked,
}

/// The edge of a target region that a moved item is dropped on.
#[derive(Clone, Copy, Debug, PartialEq, Eq, Structural)]
pub enum DropEdge {
    Left,
    Right,
    Top,
    Bottom,
}

/// An item of a region together with its minimum size.
#[derive(Copy, Debug, PartialEq, Eq)]
pub struct Member<T> {
    pub item: T,
    pub minimum: (i32, i32),
}

impl<T: Clone> Clone for Member<T> {
    fn clone(&self) -> (copy: Self) {
        Member { item: self.item.clone(), minimum: self.minimum }
    }
}

/// A region: a stack of members of which one is shown.
pub struct RegionView<T> {
    pub members: Seq<Member<T>>,
    pub active: int,
    pub recent: Seq<T>,
    pub collapsed: bool,
}

/// The layout tree: regions at the leaves, splits inside.
pub enum Tree<T> {
    Region(RegionView<T>),
    Split { axis: Axis, ratio: u16, first: Box<Tree<T>>, second: Box<Tree<T>> },
}

/// A whole layout: the tree, the focused item and the focus history.
pub struct LayoutView<T> {
    pub root: Option<Tree<T>>,
    pub focused: Option<T>,
    pub recent: Seq<T>,
}

/// A split boundary: the path of child choices from the root (`false` for the
/// first child) and the split's axis.
pub struct HandleView {
    pub path: Seq<bool>,
    pub axis: Axis,
}

// ---------------------------------------------------------------------------
// Sequences

pub open spec fn member_items<T>(members: Seq<Member<T>>) -> Seq<T> {
    members.map_values(|m: Member<T>| m.item)
}

pub open spec fn is_first_index<T>(s: Seq<T>, t: T, i: int) -> bool {
    &&& 0 <= i < s.len()
    &&& s[i] == t
    &&& forall|j: int| 0 <= j < i ==> s[j] != t
}

/// The position of the first occurrence of `t` in `s`.
pub open spec fn first_index<T>(s: Seq<T>, t: T) -> int {
    choose|i: int| is_first_index(s, t, i)
}

pub open spec fn differs_from<T>(t: T) -> spec_fn(T) -> bool {
    |x: T| x != t
}

/// `s` without any occurrence of `t`.
pub open spec fn without<T>(s: Seq<T>, t: T) -> Seq<T> {
    s.filter(differs_from(t))
}

pub open spec fn member_kept<T>(removed: Seq<T>) -> spec_fn(Member<T>) -> bool {
    |m: Member<T>| !removed.contains(m.item)
}

pub open spec fn present_in<T>(items: Seq<T>) -> spec_fn(T) -> bool {
    |x: T| items.contains(x)
}

/// Both minimum components raised to at least one.
pub open spec fn at_least_one(minimum: (i32, i32)) -> (i32, i32) {
    (if minimum.0 >= 1 { minimum.0 } else { 1 }, if minimum.1 >= 1 { minimum.1 } else { 1 })
}

// ---------------------------------------------------------------------------
// Regions

pub open spec fn region_new<T>(item: T, minimum: (i32, i32)) -> RegionView<T> {
    RegionView {
        members: seq![Member { item, minimum }],
        active: 0,
        recent: seq![item],
        collapsed: false,
    }
}

pub open spec fn region_wf<T>(r: RegionView<T>) -> bool {
    0 <= r.active < r.members.len()
}

pub open spec fn region_active_item<T>(r: RegionView<T>) -> T {
    r.members[r.active].item
}

pub open spec fn region_contains<T>(r: RegionView<T>, t: T) -> bool {
    member_items(r.members).contains(t)
}

/// Shows `target` if the region holds it and moves it to the end of the
/// region's history.
pub open spec fn region_focus<T>(r: RegionView<T>, target: T) -> (RegionView<T>, bool) {
    if region_contains(r, target) {
        (
            RegionView {
                members: r.members,
                active: first_index(member_items(r.members), target),
                recent: without(r.recent, target).push(target),
                collapsed: r.collapsed,
            },
            true,
        )
    } else {
        (r, false)
    }
}

/// Adds `item` on top of the region's stack and shows it.
pub open spec fn region_stack<T>(r: RegionView<T>, item: T, minimum: (i32, i32)) -> RegionView<T> {
    RegionView {
        members: r.members.push(Member { item, minimum }),
        active: r.members.len() as int,
        recent: r.recent.push(item),
        collapsed: r.collapsed,
    }
}

/// The component-wise maximum of the members' minimums, at least one.
pub open spec fn members_minimum<T>(members: Seq<Member<T>>) -> (int, int)
    decreases members.len(),
{
    if members.len() == 0 {
        (1, 1)
    } else {
        let rest = members_minimum(members.drop_last());
        (
            max_int(rest.0, members.last().minimum.0 as int),
            max_int(rest.1, members.last().minimum.1 as int),
        )
    }
}

pub open spec fn region_minimum<T>(r: RegionView<T>) -> (int, int) {
    if r.collapsed {
        (COLLAPSED_SPINE_SIZE as int, COLLAPSED_SPINE_SIZE as int)
    } else {
        members_minimum(r.members)
    }
}

/// Removes the members whose item is in `removed`; `None` when none is left.
/// The shown member stays shown when it survives, otherwise the most recent
/// surviving member is shown.
pub open spec fn region_retain<T>(r: RegionView<T>, removed: Seq<T>) -> Option<RegionView<T>> {
    let kept = r.members.filter(member_kept(removed));
    let items = member_items(kept);
    let recent = r.recent.filter(present_in(items));
    let previous = region_active_item(r);
    if kept.len() == 0 {
        None
    } else {
        Some(
            RegionView {
                members: kept,
                active: if items.contains(previous) {
                    first_index(items, previous)
                } else if recent.len() > 0 {
                    first_index(items, recent.last())
                } else {
                    0
                },
                recent,
                collapsed: r.collapsed,
            },
        )
    }
}

/// Sets the minimum of the first member holding `target`.
pub open spec fn region_update_minimum<T>(r: RegionView<T>, target: T, minimum: (i32, i32)) -> (
    RegionView<T>,
    bool,
) {
    if region_contains(r, target) {
        let i = first_index(member_items(r.members), target);
        (
            RegionView {
                members: r.members.update(i, Member { item: target, minimum }),
                active: r.active,
                recent: r.recent,
                collapsed: r.collapsed,
            },
            true,
        )
    } else {
        (r, false)
    }
}

// ---------------------------------------------------------------------------
// Trees

pub open spec fn tree_wf<T>(n: Tree<T>) -> bool
    decreases n,
{
    match n {
        Tree::Region(r) => region_wf(r),
        Tree::Split { ratio, first, second, .. } => {
            &&& 1 <= ratio < RATIO_SCALE
            &&& tree_wf(*first)
            &&& tree_wf(*second)
        },
    }
}

/// All items, regions in order and each region's stack from bottom to top.
pub open spec fn tree_items<T>(n: Tree<T>) -> Seq<T>
    decreases n,
{
    match n {
        Tree::Region(r) => member_items(r.members),
        Tree::Split { first, second, .. } => tree_items(*first) + tree_items(*second),
    }
}

pub open spec fn tree_region_count<T>(n: Tree<T>) -> nat
    decreases n,
{
    match n {
        Tree::Region(_) => 1,
        Tree::Split { first, second, .. } => tree_region_count(*first) + tree_region_count(
            *second,
        ),
    }
}

pub open spec fn tree_contains<T>(n: Tree<T>, t: T) -> bool
    decreases n,
{
    match n {
        Tree::Region(r) => region_contains(r, t),
        Tree::Split { first, second, .. } => tree_contains(*first, t) || tree_contains(*second, t),
    }
}

/// The shown item of the first region.
pub open spec fn tree_first_item<T>(n: Tree<T>) -> T
    decreases n,
{
    match n {
        Tree::Region(r) => region_active_item(r),
        Tree::Split { first, .. } => tree_first_item(*first),
    }
}

/// Focuses `target` in the first region that holds it.
pub open spec fn tree_focus<T>(n: Tree<T>, target: T) -> (Tree<T>, bool)
    decreases n,
{
    match n {
        Tree::Region(r) => {
            let (r2, ok) = region_focus(r, target);
            (Tree::Region(r2), ok)
        },
        Tree::Split { axis, ratio, first, second } => {
            let (f, ok) = tree_focus(*first, target);
            if ok {
                (Tree::Split { axis, ratio, first: Box::new(f), second }, true)
            } else {
                let (s, ok2) = tree_focus(*second, target);
                (Tree::Split { axis, ratio, first: Box::new(f), second: Box::new(s) }, ok2)
            }
        },
    }
}

/// Sets the collapsed flag of the first region that holds `target` and
/// does not have the flag already.
pub open spec fn tree_set_collapsed<T>(n: Tree<T>, target: T, collapsed: bool) -> (Tree<T>, bool)
    decreases n,
{
    match n {
        Tree::Region(r) => if region_contains(r, target) && r.collapsed != collapsed {
            (
                Tree::Region(
                    RegionView {
                        members: r.members,
                        active: r.active,
                        recent: r.recent,
                        collapsed,
                    },
                ),
                true,
            )
        } else {
            (n, false)
        },
        Tree::Split { axis, ratio, first, second } => {
            let (f, ok) = tree_set_collapsed(*first, target, collapsed);
            if ok {
                (Tree::Split { axis, ratio, first: Box::new(f), second }, true)
            } else {
                let (s, ok2) = tree_set_collapsed(*second, target, collapsed);
                (Tree::Split { axis, ratio, first: Box::new(f), second: Box::new(s) }, ok2)
            }
        },
    }
}

pub open spec fn tree_is_collapsed<T>(n: Tree<T>, target: T) -> bool
    decreases n,
{
    match n {
        Tree::Region(r) => region_contains(r, target) && r.collapsed,
        Tree::Split { first, second, .. } => tree_is_collapsed(*first, target) || tree_is_collapsed(
            *second,
            target,
        ),
    }
}

pub open spec fn tree_same_region<T>(n: Tree<T>, left: T, right: T) -> bool
    decreases n,
{
    match n {
        Tree::Region(r) => region_contains(r, left) && region_contains(r, right),
        Tree::Split { first, second, .. } => tree_same_region(*first, left, right)
            || tree_same_region(*second, left, right),
    }
}

pub open spec fn tree_all_collapsed<T>(n: Tree<T>) -> bool
    decreases n,
{
    match n {
        Tree::Region(r) => r.collapsed,
        Tree::Split { first, second, .. } => tree_all_collapsed(*first) && tree_all_collapsed(
            *second,
        ),
    }
}

pub open spec fn tree_update_minimum<T>(n: Tree<T>, target: T, minimum: (i32, i32)) -> (
    Tree<T>,
    bool,
)
    decreases n,
{
    match n {
        Tree::Region(r) => {
            let (r2, ok) = region_update_minimum(r, target, minimum);
            (Tree::Region(r2), ok)
        },
        Tree::Split { axis, ratio, first, second } => {
            let (f, ok) = tree_update_minimum(*first, target, minimum);
            if ok {
                (Tree::Split { axis, ratio, first: Box::new(f), second }, true)
            } else {
                let (s, ok2) = tree_update_minimum(*second, target, minimum);
                (Tree::Split { axis, ratio, first: Box::new(f), second: Box::new(s) }, ok2)
            }
        },
    }
}

/// The axis that a new item splits a region along: the longer one.
pub open spec fn longer_axis(area: Rect) -> Axis {
    if area.width >= area.height {
        Axis::Horizontal
    } else {
        Axis::Vertical
    }
}

/// Puts `item` beside `target`: the target's region is split in half along
/// its longer axis when both halves meet the minimums, otherwise `item` is
/// stacked onto that region.
pub open spec fn tree_insert_next_to<T>(
    n: Tree<T>,
    target: T,
    item: T,
    minimum: (i32, i32),
    area: Rect,
) -> (Tree<T>, InsertResult)
    decreases n,
{
    match n {
        Tree::Region(r) => {
            let axis = longer_axis(area);
            let (first_area, second_area) = spec_split(area, axis, HALF_RATIO as int);
            if first_area.supports_spec(region_minimum(r)) && second_area.supports_spec(
                (minimum.0 as int, minimum.1 as int),
            ) {
                (
                    Tree::Split {
                        axis,
                        ratio: HALF_RATIO,
                        first: Box::new(Tree::Region(r)),
                        second: Box::new(Tree::Region(region_new(item, minimum))),
                    },
                    InsertResult::Tiled,
                )
            } else {
                (Tree::Region(region_stack(r, item, minimum)), InsertResult::Stacked)
            }
        },
        Tree::Split { axis, ratio, first, second } => {
            let (first_area, second_area) = spec_split(area, axis, ratio as int);
            if tree_contains(*first, target) {
                let (f, result) = tree_insert_next_to(*first, target, item, minimum, first_area);
                (Tree::Split { axis, ratio, first: Box::new(f), second }, result)
            } else {
                let (s, result) = tree_insert_next_to(*second, target, item, minimum, second_area);
                (Tree::Split { axis, ratio, first, second: Box::new(s) }, result)
            }
        },
    }
}

pub open spec fn edge_axis(edge: DropEdge) -> Axis {
    match edge {
        DropEdge::Left | DropEdge::Right => Axis::Horizontal,
        DropEdge::Top | DropEdge::Bottom => Axis::Vertical,
    }
}

pub open spec fn edge_is_leading(edge: DropEdge) -> bool {
    edge == DropEdge::Left || edge == DropEdge::Top
}

/// Puts `item` at `edge` of the region holding `target`: a half split along
/// the edge's axis when both halves meet the minimums, otherwise a stack.
pub open spec fn tree_insert_at_edge<T>(
    n: Tree<T>,
    target: T,
    item: T,
    minimum: (i32, i32),
    edge: DropEdge,
    area: Rect,
) -> (Tree<T>, Option<InsertResult>)
    decreases n,
{
    match n {
        Tree::Region(r) => if region_contains(r, target) {
            let axis = edge_axis(edge);
            let (first_area, second_area) = spec_split(area, axis, HALF_RATIO as int);
            if first_area.supports_spec((minimum.0 as int, minimum.1 as int))
                && second_area.supports_spec(region_minimum(r)) {
                let moved = Tree::Region(region_new(item, minimum));
                let kept = Tree::Region(r);
                (
                    Tree::Split {
                        axis,
                        ratio: HALF_RATIO,
                        first: Box::new(if edge_is_leading(edge) { moved } else { kept }),
                        second: Box::new(if edge_is_leading(edge) { kept } else { moved }),
                    },
                    Some(InsertResult::Tiled),
                )
            } else {
                (Tree::Region(region_stack(r, item, minimum)), Some(InsertResult::Stacked))
            }
        } else {
            (n, None)
        },
        Tree::Split { axis, ratio, first, second } => {
            let (first_area, second_area) = spec_split(area, axis, ratio as int);
            if tree_contains(*first, target) {
                let (f, result) = tree_insert_at_edge(
                    *first,
                    target,
                    item,
                    minimum,
                    edge,
                    first_area,
                );
                (Tree::Split { axis, ratio, first: Box::new(f), second }, result)
            } else {
                let (s, result) = tree_insert_at_edge(
                    *second,
                    target,
                    item,
                    minimum,
                    edge,
                    second_area,
                );
                (Tree::Split { axis, ratio, first, second: Box::new(s) }, result)
            }
        },
    }
}

/// Removes every member whose item is in `removed`; a split that loses one
/// side is replaced by the other side.
pub open spec fn tree_retain<T>(n: Tree<T>, removed: Seq<T>) -> Option<Tree<T>>
    decreases n,
{
    match n {
        Tree::Region(r) => match region_retain(r, removed) {
            Some(r2) => Some(Tree::Region(r2)),
            None => None,
        },
        Tree::Split { axis, ratio, first, second } => {
            let f = tree_retain(*first, removed);
            let s = tree_retain(*second, removed);
            if f is Some && s is Some {
                Some(Tree::Split { axis, ratio, first: Box::new(f->0), second: Box::new(s->0) })
            } else if f is Some {
                f
            } else {
                s
            }
        },
    }
}

/// The shown item of every region whose collapsed flag is `collapsed`, with
/// its rectangle, in tree order.
pub open spec fn tree_placements<T>(
    n: Tree<T>,
    area: Rect,
    inherited: Option<Axis>,
    collapsed: bool,
) -> Seq<(T, Rect)>
    decreases n,
{
    match n {
        Tree::Region(r) => if r.collapsed == collapsed {
            seq![
                (
                    region_active_item(r),
                    if collapsed {
                        spine(area, inherited)
                    } else {
                        area
                    },
                ),
            ]
        } else {
            seq![]
        },
        Tree::Split { axis, ratio, first, second } => {
            let (first_area, second_area) = spec_split_for_collapsed(
                area,
                axis,
                ratio as int,
                tree_all_collapsed(*first),
                tree_all_collapsed(*second),
            );
            tree_placements(*first, first_area, Some(axis), collapsed) + tree_placements(
                *second,
                second_area,
                Some(axis),
                collapsed,
            )
        },
    }
}

/// The smallest size a subtree can take: minimums add up along a split's
/// axis and the larger one counts across it.
pub open spec fn tree_minimum<T>(n: Tree<T>) -> (int, int)
    decreases n,
{
    match n {
        Tree::Region(r) => region_minimum(r),
        Tree::Split { axis, first, second, .. } => {
            let a = tree_minimum(*first);
            let b = tree_minimum(*second);
            match axis {
                Axis::Horizontal => (a.0 + b.0, max_int(a.1, b.1)),
                Axis::Vertical => (max_int(a.0, b.0), a.1 + b.1),
            }
        },
    }
}

pub open spec fn abs_int(v: int) -> int {
    if v < 0 {
        -v
    } else {
        v
    }
}

/// The innermost split boundary within `threshold` of the point, searching
/// the child that holds the point first.
pub open spec fn tree_boundary_at<T>(
    n: Tree<T>,
    x: int,
    y: int,
    area: Rect,
    threshold: int,
    path: Seq<bool>,
) -> Option<HandleView>
    decreases n,
{
    match n {
        Tree::Region(_) => None,
        Tree::Split { axis, ratio, first, second } => {
            let (first_area, second_area) = spec_split(area, axis, ratio as int);
            let nested = if first_area.contains_point(x, y) {
                tree_boundary_at(*first, x, y, first_area, threshold, path.push(false))
            } else {
                None
            };
            let nested2 = if second_area.contains_point(x, y) {
                tree_boundary_at(*second, x, y, second_area, threshold, path.push(true))
            } else {
                None
            };
            let distance = match axis {
                Axis::Horizontal => abs_int(x - second_area.x),
                Axis::Vertical => abs_int(y - second_area.y),
            };
            let within = match axis {
                Axis::Horizontal => area.y <= y < area.y + area.height,
                Axis::Vertical => area.x <= x < area.x + area.width,
            };
            if nested is Some {
                nested
            } else if nested2 is Some {
                nested2
            } else if within && distance <= threshold {
                Some(HandleView { path, axis })
            } else {
                None
            }
        },
    }
}

/// The ratio that puts a split's boundary as close to the requested
/// position as both sides' minimums allow; `None` when the extent cannot
/// hold both minimums.
pub open spec fn resized_ratio(extent: int, requested: int, first_min: int, second_min: int) -> Option<
    int,
> {
    if extent < first_min + second_min || extent <= 1 {
        None
    } else {
        let first_extent = clamp_int(requested, first_min, extent - second_min);
        Some(clamp_int((first_extent * RATIO_SCALE) / extent, 1, RATIO_SCALE - 1))
    }
}

/// Moves the boundary named by `path` and `axis` toward the point.
pub open spec fn tree_resize<T>(
    n: Tree<T>,
    path: Seq<bool>,
    handle_axis: Axis,
    depth: int,
    x: int,
    y: int,
    area: Rect,
) -> (Tree<T>, bool)
    decreases n,
{
    match n {
        Tree::Region(_) => (n, false),
        Tree::Split { axis, ratio, first, second } => if depth < path.len() {
            let (first_area, second_area) = spec_split(area, axis, ratio as int);
            if path[depth] {
                let (s, changed) = tree_resize(
                    *second,
                    path,
                    handle_axis,
                    depth + 1,
                    x,
                    y,
                    second_area,
                );
                (Tree::Split { axis, ratio, first, second: Box::new(s) }, changed)
            } else {
                let (f, changed) = tree_resize(
                    *first,
                    path,
                    handle_axis,
                    depth + 1,
                    x,
                    y,
                    first_area,
                );
                (Tree::Split { axis, ratio, first: Box::new(f), second }, changed)
            }
        } else if axis != handle_axis {
            (n, false)
        } else {
            let a = tree_minimum(*first);
            let b = tree_minimum(*second);
            let next = match axis {
                Axis::Horizontal => resized_ratio(area.width as int, x - area.x, a.0, b.0),
                Axis::Vertical => resized_ratio(area.height as int, y - area.y, a.1, b.1),
            };
            match next {
                None => (n, false),
                Some(r) => if r == ratio {
                    (n, false)
                } else {
                    (Tree::Split { axis, ratio: r as u16, first, second }, true)
                },
            }
        },
    }
}

// ---------------------------------------------------------------------------
// Layouts

pub open spec fn layout_items<T>(l: LayoutView<T>) -> Seq<T> {
    match l.root {
        Some(root) => tree_items(root),
        None => seq![],
    }
}

pub open spec fn layout_contains<T>(l: LayoutView<T>, t: T) -> bool {
    match l.root {
        Some(root) => tree_contains(root, t),
        None => false,
    }
}

pub open spec fn layout_region_count<T>(l: LayoutView<T>) -> nat {
    match l.root {
        Some(root) => tree_region_count(root),
        None => 0,
    }
}

pub open spec fn layout_wf<T>(l: LayoutView<T>) -> bool {
    &&& l.root matches Some(root) ==> tree_wf(root)
    &&& layout_items(l).len() <= usize::MAX
    &&& l.focused matches Some(f) ==> layout_contains(l, f)
    &&& forall|i: int| 0 <= i < l.recent.len() ==> layout_contains(l, #[trigger] l.recent[i])
}

/// Inserts `item` beside the focused item (or the first region's shown item)
/// and focuses it.
pub open spec fn layout_insert<T>(l: LayoutView<T>, item: T, area: Rect, minimum: (i32, i32)) -> (
    LayoutView<T>,
    InsertResult,
) {
    let minimum = at_least_one(minimum);
    match l.root {
        None => (
            LayoutView {
                root: Some(Tree::Region(region_new(item, minimum))),
                focused: Some(item),
                recent: l.recent.push(item),
            },
            InsertResult::First,
        ),
        Some(root) => {
            let target = match l.focused {
                Some(f) => f,
                None => tree_first_item(root),
            };
            let (next, result) = tree_insert_next_to(root, target, item, minimum, area);
            (
                LayoutView {
                    root: Some(next),
                    focused: Some(item),
                    recent: without(l.recent, item).push(item),
                },
                result,
            )
        },
    }
}

pub open spec fn layout_focus<T>(l: LayoutView<T>, item: T) -> (LayoutView<T>, bool) {
    match l.root {
        None => (l, false),
        Some(root) => {
            let (next, ok) = tree_focus(root, item);
            if ok {
                (
                    LayoutView {
                        root: Some(next),
                        focused: Some(item),
                        recent: without(l.recent, item).push(item),
                    },
                    true,
                )
            } else {
                (LayoutView { root: Some(next), focused: l.focused, recent: l.recent }, false)
            }
        },
    }
}

/// The last item of `recent` that is not in a collapsed region.
pub open spec fn last_uncollapsed<T>(recent: Seq<T>, root: Tree<T>) -> Option<T>
    decreases recent.len(),
{
    if recent.len() == 0 {
        None
    } else if !tree_is_collapsed(root, recent.last()) {
        Some(recent.last())
    } else {
        last_uncollapsed(recent.drop_last(), root)
    }
}

pub open spec fn layout_collapse<T>(l: LayoutView<T>, item: T) -> (LayoutView<T>, bool) {
    match l.root {
        None => (l, false),
        Some(root) => {
            let (next, ok) = tree_set_collapsed(root, item, true);
            if !ok {
                (LayoutView { root: Some(next), focused: l.focused, recent: l.recent }, false)
            } else {
                let focused = if l.focused is Some && tree_same_region(next, l.focused->0, item) {
                    last_uncollapsed(l.recent, next)
                } else {
                    l.focused
                };
                (LayoutView { root: Some(next), focused, recent: l.recent }, true)
            }
        },
    }
}

pub open spec fn layout_restore<T>(l: LayoutView<T>, item: T) -> (LayoutView<T>, bool) {
    match l.root {
        None => (l, false),
        Some(root) => {
            let (next, ok) = tree_set_collapsed(root, item, false);
            (LayoutView { root: Some(next), focused: l.focused, recent: l.recent }, ok)
        },
    }
}

pub open spec fn layout_update_minimum<T>(l: LayoutView<T>, item: T, minimum: (i32, i32)) -> (
    LayoutView<T>,
    bool,
) {
    match l.root {
        None => (l, false),
        Some(root) => {
            let (next, ok) = tree_update_minimum(root, item, at_least_one(minimum));
            (LayoutView { root: Some(next), focused: l.focused, recent: l.recent }, ok)
        },
    }
}

/// Removes every item in `removed`. A removed focus moves to the most recent
/// surviving item, or to the first region's shown item. The flag tells
/// whether the number of items changed.
pub open spec fn layout_retain<T>(l: LayoutView<T>, removed: Seq<T>) -> (LayoutView<T>, bool) {
    let root = match l.root {
        Some(r) => tree_retain(r, removed),
        None => None,
    };
    let survivors = match root {
        Some(r) => tree_items(r),
        None => seq![],
    };
    let recent = l.recent.filter(present_in(survivors));
    let removed_focus = l.focused is Some && removed.contains(l.focused->0);
    let focused = if removed_focus {
        if recent.len() > 0 {
            Some(recent.last())
        } else {
            match root {
                Some(r) => Some(tree_first_item(r)),
                None => None,
            }
        }
    } else {
        l.focused
    };
    let next = LayoutView { root, focused, recent };
    (next, layout_items(l).len() != layout_items(next).len())
}

/// Moves `item` to `edge` of the region holding `target` and focuses it;
/// `None`, with nothing changed, when the two are equal or either is absent.
pub open spec fn layout_move_next_to<T>(
    l: LayoutView<T>,
    item: T,
    target: T,
    edge: DropEdge,
    area: Rect,
    minimum: (i32, i32),
) -> (LayoutView<T>, Option<InsertResult>) {
    if item == target || !layout_contains(l, item) || !layout_contains(l, target) {
        (l, None)
    } else {
        let (removed, _) = layout_retain(l, seq![item]);
        match removed.root {
            None => (l, None),
            Some(root) => {
                let (next, result) = tree_insert_at_edge(
                    root,
                    target,
                    item,
                    at_least_one(minimum),
                    edge,
                    area,
                );
                match result {
                    None => (l, None),
                    Some(r) => (
                        LayoutView {
                            root: Some(next),
                            focused: Some(item),
                            recent: without(removed.recent, item).push(item),
                        },
                        Some(r),
                    ),
                }
            },
        }
    }
}

pub open spec fn layout_placements<T>(l: LayoutView<T>, area: Rect, collapsed: bool) -> Seq<
    (T, Rect),
> {
    match l.root {
        Some(root) => tree_placements(root, area, None, collapsed),
        None => seq![],
    }
}

pub open spec fn layout_boundary_at<T>(
    l: LayoutView<T>,
    x: int,
    y: int,
    area: Rect,
    threshold: int,
) -> Option<HandleView> {
    match l.root {
        Some(root) => tree_boundary_at(root, x, y, area, max_int(threshold, 0), seq![]),
        None => None,
    }
}

pub open spec fn layout_resize_boundary<T>(
    l: LayoutView<T>,
    handle: HandleView,
    x: int,
    y: int,
    area: Rect,
) -> (LayoutView<T>, bool) {
    match l.root {
        None => (l, false),
        Some(root) => {
            let (next, changed) = tree_resize(root, handle.path, handle.axis, 0, x, y, area);
            (LayoutView { root: Some(next), focused: l.focused, recent: l.recent }, changed)
        },
    }
}

} // verus!
