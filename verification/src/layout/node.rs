use vstd::prelude::*;

use super::geometry::{
    clamp_int, lemma_split_bounded, lemma_split_for_collapsed_bounded, min_int, spec_split, split,
    split_for_collapsed, spine_area, Axis, Rect, HALF_RATIO, MAX_EXTENT, RATIO_SCALE,
};
use super::model::{
    member_items, region_active_item, region_wf, resized_ratio, tree_all_collapsed,
    tree_boundary_at, tree_contains, tree_first_item, tree_focus, tree_insert_at_edge,
    tree_insert_next_to, tree_is_collapsed, tree_items, tree_minimum, tree_placements,
    tree_region_count, tree_resize, tree_retain, tree_same_region, tree_set_collapsed,
    tree_update_minimum, tree_wf, members_minimum, DropEdge, HandleView, InsertResult,
    LayoutItem, RegionView, Tree,
};
use super::region::Region;

verus! {

/// Minimums above this are only ever compared against extents, which are far
/// smaller, so they are kept at this value.
pub const MINIMUM_CAP: i64 = 1_099_511_627_776;

/// A split boundary found under the pointer, to be dragged afterwards.
#[derive(Debug, PartialEq, Eq)]
pub struct ResizeHandle {
    path: Vec<bool>,
    axis: Axis,
}

impl View for ResizeHandle {
    type V = HandleView;

    closed spec fn view(&self) -> HandleView {
        HandleView { path: self.path@, axis: self.axis }
    }
}

/// A node of the layout tree.
#[derive(Debug, PartialEq, Eq)]
pub enum Node<T> {
    Region(Region<T>),
    Split { axis: Axis, ratio: u16, first: Box<Node<T>>, second: Box<Node<T>> },
}

pub open spec fn node_tree<T>(n: Node<T>) -> Tree<T>
    decreases n,
{
    match n {
        Node::Region(r) => Tree::Region(r@),
        Node::Split { axis, ratio, first, second } => Tree::Split {
            axis,
            ratio,
            first: Box::new(node_tree(*first)),
            second: Box::new(node_tree(*second)),
        },
    }
}

impl<T> View for Node<T> {
    type V = Tree<T>;

    open spec fn view(&self) -> Tree<T> {
        node_tree(*self)
    }
}

pub proof fn lemma_members_minimum_positive<T>(members: Seq<super::model::Member<T>>)
    ensures
        members_minimum(members).0 >= 1,
        members_minimum(members).1 >= 1,
    decreases members.len(),
{
    if members.len() > 0 {
        lemma_members_minimum_positive(members.drop_last());
    }
}

pub proof fn lemma_tree_minimum_positive<T>(n: Tree<T>)
    ensures
        tree_minimum(n).0 >= 1,
        tree_minimum(n).1 >= 1,
    decreases n,
{
    match n {
        Tree::Region(r) => lemma_members_minimum_positive(r.members),
        Tree::Split { first, second, .. } => {
            lemma_tree_minimum_positive(*first);
            lemma_tree_minimum_positive(*second);
        },
    }
}

fn cap_sum(a: i64, b: i64) -> (sum: i64)
    requires
        0 <= a <= MINIMUM_CAP,
        0 <= b <= MINIMUM_CAP,
    ensures
        sum == min_int(a + b, MINIMUM_CAP as int),
{
    let s = a + b;
    if s > MINIMUM_CAP {
        MINIMUM_CAP
    } else {
        s
    }
}

fn max_i64(a: i64, b: i64) -> (m: i64)
    ensures
        m == super::geometry::max_int(a as int, b as int),
{
    if a >= b {
        a
    } else {
        b
    }
}

fn clamp_i64(v: i64, lo: i64, hi: i64) -> (clamped: i64)
    ensures
        clamped == clamp_int(v as int, lo as int, hi as int),
{
    if v < lo {
        lo
    } else if v > hi {
        hi
    } else {
        v
    }
}

fn abs_i64(v: i64) -> (a: i64)
    requires
        v > i64::MIN,
    ensures
        a == super::model::abs_int(v as int),
{
    if v < 0 {
        -v
    } else {
        v
    }
}

/// A ratio computed from capped minimums equals the one from the true
/// minimums: a capped minimum never fits in an extent.
proof fn lemma_capped_ratio(extent: int, requested: int, a: int, b: int)
    requires
        -MAX_EXTENT <= extent <= MAX_EXTENT,
        a >= 1,
        b >= 1,
    ensures
        resized_ratio(extent, requested, a, b) == resized_ratio(
            extent,
            requested,
            min_int(a, MINIMUM_CAP as int),
            min_int(b, MINIMUM_CAP as int),
        ),
{
}

impl<T: LayoutItem> Node<T> {
    pub fn duplicate(&self) -> (copy: Self)
        ensures
            copy@ == self@,
        decreases self,
    {
        match self {
            Node::Region(region) => Node::Region(region.duplicate()),
            Node::Split { axis, ratio, first, second } => Node::Split {
                axis: *axis,
                ratio: *ratio,
                first: Box::new(first.duplicate()),
                second: Box::new(second.duplicate()),
            },
        }
    }

    pub fn first_item(&self) -> (item: T)
        requires
            tree_wf(self@),
        ensures
            item == tree_first_item(self@),
        decreases self,
    {
        match self {
            Node::Region(region) => region.active_item(),
            Node::Split { first, .. } => first.first_item(),
        }
    }

    pub fn contains(&self, target: &T) -> (found: bool)
        ensures
            found == tree_contains(self@, *target),
        decreases self,
    {
        match self {
            Node::Region(region) => region.contains(target),
            Node::Split { first, second, .. } => first.contains(target) || second.contains(target),
        }
    }

    pub fn is_collapsed(&self, target: &T) -> (collapsed: bool)
        ensures
            collapsed == tree_is_collapsed(self@, *target),
        decreases self,
    {
        match self {
            Node::Region(region) => region.contains(target) && region.collapsed,
            Node::Split { first, second, .. } => first.is_collapsed(target) || second.is_collapsed(
                target,
            ),
        }
    }

    pub fn same_region(&self, left: &T, right: &T) -> (same: bool)
        ensures
            same == tree_same_region(self@, *left, *right),
        decreases self,
    {
        match self {
            Node::Region(region) => region.contains(left) && region.contains(right),
            Node::Split { first, second, .. } => first.same_region(left, right)
                || second.same_region(left, right),
        }
    }

    pub fn all_collapsed(&self) -> (all: bool)
        ensures
            all == tree_all_collapsed(self@),
        decreases self,
    {
        match self {
            Node::Region(region) => region.collapsed,
            Node::Split { first, second, .. } => first.all_collapsed() && second.all_collapsed(),
        }
    }

    pub fn len(&self) -> (count: usize)
        requires
            tree_items(self@).len() <= usize::MAX,
        ensures
            count == tree_items(self@).len(),
        decreases self,
    {
        match self {
            Node::Region(region) => region.members.len(),
            Node::Split { first, second, .. } => first.len() + second.len(),
        }
    }

    pub fn region_count(&self) -> (count: usize)
        requires
            tree_region_count(self@) <= usize::MAX,
        ensures
            count == tree_region_count(self@),
        decreases self,
    {
        match self {
            Node::Region(_) => 1,
            Node::Split { first, second, .. } => first.region_count() + second.region_count(),
        }
    }

    pub fn focus(self, target: &T) -> (focused: (Node<T>, bool))
        ensures
            (focused.0@, focused.1) == tree_focus(self@, *target),
        decreases self,
    {
        match self {
            Node::Region(mut region) => {
                let ok = region.focus(target);
                (Node::Region(region), ok)
            },
            Node::Split { axis, ratio, first, second } => {
                let (f, ok) = (*first).focus(target);
                if ok {
                    (Node::Split { axis, ratio, first: Box::new(f), second }, true)
                } else {
                    let (s, ok2) = (*second).focus(target);
                    (Node::Split { axis, ratio, first: Box::new(f), second: Box::new(s) }, ok2)
                }
            },
        }
    }

    pub fn set_collapsed(self, target: &T, collapsed: bool) -> (changed: (Node<T>, bool))
        ensures
            (changed.0@, changed.1) == tree_set_collapsed(self@, *target, collapsed),
        decreases self,
    {
        match self {
            Node::Region(mut region) => {
                if region.contains(target) && region.collapsed != collapsed {
                    region.collapsed = collapsed;
                    (Node::Region(region), true)
                } else {
                    (Node::Region(region), false)
                }
            },
            Node::Split { axis, ratio, first, second } => {
                let (f, ok) = (*first).set_collapsed(target, collapsed);
                if ok {
                    (Node::Split { axis, ratio, first: Box::new(f), second }, true)
                } else {
                    let (s, ok2) = (*second).set_collapsed(target, collapsed);
                    (Node::Split { axis, ratio, first: Box::new(f), second: Box::new(s) }, ok2)
                }
            },
        }
    }

    pub fn update_minimum(self, target: &T, minimum: (i32, i32)) -> (updated: (Node<T>, bool))
        ensures
            (updated.0@, updated.1) == tree_update_minimum(self@, *target, minimum),
        decreases self,
    {
        match self {
            Node::Region(mut region) => {
                let ok = region.update_minimum(target, minimum);
                (Node::Region(region), ok)
            },
            Node::Split { axis, ratio, first, second } => {
                let (f, ok) = (*first).update_minimum(target, minimum);
                if ok {
                    (Node::Split { axis, ratio, first: Box::new(f), second }, true)
                } else {
                    let (s, ok2) = (*second).update_minimum(target, minimum);
                    (Node::Split { axis, ratio, first: Box::new(f), second: Box::new(s) }, ok2)
                }
            },
        }
    }

    pub fn insert_next_to(self, target: &T, item: T, minimum: (i32, i32), area: Rect) -> (inserted:
        (Node<T>, InsertResult))
        requires
            tree_wf(self@),
            area.is_bounded(),
        ensures
            (inserted.0@, inserted.1) == tree_insert_next_to(
                self@,
                *target,
                item,
                minimum,
                area,
            ),
        decreases self,
    {
        match self {
            Node::Region(mut region) => {
                let axis = if area.width >= area.height {
                    Axis::Horizontal
                } else {
                    Axis::Vertical
                };
                let ghost r0 = region@;
                let (first_area, second_area) = split(area, axis, HALF_RATIO);
                assert(axis == super::model::longer_axis(area));
                let region_minimum = region.minimum();
                if first_area.supports(region_minimum) && second_area.supports(minimum) {
                    let fresh = Region::new(item, minimum);
                    assert(fresh@ == super::model::region_new(item, minimum));
                    assert(Node::Region(fresh)@ == Tree::Region(super::model::region_new(item, minimum)));
                    let node = Node::Split {
                        axis,
                        ratio: HALF_RATIO,
                        first: Box::new(Node::Region(region)),
                        second: Box::new(Node::Region(fresh)),
                    };
                    assert(node@ == tree_insert_next_to(Tree::Region(r0), *target, item, minimum, area).0);
                    (node, InsertResult::Tiled)
                } else {
                    region.stack(item, minimum);
                    (Node::Region(region), InsertResult::Stacked)
                }
            },
            Node::Split { axis, ratio, first, second } => {
                let (first_area, second_area) = split(area, axis, ratio);
                if first.contains(target) {
                    let (f, result) = (*first).insert_next_to(target, item, minimum, first_area);
                    (Node::Split { axis, ratio, first: Box::new(f), second }, result)
                } else {
                    let (s, result) = (*second).insert_next_to(
                        target,
                        item,
                        minimum,
                        second_area,
                    );
                    (Node::Split { axis, ratio, first, second: Box::new(s) }, result)
                }
            },
        }
    }

    pub fn insert_at_edge(
        self,
        target: &T,
        item: T,
        minimum: (i32, i32),
        edge: DropEdge,
        area: Rect,
    ) -> (inserted: (Node<T>, Option<InsertResult>))
        requires
            tree_wf(self@),
            area.is_bounded(),
        ensures
            (inserted.0@, inserted.1) == tree_insert_at_edge(
                self@,
                *target,
                item,
                minimum,
                edge,
                area,
            ),
        decreases self,
    {
        match self {
            Node::Region(mut region) => {
                if !region.contains(target) {
                    return (Node::Region(region), None);
                }
                let axis = match edge {
                    DropEdge::Left | DropEdge::Right => Axis::Horizontal,
                    DropEdge::Top | DropEdge::Bottom => Axis::Vertical,
                };
                let (first_area, second_area) = split(area, axis, HALF_RATIO);
                if first_area.supports(minimum) && second_area.supports(region.minimum()) {
                    let ghost r0 = region@;
                    let fresh = Region::new(item, minimum);
                    assert(Node::Region(fresh)@ == Tree::Region(super::model::region_new(item, minimum)));
                    let moved = Node::Region(fresh);
                    let kept = Node::Region(region);
                    assert(kept@ == Tree::Region(r0));
                    let (first, second) = match edge {
                        DropEdge::Left | DropEdge::Top => (moved, kept),
                        DropEdge::Right | DropEdge::Bottom => (kept, moved),
                    };
                    (
                        Node::Split {
                            axis,
                            ratio: HALF_RATIO,
                            first: Box::new(first),
                            second: Box::new(second),
                        },
                        Some(InsertResult::Tiled),
                    )
                } else {
                    region.stack(item, minimum);
                    (Node::Region(region), Some(InsertResult::Stacked))
                }
            },
            Node::Split { axis, ratio, first, second } => {
                let (first_area, second_area) = split(area, axis, ratio);
                if first.contains(target) {
                    let (f, result) = (*first).insert_at_edge(
                        target,
                        item,
                        minimum,
                        edge,
                        first_area,
                    );
                    (Node::Split { axis, ratio, first: Box::new(f), second }, result)
                } else {
                    let (s, result) = (*second).insert_at_edge(
                        target,
                        item,
                        minimum,
                        edge,
                        second_area,
                    );
                    (Node::Split { axis, ratio, first, second: Box::new(s) }, result)
                }
            },
        }
    }

    pub fn retain(self, removed: &Vec<T>) -> (kept: Option<Node<T>>)
        requires
            tree_wf(self@),
        ensures
            match kept {
                Some(n) => tree_retain(self@, removed@) == Some(n@),
                None => tree_retain(self@, removed@) is None,
            },
        decreases self,
    {
        match self {
            Node::Region(region) => match region.retain(removed) {
                Some(r) => Some(Node::Region(r)),
                None => None,
            },
            Node::Split { axis, ratio, first, second } => {
                let f = (*first).retain(removed);
                let s = (*second).retain(removed);
                match (f, s) {
                    (Some(f), Some(s)) => Some(
                        Node::Split { axis, ratio, first: Box::new(f), second: Box::new(s) },
                    ),
                    (Some(n), None) => Some(n),
                    (None, Some(n)) => Some(n),
                    (None, None) => None,
                }
            },
        }
    }

    pub fn collect_placements(
        &self,
        area: Rect,
        inherited: Option<Axis>,
        collapsed: bool,
        output: &mut Vec<(T, Rect)>,
    )
        requires
            tree_wf(self@),
            area.is_bounded(),
        ensures
            final(output)@ == old(output)@ + tree_placements(self@, area, inherited, collapsed),
        decreases self,
    {
        match self {
            Node::Region(region) => {
                if region.collapsed == collapsed {
                    let placed = if collapsed {
                        spine_area(area, inherited)
                    } else {
                        area
                    };
                    output.push((region.active_item(), placed));
                    proof {
                        assert(final(output)@ =~= old(output)@ + tree_placements(
                            self@,
                            area,
                            inherited,
                            collapsed,
                        ));
                    }
                } else {
                    proof {
                        assert(old(output)@ =~= old(output)@ + tree_placements(
                            self@,
                            area,
                            inherited,
                            collapsed,
                        ));
                    }
                }
            },
            Node::Split { axis, ratio, first, second } => {
                let (first_area, second_area) = split_for_collapsed(
                    area,
                    *axis,
                    *ratio,
                    first.all_collapsed(),
                    second.all_collapsed(),
                );
                let ghost before = output@;
                first.collect_placements(first_area, Some(*axis), collapsed, output);
                second.collect_placements(second_area, Some(*axis), collapsed, output);
                proof {
                    assert(output@ =~= before + tree_placements(self@, area, inherited, collapsed));
                }
            },
        }
    }

    pub fn collect_items(&self, output: &mut Vec<T>)
        ensures
            final(output)@ == old(output)@ + tree_items(self@),
        decreases self,
    {
        match self {
            Node::Region(region) => {
                let ghost before = output@;
                let mut i: usize = 0;
                while i < region.members.len()
                    invariant
                        0 <= i <= region.members.len(),
                        output@ == before + member_items(region.members@.take(i as int)),
                    decreases region.members.len() - i,
                {
                    proof {
                        assert(member_items(region.members@.take(i + 1)) =~= member_items(
                            region.members@.take(i as int),
                        ).push(region.members@[i as int].item));
                    }
                    output.push(region.members[i].item);
                    i += 1;
                }
                proof {
                    assert(region.members@.take(region.members.len() as int)
                        =~= region.members@);
                }
            },
            Node::Split { first, second, .. } => {
                let ghost before = output@;
                first.collect_items(output);
                second.collect_items(output);
                proof {
                    assert(output@ =~= before + tree_items(self@));
                }
            },
        }
    }

    /// The subtree's minimum size, each component capped at `MINIMUM_CAP`.
    pub fn minimum(&self) -> (minimum: (i64, i64))
        ensures
            minimum.0 == min_int(tree_minimum(self@).0, MINIMUM_CAP as int),
            minimum.1 == min_int(tree_minimum(self@).1, MINIMUM_CAP as int),
        decreases self,
    {
        proof {
            lemma_tree_minimum_positive(self@);
        }
        match self {
            Node::Region(region) => {
                let m = region.minimum();
                (m.0 as i64, m.1 as i64)
            },
            Node::Split { axis, first, second, .. } => {
                let a = first.minimum();
                let b = second.minimum();
                proof {
                    lemma_tree_minimum_positive(first@);
                    lemma_tree_minimum_positive(second@);
                }
                match axis {
                    Axis::Horizontal => (cap_sum(a.0, b.0), max_i64(a.1, b.1)),
                    Axis::Vertical => (max_i64(a.0, b.0), cap_sum(a.1, b.1)),
                }
            },
        }
    }

    pub fn boundary_at(
        &self,
        x: i32,
        y: i32,
        area: Rect,
        threshold: i32,
        path: &mut Vec<bool>,
    ) -> (handle: Option<ResizeHandle>)
        requires
            tree_wf(self@),
            area.is_bounded(),
        ensures
            final(path)@ == old(path)@,
            match handle {
                Some(h) => tree_boundary_at(
                    self@,
                    x as int,
                    y as int,
                    area,
                    threshold as int,
                    old(path)@,
                ) == Some(h@),
                None => tree_boundary_at(
                    self@,
                    x as int,
                    y as int,
                    area,
                    threshold as int,
                    old(path)@,
                ) is None,
            },
        decreases self,
    {
        let ghost tree = self@;
        let ghost start = path@;
        match self {
            Node::Region(region) => {
                assert(tree == Tree::Region(region@));
                None
            },
            Node::Split { axis, ratio, first, second } => {
                assert(tree == Tree::Split {
                    axis: *axis,
                    ratio: *ratio,
                    first: Box::new(first@),
                    second: Box::new(second@),
                });
                let (first_area, second_area) = split(area, *axis, *ratio);
                let in_first = x >= first_area.x && x < first_area.x + first_area.width && y
                    >= first_area.y && y < first_area.y + first_area.height;
                path.push(false);
                assert(path@ == start.push(false));
                let nested = if in_first {
                    first.boundary_at(x, y, first_area, threshold, path)
                } else {
                    None
                };
                path.pop();
                assert(path@ =~= start);
                if nested.is_some() {
                    return nested;
                }
                let in_second = x >= second_area.x && x < second_area.x + second_area.width && y
                    >= second_area.y && y < second_area.y + second_area.height;
                path.push(true);
                assert(path@ == start.push(true));
                let nested = if in_second {
                    second.boundary_at(x, y, second_area, threshold, path)
                } else {
                    None
                };
                path.pop();
                assert(path@ =~= start);
                if nested.is_some() {
                    return nested;
                }
                let distance = match axis {
                    Axis::Horizontal => abs_i64(x as i64 - second_area.x as i64),
                    Axis::Vertical => abs_i64(y as i64 - second_area.y as i64),
                };
                let within_boundary = match axis {
                    Axis::Horizontal => y >= area.y && y < area.y + area.height,
                    Axis::Vertical => x >= area.x && x < area.x + area.width,
                };
                if within_boundary && distance <= threshold as i64 {
                    let handle = ResizeHandle { path: copy_path(path), axis: *axis };
                    assert(handle@ == HandleView { path: start, axis: *axis });
                    Some(handle)
                } else {
                    None
                }
            },
        }
    }

    pub fn resize_boundary(
        self,
        handle: &ResizeHandle,
        depth: usize,
        x: i32,
        y: i32,
        area: Rect,
    ) -> (resized: (Node<T>, bool))
        requires
            tree_wf(self@),
            area.is_bounded(),
        ensures
            (resized.0@, resized.1) == tree_resize(
                self@,
                handle@.path,
                handle@.axis,
                depth as int,
                x as int,
                y as int,
                area,
            ),
        decreases self,
    {
        match self {
            Node::Region(region) => (Node::Region(region), false),
            Node::Split { axis, ratio, first, second } => {
                if depth < handle.path.len() {
                    let (first_area, second_area) = split(area, axis, ratio);
                    if handle.path[depth] {
                        let (s, changed) = (*second).resize_boundary(
                            handle,
                            depth + 1,
                            x,
                            y,
                            second_area,
                        );
                        (Node::Split { axis, ratio, first, second: Box::new(s) }, changed)
                    } else {
                        let (f, changed) = (*first).resize_boundary(
                            handle,
                            depth + 1,
                            x,
                            y,
                            first_area,
                        );
                        (Node::Split { axis, ratio, first: Box::new(f), second }, changed)
                    }
                } else if axis != handle.axis {
                    (Node::Split { axis, ratio, first, second }, false)
                } else {
                    let a = first.minimum();
                    let b = second.minimum();
                    proof {
                        lemma_tree_minimum_positive(first@);
                        lemma_tree_minimum_positive(second@);
                        lemma_capped_ratio(
                            area.width as int,
                            x - area.x,
                            tree_minimum(first@).0,
                            tree_minimum(second@).0,
                        );
                        lemma_capped_ratio(
                            area.height as int,
                            y - area.y,
                            tree_minimum(first@).1,
                            tree_minimum(second@).1,
                        );
                    }
                    let (extent, requested, first_minimum, second_minimum) = match axis {
                        Axis::Horizontal => (
                            area.width as i64,
                            x as i64 - area.x as i64,
                            a.0,
                            b.0,
                        ),
                        Axis::Vertical => (area.height as i64, y as i64 - area.y as i64, a.1, b.1),
                    };
                    if extent < first_minimum + second_minimum || extent <= 1 {
                        return (Node::Split { axis, ratio, first, second }, false);
                    }
                    let first_extent = clamp_i64(
                        requested,
                        first_minimum,
                        extent - second_minimum,
                    );
                    assert(0 < first_extent * 10000 <= extent * 10000) by (nonlinear_arith)
                        requires
                            1 <= first_extent <= extent,
                    ;
                    assert(extent * 10000 <= MAX_EXTENT * 10000) by (nonlinear_arith)
                        requires
                            extent <= MAX_EXTENT,
                    ;
                    let next_ratio = clamp_i64(
                        (first_extent * (RATIO_SCALE as i64)) / extent,
                        1,
                        (RATIO_SCALE - 1) as i64,
                    );
                    if ratio as i64 == next_ratio {
                        (Node::Split { axis, ratio, first, second }, false)
                    } else {
                        (Node::Split { axis, ratio: next_ratio as u16, first, second }, true)
                    }
                }
            },
        }
    }
}

fn copy_path(path: &Vec<bool>) -> (copy: Vec<bool>)
    ensures
        copy@ == path@,
{
    let mut copy: Vec<bool> = Vec::new();
    let mut i: usize = 0;
    while i < path.len()
        invariant
            0 <= i <= path.len(),
            copy@ == path@.take(i as int),
        decreases path.len() - i,
    {
        proof {
            assert(path@.take(i + 1) =~= path@.take(i as int).push(path@[i as int]));
        }
        copy.push(path[i]);
        i += 1;
    }
    proof {
        assert(path@.take(path.len() as int) =~= path@);
    }
    copy
}

impl Clone for ResizeHandle {
    fn clone(&self) -> (copy: Self)
        ensures
            copy@ == self@,
    {
        ResizeHandle { path: copy_path(&self.path), axis: self.axis }
    }
}

impl ResizeHandle {
    pub fn depth(&self) -> (depth: usize)
        ensures
            depth == self@.path.len(),
    {
        self.path.len()
    }
}

} // verus!
