//! Where a moved window lands: on the requested side of its target.

use vstd::prelude::*;

use super::geometry::{
    clamp_int, lemma_scaled_extent, lemma_split_for_collapsed_bounded, spec_axis_extent,
    spec_split_for_collapsed, trunc_div, Axis, Rect, COLLAPSED_SPINE_SIZE, RATIO_SCALE,
};
use super::lemmas::{item_kept, lemma_kept_contains, lemma_tree_contains_items, lemma_tree_insert_at_edge, lemma_tree_retain};
use super::model::{
    layout_move_next_to, layout_retain, region_contains, tree_all_collapsed, tree_contains,
    tree_insert_at_edge, tree_items, tree_wf, DropEdge, InsertResult, LayoutView, Tree,
};

verus! {

/// The rectangle of the first region holding `t`, when the tree is drawn
/// in `area`.
pub open spec fn tree_region_area<T>(n: Tree<T>, t: T, area: Rect) -> Option<Rect>
    decreases n,
{
    match n {
        Tree::Region(r) => if region_contains(r, t) {
            Some(area)
        } else {
            None
        },
        Tree::Split { axis, ratio, first, second } => {
            let (a1, a2) = spec_split_for_collapsed(
                area,
                axis,
                ratio as int,
                tree_all_collapsed(*first),
                tree_all_collapsed(*second),
            );
            if tree_contains(*first, t) {
                tree_region_area(*first, t, a1)
            } else {
                tree_region_area(*second, t, a2)
            }
        },
    }
}

/// The rectangle of the first region of the layout holding `t`, when the
/// layout is drawn in `area`.
pub open spec fn layout_region_area<T>(l: LayoutView<T>, t: T, area: Rect) -> Option<Rect> {
    match l.root {
        Some(root) => tree_region_area(root, t, area),
        None => None,
    }
}

/// `moved` lies against `target` on the side `edge`, sharing the full
/// length of that side.
pub open spec fn on_side(moved: Rect, target: Rect, edge: DropEdge) -> bool {
    match edge {
        DropEdge::Top => moved.x == target.x && moved.width == target.width && moved.y
            + moved.height == target.y,
        DropEdge::Bottom => moved.x == target.x && moved.width == target.width && target.y
            + target.height == moved.y,
        DropEdge::Left => moved.y == target.y && moved.height == target.height && moved.x
            + moved.width == target.x,
        DropEdge::Right => moved.y == target.y && moved.height == target.height && target.x
            + target.width == moved.x,
    }
}

/// The two parts of a split lie side by side along its axis: the first
/// before the second, sharing the other extent.
proof fn lemma_split_parts_adjoin(
    area: Rect,
    axis: Axis,
    ratio: int,
    first_collapsed: bool,
    second_collapsed: bool,
)
    requires
        area.is_bounded(),
        0 <= ratio <= RATIO_SCALE,
    ensures
        ({
            let (p1, p2) = spec_split_for_collapsed(
                area,
                axis,
                ratio,
                first_collapsed,
                second_collapsed,
            );
            match axis {
                Axis::Horizontal => p1.x + p1.width == p2.x && p1.y == p2.y && p1.height
                    == p2.height,
                Axis::Vertical => p1.y + p1.height == p2.y && p1.x == p2.x && p1.width == p2.width,
            }
        }),
{
    let extent = spec_axis_extent(area, axis);
    lemma_scaled_extent(extent, ratio);
    let spine = if COLLAPSED_SPINE_SIZE as int <= extent {
        COLLAPSED_SPINE_SIZE as int
    } else {
        extent
    };
    let f = if first_collapsed && !second_collapsed {
        clamp_int(spine, 0, extent)
    } else if !first_collapsed && second_collapsed {
        clamp_int(extent - spine, 0, extent)
    } else {
        trunc_div(extent * ratio, RATIO_SCALE as int)
    };
    assert(extent >= 0 ==> 0 <= f <= extent);
    assert(extent < 0 ==> extent <= f <= 0);
}

/// Tiling beside the region holding `target` splits it along the edge's
/// axis with the new region on the requested side.
proof fn lemma_tiled_side_of_region<T>(
    r: super::model::RegionView<T>,
    target: T,
    item: T,
    minimum: (i32, i32),
    edge: DropEdge,
    insert_area: Rect,
    area: Rect,
)
    requires
        area.is_bounded(),
        !region_contains(r, item),
        item != target,
        tree_insert_at_edge(Tree::Region(r), target, item, minimum, edge, insert_area).1 == Some(
            InsertResult::Tiled,
        ),
    ensures
        ({
            let after = tree_insert_at_edge(Tree::Region(r), target, item, minimum, edge, insert_area).0;
            &&& tree_region_area(after, item, area) is Some
            &&& tree_region_area(after, target, area) is Some
            &&& on_side(
                tree_region_area(after, item, area)->0,
                tree_region_area(after, target, area)->0,
                edge,
            )
        }),
{
    let after = tree_insert_at_edge(Tree::Region(r), target, item, minimum, edge, insert_area).0;
    let fresh = super::model::region_new(item, minimum);
    assert(super::model::member_items(fresh.members) =~= seq![item]);
    assert(super::model::member_items(fresh.members)[0] == item);
    assert(region_contains(fresh, item));
    assert(!region_contains(fresh, target)) by {
        if region_contains(fresh, target) {
            let i = choose|i: int|
                0 <= i < super::model::member_items(fresh.members).len()
                    && super::model::member_items(fresh.members)[i] == target;
        }
    }
    let eaxis = super::model::edge_axis(edge);
    let moved = Tree::Region(fresh);
    let kept = Tree::Region(r);
    let leading = super::model::edge_is_leading(edge);
    let first = if leading { moved } else { kept };
    let second = if leading { kept } else { moved };
    assert(after == Tree::Split {
        axis: eaxis,
        ratio: super::geometry::HALF_RATIO,
        first: Box::new(first),
        second: Box::new(second),
    });
    lemma_split_parts_adjoin(
        area,
        eaxis,
        super::geometry::HALF_RATIO as int,
        tree_all_collapsed(first),
        tree_all_collapsed(second),
    );
    let (a1, a2) = spec_split_for_collapsed(
        area,
        eaxis,
        super::geometry::HALF_RATIO as int,
        tree_all_collapsed(first),
        tree_all_collapsed(second),
    );
    assert(region_contains(r, target));
    assert(!region_contains(r, item));
    if leading {
        assert(tree_contains(first, item));
        assert(!tree_contains(first, target));
        assert(tree_region_area(after, item, area) == tree_region_area(first, item, a1));
        assert(tree_region_area(first, item, a1) == Some(a1));
        assert(tree_region_area(after, target, area) == tree_region_area(second, target, a2));
        assert(tree_region_area(second, target, a2) == Some(a2));
    } else {
        assert(!tree_contains(first, item));
        assert(tree_contains(first, target));
        assert(tree_region_area(after, item, area) == tree_region_area(second, item, a2));
        assert(tree_region_area(second, item, a2) == Some(a2));
        assert(tree_region_area(after, target, area) == tree_region_area(first, target, a1));
        assert(tree_region_area(first, target, a1) == Some(a1));
    }
}

/// When putting `item` at an edge of the region holding `target` tiles,
/// the item's new region lies on that side of the target's region, however
/// the tree is drawn.
proof fn lemma_tiled_side<T>(
    n: Tree<T>,
    target: T,
    item: T,
    minimum: (i32, i32),
    edge: DropEdge,
    insert_area: Rect,
    area: Rect,
)
    requires
        tree_wf(n),
        area.is_bounded(),
        !tree_contains(n, item),
        item != target,
        tree_insert_at_edge(n, target, item, minimum, edge, insert_area).1 == Some(
            InsertResult::Tiled,
        ),
    ensures
        ({
            let after = tree_insert_at_edge(n, target, item, minimum, edge, insert_area).0;
            &&& tree_region_area(after, item, area) is Some
            &&& tree_region_area(after, target, area) is Some
            &&& on_side(
                tree_region_area(after, item, area)->0,
                tree_region_area(after, target, area)->0,
                edge,
            )
        }),
    decreases n,
{
    let after = tree_insert_at_edge(n, target, item, minimum, edge, insert_area).0;
    match n {
        Tree::Region(r) => {
            lemma_tiled_side_of_region(r, target, item, minimum, edge, insert_area, area);
        },
        Tree::Split { axis, ratio, first, second } => {
            let (fa, sa) = super::geometry::spec_split(insert_area, axis, ratio as int);
            lemma_tree_contains_items(n, item);
            if tree_contains(*first, target) {
                let f = tree_insert_at_edge(*first, target, item, minimum, edge, fa).0;
                lemma_tree_insert_at_edge(*first, target, item, minimum, edge, fa);
                let k = choose|k: int|
                    0 <= k <= tree_items(*first).len() && tree_items(
                        #[trigger] tree_insert_at_edge(*first, target, item, minimum, edge, fa).0,
                    ) == tree_items(*first).insert(k, item);
                assert(tree_items(f)[k] == item);
                lemma_tree_contains_items(f, item);
                lemma_tree_contains_items(*first, target);
                let i = choose|i: int| 0 <= i < tree_items(*first).len() && tree_items(*first)[i]
                    == target;
                if i < k {
                    assert(tree_items(f)[i] == target);
                } else {
                    assert(tree_items(f)[i + 1] == target);
                }
                lemma_tree_contains_items(f, target);
                let (a1, a2) = spec_split_for_collapsed(
                    area,
                    axis,
                    ratio as int,
                    tree_all_collapsed(f),
                    tree_all_collapsed(*second),
                );
                lemma_split_for_collapsed_bounded(
                    area,
                    axis,
                    ratio as int,
                    tree_all_collapsed(f),
                    tree_all_collapsed(*second),
                );
                lemma_tiled_side(*first, target, item, minimum, edge, fa, a1);
            } else {
                lemma_tree_contains_items(*first, item);
                let s = tree_insert_at_edge(*second, target, item, minimum, edge, sa).0;
                let (a1, a2) = spec_split_for_collapsed(
                    area,
                    axis,
                    ratio as int,
                    tree_all_collapsed(*first),
                    tree_all_collapsed(s),
                );
                lemma_split_for_collapsed_bounded(
                    area,
                    axis,
                    ratio as int,
                    tree_all_collapsed(*first),
                    tree_all_collapsed(s),
                );
                lemma_tiled_side(*second, target, item, minimum, edge, sa, a2);
            }
        },
    }
}

/// A move that tiles puts the moved item's region on the requested side of
/// the target's region: above it for `Top`, below for `Bottom`, to its left
/// for `Left` and to its right for `Right`, along the whole of that side,
/// wherever the layout is drawn.
pub proof fn law_move_lands_on_the_requested_side<T>(
    l: LayoutView<T>,
    item: T,
    target: T,
    edge: DropEdge,
    area: Rect,
    minimum: (i32, i32),
    shown: Rect,
)
    requires
        super::model::layout_wf(l),
        shown.is_bounded(),
    ensures
        ({
            let (after, result) = layout_move_next_to(l, item, target, edge, area, minimum);
            result == Some(InsertResult::Tiled) ==> {
                &&& layout_region_area(after, item, shown) is Some
                &&& layout_region_area(after, target, shown) is Some
                &&& on_side(
                    layout_region_area(after, item, shown)->0,
                    layout_region_area(after, target, shown)->0,
                    edge,
                )
            }
        }),
{
    let (after, result) = layout_move_next_to(l, item, target, edge, area, minimum);
    if result == Some(InsertResult::Tiled) {
        let removed = seq![item];
        let taken_out = layout_retain(l, removed).0;
        let root = taken_out.root->0;
        lemma_tree_retain(l.root->0, removed);
        lemma_tree_contains_items(root, item);
        lemma_kept_contains(tree_items(l.root->0), removed, item);
        assert(removed[0] == item);
        lemma_tiled_side(
            root,
            target,
            item,
            super::model::at_least_one(minimum),
            edge,
            area,
            shown,
        );
    }
}

} // verus!
