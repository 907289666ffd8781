//! Properties of layouts that span operations.

use vstd::prelude::*;

use super::geometry::{lemma_split_for_collapsed_bounded, spine, Rect};
use super::lemmas::{
    item_kept, lemma_concat_contains, lemma_kept_contains, lemma_tree_contains_items,
    lemma_tree_focus, lemma_tree_insert_at_edge, lemma_tree_insert_next_to, lemma_tree_retain,
    lemma_tree_set_collapsed,
};
use super::model::{
    layout_collapse, layout_contains, layout_focus, layout_insert, layout_items,
    layout_move_next_to, layout_placements, layout_region_count, layout_restore, layout_retain,
    layout_wf, present_in, region_active_item, region_contains, tree_contains, tree_focus,
    tree_is_collapsed, tree_items, tree_placements, tree_region_count, tree_set_collapsed,
    tree_wf, DropEdge, InsertResult, LayoutView, Tree, layout_resize_boundary, tree_resize,
    tree_insert_next_to, tree_insert_at_edge,
    HandleView,
};

verus! {

broadcast use vstd::seq_lib::group_filter_ensures;

/// Inserting puts exactly one new occurrence of the item among the items,
/// keeps the order of the others and focuses the item; the result is
/// `First` exactly when the layout was empty.
pub proof fn law_insert_adds_the_item<T>(l: LayoutView<T>, item: T, area: Rect, minimum: (i32, i32))
    requires
        layout_wf(l),
    ensures
        layout_insert(l, item, area, minimum).0.focused == Some(item),
        exists|k: int|
            0 <= k <= layout_items(l).len() && layout_items(
                #[trigger] layout_insert(l, item, area, minimum).0,
            ) == layout_items(l).insert(k, item),
        (layout_insert(l, item, area, minimum).1 == InsertResult::First) <==> l.root is None,
{
    let m = super::model::at_least_one(minimum);
    match l.root {
        None => {
            let after = layout_insert(l, item, area, minimum).0;
            assert(layout_items(after) =~= layout_items(l).insert(0, item));
        },
        Some(root) => {
            let target = match l.focused {
                Some(f) => f,
                None => super::model::tree_first_item(root),
            };
            lemma_tree_insert_next_to(root, target, item, m, area);
        },
    }
}

/// Focusing succeeds exactly for items of the layout. A success focuses the
/// item and keeps the items; a failure changes nothing.
pub proof fn law_focus<T>(l: LayoutView<T>, item: T)
    requires
        layout_wf(l),
    ensures
        layout_focus(l, item).1 <==> layout_contains(l, item),
        layout_items(layout_focus(l, item).0) == layout_items(l),
        layout_focus(l, item).1 ==> layout_focus(l, item).0.focused == Some(item),
        !layout_focus(l, item).1 ==> layout_focus(l, item).0 == l,
{
    if let Some(root) = l.root {
        lemma_tree_focus(root, item);
    }
}

proof fn lemma_focus_shows<T>(n: Tree<T>, t: T, area: Rect, inherited: Option<super::geometry::Axis>)
    requires
        tree_wf(n),
        tree_contains(n, t),
        !tree_is_collapsed(n, t),
    ensures
        exists|i: int|
            0 <= i < tree_placements(tree_focus(n, t).0, area, inherited, false).len()
                && (#[trigger] tree_placements(tree_focus(n, t).0, area, inherited, false)[i]).0
                == t,
    decreases n,
{
    match n {
        Tree::Region(r) => {
            super::lemmas::lemma_region_focus(r, t);
            let placed = tree_placements(tree_focus(n, t).0, area, inherited, false);
            assert(placed[0].0 == t);
        },
        Tree::Split { axis, ratio, first, second } => {
            lemma_tree_focus(*first, t);
            let focused = tree_focus(n, t).0;
            if tree_contains(*first, t) {
                let f = tree_focus(*first, t).0;
                let fc = super::model::tree_all_collapsed(f);
                let sc = super::model::tree_all_collapsed(*second);
                let (a1, a2) = super::geometry::spec_split_for_collapsed(
                    area,
                    axis,
                    ratio as int,
                    fc,
                    sc,
                );
                lemma_focus_shows(*first, t, a1, Some(axis));
                let i = choose|i: int|
                    0 <= i < tree_placements(f, a1, Some(axis), false).len() && (
                    #[trigger] tree_placements(f, a1, Some(axis), false)[i]).0 == t;
                let placed = tree_placements(focused, area, inherited, false);
                assert(placed == tree_placements(f, a1, Some(axis), false) + tree_placements(
                    *second,
                    a2,
                    Some(axis),
                    false,
                ));
                assert(placed[i] == tree_placements(f, a1, Some(axis), false)[i]);
            } else {
                lemma_tree_focus(*second, t);
                let s = tree_focus(*second, t).0;
                let fc = super::model::tree_all_collapsed(*first);
                let sc = super::model::tree_all_collapsed(s);
                let (a1, a2) = super::geometry::spec_split_for_collapsed(
                    area,
                    axis,
                    ratio as int,
                    fc,
                    sc,
                );
                lemma_focus_shows(*second, t, a2, Some(axis));
                let i = choose|i: int|
                    0 <= i < tree_placements(s, a2, Some(axis), false).len() && (
                    #[trigger] tree_placements(s, a2, Some(axis), false)[i]).0 == t;
                let head = tree_placements(*first, a1, Some(axis), false);
                let placed = tree_placements(focused, area, inherited, false);
                assert(placed == head + tree_placements(s, a2, Some(axis), false));
                assert(placed[head.len() + i] == tree_placements(s, a2, Some(axis), false)[i]);
            }
        },
    }
}

/// A focused item is shown: unless its region is collapsed, it is among the
/// placed items afterwards, whatever the area.
pub proof fn law_focus_shows_the_item<T>(l: LayoutView<T>, item: T, area: Rect)
    requires
        layout_wf(l),
        layout_contains(l, item),
        !tree_is_collapsed(l.root->0, item),
    ensures
        exists|i: int|
            0 <= i < layout_placements(layout_focus(l, item).0, area, false).len() && (
            #[trigger] layout_placements(layout_focus(l, item).0, area, false)[i]).0 == item,
{
    let root = l.root->0;
    lemma_tree_focus(root, item);
    lemma_focus_shows(root, item, area, None);
    let placed = tree_placements(tree_focus(root, item).0, area, None, false);
    let i = choose|i: int| 0 <= i < placed.len() && (#[trigger] placed[i]).0 == item;
    assert(layout_placements(layout_focus(l, item).0, area, false) == placed);
    assert(layout_placements(layout_focus(l, item).0, area, false)[i].0 == item);
}

/// Removal keeps exactly the items not removed, in order, and exactly the
/// surviving part of the focus history; the flag reports whether an item of
/// the layout was removed. A removed focus moves to the most recent
/// surviving item of the history.
pub proof fn law_retain<T>(l: LayoutView<T>, removed: Seq<T>)
    requires
        layout_wf(l),
    ensures
        layout_items(layout_retain(l, removed).0) == layout_items(l).filter(item_kept(removed)),
        layout_retain(l, removed).0.recent == l.recent.filter(item_kept(removed)),
        layout_retain(l, removed).1 <==> exists|t: T|
            layout_contains(l, t) && #[trigger] removed.contains(t),
        (l.focused matches Some(f) && removed.contains(f) && l.recent.filter(
            item_kept(removed),
        ).len() > 0) ==> layout_retain(l, removed).0.focused == Some(
            l.recent.filter(item_kept(removed)).last(),
        ),
{
    let after = layout_retain(l, removed).0;
    let items = layout_items(l);
    let kept = items.filter(item_kept(removed));
    assert(layout_items(after) == kept) by {
        if let Some(r) = l.root {
            lemma_tree_retain(r, removed);
        } else {
            reveal_with_fuel(Seq::<_>::filter, 1);
            assert(items =~= Seq::<T>::empty());
        }
    }
    assert forall|x: T| #[trigger] present_in(kept)(x) == item_kept(removed)(x) || !l.recent.contains(x) by {
        lemma_kept_contains(items, removed, x);
        if l.recent.contains(x) {
            let i = choose|i: int| 0 <= i < l.recent.len() && l.recent[i] == x;
            assert(layout_contains(l, l.recent[i]));
            if let Some(r) = l.root {
                lemma_tree_contains_items(r, x);
            }
        }
    }
    lemma_filter_agrees(l.recent, present_in(kept), item_kept(removed));
    items.lemma_filter_len(item_kept(removed));
    if exists|t: T| layout_contains(l, t) && #[trigger] removed.contains(t) {
        let t = choose|t: T| layout_contains(l, t) && #[trigger] removed.contains(t);
        if let Some(r) = l.root {
            lemma_tree_contains_items(r, t);
        }
        let j = choose|j: int| 0 <= j < items.len() && items[j] == t;
        lemma_filter_shrinks_law(items, item_kept(removed), j);
    } else {
        assert forall|j: int| 0 <= j < items.len() implies item_kept(removed)(items[j]) by {
            if let Some(r) = l.root {
                lemma_tree_contains_items(r, items[j]);
            }
            assert(layout_contains(l, items[j]));
        }
        lemma_filter_all(items, item_kept(removed));
    }
}

proof fn lemma_filter_all<T>(s: Seq<T>, p: spec_fn(T) -> bool)
    requires
        forall|j: int| 0 <= j < s.len() ==> p(s[j]),
    ensures
        s.filter(p) == s,
    decreases s.len(),
{
    reveal_with_fuel(Seq::<_>::filter, 1);
    if s.len() > 0 {
        lemma_filter_all(s.drop_last(), p);
        assert(s.drop_last().push(s.last()) =~= s);
    }
}

proof fn lemma_filter_shrinks_law<T>(s: Seq<T>, p: spec_fn(T) -> bool, i: int)
    requires
        0 <= i < s.len(),
        !p(s[i]),
    ensures
        s.filter(p).len() < s.len(),
    decreases s.len(),
{
    reveal_with_fuel(Seq::<_>::filter, 1);
    s.drop_last().lemma_filter_len(p);
    if i < s.len() - 1 {
        lemma_filter_shrinks_law(s.drop_last(), p, i);
    }
}

/// Two predicates that agree on a sequence's elements filter it alike.
proof fn lemma_filter_agrees<T>(s: Seq<T>, p: spec_fn(T) -> bool, q: spec_fn(T) -> bool)
    requires
        forall|x: T| #[trigger] p(x) == q(x) || !s.contains(x),
    ensures
        s.filter(p) == s.filter(q),
    decreases s.len(),
{
    reveal_with_fuel(Seq::<_>::filter, 1);
    if s.len() > 0 {
        assert forall|x: T| #[trigger] p(x) == q(x) || !s.drop_last().contains(x) by {
            if s.drop_last().contains(x) {
                let i = choose|i: int| 0 <= i < s.drop_last().len() && s.drop_last()[i] == x;
                assert(s[i] == x);
            }
        }
        lemma_filter_agrees(s.drop_last(), p, q);
        assert(s[s.len() - 1] == s.last());
    }
}

/// A move is refused, with nothing changed, exactly when the item is the
/// target or either is missing. Otherwise every occurrence of the item is
/// taken out, one is put back next to the target, and the item is focused.
pub proof fn law_move_next_to<T>(
    l: LayoutView<T>,
    item: T,
    target: T,
    edge: DropEdge,
    area: Rect,
    minimum: (i32, i32),
)
    requires
        layout_wf(l),
    ensures
        layout_move_next_to(l, item, target, edge, area, minimum).1 is None <==> (item == target
            || !layout_contains(l, item) || !layout_contains(l, target)),
        layout_move_next_to(l, item, target, edge, area, minimum).1 is None ==> layout_move_next_to(
            l,
            item,
            target,
            edge,
            area,
            minimum,
        ).0 == l,
        layout_move_next_to(l, item, target, edge, area, minimum).1 is Some ==> {
            &&& layout_move_next_to(l, item, target, edge, area, minimum).0.focused == Some(item)
            &&& exists|k: int|
                0 <= k <= layout_items(l).filter(item_kept(seq![item])).len() && layout_items(
                    #[trigger] layout_move_next_to(l, item, target, edge, area, minimum).0,
                ) == layout_items(l).filter(item_kept(seq![item])).insert(k, item)
        },
{
    if !(item == target || !layout_contains(l, item) || !layout_contains(l, target)) {
        let removed = seq![item];
        let r = l.root->0;
        lemma_tree_retain(r, removed);
        lemma_tree_contains_items(r, target);
        lemma_kept_contains(tree_items(r), removed, target);
        assert(removed[0] == item);
        let retained = tree_super_retain(r, removed);
        lemma_tree_contains_items(retained, target);
        lemma_tree_insert_at_edge(
            retained,
            target,
            item,
            super::model::at_least_one(minimum),
            edge,
            area,
        );
    }
}

spec fn tree_super_retain<T>(r: Tree<T>, removed: Seq<T>) -> Tree<T> {
    super::model::tree_retain(r, removed)->0
}

/// How many regions of the tree hold `t`.
pub open spec fn tree_regions_holding<T>(n: Tree<T>, t: T) -> nat
    decreases n,
{
    match n {
        Tree::Region(r) => if region_contains(r, t) {
            1
        } else {
            0
        },
        Tree::Split { first, second, .. } => tree_regions_holding(*first, t)
            + tree_regions_holding(*second, t),
    }
}

/// How many regions of the layout hold `t`.
pub open spec fn layout_regions_holding<T>(l: LayoutView<T>, t: T) -> nat {
    match l.root {
        Some(root) => tree_regions_holding(root, t),
        None => 0,
    }
}

proof fn lemma_regions_holding<T>(n: Tree<T>, t: T, collapsed: bool)
    ensures
        tree_set_collapsed(n, t, collapsed).1 ==> tree_regions_holding(n, t) >= 1,
        tree_regions_holding(n, t) == 0 ==> tree_set_collapsed(n, t, collapsed) == (n, false),
        tree_regions_holding(tree_set_collapsed(n, t, collapsed).0, t) == tree_regions_holding(
            n,
            t,
        ),
    decreases n,
{
    match n {
        Tree::Region(r) => {},
        Tree::Split { first, second, .. } => {
            lemma_regions_holding(*first, t, collapsed);
            lemma_regions_holding(*second, t, collapsed);
        },
    }
}

proof fn lemma_collapse_restore_tree<T>(n: Tree<T>, t: T)
    requires
        tree_wf(n),
        tree_regions_holding(n, t) == 1,
        tree_set_collapsed(n, t, true).1,
    ensures
        tree_set_collapsed(tree_set_collapsed(n, t, true).0, t, false) == (n, true),
    decreases n,
{
    match n {
        Tree::Region(r) => {},
        Tree::Split { axis, ratio, first, second } => {
            lemma_tree_set_collapsed(*first, t, true);
            lemma_regions_holding(*first, t, true);
            lemma_regions_holding(*second, t, true);
            if tree_set_collapsed(*first, t, true).1 {
                lemma_collapse_restore_tree(*first, t);
            } else {
                lemma_tree_set_collapsed(*second, t, true);
                lemma_regions_holding(*first, t, false);
                lemma_collapse_restore_tree(*second, t);
            }
        },
    }
}

/// Restoring undoes collapsing: when exactly one region holds the item,
/// restoring it just after collapsing it succeeds and gives back the
/// earlier tree, so the items and every placement are as before.
pub proof fn law_restore_undoes_collapse<T>(l: LayoutView<T>, item: T)
    requires
        layout_wf(l),
        layout_regions_holding(l, item) == 1,
        layout_collapse(l, item).1,
    ensures
        layout_restore(layout_collapse(l, item).0, item).1,
        layout_restore(layout_collapse(l, item).0, item).0.root == l.root,
        layout_items(layout_restore(layout_collapse(l, item).0, item).0) == layout_items(l),
        forall|area: Rect, collapsed: bool|
            #[trigger] layout_placements(layout_restore(layout_collapse(l, item).0, item).0, area, collapsed)
                == layout_placements(l, area, collapsed),
{
    lemma_collapse_restore_tree(l.root->0, item);
}

/// With distinct items, an item of the layout is held by exactly one
/// region.
pub proof fn law_distinct_items_are_held_once<T>(l: LayoutView<T>, item: T)
    requires
        layout_items(l).no_duplicates(),
        layout_items(l).contains(item),
    ensures
        layout_regions_holding(l, item) == 1,
{
    lemma_held_once(l.root->0, item);
}

proof fn lemma_held_once<T>(n: Tree<T>, t: T)
    requires
        tree_items(n).no_duplicates(),
        tree_items(n).contains(t),
    ensures
        tree_regions_holding(n, t) == 1,
    decreases n,
{
    match n {
        Tree::Region(r) => {},
        Tree::Split { first, second, .. } => {
            lemma_concat_no_duplicates(tree_items(*first), tree_items(*second));
            lemma_concat_contains(tree_items(*first), tree_items(*second), t);
            lemma_not_held(*first, t);
            lemma_not_held(*second, t);
            if tree_items(*first).contains(t) {
                lemma_held_once(*first, t);
            } else {
                lemma_held_once(*second, t);
            }
        },
    }
}

proof fn lemma_not_held<T>(n: Tree<T>, t: T)
    ensures
        !tree_items(n).contains(t) ==> tree_regions_holding(n, t) == 0,
    decreases n,
{
    match n {
        Tree::Region(r) => {},
        Tree::Split { first, second, .. } => {
            lemma_concat_contains(tree_items(*first), tree_items(*second), t);
            lemma_not_held(*first, t);
            lemma_not_held(*second, t);
        },
    }
}

proof fn lemma_placement_counts<T>(
    n: Tree<T>,
    area: Rect,
    inherited: Option<super::geometry::Axis>,
)
    ensures
        tree_placements(n, area, inherited, false).len() + tree_placements(
            n,
            area,
            inherited,
            true,
        ).len() == tree_region_count(n),
    decreases n,
{
    match n {
        Tree::Region(_) => {},
        Tree::Split { axis, ratio, first, second } => {
            let (a1, a2) = super::geometry::spec_split_for_collapsed(
                area,
                axis,
                ratio as int,
                super::model::tree_all_collapsed(*first),
                super::model::tree_all_collapsed(*second),
            );
            lemma_placement_counts(*first, a1, Some(axis));
            lemma_placement_counts(*second, a2, Some(axis));
        },
    }
}

/// Every region is placed exactly once: expanded regions among the
/// placements and collapsed ones among the collapsed placements.
pub proof fn law_every_region_is_placed_once<T>(l: LayoutView<T>, area: Rect)
    ensures
        layout_placements(l, area, false).len() + layout_placements(l, area, true).len()
            == layout_region_count(l),
{
    if let Some(root) = l.root {
        lemma_placement_counts(root, area, None);
    }
}

proof fn lemma_tree_placements_bounded<T>(
    n: Tree<T>,
    area: Rect,
    inherited: Option<super::geometry::Axis>,
    collapsed: bool,
)
    requires
        tree_wf(n),
        area.is_bounded(),
    ensures
        forall|i: int|
            0 <= i < tree_placements(n, area, inherited, collapsed).len() ==> (
            #[trigger] tree_placements(n, area, inherited, collapsed)[i]).1.is_bounded(),
    decreases n,
{
    match n {
        Tree::Region(r) => {
            assert(spine(area, inherited).is_bounded());
        },
        Tree::Split { axis, ratio, first, second } => {
            lemma_split_for_collapsed_bounded(
                area,
                axis,
                ratio as int,
                super::model::tree_all_collapsed(*first),
                super::model::tree_all_collapsed(*second),
            );
            let (first_area, second_area) = super::geometry::spec_split_for_collapsed(
                area,
                axis,
                ratio as int,
                super::model::tree_all_collapsed(*first),
                super::model::tree_all_collapsed(*second),
            );
            lemma_tree_placements_bounded(*first, first_area, Some(axis), collapsed);
            lemma_tree_placements_bounded(*second, second_area, Some(axis), collapsed);
            let a = tree_placements(*first, first_area, Some(axis), collapsed);
            let b = tree_placements(*second, second_area, Some(axis), collapsed);
            assert forall|i: int| 0 <= i < (a + b).len() implies (#[trigger] (a + b)[i]).1.is_bounded() by {
                if i < a.len() {
                    assert((a + b)[i] == a[i]);
                } else {
                    assert((a + b)[i] == b[i - a.len()]);
                }
            }
        },
    }
}

/// Every placed rectangle, expanded or collapsed, stays bounded when the
/// area is.
pub proof fn law_placements_are_bounded<T>(l: LayoutView<T>, area: Rect, collapsed: bool)
    requires
        layout_wf(l),
        area.is_bounded(),
    ensures
        forall|i: int|
            0 <= i < layout_placements(l, area, collapsed).len() ==> (
            #[trigger] layout_placements(l, area, collapsed)[i]).1.is_bounded(),
{
    if let Some(root) = l.root {
        lemma_tree_placements_bounded(root, area, None, collapsed);
    }
}

proof fn lemma_concat_no_duplicates<T>(a: Seq<T>, b: Seq<T>)
    requires
        (a + b).no_duplicates(),
    ensures
        a.no_duplicates(),
        b.no_duplicates(),
        forall|t: T| a.contains(t) ==> !b.contains(t),
{
    let ab = a + b;
    assert forall|i: int, j: int| 0 <= i < a.len() && 0 <= j < a.len() && i != j implies a[i]
        != a[j] by {
        assert(ab[i] == a[i] && ab[j] == a[j]);
    }
    assert forall|i: int, j: int| 0 <= i < b.len() && 0 <= j < b.len() && i != j implies b[i]
        != b[j] by {
        assert(ab[a.len() + i] == b[i] && ab[a.len() + j] == b[j]);
    }
    assert forall|t: T| a.contains(t) implies !b.contains(t) by {
        if b.contains(t) {
            let i = choose|i: int| 0 <= i < a.len() && a[i] == t;
            let j = choose|j: int| 0 <= j < b.len() && b[j] == t;
            assert(ab[i] == t && ab[a.len() + j] == t);
        }
    }
}

/// Each placed item, expanded or collapsed, is an item of the tree.
proof fn lemma_placed_items_belong<T>(
    n: Tree<T>,
    area: Rect,
    inherited: Option<super::geometry::Axis>,
    collapsed: bool,
)
    requires
        tree_wf(n),
    ensures
        forall|i: int|
            0 <= i < tree_placements(n, area, inherited, collapsed).len() ==> tree_contains(
                n,
                (#[trigger] tree_placements(n, area, inherited, collapsed)[i]).0,
            ),
    decreases n,
{
    match n {
        Tree::Region(r) => {
            assert(super::model::member_items(r.members)[r.active] == region_active_item(r));
        },
        Tree::Split { axis, ratio, first, second } => {
            let (a1, a2) = super::geometry::spec_split_for_collapsed(
                area,
                axis,
                ratio as int,
                super::model::tree_all_collapsed(*first),
                super::model::tree_all_collapsed(*second),
            );
            lemma_placed_items_belong(*first, a1, Some(axis), collapsed);
            lemma_placed_items_belong(*second, a2, Some(axis), collapsed);
            let a = tree_placements(*first, a1, Some(axis), collapsed);
            let b = tree_placements(*second, a2, Some(axis), collapsed);
            assert forall|i: int| 0 <= i < (a + b).len() implies tree_contains(
                n,
                (#[trigger] (a + b)[i]).0,
            ) by {
                if i < a.len() {
                    assert((a + b)[i] == a[i]);
                } else {
                    assert((a + b)[i] == b[i - a.len()]);
                }
            }
        },
    }
}

/// With distinct items, no item is among both the expanded and the
/// collapsed placements.
proof fn lemma_placements_disjoint<T>(
    n: Tree<T>,
    area: Rect,
    inherited: Option<super::geometry::Axis>,
)
    requires
        tree_wf(n),
        tree_items(n).no_duplicates(),
    ensures
        forall|i: int, j: int|
            0 <= i < tree_placements(n, area, inherited, false).len() && 0 <= j
                < tree_placements(n, area, inherited, true).len() ==> (#[trigger] tree_placements(
                n,
                area,
                inherited,
                false,
            )[i]).0 != (#[trigger] tree_placements(n, area, inherited, true)[j]).0,
    decreases n,
{
    match n {
        Tree::Region(r) => {},
        Tree::Split { axis, ratio, first, second } => {
            let (a1, a2) = super::geometry::spec_split_for_collapsed(
                area,
                axis,
                ratio as int,
                super::model::tree_all_collapsed(*first),
                super::model::tree_all_collapsed(*second),
            );
            lemma_concat_no_duplicates(tree_items(*first), tree_items(*second));
            lemma_placements_disjoint(*first, a1, Some(axis));
            lemma_placements_disjoint(*second, a2, Some(axis));
            lemma_placed_items_belong(*first, a1, Some(axis), false);
            lemma_placed_items_belong(*first, a1, Some(axis), true);
            lemma_placed_items_belong(*second, a2, Some(axis), false);
            lemma_placed_items_belong(*second, a2, Some(axis), true);
            let ef = tree_placements(*first, a1, Some(axis), false);
            let es = tree_placements(*second, a2, Some(axis), false);
            let cf = tree_placements(*first, a1, Some(axis), true);
            let cs = tree_placements(*second, a2, Some(axis), true);
            assert forall|i: int, j: int|
                0 <= i < (ef + es).len() && 0 <= j < (cf + cs).len() implies (#[trigger] (ef
                + es)[i]).0 != (#[trigger] (cf + cs)[j]).0 by {
                let x = (ef + es)[i].0;
                let y = (cf + cs)[j].0;
                if i < ef.len() {
                    assert((ef + es)[i] == ef[i]);
                    lemma_tree_contains_items(*first, x);
                    if j < cf.len() {
                        assert((cf + cs)[j] == cf[j]);
                    } else {
                        assert((cf + cs)[j] == cs[j - cf.len()]);
                        lemma_tree_contains_items(*second, y);
                    }
                } else {
                    assert((ef + es)[i] == es[i - ef.len()]);
                    lemma_tree_contains_items(*second, x);
                    if j < cf.len() {
                        assert((cf + cs)[j] == cf[j]);
                        lemma_tree_contains_items(*first, y);
                    } else {
                        assert((cf + cs)[j] == cs[j - cf.len()]);
                    }
                }
            }
        },
    }
}

/// Every placed item is an item of the layout, and when the items are
/// distinct no item is both among the expanded placements and among the
/// collapsed ones.
pub proof fn law_placed_items_are_distinct_between_lists<T>(l: LayoutView<T>, area: Rect)
    requires
        layout_wf(l),
    ensures
        forall|i: int|
            0 <= i < layout_placements(l, area, false).len() ==> layout_items(l).contains(
                (#[trigger] layout_placements(l, area, false)[i]).0,
            ),
        forall|j: int|
            0 <= j < layout_placements(l, area, true).len() ==> layout_items(l).contains(
                (#[trigger] layout_placements(l, area, true)[j]).0,
            ),
        layout_items(l).no_duplicates() ==> forall|i: int, j: int|
            0 <= i < layout_placements(l, area, false).len() && 0 <= j < layout_placements(
                l,
                area,
                true,
            ).len() ==> (#[trigger] layout_placements(l, area, false)[i]).0
                != (#[trigger] layout_placements(l, area, true)[j]).0,
{
    if let Some(root) = l.root {
        lemma_placed_items_belong(root, area, None, false);
        lemma_placed_items_belong(root, area, None, true);
        assert forall|i: int|
            0 <= i < layout_placements(l, area, false).len() implies layout_items(l).contains(
            (#[trigger] layout_placements(l, area, false)[i]).0,
        ) by {
            lemma_tree_contains_items(root, layout_placements(l, area, false)[i].0);
        }
        assert forall|j: int|
            0 <= j < layout_placements(l, area, true).len() implies layout_items(l).contains(
            (#[trigger] layout_placements(l, area, true)[j]).0,
        ) by {
            lemma_tree_contains_items(root, layout_placements(l, area, true)[j].0);
        }
        if layout_items(l).no_duplicates() {
            lemma_placements_disjoint(root, area, None);
        }
    }
}

proof fn lemma_resize_twice<T>(
    n: Tree<T>,
    path: Seq<bool>,
    handle_axis: super::geometry::Axis,
    depth: int,
    x: int,
    y: int,
    area: Rect,
)
    ensures
        tree_resize(tree_resize(n, path, handle_axis, depth, x, y, area).0, path, handle_axis, depth, x, y, area)
            == (tree_resize(n, path, handle_axis, depth, x, y, area).0, false),
    decreases n,
{
    match n {
        Tree::Region(_) => {},
        Tree::Split { axis, ratio, first, second } => {
            if depth < path.len() {
                let (first_area, second_area) = super::geometry::spec_split(area, axis, ratio as int);
                if path[depth] {
                    lemma_resize_twice(*second, path, handle_axis, depth + 1, x, y, second_area);
                } else {
                    lemma_resize_twice(*first, path, handle_axis, depth + 1, x, y, first_area);
                }
            }
        },
    }
}

/// Moving a boundary to a point a second time changes nothing: the second
/// call reports no change and leaves the layout as the first call left it.
pub proof fn law_resize_is_idempotent<T>(
    l: LayoutView<T>,
    handle: HandleView,
    x: int,
    y: int,
    area: Rect,
)
    ensures
        layout_resize_boundary(layout_resize_boundary(l, handle, x, y, area).0, handle, x, y, area)
            == (layout_resize_boundary(l, handle, x, y, area).0, false),
{
    if let Some(root) = l.root {
        lemma_resize_twice(root, handle.path, handle.axis, 0, x, y, area);
    }
}

/// No region of the tree is collapsed.
pub open spec fn tree_none_collapsed<T>(n: Tree<T>) -> bool
    decreases n,
{
    match n {
        Tree::Region(r) => !r.collapsed,
        Tree::Split { first, second, .. } => tree_none_collapsed(*first) && tree_none_collapsed(
            *second,
        ),
    }
}

/// No region of the layout is collapsed.
pub open spec fn layout_none_collapsed<T>(l: LayoutView<T>) -> bool {
    l.root matches Some(root) ==> tree_none_collapsed(root)
}

/// `r` has no negative extent and lies inside `area`.
pub open spec fn rect_within(r: Rect, area: Rect) -> bool {
    &&& 0 <= r.width
    &&& 0 <= r.height
    &&& area.x <= r.x
    &&& r.x + r.width <= area.x + area.width
    &&& area.y <= r.y
    &&& r.y + r.height <= area.y + area.height
}

/// The two rectangles share no point: one lies wholly to one side of the
/// other.
pub open spec fn rects_disjoint(a: Rect, b: Rect) -> bool {
    ||| a.x + a.width <= b.x
    ||| b.x + b.width <= a.x
    ||| a.y + a.height <= b.y
    ||| b.y + b.height <= a.y
}

/// The sum of the areas of the placed rectangles.
pub open spec fn covered_area<T>(p: Seq<(T, Rect)>) -> int
    decreases p.len(),
{
    if p.len() == 0 {
        0
    } else {
        covered_area(p.drop_last()) + p.last().1.width * p.last().1.height
    }
}

proof fn lemma_covered_area_concat<T>(a: Seq<(T, Rect)>, b: Seq<(T, Rect)>)
    ensures
        covered_area(a + b) == covered_area(a) + covered_area(b),
    decreases b.len(),
{
    if b.len() > 0 {
        assert((a + b).drop_last() =~= a + b.drop_last());
        lemma_covered_area_concat(a, b.drop_last());
    } else {
        assert(a + b =~= a);
    }
}

proof fn lemma_none_collapsed_not_all<T>(n: Tree<T>)
    requires
        tree_none_collapsed(n),
    ensures
        !super::model::tree_all_collapsed(n),
    decreases n,
{
    match n {
        Tree::Region(_) => {},
        Tree::Split { first, .. } => lemma_none_collapsed_not_all(*first),
    }
}

/// Without collapsed regions the expanded placements, one per region, lie
/// in the area, overlap nowhere and together cover it.
proof fn lemma_tiles<T>(n: Tree<T>, area: Rect, inherited: Option<super::geometry::Axis>)
    requires
        tree_wf(n),
        tree_none_collapsed(n),
        area.is_bounded(),
        area.width >= 0,
        area.height >= 0,
    ensures
        tree_placements(n, area, inherited, false).len() == tree_region_count(n),
        forall|i: int|
            0 <= i < tree_placements(n, area, inherited, false).len() ==> rect_within(
                (#[trigger] tree_placements(n, area, inherited, false)[i]).1,
                area,
            ),
        forall|i: int, j: int|
            0 <= i < tree_placements(n, area, inherited, false).len() && 0 <= j
                < tree_placements(n, area, inherited, false).len() && i != j ==> rects_disjoint(
                (#[trigger] tree_placements(n, area, inherited, false)[i]).1,
                (#[trigger] tree_placements(n, area, inherited, false)[j]).1,
            ),
        covered_area(tree_placements(n, area, inherited, false)) == area.width * area.height,
    decreases n,
{
    match n {
        Tree::Region(r) => {
            let p = tree_placements(n, area, inherited, false);
            assert(p.drop_last() =~= Seq::<(T, Rect)>::empty());
            assert(covered_area(p.drop_last()) == 0);
            assert(p.last().1 == area);
        },
        Tree::Split { axis, ratio, first, second } => {
            lemma_none_collapsed_not_all(*first);
            lemma_none_collapsed_not_all(*second);
            let extent = super::geometry::spec_axis_extent(area, axis);
            super::geometry::lemma_scaled_extent(extent, ratio as int);
            super::geometry::lemma_split_bounded(area, axis, ratio as int);
            let (a1, a2) = super::geometry::spec_split(area, axis, ratio as int);
            let f = super::geometry::trunc_div(
                extent * ratio,
                super::geometry::RATIO_SCALE as int,
            );
            lemma_tiles(*first, a1, Some(axis));
            lemma_tiles(*second, a2, Some(axis));
            let a = tree_placements(*first, a1, Some(axis), false);
            let b = tree_placements(*second, a2, Some(axis), false);
            let p = a + b;
            assert(p == tree_placements(n, area, inherited, false));
            assert forall|i: int| 0 <= i < p.len() implies rect_within((#[trigger] p[i]).1, area) by {
                if i < a.len() {
                    assert(p[i] == a[i]);
                } else {
                    assert(p[i] == b[i - a.len()]);
                }
            }
            assert forall|i: int, j: int|
                0 <= i < p.len() && 0 <= j < p.len() && i != j implies rects_disjoint(
                (#[trigger] p[i]).1,
                (#[trigger] p[j]).1,
            ) by {
                if i < a.len() && j < a.len() {
                    assert(p[i] == a[i] && p[j] == a[j]);
                } else if i >= a.len() && j >= a.len() {
                    assert(p[i] == b[i - a.len()] && p[j] == b[j - a.len()]);
                } else if i < a.len() {
                    assert(p[i] == a[i] && p[j] == b[j - a.len()]);
                    assert(rect_within(a[i].1, a1) && rect_within(b[j - a.len()].1, a2));
                } else {
                    assert(p[j] == a[j] && p[i] == b[i - a.len()]);
                    assert(rect_within(a[j].1, a1) && rect_within(b[i - a.len()].1, a2));
                }
            }
            lemma_covered_area_concat(a, b);
            match axis {
                super::geometry::Axis::Horizontal => {
                    assert(f * area.height + (area.width - f) * area.height == area.width
                        * area.height) by (nonlinear_arith);
                },
                super::geometry::Axis::Vertical => {
                    assert(area.width * f + area.width * (area.height - f) == area.width
                        * area.height) by (nonlinear_arith);
                },
            }
        },
    }
}

/// With distinct items, the placed items of one list are distinct.
proof fn lemma_placed_items_distinct<T>(
    n: Tree<T>,
    area: Rect,
    inherited: Option<super::geometry::Axis>,
    collapsed: bool,
)
    requires
        tree_wf(n),
        tree_items(n).no_duplicates(),
    ensures
        forall|i: int, j: int|
            0 <= i < tree_placements(n, area, inherited, collapsed).len() && 0 <= j
                < tree_placements(n, area, inherited, collapsed).len() && i != j ==> (
            #[trigger] tree_placements(n, area, inherited, collapsed)[i]).0 != (
            #[trigger] tree_placements(n, area, inherited, collapsed)[j]).0,
    decreases n,
{
    match n {
        Tree::Region(_) => {},
        Tree::Split { axis, ratio, first, second } => {
            let (a1, a2) = super::geometry::spec_split_for_collapsed(
                area,
                axis,
                ratio as int,
                super::model::tree_all_collapsed(*first),
                super::model::tree_all_collapsed(*second),
            );
            lemma_concat_no_duplicates(tree_items(*first), tree_items(*second));
            lemma_placed_items_distinct(*first, a1, Some(axis), collapsed);
            lemma_placed_items_distinct(*second, a2, Some(axis), collapsed);
            lemma_placed_items_belong(*first, a1, Some(axis), collapsed);
            lemma_placed_items_belong(*second, a2, Some(axis), collapsed);
            let a = tree_placements(*first, a1, Some(axis), collapsed);
            let b = tree_placements(*second, a2, Some(axis), collapsed);
            let p = a + b;
            assert forall|i: int, j: int|
                0 <= i < p.len() && 0 <= j < p.len() && i != j implies (#[trigger] p[i]).0 != (
                #[trigger] p[j]).0 by {
                if i < a.len() && j < a.len() {
                    assert(p[i] == a[i] && p[j] == a[j]);
                } else if i >= a.len() && j >= a.len() {
                    assert(p[i] == b[i - a.len()] && p[j] == b[j - a.len()]);
                } else if i < a.len() {
                    assert(p[i] == a[i] && p[j] == b[j - a.len()]);
                    lemma_tree_contains_items(*first, a[i].0);
                    lemma_tree_contains_items(*second, b[j - a.len()].0);
                } else {
                    assert(p[j] == a[j] && p[i] == b[i - a.len()]);
                    lemma_tree_contains_items(*first, a[j].0);
                    lemma_tree_contains_items(*second, b[i - a.len()].0);
                }
            }
        },
    }
}

/// Without collapsed regions the expanded placements tile the area: one
/// per region, each inside the area, no two overlapping, their areas adding
/// up to the area's; with distinct items, each item is placed once.
pub proof fn law_expanded_placements_tile_the_area<T>(l: LayoutView<T>, area: Rect)
    requires
        layout_wf(l),
        layout_none_collapsed(l),
        area.is_bounded(),
        area.width >= 0,
        area.height >= 0,
    ensures
        layout_placements(l, area, false).len() == layout_region_count(l),
        layout_placements(l, area, true).len() == 0,
        forall|i: int|
            0 <= i < layout_placements(l, area, false).len() ==> rect_within(
                (#[trigger] layout_placements(l, area, false)[i]).1,
                area,
            ),
        forall|i: int, j: int|
            0 <= i < layout_placements(l, area, false).len() && 0 <= j < layout_placements(
                l,
                area,
                false,
            ).len() && i != j ==> rects_disjoint(
                (#[trigger] layout_placements(l, area, false)[i]).1,
                (#[trigger] layout_placements(l, area, false)[j]).1,
            ),
        l.root is Some ==> covered_area(layout_placements(l, area, false)) == area.width
            * area.height,
        layout_items(l).no_duplicates() ==> forall|i: int, j: int|
            0 <= i < layout_placements(l, area, false).len() && 0 <= j < layout_placements(
                l,
                area,
                false,
            ).len() && i != j ==> (#[trigger] layout_placements(l, area, false)[i]).0
                != (#[trigger] layout_placements(l, area, false)[j]).0,
{
    law_every_region_is_placed_once(l, area);
    if let Some(root) = l.root {
        lemma_tiles(root, area, None);
        if layout_items(l).no_duplicates() {
            lemma_placed_items_distinct(root, area, None, false);
        }
    }
}

proof fn lemma_insert_next_to_regions<T>(
    n: Tree<T>,
    target: T,
    item: T,
    minimum: (i32, i32),
    area: Rect,
)
    ensures
        tree_region_count(tree_insert_next_to(n, target, item, minimum, area).0) == tree_region_count(n)
            + if tree_insert_next_to(n, target, item, minimum, area).1 == InsertResult::Tiled {
            1int
        } else {
            0int
        },
    decreases n,
{
    match n {
        Tree::Region(r) => {
            let after = tree_insert_next_to(n, target, item, minimum, area).0;
            if let Tree::Split { first, second, .. } = after {
                assert(tree_region_count(*first) == 1);
                assert(tree_region_count(*second) == 1);
            }
        },
        Tree::Split { axis, ratio, first, second } => {
            let (fa, sa) = super::geometry::spec_split(area, axis, ratio as int);
            lemma_insert_next_to_regions(*first, target, item, minimum, fa);
            lemma_insert_next_to_regions(*second, target, item, minimum, sa);
        },
    }
}

proof fn lemma_insert_at_edge_regions<T>(
    n: Tree<T>,
    target: T,
    item: T,
    minimum: (i32, i32),
    edge: DropEdge,
    area: Rect,
)
    ensures
        tree_region_count(tree_insert_at_edge(n, target, item, minimum, edge, area).0)
            == tree_region_count(n) + if tree_insert_at_edge(n, target, item, minimum, edge, area).1
            == Some(InsertResult::Tiled) {
            1int
        } else {
            0int
        },
    decreases n,
{
    match n {
        Tree::Region(r) => {
            let after = tree_insert_at_edge(n, target, item, minimum, edge, area).0;
            if let Tree::Split { first, second, .. } = after {
                assert(tree_region_count(*first) == 1);
                assert(tree_region_count(*second) == 1);
            }
        },
        Tree::Split { axis, ratio, first, second } => {
            let (fa, sa) = super::geometry::spec_split(area, axis, ratio as int);
            lemma_insert_at_edge_regions(*first, target, item, minimum, edge, fa);
            lemma_insert_at_edge_regions(*second, target, item, minimum, edge, sa);
        },
    }
}

/// An insertion into an empty layout makes its one region; otherwise a
/// tiled insertion adds one region and a stacked one adds none.
pub proof fn law_insert_region_count<T>(l: LayoutView<T>, item: T, area: Rect, minimum: (i32, i32))
    requires
        layout_wf(l),
    ensures
        ({
            let (after, result) = layout_insert(l, item, area, minimum);
            layout_region_count(after) == match result {
                InsertResult::First => 1,
                InsertResult::Tiled => layout_region_count(l) + 1,
                InsertResult::Stacked => layout_region_count(l),
            }
        }),
{
    if let Some(root) = l.root {
        let target = match l.focused {
            Some(f) => f,
            None => super::model::tree_first_item(root),
        };
        let m = super::model::at_least_one(minimum);
        lemma_insert_next_to_regions(root, target, item, m, area);
        if tree_insert_next_to(root, target, item, m, area).1 == InsertResult::First {
            lemma_tree_insert_next_to(root, target, item, m, area);
        }
    }
}

/// A move that tiles adds one region to the layout left after taking the
/// item out; one that stacks adds none.
pub proof fn law_move_region_count<T>(
    l: LayoutView<T>,
    item: T,
    target: T,
    edge: DropEdge,
    area: Rect,
    minimum: (i32, i32),
)
    ensures
        ({
            let (after, result) = layout_move_next_to(l, item, target, edge, area, minimum);
            let taken_out = layout_retain(l, seq![item]).0;
            &&& result == Some(InsertResult::Tiled) ==> layout_region_count(after)
                == layout_region_count(taken_out) + 1
            &&& result == Some(InsertResult::Stacked) ==> layout_region_count(after)
                == layout_region_count(taken_out)
        }),
{
    let taken_out = layout_retain(l, seq![item]).0;
    if let Some(root) = taken_out.root {
        lemma_insert_at_edge_regions(
            root,
            target,
            item,
            super::model::at_least_one(minimum),
            edge,
            area,
        );
    }
}

} // verus!
