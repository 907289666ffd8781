use vstd::prelude::*;

use super::geometry::Rect;
use super::model::{
    first_index, is_first_index, member_items, member_kept, present_in, region_active_item,
    region_contains, region_focus, region_retain, region_stack, region_update_minimum, region_wf,
    tree_contains, tree_first_item, tree_focus, tree_insert_at_edge, tree_insert_next_to,
    tree_items, tree_region_count, tree_resize, tree_retain, tree_set_collapsed,
    tree_update_minimum, tree_wf, DropEdge, Member, RegionView, Tree,
};
use super::region::lemma_first_index_exists;

verus! {

broadcast use vstd::seq_lib::group_filter_ensures;

/// Keeps the items that are not in `removed`.
pub open spec fn item_kept<T>(removed: Seq<T>) -> spec_fn(T) -> bool {
    |t: T| !removed.contains(t)
}

pub proof fn lemma_concat_contains<T>(a: Seq<T>, b: Seq<T>, t: T)
    ensures
        (a + b).contains(t) <==> a.contains(t) || b.contains(t),
{
    if a.contains(t) {
        let i = choose|i: int| 0 <= i < a.len() && a[i] == t;
        assert((a + b)[i] == t);
    }
    if b.contains(t) {
        let i = choose|i: int| 0 <= i < b.len() && b[i] == t;
        assert((a + b)[a.len() + i] == t);
    }
    if (a + b).contains(t) {
        let i = choose|i: int| 0 <= i < (a + b).len() && (a + b)[i] == t;
        if i < a.len() {
            assert(a[i] == t);
        } else {
            assert(b[i - a.len()] == t);
        }
    }
}

pub proof fn lemma_insert_contains<T>(s: Seq<T>, k: int, x: T, t: T)
    requires
        0 <= k <= s.len(),
    ensures
        s.insert(k, x).contains(t) <==> s.contains(t) || t == x,
{
    let u = s.insert(k, x);
    assert(u[k] == x);
    if s.contains(t) {
        let i = choose|i: int| 0 <= i < s.len() && s[i] == t;
        if i < k {
            assert(u[i] == t);
        } else {
            assert(u[i + 1] == t);
        }
    }
    if u.contains(t) && t != x {
        let i = choose|i: int| 0 <= i < u.len() && u[i] == t;
        if i < k {
            assert(s[i] == t);
        } else {
            assert(s[i - 1] == t);
        }
    }
}

pub proof fn lemma_tree_contains_items<T>(n: Tree<T>, t: T)
    ensures
        tree_contains(n, t) <==> tree_items(n).contains(t),
    decreases n,
{
    match n {
        Tree::Region(_) => {},
        Tree::Split { first, second, .. } => {
            lemma_tree_contains_items(*first, t);
            lemma_tree_contains_items(*second, t);
            lemma_concat_contains(tree_items(*first), tree_items(*second), t);
        },
    }
}

pub proof fn lemma_first_item_contained<T>(n: Tree<T>)
    requires
        tree_wf(n),
    ensures
        tree_contains(n, tree_first_item(n)),
    decreases n,
{
    match n {
        Tree::Region(r) => {
            assert(member_items(r.members)[r.active] == region_active_item(r));
        },
        Tree::Split { first, .. } => lemma_first_item_contained(*first),
    }
}

pub proof fn lemma_region_count_le_len<T>(n: Tree<T>)
    requires
        tree_wf(n),
    ensures
        1 <= tree_region_count(n) <= tree_items(n).len(),
    decreases n,
{
    match n {
        Tree::Region(r) => {},
        Tree::Split { first, second, .. } => {
            lemma_region_count_le_len(*first);
            lemma_region_count_le_len(*second);
        },
    }
}

pub proof fn lemma_region_focus<T>(r: RegionView<T>, t: T)
    requires
        region_wf(r),
    ensures
        region_wf(region_focus(r, t).0),
        region_focus(r, t).0.members == r.members,
        region_focus(r, t).1 == region_contains(r, t),
        region_focus(r, t).1 ==> region_active_item(region_focus(r, t).0) == t,
{
    if region_contains(r, t) {
        lemma_first_index_exists(member_items(r.members), t);
    }
}

pub proof fn lemma_tree_focus<T>(n: Tree<T>, t: T)
    requires
        tree_wf(n),
    ensures
        tree_wf(tree_focus(n, t).0),
        tree_items(tree_focus(n, t).0) == tree_items(n),
        tree_region_count(tree_focus(n, t).0) == tree_region_count(n),
        tree_focus(n, t).1 == tree_contains(n, t),
        !tree_focus(n, t).1 ==> tree_focus(n, t).0 == n,
    decreases n,
{
    match n {
        Tree::Region(r) => lemma_region_focus(r, t),
        Tree::Split { first, second, .. } => {
            lemma_tree_focus(*first, t);
            lemma_tree_focus(*second, t);
        },
    }
}

pub proof fn lemma_tree_set_collapsed<T>(n: Tree<T>, t: T, collapsed: bool)
    requires
        tree_wf(n),
    ensures
        tree_wf(tree_set_collapsed(n, t, collapsed).0),
        tree_items(tree_set_collapsed(n, t, collapsed).0) == tree_items(n),
        tree_region_count(tree_set_collapsed(n, t, collapsed).0) == tree_region_count(n),
        tree_set_collapsed(n, t, collapsed).1 ==> tree_contains(n, t),
        !tree_set_collapsed(n, t, collapsed).1 ==> tree_set_collapsed(n, t, collapsed).0 == n,
    decreases n,
{
    match n {
        Tree::Region(r) => {},
        Tree::Split { first, second, .. } => {
            lemma_tree_set_collapsed(*first, t, collapsed);
            lemma_tree_set_collapsed(*second, t, collapsed);
        },
    }
}

pub proof fn lemma_region_update_minimum<T>(r: RegionView<T>, t: T, minimum: (i32, i32))
    requires
        region_wf(r),
    ensures
        region_wf(region_update_minimum(r, t, minimum).0),
        member_items(region_update_minimum(r, t, minimum).0.members) == member_items(r.members),
        region_update_minimum(r, t, minimum).1 == region_contains(r, t),
{
    if region_contains(r, t) {
        let items = member_items(r.members);
        lemma_first_index_exists(items, t);
        let i = first_index(items, t);
        let updated = r.members.update(i, Member { item: t, minimum });
        assert(member_items(updated) =~= items);
    }
}

pub proof fn lemma_tree_update_minimum<T>(n: Tree<T>, t: T, minimum: (i32, i32))
    requires
        tree_wf(n),
    ensures
        tree_wf(tree_update_minimum(n, t, minimum).0),
        tree_items(tree_update_minimum(n, t, minimum).0) == tree_items(n),
        tree_region_count(tree_update_minimum(n, t, minimum).0) == tree_region_count(n),
        tree_update_minimum(n, t, minimum).1 == tree_contains(n, t),
    decreases n,
{
    match n {
        Tree::Region(r) => lemma_region_update_minimum(r, t, minimum),
        Tree::Split { first, second, .. } => {
            lemma_tree_update_minimum(*first, t, minimum);
            lemma_tree_update_minimum(*second, t, minimum);
        },
    }
}

pub proof fn lemma_tree_resize<T>(
    n: Tree<T>,
    path: Seq<bool>,
    axis: super::geometry::Axis,
    depth: int,
    x: int,
    y: int,
    area: Rect,
)
    requires
        tree_wf(n),
    ensures
        tree_wf(tree_resize(n, path, axis, depth, x, y, area).0),
        tree_items(tree_resize(n, path, axis, depth, x, y, area).0) == tree_items(n),
        tree_region_count(tree_resize(n, path, axis, depth, x, y, area).0) == tree_region_count(
            n,
        ),
    decreases n,
{
    match n {
        Tree::Region(_) => {},
        Tree::Split { axis: a, ratio, first, second } => {
            if depth < path.len() {
                let (fa, sa) = super::geometry::spec_split(area, a, ratio as int);
                lemma_tree_resize(*first, path, axis, depth + 1, x, y, fa);
                lemma_tree_resize(*second, path, axis, depth + 1, x, y, sa);
            }
        },
    }
}

proof fn lemma_stack_items<T>(r: RegionView<T>, item: T, minimum: (i32, i32))
    ensures
        member_items(region_stack(r, item, minimum).members) == member_items(r.members).push(
            item,
        ),
{
    assert(member_items(region_stack(r, item, minimum).members) =~= member_items(r.members).push(
        item,
    ));
}

pub proof fn lemma_tree_insert_next_to<T>(
    n: Tree<T>,
    target: T,
    item: T,
    minimum: (i32, i32),
    area: Rect,
)
    requires
        tree_wf(n),
    ensures
        tree_wf(tree_insert_next_to(n, target, item, minimum, area).0),
        tree_insert_next_to(n, target, item, minimum, area).1 != super::model::InsertResult::First,
        exists|k: int|
            0 <= k <= tree_items(n).len() && tree_items(
                #[trigger] tree_insert_next_to(n, target, item, minimum, area).0,
            ) == tree_items(n).insert(k, item),
    decreases n,
{
    let result = tree_insert_next_to(n, target, item, minimum, area).0;
    match n {
        Tree::Region(r) => {
            let items = member_items(r.members);
            let fresh = super::model::region_new(item, minimum);
            lemma_stack_items(r, item, minimum);
            assert(items.push(item) =~= items.insert(items.len() as int, item));
            assert(member_items(fresh.members) =~= seq![item]);
            assert(items + seq![item] =~= items.insert(items.len() as int, item));
            let axis = super::model::longer_axis(area);
            let (fa, sa) = super::geometry::spec_split(area, axis, super::geometry::HALF_RATIO as int);
            if fa.supports_spec(super::model::region_minimum(r)) && sa.supports_spec(
                (minimum.0 as int, minimum.1 as int),
            ) {
                assert(result == Tree::Split {
                    axis,
                    ratio: super::geometry::HALF_RATIO,
                    first: Box::new(Tree::Region(r)),
                    second: Box::new(Tree::Region(fresh)),
                });
                assert(tree_wf(Tree::Region(fresh)));
                assert(tree_items(Tree::Region(r)) == items);
                assert(tree_items(Tree::Region(fresh)) == seq![item]);
                assert(tree_items(result) == items + seq![item]);
            } else {
                assert(result == Tree::Region(region_stack(r, item, minimum)));
            }
            assert(tree_items(result) == items.insert(items.len() as int, item));
        },
        Tree::Split { axis, ratio, first, second } => {
            let (fa, sa) = super::geometry::spec_split(area, axis, ratio as int);
            if tree_contains(*first, target) {
                lemma_tree_insert_next_to(*first, target, item, minimum, fa);
                let f = tree_insert_next_to(*first, target, item, minimum, fa).0;
                let k = choose|k: int|
                    0 <= k <= tree_items(*first).len() && tree_items(
                        #[trigger] tree_insert_next_to(*first, target, item, minimum, fa).0,
                    ) == tree_items(*first).insert(k, item);
                assert(tree_items(result) =~= tree_items(n).insert(k, item));
            } else {
                lemma_tree_insert_next_to(*second, target, item, minimum, sa);
                let k = choose|k: int|
                    0 <= k <= tree_items(*second).len() && tree_items(
                        #[trigger] tree_insert_next_to(*second, target, item, minimum, sa).0,
                    ) == tree_items(*second).insert(k, item);
                let j = tree_items(*first).len() + k;
                assert(tree_items(result) =~= tree_items(n).insert(j, item));
            }
        },
    }
}

pub proof fn lemma_tree_insert_at_edge<T>(
    n: Tree<T>,
    target: T,
    item: T,
    minimum: (i32, i32),
    edge: DropEdge,
    area: Rect,
)
    requires
        tree_wf(n),
    ensures
        tree_wf(tree_insert_at_edge(n, target, item, minimum, edge, area).0),
        tree_insert_at_edge(n, target, item, minimum, edge, area).1 is Some <==> tree_contains(
            n,
            target,
        ),
        tree_insert_at_edge(n, target, item, minimum, edge, area).1 is None
            ==> tree_insert_at_edge(n, target, item, minimum, edge, area).0 == n,
        tree_insert_at_edge(n, target, item, minimum, edge, area).1 is Some ==> exists|k: int|
            0 <= k <= tree_items(n).len() && tree_items(
                #[trigger] tree_insert_at_edge(n, target, item, minimum, edge, area).0,
            ) == tree_items(n).insert(k, item),
    decreases n,
{
    let result = tree_insert_at_edge(n, target, item, minimum, edge, area);
    match n {
        Tree::Region(r) => {
            if region_contains(r, target) {
                let items = member_items(r.members);
                lemma_stack_items(r, item, minimum);
                let fresh = super::model::region_new(item, minimum);
                assert(member_items(fresh.members) =~= seq![item]);
                assert(items.push(item) =~= items.insert(items.len() as int, item));
                assert(items + seq![item] =~= items.insert(items.len() as int, item));
                assert(seq![item] + items =~= items.insert(0, item));
                assert(tree_wf(Tree::Region(fresh)));
                assert(tree_items(Tree::Region(r)) == items);
                assert(tree_items(Tree::Region(fresh)) == seq![item]);
                let axis = super::model::edge_axis(edge);
                let (fa, sa) = super::geometry::spec_split(area, axis, super::geometry::HALF_RATIO as int);
                if fa.supports_spec((minimum.0 as int, minimum.1 as int)) && sa.supports_spec(
                    super::model::region_minimum(r),
                ) {
                    if super::model::edge_is_leading(edge) {
                        assert(result.0 == Tree::Split {
                            axis,
                            ratio: super::geometry::HALF_RATIO,
                            first: Box::new(Tree::Region(fresh)),
                            second: Box::new(Tree::Region(r)),
                        });
                        assert(tree_items(result.0) == items.insert(0, item));
                    } else {
                        assert(result.0 == Tree::Split {
                            axis,
                            ratio: super::geometry::HALF_RATIO,
                            first: Box::new(Tree::Region(r)),
                            second: Box::new(Tree::Region(fresh)),
                        });
                        assert(tree_items(result.0) == items.insert(items.len() as int, item));
                    }
                } else {
                    assert(result.0 == Tree::Region(region_stack(r, item, minimum)));
                    assert(tree_items(result.0) == items.insert(items.len() as int, item));
                }
            }
        },
        Tree::Split { axis, ratio, first, second } => {
            let (fa, sa) = super::geometry::spec_split(area, axis, ratio as int);
            lemma_tree_insert_at_edge(*first, target, item, minimum, edge, fa);
            lemma_tree_insert_at_edge(*second, target, item, minimum, edge, sa);
            if tree_contains(*first, target) {
                let k = choose|k: int|
                    0 <= k <= tree_items(*first).len() && tree_items(
                        #[trigger] tree_insert_at_edge(*first, target, item, minimum, edge, fa).0,
                    ) == tree_items(*first).insert(k, item);
                assert(tree_items(result.0) =~= tree_items(n).insert(k, item));
            } else if tree_contains(*second, target) {
                let k = choose|k: int|
                    0 <= k <= tree_items(*second).len() && tree_items(
                        #[trigger] tree_insert_at_edge(*second, target, item, minimum, edge, sa).0,
                    ) == tree_items(*second).insert(k, item);
                let j = tree_items(*first).len() + k;
                assert(tree_items(result.0) =~= tree_items(n).insert(j, item));
            }
        },
    }
}

proof fn lemma_member_items_filter<T>(members: Seq<Member<T>>, removed: Seq<T>)
    ensures
        member_items(members.filter(member_kept(removed))) == member_items(members).filter(
            item_kept(removed),
        ),
    decreases members.len(),
{
    reveal_with_fuel(Seq::<_>::filter, 1);
    if members.len() > 0 {
        lemma_member_items_filter(members.drop_last(), removed);
        assert(member_items(members.drop_last()) =~= member_items(members).drop_last());
        let kept = members.drop_last().filter(member_kept(removed));
        assert(member_items(kept.push(members.last())) =~= member_items(kept).push(
            members.last().item,
        ));
    }
}

pub proof fn lemma_region_retain<T>(r: RegionView<T>, removed: Seq<T>)
    requires
        region_wf(r),
    ensures
        member_items(r.members).filter(item_kept(removed)).len() == 0 <==> region_retain(
            r,
            removed,
        ) is None,
        region_retain(r, removed) matches Some(r2) ==> region_wf(r2) && member_items(r2.members)
            == member_items(r.members).filter(item_kept(removed)),
{
    lemma_member_items_filter(r.members, removed);
    let kept = r.members.filter(member_kept(removed));
    let items = member_items(kept);
    assert(items.len() == kept.len());
    let recent = r.recent.filter(present_in(items));
    let previous = region_active_item(r);
    if kept.len() > 0 {
        if items.contains(previous) {
            lemma_first_index_exists(items, previous);
        } else if recent.len() > 0 {
            r.recent.lemma_filter_pred(present_in(items), recent.len() - 1);
            lemma_first_index_exists(items, recent.last());
        }
    }
}

pub proof fn lemma_tree_retain<T>(n: Tree<T>, removed: Seq<T>)
    requires
        tree_wf(n),
    ensures
        tree_items(n).filter(item_kept(removed)).len() == 0 <==> tree_retain(n, removed) is None,
        tree_retain(n, removed) matches Some(m) ==> tree_wf(m) && tree_items(m) == tree_items(
            n,
        ).filter(item_kept(removed)),
    decreases n,
{
    match n {
        Tree::Region(r) => lemma_region_retain(r, removed),
        Tree::Split { first, second, .. } => {
            lemma_tree_retain(*first, removed);
            lemma_tree_retain(*second, removed);
            Seq::filter_distributes_over_add(
                tree_items(*first),
                tree_items(*second),
                item_kept(removed),
            );
            let a = tree_items(*first).filter(item_kept(removed));
            let b = tree_items(*second).filter(item_kept(removed));
            if a.len() == 0 {
                assert(a + b =~= b);
            }
            if b.len() == 0 {
                assert(a + b =~= a);
            }
        },
    }
}

/// Items after a removal: exactly the earlier items not in `removed`.
pub proof fn lemma_kept_contains<T>(items: Seq<T>, removed: Seq<T>, t: T)
    ensures
        items.filter(item_kept(removed)).contains(t) <==> items.contains(t) && !removed.contains(
            t,
        ),
{
    if items.filter(item_kept(removed)).contains(t) {
        items.lemma_filter_contains_rev(item_kept(removed), t);
        let i = choose|i: int|
            0 <= i < items.filter(item_kept(removed)).len() && items.filter(
                item_kept(removed),
            )[i] == t;
        items.lemma_filter_pred(item_kept(removed), i);
    }
    if items.contains(t) && !removed.contains(t) {
        let i = choose|i: int| 0 <= i < items.len() && items[i] == t;
        items.lemma_filter_contains(item_kept(removed), i);
    }
}

} // verus!
