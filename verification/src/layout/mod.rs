//! Tiling layout of a Workspace: a binary tree of splits whose leaves are
//! regions, each region a stack of items of which one is shown.

pub mod geometry;
pub mod laws;
pub mod lemmas;
pub mod model;
pub mod node;
pub mod region;
pub mod sides;

use vstd::prelude::*;

pub use geometry::{Axis, Rect, COLLAPSED_SPINE_SIZE, MAX_EXTENT};
pub use model::{DropEdge, InsertResult, LayoutItem, LayoutView};
pub use node::ResizeHandle;

use lemmas::{
    item_kept, lemma_first_item_contained, lemma_kept_contains, lemma_region_count_le_len,
    lemma_tree_contains_items, lemma_tree_focus, lemma_tree_insert_at_edge,
    lemma_tree_insert_next_to, lemma_tree_resize, lemma_tree_retain, lemma_tree_set_collapsed,
    lemma_tree_update_minimum, lemma_insert_contains,
};
use model::{
    at_least_one, differs_from, last_uncollapsed, layout_boundary_at, layout_collapse,
    layout_contains, layout_focus, layout_insert, layout_items, layout_move_next_to,
    layout_placements, layout_region_count, layout_resize_boundary, layout_restore,
    layout_retain, layout_update_minimum, layout_wf, present_in, tree_contains, tree_is_collapsed,
    tree_items, tree_wf, without, Tree,
};
use node::Node;
use region::{copy_vec, vec_contains, without_item, Region};

verus! {

broadcast use vstd::seq_lib::group_filter_ensures;

/// The tiling of one Workspace.
#[derive(Debug, PartialEq, Eq)]
pub struct Layout<T> {
    root: Option<Node<T>>,
    focused: Option<T>,
    recent: Vec<T>,
}

impl<T> View for Layout<T> {
    type V = LayoutView<T>;

    closed spec fn view(&self) -> LayoutView<T> {
        LayoutView {
            root: match self.root {
                Some(n) => Some(n@),
                None => None,
            },
            focused: self.focused,
            recent: self.recent@,
        }
    }
}

/// `without(s, t)` holds only elements of `s`.
proof fn lemma_without_subset<T>(s: Seq<T>, t: T, x: T)
    requires
        without(s, t).contains(x),
    ensures
        s.contains(x),
        x != t,
{
    s.lemma_filter_contains_rev(differs_from(t), x);
    let i = choose|i: int| 0 <= i < without(s, t).len() && without(s, t)[i] == x;
    s.lemma_filter_pred(differs_from(t), i);
}

/// Filtering out an element that occurs makes a sequence shorter.
proof fn lemma_filter_shrinks<T>(s: Seq<T>, p: spec_fn(T) -> bool, i: int)
    requires
        0 <= i < s.len(),
        !p(s[i]),
    ensures
        s.filter(p).len() < s.len(),
    decreases s.len(),
{
    reveal_with_fuel(Seq::<_>::filter, 1);
    s.drop_last().lemma_filter_len(p);
    if i < s.len() - 1 {
        lemma_filter_shrinks(s.drop_last(), p, i);
    }
}

/// `last_uncollapsed` picks an element of the history.
proof fn lemma_last_uncollapsed_member<T>(recent: Seq<T>, root: Tree<T>)
    ensures
        last_uncollapsed(recent, root) matches Some(t) ==> recent.contains(t),
    decreases recent.len(),
{
    if recent.len() > 0 {
        lemma_last_uncollapsed_member(recent.drop_last(), root);
        if last_uncollapsed(recent, root) is Some && tree_is_collapsed(root, recent.last()) {
            let t = last_uncollapsed(recent, root)->0;
            let i = choose|i: int| 0 <= i < recent.drop_last().len() && recent.drop_last()[i] == t;
            assert(recent[i] == t);
        } else if recent.len() > 0 {
            assert(recent[recent.len() - 1] == recent.last());
        }
    }
}

fn at_least_one_exec(minimum: (i32, i32)) -> (raised: (i32, i32))
    ensures
        raised == at_least_one(minimum),
{
    (if minimum.0 >= 1 { minimum.0 } else { 1 }, if minimum.1 >= 1 { minimum.1 } else { 1 })
}

impl<T> Default for Layout<T> {
    fn default() -> (layout: Self)
        ensures
            layout@ == (LayoutView::<T> { root: None, focused: None, recent: Seq::empty() }),
            layout.wf(),
    {
        Layout { root: None, focused: None, recent: Vec::new() }
    }
}

impl<T: LayoutItem> Clone for Layout<T> {
    fn clone(&self) -> (copy: Self)
        ensures
            copy@ == self@,
    {
        Layout {
            root: match &self.root {
                Some(n) => Some(n.duplicate()),
                None => None,
            },
            focused: self.focused,
            recent: copy_vec(&self.recent),
        }
    }
}

impl<T> Layout<T> {
    /// The tree holds only well-formed regions and splits, the focus and the
    /// history name items of the layout, and the item count fits a `usize`.
    pub open spec fn wf(&self) -> bool {
        layout_wf(self@)
    }
}

impl<T: LayoutItem> Layout<T> {
    pub(crate) fn contains_item(&self, item: &T) -> (found: bool)
        ensures
            found == layout_contains(self@, *item),
    {
        match &self.root {
            Some(root) => root.contains(item),
            None => false,
        }
    }

    /// Inserts `item` with the smallest minimum size.
    pub fn insert(&mut self, item: T, area: Rect) -> (result: InsertResult)
        requires
            old(self).wf(),
            area.is_bounded(),
            layout_items(old(self)@).len() < usize::MAX,
        ensures
            final(self).wf(),
            (final(self)@, result) == layout_insert(old(self)@, item, area, (1, 1)),
    {
        self.insert_with_minimum(item, area, (1, 1))
    }

    /// Inserts `item` beside the focused item and focuses it. The target
    /// region is split in half along its longer axis when both halves can
    /// hold their minimums (each raised to at least one); otherwise `item` is
    /// stacked onto it.
    pub fn insert_with_minimum(&mut self, item: T, area: Rect, minimum: (i32, i32)) -> (result:
        InsertResult)
        requires
            old(self).wf(),
            area.is_bounded(),
            layout_items(old(self)@).len() < usize::MAX,
        ensures
            final(self).wf(),
            (final(self)@, result) == layout_insert(old(self)@, item, area, minimum),
    {
        let ghost before = self@;
        let minimum = at_least_one_exec(minimum);
        match self.root.take() {
            None => {
                self.focused = Some(item);
                self.recent.push(item);
                self.root = Some(Node::Region(Region::new(item, minimum)));
                proof {
                    let root = self@.root->0;
                    assert(tree_items(root) =~= seq![item]);
                    assert(tree_contains(root, item)) by {
                        lemma_tree_contains_items(root, item);
                        assert(tree_items(root)[0] == item);
                    }
                    assert forall|i: int| 0 <= i < self@.recent.len() implies layout_contains(
                        self@,
                        #[trigger] self@.recent[i],
                    ) by {
                        if i < before.recent.len() {
                            assert(layout_contains(before, before.recent[i]));
                        }
                    }
                }
                InsertResult::First
            },
            Some(root) => {
                let target = match self.focused {
                    Some(f) => f,
                    None => root.first_item(),
                };
                let ghost old_root = root@;
                let (next, result) = root.insert_next_to(&target, item, minimum, area);
                self.root = Some(next);
                self.focused = Some(item);
                self.recent = without_item(&self.recent, &item);
                self.recent.push(item);
                proof {
                    lemma_tree_insert_next_to(old_root, target, item, minimum, area);
                    let k = choose|k: int|
                        0 <= k <= tree_items(old_root).len() && tree_items(
                            #[trigger] model::tree_insert_next_to(
                                old_root,
                                target,
                                item,
                                minimum,
                                area,
                            ).0,
                        ) == tree_items(old_root).insert(k, item);
                    let new_root = self@.root->0;
                    assert forall|t: T| tree_contains(new_root, t) <==> tree_contains(old_root, t)
                        || t == item by {
                        lemma_tree_contains_items(new_root, t);
                        lemma_tree_contains_items(old_root, t);
                        lemma_insert_contains(tree_items(old_root), k, item, t);
                    }
                    assert forall|i: int| 0 <= i < self@.recent.len() implies layout_contains(
                        self@,
                        #[trigger] self@.recent[i],
                    ) by {
                        let x = self@.recent[i];
                        if x != item {
                            let w = without(before.recent, item);
                            assert(w[i] == x);
                            lemma_without_subset(before.recent, item, x);
                            let j = choose|j: int| 0 <= j < before.recent.len() && before.recent[j] == x;
                            assert(layout_contains(before, before.recent[j]));
                        }
                    }
                }
                result
            },
        }
    }

    /// Focuses `item` and shows it in its region; `false`, with the focus
    /// unchanged, when the layout does not hold it.
    pub fn focus(&mut self, item: &T) -> (focused: bool)
        requires
            old(self).wf(),
        ensures
            final(self).wf(),
            (final(self)@, focused) == layout_focus(old(self)@, *item),
    {
        let ghost before = self@;
        match self.root.take() {
            None => {
                proof {
                    assert(self@ == before);
                }
                false
            },
            Some(root) => {
                let ghost old_root = root@;
                let (next, ok) = root.focus(item);
                self.root = Some(next);
                proof {
                    lemma_tree_focus(old_root, *item);
                    assert forall|t: T| tree_contains(self@.root->0, t) <==> tree_contains(
                        old_root,
                        t,
                    ) by {
                        lemma_tree_contains_items(self@.root->0, t);
                        lemma_tree_contains_items(old_root, t);
                    }
                }
                if ok {
                    self.focused = Some(*item);
                    self.recent = without_item(&self.recent, item);
                    self.recent.push(*item);
                    proof {
                        assert forall|i: int| 0 <= i < self@.recent.len() implies layout_contains(
                            self@,
                            #[trigger] self@.recent[i],
                        ) by {
                            let x = self@.recent[i];
                            if x != *item {
                                let w = without(before.recent, *item);
                                assert(w[i] == x);
                                lemma_without_subset(before.recent, *item, x);
                                let j = choose|j: int|
                                    0 <= j < before.recent.len() && before.recent[j] == x;
                                assert(layout_contains(before, before.recent[j]));
                            }
                        }
                    }
                }
                proof {
                    assert forall|i: int| 0 <= i < self@.recent.len() implies layout_contains(
                        self@,
                        #[trigger] self@.recent[i],
                    ) by {
                        if !ok {
                            assert(layout_contains(before, before.recent[i]));
                        }
                    }
                }
                ok
            },
        }
    }

    fn last_uncollapsed(recent: &Vec<T>, root: &Node<T>) -> (found: Option<T>)
        ensures
            found == last_uncollapsed(recent@, root@),
    {
        let mut i = recent.len();
        proof {
            assert(recent@.take(recent.len() as int) =~= recent@);
        }
        while i > 0
            invariant
                0 <= i <= recent.len(),
                last_uncollapsed(recent@, root@) == last_uncollapsed(
                    recent@.take(i as int),
                    root@,
                ),
            decreases i,
        {
            proof {
                assert(recent@.take(i as int).drop_last() =~= recent@.take(i - 1));
                assert(recent@.take(i as int).last() == recent@[i - 1]);
            }
            let candidate = recent[i - 1];
            if !root.is_collapsed(&candidate) {
                return Some(candidate);
            }
            i -= 1;
        }
        None
    }

    /// Collapses the region of `item` to a spine. When the focus was in that
    /// region it moves to the most recent item outside collapsed regions, or
    /// to nothing.
    pub fn collapse(&mut self, item: &T) -> (collapsed: bool)
        requires
            old(self).wf(),
        ensures
            final(self).wf(),
            (final(self)@, collapsed) == layout_collapse(old(self)@, *item),
    {
        let ghost before = self@;
        match self.root.take() {
            None => {
                proof {
                    assert(self@ == before);
                }
                false
            },
            Some(root) => {
                let ghost old_root = root@;
                let (next, ok) = root.set_collapsed(item, true);
                proof {
                    lemma_tree_set_collapsed(old_root, *item, true);
                    assert forall|t: T| tree_contains(next@, t) <==> tree_contains(old_root, t) by {
                        lemma_tree_contains_items(next@, t);
                        lemma_tree_contains_items(old_root, t);
                    }
                    assert forall|i: int| 0 <= i < before.recent.len() implies tree_contains(
                        next@,
                        #[trigger] before.recent[i],
                    ) by {
                        assert(layout_contains(before, before.recent[i]));
                    }
                }
                if ok {
                    let moves = match &self.focused {
                        Some(f) => next.same_region(f, item),
                        None => false,
                    };
                    if moves {
                        self.focused = Self::last_uncollapsed(&self.recent, &next);
                        proof {
                            lemma_last_uncollapsed_member(before.recent, next@);
                        }
                    }
                }
                self.root = Some(next);
                proof {
                    assert forall|i: int| 0 <= i < self@.recent.len() implies layout_contains(
                        self@,
                        #[trigger] self@.recent[i],
                    ) by {
                        assert(self@.recent[i] == before.recent[i]);
                    }
                }
                ok
            },
        }
    }

    /// Restores the collapsed region of `item`.
    pub fn restore(&mut self, item: &T) -> (restored: bool)
        requires
            old(self).wf(),
        ensures
            final(self).wf(),
            (final(self)@, restored) == layout_restore(old(self)@, *item),
    {
        let ghost before = self@;
        match self.root.take() {
            None => {
                proof {
                    assert(self@ == before);
                }
                false
            },
            Some(root) => {
                let ghost old_root = root@;
                let (next, ok) = root.set_collapsed(item, false);
                proof {
                    lemma_tree_set_collapsed(old_root, *item, false);
                    assert forall|t: T| tree_contains(next@, t) <==> tree_contains(old_root, t) by {
                        lemma_tree_contains_items(next@, t);
                        lemma_tree_contains_items(old_root, t);
                    }
                    assert forall|i: int| 0 <= i < before.recent.len() implies tree_contains(
                        next@,
                        #[trigger] before.recent[i],
                    ) by {
                        assert(layout_contains(before, before.recent[i]));
                    }
                    if let Some(f) = before.focused {
                        assert(layout_contains(before, f));
                        assert(tree_contains(next@, f));
                    }
                }
                self.root = Some(next);
                proof {
                    assert forall|i: int| 0 <= i < self@.recent.len() implies layout_contains(
                        self@,
                        #[trigger] self@.recent[i],
                    ) by {
                        assert(self@.recent[i] == before.recent[i]);
                    }
                }
                ok
            },
        }
    }

    /// Removes the items in `removed` (see `layout_retain`).
    pub(crate) fn retain_removed(&mut self, removed: &Vec<T>) -> (changed: bool)
        requires
            old(self).wf(),
        ensures
            final(self).wf(),
            (final(self)@, changed) == layout_retain(old(self)@, removed@),
    {
        let ghost before = self@;
        let count_before = self.len();
        let removed_focus = match self.focused {
            Some(f) => vec_contains(removed, &f),
            None => false,
        };
        let root = match self.root.take() {
            Some(r) => r.retain(removed),
            None => None,
        };
        self.root = root;
        let ghost survivors = layout_items(self@);
        proof {
            if let Some(r) = before.root {
                lemma_tree_retain(r, removed@);
            }
        }
        let mut recent: Vec<T> = Vec::new();
        let mut k: usize = 0;
        while k < self.recent.len()
            invariant
                0 <= k <= self.recent.len(),
                self.recent@ == before.recent,
                survivors == layout_items(self@),
                recent@ == before.recent.take(k as int).filter(present_in(survivors)),
            decreases self.recent.len() - k,
        {
            proof {
                reveal_with_fuel(Seq::<_>::filter, 1);
                assert(before.recent.take(k + 1).drop_last() =~= before.recent.take(k as int));
            }
            let x = self.recent[k];
            let present = self.contains_item(&x);
            proof {
                if let Some(r) = self@.root {
                    lemma_tree_contains_items(r, x);
                }
            }
            if present {
                recent.push(x);
            }
            k += 1;
        }
        proof {
            assert(before.recent.take(before.recent.len() as int) =~= before.recent);
        }
        self.recent = recent;
        if removed_focus {
            if self.recent.len() > 0 {
                self.focused = Some(self.recent[self.recent.len() - 1]);
            } else {
                self.focused = match &self.root {
                    Some(r) => Some(r.first_item()),
                    None => None,
                };
            }
        }
        proof {
            let after = self@;
            let kept = layout_items(before).filter(item_kept(removed@));
            assert(layout_items(after) == kept) by {
                if before.root is None {
                    assert(layout_items(before) =~= Seq::<T>::empty());
                    reveal_with_fuel(Seq::<_>::filter, 1);
                }
            }
            layout_items(before).lemma_filter_len(item_kept(removed@));
            assert forall|t: T| layout_contains(after, t) <==> layout_items(after).contains(t) by {
                if let Some(r) = after.root {
                    lemma_tree_contains_items(r, t);
                }
            }
            assert forall|i: int| 0 <= i < after.recent.len() implies layout_contains(
                after,
                #[trigger] after.recent[i],
            ) by {
                before.recent.lemma_filter_pred(present_in(survivors), i);
            }
            if removed_focus {
                if after.recent.len() > 0 {
                    assert(after.focused == Some(after.recent[after.recent.len() - 1]));
                } else if let Some(r) = after.root {
                    lemma_first_item_contained(r);
                }
            } else if let Some(f) = before.focused {
                assert(layout_contains(before, f));
                if let Some(r) = before.root {
                    lemma_tree_contains_items(r, f);
                }
                lemma_kept_contains(layout_items(before), removed@, f);
            }
        }
        count_before != self.len()
    }

    /// Removes every item for which `keep` answers `false` and reports whether
    /// the number of items changed. `keep` is asked once per item; an item
    /// is removed when an answer for it was `false` and kept when an answer
    /// was `true`.
    pub fn retain<F: Fn(&T) -> bool>(&mut self, keep: F) -> (changed: bool)
        requires
            old(self).wf(),
            forall|t: T| keep.requires((&t,)),
        ensures
            final(self).wf(),
            exists|removed: Seq<T>|
                {
                    &&& forall|t: T| #[trigger]
                        removed.contains(t) ==> keep.ensures((&t,), false)
                    &&& forall|t: T| #[trigger]
                        layout_contains(old(self)@, t) && !removed.contains(t) ==> keep.ensures(
                            (&t,),
                            true,
                        )
                    &&& (final(self)@, changed) == layout_retain(old(self)@, removed)
                },
    {
        let ghost before = self@;
        let items = self.items();
        let mut removed: Vec<T> = Vec::new();
        let mut i: usize = 0;
        while i < items.len()
            invariant
                0 <= i <= items.len(),
                forall|t: T| keep.requires((&t,)),
                forall|j: int| 0 <= j < removed@.len() ==> keep.ensures((&removed@[j],), false),
                forall|j: int|
                    0 <= j < i ==> removed@.contains(#[trigger] items@[j]) || keep.ensures(
                        (&items@[j],),
                        true,
                    ),
            decreases items.len() - i,
        {
            let t = items[i];
            let answer = keep(&t);
            if !answer {
                let ghost old_removed = removed@;
                removed.push(t);
                proof {
                    assert forall|j: int| 0 <= j < i implies removed@.contains(
                        #[trigger] items@[j],
                    ) || keep.ensures((&items@[j],), true) by {
                        if old_removed.contains(items@[j]) {
                            let k = choose|k: int|
                                0 <= k < old_removed.len() && old_removed[k] == items@[j];
                            assert(removed@[k] == items@[j]);
                        }
                    }
                }
            }
            proof {
                if !answer {
                    assert(removed@[removed@.len() - 1] == t);
                }
            }
            i += 1;
        }
        let changed = self.retain_removed(&removed);
        proof {
            assert forall|t: T| #[trigger] removed@.contains(t) implies keep.ensures((&t,), false) by {
                let j = choose|j: int| 0 <= j < removed@.len() && removed@[j] == t;
            }
            assert forall|t: T| #[trigger]
                layout_contains(before, t) && !removed@.contains(t) implies keep.ensures(
                (&t,),
                true,
            ) by {
                if let Some(r) = before.root {
                    lemma_tree_contains_items(r, t);
                }
                let j = choose|j: int| 0 <= j < items@.len() && items@[j] == t;
            }
        }
        changed
    }

    /// Moves `item` to `edge` of the region holding `target` and focuses it.
    /// `None`, with nothing changed, when the two are the same item or the
    /// layout lacks either.
    pub fn move_next_to(
        &mut self,
        item: &T,
        target: &T,
        edge: DropEdge,
        area: Rect,
        minimum: (i32, i32),
    ) -> (result: Option<InsertResult>)
        requires
            old(self).wf(),
            area.is_bounded(),
        ensures
            final(self).wf(),
            (final(self)@, result) == layout_move_next_to(
                old(self)@,
                *item,
                *target,
                edge,
                area,
                minimum,
            ),
    {
        let ghost before = self@;
        if item.same_item(target) || !self.contains_item(item) || !self.contains_item(target) {
            return None;
        }
        let mut removed: Vec<T> = Vec::new();
        removed.push(*item);
        proof {
            assert(removed@ =~= seq![*item]);
        }
        self.retain_removed(&removed);
        let ghost retained = self@;
        proof {
            let r = before.root->0;
            lemma_tree_retain(r, removed@);
            lemma_tree_contains_items(r, *target);
            lemma_kept_contains(tree_items(r), removed@, *target);
            lemma_tree_contains_items(r, *item);
            let j = choose|j: int| 0 <= j < tree_items(r).len() && tree_items(r)[j] == *item;
            assert(removed@[0] == *item);
            lemma_filter_shrinks(tree_items(r), item_kept(removed@), j);
        }
        let root = match self.root.take() {
            Some(root) => root,
            None => {
                proof {
                    assert(false);
                }
                return None;
            },
        };
        let ghost retained_root = root@;
        proof {
            lemma_tree_contains_items(retained_root, *target);
            lemma_tree_insert_at_edge(
                retained_root,
                *target,
                *item,
                at_least_one(minimum),
                edge,
                area,
            );
        }
        let (next, result) = root.insert_at_edge(
            target,
            *item,
            at_least_one_exec(minimum),
            edge,
            area,
        );
        let result = match result {
            Some(r) => r,
            None => {
                proof {
                    assert(false);
                }
                return None;
            },
        };
        self.root = Some(next);
        self.focused = Some(*item);
        self.recent = without_item(&self.recent, item);
        self.recent.push(*item);
        proof {
            let k = choose|k: int|
                0 <= k <= tree_items(retained_root).len() && tree_items(
                    #[trigger] model::tree_insert_at_edge(
                        retained_root,
                        *target,
                        *item,
                        at_least_one(minimum),
                        edge,
                        area,
                    ).0,
                ) == tree_items(retained_root).insert(k, *item);
            let new_root = self@.root->0;
            assert forall|t: T| tree_contains(new_root, t) <==> tree_contains(retained_root, t)
                || t == *item by {
                lemma_tree_contains_items(new_root, t);
                lemma_tree_contains_items(retained_root, t);
                lemma_insert_contains(tree_items(retained_root), k, *item, t);
            }
            assert forall|i: int| 0 <= i < self@.recent.len() implies layout_contains(
                self@,
                #[trigger] self@.recent[i],
            ) by {
                let x = self@.recent[i];
                if x != *item {
                    let w = without(retained.recent, *item);
                    assert(w[i] == x);
                    lemma_without_subset(retained.recent, *item, x);
                    let j = choose|j: int| 0 <= j < retained.recent.len() && retained.recent[j] == x;
                    assert(layout_contains(retained, retained.recent[j]));
                }
            }
        }
        Some(result)
    }

    /// The focused item.
    pub fn focused(&self) -> (focused: Option<&T>)
        ensures
            match focused {
                Some(f) => self@.focused == Some(*f),
                None => self@.focused is None,
            },
    {
        self.focused.as_ref()
    }

    /// Records a new minimum size (each component raised to at least one)
    /// for `item`; `false` when the layout does not hold it.
    pub fn update_minimum(&mut self, item: &T, minimum: (i32, i32)) -> (updated: bool)
        requires
            old(self).wf(),
        ensures
            final(self).wf(),
            (final(self)@, updated) == layout_update_minimum(old(self)@, *item, minimum),
    {
        let ghost before = self@;
        match self.root.take() {
            None => {
                proof {
                    assert(self@ == before);
                }
                false
            },
            Some(root) => {
                let ghost old_root = root@;
                let (next, ok) = root.update_minimum(item, at_least_one_exec(minimum));
                proof {
                    lemma_tree_update_minimum(old_root, *item, at_least_one(minimum));
                    assert forall|t: T| tree_contains(next@, t) <==> tree_contains(old_root, t) by {
                        lemma_tree_contains_items(next@, t);
                        lemma_tree_contains_items(old_root, t);
                    }
                    assert forall|i: int| 0 <= i < before.recent.len() implies tree_contains(
                        next@,
                        #[trigger] before.recent[i],
                    ) by {
                        assert(layout_contains(before, before.recent[i]));
                    }
                    if let Some(f) = before.focused {
                        assert(layout_contains(before, f));
                        assert(tree_contains(next@, f));
                    }
                }
                self.root = Some(next);
                proof {
                    assert forall|i: int| 0 <= i < self@.recent.len() implies layout_contains(
                        self@,
                        #[trigger] self@.recent[i],
                    ) by {
                        assert(self@.recent[i] == before.recent[i]);
                    }
                }
                ok
            },
        }
    }

    /// The shown item of every expanded region with its rectangle.
    pub fn placements(&self, area: Rect) -> (placements: Vec<(T, Rect)>)
        requires
            self.wf(),
            area.is_bounded(),
        ensures
            placements@ == layout_placements(self@, area, false),
    {
        let mut placements = Vec::new();
        if let Some(root) = &self.root {
            root.collect_placements(area, None, false, &mut placements);
        }
        proof {
            assert(placements@ =~= layout_placements(self@, area, false));
        }
        placements
    }

    /// The shown item of every collapsed region with its spine rectangle.
    pub fn collapsed_placements(&self, area: Rect) -> (placements: Vec<(T, Rect)>)
        requires
            self.wf(),
            area.is_bounded(),
        ensures
            placements@ == layout_placements(self@, area, true),
    {
        let mut placements = Vec::new();
        if let Some(root) = &self.root {
            root.collect_placements(area, None, true, &mut placements);
        }
        proof {
            assert(placements@ =~= layout_placements(self@, area, true));
        }
        placements
    }

    /// Every item, region by region.
    pub fn items(&self) -> (items: Vec<T>)
        ensures
            items@ == layout_items(self@),
    {
        let mut items = Vec::new();
        if let Some(root) = &self.root {
            root.collect_items(&mut items);
        }
        proof {
            assert(items@ =~= layout_items(self@));
        }
        items
    }

    pub fn len(&self) -> (count: usize)
        requires
            self.wf(),
        ensures
            count == layout_items(self@).len(),
    {
        match &self.root {
            Some(root) => root.len(),
            None => 0,
        }
    }

    pub fn region_count(&self) -> (count: usize)
        requires
            self.wf(),
        ensures
            count == layout_region_count(self@),
    {
        match &self.root {
            Some(root) => {
                proof {
                    lemma_region_count_le_len(root@);
                }
                root.region_count()
            },
            None => 0,
        }
    }

    /// The split boundary within `threshold` (at least zero) of the point.
    pub fn boundary_at(&self, x: i32, y: i32, area: Rect, threshold: i32) -> (handle: Option<
        ResizeHandle,
    >)
        requires
            self.wf(),
            area.is_bounded(),
        ensures
            match handle {
                Some(h) => layout_boundary_at(self@, x as int, y as int, area, threshold as int)
                    == Some(h@),
                None => layout_boundary_at(self@, x as int, y as int, area, threshold as int) is None,
            },
    {
        let threshold = if threshold > 0 {
            threshold
        } else {
            0
        };
        match &self.root {
            Some(root) => {
                let mut path: Vec<bool> = Vec::new();
                proof {
                    assert(path@ =~= Seq::<bool>::empty());
                }
                root.boundary_at(x, y, area, threshold, &mut path)
            },
            None => None,
        }
    }

    /// Moves the boundary of `handle` toward the point, keeping both sides'
    /// minimums; `false` when nothing changed.
    pub fn resize_boundary(&mut self, handle: &ResizeHandle, x: i32, y: i32, area: Rect) -> (resized:
        bool)
        requires
            old(self).wf(),
            area.is_bounded(),
        ensures
            final(self).wf(),
            (final(self)@, resized) == layout_resize_boundary(old(self)@, handle@, x as int, y as int, area),
    {
        let ghost before = self@;
        match self.root.take() {
            None => {
                proof {
                    assert(self@ == before);
                }
                false
            },
            Some(root) => {
                let ghost old_root = root@;
                let (next, changed) = root.resize_boundary(handle, 0, x, y, area);
                proof {
                    lemma_tree_resize(old_root, handle@.path, handle@.axis, 0, x as int, y as int, area);
                    assert forall|t: T| tree_contains(next@, t) <==> tree_contains(old_root, t) by {
                        lemma_tree_contains_items(next@, t);
                        lemma_tree_contains_items(old_root, t);
                    }
                    assert forall|i: int| 0 <= i < before.recent.len() implies tree_contains(
                        next@,
                        #[trigger] before.recent[i],
                    ) by {
                        assert(layout_contains(before, before.recent[i]));
                    }
                    if let Some(f) = before.focused {
                        assert(layout_contains(before, f));
                        assert(tree_contains(next@, f));
                    }
                }
                self.root = Some(next);
                proof {
                    assert forall|i: int| 0 <= i < self@.recent.len() implies layout_contains(
                        self@,
                        #[trigger] self@.recent[i],
                    ) by {
                        assert(self@.recent[i] == before.recent[i]);
                    }
                }
                changed
            },
        }
    }
}

} // verus!
