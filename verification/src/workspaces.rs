//! The session's Workspaces: each has a stable identity and a layout of its
//! own, and exactly one of them is active.

use vstd::prelude::*;

use crate::layout::geometry::Rect;
use crate::layout::laws::{law_insert_adds_the_item, law_retain};
use crate::layout::lemmas::{item_kept, lemma_tree_contains_items};
use crate::layout::model::{
    first_index, is_first_index, layout_contains, layout_insert, layout_items, layout_retain,
    layout_wf, InsertResult, LayoutItem, LayoutView,
};
use crate::layout::region::{lemma_first_index, lemma_first_index_exists};
use crate::layout::Layout;

verus! {

#[derive(Clone, Copy, Debug, PartialEq, Eq, Structural)]
pub enum WorkspaceDirection {
    Previous,
    Next,
}

/// What the shell is told of one Workspace.
#[derive(Clone, Copy, Debug, PartialEq, Eq, Structural)]
pub struct WorkspaceSnapshot {
    pub id: u32,
    pub position: u32,
    pub active: bool,
}

/// The Workspace that a shell protocol object stands for.
#[derive(Debug)]
pub struct WorkspaceData {
    pub id: u32,
}

/// One Workspace: its identity and its tiling.
#[derive(Debug)]
pub struct SessionWorkspace<T> {
    pub id: u32,
    pub layout: Layout<T>,
}

/// The Workspaces in their order, the position of the active one and the
/// identity that the next new Workspace gets.
pub struct WorkspaceSetView<T> {
    pub ids: Seq<u32>,
    pub layouts: Seq<LayoutView<T>>,
    pub active: int,
    pub next_id: int,
}

#[derive(Debug)]
pub struct WorkspaceSet<T> {
    items: Vec<SessionWorkspace<T>>,
    active: usize,
    next_id: u32,
}

pub open spec fn workspace_ids<T>(items: Seq<SessionWorkspace<T>>) -> Seq<u32> {
    items.map_values(|w: SessionWorkspace<T>| w.id)
}

pub open spec fn workspace_layouts<T>(items: Seq<SessionWorkspace<T>>) -> Seq<LayoutView<T>> {
    items.map_values(|w: SessionWorkspace<T>| w.layout@)
}

/// Replacing a Workspace by one with the same identity keeps the identities.
pub broadcast proof fn lemma_workspace_ids_update<T>(
    items: Seq<SessionWorkspace<T>>,
    i: int,
    w: SessionWorkspace<T>,
)
    requires
        0 <= i < items.len(),
        w.id == items[i].id,
    ensures
        #[trigger] workspace_ids(items.update(i, w)) == workspace_ids(items),
{
    assert(workspace_ids(items.update(i, w)) =~= workspace_ids(items));
}

/// Replacing a Workspace replaces its layout.
pub broadcast proof fn lemma_workspace_layouts_update<T>(
    items: Seq<SessionWorkspace<T>>,
    i: int,
    w: SessionWorkspace<T>,
)
    requires
        0 <= i < items.len(),
    ensures
        #[trigger] workspace_layouts(items.update(i, w)) == workspace_layouts(items).update(
            i,
            w.layout@,
        ),
{
    assert(workspace_layouts(items.update(i, w)) =~= workspace_layouts(items).update(
        i,
        w.layout@,
    ));
}

impl<T> View for WorkspaceSet<T> {
    type V = WorkspaceSetView<T>;

    closed spec fn view(&self) -> WorkspaceSetView<T> {
        WorkspaceSetView {
            ids: workspace_ids(self.items@),
            layouts: workspace_layouts(self.items@),
            active: self.active as int,
            next_id: self.next_id as int,
        }
    }
}

/// Every Workspace has a well-formed layout and an identity of its own,
/// below the next identity to hand out; one of them is active.
pub open spec fn workspaces_wf<T>(v: WorkspaceSetView<T>) -> bool {
    &&& v.layouts.len() == v.ids.len()
    &&& 0 <= v.active < v.ids.len()
    &&& v.ids.no_duplicates()
    &&& v.next_id <= u32::MAX
    &&& forall|i: int| 0 <= i < v.ids.len() ==> 0 < #[trigger] v.ids[i] < v.next_id
    &&& forall|i: int| 0 <= i < v.layouts.len() ==> layout_wf(#[trigger] v.layouts[i])
}

pub open spec fn empty_layout<T>() -> LayoutView<T> {
    LayoutView { root: None, focused: None, recent: Seq::empty() }
}

/// The identity of the active Workspace.
pub open spec fn active_id_of<T>(v: WorkspaceSetView<T>) -> u32 {
    v.ids[v.active]
}

/// The position of the Workspace with identity `id`.
pub open spec fn position_of_id(ids: Seq<u32>, id: u32) -> int {
    first_index(ids, id)
}

pub open spec fn ws_activate<T>(v: WorkspaceSetView<T>, id: u32) -> (WorkspaceSetView<T>, bool) {
    if v.ids.contains(id) {
        (WorkspaceSetView { active: position_of_id(v.ids, id), ..v }, true)
    } else {
        (v, false)
    }
}

pub open spec fn ws_adjacent_id<T>(v: WorkspaceSetView<T>, direction: WorkspaceDirection) -> Option<
    u32,
> {
    match direction {
        WorkspaceDirection::Previous => if v.active >= 1 {
            Some(v.ids[v.active - 1])
        } else {
            None
        },
        WorkspaceDirection::Next => if v.active + 1 < v.ids.len() {
            Some(v.ids[v.active + 1])
        } else {
            None
        },
    }
}

/// A new, empty Workspace at `position` (at most the end); the active one
/// stays active. Gives the new identity and the position used.
pub open spec fn ws_create_at<T>(v: WorkspaceSetView<T>, position: int) -> (
    WorkspaceSetView<T>,
    (u32, int),
) {
    let p = if position < v.ids.len() {
        position
    } else {
        v.ids.len() as int
    };
    let id = v.next_id as u32;
    (
        WorkspaceSetView {
            ids: v.ids.insert(p, id),
            layouts: v.layouts.insert(p, empty_layout()),
            active: if p <= v.active {
                v.active + 1
            } else {
                v.active
            },
            next_id: v.next_id + 1,
        },
        (id, p),
    )
}

/// Where the element at `k` ends up when the element at `source` is taken
/// out and put back at `target`.
pub open spec fn moved_index(k: int, source: int, target: int) -> int {
    if k == source {
        target
    } else if source < k && k <= target {
        k - 1
    } else if target <= k && k < source {
        k + 1
    } else {
        k
    }
}

pub open spec fn reordered<A>(s: Seq<A>, source: int, target: int) -> Seq<A> {
    s.remove(source).insert(target, s[source])
}

/// Moves the Workspace `id` to `position` (at most the last position); the
/// active Workspace stays active. `false`, with nothing changed, for an
/// unknown identity or a move to where it already is.
pub open spec fn ws_reorder<T>(v: WorkspaceSetView<T>, id: u32, position: int) -> (
    WorkspaceSetView<T>,
    bool,
) {
    let source = position_of_id(v.ids, id);
    let target = if position < v.ids.len() - 1 {
        position
    } else {
        v.ids.len() - 1
    };
    if !v.ids.contains(id) || source == target {
        (v, false)
    } else {
        (
            WorkspaceSetView {
                ids: reordered(v.ids, source, target),
                layouts: reordered(v.layouts, source, target),
                active: moved_index(v.active, source, target),
                next_id: v.next_id,
            },
            true,
        )
    }
}

/// The position, before a move from `source` to `target`, of what sits at
/// `k` afterwards.
pub open spec fn origin_index(k: int, source: int, target: int) -> int {
    if k == target {
        source
    } else if source < target && source <= k && k < target {
        k + 1
    } else if target < source && target < k && k <= source {
        k - 1
    } else {
        k
    }
}

/// Each element of a reordered sequence comes from its origin.
pub proof fn lemma_reordered<A>(s: Seq<A>, source: int, target: int)
    requires
        0 <= source < s.len(),
        0 <= target < s.len(),
    ensures
        reordered(s, source, target).len() == s.len(),
        forall|k: int|
            0 <= k < s.len() ==> #[trigger] reordered(s, source, target)[k] == s[origin_index(
                k,
                source,
                target,
            )],
        forall|k: int|
            0 <= k < s.len() ==> 0 <= #[trigger] moved_index(k, source, target) < s.len()
                && origin_index(moved_index(k, source, target), source, target) == k,
{
}

/// Reordering keeps a sequence free of duplicates.
pub proof fn lemma_reordered_no_duplicates<A>(s: Seq<A>, source: int, target: int)
    requires
        0 <= source < s.len(),
        0 <= target < s.len(),
        s.no_duplicates(),
    ensures
        reordered(s, source, target).no_duplicates(),
{
    lemma_reordered(s, source, target);
    let r = reordered(s, source, target);
    assert forall|a: int, b: int| 0 <= a < r.len() && 0 <= b < r.len() && a != b implies r[a]
        != r[b] by {
        assert(r[a] == s[origin_index(a, source, target)]);
        assert(r[b] == s[origin_index(b, source, target)]);
    }
}

/// Inserting an element that does not occur keeps a sequence free of
/// duplicates.
pub proof fn lemma_insert_fresh<A>(s: Seq<A>, p: int, x: A)
    requires
        0 <= p <= s.len(),
        s.no_duplicates(),
        !s.contains(x),
    ensures
        s.insert(p, x).no_duplicates(),
{
    let r = s.insert(p, x);
    assert forall|a: int, b: int| 0 <= a < r.len() && 0 <= b < r.len() && a != b implies r[a]
        != r[b] by {
        if a != p && b != p {
            let ia = if a < p { a } else { a - 1 };
            let ib = if b < p { b } else { b - 1 };
            assert(r[a] == s[ia]);
            assert(r[b] == s[ib]);
        } else if a == p {
            let ib = if b < p { b } else { b - 1 };
            assert(r[b] == s[ib]);
        } else {
            let ia = if a < p { a } else { a - 1 };
            assert(r[a] == s[ia]);
        }
    }
}

/// `after` is what retaining `before` with `keep` leaves: the items for
/// which `keep` answered `false` are gone, those for which it answered
/// `true` stay.
pub open spec fn retained_by<T, F: Fn(&T) -> bool>(
    before: LayoutView<T>,
    after: LayoutView<T>,
    keep: F,
) -> bool {
    exists|removed: Seq<T>|
        {
            &&& forall|t: T| #[trigger] removed.contains(t) ==> keep.ensures((&t,), false)
            &&& forall|t: T| #[trigger]
                layout_contains(before, t) && !removed.contains(t) ==> keep.ensures((&t,), true)
            &&& after == layout_retain(before, removed).0
        }
}

/// Whether each layout holds `item`.
pub open spec fn holding<T>(layouts: Seq<LayoutView<T>>, item: T) -> Seq<bool> {
    layouts.map_values(|l: LayoutView<T>| layout_contains(l, item))
}

/// Moves `item` from the first Workspace that holds it into the Workspace
/// `target_id`, where it is inserted as a new item is. `None`, with nothing
/// changed, when no Workspace holds it, there is no such target, or the
/// target already holds it first. Gives the insertion's result and the
/// source Workspace's identity.
pub open spec fn ws_transfer<T>(
    v: WorkspaceSetView<T>,
    item: T,
    target_id: u32,
    area: Rect,
    minimum: (i32, i32),
) -> (WorkspaceSetView<T>, Option<(InsertResult, u32)>) {
    let held = holding(v.layouts, item);
    let s = first_index(held, true);
    let t = position_of_id(v.ids, target_id);
    if !held.contains(true) || !v.ids.contains(target_id) || s == t {
        (v, None)
    } else {
        let source_after = layout_retain(v.layouts[s], seq![item]).0;
        let (target_after, result) = layout_insert(v.layouts[t], item, area, minimum);
        (
            WorkspaceSetView { layouts: v.layouts.update(s, source_after).update(t, target_after), ..v },
            Some((result, v.ids[s])),
        )
    }
}

/// Where a background Workspace goes: before the first for the previous
/// direction, after the last for the next.
pub open spec fn background_position<T>(v: WorkspaceSetView<T>, direction: WorkspaceDirection) -> int {
    match direction {
        WorkspaceDirection::Previous => 0,
        WorkspaceDirection::Next => v.ids.len() as int,
    }
}

/// The neighbouring Workspace in `direction`, or a new one there; gives its
/// identity and whether it was created.
pub open spec fn ws_neighbour<T>(v: WorkspaceSetView<T>, direction: WorkspaceDirection) -> (
    WorkspaceSetView<T>,
    (u32, bool),
) {
    match ws_adjacent_id(v, direction) {
        Some(id) => (v, (id, false)),
        None => {
            let (after, (id, _)) = ws_create_at(v, background_position(v, direction));
            (after, (id, true))
        },
    }
}

/// Every item with the identity of its Workspace, Workspace by Workspace.
pub open spec fn items_by_workspace<T>(ids: Seq<u32>, layouts: Seq<LayoutView<T>>) -> Seq<(u32, T)>
    decreases layouts.len(),
{
    if layouts.len() == 0 || ids.len() == 0 {
        Seq::empty()
    } else {
        layout_items(layouts[0]).map_values(|t: T| (ids[0], t)) + items_by_workspace(
            ids.drop_first(),
            layouts.drop_first(),
        )
    }
}

impl<T> WorkspaceSet<T> {
    pub open spec fn wf(&self) -> bool {
        workspaces_wf(self@)
    }
}

impl<T> Default for WorkspaceSet<T> {
    /// One empty, active Workspace with identity 1.
    fn default() -> (workspaces: Self)
        ensures
            workspaces.wf(),
            workspaces@ == (WorkspaceSetView::<T> {
                ids: seq![1u32],
                layouts: seq![empty_layout()],
                active: 0,
                next_id: 2,
            }),
    {
        let mut items: Vec<SessionWorkspace<T>> = Vec::new();
        items.push(SessionWorkspace { id: 1, layout: Layout::default() });
        let workspaces = WorkspaceSet { items, active: 0, next_id: 2 };
        proof {
            assert(workspaces@.ids =~= seq![1u32]);
            assert(workspaces@.layouts =~= seq![empty_layout::<T>()]);
        }
        workspaces
    }
}

impl<T: LayoutItem> WorkspaceSet<T> {
    fn find(&self, id: u32) -> (found: Option<usize>)
        ensures
            match found {
                Some(i) => is_first_index(self@.ids, id, i as int) && position_of_id(self@.ids, id)
                    == i,
                None => !self@.ids.contains(id),
            },
    {
        let mut i: usize = 0;
        while i < self.items.len()
            invariant
                0 <= i <= self.items.len(),
                self@.ids.len() == self.items.len(),
                forall|j: int| 0 <= j < i ==> self@.ids[j] != id,
            decreases self.items.len() - i,
        {
            if self.items[i].id == id {
                proof {
                    assert(is_first_index(self@.ids, id, i as int));
                    lemma_first_index(self@.ids, id, i as int);
                }
                return Some(i);
            }
            i += 1;
        }
        None
    }

    /// The active Workspace's layout.
    pub fn active_layout(&self) -> (layout: &Layout<T>)
        requires
            self.wf(),
        ensures
            layout@ == self@.layouts[self@.active],
    {
        &self.items[self.active].layout
    }

    /// The active Workspace's identity.
    pub fn active_id(&self) -> (id: u32)
        requires
            self.wf(),
        ensures
            id == active_id_of(self@),
    {
        self.items[self.active].id
    }

    pub fn is_active(&self, id: u32) -> (active: bool)
        requires
            self.wf(),
        ensures
            active == (id == active_id_of(self@)),
    {
        self.active_id() == id
    }

    /// Whether a Workspace has identity `id`.
    pub fn contains(&self, id: u32) -> (found: bool)
        ensures
            found == self@.ids.contains(id),
    {
        self.find(id).is_some()
    }

    /// Makes the Workspace `id` active; `false`, with nothing changed, when
    /// there is none.
    pub fn activate(&mut self, id: u32) -> (activated: bool)
        requires
            old(self).wf(),
        ensures
            final(self).wf(),
            (final(self)@, activated) == ws_activate(old(self)@, id),
    {
        match self.find(id) {
            Some(target) => {
                self.active = target;
                true
            },
            None => false,
        }
    }

    /// The identity of the Workspace before or after the active one.
    pub fn adjacent_id(&self, direction: WorkspaceDirection) -> (id: Option<u32>)
        requires
            self.wf(),
        ensures
            id == ws_adjacent_id(self@, direction),
    {
        match direction {
            WorkspaceDirection::Previous => {
                if self.active >= 1 {
                    Some(self.items[self.active - 1].id)
                } else {
                    None
                }
            },
            WorkspaceDirection::Next => {
                if self.active < self.items.len() - 1 {
                    Some(self.items[self.active + 1].id)
                } else {
                    None
                }
            },
        }
    }

    /// Adds an empty Workspace at `position` (at most the end) without
    /// changing the active one; gives its identity and the position used.
    pub fn create_at(&mut self, position: usize) -> (created: (u32, u32))
        requires
            old(self).wf(),
            old(self)@.next_id < u32::MAX,
        ensures
            final(self).wf(),
            final(self)@ == ws_create_at(old(self)@, position as int).0,
            created.0 == ws_create_at(old(self)@, position as int).1.0,
            created.1 == ws_create_at(old(self)@, position as int).1.1 as u32,
    {
        let ghost before = self@;
        let id = self.next_id;
        self.next_id = self.next_id + 1;
        let position = if position < self.items.len() {
            position
        } else {
            self.items.len()
        };
        self.items.insert(position, SessionWorkspace { id, layout: Layout::default() });
        if position <= self.active {
            self.active = self.active + 1;
        }
        proof {
            assert(self@.ids =~= before.ids.insert(position as int, id));
            assert(self@.layouts =~= before.layouts.insert(position as int, empty_layout()));
            assert(0 < before.ids[before.active] < before.next_id);
            assert(!before.ids.contains(id));
            lemma_insert_fresh(before.ids, position as int, id);
            assert forall|i: int| 0 <= i < self@.ids.len() implies 0 < #[trigger] self@.ids[i]
                < self@.next_id by {
                if i < position {
                    assert(self@.ids[i] == before.ids[i]);
                } else if i > position {
                    assert(self@.ids[i] == before.ids[i - 1]);
                } else {
                    assert(self@.ids[i] == id);
                }
            }
            assert forall|i: int| 0 <= i < self@.layouts.len() implies layout_wf(
                #[trigger] self@.layouts[i],
            ) by {
                if i < position {
                    assert(self@.layouts[i] == before.layouts[i]);
                } else if i > position {
                    assert(self@.layouts[i] == before.layouts[i - 1]);
                }
            }
        }
        (id, position as u32)
    }

    /// Adds an empty Workspace after the others.
    pub fn create(&mut self) -> (created: (u32, u32))
        requires
            old(self).wf(),
            old(self)@.next_id < u32::MAX,
        ensures
            final(self).wf(),
            final(self)@ == ws_create_at(old(self)@, old(self)@.ids.len() as int).0,
            created.0 == ws_create_at(old(self)@, old(self)@.ids.len() as int).1.0,
            created.1 == ws_create_at(old(self)@, old(self)@.ids.len() as int).1.1 as u32,
    {
        let end = self.items.len();
        self.create_at(end)
    }

    /// Moves the Workspace `id` to `position` (at most the last one) and
    /// keeps the active one active; `false`, with nothing changed, for an
    /// unknown identity or when it already stands there.
    pub fn reorder(&mut self, id: u32, position: u32) -> (moved: bool)
        requires
            old(self).wf(),
        ensures
            final(self).wf(),
            (final(self)@, moved) == ws_reorder(old(self)@, id, position as int),
    {
        let ghost before = self@;
        let source = match self.find(id) {
            Some(source) => source,
            None => {
                return false;
            },
        };
        let last = self.items.len() - 1;
        let target = if (position as usize) < last {
            position as usize
        } else {
            last
        };
        if source == target {
            return false;
        }
        let workspace = self.items.remove(source);
        self.items.insert(target, workspace);
        let active = self.active;
        self.active = if active == source {
            target
        } else if source < active && active <= target {
            active - 1
        } else if target <= active && active < source {
            active + 1
        } else {
            active
        };
        proof {
            assert(self@.ids =~= reordered(before.ids, source as int, target as int));
            assert(self@.layouts =~= reordered(before.layouts, source as int, target as int));
            lemma_reordered(before.ids, source as int, target as int);
            lemma_reordered(before.layouts, source as int, target as int);
            lemma_reordered_no_duplicates(before.ids, source as int, target as int);
            assert forall|i: int| 0 <= i < self@.ids.len() implies 0 < #[trigger] self@.ids[i]
                < self@.next_id by {
                assert(self@.ids[i] == before.ids[origin_index(i, source as int, target as int)]);
            }
            assert forall|i: int| 0 <= i < self@.layouts.len() implies layout_wf(
                #[trigger] self@.layouts[i],
            ) by {
                assert(self@.layouts[i] == before.layouts[origin_index(
                    i,
                    source as int,
                    target as int,
                )]);
            }
        }
        true
    }

    /// The active Workspace's layout, to change it in place.
    pub fn active_layout_mut(&mut self) -> (layout: &mut Layout<T>)
        requires
            old(self).wf(),
        ensures
            (*layout)@ == old(self)@.layouts[old(self)@.active],
            final(self)@ == (WorkspaceSetView {
                layouts: old(self)@.layouts.update(old(self)@.active, (*final(layout))@),
                ..old(self)@
            }),
    {
        broadcast use {lemma_workspace_ids_update, lemma_workspace_layouts_update};

        let active = self.active;
        &mut self.items[active].layout
    }

    /// The layout of the Workspace `id`, to change it in place; `None` when
    /// there is no such Workspace.
    pub fn layout_mut(&mut self, id: u32) -> (layout: Option<&mut Layout<T>>)
        requires
            old(self).wf(),
        ensures
            old(self)@.ids.contains(id) ==> layout.is_some() && (*layout.unwrap())@
                == old(self)@.layouts[position_of_id(old(self)@.ids, id)] && final(self)@ == (
            WorkspaceSetView {
                layouts: old(self)@.layouts.update(
                    position_of_id(old(self)@.ids, id),
                    (*final(layout.unwrap()))@,
                ),
                ..old(self)@
            }),
            !old(self)@.ids.contains(id) ==> layout.is_none() && final(self)@ == old(self)@,
    {
        broadcast use {lemma_workspace_ids_update, lemma_workspace_layouts_update};

        match self.find(id) {
            Some(i) => Some(&mut self.items[i].layout),
            None => None,
        }
    }

    fn holder_of(&self, item: &T) -> (found: Option<usize>)
        requires
            self.wf(),
        ensures
            match found {
                Some(i) => is_first_index(holding(self@.layouts, *item), true, i as int)
                    && first_index(holding(self@.layouts, *item), true) == i,
                None => !holding(self@.layouts, *item).contains(true),
            },
    {
        let ghost held = holding(self@.layouts, *item);
        let mut i: usize = 0;
        while i < self.items.len()
            invariant
                0 <= i <= self.items.len(),
                held.len() == self.items.len(),
                held == holding(self@.layouts, *item),
                forall|j: int| 0 <= j < i ==> held[j] != true,
            decreases self.items.len() - i,
        {
            if self.items[i].layout.contains_item(item) {
                proof {
                    assert(held[i as int] == layout_contains(self@.layouts[i as int], *item));
                    assert(is_first_index(held, true, i as int));
                    lemma_first_index(held, true, i as int);
                }
                return Some(i);
            }
            proof {
                assert(held[i as int] == layout_contains(self@.layouts[i as int], *item));
            }
            i += 1;
        }
        None
    }

    /// Removes, from every Workspace, the items for which `alive` answers
    /// `false`; reports whether any layout lost an item.
    pub fn retain_alive<F: Fn(&T) -> bool>(&mut self, alive: &F) -> (changed: bool)
        requires
            old(self).wf(),
            forall|t: T| alive.requires((&t,)),
        ensures
            final(self).wf(),
            final(self)@.ids == old(self)@.ids,
            final(self)@.active == old(self)@.active,
            final(self)@.next_id == old(self)@.next_id,
            final(self)@.layouts.len() == old(self)@.layouts.len(),
            forall|i: int|
                0 <= i < old(self)@.layouts.len() ==> retained_by(
                    old(self)@.layouts[i],
                    #[trigger] final(self)@.layouts[i],
                    alive,
                ),
            changed == exists|i: int|
                0 <= i < old(self)@.layouts.len() && layout_items(#[trigger] final(self)@.layouts[i]).len()
                    != layout_items(old(self)@.layouts[i]).len(),
    {
        broadcast use {lemma_workspace_ids_update, lemma_workspace_layouts_update};

        let ghost before = self@;
        let mut changed = false;
        let mut i: usize = 0;
        while i < self.items.len()
            invariant
                0 <= i <= self.items.len(),
                self.wf(),
                forall|t: T| alive.requires((&t,)),
                self@.ids == before.ids,
                self@.active == before.active,
                self@.next_id == before.next_id,
                self@.layouts.len() == before.layouts.len(),
                forall|j: int| 0 <= j < i ==> retained_by(before.layouts[j], #[trigger] self@.layouts[j], alive),
                forall|j: int| i <= j < self@.layouts.len() ==> #[trigger] self@.layouts[j] == before.layouts[j],
                changed == exists|j: int|
                    0 <= j < i && layout_items(#[trigger] self@.layouts[j]).len()
                        != layout_items(before.layouts[j]).len(),
            decreases self.items.len() - i,
        {
            let ghost current = self@;
            let keep = |t: &T| -> (kept: bool)
                requires
                    alive.requires((t,)),
                ensures
                    alive.ensures((t,), kept),
                { alive(t) };
            proof {
                assert(layout_wf(current.layouts[i as int]));
            }
            let lost = self.items[i].layout.retain(keep);
            proof {
                let after = self@.layouts[i as int];
                let removed = choose|removed: Seq<T>|
                    {
                        &&& forall|t: T| #[trigger] removed.contains(t) ==> keep.ensures((&t,), false)
                        &&& forall|t: T| #[trigger]
                            layout_contains(current.layouts[i as int], t) && !removed.contains(t)
                                ==> keep.ensures((&t,), true)
                        &&& (after, lost) == layout_retain(current.layouts[i as int], removed)
                    };
                assert(retained_by(before.layouts[i as int], after, alive)) by {
                    assert(current.layouts[i as int] == before.layouts[i as int]);
                }
                assert forall|j: int| 0 <= j < self@.layouts.len() implies layout_wf(
                    #[trigger] self@.layouts[j],
                ) by {
                    if j != i {
                        assert(self@.layouts[j] == current.layouts[j]);
                    }
                }
                assert forall|j: int| 0 <= j < i implies retained_by(
                    before.layouts[j],
                    #[trigger] self@.layouts[j],
                    alive,
                ) by {
                    assert(self@.layouts[j] == current.layouts[j]);
                }
                assert forall|j: int| i + 1 <= j < self@.layouts.len() implies #[trigger] self@.layouts[j]
                    == before.layouts[j] by {
                    assert(self@.layouts[j] == current.layouts[j]);
                }
                assert(lost == (layout_items(after).len() != layout_items(
                    before.layouts[i as int],
                ).len()));
                assert(self@.ids.len() == self@.layouts.len());
                assert(self@.ids == current.ids);
                assert(0 <= self@.active < self@.ids.len());
                assert(self@.ids.no_duplicates());
                assert(self@.next_id <= u32::MAX);
                assert(forall|i: int| 0 <= i < self@.ids.len() ==> 0 < #[trigger] self@.ids[i] < self@.next_id);
                assert(forall|i: int| 0 <= i < self@.layouts.len() ==> layout_wf(#[trigger] self@.layouts[i]));
            }
            let ghost was_changed = changed;
            changed = changed || lost;
            proof {
                if lost {
                    assert(layout_items(self@.layouts[i as int]).len() != layout_items(
                        before.layouts[i as int],
                    ).len());
                } else if was_changed {
                    let j = choose|j: int|
                        0 <= j < i && layout_items(#[trigger] current.layouts[j]).len()
                            != layout_items(before.layouts[j]).len();
                    assert(self@.layouts[j] == current.layouts[j]);
                } else {
                    assert forall|j: int| 0 <= j < i + 1 implies layout_items(
                        #[trigger] self@.layouts[j],
                    ).len() == layout_items(before.layouts[j]).len() by {
                        if j < i {
                            assert(self@.layouts[j] == current.layouts[j]);
                        }
                    }
                }
            }
            i += 1;
        }
        changed
    }

    /// Moves `item` from the first Workspace holding it into the Workspace
    /// `target_id` (see `ws_transfer`).
    pub fn transfer(&mut self, item: &T, target_id: u32, area: Rect, minimum: (i32, i32)) -> (moved:
        Option<(InsertResult, u32)>)
        requires
            old(self).wf(),
            area.is_bounded(),
            forall|i: int|
                0 <= i < old(self)@.layouts.len() ==> layout_items(#[trigger] old(self)@.layouts[i]).len()
                    < usize::MAX,
        ensures
            final(self).wf(),
            (final(self)@, moved) == ws_transfer(old(self)@, *item, target_id, area, minimum),
    {
        broadcast use {lemma_workspace_ids_update, lemma_workspace_layouts_update};

        let ghost before = self@;
        let source = match self.holder_of(item) {
            Some(source) => source,
            None => {
                return None;
            },
        };
        let target = match self.find(target_id) {
            Some(target) => target,
            None => {
                return None;
            },
        };
        if source == target {
            return None;
        }
        let mut removed: Vec<T> = Vec::new();
        removed.push(*item);
        proof {
            assert(removed@ =~= seq![*item]);
            assert(holding(before.layouts, *item)[source as int]);
            assert(layout_wf(before.layouts[source as int]));
            law_retain(before.layouts[source as int], removed@);
            assert(removed@.contains(*item)) by {
                assert(removed@[0] == *item);
            }
        }
        let removed_any = self.items[source].layout.retain_removed(&removed);
        if !removed_any {
            return None;
        }
        let ghost retained = self@;
        proof {
            assert(retained.layouts[target as int] == before.layouts[target as int]);
            assert(layout_wf(retained.layouts[target as int]));
        }
        let result = self.items[target].layout.insert_with_minimum(*item, area, minimum);
        proof {
            assert(self@.layouts =~= before.layouts.update(
                source as int,
                layout_retain(before.layouts[source as int], seq![*item]).0,
            ).update(target as int, self@.layouts[target as int]));
            assert forall|j: int| 0 <= j < self@.layouts.len() implies layout_wf(
                #[trigger] self@.layouts[j],
            ) by {
                if j != source && j != target {
                    assert(self@.layouts[j] == before.layouts[j]);
                } else if j == source {
                    assert(self@.layouts[j] == retained.layouts[j]);
                }
            }
        }
        Some((result, self.items[source].id))
    }

    /// The Workspaces in order: each one's identity, position and whether
    /// it is the active one.
    pub fn workspace_snapshots(&self) -> (snapshots: Vec<WorkspaceSnapshot>)
        requires
            self.wf(),
        ensures
            snapshots@.len() == self@.ids.len(),
            forall|i: int|
                0 <= i < snapshots@.len() ==> #[trigger] snapshots@[i] == (WorkspaceSnapshot {
                    id: self@.ids[i],
                    position: i as u32,
                    active: self@.ids[i] == active_id_of(self@),
                }),
    {
        let active_id = self.active_id();
        let mut snapshots: Vec<WorkspaceSnapshot> = Vec::new();
        let mut i: usize = 0;
        while i < self.items.len()
            invariant
                0 <= i <= self.items.len(),
                self@.ids.len() == self.items.len(),
                active_id == active_id_of(self@),
                snapshots@.len() == i,
                forall|j: int|
                    0 <= j < i ==> #[trigger] snapshots@[j] == (WorkspaceSnapshot {
                        id: self@.ids[j],
                        position: j as u32,
                        active: self@.ids[j] == active_id,
                    }),
            decreases self.items.len() - i,
        {
            let id = self.items[i].id;
            snapshots.push(WorkspaceSnapshot { id, position: i as u32, active: id == active_id });
            i += 1;
        }
        snapshots
    }

    /// The Workspaces in order.
    pub fn iter(&self) -> (workspaces: std::slice::Iter<'_, SessionWorkspace<T>>)
        ensures
            workspace_ids(vstd::std_specs::slice::into_iter_elts(workspaces)) == self@.ids,
            workspace_layouts(vstd::std_specs::slice::into_iter_elts(workspaces))
                == self@.layouts,
    {
        broadcast use vstd::std_specs::slice::axiom_spec_slice_iter;

        let workspaces = self.items.as_slice().iter();
        proof {
            assert(vstd::std_specs::slice::into_iter_elts(workspaces) =~= self.items@);
        }
        workspaces
    }

    /// Adds an empty Workspace before the first or after the last, the
    /// active one staying active; gives its identity and position.
    pub fn create_background_workspace(&mut self, direction: WorkspaceDirection) -> (created: (
        u32,
        u32,
    ))
        requires
            old(self).wf(),
            old(self)@.next_id < u32::MAX,
        ensures
            final(self).wf(),
            final(self)@ == ws_create_at(old(self)@, background_position(old(self)@, direction)).0,
            created.0 == ws_create_at(old(self)@, background_position(old(self)@, direction)).1.0,
            created.1 == ws_create_at(old(self)@, background_position(old(self)@, direction)).1.1 as u32,
    {
        let position = match direction {
            WorkspaceDirection::Previous => 0,
            WorkspaceDirection::Next => self.items.len(),
        };
        self.create_at(position)
    }

    /// The neighbouring Workspace in `direction`, created in the background
    /// when there is none (see `ws_neighbour`).
    pub fn neighbour(&mut self, direction: WorkspaceDirection) -> (target: (u32, bool))
        requires
            old(self).wf(),
            ws_adjacent_id(old(self)@, direction) is None ==> old(self)@.next_id < u32::MAX,
        ensures
            final(self).wf(),
            (final(self)@, target) == ws_neighbour(old(self)@, direction),
    {
        match self.adjacent_id(direction) {
            Some(id) => (id, false),
            None => {
                let (id, _) = self.create_background_workspace(direction);
                (id, true)
            },
        }
    }

    /// Moves `item` into the neighbouring Workspace in `direction`, which is
    /// created when there is none; gives that Workspace's identity, whether
    /// it was created, and what the transfer gave.
    pub fn transfer_at_edge(
        &mut self,
        item: &T,
        direction: WorkspaceDirection,
        area: Rect,
        minimum: (i32, i32),
    ) -> (outcome: (u32, bool, Option<(InsertResult, u32)>))
        requires
            old(self).wf(),
            ws_adjacent_id(old(self)@, direction) is None ==> old(self)@.next_id < u32::MAX,
            area.is_bounded(),
            forall|i: int|
                0 <= i < old(self)@.layouts.len() ==> layout_items(#[trigger] old(self)@.layouts[i]).len()
                    < usize::MAX,
        ensures
            final(self).wf(),
            ({
                let (between, (target, created)) = ws_neighbour(old(self)@, direction);
                let (after, moved) = ws_transfer(between, *item, target, area, minimum);
                &&& final(self)@ == after
                &&& outcome == (target, created, moved)
            }),
    {
        let ghost before = self@;
        let (target, created) = self.neighbour(direction);
        proof {
            let between = self@;
            assert forall|i: int| 0 <= i < between.layouts.len() implies layout_items(
                #[trigger] between.layouts[i],
            ).len() < usize::MAX by {
                if created {
                    let p = background_position(before, direction);
                    if i < p {
                        assert(between.layouts[i] == before.layouts[i]);
                    } else if i > p {
                        assert(between.layouts[i] == before.layouts[i - 1]);
                    } else {
                        assert(between.layouts[i] == empty_layout::<T>());
                        assert(layout_items(empty_layout::<T>()) =~= Seq::<T>::empty());
                    }
                }
            }
        }
        let moved = self.transfer(item, target, area, minimum);
        (target, created, moved)
    }

    /// The identity of the first Workspace whose layout holds `item`.
    pub fn workspace_of(&self, item: &T) -> (id: Option<u32>)
        requires
            self.wf(),
        ensures
            match id {
                Some(id) => holding(self@.layouts, *item).contains(true) && id
                    == self@.ids[first_index(holding(self@.layouts, *item), true)],
                None => !holding(self@.layouts, *item).contains(true),
            },
    {
        match self.holder_of(item) {
            Some(i) => Some(self.items[i].id),
            None => None,
        }
    }

    /// Every item with the identity of its Workspace, Workspace by
    /// Workspace.
    pub fn items_with_workspaces(&self) -> (entries: Vec<(u32, T)>)
        requires
            self.wf(),
        ensures
            entries@ == items_by_workspace(self@.ids, self@.layouts),
    {
        let mut i: usize = self.items.len();
        let ghost ids = self@.ids;
        let ghost layouts = self@.layouts;
        let mut tail: Vec<(u32, T)> = Vec::new();
        proof {
            assert(ids.skip(i as int).len() == 0);
        }
        while i > 0
            invariant
                0 <= i <= self.items@.len(),
                ids == self@.ids,
                layouts == self@.layouts,
                ids.len() == layouts.len(),
                ids.len() == self.items@.len(),
                tail@ == items_by_workspace(ids.skip(i as int), layouts.skip(i as int)),
            decreases i,
        {
            i -= 1;
            let id = self.items[i].id;
            let items = self.items[i].layout.items();
            let mut block: Vec<(u32, T)> = Vec::new();
            let mut k: usize = 0;
            while k < items.len()
                invariant
                    0 <= k <= items@.len(),
                    block@ == items@.take(k as int).map_values(|t: T| (id, t)),
                decreases items@.len() - k,
            {
                block.push((id, items[k]));
                proof {
                    assert(items@.take(k + 1).map_values(|t: T| (id, t)) =~= items@.take(
                        k as int,
                    ).map_values(|t: T| (id, t)).push((id, items@[k as int])));
                }
                k += 1;
            }
            proof {
                assert(items@.take(items@.len() as int) =~= items@);
                assert(ids.skip(i as int).drop_first() =~= ids.skip(i + 1));
                assert(layouts.skip(i as int).drop_first() =~= layouts.skip(i + 1));
                assert(ids.skip(i as int)[0] == id);
                assert(layouts.skip(i as int)[0] == self@.layouts[i as int]);
            }
            block.append(&mut tail);
            tail = block;
        }
        proof {
            assert(ids.skip(0) =~= ids);
            assert(layouts.skip(0) =~= layouts);
        }
        tail
    }

    /// The number of Workspaces.
    pub fn len(&self) -> (count: usize)
        ensures
            count == self@.ids.len(),
    {
        self.items.len()
    }
}

/// A layout holds exactly the items it lists.
proof fn lemma_layout_contains_items<T>(l: LayoutView<T>, t: T)
    ensures
        layout_contains(l, t) <==> layout_items(l).contains(t),
{
    if let Some(r) = l.root {
        lemma_tree_contains_items(r, t);
    }
}

/// A new Workspace gets an identity that no Workspace had, every earlier
/// Workspace stays, and the active Workspace stays active.
pub proof fn law_create_keeps_the_active_workspace<T>(v: WorkspaceSetView<T>, position: int)
    requires
        workspaces_wf(v),
        v.next_id < u32::MAX,
        0 <= position,
    ensures
        ({
            let (after, (id, p)) = ws_create_at(v, position);
            &&& active_id_of(after) == active_id_of(v)
            &&& !v.ids.contains(id)
            &&& after.ids[p] == id
            &&& after.ids.len() == v.ids.len() + 1
            &&& forall|x: u32| v.ids.contains(x) ==> #[trigger] after.ids.contains(x)
        }),
{
    let (after, (id, p)) = ws_create_at(v, position);
    assert(0 < v.ids[v.active] < v.next_id);
    assert(after.ids[after.active] == v.ids[v.active]);
    assert forall|x: u32| v.ids.contains(x) implies #[trigger] after.ids.contains(x) by {
        let k = choose|k: int| 0 <= k < v.ids.len() && v.ids[k] == x;
        if k < p {
            assert(after.ids[k] == x);
        } else {
            assert(after.ids[k + 1] == x);
        }
    }
}

/// Activation succeeds exactly for a known identity, and then that
/// Workspace is the active one.
pub proof fn law_activate<T>(v: WorkspaceSetView<T>, id: u32)
    requires
        workspaces_wf(v),
    ensures
        ws_activate(v, id).1 <==> v.ids.contains(id),
        ws_activate(v, id).1 ==> active_id_of(ws_activate(v, id).0) == id,
        !ws_activate(v, id).1 ==> ws_activate(v, id).0 == v,
{
    if v.ids.contains(id) {
        lemma_first_index_exists(v.ids, id);
    }
}

/// Reordering keeps the set of Workspaces and the active one; a move puts
/// the Workspace at the requested position (or the last one).
pub proof fn law_reorder_keeps_the_active_workspace<T>(
    v: WorkspaceSetView<T>,
    id: u32,
    position: int,
)
    requires
        workspaces_wf(v),
        0 <= position,
    ensures
        ({
            let (after, moved) = ws_reorder(v, id, position);
            &&& active_id_of(after) == active_id_of(v)
            &&& after.ids.len() == v.ids.len()
            &&& forall|x: u32| #[trigger] after.ids.contains(x) <==> v.ids.contains(x)
            &&& moved ==> after.ids[if position < v.ids.len() - 1 {
                position
            } else {
                v.ids.len() - 1
            }] == id
            &&& moved <==> v.ids.contains(id) && position_of_id(v.ids, id) != (
            if position < v.ids.len() - 1 {
                position
            } else {
                v.ids.len() - 1
            })
        }),
{
    let (after, moved) = ws_reorder(v, id, position);
    if moved {
        let source = position_of_id(v.ids, id);
        let target = if position < v.ids.len() - 1 {
            position
        } else {
            v.ids.len() - 1
        };
        lemma_first_index_exists(v.ids, id);
        lemma_reordered(v.ids, source, target);
        assert(after.ids[after.active] == v.ids[v.active]);
        assert forall|x: u32| #[trigger] after.ids.contains(x) <==> v.ids.contains(x) by {
            if after.ids.contains(x) {
                let k = choose|k: int| 0 <= k < after.ids.len() && after.ids[k] == x;
                assert(v.ids[origin_index(k, source, target)] == x);
            }
            if v.ids.contains(x) {
                let k = choose|k: int| 0 <= k < v.ids.len() && v.ids[k] == x;
                assert(after.ids[moved_index(k, source, target)] == x);
            }
        }
        assert(after.ids[target] == v.ids[source]);
    }
}

/// A transfer that succeeds leaves the item in the target Workspace and
/// takes it out of the Workspace it came from; identities and the active
/// Workspace stay.
pub proof fn law_transfer_moves_the_item<T>(
    v: WorkspaceSetView<T>,
    item: T,
    target_id: u32,
    area: Rect,
    minimum: (i32, i32),
)
    requires
        workspaces_wf(v),
        ws_transfer(v, item, target_id, area, minimum).1 is Some,
    ensures
        ({
            let (after, moved) = ws_transfer(v, item, target_id, area, minimum);
            let source = first_index(holding(v.layouts, item), true);
            &&& after.ids == v.ids
            &&& after.active == v.active
            &&& moved matches Some((_, source_id)) && source_id == v.ids[source]
            &&& layout_contains(v.layouts[source], item)
            &&& !layout_contains(after.layouts[source], item)
            &&& layout_contains(after.layouts[position_of_id(v.ids, target_id)], item)
        }),
{
    let held = holding(v.layouts, item);
    lemma_first_index_exists(held, true);
    lemma_first_index_exists(v.ids, target_id);
    let s = first_index(held, true);
    let t = position_of_id(v.ids, target_id);
    let (after, _) = ws_transfer(v, item, target_id, area, minimum);
    assert(held[s]);
    assert(layout_wf(v.layouts[s]));
    law_retain(v.layouts[s], seq![item]);
    let source_after = layout_retain(v.layouts[s], seq![item]).0;
    assert(after.layouts[s] == source_after);
    lemma_layout_contains_items(source_after, item);
    if layout_items(source_after).contains(item) {
        let k = choose|k: int|
            0 <= k < layout_items(source_after).len() && layout_items(source_after)[k] == item;
        layout_items(v.layouts[s]).lemma_filter_pred(item_kept(seq![item]), k);
        assert(seq![item][0] == item);
    }
    assert(layout_wf(v.layouts[t]));
    law_insert_adds_the_item(v.layouts[t], item, area, minimum);
    let target_after = layout_insert(v.layouts[t], item, area, minimum).0;
    let k = choose|k: int|
        0 <= k <= layout_items(v.layouts[t]).len() && layout_items(#[trigger] layout_insert(
            v.layouts[t],
            item,
            area,
            minimum,
        ).0) == layout_items(v.layouts[t]).insert(k, item);
    assert(layout_items(target_after)[k] == item);
    lemma_layout_contains_items(target_after, item);
}

/// The neighbour of the active Workspace is the one right beside it: the
/// next one after it or the previous one before it, and there is none at
/// the end of the row in that direction.
pub proof fn law_adjacent_is_beside_the_active<T>(v: WorkspaceSetView<T>)
    requires
        workspaces_wf(v),
    ensures
        v.active + 1 < v.ids.len() ==> ws_adjacent_id(v, WorkspaceDirection::Next) == Some(
            v.ids[v.active + 1],
        ),
        v.active + 1 >= v.ids.len() ==> ws_adjacent_id(v, WorkspaceDirection::Next) is None,
        v.active >= 1 ==> ws_adjacent_id(v, WorkspaceDirection::Previous) == Some(
            v.ids[v.active - 1],
        ),
        v.active == 0 ==> ws_adjacent_id(v, WorkspaceDirection::Previous) is None,
        ws_adjacent_id(v, WorkspaceDirection::Next) matches Some(id) ==> position_of_id(v.ids, id)
            == v.active + 1,
        ws_adjacent_id(v, WorkspaceDirection::Previous) matches Some(id) ==> position_of_id(
            v.ids,
            id,
        ) == v.active - 1,
{
    if v.active + 1 < v.ids.len() {
        let p = v.active + 1;
        assert(is_first_index(v.ids, v.ids[p], p));
        lemma_first_index(v.ids, v.ids[p], p);
    }
    if v.active >= 1 {
        let p = v.active - 1;
        assert(is_first_index(v.ids, v.ids[p], p));
        lemma_first_index(v.ids, v.ids[p], p);
    }
}

} // verus!
