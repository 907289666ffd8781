//! What the shell learns from the compositor: the Workspaces and toplevels
//! it was told of, each kept by its protocol handle, and how each protocol
//! event changes them.

use std::collections::BTreeMap;
use vstd::prelude::*;

use crate::entries::entries_of;
use crate::presentation::{
    build_presentations, spec_presentation, toplevel_map_view, ApplicationCatalog,
    ToplevelState, ToplevelView, WorkspacePresentation, WorkspaceState,
};

verus! {

/// An event of the shell protocol, by the handle of the object it concerns.
#[derive(Debug)]
pub enum ShellEvent {
    /// A Workspace was announced.
    Workspace { handle: u32 },
    /// A Workspace's position changed.
    WorkspacePosition { handle: u32, position: u32 },
    /// A Workspace became active (non-zero) or inactive.
    WorkspaceActive { handle: u32, active: u32 },
    /// A toplevel was announced.
    Toplevel { handle: u32 },
    /// A toplevel's title changed.
    ToplevelTitle { handle: u32, title: String },
    /// A toplevel's application identity changed.
    ToplevelAppId { handle: u32, app_id: String },
    /// A toplevel moved to the Workspace with handle `workspace`.
    ToplevelWorkspace { handle: u32, workspace: u32 },
    /// A toplevel became active (non-zero) or inactive.
    ToplevelActive { handle: u32, active: u32 },
    /// A toplevel closed.
    ToplevelClosed { handle: u32 },
}

/// The Workspaces and toplevels the shell knows, by handle.
pub struct ProtocolState {
    workspaces: BTreeMap<u32, WorkspaceState>,
    toplevels: BTreeMap<u32, ToplevelState>,
}

#[verifier::ext_equal]
pub struct ProtocolStateView {
    pub workspaces: Map<u32, WorkspaceState>,
    pub toplevels: Map<u32, ToplevelView>,
}

impl View for ProtocolState {
    type V = ProtocolStateView;

    closed spec fn view(&self) -> ProtocolStateView {
        ProtocolStateView {
            workspaces: self.workspaces@,
            toplevels: toplevel_map_view(self.toplevels@),
        }
    }
}

/// The map with the value under `key` (when there is one) changed by
/// `change`.
pub open spec fn modify<V>(m: Map<u32, V>, key: u32, change: spec_fn(V) -> V) -> Map<u32, V> {
    if m.contains_key(key) {
        m.insert(key, change(m[key]))
    } else {
        m
    }
}

/// A Workspace as first announced: at no known position, inactive.
pub open spec fn announced_workspace() -> WorkspaceState {
    WorkspaceState { position: u32::MAX, active: false }
}

/// A toplevel as first announced: no title, no application, on no
/// Workspace, inactive.
pub open spec fn announced_toplevel() -> ToplevelView {
    ToplevelView { title: Seq::empty(), app_id: Seq::empty(), workspace: None, active: false }
}

/// What an event does to the state, and whether the shell redraws after
/// it: announcements only record the new object; changes to an unknown
/// object are ignored; a closed toplevel is forgotten and always redrawn.
pub open spec fn spec_apply(v: ProtocolStateView, event: ShellEvent) -> (ProtocolStateView, bool) {
    match event {
        ShellEvent::Workspace { handle } => (
            ProtocolStateView { workspaces: v.workspaces.insert(handle, announced_workspace()), ..v },
            false,
        ),
        ShellEvent::WorkspacePosition { handle, position } => (
            ProtocolStateView {
                workspaces: modify(
                    v.workspaces,
                    handle,
                    |w: WorkspaceState| WorkspaceState { position, ..w },
                ),
                ..v
            },
            v.workspaces.contains_key(handle),
        ),
        ShellEvent::WorkspaceActive { handle, active } => (
            ProtocolStateView {
                workspaces: modify(
                    v.workspaces,
                    handle,
                    |w: WorkspaceState| WorkspaceState { active: active != 0, ..w },
                ),
                ..v
            },
            v.workspaces.contains_key(handle),
        ),
        ShellEvent::Toplevel { handle } => (
            ProtocolStateView { toplevels: v.toplevels.insert(handle, announced_toplevel()), ..v },
            false,
        ),
        ShellEvent::ToplevelTitle { handle, title } => (
            ProtocolStateView {
                toplevels: modify(
                    v.toplevels,
                    handle,
                    |t: ToplevelView| ToplevelView { title: title@, ..t },
                ),
                ..v
            },
            v.toplevels.contains_key(handle),
        ),
        ShellEvent::ToplevelAppId { handle, app_id } => (
            ProtocolStateView {
                toplevels: modify(
                    v.toplevels,
                    handle,
                    |t: ToplevelView| ToplevelView { app_id: app_id@, ..t },
                ),
                ..v
            },
            v.toplevels.contains_key(handle),
        ),
        ShellEvent::ToplevelWorkspace { handle, workspace } => (
            ProtocolStateView {
                toplevels: modify(
                    v.toplevels,
                    handle,
                    |t: ToplevelView| ToplevelView { workspace: Some(workspace), ..t },
                ),
                ..v
            },
            v.toplevels.contains_key(handle),
        ),
        ShellEvent::ToplevelActive { handle, active } => (
            ProtocolStateView {
                toplevels: modify(
                    v.toplevels,
                    handle,
                    |t: ToplevelView| ToplevelView { active: active != 0, ..t },
                ),
                ..v
            },
            v.toplevels.contains_key(handle),
        ),
        ShellEvent::ToplevelClosed { handle } => (
            ProtocolStateView { toplevels: v.toplevels.remove(handle), ..v },
            true,
        ),
    }
}

fn empty_toplevel() -> (t: ToplevelState)
    ensures
        t@ == announced_toplevel(),
{
    let t = ToplevelState { title: String::new(), app_id: String::new(), workspace: None, active: false };
    proof {
        assert(t@.title =~= Seq::<char>::empty());
        assert(t@.app_id =~= Seq::<char>::empty());
    }
    t
}

impl ProtocolState {
    /// Knows nothing yet.
    pub fn new() -> (state: Self)
        ensures
            state@.workspaces == Map::<u32, WorkspaceState>::empty(),
            state@.toplevels == Map::<u32, ToplevelView>::empty(),
    {
        let state = ProtocolState { workspaces: BTreeMap::new(), toplevels: BTreeMap::new() };
        proof {
            assert(state@.toplevels =~= Map::<u32, ToplevelView>::empty());
        }
        state
    }

    /// The known Workspaces.
    pub fn workspaces(&self) -> (workspaces: &BTreeMap<u32, WorkspaceState>)
        ensures
            workspaces@ == self@.workspaces,
    {
        &self.workspaces
    }

    /// The known toplevels.
    pub fn toplevels(&self) -> (toplevels: &BTreeMap<u32, ToplevelState>)
        ensures
            toplevel_map_view(toplevels@) == self@.toplevels,
    {
        &self.toplevels
    }

    /// Records a toplevel under `handle`.
    fn put_toplevel(&mut self, handle: u32, toplevel: ToplevelState)
        ensures
            final(self)@ == (ProtocolStateView {
                toplevels: old(self)@.toplevels.insert(handle, toplevel@),
                ..old(self)@
            }),
    {
        broadcast use vstd::std_specs::btree::group_btree_axioms, vstd::laws_cmp::group_laws_cmp;

        let ghost view = toplevel@;
        self.toplevels.insert(handle, toplevel);
        proof {
            assert(self@.toplevels =~= old(self)@.toplevels.insert(handle, view));
        }
    }

    /// Takes out the toplevel under `handle`, when there is one.
    fn take_toplevel(&mut self, handle: u32) -> (taken: Option<ToplevelState>)
        ensures
            old(self)@.toplevels.contains_key(handle) <==> taken is Some,
            taken matches Some(t) ==> t@ == old(self)@.toplevels[handle],
            final(self)@ == (ProtocolStateView {
                toplevels: old(self)@.toplevels.remove(handle),
                ..old(self)@
            }),
    {
        broadcast use vstd::std_specs::btree::group_btree_axioms, vstd::laws_cmp::group_laws_cmp;

        let taken = self.toplevels.remove(&handle);
        proof {
            assert(self@.toplevels =~= old(self)@.toplevels.remove(handle));
        }
        taken
    }

    /// Changes the Workspace under `handle`, when there is one, by `change`
    /// of its position and activity.
    fn change_workspace(&mut self, handle: u32, position: Option<u32>, active: Option<bool>) -> (found: bool)
        ensures
            found == old(self)@.workspaces.contains_key(handle),
            final(self)@ == (ProtocolStateView {
                workspaces: modify(
                    old(self)@.workspaces,
                    handle,
                    |w: WorkspaceState|
                        WorkspaceState {
                            position: match position {
                                Some(p) => p,
                                None => w.position,
                            },
                            active: match active {
                                Some(a) => a,
                                None => w.active,
                            },
                        },
                ),
                ..old(self)@
            }),
    {
        broadcast use vstd::std_specs::btree::group_btree_axioms, vstd::laws_cmp::group_laws_cmp;

        let current = match self.workspaces.get(&handle) {
            Some(w) => *w,
            None => {
                return false;
            },
        };
        let updated = WorkspaceState {
            position: match position {
                Some(p) => p,
                None => current.position,
            },
            active: match active {
                Some(a) => a,
                None => current.active,
            },
        };
        self.workspaces.insert(handle, updated);
        true
    }

    /// Applies a protocol event (see `spec_apply`); `true` when the shell
    /// redraws after it.
    pub fn apply(&mut self, event: ShellEvent) -> (redraw: bool)
        ensures
            (final(self)@, redraw) == spec_apply(old(self)@, event),
    {
        broadcast use vstd::std_specs::btree::group_btree_axioms, vstd::laws_cmp::group_laws_cmp;

        match event {
            ShellEvent::Workspace { handle } => {
                self.workspaces.insert(handle, WorkspaceState { position: u32::MAX, active: false });
                proof {
                    assert(self@.workspaces =~= spec_apply(old(self)@, event).0.workspaces);
                    assert(self@.toplevels =~= spec_apply(old(self)@, event).0.toplevels);
                }
                false
            },
            ShellEvent::WorkspacePosition { handle, position } => {
                let found = self.change_workspace(handle, Some(position), None);
                proof {
                    assert(self@.workspaces =~= spec_apply(old(self)@, event).0.workspaces);
                }
                found
            },
            ShellEvent::WorkspaceActive { handle, active } => {
                let found = self.change_workspace(handle, None, Some(active != 0));
                proof {
                    assert(self@.workspaces =~= spec_apply(old(self)@, event).0.workspaces);
                }
                found
            },
            ShellEvent::Toplevel { handle } => {
                self.put_toplevel(handle, empty_toplevel());
                false
            },
            ShellEvent::ToplevelTitle { handle, title } => match self.take_toplevel(handle) {
                Some(current) => {
                    self.put_toplevel(handle, ToplevelState { title, ..current });
                    proof {
                        assert(self@.toplevels =~= spec_apply(old(self)@, event).0.toplevels);
                    }
                    true
                },
                None => false,
            },
            ShellEvent::ToplevelAppId { handle, app_id } => match self.take_toplevel(handle) {
                Some(current) => {
                    self.put_toplevel(handle, ToplevelState { app_id, ..current });
                    proof {
                        assert(self@.toplevels =~= spec_apply(old(self)@, event).0.toplevels);
                    }
                    true
                },
                None => false,
            },
            ShellEvent::ToplevelWorkspace { handle, workspace } => match self.take_toplevel(
                handle,
            ) {
                Some(current) => {
                    self.put_toplevel(
                        handle,
                        ToplevelState { workspace: Some(workspace), ..current },
                    );
                    proof {
                        assert(self@.toplevels =~= spec_apply(old(self)@, event).0.toplevels);
                    }
                    true
                },
                None => false,
            },
            ShellEvent::ToplevelActive { handle, active } => match self.take_toplevel(handle) {
                Some(current) => {
                    self.put_toplevel(handle, ToplevelState { active: active != 0, ..current });
                    proof {
                        assert(self@.toplevels =~= spec_apply(old(self)@, event).0.toplevels);
                    }
                    true
                },
                None => false,
            },
            ShellEvent::ToplevelClosed { handle } => {
                let _ = self.take_toplevel(handle);
                proof {
                    assert(self@.toplevels =~= spec_apply(old(self)@, event).0.toplevels);
                }
                true
            },
        }
    }

    /// What the shell shows of the known Workspaces (see
    /// `build_presentations`).
    pub fn presentations(&self, catalog: &ApplicationCatalog) -> (presentations: Vec<
        WorkspacePresentation,
    >)
        requires
            self@.toplevels.dom().len() <= u32::MAX,
        ensures
            presentations@.len() == entries_of(self@.workspaces).len(),
            forall|i: int|
                0 <= i < entries_of(self@.workspaces).len() ==> (#[trigger] presentations@[i])@
                    == spec_presentation(
                    entries_of(self@.workspaces)[i].0,
                    entries_of(self@.workspaces)[i].1,
                    entries_of(self@.toplevels),
                    catalog@,
                ),
    {
        proof {
            assert(self.toplevels@.dom() =~= self@.toplevels.dom());
        }
        build_presentations(&self.workspaces, &self.toplevels, catalog)
    }
}

/// A closed toplevel is forgotten and every other object stays as it was.
pub proof fn law_closed_toplevel_is_forgotten(v: ProtocolStateView, handle: u32, other: u32)
    ensures
        ({
            let (after, redraw) = spec_apply(v, ShellEvent::ToplevelClosed { handle });
            &&& redraw
            &&& !after.toplevels.contains_key(handle)
            &&& after.workspaces == v.workspaces
            &&& other != handle ==> after.toplevels.contains_key(other)
                == v.toplevels.contains_key(other)
            &&& other != handle && v.toplevels.contains_key(other) ==> after.toplevels[other]
                == v.toplevels[other]
        }),
{
}

/// Announcing an object records it as first announced without a redraw;
/// every other object stays as it was.
pub proof fn law_announcement_records_the_object(v: ProtocolStateView, handle: u32, other: u32)
    ensures
        ({
            let (after, redraw) = spec_apply(v, ShellEvent::Workspace { handle });
            &&& !redraw
            &&& after.workspaces[handle] == announced_workspace()
            &&& other != handle ==> after.workspaces.contains_key(other)
                == v.workspaces.contains_key(other) && after.workspaces[other]
                == v.workspaces[other]
            &&& after.toplevels == v.toplevels
        }),
        ({
            let (after, redraw) = spec_apply(v, ShellEvent::Toplevel { handle });
            &&& !redraw
            &&& after.toplevels[handle] == announced_toplevel()
            &&& other != handle ==> after.toplevels.contains_key(other)
                == v.toplevels.contains_key(other) && after.toplevels[other] == v.toplevels[other]
            &&& after.workspaces == v.workspaces
        }),
{
}

/// A change to an object the shell does not know changes nothing and is
/// not redrawn.
pub proof fn law_changes_to_unknown_objects_are_ignored(v: ProtocolStateView, event: ShellEvent)
    requires
        match event {
            ShellEvent::WorkspacePosition { handle, .. } => !v.workspaces.contains_key(handle),
            ShellEvent::WorkspaceActive { handle, .. } => !v.workspaces.contains_key(handle),
            ShellEvent::ToplevelTitle { handle, .. } => !v.toplevels.contains_key(handle),
            ShellEvent::ToplevelAppId { handle, .. } => !v.toplevels.contains_key(handle),
            ShellEvent::ToplevelWorkspace { handle, .. } => !v.toplevels.contains_key(handle),
            ShellEvent::ToplevelActive { handle, .. } => !v.toplevels.contains_key(handle),
            _ => false,
        },
    ensures
        spec_apply(v, event) == (v, false),
{
}

} // verus!
