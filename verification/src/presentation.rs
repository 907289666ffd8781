//! What the shell shows of the session: for each Workspace, its windows and
//! its applications (windows grouped by application identity), labelled
//! from the application catalog where it knows the application.
//!
//! Icons are held by the shell; here an icon is the number under which the
//! shell keeps it.

use std::collections::BTreeMap;
use vstd::prelude::*;

use crate::chrome::{trimmed, trimmed_text};
use crate::entries::{entries_of, toplevel_entries, workspace_entries};
use crate::text::{
    append_str, char_count, char_prefix, copy_str, last_segment, push_char, same_text,
    lemma_text_less_order, text_before, text_less,
};

verus! {

/// What the catalog knows of an application.
#[derive(Debug)]
pub struct ApplicationMetadata {
    pub display_name: String,
    pub icon: Option<usize>,
}

pub struct MetadataView {
    pub display_name: Seq<char>,
    pub icon: Option<usize>,
}

impl View for ApplicationMetadata {
    type V = MetadataView;

    open spec fn view(&self) -> MetadataView {
        MetadataView { display_name: self.display_name@, icon: self.icon }
    }
}

/// Installed applications by identity: each desktop entry is known by its
/// desktop identity and, without its `.desktop` suffix, by its application
/// identity. The first entry recorded for an identity is kept.
pub struct ApplicationCatalog {
    entries: Vec<(String, ApplicationMetadata)>,
}

pub open spec fn entry_views(entries: Seq<(String, ApplicationMetadata)>) -> Seq<
    (Seq<char>, MetadataView),
> {
    entries.map_values(|e: (String, ApplicationMetadata)| (e.0@, e.1@))
}

impl View for ApplicationCatalog {
    type V = Seq<(Seq<char>, MetadataView)>;

    closed spec fn view(&self) -> Seq<(Seq<char>, MetadataView)> {
        entry_views(self.entries@)
    }
}

/// The metadata recorded first for `identity`.
pub open spec fn catalog_lookup(entries: Seq<(Seq<char>, MetadataView)>, identity: Seq<char>) -> Option<
    MetadataView,
>
    decreases entries.len(),
{
    if entries.len() == 0 {
        None
    } else if entries[0].0 == identity {
        Some(entries[0].1)
    } else {
        catalog_lookup(entries.drop_first(), identity)
    }
}

/// Records `metadata` under `identity` unless the catalog knows it already.
pub open spec fn catalog_add(
    entries: Seq<(Seq<char>, MetadataView)>,
    identity: Seq<char>,
    metadata: MetadataView,
) -> Seq<(Seq<char>, MetadataView)> {
    if catalog_lookup(entries, identity) is Some {
        entries
    } else {
        entries.push((identity, metadata))
    }
}

/// `s` without the suffix `suffix`, when it ends with it.
pub open spec fn strip_suffix(s: Seq<char>, suffix: Seq<char>) -> Option<Seq<char>> {
    if s.len() >= suffix.len() && s.subrange(s.len() - suffix.len(), s.len() as int) == suffix {
        Some(s.subrange(0, s.len() - suffix.len()))
    } else {
        None
    }
}

proof fn lemma_lookup_from(entries: Seq<(Seq<char>, MetadataView)>, identity: Seq<char>, i: int)
    requires
        0 <= i <= entries.len(),
        forall|j: int| 0 <= j < i ==> entries[j].0 != identity,
    ensures
        catalog_lookup(entries, identity) == catalog_lookup(entries.skip(i), identity),
    decreases i,
{
    if i > 0 {
        assert(entries.drop_first().skip(i - 1) =~= entries.skip(i));
        lemma_lookup_from(entries.drop_first(), identity, i - 1);
    } else {
        assert(entries.skip(0) =~= entries);
    }
}

fn copy_metadata(metadata: &ApplicationMetadata) -> (copy: ApplicationMetadata)
    ensures
        copy@ == metadata@,
{
    ApplicationMetadata { display_name: copy_str(metadata.display_name.as_str()), icon: metadata.icon }
}

impl ApplicationCatalog {
    /// A catalog that knows no application.
    pub fn empty() -> (catalog: Self)
        ensures
            catalog@ == Seq::<(Seq<char>, MetadataView)>::empty(),
    {
        let catalog = ApplicationCatalog { entries: Vec::new() };
        proof {
            assert(catalog@ =~= Seq::<(Seq<char>, MetadataView)>::empty());
        }
        catalog
    }

    /// The metadata recorded for `app_id`.
    pub fn resolve(&self, app_id: &str) -> (metadata: Option<&ApplicationMetadata>)
        ensures
            match metadata {
                Some(m) => catalog_lookup(self@, app_id@) == Some(m@),
                None => catalog_lookup(self@, app_id@) is None,
            },
    {
        let mut i: usize = 0;
        while i < self.entries.len()
            invariant
                0 <= i <= self.entries@.len(),
                self@.len() == self.entries@.len(),
                forall|j: int| 0 <= j < i ==> self@[j].0 != app_id@,
            decreases self.entries@.len() - i,
        {
            if same_text(self.entries[i].0.as_str(), app_id) {
                proof {
                    lemma_lookup_from(self@, app_id@, i as int);
                    assert(self@.skip(i as int)[0] == self@[i as int]);
                }
                return Some(&self.entries[i].1);
            }
            i += 1;
        }
        proof {
            lemma_lookup_from(self@, app_id@, i as int);
        }
        None
    }

    fn record(&mut self, identity: &str, metadata: &ApplicationMetadata)
        ensures
            final(self)@ == catalog_add(old(self)@, identity@, metadata@),
    {
        if self.resolve(identity).is_none() {
            let entry = (copy_str(identity), copy_metadata(metadata));
            let ghost before = self@;
            self.entries.push(entry);
            proof {
                assert(self@ =~= before.push((identity@, metadata@)));
            }
        }
    }

    /// Records an installed application under its desktop identity and,
    /// when that ends with `.desktop`, under the identity without it.
    pub fn add_application(&mut self, desktop_id: &str, metadata: ApplicationMetadata)
        ensures
            final(self)@ == match strip_suffix(desktop_id@, ".desktop"@) {
                Some(app_id) => catalog_add(
                    catalog_add(old(self)@, desktop_id@, metadata@),
                    app_id,
                    metadata@,
                ),
                None => catalog_add(old(self)@, desktop_id@, metadata@),
            },
    {
        self.record(desktop_id, &metadata);
        let suffix = ".desktop";
        proof {
            reveal_strlit(".desktop");
        }
        let n = char_count(desktop_id);
        if n >= 8 {
            let stem = char_prefix(desktop_id, n - 8);
            let tail = crate::text::char_suffix(desktop_id, n - 8);
            if same_text(tail.as_str(), suffix) {
                proof {
                    assert(stem@ =~= desktop_id@.subrange(0, desktop_id@.len() - 8));
                }
                self.record(stem.as_str(), &metadata);
            }
        }
    }
}

/// The last `.`-separated component of an application identity.
pub fn fallback_application_name(identity: &str) -> (name: String)
    ensures
        name@ == last_segment(identity@, '.'),
{
    crate::text::after_last(identity, '.')
}

/// The longest label shown for an application.
pub const COMPACT_LABEL_CHARS: usize = 10;

pub open spec fn compact_label(name: Seq<char>) -> Seq<char> {
    if name.len() <= COMPACT_LABEL_CHARS {
        name
    } else {
        name.take(COMPACT_LABEL_CHARS as int).push('…')
    }
}

/// A name cut to its first ten characters, followed by an ellipsis when
/// anything was cut.
pub fn compact_application_label(display_name: &str) -> (label: String)
    ensures
        label@ == compact_label(display_name@),
{
    let count = char_count(display_name);
    let mut label = char_prefix(display_name, COMPACT_LABEL_CHARS);
    if count > COMPACT_LABEL_CHARS {
        push_char(&mut label, '…');
    } else {
        proof {
            assert(display_name@.take(display_name@.len() as int) =~= display_name@);
        }
    }
    label
}

/// What the shell knows of a Workspace.
#[derive(Clone, Copy, Debug, PartialEq, Eq, Structural)]
pub struct WorkspaceState {
    pub position: u32,
    pub active: bool,
}

impl Default for WorkspaceState {
    fn default() -> (state: Self)
        ensures
            state == (WorkspaceState { position: 0, active: false }),
    {
        WorkspaceState { position: 0, active: false }
    }
}

/// What the shell knows of a toplevel window.
#[derive(Debug)]
pub struct ToplevelState {
    pub title: String,
    pub app_id: String,
    pub workspace: Option<u32>,
    pub active: bool,
}

impl Default for ToplevelState {
    fn default() -> (state: Self)
        ensures
            state.title@ == Seq::<char>::empty(),
            state.app_id@ == Seq::<char>::empty(),
            state.workspace is None,
            !state.active,
    {
        ToplevelState { title: String::new(), app_id: String::new(), workspace: None, active: false }
    }
}

pub struct ToplevelView {
    pub title: Seq<char>,
    pub app_id: Seq<char>,
    pub workspace: Option<u32>,
    pub active: bool,
}

impl View for ToplevelState {
    type V = ToplevelView;

    open spec fn view(&self) -> ToplevelView {
        ToplevelView {
            title: self.title@,
            app_id: self.app_id@,
            workspace: self.workspace,
            active: self.active,
        }
    }
}

pub open spec fn toplevel_views(toplevels: Seq<(u32, ToplevelState)>) -> Seq<(u32, ToplevelView)> {
    toplevels.map_values(|e: (u32, ToplevelState)| (e.0, e.1@))
}

/// One window as the shell lists it.
#[derive(Debug)]
pub struct WindowPresentation {
    pub activation_handle: u32,
    pub title: String,
    pub application_label: String,
    pub icon: Option<usize>,
    pub active: bool,
    pub resolved: bool,
}

/// One application (its windows on a Workspace) as the shell lists it.
#[derive(Debug)]
pub struct ApplicationPresentation {
    pub activation_handle: u32,
    pub label: String,
    pub tooltip: String,
    pub icon: Option<usize>,
    pub count: u32,
    pub active: bool,
    pub resolved: bool,
}

/// One Workspace as the shell shows it.
#[derive(Debug)]
pub struct WorkspacePresentation {
    pub handle: u32,
    pub position: u32,
    pub active: bool,
    pub applications: Vec<ApplicationPresentation>,
    pub windows: Vec<WindowPresentation>,
}

pub struct WindowView {
    pub activation_handle: u32,
    pub title: Seq<char>,
    pub application_label: Seq<char>,
    pub icon: Option<usize>,
    pub active: bool,
    pub resolved: bool,
}

pub struct ApplicationView {
    pub activation_handle: u32,
    pub label: Seq<char>,
    pub tooltip: Seq<char>,
    pub icon: Option<usize>,
    pub count: nat,
    pub active: bool,
    pub resolved: bool,
}

pub struct WorkspacePresentationView {
    pub handle: u32,
    pub position: u32,
    pub active: bool,
    pub applications: Seq<ApplicationView>,
    pub windows: Seq<WindowView>,
}

pub open spec fn window_views(windows: Seq<WindowPresentation>) -> Seq<WindowView> {
    windows.map_values(|w: WindowPresentation| w@)
}

pub open spec fn application_views(applications: Seq<ApplicationPresentation>) -> Seq<
    ApplicationView,
> {
    applications.map_values(|a: ApplicationPresentation| a@)
}

impl View for WindowPresentation {
    type V = WindowView;

    open spec fn view(&self) -> WindowView {
        WindowView {
            activation_handle: self.activation_handle,
            title: self.title@,
            application_label: self.application_label@,
            icon: self.icon,
            active: self.active,
            resolved: self.resolved,
        }
    }
}

impl View for ApplicationPresentation {
    type V = ApplicationView;

    open spec fn view(&self) -> ApplicationView {
        ApplicationView {
            activation_handle: self.activation_handle,
            label: self.label@,
            tooltip: self.tooltip@,
            icon: self.icon,
            count: self.count as nat,
            active: self.active,
            resolved: self.resolved,
        }
    }
}

impl View for WorkspacePresentation {
    type V = WorkspacePresentationView;

    open spec fn view(&self) -> WorkspacePresentationView {
        WorkspacePresentationView {
            handle: self.handle,
            position: self.position,
            active: self.active,
            applications: application_views(self.applications@),
            windows: window_views(self.windows@),
        }
    }
}

pub open spec fn has_app_id(t: ToplevelView) -> bool {
    t.app_id.len() > 0
}

/// What identifies a window's application: its application identity, else
/// its title, else `Window`.
pub open spec fn identity_of(t: ToplevelView) -> Seq<char> {
    let raw = if has_app_id(t) {
        t.app_id
    } else {
        t.title
    };
    if raw.len() == 0 {
        "Window"@
    } else {
        raw
    }
}

/// The catalog is asked only for windows that name an application.
pub open spec fn known_metadata(
    catalog: Seq<(Seq<char>, MetadataView)>,
    identity: Seq<char>,
    named: bool,
) -> Option<MetadataView> {
    if named {
        catalog_lookup(catalog, identity)
    } else {
        None
    }
}

/// The catalog's name for the application, else the last component of its
/// identity.
pub open spec fn display_name_of(metadata: Option<MetadataView>, identity: Seq<char>) -> Seq<char> {
    match metadata {
        Some(m) => m.display_name,
        None => last_segment(identity, '.'),
    }
}

pub open spec fn icon_of(metadata: Option<MetadataView>) -> Option<usize> {
    match metadata {
        Some(m) => m.icon,
        None => None,
    }
}

pub open spec fn spec_window(
    handle: u32,
    t: ToplevelView,
    catalog: Seq<(Seq<char>, MetadataView)>,
) -> WindowView {
    let identity = identity_of(t);
    let metadata = known_metadata(catalog, identity, has_app_id(t));
    let label = display_name_of(metadata, identity);
    WindowView {
        activation_handle: handle,
        title: if t.title.len() == 0 {
            label
        } else {
            t.title
        },
        application_label: label,
        icon: icon_of(metadata),
        active: t.active,
        resolved: metadata is Some,
    }
}

/// The windows of one application on a Workspace: how many, whether one is
/// active, whether one names the application, and the window that
/// activating the application raises (the last active one, else the
/// first).
pub struct GroupView {
    pub identity: Seq<char>,
    pub count: nat,
    pub active: bool,
    pub has_app_id: bool,
    pub activation_handle: u32,
}

/// The position of the first group whose identity does not sort before
/// `identity`.
pub open spec fn group_slot(groups: Seq<GroupView>, identity: Seq<char>) -> int
    decreases groups.len(),
{
    if groups.len() == 0 || !text_less(groups[0].identity, identity) {
        0
    } else {
        1 + group_slot(groups.drop_first(), identity)
    }
}

/// Adds one window to the groups, which are kept in the order of their
/// identities.
pub open spec fn add_member(groups: Seq<GroupView>, handle: u32, t: ToplevelView) -> Seq<
    GroupView,
> {
    let identity = identity_of(t);
    let k = group_slot(groups, identity);
    if k < groups.len() && groups[k].identity == identity {
        let g = groups[k];
        groups.update(
            k,
            GroupView {
                identity,
                count: g.count + 1,
                active: g.active || t.active,
                has_app_id: g.has_app_id || has_app_id(t),
                activation_handle: if t.active {
                    handle
                } else {
                    g.activation_handle
                },
            },
        )
    } else {
        groups.insert(
            k,
            GroupView {
                identity,
                count: 1,
                active: t.active,
                has_app_id: has_app_id(t),
                activation_handle: handle,
            },
        )
    }
}

/// The application groups of windows listed in order.
pub open spec fn groups_of(members: Seq<(u32, ToplevelView)>) -> Seq<GroupView>
    decreases members.len(),
{
    if members.len() == 0 {
        Seq::empty()
    } else {
        add_member(groups_of(members.drop_last()), members.last().0, members.last().1)
    }
}

pub open spec fn spec_application(
    g: GroupView,
    catalog: Seq<(Seq<char>, MetadataView)>,
) -> ApplicationView {
    let metadata = known_metadata(catalog, g.identity, g.has_app_id);
    let name = display_name_of(metadata, g.identity);
    ApplicationView {
        activation_handle: g.activation_handle,
        label: compact_label(name),
        tooltip: if metadata is Some {
            name + " ("@ + g.identity + seq![')']
        } else {
            g.identity
        },
        icon: icon_of(metadata),
        count: g.count,
        active: g.active,
        resolved: metadata is Some,
    }
}

pub open spec fn on_workspace(handle: u32) -> spec_fn((u32, ToplevelView)) -> bool {
    |e: (u32, ToplevelView)| e.1.workspace == Some(handle)
}

/// The toplevels on Workspace `handle`, in order.
pub open spec fn members_of(toplevels: Seq<(u32, ToplevelView)>, handle: u32) -> Seq<
    (u32, ToplevelView),
> {
    toplevels.filter(on_workspace(handle))
}

/// The windows of `members`, in order.
pub open spec fn member_windows(
    members: Seq<(u32, ToplevelView)>,
    catalog: Seq<(Seq<char>, MetadataView)>,
) -> Seq<WindowView> {
    members.map_values(|e: (u32, ToplevelView)| spec_window(e.0, e.1, catalog))
}

/// The applications of `groups`, in order.
pub open spec fn group_applications(
    groups: Seq<GroupView>,
    catalog: Seq<(Seq<char>, MetadataView)>,
) -> Seq<ApplicationView> {
    groups.map_values(|g: GroupView| spec_application(g, catalog))
}

pub open spec fn spec_presentation(
    handle: u32,
    workspace: WorkspaceState,
    toplevels: Seq<(u32, ToplevelView)>,
    catalog: Seq<(Seq<char>, MetadataView)>,
) -> WorkspacePresentationView {
    let members = members_of(toplevels, handle);
    WorkspacePresentationView {
        handle,
        position: workspace.position,
        active: workspace.active,
        applications: group_applications(groups_of(members), catalog),
        windows: member_windows(members, catalog),
    }
}

/// The windows of one application, while they are being collected.
struct Group {
    identity: String,
    count: u32,
    active: bool,
    has_app_id: bool,
    activation_handle: u32,
}

impl View for Group {
    type V = GroupView;

    closed spec fn view(&self) -> GroupView {
        GroupView {
            identity: self.identity@,
            count: self.count as nat,
            active: self.active,
            has_app_id: self.has_app_id,
            activation_handle: self.activation_handle,
        }
    }
}

spec fn group_views(groups: Seq<Group>) -> Seq<GroupView> {
    groups.map_values(|g: Group| g@)
}

proof fn lemma_group_slot_from(groups: Seq<GroupView>, identity: Seq<char>, k: int)
    requires
        0 <= k <= groups.len(),
        forall|j: int| 0 <= j < k ==> text_less(groups[j].identity, identity),
    ensures
        group_slot(groups, identity) == k + group_slot(groups.skip(k), identity),
    decreases k,
{
    if k > 0 {
        assert(groups.drop_first().skip(k - 1) =~= groups.skip(k));
        lemma_group_slot_from(groups.drop_first(), identity, k - 1);
    } else {
        assert(groups.skip(0) =~= groups);
    }
}

fn is_empty_text(s: &str) -> (empty: bool)
    ensures
        empty == (s@.len() == 0),
{
    char_count(s) == 0
}

/// The identity that groups a window with others of its application.
fn window_identity(t: &ToplevelState) -> (identity: String)
    ensures
        identity@ == identity_of(t@),
{
    let raw = if !is_empty_text(t.app_id.as_str()) {
        t.app_id.as_str()
    } else {
        t.title.as_str()
    };
    if is_empty_text(raw) {
        "Window".to_owned()
    } else {
        copy_str(raw)
    }
}

fn metadata_for<'a>(catalog: &'a ApplicationCatalog, identity: &str, named: bool) -> (metadata:
    Option<&'a ApplicationMetadata>)
    ensures
        match metadata {
            Some(m) => known_metadata(catalog@, identity@, named) == Some(m@),
            None => known_metadata(catalog@, identity@, named) is None,
        },
{
    if named {
        catalog.resolve(identity)
    } else {
        None
    }
}

fn display_name(metadata: Option<&ApplicationMetadata>, identity: &str) -> (name: String)
    ensures
        name@ == display_name_of(
            match metadata {
                Some(m) => Some(m@),
                None => None,
            },
            identity@,
        ),
{
    match metadata {
        Some(m) => copy_str(m.display_name.as_str()),
        None => fallback_application_name(identity),
    }
}

fn window_presentation(
    handle: u32,
    t: &ToplevelState,
    identity: &String,
    catalog: &ApplicationCatalog,
) -> (window: WindowPresentation)
    requires
        identity@ == identity_of(t@),
    ensures
        window@ == spec_window(handle, t@, catalog@),
{
    let named = !is_empty_text(t.app_id.as_str());
    let metadata = metadata_for(catalog, identity.as_str(), named);
    let label = display_name(metadata, identity.as_str());
    let icon = match metadata {
        Some(m) => m.icon,
        None => None,
    };
    let title = if is_empty_text(t.title.as_str()) {
        copy_str(label.as_str())
    } else {
        copy_str(t.title.as_str())
    };
    WindowPresentation {
        activation_handle: handle,
        title,
        application_label: label,
        icon,
        active: t.active,
        resolved: metadata.is_some(),
    }
}

fn application_presentation(g: &Group, catalog: &ApplicationCatalog) -> (application:
    ApplicationPresentation)
    ensures
        application@ == spec_application(g@, catalog@),
{
    let metadata = metadata_for(catalog, g.identity.as_str(), g.has_app_id);
    let name = display_name(metadata, g.identity.as_str());
    let label = compact_application_label(name.as_str());
    let tooltip = if metadata.is_some() {
        let mut tooltip = copy_str(name.as_str());
        let opening = " (";
        proof {
            reveal_strlit(" (");
        }
        append_str(&mut tooltip, opening);
        append_str(&mut tooltip, g.identity.as_str());
        let ghost before_close = tooltip@;
        push_char(&mut tooltip, ')');
        proof {
            assert(tooltip@ =~= before_close + seq![')']);
        }
        tooltip
    } else {
        copy_str(g.identity.as_str())
    };
    let icon = match metadata {
        Some(m) => m.icon,
        None => None,
    };
    ApplicationPresentation {
        activation_handle: g.activation_handle,
        label,
        tooltip,
        icon,
        count: g.count,
        active: g.active,
        resolved: metadata.is_some(),
    }
}

fn add_to_groups(groups: &mut Vec<Group>, handle: u32, t: &ToplevelState, identity: String)
    requires
        identity@ == identity_of(t@),
        forall|i: int| 0 <= i < old(groups)@.len() ==> (#[trigger] old(groups)@[i]).count < u32::MAX,
    ensures
        group_views(final(groups)@) == add_member(group_views(old(groups)@), handle, t@),
        final(groups)@.len() >= old(groups)@.len(),
        forall|i: int|
            0 <= i < final(groups)@.len() ==> (#[trigger] final(groups)@[i]).count <= 1 || exists|
                j: int,
            |
                0 <= j < old(groups)@.len() && final(groups)@[i].count <= old(groups)@[j].count
                    + 1,
{
    let ghost before = group_views(groups@);
    let mut k: usize = 0;
    loop
        invariant
            0 <= k <= groups@.len(),
            group_views(groups@) == before,
            forall|j: int| 0 <= j < k ==> text_less(before[j].identity, identity@),
        ensures
            0 <= k <= groups@.len(),
            group_views(groups@) == before,
            forall|j: int| 0 <= j < k ==> text_less(before[j].identity, identity@),
            k == groups@.len() || !text_less(before[k as int].identity, identity@),
        decreases groups@.len() - k,
    {
        if k >= groups.len() {
            break;
        }
        if !text_before(groups[k].identity.as_str(), identity.as_str()) {
            break;
        }
        k += 1;
    }
    proof {
        lemma_group_slot_from(before, identity@, k as int);
        if (k as int) < before.len() {
            assert(before.skip(k as int)[0] == before[k as int]);
        } else {
            assert(before.skip(k as int).len() == 0);
        }
        assert(group_slot(before, identity@) == k);
    }
    if k < groups.len() && same_text(groups[k].identity.as_str(), identity.as_str()) {
        let g = groups.remove(k);
        let updated = Group {
            identity,
            count: g.count + 1,
            active: g.active || t.active,
            has_app_id: g.has_app_id || !is_empty_text(t.app_id.as_str()),
            activation_handle: if t.active {
                handle
            } else {
                g.activation_handle
            },
        };
        groups.insert(k, updated);
        proof {
            assert(group_views(groups@) =~= before.update(k as int, updated@));
            assert forall|i: int| 0 <= i < groups@.len() implies (#[trigger] groups@[i]).count <= 1
                || exists|j: int|
                0 <= j < old(groups)@.len() && groups@[i].count <= old(groups)@[j].count + 1 by {
                if i == k {
                    assert(groups@[i].count <= old(groups)@[i].count + 1);
                } else {
                    assert(groups@[i] == old(groups)@[i]);
                    assert(groups@[i].count <= old(groups)@[i].count + 1);
                }
            }
        }
    } else {
        let added = Group {
            identity,
            count: 1,
            active: t.active,
            has_app_id: !is_empty_text(t.app_id.as_str()),
            activation_handle: handle,
        };
        groups.insert(k, added);
        proof {
            assert(group_views(groups@) =~= before.insert(k as int, added@));
            assert forall|i: int| 0 <= i < groups@.len() implies (#[trigger] groups@[i]).count <= 1
                || exists|j: int|
                0 <= j < old(groups)@.len() && groups@[i].count <= old(groups)@[j].count + 1 by {
                if i < k {
                    assert(groups@[i] == old(groups)@[i]);
                    assert(groups@[i].count <= old(groups)@[i].count + 1);
                } else if i > k {
                    assert(groups@[i] == old(groups)@[i - 1]);
                    assert(groups@[i].count <= old(groups)@[i - 1].count + 1);
                }
            }
        }
    }
}

fn workspace_presentation(
    handle: u32,
    workspace: WorkspaceState,
    toplevels: &[(u32, ToplevelState)],
    catalog: &ApplicationCatalog,
) -> (presentation: WorkspacePresentation)
    requires
        toplevels@.len() <= u32::MAX,
    ensures
        presentation@ == spec_presentation(handle, workspace, toplevel_views(toplevels@), catalog@),
{
    let mut groups: Vec<Group> = Vec::new();
    let mut windows: Vec<WindowPresentation> = Vec::new();
    let mut j: usize = 0;
    while j < toplevels.len()
        invariant
            0 <= j <= toplevels@.len(),
            toplevels@.len() <= u32::MAX,
            window_views(windows@) == member_windows(
                members_of(toplevel_views(toplevels@).take(j as int), handle),
                catalog@,
            ),
            group_views(groups@) == groups_of(members_of(toplevel_views(toplevels@).take(j as int), handle)),
            forall|i: int| 0 <= i < groups@.len() ==> (#[trigger] groups@[i]).count <= j,
        decreases toplevels@.len() - j,
    {
        let ghost members = members_of(toplevel_views(toplevels@).take(j as int), handle);
        let entry = &toplevels[j];
        proof {
            reveal_with_fuel(Seq::<_>::filter, 1);
            let views = toplevel_views(toplevels@);
            assert(views.take(j + 1).drop_last() =~= views.take(j as int));
            assert(views.take(j + 1).last() == views[j as int]);
            assert(views[j as int] == (toplevels@[j as int].0, toplevels@[j as int].1@));
        }
        let on = match entry.1.workspace {
            Some(w) => w == handle,
            None => false,
        };
        if on {
            let identity = window_identity(&entry.1);
            let window = window_presentation(entry.0, &entry.1, &identity, catalog);
            let ghost windows_before = windows@;
            windows.push(window);
            proof {
                let e = toplevel_views(toplevels@)[j as int];
                assert(members_of(toplevel_views(toplevels@).take(j + 1), handle) == members.push(e));
                assert(window_views(windows_before) == member_windows(members, catalog@));
                assert(window_views(windows_before).len() == windows_before.len());
                assert(member_windows(members, catalog@).len() == members.len());
                assert forall|i: int| 0 <= i < windows_before.len() implies windows_before[i]@
                    == spec_window(members[i].0, members[i].1, catalog@) by {
                    assert(window_views(windows_before)[i] == windows_before[i]@);
                    assert(member_windows(members, catalog@)[i] == spec_window(
                        members[i].0,
                        members[i].1,
                        catalog@,
                    ));
                }
                assert(window_views(windows@) =~= member_windows(members.push(e), catalog@));
                assert(members.push(e).drop_last() =~= members);
            }
            let ghost groups_before = groups@;
            add_to_groups(&mut groups, entry.0, &entry.1, identity);
            proof {
                assert forall|i: int| 0 <= i < groups@.len() implies (#[trigger] groups@[i]).count
                    <= j + 1 by {
                    if groups@[i].count > 1 {
                        let k = choose|k: int|
                            0 <= k < groups_before.len() && groups@[i].count
                                <= groups_before[k].count + 1;
                        assert(groups_before[k].count <= j);
                    }
                }
            }
        }
        j += 1;
    }
    proof {
        assert(toplevel_views(toplevels@).take(toplevels@.len() as int) =~= toplevel_views(
            toplevels@,
        ));
    }
    let ghost members = members_of(toplevel_views(toplevels@), handle);
    let mut applications: Vec<ApplicationPresentation> = Vec::new();
    let mut i: usize = 0;
    while i < groups.len()
        invariant
            0 <= i <= groups@.len(),
            group_views(groups@) == groups_of(members),
            applications@.len() == i,
            forall|k: int|
                0 <= k < i ==> (#[trigger] applications@[k])@ == spec_application(
                    groups@[k]@,
                    catalog@,
                ),
        decreases groups@.len() - i,
    {
        let application = application_presentation(&groups[i], catalog);
        applications.push(application);
        i += 1;
    }
    let presentation = WorkspacePresentation {
        handle,
        position: workspace.position,
        active: workspace.active,
        applications,
        windows,
    };
    proof {
        assert(presentation@.applications =~= group_applications(groups_of(members), catalog@));
    }
    presentation
}

/// The views of the toplevels a map holds.
pub open spec fn toplevel_map_view(m: Map<u32, ToplevelState>) -> Map<u32, ToplevelView> {
    m.map_values(|t: ToplevelState| t@)
}

/// What the shell shows of each Workspace, in increasing order of handle:
/// its windows in increasing order of toplevel handle, and its applications
/// (its windows grouped by identity) in the order of their identities.
pub fn build_presentations(
    workspaces: &BTreeMap<u32, WorkspaceState>,
    toplevels: &BTreeMap<u32, ToplevelState>,
    catalog: &ApplicationCatalog,
) -> (presentations: Vec<WorkspacePresentation>)
    requires
        toplevels@.dom().len() <= u32::MAX,
    ensures
        presentations@.len() == entries_of(workspaces@).len(),
        forall|i: int|
            0 <= i < entries_of(workspaces@).len() ==> (#[trigger] presentations@[i])@
                == spec_presentation(
                entries_of(workspaces@)[i].0,
                entries_of(workspaces@)[i].1,
                entries_of(toplevel_map_view(toplevels@)),
                catalog@,
            ),
{
    let workspaces = workspace_entries(workspaces);
    let toplevels = toplevel_entries(toplevels);
    let mut presentations: Vec<WorkspacePresentation> = Vec::new();
    let mut i: usize = 0;
    while i < workspaces.len()
        invariant
            0 <= i <= workspaces@.len(),
            toplevels@.len() <= u32::MAX,
            presentations@.len() == i,
            forall|k: int|
                0 <= k < i ==> (#[trigger] presentations@[k])@ == spec_presentation(
                    workspaces@[k].0,
                    workspaces@[k].1,
                    toplevel_views(toplevels@),
                    catalog@,
                ),
        decreases workspaces@.len() - i,
    {
        let entry = &workspaces[i];
        let presentation = workspace_presentation(entry.0, entry.1, toplevels.as_slice(), catalog);
        presentations.push(presentation);
        i += 1;
    }
    presentations
}

/// The groups are in strictly increasing order of identity.
pub open spec fn identities_sorted(groups: Seq<GroupView>) -> bool {
    forall|i: int, j: int|
        0 <= i < j < groups.len() ==> text_less(groups[i].identity, groups[j].identity)
}

pub open spec fn with_identity(identity: Seq<char>) -> spec_fn((u32, ToplevelView)) -> bool {
    |e: (u32, ToplevelView)| identity_of(e.1) == identity
}

/// How many of `members` have application identity `identity`.
pub open spec fn count_in(members: Seq<(u32, ToplevelView)>, identity: Seq<char>) -> nat {
    members.filter(with_identity(identity)).len()
}

proof fn lemma_group_slot_bounds(groups: Seq<GroupView>, identity: Seq<char>)
    requires
        identities_sorted(groups),
    ensures
        0 <= group_slot(groups, identity) <= groups.len(),
        forall|j: int|
            0 <= j < group_slot(groups, identity) ==> text_less(groups[j].identity, identity),
        group_slot(groups, identity) < groups.len() ==> !text_less(
            groups[group_slot(groups, identity)].identity,
            identity,
        ),
    decreases groups.len(),
{
    if groups.len() > 0 && text_less(groups[0].identity, identity) {
        let rest = groups.drop_first();
        assert forall|i: int, j: int| 0 <= i < j < rest.len() implies text_less(
            rest[i].identity,
            rest[j].identity,
        ) by {
            assert(rest[i] == groups[i + 1]);
            assert(rest[j] == groups[j + 1]);
        }
        lemma_group_slot_bounds(rest, identity);
        assert forall|j: int| 0 <= j < group_slot(groups, identity) implies text_less(
            groups[j].identity,
            identity,
        ) by {
            if j > 0 {
                assert(groups[j] == rest[j - 1]);
            }
        }
    }
}

/// Adding a window keeps the groups in order, gives its identity a group,
/// and counts it there.
proof fn lemma_add_member(
    groups: Seq<GroupView>,
    members: Seq<(u32, ToplevelView)>,
    handle: u32,
    t: ToplevelView,
)
    requires
        identities_sorted(groups),
        forall|i: int|
            0 <= i < groups.len() ==> (#[trigger] groups[i]).count == count_in(
                members,
                groups[i].identity,
            ),
        forall|id: Seq<char>|
            count_in(members, id) > 0 ==> exists|i: int|
                0 <= i < groups.len() && (#[trigger] groups[i]).identity == id,
        forall|i: int| 0 <= i < groups.len() ==> (#[trigger] groups[i]).count > 0,
    ensures
        ({
            let after = add_member(groups, handle, t);
            let grown = members.push((handle, t));
            &&& identities_sorted(after)
            &&& forall|i: int|
                0 <= i < after.len() ==> (#[trigger] after[i]).count == count_in(
                    grown,
                    after[i].identity,
                )
            &&& forall|id: Seq<char>|
                count_in(grown, id) > 0 ==> exists|i: int|
                    0 <= i < after.len() && (#[trigger] after[i]).identity == id
            &&& forall|i: int| 0 <= i < after.len() ==> (#[trigger] after[i]).count > 0
        }),
{
    reveal_with_fuel(Seq::<_>::filter, 1);
    let identity = identity_of(t);
    let grown = members.push((handle, t));
    assert(grown.drop_last() =~= members);
    assert forall|id: Seq<char>| #[trigger]
        count_in(grown, id) == count_in(members, id) + if id == identity {
            1int
        } else {
            0int
        } by {
        assert(grown.filter(with_identity(id)) == if with_identity(id)((handle, t)) {
            members.filter(with_identity(id)).push((handle, t))
        } else {
            members.filter(with_identity(id))
        });
    }
    lemma_group_slot_bounds(groups, identity);
    let k = group_slot(groups, identity);
    let after = add_member(groups, handle, t);
    if k < groups.len() && groups[k].identity == identity {
        assert forall|i: int| 0 <= i < groups.len() && i != k implies groups[i].identity
            != identity by {
            lemma_text_less_order(groups[i].identity, groups[k].identity, identity);
        }
        assert forall|i: int| 0 <= i < after.len() implies (#[trigger] after[i]).count == count_in(
            grown,
            after[i].identity,
        ) by {
            if i != k {
                assert(after[i] == groups[i]);
            }
        }
        assert forall|id: Seq<char>| count_in(grown, id) > 0 implies exists|i: int|
            0 <= i < after.len() && (#[trigger] after[i]).identity == id by {
            if id == identity {
                assert(after[k].identity == id);
            } else {
                let i = choose|i: int| 0 <= i < groups.len() && (#[trigger] groups[i]).identity == id;
                assert(after[i].identity == id);
            }
        }
    } else {
        assert forall|i: int| 0 <= i < groups.len() implies groups[i].identity != identity by {
            lemma_text_less_order(identity, identity, identity);
            if i >= k {
                lemma_text_less_order(groups[k].identity, identity, groups[i].identity);
                lemma_text_less_order(identity, groups[k].identity, groups[i].identity);
            }
        }
        assert(count_in(members, identity) == 0);
        assert forall|i: int, j: int| 0 <= i < j < after.len() implies text_less(
            after[i].identity,
            after[j].identity,
        ) by {
            if k < groups.len() {
                lemma_text_less_order(groups[k].identity, identity, identity);
                lemma_text_less_order(identity, groups[k].identity, identity);
            }
            if i < k && j == k {
            } else if i < k && j > k {
                assert(after[j] == groups[j - 1]);
            } else if i == k && j > k {
                assert(after[j] == groups[j - 1]);
                if j - 1 > k {
                    lemma_text_less_order(identity, groups[k].identity, groups[j - 1].identity);
                }
            } else if i > k {
                assert(after[i] == groups[i - 1]);
                assert(after[j] == groups[j - 1]);
            }
        }
        assert forall|i: int| 0 <= i < after.len() implies (#[trigger] after[i]).count == count_in(
            grown,
            after[i].identity,
        ) by {
            if i < k {
                assert(after[i] == groups[i]);
            } else if i > k {
                assert(after[i] == groups[i - 1]);
            }
        }
        assert forall|id: Seq<char>| count_in(grown, id) > 0 implies exists|i: int|
            0 <= i < after.len() && (#[trigger] after[i]).identity == id by {
            if id == identity {
                assert(after[k].identity == id);
            } else {
                let i = choose|i: int| 0 <= i < groups.len() && (#[trigger] groups[i]).identity == id;
                if i < k {
                    assert(after[i].identity == id);
                } else {
                    assert(after[i + 1].identity == id);
                }
            }
        }
    }
}

/// The number of windows over all groups.
pub open spec fn total_count(groups: Seq<GroupView>) -> nat
    decreases groups.len(),
{
    if groups.len() == 0 {
        0
    } else {
        groups[0].count + total_count(groups.drop_first())
    }
}

proof fn lemma_total_update(groups: Seq<GroupView>, k: int, g: GroupView)
    requires
        0 <= k < groups.len(),
    ensures
        total_count(groups.update(k, g)) + groups[k].count == total_count(groups) + g.count,
    decreases groups.len(),
{
    if k > 0 {
        assert(groups.update(k, g).drop_first() =~= groups.drop_first().update(k - 1, g));
        lemma_total_update(groups.drop_first(), k - 1, g);
    } else {
        assert(groups.update(k, g).drop_first() =~= groups.drop_first());
    }
}

proof fn lemma_total_insert(groups: Seq<GroupView>, k: int, g: GroupView)
    requires
        0 <= k <= groups.len(),
    ensures
        total_count(groups.insert(k, g)) == total_count(groups) + g.count,
    decreases groups.len(),
{
    if k > 0 {
        assert(groups.insert(k, g).drop_first() =~= groups.drop_first().insert(k - 1, g));
        lemma_total_insert(groups.drop_first(), k - 1, g);
    } else {
        assert(groups.insert(k, g).drop_first() =~= groups);
    }
}

/// Every window is counted in exactly one application: the counts of a
/// Workspace's applications add up to its number of windows.
pub proof fn law_every_window_is_counted_once(members: Seq<(u32, ToplevelView)>)
    ensures
        total_count(groups_of(members)) == members.len(),
    decreases members.len(),
{
    if members.len() > 0 {
        let rest = members.drop_last();
        law_every_window_is_counted_once(rest);
        let groups = groups_of(rest);
        let t = members.last().1;
        let identity = identity_of(t);
        lemma_group_slot_range(groups, identity);
        let k = group_slot(groups, identity);
        if k < groups.len() && groups[k].identity == identity {
            let g = groups[k];
            lemma_total_update(
                groups,
                k,
                GroupView {
                    identity,
                    count: g.count + 1,
                    active: g.active || t.active,
                    has_app_id: g.has_app_id || has_app_id(t),
                    activation_handle: if t.active {
                        members.last().0
                    } else {
                        g.activation_handle
                    },
                },
            );
        } else {
            lemma_total_insert(
                groups,
                k,
                GroupView {
                    identity,
                    count: 1,
                    active: t.active,
                    has_app_id: has_app_id(t),
                    activation_handle: members.last().0,
                },
            );
        }
    }
}

proof fn lemma_group_slot_range(groups: Seq<GroupView>, identity: Seq<char>)
    ensures
        0 <= group_slot(groups, identity) <= groups.len(),
    decreases groups.len(),
{
    if groups.len() > 0 {
        lemma_group_slot_range(groups.drop_first(), identity);
    }
}

/// Some window of `members` with identity `id` is active.
pub open spec fn some_active(members: Seq<(u32, ToplevelView)>, id: Seq<char>) -> bool {
    exists|j: int|
        0 <= j < members.len() && identity_of((#[trigger] members[j]).1) == id && members[j].1.active
}

proof fn lemma_some_active_push(
    members: Seq<(u32, ToplevelView)>,
    handle: u32,
    t: ToplevelView,
    id: Seq<char>,
)
    ensures
        some_active(members.push((handle, t)), id) == (some_active(members, id) || (identity_of(t)
            == id && t.active)),
{
    let grown = members.push((handle, t));
    if some_active(members, id) {
        let j = choose|j: int|
            0 <= j < members.len() && identity_of((#[trigger] members[j]).1) == id
                && members[j].1.active;
        assert(grown[j] == members[j]);
    }
    if identity_of(t) == id && t.active {
        assert(grown[members.len() as int] == (handle, t));
    }
    if some_active(grown, id) {
        let j = choose|j: int|
            0 <= j < grown.len() && identity_of((#[trigger] grown[j]).1) == id && grown[j].1.active;
        if j < members.len() {
            assert(grown[j] == members[j]);
        }
    }
}

proof fn lemma_add_member_active(
    groups: Seq<GroupView>,
    members: Seq<(u32, ToplevelView)>,
    handle: u32,
    t: ToplevelView,
)
    requires
        identities_sorted(groups),
        forall|i: int|
            0 <= i < groups.len() ==> (#[trigger] groups[i]).active == some_active(
                members,
                groups[i].identity,
            ),
        forall|id: Seq<char>|
            count_in(members, id) > 0 ==> exists|i: int|
                0 <= i < groups.len() && (#[trigger] groups[i]).identity == id,
    ensures
        ({
            let after = add_member(groups, handle, t);
            forall|i: int|
                0 <= i < after.len() ==> (#[trigger] after[i]).active == some_active(
                    members.push((handle, t)),
                    after[i].identity,
                )
        }),
{
    let identity = identity_of(t);
    let after = add_member(groups, handle, t);
    let grown = members.push((handle, t));
    lemma_group_slot_bounds(groups, identity);
    let k = group_slot(groups, identity);
    if k < groups.len() && groups[k].identity == identity {
        assert forall|i: int| 0 <= i < after.len() implies (#[trigger] after[i]).active
            == some_active(grown, after[i].identity) by {
            lemma_some_active_push(members, handle, t, after[i].identity);
            if i != k {
                assert(after[i] == groups[i]);
                lemma_text_less_order(groups[i].identity, groups[k].identity, identity);
            }
        }
    } else {
        assert forall|i: int| 0 <= i < groups.len() implies groups[i].identity != identity by {
            lemma_text_less_order(identity, identity, identity);
            if i >= k {
                lemma_text_less_order(groups[k].identity, identity, groups[i].identity);
                lemma_text_less_order(identity, groups[k].identity, groups[i].identity);
            }
        }
        assert(!some_active(members, identity)) by {
            if some_active(members, identity) {
                let j = choose|j: int|
                    0 <= j < members.len() && identity_of((#[trigger] members[j]).1) == identity
                        && members[j].1.active;
                members.lemma_filter_contains(with_identity(identity), j);
                assert(count_in(members, identity) > 0);
            }
        }
        assert forall|i: int| 0 <= i < after.len() implies (#[trigger] after[i]).active
            == some_active(grown, after[i].identity) by {
            lemma_some_active_push(members, handle, t, after[i].identity);
            if i < k {
                assert(after[i] == groups[i]);
            } else if i > k {
                assert(after[i] == groups[i - 1]);
            }
        }
    }
}

/// Some window of `members` with identity `id` names its application.
pub open spec fn some_named(members: Seq<(u32, ToplevelView)>, id: Seq<char>) -> bool {
    exists|j: int|
        0 <= j < members.len() && identity_of((#[trigger] members[j]).1) == id && has_app_id(
            members[j].1,
        )
}

/// The window an application activates: the last active window with its
/// identity, or, when none is active, the first window with its identity.
pub open spec fn activates(members: Seq<(u32, ToplevelView)>, id: Seq<char>, handle: u32) -> bool {
    exists|j: int|
        0 <= j < members.len() && identity_of((#[trigger] members[j]).1) == id && members[j].0
            == handle && if some_active(members, id) {
            members[j].1.active && forall|k: int|
                j < k < members.len() && identity_of((#[trigger] members[k]).1) == id
                    ==> !members[k].1.active
        } else {
            forall|k: int|
                0 <= k < j ==> identity_of((#[trigger] members[k]).1) != id
        }
}

proof fn lemma_some_named_push(
    members: Seq<(u32, ToplevelView)>,
    handle: u32,
    t: ToplevelView,
    id: Seq<char>,
)
    ensures
        some_named(members.push((handle, t)), id) == (some_named(members, id) || (identity_of(t)
            == id && has_app_id(t))),
{
    let grown = members.push((handle, t));
    if some_named(members, id) {
        let j = choose|j: int|
            0 <= j < members.len() && identity_of((#[trigger] members[j]).1) == id && has_app_id(
                members[j].1,
            );
        assert(grown[j] == members[j]);
    }
    if identity_of(t) == id && has_app_id(t) {
        assert(grown[members.len() as int] == (handle, t));
    }
    if some_named(grown, id) {
        let j = choose|j: int|
            0 <= j < grown.len() && identity_of((#[trigger] grown[j]).1) == id && has_app_id(
                grown[j].1,
            );
        if j < members.len() {
            assert(grown[j] == members[j]);
        }
    }
}

/// A window with another identity leaves an application's chosen window
/// as it was.
proof fn lemma_activates_other(
    members: Seq<(u32, ToplevelView)>,
    handle: u32,
    t: ToplevelView,
    id: Seq<char>,
    h: u32,
)
    requires
        identity_of(t) != id,
        activates(members, id, h),
    ensures
        activates(members.push((handle, t)), id, h),
{
    let grown = members.push((handle, t));
    lemma_some_active_push(members, handle, t, id);
    let j = choose|j: int|
        0 <= j < members.len() && identity_of((#[trigger] members[j]).1) == id && members[j].0 == h
            && if some_active(members, id) {
            members[j].1.active && forall|k: int|
                j < k < members.len() && identity_of((#[trigger] members[k]).1) == id
                    ==> !members[k].1.active
        } else {
            forall|k: int| 0 <= k < j ==> identity_of((#[trigger] members[k]).1) != id
        };
    assert(grown[j] == members[j]);
    if some_active(members, id) {
        assert forall|k: int|
            j < k < grown.len() && identity_of((#[trigger] grown[k]).1) == id implies !grown[k].1.active by {
            if k < members.len() {
                assert(grown[k] == members[k]);
            }
        }
    } else {
        assert forall|k: int| 0 <= k < j implies identity_of((#[trigger] grown[k]).1) != id by {
            assert(grown[k] == members[k]);
        }
    }
}

/// A window with the application's identity: when it is active it becomes
/// the chosen window, else the choice stays.
proof fn lemma_activates_same(
    members: Seq<(u32, ToplevelView)>,
    handle: u32,
    t: ToplevelView,
    h: u32,
)
    requires
        activates(members, identity_of(t), h),
    ensures
        activates(members.push((handle, t)), identity_of(t), if t.active {
            handle
        } else {
            h
        }),
{
    let id = identity_of(t);
    let grown = members.push((handle, t));
    lemma_some_active_push(members, handle, t, id);
    let n = members.len() as int;
    assert(grown[n] == (handle, t));
    if t.active {
        assert(identity_of(grown[n].1) == id && grown[n].0 == handle);
    } else {
        let j = choose|j: int|
            0 <= j < members.len() && identity_of((#[trigger] members[j]).1) == id && members[j].0
                == h && if some_active(members, id) {
                members[j].1.active && forall|k: int|
                    j < k < members.len() && identity_of((#[trigger] members[k]).1) == id
                        ==> !members[k].1.active
            } else {
                forall|k: int| 0 <= k < j ==> identity_of((#[trigger] members[k]).1) != id
            };
        assert(grown[j] == members[j]);
        if some_active(members, id) {
            assert forall|k: int|
                j < k < grown.len() && identity_of((#[trigger] grown[k]).1) == id implies !grown[k].1.active by {
                if k < members.len() {
                    assert(grown[k] == members[k]);
                }
            }
        } else {
            assert forall|k: int| 0 <= k < j implies identity_of((#[trigger] grown[k]).1) != id by {
                assert(grown[k] == members[k]);
            }
        }
    }
}

/// The first window with an identity is chosen when it is the only one.
proof fn lemma_activates_new(
    members: Seq<(u32, ToplevelView)>,
    handle: u32,
    t: ToplevelView,
)
    requires
        forall|k: int| 0 <= k < members.len() ==> identity_of((#[trigger] members[k]).1)
            != identity_of(t),
    ensures
        activates(members.push((handle, t)), identity_of(t), handle),
        some_active(members.push((handle, t)), identity_of(t)) == t.active,
        some_named(members.push((handle, t)), identity_of(t)) == has_app_id(t),
{
    let id = identity_of(t);
    let grown = members.push((handle, t));
    lemma_some_active_push(members, handle, t, id);
    lemma_some_named_push(members, handle, t, id);
    let n = members.len() as int;
    assert(grown[n] == (handle, t));
    assert(!some_active(members, id));
    assert(!some_named(members, id));
    assert forall|k: int| 0 <= k < n implies identity_of((#[trigger] grown[k]).1) != id by {
        assert(grown[k] == members[k]);
    }
}

proof fn lemma_add_member_choice(
    groups: Seq<GroupView>,
    members: Seq<(u32, ToplevelView)>,
    handle: u32,
    t: ToplevelView,
)
    requires
        identities_sorted(groups),
        forall|i: int|
            0 <= i < groups.len() ==> {
                &&& some_named(members, (#[trigger] groups[i]).identity) == groups[i].has_app_id
                &&& activates(members, groups[i].identity, groups[i].activation_handle)
            },
        forall|id: Seq<char>|
            count_in(members, id) > 0 ==> exists|i: int|
                0 <= i < groups.len() && (#[trigger] groups[i]).identity == id,
    ensures
        ({
            let after = add_member(groups, handle, t);
            let grown = members.push((handle, t));
            forall|i: int|
                0 <= i < after.len() ==> {
                    &&& some_named(grown, (#[trigger] after[i]).identity) == after[i].has_app_id
                    &&& activates(grown, after[i].identity, after[i].activation_handle)
                }
        }),
{
    let identity = identity_of(t);
    let after = add_member(groups, handle, t);
    let grown = members.push((handle, t));
    lemma_group_slot_bounds(groups, identity);
    let k = group_slot(groups, identity);
    if k < groups.len() && groups[k].identity == identity {
        assert forall|i: int| 0 <= i < after.len() implies {
            &&& some_named(grown, (#[trigger] after[i]).identity) == after[i].has_app_id
            &&& activates(grown, after[i].identity, after[i].activation_handle)
        } by {
            lemma_some_named_push(members, handle, t, after[i].identity);
            if i != k {
                assert(after[i] == groups[i]);
                lemma_text_less_order(groups[i].identity, groups[k].identity, identity);
                lemma_activates_other(members, handle, t, groups[i].identity, groups[i].activation_handle);
            } else {
                lemma_activates_same(members, handle, t, groups[k].activation_handle);
            }
        }
    } else {
        assert forall|i: int| 0 <= i < groups.len() implies groups[i].identity != identity by {
            lemma_text_less_order(identity, identity, identity);
            if i >= k {
                lemma_text_less_order(groups[k].identity, identity, groups[i].identity);
                lemma_text_less_order(identity, groups[k].identity, groups[i].identity);
            }
        }
        assert forall|j: int| 0 <= j < members.len() implies identity_of((#[trigger] members[j]).1)
            != identity by {
            if identity_of(members[j].1) == identity {
                members.lemma_filter_contains(with_identity(identity), j);
                assert(count_in(members, identity) > 0);
            }
        }
        lemma_activates_new(members, handle, t);
        assert forall|i: int| 0 <= i < after.len() implies {
            &&& some_named(grown, (#[trigger] after[i]).identity) == after[i].has_app_id
            &&& activates(grown, after[i].identity, after[i].activation_handle)
        } by {
            if i < k {
                assert(after[i] == groups[i]);
            } else if i > k {
                assert(after[i] == groups[i - 1]);
            }
            if i != k {
                lemma_some_named_push(members, handle, t, after[i].identity);
                lemma_activates_other(members, handle, t, after[i].identity, after[i].activation_handle);
            }
        }
    }
}

/// An application names itself (and is looked up in the catalog) exactly
/// when one of its windows has an application identity, and it activates
/// its last active window, or its first window when none is active.
pub proof fn law_application_activates_its_chosen_window(members: Seq<(u32, ToplevelView)>)
    ensures
        forall|i: int|
            0 <= i < groups_of(members).len() ==> {
                &&& (#[trigger] groups_of(members)[i]).has_app_id == some_named(
                    members,
                    groups_of(members)[i].identity,
                )
                &&& activates(
                    members,
                    groups_of(members)[i].identity,
                    groups_of(members)[i].activation_handle,
                )
            },
    decreases members.len(),
{
    if members.len() > 0 {
        let rest = members.drop_last();
        law_application_activates_its_chosen_window(rest);
        law_windows_are_grouped_by_application(rest);
        lemma_add_member_choice(groups_of(rest), rest, members.last().0, members.last().1);
        assert(rest.push((members.last().0, members.last().1)) =~= members);
    }
}

/// An application of a Workspace is active exactly when one of its windows
/// there, a window with the application's identity, is active.
pub proof fn law_application_is_active_with_an_active_window(members: Seq<(u32, ToplevelView)>)
    ensures
        forall|i: int|
            0 <= i < groups_of(members).len() ==> (#[trigger] groups_of(members)[i]).active
                == some_active(members, groups_of(members)[i].identity),
    decreases members.len(),
{
    if members.len() > 0 {
        let rest = members.drop_last();
        law_application_is_active_with_an_active_window(rest);
        law_windows_are_grouped_by_application(rest);
        lemma_add_member_active(groups_of(rest), rest, members.last().0, members.last().1);
        assert(rest.push((members.last().0, members.last().1)) =~= members);
    }
}

/// The applications of a Workspace group its windows by identity: one group
/// per identity, in increasing order of identity, each counting the windows
/// with its identity.
pub proof fn law_windows_are_grouped_by_application(members: Seq<(u32, ToplevelView)>)
    ensures
        forall|i: int|
            0 <= i < groups_of(members).len() ==> (#[trigger] groups_of(members)[i]).count > 0,
        identities_sorted(groups_of(members)),
        forall|i: int|
            0 <= i < groups_of(members).len() ==> (#[trigger] groups_of(members)[i]).count
                == count_in(members, groups_of(members)[i].identity),
        forall|id: Seq<char>|
            count_in(members, id) > 0 <==> exists|i: int|
                0 <= i < groups_of(members).len() && (#[trigger] groups_of(members)[i]).identity
                    == id,
    decreases members.len(),
{
    if members.len() == 0 {
        reveal_with_fuel(Seq::<_>::filter, 1);
    } else {
        let rest = members.drop_last();
        law_windows_are_grouped_by_application(rest);
        lemma_add_member(groups_of(rest), rest, members.last().0, members.last().1);
        assert(rest.push((members.last().0, members.last().1)) =~= members);
        assert(groups_of(members) == add_member(groups_of(rest), members.last().0, members.last().1));
    }
    assert forall|id: Seq<char>| count_in(members, id) > 0 implies exists|i: int|
        0 <= i < groups_of(members).len() && (#[trigger] groups_of(members)[i]).identity == id by {
        if members.len() == 0 {
            assert(members.filter(with_identity(id)) =~= Seq::<(u32, ToplevelView)>::empty());
        }
    }
    assert forall|id: Seq<char>|
        (exists|i: int|
            0 <= i < groups_of(members).len() && (#[trigger] groups_of(members)[i]).identity
                == id) implies count_in(members, id) > 0 by {
        let i = choose|i: int|
            0 <= i < groups_of(members).len() && (#[trigger] groups_of(members)[i]).identity == id;
        assert(groups_of(members)[i].count > 0);
    }
}

/// The lowercase form of a text, as `str::to_lowercase` from std computes
/// it.
pub uninterp spec fn lowercase_text(text: Seq<char>) -> Seq<char>;

/// `str::to_lowercase` from std: the Unicode lowercase mapping of each
/// character. The contract only names the result.
#[verifier::external_body]
fn lowercase(text: &str) -> (lower: String)
    ensures
        lower@ == lowercase_text(text@),
{
    text.to_lowercase()
}

/// `order` lists positions `0..n` once each, their keys never decreasing,
/// and positions with equal keys in increasing order.
pub open spec fn stably_sorted(order: Seq<usize>, keys: Seq<Seq<char>>, n: int) -> bool {
    &&& order.len() == n
    &&& forall|a: int| 0 <= a < n ==> (#[trigger] order[a]) < n
    &&& order.no_duplicates()
    &&& forall|a: int, b: int|
        0 <= a < b < n ==> !text_less(keys[order[b] as int], keys[order[a] as int])
    &&& forall|a: int, b: int|
        0 <= a < b < n && keys[order[a] as int] == keys[order[b] as int] ==> order[a] < order[b]
}

/// The order in which the launcher lists applications: by lowercase
/// display name, equal names keeping their order. Gives the positions of
/// `names` in that order.
pub fn launch_order(names: &[String]) -> (order: Vec<usize>)
    ensures
        stably_sorted(order@, names@.map_values(|n: String| lowercase_text(n@)), names@.len() as int),
{
    let ghost keys = names@.map_values(|n: String| lowercase_text(n@));
    let mut lowered: Vec<String> = Vec::new();
    let mut i: usize = 0;
    while i < names.len()
        invariant
            0 <= i <= names@.len(),
            lowered@.len() == i,
            forall|k: int| 0 <= k < i ==> (#[trigger] lowered@[k])@ == keys[k],
            keys == names@.map_values(|n: String| lowercase_text(n@)),
        decreases names@.len() - i,
    {
        lowered.push(lowercase(names[i].as_str()));
        i += 1;
    }
    let mut order: Vec<usize> = Vec::new();
    let mut i: usize = 0;
    while i < names.len()
        invariant
            0 <= i <= names@.len(),
            lowered@.len() == names@.len(),
            keys.len() == names@.len(),
            forall|k: int| 0 <= k < names@.len() ==> (#[trigger] lowered@[k])@ == keys[k],
            stably_sorted(order@, keys, i as int),
        decreases names@.len() - i,
    {
        let mut p: usize = 0;
        loop
            invariant
                0 <= p <= order@.len(),
                i < names@.len(),
                lowered@.len() == names@.len(),
                keys.len() == names@.len(),
                forall|k: int| 0 <= k < names@.len() ==> (#[trigger] lowered@[k])@ == keys[k],
                stably_sorted(order@, keys, i as int),
                forall|a: int| 0 <= a < p ==> !text_less(keys[i as int], keys[order@[a] as int]),
            ensures
                0 <= p <= order@.len(),
                stably_sorted(order@, keys, i as int),
                forall|a: int| 0 <= a < p ==> !text_less(keys[i as int], keys[order@[a] as int]),
                p < order@.len() ==> text_less(keys[i as int], keys[order@[p as int] as int]),
            decreases order@.len() - p,
        {
            if p >= order.len() {
                break;
            }
            let j = order[p];
            if text_before(lowered[i].as_str(), lowered[j].as_str()) {
                break;
            }
            p += 1;
        }
        let ghost before = order@;
        order.insert(p, i);
        proof {
            let after = order@;
            let n = i as int + 1;
            assert forall|a: int| 0 <= a < n implies (#[trigger] after[a]) < n by {
                if a < p {
                    assert(after[a] == before[a]);
                } else if a > p {
                    assert(after[a] == before[a - 1]);
                }
            }
            assert forall|a: int, b: int| 0 <= a < after.len() && 0 <= b < after.len() && a != b
                implies after[a] != after[b] by {
                if a != p && b != p {
                    let x = if a < p { a } else { a - 1 };
                    let y = if b < p { b } else { b - 1 };
                    assert(after[a] == before[x]);
                    assert(after[b] == before[y]);
                } else if a == p {
                    let y = if b < p { b } else { b - 1 };
                    assert(after[b] == before[y]);
                } else {
                    let x = if a < p { a } else { a - 1 };
                    assert(after[a] == before[x]);
                }
            }
            assert forall|a: int, b: int| 0 <= a < b < n implies !text_less(
                keys[after[b] as int],
                keys[after[a] as int],
            ) && (keys[after[a] as int] == keys[after[b] as int] ==> after[a] < after[b]) by {
                let ki = keys[i as int];
                if p < before.len() {
                    lemma_text_less_order(ki, keys[before[p as int] as int], ki);
                }
                if a < p && b < p {
                    assert(after[a] == before[a]);
                    assert(after[b] == before[b]);
                } else if a < p && b == p {
                    assert(after[a] == before[a]);
                    lemma_text_less_order(ki, keys[before[a] as int], ki);
                } else if a < p && b > p {
                    assert(after[a] == before[a]);
                    assert(after[b] == before[b - 1]);
                } else if a == p && b > p {
                    assert(after[b] == before[b - 1]);
                    let kp = keys[before[p as int] as int];
                    let kb = keys[before[b - 1] as int];
                    lemma_text_less_order(kb, ki, kp);
                    lemma_text_less_order(ki, kp, kb);
                    lemma_text_less_order(ki, ki, ki);
                    if b - 1 > p {
                        assert(!text_less(kb, kp));
                    }
                } else {
                    assert(after[a] == before[a - 1]);
                    assert(after[b] == before[b - 1]);
                }
            }
        }
        i += 1;
    }
    order
}

/// Whether `part` occurs in `text` as consecutive characters.
pub open spec fn occurs_in(part: Seq<char>, text: Seq<char>) -> bool {
    exists|start: int|
        0 <= start <= text.len() - part.len() && #[trigger] text.subrange(
            start,
            start + part.len(),
        ) == part
}

fn chars_of(text: &str) -> (chars: Vec<char>)
    ensures
        chars@ == text@,
{
    crate::text::char_count_fits(text);
    let mut chars: Vec<char> = Vec::new();
    for c in it: text.chars()
        invariant
            it.seq() == text@,
            chars@ == text@.take(it.index() as int),
            text@.len() <= usize::MAX,
    {
        proof {
            assert(text@.take(it.index() + 1) =~= text@.take(it.index() as int).push(c));
        }
        chars.push(c);
    }
    proof {
        assert(text@.take(text@.len() as int) =~= text@);
    }
    chars
}

/// Whether the launcher shows an application for a search: every
/// application for an empty query, else those whose name holds the query.
/// Both are given in the form they are compared in.
pub fn query_matches(name: &str, query: &str) -> (shown: bool)
    ensures
        shown == (query@.len() == 0 || occurs_in(query@, name@)),
{
    let text = chars_of(name);
    let part = chars_of(query);
    let text_len = text.len();
    if part.len() == 0 {
        return true;
    }
    if part.len() > text.len() {
        proof {
            assert(!occurs_in(query@, name@));
        }
        return false;
    }
    let mut start: usize = 0;
    while start <= text.len() - part.len()
        invariant
            text@ == name@,
            part@ == query@,
            text_len == text@.len(),
            0 < part@.len() <= text@.len(),
            start <= text@.len() - part@.len() + 1,
            forall|s: int| 0 <= s < start ==> #[trigger] text@.subrange(s, s + part@.len()) != part@,
        decreases text@.len() - part@.len() + 1 - start,
    {
        let mut k: usize = 0;
        loop
            invariant
                text@ == name@,
                part@ == query@,
                text_len == text@.len(),
                0 < part@.len() <= text@.len(),
                start <= text@.len() - part@.len(),
                0 <= k <= part@.len(),
                forall|m: int| 0 <= m < k ==> text@[start + m] == part@[m],
            ensures
                0 <= k <= part@.len(),
                forall|m: int| 0 <= m < k ==> text@[start + m] == part@[m],
                k < part@.len() ==> text@[start + k] != part@[k as int],
            decreases part@.len() - k,
        {
            if k >= part.len() {
                break;
            }
            if text[start + k] != part[k] {
                break;
            }
            k += 1;
        }
        if k == part.len() {
            proof {
                assert(text@.subrange(start as int, start + part@.len()) =~= part@);
            }
            return true;
        }
        proof {
            assert(text@.subrange(start as int, start + part@.len())[k as int] == text@[start + k]);
        }
        start += 1;
    }
    proof {
        assert forall|s: int|
            0 <= s <= text@.len() - part@.len() implies #[trigger] text@.subrange(
            s,
            s + part@.len(),
        ) != part@ by {}
    }
    false
}

/// The query a search entry holds: its text without leading and trailing
/// white space, in lowercase.
pub open spec fn search_query(entry: Seq<char>) -> Seq<char> {
    lowercase_text(trimmed_text(entry))
}

/// What the launcher shows for the text of its search entry: for each
/// application name, whether its lowercase form holds the query (every
/// name for an empty query).
pub fn launcher_search(names: &[String], entry: &str) -> (shown: Vec<bool>)
    ensures
        shown@.len() == names@.len(),
        forall|k: int|
            0 <= k < names@.len() ==> #[trigger] shown@[k] == (search_query(entry@).len() == 0
                || occurs_in(search_query(entry@), lowercase_text(names@[k]@))),
{
    let query = lowercase(trimmed(entry).as_str());
    let mut shown: Vec<bool> = Vec::new();
    let mut k: usize = 0;
    while k < names.len()
        invariant
            0 <= k <= names@.len(),
            query@ == search_query(entry@),
            shown@.len() == k,
            forall|j: int|
                0 <= j < k ==> #[trigger] shown@[j] == (query@.len() == 0 || occurs_in(
                    query@,
                    lowercase_text(names@[j]@),
                )),
        decreases names@.len() - k,
    {
        let name = lowercase(names[k].as_str());
        shown.push(query_matches(name.as_str(), query.as_str()));
        k += 1;
    }
    shown
}

} // verus!
