//! The entries of a map keyed by handle, listed in increasing order of
//! handle.

use std::collections::BTreeMap;
use vstd::prelude::*;
use vstd::std_specs::btree::{increasing_seq, key_obeys_cmp_spec, spec_btree_map_iter};
use vstd::std_specs::cmp::OrdSpec;
use vstd::std_specs::iter::IteratorSpec;

use crate::presentation::{toplevel_map_view, toplevel_views, ToplevelState, WorkspaceState};
use crate::text::copy_str;

verus! {

/// The handles increase strictly along the entries.
pub open spec fn keys_increasing<V>(entries: Seq<(u32, V)>) -> bool {
    forall|i: int, j: int| 0 <= i < j < entries.len() ==> entries[i].0 < entries[j].0
}

/// `entries` lists the entries of `m` once each, in increasing order of
/// key.
pub open spec fn lists_entries<V>(entries: Seq<(u32, V)>, m: Map<u32, V>) -> bool {
    &&& keys_increasing(entries)
    &&& forall|i: int|
        0 <= i < entries.len() ==> m.contains_key(#[trigger] entries[i].0) && m[entries[i].0]
            == entries[i].1
    &&& forall|k: u32|
        m.contains_key(k) ==> exists|i: int| 0 <= i < entries.len() && #[trigger] entries[i].0 == k
}

/// The entries of `m` in increasing order of key.
pub open spec fn entries_of<V>(m: Map<u32, V>) -> Seq<(u32, V)> {
    choose|entries: Seq<(u32, V)>| lists_entries(entries, m)
}

/// Without its first entry, a listing lists the map without that key.
proof fn lemma_lists_rest<V>(s: Seq<(u32, V)>, m: Map<u32, V>)
    requires
        lists_entries(s, m),
        s.len() > 0,
    ensures
        lists_entries(s.drop_first(), m.remove(s[0].0)),
{
    let k = s[0].0;
    let rest = s.drop_first();
    let m2 = m.remove(k);
    assert forall|i: int| 0 <= i < rest.len() implies m2.contains_key(#[trigger] rest[i].0)
        && m2[rest[i].0] == rest[i].1 by {
        assert(rest[i] == s[i + 1]);
        assert(s[0].0 < s[i + 1].0);
    }
    assert forall|key: u32| m2.contains_key(key) implies exists|i: int|
        0 <= i < rest.len() && #[trigger] rest[i].0 == key by {
        let i = choose|i: int| 0 <= i < s.len() && #[trigger] s[i].0 == key;
        assert(i != 0);
        assert(rest[i - 1] == s[i]);
    }
}

/// A map has one listing.
pub proof fn lemma_listing_unique<V>(s: Seq<(u32, V)>, t: Seq<(u32, V)>, m: Map<u32, V>)
    requires
        lists_entries(s, m),
        lists_entries(t, m),
    ensures
        s == t,
    decreases s.len(),
{
    if s.len() == 0 {
        if t.len() > 0 {
            assert(m.contains_key(t[0].0));
            let i = choose|i: int| 0 <= i < s.len() && #[trigger] s[i].0 == t[0].0;
        }
        assert(s =~= t);
    } else {
        let k = s[0].0;
        assert(m.contains_key(k));
        let j = choose|j: int| 0 <= j < t.len() && #[trigger] t[j].0 == k;
        assert(m.contains_key(t[0].0));
        let i = choose|i: int| 0 <= i < s.len() && #[trigger] s[i].0 == t[0].0;
        if j > 0 {
            assert(t[0].0 < t[j].0);
            if i > 0 {
                assert(s[0].0 < s[i].0);
            }
        }
        assert(t[0].0 == k);
        lemma_lists_rest(s, m);
        lemma_lists_rest(t, m);
        lemma_listing_unique(s.drop_first(), t.drop_first(), m.remove(k));
        assert forall|x: int| 0 <= x < s.len() implies s[x] == t[x] by {
            if x > 0 {
                assert(s[x] == s.drop_first()[x - 1]);
                assert(t[x] == t.drop_first()[x - 1]);
            }
        }
        assert(s =~= t);
    }
}

/// What a listing is: the entries of the map in increasing order of key.
proof fn lemma_listing_is_entries_of<V>(s: Seq<(u32, V)>, m: Map<u32, V>)
    requires
        lists_entries(s, m),
    ensures
        s == entries_of(m),
{
    lemma_listing_unique(s, entries_of(m), m);
}

/// The entries of a map of Workspaces, in increasing order of handle.
pub fn workspace_entries(m: &BTreeMap<u32, WorkspaceState>) -> (entries: Vec<
    (u32, WorkspaceState),
>)
    ensures
        entries@ == entries_of(m@),
        entries@.len() == m@.dom().len(),
{
    broadcast use vstd::std_specs::btree::group_btree_axioms, vstd::laws_cmp::group_laws_cmp;

    let mut entries: Vec<(u32, WorkspaceState)> = Vec::new();
    let iter = m.iter();
    let ghost listed = iter.remaining();
    proof {
        assert(key_obeys_cmp_spec::<u32>());
    }
    for kv in it: iter
        invariant
            it.seq() == listed,
            listed == spec_btree_map_iter(m).remaining(),
            increasing_seq(listed.map_values(|kv: (&u32, &WorkspaceState)| *kv.0)),
            entries@.len() == it.index(),
            forall|j: int|
                0 <= j < it.index() ==> #[trigger] entries@[j] == (*listed[j].0, *listed[j].1),
    {
        entries.push((*kv.0, *kv.1));
    }
    proof {
        let keys = listed.map_values(|kv: (&u32, &WorkspaceState)| *kv.0);
        assert(entries@.len() == listed.len());
        assert(increasing_seq(keys));
        assert(vstd::laws_cmp::obeys_cmp::<u32>());
        assert forall|i: int, j: int| 0 <= i < j < entries@.len() implies entries@[i].0
            < entries@[j].0 by {
            assert(keys[i] == entries@[i].0 && keys[j] == entries@[j].0);
            assert(keys[i].cmp_spec(&keys[j]) is Less);
        }
        assert forall|k: u32| m@.contains_key(k) implies exists|i: int|
            0 <= i < entries@.len() && #[trigger] entries@[i].0 == k by {
            assert(listed.contains((&k, &m@[k])));
            let i = choose|i: int| 0 <= i < listed.len() && listed[i] == (&k, &m@[k]);
            assert(entries@[i].0 == k);
        }
        lemma_listing_is_entries_of(entries@, m@);
    }
    entries
}

/// A copy of a toplevel.
fn copy_toplevel(t: &ToplevelState) -> (copy: ToplevelState)
    ensures
        copy@ == t@,
{
    ToplevelState {
        title: copy_str(t.title.as_str()),
        app_id: copy_str(t.app_id.as_str()),
        workspace: t.workspace,
        active: t.active,
    }
}

/// Copies of the toplevels of a map, in increasing order of handle.
pub fn toplevel_entries(m: &BTreeMap<u32, ToplevelState>) -> (entries: Vec<(u32, ToplevelState)>)
    ensures
        toplevel_views(entries@) == entries_of(toplevel_map_view(m@)),
        entries@.len() == m@.dom().len(),
{
    broadcast use vstd::std_specs::btree::group_btree_axioms, vstd::laws_cmp::group_laws_cmp;

    let mut entries: Vec<(u32, ToplevelState)> = Vec::new();
    let iter = m.iter();
    let ghost listed = iter.remaining();
    proof {
        assert(key_obeys_cmp_spec::<u32>());
    }
    for kv in it: iter
        invariant
            it.seq() == listed,
            listed == spec_btree_map_iter(m).remaining(),
            increasing_seq(listed.map_values(|kv: (&u32, &ToplevelState)| *kv.0)),
            entries@.len() == it.index(),
            forall|j: int|
                0 <= j < it.index() ==> (#[trigger] entries@[j]).0 == *listed[j].0
                    && entries@[j].1@ == (*listed[j].1)@,
    {
        entries.push((*kv.0, copy_toplevel(kv.1)));
    }
    proof {
        let keys = listed.map_values(|kv: (&u32, &ToplevelState)| *kv.0);
        let views = toplevel_views(entries@);
        let mv = toplevel_map_view(m@);
        assert(entries@.len() == listed.len());
        assert(increasing_seq(keys));
        assert(vstd::laws_cmp::obeys_cmp::<u32>());
        assert forall|i: int, j: int| 0 <= i < j < views.len() implies views[i].0
            < views[j].0 by {
            assert(keys[i] == entries@[i].0 && keys[j] == entries@[j].0);
            assert(keys[i].cmp_spec(&keys[j]) is Less);
        }
        assert forall|i: int| 0 <= i < views.len() implies mv.contains_key(#[trigger] views[i].0)
            && mv[views[i].0] == views[i].1 by {
            assert(entries@[i].0 == *listed[i].0);
        }
        assert forall|k: u32| mv.contains_key(k) implies exists|i: int|
            0 <= i < views.len() && #[trigger] views[i].0 == k by {
            assert(listed.contains((&k, &m@[k])));
            let i = choose|i: int| 0 <= i < listed.len() && listed[i] == (&k, &m@[k]);
            assert(views[i].0 == k);
        }
        lemma_listing_is_entries_of(views, mv);
    }
    entries
}

} // verus!
