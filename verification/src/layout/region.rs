use vstd::prelude::*;

use super::geometry::{max_int, COLLAPSED_SPINE_SIZE};
use super::model::{
    differs_from, first_index, is_first_index, member_items, member_kept, members_minimum,
    present_in, region_active_item, region_contains, region_focus, region_minimum, region_new,
    region_retain, region_stack, region_update_minimum, region_wf, without, LayoutItem, Member,
    RegionView,
};

verus! {

/// `first_index` names the unique first occurrence.
pub proof fn lemma_first_index<T>(s: Seq<T>, t: T, i: int)
    requires
        is_first_index(s, t, i),
    ensures
        first_index(s, t) == i,
{
    let j = first_index(s, t);
    assert(is_first_index(s, t, j));
    if j < i {
        assert(s[j] != t);
    } else if i < j {
        assert(s[i] != t);
    }
}

proof fn lemma_first_occurrence_below<T>(s: Seq<T>, t: T, k: int)
    requires
        0 <= k < s.len(),
        s[k] == t,
    ensures
        exists|i: int| is_first_index(s, t, i),
    decreases k,
{
    if exists|j: int| 0 <= j < k && s[j] == t {
        let j = choose|j: int| 0 <= j < k && s[j] == t;
        lemma_first_occurrence_below(s, t, j);
    } else {
        assert(is_first_index(s, t, k));
    }
}

/// An element of a sequence has a first occurrence.
pub proof fn lemma_first_index_exists<T>(s: Seq<T>, t: T)
    requires
        s.contains(t),
    ensures
        is_first_index(s, t, first_index(s, t)),
{
    let k = choose|k: int| 0 <= k < s.len() && s[k] == t;
    lemma_first_occurrence_below(s, t, k);
}

/// The first position of `t` in `items`.
pub fn position_of<T: LayoutItem>(items: &Vec<T>, t: &T) -> (found: Option<usize>)
    ensures
        found matches Some(i) ==> is_first_index(items@, *t, i as int) && first_index(
            items@,
            *t,
        ) == i,
        found is None <==> !items@.contains(*t),
{
    let mut i: usize = 0;
    while i < items.len()
        invariant
            0 <= i <= items.len(),
            forall|j: int| 0 <= j < i ==> items@[j] != *t,
        decreases items.len() - i,
    {
        if items[i].same_item(t) {
            proof {
                lemma_first_index(items@, *t, i as int);
            }
            return Some(i);
        }
        i += 1;
    }
    None
}

pub fn vec_contains<T: LayoutItem>(items: &Vec<T>, t: &T) -> (found: bool)
    ensures
        found == items@.contains(*t),
{
    position_of(items, t).is_some()
}

/// A copy of `items` without any occurrence of `t`.
pub fn without_item<T: LayoutItem>(items: &Vec<T>, t: &T) -> (kept: Vec<T>)
    ensures
        kept@ == without(items@, *t),
{
    let mut kept: Vec<T> = Vec::new();
    let mut i: usize = 0;
    while i < items.len()
        invariant
            0 <= i <= items.len(),
            kept@ == items@.take(i as int).filter(differs_from(*t)),
        decreases items.len() - i,
    {
        proof {
            reveal_with_fuel(Seq::<_>::filter, 1);
            assert(items@.take(i + 1).drop_last() =~= items@.take(i as int));
        }
        let x = items[i];
        if !x.same_item(t) {
            kept.push(x);
        }
        i += 1;
    }
    proof {
        assert(items@.take(items.len() as int) =~= items@);
    }
    kept
}

/// The first position of a member holding `t`.
fn member_position<T: LayoutItem>(members: &Vec<Member<T>>, t: &T) -> (found: Option<usize>)
    ensures
        found matches Some(i) ==> is_first_index(member_items(members@), *t, i as int)
            && first_index(member_items(members@), *t) == i,
        found is None <==> !member_items(members@).contains(*t),
{
    let mut i: usize = 0;
    while i < members.len()
        invariant
            0 <= i <= members.len(),
            forall|j: int| 0 <= j < i ==> member_items(members@)[j] != *t,
        decreases members.len() - i,
    {
        if members[i].item.same_item(t) {
            proof {
                lemma_first_index(member_items(members@), *t, i as int);
            }
            return Some(i);
        }
        i += 1;
    }
    proof {
        if member_items(members@).contains(*t) {
            let k = choose|k: int| 0 <= k < members@.len() && member_items(members@)[k] == *t;
        }
    }
    None
}

/// An element-by-element copy of a vector of plain values.
pub fn copy_vec<A: Copy>(v: &Vec<A>) -> (copy: Vec<A>)
    ensures
        copy@ == v@,
{
    let mut copy: Vec<A> = Vec::new();
    let mut i: usize = 0;
    while i < v.len()
        invariant
            0 <= i <= v.len(),
            copy@ == v@.take(i as int),
        decreases v.len() - i,
    {
        proof {
            assert(v@.take(i + 1) =~= v@.take(i as int).push(v@[i as int]));
        }
        copy.push(v[i]);
        i += 1;
    }
    proof {
        assert(v@.take(v.len() as int) =~= v@);
    }
    copy
}

/// A stack of members of which one is shown.
#[derive(Debug, PartialEq, Eq)]
pub struct Region<T> {
    pub members: Vec<Member<T>>,
    pub active: usize,
    pub recent: Vec<T>,
    pub collapsed: bool,
}

impl<T> View for Region<T> {
    type V = RegionView<T>;

    open spec fn view(&self) -> RegionView<T> {
        RegionView {
            members: self.members@,
            active: self.active as int,
            recent: self.recent@,
            collapsed: self.collapsed,
        }
    }
}

impl<T: LayoutItem> Region<T> {
    pub fn new(item: T, minimum: (i32, i32)) -> (region: Self)
        ensures
            region@ == region_new(item, minimum),
    {
        let mut members = Vec::new();
        members.push(Member { item, minimum });
        let mut recent = Vec::new();
        recent.push(item);
        proof {
            assert(members@ =~= seq![Member { item, minimum }]);
            assert(recent@ =~= seq![item]);
        }
        Region { members, active: 0, recent, collapsed: false }
    }

    pub fn duplicate(&self) -> (copy: Self)
        ensures
            copy@ == self@,
    {
        Region {
            members: copy_vec(&self.members),
            active: self.active,
            recent: copy_vec(&self.recent),
            collapsed: self.collapsed,
        }
    }

    pub fn active_item(&self) -> (item: T)
        requires
            region_wf(self@),
        ensures
            item == region_active_item(self@),
    {
        self.members[self.active].item
    }

    pub fn contains(&self, target: &T) -> (found: bool)
        ensures
            found == region_contains(self@, *target),
    {
        member_position(&self.members, target).is_some()
    }

    pub fn focus(&mut self, target: &T) -> (focused: bool)
        ensures
            (final(self)@, focused) == region_focus(old(self)@, *target),
    {
        match member_position(&self.members, target) {
            Some(index) => {
                self.active = index;
                self.recent = without_item(&self.recent, target);
                self.recent.push(*target);
                true
            },
            None => false,
        }
    }

    pub fn stack(&mut self, item: T, minimum: (i32, i32))
        ensures
            final(self)@ == region_stack(old(self)@, item, minimum),
    {
        self.members.push(Member { item, minimum });
        self.active = self.members.len() - 1;
        self.recent.push(item);
    }

    pub fn minimum(&self) -> (minimum: (i32, i32))
        ensures
            (minimum.0 as int, minimum.1 as int) == region_minimum(self@),
    {
        if self.collapsed {
            return (COLLAPSED_SPINE_SIZE, COLLAPSED_SPINE_SIZE);
        }
        let mut width: i32 = 1;
        let mut height: i32 = 1;
        let mut i: usize = 0;
        while i < self.members.len()
            invariant
                0 <= i <= self.members.len(),
                (width as int, height as int) == members_minimum(self.members@.take(i as int)),
            decreases self.members.len() - i,
        {
            proof {
                assert(self.members@.take(i + 1).drop_last() =~= self.members@.take(i as int));
            }
            let member = self.members[i];
            if member.minimum.0 > width {
                width = member.minimum.0;
            }
            if member.minimum.1 > height {
                height = member.minimum.1;
            }
            i += 1;
        }
        proof {
            assert(self.members@.take(self.members.len() as int) =~= self.members@);
        }
        (width, height)
    }

    pub fn update_minimum(&mut self, target: &T, minimum: (i32, i32)) -> (updated: bool)
        ensures
            (final(self)@, updated) == region_update_minimum(old(self)@, *target, minimum),
    {
        match member_position(&self.members, target) {
            Some(index) => {
                proof {
                    assert(member_items(self.members@)[index as int] == *target);
                }
                self.members.set(index, Member { item: *target, minimum });
                true
            },
            None => false,
        }
    }

    /// Removes the members whose item is in `removed`.
    pub fn retain(self, removed: &Vec<T>) -> (kept: Option<Self>)
        requires
            region_wf(self@),
        ensures
            match kept {
                Some(r) => region_retain(self@, removed@) == Some(r@) && region_wf(r@),
                None => region_retain(self@, removed@) is None,
            },
    {
        let previous = self.active_item();
        let mut members: Vec<Member<T>> = Vec::new();
        let mut i: usize = 0;
        while i < self.members.len()
            invariant
                0 <= i <= self.members.len(),
                members@ == self.members@.take(i as int).filter(member_kept(removed@)),
            decreases self.members.len() - i,
        {
            proof {
                reveal_with_fuel(Seq::<_>::filter, 1);
                assert(self.members@.take(i + 1).drop_last() =~= self.members@.take(i as int));
            }
            let member = self.members[i];
            if !vec_contains(removed, &member.item) {
                members.push(member);
            }
            i += 1;
        }
        proof {
            assert(self.members@.take(self.members.len() as int) =~= self.members@);
        }
        if members.len() == 0 {
            return None;
        }
        let ghost items = member_items(members@);
        let mut recent: Vec<T> = Vec::new();
        let mut k: usize = 0;
        while k < self.recent.len()
            invariant
                0 <= k <= self.recent.len(),
                items == member_items(members@),
                recent@ == self.recent@.take(k as int).filter(present_in(items)),
            decreases self.recent.len() - k,
        {
            proof {
                reveal_with_fuel(Seq::<_>::filter, 1);
                assert(self.recent@.take(k + 1).drop_last() =~= self.recent@.take(k as int));
            }
            let x = self.recent[k];
            if member_position(&members, &x).is_some() {
                recent.push(x);
            }
            k += 1;
        }
        proof {
            assert(self.recent@.take(self.recent.len() as int) =~= self.recent@);
        }
        let active = match member_position(&members, &previous) {
            Some(index) => index,
            None => {
                if recent.len() > 0 {
                    let last = recent[recent.len() - 1];
                    proof {
                        broadcast use vstd::seq_lib::group_filter_ensures;

                        assert(recent@.last() == last);
                        self.recent@.lemma_filter_pred(present_in(items), recent@.len() - 1);
                    }
                    match member_position(&members, &last) {
                        Some(index) => index,
                        None => 0,
                    }
                } else {
                    0
                }
            },
        };
        Some(Region { members, active, recent, collapsed: self.collapsed })
    }
}

} // verus!
