//! Keyboard selection among the Workspace cards of the Overview.

use vstd::prelude::*;

use crate::layout::model::{first_index, is_first_index};
use crate::layout::region::{lemma_first_index, lemma_first_index_exists};

verus! {

/// The card a step from `handle` selects: the previous card for a negative
/// direction (staying on the first), else the next card (staying on the
/// last); `None` when `handle` has no card.
pub open spec fn spec_navigation_target(handles: Seq<u32>, handle: u32, direction: i32) -> Option<
    u32,
> {
    if !handles.contains(handle) {
        None
    } else {
        let position = first_index(handles, handle);
        let target = if direction < 0 {
            if position >= 1 {
                position - 1
            } else {
                0
            }
        } else if position + 1 < handles.len() {
            position + 1
        } else {
            handles.len() - 1
        };
        Some(handles[target])
    }
}

/// The card selected by a step in `direction` from the card of `handle`.
pub fn navigation_target(handles: &[u32], handle: u32, direction: i32) -> (target: Option<u32>)
    ensures
        target == spec_navigation_target(handles@, handle, direction),
{
    let mut position: usize = 0;
    loop
        invariant
            0 <= position <= handles@.len(),
            forall|j: int| 0 <= j < position ==> handles@[j] != handle,
        ensures
            0 <= position <= handles@.len(),
            forall|j: int| 0 <= j < position ==> handles@[j] != handle,
            position == handles@.len() || handles@[position as int] == handle,
        decreases handles@.len() - position,
    {
        if position >= handles.len() {
            break;
        }
        if handles[position] == handle {
            break;
        }
        position += 1;
    }
    if position == handles.len() {
        return None;
    }
    proof {
        assert(is_first_index(handles@, handle, position as int));
        lemma_first_index(handles@, handle, position as int);
    }
    let target = if direction < 0 {
        if position >= 1 {
            position - 1
        } else {
            0
        }
    } else if position < handles.len() - 1 {
        position + 1
    } else {
        handles.len() - 1
    };
    Some(handles[target])
}

/// The first card, or the last one.
pub fn boundary_target(handles: &[u32], first: bool) -> (target: Option<u32>)
    ensures
        target == if handles@.len() == 0 {
            None
        } else if first {
            Some(handles@[0])
        } else {
            Some(handles@.last())
        },
{
    if handles.len() == 0 {
        None
    } else if first {
        Some(handles[0])
    } else {
        Some(handles[handles.len() - 1])
    }
}

/// A step never leaves the cards: the target of a known card is a card.
pub proof fn law_navigation_stays_on_a_card(handles: Seq<u32>, handle: u32, direction: i32)
    requires
        handles.contains(handle),
    ensures
        spec_navigation_target(handles, handle, direction) matches Some(t) && handles.contains(t),
{
    lemma_first_index_exists(handles, handle);
    let position = first_index(handles, handle);
    let target = if direction < 0 {
        if position >= 1 {
            position - 1
        } else {
            0
        }
    } else if position + 1 < handles.len() {
        position + 1
    } else {
        handles.len() - 1
    };
    assert(handles[target] == handles[target]);
}

/// A step moves to the card beside the current one: back to the card
/// before it, forward to the card after it, staying put only at the first
/// card going back and at the last card going forward. The current card is
/// the first card with the handle.
pub proof fn law_navigation_steps_to_the_neighbouring_card(
    handles: Seq<u32>,
    handle: u32,
    direction: i32,
    p: int,
)
    requires
        0 <= p < handles.len(),
        handles[p] == handle,
        forall|j: int| 0 <= j < p ==> handles[j] != handle,
    ensures
        direction < 0 && p >= 1 ==> spec_navigation_target(handles, handle, direction) == Some(
            handles[p - 1],
        ),
        direction < 0 && p == 0 ==> spec_navigation_target(handles, handle, direction) == Some(
            handles[0],
        ),
        direction >= 0 && p + 1 < handles.len() ==> spec_navigation_target(
            handles,
            handle,
            direction,
        ) == Some(handles[p + 1]),
        direction >= 0 && p + 1 == handles.len() ==> spec_navigation_target(
            handles,
            handle,
            direction,
        ) == Some(handles[p]),
{
    assert(is_first_index(handles, handle, p));
    lemma_first_index(handles, handle, p);
    assert(handles.contains(handle));
}

/// A handle without a card selects nothing.
pub proof fn law_navigation_needs_a_card(handles: Seq<u32>, handle: u32, direction: i32)
    requires
        forall|j: int| 0 <= j < handles.len() ==> handles[j] != handle,
    ensures
        spec_navigation_target(handles, handle, direction) is None,
{
}

/// `order` lists the indices `0..keys.len()` once each, in increasing
/// order of key, equal keys keeping their order.
pub open spec fn stably_ordered(order: Seq<usize>, keys: Seq<u32>) -> bool {
    &&& order.len() == keys.len()
    &&& forall|a: int| 0 <= a < order.len() ==> (#[trigger] order[a]) < keys.len()
    &&& order.no_duplicates()
    &&& forall|a: int, b: int|
        0 <= a < b < order.len() ==> keys[order[a] as int] <= keys[order[b] as int]
    &&& forall|a: int, b: int|
        0 <= a < b < order.len() && keys[order[a] as int] == keys[order[b] as int] ==> order[a]
            < order[b]
}

/// The positions of the cards.
pub open spec fn card_positions(cards: Seq<(u32, u32, bool)>) -> Seq<u32> {
    cards.map_values(|c: (u32, u32, bool)| c.1)
}

/// `order` lists the cards once each, in order of card position, cards at
/// the same position in their given order.
pub open spec fn by_position(order: Seq<usize>, cards: Seq<(u32, u32, bool)>) -> bool {
    stably_ordered(order, card_positions(cards))
}

/// The indices of `keys` in increasing order of key, equal keys in their
/// given order (a stable sort).
pub fn order_by_key(keys: &[u32]) -> (order: Vec<usize>)
    ensures
        stably_ordered(order@, keys@),
{
    let n = keys.len();
    let mut order: Vec<usize> = Vec::new();
    let mut i: usize = 0;
    while i < n
        invariant
            0 <= i <= n,
            n == keys@.len(),
            stably_ordered(order@, keys@.take(i as int)),
        decreases n - i,
    {
        let mut p: usize = 0;
        loop
            invariant
                0 <= p <= order@.len(),
                i < n,
                n == keys@.len(),
                stably_ordered(order@, keys@.take(i as int)),
                forall|a: int| 0 <= a < p ==> keys@[order@[a] as int] <= keys@[i as int],
            ensures
                0 <= p <= order@.len(),
                stably_ordered(order@, keys@.take(i as int)),
                forall|a: int| 0 <= a < p ==> keys@[order@[a] as int] <= keys@[i as int],
                p < order@.len() ==> keys@[i as int] < keys@[order@[p as int] as int],
            decreases order@.len() - p,
        {
            if p >= order.len() {
                break;
            }
            proof {
                let q = order@[p as int] as int;
                assert(keys@.take(i as int)[q] == keys@[q]);
            }
            if keys[i] < keys[order[p]] {
                break;
            }
            p += 1;
        }
        let ghost before = order@;
        order.insert(p, i);
        proof {
            let after = order@;
            let m = i as int + 1;
            let pre = keys@.take(i as int);
            let now = keys@.take(m);
            assert forall|a: int| 0 <= a < before.len() implies keys@[before[a] as int]
                == pre[before[a] as int] && (#[trigger] before[a]) < i by {}
            assert forall|a: int| 0 <= a < after.len() implies (#[trigger] after[a]) < m by {
                if a < p {
                    assert(after[a] == before[a]);
                } else if a > p {
                    assert(after[a] == before[a - 1]);
                }
            }
            assert forall|a: int, b: int| 0 <= a < after.len() && 0 <= b < after.len() && a != b
                implies after[a] != after[b] by {
                if a != p && b != p {
                    let x = if a < p { a } else { a - 1 };
                    let y = if b < p { b } else { b - 1 };
                    assert(after[a] == before[x]);
                    assert(after[b] == before[y]);
                } else if a == p {
                    let y = if b < p { b } else { b - 1 };
                    assert(after[b] == before[y]);
                } else {
                    let x = if a < p { a } else { a - 1 };
                    assert(after[a] == before[x]);
                }
            }
            assert forall|a: int| 0 <= a < after.len() implies now[(#[trigger] after[a]) as int]
                == keys@[after[a] as int] by {}
            assert forall|a: int, b: int| 0 <= a < b < m implies now[after[a] as int]
                <= now[after[b] as int] && (now[after[a] as int] == now[after[b] as int]
                ==> after[a] < after[b]) by {
                assert(now[after[a] as int] == keys@[after[a] as int]);
                assert(now[after[b] as int] == keys@[after[b] as int]);
                if a < p && b < p {
                    assert(after[a] == before[a]);
                    assert(after[b] == before[b]);
                    assert(pre[before[a] as int] <= pre[before[b] as int]);
                } else if a < p && b == p {
                    assert(after[a] == before[a]);
                } else if a < p && b > p {
                    assert(after[a] == before[a]);
                    assert(after[b] == before[b - 1]);
                    assert(pre[before[a] as int] <= pre[before[b - 1] as int]);
                } else if a == p && b > p {
                    assert(after[b] == before[b - 1]);
                    if b - 1 > p {
                        assert(pre[before[p as int] as int] <= pre[before[b - 1] as int]);
                    }
                } else {
                    assert(after[a] == before[a - 1]);
                    assert(after[b] == before[b - 1]);
                    assert(pre[before[a - 1] as int] <= pre[before[b - 1] as int]);
                }
            }
        }
        i += 1;
    }
    proof {
        assert(keys@.take(n as int) =~= keys@);
    }
    order
}

/// The handles of the cards in `order`.
pub open spec fn handles_in(order: Seq<usize>, cards: Seq<(u32, u32, bool)>) -> Seq<u32> {
    order.map_values(|i: usize| cards[i as int].0)
}

/// The handle of the first active card in `order`.
pub open spec fn first_active(order: Seq<usize>, cards: Seq<(u32, u32, bool)>) -> Option<u32>
    decreases order.len(),
{
    if order.len() == 0 {
        None
    } else if cards[order[0] as int].2 {
        Some(cards[order[0] as int].0)
    } else {
        first_active(order.drop_first(), cards)
    }
}

/// The card selected after a redraw: the earlier selection while its card
/// remains, else the active card, else the first card.
pub open spec fn spec_selection(handles: Seq<u32>, active: Option<u32>, previous: Option<u32>) -> Option<
    u32,
> {
    if previous matches Some(p) && handles.contains(p) {
        previous
    } else if active is Some {
        active
    } else if handles.len() > 0 {
        Some(handles[0])
    } else {
        None
    }
}

/// The Overview's cards, given as handle, position and whether active: the
/// handles in order of position (equal positions keep their order), the
/// active card's handle (the first active one), and the selected card.
pub fn overview_selection(cards: &[(u32, u32, bool)], previous: Option<u32>) -> (s: (
    Vec<u32>,
    Option<u32>,
    Option<u32>,
))
    ensures
        exists|order: Seq<usize>|
            {
                &&& by_position(order, cards@)
                &&& s.0@ == handles_in(order, cards@)
                &&& s.1 == first_active(order, cards@)
            },
        s.2 == spec_selection(s.0@, s.1, previous),
{
    let mut positions: Vec<u32> = Vec::new();
    let mut j: usize = 0;
    while j < cards.len()
        invariant
            0 <= j <= cards@.len(),
            positions@ == card_positions(cards@).take(j as int),
        decreases cards@.len() - j,
    {
        proof {
            assert(card_positions(cards@).take(j + 1) =~= card_positions(cards@).take(
                j as int,
            ).push(cards@[j as int].1));
        }
        positions.push(cards[j].1);
        j += 1;
    }
    proof {
        assert(card_positions(cards@).take(cards@.len() as int) =~= card_positions(cards@));
    }
    let order = order_by_key(positions.as_slice());
    let mut handles: Vec<u32> = Vec::new();
    let mut active: Option<u32> = None;
    let mut k: usize = 0;
    proof {
        assert(order@.skip(0) =~= order@);
        assert(handles_in(order@.take(0), cards@) =~= Seq::<u32>::empty());
    }
    while k < order.len()
        invariant
            0 <= k <= order@.len(),
            by_position(order@, cards@),
            handles@ == handles_in(order@.take(k as int), cards@),
            first_active(order@, cards@) == match active {
                Some(a) => Some(a),
                None => first_active(order@.skip(k as int), cards@),
            },
        decreases order@.len() - k,
    {
        let card = cards[order[k]];
        proof {
            let rest = order@.skip(k as int);
            assert(rest[0] == order@[k as int]);
            assert(rest.drop_first() =~= order@.skip(k + 1));
            assert(handles_in(order@.take(k + 1), cards@) =~= handles_in(
                order@.take(k as int),
                cards@,
            ).push(card.0));
        }
        handles.push(card.0);
        if active.is_none() && card.2 {
            active = Some(card.0);
        }
        k += 1;
    }
    proof {
        assert(order@.take(order@.len() as int) =~= order@);
        if k == 0 {
            assert(order@.skip(0) =~= order@);
        }
        assert(order@.skip(order@.len() as int).len() == 0);
    }
    let mut kept = false;
    if let Some(p) = previous {
        let mut j: usize = 0;
        while j < handles.len()
            invariant
                0 <= j <= handles@.len(),
                !kept ==> forall|a: int| 0 <= a < j ==> handles@[a] != p,
                kept ==> handles@.contains(p),
            decreases handles@.len() - j,
        {
            if handles[j] == p {
                kept = true;
            }
            j += 1;
        }
    }
    let selected = if kept {
        previous
    } else if active.is_some() {
        active
    } else if handles.len() > 0 {
        Some(handles[0])
    } else {
        None
    };
    (handles, active, selected)
}

/// The first active card is one of the cards in order.
proof fn lemma_first_active_listed(order: Seq<usize>, cards: Seq<(u32, u32, bool)>)
    ensures
        first_active(order, cards) matches Some(h) ==> handles_in(order, cards).contains(h),
    decreases order.len(),
{
    if order.len() > 0 {
        lemma_first_active_listed(order.drop_first(), cards);
        if first_active(order, cards) is Some && !cards[order[0] as int].2 {
            let h = first_active(order, cards)->0;
            let k = choose|k: int|
                0 <= k < handles_in(order.drop_first(), cards).len() && handles_in(
                    order.drop_first(),
                    cards,
                )[k] == h;
            assert(handles_in(order, cards)[k + 1] == h);
        } else if first_active(order, cards) is Some {
            assert(handles_in(order, cards)[0] == cards[order[0] as int].0);
        }
    }
}

/// After a redraw some card is selected whenever there is a card, and the
/// selection is always one of the cards.
pub proof fn law_selection_is_a_card(
    order: Seq<usize>,
    cards: Seq<(u32, u32, bool)>,
    previous: Option<u32>,
)
    requires
        by_position(order, cards),
    ensures
        ({
            let handles = handles_in(order, cards);
            let selected = spec_selection(handles, first_active(order, cards), previous);
            &&& cards.len() > 0 ==> selected is Some
            &&& selected matches Some(h) ==> handles.contains(h)
        }),
{
    lemma_first_active_listed(order, cards);
    let handles = handles_in(order, cards);
    if handles.len() > 0 {
        assert(handles.contains(handles[0]));
    }
}

} // verus!
