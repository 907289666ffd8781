//! The Workspace bar's segments: one per Workspace in order of position,
//! numbered from one, each with a badge per application.

use vstd::prelude::*;

use crate::overview::{order_by_key, stably_ordered};
use crate::presentation::{ApplicationPresentation, ApplicationView, WorkspacePresentation, WorkspacePresentationView};
use crate::text::{append_str, copy_str, push_char};

verus! {

/// The character of a decimal digit.
pub open spec fn digit_char(d: int) -> char {
    if d == 0 {
        '0'
    } else if d == 1 {
        '1'
    } else if d == 2 {
        '2'
    } else if d == 3 {
        '3'
    } else if d == 4 {
        '4'
    } else if d == 5 {
        '5'
    } else if d == 6 {
        '6'
    } else if d == 7 {
        '7'
    } else if d == 8 {
        '8'
    } else {
        '9'
    }
}

/// The decimal digits of `n`, without leading zeros.
pub open spec fn decimal(n: nat) -> Seq<char>
    decreases n,
{
    if n < 10 {
        seq![digit_char(n as int)]
    } else {
        decimal(n / 10).push(digit_char((n % 10) as int))
    }
}

fn digit(d: u32) -> (c: char)
    requires
        d < 10,
    ensures
        c == digit_char(d as int),
{
    match d {
        0 => '0',
        1 => '1',
        2 => '2',
        3 => '3',
        4 => '4',
        5 => '5',
        6 => '6',
        7 => '7',
        8 => '8',
        _ => '9',
    }
}

/// Appends the decimal digits of `n`.
fn push_decimal(s: &mut String, n: u32)
    ensures
        final(s)@ == old(s)@ + decimal(n as nat),
    decreases n,
{
    if n >= 10 {
        push_decimal(s, n / 10);
    }
    push_char(s, digit(n % 10));
    proof {
        assert(s@ =~= old(s)@ + decimal(n as nat));
    }
}

/// One application badge of a segment.
#[derive(Debug)]
pub struct BarBadge {
    pub activation_handle: u32,
    pub text: String,
    pub tooltip: String,
    pub icon: Option<usize>,
    pub active: bool,
}

pub struct BarBadgeView {
    pub activation_handle: u32,
    pub text: Seq<char>,
    pub tooltip: Seq<char>,
    pub icon: Option<usize>,
    pub active: bool,
}

impl View for BarBadge {
    type V = BarBadgeView;

    open spec fn view(&self) -> BarBadgeView {
        BarBadgeView {
            activation_handle: self.activation_handle,
            text: self.text@,
            tooltip: self.tooltip@,
            icon: self.icon,
            active: self.active,
        }
    }
}

/// One Workspace's segment of the bar.
#[derive(Debug)]
pub struct BarSegment {
    pub handle: u32,
    pub number: u32,
    pub label: String,
    pub tooltip: String,
    pub active: bool,
    pub badges: Vec<BarBadge>,
}

pub struct BarSegmentView {
    pub handle: u32,
    pub number: u32,
    pub label: Seq<char>,
    pub tooltip: Seq<char>,
    pub active: bool,
    pub badges: Seq<BarBadgeView>,
}

pub open spec fn badge_views(badges: Seq<BarBadge>) -> Seq<BarBadgeView> {
    badges.map_values(|b: BarBadge| b@)
}

impl View for BarSegment {
    type V = BarSegmentView;

    open spec fn view(&self) -> BarSegmentView {
        BarSegmentView {
            handle: self.handle,
            number: self.number,
            label: self.label@,
            tooltip: self.tooltip@,
            active: self.active,
            badges: badge_views(self.badges@),
        }
    }
}

/// A badge's text: the application's label, followed by ` ×` and the
/// number of its windows when there is more than one.
pub open spec fn badge_text(a: ApplicationView) -> Seq<char> {
    if a.count > 1 {
        a.label + seq![' ', '×'] + decimal(a.count)
    } else {
        a.label
    }
}

pub open spec fn spec_badge(a: ApplicationView) -> BarBadgeView {
    BarBadgeView {
        activation_handle: a.activation_handle,
        text: badge_text(a),
        tooltip: "Activate "@ + a.tooltip,
        icon: a.icon,
        active: a.active,
    }
}

/// A Workspace's segment: numbered one past its position, with a badge for
/// each of its applications in order.
pub open spec fn spec_segment(w: WorkspacePresentationView) -> BarSegmentView {
    BarSegmentView {
        handle: w.handle,
        number: (w.position + 1) as u32,
        label: decimal((w.position + 1) as nat),
        tooltip: "Activate Workspace "@ + decimal((w.position + 1) as nat),
        active: w.active,
        badges: w.applications.map_values(|a: ApplicationView| spec_badge(a)),
    }
}

pub open spec fn workspace_positions(workspaces: Seq<WorkspacePresentation>) -> Seq<u32> {
    workspaces.map_values(|w: WorkspacePresentation| w.position)
}

fn badge(application: &ApplicationPresentation) -> (badge: BarBadge)
    ensures
        badge@ == spec_badge(application@),
{
    let mut text = copy_str(application.label.as_str());
    if application.count > 1 {
        push_char(&mut text, ' ');
        push_char(&mut text, '×');
        push_decimal(&mut text, application.count);
    }
    let mut tooltip = copy_str("Activate ");
    append_str(&mut tooltip, application.tooltip.as_str());
    let badge = BarBadge {
        activation_handle: application.activation_handle,
        text,
        tooltip,
        icon: application.icon,
        active: application.active,
    };
    proof {
        if application.count > 1 {
            assert(badge@.text =~= badge_text(application@));
        }
    }
    badge
}

fn segment(workspace: &WorkspacePresentation) -> (segment: BarSegment)
    requires
        workspace.position < u32::MAX,
    ensures
        segment@ == spec_segment(workspace@),
{
    let number = workspace.position + 1;
    let mut label = String::new();
    push_decimal(&mut label, number);
    let mut tooltip = copy_str("Activate Workspace ");
    push_decimal(&mut tooltip, number);
    let mut badges: Vec<BarBadge> = Vec::new();
    let mut i: usize = 0;
    while i < workspace.applications.len()
        invariant
            0 <= i <= workspace.applications@.len(),
            badges@.len() == i,
            forall|k: int|
                0 <= k < i ==> (#[trigger] badges@[k])@ == spec_badge(
                    workspace.applications@[k]@,
                ),
        decreases workspace.applications@.len() - i,
    {
        badges.push(badge(&workspace.applications[i]));
        i += 1;
    }
    let segment = BarSegment {
        handle: workspace.handle,
        number,
        label,
        tooltip,
        active: workspace.active,
        badges,
    };
    proof {
        assert(label@ =~= decimal(number as nat));
        assert(badge_views(segment.badges@) =~= workspace@.applications.map_values(
            |a: ApplicationView| spec_badge(a),
        ));
    }
    segment
}

/// The bar's segments: the Workspaces in order of position (equal
/// positions keeping their order), each numbered one past its position.
pub fn bar_segments(workspaces: &[WorkspacePresentation]) -> (segments: Vec<BarSegment>)
    requires
        forall|i: int| 0 <= i < workspaces@.len() ==> (#[trigger] workspaces@[i]).position < u32::MAX,
    ensures
        exists|order: Seq<usize>|
            {
                &&& stably_ordered(order, workspace_positions(workspaces@))
                &&& segments@.len() == order.len()
                &&& forall|k: int|
                    0 <= k < order.len() ==> (#[trigger] segments@[k])@ == spec_segment(
                        workspaces@[order[k] as int]@,
                    )
            },
{
    let mut positions: Vec<u32> = Vec::new();
    let mut j: usize = 0;
    while j < workspaces.len()
        invariant
            0 <= j <= workspaces@.len(),
            positions@ == workspace_positions(workspaces@).take(j as int),
        decreases workspaces@.len() - j,
    {
        proof {
            assert(workspace_positions(workspaces@).take(j + 1) =~= workspace_positions(
                workspaces@,
            ).take(j as int).push(workspaces@[j as int].position));
        }
        positions.push(workspaces[j].position);
        j += 1;
    }
    proof {
        assert(workspace_positions(workspaces@).take(workspaces@.len() as int)
            =~= workspace_positions(workspaces@));
    }
    let order = order_by_key(positions.as_slice());
    let mut segments: Vec<BarSegment> = Vec::new();
    let mut k: usize = 0;
    while k < order.len()
        invariant
            0 <= k <= order@.len(),
            stably_ordered(order@, workspace_positions(workspaces@)),
            forall|i: int| 0 <= i < workspaces@.len() ==> (#[trigger] workspaces@[i]).position < u32::MAX,
            segments@.len() == k,
            forall|m: int|
                0 <= m < k ==> (#[trigger] segments@[m])@ == spec_segment(
                    workspaces@[order@[m] as int]@,
                ),
        decreases order@.len() - k,
    {
        let index = order[k];
        segments.push(segment(&workspaces[index]));
        k += 1;
    }
    segments
}

/// The number that decimal digits spell.
pub open spec fn digits_value(digits: Seq<char>) -> int
    decreases digits.len(),
{
    if digits.len() == 0 {
        0
    } else {
        digits_value(digits.drop_last()) * 10 + ((digits.last() as int) - ('0' as int))
    }
}

proof fn lemma_digit_value(d: int)
    requires
        0 <= d < 10,
    ensures
        (digit_char(d) as int) - ('0' as int) == d,
        '0' <= digit_char(d) <= '9',
{
    assert(('0' as int) == 48 && ('1' as int) == 49 && ('2' as int) == 50 && ('3' as int) == 51
        && ('4' as int) == 52 && ('5' as int) == 53 && ('6' as int) == 54 && ('7' as int) == 55
        && ('8' as int) == 56 && ('9' as int) == 57);
}

/// `decimal` writes a number in base ten: its characters are digits, they
/// spell the number, and there is no leading zero.
pub proof fn law_decimal_spells_the_number(n: nat)
    ensures
        decimal(n).len() >= 1,
        forall|i: int| 0 <= i < decimal(n).len() ==> '0' <= #[trigger] decimal(n)[i] <= '9',
        digits_value(decimal(n)) == n,
        n > 0 ==> decimal(n)[0] != '0',
    decreases n,
{
    lemma_digit_value((n % 10) as int);
    if n >= 10 {
        law_decimal_spells_the_number(n / 10);
        let d = decimal(n);
        assert(d.drop_last() =~= decimal(n / 10));
        assert(d.last() == digit_char((n % 10) as int));
        assert(digits_value(d) == digits_value(decimal(n / 10)) * 10 + (n % 10));
        assert(n == (n / 10) * 10 + n % 10);
        assert forall|i: int| 0 <= i < d.len() implies '0' <= #[trigger] d[i] <= '9' by {
            if i < d.len() - 1 {
                assert(d[i] == decimal(n / 10)[i]);
            }
        }
        assert(d[0] == decimal(n / 10)[0]);
    } else {
        let d = decimal(n);
        assert(d.drop_last() =~= Seq::<char>::empty());
        assert(n % 10 == n);
        assert(digits_value(d.drop_last()) == 0);
        assert(d.last() == digit_char(n as int));
    }
}

/// A badge counts its application's windows when there are two or more:
/// the label, a space, `×` and the number of windows; a single window
/// shows the bare label. Its tooltip asks to activate the application and
/// it activates the application's chosen window.
pub proof fn law_badge_counts_windows(a: ApplicationView)
    ensures
        a.count >= 2 ==> spec_badge(a).text == a.label + seq![' ', '×'] + decimal(a.count),
        a.count <= 1 ==> spec_badge(a).text == a.label,
        spec_badge(a).tooltip == "Activate "@ + a.tooltip,
        spec_badge(a).activation_handle == a.activation_handle,
        spec_badge(a).icon == a.icon,
        spec_badge(a).active == a.active,
{
}

/// A segment shows its Workspace numbered one past its position and has
/// one badge per application, in order.
pub proof fn law_segment_numbers_from_one(w: WorkspacePresentationView)
    requires
        w.position < u32::MAX,
    ensures
        spec_segment(w).number == w.position + 1,
        digits_value(spec_segment(w).label) == w.position + 1,
        spec_segment(w).tooltip == "Activate Workspace "@ + spec_segment(w).label,
        spec_segment(w).handle == w.handle,
        spec_segment(w).active == w.active,
        spec_segment(w).badges.len() == w.applications.len(),
        forall|i: int|
            0 <= i < w.applications.len() ==> #[trigger] spec_segment(w).badges[i] == spec_badge(
                w.applications[i],
            ),
{
    law_decimal_spells_the_number((w.position + 1) as nat);
}

} // verus!
