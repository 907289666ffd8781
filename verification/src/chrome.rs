//! Compositor-drawn window chrome: geometry of the gutter, the title bar and
//! its buttons, and the text shown in it.

use vstd::prelude::*;
use vstd::string::StringSliceAdditionalSpecFns;

use crate::layout::geometry::{max_int, min_int, trunc_div, Rect};
use crate::text::{char_count, char_prefix, push_char};

verus! {

/// The gap kept around every tiled window.
pub const WINDOW_GUTTER: i32 = 3;

/// Height of the title bar.
pub const CHROME_HEIGHT: i32 = 34;

/// Height of the strip at a window's top edge that reveals its title bar.
pub const CHROME_REVEAL_HEIGHT: i32 = 7;

/// Width of each title bar button.
pub const CHROME_BUTTON_WIDTH: i32 = 34;

#[derive(Clone, Copy, Debug, PartialEq, Eq, Structural)]
pub enum ChromeButton {
    Focus,
    Collapse,
    Close,
}

/// What the compositor draws above one window.
#[derive(Debug)]
pub struct WindowChrome {
    pub window_id: usize,
    pub rectangle: Rect,
    pub application: String,
    pub title: String,
    pub focused: bool,
    pub revealed: bool,
    pub collapsed: bool,
    pub controls_enabled: bool,
    pub hovered_button: Option<ChromeButton>,
}

/// The compositor draws its own controls for server-decorated windows and
/// for collapsed spines.
pub fn compositor_controls_enabled(server_decorated: bool, collapsed: bool) -> (enabled: bool)
    ensures
        enabled == (server_decorated || collapsed),
{
    server_decorated || collapsed
}

/// The gutter: at most `WINDOW_GUTTER`, and at most half of each extent.
pub open spec fn spec_inset(rectangle: Rect) -> int {
    min_int(
        min_int(WINDOW_GUTTER as int, trunc_div(rectangle.width as int, 2)),
        trunc_div(rectangle.height as int, 2),
    )
}

/// The inset rectangle's coordinates are representable.
pub open spec fn inset_fits(rectangle: Rect) -> bool {
    let inset = spec_inset(rectangle);
    &&& i32::MIN <= rectangle.x + inset <= i32::MAX
    &&& i32::MIN <= rectangle.y + inset <= i32::MAX
    &&& i32::MIN <= rectangle.width - inset * 2 <= i32::MAX
    &&& i32::MIN <= rectangle.height - inset * 2 <= i32::MAX
}

pub open spec fn spec_inset_window_rectangle(rectangle: Rect) -> Rect {
    let inset = spec_inset(rectangle);
    let width = rectangle.width - inset * 2;
    let height = rectangle.height - inset * 2;
    Rect {
        x: (rectangle.x + inset) as i32,
        y: (rectangle.y + inset) as i32,
        width: (if width >= 1 { width } else { 1 }) as i32,
        height: (if height >= 1 { height } else { 1 }) as i32,
    }
}

fn half(v: i32) -> (h: i32)
    ensures
        h == trunc_div(v as int, 2),
{
    if v >= 0 {
        v / 2
    } else if v == i32::MIN {
        -1_073_741_824
    } else {
        -((-v) / 2)
    }
}

/// Shrinks a tile by the gutter on every side, keeping at least one unit
/// in each direction.
pub fn inset_window_rectangle(rectangle: Rect) -> (inset: Rect)
    requires
        inset_fits(rectangle),
    ensures
        inset == spec_inset_window_rectangle(rectangle),
{
    let mut inset = WINDOW_GUTTER;
    let half_width = half(rectangle.width);
    if half_width < inset {
        inset = half_width;
    }
    let half_height = half(rectangle.height);
    if half_height < inset {
        inset = half_height;
    }
    let width = rectangle.width - inset * 2;
    let height = rectangle.height - inset * 2;
    Rect::new(
        rectangle.x + inset,
        rectangle.y + inset,
        if width >= 1 {
            width
        } else {
            1
        },
        if height >= 1 {
            height
        } else {
            1
        },
    )
}

/// The button under a pointer at whole-unit position `(x, y)` (the pointer
/// position rounded down): inside the title bar, the rightmost
/// `CHROME_BUTTON_WIDTH` units close, the next ones collapse and the next
/// ones focus.
pub open spec fn spec_chrome_button_at(rectangle: Rect, x: int, y: int) -> Option<ChromeButton> {
    let right = rectangle.x + rectangle.width;
    let bottom = rectangle.y + min_int(CHROME_HEIGHT as int, rectangle.height as int);
    if x < rectangle.x || x >= right || y < rectangle.y || y >= bottom {
        None
    } else {
        let distance = right - x;
        if 1 <= distance <= CHROME_BUTTON_WIDTH {
            Some(ChromeButton::Close)
        } else if distance <= CHROME_BUTTON_WIDTH * 2 {
            Some(ChromeButton::Collapse)
        } else if distance <= CHROME_BUTTON_WIDTH * 3 {
            Some(ChromeButton::Focus)
        } else {
            None
        }
    }
}

pub fn chrome_button_at(rectangle: Rect, x: i32, y: i32) -> (button: Option<ChromeButton>)
    requires
        i32::MIN <= rectangle.x + rectangle.width <= i32::MAX,
        i32::MIN <= rectangle.y + min_int(CHROME_HEIGHT as int, rectangle.height as int)
            <= i32::MAX,
    ensures
        button == spec_chrome_button_at(rectangle, x as int, y as int),
{
    let bar = if CHROME_HEIGHT < rectangle.height {
        CHROME_HEIGHT
    } else {
        rectangle.height
    };
    if x < rectangle.x || x >= rectangle.x + rectangle.width || y < rectangle.y || y
        >= rectangle.y + bar {
        return None;
    }
    let distance = rectangle.x + rectangle.width - x;
    if 1 <= distance && distance <= CHROME_BUTTON_WIDTH {
        Some(ChromeButton::Close)
    } else if distance <= CHROME_BUTTON_WIDTH * 2 {
        Some(ChromeButton::Collapse)
    } else if distance <= CHROME_BUTTON_WIDTH * 3 {
        Some(ChromeButton::Focus)
    } else {
        None
    }
}

/// A label cut to at most `maximum` characters, the last of them an
/// ellipsis when anything was cut.
pub open spec fn truncated(label: Seq<char>, maximum: int) -> Seq<char> {
    if label.len() <= maximum {
        label
    } else if maximum <= 1 {
        seq!['…']
    } else {
        label.take(maximum - 1).push('…')
    }
}

pub fn truncate_label(label: &str, maximum_chars: usize) -> (truncated_label: String)
    ensures
        truncated_label@ == truncated(label@, maximum_chars as int),
{
    let count = char_count(label);
    if count <= maximum_chars {
        let copy = char_prefix(label, count);
        proof {
            assert(label@.take(label@.len() as int) =~= label@);
        }
        return copy;
    }
    if maximum_chars <= 1 {
        let mut ellipsis = String::new();
        push_char(&mut ellipsis, '…');
        proof {
            assert(ellipsis@ =~= seq!['…']);
        }
        return ellipsis;
    }
    let mut result = char_prefix(label, maximum_chars - 1);
    push_char(&mut result, '…');
    result
}

/// The FNV-like hash of an application name that picks its icon color:
/// every byte multiplies the hash by 33 and adds the byte, wrapping.
pub open spec fn application_hash_spec(bytes: Seq<u8>) -> u32
    decreases bytes.len(),
{
    if bytes.len() == 0 {
        0
    } else {
        vstd::wrapping::u32_specs::wrapping_add(
            vstd::wrapping::u32_specs::wrapping_mul(
                application_hash_spec(bytes.drop_last()),
                33,
            ),
            bytes.last() as u32,
        )
    }
}

pub fn application_hash(application: &str) -> (hash: u32)
    ensures
        hash == application_hash_spec(application.spec_bytes()),
{
    let bytes = application.as_bytes();
    let mut hash: u32 = 0;
    let mut i: usize = 0;
    while i < bytes.len()
        invariant
            0 <= i <= bytes@.len(),
            bytes@ == application.spec_bytes(),
            hash == application_hash_spec(bytes@.take(i as int)),
        decreases bytes@.len() - i,
    {
        proof {
            assert(bytes@.take(i + 1).drop_last() =~= bytes@.take(i as int));
        }
        hash = hash.wrapping_mul(33).wrapping_add(bytes[i] as u32);
        i += 1;
    }
    proof {
        assert(bytes@.take(bytes@.len() as int) =~= bytes@);
    }
    hash
}

/// The three color levels (each below 64) of an application's icon: bits
/// 0-5, 6-11 and 12-17 of its hash.
pub fn application_color_levels(application: &str) -> (levels: [u32; 3])
    ensures
        levels@ == seq![
            application_hash_spec(application.spec_bytes()) & 0x3f,
            (application_hash_spec(application.spec_bytes()) >> 6u32) & 0x3f,
            (application_hash_spec(application.spec_bytes()) >> 12u32) & 0x3f,
        ],
{
    let hash = application_hash(application);
    let levels = [hash & 0x3f, (hash >> 6) & 0x3f, (hash >> 12) & 0x3f];
    proof {
        assert(levels@ =~= seq![hash & 0x3f, (hash >> 6u32) & 0x3f, (hash >> 12u32) & 0x3f]);
    }
    levels
}

/// Whether a character has the Unicode property White_Space: the controls
/// U+0009 to U+000D and U+0085, the spaces U+0020, U+00A0, U+1680, U+2000
/// to U+200A, U+202F, U+205F and U+3000, and the separators U+2028 and
/// U+2029.
pub open spec fn is_white_space(c: char) -> bool {
    let n = c as u32;
    ||| 0x9 <= n <= 0xd
    ||| n == 0x20
    ||| n == 0x85
    ||| n == 0xa0
    ||| n == 0x1680
    ||| 0x2000 <= n <= 0x200a
    ||| n == 0x2028
    ||| n == 0x2029
    ||| n == 0x202f
    ||| n == 0x205f
    ||| n == 0x3000
}

/// How many white-space characters the text begins with.
pub open spec fn leading_white_space(text: Seq<char>) -> nat
    decreases text.len(),
{
    if text.len() > 0 && is_white_space(text[0]) {
        1 + leading_white_space(text.drop_first())
    } else {
        0
    }
}

/// How many white-space characters the text ends with.
pub open spec fn trailing_white_space(text: Seq<char>) -> nat
    decreases text.len(),
{
    if text.len() > 0 && is_white_space(text.last()) {
        1 + trailing_white_space(text.drop_last())
    } else {
        0
    }
}

/// A text without its leading and trailing white space.
pub open spec fn trimmed_text(text: Seq<char>) -> Seq<char> {
    let rest = text.skip(leading_white_space(text) as int);
    rest.take(rest.len() - trailing_white_space(rest))
}

proof fn lemma_leading_white_space(text: Seq<char>)
    ensures
        leading_white_space(text) <= text.len(),
        leading_white_space(text) == text.len() <==> forall|i: int|
            0 <= i < text.len() ==> is_white_space(#[trigger] text[i]),
    decreases text.len(),
{
    if text.len() > 0 && is_white_space(text[0]) {
        let rest = text.drop_first();
        lemma_leading_white_space(rest);
        if leading_white_space(text) == text.len() {
            assert forall|i: int| 0 <= i < text.len() implies is_white_space(#[trigger] text[i]) by {
                if i > 0 {
                    assert(text[i] == rest[i - 1]);
                }
            }
        }
        if forall|i: int| 0 <= i < text.len() ==> is_white_space(#[trigger] text[i]) {
            assert forall|i: int| 0 <= i < rest.len() implies is_white_space(#[trigger] rest[i]) by {
                assert(rest[i] == text[i + 1]);
            }
        }
    } else if text.len() > 0 {
        assert(!is_white_space(text[0]));
    }
}

proof fn lemma_trailing_white_space(text: Seq<char>)
    ensures
        trailing_white_space(text) <= text.len(),
        text.len() > 0 && !is_white_space(text[0]) ==> trailing_white_space(text) < text.len(),
    decreases text.len(),
{
    if text.len() > 0 && is_white_space(text.last()) {
        let rest = text.drop_last();
        lemma_trailing_white_space(rest);
        if rest.len() > 0 {
            assert(rest[0] == text[0]);
        }
    }
}

/// A text trims to nothing exactly when all its characters are white
/// space.
pub proof fn law_trimmed_empty_iff_all_white_space(text: Seq<char>)
    ensures
        trimmed_text(text).len() == 0 <==> forall|i: int|
            0 <= i < text.len() ==> is_white_space(#[trigger] text[i]),
{
    lemma_leading_white_space(text);
    let rest = text.skip(leading_white_space(text) as int);
    lemma_trailing_white_space(rest);
    if leading_white_space(text) < text.len() {
        assert(rest[0] == text[leading_white_space(text) as int]);
        if is_white_space(rest[0]) {
            lemma_leading_not_longer(text);
        }
    }
}

/// The character after the leading white space is not white space.
proof fn lemma_leading_not_longer(text: Seq<char>)
    requires
        leading_white_space(text) < text.len(),
    ensures
        !is_white_space(text[leading_white_space(text) as int]),
    decreases text.len(),
{
    if text.len() > 0 && is_white_space(text[0]) {
        let rest = text.drop_first();
        lemma_leading_not_longer(rest);
        assert(rest[leading_white_space(rest) as int] == text[leading_white_space(text) as int]);
    }
}

/// `str::trim` from std, which documents that it removes the leading and
/// trailing characters of the Unicode property White_Space.
#[verifier::external_body]
pub(crate) fn trimmed(text: &str) -> (trimmed: String)
    ensures
        trimmed@ == trimmed_text(text@),
{
    text.trim().to_owned()
}

/// Whether std's `char::is_alphanumeric` holds of a character.
pub uninterp spec fn is_alphanumeric_char(c: char) -> bool;

/// `char::is_alphanumeric` from std. The contract names the answer.
#[verifier::external_body]
fn is_alphanumeric(c: char) -> (alphanumeric: bool)
    ensures
        alphanumeric == is_alphanumeric_char(c),
{
    c.is_alphanumeric()
}

/// The first character of std's uppercase mapping of a character.
pub uninterp spec fn uppercase_char(c: char) -> char;

/// `char::to_uppercase` from std, its first character (the character
/// itself if the mapping were empty). The contract names the result.
#[verifier::external_body]
fn uppercase(c: char) -> (upper: char)
    ensures
        upper == uppercase_char(c),
{
    c.to_uppercase().next().unwrap_or(c)
}

/// The room for the label in a title bar `width` units wide: what is left
/// of the three buttons and the icon, at seven units a character.
pub open spec fn label_capacity(width: int) -> int {
    max_int(width - CHROME_BUTTON_WIDTH * 3 - 48, 0) / 7
}

/// The label of a title bar `width` units wide: the window's title, or the
/// application's name when the title is blank, cut to fit.
pub fn chrome_label(title: &str, application: &str, width: i32) -> (label: String)
    ensures
        label@ == truncated(
            if trimmed_text(title@).len() == 0 {
                application@
            } else {
                title@
            },
            label_capacity(width as int),
        ),
{
    let room = width as i64 - (CHROME_BUTTON_WIDTH * 3) as i64 - 48;
    let room: i64 = if room > 0 {
        room
    } else {
        0
    };
    let capacity = (room / 7) as usize;
    let text = if char_count(trimmed(title).as_str()) == 0 {
        application
    } else {
        title
    };
    truncate_label(text, capacity)
}

/// The first character of `s` for which `p` holds.
pub open spec fn first_where(s: Seq<char>, p: spec_fn(char) -> bool) -> Option<char>
    decreases s.len(),
{
    if s.len() == 0 {
        None
    } else if p(s[0]) {
        Some(s[0])
    } else {
        first_where(s.drop_first(), p)
    }
}

pub open spec fn letter_or_digit() -> spec_fn(char) -> bool {
    |c: char| is_alphanumeric_char(c)
}

/// The letter on an application's icon: its first letter or digit in
/// uppercase, else `A`.
pub fn icon_glyph(application: &str) -> (glyph: char)
    ensures
        glyph == match first_where(application@, letter_or_digit()) {
            Some(c) => uppercase_char(c),
            None => uppercase_char('A'),
        },
{
    crate::text::char_count_fits(application);
    let ghost p = letter_or_digit();
    let mut found: Option<char> = None;
    proof {
        assert(application@.skip(0) =~= application@);
    }
    for c in it: application.chars()
        invariant
            it.seq() == application@,
            application@.len() <= usize::MAX,
            p == letter_or_digit(),
            first_where(application@, p) == match found {
                Some(f) => Some(f),
                None => first_where(application@.skip(it.index() as int), p),
            },
    {
        proof {
            let rest = application@.skip(it.index() as int);
            assert(rest[0] == c);
            assert(rest.drop_first() =~= application@.skip(it.index() + 1));
        }
        if found.is_none() && is_alphanumeric(c) {
            found = Some(c);
        }
    }
    proof {
        assert(application@.skip(application@.len() as int).len() == 0);
    }
    match found {
        Some(c) => uppercase(c),
        None => uppercase('A'),
    }
}

} // verus!
