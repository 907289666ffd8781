use vstd::prelude::*;

verus! {

/// Fixed-point scale of a split ratio: a ratio of `RATIO_SCALE` gives the whole
/// extent to the first child.
pub const RATIO_SCALE: i32 = 10_000;

/// The ratio of a freshly created split: half of the extent on each side.
pub const HALF_RATIO: u16 = 5_000;

/// Thickness of the spine that a collapsed region is drawn as.
pub const COLLAPSED_SPINE_SIZE: i32 = 28;

/// The largest width or height for which the fixed-point split arithmetic
/// stays inside `i32`.
pub const MAX_EXTENT: i32 = 214_748;

/// An axis-aligned rectangle in logical output coordinates.
#[derive(Clone, Copy, Debug, PartialEq, Eq, Structural)]
pub struct Rect {
    pub x: i32,
    pub y: i32,
    pub width: i32,
    pub height: i32,
}

/// The direction along which a split divides its area.
#[derive(Clone, Copy, Debug, PartialEq, Eq, Structural)]
pub enum Axis {
    Horizontal,
    Vertical,
}

/// Division rounding toward zero, as Rust's `/` on signed integers does.
pub open spec fn trunc_div(p: int, d: int) -> int {
    if p >= 0 {
        p / d
    } else {
        -((-p) / d)
    }
}

/// `Ord::clamp` on integers with `lo <= hi`; `hi` when the bounds cross.
pub open spec fn clamp_int(v: int, lo: int, hi: int) -> int {
    if v < lo {
        lo
    } else if v > hi {
        hi
    } else {
        v
    }
}

pub open spec fn min_int(a: int, b: int) -> int {
    if a <= b {
        a
    } else {
        b
    }
}

pub open spec fn max_int(a: int, b: int) -> int {
    if a >= b {
        a
    } else {
        b
    }
}

impl Rect {
    pub fn new(x: i32, y: i32, width: i32, height: i32) -> (rect: Rect)
        ensures
            rect == (Rect { x, y, width, height }),
    {
        Rect { x, y, width, height }
    }

    /// The extents are small enough for the split arithmetic and the far
    /// edges are representable.
    pub open spec fn is_bounded(self) -> bool {
        &&& -MAX_EXTENT <= self.width <= MAX_EXTENT
        &&& -MAX_EXTENT <= self.height <= MAX_EXTENT
        &&& i32::MIN <= self.x + self.width <= i32::MAX
        &&& i32::MIN <= self.y + self.height <= i32::MAX
    }

    /// The rectangle is at least as large as `minimum` in both directions.
    pub open spec fn supports_spec(self, minimum: (int, int)) -> bool {
        self.width >= minimum.0 && self.height >= minimum.1
    }

    pub open spec fn contains_point(self, x: int, y: int) -> bool {
        &&& self.x <= x < self.x + self.width
        &&& self.y <= y < self.y + self.height
    }

    pub fn supports(self, minimum: (i32, i32)) -> (supported: bool)
        ensures
            supported == self.supports_spec((minimum.0 as int, minimum.1 as int)),
    {
        self.width >= minimum.0 && self.height >= minimum.1
    }
}

pub open spec fn spec_axis_extent(area: Rect, axis: Axis) -> int {
    match axis {
        Axis::Horizontal => area.width as int,
        Axis::Vertical => area.height as int,
    }
}

/// Cuts `area` along `axis` after `first` units of its extent.
pub open spec fn cut(area: Rect, axis: Axis, first: int) -> (Rect, Rect) {
    match axis {
        Axis::Horizontal => (
            Rect { x: area.x, y: area.y, width: first as i32, height: area.height },
            Rect {
                x: (area.x + first) as i32,
                y: area.y,
                width: (area.width - first) as i32,
                height: area.height,
            },
        ),
        Axis::Vertical => (
            Rect { x: area.x, y: area.y, width: area.width, height: first as i32 },
            Rect {
                x: area.x,
                y: (area.y + first) as i32,
                width: area.width,
                height: (area.height - first) as i32,
            },
        ),
    }
}

/// The first child receives `ratio / RATIO_SCALE` of the extent, rounded
/// toward zero; the second child receives the rest.
pub open spec fn spec_split(area: Rect, axis: Axis, ratio: int) -> (Rect, Rect) {
    cut(area, axis, trunc_div(spec_axis_extent(area, axis) * ratio, RATIO_SCALE as int))
}

/// Cuts after `first_extent`, clamped into `0..=extent`.
pub open spec fn spec_split_at(area: Rect, axis: Axis, first_extent: int) -> (Rect, Rect) {
    cut(area, axis, clamp_int(first_extent, 0, spec_axis_extent(area, axis)))
}

/// A collapsed side gets a spine of at most `COLLAPSED_SPINE_SIZE`; otherwise
/// the ratio decides.
pub open spec fn spec_split_for_collapsed(
    area: Rect,
    axis: Axis,
    ratio: int,
    first_collapsed: bool,
    second_collapsed: bool,
) -> (Rect, Rect) {
    let extent = spec_axis_extent(area, axis);
    if first_collapsed && !second_collapsed {
        spec_split_at(area, axis, min_int(COLLAPSED_SPINE_SIZE as int, extent))
    } else if !first_collapsed && second_collapsed {
        spec_split_at(area, axis, extent - min_int(COLLAPSED_SPINE_SIZE as int, extent))
    } else {
        spec_split(area, axis, ratio)
    }
}

/// The spine rectangle of a collapsed region placed in `area`: it keeps the
/// full extent across its parent's axis and at most `COLLAPSED_SPINE_SIZE`
/// along it (vertical when there is no parent).
pub open spec fn spine(area: Rect, inherited: Option<Axis>) -> Rect {
    match inherited {
        Some(Axis::Horizontal) => Rect {
            x: area.x,
            y: area.y,
            width: min_int(area.width as int, COLLAPSED_SPINE_SIZE as int) as i32,
            height: area.height,
        },
        _ => Rect {
            x: area.x,
            y: area.y,
            width: area.width,
            height: min_int(area.height as int, COLLAPSED_SPINE_SIZE as int) as i32,
        },
    }
}

pub proof fn lemma_scaled_extent(w: int, r: int)
    requires
        0 <= r <= RATIO_SCALE,
    ensures
        w >= 0 ==> 0 <= trunc_div(w * r, RATIO_SCALE as int) <= w,
        w < 0 ==> w <= trunc_div(w * r, RATIO_SCALE as int) <= 0,
{
    if w >= 0 {
        assert(0 <= w * r <= w * 10000) by (nonlinear_arith)
            requires
                w >= 0,
                0 <= r <= 10000,
        ;
        assert(0 <= (w * r) / 10000 <= w) by (nonlinear_arith)
            requires
                0 <= w * r <= w * 10000,
        ;
    } else {
        assert(0 <= (-w) * r <= (-w) * 10000) by (nonlinear_arith)
            requires
                w < 0,
                0 <= r <= 10000,
        ;
        assert(0 <= ((-w) * r) / 10000 <= -w) by (nonlinear_arith)
            requires
                0 <= (-w) * r <= (-w) * 10000,
        ;
        assert(-(w * r) == (-w) * r) by (nonlinear_arith);
    }
}

/// Both halves of a cut inside the extent stay bounded.
pub proof fn lemma_cut_bounded(area: Rect, axis: Axis, first: int)
    requires
        area.is_bounded(),
        spec_axis_extent(area, axis) >= 0 ==> 0 <= first <= spec_axis_extent(area, axis),
        spec_axis_extent(area, axis) < 0 ==> spec_axis_extent(area, axis) <= first <= 0,
    ensures
        cut(area, axis, first).0.is_bounded(),
        cut(area, axis, first).1.is_bounded(),
{
}

pub proof fn lemma_split_bounded(area: Rect, axis: Axis, ratio: int)
    requires
        area.is_bounded(),
        0 <= ratio <= RATIO_SCALE,
    ensures
        spec_split(area, axis, ratio).0.is_bounded(),
        spec_split(area, axis, ratio).1.is_bounded(),
{
    lemma_scaled_extent(spec_axis_extent(area, axis), ratio);
    lemma_cut_bounded(
        area,
        axis,
        trunc_div(spec_axis_extent(area, axis) * ratio, RATIO_SCALE as int),
    );
}

pub proof fn lemma_split_for_collapsed_bounded(
    area: Rect,
    axis: Axis,
    ratio: int,
    first_collapsed: bool,
    second_collapsed: bool,
)
    requires
        area.is_bounded(),
        0 <= ratio <= RATIO_SCALE,
    ensures
        spec_split_for_collapsed(area, axis, ratio, first_collapsed, second_collapsed).0.is_bounded(),
        spec_split_for_collapsed(area, axis, ratio, first_collapsed, second_collapsed).1.is_bounded(),
{
    lemma_split_bounded(area, axis, ratio);
}

pub fn axis_extent(area: Rect, axis: Axis) -> (extent: i32)
    ensures
        extent == spec_axis_extent(area, axis),
{
    match axis {
        Axis::Horizontal => area.width,
        Axis::Vertical => area.height,
    }
}

fn cut_exec(area: Rect, axis: Axis, first: i32) -> (halves: (Rect, Rect))
    requires
        area.is_bounded(),
        spec_axis_extent(area, axis) >= 0 ==> 0 <= first <= spec_axis_extent(area, axis),
        spec_axis_extent(area, axis) < 0 ==> spec_axis_extent(area, axis) <= first <= 0,
    ensures
        halves == cut(area, axis, first as int),
        halves.0.is_bounded(),
        halves.1.is_bounded(),
{
    proof {
        lemma_cut_bounded(area, axis, first as int);
    }
    match axis {
        Axis::Horizontal => (
            Rect::new(area.x, area.y, first, area.height),
            Rect::new(area.x + first, area.y, area.width - first, area.height),
        ),
        Axis::Vertical => (
            Rect::new(area.x, area.y, area.width, first),
            Rect::new(area.x, area.y + first, area.width, area.height - first),
        ),
    }
}

/// Divides `area` along `axis` by a fixed-point `ratio`.
pub fn split(area: Rect, axis: Axis, ratio: u16) -> (halves: (Rect, Rect))
    requires
        area.is_bounded(),
        ratio <= RATIO_SCALE,
    ensures
        halves == spec_split(area, axis, ratio as int),
        halves.0.is_bounded(),
        halves.1.is_bounded(),
{
    let extent = axis_extent(area, axis);
    let r = ratio as i32;
    proof {
        lemma_scaled_extent(extent as int, r as int);
    }
    let first = if extent >= 0 {
        assert(0 <= extent * r <= extent * 10000) by (nonlinear_arith)
            requires
                0 <= extent <= MAX_EXTENT,
                0 <= r <= 10000,
        ;
        assert(extent * 10000 <= 2_147_480_000) by (nonlinear_arith)
            requires
                extent <= MAX_EXTENT,
        ;
        extent * r / RATIO_SCALE
    } else {
        let positive = -extent;
        assert(0 <= positive * r <= positive * 10000) by (nonlinear_arith)
            requires
                0 <= positive <= MAX_EXTENT,
                0 <= r <= 10000,
        ;
        assert(positive * 10000 <= 2_147_480_000) by (nonlinear_arith)
            requires
                positive <= MAX_EXTENT,
        ;
        assert(-(extent * r) == positive * r) by (nonlinear_arith)
            requires
                positive == -extent,
        ;
        -(positive * r / RATIO_SCALE)
    };
    cut_exec(area, axis, first)
}

fn clamp_i32(v: i32, lo: i32, hi: i32) -> (clamped: i32)
    ensures
        clamped == clamp_int(v as int, lo as int, hi as int),
{
    if v < lo {
        lo
    } else if v > hi {
        hi
    } else {
        v
    }
}

fn min_i32(a: i32, b: i32) -> (m: i32)
    ensures
        m == min_int(a as int, b as int),
{
    if a <= b {
        a
    } else {
        b
    }
}

/// Divides `area` along `axis` after `first_extent` units, clamped into the
/// extent.
pub fn split_at(area: Rect, axis: Axis, first_extent: i32) -> (halves: (Rect, Rect))
    requires
        area.is_bounded(),
    ensures
        halves == spec_split_at(area, axis, first_extent as int),
        halves.0.is_bounded(),
        halves.1.is_bounded(),
{
    let extent = axis_extent(area, axis);
    let first = clamp_i32(first_extent, 0, extent);
    cut_exec(area, axis, first)
}

/// Divides a split's area when one side is entirely collapsed: that side
/// shrinks to a spine and the other side takes the rest.
pub fn split_for_collapsed(
    area: Rect,
    axis: Axis,
    ratio: u16,
    first_collapsed: bool,
    second_collapsed: bool,
) -> (halves: (Rect, Rect))
    requires
        area.is_bounded(),
        ratio <= RATIO_SCALE,
    ensures
        halves == spec_split_for_collapsed(
            area,
            axis,
            ratio as int,
            first_collapsed,
            second_collapsed,
        ),
        halves.0.is_bounded(),
        halves.1.is_bounded(),
{
    let extent = axis_extent(area, axis);
    if first_collapsed && !second_collapsed {
        split_at(area, axis, min_i32(COLLAPSED_SPINE_SIZE, extent))
    } else if !first_collapsed && second_collapsed {
        let second = min_i32(COLLAPSED_SPINE_SIZE, extent);
        split_at(area, axis, extent - second)
    } else {
        split(area, axis, ratio)
    }
}

/// The rectangle a collapsed region occupies inside `area`.
pub fn spine_area(area: Rect, inherited: Option<Axis>) -> (rect: Rect)
    ensures
        rect == spine(area, inherited),
{
    match inherited {
        Some(Axis::Horizontal) => Rect::new(
            area.x,
            area.y,
            min_i32(area.width, COLLAPSED_SPINE_SIZE),
            area.height,
        ),
        _ => Rect::new(area.x, area.y, area.width, min_i32(area.height, COLLAPSED_SPINE_SIZE)),
    }
}

} // verus!
