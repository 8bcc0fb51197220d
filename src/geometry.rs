//! Segments, points and crop rectangles, and the crop that a segment asks for.
use vstd::prelude::*;
use crate::ONE;

verus! {

/// A point in frame coordinates, scaled by `ONE`.
#[derive(Clone, Copy, Debug, PartialEq, Eq, Structural)]
pub struct XY {
    pub x: i64,
    pub y: i64,
}

impl XY {
    pub fn new(x: i64, y: i64) -> (r: XY)
        ensures
            r.x == x,
            r.y == y,
    {
        XY { x, y }
    }
}

/// Where a segment zooms towards.
#[derive(Clone, Copy, Debug, PartialEq, Eq, Structural)]
pub enum ZoomMode {
    /// Zooms towards the frame's corner `(0, 0)`.
    Auto,
    /// Zooms towards `(x, y)`, normalized frame coordinates scaled by `ONE`.
    Manual { x: u32, y: u32 },
}

/// One interval of the timeline: from `start` to `end` (milliseconds) the frame
/// is zoomed in by `amount` (scaled by `ONE`) towards the focus given by `mode`.
#[derive(Clone, Copy, Debug, PartialEq, Eq, Structural)]
pub struct ZoomSegment {
    pub start: u64,
    pub end: u64,
    pub amount: u32,
    pub mode: ZoomMode,
}

/// A crop rectangle in frame coordinates scaled by `ONE`.
#[derive(Clone, Copy, Debug, PartialEq, Eq, Structural)]
pub struct SegmentBounds {
    pub top_left: XY,
    pub bottom_right: XY,
}

/// A crop rectangle over mathematical integers.
pub struct BoundsModel {
    pub left: int,
    pub top: int,
    pub right: int,
    pub bottom: int,
}

/// Largest magnitude of any coordinate that the library computes.
pub open spec fn coord_limit() -> int {
    0x4000_0000_0000
}

pub open spec fn coord_ok(v: int) -> bool {
    -coord_limit() <= v <= coord_limit()
}

pub open spec fn bounds_ok(b: BoundsModel) -> bool {
    coord_ok(b.left) && coord_ok(b.top) && coord_ok(b.right) && coord_ok(b.bottom)
}

/// The focus point of a mode.
pub open spec fn focus_of(mode: ZoomMode) -> (int, int) {
    match mode {
        ZoomMode::Auto => (0, 0),
        ZoomMode::Manual { x, y } => (x as int, y as int),
    }
}

/// How far a focus coordinate moves when the frame is scaled by `amount`.
pub open spec fn focus_shift(c: int, amount: int) -> int {
    c * amount / (ONE as int) - c
}

/// The crop that keeps the segment's focus point in place at its zoom amount.
pub open spec fn segment_bounds_model(s: ZoomSegment) -> BoundsModel {
    let (fx, fy) = focus_of(s.mode);
    BoundsModel {
        left: 0 - focus_shift(fx, s.amount as int),
        top: 0 - focus_shift(fy, s.amount as int),
        right: s.amount - focus_shift(fx, s.amount as int),
        bottom: s.amount - focus_shift(fy, s.amount as int),
    }
}

/// The whole frame: no crop.
pub open spec fn identity_bounds() -> BoundsModel {
    BoundsModel { left: 0, top: 0, right: ONE as int, bottom: ONE as int }
}

/// Linear interpolation from `a` (at `t == 0`) to `b` (at `t == ONE`),
/// rounded towards `a`.
pub open spec fn lerp(a: int, b: int, t: int) -> int {
    if a <= b {
        a + (b - a) * t / (ONE as int)
    } else {
        a - (a - b) * t / (ONE as int)
    }
}

pub open spec fn lerp_bounds(a: BoundsModel, b: BoundsModel, t: int) -> BoundsModel {
    BoundsModel {
        left: lerp(a.left, b.left, t),
        top: lerp(a.top, b.top, t),
        right: lerp(a.right, b.right, t),
        bottom: lerp(a.bottom, b.bottom, t),
    }
}

/// A result of interpolation lies between its two ends.
pub proof fn lemma_lerp_between(a: int, b: int, t: int)
    requires
        0 <= t <= ONE,
    ensures
        a <= b ==> a <= lerp(a, b, t) <= b,
        b < a ==> b <= lerp(a, b, t) <= a,
        t == 0 ==> lerp(a, b, t) == a,
        t == ONE ==> lerp(a, b, t) == b,
{
    let d = if a <= b { b - a } else { a - b };
    assert(0 <= d * t <= d * (ONE as int)) by (nonlinear_arith)
        requires
            0 <= d,
            0 <= t <= ONE,
    ;
    vstd::arithmetic::div_mod::lemma_div_is_ordered(d * t, d * (ONE as int), ONE as int);
    vstd::arithmetic::div_mod::lemma_div_multiples_vanish(d, ONE as int);
    vstd::arithmetic::div_mod::lemma_div_is_ordered(0, d * t, ONE as int);
    if t == ONE {
        assert(d * t == d * (ONE as int));
    }
}

/// Interpolation moves monotonically from `a` towards `b` as `t` grows.
pub proof fn lemma_lerp_monotone(a: int, b: int, t1: int, t2: int)
    requires
        0 <= t1 <= t2 <= ONE,
    ensures
        a <= b ==> lerp(a, b, t1) <= lerp(a, b, t2),
        b < a ==> lerp(a, b, t1) >= lerp(a, b, t2),
{
    let d = if a <= b { b - a } else { a - b };
    assert(d * t1 <= d * t2) by (nonlinear_arith)
        requires
            0 <= d,
            t1 <= t2,
    ;
    vstd::arithmetic::div_mod::lemma_div_is_ordered(d * t1, d * t2, ONE as int);
}

pub proof fn lemma_lerp_bounds_ok(a: BoundsModel, b: BoundsModel, t: int)
    requires
        bounds_ok(a),
        bounds_ok(b),
        0 <= t <= ONE,
    ensures
        bounds_ok(lerp_bounds(a, b, t)),
{
    lemma_lerp_between(a.left, b.left, t);
    lemma_lerp_between(a.top, b.top, t);
    lemma_lerp_between(a.right, b.right, t);
    lemma_lerp_between(a.bottom, b.bottom, t);
}

proof fn lemma_shift_range(c: int, amount: int)
    requires
        0 <= c <= u32::MAX,
        0 <= amount <= u32::MAX,
    ensures
        0 <= c * amount <= u64::MAX,
        0 <= c * amount / (ONE as int) <= 0x2000_0000_0000,
{
    assert(0 <= c * amount <= 0xffff_ffff * 0xffff_ffff) by (nonlinear_arith)
        requires
            0 <= c <= 0xffff_ffff,
            0 <= amount <= 0xffff_ffff,
    ;
    vstd::arithmetic::div_mod::lemma_div_is_ordered(c * amount, (0xffff_ffff * 0xffff_ffff) as int, ONE as int);
    vstd::arithmetic::div_mod::lemma_div_is_ordered(0, c * amount, ONE as int);
}

pub proof fn lemma_segment_bounds_ok(s: ZoomSegment)
    ensures
        bounds_ok(segment_bounds_model(s)),
{
    let (fx, fy) = focus_of(s.mode);
    lemma_shift_range(fx, s.amount as int);
    lemma_shift_range(fy, s.amount as int);
}

impl SegmentBounds {
    pub open spec fn model(&self) -> BoundsModel {
        BoundsModel {
            left: self.top_left.x as int,
            top: self.top_left.y as int,
            right: self.bottom_right.x as int,
            bottom: self.bottom_right.y as int,
        }
    }

    pub fn new(top_left: XY, bottom_right: XY) -> (r: SegmentBounds)
        ensures
            r.top_left == top_left,
            r.bottom_right == bottom_right,
    {
        SegmentBounds { top_left, bottom_right }
    }

    /// The whole frame, `(0, 0)` to `(ONE, ONE)`.
    pub fn default() -> (r: SegmentBounds)
        ensures
            r.model() == identity_bounds(),
    {
        SegmentBounds::new(XY::new(0, 0), XY::new(ONE as i64, ONE as i64))
    }

    /// The crop that keeps the segment's focus point fixed on screen while the
    /// frame is scaled by the segment's amount.
    pub fn from_segment(segment: &ZoomSegment) -> (r: SegmentBounds)
        ensures
            r.model() == segment_bounds_model(*segment),
    {
        let (fx, fy): (u64, u64) = match segment.mode {
            ZoomMode::Auto => (0, 0),
            ZoomMode::Manual { x, y } => (x as u64, y as u64),
        };
        let amount = segment.amount as u64;
        proof {
            lemma_shift_range(fx as int, amount as int);
            lemma_shift_range(fy as int, amount as int);
        }
        let shift_x: i64 = (fx * amount / ONE) as i64 - fx as i64;
        let shift_y: i64 = (fy * amount / ONE) as i64 - fy as i64;
        SegmentBounds::new(
            XY::new(0 - shift_x, 0 - shift_y),
            XY::new(amount as i64 - shift_x, amount as i64 - shift_y),
        )
    }

    /// The rectangle a share `t` (scaled by `ONE`) of the way from `self` to `to`.
    pub fn lerp(&self, to: &SegmentBounds, t: u64) -> (r: SegmentBounds)
        requires
            bounds_ok(self.model()),
            bounds_ok(to.model()),
            t <= ONE,
        ensures
            r.model() == lerp_bounds(self.model(), to.model(), t as int),
    {
        SegmentBounds::new(
            XY::new(lerp_coord(self.top_left.x, to.top_left.x, t), lerp_coord(self.top_left.y, to.top_left.y, t)),
            XY::new(
                lerp_coord(self.bottom_right.x, to.bottom_right.x, t),
                lerp_coord(self.bottom_right.y, to.bottom_right.y, t),
            ),
        )
    }
}

/// Interpolates one coordinate.
pub fn lerp_coord(a: i64, b: i64, t: u64) -> (r: i64)
    requires
        coord_ok(a as int),
        coord_ok(b as int),
        t <= ONE,
    ensures
        r == lerp(a as int, b as int, t as int),
{
    proof {
        lemma_lerp_between(a as int, b as int, t as int);
    }
    if a <= b {
        let d: u128 = (b as i128 - a as i128) as u128;
        proof {
            assert(d * t <= 0x8000_0000_0000 * 1_000_000) by (nonlinear_arith)
                requires
                    d <= 0x8000_0000_0000,
                    t <= 1_000_000,
            ;
        }
        let q: u128 = d * (t as u128) / (ONE as u128);
        (a as i128 + q as i128) as i64
    } else {
        let d: u128 = (a as i128 - b as i128) as u128;
        proof {
            assert(d * t <= 0x8000_0000_0000 * 1_000_000) by (nonlinear_arith)
                requires
                    d <= 0x8000_0000_0000,
                    t <= 1_000_000,
            ;
        }
        let q: u128 = d * (t as u128) / (ONE as u128);
        (a as i128 - q as i128) as i64
    }
}

} // verus!
