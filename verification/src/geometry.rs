//! Axis-aligned rectangles, the intersection-over-union (IoU) overlap metric,
//! and the containment predicate.
//!
//! Coordinates are integers.  The IoU of two rectangles is a rational number;
//! it is represented exactly by a numerator and a denominator, so the
//! comparison against a rational threshold is exact.  Degenerate or inverted
//! rectangles are legal inputs: the intersection extent is clamped to zero, and
//! a zero union denominator yields an IoU of zero rather than a division error.

use vstd::prelude::*;

verus! {

/// Largest coordinate magnitude the exec arithmetic accepts; keeps every
/// intermediate product of the IoU computation inside `i64`.
pub const COORD_LIMIT: i64 = 1_000_000;

/// An axis-aligned rectangle given by its minimum and maximum corners.
/// The corners may be supplied in any order: an inverted rectangle simply has
/// a negative extent, and the overlap metric treats it as having no
/// intersection with anything.
#[derive(Clone, Copy, PartialEq, Eq, Structural, Debug)]
pub struct Rect {
    pub x_min: i64,
    pub y_min: i64,
    pub x_max: i64,
    pub y_max: i64,
}

/// An overlap threshold, as the exact rational `num / den`.
/// Conceptually in [0, 1], but any rational is accepted, as the comparison
/// with the IoU is total.
#[derive(Clone, Copy, PartialEq, Eq, Structural, Debug)]
pub struct Threshold {
    pub num: i64,
    pub den: i64,
}

impl Rect {
    /// All coordinates are small enough for exact 64-bit arithmetic.
    pub open spec fn wf(self) -> bool {
        &&& -COORD_LIMIT <= self.x_min <= COORD_LIMIT
        &&& -COORD_LIMIT <= self.y_min <= COORD_LIMIT
        &&& -COORD_LIMIT <= self.x_max <= COORD_LIMIT
        &&& -COORD_LIMIT <= self.y_max <= COORD_LIMIT
    }
}

impl Threshold {
    /// The denominator is positive and both parts are small enough for exact
    /// 64-bit arithmetic.
    pub open spec fn wf(self) -> bool {
        &&& 0 < self.den <= COORD_LIMIT
        &&& -COORD_LIMIT <= self.num <= COORD_LIMIT
    }
}

pub open spec fn clamp0(v: int) -> int {
    if v < 0 {
        0
    } else {
        v
    }
}

pub open spec fn smaller(x: int, y: int) -> int {
    if x <= y {
        x
    } else {
        y
    }
}

pub open spec fn larger(x: int, y: int) -> int {
    if x >= y {
        x
    } else {
        y
    }
}

/// Signed area of a rectangle: negative extents are not clamped here, exactly
/// as in the IoU formula, where only the intersection extent is clamped.
pub open spec fn rect_area(r: Rect) -> int {
    (r.x_max - r.x_min) * (r.y_max - r.y_min)
}

/// Area of the intersection of two rectangles, with each extent clamped to
/// zero from below, so it is never negative.
pub open spec fn inter_area(a: Rect, b: Rect) -> int {
    clamp0(smaller(a.x_max as int, b.x_max as int) - larger(a.x_min as int, b.x_min as int))
        * clamp0(smaller(a.y_max as int, b.y_max as int) - larger(a.y_min as int, b.y_min as int))
}

/// The denominator of the raw IoU fraction: area(a) + area(b) - intersection.
pub open spec fn union_area(a: Rect, b: Rect) -> int {
    rect_area(a) + rect_area(b) - inter_area(a, b)
}

/// Numerator of the IoU value in normalized form: the IoU of `a` and `b` is
/// exactly `iou_num(a, b) / iou_den(a, b)`, with a positive denominator.
/// A zero union is mapped to 0/1, the defined guard value.
pub open spec fn iou_num(a: Rect, b: Rect) -> int {
    if union_area(a, b) == 0 || inter_area(a, b) == 0 {
        0
    } else {
        inter_area(a, b)
    }
}

/// Denominator of the IoU value in normalized form; see `iou_num`.
pub open spec fn iou_den(a: Rect, b: Rect) -> int {
    if union_area(a, b) == 0 || inter_area(a, b) == 0 {
        1
    } else {
        union_area(a, b)
    }
}

/// Whether the IoU of `a` and `b` strictly exceeds the threshold `t`.
/// Since `iou_den` and `t.den` are positive, the cross-multiplied comparison
/// is exactly `iou > t.num / t.den`.
pub open spec fn iou_exceeds(a: Rect, b: Rect, t: Threshold) -> bool {
    iou_num(a, b) * t.den > t.num * iou_den(a, b)
}

/// Whether `a` fully encloses `b` on all four sides.
pub open spec fn rect_contains(a: Rect, b: Rect) -> bool {
    &&& a.x_min <= b.x_min
    &&& a.y_min <= b.y_min
    &&& a.x_max >= b.x_max
    &&& a.y_max >= b.y_max
}

/// A positive intersection forces both rectangles to be proper, bounds the
/// intersection by each area, and so bounds the union from below.
proof fn lemma_inter_vs_areas(a: Rect, b: Rect)
    ensures
        inter_area(a, b) >= 0,
        inter_area(a, b) > 0 ==> rect_area(a) >= inter_area(a, b),
        inter_area(a, b) > 0 ==> rect_area(b) >= inter_area(a, b),
        inter_area(a, b) > 0 ==> union_area(a, b) >= inter_area(a, b),
{
    let iw = clamp0(smaller(a.x_max as int, b.x_max as int) - larger(a.x_min as int, b.x_min as int));
    let ih = clamp0(smaller(a.y_max as int, b.y_max as int) - larger(a.y_min as int, b.y_min as int));
    assert(inter_area(a, b) >= 0) by (nonlinear_arith)
        requires
            iw >= 0,
            ih >= 0,
            inter_area(a, b) == iw * ih,
    ;
    if inter_area(a, b) > 0 {
        assert(iw > 0 && ih > 0) by (nonlinear_arith)
            requires
                iw >= 0,
                ih >= 0,
                iw * ih > 0,
        ;
        let aw = a.x_max - a.x_min;
        let ah = a.y_max - a.y_min;
        let bw = b.x_max - b.x_min;
        let bh = b.y_max - b.y_min;
        assert(aw >= iw && ah >= ih && bw >= iw && bh >= ih);
        assert(rect_area(a) >= inter_area(a, b)) by (nonlinear_arith)
            requires
                aw >= iw,
                ah >= ih,
                iw > 0,
                ih > 0,
                rect_area(a) == aw * ah,
                inter_area(a, b) == iw * ih,
        ;
        assert(rect_area(b) >= inter_area(a, b)) by (nonlinear_arith)
            requires
                bw >= iw,
                bh >= ih,
                iw > 0,
                ih > 0,
                rect_area(b) == bw * bh,
                inter_area(a, b) == iw * ih,
        ;
    }
}

/// The IoU value is the same in either argument order, its denominator is
/// positive, and the value itself lies between 0 and 1:
/// `0 <= iou_num(a, b) <= iou_den(a, b)`.
pub proof fn lemma_iou_symmetric_and_bounded(a: Rect, b: Rect)
    ensures
        iou_num(a, b) == iou_num(b, a),
        iou_den(a, b) == iou_den(b, a),
        0 <= iou_num(a, b),
        1 <= iou_den(a, b),
        iou_num(a, b) <= iou_den(a, b),
{
    assert(inter_area(a, b) == inter_area(b, a));
    assert(union_area(a, b) == union_area(b, a));
    lemma_inter_vs_areas(a, b);
}

/// The zero-union guard: when both rectangles have zero area, the intersection
/// and the union are both zero, and the IoU is the defined value 0 (as 0/1)
/// rather than a division error.  Consequently the overlap test fires only for
/// a negative threshold.
pub proof fn lemma_zero_area_iou_zero(a: Rect, b: Rect, t: Threshold)
    requires
        rect_area(a) == 0,
        rect_area(b) == 0,
        t.wf(),
    ensures
        iou_num(a, b) == 0,
        iou_den(a, b) == 1,
        iou_exceeds(a, b, t) <==> t.num < 0,
{
    lemma_inter_vs_areas(a, b);
    assert(inter_area(a, b) == 0);
    assert(iou_exceeds(a, b, t) <==> 0 * t.den > t.num * 1);
}

/// Bounds on the normalized IoU fraction for well-formed rectangles; these
/// keep the threshold comparison inside `i64`.
proof fn lemma_iou_parts_in_range(a: Rect, b: Rect)
    requires
        a.wf(),
        b.wf(),
    ensures
        0 <= iou_num(a, b) <= 4_000_000_000_000,
        1 <= iou_den(a, b) <= 8_000_000_000_000,
{
    lemma_inter_vs_areas(a, b);
    let iw = clamp0(smaller(a.x_max as int, b.x_max as int) - larger(a.x_min as int, b.x_min as int));
    let ih = clamp0(smaller(a.y_max as int, b.y_max as int) - larger(a.y_min as int, b.y_min as int));
    assert(inter_area(a, b) <= 4_000_000_000_000) by (nonlinear_arith)
        requires
            0 <= iw <= 2_000_000,
            0 <= ih <= 2_000_000,
            inter_area(a, b) == iw * ih,
    ;
    let aw = a.x_max - a.x_min;
    let ah = a.y_max - a.y_min;
    let bw = b.x_max - b.x_min;
    let bh = b.y_max - b.y_min;
    assert(-4_000_000_000_000 <= rect_area(a) <= 4_000_000_000_000) by (nonlinear_arith)
        requires
            -2_000_000 <= aw <= 2_000_000,
            -2_000_000 <= ah <= 2_000_000,
            rect_area(a) == aw * ah,
    ;
    assert(-4_000_000_000_000 <= rect_area(b) <= 4_000_000_000_000) by (nonlinear_arith)
        requires
            -2_000_000 <= bw <= 2_000_000,
            -2_000_000 <= bh <= 2_000_000,
            rect_area(b) == bw * bh,
    ;
}

/// Intersection and union of the two rectangles, as the exact fraction
/// `(iou_num, iou_den)` whose quotient is the IoU.
pub fn iou_parts(a: &Rect, b: &Rect) -> (r: (i64, i64))
    requires
        a.wf(),
        b.wf(),
    ensures
        r.0 == iou_num(*a, *b),
        r.1 == iou_den(*a, *b),
{
    let ix1 = if a.x_min >= b.x_min {
        a.x_min
    } else {
        b.x_min
    };
    let iy1 = if a.y_min >= b.y_min {
        a.y_min
    } else {
        b.y_min
    };
    let ix2 = if a.x_max <= b.x_max {
        a.x_max
    } else {
        b.x_max
    };
    let iy2 = if a.y_max <= b.y_max {
        a.y_max
    } else {
        b.y_max
    };
    let iw = if ix2 - ix1 > 0 {
        ix2 - ix1
    } else {
        0
    };
    let ih = if iy2 - iy1 > 0 {
        iy2 - iy1
    } else {
        0
    };
    proof {
        assert(0 <= (iw as int) * (ih as int) <= 4_000_000_000_000) by (nonlinear_arith)
            requires
                0 <= iw as int <= 2_000_000,
                0 <= ih as int <= 2_000_000,
        ;
    }
    let inter = iw * ih;
    let aw = a.x_max - a.x_min;
    let ah = a.y_max - a.y_min;
    let bw = b.x_max - b.x_min;
    let bh = b.y_max - b.y_min;
    proof {
        assert(-4_000_000_000_000 <= (aw as int) * (ah as int) <= 4_000_000_000_000)
            by (nonlinear_arith)
            requires
                -2_000_000 <= aw as int <= 2_000_000,
                -2_000_000 <= ah as int <= 2_000_000,
        ;
        assert(-4_000_000_000_000 <= (bw as int) * (bh as int) <= 4_000_000_000_000)
            by (nonlinear_arith)
            requires
                -2_000_000 <= bw as int <= 2_000_000,
                -2_000_000 <= bh as int <= 2_000_000,
        ;
    }
    let area_a = aw * ah;
    let area_b = bw * bh;
    let u_area = area_a + area_b - inter;
    if u_area == 0 || inter == 0 {
        (0, 1)
    } else {
        (inter, u_area)
    }
}

/// Whether the IoU of `a` and `b` strictly exceeds the threshold, computed
/// exactly by cross-multiplication.
pub fn iou_gt(a: &Rect, b: &Rect, t: &Threshold) -> (r: bool)
    requires
        a.wf(),
        b.wf(),
        t.wf(),
    ensures
        r == iou_exceeds(*a, *b, *t),
{
    let parts = iou_parts(a, b);
    let num = parts.0;
    let den = parts.1;
    proof {
        lemma_iou_parts_in_range(*a, *b);
        assert((num as int) * (t.den as int) <= 4_000_000_000_000_000_000) by (nonlinear_arith)
            requires
                0 <= num as int <= 4_000_000_000_000,
                0 < t.den as int <= 1_000_000,
        ;
        assert(-8_000_000_000_000_000_000 <= (t.num as int) * (den as int)
            <= 8_000_000_000_000_000_000) by (nonlinear_arith)
            requires
                -1_000_000 <= t.num as int <= 1_000_000,
                1 <= den as int <= 8_000_000_000_000,
        ;
    }
    num * t.den > t.num * den
}

/// Whether `a` fully encloses `b`; total over all rectangles.
pub fn contained(a: &Rect, b: &Rect) -> (r: bool)
    ensures
        r == rect_contains(*a, *b),
{
    a.x_min <= b.x_min && a.y_min <= b.y_min && a.x_max >= b.x_max && a.y_max >= b.y_max
}

} // verus!
