//! The detection record and the overlap measure used to compare two
//! detections.
//!
//! A box stores its top-left corner, extent and fixed-point score; the
//! intersection-over-union of two boxes is an exact rational computed
//! in fixed point, with its full value pinned down by [`iou_spec`].

use vstd::prelude::*;

verus! {

use crate::fp::{FP_ONE, imax, imin, div_trunc, scale_div};
use vstd::arithmetic::mul::{
    lemma_mul_inequality,
    lemma_mul_nonnegative,
    lemma_mul_strictly_positive,
    lemma_mul_is_commutative,
};
use vstd::arithmetic::div_mod::{
    lemma_div_is_ordered,
    lemma_div_by_multiple,
    lemma_div_pos_is_pos,
    lemma_div_of0,
};

/// Largest magnitude a coordinate or extent may take; keeps every
/// area and scaled overlap within the wide intermediate type.
pub const COORD_LIMIT: i64 = 0x2000_0000_0000;

/// One detection: a class with its resolved label, a fixed-point
/// confidence score, and an axis-aligned rectangle in pixel space.
/// The corner may be negative (a box may extend off-frame), the
/// extents never are.
#[derive(Debug, PartialEq)]
pub struct BoundingBox {
    pub class_id: i32,
    pub label: String,
    pub score: i64,
    pub x: i64,
    pub y: i64,
    pub w: i64,
    pub h: i64,
}

impl BoundingBox {
    /// The record's invariant: a non-negative class, a score that is a
    /// probability, non-negative extents, and magnitudes small enough
    /// for exact area arithmetic.
    pub open spec fn valid(self) -> bool {
        &&& 0 <= self.class_id
        &&& 0 <= self.score <= FP_ONE
        &&& 0 <= self.w <= COORD_LIMIT
        &&& 0 <= self.h <= COORD_LIMIT
        &&& -COORD_LIMIT <= self.x <= COORD_LIMIT
        &&& -COORD_LIMIT <= self.y <= COORD_LIMIT
    }
}

impl Clone for BoundingBox {
    /// A clone is field-for-field equal to the original.
    fn clone(&self) -> (r: Self)
        ensures
            r == *self,
    {
        BoundingBox {
            class_id: self.class_id,
            label: self.label.clone(),
            score: self.score,
            x: self.x,
            y: self.y,
            w: self.w,
            h: self.h,
        }
    }
}

/// Intersection-over-union of two boxes, in fixed point: zero when
/// the rectangles miss each other on either axis or when both areas
/// vanish, otherwise the intersection area divided by the union area.
pub open spec fn iou_spec(a: BoundingBox, b: BoundingBox) -> int {
    let ix0 = imax(a.x as int, b.x as int);
    let iy0 = imax(a.y as int, b.y as int);
    let ix1 = imin(a.x + a.w, b.x + b.w);
    let iy1 = imin(a.y + a.h, b.y + b.h);
    if ix1 < ix0 || iy1 < iy0 {
        0
    } else {
        let inter = (ix1 - ix0) * (iy1 - iy0);
        let denom = a.w * a.h + b.w * b.h - inter;
        if denom == 0 {
            0
        } else {
            inter * FP_ONE / denom
        }
    }
}

/// The intersection area never exceeds either box's own area, so the
/// union denominator dominates it.
proof fn lemma_inter_within_areas(a: BoundingBox, b: BoundingBox)
    requires
        a.valid(),
        b.valid(),
        imin(a.x + a.w, b.x + b.w) >= imax(a.x as int, b.x as int),
        imin(a.y + a.h, b.y + b.h) >= imax(a.y as int, b.y as int),
    ensures
        0 <= (imin(a.x + a.w, b.x + b.w) - imax(a.x as int, b.x as int)) * (imin(
            a.y + a.h,
            b.y + b.h,
        ) - imax(a.y as int, b.y as int)),
        (imin(a.x + a.w, b.x + b.w) - imax(a.x as int, b.x as int)) * (imin(a.y + a.h, b.y + b.h)
            - imax(a.y as int, b.y as int)) <= a.w * a.h,
        (imin(a.x + a.w, b.x + b.w) - imax(a.x as int, b.x as int)) * (imin(a.y + a.h, b.y + b.h)
            - imax(a.y as int, b.y as int)) <= b.w * b.h,
{
    let dx = imin(a.x + a.w, b.x + b.w) - imax(a.x as int, b.x as int);
    let dy = imin(a.y + a.h, b.y + b.h) - imax(a.y as int, b.y as int);
    lemma_mul_nonnegative(dx, dy);
    assert(dx <= a.w && dy <= a.h && dx <= b.w && dy <= b.h);
    lemma_mul_inequality(dx, a.w as int, dy);
    lemma_mul_is_commutative(a.w as int, dy);
    lemma_mul_inequality(dy, a.h as int, a.w as int);
    lemma_mul_is_commutative(a.h as int, a.w as int);
    lemma_mul_inequality(dx, b.w as int, dy);
    lemma_mul_is_commutative(b.w as int, dy);
    lemma_mul_inequality(dy, b.h as int, b.w as int);
    lemma_mul_is_commutative(b.h as int, b.w as int);
}

/// The overlap measure is a fixed-point value in [0.0, 1.0] for every
/// valid pair of boxes.
pub proof fn lemma_iou_bounds(a: BoundingBox, b: BoundingBox)
    requires
        a.valid(),
        b.valid(),
    ensures
        0 <= iou_spec(a, b) <= FP_ONE,
{
    let ix0 = imax(a.x as int, b.x as int);
    let iy0 = imax(a.y as int, b.y as int);
    let ix1 = imin(a.x + a.w, b.x + b.w);
    let iy1 = imin(a.y + a.h, b.y + b.h);
    if ix1 < ix0 || iy1 < iy0 {
    } else {
        lemma_inter_within_areas(a, b);
        let inter = (ix1 - ix0) * (iy1 - iy0);
        let denom = a.w * a.h + b.w * b.h - inter;
        lemma_mul_nonnegative(a.w as int, a.h as int);
        lemma_mul_nonnegative(b.w as int, b.h as int);
        if denom != 0 {
            lemma_div_pos_is_pos(inter * FP_ONE, denom);
            assert(inter * FP_ONE <= denom * FP_ONE) by {
                lemma_mul_inequality(inter, denom, FP_ONE as int);
            }
            lemma_div_is_ordered(inter * FP_ONE, denom * FP_ONE, denom);
            lemma_mul_is_commutative(denom, FP_ONE as int);
            lemma_div_by_multiple(FP_ONE as int, denom);
            lemma_mul_nonnegative(inter, FP_ONE as int);
        }
    }
}

/// A box of positive extent compared with itself overlaps fully: the
/// measure is exactly 1.0.
pub proof fn lemma_iou_self(a: BoundingBox)
    requires
        a.valid(),
        a.w > 0,
        a.h > 0,
    ensures
        iou_spec(a, a) == FP_ONE,
{
    let inter = (a.x + a.w - a.x) * (a.y + a.h - a.y);
    assert(inter == a.w * a.h);
    lemma_mul_strictly_positive(a.w as int, a.h as int);
    lemma_mul_is_commutative(inter, FP_ONE as int);
    lemma_div_by_multiple(FP_ONE as int, inter);
}

/// Boxes that do not overlap on some axis (touching edges included)
/// have measure zero.
pub proof fn lemma_iou_disjoint(a: BoundingBox, b: BoundingBox)
    requires
        a.valid(),
        b.valid(),
        a.x + a.w <= b.x || b.x + b.w <= a.x || a.y + a.h <= b.y || b.y + b.h <= a.y,
    ensures
        iou_spec(a, b) == 0,
{
    let ix0 = imax(a.x as int, b.x as int);
    let iy0 = imax(a.y as int, b.y as int);
    let ix1 = imin(a.x + a.w, b.x + b.w);
    let iy1 = imin(a.y + a.h, b.y + b.h);
    if ix1 < ix0 || iy1 < iy0 {
    } else {
        let inter = (ix1 - ix0) * (iy1 - iy0);
        assert(ix1 == ix0 || iy1 == iy0);
        assert(inter == 0) by {
            vstd::arithmetic::mul::lemma_mul_by_zero_is_zero(ix1 - ix0);
            vstd::arithmetic::mul::lemma_mul_by_zero_is_zero(iy1 - iy0);
        }
        let denom = a.w * a.h + b.w * b.h - inter;
        if denom != 0 {
            lemma_div_of0(denom);
        }
    }
}

/// Exact intersection-over-union of two valid boxes: returns
/// `iou_spec(a, b)`, always a fixed-point value in [0.0, 1.0].
pub fn calculate_iou(bbox0: &BoundingBox, bbox1: &BoundingBox) -> (r: i64)
    requires
        bbox0.valid(),
        bbox1.valid(),
    ensures
        r == iou_spec(*bbox0, *bbox1),
        0 <= r <= FP_ONE,
{
    proof {
        lemma_iou_bounds(*bbox0, *bbox1);
    }
    let interx0 = if bbox0.x >= bbox1.x {
        bbox0.x
    } else {
        bbox1.x
    };
    let intery0 = if bbox0.y >= bbox1.y {
        bbox0.y
    } else {
        bbox1.y
    };
    let ax1 = bbox0.x + bbox0.w;
    let bx1 = bbox1.x + bbox1.w;
    let interx1 = if ax1 <= bx1 {
        ax1
    } else {
        bx1
    };
    let ay1 = bbox0.y + bbox0.h;
    let by1 = bbox1.y + bbox1.h;
    let intery1 = if ay1 <= by1 {
        ay1
    } else {
        by1
    };
    if interx1 < interx0 || intery1 < intery0 {
        return 0;
    }
    proof {
        lemma_inter_within_areas(*bbox0, *bbox1);
        lemma_mul_nonnegative(bbox0.w as int, bbox0.h as int);
        lemma_mul_nonnegative(bbox1.w as int, bbox1.h as int);
        vstd::arithmetic::mul::lemma_mul_upper_bound(
            interx1 - interx0,
            3 * COORD_LIMIT as int,
            intery1 - intery0,
            3 * COORD_LIMIT as int,
        );
        vstd::arithmetic::mul::lemma_mul_upper_bound(
            bbox0.w as int,
            COORD_LIMIT as int,
            bbox0.h as int,
            COORD_LIMIT as int,
        );
        vstd::arithmetic::mul::lemma_mul_upper_bound(
            bbox1.w as int,
            COORD_LIMIT as int,
            bbox1.h as int,
            COORD_LIMIT as int,
        );
        lemma_mul_nonnegative(interx1 - interx0, intery1 - intery0);
    }
    let inter: i128 = ((interx1 - interx0) as i128) * ((intery1 - intery0) as i128);
    let area0: i128 = (bbox0.w as i128) * (bbox0.h as i128);
    let area1: i128 = (bbox1.w as i128) * (bbox1.h as i128);
    let denom: i128 = area0 + area1 - inter;
    if denom == 0 {
        return 0;
    }
    let num: i128 = inter * (FP_ONE as i128);
    proof {
        lemma_mul_nonnegative(inter as int, FP_ONE as int);
        assert(div_trunc(num as int, denom as int) == num as int / denom as int);
        lemma_div_pos_is_pos(num as int, denom as int);
        assert(num <= denom * FP_ONE) by {
            lemma_mul_inequality(inter as int, denom as int, FP_ONE as int);
        }
        lemma_div_is_ordered(num as int, denom * FP_ONE, denom as int);
        lemma_mul_is_commutative(denom as int, FP_ONE as int);
        lemma_div_by_multiple(FP_ONE as int, denom as int);
    }
    scale_div(num, denom)
}

/// Clamp a box to the screen, exactly as the drawing helper expects:
/// the corner moves up to the origin, and the extents shrink so that
/// the box does not reach past `width` and `height`.
pub fn fit_in_screen(bbox: &mut BoundingBox, width: i64, height: i64)
    requires
        old(bbox).valid(),
        0 <= width <= COORD_LIMIT,
        0 <= height <= COORD_LIMIT,
    ensures
        final(bbox).x == imax(old(bbox).x as int, 0),
        final(bbox).y == imax(old(bbox).y as int, 0),
        final(bbox).w == imin(width - final(bbox).x, old(bbox).w as int),
        final(bbox).h == imin(height - final(bbox).y, old(bbox).h as int),
        final(bbox).class_id == old(bbox).class_id,
        final(bbox).label == old(bbox).label,
        final(bbox).score == old(bbox).score,
{
    if bbox.x < 0 {
        bbox.x = 0;
    }
    if bbox.y < 0 {
        bbox.y = 0;
    }
    if width - bbox.x < bbox.w {
        bbox.w = width - bbox.x;
    }
    if height - bbox.y < bbox.h {
        bbox.h = height - bbox.y;
    }
}

} // verus!
