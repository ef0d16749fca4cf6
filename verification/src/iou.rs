//! Geometry: pairwise and batched intersection-over-union similarity.

use vstd::prelude::*;
use vstd::arithmetic::mul::lemma_mul_inequality;
use vstd::arithmetic::mul::lemma_mul_left_inequality;
use vstd::arithmetic::mul::lemma_mul_nonnegative;
use vstd::arithmetic::mul::lemma_mul_strictly_positive;
use vstd::arithmetic::div_mod::lemma_div_is_ordered;
use vstd::arithmetic::div_mod::lemma_div_pos_is_pos;
use vstd::arithmetic::div_mod::lemma_div_multiples_vanish;
use crate::SCALE;
use crate::COORD_LIMIT;
use crate::lemma_abs_mul_bound;
use crate::mat_idx;
use crate::lemma_mat_idx_bound;
use crate::detection::BBox;

verus! {

pub open spec fn imin(a: int, b: int) -> int {
    if a <= b {
        a
    } else {
        b
    }
}

pub open spec fn imax(a: int, b: int) -> int {
    if a >= b {
        a
    } else {
        b
    }
}

/// Width of the intersection rectangle (may be non-positive when disjoint).
pub open spec fn inter_width(a: BBox, b: BBox) -> int {
    imin(a.x2 as int, b.x2 as int) - imax(a.x1 as int, b.x1 as int)
}

/// Height of the intersection rectangle (may be non-positive when disjoint).
pub open spec fn inter_height(a: BBox, b: BBox) -> int {
    imin(a.y2 as int, b.y2 as int) - imax(a.y1 as int, b.y1 as int)
}

pub open spec fn box_area(a: BBox) -> int {
    (a.x2 - a.x1) * (a.y2 - a.y1)
}

/// Intersection-over-union of two boxes, as a fixed-point value in
/// `[0, SCALE]`: zero when the intersection or the union is degenerate,
/// otherwise `floor(intersection_area * SCALE / union_area)`.
pub open spec fn spec_iou(a: BBox, b: BBox) -> int {
    let iw = inter_width(a, b);
    let ih = inter_height(a, b);
    if iw <= 0 || ih <= 0 {
        0
    } else {
        let inter = iw * ih;
        let union_area = box_area(a) + box_area(b) - inter;
        if union_area <= 0 {
            0
        } else {
            inter * SCALE / union_area
        }
    }
}

/// When both boxes overlap properly, the intersection area never exceeds the
/// union area, which makes the similarity at most `SCALE`.
proof fn lemma_inter_le_union(a: BBox, b: BBox)
    requires
        inter_width(a, b) > 0,
        inter_height(a, b) > 0,
    ensures
        inter_width(a, b) * inter_height(a, b) <= box_area(a),
        inter_width(a, b) * inter_height(a, b) <= box_area(b),
        inter_width(a, b) * inter_height(a, b)
            <= box_area(a) + box_area(b) - inter_width(a, b) * inter_height(a, b),
{
    let iw = inter_width(a, b);
    let ih = inter_height(a, b);
    lemma_mul_inequality(iw, a.x2 - a.x1, ih);
    lemma_mul_left_inequality(a.x2 - a.x1, ih, a.y2 - a.y1);
    lemma_mul_inequality(iw, b.x2 - b.x1, ih);
    lemma_mul_left_inequality(b.x2 - b.x1, ih, b.y2 - b.y1);
    lemma_mul_strictly_positive(iw, ih);
}

/// IOU is symmetric in its two arguments.
pub proof fn lemma_iou_symmetric(a: BBox, b: BBox)
    ensures
        spec_iou(a, b) == spec_iou(b, a),
{
}

/// A non-degenerate box compared with itself has similarity exactly `SCALE`,
/// the fixed-point encoding of `1.0`.
pub proof fn lemma_iou_identical(a: BBox)
    requires
        a.x1 < a.x2,
        a.y1 < a.y2,
    ensures
        spec_iou(a, a) == SCALE,
{
    let area = box_area(a);
    lemma_mul_strictly_positive(a.x2 - a.x1, a.y2 - a.y1);
    assert(inter_width(a, a) == a.x2 - a.x1);
    assert(inter_height(a, a) == a.y2 - a.y1);
    assert(spec_iou(a, a) == area * SCALE / area);
    assert(area * SCALE == SCALE * area) by {
        vstd::arithmetic::mul::lemma_mul_is_commutative(area, SCALE as int);
    }
    lemma_div_multiples_vanish(SCALE as int, area);
    assert((area * SCALE as int) / area == SCALE as int);
}

/// IOU always lies in the unit interval `[0, SCALE]`, for any pair of boxes.
pub proof fn lemma_iou_range(a: BBox, b: BBox)
    ensures
        0 <= spec_iou(a, b) <= SCALE,
{
    let iw = inter_width(a, b);
    let ih = inter_height(a, b);
    if iw > 0 && ih > 0 {
        let inter = iw * ih;
        let union_area = box_area(a) + box_area(b) - inter;
        if union_area > 0 {
            lemma_inter_le_union(a, b);
            lemma_mul_nonnegative(iw, ih);
            lemma_mul_nonnegative(inter, SCALE as int);
            lemma_div_pos_is_pos(inter * SCALE, union_area);
            lemma_mul_inequality(inter, union_area, SCALE as int);
            lemma_div_is_ordered(inter * SCALE, union_area * SCALE, union_area);
            assert(union_area * SCALE == SCALE * union_area) by {
                vstd::arithmetic::mul::lemma_mul_is_commutative(union_area, SCALE as int);
            }
            lemma_div_multiples_vanish(SCALE as int, union_area);
        }
    }
}

/// Boxes that do not overlap have similarity zero.
pub proof fn lemma_iou_disjoint(a: BBox, b: BBox)
    requires
        a.x2 <= b.x1 || b.x2 <= a.x1 || a.y2 <= b.y1 || b.y2 <= a.y1,
    ensures
        spec_iou(a, b) == 0,
{
}

/// Pairwise IOU of two boxes, computed exactly as `spec_iou` describes.
pub fn compute_iou(box1: &BBox, box2: &BBox) -> (r: i64)
    requires
        box1.wf(),
        box2.wf(),
    ensures
        r == spec_iou(*box1, *box2),
        0 <= r <= SCALE,
{
    proof {
        lemma_iou_range(*box1, *box2);
    }
    let x1_inter: i128 = if box1.x1 >= box2.x1 {
        box1.x1 as i128
    } else {
        box2.x1 as i128
    };
    let y1_inter: i128 = if box1.y1 >= box2.y1 {
        box1.y1 as i128
    } else {
        box2.y1 as i128
    };
    let x2_inter: i128 = if box1.x2 <= box2.x2 {
        box1.x2 as i128
    } else {
        box2.x2 as i128
    };
    let y2_inter: i128 = if box1.y2 <= box2.y2 {
        box1.y2 as i128
    } else {
        box2.y2 as i128
    };
    let iw: i128 = x2_inter - x1_inter;
    let ih: i128 = y2_inter - y1_inter;
    if iw <= 0 || ih <= 0 {
        return 0;
    }
    proof {
        lemma_inter_le_union(*box1, *box2);
        lemma_mul_nonnegative(iw as int, ih as int);
        lemma_abs_mul_bound(iw as int, ih as int, 2 * COORD_LIMIT as int, 2 * COORD_LIMIT as int);
        lemma_abs_mul_bound(
            box1.x2 - box1.x1,
            box1.y2 - box1.y1,
            2 * COORD_LIMIT as int,
            2 * COORD_LIMIT as int,
        );
        lemma_abs_mul_bound(
            box2.x2 - box2.x1,
            box2.y2 - box2.y1,
            2 * COORD_LIMIT as int,
            2 * COORD_LIMIT as int,
        );
    }
    let inter: i128 = iw * ih;
    let area1: i128 = (box1.x2 as i128 - box1.x1 as i128) * (box1.y2 as i128 - box1.y1 as i128);
    let area2: i128 = (box2.x2 as i128 - box2.x1 as i128) * (box2.y2 as i128 - box2.y1 as i128);
    let union_area: i128 = area1 + area2 - inter;
    if union_area <= 0 {
        return 0;
    }
    proof {
        lemma_mul_nonnegative(inter as int, SCALE as int);
        lemma_mul_inequality(inter as int, union_area as int, SCALE as int);
        lemma_abs_mul_bound(
            inter as int,
            SCALE as int,
            4 * COORD_LIMIT as int * COORD_LIMIT as int,
            SCALE as int,
        );
    }
    let numerator: i128 = inter * (SCALE as i128);
    let q: i128 = numerator / union_area;
    proof {
        lemma_div_pos_is_pos(numerator as int, union_area as int);
        lemma_div_is_ordered(numerator as int, union_area * SCALE, union_area as int);
        assert(union_area * SCALE == SCALE * union_area) by {
            vstd::arithmetic::mul::lemma_mul_is_commutative(union_area as int, SCALE as int);
        }
        lemma_div_multiples_vanish(SCALE as int, union_area as int);
    }
    q as i64
}

/// Elementwise IOU of `predicted_boxes[i]` against `detection_boxes[j]`,
/// returned as a row-major `T x D` matrix.
#[verifier::loop_isolation(false)]
pub fn compute_iou_batch(predicted_boxes: &Vec<BBox>, detection_boxes: &Vec<BBox>) -> (r: Vec<
    i64,
>)
    requires
        forall|k: int|
            0 <= k < predicted_boxes@.len() ==> (#[trigger] predicted_boxes@[k]).wf(),
        forall|k: int|
            0 <= k < detection_boxes@.len() ==> (#[trigger] detection_boxes@[k]).wf(),
        predicted_boxes@.len() * detection_boxes@.len() <= usize::MAX,
    ensures
        r@.len() == predicted_boxes@.len() * detection_boxes@.len(),
        forall|i: int, j: int|
            0 <= i < predicted_boxes@.len() && 0 <= j < detection_boxes@.len()
                ==> r@[#[trigger] mat_idx(detection_boxes@.len() as int, i, j)] == spec_iou(
                predicted_boxes@[i],
                detection_boxes@[j],
            ),
        forall|k: int| 0 <= k < r@.len() ==> 0 <= #[trigger] r@[k] <= SCALE,
{
    let n_trackers = predicted_boxes.len();
    let n_detections = detection_boxes.len();
    let nd = Ghost(n_detections as int);
    let mut iou_matrix: Vec<i64> = Vec::new();
    let mut i: usize = 0;
    while i < n_trackers
        invariant
            0 <= i <= n_trackers,
            iou_matrix@.len() == i * n_detections,
            forall|i2: int, j2: int|
                0 <= i2 < i && 0 <= j2 < n_detections
                    ==> iou_matrix@[#[trigger] mat_idx(nd@, i2, j2)] == spec_iou(
                    predicted_boxes@[i2],
                    detection_boxes@[j2],
                ),
            forall|k: int| 0 <= k < iou_matrix@.len() ==> 0 <= #[trigger] iou_matrix@[k] <= SCALE,
        decreases n_trackers - i,
    {
        proof {
            lemma_mul_inequality(i + 1, n_trackers as int, n_detections as int);
        }
        let mut j: usize = 0;
        while j < n_detections
            invariant
                0 <= j <= n_detections,
                iou_matrix@.len() == i * n_detections + j,
                forall|i2: int, j2: int|
                    0 <= i2 < i && 0 <= j2 < n_detections
                        ==> iou_matrix@[#[trigger] mat_idx(nd@, i2, j2)] == spec_iou(
                        predicted_boxes@[i2],
                        detection_boxes@[j2],
                    ),
                forall|j2: int|
                    0 <= j2 < j ==> iou_matrix@[#[trigger] mat_idx(nd@, i as int, j2)] == spec_iou(
                        predicted_boxes@[i as int],
                        detection_boxes@[j2],
                    ),
                forall|k: int|
                    0 <= k < iou_matrix@.len() ==> 0 <= #[trigger] iou_matrix@[k] <= SCALE,
            decreases n_detections - j,
        {
            let v = compute_iou(&predicted_boxes[i], &detection_boxes[j]);
            iou_matrix.push(v);
            j += 1;
            proof {
                assert forall|i2: int, j2: int|
                    0 <= i2 < i && 0 <= j2 < n_detections implies #[trigger] mat_idx(nd@, i2, j2)
                    < i * n_detections by {
                    lemma_mat_idx_bound(nd@, i as int, i2, j2);
                }
            }
        }
        proof {
            assert((i + 1) * n_detections == i * n_detections + n_detections) by (nonlinear_arith);
        }
        i += 1;
    }
    iou_matrix
}

} // verus!

