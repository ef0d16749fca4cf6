//! Multi-object tracker in the ByteTrack style: a constant-velocity Kalman
//! filter per tracked object, intersection-over-union similarity, a
//! shortest-augmenting-path assignment solver, and a two-round association
//! pipeline that manages track activation and pruning.
//!
//! All real-valued quantities (box coordinates, scores, thresholds,
//! similarities, covariances) are fixed-point integers with six fractional
//! decimal digits: the value `v` stands for the real number `v / SCALE`.

use vstd::prelude::*;

pub mod detection;
pub mod iou;
pub mod kalman;
pub mod tracker;
pub mod utils;

verus! {

/// Fixed-point unit: stored integers carry six fractional decimal digits.
pub const SCALE: i64 = 1_000_000;

/// Largest magnitude allowed for a box coordinate (10^9 in real units).
/// Keeping coordinates within this bound lets every intermediate product in
/// the geometry and filter arithmetic fit comfortably in an `i128`.
pub const COORD_LIMIT: i64 = 1_000_000_000_000_000;

/// Position of entry `(i, j)` in a row-major matrix with `ncols` columns.
pub open spec fn mat_idx(ncols: int, i: int, j: int) -> int {
    i * ncols + j
}

/// A product of two factors of bounded magnitude is bounded by the product
/// of the bounds.
pub proof fn lemma_abs_mul_bound(x: int, y: int, bx: int, by: int)
    requires
        0 <= bx,
        0 <= by,
        -bx <= x <= bx,
        -by <= y <= by,
    ensures
        -(bx * by) <= x * y <= bx * by,
{
    assert(-(bx * by) <= x * y <= bx * by) by (nonlinear_arith)
        requires
            0 <= bx,
            0 <= by,
            -bx <= x <= bx,
            -by <= y <= by,
    ;
}

/// Pushing onto a sequence keeps every element it already contains, and
/// makes it contain the pushed element.
pub proof fn lemma_push_preserves_contains<T>(s: Seq<T>, x: T, y: T)
    ensures
        s.contains(y) ==> s.push(x).contains(y),
        s.push(x).contains(x),
{
    if s.contains(y) {
        let k = choose|k: int| 0 <= k < s.len() && s[k] == y;
        assert(s.push(x)[k] == y);
    }
    assert(s.push(x)[s.len() as int] == x);
}

/// Entries of a row `i < nrows` lie below `nrows * ncols`, the length of a
/// row-major matrix.
pub proof fn lemma_mat_idx_bound(ncols: int, nrows: int, i: int, j: int)
    requires
        0 <= i < nrows,
        0 <= j < ncols,
    ensures
        0 <= mat_idx(ncols, i, j) < nrows * ncols,
{
    assert(0 <= i * ncols + j < nrows * ncols) by (nonlinear_arith)
        requires
            0 <= i < nrows,
            0 <= j < ncols,
    ;
}

} // verus!
