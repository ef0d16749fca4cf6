//! Track survival, the rectangular assignment solver, and association.

use vstd::prelude::*;
use crate::mat_idx;
use crate::lemma_mat_idx_bound;
use crate::lemma_push_preserves_contains;
use crate::kalman::KalmanBoxTracker;

verus! {

/// Largest cost magnitude the assignment solver accepts; far above any
/// negated similarity and far below the distance cap.
pub const COST_LIMIT: i64 = 0x4000_0000_0000;

/// Shortest-path distances and dual potentials saturate at this magnitude,
/// so every intermediate sum stays far inside `i128`.
const DIST_CAP: i128 = 0x1_0000_0000_0000_0000_0000_0000;

/// Finite sentinel standing for an unreached column (the `+infinity` of the
/// shortest-path search); strictly above every saturated distance.
const INF_DIST: i128 = 0x1_0000_0000_0000_0000_0000_0000 + 1;

/// The survival predicate of one track at the end of a frame: it must have
/// been corrected recently enough, and a track that never reached maturity
/// survives only if it was corrected this very frame.
pub open spec fn spec_alive(
    t: KalmanBoxTracker,
    minimum_consecutive_frames: int,
    maximum_frames_without_update: int,
) -> bool {
    &&& t.time_since_update < maximum_frames_without_update
    &&& (t.number_of_successful_updates >= minimum_consecutive_frames
        || t.time_since_update == 0)
}

/// An immature track (success counter still below the maturity bar) is
/// removed the first frame it goes uncorrected: one missed frame is fatal.
pub proof fn lemma_immature_track_pruned(
    t: KalmanBoxTracker,
    minimum_consecutive_frames: int,
    maximum_frames_without_update: int,
)
    requires
        t.number_of_successful_updates < minimum_consecutive_frames,
        t.time_since_update >= 1,
    ensures
        !spec_alive(t, minimum_consecutive_frames, maximum_frames_without_update),
{
}

/// A mature track tolerates misses: it survives every frame on which its
/// miss counter is still below `maximum_frames_without_update`.
pub proof fn lemma_mature_track_survives(
    t: KalmanBoxTracker,
    minimum_consecutive_frames: int,
    maximum_frames_without_update: int,
)
    requires
        t.number_of_successful_updates >= minimum_consecutive_frames,
        t.time_since_update < maximum_frames_without_update,
    ensures
        spec_alive(t, minimum_consecutive_frames, maximum_frames_without_update),
{
}

/// Any track is removed the moment its miss counter reaches
/// `maximum_frames_without_update`.
pub proof fn lemma_track_expires(
    t: KalmanBoxTracker,
    minimum_consecutive_frames: int,
    maximum_frames_without_update: int,
)
    requires
        t.time_since_update >= maximum_frames_without_update,
    ensures
        !spec_alive(t, minimum_consecutive_frames, maximum_frames_without_update),
{
}

/// Indices of the tracks that survive into the next frame, in increasing
/// order: exactly those satisfying `spec_alive`.
#[verifier::loop_isolation(false)]
pub fn get_alive_trackers(
    trackers: &Vec<KalmanBoxTracker>,
    minimum_consecutive_frames: i64,
    maximum_frames_without_update: i64,
) -> (r: Vec<usize>)
    ensures
        forall|k: int|
            0 <= k < r@.len() ==> (#[trigger] r@[k]) < trackers@.len() && spec_alive(
                trackers@[r@[k] as int],
                minimum_consecutive_frames as int,
                maximum_frames_without_update as int,
            ),
        forall|k1: int, k2: int| 0 <= k1 < k2 < r@.len() ==> r@[k1] < r@[k2],
        forall|i: int|
            0 <= i < trackers@.len() && spec_alive(
                #[trigger] trackers@[i],
                minimum_consecutive_frames as int,
                maximum_frames_without_update as int,
            ) ==> r@.contains(i as usize),
{
    let mut alive_indices: Vec<usize> = Vec::new();
    let mut idx: usize = 0;
    while idx < trackers.len()
        invariant
            0 <= idx <= trackers@.len(),
            forall|k: int|
                0 <= k < alive_indices@.len() ==> (#[trigger] alive_indices@[k]) < idx
                    && spec_alive(
                    trackers@[alive_indices@[k] as int],
                    minimum_consecutive_frames as int,
                    maximum_frames_without_update as int,
                ),
            forall|k1: int, k2: int|
                0 <= k1 < k2 < alive_indices@.len() ==> alive_indices@[k1] < alive_indices@[k2],
            forall|i: int|
                0 <= i < idx && spec_alive(
                    #[trigger] trackers@[i],
                    minimum_consecutive_frames as int,
                    maximum_frames_without_update as int,
                ) ==> alive_indices@.contains(i as usize),
        decreases trackers@.len() - idx,
    {
        let t = &trackers[idx];
        let is_mature = t.number_of_successful_updates >= minimum_consecutive_frames;
        let is_active = t.time_since_update == 0;
        if t.time_since_update < maximum_frames_without_update && (is_mature || is_active) {
            let ghost pre = alive_indices@;
            alive_indices.push(idx);
            proof {
                assert forall|i3: int|
                    0 <= i3 < idx + 1 && spec_alive(
                        trackers@[i3],
                        minimum_consecutive_frames as int,
                        maximum_frames_without_update as int,
                    ) implies alive_indices@.contains(i3 as usize) by {
                    if i3 < idx {
                        lemma_push_preserves_contains(pre, idx, i3 as usize);
                    } else {
                        assert(alive_indices@[pre.len() as int] == idx);
                    }
                }
            }
        }
        idx += 1;
    }
    alive_indices
}

/// A vector of `n` copies of `value`.
fn make_vec<T: Copy>(n: usize, value: T) -> (r: Vec<T>)
    ensures
        r@.len() == n,
        forall|k: int| 0 <= k < n ==> #[trigger] r@[k] == value,
{
    let mut r: Vec<T> = Vec::new();
    let mut i: usize = 0;
    while i < n
        invariant
            0 <= i <= n,
            r@.len() == i,
            forall|k: int| 0 <= k < i ==> #[trigger] r@[k] == value,
        decreases n - i,
    {
        r.push(value);
        i += 1;
    }
    r
}

/// Saturate a distance or potential into `[-DIST_CAP, DIST_CAP]`.
fn clip(x: i128) -> (r: i128)
    ensures
        -DIST_CAP <= r <= DIST_CAP,
        -DIST_CAP <= x <= DIST_CAP ==> r == x,
{
    if x > DIST_CAP {
        DIST_CAP
    } else if x < -DIST_CAP {
        -DIST_CAP
    } else {
        x
    }
}

/// Row-to-column and column-to-row assignment arrays have in-range entries
/// (or the `usize::MAX` sentinel for "unassigned").
spec fn match_ranges(c4r: Seq<usize>, r4c: Seq<usize>, nr: int, nc: int) -> bool {
    &&& c4r.len() == nr
    &&& r4c.len() == nc
    &&& forall|i: int| 0 <= i < nr ==> ((#[trigger] c4r[i]) == usize::MAX || c4r[i] < nc)
    &&& forall|j: int| 0 <= j < nc ==> ((#[trigger] r4c[j]) == usize::MAX || r4c[j] < nr)
}

/// The two assignment arrays are mutually inverse, except that the column
/// `jx` (or none, for `jx == -1`) is allowed a dangling back-pointer while
/// an augmenting path is being flipped.
spec fn match_linked(c4r: Seq<usize>, r4c: Seq<usize>, nr: int, nc: int, jx: int) -> bool {
    &&& forall|i: int|
        0 <= i < nr && (#[trigger] c4r[i]) != usize::MAX ==> r4c[c4r[i] as int] == i
    &&& forall|j: int|
        0 <= j < nc && j != jx && (#[trigger] r4c[j]) != usize::MAX ==> c4r[r4c[j] as int] == j
}

/// A reached column's predecessor row is valid: it is the row the current
/// search started from, or a matched row whose own column was scanned.
spec fn path_ok(
    path: Seq<usize>,
    c4r: Seq<usize>,
    sc: Seq<bool>,
    cur_row: int,
    nr: int,
    nc: int,
    j: int,
) -> bool {
    &&& (path[j] as int) < nr
    &&& (path[j] as int == cur_row || (c4r[path[j] as int] != usize::MAX && (c4r[path[j] as int]
        as int) < nc && sc[c4r[path[j] as int] as int]))
}

/// Solve the rectangular minimum-cost assignment problem on a dense
/// row-major cost matrix by shortest augmenting paths with dual potentials.
/// Distances use a finite sentinel for "unreached" and saturate at a huge
/// bound instead of overflowing. The result maps each row to its matched
/// column; the mapping is injective, and empty inputs match nothing.
#[verifier::loop_isolation(false)]
#[verifier::rlimit(100)]
#[verifier::spinoff_prover]
pub fn linear_sum_assignment(cost_matrix: &Vec<i64>, n_rows: usize, n_cols: usize) -> (r: Vec<
    Option<usize>,
>)
    requires
        cost_matrix@.len() == n_rows * n_cols,
        forall|k: int|
            0 <= k < cost_matrix@.len() ==> -COST_LIMIT <= #[trigger] cost_matrix@[k]
                <= COST_LIMIT,
    ensures
        r@.len() == n_rows,
        forall|i: int|
            0 <= i < n_rows ==> match #[trigger] r@[i] {
                Some(j) => j < n_cols,
                None => true,
            },
        forall|i1: int, i2: int|
            0 <= i1 < n_rows && 0 <= i2 < n_rows && i1 != i2 && r@[i1] is Some && r@[i2] is Some
                ==> r@[i1] != r@[i2],
        n_rows == 0 || n_cols == 0 ==> forall|i: int| 0 <= i < n_rows ==> r@[i] is None,
        n_rows > 0 && n_cols > 0 ==> exists|i: int|
            0 <= i < n_rows && (#[trigger] r@[i]) is Some,
        n_rows == 1 && n_cols > 0 ==> (r@[0] is Some && forall|j: int|
            0 <= j < n_cols ==> cost_matrix@[r@[0]->0 as int] <= #[trigger] cost_matrix@[j]),
        n_cols == 1 && n_rows > 1 ==> exists|i: int|
            0 <= i < n_rows && (#[trigger] r@[i]) is Some && forall|i2: int|
                0 <= i2 < n_rows ==> cost_matrix@[i] <= #[trigger] cost_matrix@[i2],
{
    let mut assignment: Vec<Option<usize>> = Vec::new();
    if n_rows == 0 || n_cols == 0 {
        let mut i: usize = 0;
        while i < n_rows
            invariant
                assignment@.len() == i,
                i <= n_rows,
                forall|k: int| 0 <= k < i ==> #[trigger] assignment@[k] is None,
            decreases n_rows - i,
        {
            assignment.push(None);
            i += 1;
        }
        return assignment;
    }
    // pins `n_rows * n_cols` (the input length) inside `usize`
    let _input_len = cost_matrix.len();
    let mut nr = n_rows;
    let mut nc = n_cols;
    let mut transposed = false;
    let mut cost: Vec<i64> = Vec::new();
    if n_cols < n_rows {
        // Logically transpose so the outer loop runs over the smaller side.
        let mut i2: usize = 0;
        while i2 < n_cols
            invariant
                i2 <= n_cols,
                cost@.len() == i2 * n_rows,
                forall|k: int|
                    0 <= k < cost@.len() ==> -COST_LIMIT <= #[trigger] cost@[k] <= COST_LIMIT,
                n_cols == 1 ==> forall|k: int|
                    0 <= k < cost@.len() ==> #[trigger] cost@[k] == cost_matrix@[k],
            decreases n_cols - i2,
        {
            let mut j2: usize = 0;
            while j2 < n_rows
                invariant
                    j2 <= n_rows,
                    cost@.len() == i2 * n_rows + j2,
                    forall|k: int|
                        0 <= k < cost@.len() ==> -COST_LIMIT <= #[trigger] cost@[k] <= COST_LIMIT,
                    n_cols == 1 ==> forall|k: int|
                        0 <= k < cost@.len() ==> #[trigger] cost@[k] == cost_matrix@[k],
                decreases n_rows - j2,
            {
                proof {
                    lemma_mat_idx_bound(n_cols as int, n_rows as int, j2 as int, i2 as int);
                }
                cost.push(cost_matrix[j2 * n_cols + i2]);
                j2 += 1;
            }
            proof {
                assert((i2 + 1) * n_rows == i2 * n_rows + n_rows) by (nonlinear_arith);
            }
            i2 += 1;
        }
        nr = n_cols;
        nc = n_rows;
        transposed = true;
    } else {
        let mut k: usize = 0;
        while k < cost_matrix.len()
            invariant
                k <= cost_matrix@.len(),
                cost@.len() == k,
                forall|k2: int|
                    0 <= k2 < cost@.len() ==> -COST_LIMIT <= #[trigger] cost@[k2] <= COST_LIMIT,
                forall|k2: int| 0 <= k2 < cost@.len() ==> #[trigger] cost@[k2] == cost_matrix@[k2],
            decreases cost_matrix@.len() - k,
        {
            cost.push(cost_matrix[k]);
            k += 1;
        }
    }
    proof {
        assert(cost@.len() == nr * nc) by (nonlinear_arith)
            requires
                cost@.len() == n_rows * n_cols || cost@.len() == n_cols * n_rows,
                (nr == n_rows && nc == n_cols) || (nr == n_cols && nc == n_rows),
        ;
    }
    // pins the matrix length (and so every row-major index) inside `usize`
    let _matrix_len = cost.len();

    let mut u: Vec<i128> = make_vec(nr, 0i128);
    let mut vpot: Vec<i128> = make_vec(nc, 0i128);
    let mut shortest_path_costs: Vec<i128> = make_vec(nc, INF_DIST);
    let mut path: Vec<usize> = make_vec(nc, usize::MAX);
    let mut col4row: Vec<usize> = make_vec(nr, usize::MAX);
    let mut row4col: Vec<usize> = make_vec(nc, usize::MAX);
    let mut sr: Vec<bool> = make_vec(nr, false);
    let mut sc: Vec<bool> = make_vec(nc, false);
    let mut remaining: Vec<usize> = make_vec(nc, 0usize);

    let mut cur_row: usize = 0;
    let mut stalled = false;
    while cur_row < nr && !stalled
        invariant
            cur_row <= nr,
            stalled ==> cur_row >= 1,
            cur_row >= 1 ==> col4row@[0] != usize::MAX,
            cur_row == 0 ==> (forall|k: int| 0 <= k < nr ==> #[trigger] u@[k] == 0) && (forall|
                k: int,
            | 0 <= k < nc ==> #[trigger] vpot@[k] == 0),
            nr == 1 && cur_row >= 1 ==> ((col4row@[0] as int) < nc && forall|j: int|
                0 <= j < nc ==> cost@[col4row@[0] as int] <= #[trigger] cost@[j]),
            u@.len() == nr,
            vpot@.len() == nc,
            shortest_path_costs@.len() == nc,
            path@.len() == nc,
            sr@.len() == nr,
            sc@.len() == nc,
            remaining@.len() == nc,
            forall|k: int| 0 <= k < nr ==> -DIST_CAP <= #[trigger] u@[k] <= DIST_CAP,
            forall|k: int| 0 <= k < nc ==> -DIST_CAP <= #[trigger] vpot@[k] <= DIST_CAP,
            forall|k: int| 0 <= k < nc ==> (#[trigger] remaining@[k]) < nc,
            forall|k: int| 0 <= k < nc ==> ((#[trigger] path@[k]) as int) < nr || path@[k]
                == usize::MAX,
            match_ranges(col4row@, row4col@, nr as int, nc as int),
            match_linked(col4row@, row4col@, nr as int, nc as int, -1),
            forall|i: int| cur_row <= i < nr ==> (#[trigger] col4row@[i]) == usize::MAX,
        decreases nr - cur_row, (if stalled { 0int } else { 1int }),
    {
        let mut min_val: i128 = 0;
        let mut num_remaining: usize = nc;
        let mut it: usize = 0;
        while it < nc
            invariant
                it <= nc,
                remaining@.len() == nc,
                forall|k: int| 0 <= k < nc ==> (#[trigger] remaining@[k]) < nc,
                forall|k: int| 0 <= k < it ==> (#[trigger] remaining@[k]) as int == nc - 1 - k,
            decreases nc - it,
        {
            remaining.set(it, nc - it - 1);
            it += 1;
        }
        let mut k: usize = 0;
        while k < nr
            invariant
                k <= nr,
                sr@.len() == nr,
            decreases nr - k,
        {
            sr.set(k, false);
            k += 1;
        }
        let mut k2: usize = 0;
        while k2 < nc
            invariant
                k2 <= nc,
                sc@.len() == nc,
                shortest_path_costs@.len() == nc,
                forall|j2: int| 0 <= j2 < k2 ==> !(#[trigger] sc@[j2]),
                forall|j2: int|
                    0 <= j2 < k2 ==> #[trigger] shortest_path_costs@[j2] == INF_DIST,
            decreases nc - k2,
        {
            sc.set(k2, false);
            shortest_path_costs.set(k2, INF_DIST);
            k2 += 1;
        }

        let mut sink: usize = usize::MAX;
        let mut i: usize = cur_row;
        let mut gave_up = false;
        while sink == usize::MAX && !gave_up
            invariant
                cur_row == 0 ==> !gave_up,
                cur_row == 0 ==> (sink != usize::MAX || num_remaining == nc),
                cur_row == 0 ==> i as int == cur_row,
                cur_row == 0 && sink == usize::MAX ==> min_val == 0,
                cur_row == 0 && sink == usize::MAX ==> forall|k3: int|
                    0 <= k3 < nc ==> (#[trigger] remaining@[k3]) as int == nc - 1 - k3,
                cur_row == 0 && sink == usize::MAX ==> forall|j2: int|
                    0 <= j2 < nc ==> #[trigger] shortest_path_costs@[j2] == INF_DIST,
                cur_row == 0 && sink != usize::MAX ==> forall|j2: int|
                    0 <= j2 < nc ==> cost@[sink as int] <= #[trigger] cost@[j2],
                u@.len() == nr,
                vpot@.len() == nc,
                shortest_path_costs@.len() == nc,
                path@.len() == nc,
                sr@.len() == nr,
                sc@.len() == nc,
                remaining@.len() == nc,
                num_remaining <= nc,
                -DIST_CAP <= min_val <= DIST_CAP,
                (i as int) < nr,
                i as int == cur_row || (col4row@[i as int] != usize::MAX && (col4row@[i as int]
                    as int) < nc && sc@[col4row@[i as int] as int]),
                forall|k3: int| 0 <= k3 < nr ==> -DIST_CAP <= #[trigger] u@[k3] <= DIST_CAP,
                forall|k3: int| 0 <= k3 < nc ==> -DIST_CAP <= #[trigger] vpot@[k3] <= DIST_CAP,
                forall|k3: int| 0 <= k3 < nc ==> (#[trigger] remaining@[k3]) < nc,
                forall|j2: int|
                    0 <= j2 < nc ==> (#[trigger] shortest_path_costs@[j2]) == INF_DIST || (
                    -DIST_CAP <= shortest_path_costs@[j2] <= DIST_CAP && path_ok(
                        path@,
                        col4row@,
                        sc@,
                        cur_row as int,
                        nr as int,
                        nc as int,
                        j2,
                    )),
                forall|j2: int|
                    0 <= j2 < nc && (#[trigger] sc@[j2]) ==> shortest_path_costs@[j2] != INF_DIST,
                forall|k3: int| 0 <= k3 < nc ==> ((#[trigger] path@[k3]) as int) < nr || path@[k3]
                    == usize::MAX,
                sink == usize::MAX || ((sink as int) < nc && sc@[sink as int] && row4col@[sink
                    as int] == usize::MAX),
            decreases num_remaining, (if gave_up { 0int } else { 1int }),
        {
            let mut index: usize = usize::MAX;
            let mut lowest: i128 = INF_DIST;
            sr.set(i, true);

            let mut it2: usize = 0;
            while it2 < num_remaining
                invariant
                    it2 <= num_remaining,
                    num_remaining <= nc,
                    shortest_path_costs@.len() == nc,
                    path@.len() == nc,
                    it2 >= 1 ==> lowest <= DIST_CAP,
                    cur_row == 0 ==> forall|j2: int|
                        0 <= j2 < nc ==> ((#[trigger] shortest_path_costs@[j2]) == INF_DIST
                            || shortest_path_costs@[j2] == cost@[j2]),
                    cur_row == 0 ==> forall|it3: int|
                        0 <= it3 < it2 ==> (#[trigger] shortest_path_costs@[remaining@[it3] as int])
                            == cost@[remaining@[it3] as int],
                    cur_row == 0 ==> forall|it3: int|
                        0 <= it3 < it2 ==> lowest <= (#[trigger] shortest_path_costs@[remaining@[
                        it3] as int]),
                    (index == usize::MAX && lowest == INF_DIST) || ((index as int) < num_remaining
                        && -DIST_CAP <= lowest <= DIST_CAP && shortest_path_costs@[remaining@[index
                        as int] as int] == lowest),
                    forall|j2: int|
                        0 <= j2 < nc ==> (#[trigger] shortest_path_costs@[j2]) == INF_DIST || (
                        -DIST_CAP <= shortest_path_costs@[j2] <= DIST_CAP && path_ok(
                            path@,
                            col4row@,
                            sc@,
                            cur_row as int,
                            nr as int,
                            nc as int,
                            j2,
                        )),
                    forall|k3: int|
                        0 <= k3 < nc ==> ((#[trigger] path@[k3]) as int) < nr || path@[k3]
                            == usize::MAX,
                    forall|j2: int|
                        0 <= j2 < nc && (#[trigger] sc@[j2]) ==> shortest_path_costs@[j2]
                            != INF_DIST,
                decreases num_remaining - it2,
            {
                let j = remaining[it2];
                proof {
                    lemma_mat_idx_bound(nc as int, nr as int, i as int, j as int);
                }
                let rr_raw: i128 = min_val + cost[i * nc + j] as i128 - u[i] - vpot[j];
                let rr = clip(rr_raw);
                if rr < shortest_path_costs[j] {
                    path.set(j, i);
                    shortest_path_costs.set(j, rr);
                }
                let spcj = shortest_path_costs[j];
                if spcj < lowest || (spcj == lowest && row4col[j] == usize::MAX) {
                    lowest = spcj;
                    index = it2;
                }
                it2 += 1;
            }

            if lowest == INF_DIST {
                // No column is reachable: give up on this row. On the very
                // first row every column is reached in the first scan, so
                // this cannot happen there.
                proof {
                    if cur_row == 0 {
                        assert(num_remaining == nc);
                        assert(false);
                    }
                }
                gave_up = true;
            } else {
                proof {
                    if cur_row == 0 {
                        assert forall|j2: int|
                            0 <= j2 < nc implies (#[trigger] row4col@[j2]) == usize::MAX by {
                            if row4col@[j2] != usize::MAX {
                                assert(col4row@[row4col@[j2] as int] == j2);
                            }
                        }
                    }
                }
                min_val = lowest;
                let j = remaining[index];
                proof {
                    if cur_row == 0 {
                        assert forall|j2: int| 0 <= j2 < nc implies cost@[j as int] <= #[trigger]
                        cost@[j2] by {
                            let it3 = nc - 1 - j2;
                            assert(remaining@[it3] as int == j2);
                            assert(shortest_path_costs@[j2] == cost@[j2]);
                            assert(lowest <= shortest_path_costs@[j2]);
                            assert(shortest_path_costs@[j as int] == lowest);
                            assert(shortest_path_costs@[j as int] == cost@[j as int]);
                        }
                    }
                }
                if row4col[j] == usize::MAX {
                    sink = j;
                } else {
                    i = row4col[j];
                }
                sc.set(j, true);
                remaining.set(index, remaining[num_remaining - 1]);
                num_remaining -= 1;
            }
        }

        if sink == usize::MAX {
            stalled = true;
        } else {

        // Update the dual potentials along the search tree.
        u.set(cur_row, clip(u[cur_row] + min_val));
        let mut ii2: usize = 0;
        while ii2 < nr
            invariant
                ii2 <= nr,
                u@.len() == nr,
                forall|k3: int| 0 <= k3 < nr ==> -DIST_CAP <= #[trigger] u@[k3] <= DIST_CAP,
            decreases nr - ii2,
        {
            if sr[ii2] && ii2 != cur_row && col4row[ii2] != usize::MAX {
                let cj = col4row[ii2];
                u.set(ii2, clip(u[ii2] + (min_val - shortest_path_costs[cj])));
            }
            ii2 += 1;
        }
        let mut jj2: usize = 0;
        while jj2 < nc
            invariant
                jj2 <= nc,
                vpot@.len() == nc,
                forall|k3: int| 0 <= k3 < nc ==> -DIST_CAP <= #[trigger] vpot@[k3] <= DIST_CAP,
            decreases nc - jj2,
        {
            if sc[jj2] {
                vpot.set(jj2, clip(vpot[jj2] - (min_val - shortest_path_costs[jj2])));
            }
            jj2 += 1;
        }

        // Walk the recorded augmenting path backward, flipping its edges.
        proof {
            if cur_row == 0 {
                assert(path_ok(
                    path@,
                    col4row@,
                    sc@,
                    cur_row as int,
                    nr as int,
                    nc as int,
                    sink as int,
                ));
                assert(path@[sink as int] as int == 0);
            }
        }
        let ghost c4r_pre = col4row@;
        let mut j: usize = sink;
        let mut fuel: usize = nc;
        #[verifier::loop_isolation(true)]
        loop
            invariant_except_break
                cur_row < nr,
                nc > 0,
                (sink as int) < nc,
                (j as int) < nc,
                sc@[j as int],
                fuel <= nc,
                path@.len() == nc,
                sc@.len() == nc,
                match_ranges(col4row@, row4col@, nr as int, nc as int),
                match_linked(col4row@, row4col@, nr as int, nc as int, j as int),
                col4row@[cur_row as int] == usize::MAX,
                forall|i3: int| cur_row < i3 < nr ==> (#[trigger] col4row@[i3]) == usize::MAX,
                forall|i3: int| 0 <= i3 < nr ==> (#[trigger] col4row@[i3]) != j,
                forall|j2: int|
                    0 <= j2 < nc && (#[trigger] sc@[j2]) ==> path_ok(
                        path@,
                        col4row@,
                        sc@,
                        cur_row as int,
                        nr as int,
                        nc as int,
                        j2,
                    ),
                forall|k3: int| 0 <= k3 < nc ==> ((#[trigger] path@[k3]) as int) < nr || path@[k3]
                    == usize::MAX,
                forall|i3: int|
                    0 <= i3 < nr && c4r_pre[i3] != usize::MAX ==> (#[trigger] col4row@[i3])
                        != usize::MAX,
                col4row@[cur_row as int] == sink || (j == sink && fuel == nc) || path@[sink
                    as int] as int != cur_row,
            ensures
                match_ranges(col4row@, row4col@, nr as int, nc as int),
                match_linked(col4row@, row4col@, nr as int, nc as int, -1),
                forall|i3: int| cur_row < i3 < nr ==> (#[trigger] col4row@[i3]) == usize::MAX,
                forall|i3: int|
                    0 <= i3 < nr && c4r_pre[i3] != usize::MAX ==> (#[trigger] col4row@[i3])
                        != usize::MAX,
                path@[sink as int] as int == cur_row ==> col4row@[cur_row as int] == sink,
            decreases fuel,
        {
            if fuel == 0 {
                // Unreachable in a real run: the recorded path always leads
                // back to `cur_row`. Detach the pending column and stop so
                // the matching stays a partial bijection.
                row4col.set(j, usize::MAX);
                break ;
            }
            fuel -= 1;
            let ii = path[j];
            row4col.set(j, ii);
            let jn = col4row[ii];
            col4row.set(ii, j);
            if ii == cur_row {
                break ;
            }
            j = jn;
        }
        proof {
            if cur_row == 0 {
                assert(col4row@[0] != usize::MAX);
            }
        }
        cur_row += 1;
        }
    }

    if transposed {
        let mut c: usize = 0;
        while c < nc
            invariant
                c <= nc,
                assignment@.len() == c,
                forall|k3: int|
                    0 <= k3 < c ==> match #[trigger] assignment@[k3] {
                        Some(jv) => jv < nr && row4col@[k3] == jv,
                        None => row4col@[k3] == usize::MAX,
                    },
            decreases nc - c,
        {
            let rr = row4col[c];
            if rr != usize::MAX {
                assignment.push(Some(rr));
            } else {
                assignment.push(None);
            }
            c += 1;
        }
        proof {
            assert forall|i1: int, i2: int|
                0 <= i1 < n_rows && 0 <= i2 < n_rows && i1 != i2 && assignment@[i1] is Some
                    && assignment@[i2] is Some implies assignment@[i1] != assignment@[i2] by {
                if assignment@[i1] == assignment@[i2] {
                    assert(row4col@[i1] == row4col@[i2]);
                    assert(col4row@[row4col@[i1] as int] == i1);
                    assert(col4row@[row4col@[i2] as int] == i2);
                }
            }
            assert(col4row@[0] != usize::MAX);
            let j0 = col4row@[0] as int;
            assert(row4col@[j0] == 0);
            assert(assignment@[j0] is Some);
            if n_cols == 1 {
                assert forall|i2: int|
                    0 <= i2 < n_rows implies cost_matrix@[j0] <= #[trigger] cost_matrix@[i2] by {
                    assert(cost@[j0] <= cost@[i2]);
                    assert(cost@[i2] == cost_matrix@[i2]);
                    assert(cost@[j0] == cost_matrix@[j0]);
                }
            }
        }
    } else {
        let mut i: usize = 0;
        while i < nr
            invariant
                i <= nr,
                assignment@.len() == i,
                forall|k3: int|
                    0 <= k3 < i ==> match #[trigger] assignment@[k3] {
                        Some(jv) => jv < nc && col4row@[k3] == jv,
                        None => col4row@[k3] == usize::MAX,
                    },
            decreases nr - i,
        {
            let cv = col4row[i];
            if cv != usize::MAX {
                assignment.push(Some(cv));
            } else {
                assignment.push(None);
            }
            i += 1;
        }
        proof {
            assert forall|i1: int, i2: int|
                0 <= i1 < n_rows && 0 <= i2 < n_rows && i1 != i2 && assignment@[i1] is Some
                    && assignment@[i2] is Some implies assignment@[i1] != assignment@[i2] by {
                if assignment@[i1] == assignment@[i2] {
                    assert(row4col@[col4row@[i1] as int] == i1);
                    assert(row4col@[col4row@[i2] as int] == i2);
                }
            }
            assert(col4row@[0] != usize::MAX);
            assert(assignment@[0] is Some);
            if n_rows == 1 {
                assert forall|j: int|
                    0 <= j < n_cols implies cost_matrix@[assignment@[0]->0 as int] <= #[trigger]
                cost_matrix@[j] by {
                    assert(cost@[col4row@[0] as int] <= cost@[j]);
                    assert(cost@[j] == cost_matrix@[j]);
                    assert(cost@[col4row@[0] as int] == cost_matrix@[col4row@[0] as int]);
                }
            }
        }
    }
    assignment
}

/// Number of true entries in a boolean sequence.
spec fn count_true(s: Seq<bool>) -> int
    decreases s.len(),
{
    if s.len() == 0 {
        0
    } else {
        count_true(s.drop_last()) + if s.last() {
            1int
        } else {
            0int
        }
    }
}

proof fn lemma_count_true_push(s: Seq<bool>, x: bool)
    ensures
        count_true(s.push(x)) == count_true(s) + if x {
            1int
        } else {
            0int
        },
{
    assert(s.push(x).drop_last() =~= s);
    assert(s.push(x).last() == x);
}

proof fn lemma_count_true_update(s: Seq<bool>, i: int)
    requires
        0 <= i < s.len(),
        !s[i],
    ensures
        count_true(s.update(i, true)) == count_true(s) + 1,
    decreases s.len(),
{
    if i == s.len() - 1 {
        assert(s.update(i, true).drop_last() =~= s.drop_last());
        assert(s.update(i, true).last());
    } else {
        assert(s.update(i, true).drop_last() =~= s.drop_last().update(i, true));
        assert(!s.drop_last()[i]);
        lemma_count_true_update(s.drop_last(), i);
        assert(s.update(i, true).last() == s.last());
    }
}

proof fn lemma_count_true_all_false(s: Seq<bool>)
    requires
        forall|k: int| 0 <= k < s.len() ==> !(#[trigger] s[k]),
    ensures
        count_true(s) == 0,
    decreases s.len(),
{
    if s.len() > 0 {
        assert(forall|k: int| 0 <= k < s.drop_last().len() ==> !(#[trigger] s.drop_last()[k]));
        lemma_count_true_all_false(s.drop_last());
    }
}

/// Associate rows (tracks) with columns (detections) given their pairwise
/// similarities: the similarity matrix is negated into a cost matrix, the
/// assignment solver is run, and a proposed pair is accepted only when its
/// similarity reaches `min_similarity_thresh`. Every row and every column
/// ends up either in exactly one accepted pair or in the corresponding
/// unmatched list — never both, never twice.
#[verifier::loop_isolation(false)]
#[verifier::rlimit(60)]
pub fn get_associated_indices(
    similarity_matrix: &Vec<i64>,
    n_trackers: usize,
    n_detections: usize,
    min_similarity_thresh: i64,
) -> (r: (Vec<(usize, usize)>, Vec<usize>, Vec<usize>))
    requires
        similarity_matrix@.len() == n_trackers * n_detections,
        forall|k: int|
            0 <= k < similarity_matrix@.len() ==> -COST_LIMIT <= #[trigger] similarity_matrix@[k]
                <= COST_LIMIT,
    ensures
        forall|k: int|
            0 <= k < r.0@.len() ==> ((#[trigger] r.0@[k]).0 < n_trackers && r.0@[k].1
                < n_detections && similarity_matrix@[mat_idx(
                n_detections as int,
                r.0@[k].0 as int,
                r.0@[k].1 as int,
            )] >= min_similarity_thresh),
        forall|k1: int, k2: int| 0 <= k1 < k2 < r.0@.len() ==> (r.0@[k1].0 as int) < (r.0@[k2].0
            as int),
        forall|k1: int, k2: int|
            0 <= k1 < r.0@.len() && 0 <= k2 < r.0@.len() && k1 != k2 ==> r.0@[k1].1 != r.0@[k2].1,
        forall|k1: int, k2: int| 0 <= k1 < k2 < r.1@.len() ==> r.1@[k1] < r.1@[k2],
        forall|k: int| 0 <= k < r.1@.len() ==> (#[trigger] r.1@[k]) < n_trackers,
        forall|k1: int, k2: int| 0 <= k1 < k2 < r.2@.len() ==> r.2@[k1] < r.2@[k2],
        forall|k: int| 0 <= k < r.2@.len() ==> (#[trigger] r.2@[k]) < n_detections,
        forall|i: int|
            0 <= i < n_trackers ==> ((exists|k: int|
                0 <= k < r.0@.len() && ((#[trigger] r.0@[k]).0 as int) == i) <==> !(
            #[trigger] r.1@.contains(i as usize))),
        forall|j: int|
            0 <= j < n_detections ==> ((exists|k: int|
                0 <= k < r.0@.len() && ((#[trigger] r.0@[k]).1 as int) == j) <==> !(
            #[trigger] r.2@.contains(j as usize))),
        r.0@.len() + r.1@.len() == n_trackers,
        r.0@.len() + r.2@.len() == n_detections,
        (n_trackers > 0 && n_detections > 0 && forall|k: int|
            0 <= k < similarity_matrix@.len() ==> #[trigger] similarity_matrix@[k]
                >= min_similarity_thresh) ==> r.0@.len() >= 1,
{
    let total = similarity_matrix.len();
    let mut matched: Vec<(usize, usize)> = Vec::new();
    let mut unmatched_tracks: Vec<usize> = Vec::new();
    let mut unmatched_detections: Vec<usize> = Vec::new();
    let mut row_taken: Vec<bool> = make_vec(n_trackers, false);
    let mut col_taken: Vec<bool> = make_vec(n_detections, false);

    if n_trackers > 0 && n_detections > 0 {
        let mut flat_cost: Vec<i64> = Vec::new();
        let mut k: usize = 0;
        while k < total
            invariant
                k <= total,
                flat_cost@.len() == k,
                forall|k2: int|
                    0 <= k2 < k ==> -COST_LIMIT <= #[trigger] flat_cost@[k2] <= COST_LIMIT,
            decreases total - k,
        {
            flat_cost.push(-similarity_matrix[k]);
            k += 1;
        }
        let assignment = linear_sum_assignment(&flat_cost, n_trackers, n_detections);

        proof {
            lemma_count_true_all_false(row_taken@);
            lemma_count_true_all_false(col_taken@);
        }
        let mut row: usize = 0;
        while row < n_trackers
            invariant
                row <= n_trackers,
                row_taken@.len() == n_trackers,
                col_taken@.len() == n_detections,
                forall|k2: int|
                    0 <= k2 < matched@.len() ==> ((#[trigger] matched@[k2]).0 as int) < row
                        && (matched@[k2].1 as int) < n_detections && similarity_matrix@[mat_idx(
                        n_detections as int,
                        matched@[k2].0 as int,
                        matched@[k2].1 as int,
                    )] >= min_similarity_thresh && assignment@[matched@[k2].0 as int] == Some(
                        matched@[k2].1,
                    ),
                forall|k1: int, k2: int|
                    0 <= k1 < k2 < matched@.len() ==> (matched@[k1].0 as int) < (matched@[k2].0
                        as int),
                forall|i2: int|
                    0 <= i2 < n_trackers ==> ((#[trigger] row_taken@[i2]) <==> exists|k2: int|
                        0 <= k2 < matched@.len() && ((#[trigger] matched@[k2]).0 as int) == i2),
                forall|j2: int|
                    0 <= j2 < n_detections ==> ((#[trigger] col_taken@[j2]) <==> exists|k2: int|
                        0 <= k2 < matched@.len() && ((#[trigger] matched@[k2]).1 as int) == j2),
                count_true(row_taken@) == matched@.len(),
                count_true(col_taken@) == matched@.len(),
                forall|i2: int|
                    0 <= i2 < row && (#[trigger] assignment@[i2]) is Some
                        && similarity_matrix@[mat_idx(
                        n_detections as int,
                        i2,
                        assignment@[i2]->0 as int,
                    )] >= min_similarity_thresh ==> row_taken@[i2],
            decreases n_trackers - row,
        {
            let a = assignment[row];
            match a {
                Some(col) => {
                    proof {
                        lemma_mat_idx_bound(
                            n_detections as int,
                            n_trackers as int,
                            row as int,
                            col as int,
                        );
                    }
                    if similarity_matrix[row * n_detections + col] >= min_similarity_thresh {
                        let ghost pre = matched@;
                        let ghost prt = row_taken@;
                        let ghost pct = col_taken@;
                        matched.push((row, col));
                        row_taken.set(row, true);
                        col_taken.set(col, true);
                        proof {
                            assert(!prt[row as int]) by {
                                if prt[row as int] {
                                    let k2 = choose|k2: int|
                                        0 <= k2 < pre.len() && ((#[trigger] pre[k2]).0 as int)
                                            == row as int;
                                }
                            }
                            lemma_count_true_update(prt, row as int);
                            assert(!pct[col as int]) by {
                                if pct[col as int] {
                                    let k2 = choose|k2: int|
                                        0 <= k2 < pre.len() && ((#[trigger] pre[k2]).1 as int)
                                            == col as int;
                                    assert(assignment@[pre[k2].0 as int] == Some(col));
                                    assert(assignment@[row as int] == Some(col));
                                    assert((pre[k2].0 as int) != row as int);
                                }
                            }
                            lemma_count_true_update(pct, col as int);
                            assert forall|i2: int| 0 <= i2 < n_trackers implies ((
                            #[trigger] row_taken@[i2]) <==> exists|k2: int|
                                0 <= k2 < matched@.len() && ((#[trigger] matched@[k2]).0 as int)
                                    == i2) by {
                                if i2 == row {
                                    assert(matched@[pre.len() as int].0 == row);
                                } else {
                                    if row_taken@[i2] {
                                        let k2 = choose|k2: int|
                                            0 <= k2 < pre.len() && ((#[trigger] pre[k2]).0 as int)
                                                == i2;
                                        assert(matched@[k2].0 == pre[k2].0);
                                    } else {
                                        assert forall|k2: int|
                                            0 <= k2 < matched@.len() implies ((
                                        #[trigger] matched@[k2]).0 as int) != i2 by {
                                            if k2 < pre.len() {
                                                assert(matched@[k2] == pre[k2]);
                                            } else {
                                                assert(matched@[k2].0 == row);
                                            }
                                        }
                                    }
                                }
                            }
                            assert forall|j2: int| 0 <= j2 < n_detections implies ((
                            #[trigger] col_taken@[j2]) <==> exists|k2: int|
                                0 <= k2 < matched@.len() && ((#[trigger] matched@[k2]).1 as int)
                                    == j2) by {
                                if j2 == col {
                                    assert(matched@[pre.len() as int].1 == col);
                                } else {
                                    if col_taken@[j2] {
                                        let k2 = choose|k2: int|
                                            0 <= k2 < pre.len() && ((#[trigger] pre[k2]).1 as int)
                                                == j2;
                                        assert(matched@[k2].1 == pre[k2].1);
                                    } else {
                                        assert forall|k2: int|
                                            0 <= k2 < matched@.len() implies ((
                                        #[trigger] matched@[k2]).1 as int) != j2 by {
                                            if k2 < pre.len() {
                                                assert(matched@[k2] == pre[k2]);
                                            } else {
                                                assert(matched@[k2].1 == col);
                                            }
                                        }
                                    }
                                }
                            }
                        }
                    }
                },
                None => {},
            }
            row += 1;
        }
        proof {
            assert forall|k1: int, k2: int|
                0 <= k1 < matched@.len() && 0 <= k2 < matched@.len() && k1 != k2 implies
                matched@[k1].1 != matched@[k2].1 by {
                if matched@[k1].1 == matched@[k2].1 {
                    assert(assignment@[matched@[k1].0 as int] == Some(matched@[k1].1));
                    assert(assignment@[matched@[k2].0 as int] == Some(matched@[k2].1));
                }
            }
            if forall|k: int|
                0 <= k < similarity_matrix@.len() ==> #[trigger] similarity_matrix@[k]
                    >= min_similarity_thresh {
                let i0 = choose|i0: int|
                    0 <= i0 < n_trackers && (#[trigger] assignment@[i0]) is Some;
                let c0 = assignment@[i0]->0 as int;
                lemma_mat_idx_bound(n_detections as int, n_trackers as int, i0, c0);
                assert(similarity_matrix@[mat_idx(n_detections as int, i0, c0)]
                    >= min_similarity_thresh);
                assert(row_taken@[i0]);
                let km = choose|km: int|
                    0 <= km < matched@.len() && ((#[trigger] matched@[km]).0 as int) == i0;
                assert(matched@.len() >= 1);
            }
        }
    } else {
        proof {
            lemma_count_true_all_false(row_taken@);
            lemma_count_true_all_false(col_taken@);
        }
    }
    proof {
        assert(count_true(row_taken@) == matched@.len());
        assert(count_true(col_taken@) == matched@.len());
    }

    let mut i: usize = 0;
    while i < n_trackers
        invariant
            i <= n_trackers,
            row_taken@.len() == n_trackers,
            forall|k2: int|
                0 <= k2 < unmatched_tracks@.len() ==> ((#[trigger] unmatched_tracks@[k2]) as int)
                    < i && !row_taken@[unmatched_tracks@[k2] as int],
            forall|k1: int, k2: int|
                0 <= k1 < k2 < unmatched_tracks@.len() ==> unmatched_tracks@[k1]
                    < unmatched_tracks@[k2],
            forall|i2: int|
                0 <= i2 < i && !row_taken@[i2] ==> unmatched_tracks@.contains(i2 as usize),
            unmatched_tracks@.len() + count_true(row_taken@.take(i as int)) == i,
        decreases n_trackers - i,
    {
        proof {
            assert(row_taken@.take(i + 1) =~= row_taken@.take(i as int).push(
                row_taken@[i as int],
            ));
            lemma_count_true_push(row_taken@.take(i as int), row_taken@[i as int]);
        }
        if !row_taken[i] {
            let ghost pre = unmatched_tracks@;
            unmatched_tracks.push(i);
            proof {
                assert forall|i2: int|
                    0 <= i2 < i + 1 && !row_taken@[i2] implies unmatched_tracks@.contains(
                    i2 as usize,
                ) by {
                    if i2 < i {
                        lemma_push_preserves_contains(pre, i, i2 as usize);
                    } else {
                        assert(unmatched_tracks@[pre.len() as int] == i);
                    }
                }
            }
        }
        i += 1;
    }
    let mut j: usize = 0;
    while j < n_detections
        invariant
            j <= n_detections,
            col_taken@.len() == n_detections,
            forall|k2: int|
                0 <= k2 < unmatched_detections@.len() ==> ((
                #[trigger] unmatched_detections@[k2]) as int) < j
                    && !col_taken@[unmatched_detections@[k2] as int],
            forall|k1: int, k2: int|
                0 <= k1 < k2 < unmatched_detections@.len() ==> unmatched_detections@[k1]
                    < unmatched_detections@[k2],
            forall|j2: int|
                0 <= j2 < j && !col_taken@[j2] ==> unmatched_detections@.contains(j2 as usize),
            unmatched_detections@.len() + count_true(col_taken@.take(j as int)) == j,
        decreases n_detections - j,
    {
        proof {
            assert(col_taken@.take(j + 1) =~= col_taken@.take(j as int).push(
                col_taken@[j as int],
            ));
            lemma_count_true_push(col_taken@.take(j as int), col_taken@[j as int]);
        }
        if !col_taken[j] {
            let ghost pre = unmatched_detections@;
            unmatched_detections.push(j);
            proof {
                assert forall|j2: int|
                    0 <= j2 < j + 1 && !col_taken@[j2] implies unmatched_detections@.contains(
                    j2 as usize,
                ) by {
                    if j2 < j {
                        lemma_push_preserves_contains(pre, j, j2 as usize);
                    } else {
                        assert(unmatched_detections@[pre.len() as int] == j);
                    }
                }
            }
        }
        j += 1;
    }

    proof {
        assert(row_taken@.take(n_trackers as int) =~= row_taken@);
        assert(col_taken@.take(n_detections as int) =~= col_taken@);
    }
    let result = (matched, unmatched_tracks, unmatched_detections);
    proof {
        let matched = result.0;
        let unmatched_tracks = result.1;
        let unmatched_detections = result.2;
        assert forall|i2: int| 0 <= i2 < n_trackers implies ((exists|k2: int|
            0 <= k2 < matched@.len() && ((#[trigger] matched@[k2]).0 as int) == i2) <==> !(
        #[trigger] unmatched_tracks@.contains(i2 as usize))) by {
            if row_taken@[i2] {
                if unmatched_tracks@.contains(i2 as usize) {
                    let k2 = choose|k2: int|
                        0 <= k2 < unmatched_tracks@.len() && unmatched_tracks@[k2] == i2 as usize;
                    assert(!row_taken@[unmatched_tracks@[k2] as int]);
                }
            }
        }
        assert forall|j2: int| 0 <= j2 < n_detections implies ((exists|k2: int|
            0 <= k2 < matched@.len() && ((#[trigger] matched@[k2]).1 as int) == j2) <==> !(
        #[trigger] unmatched_detections@.contains(j2 as usize))) by {
            if col_taken@[j2] {
                if unmatched_detections@.contains(j2 as usize) {
                    let k2 = choose|k2: int|
                        0 <= k2 < unmatched_detections@.len() && unmatched_detections@[k2] == j2
                            as usize;
                    assert(!col_taken@[unmatched_detections@[k2] as int]);
                }
            }
        }
    }
    result
}

} // verus!
