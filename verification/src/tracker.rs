//! The tracking engine: per frame it predicts every live track, splits the
//! detections by confidence, associates tracks with high-confidence
//! detections, gives the low-confidence detections a second chance to rescue
//! the leftover tracks, spawns tracks from unmatched high-confidence
//! detections, prunes stale tracks and emits the frame's tracked output.

use vstd::prelude::*;
use vstd::arithmetic::mul::lemma_mul_left_inequality;
use vstd::arithmetic::div_mod::lemma_div_nonincreasing;
use vstd::arithmetic::div_mod::lemma_fundamental_div_mod;
use vstd::arithmetic::div_mod::lemma_mod_bound;
use vstd::arithmetic::mul::lemma_mul_inequality;
use vstd::arithmetic::mul::lemma_mul_is_commutative;
use crate::iou::spec_iou;
use crate::mat_idx;
use vstd::arithmetic::div_mod::lemma_div_pos_is_pos;
use crate::SCALE;
use crate::lemma_push_preserves_contains;
use crate::detection::BBox;
use crate::detection::Detection;
use crate::detection::TrackedDetection;
use crate::iou::compute_iou_batch;
use crate::kalman::KalmanBoxTracker;
use crate::kalman::sat_inc;
use crate::kalman::spec_new_track;
use crate::kalman::spec_predicted;
use crate::kalman::spec_corrected;
use crate::kalman::spec_activated;
use crate::utils::get_alive_trackers;
use crate::utils::get_associated_indices;
use crate::utils::spec_alive;

verus! {

/// How a track may change over (part of) one frame: its success counter
/// never decreases, an assigned identity never changes, and an identity is
/// assigned only once the success counter has reached the maturity bar.
pub open spec fn evolved_from(
    pre: KalmanBoxTracker,
    post: KalmanBoxTracker,
    minimum_consecutive_frames: int,
) -> bool {
    &&& post.number_of_successful_updates >= pre.number_of_successful_updates
    &&& (pre.tracker_id >= 0 ==> post.tracker_id == pre.tracker_id)
    &&& (pre.tracker_id == -1 ==> (post.tracker_id == -1 || (post.tracker_id >= 0
        && post.number_of_successful_updates >= minimum_consecutive_frames)))
}

/// The detections scoring at least `thr`, in input order.
pub open spec fn spec_high_conf(dets: Seq<Detection>, thr: int) -> Seq<Detection>
    decreases dets.len(),
{
    if dets.len() == 0 {
        Seq::<Detection>::empty()
    } else if dets.last().score >= thr {
        spec_high_conf(dets.drop_last(), thr).push(dets.last())
    } else {
        spec_high_conf(dets.drop_last(), thr)
    }
}

/// The detections scoring below `thr`, in input order.
pub open spec fn spec_low_conf(dets: Seq<Detection>, thr: int) -> Seq<Detection>
    decreases dets.len(),
{
    if dets.len() == 0 {
        Seq::<Detection>::empty()
    } else if dets.last().score < thr {
        spec_low_conf(dets.drop_last(), thr).push(dets.last())
    } else {
        spec_low_conf(dets.drop_last(), thr)
    }
}

/// The two confidence classes partition the input, so their lengths add up.
pub proof fn lemma_conf_split_lengths(dets: Seq<Detection>, thr: int)
    ensures
        spec_high_conf(dets, thr).len() + spec_low_conf(dets, thr).len() == dets.len(),
    decreases dets.len(),
{
    if dets.len() > 0 {
        lemma_conf_split_lengths(dets.drop_last(), thr);
    }
}

/// The box is one of the given detections' boxes.
pub open spec fn box_from_detections(b: BBox, dets: Seq<Detection>) -> bool {
    exists|m: int| 0 <= m < dets.len() && b == (#[trigger] dets[m]).box_coords
}

/// The tracks spawned from the listed detection indices: one per listed
/// index that is in range and whose score reaches the activation
/// threshold, in list order; nothing for any other index.
pub open spec fn spec_spawned_tracks(
    unmatched: Seq<usize>,
    dets: Seq<Detection>,
    track_activation_threshold: int,
) -> Seq<KalmanBoxTracker>
    decreases unmatched.len(),
{
    if unmatched.len() == 0 {
        Seq::<KalmanBoxTracker>::empty()
    } else {
        let rest = spec_spawned_tracks(unmatched.drop_last(), dets, track_activation_threshold);
        let i = unmatched.last() as int;
        if i < dets.len() && dets[i].score >= track_activation_threshold {
            rest.push(spec_new_track(dets[i].box_coords))
        } else {
            rest
        }
    }
}

/// The output rows emitted while spawning: one identity-less row per
/// spawned track, carrying the spawning detection's box.
pub open spec fn spec_spawned_rows(
    unmatched: Seq<usize>,
    dets: Seq<Detection>,
    track_activation_threshold: int,
) -> Seq<TrackedDetection>
    decreases unmatched.len(),
{
    if unmatched.len() == 0 {
        Seq::<TrackedDetection>::empty()
    } else {
        let rest = spec_spawned_rows(unmatched.drop_last(), dets, track_activation_threshold);
        let i = unmatched.last() as int;
        if i < dets.len() && dets[i].score >= track_activation_threshold {
            rest.push(TrackedDetection { box_coords: dets[i].box_coords, tracker_id: -1i64 })
        } else {
            rest
        }
    }
}

/// When every listed index is in range and reaches the activation
/// threshold, spawning emits exactly one row per listed index.
pub proof fn lemma_spawned_rows_full(unmatched: Seq<usize>, dets: Seq<Detection>, act: int)
    requires
        forall|k: int|
            0 <= k < unmatched.len() ==> (((#[trigger] unmatched[k]) as int) < dets.len()
                && dets[unmatched[k] as int].score >= act),
    ensures
        spec_spawned_rows(unmatched, dets, act).len() == unmatched.len(),
    decreases unmatched.len(),
{
    if unmatched.len() > 0 {
        assert(forall|k: int|
            0 <= k < unmatched.drop_last().len() ==> #[trigger] unmatched.drop_last()[k]
                == unmatched[k]);
        lemma_spawned_rows_full(unmatched.drop_last(), dets, act);
    }
}

/// The tracks spawned while running over a list of detections in order:
/// one fresh track per detection whose score reaches the activation
/// threshold.
pub open spec fn spec_spawn_fold(dets: Seq<Detection>, track_activation_threshold: int) -> Seq<
    KalmanBoxTracker,
>
    decreases dets.len(),
{
    if dets.len() == 0 {
        Seq::<KalmanBoxTracker>::empty()
    } else {
        let rest = spec_spawn_fold(dets.drop_last(), track_activation_threshold);
        if dets.last().score >= track_activation_threshold {
            rest.push(spec_new_track(dets.last().box_coords))
        } else {
            rest
        }
    }
}

/// The live tracks after a frame that started with no tracks at all: one
/// fresh track per detection that is both high-confidence and at or above
/// the activation threshold, in input order.
pub open spec fn spec_cold_spawned(
    dets: Seq<Detection>,
    high_conf_det_threshold: int,
    track_activation_threshold: int,
) -> Seq<KalmanBoxTracker>
    decreases dets.len(),
{
    if dets.len() == 0 {
        Seq::<KalmanBoxTracker>::empty()
    } else {
        let rest = spec_cold_spawned(
            dets.drop_last(),
            high_conf_det_threshold,
            track_activation_threshold,
        );
        if dets.last().score >= high_conf_det_threshold && dets.last().score
            >= track_activation_threshold {
            rest.push(spec_new_track(dets.last().box_coords))
        } else {
            rest
        }
    }
}

/// Spawning over the identity index list is the same as folding over the
/// detections themselves.
proof fn lemma_spawn_identity(
    unmatched: Seq<usize>,
    dets: Seq<Detection>,
    track_activation_threshold: int,
)
    requires
        unmatched.len() <= dets.len(),
        forall|k: int| 0 <= k < unmatched.len() ==> (#[trigger] unmatched[k]) as int == k,
    ensures
        spec_spawned_tracks(unmatched, dets, track_activation_threshold) == spec_spawn_fold(
            dets.take(unmatched.len() as int),
            track_activation_threshold,
        ),
    decreases unmatched.len(),
{
    if unmatched.len() > 0 {
        let n = unmatched.len() as int;
        assert(forall|k: int|
            0 <= k < unmatched.drop_last().len() ==> (#[trigger] unmatched.drop_last()[k]) as int
                == k);
        lemma_spawn_identity(unmatched.drop_last(), dets, track_activation_threshold);
        assert(dets.take(n).drop_last() =~= dets.take(n - 1));
        assert(dets.take(n).last() == dets[n - 1]);
        assert(unmatched.last() as int == n - 1);
    }
}

/// Folding the spawn over the high-confidence subsequence is the same as
/// folding the combined test over all detections.
proof fn lemma_cold_spawn(
    dets: Seq<Detection>,
    high_conf_det_threshold: int,
    track_activation_threshold: int,
)
    ensures
        spec_spawn_fold(
            spec_high_conf(dets, high_conf_det_threshold),
            track_activation_threshold,
        ) == spec_cold_spawned(dets, high_conf_det_threshold, track_activation_threshold),
    decreases dets.len(),
{
    if dets.len() > 0 {
        lemma_cold_spawn(dets.drop_last(), high_conf_det_threshold, track_activation_threshold);
        if dets.last().score >= high_conf_det_threshold {
            let h = spec_high_conf(dets.drop_last(), high_conf_det_threshold);
            assert(spec_high_conf(dets, high_conf_det_threshold) == h.push(dets.last()));
            assert(h.push(dets.last()).drop_last() =~= h);
            assert(h.push(dets.last()).last() == dets.last());
        }
    }
}

/// In a strictly increasing sequence, each entry is at least its position.
proof fn lemma_strict_inc_ge(s: Seq<usize>, k: int)
    requires
        forall|k1: int, k2: int| 0 <= k1 < k2 < s.len() ==> s[k1] < s[k2],
        0 <= k < s.len(),
    ensures
        s[k] as int >= k,
    decreases k,
{
    if k > 0 {
        lemma_strict_inc_ge(s, k - 1);
        assert(s[k - 1] < s[k]);
    }
}

/// In a strictly increasing sequence of `n` entries all below `n`, each
/// entry is also at most its position (so the sequence is the identity).
proof fn lemma_strict_inc_le(s: Seq<usize>, n: int, k: int)
    requires
        forall|k1: int, k2: int| 0 <= k1 < k2 < s.len() ==> s[k1] < s[k2],
        forall|k1: int| 0 <= k1 < s.len() ==> ((#[trigger] s[k1]) as int) < n,
        s.len() == n,
        0 <= k < n,
    ensures
        s[k] as int <= k,
    decreases n - k,
{
    if k < n - 1 {
        lemma_strict_inc_le(s, n, k + 1);
        assert(s[k] < s[k + 1]);
    }
}

/// A strictly increasing sequence that contains every value up to `k`
/// holds exactly the identity on its first `k + 1` positions.
proof fn lemma_strict_contains_identity(s: Seq<usize>, k: int)
    requires
        forall|k1: int, k2: int| 0 <= k1 < k2 < s.len() ==> s[k1] < s[k2],
        forall|i: int| 0 <= i <= k ==> #[trigger] s.contains(i as usize),
        0 <= k <= usize::MAX,
    ensures
        s.len() > k,
        s[k] as int == k,
    decreases k,
{
    if k > 0 {
        lemma_strict_contains_identity(s, k - 1);
    }
    assert(s.contains(k as usize));
    let j = choose|j: int| 0 <= j < s.len() && s[j] == k as usize;
    lemma_strict_inc_ge(s, j);
    if k > 0 && j < k {
        assert(s[j] <= s[k - 1]);
    }
    assert(j == k);
}

/// On a frame with no pre-existing tracks, the tracks standing right
/// before pruning are exactly the cold-start spawns.
proof fn lemma_cold_pre_prune(
    unmatched: Seq<usize>,
    high: Seq<Detection>,
    dets: Seq<Detection>,
    high_conf_det_threshold: int,
    track_activation_threshold: int,
)
    requires
        high == spec_high_conf(dets, high_conf_det_threshold),
        unmatched.len() == high.len(),
        forall|k: int| 0 <= k < unmatched.len() ==> (#[trigger] unmatched[k]) as int == k,
    ensures
        Seq::<KalmanBoxTracker>::empty() + spec_spawned_tracks(
            unmatched,
            high,
            track_activation_threshold,
        ) == spec_cold_spawned(dets, high_conf_det_threshold, track_activation_threshold),
{
    lemma_spawn_identity(unmatched, high, track_activation_threshold);
    assert(high.take(unmatched.len() as int) =~= high);
    lemma_cold_spawn(dets, high_conf_det_threshold, track_activation_threshold);
    assert(Seq::<KalmanBoxTracker>::empty() + spec_spawned_tracks(
        unmatched,
        high,
        track_activation_threshold,
    ) =~= spec_spawned_tracks(unmatched, high, track_activation_threshold));
}

/// Pruning a set of freshly spawned tracks keeps all of them when the miss
/// budget allows at least one frame, and none otherwise.
proof fn lemma_cold_final_tracks(
    pre_prune: Seq<KalmanBoxTracker>,
    alive: Seq<usize>,
    new_tracks: Seq<KalmanBoxTracker>,
    minimum_consecutive_frames: int,
    maximum_frames_without_update: int,
)
    requires
        pre_prune.len() <= usize::MAX,
        forall|i: int|
            0 <= i < pre_prune.len() ==> (#[trigger] pre_prune[i]).time_since_update == 0,
        forall|k: int|
            0 <= k < alive.len() ==> (((#[trigger] alive[k]) as int) < pre_prune.len()
                && spec_alive(
                pre_prune[alive[k] as int],
                minimum_consecutive_frames,
                maximum_frames_without_update,
            )),
        forall|k1: int, k2: int| 0 <= k1 < k2 < alive.len() ==> alive[k1] < alive[k2],
        forall|i: int|
            0 <= i < pre_prune.len() && spec_alive(
                #[trigger] pre_prune[i],
                minimum_consecutive_frames,
                maximum_frames_without_update,
            ) ==> alive.contains(i as usize),
        new_tracks.len() == alive.len(),
        forall|k: int|
            0 <= k < new_tracks.len() ==> #[trigger] new_tracks[k] == pre_prune[alive[k] as int],
    ensures
        maximum_frames_without_update >= 1 ==> new_tracks == pre_prune,
        maximum_frames_without_update < 1 ==> new_tracks.len() == 0,
{
    if maximum_frames_without_update >= 1 {
        assert forall|i: int| 0 <= i < pre_prune.len() implies spec_alive(
            #[trigger] pre_prune[i],
            minimum_consecutive_frames,
            maximum_frames_without_update,
        ) by {
            assert(pre_prune[i].time_since_update == 0);
        }
        if pre_prune.len() > 0 {
            assert forall|i: int|
                0 <= i <= pre_prune.len() - 1 implies #[trigger] alive.contains(i as usize) by {
                assert(spec_alive(
                    pre_prune[i],
                    minimum_consecutive_frames,
                    maximum_frames_without_update,
                ));
            }
            lemma_strict_contains_identity(alive, pre_prune.len() - 1);
            lemma_strict_inc_bound(alive, pre_prune.len() as int);
            assert(alive.len() == pre_prune.len());
            assert forall|k: int| 0 <= k < new_tracks.len() implies #[trigger] new_tracks[k]
                == pre_prune[k] by {
                lemma_strict_contains_identity(alive, k);
            }
            assert(new_tracks =~= pre_prune);
        } else {
            if alive.len() > 0 {
                assert((alive[0] as int) < pre_prune.len());
                assert(false);
            }
            assert(new_tracks =~= pre_prune);
        }
    } else {
        if new_tracks.len() > 0 {
            assert(spec_alive(
                pre_prune[alive[0] as int],
                minimum_consecutive_frames,
                maximum_frames_without_update,
            ));
            assert(false);
        }
    }
}

/// A strictly increasing sequence of indices below `n` has at most `n`
/// entries.
proof fn lemma_strict_inc_bound(s: Seq<usize>, n: int)
    requires
        forall|k1: int, k2: int| 0 <= k1 < k2 < s.len() ==> s[k1] < s[k2],
        forall|k: int| 0 <= k < s.len() ==> ((#[trigger] s[k]) as int) < n,
        0 <= n,
    ensures
        s.len() <= n,
{
    if s.len() > n {
        lemma_strict_inc_ge(s, n);
    }
}

/// Whether correcting this (pre-correction) track activates it: it has no
/// identity yet and the correction brings its success counter to the
/// maturity bar.
pub open spec fn needs_activation(t: KalmanBoxTracker, minimum_consecutive_frames: int) -> bool {
    t.tracker_id == -1 && sat_inc(t.number_of_successful_updates as int)
        >= minimum_consecutive_frames
}

/// How many of the first `upto` matched pairs activate their track.
pub open spec fn spec_activations(
    tracks: Seq<KalmanBoxTracker>,
    matched: Seq<(usize, usize)>,
    minimum_consecutive_frames: int,
    upto: int,
) -> int
    decreases upto,
{
    if upto <= 0 {
        0
    } else {
        spec_activations(tracks, matched, minimum_consecutive_frames, upto - 1) + if
            needs_activation(
            tracks[matched[upto - 1].0 as int],
            minimum_consecutive_frames,
        ) {
            1int
        } else {
            0int
        }
    }
}

/// At most one activation per matched pair.
pub proof fn lemma_activations_bounds(
    tracks: Seq<KalmanBoxTracker>,
    matched: Seq<(usize, usize)>,
    minimum_consecutive_frames: int,
    upto: int,
)
    requires
        0 <= upto,
    ensures
        0 <= spec_activations(tracks, matched, minimum_consecutive_frames, upto) <= upto,
    decreases upto,
{
    if upto > 0 {
        lemma_activations_bounds(tracks, matched, minimum_consecutive_frames, upto - 1);
    }
}

/// Track evolution composes across the phases of a frame.
pub proof fn lemma_evolved_trans(
    a: KalmanBoxTracker,
    b: KalmanBoxTracker,
    c: KalmanBoxTracker,
    minimum_consecutive_frames: int,
)
    requires
        evolved_from(a, b, minimum_consecutive_frames),
        evolved_from(b, c, minimum_consecutive_frames),
    ensures
        evolved_from(a, c, minimum_consecutive_frames),
{
}

/// An identity, once assigned, never changes for as long as the track
/// lives: whatever a frame does to a track with a non-negative identity,
/// the identity comes out unchanged.
pub proof fn lemma_identity_is_stable(
    pre: KalmanBoxTracker,
    post: KalmanBoxTracker,
    minimum_consecutive_frames: int,
)
    requires
        evolved_from(pre, post, minimum_consecutive_frames),
        pre.tracker_id >= 0,
    ensures
        post.tracker_id == pre.tracker_id,
{
}

/// A track's identity stays `-1` until its success counter reaches the
/// maturity bar: if a frame assigns an identity, the track has at least
/// `minimum_consecutive_frames` successful corrections at that point.
pub proof fn lemma_activation_requires_maturity(
    pre: KalmanBoxTracker,
    post: KalmanBoxTracker,
    minimum_consecutive_frames: int,
)
    requires
        evolved_from(pre, post, minimum_consecutive_frames),
        pre.tracker_id == -1,
        post.tracker_id != -1,
    ensures
        post.tracker_id >= 0,
        post.number_of_successful_updates >= minimum_consecutive_frames,
{
}

pub struct ByteTrackTracker {
    pub maximum_frames_without_update: i64,
    pub minimum_consecutive_frames: i64,
    pub minimum_iou_threshold: i64,
    pub track_activation_threshold: i64,
    pub high_conf_det_threshold: i64,
    pub next_tracker_id: i64,
    pub tracks: Vec<KalmanBoxTracker>,
}

impl ByteTrackTracker {
    /// The live tracks are well formed, every assigned identity is unique,
    /// below the allocation counter, and only held by mature tracks.
    pub open spec fn tracks_wf(
        tracks: Seq<KalmanBoxTracker>,
        next_tracker_id: int,
        minimum_consecutive_frames: int,
    ) -> bool {
        &&& forall|k: int| 0 <= k < tracks.len() ==> (#[trigger] tracks[k]).wf()
        &&& forall|k: int|
            0 <= k < tracks.len() && (#[trigger] tracks[k]).tracker_id >= 0 ==> (tracks[
            k].tracker_id < next_tracker_id && tracks[k].number_of_successful_updates
                >= minimum_consecutive_frames)
        &&& forall|k1: int, k2: int|
            0 <= k1 < k2 < tracks.len() && (#[trigger] tracks[k1]).tracker_id >= 0 && (
            #[trigger] tracks[k2]).tracker_id >= 0 ==> tracks[k1].tracker_id
                != tracks[k2].tracker_id
    }

    pub open spec fn wf(self) -> bool {
        &&& self.next_tracker_id >= 0
        &&& Self::tracks_wf(
            self.tracks@,
            self.next_tracker_id as int,
            self.minimum_consecutive_frames as int,
        )
    }

    /// Build a tracker with no live tracks. The miss budget of a mature
    /// track is `frame_rate / 30 * lost_track_buffer`, truncated toward
    /// zero (`frame_rate` is fixed-point, so the reference rate 30 is
    /// `30 * SCALE`).
    pub fn new(
        lost_track_buffer: i64,
        frame_rate: i64,
        track_activation_threshold: i64,
        minimum_consecutive_frames: i64,
        minimum_iou_threshold: i64,
        high_conf_det_threshold: i64,
    ) -> (t: Self)
        requires
            0 <= lost_track_buffer,
            0 <= frame_rate,
            frame_rate * lost_track_buffer <= i64::MAX,
        ensures
            t.maximum_frames_without_update == frame_rate * lost_track_buffer / (30 * SCALE),
            t.minimum_consecutive_frames == minimum_consecutive_frames,
            t.minimum_iou_threshold == minimum_iou_threshold,
            t.track_activation_threshold == track_activation_threshold,
            t.high_conf_det_threshold == high_conf_det_threshold,
            t.next_tracker_id == 0,
            t.tracks@.len() == 0,
            t.wf(),
    {
        let prod: i128 = frame_rate as i128 * lost_track_buffer as i128;
        proof {
            lemma_div_pos_is_pos(prod as int, 30 * SCALE as int);
            lemma_div_nonincreasing(prod as int, 30 * SCALE as int);
        }
        let maximum_frames_without_update: i64 = (prod / (30i128 * SCALE as i128)) as i64;
        ByteTrackTracker {
            maximum_frames_without_update,
            minimum_consecutive_frames,
            minimum_iou_threshold,
            track_activation_threshold,
            high_conf_det_threshold,
            next_tracker_id: 0,
            tracks: Vec::new(),
        }
    }

    /// Split the detections by confidence: scores at or above the threshold
    /// go to the first vector, the rest to the second.
    #[verifier::loop_isolation(false)]
    fn split_detections(detections: &Vec<Detection>, high_conf_det_threshold: i64) -> (r: (
        Vec<Detection>,
        Vec<Detection>,
    ))
        ensures
            r.0@ == spec_high_conf(detections@, high_conf_det_threshold as int),
            r.1@ == spec_low_conf(detections@, high_conf_det_threshold as int),
            r.0@.len() + r.1@.len() == detections@.len(),
            forall|k: int|
                0 <= k < r.0@.len() ==> (#[trigger] r.0@[k]).score >= high_conf_det_threshold
                    && detections@.contains(r.0@[k]),
            forall|k: int|
                0 <= k < r.1@.len() ==> (#[trigger] r.1@[k]).score < high_conf_det_threshold
                    && detections@.contains(r.1@[k]),
            forall|i: int|
                0 <= i < detections@.len() && (#[trigger] detections@[i]).score
                    >= high_conf_det_threshold ==> r.0@.contains(detections@[i]),
            forall|i: int|
                0 <= i < detections@.len() && (#[trigger] detections@[i]).score
                    < high_conf_det_threshold ==> r.1@.contains(detections@[i]),
    {
        let mut high: Vec<Detection> = Vec::new();
        let mut low: Vec<Detection> = Vec::new();
        let mut i: usize = 0;
        while i < detections.len()
            invariant
                i <= detections@.len(),
                high@ == spec_high_conf(detections@.take(i as int), high_conf_det_threshold as int),
                low@ == spec_low_conf(detections@.take(i as int), high_conf_det_threshold as int),
                high@.len() + low@.len() == i,
                forall|k: int|
                    0 <= k < high@.len() ==> (#[trigger] high@[k]).score
                        >= high_conf_det_threshold && detections@.contains(high@[k]),
                forall|k: int|
                    0 <= k < low@.len() ==> (#[trigger] low@[k]).score < high_conf_det_threshold
                        && detections@.contains(low@[k]),
                forall|i2: int|
                    0 <= i2 < i && (#[trigger] detections@[i2]).score >= high_conf_det_threshold
                        ==> high@.contains(detections@[i2]),
                forall|i2: int|
                    0 <= i2 < i && (#[trigger] detections@[i2]).score < high_conf_det_threshold
                        ==> low@.contains(detections@[i2]),
            decreases detections@.len() - i,
        {
            let d = detections[i];
            proof {
                assert(detections@[i as int] == d);
                assert(detections@.take(i + 1) =~= detections@.take(i as int).push(d));
                assert(detections@.take(i + 1).drop_last() =~= detections@.take(i as int));
                assert(detections@.take(i + 1).last() == d);
            }
            if d.score >= high_conf_det_threshold {
                let ghost pre = high@;
                high.push(d);
                proof {
                    assert forall|i2: int|
                        0 <= i2 < i + 1 && (#[trigger] detections@[i2]).score
                            >= high_conf_det_threshold implies high@.contains(detections@[i2]) by {
                        if i2 < i {
                            lemma_push_preserves_contains(pre, d, detections@[i2]);
                        } else {
                            assert(high@[pre.len() as int] == d);
                        }
                    }
                }
            } else {
                let ghost pre = low@;
                low.push(d);
                proof {
                    assert forall|i2: int|
                        0 <= i2 < i + 1 && (#[trigger] detections@[i2]).score
                            < high_conf_det_threshold implies low@.contains(detections@[i2]) by {
                        if i2 < i {
                            lemma_push_preserves_contains(pre, d, detections@[i2]);
                        } else {
                            assert(low@[pre.len() as int] == d);
                        }
                    }
                }
            }
            i += 1;
        }
        proof {
            assert(detections@.take(detections@.len() as int) =~= detections@);
        }
        (high, low)
    }

    /// Correct each matched track with its detection's box, activate tracks
    /// whose success counter has just reached the maturity bar (allocating
    /// the next identity), and emit one tracked detection per match.
    #[verifier::loop_isolation(false)]
    fn update_detections(
        tracks: &mut Vec<KalmanBoxTracker>,
        detections: &Vec<Detection>,
        updated_detections: &mut Vec<TrackedDetection>,
        matched_indices: &Vec<(usize, usize)>,
        minimum_consecutive_frames: i64,
        next_tracker_id: &mut i64,
    )
        requires
            *old(next_tracker_id) >= 0,
            Self::tracks_wf(
                old(tracks)@,
                *old(next_tracker_id) as int,
                minimum_consecutive_frames as int,
            ),
            forall|k: int|
                0 <= k < matched_indices@.len() ==> (((#[trigger] matched_indices@[k]).0 as int)
                    < old(tracks)@.len() && ((matched_indices@[k]).1 as int) < detections@.len()),
            forall|k1: int, k2: int|
                0 <= k1 < k2 < matched_indices@.len() ==> (matched_indices@[k1].0 as int)
                    < (matched_indices@[k2].0 as int),
            forall|k: int|
                0 <= k < detections@.len() ==> (#[trigger] detections@[k]).box_coords.wf(),
        ensures
            final(tracks)@.len() == old(tracks)@.len(),
            *final(next_tracker_id) >= *old(next_tracker_id),
            *old(next_tracker_id) + matched_indices@.len() <= i64::MAX ==> *final(next_tracker_id) == *old(next_tracker_id) + spec_activations(
                old(tracks)@,
                matched_indices@,
                minimum_consecutive_frames as int,
                matched_indices@.len() as int,
            ),
            forall|k: int|
                0 <= k < matched_indices@.len() && *old(next_tracker_id) + matched_indices@.len()
                    <= i64::MAX ==> {
                    let ti = (#[trigger] matched_indices@[k]).0 as int;
                    let c = spec_corrected(
                        old(tracks)@[ti],
                        detections@[matched_indices@[k].1 as int].box_coords,
                    );
                    final(tracks)@[ti] == if needs_activation(
                        old(tracks)@[ti],
                        minimum_consecutive_frames as int,
                    ) {
                        spec_activated(
                            c,
                            *old(next_tracker_id) + spec_activations(
                                old(tracks)@,
                                matched_indices@,
                                minimum_consecutive_frames as int,
                                k,
                            ),
                        )
                    } else {
                        c
                    }
                },
            Self::tracks_wf(
                final(tracks)@,
                *final(next_tracker_id) as int,
                minimum_consecutive_frames as int,
            ),
            forall|i: int|
                0 <= i < final(tracks)@.len() && (forall|k: int|
                    0 <= k < matched_indices@.len() ==> ((#[trigger] matched_indices@[k]).0
                        as int) != i) ==> final(tracks)@[i] == old(tracks)@[i],
            forall|i: int|
                0 <= i < final(tracks)@.len() ==> evolved_from(
                    old(tracks)@[i],
                    #[trigger] final(tracks)@[i],
                    minimum_consecutive_frames as int,
                ),
            forall|k: int|
                0 <= k < matched_indices@.len() ==> {
                    let ti = (#[trigger] matched_indices@[k]).0 as int;
                    &&& final(tracks)@[ti].time_since_update == 0
                    &&& final(tracks)@[ti].number_of_successful_updates == sat_inc(
                        old(tracks)@[ti].number_of_successful_updates as int,
                    )
                    &&& (old(tracks)@[ti].tracker_id == -1 && sat_inc(
                        old(tracks)@[ti].number_of_successful_updates as int,
                    ) >= minimum_consecutive_frames && *final(next_tracker_id) < i64::MAX ==> final(tracks)@[ti].tracker_id >= 0)
                    &&& (old(tracks)@[ti].tracker_id == -1 && sat_inc(
                        old(tracks)@[ti].number_of_successful_updates as int,
                    ) < minimum_consecutive_frames ==> final(tracks)@[ti].tracker_id == -1)
                },
            final(updated_detections)@.len() == old(updated_detections)@.len()
                + matched_indices@.len(),
            forall|k: int|
                0 <= k < old(updated_detections)@.len() ==> #[trigger] final(updated_detections)@[k] == old(updated_detections)@[k],
            forall|k: int|
                0 <= k < matched_indices@.len() ==> {
                    let e = final(updated_detections)@[old(updated_detections)@.len() + k];
                    &&& e.box_coords == detections@[(#[trigger] matched_indices@[k]).1
                        as int].box_coords
                    &&& e.tracker_id == final(tracks)@[matched_indices@[k].0 as int].tracker_id
                },
    {
        let ghost tr_in = tracks@;
        let ghost ud_in = updated_detections@;
        let mut k: usize = 0;
        while k < matched_indices.len()
            invariant
                k <= matched_indices@.len(),
                tracks@.len() == tr_in.len(),
                *next_tracker_id >= *old(next_tracker_id),
                *old(next_tracker_id) + matched_indices@.len() <= i64::MAX
                    ==> *next_tracker_id == *old(next_tracker_id) + spec_activations(
                    tr_in,
                    matched_indices@,
                    minimum_consecutive_frames as int,
                    k as int,
                ),
                forall|k2: int|
                    0 <= k2 < k && *old(next_tracker_id) + matched_indices@.len() <= i64::MAX
                        ==> {
                        let ti = (#[trigger] matched_indices@[k2]).0 as int;
                        let c = spec_corrected(
                            tr_in[ti],
                            detections@[matched_indices@[k2].1 as int].box_coords,
                        );
                        tracks@[ti] == if needs_activation(
                            tr_in[ti],
                            minimum_consecutive_frames as int,
                        ) {
                            spec_activated(
                                c,
                                *old(next_tracker_id) + spec_activations(
                                    tr_in,
                                    matched_indices@,
                                    minimum_consecutive_frames as int,
                                    k2,
                                ),
                            )
                        } else {
                            c
                        }
                    },
                Self::tracks_wf(
                    tracks@,
                    *next_tracker_id as int,
                    minimum_consecutive_frames as int,
                ),
                forall|i: int|
                    0 <= i < tracks@.len() && (forall|k2: int|
                        0 <= k2 < k ==> ((#[trigger] matched_indices@[k2]).0 as int) != i)
                        ==> tracks@[i] == tr_in[i],
                forall|i: int|
                    0 <= i < tracks@.len() ==> evolved_from(
                        tr_in[i],
                        #[trigger] tracks@[i],
                        minimum_consecutive_frames as int,
                    ),
                forall|k2: int|
                    0 <= k2 < k ==> {
                        let ti = (#[trigger] matched_indices@[k2]).0 as int;
                        &&& tracks@[ti].time_since_update == 0
                        &&& tracks@[ti].number_of_successful_updates == sat_inc(
                            tr_in[ti].number_of_successful_updates as int,
                        )
                        &&& (tr_in[ti].tracker_id == -1 && sat_inc(
                            tr_in[ti].number_of_successful_updates as int,
                        ) >= minimum_consecutive_frames && *next_tracker_id < i64::MAX
                            ==> tracks@[ti].tracker_id >= 0)
                        &&& (tr_in[ti].tracker_id == -1 && sat_inc(
                            tr_in[ti].number_of_successful_updates as int,
                        ) < minimum_consecutive_frames ==> tracks@[ti].tracker_id == -1)
                    },
                updated_detections@.len() == ud_in.len() + k,
                forall|k2: int|
                    0 <= k2 < ud_in.len() ==> #[trigger] updated_detections@[k2] == ud_in[k2],
                forall|k2: int|
                    0 <= k2 < k ==> {
                        let e = updated_detections@[ud_in.len() + k2];
                        &&& e.box_coords == detections@[(#[trigger] matched_indices@[k2]).1
                            as int].box_coords
                        &&& e.tracker_id == tracks@[matched_indices@[k2].0 as int].tracker_id
                    },
            decreases matched_indices@.len() - k,
        {
            let pair = matched_indices[k];
            let track_idx = pair.0;
            let det_idx = pair.1;
            let bbox = detections[det_idx].box_coords;
            let mut t = tracks[track_idx];
            proof {
                assert(forall|k2: int|
                    0 <= k2 < k ==> ((#[trigger] matched_indices@[k2]).0 as int) < track_idx
                        as int);
                assert(tracks@[track_idx as int] == tr_in[track_idx as int]);
            }
            t.update(&bbox);
            proof {
                lemma_activations_bounds(
                    tr_in,
                    matched_indices@,
                    minimum_consecutive_frames as int,
                    k as int,
                );
                assert(spec_activations(
                    tr_in,
                    matched_indices@,
                    minimum_consecutive_frames as int,
                    k + 1,
                ) == spec_activations(
                    tr_in,
                    matched_indices@,
                    minimum_consecutive_frames as int,
                    k as int,
                ) + if needs_activation(
                    tr_in[track_idx as int],
                    minimum_consecutive_frames as int,
                ) {
                    1int
                } else {
                    0int
                });
            }
            if t.number_of_successful_updates >= minimum_consecutive_frames && t.tracker_id == -1
            {
                if *next_tracker_id < i64::MAX {
                    t.tracker_id = *next_tracker_id;
                    *next_tracker_id = *next_tracker_id + 1;
                }
            }
            tracks.set(track_idx, t);
            updated_detections.push(
                TrackedDetection { box_coords: bbox, tracker_id: t.tracker_id },
            );
            k += 1;
        }
    }

    /// Spawn a fresh track (and emit an identity-less tracked detection)
    /// for every unmatched high-confidence detection whose score reaches
    /// the activation threshold; weaker detections are silently dropped.
    #[verifier::loop_isolation(false)]
    fn spawn_new_trackers(
        tracks: &mut Vec<KalmanBoxTracker>,
        updated_detections: &mut Vec<TrackedDetection>,
        detections: &Vec<Detection>,
        unmatched_detections: &Vec<usize>,
        track_activation_threshold: i64,
    )
        requires
            forall|k: int|
                0 <= k < detections@.len() ==> (#[trigger] detections@[k]).box_coords.wf(),
        ensures
            final(tracks)@ == old(tracks)@ + spec_spawned_tracks(
                unmatched_detections@,
                detections@,
                track_activation_threshold as int,
            ),
            final(updated_detections)@ == old(updated_detections)@ + spec_spawned_rows(
                unmatched_detections@,
                detections@,
                track_activation_threshold as int,
            ),
            final(tracks)@.len() >= old(tracks)@.len(),
            forall|i: int|
                0 <= i < old(tracks)@.len() ==> #[trigger] final(tracks)@[i] == old(tracks)@[i],
            forall|i: int|
                old(tracks)@.len() <= i < final(tracks)@.len() ==> ((#[trigger] final(tracks)@[i]).tracker_id == -1 && final(tracks)@[i].number_of_successful_updates == 1
                    && final(tracks)@[i].time_since_update == 0 && final(tracks)@[i].wf()),
            forall|k: int|
                0 <= k < old(updated_detections)@.len() ==> #[trigger] final(updated_detections)@[k] == old(updated_detections)@[k],
            final(updated_detections)@.len() >= old(updated_detections)@.len(),
            final(updated_detections)@.len() <= old(updated_detections)@.len()
                + unmatched_detections@.len(),
            forall|k: int|
                old(updated_detections)@.len() <= k < final(updated_detections)@.len() ==> ((
                #[trigger] final(updated_detections)@[k]).tracker_id == -1
                    && box_from_detections(
                    final(updated_detections)@[k].box_coords,
                    detections@,
                )),
    {
        let ghost tr_in = tracks@;
        let ghost ud_in = updated_detections@;
        let ghost mut sources: Seq<int> = Seq::empty();
        let mut k: usize = 0;
        while k < unmatched_detections.len()
            invariant
                k <= unmatched_detections@.len(),
                tracks@ == tr_in + spec_spawned_tracks(
                    unmatched_detections@.take(k as int),
                    detections@,
                    track_activation_threshold as int,
                ),
                updated_detections@ == ud_in + spec_spawned_rows(
                    unmatched_detections@.take(k as int),
                    detections@,
                    track_activation_threshold as int,
                ),
                tracks@.len() >= tr_in.len(),
                forall|i: int| 0 <= i < tr_in.len() ==> #[trigger] tracks@[i] == tr_in[i],
                forall|i: int|
                    tr_in.len() <= i < tracks@.len() ==> ((#[trigger] tracks@[i]).tracker_id == -1
                        && tracks@[i].number_of_successful_updates == 1
                        && tracks@[i].time_since_update == 0 && tracks@[i].wf()),
                updated_detections@.len() == ud_in.len() + sources.len(),
                sources.len() <= k,
                forall|k2: int|
                    0 <= k2 < ud_in.len() ==> #[trigger] updated_detections@[k2] == ud_in[k2],
                forall|k2: int|
                    0 <= k2 < sources.len() ==> 0 <= #[trigger] sources[k2] < detections@.len(),
                forall|k2: int|
                    0 <= k2 < sources.len() ==> (#[trigger] updated_detections@[ud_in.len()
                        + k2]).tracker_id == -1,
                forall|k2: int|
                    0 <= k2 < sources.len() ==> (#[trigger] updated_detections@[ud_in.len()
                        + k2]).box_coords == detections@[sources[k2]].box_coords,
            decreases unmatched_detections@.len() - k,
        {
            let det_idx = unmatched_detections[k];
            proof {
                assert(unmatched_detections@.take(k + 1) =~= unmatched_detections@.take(
                    k as int,
                ).push(det_idx));
                assert(unmatched_detections@.take(k + 1).drop_last()
                    =~= unmatched_detections@.take(k as int));
                assert(unmatched_detections@.take(k + 1).last() == det_idx);
            }
            if det_idx < detections.len() {
                let confidence = detections[det_idx].score;
                if confidence >= track_activation_threshold {
                    let new_tracker = KalmanBoxTracker::new(&detections[det_idx].box_coords);
                    tracks.push(new_tracker);
                    updated_detections.push(
                        TrackedDetection {
                            box_coords: detections[det_idx].box_coords,
                            tracker_id: -1,
                        },
                    );
                    proof {
                        sources = sources.push(det_idx as int);
                    }
                }
            }
            k += 1;
        }
        proof {
            assert(unmatched_detections@.take(unmatched_detections@.len() as int)
                =~= unmatched_detections@);
            assert forall|k2: int|
                ud_in.len() <= k2 < updated_detections@.len() implies ((
            #[trigger] updated_detections@[k2]).tracker_id == -1 && box_from_detections(
                updated_detections@[k2].box_coords,
                detections@,
            )) by {
                let k3 = k2 - ud_in.len();
                let m = sources[k3];
                assert((updated_detections@[ud_in.len() + k3]).tracker_id == -1);
                assert((updated_detections@[ud_in.len() + k3]).box_coords
                    == detections@[sources[k3]].box_coords);
                assert(ud_in.len() + k3 == k2);
                assert(updated_detections@[k2].box_coords == (detections@[m]).box_coords);
            }
        }
    }

    /// One frame of tracking: returns the frame's tracked detections, in
    /// emission order (first-round matches, second-round matches, leftover
    /// low-confidence detections, freshly spawned tracks).
    ///
    /// The contract pins down: every emitted box is one of this frame's
    /// detection boxes; every emitted identity is `-1` or an allocated
    /// identity; each detection yields at most one row, each low-confidence
    /// detection yields exactly one, and when every pairwise similarity
    /// clears the threshold at least one first-round match is emitted too;
    /// on a tracker with no live tracks the call allocates no identity and,
    /// when every score reaches the activation threshold, emits exactly one
    /// row per detection; every surviving track satisfies the survival
    /// predicate, and conversely a track holding an identity whose miss
    /// counter stays below the budget is kept under the same identity; each
    /// surviving track either evolved from a pre-call track (identity
    /// stable, maturity rules respected) or is freshly spawned. Which pairs
    /// the assignment solver matches is not modelled here, so the exact
    /// row-by-row content of a frame with both live tracks and detections
    /// is fixed by the helper contracts only up to that choice.
    #[verifier::loop_isolation(false)]
    #[verifier::rlimit(100)]
    #[verifier::spinoff_prover]
    pub fn update(&mut self, detections: &Vec<Detection>) -> (r: Vec<TrackedDetection>)
        requires
            old(self).wf(),
            forall|k: int|
                0 <= k < detections@.len() ==> (#[trigger] detections@[k]).box_coords.wf(),
            old(self).tracks@.len() * detections@.len() <= usize::MAX,
        ensures
            final(self).wf(),
            final(self).maximum_frames_without_update == old(
                self,
            ).maximum_frames_without_update,
            final(self).minimum_consecutive_frames == old(self).minimum_consecutive_frames,
            final(self).minimum_iou_threshold == old(self).minimum_iou_threshold,
            final(self).track_activation_threshold == old(self).track_activation_threshold,
            final(self).high_conf_det_threshold == old(self).high_conf_det_threshold,
            final(self).next_tracker_id >= old(self).next_tracker_id,
            old(self).tracks@.len() == 0 && detections@.len() == 0 ==> (r@.len() == 0
                && *final(self) == *old(self)),
            forall|k: int|
                0 <= k < r@.len() ==> ((#[trigger] r@[k]).tracker_id == -1 || (0
                    <= r@[k].tracker_id < final(self).next_tracker_id)),
            forall|k: int|
                0 <= k < r@.len() ==> box_from_detections(
                    (#[trigger] r@[k]).box_coords,
                    detections@,
                ),
            r@.len() <= detections@.len(),
            r@.len() >= spec_low_conf(
                detections@,
                old(self).high_conf_det_threshold as int,
            ).len(),
            old(self).tracks@.len() == 0 ==> final(self).next_tracker_id == old(
                self,
            ).next_tracker_id,
            (old(self).tracks@.len() > 0 && spec_high_conf(
                detections@,
                old(self).high_conf_det_threshold as int,
            ).len() > 0 && forall|i: int, j: int|
                0 <= i < old(self).tracks@.len() && 0 <= j < spec_high_conf(
                    detections@,
                    old(self).high_conf_det_threshold as int,
                ).len() ==> spec_iou(
                    spec_predicted(#[trigger] old(self).tracks@[i]).pos,
                    (#[trigger] spec_high_conf(
                        detections@,
                        old(self).high_conf_det_threshold as int,
                    )[j]).box_coords,
                ) >= old(self).minimum_iou_threshold) ==> r@.len() >= spec_low_conf(
                detections@,
                old(self).high_conf_det_threshold as int,
            ).len() + 1,
            old(self).tracks@.len() == 0 && old(self).maximum_frames_without_update >= 1
                ==> final(self).tracks@ == spec_cold_spawned(
                detections@,
                old(self).high_conf_det_threshold as int,
                old(self).track_activation_threshold as int,
            ),
            old(self).tracks@.len() == 0 && old(self).maximum_frames_without_update < 1
                ==> final(self).tracks@.len() == 0,
            (old(self).tracks@.len() == 0 && forall|m: int|
                0 <= m < detections@.len() ==> (#[trigger] detections@[m]).score >= old(
                    self,
                ).track_activation_threshold) ==> r@.len() == detections@.len(),
            forall|i: int|
                0 <= i < old(self).tracks@.len() && (#[trigger] old(self).tracks@[i]).tracker_id
                    >= 0 && old(self).tracks@[i].time_since_update + 1
                    < old(self).maximum_frames_without_update ==> exists|k: int|
                    0 <= k < final(self).tracks@.len()
                        && (#[trigger] final(self).tracks@[k]).tracker_id
                        == old(self).tracks@[i].tracker_id,
            forall|k: int|
                0 <= k < final(self).tracks@.len() ==> spec_alive(
                    #[trigger] final(self).tracks@[k],
                    final(self).minimum_consecutive_frames as int,
                    final(self).maximum_frames_without_update as int,
                ),
            forall|k: int|
                0 <= k < final(self).tracks@.len() ==> ((exists|i: int|
                    0 <= i < old(self).tracks@.len() && evolved_from(
                        old(self).tracks@[i],
                        #[trigger] final(self).tracks@[k],
                        old(self).minimum_consecutive_frames as int,
                    )) || (final(self).tracks@[k].tracker_id == -1 && final(self).tracks@[k].number_of_successful_updates == 1)),
    {
        if self.tracks.len() == 0 && detections.len() == 0 {
            return Vec::new();
        }
        let ghost tr0 = self.tracks@;

        let mut updated_detections: Vec<TrackedDetection> = Vec::new();

        // Predict every live track.
        let mut predicted: Vec<KalmanBoxTracker> = Vec::new();
        let mut ti: usize = 0;
        while ti < self.tracks.len()
            invariant
                ti <= tr0.len(),
                self.tracks@ == tr0,
                predicted@.len() == ti,
                forall|i: int|
                    0 <= i < ti ==> ((#[trigger] predicted@[i]) == spec_predicted(tr0[i])
                        && predicted@[i].wf()),
            decreases tr0.len() - ti,
        {
            let mut t = self.tracks[ti];
            t.predict();
            predicted.push(t);
            ti += 1;
        }
        self.tracks = predicted;
        proof {
            assert(Self::tracks_wf(
                self.tracks@,
                self.next_tracker_id as int,
                self.minimum_consecutive_frames as int,
            ));
            assert(forall|i: int|
                0 <= i < self.tracks@.len() ==> evolved_from(
                    tr0[i],
                    #[trigger] self.tracks@[i],
                    self.minimum_consecutive_frames as int,
                ));
        }

        // Split the detections by confidence.
        let (high_conf_detections, low_conf_detections) = Self::split_detections(
            detections,
            self.high_conf_det_threshold,
        );
        proof {
            assert forall|k: int|
                0 <= k < high_conf_detections@.len() implies (
            #[trigger] high_conf_detections@[k]).box_coords.wf() by {
                assert(detections@.contains(high_conf_detections@[k]));
                let m = choose|m: int|
                    0 <= m < detections@.len() && detections@[m] == high_conf_detections@[k];
                assert(detections@[m].box_coords.wf());
            }
            assert forall|k: int|
                0 <= k < low_conf_detections@.len() implies (
            #[trigger] low_conf_detections@[k]).box_coords.wf() by {
                assert(detections@.contains(low_conf_detections@[k]));
                let m = choose|m: int|
                    0 <= m < detections@.len() && detections@[m] == low_conf_detections@[k];
                assert(detections@[m].box_coords.wf());
            }
        }

        let mut high_conf_boxes: Vec<BBox> = Vec::new();
        let mut hk: usize = 0;
        while hk < high_conf_detections.len()
            invariant
                hk <= high_conf_detections@.len(),
                high_conf_boxes@.len() == hk,
                forall|k: int|
                    0 <= k < hk ==> #[trigger] high_conf_boxes@[k]
                        == high_conf_detections@[k].box_coords,
            decreases high_conf_detections@.len() - hk,
        {
            high_conf_boxes.push(high_conf_detections[hk].box_coords);
            hk += 1;
        }
        let mut low_conf_boxes: Vec<BBox> = Vec::new();
        let mut lk: usize = 0;
        while lk < low_conf_detections.len()
            invariant
                lk <= low_conf_detections@.len(),
                low_conf_boxes@.len() == lk,
                forall|k: int|
                    0 <= k < lk ==> #[trigger] low_conf_boxes@[k]
                        == low_conf_detections@[k].box_coords,
            decreases low_conf_detections@.len() - lk,
        {
            low_conf_boxes.push(low_conf_detections[lk].box_coords);
            lk += 1;
        }
        let mut predicted_boxes: Vec<BBox> = Vec::new();
        let mut pk: usize = 0;
        while pk < self.tracks.len()
            invariant
                pk <= self.tracks@.len(),
                predicted_boxes@.len() == pk,
                forall|k: int|
                    0 <= k < pk ==> ((#[trigger] predicted_boxes@[k]) == self.tracks@[k].pos
                        && predicted_boxes@[k].wf()),
                self.tracks@.len() == tr0.len(),
                forall|k: int| 0 <= k < self.tracks@.len() ==> (#[trigger] self.tracks@[k]).wf(),
            decreases self.tracks@.len() - pk,
        {
            predicted_boxes.push(self.tracks[pk].get_state_bbox());
            pk += 1;
        }

        let n_tracks = self.tracks.len();
        let n_high = high_conf_boxes.len();

        // Round 1: tracks against high-confidence detections.
        let mut matched_indices: Vec<(usize, usize)> = Vec::new();
        let mut unmatched_track_indices: Vec<usize> = Vec::new();
        let mut unmatched_det_indices: Vec<usize> = Vec::new();
        if n_high > 0 && n_tracks > 0 {
            proof {
                lemma_mul_left_inequality(
                    n_tracks as int,
                    n_high as int,
                    detections@.len() as int,
                );
            }
            let iou_matrix = compute_iou_batch(&predicted_boxes, &high_conf_boxes);
            let assoc = get_associated_indices(
                &iou_matrix,
                n_tracks,
                n_high,
                self.minimum_iou_threshold,
            );
            matched_indices = assoc.0;
            unmatched_track_indices = assoc.1;
            unmatched_det_indices = assoc.2;
            proof {
                if forall|i: int, j: int|
                    0 <= i < tr0.len() && 0 <= j < high_conf_detections@.len() ==> spec_iou(
                        spec_predicted(#[trigger] tr0[i]).pos,
                        (#[trigger] high_conf_detections@[j]).box_coords,
                    ) >= self.minimum_iou_threshold {
                    assert forall|k: int|
                        0 <= k < iou_matrix@.len() implies #[trigger] iou_matrix@[k]
                        >= self.minimum_iou_threshold by {
                        let i = k / (n_high as int);
                        let j = k % (n_high as int);
                        lemma_fundamental_div_mod(k, n_high as int);
                        lemma_mod_bound(k, n_high as int);
                        lemma_div_pos_is_pos(k, n_high as int);
                        assert(i < n_tracks) by {
                            if i >= n_tracks {
                                lemma_mul_inequality(n_tracks as int, i, n_high as int);
                                lemma_mul_is_commutative(i, n_high as int);
                            }
                        }
                        lemma_mul_is_commutative(i, n_high as int);
                        assert(k == mat_idx(n_high as int, i, j));
                        assert(iou_matrix@[mat_idx(n_high as int, i, j)] == spec_iou(
                            predicted_boxes@[i],
                            high_conf_boxes@[j],
                        ));
                        assert(predicted_boxes@[i] == spec_predicted(tr0[i]).pos);
                        assert(high_conf_boxes@[j] == high_conf_detections@[j].box_coords);
                    }
                    assert(matched_indices@.len() >= 1);
                }
            }
        } else {
            let mut i: usize = 0;
            while i < n_tracks
                invariant
                    i <= n_tracks,
                    unmatched_track_indices@.len() == i,
                    forall|k: int|
                        0 <= k < i ==> (#[trigger] unmatched_track_indices@[k]) == k,
                decreases n_tracks - i,
            {
                unmatched_track_indices.push(i);
                i += 1;
            }
            let mut j: usize = 0;
            while j < n_high
                invariant
                    j <= n_high,
                    unmatched_det_indices@.len() == j,
                    forall|k: int| 0 <= k < j ==> (#[trigger] unmatched_det_indices@[k]) == k,
                decreases n_high - j,
            {
                unmatched_det_indices.push(j);
                j += 1;
            }
        }
        proof {
            assert(forall|k: int|
                0 <= k < matched_indices@.len() ==> (((#[trigger] matched_indices@[k]).0 as int)
                    < n_tracks && ((matched_indices@[k]).1 as int) < n_high));
            assert(forall|k1: int, k2: int|
                0 <= k1 < k2 < matched_indices@.len() ==> (matched_indices@[k1].0 as int)
                    < (matched_indices@[k2].0 as int));
            assert(forall|k: int|
                0 <= k < unmatched_track_indices@.len() ==> (
                #[trigger] unmatched_track_indices@[k]) < n_tracks);
            assert(forall|k1: int, k2: int|
                0 <= k1 < k2 < unmatched_track_indices@.len() ==> unmatched_track_indices@[k1]
                    < unmatched_track_indices@[k2]);
            assert(matched_indices@.len() + unmatched_det_indices@.len() == n_high);
        }

        let ghost tr1 = self.tracks@;
        Self::update_detections(
            &mut self.tracks,
            &high_conf_detections,
            &mut updated_detections,
            &matched_indices,
            self.minimum_consecutive_frames,
            &mut self.next_tracker_id,
        );
        proof {
            assert forall|i: int| 0 <= i < self.tracks@.len() implies evolved_from(
                tr0[i],
                #[trigger] self.tracks@[i],
                self.minimum_consecutive_frames as int,
            ) by {
                lemma_evolved_trans(
                    tr0[i],
                    tr1[i],
                    self.tracks@[i],
                    self.minimum_consecutive_frames as int,
                );
            }
            assert forall|k: int| 0 <= k < updated_detections@.len() implies (((
            #[trigger] updated_detections@[k]).tracker_id == -1 || (0
                <= updated_detections@[k].tracker_id < self.next_tracker_id)) && box_from_detections(updated_detections@[k].box_coords, detections@)) by {
                let ti = matched_indices@[k].0 as int;
                let col = matched_indices@[k].1 as int;
                assert(updated_detections@[k].tracker_id == self.tracks@[ti].tracker_id);
                assert(self.tracks@[ti].wf());
                assert(updated_detections@[k].box_coords
                    == high_conf_detections@[col].box_coords);
                let m = choose|m: int|
                    0 <= m < detections@.len() && detections@[m] == high_conf_detections@[col];
                assert(updated_detections@[k].box_coords == detections@[m].box_coords);
            }
        }

        // Round 2: leftover tracks against low-confidence detections.
        let mut remaining_predicted_boxes: Vec<BBox> = Vec::new();
        let mut rk: usize = 0;
        while rk < unmatched_track_indices.len()
            invariant
                rk <= unmatched_track_indices@.len(),
                remaining_predicted_boxes@.len() == rk,
                forall|k: int|
                    0 <= k < rk ==> ((#[trigger] remaining_predicted_boxes@[k])
                        == predicted_boxes@[unmatched_track_indices@[k] as int]
                        && remaining_predicted_boxes@[k].wf()),
            decreases unmatched_track_indices@.len() - rk,
        {
            remaining_predicted_boxes.push(predicted_boxes[unmatched_track_indices[rk]]);
            rk += 1;
        }

        let n_low = low_conf_boxes.len();
        let n_remaining = remaining_predicted_boxes.len();
        let mut matched2: Vec<(usize, usize)> = Vec::new();
        let mut unmatched_det_indices2: Vec<usize> = Vec::new();
        if n_low > 0 && n_remaining > 0 {
            proof {
                lemma_strict_inc_bound(unmatched_track_indices@, tr0.len() as int);
                assert(n_remaining * n_low <= usize::MAX) by (nonlinear_arith)
                    requires
                        0 <= n_remaining <= tr0.len(),
                        0 <= n_low <= detections@.len(),
                        tr0.len() * detections@.len() <= usize::MAX,
                ;
            }
            let iou_matrix2 = compute_iou_batch(&remaining_predicted_boxes, &low_conf_boxes);
            let assoc2 = get_associated_indices(
                &iou_matrix2,
                n_remaining,
                n_low,
                self.minimum_iou_threshold,
            );
            matched2 = assoc2.0;
            unmatched_det_indices2 = assoc2.2;
        } else {
            let mut j: usize = 0;
            while j < n_low
                invariant
                    j <= n_low,
                    unmatched_det_indices2@.len() == j,
                    forall|k: int| 0 <= k < j ==> (#[trigger] unmatched_det_indices2@[k]) == k,
                decreases n_low - j,
            {
                unmatched_det_indices2.push(j);
                j += 1;
            }
        }
        proof {
            assert(matched2@.len() + unmatched_det_indices2@.len() == n_low);
            assert(forall|k: int|
                0 <= k < unmatched_det_indices2@.len() ==> (
                #[trigger] unmatched_det_indices2@[k]) < n_low);
        }

        // Translate second-round rows back into the full track indexing.
        let mut matched_indices_adjusted: Vec<(usize, usize)> = Vec::new();
        let mut mk: usize = 0;
        while mk < matched2.len()
            invariant
                mk <= matched2@.len(),
                matched_indices_adjusted@.len() == mk,
                forall|k: int|
                    0 <= k < matched2@.len() ==> (((#[trigger] matched2@[k]).0 as int)
                        < unmatched_track_indices@.len() && ((matched2@[k]).1 as int) < n_low),
                forall|k: int|
                    0 <= k < mk ==> ((#[trigger] matched_indices_adjusted@[k]).0
                        == unmatched_track_indices@[matched2@[k].0 as int]
                        && matched_indices_adjusted@[k].1 == matched2@[k].1),
            decreases matched2@.len() - mk,
        {
            let p = matched2[mk];
            matched_indices_adjusted.push((unmatched_track_indices[p.0], p.1));
            mk += 1;
        }
        proof {
            assert forall|k1: int, k2: int|
                0 <= k1 < k2 < matched_indices_adjusted@.len() implies (
            matched_indices_adjusted@[k1].0 as int) < (matched_indices_adjusted@[k2].0 as int) by {
                assert((matched2@[k1].0 as int) < (matched2@[k2].0 as int));
            }
        }

        let ghost tr2 = self.tracks@;
        let ghost ud1 = updated_detections@;
        let ghost next1 = self.next_tracker_id as int;
        Self::update_detections(
            &mut self.tracks,
            &low_conf_detections,
            &mut updated_detections,
            &matched_indices_adjusted,
            self.minimum_consecutive_frames,
            &mut self.next_tracker_id,
        );
        proof {
            assert forall|i: int| 0 <= i < self.tracks@.len() implies evolved_from(
                tr0[i],
                #[trigger] self.tracks@[i],
                self.minimum_consecutive_frames as int,
            ) by {
                lemma_evolved_trans(
                    tr0[i],
                    tr2[i],
                    self.tracks@[i],
                    self.minimum_consecutive_frames as int,
                );
            }
            assert forall|k: int| 0 <= k < updated_detections@.len() implies (((
            #[trigger] updated_detections@[k]).tracker_id == -1 || (0
                <= updated_detections@[k].tracker_id < self.next_tracker_id)) && box_from_detections(updated_detections@[k].box_coords, detections@)) by {
                if k < ud1.len() {
                    assert(updated_detections@[k] == ud1[k]);
                } else {
                    let k2 = k - ud1.len();
                    let ti = matched_indices_adjusted@[k2].0 as int;
                    let col = matched_indices_adjusted@[k2].1 as int;
                    assert(updated_detections@[k].tracker_id == self.tracks@[ti].tracker_id);
                    assert(self.tracks@[ti].wf());
                    assert(updated_detections@[k].box_coords
                        == low_conf_detections@[col].box_coords);
                    let m = choose|m: int|
                        0 <= m < detections@.len() && detections@[m] == low_conf_detections@[col];
                    assert(updated_detections@[k].box_coords == detections@[m].box_coords);
                }
            }
        }

        // Leftover low-confidence detections are visible but identity-less.
        let ghost ud_before_leftovers = updated_detections@.len() as int;
        let mut uk: usize = 0;
        while uk < unmatched_det_indices2.len()
            invariant
                uk <= unmatched_det_indices2@.len(),
                updated_detections@.len() == ud_before_leftovers + uk,
                forall|k: int|
                    0 <= k < updated_detections@.len() ==> (((
                    #[trigger] updated_detections@[k]).tracker_id == -1 || (0
                        <= updated_detections@[k].tracker_id < self.next_tracker_id)) && box_from_detections(updated_detections@[k].box_coords, detections@)),
            decreases unmatched_det_indices2@.len() - uk,
        {
            let det_idx = unmatched_det_indices2[uk];
            if det_idx < low_conf_boxes.len() {
                updated_detections.push(
                    TrackedDetection { box_coords: low_conf_boxes[det_idx], tracker_id: -1 },
                );
                proof {
                    let m = choose|m: int|
                        0 <= m < detections@.len() && detections@[m]
                            == low_conf_detections@[det_idx as int];
                    assert(detections@[m].box_coords == low_conf_boxes@[det_idx as int]);
                }
            }
            uk += 1;
        }

        // Spawn new tracks from unmatched high-confidence detections.
        let ghost tr3 = self.tracks@;
        let ghost ud2 = updated_detections@;
        Self::spawn_new_trackers(
            &mut self.tracks,
            &mut updated_detections,
            &high_conf_detections,
            &unmatched_det_indices,
            self.track_activation_threshold,
        );
        proof {
            assert forall|k: int|
                0 <= k < updated_detections@.len() implies (((
            #[trigger] updated_detections@[k]).tracker_id == -1 || (0
                <= updated_detections@[k].tracker_id < self.next_tracker_id)) && box_from_detections(updated_detections@[k].box_coords, detections@)) by {
                if k < ud2.len() {
                    assert(updated_detections@[k] == ud2[k]);
                } else {
                    let hm = choose|hm: int|
                        0 <= hm < high_conf_detections@.len() && updated_detections@[k].box_coords
                            == high_conf_detections@[hm].box_coords;
                    let m = choose|m: int|
                        0 <= m < detections@.len() && detections@[m]
                            == high_conf_detections@[hm];
                    assert(updated_detections@[k].box_coords == detections@[m].box_coords);
                }
            }
            assert(Self::tracks_wf(
                self.tracks@,
                self.next_tracker_id as int,
                self.minimum_consecutive_frames as int,
            ));
        }

        // Prune: keep exactly the tracks that satisfy the survival predicate.
        let pre_prune_len = self.tracks.len();
        let ghost tr4 = self.tracks@;
        proof {
            assert(tr4.len() == pre_prune_len);
        }
        let alive = get_alive_trackers(
            &self.tracks,
            self.minimum_consecutive_frames,
            self.maximum_frames_without_update,
        );
        let mut new_tracks: Vec<KalmanBoxTracker> = Vec::new();
        let mut ak: usize = 0;
        while ak < alive.len()
            invariant
                ak <= alive@.len(),
                new_tracks@.len() == ak,
                forall|k: int|
                    0 <= k < ak ==> #[trigger] new_tracks@[k] == self.tracks@[alive@[k] as int],
            decreases alive@.len() - ak,
        {
            new_tracks.push(self.tracks[alive[ak]]);
            ak += 1;
        }
        proof {
            assert forall|k: int| 0 <= k < new_tracks@.len() implies ((
            #[trigger] new_tracks@[k]).wf() && (new_tracks@[k].tracker_id >= 0 ==> (
            new_tracks@[k].tracker_id < self.next_tracker_id
                && new_tracks@[k].number_of_successful_updates
                >= self.minimum_consecutive_frames)) && spec_alive(
                new_tracks@[k],
                self.minimum_consecutive_frames as int,
                self.maximum_frames_without_update as int,
            )) by {
                assert(new_tracks@[k] == self.tracks@[alive@[k] as int]);
            }
            assert forall|k1: int, k2: int|
                0 <= k1 < k2 < new_tracks@.len() && (#[trigger] new_tracks@[k1]).tracker_id >= 0
                    && (#[trigger] new_tracks@[k2]).tracker_id >= 0 implies
                new_tracks@[k1].tracker_id != new_tracks@[k2].tracker_id by {
                assert((alive@[k1] as int) < (alive@[k2] as int));
            }
            assert forall|i: int|
                0 <= i < tr0.len() && (#[trigger] tr0[i]).tracker_id >= 0
                    && tr0[i].time_since_update + 1 < self.maximum_frames_without_update implies
                exists|k: int|
                    0 <= k < new_tracks@.len() && (#[trigger] new_tracks@[k]).tracker_id
                        == tr0[i].tracker_id by {
                assert(tr1[i] == spec_predicted(tr0[i]));
                assert(tr0[i].time_since_update < i64::MAX);
                if exists|k2: int|
                    0 <= k2 < matched_indices@.len() && ((#[trigger] matched_indices@[k2]).0
                        as int) == i {
                    let k2 = choose|k2: int|
                        0 <= k2 < matched_indices@.len() && ((#[trigger] matched_indices@[k2]).0
                            as int) == i;
                    assert(tr2[i].time_since_update == 0);
                } else {
                    assert(tr2[i] == tr1[i]);
                }
                if exists|k3: int|
                    0 <= k3 < matched_indices_adjusted@.len() && ((
                    #[trigger] matched_indices_adjusted@[k3]).0 as int) == i {
                    let k3 = choose|k3: int|
                        0 <= k3 < matched_indices_adjusted@.len() && ((
                        #[trigger] matched_indices_adjusted@[k3]).0 as int) == i;
                    assert(tr3[i].time_since_update == 0);
                } else {
                    assert(tr3[i] == tr2[i]);
                }
                assert(self.tracks@[i] == tr3[i]);
                assert(self.tracks@[i].tracker_id == tr0[i].tracker_id);
                assert(self.tracks@[i].number_of_successful_updates
                    >= self.minimum_consecutive_frames);
                assert(spec_alive(
                    self.tracks@[i],
                    self.minimum_consecutive_frames as int,
                    self.maximum_frames_without_update as int,
                ));
                assert(alive@.contains(i as usize));
                let k = choose|k: int| 0 <= k < alive@.len() && alive@[k] == i as usize;
                assert(new_tracks@[k] == self.tracks@[i]);
            }
            assert forall|k: int| 0 <= k < new_tracks@.len() implies ((exists|i: int|
                0 <= i < tr0.len() && evolved_from(
                    tr0[i],
                    #[trigger] new_tracks@[k],
                    self.minimum_consecutive_frames as int,
                )) || (new_tracks@[k].tracker_id == -1
                && new_tracks@[k].number_of_successful_updates == 1)) by {
                let j = alive@[k] as int;
                if j < tr3.len() {
                    assert(evolved_from(
                        tr0[j],
                        self.tracks@[j],
                        self.minimum_consecutive_frames as int,
                    ));
                } else {
                    assert(self.tracks@[j].tracker_id == -1);
                }
            }
        }
        self.tracks = new_tracks;
        proof {
            assert(high_conf_detections@.len() + low_conf_detections@.len()
                == detections@.len());
            assert(ud1.len() == matched_indices@.len());
            assert(matched_indices_adjusted@.len() == matched2@.len());
            assert(ud2.len() == matched_indices@.len() + matched2@.len()
                + unmatched_det_indices2@.len());
            assert(updated_detections@.len() <= ud2.len() + unmatched_det_indices@.len());
            assert(updated_detections@.len() >= ud2.len());
            assert(updated_detections@.len() <= detections@.len());
            assert(updated_detections@.len() >= low_conf_detections@.len());
            if tr0.len() > 0 && spec_high_conf(
                detections@,
                self.high_conf_det_threshold as int,
            ).len() > 0 && (forall|i: int, j: int|
                0 <= i < tr0.len() && 0 <= j < spec_high_conf(
                    detections@,
                    self.high_conf_det_threshold as int,
                ).len() ==> spec_iou(
                    spec_predicted(#[trigger] tr0[i]).pos,
                    (#[trigger] spec_high_conf(
                        detections@,
                        self.high_conf_det_threshold as int,
                    )[j]).box_coords,
                ) >= self.minimum_iou_threshold) {
                assert(high_conf_detections@ == spec_high_conf(
                    detections@,
                    self.high_conf_det_threshold as int,
                ));
                assert(matched_indices@.len() >= 1);
                assert(updated_detections@.len() >= low_conf_detections@.len() + 1);
            }
            if tr0.len() == 0 {
                assert(matched_indices@.len() == 0);
                assert(matched_indices_adjusted@.len() == 0);
                assert(self.next_tracker_id == old(self).next_tracker_id);
                assert(tr3.len() == 0);
                lemma_cold_pre_prune(
                    unmatched_det_indices@,
                    high_conf_detections@,
                    detections@,
                    self.high_conf_det_threshold as int,
                    self.track_activation_threshold as int,
                );
                assert(tr3 =~= Seq::<KalmanBoxTracker>::empty());
                assert(tr4 == spec_cold_spawned(
                    detections@,
                    self.high_conf_det_threshold as int,
                    self.track_activation_threshold as int,
                ));
                lemma_cold_final_tracks(
                    tr4,
                    alive@,
                    self.tracks@,
                    self.minimum_consecutive_frames as int,
                    self.maximum_frames_without_update as int,
                );
                if forall|m: int|
                    0 <= m < detections@.len() ==> (#[trigger] detections@[m]).score
                        >= self.track_activation_threshold {
                    assert forall|k: int|
                        0 <= k < unmatched_det_indices@.len() implies (((
                    #[trigger] unmatched_det_indices@[k]) as int) < high_conf_detections@.len()
                        && high_conf_detections@[unmatched_det_indices@[k] as int].score
                        >= self.track_activation_threshold) by {
                        let idx = unmatched_det_indices@[k] as int;
                        let m = choose|m: int|
                            0 <= m < detections@.len() && detections@[m]
                                == high_conf_detections@[idx];
                    }
                    lemma_spawned_rows_full(
                        unmatched_det_indices@,
                        high_conf_detections@,
                        self.track_activation_threshold as int,
                    );
                    assert(unmatched_det_indices@.len() == high_conf_detections@.len());
                    assert(updated_detections@.len() == ud2.len()
                        + high_conf_detections@.len());
                    assert(updated_detections@.len() == detections@.len());
                }
            }
        }
        updated_detections
    }
}

} // verus!
