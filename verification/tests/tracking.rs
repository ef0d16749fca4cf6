use bytetrack::SCALE;
use bytetrack::detection::BBox;
use bytetrack::detection::Detection;
use bytetrack::iou::compute_iou;
use bytetrack::iou::compute_iou_batch;
use bytetrack::kalman::KalmanBoxTracker;
use bytetrack::tracker::ByteTrackTracker;
use bytetrack::utils::get_alive_trackers;
use bytetrack::utils::get_associated_indices;
use bytetrack::utils::linear_sum_assignment;

fn bbox(x1: i64, y1: i64, x2: i64, y2: i64) -> BBox {
    BBox { x1, y1, x2, y2 }
}

fn det(b: BBox, score: i64) -> Detection {
    Detection {
        box_coords: b,
        class_id: 0,
        score,
    }
}

const MICRO: i64 = 1_000_000;

fn micro_box(x1: f64, y1: f64, x2: f64, y2: f64) -> BBox {
    bbox(
        (x1 * MICRO as f64).round() as i64,
        (y1 * MICRO as f64).round() as i64,
        (x2 * MICRO as f64).round() as i64,
        (y2 * MICRO as f64).round() as i64,
    )
}

#[test]
fn iou_identical_box_is_one() {
    let a = bbox(0, 0, 10, 10);
    assert_eq!(compute_iou(&a, &a), SCALE);
}

#[test]
fn iou_is_symmetric() {
    let a = bbox(0, 0, 10, 10);
    let b = bbox(1, 1, 11, 11);
    let ab = compute_iou(&a, &b);
    let ba = compute_iou(&b, &a);
    assert_eq!(ab, ba);
    // intersection 9x9 = 81, union 100 + 100 - 81 = 119
    assert_eq!(ab, 81 * SCALE / 119);
}

#[test]
fn iou_disjoint_is_zero() {
    let a = bbox(0, 0, 10, 10);
    let b = bbox(20, 20, 30, 30);
    assert_eq!(compute_iou(&a, &b), 0);
    let c = bbox(10, 0, 20, 10); // touching edge: zero-width intersection
    assert_eq!(compute_iou(&a, &c), 0);
}

#[test]
fn iou_degenerate_box_is_zero() {
    let a = bbox(5, 5, 5, 5);
    assert_eq!(compute_iou(&a, &a), 0);
    let b = bbox(0, 0, 10, 10);
    assert_eq!(compute_iou(&a, &b), 0);
}

#[test]
fn iou_stays_in_unit_interval() {
    let boxes = [
        bbox(0, 0, 10, 10),
        bbox(-5, -5, 5, 5),
        bbox(2, 3, 4, 9),
        bbox(0, 0, 1, 1000),
    ];
    for a in boxes.iter() {
        for b in boxes.iter() {
            let v = compute_iou(a, b);
            assert!(0 <= v && v <= SCALE);
        }
    }
}

#[test]
fn iou_batch_layout_and_values() {
    let preds = vec![bbox(0, 0, 10, 10), bbox(20, 20, 30, 30)];
    let dets = vec![bbox(0, 0, 10, 10), bbox(1, 1, 11, 11), bbox(100, 100, 110, 110)];
    let m = compute_iou_batch(&preds, &dets);
    assert_eq!(m.len(), 6);
    assert_eq!(m[0], SCALE);
    assert_eq!(m[1], 81 * SCALE / 119);
    assert_eq!(m[2], 0);
    assert_eq!(m[3], 0);
    assert_eq!(m[4], 0);
    assert_eq!(m[5], 0);
}

#[test]
fn iou_batch_empty_inputs() {
    let empty: Vec<BBox> = Vec::new();
    let some = vec![bbox(0, 0, 1, 1)];
    assert_eq!(compute_iou_batch(&empty, &some).len(), 0);
    assert_eq!(compute_iou_batch(&some, &empty).len(), 0);
}

/// Minimum total cost over all maximum-cardinality matchings, by brute
/// force over injective row-to-column maps.
fn brute_force_min(cost: &Vec<i64>, n_rows: usize, n_cols: usize) -> i64 {
    fn go(
        cost: &Vec<i64>,
        n_cols: usize,
        rows: &Vec<usize>,
        cols: &Vec<usize>,
        depth: usize,
        used: &mut Vec<bool>,
        transposed: bool,
    ) -> i64 {
        if depth == rows.len() {
            return 0;
        }
        let mut best = i64::MAX;
        for (ci, &c) in cols.iter().enumerate() {
            if used[ci] {
                continue;
            }
            used[ci] = true;
            let r = rows[depth];
            let edge = if transposed {
                cost[c * n_cols + r]
            } else {
                cost[r * n_cols + c]
            };
            let rest = go(cost, n_cols, rows, cols, depth + 1, used, transposed);
            used[ci] = false;
            if rest != i64::MAX && edge + rest < best {
                best = edge + rest;
            }
        }
        best
    }
    // match every index of the smaller side
    if n_rows <= n_cols {
        let rows: Vec<usize> = (0..n_rows).collect();
        let cols: Vec<usize> = (0..n_cols).collect();
        let mut used = vec![false; n_cols];
        go(cost, n_cols, &rows, &cols, 0, &mut used, false)
    } else {
        let rows: Vec<usize> = (0..n_cols).collect();
        let cols: Vec<usize> = (0..n_rows).collect();
        let mut used = vec![false; n_rows];
        go(cost, n_cols, &rows, &cols, 0, &mut used, true)
    }
}

fn check_against_brute_force(cost: Vec<i64>, n_rows: usize, n_cols: usize) {
    let assignment = linear_sum_assignment(&cost, n_rows, n_cols);
    assert_eq!(assignment.len(), n_rows);
    // injective and in range
    let mut seen = vec![false; n_cols];
    let mut total: i64 = 0;
    let mut count: usize = 0;
    for (r, a) in assignment.iter().enumerate() {
        if let Some(c) = a {
            assert!(*c < n_cols);
            assert!(!seen[*c], "column assigned twice");
            seen[*c] = true;
            total += cost[r * n_cols + *c];
            count += 1;
        }
    }
    // maximum cardinality on a dense finite matrix
    assert_eq!(count, n_rows.min(n_cols));
    assert_eq!(total, brute_force_min(&cost, n_rows, n_cols));
}

#[test]
fn assignment_matches_brute_force_square() {
    check_against_brute_force(
        vec![4, 1, 3, 2, 0, 5, 3, 2, 2], // 3x3
        3,
        3,
    );
    check_against_brute_force(
        vec![7, 5, 11, 5, 8, 3, 2, 10, 9, 6, 8, 2, 4, 1, 9, 7], // 4x4
        4,
        4,
    );
}

#[test]
fn assignment_matches_brute_force_rectangular() {
    check_against_brute_force(
        vec![9, 2, 7, 8, 3, 6, 4, 3, 7, 5, 1, 8, 2, 6, 4], // 3x5
        3,
        5,
    );
    check_against_brute_force(
        vec![9, 2, 7, 8, 3, 6, 4, 3, 7, 5, 1, 8, 2, 6, 4], // 5x3
        5,
        3,
    );
}

#[test]
fn assignment_handles_ties_and_negatives() {
    check_against_brute_force(vec![0, 0, 0, 0], 2, 2);
    check_against_brute_force(vec![-5, -5, -5, -5, -1, -9], 2, 3);
    check_against_brute_force(vec![1, 1, 1, 1, 1, 1, 1, 1, 1], 3, 3);
}

#[test]
fn assignment_single_row_picks_cheapest_column() {
    let r = linear_sum_assignment(&vec![7, 3, 9, 5], 1, 4);
    assert_eq!(r, vec![Some(1)]);
}

#[test]
fn assignment_single_column_picks_cheapest_row() {
    let r = linear_sum_assignment(&vec![7, 3, 9, 5], 4, 1);
    assert_eq!(r, vec![None, Some(0), None, None]);
}

#[test]
fn assignment_empty_dimensions() {
    let r = linear_sum_assignment(&Vec::new(), 0, 4);
    assert_eq!(r.len(), 0);
    let r = linear_sum_assignment(&Vec::new(), 3, 0);
    assert_eq!(r.len(), 3);
    assert!(r.iter().all(|a| a.is_none()));
}

#[test]
fn association_partitions_rows_and_columns() {
    // 2 tracks x 3 detections of similarities; threshold 300_000
    let sim = vec![900_000, 100_000, 0, 0, 250_000, 800_000];
    let (matched, um_rows, um_cols) = get_associated_indices(&sim, 2, 3, 300_000);
    for &(r, c) in matched.iter() {
        assert!(sim[r * 3 + c] >= 300_000);
    }
    let mut row_seen = vec![0usize; 2];
    let mut col_seen = vec![0usize; 3];
    for &(r, c) in matched.iter() {
        row_seen[r] += 1;
        col_seen[c] += 1;
    }
    for &r in um_rows.iter() {
        row_seen[r] += 1;
    }
    for &c in um_cols.iter() {
        col_seen[c] += 1;
    }
    assert!(row_seen.iter().all(|&n| n == 1));
    assert!(col_seen.iter().all(|&n| n == 1));
    assert_eq!(matched, vec![(0, 0), (1, 2)]);
}

#[test]
fn association_maximizes_total_similarity() {
    // a greedy row-by-row matcher would take (0,0) and be left with 0.1;
    // the optimal assignment crosses over
    let sim = vec![900_000, 800_000, 900_000, 100_000];
    let (matched, um_rows, um_cols) = get_associated_indices(&sim, 2, 2, 100_000);
    assert_eq!(matched, vec![(0, 1), (1, 0)]);
    assert!(um_rows.is_empty());
    assert!(um_cols.is_empty());
}

#[test]
fn association_below_threshold_leaves_both_unmatched() {
    let sim = vec![200_000];
    let (matched, um_rows, um_cols) = get_associated_indices(&sim, 1, 1, 300_000);
    assert!(matched.is_empty());
    assert_eq!(um_rows, vec![0]);
    assert_eq!(um_cols, vec![0]);
}

#[test]
fn kalman_new_counters_and_state() {
    let b = bbox(0, 0, 10, 10);
    let t = KalmanBoxTracker::new(&b);
    assert_eq!(t.tracker_id, -1);
    assert_eq!(t.time_since_update, 0);
    assert_eq!(t.number_of_successful_updates, 1);
    assert_eq!(t.get_state_bbox(), b);
}

#[test]
fn kalman_predict_with_zero_velocity_keeps_box() {
    let b = micro_box(0.0, 0.0, 10.0, 10.0);
    let mut t = KalmanBoxTracker::new(&b);
    t.predict();
    assert_eq!(t.get_state_bbox(), b);
    assert_eq!(t.time_since_update, 1);
    t.predict();
    assert_eq!(t.get_state_bbox(), b);
    assert_eq!(t.time_since_update, 2);
}

#[test]
fn kalman_update_resets_miss_counter_and_counts_success() {
    let b = micro_box(0.0, 0.0, 10.0, 10.0);
    let mut t = KalmanBoxTracker::new(&b);
    t.predict();
    t.update(&b);
    assert_eq!(t.time_since_update, 0);
    assert_eq!(t.number_of_successful_updates, 2);
    // measuring the predicted position exactly leaves the position alone
    assert_eq!(t.get_state_bbox(), b);
}

#[test]
fn kalman_update_moves_state_toward_measurement() {
    let a = micro_box(0.0, 0.0, 10.0, 10.0);
    let z = micro_box(2.0, 2.0, 12.0, 12.0);
    let mut t = KalmanBoxTracker::new(&a);
    t.predict();
    t.update(&z);
    let s = t.get_state_bbox();
    assert!(s.x1 > a.x1 && s.x1 <= z.x1);
    assert!(s.y2 > a.y2 && s.y2 <= z.y2);
}

#[test]
fn alive_trackers_filters_exactly() {
    let b = bbox(0, 0, 10, 10);
    let mut mature = KalmanBoxTracker::new(&b);
    mature.number_of_successful_updates = 5;
    mature.time_since_update = 3;
    let mut immature_missed = KalmanBoxTracker::new(&b);
    immature_missed.time_since_update = 1;
    let mut fresh = KalmanBoxTracker::new(&b);
    fresh.time_since_update = 0;
    let mut expired = KalmanBoxTracker::new(&b);
    expired.number_of_successful_updates = 5;
    expired.time_since_update = 30;
    let trackers = vec![mature, immature_missed, fresh, expired];
    let alive = get_alive_trackers(&trackers, 2, 30);
    assert_eq!(alive, vec![0, 2]);
}

fn reference_tracker() -> ByteTrackTracker {
    ByteTrackTracker::new(
        30,                // lost_track_buffer
        30 * MICRO,        // frame_rate 30.0
        250_000,           // track_activation_threshold 0.25
        2,                 // minimum_consecutive_frames
        100_000,           // minimum_iou_threshold 0.1
        600_000,           // high_conf_det_threshold 0.6
    )
}

#[test]
fn tracker_miss_budget_from_frame_rate() {
    let t = reference_tracker();
    assert_eq!(t.maximum_frames_without_update, 30);
    let t2 = ByteTrackTracker::new(30, 15 * MICRO, 250_000, 2, 100_000, 600_000);
    assert_eq!(t2.maximum_frames_without_update, 15);
}

#[test]
fn end_to_end_two_frames_assign_first_identity() {
    let mut tracker = reference_tracker();

    // Frame 1: one strong detection, no live tracks: spawn, no identity yet.
    let b1 = micro_box(0.0, 0.0, 10.0, 10.0);
    let out1 = tracker.update(&vec![det(b1, 900_000)]);
    assert_eq!(out1.len(), 1);
    assert_eq!(out1[0].box_coords, b1);
    assert_eq!(out1[0].tracker_id, -1);

    // Frame 2: overlapping detection: matched, second success activates id 0.
    let b2 = micro_box(1.0, 1.0, 11.0, 11.0);
    let out2 = tracker.update(&vec![det(b2, 900_000)]);
    assert_eq!(out2.len(), 1);
    assert_eq!(out2[0].box_coords, b2);
    assert_eq!(out2[0].tracker_id, 0);
}

#[test]
fn empty_frame_with_no_tracks_is_a_no_op() {
    let mut tracker = reference_tracker();
    let out = tracker.update(&Vec::new());
    assert!(out.is_empty());
}

#[test]
fn immature_track_is_dropped_after_one_missed_frame() {
    let mut tracker = reference_tracker();
    let b = micro_box(0.0, 0.0, 10.0, 10.0);
    let out1 = tracker.update(&vec![det(b, 900_000)]);
    assert_eq!(out1[0].tracker_id, -1);
    // one empty frame: the immature track gets no grace period
    let out2 = tracker.update(&Vec::new());
    assert!(out2.is_empty());
    // the same box again spawns a brand-new track instead of matching
    let out3 = tracker.update(&vec![det(b, 900_000)]);
    assert_eq!(out3.len(), 1);
    assert_eq!(out3[0].tracker_id, -1);
}

#[test]
fn mature_track_survives_misses_up_to_the_budget() {
    let mut tracker = reference_tracker();
    let b = micro_box(0.0, 0.0, 10.0, 10.0);
    tracker.update(&vec![det(b, 900_000)]);
    let out = tracker.update(&vec![det(b, 900_000)]);
    assert_eq!(out[0].tracker_id, 0);
    // 29 misses: still alive (miss counter stays below 30)
    for _ in 0..29 {
        let out = tracker.update(&Vec::new());
        assert!(out.is_empty());
    }
    // the old identity is still there to be matched
    let out = tracker.update(&vec![det(b, 900_000)]);
    assert_eq!(out.len(), 1);
    assert_eq!(out[0].tracker_id, 0);
}

#[test]
fn mature_track_is_removed_exactly_at_the_miss_budget() {
    let mut tracker = reference_tracker();
    let b = micro_box(0.0, 0.0, 10.0, 10.0);
    tracker.update(&vec![det(b, 900_000)]);
    tracker.update(&vec![det(b, 900_000)]);
    // 30 misses: removed at the budget
    for _ in 0..30 {
        tracker.update(&Vec::new());
    }
    // the same box now spawns a new track, so no identity is attached
    let out = tracker.update(&vec![det(b, 900_000)]);
    assert_eq!(out.len(), 1);
    assert_eq!(out[0].tracker_id, -1);
}

#[test]
fn low_confidence_detection_rescues_a_track() {
    let mut tracker = reference_tracker();
    let b = micro_box(0.0, 0.0, 10.0, 10.0);
    tracker.update(&vec![det(b, 900_000)]);
    let out = tracker.update(&vec![det(b, 900_000)]);
    assert_eq!(out[0].tracker_id, 0);
    // a weak detection (0.5 < 0.6) still matches in the second round
    let out = tracker.update(&vec![det(b, 500_000)]);
    assert_eq!(out.len(), 1);
    assert_eq!(out[0].tracker_id, 0);
}

#[test]
fn leftover_low_confidence_detection_is_emitted_without_identity() {
    let mut tracker = reference_tracker();
    let far = micro_box(100.0, 100.0, 110.0, 110.0);
    // a weak detection with no track to rescue is visible but spawns nothing
    let out = tracker.update(&vec![det(far, 500_000)]);
    assert_eq!(out.len(), 1);
    assert_eq!(out[0].tracker_id, -1);
    // it spawned no track: an empty frame leaves no survivors to report
    let out2 = tracker.update(&Vec::new());
    assert!(out2.is_empty());
}

#[test]
fn strong_detection_below_activation_threshold_is_dropped() {
    // activation threshold above the high-confidence split
    let mut tracker = ByteTrackTracker::new(30, 30 * MICRO, 700_000, 2, 100_000, 600_000);
    let b = micro_box(0.0, 0.0, 10.0, 10.0);
    // 0.65 is high-confidence but under the 0.7 activation bar: no output at all
    let out = tracker.update(&vec![det(b, 650_000)]);
    assert!(out.is_empty());
}

#[test]
fn steadily_moving_object_keeps_its_identity() {
    let mut tracker = reference_tracker();
    for t in 0..15 {
        let x = t as f64;
        let b = micro_box(x, 0.0, x + 10.0, 10.0);
        let out = tracker.update(&vec![det(b, 900_000)]);
        assert_eq!(out.len(), 1);
        assert_eq!(out[0].box_coords, b);
        if t == 0 {
            assert_eq!(out[0].tracker_id, -1);
        } else {
            // the constant-velocity filter keeps following the object
            assert_eq!(out[0].tracker_id, 0);
        }
    }
    // the filter has learned the motion: its state sits near the last box
    assert_eq!(tracker.tracks.len(), 1);
    let s = tracker.tracks[0].get_state_bbox();
    let last_x1 = 14 * MICRO;
    assert!((s.x1 - last_x1).abs() < 2 * MICRO);
}

#[test]
fn two_objects_get_distinct_identities() {
    let mut tracker = reference_tracker();
    let a = micro_box(0.0, 0.0, 10.0, 10.0);
    let b = micro_box(50.0, 50.0, 60.0, 60.0);
    tracker.update(&vec![det(a, 900_000), det(b, 900_000)]);
    let out = tracker.update(&vec![det(a, 900_000), det(b, 900_000)]);
    assert_eq!(out.len(), 2);
    let mut ids: Vec<i64> = out.iter().map(|o| o.tracker_id).collect();
    ids.sort();
    assert_eq!(ids, vec![0, 1]);
}
