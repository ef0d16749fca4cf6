//! Motion model: one constant-velocity Kalman filter per tracked object.
//!
//! The classic formulation keeps an 8-dimensional state (four box
//! coordinates and their velocities) with an 8x8 covariance. Under the
//! fixed matrices used here — transition `F = I` plus a coupling of each
//! coordinate to its own velocity, measurement `H` selecting the four
//! coordinates, diagonal noises `Q = 0.01*I` and `R = 0.1*I`, initial
//! covariance `I` — the filter decomposes into four independent
//! (position, velocity) pairs, and because every prediction and every
//! correction touches all four pairs at the same time, the four 2x2
//! covariance blocks stay identical forever. The tracker therefore stores
//! the four positions, the four velocities, and a single 2x2 covariance
//! block `(p11, p12, p22)`.
//!
//! Arithmetic is fixed-point: division truncates toward zero, positions and
//! velocities saturate at `COORD_LIMIT`, covariance entries at
//! `[0, COV_LIMIT]`. The innovation variance `s = p11 + R` is provably
//! positive (covariance entries are kept non-negative and the measurement
//! noise is a positive constant), so a correction can never hit a singular
//! innovation and always succeeds.

use vstd::prelude::*;
use vstd::arithmetic::div_mod::lemma_div_nonincreasing;
use vstd::arithmetic::div_mod::lemma_div_pos_is_pos;
use crate::COORD_LIMIT;
use crate::lemma_abs_mul_bound;
use crate::detection::BBox;

verus! {

/// Initial variance of every state component (the fixed-point `1.0`).
pub const COV_INIT: i64 = 1_000_000;

/// Process noise added to each diagonal entry on prediction (`0.01`).
pub const Q_NOISE: i64 = 10_000;

/// Measurement noise of each observed coordinate (`0.1`).
pub const R_NOISE: i64 = 100_000;

/// Covariance entries saturate here; keeps products inside `i128`.
pub const COV_LIMIT: i64 = 1_000_000_000_000_000;

/// Per-coordinate velocity of the tracked box.
#[derive(Clone, Copy, Debug, PartialEq, Eq, Structural)]
pub struct Velocity {
    pub x1: i64,
    pub y1: i64,
    pub x2: i64,
    pub y2: i64,
}

/// Truncating division (round toward zero), for a positive divisor.
pub open spec fn tdiv(n: int, d: int) -> int {
    if n >= 0 {
        n / d
    } else {
        -((-n) / d)
    }
}

/// Coordinates saturate at `COORD_LIMIT` in magnitude.
pub open spec fn clamp_coord(x: int) -> int {
    if x > COORD_LIMIT {
        COORD_LIMIT as int
    } else if x < -COORD_LIMIT {
        -COORD_LIMIT
    } else {
        x
    }
}

/// Covariance entries saturate into `[0, COV_LIMIT]`.
pub open spec fn clamp_cov(x: int) -> int {
    if x > COV_LIMIT {
        COV_LIMIT as int
    } else if x < 0 {
        0
    } else {
        x
    }
}

/// A counter that sticks at `i64::MAX` instead of overflowing.
pub open spec fn sat_inc(x: int) -> int {
    if x < i64::MAX {
        x + 1
    } else {
        x
    }
}

/// Truncating division never grows the magnitude of its argument.
pub proof fn lemma_tdiv_in_bound(n: int, d: int, b: int)
    requires
        d >= 1,
        0 <= b,
        -b <= n <= b,
    ensures
        -b <= tdiv(n, d) <= b,
{
    if n >= 0 {
        lemma_div_pos_is_pos(n, d);
        lemma_div_nonincreasing(n, d);
    } else {
        lemma_div_pos_is_pos(-n, d);
        lemma_div_nonincreasing(-n, d);
    }
}

fn tdiv_exec(n: i128, d: i128) -> (r: i128)
    requires
        d > 0,
        i128::MIN < n,
    ensures
        r == tdiv(n as int, d as int),
{
    if n >= 0 {
        n / d
    } else {
        -((-n) / d)
    }
}

fn clamp_coord_exec(x: i128) -> (r: i64)
    ensures
        r == clamp_coord(x as int),
{
    if x > COORD_LIMIT as i128 {
        COORD_LIMIT
    } else if x < -(COORD_LIMIT as i128) {
        -COORD_LIMIT
    } else {
        x as i64
    }
}

fn clamp_cov_exec(x: i128) -> (r: i64)
    ensures
        r == clamp_cov(x as int),
{
    if x > COV_LIMIT as i128 {
        COV_LIMIT
    } else if x < 0 {
        0
    } else {
        x as i64
    }
}


/// The state a fresh track starts from: position at the spawning box, zero
/// velocity, unit covariance, no identity, one success counted.
pub open spec fn spec_new_track(b: BBox) -> KalmanBoxTracker {
    KalmanBoxTracker {
        tracker_id: -1i64,
        time_since_update: 0,
        number_of_successful_updates: 1,
        pos: b,
        vel: Velocity { x1: 0, y1: 0, x2: 0, y2: 0 },
        p11: COV_INIT,
        p12: 0,
        p22: COV_INIT,
    }
}

/// One prediction step, as a function of the whole track state: positions
/// accumulate their velocities, the covariance follows `F*P*F^T + Q`, the
/// miss counter advances; identity and success counter are untouched.
pub open spec fn spec_predicted(t: KalmanBoxTracker) -> KalmanBoxTracker {
    KalmanBoxTracker {
        tracker_id: t.tracker_id,
        time_since_update: sat_inc(t.time_since_update as int) as i64,
        number_of_successful_updates: t.number_of_successful_updates,
        pos: BBox {
            x1: clamp_coord(t.pos.x1 + t.vel.x1) as i64,
            y1: clamp_coord(t.pos.y1 + t.vel.y1) as i64,
            x2: clamp_coord(t.pos.x2 + t.vel.x2) as i64,
            y2: clamp_coord(t.pos.y2 + t.vel.y2) as i64,
        },
        vel: t.vel,
        p11: clamp_cov(t.p11 + 2 * t.p12 + t.p22 + Q_NOISE) as i64,
        p12: clamp_cov(t.p12 + t.p22) as i64,
        p22: clamp_cov(t.p22 + Q_NOISE) as i64,
    }
}

/// One correction step against the measured box `z`, as a function of the
/// whole track state: innovation variance `s = p11 + R`, gains `p11/s` and
/// `p12/s`, state pulled toward the measurement, covariance contracted by
/// `(I - K*H)`, miss counter reset, success counter advanced; the identity
/// is untouched (activation is the orchestrator's separate step).
pub open spec fn spec_corrected(t: KalmanBoxTracker, z: BBox) -> KalmanBoxTracker {
    let s = t.p11 + R_NOISE;
    KalmanBoxTracker {
        tracker_id: t.tracker_id,
        time_since_update: 0,
        number_of_successful_updates: sat_inc(t.number_of_successful_updates as int) as i64,
        pos: BBox {
            x1: clamp_coord(t.pos.x1 + tdiv(t.p11 * (z.x1 - t.pos.x1), s)) as i64,
            y1: clamp_coord(t.pos.y1 + tdiv(t.p11 * (z.y1 - t.pos.y1), s)) as i64,
            x2: clamp_coord(t.pos.x2 + tdiv(t.p11 * (z.x2 - t.pos.x2), s)) as i64,
            y2: clamp_coord(t.pos.y2 + tdiv(t.p11 * (z.y2 - t.pos.y2), s)) as i64,
        },
        vel: Velocity {
            x1: clamp_coord(t.vel.x1 + tdiv(t.p12 * (z.x1 - t.pos.x1), s)) as i64,
            y1: clamp_coord(t.vel.y1 + tdiv(t.p12 * (z.y1 - t.pos.y1), s)) as i64,
            x2: clamp_coord(t.vel.x2 + tdiv(t.p12 * (z.x2 - t.pos.x2), s)) as i64,
            y2: clamp_coord(t.vel.y2 + tdiv(t.p12 * (z.y2 - t.pos.y2), s)) as i64,
        },
        p11: clamp_cov(t.p11 - tdiv(t.p11 * t.p11, s)) as i64,
        p12: clamp_cov(t.p12 - tdiv(t.p11 * t.p12, s)) as i64,
        p22: clamp_cov(t.p22 - tdiv(t.p12 * t.p12, s)) as i64,
    }
}

/// The same track with an identity written in.
pub open spec fn spec_activated(t: KalmanBoxTracker, id: int) -> KalmanBoxTracker {
    KalmanBoxTracker { tracker_id: id as i64, ..t }
}

/// The Kalman-filtered state of one track, together with its lifecycle
/// counters: the identity (or `-1` before activation), the frames since the
/// last successful correction, and the number of successful corrections.
#[derive(Clone, Copy, Debug)]
pub struct KalmanBoxTracker {
    pub tracker_id: i64,
    pub time_since_update: i64,
    pub number_of_successful_updates: i64,
    pub pos: BBox,
    pub vel: Velocity,
    pub p11: i64,
    pub p12: i64,
    pub p22: i64,
}

impl KalmanBoxTracker {
    pub open spec fn wf(self) -> bool {
        &&& self.tracker_id >= -1
        &&& self.time_since_update >= 0
        &&& self.number_of_successful_updates >= 1
        &&& self.pos.wf()
        &&& -COORD_LIMIT <= self.vel.x1 <= COORD_LIMIT
        &&& -COORD_LIMIT <= self.vel.y1 <= COORD_LIMIT
        &&& -COORD_LIMIT <= self.vel.x2 <= COORD_LIMIT
        &&& -COORD_LIMIT <= self.vel.y2 <= COORD_LIMIT
        &&& 0 <= self.p11 <= COV_LIMIT
        &&& 0 <= self.p12 <= COV_LIMIT
        &&& 0 <= self.p22 <= COV_LIMIT
    }

    /// A fresh track: state at the spawning box with zero velocity, unit
    /// covariance, no identity yet, and the spawning detection already
    /// counted as the first successful observation.
    pub fn new(bbox: &BBox) -> (t: Self)
        requires
            bbox.wf(),
        ensures
            t == spec_new_track(*bbox),
            t.wf(),
    {
        KalmanBoxTracker {
            tracker_id: -1,
            time_since_update: 0,
            number_of_successful_updates: 1,
            pos: *bbox,
            vel: Velocity { x1: 0, y1: 0, x2: 0, y2: 0 },
            p11: COV_INIT,
            p12: 0,
            p22: COV_INIT,
        }
    }

    /// Linear propagation: each coordinate accumulates its velocity, the
    /// covariance follows `F*P*F^T + Q`, and the miss counter advances.
    pub fn predict(&mut self)
        requires
            old(self).wf(),
        ensures
            *final(self) == spec_predicted(*old(self)),
            final(self).wf(),
    {
        self.pos.x1 = clamp_coord_exec(self.pos.x1 as i128 + self.vel.x1 as i128);
        self.pos.y1 = clamp_coord_exec(self.pos.y1 as i128 + self.vel.y1 as i128);
        self.pos.x2 = clamp_coord_exec(self.pos.x2 as i128 + self.vel.x2 as i128);
        self.pos.y2 = clamp_coord_exec(self.pos.y2 as i128 + self.vel.y2 as i128);
        let p11: i128 = self.p11 as i128;
        let p12: i128 = self.p12 as i128;
        let p22: i128 = self.p22 as i128;
        self.p11 = clamp_cov_exec(p11 + 2 * p12 + p22 + Q_NOISE as i128);
        self.p12 = clamp_cov_exec(p12 + p22);
        self.p22 = clamp_cov_exec(p22 + Q_NOISE as i128);
        if self.time_since_update < i64::MAX {
            self.time_since_update = self.time_since_update + 1;
        }
    }

    /// Kalman correction against an observed box: innovation variance
    /// `s = p11 + R` (always positive), gains `p11/s` and `p12/s`, state
    /// moved toward the measurement, covariance contracted by `(I - K*H)`,
    /// the miss counter reset and the success counter advanced.
    pub fn update(&mut self, bbox: &BBox)
        requires
            old(self).wf(),
            bbox.wf(),
        ensures
            *final(self) == spec_corrected(*old(self), *bbox),
            final(self).wf(),
    {
        self.time_since_update = 0;
        if self.number_of_successful_updates < i64::MAX {
            self.number_of_successful_updates = self.number_of_successful_updates + 1;
        }
        let s: i128 = self.p11 as i128 + R_NOISE as i128;
        let p11: i128 = self.p11 as i128;
        let p12: i128 = self.p12 as i128;
        let p22: i128 = self.p22 as i128;
        let (px1, vx1) = corrected(self.pos.x1, self.vel.x1, bbox.x1, self.p11, self.p12, s);
        let (py1, vy1) = corrected(self.pos.y1, self.vel.y1, bbox.y1, self.p11, self.p12, s);
        let (px2, vx2) = corrected(self.pos.x2, self.vel.x2, bbox.x2, self.p11, self.p12, s);
        let (py2, vy2) = corrected(self.pos.y2, self.vel.y2, bbox.y2, self.p11, self.p12, s);
        self.pos = BBox { x1: px1, y1: py1, x2: px2, y2: py2 };
        self.vel = Velocity { x1: vx1, y1: vy1, x2: vx2, y2: vy2 };
        proof {
            lemma_abs_mul_bound(p11 as int, p11 as int, COV_LIMIT as int, COV_LIMIT as int);
            lemma_abs_mul_bound(p11 as int, p12 as int, COV_LIMIT as int, COV_LIMIT as int);
            lemma_abs_mul_bound(p12 as int, p12 as int, COV_LIMIT as int, COV_LIMIT as int);
        }
        self.p11 = clamp_cov_exec(p11 - tdiv_exec(p11 * p11, s));
        self.p12 = clamp_cov_exec(p12 - tdiv_exec(p11 * p12, s));
        self.p22 = clamp_cov_exec(p22 - tdiv_exec(p12 * p12, s));
    }

    /// The four position components of the state.
    pub fn get_state_bbox(&self) -> (r: BBox)
        ensures
            r == self.pos,
    {
        self.pos
    }
}

/// One coordinate's share of a correction: position and velocity pulled
/// toward the measurement `z` by the gains `p11/s` and `p12/s`.
fn corrected(pos: i64, vel: i64, z: i64, p11: i64, p12: i64, s: i128) -> (r: (i64, i64))
    requires
        -COORD_LIMIT <= pos <= COORD_LIMIT,
        -COORD_LIMIT <= vel <= COORD_LIMIT,
        -COORD_LIMIT <= z <= COORD_LIMIT,
        0 <= p11 <= COV_LIMIT,
        0 <= p12 <= COV_LIMIT,
        s > 0,
        s <= COV_LIMIT + R_NOISE,
    ensures
        r.0 == clamp_coord(pos + tdiv(p11 * (z - pos), s as int)),
        r.1 == clamp_coord(vel + tdiv(p12 * (z - pos), s as int)),
{
    let y: i128 = z as i128 - pos as i128;
    proof {
        lemma_abs_mul_bound(p11 as int, y as int, COV_LIMIT as int, 2 * COORD_LIMIT as int);
        lemma_abs_mul_bound(p12 as int, y as int, COV_LIMIT as int, 2 * COORD_LIMIT as int);
        lemma_tdiv_in_bound(
            p11 as int * y as int,
            s as int,
            COV_LIMIT as int * 2 * COORD_LIMIT as int,
        );
        lemma_tdiv_in_bound(
            p12 as int * y as int,
            s as int,
            COV_LIMIT as int * 2 * COORD_LIMIT as int,
        );
    }
    let gp: i128 = tdiv_exec(p11 as i128 * y, s);
    let gv: i128 = tdiv_exec(p12 as i128 * y, s);
    let new_pos = clamp_coord_exec(pos as i128 + gp);
    let new_vel = clamp_coord_exec(vel as i128 + gv);
    (new_pos, new_vel)
}

} // verus!
