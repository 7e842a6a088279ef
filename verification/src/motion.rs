//! Deterministic trajectory feature database and motion matching.

use vstd::prelude::*;
use crate::text::{compare_str, str_eq, text_lt, TextOrder};

verus! {

pub const TRAJECTORY_SCHEMA_VERSION: u32 = 1;

#[derive(Clone, Copy, Debug, PartialEq, Eq, PartialOrd, Ord, Structural)]
pub enum FootContactV1 {
    NoContact,
    LeftFoot,
    RightFoot,
    BothFeet,
}

#[derive(Clone, Copy, Debug, PartialEq, Eq, Structural)]
pub struct TerrainConstraintV1 {
    pub max_slope_millionths: i32,
    pub ground_height_millimeters: i32,
}

impl TerrainConstraintV1 {
    pub fn validate(&self) -> (r: Result<(), &'static str>)
        ensures
            r is Ok <==> 0 <= self.max_slope_millionths <= 1_000_000,
            r matches Err(m) ==> m@ == "terrain slope must be between 0 and 1000000 millionths"@,
    {
        if self.max_slope_millionths < 0 || self.max_slope_millionths > 1_000_000 {
            Err("terrain slope must be between 0 and 1000000 millionths")
        } else {
            Ok(())
        }
    }

    /// Whether a slope of this steepness, in either direction, is walkable.
    pub fn accepts_slope(&self, slope_millionths: i32) -> (r: bool)
        requires
            slope_millionths != i32::MIN,
        ensures
            r == ((if slope_millionths < 0 { -slope_millionths } else { slope_millionths as int })
                <= self.max_slope_millionths),
    {
        let magnitude = if slope_millionths < 0 {
            -slope_millionths
        } else {
            slope_millionths
        };
        magnitude <= self.max_slope_millionths
    }
}

#[derive(Clone, Copy, Debug, PartialEq, Eq)]
pub struct FootLockWindowV1 {
    pub foot: FootContactV1,
    pub tick_start: u64,
    pub tick_end: u64,
    pub position_millimeters: [i32; 3],
}

impl FootLockWindowV1 {
    pub fn validate(&self) -> (r: Result<(), &'static str>)
        ensures
            self.foot == FootContactV1::NoContact ==> (r matches Err(m) && m@
                == "foot lock requires a named foot contact"@),
            self.foot != FootContactV1::NoContact && self.tick_start > self.tick_end ==> (r matches Err(m)
                && m@ == "foot lock tick_start must not be after tick_end"@),
            r is Ok <==> self.foot != FootContactV1::NoContact && self.tick_start <= self.tick_end,
    {
        if self.foot == FootContactV1::NoContact {
            return Err("foot lock requires a named foot contact");
        }
        if self.tick_start > self.tick_end {
            return Err("foot lock tick_start must not be after tick_end");
        }
        Ok(())
    }

    pub fn contains_tick(&self, tick: u64) -> (r: bool)
        ensures
            r == (self.tick_start <= tick <= self.tick_end),
    {
        self.tick_start <= tick && tick <= self.tick_end
    }
}

#[derive(Clone, Copy, Debug, PartialEq, Eq)]
pub struct MotionSampleV1 {
    pub tick: u64,
    pub position_millimeters: [i32; 2],
    pub velocity_millimeters_per_second: [i32; 2],
    pub contact: FootContactV1,
    pub slope_millionths: i32,
}

impl MotionSampleV1 {
    pub fn new(
        position_millimeters: [i32; 2],
        velocity_millimeters_per_second: [i32; 2],
        contact: FootContactV1,
        slope_millionths: i32,
    ) -> (s: Self)
        ensures
            s == (MotionSampleV1 {
                tick: 0,
                position_millimeters,
                velocity_millimeters_per_second,
                contact,
                slope_millionths,
            }),
    {
        Self { tick: 0, position_millimeters, velocity_millimeters_per_second, contact, slope_millionths }
    }

    pub fn at(
        tick: u64,
        position_millimeters: [i32; 2],
        velocity_millimeters_per_second: [i32; 2],
        contact: FootContactV1,
        slope_millionths: i32,
    ) -> (s: Self)
        ensures
            s == (MotionSampleV1 {
                tick,
                position_millimeters,
                velocity_millimeters_per_second,
                contact,
                slope_millionths,
            }),
    {
        Self { tick, position_millimeters, velocity_millimeters_per_second, contact, slope_millionths }
    }
}

#[derive(Clone, Debug, PartialEq, Eq)]
pub struct MotionClipV1 {
    pub id: String,
    pub provenance: String,
    pub samples: Vec<MotionSampleV1>,
}

impl MotionClipV1 {
    pub fn new(id: &str, provenance: &str, samples: Vec<MotionSampleV1>) -> (c: Self)
        ensures
            c.id@ == id@,
            c.provenance@ == provenance@,
            c.samples == samples,
    {
        Self { id: String::from_str(id), provenance: String::from_str(provenance), samples }
    }
}

#[derive(Clone, Debug, PartialEq, Eq)]
pub struct MotionDatabaseV1 {
    pub schema_version: u32,
    pub database_id: String,
    pub clips: Vec<MotionClipV1>,
}

#[derive(Clone, Debug, PartialEq, Eq)]
pub enum MotionError {
    UnsupportedVersion(u32),
    InvalidDatabase(&'static str),
    InvalidClip(String),
    DuplicateClip(String),
    MissingFallback(String),
}

/// Sample `i + 1` comes strictly after sample `i`.
pub open spec fn tick_step_increases(samples: Seq<MotionSampleV1>, i: int) -> bool {
    samples[i].tick < samples[i + 1].tick
}

/// Sample ticks strictly increase.
pub open spec fn ticks_increase(samples: Seq<MotionSampleV1>) -> bool {
    forall|i: int| 0 <= i < samples.len() - 1 ==> #[trigger] tick_step_increases(samples, i)
}

/// 0 when clip `i` is acceptable; 1 for a missing ID, provenance or samples,
/// 2 for an ID used by an earlier clip, 3 for ticks that do not increase.
pub open spec fn clip_problem(clips: Seq<MotionClipV1>, i: int) -> int {
    let c = clips[i];
    if c.id@.len() == 0 || c.provenance@.len() == 0 || c.samples@.len() == 0 {
        1
    } else if exists|j: int| 0 <= j < i && (#[trigger] clips[j]).id@ == c.id@ {
        2
    } else if !ticks_increase(c.samples@) {
        3
    } else {
        0
    }
}

/// The first unacceptable clip among the first `n`, or -1.
pub open spec fn first_bad_clip(clips: Seq<MotionClipV1>, n: nat) -> int
    decreases n,
{
    if n == 0 {
        -1
    } else if first_bad_clip(clips, (n - 1) as nat) >= 0 {
        first_bad_clip(clips, (n - 1) as nat)
    } else if clip_problem(clips, n - 1) != 0 {
        n - 1
    } else {
        -1
    }
}

proof fn lemma_first_bad_clip_stable(clips: Seq<MotionClipV1>, m: nat, n: nat)
    requires
        m <= n,
        first_bad_clip(clips, m) >= 0,
    ensures
        first_bad_clip(clips, n) == first_bad_clip(clips, m),
    decreases n,
{
    if n > m {
        lemma_first_bad_clip_stable(clips, m, (n - 1) as nat);
    }
}

/// A database passes every check.
pub open spec fn database_ok(db: MotionDatabaseV1) -> bool {
    db.schema_version == TRAJECTORY_SCHEMA_VERSION && db.database_id@.len() > 0 && db.clips@.len() > 0
        && first_bad_clip(db.clips@, db.clips@.len()) < 0
}

fn ticks_strictly_increase(samples: &Vec<MotionSampleV1>) -> (r: bool)
    ensures
        r == ticks_increase(samples@),
{
    let n = samples.len();
    if n == 0 {
        return true;
    }
    let mut i: usize = 1;
    while i < n
        invariant
            n == samples@.len(),
            1 <= i <= n,
            forall|j: int| 0 <= j < i - 1 ==> #[trigger] tick_step_increases(samples@, j),
        decreases n - i,
    {
        if samples[i - 1].tick >= samples[i].tick {
            assert(!tick_step_increases(samples@, i - 1));
            return false;
        }
        i = i + 1;
    }
    true
}

impl MotionDatabaseV1 {
    pub fn new(database_id: &str, clips: Vec<MotionClipV1>) -> (r: Result<Self, MotionError>)
        ensures
            r is Ok <==> database_id@.len() > 0 && clips@.len() > 0 && first_bad_clip(clips@, clips@.len()) < 0,
            r matches Ok(db) ==> db.schema_version == TRAJECTORY_SCHEMA_VERSION && db.database_id@
                == database_id@ && db.clips == clips,
    {
        let database = Self {
            schema_version: TRAJECTORY_SCHEMA_VERSION,
            database_id: String::from_str(database_id),
            clips,
        };
        match database.validate() {
            Ok(()) => Ok(database),
            Err(e) => Err(e),
        }
    }

    /// Checks run in a fixed order; the first failure is reported.
    pub fn validate(&self) -> (r: Result<(), MotionError>)
        ensures
            r is Ok <==> database_ok(*self),
            self.schema_version != TRAJECTORY_SCHEMA_VERSION ==> r == Err::<(), MotionError>(
                MotionError::UnsupportedVersion(self.schema_version),
            ),
            self.schema_version == TRAJECTORY_SCHEMA_VERSION && (self.database_id@.len() == 0
                || self.clips@.len() == 0) ==> (r matches Err(MotionError::InvalidDatabase(m)) && m@
                == "database ID and clips are required"@),
            self.schema_version == TRAJECTORY_SCHEMA_VERSION && self.database_id@.len() > 0
                && self.clips@.len() > 0 && !database_ok(*self) ==> ({
                let k = first_bad_clip(self.clips@, self.clips@.len());
                0 <= k < self.clips@.len() && match r->Err_0 {
                    MotionError::InvalidClip(id) => id@ == self.clips@[k].id@ && (clip_problem(
                        self.clips@,
                        k,
                    ) == 1 || clip_problem(self.clips@, k) == 3),
                    MotionError::DuplicateClip(id) => id@ == self.clips@[k].id@ && clip_problem(
                        self.clips@,
                        k,
                    ) == 2,
                    _ => false,
                }
            }),
    {
        if self.schema_version != TRAJECTORY_SCHEMA_VERSION {
            return Err(MotionError::UnsupportedVersion(self.schema_version));
        }
        if self.database_id.as_str().is_empty() || self.clips.len() == 0 {
            return Err(MotionError::InvalidDatabase("database ID and clips are required"));
        }
        let mut i: usize = 0;
        while i < self.clips.len()
            invariant
                i <= self.clips@.len(),
                self.schema_version == TRAJECTORY_SCHEMA_VERSION,
                self.database_id@.len() > 0,
                self.clips@.len() > 0,
                first_bad_clip(self.clips@, i as nat) < 0,
            decreases self.clips@.len() - i,
        {
            let clip = &self.clips[i];
            if clip.id.as_str().is_empty() || clip.provenance.as_str().is_empty() || clip.samples.len() == 0 {
                proof {
                    assert(clip_problem(self.clips@, i as int) == 1);
                    assert(first_bad_clip(self.clips@, (i + 1) as nat) == i as int);
                    lemma_first_bad_clip_stable(self.clips@, (i + 1) as nat, self.clips@.len());
                }
                return Err(MotionError::InvalidClip(clip.id.clone()));
            }
            let mut j: usize = 0;
            while j < i
                invariant
                    i < self.clips@.len(),
                    j <= i,
                    *clip == self.clips@[i as int],
                    self.schema_version == TRAJECTORY_SCHEMA_VERSION,
                    self.database_id@.len() > 0,
                    first_bad_clip(self.clips@, i as nat) < 0,
                    clip.id@.len() > 0 && clip.provenance@.len() > 0 && clip.samples@.len() > 0,
                    forall|k: int| 0 <= k < j ==> (#[trigger] self.clips@[k]).id@ != clip.id@,
                decreases i - j,
            {
                if str_eq(self.clips[j].id.as_str(), clip.id.as_str()) {
                    proof {
                        assert(clip_problem(self.clips@, i as int) == 2);
                        assert(first_bad_clip(self.clips@, (i + 1) as nat) == i as int);
                        lemma_first_bad_clip_stable(self.clips@, (i + 1) as nat, self.clips@.len());
                    }
                    return Err(MotionError::DuplicateClip(clip.id.clone()));
                }
                j = j + 1;
            }
            if !ticks_strictly_increase(&clip.samples) {
                proof {
                    assert(clip_problem(self.clips@, i as int) == 3);
                    assert(first_bad_clip(self.clips@, (i + 1) as nat) == i as int);
                    lemma_first_bad_clip_stable(self.clips@, (i + 1) as nat, self.clips@.len());
                }
                return Err(MotionError::InvalidClip(clip.id.clone()));
            }
            proof {
                assert(clip_problem(self.clips@, i as int) == 0);
            }
            i = i + 1;
        }
        Ok(())
    }
}


// ---------------------------------------------------------------------------
// Matching
// ---------------------------------------------------------------------------

#[derive(Clone, Debug, PartialEq, Eq)]
pub struct MotionQueryV1 {
    pub desired_velocity_millimeters_per_second: [i32; 2],
    pub desired_slope_millionths: i32,
    pub required_contact: Option<FootContactV1>,
    pub fallback_clip_id: String,
    pub future_positions_millimeters: Vec<[i32; 2]>,
    pub future_velocities_millimeters_per_second: Vec<[i32; 2]>,
}

#[derive(Clone, Debug, PartialEq, Eq)]
pub struct MotionMatchResultV1 {
    pub clip_id: String,
    pub score_millionths: u64,
    pub used_fallback: bool,
    pub diagnostic: String,
}

#[derive(Clone, Debug)]
pub struct MotionMatcher {
    database: MotionDatabaseV1,
}

/// `v` capped at the largest `i64`.
pub open spec fn sat(v: int) -> int {
    if v > i64::MAX {
        i64::MAX as int
    } else {
        v
    }
}

/// Saturating squared distance between two integer points.
pub open spec fn squared_distance_spec(left: [i32; 2], right: [i32; 2]) -> int {
    let x = left@[0] - right@[0];
    let y = left@[1] - right@[1];
    sat(sat(x * x) + sat(y * y))
}

fn saturating_square(x: i64) -> (r: i64)
    ensures
        r == sat(x * x),
{
    match x.checked_mul(x) {
        Some(v) => v,
        None => {
            assert(x * x >= 0) by (nonlinear_arith);
            i64::MAX
        },
    }
}

fn saturating_sum(a: i64, b: i64) -> (r: i64)
    requires
        a >= 0,
        b >= 0,
    ensures
        r == sat(a + b),
{
    match a.checked_add(b) {
        Some(v) => v,
        None => i64::MAX,
    }
}

pub fn squared_distance(left: [i32; 2], right: [i32; 2]) -> (d: i64)
    ensures
        d == squared_distance_spec(left, right),
        d >= 0,
{
    let x = left[0] as i64 - right[0] as i64;
    let y = left[1] as i64 - right[1] as i64;
    let xx = saturating_square(x);
    let yy = saturating_square(y);
    proof {
        assert(x * x >= 0) by (nonlinear_arith);
        assert(y * y >= 0) by (nonlinear_arith);
    }
    saturating_sum(xx, yy)
}

/// The sample a future step is compared against: the next samples in order,
/// then the last sample once the clip runs out.
pub open spec fn sample_for_step(samples: Seq<MotionSampleV1>, step: int) -> MotionSampleV1 {
    if step + 1 < samples.len() {
        samples[step + 1]
    } else {
        samples.last()
    }
}

/// Total velocity error over the first `n` future steps.
pub open spec fn future_velocity_error(samples: Seq<MotionSampleV1>, desired: Seq<[i32; 2]>, n: nat) -> int
    decreases n,
{
    if n == 0 {
        0
    } else {
        future_velocity_error(samples, desired, (n - 1) as nat) + squared_distance_spec(
            sample_for_step(samples, n - 1).velocity_millimeters_per_second,
            desired[n - 1],
        )
    }
}

/// Total position error over the first `n` future steps.
pub open spec fn future_position_error(samples: Seq<MotionSampleV1>, desired: Seq<[i32; 2]>, n: nat) -> int
    decreases n,
{
    if n == 0 {
        0
    } else {
        future_position_error(samples, desired, (n - 1) as nat) + squared_distance_spec(
            sample_for_step(samples, n - 1).position_millimeters,
            desired[n - 1],
        )
    }
}

/// Some sample shows the contact.
pub open spec fn has_contact(samples: Seq<MotionSampleV1>, contact: FootContactV1) -> bool {
    exists|i: int| 0 <= i < samples.len() && (#[trigger] samples[i]).contact == contact
}

/// A clip can serve the query: it has samples and shows any required contact.
pub open spec fn is_candidate(clip: MotionClipV1, q: MotionQueryV1) -> bool {
    clip.samples@.len() > 0 && (q.required_contact matches Some(c) ==> has_contact(clip.samples@, c))
}

/// The match score of a candidate clip: lower is better.
pub open spec fn clip_score(clip: MotionClipV1, q: MotionQueryV1) -> int {
    let first = clip.samples@[0];
    let velocity_error = squared_distance_spec(
        first.velocity_millimeters_per_second,
        q.desired_velocity_millimeters_per_second,
    );
    let slope = first.slope_millionths - q.desired_slope_millionths;
    let slope_error = if slope < 0 { -slope } else { slope };
    sat(
        sat(
            sat(velocity_error + sat(slope_error * slope_error))
                + future_velocity_error(
                clip.samples@,
                q.future_velocities_millimeters_per_second@,
                q.future_velocities_millimeters_per_second@.len(),
            ),
        ) + future_position_error(
            clip.samples@,
            q.future_positions_millimeters@,
            q.future_positions_millimeters@.len(),
        ),
    )
}

/// Without future targets, a clip's score is the squared distance of its
/// first sample's velocity from the desired velocity plus the squared
/// difference of its slope from the desired slope, capped at the largest
/// `i64`.
pub proof fn lemma_clip_score_without_future(clip: MotionClipV1, q: MotionQueryV1)
    requires
        clip.samples@.len() > 0,
        q.future_velocities_millimeters_per_second@.len() == 0,
        q.future_positions_millimeters@.len() == 0,
    ensures
        ({
            let f = clip.samples@[0];
            let vx = f.velocity_millimeters_per_second@[0] - q.desired_velocity_millimeters_per_second@[0];
            let vy = f.velocity_millimeters_per_second@[1] - q.desired_velocity_millimeters_per_second@[1];
            let ds = f.slope_millionths - q.desired_slope_millionths;
            let total = vx * vx + vy * vy + ds * ds;
            clip_score(clip, q) == if total > i64::MAX { i64::MAX as int } else { total }
        }),
{
    let f = clip.samples@[0];
    let vx = f.velocity_millimeters_per_second@[0] - q.desired_velocity_millimeters_per_second@[0];
    let vy = f.velocity_millimeters_per_second@[1] - q.desired_velocity_millimeters_per_second@[1];
    let ds = f.slope_millionths - q.desired_slope_millionths;
    let e = if ds < 0 { -ds } else { ds };
    assert(vx * vx >= 0) by (nonlinear_arith);
    assert(vy * vy >= 0) by (nonlinear_arith);
    assert(e * e == ds * ds) by (nonlinear_arith)
        requires
            e == ds || e == -ds,
    ;
    assert(ds * ds >= 0) by (nonlinear_arith);
}

/// With one future velocity and one future position to meet, a clip's score
/// adds to the first sample's errors the squared distance of the next
/// sample's velocity (the last sample's once the clip runs out) from the
/// future velocity, and of that sample's position from the future position,
/// capped at the largest `i64`.
pub proof fn lemma_clip_score_one_step_ahead(clip: MotionClipV1, q: MotionQueryV1)
    requires
        clip.samples@.len() > 0,
        q.future_velocities_millimeters_per_second@.len() == 1,
        q.future_positions_millimeters@.len() == 1,
    ensures
        ({
            let f = clip.samples@[0];
            let n = if clip.samples@.len() > 1 { clip.samples@[1] } else { clip.samples@.last() };
            let fv = q.future_velocities_millimeters_per_second@[0];
            let fp = q.future_positions_millimeters@[0];
            let vx = f.velocity_millimeters_per_second@[0] - q.desired_velocity_millimeters_per_second@[0];
            let vy = f.velocity_millimeters_per_second@[1] - q.desired_velocity_millimeters_per_second@[1];
            let ds = f.slope_millionths - q.desired_slope_millionths;
            let ax = n.velocity_millimeters_per_second@[0] - fv@[0];
            let ay = n.velocity_millimeters_per_second@[1] - fv@[1];
            let px = n.position_millimeters@[0] - fp@[0];
            let py = n.position_millimeters@[1] - fp@[1];
            let total = vx * vx + vy * vy + ds * ds + ax * ax + ay * ay + px * px + py * py;
            clip_score(clip, q) == if total > i64::MAX { i64::MAX as int } else { total }
        }),
{
    let f = clip.samples@[0];
    let n = if clip.samples@.len() > 1 { clip.samples@[1] } else { clip.samples@.last() };
    let fv = q.future_velocities_millimeters_per_second@[0];
    let fp = q.future_positions_millimeters@[0];
    let vx = f.velocity_millimeters_per_second@[0] - q.desired_velocity_millimeters_per_second@[0];
    let vy = f.velocity_millimeters_per_second@[1] - q.desired_velocity_millimeters_per_second@[1];
    let ds = f.slope_millionths - q.desired_slope_millionths;
    let e = if ds < 0 { -ds } else { ds };
    let ax = n.velocity_millimeters_per_second@[0] - fv@[0];
    let ay = n.velocity_millimeters_per_second@[1] - fv@[1];
    let px = n.position_millimeters@[0] - fp@[0];
    let py = n.position_millimeters@[1] - fp@[1];
    assert(sample_for_step(clip.samples@, 0) == n);
    assert(vx * vx >= 0) by (nonlinear_arith);
    assert(vy * vy >= 0) by (nonlinear_arith);
    assert(ax * ax >= 0) by (nonlinear_arith);
    assert(ay * ay >= 0) by (nonlinear_arith);
    assert(px * px >= 0) by (nonlinear_arith);
    assert(py * py >= 0) by (nonlinear_arith);
    assert(ds * ds >= 0) by (nonlinear_arith);
    assert(e * e == ds * ds) by (nonlinear_arith)
        requires
            e == ds || e == -ds,
    ;
    assert(future_velocity_error(clip.samples@, q.future_velocities_millimeters_per_second@, 0) == 0);
    assert(future_position_error(clip.samples@, q.future_positions_millimeters@, 0) == 0);
    assert(future_velocity_error(clip.samples@, q.future_velocities_millimeters_per_second@, 1) == squared_distance_spec(
        n.velocity_millimeters_per_second,
        fv,
    ));
    assert(future_position_error(clip.samples@, q.future_positions_millimeters@, 1) == squared_distance_spec(
        n.position_millimeters,
        fp,
    ));
}

/// Of two clips without future targets whose first samples differ only in
/// slope, the one whose slope is nearer the desired slope scores lower,
/// unless both scores are capped.
pub proof fn lemma_nearer_slope_scores_lower(a: MotionClipV1, b: MotionClipV1, q: MotionQueryV1)
    requires
        a.samples@.len() > 0,
        b.samples@.len() > 0,
        q.future_velocities_millimeters_per_second@.len() == 0,
        q.future_positions_millimeters@.len() == 0,
        a.samples@[0].velocity_millimeters_per_second == b.samples@[0].velocity_millimeters_per_second,
        ({
            let da = a.samples@[0].slope_millionths - q.desired_slope_millionths;
            let db = b.samples@[0].slope_millionths - q.desired_slope_millionths;
            (if da < 0 { -da } else { da }) < (if db < 0 { -db } else { db })
        }),
    ensures
        clip_score(a, q) <= clip_score(b, q),
        clip_score(a, q) < i64::MAX ==> clip_score(a, q) < clip_score(b, q),
{
    lemma_clip_score_without_future(a, q);
    lemma_clip_score_without_future(b, q);
    let da = a.samples@[0].slope_millionths - q.desired_slope_millionths;
    let db = b.samples@[0].slope_millionths - q.desired_slope_millionths;
    let ea = if da < 0 { -da } else { da };
    let eb = if db < 0 { -db } else { db };
    assert(ea * ea < eb * eb) by (nonlinear_arith)
        requires
            0 <= ea < eb,
    ;
    assert(ea * ea == da * da) by (nonlinear_arith)
        requires
            ea == da || ea == -da,
    ;
    assert(eb * eb == db * db) by (nonlinear_arith)
        requires
            eb == db || eb == -db,
    ;
}

/// The future error sums of every candidate fit in an `i64`.
pub open spec fn scores_fit(clips: Seq<MotionClipV1>, q: MotionQueryV1) -> bool {
    forall|i: int| 0 <= i < clips.len() && is_candidate(#[trigger] clips[i], q) ==> future_velocity_error(
        clips[i].samples@,
        q.future_velocities_millimeters_per_second@,
        q.future_velocities_millimeters_per_second@.len(),
    ) <= i64::MAX && future_position_error(
        clips[i].samples@,
        q.future_positions_millimeters@,
        q.future_positions_millimeters@.len(),
    ) <= i64::MAX
}

/// Candidate `a` ranks strictly before candidate `b`: lower score, then lower
/// clip ID.
pub open spec fn ranks_ahead(clips: Seq<MotionClipV1>, q: MotionQueryV1, a: int, b: int) -> bool {
    clip_score(clips[a], q) < clip_score(clips[b], q) || (clip_score(clips[a], q) == clip_score(clips[b], q)
        && text_lt(clips[a].id@, clips[b].id@))
}

/// The best candidate among the first `n` clips (the earliest of equals), or -1.
pub open spec fn best_candidate(clips: Seq<MotionClipV1>, q: MotionQueryV1, n: nat) -> int
    decreases n,
{
    if n == 0 {
        -1
    } else {
        let b = best_candidate(clips, q, (n - 1) as nat);
        if !is_candidate(clips[n - 1], q) {
            b
        } else if b < 0 || ranks_ahead(clips, q, n - 1, b) {
            n - 1
        } else {
            b
        }
    }
}

/// The clip a match selects among the first `n` is a candidate that scores
/// no higher than any other candidate, and among equal scores has the least
/// clip ID; there is none exactly when no clip is a candidate.
pub proof fn lemma_best_candidate_is_least(clips: Seq<MotionClipV1>, q: MotionQueryV1, n: nat)
    requires
        n <= clips.len(),
    ensures
        best_candidate(clips, q, n) < 0 <==> forall|i: int| 0 <= i < n ==> !is_candidate(#[trigger] clips[i], q),
        best_candidate(clips, q, n) >= 0 ==> {
            let b = best_candidate(clips, q, n);
            &&& b < n
            &&& is_candidate(clips[b], q)
            &&& forall|i: int|
                0 <= i < n && is_candidate(#[trigger] clips[i], q) ==> clip_score(clips[b], q) <= clip_score(clips[i], q)
                    && (clip_score(clips[b], q) == clip_score(clips[i], q) ==> !text_lt(clips[i].id@, clips[b].id@))
        },
    decreases n,
{
    if n > 0 {
        lemma_best_candidate_is_least(clips, q, (n - 1) as nat);
        let p = best_candidate(clips, q, (n - 1) as nat);
        let l = n - 1;
        if is_candidate(clips[l], q) && (p < 0 || ranks_ahead(clips, q, l, p)) {
            assert forall|i: int| 0 <= i < n && is_candidate(#[trigger] clips[i], q) implies clip_score(clips[l], q)
                <= clip_score(clips[i], q) && (clip_score(clips[l], q) == clip_score(clips[i], q) ==> !text_lt(
                clips[i].id@,
                clips[l].id@,
            )) by {
                if i < l {
                    assert(p >= 0);
                    if clip_score(clips[l], q) == clip_score(clips[i], q) && text_lt(clips[i].id@, clips[l].id@) {
                        crate::text::lemma_text_lt_transitive(clips[i].id@, clips[l].id@, clips[p].id@);
                    }
                } else {
                    crate::text::lemma_text_lt_irreflexive(clips[l].id@);
                }
            }
        } else if is_candidate(clips[l], q) {
            assert(p >= 0);
        }
    }
}

/// Some clip carries the ID.
pub open spec fn has_clip(clips: Seq<MotionClipV1>, id: Seq<char>) -> bool {
    exists|i: int| 0 <= i < clips.len() && (#[trigger] clips[i]).id@ == id
}

fn clip_has_contact(samples: &Vec<MotionSampleV1>, contact: FootContactV1) -> (r: bool)
    ensures
        r == has_contact(samples@, contact),
{
    let mut i: usize = 0;
    while i < samples.len()
        invariant
            i <= samples@.len(),
            forall|j: int| 0 <= j < i ==> (#[trigger] samples@[j]).contact != contact,
        decreases samples@.len() - i,
    {
        if samples[i].contact == contact {
            return true;
        }
        i = i + 1;
    }
    false
}

fn step_sample(samples: &Vec<MotionSampleV1>, step: usize) -> (s: &MotionSampleV1)
    requires
        samples@.len() > 0,
    ensures
        *s == sample_for_step(samples@, step as int),
{
    if step < samples.len() - 1 {
        &samples[step + 1]
    } else {
        &samples[samples.len() - 1]
    }
}

fn future_errors(samples: &Vec<MotionSampleV1>, desired: &Vec<[i32; 2]>, velocity: bool) -> (e: i64)
    requires
        samples@.len() > 0,
        velocity ==> future_velocity_error(samples@, desired@, desired@.len()) <= i64::MAX,
        !velocity ==> future_position_error(samples@, desired@, desired@.len()) <= i64::MAX,
    ensures
        velocity ==> e == future_velocity_error(samples@, desired@, desired@.len()),
        !velocity ==> e == future_position_error(samples@, desired@, desired@.len()),
        e >= 0,
{
    let mut total: i64 = 0;
    let mut k: usize = 0;
    while k < desired.len()
        invariant
            samples@.len() > 0,
            k <= desired@.len(),
            velocity ==> future_velocity_error(samples@, desired@, desired@.len()) <= i64::MAX,
            !velocity ==> future_position_error(samples@, desired@, desired@.len()) <= i64::MAX,
            velocity ==> total == future_velocity_error(samples@, desired@, k as nat),
            !velocity ==> total == future_position_error(samples@, desired@, k as nat),
            total >= 0,
        decreases desired@.len() - k,
    {
        let sample = step_sample(samples, k);
        let d = if velocity {
            squared_distance(sample.velocity_millimeters_per_second, desired[k])
        } else {
            squared_distance(sample.position_millimeters, desired[k])
        };
        proof {
            lemma_future_errors_monotone(samples@, desired@, (k + 1) as nat, desired@.len());
        }
        total = total + d;
        k = k + 1;
    }
    total
}

proof fn lemma_future_errors_monotone(samples: Seq<MotionSampleV1>, desired: Seq<[i32; 2]>, m: nat, n: nat)
    requires
        m <= n <= desired.len(),
    ensures
        future_velocity_error(samples, desired, m) <= future_velocity_error(samples, desired, n),
        future_position_error(samples, desired, m) <= future_position_error(samples, desired, n),
    decreases n,
{
    if n > m {
        lemma_future_errors_monotone(samples, desired, m, (n - 1) as nat);
        let s = sample_for_step(samples, n - 1);
        let a = s.velocity_millimeters_per_second;
        let b = desired[n - 1];
        assert((a@[0] - b@[0]) * (a@[0] - b@[0]) >= 0) by (nonlinear_arith);
        assert((a@[1] - b@[1]) * (a@[1] - b@[1]) >= 0) by (nonlinear_arith);
        let c = s.position_millimeters;
        assert((c@[0] - b@[0]) * (c@[0] - b@[0]) >= 0) by (nonlinear_arith);
        assert((c@[1] - b@[1]) * (c@[1] - b@[1]) >= 0) by (nonlinear_arith);
    }
}

fn score_clip(clip: &MotionClipV1, query: &MotionQueryV1) -> (score: i64)
    requires
        clip.samples@.len() > 0,
        future_velocity_error(
            clip.samples@,
            query.future_velocities_millimeters_per_second@,
            query.future_velocities_millimeters_per_second@.len(),
        ) <= i64::MAX,
        future_position_error(
            clip.samples@,
            query.future_positions_millimeters@,
            query.future_positions_millimeters@.len(),
        ) <= i64::MAX,
    ensures
        score == clip_score(*clip, *query),
        score >= 0,
{
    let first = &clip.samples[0];
    let velocity_error = squared_distance(
        first.velocity_millimeters_per_second,
        query.desired_velocity_millimeters_per_second,
    );
    let slope = first.slope_millionths as i64 - query.desired_slope_millionths as i64;
    let slope_error: i64 = if slope < 0 {
        -slope
    } else {
        slope
    };
    let slope_term = saturating_square(slope_error);
    proof {
        assert(slope_error * slope_error >= 0) by (nonlinear_arith);
    }
    let future_velocity = future_errors(&clip.samples, &query.future_velocities_millimeters_per_second, true);
    let future_position = future_errors(&clip.samples, &query.future_positions_millimeters, false);
    let a = saturating_sum(velocity_error, slope_term);
    let b = saturating_sum(a, future_velocity);
    saturating_sum(b, future_position)
}

impl MotionMatcher {
    pub closed spec fn database(&self) -> MotionDatabaseV1 {
        self.database
    }

    pub fn new(database: MotionDatabaseV1) -> (m: Self)
        ensures
            m.database() == database,
    {
        Self { database }
    }

    /// The best-scoring candidate clip (ties by clip ID, then clip order);
    /// the fallback clip when no clip can serve the query.
    pub fn select(&self, query: &MotionQueryV1) -> (r: Result<MotionMatchResultV1, MotionError>)
        requires
            scores_fit(self.database().clips@, *query),
        ensures
            ({
                let clips = self.database().clips@;
                let b = best_candidate(clips, *query, clips.len());
                &&& b >= 0 ==> (r matches Ok(m) && m.clip_id@ == clips[b].id@ && m.score_millionths
                    == clip_score(clips[b], *query) && !m.used_fallback && m.diagnostic@
                    == "feasible trajectory match"@)
                &&& b < 0 && has_clip(clips, query.fallback_clip_id@) ==> (r matches Ok(m) && m.clip_id@
                    == query.fallback_clip_id@ && m.score_millionths == 0 && m.used_fallback
                    && m.diagnostic@ == "no feasible motion candidate; deterministic fallback selected"@)
                &&& b < 0 && !has_clip(clips, query.fallback_clip_id@) ==> (r matches Err(
                    MotionError::MissingFallback(id),
                ) && id@ == query.fallback_clip_id@)
            }),
    {
        let clips = &self.database.clips;
        let mut best: Option<(usize, i64)> = None;
        let mut i: usize = 0;
        while i < clips.len()
            invariant
                *clips == self.database().clips,
                scores_fit(clips@, *query),
                i <= clips@.len(),
                best is None ==> best_candidate(clips@, *query, i as nat) == -1,
                best matches Some(p) ==> p.0 as int == best_candidate(clips@, *query, i as nat) && p.0 < i
                    && p.1 == clip_score(clips@[p.0 as int], *query) && p.1 >= 0,
            decreases clips@.len() - i,
        {
            let clip = &clips[i];
            let usable = clip.samples.len() > 0 && match query.required_contact {
                Some(contact) => clip_has_contact(&clip.samples, contact),
                None => true,
            };
            if usable {
                proof {
                    assert(is_candidate(clips@[i as int], *query));
                }
                let score = score_clip(clip, query);
                match best {
                    None => {
                        best = Some((i, score));
                    },
                    Some(p) => {
                        let ahead = score < p.1 || (score == p.1 && compare_str(
                            clip.id.as_str(),
                            clips[p.0].id.as_str(),
                        ) == TextOrder::Less);
                        if ahead {
                            best = Some((i, score));
                        }
                    },
                }
            }
            i = i + 1;
        }
        match best {
            Some(p) => {
                return Ok(MotionMatchResultV1 {
                    clip_id: clips[p.0].id.clone(),
                    score_millionths: p.1 as u64,
                    used_fallback: false,
                    diagnostic: String::from_str("feasible trajectory match"),
                });
            },
            None => {},
        }
        let mut k: usize = 0;
        while k < clips.len()
            invariant
                k <= clips@.len(),
                *clips == self.database().clips,
                best_candidate(clips@, *query, clips@.len()) == -1,
                forall|j: int| 0 <= j < k ==> (#[trigger] clips@[j]).id@ != query.fallback_clip_id@,
            decreases clips@.len() - k,
        {
            if str_eq(clips[k].id.as_str(), query.fallback_clip_id.as_str()) {
                return Ok(MotionMatchResultV1 {
                    clip_id: query.fallback_clip_id.clone(),
                    score_millionths: 0,
                    used_fallback: true,
                    diagnostic: String::from_str("no feasible motion candidate; deterministic fallback selected"),
                });
            }
            k = k + 1;
        }
        Err(MotionError::MissingFallback(query.fallback_clip_id.clone()))
    }
}

#[derive(Clone, Copy, Debug, PartialEq, Eq, Structural)]
pub enum MotionCorrectionV1 {
    NoCorrection,
    WarpStride,
    AdjustTurn,
    FallbackClip,
}

#[derive(Clone, Copy, Debug, PartialEq, Eq, Structural)]
pub struct MotionWarpV1 {
    pub stride_scale_millionths: u32,
    pub turn_delta_millionths: i32,
    pub feasible: bool,
}

#[derive(Clone, Debug, PartialEq, Eq, Structural)]
pub struct MotionFeedbackV1 {
    pub feasible: bool,
    pub root_deviation_millionths: u32,
    pub foot_slide_millionths: u32,
    pub slope_error_millionths: u32,
    pub correction: MotionCorrectionV1,
}

impl MotionFeedbackV1 {
    /// Judge a realized motion given its measured root deviation: feasible
    /// when every error is within bounds; otherwise a turn adjustment when the
    /// root and feet are within bounds (only the slope is off), and a fallback
    /// clip when they are not.
    pub fn judge(
        root_deviation_millionths: u32,
        requested_slope_millionths: i32,
        actual_slope_millionths: i32,
        foot_slide_millionths: u32,
        max_root_deviation_millionths: u32,
        max_foot_slide_millionths: u32,
    ) -> (f: Self)
        ensures
            f.root_deviation_millionths == root_deviation_millionths,
            f.foot_slide_millionths == foot_slide_millionths,
            f.slope_error_millionths as int == (if requested_slope_millionths >= actual_slope_millionths {
                requested_slope_millionths - actual_slope_millionths
            } else {
                actual_slope_millionths - requested_slope_millionths
            }),
            f.feasible == (root_deviation_millionths <= max_root_deviation_millionths
                && foot_slide_millionths <= max_foot_slide_millionths && f.slope_error_millionths
                <= max_root_deviation_millionths),
            f.correction == (if f.feasible {
                MotionCorrectionV1::NoCorrection
            } else if foot_slide_millionths <= max_foot_slide_millionths && root_deviation_millionths
                <= max_root_deviation_millionths {
                MotionCorrectionV1::AdjustTurn
            } else {
                MotionCorrectionV1::FallbackClip
            }),
    {
        let slope_error_millionths = if requested_slope_millionths >= actual_slope_millionths {
            (requested_slope_millionths as i64 - actual_slope_millionths as i64) as u32
        } else {
            (actual_slope_millionths as i64 - requested_slope_millionths as i64) as u32
        };
        let feasible = root_deviation_millionths <= max_root_deviation_millionths
            && foot_slide_millionths <= max_foot_slide_millionths && slope_error_millionths
            <= max_root_deviation_millionths;
        let correction = if feasible {
            MotionCorrectionV1::NoCorrection
        } else if foot_slide_millionths <= max_foot_slide_millionths && root_deviation_millionths
            <= max_root_deviation_millionths {
            MotionCorrectionV1::AdjustTurn
        } else {
            MotionCorrectionV1::FallbackClip
        };
        Self {
            feasible,
            root_deviation_millionths,
            foot_slide_millionths,
            slope_error_millionths,
            correction,
        }
    }
}

} // verus!
