//! Fixed-point quality summaries and baseline comparisons.
//!
//! These make local fixture improvements measurable without treating a
//! synthetic run as production evidence.

use vstd::prelude::*;
use crate::motion::MotionCorrectionV1;

verus! {

#[derive(Clone, Copy, Debug, PartialEq, Eq, Structural)]
pub struct GroupReadabilityMetricsV1 {
    pub sample_count: u64,
    pub split_rate_millionths: u32,
    pub intrusion_rate_millionths: u32,
    pub missing_member_rate_millionths: u32,
    pub mean_separation_millionths: u32,
}

#[derive(Clone, Copy, Debug, PartialEq, Eq, Structural)]
pub struct GroupReadabilityComparisonV1 {
    pub baseline: GroupReadabilityMetricsV1,
    pub candidate: GroupReadabilityMetricsV1,
    pub improved: bool,
    pub hard_safety_preserved: bool,
}

/// The candidate keeps hard safety: no more intrusions or missing members.
pub open spec fn group_safety_preserved(b: GroupReadabilityMetricsV1, c: GroupReadabilityMetricsV1) -> bool {
    c.intrusion_rate_millionths <= b.intrusion_rate_millionths && c.missing_member_rate_millionths
        <= b.missing_member_rate_millionths
}

/// The candidate is no worse on any measure and strictly better on one.
pub open spec fn group_improved(b: GroupReadabilityMetricsV1, c: GroupReadabilityMetricsV1) -> bool {
    group_safety_preserved(b, c) && c.split_rate_millionths <= b.split_rate_millionths
        && c.mean_separation_millionths <= b.mean_separation_millionths && (c.split_rate_millionths
        < b.split_rate_millionths || c.intrusion_rate_millionths < b.intrusion_rate_millionths
        || c.missing_member_rate_millionths < b.missing_member_rate_millionths
        || c.mean_separation_millionths < b.mean_separation_millionths)
}

pub fn compare_group_readability(
    baseline: &GroupReadabilityMetricsV1,
    candidate: &GroupReadabilityMetricsV1,
) -> (r: GroupReadabilityComparisonV1)
    ensures
        r.baseline == *baseline,
        r.candidate == *candidate,
        r.hard_safety_preserved == group_safety_preserved(*baseline, *candidate),
        r.improved == group_improved(*baseline, *candidate),
        r.hard_safety_preserved <==> candidate.intrusion_rate_millionths <= baseline.intrusion_rate_millionths
            && candidate.missing_member_rate_millionths <= baseline.missing_member_rate_millionths,
        r.improved ==> r.hard_safety_preserved && candidate.split_rate_millionths <= baseline.split_rate_millionths
            && candidate.mean_separation_millionths <= baseline.mean_separation_millionths && candidate != *baseline,
        r.improved <== r.hard_safety_preserved && candidate.split_rate_millionths <= baseline.split_rate_millionths
            && candidate.mean_separation_millionths <= baseline.mean_separation_millionths && (
        candidate.split_rate_millionths < baseline.split_rate_millionths || candidate.intrusion_rate_millionths
            < baseline.intrusion_rate_millionths || candidate.missing_member_rate_millionths
            < baseline.missing_member_rate_millionths || candidate.mean_separation_millionths
            < baseline.mean_separation_millionths),
{
    let hard_safety_preserved = candidate.intrusion_rate_millionths <= baseline.intrusion_rate_millionths
        && candidate.missing_member_rate_millionths <= baseline.missing_member_rate_millionths;
    let no_regression = candidate.split_rate_millionths <= baseline.split_rate_millionths
        && candidate.mean_separation_millionths <= baseline.mean_separation_millionths;
    let strict_improvement = candidate.split_rate_millionths < baseline.split_rate_millionths
        || candidate.intrusion_rate_millionths < baseline.intrusion_rate_millionths
        || candidate.missing_member_rate_millionths < baseline.missing_member_rate_millionths
        || candidate.mean_separation_millionths < baseline.mean_separation_millionths;
    GroupReadabilityComparisonV1 {
        baseline: *baseline,
        candidate: *candidate,
        improved: hard_safety_preserved && no_regression && strict_improvement,
        hard_safety_preserved,
    }
}

#[derive(Clone, Copy, Debug, PartialEq, Eq, Structural)]
pub struct MotionQualitySampleV1 {
    pub feasible: bool,
    pub root_deviation_millionths: u32,
    pub foot_slide_millionths: u32,
    pub required_contacts: u32,
    pub observed_contacts: u32,
    pub transition_discontinuity_millionths: u32,
    pub correction: MotionCorrectionV1,
}

#[derive(Clone, Copy, Debug, PartialEq, Eq, Structural)]
pub struct MotionQualityMetricsV1 {
    pub sample_count: u64,
    pub feasible_rate_millionths: u32,
    pub fallback_rate_millionths: u32,
    pub mean_root_deviation_millionths: u32,
    pub mean_foot_slide_millionths: u32,
    pub required_contact_precision_millionths: u32,
    pub mean_transition_discontinuity_millionths: u32,
    pub hard_safety_violations: u32,
}

#[derive(Clone, Copy, Debug, PartialEq, Eq, Structural)]
pub struct MotionQualityComparisonV1 {
    pub baseline: MotionQualityMetricsV1,
    pub candidate: MotionQualityMetricsV1,
    pub improved: bool,
    pub hard_safety_preserved: bool,
}

/// `numerator / denominator` in millionths, capped at one; zero for an empty
/// denominator.
pub open spec fn rate_spec(numerator: u64, denominator: u64) -> int {
    if denominator == 0 {
        0
    } else {
        let scaled = if numerator * 1_000_000 > u64::MAX { u64::MAX as int } else { numerator * 1_000_000 };
        let q = scaled / (denominator as int);
        if q > 1_000_000 { 1_000_000 } else { q }
    }
}

pub fn rate(numerator: u64, denominator: u64) -> (r: u32)
    ensures
        r as int == rate_spec(numerator, denominator),
{
    if denominator == 0 {
        return 0;
    }
    let scaled = match numerator.checked_mul(1_000_000) {
        Some(v) => v,
        None => u64::MAX,
    };
    let q = scaled / denominator;
    if q > 1_000_000 {
        1_000_000
    } else {
        q as u32
    }
}

/// The sum of the first `n` values.
pub open spec fn sum_u32(values: Seq<u32>, n: nat) -> int
    decreases n,
{
    if n == 0 {
        0
    } else {
        sum_u32(values, (n - 1) as nat) + values[n - 1]
    }
}

/// The mean of the values, capped at the largest `u32`; zero when empty.
pub open spec fn mean_spec(values: Seq<u32>) -> int {
    if values.len() == 0 {
        0
    } else {
        let m = sum_u32(values, values.len()) / (values.len() as int);
        if m > u32::MAX { u32::MAX as int } else { m }
    }
}

proof fn lemma_sum_u32_monotone(values: Seq<u32>, m: nat, n: nat)
    requires
        m <= n <= values.len(),
    ensures
        0 <= sum_u32(values, m) <= sum_u32(values, n),
    decreases n,
{
    if n > m {
        lemma_sum_u32_monotone(values, m, (n - 1) as nat);
    } else {
        lemma_sum_u32_nonneg(values, m);
    }
}

proof fn lemma_sum_u32_nonneg(values: Seq<u32>, n: nat)
    requires
        n <= values.len(),
    ensures
        sum_u32(values, n) >= 0,
    decreases n,
{
    if n > 0 {
        lemma_sum_u32_nonneg(values, (n - 1) as nat);
    }
}

pub fn mean_u32(values: &[u32]) -> (r: u32)
    requires
        sum_u32(values@, values@.len()) <= u64::MAX,
    ensures
        r as int == mean_spec(values@),
{
    let mut count: u64 = 0;
    let mut sum: u64 = 0;
    let mut i: usize = 0;
    while i < values.len()
        invariant
            i <= values@.len(),
            count == i,
            sum == sum_u32(values@, i as nat),
            sum_u32(values@, values@.len()) <= u64::MAX,
        decreases values@.len() - i,
    {
        proof {
            lemma_sum_u32_monotone(values@, (i + 1) as nat, values@.len());
        }
        count = count + 1;
        sum = sum + values[i] as u64;
        i = i + 1;
    }
    if count == 0 {
        0
    } else {
        let m = sum / count;
        if m > u32::MAX as u64 {
            u32::MAX
        } else {
            m as u32
        }
    }
}

/// How many of the first `n` samples satisfy `p`.
pub open spec fn count_where(s: Seq<MotionQualitySampleV1>, p: spec_fn(MotionQualitySampleV1) -> bool, n: nat) -> nat
    decreases n,
{
    if n == 0 {
        0
    } else {
        count_where(s, p, (n - 1) as nat) + if p(s[n - 1]) { 1nat } else { 0nat }
    }
}

/// The sum of `f` over the first `n` samples.
pub open spec fn sum_of(s: Seq<MotionQualitySampleV1>, f: spec_fn(MotionQualitySampleV1) -> int, n: nat) -> int
    decreases n,
{
    if n == 0 {
        0
    } else {
        sum_of(s, f, (n - 1) as nat) + f(s[n - 1])
    }
}

pub open spec fn required_of(x: MotionQualitySampleV1) -> int {
    x.required_contacts as int
}

pub open spec fn observed_of(x: MotionQualitySampleV1) -> int {
    if x.observed_contacts < x.required_contacts {
        x.observed_contacts as int
    } else {
        x.required_contacts as int
    }
}

pub open spec fn root_of(x: MotionQualitySampleV1) -> int {
    x.root_deviation_millionths as int
}

pub open spec fn slide_of(x: MotionQualitySampleV1) -> int {
    x.foot_slide_millionths as int
}

pub open spec fn discontinuity_of(x: MotionQualitySampleV1) -> int {
    x.transition_discontinuity_millionths as int
}

/// The per-field sums of the samples fit in a `u64`.
pub open spec fn sample_sums_fit(s: Seq<MotionQualitySampleV1>) -> bool {
    &&& sum_of(s, |x: MotionQualitySampleV1| required_of(x), s.len()) <= u64::MAX
    &&& sum_of(s, |x: MotionQualitySampleV1| root_of(x), s.len()) <= u64::MAX
    &&& sum_of(s, |x: MotionQualitySampleV1| slide_of(x), s.len()) <= u64::MAX
    &&& sum_of(s, |x: MotionQualitySampleV1| discontinuity_of(x), s.len()) <= u64::MAX
}

/// A capped mean of per-sample values.
pub open spec fn mean_of(s: Seq<MotionQualitySampleV1>, f: spec_fn(MotionQualitySampleV1) -> int) -> int {
    if s.len() == 0 {
        0
    } else {
        let m = sum_of(s, f, s.len()) / (s.len() as int);
        if m > u32::MAX { u32::MAX as int } else { m }
    }
}

/// The summary of a set of motion-quality samples.
pub open spec fn motion_metrics(s: Seq<MotionQualitySampleV1>) -> MotionQualityMetricsV1 {
    if s.len() == 0 {
        MotionQualityMetricsV1 {
            sample_count: 0,
            feasible_rate_millionths: 0,
            fallback_rate_millionths: 0,
            mean_root_deviation_millionths: 0,
            mean_foot_slide_millionths: 0,
            required_contact_precision_millionths: 0,
            mean_transition_discontinuity_millionths: 0,
            hard_safety_violations: 0,
        }
    } else {
        let n = s.len() as u64;
        let feasible = count_where(s, |x: MotionQualitySampleV1| x.feasible, s.len()) as u64;
        let fallback = count_where(
            s,
            |x: MotionQualitySampleV1| x.correction == MotionCorrectionV1::FallbackClip,
            s.len(),
        ) as u64;
        let required = sum_of(s, |x: MotionQualitySampleV1| required_of(x), s.len());
        let observed = sum_of(s, |x: MotionQualitySampleV1| observed_of(x), s.len());
        MotionQualityMetricsV1 {
            sample_count: n,
            feasible_rate_millionths: rate_spec(feasible, n) as u32,
            fallback_rate_millionths: rate_spec(fallback, n) as u32,
            mean_root_deviation_millionths: mean_of(s, |x: MotionQualitySampleV1| root_of(x)) as u32,
            mean_foot_slide_millionths: mean_of(s, |x: MotionQualitySampleV1| slide_of(x)) as u32,
            required_contact_precision_millionths: if required == 0 {
                1_000_000
            } else {
                rate_spec(observed as u64, required as u64) as u32
            },
            mean_transition_discontinuity_millionths: mean_of(
                s,
                |x: MotionQualitySampleV1| discontinuity_of(x),
            ) as u32,
            hard_safety_violations: count_where(s, |x: MotionQualitySampleV1| !x.feasible, s.len()) as u32,
        }
    }
}

proof fn lemma_sum_of_monotone(s: Seq<MotionQualitySampleV1>, f: spec_fn(MotionQualitySampleV1) -> int, m: nat, n: nat)
    requires
        m <= n <= s.len(),
        forall|x: MotionQualitySampleV1| #[trigger] f(x) >= 0,
    ensures
        0 <= sum_of(s, f, m) <= sum_of(s, f, n),
    decreases n,
{
    if n > m {
        lemma_sum_of_monotone(s, f, m, (n - 1) as nat);
    } else {
        lemma_sum_of_nonneg(s, f, m);
    }
}

proof fn lemma_sum_of_nonneg(s: Seq<MotionQualitySampleV1>, f: spec_fn(MotionQualitySampleV1) -> int, n: nat)
    requires
        n <= s.len(),
        forall|x: MotionQualitySampleV1| #[trigger] f(x) >= 0,
    ensures
        sum_of(s, f, n) >= 0,
    decreases n,
{
    if n > 0 {
        lemma_sum_of_nonneg(s, f, (n - 1) as nat);
    }
}

proof fn lemma_observed_le_required(s: Seq<MotionQualitySampleV1>, n: nat)
    requires
        n <= s.len(),
    ensures
        0 <= sum_of(s, |x: MotionQualitySampleV1| observed_of(x), n) <= sum_of(
            s,
            |x: MotionQualitySampleV1| required_of(x),
            n,
        ),
    decreases n,
{
    if n > 0 {
        lemma_observed_le_required(s, (n - 1) as nat);
    }
}

proof fn lemma_count_le(s: Seq<MotionQualitySampleV1>, p: spec_fn(MotionQualitySampleV1) -> bool, n: nat)
    ensures
        count_where(s, p, n) <= n,
    decreases n,
{
    if n > 0 {
        lemma_count_le(s, p, (n - 1) as nat);
    }
}

impl MotionQualityMetricsV1 {
    pub fn from_samples(samples: &[MotionQualitySampleV1]) -> (m: Self)
        requires
            sample_sums_fit(samples@),
        ensures
            m == motion_metrics(samples@),
    {
        let n = samples.len();
        if n == 0 {
            return MotionQualityMetricsV1 {
                sample_count: 0,
                feasible_rate_millionths: 0,
                fallback_rate_millionths: 0,
                mean_root_deviation_millionths: 0,
                mean_foot_slide_millionths: 0,
                required_contact_precision_millionths: 0,
                mean_transition_discontinuity_millionths: 0,
                hard_safety_violations: 0,
            };
        }
        let ghost s = samples@;
        let mut feasible: u64 = 0;
        let mut fallback: u64 = 0;
        let mut infeasible: u64 = 0;
        let mut required: u64 = 0;
        let mut observed: u64 = 0;
        let mut root: u64 = 0;
        let mut slide: u64 = 0;
        let mut discontinuity: u64 = 0;
        let mut i: usize = 0;
        while i < n
            invariant
                n == s.len(),
                s == samples@,
                sample_sums_fit(s),
                i <= n,
                feasible == count_where(s, |x: MotionQualitySampleV1| x.feasible, i as nat),
                fallback == count_where(
                    s,
                    |x: MotionQualitySampleV1| x.correction == MotionCorrectionV1::FallbackClip,
                    i as nat,
                ),
                infeasible == count_where(s, |x: MotionQualitySampleV1| !x.feasible, i as nat),
                required == sum_of(s, |x: MotionQualitySampleV1| required_of(x), i as nat),
                observed == sum_of(s, |x: MotionQualitySampleV1| observed_of(x), i as nat),
                root == sum_of(s, |x: MotionQualitySampleV1| root_of(x), i as nat),
                slide == sum_of(s, |x: MotionQualitySampleV1| slide_of(x), i as nat),
                discontinuity == sum_of(s, |x: MotionQualitySampleV1| discontinuity_of(x), i as nat),
            decreases n - i,
        {
            let x = samples[i];
            proof {
                lemma_count_le(s, |x: MotionQualitySampleV1| x.feasible, i as nat);
                lemma_count_le(
                    s,
                    |x: MotionQualitySampleV1| x.correction == MotionCorrectionV1::FallbackClip,
                    i as nat,
                );
                lemma_count_le(s, |x: MotionQualitySampleV1| !x.feasible, i as nat);
                lemma_sum_of_monotone(s, |x: MotionQualitySampleV1| required_of(x), (i + 1) as nat, n as nat);
                lemma_sum_of_monotone(s, |x: MotionQualitySampleV1| root_of(x), (i + 1) as nat, n as nat);
                lemma_sum_of_monotone(s, |x: MotionQualitySampleV1| slide_of(x), (i + 1) as nat, n as nat);
                lemma_sum_of_monotone(s, |x: MotionQualitySampleV1| discontinuity_of(x), (i + 1) as nat, n as nat);
                lemma_observed_le_required(s, (i + 1) as nat);
            }
            if x.feasible {
                feasible = feasible + 1;
            } else {
                infeasible = infeasible + 1;
            }
            if x.correction == MotionCorrectionV1::FallbackClip {
                fallback = fallback + 1;
            }
            required = required + x.required_contacts as u64;
            let seen = if x.observed_contacts < x.required_contacts {
                x.observed_contacts
            } else {
                x.required_contacts
            };
            observed = observed + seen as u64;
            root = root + x.root_deviation_millionths as u64;
            slide = slide + x.foot_slide_millionths as u64;
            discontinuity = discontinuity + x.transition_discontinuity_millionths as u64;
            i = i + 1;
        }
        let count = n as u64;
        let mean_root = root / count;
        let mean_slide = slide / count;
        let mean_discontinuity = discontinuity / count;
        MotionQualityMetricsV1 {
            sample_count: count,
            feasible_rate_millionths: rate(feasible, count),
            fallback_rate_millionths: rate(fallback, count),
            mean_root_deviation_millionths: if mean_root > u32::MAX as u64 { u32::MAX } else { mean_root as u32 },
            mean_foot_slide_millionths: if mean_slide > u32::MAX as u64 { u32::MAX } else { mean_slide as u32 },
            required_contact_precision_millionths: if required == 0 {
                1_000_000
            } else {
                rate(observed, required)
            },
            mean_transition_discontinuity_millionths: if mean_discontinuity > u32::MAX as u64 {
                u32::MAX
            } else {
                mean_discontinuity as u32
            },
            hard_safety_violations: infeasible as u32,
        }
    }
}

/// The candidate keeps hard safety: no more infeasible samples and enough
/// contact precision.
pub open spec fn motion_safety_preserved(b: MotionQualityMetricsV1, c: MotionQualityMetricsV1, min_precision: u32) -> bool {
    c.hard_safety_violations <= b.hard_safety_violations && c.required_contact_precision_millionths
        >= min_precision
}

/// The candidate is safe, no worse on any measure, and strictly better on one.
pub open spec fn motion_improved(b: MotionQualityMetricsV1, c: MotionQualityMetricsV1, min_precision: u32) -> bool {
    motion_safety_preserved(b, c, min_precision) && c.feasible_rate_millionths >= b.feasible_rate_millionths
        && c.mean_root_deviation_millionths <= b.mean_root_deviation_millionths
        && c.mean_foot_slide_millionths <= b.mean_foot_slide_millionths
        && c.mean_transition_discontinuity_millionths <= b.mean_transition_discontinuity_millionths
        && (c.feasible_rate_millionths > b.feasible_rate_millionths || c.mean_root_deviation_millionths
        < b.mean_root_deviation_millionths || c.mean_foot_slide_millionths < b.mean_foot_slide_millionths
        || c.mean_transition_discontinuity_millionths < b.mean_transition_discontinuity_millionths)
}

pub fn compare_motion_quality(
    baseline_samples: &[MotionQualitySampleV1],
    candidate_samples: &[MotionQualitySampleV1],
    minimum_contact_precision_millionths: u32,
) -> (r: MotionQualityComparisonV1)
    requires
        sample_sums_fit(baseline_samples@),
        sample_sums_fit(candidate_samples@),
    ensures
        r.baseline == motion_metrics(baseline_samples@),
        r.candidate == motion_metrics(candidate_samples@),
        r.hard_safety_preserved == motion_safety_preserved(
            r.baseline,
            r.candidate,
            minimum_contact_precision_millionths,
        ),
        r.improved == motion_improved(r.baseline, r.candidate, minimum_contact_precision_millionths),
        r.hard_safety_preserved <==> r.candidate.hard_safety_violations <= r.baseline.hard_safety_violations
            && r.candidate.required_contact_precision_millionths >= minimum_contact_precision_millionths,
        r.improved ==> r.hard_safety_preserved && r.candidate.feasible_rate_millionths
            >= r.baseline.feasible_rate_millionths && r.candidate.mean_root_deviation_millionths
            <= r.baseline.mean_root_deviation_millionths && r.candidate.mean_foot_slide_millionths
            <= r.baseline.mean_foot_slide_millionths && r.candidate.mean_transition_discontinuity_millionths
            <= r.baseline.mean_transition_discontinuity_millionths,
{
    let baseline = MotionQualityMetricsV1::from_samples(baseline_samples);
    let candidate = MotionQualityMetricsV1::from_samples(candidate_samples);
    let hard_safety_preserved = candidate.hard_safety_violations <= baseline.hard_safety_violations
        && candidate.required_contact_precision_millionths >= minimum_contact_precision_millionths;
    let no_regression = candidate.feasible_rate_millionths >= baseline.feasible_rate_millionths
        && candidate.mean_root_deviation_millionths <= baseline.mean_root_deviation_millionths
        && candidate.mean_foot_slide_millionths <= baseline.mean_foot_slide_millionths
        && candidate.mean_transition_discontinuity_millionths
        <= baseline.mean_transition_discontinuity_millionths;
    let strict_improvement = candidate.feasible_rate_millionths > baseline.feasible_rate_millionths
        || candidate.mean_root_deviation_millionths < baseline.mean_root_deviation_millionths
        || candidate.mean_foot_slide_millionths < baseline.mean_foot_slide_millionths
        || candidate.mean_transition_discontinuity_millionths
        < baseline.mean_transition_discontinuity_millionths;
    MotionQualityComparisonV1 {
        baseline,
        candidate,
        improved: hard_safety_preserved && no_regression && strict_improvement,
        hard_safety_preserved,
    }
}

/// A comparison never reports an improvement that gives up hard safety.
pub proof fn lemma_improvement_implies_safety(
    b: MotionQualityMetricsV1,
    c: MotionQualityMetricsV1,
    min_precision: u32,
)
    ensures
        motion_improved(b, c, min_precision) ==> motion_safety_preserved(b, c, min_precision),
{
}

/// Comparing a summary with itself never reports an improvement.
pub proof fn lemma_no_self_improvement(m: MotionQualityMetricsV1, g: GroupReadabilityMetricsV1, min_precision: u32)
    ensures
        !motion_improved(m, m, min_precision),
        !group_improved(g, g),
{
}

/// Group readability: hard safety holds exactly when the candidate has no
/// more intrusions and no more missing members than the baseline; an
/// improvement is safe, worse on no measure, and never a tie; and two
/// summaries cannot each improve on the other.
pub proof fn lemma_group_comparison_laws(b: GroupReadabilityMetricsV1, c: GroupReadabilityMetricsV1)
    ensures
        group_safety_preserved(b, c) <==> c.intrusion_rate_millionths <= b.intrusion_rate_millionths
            && c.missing_member_rate_millionths <= b.missing_member_rate_millionths,
        c.missing_member_rate_millionths > b.missing_member_rate_millionths ==> !group_safety_preserved(b, c)
            && !group_improved(b, c),
        c.intrusion_rate_millionths > b.intrusion_rate_millionths ==> !group_safety_preserved(b, c)
            && !group_improved(b, c),
        group_improved(b, c) ==> c.split_rate_millionths <= b.split_rate_millionths && c.intrusion_rate_millionths
            <= b.intrusion_rate_millionths && c.missing_member_rate_millionths <= b.missing_member_rate_millionths
            && c.mean_separation_millionths <= b.mean_separation_millionths && c != b,
        !(group_improved(b, c) && group_improved(c, b)),
{
}

/// Motion quality: hard safety holds exactly when the candidate has no more
/// hard-safety violations and at least the required contact precision; an
/// improvement is safe and worse on no measure; and two summaries cannot
/// each improve on the other.
pub proof fn lemma_motion_comparison_laws(b: MotionQualityMetricsV1, c: MotionQualityMetricsV1, min_precision: u32)
    ensures
        motion_safety_preserved(b, c, min_precision) <==> c.hard_safety_violations <= b.hard_safety_violations
            && c.required_contact_precision_millionths >= min_precision,
        c.hard_safety_violations > b.hard_safety_violations ==> !motion_improved(b, c, min_precision),
        motion_improved(b, c, min_precision) ==> c.feasible_rate_millionths >= b.feasible_rate_millionths
            && c.mean_root_deviation_millionths <= b.mean_root_deviation_millionths && c.mean_foot_slide_millionths
            <= b.mean_foot_slide_millionths && c.mean_transition_discontinuity_millionths
            <= b.mean_transition_discontinuity_millionths,
        !(motion_improved(b, c, min_precision) && motion_improved(c, b, min_precision)),
{
}

/// A rate is a share in millionths, capped at one: nothing over an empty
/// denominator; and, while the scaled numerator fits, it is the full
/// million exactly when the numerator reaches the denominator, and otherwise
/// the share rounded down.
pub proof fn lemma_rate_laws(numerator: u64, denominator: u64)
    ensures
        denominator == 0 ==> rate_spec(numerator, denominator) == 0,
        0 <= rate_spec(numerator, denominator) <= 1_000_000,
        denominator > 0 && numerator >= denominator && numerator * 1_000_000 <= u64::MAX ==> rate_spec(
            numerator,
            denominator,
        ) == 1_000_000,
        denominator > 0 && numerator < denominator && numerator * 1_000_000 <= u64::MAX ==> {
            let r = rate_spec(numerator, denominator);
            &&& r < 1_000_000
            &&& r * denominator <= numerator * 1_000_000
            &&& numerator * 1_000_000 < (r + 1) * denominator
        },
{
    if denominator > 0 {
        let d = denominator as int;
        let scaled = if numerator * 1_000_000 > u64::MAX { u64::MAX as int } else { numerator * 1_000_000 };
        let q = scaled / d;
        vstd::arithmetic::div_mod::lemma_fundamental_div_mod(scaled, d);
        vstd::arithmetic::div_mod::lemma_mod_bound(scaled, d);
        assert(scaled >= 0);
        assert(q >= 0) by (nonlinear_arith)
            requires
                scaled == d * q + scaled % d,
                0 <= scaled % d < d,
                scaled >= 0,
        ;
        if numerator >= denominator && numerator * 1_000_000 <= u64::MAX {
            assert(scaled >= d * 1_000_000) by (nonlinear_arith)
                requires
                    numerator >= d,
                    scaled == numerator * 1_000_000,
            ;
            assert(q >= 1_000_000) by (nonlinear_arith)
                requires
                    scaled == d * q + scaled % d,
                    0 <= scaled % d < d,
                    scaled >= d * 1_000_000,
            ;
        }
        if numerator < denominator && numerator * 1_000_000 <= u64::MAX {
            assert(scaled < d * 1_000_000) by (nonlinear_arith)
                requires
                    numerator < d,
                    scaled == numerator * 1_000_000,
            ;
            assert(q < 1_000_000) by (nonlinear_arith)
                requires
                    scaled == d * q + scaled % d,
                    0 <= scaled % d,
                    scaled < d * 1_000_000,
                    d > 0,
            ;
            assert(q * d <= scaled && scaled < (q + 1) * d) by (nonlinear_arith)
                requires
                    scaled == d * q + scaled % d,
                    0 <= scaled % d < d,
            ;
        }
    }
}

/// Counting the samples that pass a test: at most all of them, all of them
/// exactly when every one passes, none exactly when none does.
pub proof fn lemma_count_where_extremes(s: Seq<MotionQualitySampleV1>, p: spec_fn(MotionQualitySampleV1) -> bool, n: nat)
    requires
        n <= s.len(),
    ensures
        count_where(s, p, n) <= n,
        count_where(s, p, n) == n <==> forall|i: int| 0 <= i < n ==> p(#[trigger] s[i]),
        count_where(s, p, n) == 0 <==> forall|i: int| 0 <= i < n ==> !p(#[trigger] s[i]),
    decreases n,
{
    if n > 0 {
        lemma_count_where_extremes(s, p, (n - 1) as nat);
    }
}

/// A summary of motion samples counts its samples, reports hard-safety
/// violations exactly when some sample is infeasible and as many as there
/// are samples exactly when none is feasible, and a full feasible rate
/// exactly when every sample is feasible.
pub proof fn lemma_motion_metrics_laws(s: Seq<MotionQualitySampleV1>)
    requires
        0 < s.len() <= u32::MAX,
    ensures
        motion_metrics(s).sample_count == s.len(),
        motion_metrics(s).hard_safety_violations == 0 <==> forall|i: int| 0 <= i < s.len() ==> (#[trigger] s[i]).feasible,
        motion_metrics(s).hard_safety_violations == s.len() <==> forall|i: int|
            0 <= i < s.len() ==> !(#[trigger] s[i]).feasible,
        motion_metrics(s).feasible_rate_millionths == 1_000_000 <==> forall|i: int|
            0 <= i < s.len() ==> (#[trigger] s[i]).feasible,
        motion_metrics(s).required_contact_precision_millionths <= 1_000_000,
{
    let n = s.len();
    let f = |x: MotionQualitySampleV1| x.feasible;
    let g = |x: MotionQualitySampleV1| !x.feasible;
    lemma_count_where_extremes(s, f, n);
    lemma_count_where_extremes(s, g, n);
    let k = count_where(s, f, n);
    lemma_rate_laws(k as u64, n as u64);
    assert(k * 1_000_000 <= u64::MAX) by (nonlinear_arith)
        requires
            k <= n,
            n <= u32::MAX,
    ;
    assert forall|i: int| 0 <= i < n implies (g(#[trigger] s[i]) <==> !f(s[i])) by {}
    let required = sum_of(s, |x: MotionQualitySampleV1| required_of(x), s.len());
    let observed = sum_of(s, |x: MotionQualitySampleV1| observed_of(x), s.len());
    lemma_rate_laws(observed as u64, required as u64);
}

} // verus!
