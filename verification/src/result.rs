//! Benchmark result types and regression analysis.
//!
//! Durations are carried everywhere as integer nanoseconds, so that results
//! round-trip exactly through persistence and regression comparison never
//! loses precision. A regression threshold is a fraction expressed in parts
//! per million (ppm): 50_000 ppm allows a benchmark to be 5% slower than its
//! baseline before it is classified as a regression.

use vstd::prelude::*;

verus! {

/// Threshold fraction, in parts per million, allowed before a result counts
/// as a regression. 50_000 ppm = 5%.
pub const DEFAULT_THRESHOLD_PPM: u64 = 50000;

/// One million: the denominator of a parts-per-million fraction.
pub const PPM: u64 = 1000000;

/// True when the sequence is sorted in ascending order.
pub open spec fn sorted_asc(s: Seq<u64>) -> bool {
    forall|i: int, j: int| 0 <= i <= j < s.len() ==> s[i] <= s[j]
}

/// Minimum of a run sequence, or `dflt` when the sequence is empty.
pub open spec fn min_of_runs(s: Seq<u64>, dflt: u64) -> u64
    decreases s.len(),
{
    if s.len() == 0 {
        dflt
    } else {
        let rest = min_of_runs(s.drop_last(), dflt);
        if s.len() == 1 {
            s.last()
        } else if s.last() < rest {
            s.last()
        } else {
            rest
        }
    }
}

/// Maximum of a run sequence, or `dflt` when the sequence is empty.
pub open spec fn max_of_runs(s: Seq<u64>, dflt: u64) -> u64
    decreases s.len(),
{
    if s.len() == 0 {
        dflt
    } else {
        let rest = max_of_runs(s.drop_last(), dflt);
        if s.len() == 1 {
            s.last()
        } else if s.last() > rest {
            s.last()
        } else {
            rest
        }
    }
}

/// Exact regression criterion over mathematical integers: the current
/// duration is more than `1 + threshold` times the baseline duration.
pub open spec fn regression_spec(current_ns: u64, baseline_ns: u64, threshold_ppm: u64) -> bool {
    (current_ns as int) * (PPM as int) > (baseline_ns as int) * (PPM as int + threshold_ppm as int)
}

/// Ratio current/baseline in parts per million, rounded down and clamped to
/// `u64::MAX`; a zero baseline is treated as an unbounded slowdown.
pub open spec fn ratio_ppm_spec(current_ns: u64, baseline_ns: u64) -> u64 {
    if baseline_ns == 0 {
        u64::MAX
    } else {
        let q = (current_ns as int) * (PPM as int) / (baseline_ns as int);
        if q > u64::MAX as int {
            u64::MAX
        } else {
            q as u64
        }
    }
}

/// Result of a single benchmark.
pub struct BenchResult {
    /// Full name including suite: "suite/benchmark".
    pub name: String,
    /// Representative duration in nanoseconds (median of `all_runs` when
    /// measured runs exist).
    pub duration: u64,
    /// Bytes processed per run, for throughput reporting.
    pub bytes: Option<u64>,
    /// Elements processed per run, for throughput reporting.
    pub elements: Option<u64>,
    /// All measured run durations in nanoseconds, sorted ascending.
    pub all_runs: Vec<u64>,
    /// Custom tags, in insertion order with unique keys.
    pub tags: Vec<(String, String)>,
}

impl BenchResult {
    /// The measured runs are sorted and the reported duration is the upper
    /// median: the element at index `len / 2`.
    pub open spec fn wf(self) -> bool {
        &&& sorted_asc(self.all_runs@)
        &&& self.all_runs@.len() > 0 ==> self.duration == self.all_runs@[self.all_runs@.len()
            as int / 2]
    }

    /// Minimum duration across all runs, or the representative duration when
    /// no individual runs were kept.
    pub fn min_duration(&self) -> (r: u64)
        ensures
            r == min_of_runs(self.all_runs@, self.duration),
    {
        let mut best: u64 = self.duration;
        let mut i: usize = 0;
        while i < self.all_runs.len()
            invariant
                0 <= i <= self.all_runs@.len(),
                best == if i == 0 {
                    self.duration
                } else {
                    min_of_runs(self.all_runs@.take(i as int), self.duration)
                },
            decreases self.all_runs@.len() - i,
        {
            let d = self.all_runs[i];
            if i == 0 || d < best {
                best = d;
            }
            proof {
                assert(self.all_runs@.take(i + 1).drop_last() =~= self.all_runs@.take(i as int));
                assert(self.all_runs@.take(i + 1).last() == self.all_runs@[i as int]);
            }
            i = i + 1;
        }
        proof {
            assert(self.all_runs@.take(self.all_runs@.len() as int) =~= self.all_runs@);
        }
        best
    }

    /// Maximum duration across all runs, or the representative duration when
    /// no individual runs were kept.
    pub fn max_duration(&self) -> (r: u64)
        ensures
            r == max_of_runs(self.all_runs@, self.duration),
    {
        let mut best: u64 = self.duration;
        let mut i: usize = 0;
        while i < self.all_runs.len()
            invariant
                0 <= i <= self.all_runs@.len(),
                best == if i == 0 {
                    self.duration
                } else {
                    max_of_runs(self.all_runs@.take(i as int), self.duration)
                },
            decreases self.all_runs@.len() - i,
        {
            let d = self.all_runs[i];
            if i == 0 || d > best {
                best = d;
            }
            proof {
                assert(self.all_runs@.take(i + 1).drop_last() =~= self.all_runs@.take(i as int));
                assert(self.all_runs@.take(i + 1).last() == self.all_runs@[i as int]);
            }
            i = i + 1;
        }
        proof {
            assert(self.all_runs@.take(self.all_runs@.len() as int) =~= self.all_runs@);
        }
        best
    }

    /// Ratio of this result's duration to the baseline's, in parts per
    /// million, rounded down.
    pub fn compare(&self, baseline: &BenchResult) -> (r: u64)
        ensures
            r == ratio_ppm_spec(self.duration, baseline.duration),
    {
        ratio_ppm(self.duration, baseline.duration)
    }

    /// True when this result is more than `threshold_ppm` slower than the
    /// baseline.
    pub fn is_regression(&self, baseline: &BenchResult, threshold_ppm: u64) -> (r: bool)
        ensures
            r == regression_spec(self.duration, baseline.duration, threshold_ppm),
    {
        regression_check(self.duration, baseline.duration, threshold_ppm)
    }
}

/// Exact executable form of `ratio_ppm_spec`.
pub fn ratio_ppm(current_ns: u64, baseline_ns: u64) -> (r: u64)
    ensures
        r == ratio_ppm_spec(current_ns, baseline_ns),
{
    if baseline_ns == 0 {
        u64::MAX
    } else {
        proof {
            assert((current_ns as int) * (PPM as int) <= (u64::MAX as int) * (PPM as int))
                by (nonlinear_arith)
                requires
                    current_ns <= u64::MAX,
            ;
        }
        let q: u128 = (current_ns as u128) * (PPM as u128) / (baseline_ns as u128);
        if q > u64::MAX as u128 {
            u64::MAX
        } else {
            q as u64
        }
    }
}

/// Exact executable form of `regression_spec`.
pub fn regression_check(current_ns: u64, baseline_ns: u64, threshold_ppm: u64) -> (r: bool)
    ensures
        r == regression_spec(current_ns, baseline_ns, threshold_ppm),
{
    proof {
        assert((current_ns as int) * (PPM as int) <= (u64::MAX as int) * (PPM as int))
            by (nonlinear_arith)
            requires
                current_ns <= u64::MAX,
        ;
    }
    let lhs: u128 = (current_ns as u128) * (PPM as u128);
    let factor: u128 = (PPM as u128) + (threshold_ppm as u128);
    match (baseline_ns as u128).checked_mul(factor) {
        Some(rhs) => lhs > rhs,
        None => {
            proof {
                assert(lhs < (baseline_ns as int) * (factor as int)) by (nonlinear_arith)
                    requires
                        lhs == (current_ns as int) * (PPM as int),
                        current_ns <= u64::MAX,
                        (baseline_ns as int) * (factor as int) > u128::MAX as int,
                ;
            }
            false
        },
    }
}

/// Results for an entire benchmark suite.
pub struct SuiteResult {
    /// Suite name.
    pub suite: String,
    /// Individual benchmark results, in execution order.
    pub results: Vec<BenchResult>,
    /// Total suite duration in nanoseconds.
    pub total_duration: u64,
    /// Timestamp marker recorded when the suite finished.
    pub started_at: String,
    /// Number of measured runs per benchmark.
    pub runs: u64,
    /// Number of warmup runs per benchmark.
    pub warmup_runs: u64,
    /// Revision id (such as a source-control hash), when available.
    pub git_sha: Option<String>,
    /// Custom metadata, in insertion order with unique keys.
    pub metadata: Vec<(String, String)>,
}

/// Index of the last result in `s` whose name is `name`, or -1 when none
/// matches. The last match wins, mirroring how a later entry shadows an
/// earlier one of the same name during comparison.
pub open spec fn last_index_of_name(s: Seq<BenchResult>, name: Seq<char>) -> int
    decreases s.len(),
{
    if s.len() == 0 {
        -1
    } else if s.last().name@ == name {
        s.len() - 1
    } else {
        last_index_of_name(s.drop_last(), name)
    }
}

/// Whether the current result at index `i` regresses against the baseline:
/// a baseline entry of the same name exists and the exact integer regression
/// criterion holds against the last such entry.
pub open spec fn regresses_at(
    current: Seq<BenchResult>,
    baseline: Seq<BenchResult>,
    i: int,
    threshold_ppm: u64,
) -> bool {
    let j = last_index_of_name(baseline, current[i].name@);
    &&& 0 <= j
    &&& regression_spec(current[i].duration, baseline[j].duration, threshold_ppm)
}

/// The last matching index is always inside the sequence, and the entry
/// there carries the looked-up name.
pub proof fn lemma_last_index_of_name(s: Seq<BenchResult>, name: Seq<char>)
    ensures
        -1 <= last_index_of_name(s, name) < s.len(),
        last_index_of_name(s, name) >= 0 ==> s[last_index_of_name(s, name)].name@ == name,
    decreases s.len(),
{
    if s.len() > 0 && s.last().name@ != name {
        lemma_last_index_of_name(s.drop_last(), name);
    }
}

impl SuiteResult {
    /// Index of the last result named `name`, or `None`.
    pub fn find_by_name(&self, name: &String) -> (r: Option<usize>)
        ensures
            match r {
                Some(j) => j == last_index_of_name(self.results@, name@),
                None => last_index_of_name(self.results@, name@) == -1,
            },
    {
        find_last_by_name(&self.results, name)
    }

    /// Find regressions against a baseline suite.
    ///
    /// Returns `(index, ratio_ppm)` pairs in current-suite order: one pair
    /// for each result that is more than `threshold_ppm` slower than the
    /// baseline entry of the same name. Results without a baseline entry of
    /// the same name are not scored.
    pub fn find_regressions(&self, baseline: &SuiteResult, threshold_ppm: u64) -> (r: Vec<
        (usize, u64),
    >)
        ensures
            forall|k: int, l: int| 0 <= k < l < r@.len() ==> r@[k].0 < r@[l].0,
            forall|k: int|
                0 <= k < r@.len() ==> {
                    let i = #[trigger] r@[k].0 as int;
                    &&& i < self.results@.len()
                    &&& regresses_at(self.results@, baseline.results@, i, threshold_ppm)
                    &&& r@[k].1 == ratio_ppm_spec(
                        self.results@[i].duration,
                        baseline.results@[last_index_of_name(
                            baseline.results@,
                            self.results@[i].name@,
                        )].duration,
                    )
                },
            forall|i: int|
                0 <= i < self.results@.len() && regresses_at(
                    self.results@,
                    baseline.results@,
                    i,
                    threshold_ppm,
                ) ==> exists|k: int| 0 <= k < r@.len() && r@[k].0 == i,
    {
        let mut out: Vec<(usize, u64)> = Vec::new();
        let mut i: usize = 0;
        while i < self.results.len()
            invariant
                0 <= i <= self.results@.len(),
                forall|k: int, l: int| 0 <= k < l < out@.len() ==> out@[k].0 < out@[l].0,
                forall|k: int| 0 <= k < out@.len() ==> out@[k].0 < i,
                forall|k: int|
                    0 <= k < out@.len() ==> {
                        let ii = #[trigger] out@[k].0 as int;
                        &&& ii < self.results@.len()
                        &&& regresses_at(self.results@, baseline.results@, ii, threshold_ppm)
                        &&& out@[k].1 == ratio_ppm_spec(
                            self.results@[ii].duration,
                            baseline.results@[last_index_of_name(
                                baseline.results@,
                                self.results@[ii].name@,
                            )].duration,
                        )
                    },
                forall|ii: int|
                    0 <= ii < i && regresses_at(
                        self.results@,
                        baseline.results@,
                        ii,
                        threshold_ppm,
                    ) ==> exists|k: int| 0 <= k < out@.len() && out@[k].0 == ii,
            decreases self.results@.len() - i,
        {
            let cur = &self.results[i];
            proof {
                lemma_last_index_of_name(baseline.results@, cur.name@);
            }
            match find_last_by_name(&baseline.results, &cur.name) {
                Some(j) => {
                    let base = &baseline.results[j];
                    if regression_check(cur.duration, base.duration, threshold_ppm) {
                        let ratio = ratio_ppm(cur.duration, base.duration);
                        let ghost pre = out@;
                        out.push((i, ratio));
                        proof {
                            assert forall|ii: int|
                                0 <= ii < i + 1 && regresses_at(
                                    self.results@,
                                    baseline.results@,
                                    ii,
                                    threshold_ppm,
                                ) implies exists|k: int|
                                0 <= k < out@.len() && out@[k].0 == ii by {
                                if ii == i as int {
                                    assert(out@[out@.len() - 1].0 == ii);
                                } else {
                                    let k0 = choose|k: int|
                                        0 <= k < pre.len() && pre[k].0 == ii;
                                    assert(out@[k0].0 == ii);
                                }
                            }
                        }
                    } else {
                        proof {
                            assert(!regresses_at(
                                self.results@,
                                baseline.results@,
                                i as int,
                                threshold_ppm,
                            ));
                        }
                    }
                },
                None => {
                    proof {
                        assert(!regresses_at(
                            self.results@,
                            baseline.results@,
                            i as int,
                            threshold_ppm,
                        ));
                    }
                },
            }
            i = i + 1;
        }
        out
    }
}

/// Index of the last entry in `results` named `name`, or `None`.
pub fn find_last_by_name(results: &Vec<BenchResult>, name: &String) -> (r: Option<usize>)
    ensures
        match r {
            Some(j) => j == last_index_of_name(results@, name@) && j < results@.len(),
            None => last_index_of_name(results@, name@) == -1,
        },
{
    let mut found: Option<usize> = None;
    let mut i: usize = 0;
    while i < results.len()
        invariant
            0 <= i <= results@.len(),
            match found {
                Some(j) => j == last_index_of_name(results@.take(i as int), name@),
                None => last_index_of_name(results@.take(i as int), name@) == -1,
            },
        decreases results@.len() - i,
    {
        proof {
            assert(results@.take(i + 1).drop_last() =~= results@.take(i as int));
            assert(results@.take(i + 1).last() == results@[i as int]);
        }
        if results[i].name.eq(name) {
            found = Some(i);
        }
        i = i + 1;
    }
    proof {
        assert(results@.take(results@.len() as int) =~= results@);
        lemma_last_index_of_name(results@, name@);
    }
    found
}

} // verus!
