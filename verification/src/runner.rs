//! The benchmark runner: warmup, measured runs, and median aggregation.

use vstd::prelude::*;
use vstd::string::*;
use crate::clock::{elapsed_ns_since, instant_now, now_unix_millis};
use crate::config::BenchRunnerConfig;
use crate::context::StressContext;
use crate::glob::{contains_substring, is_substring};
use crate::result::{sorted_asc, BenchResult, SuiteResult};
use crate::text::u64_to_string;

verus! {

/// Which kind of sink a suite reports to; the output itself happens outside
/// the runner.
pub enum SinkConfig {
    /// One complete line per benchmark on the console.
    Console { show_all_runs: bool },
    /// Persisted suite results plus a human-readable summary.
    Json { output_dir: String },
    /// Annotations for a CI environment.
    CiAnnotations { threshold_ppm: u64 },
}

/// Why a benchmark run was rejected.
#[derive(Debug)]
pub enum RunError {
    /// A measured iteration completed without recording a duration.
    ProtocolViolation,
}

impl RunError {
    /// A human-readable description of the error.
    pub fn describe(&self) -> (r: &'static str)
        ensures
            r@ == "benchmark did not record a duration; every benchmark must measure exactly one operation"@,
    {
        "benchmark did not record a duration; every benchmark must measure exactly one operation"
    }
}

/// First index in `m` whose key is `k`, or -1 when the key is absent.
pub open spec fn first_index_of_key(m: Seq<(String, String)>, k: Seq<char>) -> int
    decreases m.len(),
{
    if m.len() == 0 {
        -1
    } else if m[0].0@ == k {
        0
    } else {
        let rest = first_index_of_key(m.drop_first(), k);
        if rest == -1 {
            -1
        } else {
            rest + 1
        }
    }
}

/// The first matching index is inside the sequence, carries the key, and
/// nothing before it does.
pub proof fn lemma_first_index_of_key(m: Seq<(String, String)>, k: Seq<char>)
    ensures
        -1 <= first_index_of_key(m, k) < m.len(),
        first_index_of_key(m, k) >= 0 ==> m[first_index_of_key(m, k)].0@ == k,
        first_index_of_key(m, k) >= 0 ==> forall|t: int|
            0 <= t < first_index_of_key(m, k) ==> m[t].0@ != k,
        first_index_of_key(m, k) == -1 ==> forall|t: int| 0 <= t < m.len() ==> m[t].0@ != k,
    decreases m.len(),
{
    if m.len() > 0 && m[0].0@ != k {
        lemma_first_index_of_key(m.drop_first(), k);
        assert forall|t: int| 1 <= t < m.len() implies m.drop_first()[t - 1] == m[t] by {}
    }
}

/// The sequence after a last-write-wins update of `key` to `value`: the
/// value is replaced in place when the key is present, appended otherwise.
pub open spec fn upsert_spec(
    m: Seq<(String, String)>,
    key: String,
    value: String,
) -> Seq<(String, String)> {
    let j = first_index_of_key(m, key@);
    if j >= 0 {
        m.update(j, (key, value))
    } else {
        m.push((key, value))
    }
}

/// Insert or update a key/value pair with last-write-wins semantics,
/// preserving first-insertion order.
#[verifier::loop_isolation(false)]
pub fn upsert_pair(m: &mut Vec<(String, String)>, key: String, value: String)
    ensures
        final(m)@ == upsert_spec(old(m)@, key, value),
{
    proof {
        lemma_first_index_of_key(old(m)@, key@);
    }
    let mut i: usize = 0;
    while i < m.len()
        invariant
            0 <= i <= m@.len(),
            *m == *old(m),
            forall|t: int| 0 <= t < i ==> m@[t].0@ != key@,
        decreases m@.len() - i,
    {
        if m[i].0.eq(&key) {
            proof {
                assert(first_index_of_key(old(m)@, key@) == i as int);
            }
            m.remove(i);
            m.insert(i, (key, value));
            proof {
                assert(m@ =~= old(m)@.update(i as int, (key, value)));
            }
            return;
        }
        i = i + 1;
    }
    m.push((key, value));
    proof {
        assert(first_index_of_key(old(m)@, key@) == -1);
    }
}

/// Sort a duration vector ascending by repeatedly inserting each element
/// before the first strictly greater one; the contents are preserved as a
/// multiset.
#[verifier::loop_isolation(false)]
pub fn sort_durations(v: &mut Vec<u64>)
    ensures
        sorted_asc(final(v)@),
        final(v)@.to_multiset() == old(v)@.to_multiset(),
        final(v)@.len() == old(v)@.len(),
{
    let mut out: Vec<u64> = Vec::new();
    let mut i: usize = 0;
    proof {
        broadcast use vstd::seq_lib::group_to_multiset_ensures;
    }
    while i < v.len()
        invariant
            0 <= i <= v@.len(),
            *v == *old(v),
            sorted_asc(out@),
            out@.len() == i,
            out@.to_multiset() == v@.take(i as int).to_multiset(),
        decreases v@.len() - i,
    {
        let x = v[i];
        let pos = insertion_point(&out, x);
        let ghost pre = out@;
        out.insert(pos, x);
        proof {
            broadcast use vstd::seq_lib::group_to_multiset_ensures;

            assert(v@.take(i + 1).drop_last() =~= v@.take(i as int));
            assert(v@.take(i + 1) =~= v@.take(i as int).push(v@[i as int]));
            lemma_insert_multiset(pre, pos as int, x);
            assert forall|a: int, b: int| 0 <= a <= b < out@.len() implies out@[a] <= out@[b] by {
                if b < pos {
                } else if a < pos && b == pos {
                    assert(out@[a] == pre[a]);
                } else if a < pos && b > pos {
                    assert(out@[b] == pre[b - 1]);
                } else if a == pos && b > pos {
                    assert(out@[b] == pre[b - 1]);
                } else if a > pos {
                    assert(out@[a] == pre[a - 1] && out@[b] == pre[b - 1]);
                }
            }
        }
        i = i + 1;
    }
    proof {
        assert(v@.take(v@.len() as int) =~= v@);
    }
    *v = out;
}

/// Inserting at `pos` adds exactly `x` to the multiset of a sequence.
pub proof fn lemma_insert_multiset<A>(s: Seq<A>, pos: int, x: A)
    requires
        0 <= pos <= s.len(),
    ensures
        s.insert(pos, x).to_multiset() == s.to_multiset().insert(x),
{
    broadcast use vstd::seq_lib::group_to_multiset_ensures;

    let t = s.insert(pos, x);
    assert(t.remove(pos) =~= s);
    assert(t[pos] == x);
    assert(t.remove(pos).to_multiset() =~= t.to_multiset().remove(t[pos]));
    assert(t.contains(x));
    assert(t.to_multiset().count(x) > 0);
    assert(t.to_multiset().remove(x).insert(x) =~= t.to_multiset());
}

/// Whether a benchmark of this name runs under the configured name filter:
/// with a filter set, only names containing it as a substring run.
pub open spec fn should_run_spec(config: BenchRunnerConfig, name: Seq<char>) -> bool {
    match config.filter {
        Some(f) => is_substring(name, f@),
        None => true,
    }
}

/// A context as every iteration receives it: nothing recorded yet.
pub open spec fn fresh_context(c: StressContext) -> bool {
    &&& c.duration is None
    &&& c.bytes is None
    &&& c.elements is None
    &&& c.tags@.len() == 0
}

/// `out` is a possible outcome of running the benchmark body once on a
/// fresh context.
pub open spec fn iteration_output<F: Fn(StressContext) -> StressContext>(
    f: F,
    out: StressContext,
) -> bool {
    exists|cin: StressContext| fresh_context(cin) && #[trigger] call_ensures(f, (cin,), out)
}

/// The benchmark body can finish an iteration without recording a duration.
pub open spec fn violating_output<F: Fn(StressContext) -> StressContext>(f: F) -> bool {
    exists|cin: StressContext, cout: StressContext|
        fresh_context(cin) && #[trigger] call_ensures(f, (cin,), cout) && cout.duration is None
}

/// The recorded duration of an iteration outcome.
pub open spec fn duration_of(c: StressContext) -> u64 {
    match c.duration {
        Some(d) => d,
        None => 0,
    }
}

/// The last set value across per-iteration values, in iteration order: a
/// later iteration that sets a value wins, one that sets nothing keeps the
/// earlier value.
pub open spec fn last_some(vals: Seq<Option<u64>>) -> Option<u64>
    decreases vals.len(),
{
    if vals.len() == 0 {
        None
    } else {
        match vals.last() {
            Some(v) => Some(v),
            None => last_some(vals.drop_last()),
        }
    }
}

/// `m` after applying every pair of `tags` in order, last write per key
/// winning.
pub open spec fn upsert_all(
    m: Seq<(String, String)>,
    tags: Seq<(String, String)>,
) -> Seq<(String, String)>
    decreases tags.len(),
{
    if tags.len() == 0 {
        m
    } else {
        upsert_spec(upsert_all(m, tags.drop_last()), tags.last().0, tags.last().1)
    }
}

/// The tag map after merging every iteration's tags, in iteration order.
pub open spec fn fold_tag_merges(outs: Seq<StressContext>) -> Seq<(String, String)>
    decreases outs.len(),
{
    if outs.len() == 0 {
        Seq::empty()
    } else {
        upsert_all(fold_tag_merges(outs.drop_last()), outs.last().tags@)
    }
}

/// The appended result is built from `runs` actual outcomes of the
/// benchmark body, each run on a fresh context and each recording a
/// duration: the stored runs are exactly those durations as a multiset, the
/// byte and element counts are the last ones set across iterations, and the
/// tags are the last-write-wins merge of every iteration's tags. Warmup
/// iterations contribute nothing.
pub open spec fn aggregated_from<F: Fn(StressContext) -> StressContext>(
    f: F,
    runs: nat,
    r: BenchResult,
) -> bool {
    exists|outs: Seq<StressContext>|
        {
            &&& outs.len() == runs
            &&& (forall|i: int| 0 <= i < outs.len() ==> iteration_output(f, #[trigger] outs[i]))
            &&& (forall|i: int| 0 <= i < outs.len() ==> (#[trigger] outs[i]).duration is Some)
            &&& r.all_runs@.to_multiset() == outs.map_values(
                |c: StressContext| duration_of(c),
            ).to_multiset()
            &&& r.bytes == last_some(outs.map_values(|c: StressContext| c.bytes))
            &&& r.elements == last_some(outs.map_values(|c: StressContext| c.elements))
            &&& r.tags@ == fold_tag_merges(outs)
        }
}

/// The benchmark runner for a suite of single-shot measurements.
///
/// Each benchmark body receives a fresh `StressContext` per iteration and
/// must record exactly one duration; the runner reports the median of the
/// measured iterations.
pub struct BenchRunner {
    /// Suite name, used as the prefix of every benchmark name.
    pub suite: String,
    /// Resolved configuration.
    pub config: BenchRunnerConfig,
    /// Results gathered so far, in execution order.
    pub results: Vec<BenchResult>,
    /// Sinks the suite reports to; delivery happens outside the runner.
    pub sinks: Vec<SinkConfig>,
    /// Suite metadata, in insertion order with unique keys.
    pub metadata: Vec<(String, String)>,
    /// Monotonic clock reading taken when the runner was created.
    pub suite_start: std::time::Instant,
}

impl BenchRunner {
    /// A runner with the built-in default configuration.
    pub fn new(suite: &str) -> (r: Self)
        ensures
            r.suite@ == suite@,
            crate::config::default_config_spec(r.config),
            r.results@.len() == 0,
            r.metadata@.len() == 0,
    {
        Self::with_config(suite, BenchRunnerConfig::new())
    }

    /// A runner with an explicit configuration; reports to a console sink
    /// and a persisting sink by default.
    pub fn with_config(suite: &str, config: BenchRunnerConfig) -> (r: Self)
        ensures
            r.suite@ == suite@,
            r.config == config,
            r.results@.len() == 0,
            r.metadata@.len() == 0,
            r.sinks@.len() == 2,
            r.sinks@[0] == (SinkConfig::Console { show_all_runs: false }),
            (r.sinks@[1] matches SinkConfig::Json { output_dir } && output_dir@
                == config.output_dir@),
    {
        let out_dir = config.output_dir.clone();
        let mut sinks: Vec<SinkConfig> = Vec::new();
        sinks.push(SinkConfig::Console { show_all_runs: false });
        sinks.push(SinkConfig::Json { output_dir: out_dir });
        BenchRunner {
            suite: String::from_str(suite),
            config,
            results: Vec::new(),
            sinks,
            metadata: Vec::new(),
            suite_start: instant_now(),
        }
    }

    /// Add or update a metadata entry recorded with the suite result.
    pub fn metadata(&mut self, key: String, value: String)
        ensures
            final(self).metadata@ == upsert_spec(old(self).metadata@, key, value),
            final(self).suite == old(self).suite,
            final(self).config == old(self).config,
            final(self).results == old(self).results,
            final(self).sinks == old(self).sinks,
    {
        upsert_pair(&mut self.metadata, key, value);
    }

    /// Replace the sinks with a custom set.
    pub fn reporters(&mut self, reporters: Vec<SinkConfig>)
        ensures
            final(self).sinks == reporters,
            final(self).suite == old(self).suite,
            final(self).config == old(self).config,
            final(self).results == old(self).results,
            final(self).metadata == old(self).metadata,
    {
        self.sinks = reporters;
    }

    /// Add one more sink.
    pub fn add_reporter(&mut self, reporter: SinkConfig)
        ensures
            final(self).sinks@ == old(self).sinks@.push(reporter),
            final(self).suite == old(self).suite,
            final(self).config == old(self).config,
            final(self).results == old(self).results,
            final(self).metadata == old(self).metadata,
    {
        self.sinks.push(reporter);
    }

    /// Whether a benchmark of this name runs under the configured filter.
    pub fn should_run(&self, name: &str) -> (r: bool)
        ensures
            r == should_run_spec(self.config, name@),
    {
        match &self.config.filter {
            Some(f) => contains_substring(name, f.as_str()),
            None => true,
        }
    }

    /// Run one benchmark: `warmup_runs` discarded iterations, then `runs`
    /// measured iterations, each on a fresh context. The appended result
    /// carries the measured durations sorted ascending, with the median as
    /// its representative duration. A measured iteration that records no
    /// duration is a protocol violation: the run is rejected and no result
    /// is recorded.
    #[verifier::loop_isolation(false)]
    pub fn run<F: Fn(StressContext) -> StressContext>(&mut self, name: &str, f: F) -> (r: Result<
        (),
        RunError,
    >)
        requires
            forall|ctx: StressContext| #[trigger] call_requires(f, (ctx,)),
            old(self).config.runs >= 1,
        ensures
            final(self).suite == old(self).suite,
            final(self).config == old(self).config,
            final(self).sinks == old(self).sinks,
            final(self).metadata == old(self).metadata,
            !should_run_spec(old(self).config, name@) ==> r is Ok && final(self).results == old(
                self,
            ).results,
            r is Err ==> final(self).results == old(self).results && r == Err::<(), RunError>(
                RunError::ProtocolViolation,
            ) && violating_output(f),
            (should_run_spec(old(self).config, name@) && r is Ok) ==> {
                &&& final(self).results@.len() == old(self).results@.len() + 1
                &&& final(self).results@.drop_last() == old(self).results@
                &&& final(self).results@.last().name@ == old(self).suite@ + "/"@ + name@
                &&& final(self).results@.last().wf()
                &&& final(self).results@.last().all_runs@.len() == old(self).config.runs
                &&& aggregated_from(f, old(self).config.runs as nat, final(self).results@.last())
            },
            (should_run_spec(old(self).config, name@) && (forall|c1: StressContext,
                c2: StressContext|
                call_ensures(f, (c1,), c2) ==> c2.duration is Some)) ==> r is Ok,
    {
        proof {
            reveal_strlit("/");
        }
        if !self.should_run(name) {
            return Ok(());
        }
        let mut w: usize = 0;
        while w < self.config.warmup_runs
            invariant
                *self == *old(self),
            decreases self.config.warmup_runs - w,
        {
            let ctx = StressContext::new();
            let _ = f(ctx);
            w = w + 1;
        }
        let mut durations: Vec<u64> = Vec::new();
        let mut bytes: Option<u64> = None;
        let mut elements: Option<u64> = None;
        let mut tags: Vec<(String, String)> = Vec::new();
        let ghost mut outs: Seq<StressContext> = Seq::empty();
        let runs = self.config.runs;
        let mut k: usize = 0;
        proof {
            assert(tags@ =~= fold_tag_merges(outs));
            assert(durations@ =~= outs.map_values(|c: StressContext| duration_of(c)));
            assert(outs.map_values(|c: StressContext| c.bytes) =~= Seq::<Option<u64>>::empty());
            assert(outs.map_values(|c: StressContext| c.elements) =~= Seq::<
                Option<u64>,
            >::empty());
        }
        while k < runs
            invariant
                *self == *old(self),
                0 <= k <= runs,
                outs.len() == k,
                durations@ == outs.map_values(|c: StressContext| duration_of(c)),
                forall|i: int| 0 <= i < outs.len() ==> iteration_output(f, #[trigger] outs[i]),
                forall|i: int| 0 <= i < outs.len() ==> (#[trigger] outs[i]).duration is Some,
                bytes == last_some(outs.map_values(|c: StressContext| c.bytes)),
                elements == last_some(outs.map_values(|c: StressContext| c.elements)),
                tags@ == fold_tag_merges(outs),
            decreases runs - k,
        {
            let ctx = StressContext::new();
            let ghost gin = ctx;
            let out = f(ctx);
            let ghost gout = out;
            proof {
                assert(fresh_context(gin));
                assert(call_ensures(f, (gin,), gout));
            }
            match out.duration {
                Some(d) => durations.push(d),
                None => {
                    proof {
                        assert(violating_output(f));
                    }
                    return Err(RunError::ProtocolViolation);
                },
            }
            bytes = match out.bytes {
                Some(b) => Some(b),
                None => bytes,
            };
            elements = match out.elements {
                Some(e) => Some(e),
                None => elements,
            };
            let ghost pre_merge = tags@;
            let mut ti: usize = 0;
            proof {
                assert(gout.tags@.take(0) =~= Seq::<(String, String)>::empty());
            }
            while ti < out.tags.len()
                invariant
                    *self == *old(self),
                    0 <= ti <= out.tags@.len(),
                    out.tags == gout.tags,
                    tags@ == upsert_all(pre_merge, gout.tags@.take(ti as int)),
                decreases out.tags@.len() - ti,
            {
                let tk = out.tags[ti].0.clone();
                let tv = out.tags[ti].1.clone();
                upsert_pair(&mut tags, tk, tv);
                proof {
                    assert(gout.tags@.take(ti + 1).drop_last() =~= gout.tags@.take(ti as int));
                    assert(gout.tags@.take(ti + 1).last() == gout.tags@[ti as int]);
                }
                ti = ti + 1;
            }
            proof {
                assert(gout.tags@.take(gout.tags@.len() as int) =~= gout.tags@);
                let pre_outs = outs;
                outs = outs.push(gout);
                assert(outs.drop_last() =~= pre_outs);
                assert(outs.last() == gout);
                assert(fold_tag_merges(outs) == upsert_all(fold_tag_merges(pre_outs), gout.tags@));
                assert(outs.map_values(|c: StressContext| duration_of(c)) =~= pre_outs.map_values(
                    |c: StressContext| duration_of(c),
                ).push(duration_of(gout)));
                let bmap = outs.map_values(|c: StressContext| c.bytes);
                assert(bmap =~= pre_outs.map_values(|c: StressContext| c.bytes).push(gout.bytes));
                assert(bmap.drop_last() =~= pre_outs.map_values(|c: StressContext| c.bytes));
                assert(bmap.last() == gout.bytes);
                let emap = outs.map_values(|c: StressContext| c.elements);
                assert(emap =~= pre_outs.map_values(|c: StressContext| c.elements).push(
                    gout.elements,
                ));
                assert(emap.drop_last() =~= pre_outs.map_values(|c: StressContext| c.elements));
                assert(emap.last() == gout.elements);
            }
            k = k + 1;
        }
        let ghost pre_sort = durations@;
        sort_durations(&mut durations);
        let median = durations[durations.len() / 2];
        let mut full_name = self.suite.clone();
        full_name.append("/");
        full_name.append(name);
        let result = BenchResult {
            name: full_name,
            duration: median,
            bytes,
            elements,
            all_runs: durations,
            tags,
        };
        let ghost pre_results = self.results@;
        self.results.push(result);
        proof {
            assert(self.results@.drop_last() =~= pre_results);
            assert(self.results@.last().all_runs@.to_multiset() == outs.map_values(
                |c: StressContext| duration_of(c),
            ).to_multiset());
            assert(aggregated_from(f, old(self).config.runs as nat, self.results@.last()));
        }
        Ok(())
    }

    /// Finish the suite: total duration and timestamp are read from the
    /// clocks, everything else is carried over from the runner. The
    /// timestamp marker is the decimal rendering of a clock reading.
    pub fn finish_suite(self) -> (r: SuiteResult)
        ensures
            r.suite@ == self.suite@,
            r.results == self.results,
            r.runs == self.config.runs as u64,
            r.warmup_runs == self.config.warmup_runs as u64,
            r.git_sha == self.config.git_sha,
            r.metadata == self.metadata,
            exists|ms: u64| r.started_at@ == crate::text::dec_digits(ms as nat),
    {
        let total = elapsed_ns_since(&self.suite_start);
        let started_at = u64_to_string(now_unix_millis());
        SuiteResult {
            suite: self.suite,
            results: self.results,
            total_duration: total,
            started_at,
            runs: self.config.runs as u64,
            warmup_runs: self.config.warmup_runs as u64,
            git_sha: self.config.git_sha,
            metadata: self.metadata,
        }
    }

    /// Finish the suite and return the individual results.
    pub fn finish(self) -> (r: Vec<BenchResult>)
        ensures
            r == self.results,
    {
        self.finish_suite().results
    }

    /// Group related benchmarks under a shared name prefix. The group owns
    /// the runner until `finish` hands it back.
    pub fn group(self, group_name: &str) -> (g: BenchGroup)
        ensures
            g.prefix@ == group_name@,
            g.runner == self,
    {
        BenchGroup { prefix: String::from_str(group_name), runner: self }
    }
}

/// A group of related benchmarks: every benchmark run through it carries
/// the group's name as a prefix. Groups only shape names and reporting.
pub struct BenchGroup {
    /// Name prefix of this group.
    pub prefix: String,
    /// The runner the group reports into.
    pub runner: BenchRunner,
}

impl BenchGroup {
    /// Run a benchmark within this group: exactly a suite run of the same
    /// body under the name "prefix/name". Groups shape naming only, never
    /// measurement.
    pub fn run<F: Fn(StressContext) -> StressContext>(&mut self, name: &str, f: F) -> (r: Result<
        (),
        RunError,
    >)
        requires
            forall|ctx: StressContext| #[trigger] call_requires(f, (ctx,)),
            old(self).runner.config.runs >= 1,
        ensures
            final(self).prefix == old(self).prefix,
            final(self).runner.suite == old(self).runner.suite,
            final(self).runner.config == old(self).runner.config,
            final(self).runner.sinks == old(self).runner.sinks,
            final(self).runner.metadata == old(self).runner.metadata,
            !should_run_spec(old(self).runner.config, old(self).prefix@ + "/"@ + name@) ==> r
                is Ok && final(self).runner.results == old(self).runner.results,
            r is Err ==> final(self).runner.results == old(self).runner.results && r == Err::<
                (),
                RunError,
            >(RunError::ProtocolViolation) && violating_output(f),
            (should_run_spec(
                old(self).runner.config,
                old(self).prefix@ + "/"@ + name@,
            ) && r is Ok) ==> {
                &&& final(self).runner.results@.len() == old(self).runner.results@.len() + 1
                &&& final(self).runner.results@.drop_last() == old(self).runner.results@
                &&& final(self).runner.results@.last().name@ == old(self).runner.suite@ + "/"@
                    + old(self).prefix@ + "/"@ + name@
                &&& final(self).runner.results@.last().wf()
                &&& final(self).runner.results@.last().all_runs@.len() == old(
                    self,
                ).runner.config.runs
                &&& aggregated_from(
                    f,
                    old(self).runner.config.runs as nat,
                    final(self).runner.results@.last(),
                )
            },
            (should_run_spec(
                old(self).runner.config,
                old(self).prefix@ + "/"@ + name@,
            ) && (forall|c1: StressContext, c2: StressContext|
                call_ensures(f, (c1,), c2) ==> c2.duration is Some)) ==> r is Ok,
    {
        proof {
            reveal_strlit("/");
        }
        let mut full = self.prefix.clone();
        full.append("/");
        full.append(name);
        let r = self.runner.run(full.as_str(), f);
        proof {
            assert(old(self).prefix@ + "/"@ + name@ =~= full@);
            if should_run_spec(old(self).runner.config, full@) && r is Ok {
                assert(self.runner.results@.last().name@ =~= old(self).runner.suite@ + "/"@
                    + old(self).prefix@ + "/"@ + name@);
            }
        }
        r
    }

    /// Hand the runner back.
    pub fn finish(self) -> (r: BenchRunner)
        ensures
            r == self.runner,
    {
        self.runner
    }
}

/// First index whose element is strictly greater than `x`, or the length
/// when none is: the place to insert `x` to keep the vector sorted.
fn insertion_point(out: &Vec<u64>, x: u64) -> (pos: usize)
    requires
        sorted_asc(out@),
    ensures
        0 <= pos <= out@.len(),
        forall|t: int| 0 <= t < pos ==> out@[t] <= x,
        forall|t: int| pos <= t < out@.len() ==> out@[t] > x,
{
    let mut pos: usize = 0;
    while pos < out.len()
        invariant
            0 <= pos <= out@.len(),
            sorted_asc(out@),
            forall|t: int| 0 <= t < pos ==> out@[t] <= x,
        decreases out@.len() - pos,
    {
        if out[pos] > x {
            return pos;
        }
        pos = pos + 1;
    }
    pos
}

} // verus!
