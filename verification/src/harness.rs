//! Discovery, selection and orchestration of benchmark units.
//!
//! A registry of benchmark entries is handed in from outside; this module
//! decides which entries run, in which order discovered unit files are built
//! and executed, which arguments are forwarded to a unit binary, and how a
//! build failure or a unit failure shapes the rest of the invocation.

use vstd::prelude::*;
use vstd::string::*;
use crate::config::BenchRunnerConfig;
use crate::glob::{chars_of, glob_match, is_substring, lower_of, matches_glob};
use crate::report::{last_index_of_char, lemma_last_index_of_char};
use crate::result::DEFAULT_THRESHOLD_PPM;
use crate::runner::lemma_insert_multiset;
use crate::text::{dec_digits, push_char};

verus! {

/// A registered benchmark: its name, where it was defined, and whether it
/// is skipped unless explicitly included. The body itself is held by the
/// caller, alongside the registry.
pub struct BenchmarkEntry {
    /// Benchmark name.
    pub name: String,
    /// Group or module path where the benchmark is defined.
    pub group_path: String,
    /// Whether this benchmark is skipped by default.
    pub ignored: bool,
}

/// Options for running registered benchmarks.
pub struct StressRunnerOptions {
    /// Run only benchmarks whose name or module path matches this pattern.
    pub workload: Option<String>,
    /// Also run benchmarks marked ignored.
    pub include_ignored: bool,
    /// Number of measured runs, when overridden.
    pub runs: Option<usize>,
    /// Number of warmup runs, when overridden.
    pub warmup: Option<usize>,
    /// Verbose output.
    pub verbose: bool,
    /// Baseline file for regression comparison.
    pub baseline: Option<String>,
    /// Regression threshold in parts per million.
    pub threshold_ppm: u64,
}

impl StressRunnerOptions {
    /// Default options: verbose, a 5% threshold, nothing else set.
    pub fn new() -> (r: Self)
        ensures
            r.workload is None,
            !r.include_ignored,
            r.runs is None,
            r.warmup is None,
            r.verbose,
            r.baseline is None,
            r.threshold_ppm == DEFAULT_THRESHOLD_PPM,
    {
        StressRunnerOptions {
            workload: None,
            include_ignored: false,
            runs: None,
            warmup: None,
            verbose: true,
            baseline: None,
            threshold_ppm: DEFAULT_THRESHOLD_PPM,
        }
    }

    /// Run only benchmarks matching this pattern.
    pub fn workload(self, pattern: String) -> (r: Self)
        ensures
            r == (Self { workload: Some(pattern), ..self }),
    {
        Self { workload: Some(pattern), ..self }
    }

    /// Set the number of measured runs.
    pub fn runs(self, n: usize) -> (r: Self)
        ensures
            r == (Self { runs: Some(n), ..self }),
    {
        Self { runs: Some(n), ..self }
    }

    /// Set the number of warmup runs.
    pub fn warmup(self, n: usize) -> (r: Self)
        ensures
            r == (Self { warmup: Some(n), ..self }),
    {
        Self { warmup: Some(n), ..self }
    }

    /// Set verbose output.
    pub fn verbose(self, v: bool) -> (r: Self)
        ensures
            r == (Self { verbose: v, ..self }),
    {
        Self { verbose: v, ..self }
    }

    /// Also run benchmarks marked ignored.
    pub fn include_ignored(self, v: bool) -> (r: Self)
        ensures
            r == (Self { include_ignored: v, ..self }),
    {
        Self { include_ignored: v, ..self }
    }

    /// Compare against this baseline file.
    pub fn baseline(self, path: String) -> (r: Self)
        ensures
            r == (Self { baseline: Some(path), ..self }),
    {
        Self { baseline: Some(path), ..self }
    }

    /// Set the regression threshold, in parts per million.
    pub fn threshold(self, threshold_ppm: u64) -> (r: Self)
        ensures
            r == (Self { threshold_ppm: threshold_ppm, ..self }),
    {
        Self { threshold_ppm: threshold_ppm, ..self }
    }
}

/// Apply run options on top of a configuration: overridden run counts win,
/// and the options' verbosity always applies.
pub fn apply_options(config: BenchRunnerConfig, opts: &StressRunnerOptions) -> (c:
    BenchRunnerConfig)
    ensures
        c.runs == (match opts.runs {
            Some(r) => r,
            None => config.runs,
        }),
        c.warmup_runs == (match opts.warmup {
            Some(w) => w,
            None => config.warmup_runs,
        }),
        c.verbose == opts.verbose,
        c.output_dir == config.output_dir,
        c.filter == config.filter,
        c.git_sha == config.git_sha,
        c.timeout == config.timeout,
{
    let mut c = config;
    match opts.runs {
        Some(r) => {
            c = c.runs(r);
        },
        None => {},
    }
    match opts.warmup {
        Some(w) => {
            c = c.warmup(w);
        },
        None => {},
    }
    c.verbose(opts.verbose)
}

/// Whether an entry is selected to run: ignored entries run only when
/// included explicitly, and with a workload pattern set, the entry's name or
/// module path must match it.
pub open spec fn entry_selected(e: BenchmarkEntry, opts: StressRunnerOptions) -> bool {
    &&& (e.ignored ==> opts.include_ignored)
    &&& match opts.workload {
        Some(p) => glob_match(lower_of(e.name@), lower_of(p@)) || glob_match(
            lower_of(e.group_path@),
            lower_of(p@),
        ),
        None => true,
    }
}

/// The indices of the registry entries selected by `opts`, in registry
/// order.
pub fn select_benchmarks(entries: &Vec<BenchmarkEntry>, opts: &StressRunnerOptions) -> (r: Vec<
    usize,
>)
    ensures
        forall|k: int, l: int| 0 <= k < l < r@.len() ==> r@[k] < r@[l],
        forall|k: int|
            0 <= k < r@.len() ==> #[trigger] r@[k] < entries@.len() && entry_selected(
                entries@[r@[k] as int],
                *opts,
            ),
        forall|i: int|
            0 <= i < entries@.len() && entry_selected(entries@[i], *opts) ==> exists|k: int|
                0 <= k < r@.len() && r@[k] == i,
{
    let mut r: Vec<usize> = Vec::new();
    let mut i: usize = 0;
    while i < entries.len()
        invariant
            0 <= i <= entries@.len(),
            forall|k: int, l: int| 0 <= k < l < r@.len() ==> r@[k] < r@[l],
            forall|k: int| 0 <= k < r@.len() ==> r@[k] < i,
            forall|k: int|
                0 <= k < r@.len() ==> #[trigger] r@[k] < entries@.len() && entry_selected(
                    entries@[r@[k] as int],
                    *opts,
                ),
            forall|ii: int|
                0 <= ii < i && entry_selected(entries@[ii], *opts) ==> exists|k: int|
                    0 <= k < r@.len() && r@[k] == ii,
        decreases entries@.len() - i,
    {
        let e = &entries[i];
        let selected: bool = if e.ignored && !opts.include_ignored {
            false
        } else {
            match &opts.workload {
                Some(p) => {
                    matches_glob(e.name.as_str(), p.as_str()) || matches_glob(
                        e.group_path.as_str(),
                        p.as_str(),
                    )
                },
                None => true,
            }
        };
        if selected {
            let ghost pre = r@;
            r.push(i);
            proof {
                assert forall|ii: int|
                    0 <= ii < i + 1 && entry_selected(entries@[ii], *opts) implies exists|k: int|
                    0 <= k < r@.len() && r@[k] == ii by {
                    if ii == i as int {
                        assert(r@[r@.len() - 1] == ii);
                    } else {
                        let k0 = choose|k: int| 0 <= k < pre.len() && pre[k] == ii;
                        assert(r@[k0] == ii);
                    }
                }
            }
        }
        i = i + 1;
    }
    r
}

/// The names of all registered benchmarks, in registry order.
pub fn list_benchmarks(entries: &Vec<BenchmarkEntry>) -> (r: Vec<String>)
    ensures
        r@.len() == entries@.len(),
        forall|i: int| 0 <= i < r@.len() ==> r@[i]@ == entries@[i].name@,
{
    let mut r: Vec<String> = Vec::new();
    let mut i: usize = 0;
    while i < entries.len()
        invariant
            0 <= i <= entries@.len(),
            r@.len() == i,
            forall|t: int| 0 <= t < i ==> r@[t]@ == entries@[t].name@,
        decreases entries@.len() - i,
    {
        r.push(entries[i].name.clone());
        i = i + 1;
    }
    r
}

/// How many benchmarks are registered.
pub fn benchmark_count(entries: &Vec<BenchmarkEntry>) -> (r: usize)
    ensures
        r == entries@.len(),
{
    entries.len()
}

/// Lexicographic order on character sequences, by code point.
pub open spec fn lex_leq(a: Seq<char>, b: Seq<char>) -> bool
    decreases a.len(),
{
    if a.len() == 0 {
        true
    } else if b.len() == 0 {
        false
    } else if a[0] != b[0] {
        (a[0] as u32) < (b[0] as u32)
    } else {
        lex_leq(a.drop_first(), b.drop_first())
    }
}

/// Any two sequences are comparable.
pub proof fn lemma_lex_total(a: Seq<char>, b: Seq<char>)
    ensures
        lex_leq(a, b) || lex_leq(b, a),
    decreases a.len(),
{
    if a.len() == 0 {
    } else if b.len() == 0 {
    } else if a[0] == b[0] {
        lemma_lex_total(a.drop_first(), b.drop_first());
    } else {
        assert((a[0] as u32) != (b[0] as u32)) by {
            vstd::utf8::char_u32_cast(a[0], a[0] as u32);
            vstd::utf8::char_u32_cast(b[0], b[0] as u32);
        }
    }
}

/// The order is transitive.
pub proof fn lemma_lex_trans(a: Seq<char>, b: Seq<char>, c: Seq<char>)
    requires
        lex_leq(a, b),
        lex_leq(b, c),
    ensures
        lex_leq(a, c),
    decreases a.len(),
{
    if a.len() > 0 {
        if a[0] == b[0] && b[0] == c[0] {
            lemma_lex_trans(a.drop_first(), b.drop_first(), c.drop_first());
        }
    }
}

/// Compare two character vectors lexicographically.
#[verifier::loop_isolation(false)]
fn lex_leq_chars(a: &Vec<char>, b: &Vec<char>) -> (r: bool)
    ensures
        r == lex_leq(a@, b@),
{
    let mut i: usize = 0;
    proof {
        assert(a@.skip(0) =~= a@);
        assert(b@.skip(0) =~= b@);
    }
    while i < a.len() && i < b.len()
        invariant
            0 <= i <= a@.len(),
            0 <= i <= b@.len(),
            lex_leq(a@, b@) == lex_leq(a@.skip(i as int), b@.skip(i as int)),
        decreases a@.len() - i,
    {
        proof {
            assert(a@.skip(i as int).drop_first() =~= a@.skip(i + 1));
            assert(b@.skip(i as int).drop_first() =~= b@.skip(i + 1));
        }
        if a[i] != b[i] {
            return (a[i] as u32) < (b[i] as u32);
        }
        i = i + 1;
    }
    proof {
        if i == a@.len() {
            assert(a@.skip(i as int).len() == 0);
        } else {
            assert(b@.skip(i as int).len() == 0);
            assert(a@.skip(i as int).len() > 0);
        }
    }
    i == a.len()
}

/// Whether a name sequence is sorted lexicographically.
pub open spec fn names_sorted(s: Seq<String>) -> bool {
    forall|i: int, j: int| 0 <= i <= j < s.len() ==> lex_leq(s[i]@, s[j]@)
}

/// Sort unit names lexicographically: the deterministic discovery order.
/// The contents are preserved as a multiset.
#[verifier::loop_isolation(false)]
pub fn sort_names(v: &mut Vec<String>)
    ensures
        names_sorted(final(v)@),
        final(v)@.to_multiset() == old(v)@.to_multiset(),
        final(v)@.len() == old(v)@.len(),
{
    let mut out: Vec<String> = Vec::new();
    let mut i: usize = 0;
    proof {
        broadcast use vstd::seq_lib::group_to_multiset_ensures;
    }
    while i < v.len()
        invariant
            0 <= i <= v@.len(),
            *v == *old(v),
            names_sorted(out@),
            out@.len() == i,
            out@.to_multiset() == v@.take(i as int).to_multiset(),
        decreases v@.len() - i,
    {
        let x = v[i].clone();
        let ghost xv = x;
        let pos = name_insertion_point(&out, &x);
        let ghost pre = out@;
        out.insert(pos, x);
        proof {
            broadcast use vstd::seq_lib::group_to_multiset_ensures;

            assert(v@.take(i + 1).drop_last() =~= v@.take(i as int));
            assert(v@.take(i + 1) =~= v@.take(i as int).push(v@[i as int]));
            lemma_insert_multiset(pre, pos as int, xv);
            assert(xv == v@[i as int]);
            assert(out@[pos as int] == xv);
            assert forall|a: int, b: int| 0 <= a <= b < out@.len() implies lex_leq(
                out@[a]@,
                out@[b]@,
            ) by {
                if b < pos {
                    assert(out@[a] == pre[a] && out@[b] == pre[b]);
                } else if a < pos && b == pos {
                    assert(out@[a] == pre[a]);
                    assert(lex_leq(pre[a]@, xv@));
                } else if a < pos && b > pos {
                    assert(out@[a] == pre[a]);
                    assert(out@[b] == pre[b - 1]);
                    assert(!lex_leq(pre[b - 1]@, xv@));
                    lemma_lex_total(pre[b - 1]@, xv@);
                    lemma_lex_trans(pre[a]@, xv@, pre[b - 1]@);
                } else if a == pos && b == pos {
                    assert(lex_leq(xv@, xv@)) by {
                        lemma_lex_total(xv@, xv@);
                    }
                } else if a == pos && b > pos {
                    assert(out@[b] == pre[b - 1]);
                    assert(!lex_leq(pre[b - 1]@, xv@));
                    lemma_lex_total(pre[b - 1]@, xv@);
                } else {
                    assert(out@[a] == pre[a - 1] && out@[b] == pre[b - 1]);
                }
            }
        }
        i = i + 1;
    }
    proof {
        assert(v@.take(v@.len() as int) =~= v@);
    }
    *v = out;
}

/// Whether `c` is an ASCII hexadecimal digit.
pub open spec fn is_hex_char(c: char) -> bool {
    let u = c as u32;
    (48 <= u && u <= 57) || (97 <= u && u <= 102) || (65 <= u && u <= 70)
}

/// Underscores replaced by hyphens, as a binary name maps back to a suite
/// name.
pub open spec fn hyphenated(s: Seq<char>) -> Seq<char> {
    s.map_values(
        |c: char|
            if c == '_' {
                '-'
            } else {
                c
            },
    )
}

/// A suite name derived from an executable name: a trailing build-hash
/// suffix (a hyphen followed by exactly sixteen hexadecimal characters) is
/// stripped, and underscores become hyphens.
pub open spec fn clean_name(s: Seq<char>) -> Seq<char> {
    let j = last_index_of_char(s, '-');
    if j >= 0 && s.len() - (j + 1) == 16 && (forall|t: int| j < t < s.len() ==> is_hex_char(s[t])) {
        hyphenated(s.take(j))
    } else {
        hyphenated(s)
    }
}

/// Whether `c` is an ASCII hexadecimal digit.
fn is_hex_digit(c: char) -> (r: bool)
    ensures
        r == is_hex_char(c),
{
    let u = c as u32;
    (48 <= u && u <= 57) || (97 <= u && u <= 102) || (65 <= u && u <= 70)
}

/// Derive the suite name from an executable name.
#[verifier::loop_isolation(false)]
pub fn clean_suite_name(name: &str) -> (r: String)
    ensures
        r@ == clean_name(name@),
{
    let cs = chars_of(name);
    let n = cs.len();
    let mut dash: Option<usize> = None;
    let mut i: usize = 0;
    while i < n
        invariant
            0 <= i <= n,
            cs@ == name@,
            n == name@.len(),
            match dash {
                Some(j) => j == last_index_of_char(name@.take(i as int), '-'),
                None => last_index_of_char(name@.take(i as int), '-') == -1,
            },
        decreases n - i,
    {
        proof {
            assert(name@.take(i + 1).drop_last() =~= name@.take(i as int));
            assert(name@.take(i + 1).last() == name@[i as int]);
        }
        if cs[i] == '-' {
            dash = Some(i);
        }
        i = i + 1;
    }
    proof {
        assert(name@.take(n as int) =~= name@);
        lemma_last_index_of_char(name@, '-');
    }
    let end: usize = match dash {
        Some(j) => {
            if n - (j + 1) == 16 {
                let mut t: usize = j + 1;
                let mut all_hex = true;
                while t < n
                    invariant
                        j + 1 <= t <= n,
                        all_hex == (forall|u: int| j < u < t ==> is_hex_char(name@[u])),
                    decreases n - t,
                {
                    if !is_hex_digit(cs[t]) {
                        all_hex = false;
                    }
                    t = t + 1;
                }
                if all_hex {
                    j
                } else {
                    n
                }
            } else {
                n
            }
        },
        None => n,
    };
    let mut out = String::new();
    let mut k: usize = 0;
    while k < end
        invariant
            0 <= k <= end <= n,
            cs@ == name@,
            n == name@.len(),
            out@ == hyphenated(name@.take(k as int)),
        decreases end - k,
    {
        let c = cs[k];
        if c == '_' {
            push_char(&mut out, '-');
        } else {
            push_char(&mut out, c);
        }
        proof {
            assert(hyphenated(name@.take(k + 1)) =~= hyphenated(name@.take(k as int)).push(
                if name@[k as int] == '_' {
                    '-'
                } else {
                    name@[k as int]
                },
            ));
        }
        k = k + 1;
    }
    proof {
        assert(name@.take(n as int) =~= name@);
    }
    out
}

/// A discovered benchmark unit file: its stem and the binary it builds to.
pub struct StressFile {
    /// Stem of the unit file name.
    pub stem: String,
    /// Name of the binary built from it, prefixed to avoid collisions.
    pub binary_name: String,
}

impl StressFile {
    /// A unit from a file stem; its binary carries a fixed prefix.
    pub fn from_stem(stem: String) -> (r: Self)
        ensures
            r.stem == stem,
            r.binary_name@ == "stress_"@ + stem@,
    {
        let mut binary_name = String::from_str("stress_");
        binary_name.append(stem.as_str());
        StressFile { stem, binary_name }
    }
}

/// Arguments accepted by the orchestrating command.
pub struct StressArgs {
    /// Filter benchmarks by glob pattern.
    pub workload: Option<String>,
    /// Include benchmarks marked ignored.
    pub include_ignored: bool,
    /// List benchmarks without running them.
    pub list: bool,
    /// Run only the unit with this stem or binary name.
    pub bin: Option<String>,
    /// Number of measured runs per benchmark.
    pub runs: usize,
    /// Number of warmup runs per benchmark.
    pub warmup: usize,
    /// Verbose output.
    pub verbose: bool,
    /// Quiet output.
    pub quiet: bool,
    /// Output directory for persisted results.
    pub output_dir: Option<String>,
    /// Baseline file for regression comparison.
    pub baseline: Option<String>,
    /// Regression threshold in parts per million.
    pub threshold_ppm: u64,
    /// Build without optimizations.
    pub dev: bool,
    /// Extra arguments for the build tool.
    pub cargo_args: Option<String>,
    /// Package to build in a workspace.
    pub package: Option<String>,
    /// Explicit manifest path.
    pub manifest_path: Option<String>,
    /// Run existing binaries without rebuilding.
    pub no_build: bool,
    /// Keep going when a unit fails.
    pub no_fail_fast: bool,
}

impl StressArgs {
    /// Default arguments: one run, no warmup, a 5% threshold, nothing else.
    pub fn new() -> (r: Self)
        ensures
            r.workload is None,
            !r.include_ignored,
            !r.list,
            r.bin is None,
            r.runs == 1,
            r.warmup == 0,
            !r.verbose,
            !r.quiet,
            r.output_dir is None,
            r.baseline is None,
            r.threshold_ppm == DEFAULT_THRESHOLD_PPM,
            !r.dev,
            r.cargo_args is None,
            r.package is None,
            r.manifest_path is None,
            !r.no_build,
            !r.no_fail_fast,
    {
        StressArgs {
            workload: None,
            include_ignored: false,
            list: false,
            bin: None,
            runs: 1,
            warmup: 0,
            verbose: false,
            quiet: false,
            output_dir: None,
            baseline: None,
            threshold_ppm: DEFAULT_THRESHOLD_PPM,
            dev: false,
            cargo_args: None,
            package: None,
            manifest_path: None,
            no_build: false,
            no_fail_fast: false,
        }
    }
}

/// The views of a vector of strings.
pub open spec fn strings_view(v: Seq<String>) -> Seq<Seq<char>> {
    v.map_values(|s: String| s@)
}

/// Append one argument string.
fn push_arg(r: &mut Vec<String>, s: &str)
    ensures
        strings_view(final(r)@) == strings_view(old(r)@).push(s@),
{
    r.push(String::from_str(s));
    proof {
        assert(strings_view(r@) =~= strings_view(old(r)@).push(s@));
    }
}

/// Append one owned argument string.
fn push_arg_string(r: &mut Vec<String>, s: String)
    ensures
        strings_view(final(r)@) == strings_view(old(r)@).push(s@),
{
    r.push(s);
    proof {
        assert(strings_view(r@) =~= strings_view(old(r)@).push(final(r)@.last()@));
    }
}

/// The first group of forwarded flags: workload filter, run counts and
/// verbosity, each only when it differs from its default.
pub open spec fn passthrough_head(a: StressArgs) -> Seq<Seq<char>> {
    (match a.workload {
        Some(p) => seq!["--workload"@, p@],
        None => Seq::<Seq<char>>::empty(),
    }) + (if a.runs != 1 {
        seq!["--runs"@, dec_digits(a.runs as nat)]
    } else {
        Seq::<Seq<char>>::empty()
    }) + (if a.warmup != 0 {
        seq!["--warmup"@, dec_digits(a.warmup as nat)]
    } else {
        Seq::<Seq<char>>::empty()
    }) + (if a.verbose {
        seq!["--verbose"@]
    } else {
        Seq::<Seq<char>>::empty()
    }) + (if a.quiet {
        seq!["--quiet"@]
    } else {
        Seq::<Seq<char>>::empty()
    })
}

/// The second group of forwarded flags: selection, output and regression
/// flags, each only when it differs from its default.
pub open spec fn passthrough_tail(a: StressArgs) -> Seq<Seq<char>> {
    (if a.include_ignored {
        seq!["--include-ignored"@]
    } else {
        Seq::<Seq<char>>::empty()
    }) + (if a.list {
        seq!["--list"@]
    } else {
        Seq::<Seq<char>>::empty()
    }) + (match a.output_dir {
        Some(d) => seq!["--output-dir"@, d@],
        None => Seq::<Seq<char>>::empty(),
    }) + (match a.baseline {
        Some(b) => seq!["--baseline"@, b@],
        None => Seq::<Seq<char>>::empty(),
    }) + (if a.threshold_ppm != DEFAULT_THRESHOLD_PPM {
        seq!["--threshold-ppm"@, dec_digits(a.threshold_ppm as nat)]
    } else {
        Seq::<Seq<char>>::empty()
    })
}

/// The arguments forwarded to a unit binary: only the flags that differ
/// from their default values, to keep invocations debuggable.
pub open spec fn passthrough_spec(a: StressArgs) -> Seq<Seq<char>> {
    passthrough_head(a) + passthrough_tail(a)
}

/// Append the first group of forwarded flags.
#[verifier::rlimit(100)]
fn push_passthrough_head(a: &StressArgs, r: &mut Vec<String>)
    ensures
        strings_view(final(r)@) == strings_view(old(r)@) + passthrough_head(*a),
{
    let ghost mut acc = strings_view(old(r)@);
    match &a.workload {
        Some(p) => {
            push_arg(r, "--workload");
            push_arg_string(r, p.clone());
            proof {
                acc = acc + seq!["--workload"@, p@];
                assert(strings_view(r@) =~= acc);
            }
        },
        None => {},
    }
    if a.runs != 1 {
        push_arg(r, "--runs");
        push_arg_string(r, crate::text::u64_to_string(a.runs as u64));
        proof {
            acc = acc + seq!["--runs"@, dec_digits(a.runs as nat)];
            assert(strings_view(r@) =~= acc);
        }
    }
    if a.warmup != 0 {
        push_arg(r, "--warmup");
        push_arg_string(r, crate::text::u64_to_string(a.warmup as u64));
        proof {
            acc = acc + seq!["--warmup"@, dec_digits(a.warmup as nat)];
            assert(strings_view(r@) =~= acc);
        }
    }
    if a.verbose {
        push_arg(r, "--verbose");
        proof {
            acc = acc + seq!["--verbose"@];
            assert(strings_view(r@) =~= acc);
        }
    }
    if a.quiet {
        push_arg(r, "--quiet");
        proof {
            acc = acc + seq!["--quiet"@];
            assert(strings_view(r@) =~= acc);
        }
    }
    proof {
        assert(acc =~= strings_view(old(r)@) + passthrough_head(*a));
    }
}

/// Append the second group of forwarded flags.
#[verifier::rlimit(100)]
fn push_passthrough_tail(a: &StressArgs, r: &mut Vec<String>)
    ensures
        strings_view(final(r)@) == strings_view(old(r)@) + passthrough_tail(*a),
{
    let ghost mut acc = strings_view(old(r)@);
    if a.include_ignored {
        push_arg(r, "--include-ignored");
        proof {
            acc = acc + seq!["--include-ignored"@];
            assert(strings_view(r@) =~= acc);
        }
    }
    if a.list {
        push_arg(r, "--list");
        proof {
            acc = acc + seq!["--list"@];
            assert(strings_view(r@) =~= acc);
        }
    }
    match &a.output_dir {
        Some(d) => {
            push_arg(r, "--output-dir");
            push_arg_string(r, d.clone());
            proof {
                acc = acc + seq!["--output-dir"@, d@];
                assert(strings_view(r@) =~= acc);
            }
        },
        None => {},
    }
    match &a.baseline {
        Some(b) => {
            push_arg(r, "--baseline");
            push_arg_string(r, b.clone());
            proof {
                acc = acc + seq!["--baseline"@, b@];
                assert(strings_view(r@) =~= acc);
            }
        },
        None => {},
    }
    if a.threshold_ppm != DEFAULT_THRESHOLD_PPM {
        push_arg(r, "--threshold-ppm");
        push_arg_string(r, crate::text::u64_to_string(a.threshold_ppm));
        proof {
            acc = acc + seq!["--threshold-ppm"@, dec_digits(a.threshold_ppm as nat)];
            assert(strings_view(r@) =~= acc);
        }
    }
    proof {
        assert(acc =~= strings_view(old(r)@) + passthrough_tail(*a));
    }
}

/// Build the argument list forwarded to a unit binary.
pub fn build_passthrough_args(a: &StressArgs) -> (r: Vec<String>)
    ensures
        strings_view(r@) == passthrough_spec(*a),
{
    let mut r: Vec<String> = Vec::new();
    proof {
        assert(strings_view(r@) =~= Seq::<Seq<char>>::empty());
    }
    push_passthrough_head(a, &mut r);
    push_passthrough_tail(a, &mut r);
    proof {
        assert(strings_view(r@) =~= passthrough_spec(*a));
    }
    r
}

/// The outcome of one scheduled unit.
#[derive(Debug, PartialEq, Eq, Structural)]
pub enum UnitOutcome {
    /// The unit ran and exited successfully.
    Passed,
    /// The unit ran and exited with failure.
    Failed,
    /// The unit's binary was not found after the build: warned about and
    /// skipped, never counted as a failure.
    Missing,
}


/// Whether `c` separates build-tool arguments.
pub open spec fn is_arg_ws(c: char) -> bool {
    c == ' ' || c == '\t' || c == '\n' || c == '\r'
}

/// The text split on whitespace, keeping empty pieces.
pub open spec fn ws_split_parts(s: Seq<char>) -> Seq<Seq<char>>
    decreases s.len(),
{
    if s.len() == 0 {
        seq![Seq::<char>::empty()]
    } else {
        let init = ws_split_parts(s.drop_last());
        if is_arg_ws(s.last()) {
            init.push(Seq::empty())
        } else {
            init.update(init.len() - 1, init.last().push(s.last()))
        }
    }
}

/// A split always yields at least one piece.
pub proof fn lemma_ws_split_nonempty(s: Seq<char>)
    ensures
        ws_split_parts(s).len() >= 1,
    decreases s.len(),
{
    if s.len() > 0 {
        lemma_ws_split_nonempty(s.drop_last());
    }
}

/// The whitespace-separated words of the text.
pub open spec fn ws_words(s: Seq<char>) -> Seq<Seq<char>> {
    ws_split_parts(s).filter(|p: Seq<char>| p.len() > 0)
}

/// Split a text into its whitespace-separated words.
#[verifier::loop_isolation(false)]
pub fn split_whitespace_words(s: &str) -> (words: Vec<String>)
    ensures
        strings_view(words@) == ws_words(s@),
{
    let cs = chars_of(s);
    let ghost p = s@;
    let ghost pred = |w: Seq<char>| w.len() > 0;
    let mut words: Vec<String> = Vec::new();
    let mut cur = String::new();
    let ghost closed = Seq::<Seq<char>>::empty();
    let mut i: usize = 0;
    proof {
        assert(ws_split_parts(p.take(0)) =~= closed.push(cur@));
        assert(closed.filter(pred) =~= strings_view(words@));
    }
    while i < cs.len()
        invariant
            0 <= i <= p.len(),
            cs@ == p,
            ws_split_parts(p.take(i as int)) == closed.push(cur@),
            closed.filter(pred) == strings_view(words@),
            pred == (|w: Seq<char>| w.len() > 0),
        decreases p.len() - i,
    {
        let c = cs[i];
        proof {
            assert(p.take(i + 1).drop_last() =~= p.take(i as int));
            assert(p.take(i + 1).last() == p[i as int]);
        }
        if c == ' ' || c == '\t' || c == '\n' || c == '\r' {
            let ghost old_closed = closed;
            let ghost old_words = words@;
            proof {
                closed = closed.push(cur@);
            }
            if cur.unicode_len() > 0 {
                words.push(cur);
                proof {
                    assert(closed.drop_last() =~= old_closed);
                    old_closed.lemma_filter_push(closed.last(), pred);
                    assert(strings_view(words@) =~= strings_view(old_words).push(
                        words@.last()@,
                    ));
                }
            } else {
                proof {
                    assert(closed.drop_last() =~= old_closed);
                    old_closed.lemma_filter_push(closed.last(), pred);
                }
            }
            cur = String::new();
            proof {
                assert(ws_split_parts(p.take(i + 1)) =~= closed.push(cur@));
            }
        } else {
            let ghost old_cur = cur@;
            push_char(&mut cur, c);
            proof {
                lemma_ws_split_nonempty(p.take(i as int));
                let init = ws_split_parts(p.take(i as int));
                assert(init.last() == old_cur);
                assert(init.update(init.len() - 1, old_cur.push(p[i as int])) =~= closed.push(
                    cur@,
                ));
            }
        }
        i = i + 1;
    }
    proof {
        assert(p.take(p.len() as int) =~= p);
    }
    if cur.unicode_len() > 0 {
        let ghost old_words = words@;
        let ghost cur_view = cur@;
        words.push(cur);
        proof {
            assert(ws_split_parts(p).drop_last() =~= closed);
            assert(ws_split_parts(p).last() == cur_view);
            closed.lemma_filter_push(cur_view, pred);
            assert(ws_split_parts(p) == closed.push(cur_view));
            assert(ws_words(p) == closed.filter(pred).push(cur_view));
            assert(strings_view(words@) =~= strings_view(old_words).push(cur_view));
        }
    } else {
        proof {
            assert(ws_split_parts(p).drop_last() =~= closed);
            assert(ws_split_parts(p).last() == cur@);
            closed.lemma_filter_push(cur@, pred);
            assert(ws_split_parts(p) == closed.push(cur@));
            assert(ws_words(p) == closed.filter(pred));
        }
    }
    words
}

/// The "--bin" flag pairs naming every unit, in order.
pub open spec fn bin_pairs(units: Seq<Seq<char>>) -> Seq<Seq<char>>
    decreases units.len(),
{
    if units.len() == 0 {
        Seq::empty()
    } else {
        bin_pairs(units.drop_last()) + seq!["--bin"@, units.last()]
    }
}

/// The single build-tool invocation for all discovered units: optimized
/// unless a debug build was asked for, against the given manifest and
/// target directory, one "--bin" per unit, the extra build-tool arguments
/// split on whitespace at the end.
pub open spec fn build_args_spec(
    a: StressArgs,
    units: Seq<Seq<char>>,
    manifest_path: Seq<char>,
    target_dir: Seq<char>,
) -> Seq<Seq<char>> {
    seq!["build"@] + (if a.dev {
        Seq::<Seq<char>>::empty()
    } else {
        seq!["--release"@]
    }) + seq!["--manifest-path"@, manifest_path] + (match a.package {
        Some(p) => seq!["--package"@, p@],
        None => Seq::<Seq<char>>::empty(),
    }) + seq!["--target-dir"@, target_dir] + bin_pairs(units) + (match a.cargo_args {
        Some(extra) => ws_words(extra@),
        None => Seq::<Seq<char>>::empty(),
    })
}

/// Build the argument list of the single build-tool invocation.
#[verifier::loop_isolation(false)]
#[verifier::rlimit(100)]
pub fn build_build_args(
    a: &StressArgs,
    units: &Vec<String>,
    manifest_path: &str,
    target_dir: &str,
) -> (r: Vec<String>)
    ensures
        strings_view(r@) == build_args_spec(*a, strings_view(units@), manifest_path@, target_dir@),
{
    let mut r: Vec<String> = Vec::new();
    let ghost mut acc = Seq::<Seq<char>>::empty();
    proof {
        assert(strings_view(r@) =~= acc);
    }
    push_arg(&mut r, "build");
    proof {
        acc = acc + seq!["build"@];
        assert(strings_view(r@) =~= acc);
    }
    if !a.dev {
        push_arg(&mut r, "--release");
        proof {
            acc = acc + seq!["--release"@];
            assert(strings_view(r@) =~= acc);
        }
    }
    push_arg(&mut r, "--manifest-path");
    push_arg(&mut r, manifest_path);
    proof {
        acc = acc + seq!["--manifest-path"@, manifest_path@];
        assert(strings_view(r@) =~= acc);
    }
    match &a.package {
        Some(p) => {
            push_arg(&mut r, "--package");
            push_arg_string(&mut r, p.clone());
            proof {
                acc = acc + seq!["--package"@, p@];
                assert(strings_view(r@) =~= acc);
            }
        },
        None => {},
    }
    push_arg(&mut r, "--target-dir");
    push_arg(&mut r, target_dir);
    proof {
        acc = acc + seq!["--target-dir"@, target_dir@];
        assert(strings_view(r@) =~= acc);
    }
    let ghost before_bins = acc;
    let mut i: usize = 0;
    while i < units.len()
        invariant
            0 <= i <= units@.len(),
            strings_view(r@) == before_bins + bin_pairs(strings_view(units@).take(i as int)),
        decreases units@.len() - i,
    {
        push_arg(&mut r, "--bin");
        push_arg_string(&mut r, units[i].clone());
        proof {
            assert(strings_view(units@).take(i + 1).drop_last() =~= strings_view(units@).take(
                i as int,
            ));
            assert(strings_view(units@).take(i + 1).last() == units@[i as int]@);
            assert(strings_view(r@) =~= before_bins + bin_pairs(strings_view(units@).take(i + 1)));
        }
        i = i + 1;
    }
    proof {
        assert(strings_view(units@).take(strings_view(units@).len() as int) =~= strings_view(
            units@,
        ));
        acc = before_bins + bin_pairs(strings_view(units@));
    }
    match &a.cargo_args {
        Some(extra) => {
            let parts = split_whitespace_words(extra.as_str());
            let ghost before_extra = acc;
            let mut j: usize = 0;
            while j < parts.len()
                invariant
                    0 <= j <= parts@.len(),
                    strings_view(parts@) == ws_words(extra@),
                    strings_view(r@) == before_extra + strings_view(parts@).take(j as int),
                decreases parts@.len() - j,
            {
                push_arg_string(&mut r, parts[j].clone());
                proof {
                    assert(strings_view(parts@).take(j + 1).drop_last() =~= strings_view(
                        parts@,
                    ).take(j as int));
                    assert(strings_view(parts@).take(j + 1).last() == parts@[j as int]@);
                    assert(strings_view(r@) =~= before_extra + strings_view(parts@).take(j + 1));
                }
                j = j + 1;
            }
            proof {
                assert(strings_view(parts@).take(strings_view(parts@).len() as int)
                    =~= strings_view(parts@));
                acc = before_extra + ws_words(extra@);
            }
        },
        None => {},
    }
    proof {
        assert(acc =~= build_args_spec(*a, strings_view(units@), manifest_path@, target_dir@));
    }
    r
}


/// The uniquely named directory of one disposable build workspace.
pub fn workspace_dir_name(ts: u64) -> (r: String)
    ensures
        r@ == "run-"@ + dec_digits(ts as nat),
{
    let mut out = String::from_str("run-");
    crate::text::push_u64_digits(ts, &mut out);
    out
}

/// A path with its separators turned forward, for build-descriptor text.
pub open spec fn forward_slashed(s: Seq<char>) -> Seq<char> {
    s.map_values(
        |c: char|
            if c == '\\' {
                '/'
            } else {
                c
            },
    )
}

/// Turn path separators forward.
#[verifier::loop_isolation(false)]
pub fn forward_slashes(s: &str) -> (r: String)
    ensures
        r@ == forward_slashed(s@),
{
    let cs = chars_of(s);
    let mut out = String::new();
    let mut i: usize = 0;
    while i < cs.len()
        invariant
            0 <= i <= s@.len(),
            cs@ == s@,
            out@ == forward_slashed(s@.take(i as int)),
        decreases s@.len() - i,
    {
        let c = cs[i];
        if c == '\\' {
            push_char(&mut out, '/');
        } else {
            push_char(&mut out, c);
        }
        proof {
            assert(forward_slashed(s@.take(i + 1)) =~= forward_slashed(s@.take(i as int)).push(
                if s@[i as int] == '\\' {
                    '/'
                } else {
                    s@[i as int]
                },
            ));
        }
        i = i + 1;
    }
    proof {
        assert(s@.take(s@.len() as int) =~= s@);
    }
    out
}

/// The generated build descriptor of a disposable workspace: a uniquely
/// named package depending on this framework, and, when building a host
/// project's units, on the host project itself by path.
pub open spec fn manifest_text_spec(pkg: Seq<char>, root: Seq<char>, ts: nat) -> Seq<char> {
    let header = "[package]\nname = \"cargo-stress-temp-"@ + dec_digits(ts)
        + "\"\nversion = \"0.0.0\"\nedition = \"2021\"\npublish = false\n\n[dependencies]\n"@;
    if pkg == "cntryl-stress"@ {
        header + "cntryl-stress = { path = \""@ + root + "\" }\n"@
    } else {
        header + "cntryl-stress = \"0.1\"\n"@ + pkg + " = { path = \""@ + root + "\" }\n"@
    }
}

/// Generate the build descriptor of a disposable workspace for the package
/// named `pkg_name`, rooted at `project_root`, stamped with `ts`.
pub fn workspace_manifest(pkg_name: &str, project_root: &str, ts: u64) -> (r: String)
    ensures
        r@ == manifest_text_spec(pkg_name@, project_root@, ts as nat),
{
    let mut out = String::from_str("[package]\nname = \"cargo-stress-temp-");
    crate::text::push_u64_digits(ts, &mut out);
    out.append("\"\nversion = \"0.0.0\"\nedition = \"2021\"\npublish = false\n\n[dependencies]\n");
    let own = String::from_str("cntryl-stress");
    let pkg = String::from_str(pkg_name);
    if pkg.eq(&own) {
        out.append("cntryl-stress = { path = \"");
        out.append(project_root);
        out.append("\" }\n");
    } else {
        out.append("cntryl-stress = \"0.1\"\n");
        out.append(pkg_name);
        out.append(" = { path = \"");
        out.append(project_root);
        out.append("\" }\n");
    }
    proof {
        assert(out@ =~= manifest_text_spec(pkg_name@, project_root@, ts as nat));
    }
    out
}

/// A copied unit source, with the framework's entry-point invocation
/// appended when the source does not already contain one.
pub fn augment_unit_source(content: &str) -> (r: String)
    ensures
        r@ == (if is_substring(content@, "stress_main!"@) {
            content@
        } else {
            content@ + "\n\ncntryl_stress::stress_main!();\n"@
        }),
{
    let mut out = String::from_str(content);
    if !crate::glob::contains_substring(content, "stress_main!") {
        out.append("\n\ncntryl_stress::stress_main!();\n");
    }
    out
}


/// `s` with leading whitespace removed.
pub open spec fn trim_front(s: Seq<char>) -> Seq<char>
    decreases s.len(),
{
    if s.len() > 0 && is_arg_ws(s[0]) {
        trim_front(s.drop_first())
    } else {
        s
    }
}

/// `s` with trailing whitespace removed.
pub open spec fn trim_back(s: Seq<char>) -> Seq<char>
    decreases s.len(),
{
    if s.len() > 0 && is_arg_ws(s.last()) {
        trim_back(s.drop_last())
    } else {
        s
    }
}

/// `s` with surrounding whitespace removed.
pub open spec fn trimmed(s: Seq<char>) -> Seq<char> {
    trim_back(trim_front(s))
}

/// `s` with every leading quote removed.
pub open spec fn strip_quotes_front(s: Seq<char>) -> Seq<char>
    decreases s.len(),
{
    if s.len() > 0 && s[0] == '"' {
        strip_quotes_front(s.drop_first())
    } else {
        s
    }
}

/// `s` with every trailing quote removed.
pub open spec fn strip_quotes_back(s: Seq<char>) -> Seq<char>
    decreases s.len(),
{
    if s.len() > 0 && s.last() == '"' {
        strip_quotes_back(s.drop_last())
    } else {
        s
    }
}

/// `s` with every surrounding quote removed.
pub open spec fn stripped_quotes(s: Seq<char>) -> Seq<char> {
    strip_quotes_back(strip_quotes_front(s))
}

/// Index of the first '=' in `s`, or -1.
pub open spec fn first_eq_index(s: Seq<char>) -> int
    decreases s.len(),
{
    if s.len() == 0 {
        -1
    } else if s[0] == '=' {
        0
    } else {
        let rest = first_eq_index(s.drop_first());
        if rest == -1 {
            -1
        } else {
            rest + 1
        }
    }
}

/// The first '=' is inside the sequence, is an '=', and nothing before it
/// is.
pub proof fn lemma_first_eq_index(s: Seq<char>)
    ensures
        -1 <= first_eq_index(s) < s.len(),
        first_eq_index(s) >= 0 ==> s[first_eq_index(s)] == '=',
        first_eq_index(s) >= 0 ==> forall|t: int| 0 <= t < first_eq_index(s) ==> s[t] != '=',
        first_eq_index(s) == -1 ==> forall|t: int| 0 <= t < s.len() ==> s[t] != '=',
    decreases s.len(),
{
    if s.len() > 0 && s[0] != '=' {
        lemma_first_eq_index(s.drop_first());
        assert forall|t: int| 1 <= t < s.len() implies s.drop_first()[t - 1] == s[t] by {}
    }
}

/// The text split into lines on every newline, keeping empty lines.
pub open spec fn line_split(s: Seq<char>) -> Seq<Seq<char>>
    decreases s.len(),
{
    if s.len() == 0 {
        seq![Seq::<char>::empty()]
    } else {
        let init = line_split(s.drop_last());
        if s.last() == '\n' {
            init.push(Seq::empty())
        } else {
            init.update(init.len() - 1, init.last().push(s.last()))
        }
    }
}

/// A split always yields at least one line.
pub proof fn lemma_line_split_nonempty(s: Seq<char>)
    ensures
        line_split(s).len() >= 1,
    decreases s.len(),
{
    if s.len() > 0 {
        lemma_line_split_nonempty(s.drop_last());
    }
}

/// The package name a build-descriptor line declares: the line, trimmed,
/// must begin with "name" and contain an '='; the value is what follows the
/// first '=', trimmed, with surrounding quotes removed, trimmed again.
pub open spec fn line_name_value(l: Seq<char>) -> Option<Seq<char>> {
    let t = trimmed(l);
    if t.len() >= 4 && t.take(4) == "name"@ {
        let j = first_eq_index(t);
        if j >= 0 {
            Some(trimmed(stripped_quotes(trimmed(t.skip(j + 1)))))
        } else {
            None
        }
    } else {
        None
    }
}

/// The value of the first line that declares a package name.
pub open spec fn first_line_value(lines: Seq<Seq<char>>) -> Option<Seq<char>>
    decreases lines.len(),
{
    if lines.len() == 0 {
        None
    } else {
        match line_name_value(lines[0]) {
            Some(v) => Some(v),
            None => first_line_value(lines.drop_first()),
        }
    }
}

/// The package name declared by a build descriptor, if any line declares
/// one.
pub open spec fn manifest_package_name_spec(text: Seq<char>) -> Option<Seq<char>> {
    first_line_value(line_split(text))
}

/// Whether `c` is a whitespace separator.
fn is_ws_c(c: char) -> (r: bool)
    ensures
        r == is_arg_ws(c),
{
    c == ' ' || c == '\t' || c == '\n' || c == '\r'
}

/// Narrow a window to its whitespace-trimmed core.
#[verifier::loop_isolation(false)]
fn trim_window(l: &Vec<char>, lo: usize, hi: usize) -> (r: (usize, usize))
    requires
        0 <= lo <= hi <= l@.len(),
    ensures
        lo <= r.0 <= r.1 <= hi,
        l@.subrange(r.0 as int, r.1 as int) == trimmed(l@.subrange(lo as int, hi as int)),
{
    let mut a = lo;
    while a < hi && is_ws_c(l[a])
        invariant
            lo <= a <= hi,
            trim_front(l@.subrange(lo as int, hi as int)) == trim_front(
                l@.subrange(a as int, hi as int),
            ),
        decreases hi - a,
    {
        proof {
            assert(l@.subrange(a as int, hi as int)[0] == l@[a as int]);
            assert(l@.subrange(a as int, hi as int).drop_first() =~= l@.subrange(
                a + 1,
                hi as int,
            ));
        }
        a = a + 1;
    }
    proof {
        if a < hi {
            assert(l@.subrange(a as int, hi as int)[0] == l@[a as int]);
        }
        assert(trim_front(l@.subrange(lo as int, hi as int)) == l@.subrange(a as int, hi as int));
    }
    let mut b = hi;
    while b > a && is_ws_c(l[b - 1])
        invariant
            a <= b <= hi,
            trim_back(l@.subrange(a as int, hi as int)) == trim_back(
                l@.subrange(a as int, b as int),
            ),
        decreases b,
    {
        proof {
            assert(l@.subrange(a as int, b as int).last() == l@[b - 1]);
            assert(l@.subrange(a as int, b as int).drop_last() =~= l@.subrange(a as int, b - 1));
        }
        b = b - 1;
    }
    proof {
        if b > a {
            assert(l@.subrange(a as int, b as int).last() == l@[b - 1]);
        }
        assert(trim_back(l@.subrange(a as int, hi as int)) == l@.subrange(a as int, b as int));
    }
    (a, b)
}

/// Narrow a window to its quote-stripped core.
#[verifier::loop_isolation(false)]
fn strip_quotes_window(l: &Vec<char>, lo: usize, hi: usize) -> (r: (usize, usize))
    requires
        0 <= lo <= hi <= l@.len(),
    ensures
        lo <= r.0 <= r.1 <= hi,
        l@.subrange(r.0 as int, r.1 as int) == stripped_quotes(
            l@.subrange(lo as int, hi as int),
        ),
{
    let mut a = lo;
    while a < hi && l[a] == '"'
        invariant
            lo <= a <= hi,
            strip_quotes_front(l@.subrange(lo as int, hi as int)) == strip_quotes_front(
                l@.subrange(a as int, hi as int),
            ),
        decreases hi - a,
    {
        proof {
            assert(l@.subrange(a as int, hi as int)[0] == l@[a as int]);
            assert(l@.subrange(a as int, hi as int).drop_first() =~= l@.subrange(
                a + 1,
                hi as int,
            ));
        }
        a = a + 1;
    }
    proof {
        if a < hi {
            assert(l@.subrange(a as int, hi as int)[0] == l@[a as int]);
        }
        assert(strip_quotes_front(l@.subrange(lo as int, hi as int)) == l@.subrange(
            a as int,
            hi as int,
        ));
    }
    let mut b = hi;
    while b > a && l[b - 1] == '"'
        invariant
            a <= b <= hi,
            strip_quotes_back(l@.subrange(a as int, hi as int)) == strip_quotes_back(
                l@.subrange(a as int, b as int),
            ),
        decreases b,
    {
        proof {
            assert(l@.subrange(a as int, b as int).last() == l@[b - 1]);
            assert(l@.subrange(a as int, b as int).drop_last() =~= l@.subrange(a as int, b - 1));
        }
        b = b - 1;
    }
    proof {
        if b > a {
            assert(l@.subrange(a as int, b as int).last() == l@[b - 1]);
        }
        assert(strip_quotes_back(l@.subrange(a as int, hi as int)) == l@.subrange(
            a as int,
            b as int,
        ));
    }
    (a, b)
}

/// The characters of a window as an owned string.
#[verifier::loop_isolation(false)]
fn string_of_window(l: &Vec<char>, lo: usize, hi: usize) -> (r: String)
    requires
        0 <= lo <= hi <= l@.len(),
    ensures
        r@ == l@.subrange(lo as int, hi as int),
{
    let mut out = String::new();
    let mut i = lo;
    while i < hi
        invariant
            lo <= i <= hi,
            out@ == l@.subrange(lo as int, i as int),
        decreases hi - i,
    {
        push_char(&mut out, l[i]);
        proof {
            assert(l@.subrange(lo as int, i + 1) =~= l@.subrange(lo as int, i as int).push(
                l@[i as int],
            ));
        }
        i = i + 1;
    }
    out
}

/// Split a text into its lines.
#[verifier::loop_isolation(false)]
fn split_lines(cs: &Vec<char>) -> (lines: Vec<Vec<char>>)
    ensures
        crate::glob::views_of(lines@) == line_split(cs@),
{
    let ghost p = cs@;
    let mut lines: Vec<Vec<char>> = Vec::new();
    let mut cur: Vec<char> = Vec::new();
    let mut i: usize = 0;
    proof {
        assert(line_split(p.take(0)) =~= crate::glob::views_of(lines@).push(cur@));
    }
    while i < cs.len()
        invariant
            0 <= i <= p.len(),
            cs@ == p,
            line_split(p.take(i as int)) == crate::glob::views_of(lines@).push(cur@),
        decreases p.len() - i,
    {
        let c = cs[i];
        proof {
            assert(p.take(i + 1).drop_last() =~= p.take(i as int));
            assert(p.take(i + 1).last() == p[i as int]);
        }
        if c == '\n' {
            let ghost old_lines = lines@;
            let ghost cur_view = cur@;
            lines.push(cur);
            cur = Vec::new();
            proof {
                assert(crate::glob::views_of(lines@) =~= crate::glob::views_of(old_lines).push(
                    cur_view,
                ));
                assert(line_split(p.take(i + 1)) =~= crate::glob::views_of(lines@).push(cur@));
            }
        } else {
            let ghost old_cur = cur@;
            cur.push(c);
            proof {
                lemma_line_split_nonempty(p.take(i as int));
                let init = line_split(p.take(i as int));
                assert(init.last() == old_cur);
                assert(init.update(init.len() - 1, old_cur.push(p[i as int]))
                    =~= crate::glob::views_of(lines@).push(cur@));
            }
        }
        i = i + 1;
    }
    proof {
        assert(p.take(p.len() as int) =~= p);
    }
    let ghost old_lines = lines@;
    let ghost cur_view = cur@;
    lines.push(cur);
    proof {
        assert(crate::glob::views_of(lines@) =~= crate::glob::views_of(old_lines).push(cur_view));
        assert(line_split(p) =~= crate::glob::views_of(lines@));
    }
    lines
}

/// The package name one line declares, if it does.
#[verifier::loop_isolation(false)]
#[verifier::rlimit(100)]
fn line_value_of(l: &Vec<char>) -> (r: Option<String>)
    ensures
        match r {
            Some(v) => line_name_value(l@) == Some(v@),
            None => line_name_value(l@) is None,
        },
{
    proof {
        reveal_strlit("name");
    }
    let n = l.len();
    let (tlo, thi) = trim_window(l, 0, n);
    proof {
        assert(l@.subrange(0, n as int) =~= l@);
    }
    let ghost t = trimmed(l@);
    if thi - tlo < 4 {
        return None;
    }
    if !(l[tlo] == 'n' && l[tlo + 1] == 'a' && l[tlo + 2] == 'm' && l[tlo + 3] == 'e') {
        proof {
            if t.take(4) == "name"@ {
                assert(t[0] == 'n' && t[1] == 'a' && t[2] == 'm' && t[3] == 'e') by {
                    assert(t.take(4)[0] == t[0]);
                    assert(t.take(4)[1] == t[1]);
                    assert(t.take(4)[2] == t[2]);
                    assert(t.take(4)[3] == t[3]);
                }
                assert(t[0] == l@[tlo as int]);
                assert(t[1] == l@[tlo + 1]);
                assert(t[2] == l@[tlo + 2]);
                assert(t[3] == l@[tlo + 3]);
            }
        }
        return None;
    }
    proof {
        assert(t.take(4) =~= "name"@);
    }
    let mut j = tlo;
    while j < thi && l[j] != '='
        invariant
            tlo <= j <= thi,
            forall|u: int| tlo <= u < j ==> l@[u] != '=',
        decreases thi - j,
    {
        j = j + 1;
    }
    proof {
        lemma_first_eq_index(t);
        assert(forall|u: int| 0 <= u < j - tlo ==> t[u] == l@[tlo + u] && t[u] != '=');
        if j < thi {
            assert(t[j - tlo] == l@[j as int]);
            assert(first_eq_index(t) == j - tlo);
        } else {
            assert(first_eq_index(t) == -1);
        }
    }
    if j >= thi {
        return None;
    }
    let (vlo1, vhi1) = trim_window(l, j + 1, thi);
    proof {
        assert(l@.subrange(j + 1, thi as int) =~= t.skip(j + 1 - tlo));
    }
    let (qlo, qhi) = strip_quotes_window(l, vlo1, vhi1);
    let (vlo2, vhi2) = trim_window(l, qlo, qhi);
    Some(string_of_window(l, vlo2, vhi2))
}

/// The package name a build descriptor declares, from its first
/// name-declaring line.
#[verifier::loop_isolation(false)]
pub fn manifest_package_name(text: &str) -> (r: Option<String>)
    ensures
        match r {
            Some(v) => manifest_package_name_spec(text@) == Some(v@),
            None => manifest_package_name_spec(text@) is None,
        },
{
    let cs = chars_of(text);
    let lines = split_lines(&cs);
    let ghost lviews = crate::glob::views_of(lines@);
    let mut k: usize = 0;
    proof {
        assert(lviews.skip(0) =~= lviews);
    }
    while k < lines.len()
        invariant
            0 <= k <= lines@.len(),
            lviews == crate::glob::views_of(lines@),
            lviews == line_split(text@),
            first_line_value(lviews) == first_line_value(lviews.skip(k as int)),
        decreases lines@.len() - k,
    {
        proof {
            assert(lviews.skip(k as int)[0] == lviews[k as int]);
            assert(lviews.skip(k as int).drop_first() =~= lviews.skip(k + 1));
        }
        match line_value_of(&lines[k]) {
            Some(v) => {
                return Some(v);
            },
            None => {},
        }
        k = k + 1;
    }
    proof {
        assert(lviews.skip(lines@.len() as int).len() == 0);
    }
    None
}

/// Whether any unit reported failure. A missing unit is skipped, not
/// failed.
pub open spec fn any_unit_failed(results: Seq<UnitOutcome>) -> bool {
    exists|i: int| 0 <= i < results.len() && results[i] is Failed
}

/// Drives one invocation: build every discovered unit once, then execute
/// the units in deterministic order, stopping early on failure unless told
/// to keep going. The side effects themselves — building and spawning —
/// happen outside; this machine decides what happens next and with which
/// exit code the invocation ends.
pub struct Orchestrator {
    /// Unit stems, sorted: the build and execution order.
    pub units: Vec<String>,
    /// Outcomes of the units scheduled so far, in order.
    pub unit_results: Vec<UnitOutcome>,
    /// Whether a failing unit stops the remaining units.
    pub fail_fast: bool,
    /// Whether the build step failed.
    pub build_failed: bool,
    /// Whether the invocation stopped early.
    pub aborted: bool,
}

impl Orchestrator {
    /// The machine never schedules more units than it has, and after a
    /// failed build nothing has executed and nothing will.
    pub open spec fn wf(self) -> bool {
        &&& self.unit_results@.len() <= self.units@.len()
        &&& self.build_failed ==> self.aborted && self.unit_results@.len() == 0
    }

    /// The next unit to execute: none once aborted or exhausted.
    pub open spec fn spec_next_unit(self) -> Option<int> {
        if self.aborted || self.unit_results@.len() >= self.units@.len() {
            None
        } else {
            Some(self.unit_results@.len() as int)
        }
    }

    /// The process exit code: zero exactly when the build succeeded and
    /// every executed unit succeeded.
    pub open spec fn spec_exit_code(self) -> int {
        if self.build_failed || any_unit_failed(self.unit_results@) {
            1
        } else {
            0
        }
    }

    /// A fresh orchestration over the discovered unit stems, which are
    /// sorted into the deterministic build and execution order.
    pub fn new(stems: Vec<String>, fail_fast: bool) -> (r: Self)
        ensures
            r.wf(),
            names_sorted(r.units@),
            r.units@.to_multiset() == stems@.to_multiset(),
            r.unit_results@.len() == 0,
            r.fail_fast == fail_fast,
            !r.build_failed,
            !r.aborted,
    {
        let mut units = stems;
        sort_names(&mut units);
        Orchestrator {
            units,
            unit_results: Vec::new(),
            fail_fast,
            build_failed: false,
            aborted: false,
        }
    }

    /// Record the outcome of the single build step. A failed build aborts
    /// the invocation before any unit executes.
    pub fn on_build_finished(&mut self, success: bool)
        requires
            old(self).wf(),
            old(self).unit_results@.len() == 0,
        ensures
            final(self).wf(),
            final(self).build_failed == (old(self).build_failed || !success),
            final(self).aborted == (old(self).aborted || !success),
            final(self).units == old(self).units,
            final(self).unit_results == old(self).unit_results,
            final(self).fail_fast == old(self).fail_fast,
    {
        if !success {
            self.build_failed = true;
            self.aborted = true;
        }
    }

    /// The next unit to execute, if any.
    pub fn next_unit(&self) -> (r: Option<usize>)
        ensures
            match r {
                Some(i) => self.spec_next_unit() == Some(i as int),
                None => self.spec_next_unit() is None,
            },
    {
        if self.aborted || self.unit_results.len() >= self.units.len() {
            None
        } else {
            Some(self.unit_results.len())
        }
    }

    /// Record the outcome of one executed unit. Under fail-fast, a failing
    /// unit aborts the remaining units; its outcome is recorded either way,
    /// so no unit's exit status is dropped.
    pub fn on_unit_finished(&mut self, success: bool)
        requires
            old(self).wf(),
            !old(self).aborted,
            old(self).unit_results@.len() < old(self).units@.len(),
        ensures
            final(self).wf(),
            final(self).unit_results@ == old(self).unit_results@.push(
                if success {
                    UnitOutcome::Passed
                } else {
                    UnitOutcome::Failed
                },
            ),
            final(self).aborted == (old(self).fail_fast && !success),
            final(self).build_failed == old(self).build_failed,
            final(self).units == old(self).units,
            final(self).fail_fast == old(self).fail_fast,
    {
        if success {
            self.unit_results.push(UnitOutcome::Passed);
        } else {
            self.unit_results.push(UnitOutcome::Failed);
        }
        if self.fail_fast && !success {
            self.aborted = true;
        }
    }

    /// Record that a unit's binary was not found after the build: the unit
    /// is skipped with a warning and the remaining units still run, even
    /// under fail-fast, and the skip never affects the exit code.
    pub fn on_unit_missing(&mut self)
        requires
            old(self).wf(),
            !old(self).aborted,
            old(self).unit_results@.len() < old(self).units@.len(),
        ensures
            final(self).wf(),
            final(self).unit_results@ == old(self).unit_results@.push(UnitOutcome::Missing),
            final(self).aborted == old(self).aborted,
            final(self).build_failed == old(self).build_failed,
            final(self).units == old(self).units,
            final(self).fail_fast == old(self).fail_fast,
            final(self).spec_exit_code() == old(self).spec_exit_code(),
    {
        self.unit_results.push(UnitOutcome::Missing);
        proof {
            assert(any_unit_failed(self.unit_results@) == any_unit_failed(
                old(self).unit_results@,
            )) by {
                if any_unit_failed(old(self).unit_results@) {
                    let i = choose|i: int|
                        0 <= i < old(self).unit_results@.len() && old(self).unit_results@[i]
                            is Failed;
                    assert(self.unit_results@[i] is Failed);
                }
                if any_unit_failed(self.unit_results@) {
                    let i = choose|i: int|
                        0 <= i < self.unit_results@.len() && self.unit_results@[i] is Failed;
                    assert(old(self).unit_results@[i] is Failed);
                }
            }
        }
    }

    /// Whether the disposable build workspace is kept for inspection: it is
    /// preserved exactly when the invocation failed, and cleaned up only on
    /// success.
    pub fn keep_workspace(&self) -> (r: bool)
        ensures
            r == (self.spec_exit_code() != 0),
    {
        self.exit_code() != 0
    }

    /// The exit code of the whole invocation.
    pub fn exit_code(&self) -> (r: i32)
        ensures
            r == self.spec_exit_code(),
    {
        if self.build_failed {
            return 1;
        }
        let mut i: usize = 0;
        while i < self.unit_results.len()
            invariant
                0 <= i <= self.unit_results@.len(),
                forall|t: int| 0 <= t < i ==> !((#[trigger] self.unit_results@[t]) is Failed),
            decreases self.unit_results@.len() - i,
        {
            if matches!(self.unit_results[i], UnitOutcome::Failed) {
                proof {
                    assert(any_unit_failed(self.unit_results@));
                }
                return 1;
            }
            i = i + 1;
        }
        0
    }
}

/// Build-failure short circuit: once the build step has failed, no unit is
/// scheduled, no unit has executed, and the invocation's exit code is
/// nonzero.
pub proof fn lemma_build_failure_short_circuit(o: Orchestrator)
    requires
        o.wf(),
        o.build_failed,
    ensures
        o.spec_next_unit() is None,
        o.unit_results@.len() == 0,
        o.spec_exit_code() == 1,
{
}

/// The place to insert `x` into a sorted name vector: the first index whose
/// element is strictly greater than `x`.
#[verifier::loop_isolation(false)]
fn name_insertion_point(out: &Vec<String>, x: &String) -> (pos: usize)
    requires
        names_sorted(out@),
    ensures
        0 <= pos <= out@.len(),
        forall|t: int| 0 <= t < pos ==> lex_leq(out@[t]@, x@),
        forall|t: int| pos <= t < out@.len() ==> !lex_leq(out@[t]@, x@),
{
    let xc = chars_of(x.as_str());
    let mut pos: usize = 0;
    while pos < out.len()
        invariant
            0 <= pos <= out@.len(),
            xc@ == x@,
            forall|t: int| 0 <= t < pos ==> lex_leq(out@[t]@, x@),
        decreases out@.len() - pos,
    {
        let oc = chars_of(out[pos].as_str());
        if !lex_leq_chars(&oc, &xc) {
            proof {
                assert forall|t: int| pos <= t < out@.len() implies !lex_leq(out@[t]@, x@) by {
                    if lex_leq(out@[t]@, x@) {
                        lemma_lex_trans(out@[pos as int]@, out@[t]@, x@);
                    }
                }
            }
            return pos;
        }
        pos = pos + 1;
    }
    pos
}

} // verus!
