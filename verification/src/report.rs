//! Formatting of benchmark output: durations, throughput, console lines and
//! the human-readable suite summary, plus the fan-out schedule that delivers
//! events to sinks.
//!
//! All formatting uses exact integer arithmetic over nanoseconds; printed
//! values are rounded half-up to the printed precision.

use vstd::prelude::*;
use vstd::string::*;
use crate::result::{find_last_by_name, last_index_of_name, ratio_ppm, ratio_ppm_spec, regression_check, regression_spec, BenchResult, SuiteResult};
use crate::runner::SinkConfig;
use crate::text::{dec_digits, digit_char, digit_str, push_char, push_u128_digits};

verus! {

/// `n` space characters.
pub open spec fn spaces(n: nat) -> Seq<char>
    decreases n,
{
    if n == 0 {
        Seq::empty()
    } else {
        spaces((n - 1) as nat).push(' ')
    }
}

/// `s` left-aligned in a field of `width` characters.
pub open spec fn pad_right(s: Seq<char>, width: nat) -> Seq<char> {
    if s.len() >= width {
        s
    } else {
        s + spaces((width - s.len()) as nat)
    }
}

/// `s` right-aligned in a field of `width` characters.
pub open spec fn pad_left(s: Seq<char>, width: nat) -> Seq<char> {
    if s.len() >= width {
        s
    } else {
        spaces((width - s.len()) as nat) + s
    }
}

/// Append `n` spaces.
#[verifier::loop_isolation(false)]
fn push_spaces(n: usize, out: &mut String)
    ensures
        final(out)@ == old(out)@ + spaces(n as nat),
{
    let mut i: usize = 0;
    while i < n
        invariant
            0 <= i <= n,
            out@ == old(out)@ + spaces(i as nat),
        decreases n - i,
    {
        push_char(out, ' ');
        i = i + 1;
    }
}

/// The two-decimal rendering of `n * mult / (100 * d)`: with `c` the value
/// in hundredths rounded half-up, the integer part of `c / 100`, a dot, and
/// two fractional digits.
pub open spec fn rate_digits(n: nat, d: nat, mult: nat) -> Seq<char> {
    let c = (n * mult + d / 2) / d;
    dec_digits(c / 100) + seq!['.', digit_char((c / 10) % 10), digit_char(c % 10)]
}

/// Append the two-decimal rendering of `n * mult / (100 * d)`.
fn push_rate(n: u64, d: u64, mult: u64, out: &mut String)
    requires
        1 <= d,
        mult <= 100000000000,
    ensures
        final(out)@ == old(out)@ + rate_digits(n as nat, d as nat, mult as nat),
{
    proof {
        assert((n as int) * (mult as int) <= (u64::MAX as int) * 100000000000int)
            by (nonlinear_arith)
            requires
                n <= u64::MAX,
                mult <= 100000000000,
        ;
    }
    let c: u128 = ((n as u128) * (mult as u128) + ((d / 2) as u128)) / (d as u128);
    push_u128_digits(c / 100, out);
    out.append(".");
    out.append(digit_str(((c / 10) % 10) as u64));
    out.append(digit_str((c % 10) as u64));
    proof {
        reveal_strlit(".");
        assert(out@ =~= old(out)@ + rate_digits(n as nat, d as nat, mult as nat));
    }
}

/// The rendering of a duration in nanoseconds: two decimals in the largest
/// unit of s, ms, us, ns that keeps the value at least one.
pub open spec fn spec_format_duration(ns: u64) -> Seq<char> {
    if ns >= 1000000000 {
        rate_digits(ns as nat, 1000000000, 100) + seq!['s']
    } else if ns >= 1000000 {
        rate_digits(ns as nat, 1000000, 100) + seq!['m', 's']
    } else if ns >= 1000 {
        rate_digits(ns as nat, 1000, 100) + seq!['u', 's']
    } else {
        rate_digits(ns as nat, 1, 100) + seq!['n', 's']
    }
}

/// Format a duration given in nanoseconds, such as "1.23s" or "123.46ms".
pub fn format_duration(ns: u64) -> (r: String)
    ensures
        r@ == spec_format_duration(ns),
{
    let mut out = String::new();
    if ns >= 1000000000 {
        push_rate(ns, 1000000000, 100, &mut out);
        out.append("s");
    } else if ns >= 1000000 {
        push_rate(ns, 1000000, 100, &mut out);
        out.append("ms");
    } else if ns >= 1000 {
        push_rate(ns, 1000, 100, &mut out);
        out.append("us");
    } else {
        push_rate(ns, 1, 100, &mut out);
        out.append("ns");
    }
    proof {
        reveal_strlit("s");
        reveal_strlit("ms");
        reveal_strlit("us");
        reveal_strlit("ns");
        assert(out@ =~= spec_format_duration(ns));
    }
    out
}

/// The throughput rendering for a result. Bytes take precedence over
/// elements: with a byte count set, the output is always a byte rate and
/// never an element rate. A zero duration renders as an unbounded rate,
/// mirroring division by zero.
pub open spec fn spec_format_throughput(
    bytes: Option<u64>,
    elements: Option<u64>,
    ns: u64,
) -> Seq<char> {
    match bytes {
        Some(b) => {
            if ns == 0 {
                if b > 0 {
                    "inf GB/s"@
                } else {
                    "NaN B/s"@
                }
            } else if b as nat >= ns as nat {
                rate_digits(b as nat, ns as nat, 100) + " GB/s"@
            } else if (b as nat) * 1000 >= ns as nat {
                rate_digits(b as nat, ns as nat, 100000) + " MB/s"@
            } else if (b as nat) * 1000000 >= ns as nat {
                rate_digits(b as nat, ns as nat, 100000000) + " KB/s"@
            } else {
                rate_digits(b as nat, ns as nat, 100000000000) + " B/s"@
            }
        },
        None => match elements {
            Some(e) => {
                if ns == 0 {
                    if e > 0 {
                        "infM ops/s"@
                    } else {
                        "NaN ops/s"@
                    }
                } else if (e as nat) * 1000 >= ns as nat {
                    rate_digits(e as nat, ns as nat, 100000) + "M ops/s"@
                } else if (e as nat) * 1000000 >= ns as nat {
                    rate_digits(e as nat, ns as nat, 100000000) + "K ops/s"@
                } else {
                    dec_digits(((e as nat) * 1000000000 + (ns as nat) / 2) / (ns as nat))
                        + " ops/s"@
                }
            },
            None => Seq::empty(),
        },
    }
}

/// Format the throughput of a result, or the empty string when neither a
/// byte nor an element count is set.
pub fn format_throughput(result: &BenchResult) -> (r: String)
    ensures
        r@ == spec_format_throughput(result.bytes, result.elements, result.duration),
{
    let ns = result.duration;
    let mut out = String::new();
    match result.bytes {
        Some(b) => {
            if ns == 0 {
                if b > 0 {
                    out.append("inf GB/s");
                } else {
                    out.append("NaN B/s");
                }
            } else if b >= ns {
                push_rate(b, ns, 100, &mut out);
                out.append(" GB/s");
            } else if (b as u128) * 1000 >= ns as u128 {
                push_rate(b, ns, 100000, &mut out);
                out.append(" MB/s");
            } else if (b as u128) * 1000000 >= ns as u128 {
                push_rate(b, ns, 100000000, &mut out);
                out.append(" KB/s");
            } else {
                push_rate(b, ns, 100000000000, &mut out);
                out.append(" B/s");
            }
        },
        None => match result.elements {
            Some(e) => {
                if ns == 0 {
                    if e > 0 {
                        out.append("infM ops/s");
                    } else {
                        out.append("NaN ops/s");
                    }
                } else if (e as u128) * 1000 >= ns as u128 {
                    push_rate(e, ns, 100000, &mut out);
                    out.append("M ops/s");
                } else if (e as u128) * 1000000 >= ns as u128 {
                    push_rate(e, ns, 100000000, &mut out);
                    out.append("K ops/s");
                } else {
                    let c: u128 = ((e as u128) * 1000000000 + ((ns / 2) as u128)) / (ns as u128);
                    push_u128_digits(c, &mut out);
                    out.append(" ops/s");
                }
            },
            None => {},
        },
    }
    proof {
        assert(out@ =~= spec_format_throughput(result.bytes, result.elements, result.duration));
    }
    out
}

/// Index of the last occurrence of `c` in `s`, or -1.
pub open spec fn last_index_of_char(s: Seq<char>, c: char) -> int
    decreases s.len(),
{
    if s.len() == 0 {
        -1
    } else if s.last() == c {
        s.len() - 1
    } else {
        last_index_of_char(s.drop_last(), c)
    }
}

/// The last matching index is inside the sequence and carries `c`.
pub proof fn lemma_last_index_of_char(s: Seq<char>, c: char)
    ensures
        -1 <= last_index_of_char(s, c) < s.len(),
        last_index_of_char(s, c) >= 0 ==> s[last_index_of_char(s, c)] == c,
    decreases s.len(),
{
    if s.len() > 0 && s.last() != c {
        lemma_last_index_of_char(s.drop_last(), c);
    }
}

/// The name shown on a console line: the part after the last '/' when the
/// full name carries a suite prefix, the whole name otherwise.
pub open spec fn display_name(name: Seq<char>) -> Seq<char> {
    let j = last_index_of_char(name, '/');
    if j >= 0 {
        name.subrange(j + 1, name.len() as int)
    } else {
        name
    }
}

/// Extract the display name from a full benchmark name.
#[verifier::loop_isolation(false)]
pub fn display_name_of(name: &str) -> (r: String)
    ensures
        r@ == display_name(name@),
{
    let n = name.unicode_len();
    let mut slash: Option<usize> = None;
    let mut i: usize = 0;
    while i < n
        invariant
            0 <= i <= n,
            match slash {
                Some(j) => j == last_index_of_char(name@.take(i as int), '/'),
                None => last_index_of_char(name@.take(i as int), '/') == -1,
            },
        decreases n - i,
    {
        proof {
            assert(name@.take(i + 1).drop_last() =~= name@.take(i as int));
            assert(name@.take(i + 1).last() == name@[i as int]);
        }
        let c = name.get_char(i);
        if c == '/' {
            slash = Some(i);
        }
        i = i + 1;
    }
    proof {
        assert(name@.take(n as int) =~= name@);
        lemma_last_index_of_char(name@, '/');
    }
    match slash {
        Some(j) => {
            let r = String::from_str(name.substring_char(j + 1, n));
            proof {
                assert(r@ =~= display_name(name@));
            }
            r
        },
        None => String::from_str(name),
    }
}

/// The run dump appended to a console line: each measured duration
/// formatted, separated by ", ".
pub open spec fn joined_runs(runs: Seq<u64>) -> Seq<char>
    decreases runs.len(),
{
    if runs.len() == 0 {
        Seq::empty()
    } else if runs.len() == 1 {
        spec_format_duration(runs[0])
    } else {
        joined_runs(runs.drop_last()) + ", "@ + spec_format_duration(runs.last())
    }
}

/// The complete console line for a finished benchmark: two leading spaces,
/// the display name left-aligned to 40 columns, the duration right-aligned
/// to 14 columns, the throughput in parentheses when present, and, when
/// `show_all_runs` is set and more than one run was kept, an indented dump
/// of every run.
pub open spec fn spec_bench_line(show_all_runs: bool, r: BenchResult) -> Seq<char> {
    let base = "  "@ + pad_right(display_name(r.name@), 40) + " "@ + pad_left(
        spec_format_duration(r.duration),
        14,
    );
    let tput = spec_format_throughput(r.bytes, r.elements, r.duration);
    let with_tput = if tput.len() == 0 {
        base
    } else {
        base + "  ("@ + tput + ")"@
    };
    if show_all_runs && r.all_runs@.len() > 1 {
        with_tput + "\n      runs: ["@ + joined_runs(r.all_runs@) + "]"@
    } else {
        with_tput
    }
}

/// Console reporter: produces one complete line per benchmark, so that a
/// line is printed atomically and cannot interleave with other output.
pub struct ConsoleReporter {
    /// Also show every measured run, not only the median.
    pub show_all_runs: bool,
}

impl ConsoleReporter {
    /// A console reporter that shows only the median.
    pub fn new() -> (r: Self)
        ensures
            !r.show_all_runs,
    {
        ConsoleReporter { show_all_runs: false }
    }

    /// Choose whether individual run times are shown on a separate line.
    pub fn show_all_runs(self, show: bool) -> (r: Self)
        ensures
            r.show_all_runs == show,
    {
        ConsoleReporter { show_all_runs: show }
    }

    /// Format a duration with consistent units: s, ms, us or ns, always
    /// with two decimals.
    pub fn format_duration(ns: u64) -> (r: String)
        ensures
            r@ == spec_format_duration(ns),
    {
        format_duration(ns)
    }

    /// Format the throughput of a result; empty when no byte or element
    /// count is set. Bytes take precedence over elements.
    pub fn format_throughput(result: &BenchResult) -> (r: String)
        ensures
            r@ == spec_format_throughput(result.bytes, result.elements, result.duration),
    {
        format_throughput(result)
    }

    /// The complete console line for a finished benchmark.
    #[verifier::loop_isolation(false)]
    #[verifier::rlimit(60)]
    pub fn format_bench_line(&self, result: &BenchResult) -> (r: String)
        ensures
            r@ == spec_bench_line(self.show_all_runs, *result),
    {
        let mut out = String::new();
        out.append("  ");
        let dname = display_name_of(result.name.as_str());
        let width: usize = 40;
        out.append(dname.as_str());
        if dname.unicode_len() < width {
            push_spaces(width - dname.unicode_len(), &mut out);
        }
        out.append(" ");
        let dur = format_duration(result.duration);
        let dur_width: usize = 14;
        if dur.unicode_len() < dur_width {
            push_spaces(dur_width - dur.unicode_len(), &mut out);
        }
        out.append(dur.as_str());
        let tput = format_throughput(result);
        if !(tput.unicode_len() == 0) {
            out.append("  (");
            out.append(tput.as_str());
            out.append(")");
        }
        proof {
            assert(out@ =~= {
                let base = "  "@ + pad_right(display_name(result.name@), 40) + " "@ + pad_left(
                    spec_format_duration(result.duration),
                    14,
                );
                let t = spec_format_throughput(result.bytes, result.elements, result.duration);
                if t.len() == 0 {
                    base
                } else {
                    base + "  ("@ + t + ")"@
                }
            });
        }
        if self.show_all_runs && result.all_runs.len() > 1 {
            out.append("\n      runs: [");
            let mut i: usize = 0;
            let ghost mid = out@;
            while i < result.all_runs.len()
                invariant
                    0 <= i <= result.all_runs@.len(),
                    out@ == mid + joined_runs(result.all_runs@.take(i as int)),
                    i == 0 ==> out@ == mid,
                decreases result.all_runs@.len() - i,
            {
                if i > 0 {
                    out.append(", ");
                }
                let d = format_duration(result.all_runs[i]);
                out.append(d.as_str());
                proof {
                    assert(result.all_runs@.take(i + 1).drop_last() =~= result.all_runs@.take(
                        i as int,
                    ));
                    assert(result.all_runs@.take(i + 1).last() == result.all_runs@[i as int]);
                }
                i = i + 1;
            }
            proof {
                assert(result.all_runs@.take(result.all_runs@.len() as int) =~= result.all_runs@);
            }
            out.append("]");
        }
        proof {
            assert(out@ =~= spec_bench_line(self.show_all_runs, *result));
        }
        out
    }

    /// The complete header block announcing a suite.
    pub fn format_header(suite: &str, runs: u64, warmup_runs: u64) -> (r: String)
        ensures
            r@ == "---------------------------------------------------------------\nBenchmark Suite: "@
                + suite@ + "\nRuns: "@ + dec_digits(runs as nat) + ", Warmup: "@ + dec_digits(
                warmup_runs as nat,
            ) + "\n---------------------------------------------------------------\n"@,
    {
        let mut out = String::new();
        out.append("---------------------------------------------------------------\nBenchmark Suite: ");
        out.append(suite);
        out.append("\nRuns: ");
        crate::text::push_u64_digits(runs, &mut out);
        out.append(", Warmup: ");
        crate::text::push_u64_digits(warmup_runs, &mut out);
        out.append("\n---------------------------------------------------------------\n");
        proof {
            assert(out@ =~= "---------------------------------------------------------------\nBenchmark Suite: "@
                + suite@ + "\nRuns: "@ + dec_digits(runs as nat) + ", Warmup: "@ + dec_digits(
                warmup_runs as nat,
            ) + "\n---------------------------------------------------------------\n"@);
        }
        out
    }

    /// The complete footer block closing a suite.
    pub fn format_footer(result: &SuiteResult) -> (r: String)
        ensures
            r@ == "---------------------------------------------------------------\nCompleted "@
                + dec_digits(result.results@.len()) + " benchmarks in "@ + spec_format_duration(
                result.total_duration,
            ) + "\n---------------------------------------------------------------\n"@,
    {
        let mut out = String::new();
        out.append("---------------------------------------------------------------\nCompleted ");
        let n = result.results.len();
        crate::text::push_u64_digits(n as u64, &mut out);
        out.append(" benchmarks in ");
        let dur = format_duration(result.total_duration);
        out.append(dur.as_str());
        out.append("\n---------------------------------------------------------------\n");
        proof {
            assert(out@ =~= "---------------------------------------------------------------\nCompleted "@
                + dec_digits(result.results@.len()) + " benchmarks in "@ + spec_format_duration(
                result.total_duration,
            ) + "\n---------------------------------------------------------------\n"@);
        }
        out
    }
}

/// One line of the persisted summary for one result.
pub open spec fn spec_summary_line(r: BenchResult) -> Seq<char> {
    let tput = spec_format_throughput(r.bytes, r.elements, r.duration);
    let tput_part = if tput.len() == 0 {
        Seq::<char>::empty()
    } else {
        "  ("@ + tput + ")"@
    };
    "  "@ + pad_right(display_name(r.name@), 40) + " "@ + pad_left(
        spec_format_duration(r.duration),
        14,
    ) + tput_part + "\n"@
}

/// The result lines of the persisted summary, in suite order.
pub open spec fn spec_summary_lines(results: Seq<BenchResult>) -> Seq<char>
    decreases results.len(),
{
    if results.len() == 0 {
        Seq::empty()
    } else {
        spec_summary_lines(results.drop_last()) + spec_summary_line(results.last())
    }
}

/// The complete persisted human-readable summary of a suite.
pub open spec fn spec_summary(s: SuiteResult) -> Seq<char> {
    "===============================================================\nBenchmark Suite: "@
        + s.suite@
        + "\n===============================================================\n\nCompleted: "@
        + s.started_at@ + "\n"@ + (match s.git_sha {
        Some(sha) => "Git SHA:   "@ + sha@ + "\n"@,
        None => Seq::<char>::empty(),
    })
        + "\nResults:\n---------------------------------------------------------------\n"@
        + spec_summary_lines(s.results@)
        + "---------------------------------------------------------------\nTotal time: "@
        + spec_format_duration(s.total_duration) + "\nBenchmarks: "@ + dec_digits(s.results@.len())
        + "\n===============================================================\n"@
}

/// Persisting reporter: turns a finished suite into files under an output
/// directory.
pub struct JsonReporter {
    /// Directory the result files are written beneath.
    pub output_dir: String,
}

impl JsonReporter {
    /// A persisting reporter writing beneath `output_dir`.
    pub fn new(output_dir: String) -> (r: Self)
        ensures
            r.output_dir == output_dir,
    {
        JsonReporter { output_dir }
    }

    /// The human-readable summary of a suite.
    #[verifier::loop_isolation(false)]
    pub fn format_summary(&self, result: &SuiteResult) -> (r: String)
        ensures
            r@ == spec_summary(*result),
    {
        let mut out = String::new();
        out.append("===============================================================\nBenchmark Suite: ");
        out.append(result.suite.as_str());
        out.append("\n===============================================================\n\nCompleted: ");
        out.append(result.started_at.as_str());
        out.append("\n");
        match &result.git_sha {
            Some(sha) => {
                out.append("Git SHA:   ");
                out.append(sha.as_str());
                out.append("\n");
            },
            None => {},
        }
        out.append("\nResults:\n---------------------------------------------------------------\n");
        let ghost mid = out@;
        let mut i: usize = 0;
        while i < result.results.len()
            invariant
                0 <= i <= result.results@.len(),
                out@ == mid + spec_summary_lines(result.results@.take(i as int)),
            decreases result.results@.len() - i,
        {
            let line = self.summary_line(&result.results[i]);
            out.append(line.as_str());
            proof {
                assert(result.results@.take(i + 1).drop_last() =~= result.results@.take(i as int));
                assert(result.results@.take(i + 1).last() == result.results@[i as int]);
            }
            i = i + 1;
        }
        proof {
            assert(result.results@.take(result.results@.len() as int) =~= result.results@);
        }
        out.append("---------------------------------------------------------------\nTotal time: ");
        let dur = format_duration(result.total_duration);
        out.append(dur.as_str());
        out.append("\nBenchmarks: ");
        let n = result.results.len();
        crate::text::push_u64_digits(n as u64, &mut out);
        out.append("\n===============================================================\n");
        proof {
            assert(out@ =~= spec_summary(*result));
        }
        out
    }

    /// One summary line for one result.
    fn summary_line(&self, r: &BenchResult) -> (line: String)
        ensures
            line@ == spec_summary_line(*r),
    {
        let mut out = String::new();
        out.append("  ");
        let dname = display_name_of(r.name.as_str());
        let width: usize = 40;
        out.append(dname.as_str());
        if dname.unicode_len() < width {
            push_spaces(width - dname.unicode_len(), &mut out);
        }
        out.append(" ");
        let dur = format_duration(r.duration);
        let dur_width: usize = 14;
        if dur.unicode_len() < dur_width {
            push_spaces(dur_width - dur.unicode_len(), &mut out);
        }
        out.append(dur.as_str());
        let tput = format_throughput(r);
        if !(tput.unicode_len() == 0) {
            out.append("  (");
            out.append(tput.as_str());
            out.append(")");
        }
        out.append("\n");
        proof {
            assert(out@ =~= spec_summary_line(*r));
        }
        out
    }
}

/// A suite name made safe for use in a file path: path separators replaced
/// by underscores.
pub open spec fn sanitized_name(s: Seq<char>) -> Seq<char> {
    s.map_values(
        |c: char|
            if c == '/' || c == '\\' {
                '_'
            } else {
                c
            },
    )
}

/// Replace path separators in a suite name by underscores.
#[verifier::loop_isolation(false)]
pub fn sanitize_suite_name(s: &str) -> (r: String)
    ensures
        r@ == sanitized_name(s@),
{
    let n = s.unicode_len();
    let mut out = String::new();
    let mut i: usize = 0;
    while i < n
        invariant
            0 <= i <= n,
            out@ == sanitized_name(s@.take(i as int)),
        decreases n - i,
    {
        let c = s.get_char(i);
        if c == '/' || c == '\\' {
            push_char(&mut out, '_');
        } else {
            push_char(&mut out, c);
        }
        proof {
            assert(sanitized_name(s@.take(i + 1)) =~= sanitized_name(s@.take(i as int)).push(
                if s@[i as int] == '/' || s@[i as int] == '\\' {
                    '_'
                } else {
                    s@[i as int]
                },
            ));
        }
        i = i + 1;
    }
    proof {
        assert(s@.take(n as int) =~= s@);
    }
    out
}

/// The order in which one event is delivered to `n_sinks` sinks: every sink,
/// in registration order, regardless of which sinks fail.
pub open spec fn spec_deliveries(n_sinks: nat, failed: Seq<bool>) -> Seq<int> {
    Seq::new(n_sinks, |i: int| i)
}

/// A failing sink never hides an event from any other sink: the delivery
/// schedule of an event is the same whatever the sinks' failure outcomes.
pub proof fn lemma_sink_isolation(n_sinks: nat, failed1: Seq<bool>, failed2: Seq<bool>)
    ensures
        spec_deliveries(n_sinks, failed1) == spec_deliveries(n_sinks, failed2),
        forall|i: int| 0 <= i < n_sinks ==> spec_deliveries(n_sinks, failed1)[i] == i,
{
    assert(spec_deliveries(n_sinks, failed1) =~= spec_deliveries(n_sinks, failed2));
}

/// Combines multiple sinks; each event is handed to every sink in order,
/// and one sink's failure never affects the others.
pub struct MultiReporter {
    /// The combined sinks, in delivery order.
    pub reporters: Vec<SinkConfig>,
}

impl MultiReporter {
    /// Combine `reporters` into one.
    pub fn new(reporters: Vec<SinkConfig>) -> (r: Self)
        ensures
            r.reporters == reporters,
    {
        MultiReporter { reporters }
    }

    /// The sink indices to deliver one event to, in order. `failed` reports
    /// which sinks failed on the previous event; it does not influence the
    /// schedule, which is the failure-isolation guarantee.
    pub fn deliveries(&self, failed: &Vec<bool>) -> (r: Vec<usize>)
        requires
            failed@.len() == self.reporters@.len(),
        ensures
            r@.len() == self.reporters@.len(),
            forall|i: int| 0 <= i < r@.len() ==> r@[i] == i,
    {
        let mut r: Vec<usize> = Vec::new();
        let mut i: usize = 0;
        while i < self.reporters.len()
            invariant
                0 <= i <= self.reporters@.len(),
                r@.len() == i,
                forall|t: int| 0 <= t < i ==> r@[t] == t,
            decreases self.reporters@.len() - i,
        {
            r.push(i);
            i = i + 1;
        }
        r
    }
}


/// The coarse duration rendering used in annotations: seconds or
/// milliseconds, two decimals.
pub open spec fn spec_format_duration_coarse(ns: u64) -> Seq<char> {
    if ns >= 1000000000 {
        rate_digits(ns as nat, 1000000000, 100) + seq!['s']
    } else {
        rate_digits(ns as nat, 1000000, 100) + seq!['m', 's']
    }
}

/// Format a duration coarsely, in seconds or milliseconds.
pub fn format_duration_coarse(ns: u64) -> (r: String)
    ensures
        r@ == spec_format_duration_coarse(ns),
{
    let mut out = String::new();
    if ns >= 1000000000 {
        push_rate(ns, 1000000000, 100, &mut out);
        out.append("s");
    } else {
        push_rate(ns, 1000000, 100, &mut out);
        out.append("ms");
    }
    proof {
        reveal_strlit("s");
        reveal_strlit("ms");
        assert(out@ =~= spec_format_duration_coarse(ns));
    }
    out
}

/// How much slower than the baseline, in tenths of a percent, rounded
/// half-up from the ratio in parts per million.
pub open spec fn percent_tenths_of(ratio_ppm_value: u64) -> nat {
    if ratio_ppm_value <= 1000000 {
        0
    } else {
        (((ratio_ppm_value - 1000000) + 500) / 1000) as nat
    }
}

/// One regression warning annotation line.
pub open spec fn spec_warning_line(suite: Seq<char>, name: Seq<char>, ratio_ppm_value: u64) -> Seq<
    char,
> {
    let t = percent_tenths_of(ratio_ppm_value);
    "::warning title=Performance Regression in "@ + suite + "::Benchmark '"@ + name + "' is "@
        + dec_digits(t / 10) + seq!['.', digit_char(t % 10)] + "% slower than baseline\n"@
}

/// The regression warning lines for a suite against a baseline, one per
/// regressing result, in suite order.
pub open spec fn spec_warning_lines(
    cur: Seq<BenchResult>,
    base: Seq<BenchResult>,
    suite: Seq<char>,
    threshold_ppm: u64,
) -> Seq<char>
    decreases cur.len(),
{
    if cur.len() == 0 {
        Seq::empty()
    } else {
        let init = spec_warning_lines(cur.drop_last(), base, suite, threshold_ppm);
        let r = cur.last();
        let j = last_index_of_name(base, r.name@);
        if j >= 0 && regression_spec(r.duration, base[j].duration, threshold_ppm) {
            init + spec_warning_line(suite, r.name@, ratio_ppm_spec(r.duration, base[j].duration))
        } else {
            init
        }
    }
}

/// The collapsible results listing, one line per result.
pub open spec fn spec_group_lines(results: Seq<BenchResult>) -> Seq<char>
    decreases results.len(),
{
    if results.len() == 0 {
        Seq::empty()
    } else {
        spec_group_lines(results.drop_last()) + "  "@ + results.last().name@ + ": "@
            + spec_format_duration_coarse(results.last().duration) + "\n"@
    }
}

/// The complete annotation output for a suite: with a baseline, one warning
/// line per regression; always, the results in a collapsible group.
pub open spec fn spec_ci_annotations(
    suite: SuiteResult,
    baseline: Option<SuiteResult>,
    threshold_ppm: u64,
) -> Seq<char> {
    (match baseline {
        Some(b) => spec_warning_lines(suite.results@, b.results@, suite.suite@, threshold_ppm),
        None => Seq::<char>::empty(),
    }) + "::group::Benchmark Results - "@ + suite.suite@ + "\n"@ + spec_group_lines(suite.results@)
        + "::endgroup::\n"@
}

/// Append one regression warning annotation line.
fn push_warning_line(suite: &str, name: &str, ratio_ppm_value: u64, out: &mut String)
    ensures
        final(out)@ == old(out)@ + spec_warning_line(suite@, name@, ratio_ppm_value),
{
    let tenths: u64 = if ratio_ppm_value <= 1000000 {
        0
    } else {
        ((ratio_ppm_value - 1000000) + 500) / 1000
    };
    out.append("::warning title=Performance Regression in ");
    out.append(suite);
    out.append("::Benchmark '");
    out.append(name);
    out.append("' is ");
    push_u64_digits_local(tenths / 10, out);
    out.append(".");
    out.append(digit_str(tenths % 10));
    out.append("% slower than baseline\n");
    proof {
        reveal_strlit(".");
        assert(out@ =~= old(out)@ + spec_warning_line(suite@, name@, ratio_ppm_value));
    }
}

/// Append the decimal digits of `n`.
fn push_u64_digits_local(n: u64, out: &mut String)
    ensures
        final(out)@ == old(out)@ + dec_digits(n as nat),
{
    crate::text::push_u64_digits(n, out);
}

/// Format the annotation output of a suite for a CI environment: emitted by
/// the caller only when the CI marker is present.
#[verifier::loop_isolation(false)]
#[verifier::rlimit(60)]
pub fn format_ci_annotations(
    suite: &SuiteResult,
    baseline: Option<&SuiteResult>,
    threshold_ppm: u64,
) -> (r: String)
    ensures
        r@ == (match baseline {
            Some(b) => spec_ci_annotations(*suite, Some(*b), threshold_ppm),
            None => spec_ci_annotations(*suite, None, threshold_ppm),
        }),
{
    let mut out = String::new();
    match baseline {
        Some(base) => {
            let mut i: usize = 0;
            while i < suite.results.len()
                invariant
                    0 <= i <= suite.results@.len(),
                    out@ == spec_warning_lines(
                        suite.results@.take(i as int),
                        base.results@,
                        suite.suite@,
                        threshold_ppm,
                    ),
                decreases suite.results@.len() - i,
            {
                let cur = &suite.results[i];
                proof {
                    assert(suite.results@.take(i + 1).drop_last() =~= suite.results@.take(
                        i as int,
                    ));
                    assert(suite.results@.take(i + 1).last() == suite.results@[i as int]);
                }
                match find_last_by_name(&base.results, &cur.name) {
                    Some(j) => {
                        let b = &base.results[j];
                        if regression_check(cur.duration, b.duration, threshold_ppm) {
                            let ratio = ratio_ppm(cur.duration, b.duration);
                            push_warning_line(
                                suite.suite.as_str(),
                                cur.name.as_str(),
                                ratio,
                                &mut out,
                            );
                        }
                    },
                    None => {},
                }
                i = i + 1;
            }
            proof {
                assert(suite.results@.take(suite.results@.len() as int) =~= suite.results@);
            }
        },
        None => {},
    }
    out.append("::group::Benchmark Results - ");
    out.append(suite.suite.as_str());
    out.append("\n");
    let ghost mid = out@;
    let mut i: usize = 0;
    while i < suite.results.len()
        invariant
            0 <= i <= suite.results@.len(),
            out@ == mid + spec_group_lines(suite.results@.take(i as int)),
        decreases suite.results@.len() - i,
    {
        proof {
            assert(suite.results@.take(i + 1).drop_last() =~= suite.results@.take(i as int));
            assert(suite.results@.take(i + 1).last() == suite.results@[i as int]);
        }
        out.append("  ");
        out.append(suite.results[i].name.as_str());
        out.append(": ");
        let dur = format_duration_coarse(suite.results[i].duration);
        out.append(dur.as_str());
        out.append("\n");
        proof {
            assert(out@ =~= mid + spec_group_lines(suite.results@.take(i + 1)));
        }
        i = i + 1;
    }
    proof {
        assert(suite.results@.take(suite.results@.len() as int) =~= suite.results@);
    }
    out.append("::endgroup::\n");
    proof {
        assert(out@ =~= (match baseline {
            Some(b) => spec_ci_annotations(*suite, Some(*b), threshold_ppm),
            None => spec_ci_annotations(*suite, None, threshold_ppm),
        }));
    }
    out
}

} // verus!
