//! Configuration for the benchmark runner.
//!
//! Settings resolve with a fixed precedence: an explicit builder call wins
//! over an environment override, which wins over the built-in default.

use vstd::prelude::*;
use vstd::string::*;
use crate::codec::parse_u64;
use crate::glob::{chars_of, lower_of, lowercase};

verus! {

/// Raw environment overrides, as read from the process environment; `None`
/// stands for an unset variable.
pub struct EnvOverrides {
    /// Number of measurement runs.
    pub runs: Option<String>,
    /// Number of warmup runs.
    pub warmup: Option<String>,
    /// Verbosity: "0" or any capitalization of "false" switch it off.
    pub verbose: Option<String>,
    /// Output directory for persisted results.
    pub output_dir: Option<String>,
    /// Name filter.
    pub filter: Option<String>,
    /// Revision id.
    pub git_sha: Option<String>,
    /// Per-benchmark time limit in whole seconds.
    pub timeout_secs: Option<String>,
}

impl EnvOverrides {
    /// No overrides set.
    pub fn none() -> (r: Self)
        ensures
            r.runs is None,
            r.warmup is None,
            r.verbose is None,
            r.output_dir is None,
            r.filter is None,
            r.git_sha is None,
            r.timeout_secs is None,
    {
        EnvOverrides {
            runs: None,
            warmup: None,
            verbose: None,
            output_dir: None,
            filter: None,
            git_sha: None,
            timeout_secs: None,
        }
    }
}

/// The value of a string that is all decimal digits, or nothing.
pub open spec fn parsed_u64(s: Seq<char>) -> Option<u64> {
    match parse_u64(s) {
        Some((n, rest)) => {
            if rest.len() == 0 {
                Some(n)
            } else {
                None
            }
        },
        None => None,
    }
}

/// Parse a whole string as a decimal number.
pub fn parse_u64_str(s: &str) -> (r: Option<u64>)
    ensures
        r == parsed_u64(s@),
{
    let cs = chars_of(s);
    proof {
        assert(cs@.skip(0) =~= s@);
    }
    match crate::codec::parse_u64_pos(&cs, 0) {
        Some((n, j)) => {
            if j == cs.len() {
                proof {
                    assert(cs@.skip(j as int).len() == 0);
                }
                Some(n)
            } else {
                proof {
                    assert(cs@.skip(j as int).len() == cs@.len() - j);
                }
                None
            }
        },
        None => None,
    }
}

/// Whether a verbosity override switches verbose output on: everything but
/// "0" and a lowercased "false" counts as on.
pub open spec fn verbose_of(s: Seq<char>) -> bool {
    !(s == "0"@ || lower_of(s) == "false"@)
}

/// Configuration for the benchmark runner.
///
/// `runs` is the number of measured runs per benchmark (the median is
/// reported); `warmup_runs` are executed first and discarded entirely.
pub struct BenchRunnerConfig {
    /// Number of measurement runs (the median is reported).
    pub runs: usize,
    /// Warmup runs (discarded).
    pub warmup_runs: usize,
    /// Output directory for persisted results.
    pub output_dir: String,
    /// Print results verbosely.
    pub verbose: bool,
    /// Run only benchmarks whose name contains this substring.
    pub filter: Option<String>,
    /// Revision id to include in results, for regression tracking.
    pub git_sha: Option<String>,
    /// Advisory per-benchmark time limit in nanoseconds.
    pub timeout: Option<u64>,
}

/// The built-in defaults: one measured run, no warmup, verbose output, and
/// results under "target/stress".
pub open spec fn default_config_spec(c: BenchRunnerConfig) -> bool {
    &&& c.runs == 1
    &&& c.warmup_runs == 0
    &&& c.output_dir@ == "target/stress"@
    &&& c.verbose == true
    &&& c.filter is None
    &&& c.git_sha is None
    &&& c.timeout is None
}

impl Default for BenchRunnerConfig {
    /// Built-in default configuration.
    fn default() -> (c: Self)
        ensures
            default_config_spec(c),
    {
        BenchRunnerConfig {
            runs: 1,
            warmup_runs: 0,
            output_dir: String::from_str("target/stress"),
            verbose: true,
            filter: None,
            git_sha: None,
            timeout: None,
        }
    }
}

impl BenchRunnerConfig {
    /// Create a new config with the built-in defaults.
    pub fn new() -> (c: Self)
        ensures
            default_config_spec(c),
    {
        Self::default()
    }

    /// Set the number of measurement runs.
    pub fn runs(self, n: usize) -> (c: Self)
        ensures
            c == (Self { runs: n, ..self }),
    {
        Self { runs: n, ..self }
    }

    /// Set the number of warmup runs.
    pub fn warmup(self, n: usize) -> (c: Self)
        ensures
            c == (Self { warmup_runs: n, ..self }),
    {
        Self { warmup_runs: n, ..self }
    }

    /// Set the output directory.
    pub fn output_dir(self, path: String) -> (c: Self)
        ensures
            c == (Self { output_dir: path, ..self }),
    {
        Self { output_dir: path, ..self }
    }

    /// Set verbose output.
    pub fn verbose(self, v: bool) -> (c: Self)
        ensures
            c == (Self { verbose: v, ..self }),
    {
        Self { verbose: v, ..self }
    }

    /// Run only benchmarks whose name contains `pattern` as a substring.
    pub fn filter(self, pattern: String) -> (c: Self)
        ensures
            c.filter == Some(pattern),
            c == (Self { filter: Some(pattern), ..self }),
    {
        Self { filter: Some(pattern), ..self }
    }

    /// Clear the name filter.
    pub fn no_filter(self) -> (c: Self)
        ensures
            c == (Self { filter: None, ..self }),
    {
        Self { filter: None, ..self }
    }

    /// Set the revision id recorded with results.
    pub fn git_sha(self, sha: String) -> (c: Self)
        ensures
            c == (Self { git_sha: Some(sha), ..self }),
    {
        Self { git_sha: Some(sha), ..self }
    }

    /// Set the advisory per-benchmark time limit, in nanoseconds.
    pub fn timeout(self, duration_ns: u64) -> (c: Self)
        ensures
            c == (Self { timeout: Some(duration_ns), ..self }),
    {
        Self { timeout: Some(duration_ns), ..self }
    }

    /// Apply environment overrides on top of this configuration. A count
    /// that does not parse as a whole decimal number is ignored; a timeout
    /// is given in whole seconds and saturates at the largest representable
    /// number of nanoseconds.
    pub fn apply_env(self, env: EnvOverrides) -> (c: Self)
        ensures
            c.runs == (match env.runs {
                Some(v) => match parsed_u64(v@) {
                    Some(n) => n as usize,
                    None => self.runs,
                },
                None => self.runs,
            }),
            c.warmup_runs == (match env.warmup {
                Some(v) => match parsed_u64(v@) {
                    Some(n) => n as usize,
                    None => self.warmup_runs,
                },
                None => self.warmup_runs,
            }),
            c.verbose == (match env.verbose {
                Some(v) => verbose_of(v@),
                None => self.verbose,
            }),
            c.output_dir == (match env.output_dir {
                Some(v) => v,
                None => self.output_dir,
            }),
            c.filter == (match env.filter {
                Some(v) => Some(v),
                None => self.filter,
            }),
            c.git_sha == (match env.git_sha {
                Some(v) => Some(v),
                None => self.git_sha,
            }),
            c.timeout == (match env.timeout_secs {
                Some(v) => match parsed_u64(v@) {
                    Some(secs) => Some(
                        if secs as int * 1000000000 > u64::MAX as int {
                            u64::MAX
                        } else {
                            (secs * 1000000000) as u64
                        },
                    ),
                    None => self.timeout,
                },
                None => self.timeout,
            }),
    {
        let mut c = self;
        match env.runs {
            Some(v) => {
                match parse_u64_str(v.as_str()) {
                    Some(n) => {
                        c = Self { runs: n as usize, ..c };
                    },
                    None => {},
                }
            },
            None => {},
        }
        match env.warmup {
            Some(v) => {
                match parse_u64_str(v.as_str()) {
                    Some(n) => {
                        c = Self { warmup_runs: n as usize, ..c };
                    },
                    None => {},
                }
            },
            None => {},
        }
        match env.verbose {
            Some(v) => {
                let lowered = lowercase(v.as_str());
                let zero = String::from_str("0");
                let falsum = String::from_str("false");
                let off = v.eq(&zero) || lowered.eq(&falsum);
                c = Self { verbose: !off, ..c };
            },
            None => {},
        }
        match env.output_dir {
            Some(v) => {
                c = Self { output_dir: v, ..c };
            },
            None => {},
        }
        match env.filter {
            Some(v) => {
                c = Self { filter: Some(v), ..c };
            },
            None => {},
        }
        match env.git_sha {
            Some(v) => {
                c = Self { git_sha: Some(v), ..c };
            },
            None => {},
        }
        match env.timeout_secs {
            Some(v) => {
                match parse_u64_str(v.as_str()) {
                    Some(secs) => {
                        let ns = match secs.checked_mul(1000000000) {
                            Some(x) => x,
                            None => u64::MAX,
                        };
                        c = Self { timeout: Some(ns), ..c };
                    },
                    None => {},
                }
            },
            None => {},
        }
        c
    }
}

} // verus!
