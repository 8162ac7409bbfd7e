//! The persisted form of suite results: a canonical JSON encoding and its
//! parser.
//!
//! Durations are persisted as integer nanoseconds, never as floating point,
//! so that persisting a suite and reloading it yields exactly the measured
//! values. The encoder writes one canonical form; the parser reads exactly
//! that form back, and the two are proven inverse: parsing an encoded suite
//! always succeeds and yields the original values.

use vstd::prelude::*;
use vstd::string::*;
use crate::result::{BenchResult, SuiteResult};
use crate::text::{dec_digits, digit_char, digit_str, push_char, push_u64_digits};

verus! {

/// The mathematical content of a benchmark result.
pub ghost struct BenchResultView {
    /// Full benchmark name.
    pub name: Seq<char>,
    /// Representative duration in nanoseconds.
    pub duration: u64,
    /// Bytes processed, when reported.
    pub bytes: Option<u64>,
    /// Elements processed, when reported.
    pub elements: Option<u64>,
    /// All measured durations in nanoseconds.
    pub all_runs: Seq<u64>,
    /// Tags in insertion order.
    pub tags: Seq<(Seq<char>, Seq<char>)>,
}

/// The mathematical content of a suite result.
pub ghost struct SuiteResultView {
    /// Suite name.
    pub suite: Seq<char>,
    /// Individual results, in execution order.
    pub results: Seq<BenchResultView>,
    /// Total suite duration in nanoseconds.
    pub total_duration: u64,
    /// Timestamp marker.
    pub started_at: Seq<char>,
    /// Measured runs per benchmark.
    pub runs: u64,
    /// Warmup runs per benchmark.
    pub warmup_runs: u64,
    /// Revision id, when known.
    pub git_sha: Option<Seq<char>>,
    /// Suite metadata in insertion order.
    pub metadata: Seq<(Seq<char>, Seq<char>)>,
}

/// The views of a sequence of string pairs.
pub open spec fn pairs_view(m: Seq<(String, String)>) -> Seq<(Seq<char>, Seq<char>)> {
    m.map_values(|p: (String, String)| (p.0@, p.1@))
}

impl View for BenchResult {
    type V = BenchResultView;

    open spec fn view(&self) -> BenchResultView {
        BenchResultView {
            name: self.name@,
            duration: self.duration,
            bytes: self.bytes,
            elements: self.elements,
            all_runs: self.all_runs@,
            tags: pairs_view(self.tags@),
        }
    }
}

impl View for SuiteResult {
    type V = SuiteResultView;

    open spec fn view(&self) -> SuiteResultView {
        SuiteResultView {
            suite: self.suite@,
            results: self.results@.map_values(|r: BenchResult| r@),
            total_duration: self.total_duration,
            started_at: self.started_at@,
            runs: self.runs,
            warmup_runs: self.warmup_runs,
            git_sha: match self.git_sha {
                Some(s) => Some(s@),
                None => None,
            },
            metadata: pairs_view(self.metadata@),
        }
    }
}

/// The character for a hexadecimal digit, lower case.
pub open spec fn hex_char(d: nat) -> char {
    if d < 10 {
        digit_char(d)
    } else if d == 10 {
        'a'
    } else if d == 11 {
        'b'
    } else if d == 12 {
        'c'
    } else if d == 13 {
        'd'
    } else if d == 14 {
        'e'
    } else {
        'f'
    }
}

/// Whether `c` is an ASCII decimal digit.
pub open spec fn is_digit(c: char) -> bool {
    c == '0' || c == '1' || c == '2' || c == '3' || c == '4' || c == '5' || c == '6' || c == '7'
        || c == '8' || c == '9'
}

/// Whether `c` is a lower-case hexadecimal digit as the encoder writes them.
pub open spec fn is_hex_lc(c: char) -> bool {
    is_digit(c) || c == 'a' || c == 'b' || c == 'c' || c == 'd' || c == 'e' || c == 'f'
}

/// The numeric value of a decimal digit character.
pub open spec fn char_digit(c: char) -> nat {
    if c == '0' {
        0
    } else if c == '1' {
        1
    } else if c == '2' {
        2
    } else if c == '3' {
        3
    } else if c == '4' {
        4
    } else if c == '5' {
        5
    } else if c == '6' {
        6
    } else if c == '7' {
        7
    } else if c == '8' {
        8
    } else if c == '9' {
        9
    } else {
        0
    }
}

/// The numeric value of a lower-case hexadecimal digit character.
pub open spec fn hex_val(c: char) -> nat {
    if c == 'a' {
        10
    } else if c == 'b' {
        11
    } else if c == 'c' {
        12
    } else if c == 'd' {
        13
    } else if c == 'e' {
        14
    } else if c == 'f' {
        15
    } else {
        char_digit(c)
    }
}

/// The escape of one character inside a JSON string: quotes and backslashes
/// are escaped, control characters become a four-digit escape, everything
/// else stands for itself.
pub open spec fn esc_char(c: char) -> Seq<char> {
    if c == '"' {
        seq!['\\', '"']
    } else if c == '\\' {
        seq!['\\', '\\']
    } else if (c as u32) < 32 {
        seq!['\\', 'u', '0', '0', hex_char(((c as u32) / 16) as nat), hex_char(
            ((c as u32) % 16) as nat,
        )]
    } else {
        seq![c]
    }
}

/// The body of an encoded JSON string.
pub open spec fn esc_string(s: Seq<char>) -> Seq<char>
    decreases s.len(),
{
    if s.len() == 0 {
        Seq::empty()
    } else {
        esc_char(s[0]) + esc_string(s.drop_first())
    }
}

/// A whole encoded JSON string, quotes included.
pub open spec fn enc_string(s: Seq<char>) -> Seq<char> {
    seq!['"'] + esc_string(s) + seq!['"']
}

/// Parse the body of a JSON string up to its closing quote, returning the
/// decoded value and the rest of the input.
pub open spec fn parse_string_body(s: Seq<char>) -> Option<(Seq<char>, Seq<char>)>
    decreases s.len(),
{
    if s.len() == 0 {
        None
    } else if s[0] == '"' {
        Some((Seq::empty(), s.drop_first()))
    } else if s[0] == '\\' {
        if s.len() >= 2 && (s[1] == '"' || s[1] == '\\') {
            match parse_string_body(s.skip(2)) {
                Some((v, rest)) => Some((seq![s[1]] + v, rest)),
                None => None,
            }
        } else if s.len() >= 6 && s[1] == 'u' && s[2] == '0' && s[3] == '0' && is_hex_lc(s[4])
            && is_hex_lc(s[5]) {
            let code = 16 * hex_val(s[4]) + hex_val(s[5]);
            match parse_string_body(s.skip(6)) {
                Some((v, rest)) => Some((seq![(code as char)] + v, rest)),
                None => None,
            }
        } else {
            None
        }
    } else {
        match parse_string_body(s.drop_first()) {
            Some((v, rest)) => Some((seq![s[0]] + v, rest)),
            None => None,
        }
    }
}

/// Parse a whole JSON string, quotes included.
pub open spec fn parse_string(s: Seq<char>) -> Option<(Seq<char>, Seq<char>)> {
    if s.len() >= 1 && s[0] == '"' {
        parse_string_body(s.drop_first())
    } else {
        None
    }
}

/// Parsing an encoded string body yields the original value and leaves the
/// rest untouched.
pub proof fn lemma_rt_string_body(v: Seq<char>, rest: Seq<char>)
    ensures
        parse_string_body(esc_string(v) + seq!['"'] + rest) == Some((v, rest)),
    decreases v.len(),
{
    let s = esc_string(v) + seq!['"'] + rest;
    if v.len() == 0 {
        assert(s =~= seq!['"'] + rest);
        assert(s.drop_first() =~= rest);
    } else {
        let c = v[0];
        let tail = esc_string(v.drop_first()) + seq!['"'] + rest;
        assert(s =~= esc_char(c) + tail);
        lemma_rt_string_body(v.drop_first(), rest);
        if c == '"' {
            assert(s[0] == '\\' && s[1] == '"');
            assert(s.skip(2) =~= tail);
            assert(seq![s[1]] + v.drop_first() =~= v);
        } else if c == '\\' {
            assert(s[0] == '\\' && s[1] == '\\');
            assert(s.skip(2) =~= tail);
            assert(seq![s[1]] + v.drop_first() =~= v);
        } else if (c as u32) < 32 {
            assert(s[0] == '\\' && s[1] == 'u' && s[2] == '0' && s[3] == '0');
            assert(s[4] == hex_char(((c as u32) / 16) as nat));
            assert(s[5] == hex_char(((c as u32) % 16) as nat));
            assert(is_hex_lc(s[4]));
            assert(is_hex_lc(s[5]));
            assert(16 * hex_val(s[4]) + hex_val(s[5]) == c as u32);
            vstd::utf8::char_u32_cast(c, c as u32);
            assert(((16 * hex_val(s[4]) + hex_val(s[5])) as char) == c);
            assert(s.skip(6) =~= tail);
            assert(seq![c] + v.drop_first() =~= v);
        } else {
            assert(s[0] == c);
            assert(s[0] != '"' && s[0] != '\\');
            assert(s.drop_first() =~= tail);
            assert(seq![s[0]] + v.drop_first() =~= v);
        }
    }
}

/// Parsing an encoded string yields the original value.
pub proof fn lemma_rt_string(v: Seq<char>, rest: Seq<char>)
    ensures
        parse_string(enc_string(v) + rest) == Some((v, rest)),
{
    let s = enc_string(v) + rest;
    assert(s[0] == '"');
    assert(s.drop_first() =~= esc_string(v) + seq!['"'] + rest);
    lemma_rt_string_body(v, rest);
}

/// The count of leading decimal digits.
pub open spec fn digit_prefix_len(s: Seq<char>) -> nat
    decreases s.len(),
{
    if s.len() > 0 && is_digit(s[0]) {
        1 + digit_prefix_len(s.drop_first())
    } else {
        0
    }
}

/// The value of a digit sequence, most significant digit first.
pub open spec fn fold_digits(ds: Seq<char>) -> nat
    decreases ds.len(),
{
    if ds.len() == 0 {
        0
    } else {
        fold_digits(ds.drop_last()) * 10 + char_digit(ds.last())
    }
}

/// Parse a decimal number, returning its value and the rest of the input.
/// Fails on a missing digit or a value beyond the 64-bit range.
pub open spec fn parse_u64(s: Seq<char>) -> Option<(u64, Seq<char>)> {
    let k = digit_prefix_len(s);
    if k == 0 {
        None
    } else if k > s.len() {
        None
    } else {
        let val = fold_digits(s.take(k as int));
        if val > u64::MAX {
            None
        } else {
            Some((val as u64, s.skip(k as int)))
        }
    }
}

/// The decimal digits of a value are digits, starting with a nonzero digit
/// unless the value is zero.
pub proof fn lemma_dec_digits_are_digits(n: nat)
    ensures
        dec_digits(n).len() >= 1,
        forall|i: int| 0 <= i < dec_digits(n).len() ==> is_digit(#[trigger] dec_digits(n)[i]),
    decreases n,
{
    if n >= 10 {
        lemma_dec_digits_are_digits(n / 10);
    }
}

/// A decimal digit character reads back as its value.
pub proof fn lemma_char_digit_of(d: nat)
    requires
        d < 10,
    ensures
        is_digit(digit_char(d)),
        char_digit(digit_char(d)) == d,
{
}

/// Reading the decimal digits of a value back gives the value.
pub proof fn lemma_fold_dec_digits(n: nat)
    ensures
        fold_digits(dec_digits(n)) == n,
    decreases n,
{
    if n < 10 {
        lemma_char_digit_of(n);
        let dd = dec_digits(n);
        assert(dd == seq![digit_char(n)]);
        assert(dd.len() == 1);
        assert(dd.drop_last() =~= Seq::<char>::empty());
        assert(fold_digits(dd.drop_last()) == 0);
        assert(dd.last() == digit_char(n));
        assert(fold_digits(dd) == 0 * 10 + char_digit(digit_char(n)));
    } else {
        lemma_fold_dec_digits(n / 10);
        lemma_char_digit_of(n % 10);
        let dd = dec_digits(n);
        assert(dd == dec_digits(n / 10).push(digit_char(n % 10)));
        assert(dd.drop_last() =~= dec_digits(n / 10));
        assert(dd.last() == digit_char(n % 10));
        assert(dd.len() == dec_digits(n / 10).len() + 1 >= 1);
        assert(fold_digits(dd) == fold_digits(dd.drop_last()) * 10 + char_digit(dd.last()));
        assert(fold_digits(dd) == (n / 10) * 10 + (n % 10));
        assert((n / 10) * 10 + (n % 10) == n) by (nonlinear_arith);
    }
}

/// A digit run stops exactly at the first non-digit.
pub proof fn lemma_dpl_concat(d: Seq<char>, r: Seq<char>)
    requires
        forall|i: int| 0 <= i < d.len() ==> is_digit(#[trigger] d[i]),
        r.len() == 0 || !is_digit(r[0]),
    ensures
        digit_prefix_len(d + r) == d.len(),
    decreases d.len(),
{
    let s = d + r;
    if d.len() == 0 {
        assert(s =~= r);
    } else {
        assert(s[0] == d[0]);
        lemma_dpl_concat(d.drop_first(), r);
        assert(s.drop_first() =~= d.drop_first() + r);
    }
}

/// Parsing an encoded number yields the original value and leaves the rest
/// untouched, provided the rest does not begin with a digit.
pub proof fn lemma_rt_u64(n: u64, rest: Seq<char>)
    requires
        rest.len() == 0 || !is_digit(rest[0]),
    ensures
        parse_u64(dec_digits(n as nat) + rest) == Some((n, rest)),
{
    let d = dec_digits(n as nat);
    let s = d + rest;
    lemma_dec_digits_are_digits(n as nat);
    lemma_dpl_concat(d, rest);
    assert(s.take(d.len() as int) =~= d);
    assert(s.skip(d.len() as int) =~= rest);
    lemma_fold_dec_digits(n as nat);
}

/// Consume an exact literal, returning the rest of the input.
pub open spec fn expect(s: Seq<char>, lit: Seq<char>) -> Option<Seq<char>> {
    if lit.len() <= s.len() && s.take(lit.len() as int) == lit {
        Some(s.skip(lit.len() as int))
    } else {
        None
    }
}

/// Consuming a literal it starts with always succeeds.
pub proof fn lemma_rt_expect(lit: Seq<char>, rest: Seq<char>)
    ensures
        expect(lit + rest, lit) == Some(rest),
{
    let s = lit + rest;
    assert(s.take(lit.len() as int) =~= lit);
    assert(s.skip(lit.len() as int) =~= rest);
}

/// The encoded items of a duration array, comma separated.
pub open spec fn enc_u64_items(a: Seq<u64>) -> Seq<char>
    decreases a.len(),
{
    if a.len() == 0 {
        Seq::empty()
    } else if a.len() == 1 {
        dec_digits(a[0] as nat)
    } else {
        dec_digits(a[0] as nat) + seq![','] + enc_u64_items(a.drop_first())
    }
}

/// An encoded duration array, brackets included.
pub open spec fn enc_u64_array(a: Seq<u64>) -> Seq<char> {
    if a.len() == 0 {
        seq!['[', ']']
    } else {
        seq!['['] + enc_u64_items(a) + seq![']']
    }
}

/// Parse comma-separated numbers; `fuel` bounds the number of items.
pub open spec fn parse_u64_items(s: Seq<char>, fuel: nat) -> Option<(Seq<u64>, Seq<char>)>
    decreases fuel,
{
    if fuel == 0 {
        None
    } else {
        match parse_u64(s) {
            None => None,
            Some((n, r)) => {
                if r.len() > 0 && r[0] == ',' {
                    match parse_u64_items(r.drop_first(), (fuel - 1) as nat) {
                        Some((a, r2)) => Some((seq![n] + a, r2)),
                        None => None,
                    }
                } else {
                    Some((seq![n], r))
                }
            },
        }
    }
}

/// Parse a duration array, brackets included.
pub open spec fn parse_u64_array(s: Seq<char>) -> Option<(Seq<u64>, Seq<char>)> {
    if s.len() >= 2 && s[0] == '[' && s[1] == ']' {
        Some((Seq::empty(), s.skip(2)))
    } else if s.len() >= 1 && s[0] == '[' {
        match parse_u64_items(s.drop_first(), s.len() as nat) {
            Some((a, r)) => {
                if r.len() >= 1 && r[0] == ']' {
                    Some((a, r.drop_first()))
                } else {
                    None
                }
            },
            None => None,
        }
    } else {
        None
    }
}

/// Encoded items never number fewer characters than items.
pub proof fn lemma_enc_u64_items_len(a: Seq<u64>)
    ensures
        enc_u64_items(a).len() >= a.len(),
    decreases a.len(),
{
    if a.len() == 1 {
        lemma_dec_digits_are_digits(a[0] as nat);
    } else if a.len() > 1 {
        lemma_dec_digits_are_digits(a[0] as nat);
        lemma_enc_u64_items_len(a.drop_first());
    }
}

/// Parsing encoded array items yields the original values, with any fuel at
/// least the item count, when the input continues with the closing bracket.
pub proof fn lemma_rt_u64_items(a: Seq<u64>, rest: Seq<char>, fuel: nat)
    requires
        a.len() >= 1,
        fuel >= a.len(),
        rest.len() >= 1,
        rest[0] == ']',
    ensures
        parse_u64_items(enc_u64_items(a) + rest, fuel) == Some((a, rest)),
    decreases a.len(),
{
    let s = enc_u64_items(a) + rest;
    if a.len() == 1 {
        assert(s =~= dec_digits(a[0] as nat) + rest);
        lemma_rt_u64(a[0], rest);
        assert(seq![a[0]] =~= a);
    } else {
        let t = enc_u64_items(a.drop_first()) + rest;
        assert(s =~= dec_digits(a[0] as nat) + (seq![','] + t));
        lemma_rt_u64(a[0], seq![','] + t);
        assert((seq![','] + t).drop_first() =~= t);
        lemma_rt_u64_items(a.drop_first(), rest, (fuel - 1) as nat);
        assert(seq![a[0]] + a.drop_first() =~= a);
    }
}

/// Parsing an encoded duration array yields the original values.
pub proof fn lemma_rt_u64_array(a: Seq<u64>, rest: Seq<char>)
    ensures
        parse_u64_array(enc_u64_array(a) + rest) == Some((a, rest)),
{
    let s = enc_u64_array(a) + rest;
    if a.len() == 0 {
        assert(s[0] == '[' && s[1] == ']');
        assert(s.skip(2) =~= rest);
    } else {
        assert(s =~= seq!['['] + (enc_u64_items(a) + (seq![']'] + rest)));
        assert(s[0] == '[');
        lemma_dec_digits_are_digits(a[0] as nat);
        assert(enc_u64_items(a)[0] == dec_digits(a[0] as nat)[0]);
        assert(is_digit(s[1]));
        assert(s[1] != ']');
        assert(s.drop_first() =~= enc_u64_items(a) + (seq![']'] + rest));
        lemma_enc_u64_items_len(a);
        lemma_rt_u64_items(a, seq![']'] + rest, s.len() as nat);
        assert((seq![']'] + rest).drop_first() =~= rest);
    }
}

/// One encoded map entry.
pub open spec fn enc_entry(k: Seq<char>, v: Seq<char>) -> Seq<char> {
    enc_string(k) + seq![':'] + enc_string(v)
}

/// The encoded entries of a string map, comma separated.
pub open spec fn enc_map_items(m: Seq<(Seq<char>, Seq<char>)>) -> Seq<char>
    decreases m.len(),
{
    if m.len() == 0 {
        Seq::empty()
    } else if m.len() == 1 {
        enc_entry(m[0].0, m[0].1)
    } else {
        enc_entry(m[0].0, m[0].1) + seq![','] + enc_map_items(m.drop_first())
    }
}

/// An encoded string map, braces included.
pub open spec fn enc_map(m: Seq<(Seq<char>, Seq<char>)>) -> Seq<char> {
    if m.len() == 0 {
        seq!['{', '}']
    } else {
        seq!['{'] + enc_map_items(m) + seq!['}']
    }
}

/// Parse comma-separated map entries; `fuel` bounds the number of entries.
pub open spec fn parse_map_items(s: Seq<char>, fuel: nat) -> Option<
    (Seq<(Seq<char>, Seq<char>)>, Seq<char>),
>
    decreases fuel,
{
    if fuel == 0 {
        None
    } else {
        match parse_string(s) {
            None => None,
            Some((k, r1)) => {
                if r1.len() >= 1 && r1[0] == ':' {
                    match parse_string(r1.drop_first()) {
                        None => None,
                        Some((v, r2)) => {
                            if r2.len() > 0 && r2[0] == ',' {
                                match parse_map_items(r2.drop_first(), (fuel - 1) as nat) {
                                    Some((m, r3)) => Some((seq![(k, v)] + m, r3)),
                                    None => None,
                                }
                            } else {
                                Some((seq![(k, v)], r2))
                            }
                        },
                    }
                } else {
                    None
                }
            },
        }
    }
}

/// Parse a string map, braces included.
pub open spec fn parse_map(s: Seq<char>) -> Option<(Seq<(Seq<char>, Seq<char>)>, Seq<char>)> {
    if s.len() >= 2 && s[0] == '{' && s[1] == '}' {
        Some((Seq::empty(), s.skip(2)))
    } else if s.len() >= 1 && s[0] == '{' {
        match parse_map_items(s.drop_first(), s.len() as nat) {
            Some((m, r)) => {
                if r.len() >= 1 && r[0] == '}' {
                    Some((m, r.drop_first()))
                } else {
                    None
                }
            },
            None => None,
        }
    } else {
        None
    }
}

/// Encoded entries never number fewer characters than entries.
pub proof fn lemma_enc_map_items_len(m: Seq<(Seq<char>, Seq<char>)>)
    ensures
        enc_map_items(m).len() >= m.len(),
    decreases m.len(),
{
    if m.len() > 1 {
        lemma_enc_map_items_len(m.drop_first());
    }
}

/// Parsing encoded map entries yields the original entries, with any fuel
/// at least the entry count, when the input continues with the closing
/// brace.
pub proof fn lemma_rt_map_items(m: Seq<(Seq<char>, Seq<char>)>, rest: Seq<char>, fuel: nat)
    requires
        m.len() >= 1,
        fuel >= m.len(),
        rest.len() >= 1,
        rest[0] == '}',
    ensures
        parse_map_items(enc_map_items(m) + rest, fuel) == Some((m, rest)),
    decreases m.len(),
{
    let s = enc_map_items(m) + rest;
    let k = m[0].0;
    let v = m[0].1;
    if m.len() == 1 {
        let t1 = seq![':'] + enc_string(v) + rest;
        assert(s =~= enc_string(k) + t1);
        lemma_rt_string(k, t1);
        assert(t1[0] == ':');
        assert(t1.drop_first() =~= enc_string(v) + rest);
        lemma_rt_string(v, rest);
        assert(seq![(k, v)] =~= m);
    } else {
        let t2 = seq![','] + enc_map_items(m.drop_first()) + rest;
        let t1 = seq![':'] + enc_string(v) + t2;
        assert(s =~= enc_string(k) + t1);
        lemma_rt_string(k, t1);
        assert(t1[0] == ':');
        assert(t1.drop_first() =~= enc_string(v) + t2);
        lemma_rt_string(v, t2);
        assert(t2[0] == ',');
        assert(t2.drop_first() =~= enc_map_items(m.drop_first()) + rest);
        lemma_rt_map_items(m.drop_first(), rest, (fuel - 1) as nat);
        assert(seq![(k, v)] + m.drop_first() =~= m);
    }
}

/// Parsing an encoded string map yields the original entries.
pub proof fn lemma_rt_map(m: Seq<(Seq<char>, Seq<char>)>, rest: Seq<char>)
    ensures
        parse_map(enc_map(m) + rest) == Some((m, rest)),
{
    let s = enc_map(m) + rest;
    if m.len() == 0 {
        assert(s[0] == '{' && s[1] == '}');
        assert(s.skip(2) =~= rest);
    } else {
        assert(s =~= seq!['{'] + (enc_map_items(m) + (seq!['}'] + rest)));
        assert(s[0] == '{');
        assert(enc_map_items(m)[0] == '"');
        assert(s[1] == '"');
        assert(s.drop_first() =~= enc_map_items(m) + (seq!['}'] + rest));
        lemma_enc_map_items_len(m);
        lemma_rt_map_items(m, seq!['}'] + rest, s.len() as nat);
        assert((seq!['}'] + rest).drop_first() =~= rest);
    }
}

/// An optional numeric field: when the key is present its number follows,
/// otherwise the input is left untouched.
pub open spec fn parse_opt_u64_field(s: Seq<char>, key: Seq<char>) -> Option<
    (Option<u64>, Seq<char>),
> {
    match expect(s, key) {
        Some(r) => match parse_u64(r) {
            Some((n, r2)) => Some((Some(n), r2)),
            None => None,
        },
        None => Some((None, s)),
    }
}

/// An optional string field: when the key is present its string follows,
/// otherwise the input is left untouched.
pub open spec fn parse_opt_string_field(s: Seq<char>, key: Seq<char>) -> Option<
    (Option<Seq<char>>, Seq<char>),
> {
    match expect(s, key) {
        Some(r) => match parse_string(r) {
            Some((v, r2)) => Some((Some(v), r2)),
            None => None,
        },
        None => Some((None, s)),
    }
}

/// The encoded form of one benchmark result: fixed keys in a fixed order,
/// the optional byte and element counts present exactly when set.
pub open spec fn enc_result(r: BenchResultView) -> Seq<char> {
    "{\"name\":"@ + (enc_string(r.name) + (",\"duration_ns\":"@ + (dec_digits(
        r.duration as nat,
    ) + enc_result_back(r))))
}

/// The encoded form of a result after its duration field.
pub open spec fn enc_result_back(r: BenchResultView) -> Seq<char> {
    (match r.bytes {
        Some(b) => ",\"bytes\":"@ + dec_digits(b as nat),
        None => Seq::<char>::empty(),
    }) + ((match r.elements {
        Some(e) => ",\"elements\":"@ + dec_digits(e as nat),
        None => Seq::<char>::empty(),
    }) + (",\"all_runs_ns\":"@ + (enc_u64_array(r.all_runs) + (",\"tags\":"@ + (enc_map(
        r.tags,
    ) + seq!['}'])))))
}

/// Parse the leading fields of an encoded result: its name and duration.
pub open spec fn parse_result_head(s: Seq<char>) -> Option<(Seq<char>, u64, Seq<char>)> {
    match expect(s, "{\"name\":"@) {
        None => None,
        Some(r0) => match parse_string(r0) {
            None => None,
            Some((name, r1)) => match expect(r1, ",\"duration_ns\":"@) {
                None => None,
                Some(r2) => match parse_u64(r2) {
                    None => None,
                    Some((duration, r3)) => Some((name, duration, r3)),
                },
            },
        },
    }
}

/// Parse the optional byte and element counts of an encoded result.
pub open spec fn parse_result_mid(s: Seq<char>) -> Option<(Option<u64>, Option<u64>, Seq<char>)> {
    match parse_opt_u64_field(s, ",\"bytes\":"@) {
        None => None,
        Some((bytes, r4)) => match parse_opt_u64_field(r4, ",\"elements\":"@) {
            None => None,
            Some((elements, r5)) => Some((bytes, elements, r5)),
        },
    }
}

/// Parse the trailing fields of an encoded result: its runs, its tags and
/// the closing brace.
pub open spec fn parse_result_tail(s: Seq<char>) -> Option<
    (Seq<u64>, Seq<(Seq<char>, Seq<char>)>, Seq<char>),
> {
    match expect(s, ",\"all_runs_ns\":"@) {
        None => None,
        Some(r6) => match parse_u64_array(r6) {
            None => None,
            Some((all_runs, r7)) => match expect(r7, ",\"tags\":"@) {
                None => None,
                Some(r8) => match parse_map(r8) {
                    None => None,
                    Some((tags, r9)) => {
                        if r9.len() >= 1 && r9[0] == '}' {
                            Some((all_runs, tags, r9.drop_first()))
                        } else {
                            None
                        }
                    },
                },
            },
        },
    }
}

/// Parse one encoded benchmark result.
#[verifier::opaque]
pub open spec fn parse_result(s: Seq<char>) -> Option<(BenchResultView, Seq<char>)> {
    match parse_result_head(s) {
        None => None,
        Some((name, duration, r3)) => match parse_result_mid(r3) {
            None => None,
            Some((bytes, elements, r5)) => match parse_result_tail(r5) {
                None => None,
                Some((all_runs, tags, rest)) => Some(
                    (BenchResultView { name, duration, bytes, elements, all_runs, tags }, rest),
                ),
            },
        },
    }
}

/// Parsing the head of an encoded result yields its name and duration.
#[verifier::rlimit(100)]
proof fn lemma_rt_result_head(r: BenchResultView, t3: Seq<char>)
    requires
        t3.len() >= 1 && t3[0] == ',',
    ensures
        parse_result_head(
            "{\"name\":"@ + (enc_string(r.name) + (",\"duration_ns\":"@ + (dec_digits(
                r.duration as nat,
            ) + t3))),
        ) == Some((r.name, r.duration, t3)),
{
    let t2 = dec_digits(r.duration as nat) + t3;
    let t1 = ",\"duration_ns\":"@ + t2;
    let t0 = enc_string(r.name) + t1;
    let s = "{\"name\":"@ + t0;
    lemma_rt_expect("{\"name\":"@, t0);
    lemma_rt_string(r.name, t1);
    lemma_rt_expect(",\"duration_ns\":"@, t2);
    lemma_rt_u64(r.duration, t3);
}

/// Parsing the middle of an encoded result yields its optional counts.
#[verifier::rlimit(100)]
proof fn lemma_rt_result_mid(r: BenchResultView, t5: Seq<char>)
    requires
        t5.len() >= 3,
        t5[0] == ',',
        t5[2] == 'a',
    ensures
        parse_result_mid(
            (match r.bytes {
                Some(b) => ",\"bytes\":"@ + dec_digits(b as nat),
                None => Seq::<char>::empty(),
            }) + ((match r.elements {
                Some(e) => ",\"elements\":"@ + dec_digits(e as nat),
                None => Seq::<char>::empty(),
            }) + t5),
        ) == Some((r.bytes, r.elements, t5)),
{
    reveal_strlit(",\"bytes\":");
    reveal_strlit(",\"elements\":");
    let elements_part: Seq<char> = match r.elements {
        Some(e) => ",\"elements\":"@ + dec_digits(e as nat),
        None => Seq::<char>::empty(),
    };
    let t4 = elements_part + t5;
    let bytes_part: Seq<char> = match r.bytes {
        Some(b) => ",\"bytes\":"@ + dec_digits(b as nat),
        None => Seq::<char>::empty(),
    };
    let t3 = bytes_part + t4;
    match r.elements {
        Some(e) => {
            assert(t4 =~= ",\"elements\":"@ + (dec_digits(e as nat) + t5));
            lemma_rt_expect(",\"elements\":"@, dec_digits(e as nat) + t5);
            lemma_rt_u64(e, t5);
            assert(parse_opt_u64_field(t4, ",\"elements\":"@) == Some((r.elements, t5)));
        },
        None => {
            assert(t4 == t5);
            if expect(t5, ",\"elements\":"@) is Some {
                assert(t5.take(12)[2] == (",\"elements\":"@)[2]);
            }
            assert(parse_opt_u64_field(t4, ",\"elements\":"@) == Some((r.elements, t5)));
        },
    }
    assert(t4.len() >= 3 && t4[0] == ',');
    assert(match r.elements {
        Some(e) => t4[2] == 'e',
        None => t4[2] == 'a',
    });
    match r.bytes {
        Some(b) => {
            assert(t3 =~= ",\"bytes\":"@ + (dec_digits(b as nat) + t4));
            lemma_rt_expect(",\"bytes\":"@, dec_digits(b as nat) + t4);
            lemma_rt_u64(b, t4);
            assert(parse_opt_u64_field(t3, ",\"bytes\":"@) == Some((r.bytes, t4)));
        },
        None => {
            assert(t3 == t4);
            if expect(t4, ",\"bytes\":"@) is Some {
                assert(t4.take(9)[2] == (",\"bytes\":"@)[2]);
            }
            assert(parse_opt_u64_field(t3, ",\"bytes\":"@) == Some((r.bytes, t4)));
        },
    }
}

/// Parsing the tail of an encoded result yields its runs and tags.
#[verifier::rlimit(100)]
proof fn lemma_rt_result_tail(r: BenchResultView, rest: Seq<char>)
    ensures
        parse_result_tail(
            ",\"all_runs_ns\":"@ + (enc_u64_array(r.all_runs) + (",\"tags\":"@ + (enc_map(
                r.tags,
            ) + (seq!['}'] + rest)))),
        ) == Some((r.all_runs, r.tags, rest)),
{
    let t9 = seq!['}'] + rest;
    let t8 = enc_map(r.tags) + t9;
    let t7 = ",\"tags\":"@ + t8;
    let t6 = enc_u64_array(r.all_runs) + t7;
    lemma_rt_expect(",\"all_runs_ns\":"@, t6);
    lemma_rt_u64_array(r.all_runs, t7);
    lemma_rt_expect(",\"tags\":"@, t8);
    lemma_rt_map(r.tags, t9);
    assert(t9[0] == '}');
    assert(t9.drop_first() =~= rest);
}

/// Parsing one encoded result yields the original result.
#[verifier::rlimit(100)]
pub proof fn lemma_rt_result(r: BenchResultView, rest: Seq<char>)
    ensures
        parse_result(enc_result(r) + rest) == Some((r, rest)),
{
    reveal(parse_result);
    reveal_strlit("{\"name\":");
    reveal_strlit(",\"duration_ns\":");
    reveal_strlit(",\"bytes\":");
    reveal_strlit(",\"elements\":");
    reveal_strlit(",\"all_runs_ns\":");
    let s1 = "{\"name\":"@;
    let s2 = enc_string(r.name);
    let s3 = ",\"duration_ns\":"@;
    let s4 = dec_digits(r.duration as nat);
    let s5: Seq<char> = match r.bytes {
        Some(b) => ",\"bytes\":"@ + dec_digits(b as nat),
        None => Seq::<char>::empty(),
    };
    let s6: Seq<char> = match r.elements {
        Some(e) => ",\"elements\":"@ + dec_digits(e as nat),
        None => Seq::<char>::empty(),
    };
    let s7 = ",\"all_runs_ns\":"@;
    let s8 = enc_u64_array(r.all_runs);
    let s9 = ",\"tags\":"@;
    let s10 = enc_map(r.tags);
    let s11 = seq!['}'];
    let r11 = s11;
    let r10 = s10 + r11;
    let r9 = s9 + r10;
    let r8 = s8 + r9;
    let r7 = s7 + r8;
    let r6 = s6 + r7;
    let r5 = s5 + r6;
    let r4 = s4 + r5;
    let r3 = s3 + r4;
    let r2 = s2 + r3;
    assert(enc_result(r) == s1 + r2);
    let t11 = s11 + rest;
    assert(r11 + rest == t11);
    vstd::seq_lib::lemma_concat_associative(s10, r11, rest);
    let t10 = s10 + t11;
    assert(r10 + rest == t10);
    vstd::seq_lib::lemma_concat_associative(s9, r10, rest);
    let t9 = s9 + t10;
    assert(r9 + rest == t9);
    vstd::seq_lib::lemma_concat_associative(s8, r9, rest);
    let t8 = s8 + t9;
    assert(r8 + rest == t8);
    vstd::seq_lib::lemma_concat_associative(s7, r8, rest);
    let t7 = s7 + t8;
    assert(r7 + rest == t7);
    vstd::seq_lib::lemma_concat_associative(s6, r7, rest);
    let t6 = s6 + t7;
    assert(r6 + rest == t6);
    vstd::seq_lib::lemma_concat_associative(s5, r6, rest);
    let t5 = s5 + t6;
    assert(r5 + rest == t5);
    vstd::seq_lib::lemma_concat_associative(s4, r5, rest);
    let t4 = s4 + t5;
    assert(r4 + rest == t4);
    vstd::seq_lib::lemma_concat_associative(s3, r4, rest);
    let t3 = s3 + t4;
    assert(r3 + rest == t3);
    vstd::seq_lib::lemma_concat_associative(s2, r3, rest);
    let t2 = s2 + t3;
    assert(r2 + rest == t2);
    vstd::seq_lib::lemma_concat_associative(s1, r2, rest);
    assert(enc_result(r) + rest == s1 + t2);
    assert(t4 == s4 + t5);
    assert(t3 == s3 + (s4 + t5));
    assert(t2 == s2 + (s3 + (s4 + t5)));
    assert(enc_result(r) + rest == s1 + (s2 + (s3 + (s4 + t5))));
    assert(t5[0] == ',') by {
        match r.bytes {
            Some(b) => {},
            None => {
                match r.elements {
                    Some(e) => {
                        assert(t5 =~= s6 + t7);
                    },
                    None => {
                        assert(t5 =~= t7);
                    },
                }
            },
        }
    }
    assert(t7[0] == ',' && t7[2] == 'a');
    lemma_rt_result_head(r, t5);
    assert(t5 =~= s5 + (s6 + t7));
    lemma_rt_result_mid(r, t7);
    assert(t7 =~= s7 + (s8 + (s9 + (s10 + (s11 + rest)))));
    lemma_rt_result_tail(r, rest);
    assert(parse_result_head(enc_result(r) + rest) == Some((r.name, r.duration, t5)));
    assert(parse_result_mid(t5) == Some((r.bytes, r.elements, t7)));
    assert(parse_result_tail(t7) == Some((r.all_runs, r.tags, rest)));
}

/// The encoded items of a result array, comma separated.
pub open spec fn enc_result_items(rs: Seq<BenchResultView>) -> Seq<char>
    decreases rs.len(),
{
    if rs.len() == 0 {
        Seq::empty()
    } else if rs.len() == 1 {
        enc_result(rs[0])
    } else {
        enc_result(rs[0]) + seq![','] + enc_result_items(rs.drop_first())
    }
}

/// An encoded result array, brackets included.
pub open spec fn enc_result_array(rs: Seq<BenchResultView>) -> Seq<char> {
    if rs.len() == 0 {
        seq!['[', ']']
    } else {
        seq!['['] + enc_result_items(rs) + seq![']']
    }
}

/// Parse comma-separated results; `fuel` bounds the number of items.
pub open spec fn parse_result_items(s: Seq<char>, fuel: nat) -> Option<
    (Seq<BenchResultView>, Seq<char>),
>
    decreases fuel,
{
    if fuel == 0 {
        None
    } else {
        match parse_result(s) {
            None => None,
            Some((r, rem)) => {
                if rem.len() > 0 && rem[0] == ',' {
                    match parse_result_items(rem.drop_first(), (fuel - 1) as nat) {
                        Some((rs, rem2)) => Some((seq![r] + rs, rem2)),
                        None => None,
                    }
                } else {
                    Some((seq![r], rem))
                }
            },
        }
    }
}

/// Parse a result array, brackets included.
pub open spec fn parse_result_array(s: Seq<char>) -> Option<(Seq<BenchResultView>, Seq<char>)> {
    if s.len() >= 2 && s[0] == '[' && s[1] == ']' {
        Some((Seq::empty(), s.skip(2)))
    } else if s.len() >= 1 && s[0] == '[' {
        match parse_result_items(s.drop_first(), s.len() as nat) {
            Some((rs, r)) => {
                if r.len() >= 1 && r[0] == ']' {
                    Some((rs, r.drop_first()))
                } else {
                    None
                }
            },
            None => None,
        }
    } else {
        None
    }
}

/// Encoded result items never number fewer characters than items.
pub proof fn lemma_enc_result_items_len(rs: Seq<BenchResultView>)
    ensures
        enc_result_items(rs).len() >= rs.len(),
    decreases rs.len(),
{
    reveal_strlit("{\"name\":");
    if rs.len() > 1 {
        lemma_enc_result_items_len(rs.drop_first());
    }
}

/// Parsing encoded result items yields the original results, with any fuel
/// at least the item count, when the input continues with the closing
/// bracket.
#[verifier::rlimit(100)]
pub proof fn lemma_rt_result_items(rs: Seq<BenchResultView>, rest: Seq<char>, fuel: nat)
    requires
        rs.len() >= 1,
        fuel >= rs.len(),
        rest.len() >= 1,
        rest[0] == ']',
    ensures
        parse_result_items(enc_result_items(rs) + rest, fuel) == Some((rs, rest)),
    decreases rs.len(),
{
    let s = enc_result_items(rs) + rest;
    if rs.len() == 1 {
        assert(s =~= enc_result(rs[0]) + rest);
        lemma_rt_result(rs[0], rest);
        assert(seq![rs[0]] =~= rs);
    } else {
        let t = enc_result_items(rs.drop_first()) + rest;
        assert(s =~= enc_result(rs[0]) + (seq![','] + t));
        lemma_rt_result(rs[0], seq![','] + t);
        assert((seq![','] + t).drop_first() =~= t);
        lemma_rt_result_items(rs.drop_first(), rest, (fuel - 1) as nat);
        assert(seq![rs[0]] + rs.drop_first() =~= rs);
    }
}

/// Parsing an encoded result array yields the original results.
pub proof fn lemma_rt_result_array(rs: Seq<BenchResultView>, rest: Seq<char>)
    ensures
        parse_result_array(enc_result_array(rs) + rest) == Some((rs, rest)),
{
    reveal_strlit("{\"name\":");
    let s = enc_result_array(rs) + rest;
    if rs.len() == 0 {
        assert(s[0] == '[' && s[1] == ']');
        assert(s.skip(2) =~= rest);
    } else {
        assert(s =~= seq!['['] + (enc_result_items(rs) + (seq![']'] + rest)));
        assert(s[0] == '[');
        assert(enc_result_items(rs)[0] == '{');
        assert(s[1] == '{');
        assert(s.drop_first() =~= enc_result_items(rs) + (seq![']'] + rest));
        lemma_enc_result_items_len(rs);
        lemma_rt_result_items(rs, seq![']'] + rest, s.len() as nat);
        assert((seq![']'] + rest).drop_first() =~= rest);
    }
}

/// The encoded form of a whole suite result: fixed keys in a fixed order,
/// the revision present exactly when known.
pub open spec fn enc_suite(v: SuiteResultView) -> Seq<char> {
    "{\"suite\":"@ + (enc_string(v.suite) + (",\"results\":"@ + (enc_result_array(v.results)
        + (",\"total_duration_ns\":"@ + (dec_digits(v.total_duration as nat) + enc_suite_mid(
        v,
    ))))))
}

/// The encoded form of a suite from its timestamp marker on.
pub open spec fn enc_suite_mid(v: SuiteResultView) -> Seq<char> {
    ",\"started_at\":"@ + (enc_string(v.started_at) + (",\"runs\":"@ + (dec_digits(
        v.runs as nat,
    ) + (",\"warmup_runs\":"@ + (dec_digits(v.warmup_runs as nat) + enc_suite_back(v))))))
}

/// The encoded form of a suite after its run counts.
pub open spec fn enc_suite_back(v: SuiteResultView) -> Seq<char> {
    (match v.git_sha {
        Some(sha) => ",\"revision\":"@ + enc_string(sha),
        None => Seq::<char>::empty(),
    }) + (",\"metadata\":"@ + (enc_map(v.metadata) + seq!['}']))
}

/// Parse the leading fields of an encoded suite: its name and results.
pub open spec fn parse_suite_head(s: Seq<char>) -> Option<
    (Seq<char>, Seq<BenchResultView>, Seq<char>),
> {
    match expect(s, "{\"suite\":"@) {
        None => None,
        Some(r0) => match parse_string(r0) {
            None => None,
            Some((suite, r1)) => match expect(r1, ",\"results\":"@) {
                None => None,
                Some(r2) => match parse_result_array(r2) {
                    None => None,
                    Some((results, r3)) => Some((suite, results, r3)),
                },
            },
        },
    }
}

/// Parse the middle fields of an encoded suite: total duration, timestamp
/// marker and run counts.
pub open spec fn parse_suite_mid(s: Seq<char>) -> Option<(u64, Seq<char>, u64, u64, Seq<char>)> {
    match expect(s, ",\"total_duration_ns\":"@) {
        None => None,
        Some(r4) => match parse_u64(r4) {
            None => None,
            Some((total_duration, r5)) => match expect(r5, ",\"started_at\":"@) {
                None => None,
                Some(r6) => match parse_string(r6) {
                    None => None,
                    Some((started_at, r7)) => match expect(r7, ",\"runs\":"@) {
                        None => None,
                        Some(r8) => match parse_u64(r8) {
                            None => None,
                            Some((runs, r9)) => match expect(r9, ",\"warmup_runs\":"@) {
                                None => None,
                                Some(r10) => match parse_u64(r10) {
                                    None => None,
                                    Some((warmup_runs, r11)) => Some(
                                        (total_duration, started_at, runs, warmup_runs, r11),
                                    ),
                                },
                            },
                        },
                    },
                },
            },
        },
    }
}

/// Parse the trailing fields of an encoded suite: the optional revision,
/// the metadata and the closing brace.
pub open spec fn parse_suite_tail(s: Seq<char>) -> Option<
    (Option<Seq<char>>, Seq<(Seq<char>, Seq<char>)>, Seq<char>),
> {
    match parse_opt_string_field(s, ",\"revision\":"@) {
        None => None,
        Some((git_sha, r12)) => match expect(r12, ",\"metadata\":"@) {
            None => None,
            Some(r13) => match parse_map(r13) {
                None => None,
                Some((metadata, r14)) => {
                    if r14.len() >= 1 && r14[0] == '}' {
                        Some((git_sha, metadata, r14.drop_first()))
                    } else {
                        None
                    }
                },
            },
        },
    }
}

/// Parse one encoded suite result object.
#[verifier::opaque]
pub open spec fn parse_suite_obj(s: Seq<char>) -> Option<(SuiteResultView, Seq<char>)> {
    match parse_suite_head(s) {
        None => None,
        Some((suite, results, r3)) => match parse_suite_mid(r3) {
            None => None,
            Some((total_duration, started_at, runs, warmup_runs, r11)) => match parse_suite_tail(
                r11,
            ) {
                None => None,
                Some((git_sha, metadata, rest)) => Some(
                    (
                        SuiteResultView {
                            suite,
                            results,
                            total_duration,
                            started_at,
                            runs,
                            warmup_runs,
                            git_sha,
                            metadata,
                        },
                        rest,
                    ),
                ),
            },
        },
    }
}

/// Parse a persisted suite: the whole input must be one encoded suite.
pub open spec fn parse_suite_spec(s: Seq<char>) -> Option<SuiteResultView> {
    match parse_suite_obj(s) {
        Some((v, rest)) => {
            if rest.len() == 0 {
                Some(v)
            } else {
                None
            }
        },
        None => None,
    }
}

/// Parsing the head of an encoded suite yields its name and results.
#[verifier::rlimit(100)]
proof fn lemma_rt_suite_head(v: SuiteResultView, t2: Seq<char>)
    ensures
        parse_suite_head(
            "{\"suite\":"@ + (enc_string(v.suite) + (",\"results\":"@ + (enc_result_array(
                v.results,
            ) + t2))),
        ) == Some((v.suite, v.results, t2)),
{
    let t1 = enc_result_array(v.results) + t2;
    let t0 = ",\"results\":"@ + t1;
    let ts = enc_string(v.suite) + t0;
    lemma_rt_expect("{\"suite\":"@, ts);
    lemma_rt_string(v.suite, t0);
    lemma_rt_expect(",\"results\":"@, t1);
    lemma_rt_result_array(v.results, t2);
}

/// Parsing the middle of an encoded suite yields its totals and counts.
#[verifier::rlimit(100)]
proof fn lemma_rt_suite_mid(v: SuiteResultView, t10: Seq<char>)
    requires
        t10.len() >= 1,
        t10[0] == ',',
    ensures
        parse_suite_mid(
            ",\"total_duration_ns\":"@ + (dec_digits(v.total_duration as nat) + (
            ",\"started_at\":"@ + (enc_string(v.started_at) + (",\"runs\":"@ + (dec_digits(
                v.runs as nat,
            ) + (",\"warmup_runs\":"@ + (dec_digits(v.warmup_runs as nat) + t10))))))),
        ) == Some((v.total_duration, v.started_at, v.runs, v.warmup_runs, t10)),
{
    reveal_strlit(",\"started_at\":");
    reveal_strlit(",\"runs\":");
    reveal_strlit(",\"warmup_runs\":");
    let t9 = dec_digits(v.warmup_runs as nat) + t10;
    let t8 = ",\"warmup_runs\":"@ + t9;
    let t7 = dec_digits(v.runs as nat) + t8;
    let t6 = ",\"runs\":"@ + t7;
    let t5 = enc_string(v.started_at) + t6;
    let t4 = ",\"started_at\":"@ + t5;
    let t3 = dec_digits(v.total_duration as nat) + t4;
    lemma_rt_expect(",\"total_duration_ns\":"@, t3);
    assert(t4[0] == ',');
    lemma_rt_u64(v.total_duration, t4);
    lemma_rt_expect(",\"started_at\":"@, t5);
    lemma_rt_string(v.started_at, t6);
    lemma_rt_expect(",\"runs\":"@, t7);
    assert(t8[0] == ',');
    lemma_rt_u64(v.runs, t8);
    lemma_rt_expect(",\"warmup_runs\":"@, t9);
    assert(t10[0] == ',');
    lemma_rt_u64(v.warmup_runs, t10);
}

/// Parsing the tail of an encoded suite yields its revision and metadata.
#[verifier::rlimit(100)]
proof fn lemma_rt_suite_tail(v: SuiteResultView, rest: Seq<char>)
    ensures
        parse_suite_tail(
            (match v.git_sha {
                Some(sha) => ",\"revision\":"@ + enc_string(sha),
                None => Seq::<char>::empty(),
            }) + (",\"metadata\":"@ + (enc_map(v.metadata) + (seq!['}'] + rest))),
        ) == Some((v.git_sha, v.metadata, rest)),
{
    reveal_strlit(",\"revision\":");
    reveal_strlit(",\"metadata\":");
    let t13 = seq!['}'] + rest;
    let t12 = enc_map(v.metadata) + t13;
    let t11 = ",\"metadata\":"@ + t12;
    let revision_part: Seq<char> = match v.git_sha {
        Some(sha) => ",\"revision\":"@ + enc_string(sha),
        None => Seq::<char>::empty(),
    };
    let t10 = revision_part + t11;
    match v.git_sha {
        Some(sha) => {
            assert(t10 =~= ",\"revision\":"@ + (enc_string(sha) + t11));
            lemma_rt_expect(",\"revision\":"@, enc_string(sha) + t11);
            lemma_rt_string(sha, t11);
            assert(parse_opt_string_field(t10, ",\"revision\":"@) == Some((v.git_sha, t11)));
        },
        None => {
            assert(t10 == t11);
            assert(t11[2] == 'm');
            if expect(t11, ",\"revision\":"@) is Some {
                assert(t11.take(12)[2] == (",\"revision\":"@)[2]);
            }
            assert(parse_opt_string_field(t10, ",\"revision\":"@) == Some((v.git_sha, t11)));
        },
    }
    lemma_rt_expect(",\"metadata\":"@, t12);
    lemma_rt_map(v.metadata, t13);
    assert(t13[0] == '}');
    assert(t13.drop_first() =~= rest);
}

/// Parsing one encoded suite object yields the original suite.
#[verifier::rlimit(100)]
pub proof fn lemma_rt_suite_obj(v: SuiteResultView, rest: Seq<char>)
    ensures
        parse_suite_obj(enc_suite(v) + rest) == Some((v, rest)),
{
    reveal(parse_suite_obj);
    reveal_strlit("{\"suite\":");
    reveal_strlit(",\"total_duration_ns\":");
    reveal_strlit(",\"revision\":");
    reveal_strlit(",\"metadata\":");
    let s1 = "{\"suite\":"@;
    let s2 = enc_string(v.suite);
    let s3 = ",\"results\":"@;
    let s4 = enc_result_array(v.results);
    let s5 = ",\"total_duration_ns\":"@;
    let s6 = dec_digits(v.total_duration as nat);
    let s7 = ",\"started_at\":"@;
    let s8 = enc_string(v.started_at);
    let s9 = ",\"runs\":"@;
    let s10 = dec_digits(v.runs as nat);
    let s11 = ",\"warmup_runs\":"@;
    let s12 = dec_digits(v.warmup_runs as nat);
    let s13: Seq<char> = match v.git_sha {
        Some(sha) => ",\"revision\":"@ + enc_string(sha),
        None => Seq::<char>::empty(),
    };
    let s14 = ",\"metadata\":"@;
    let s15 = enc_map(v.metadata);
    let s16 = seq!['}'];
    let r16 = s16;
    let r15 = s15 + r16;
    let r14 = s14 + r15;
    let r13 = s13 + r14;
    let r12 = s12 + r13;
    let r11 = s11 + r12;
    let r10 = s10 + r11;
    let r9 = s9 + r10;
    let r8 = s8 + r9;
    let r7 = s7 + r8;
    let r6 = s6 + r7;
    let r5 = s5 + r6;
    let r4 = s4 + r5;
    let r3 = s3 + r4;
    let r2 = s2 + r3;
    assert(enc_suite(v) == s1 + r2);
    let t16 = s16 + rest;
    assert(r16 + rest == t16);
    vstd::seq_lib::lemma_concat_associative(s15, r16, rest);
    let t15 = s15 + t16;
    assert(r15 + rest == t15);
    vstd::seq_lib::lemma_concat_associative(s14, r15, rest);
    let t14 = s14 + t15;
    assert(r14 + rest == t14);
    vstd::seq_lib::lemma_concat_associative(s13, r14, rest);
    let t13 = s13 + t14;
    assert(r13 + rest == t13);
    vstd::seq_lib::lemma_concat_associative(s12, r13, rest);
    let t12 = s12 + t13;
    assert(r12 + rest == t12);
    vstd::seq_lib::lemma_concat_associative(s11, r12, rest);
    let t11 = s11 + t12;
    assert(r11 + rest == t11);
    vstd::seq_lib::lemma_concat_associative(s10, r11, rest);
    let t10 = s10 + t11;
    assert(r10 + rest == t10);
    vstd::seq_lib::lemma_concat_associative(s9, r10, rest);
    let t9 = s9 + t10;
    assert(r9 + rest == t9);
    vstd::seq_lib::lemma_concat_associative(s8, r9, rest);
    let t8 = s8 + t9;
    assert(r8 + rest == t8);
    vstd::seq_lib::lemma_concat_associative(s7, r8, rest);
    let t7 = s7 + t8;
    assert(r7 + rest == t7);
    vstd::seq_lib::lemma_concat_associative(s6, r7, rest);
    let t6 = s6 + t7;
    assert(r6 + rest == t6);
    vstd::seq_lib::lemma_concat_associative(s5, r6, rest);
    let t5 = s5 + t6;
    assert(r5 + rest == t5);
    vstd::seq_lib::lemma_concat_associative(s4, r5, rest);
    let t4 = s4 + t5;
    assert(r4 + rest == t4);
    vstd::seq_lib::lemma_concat_associative(s3, r4, rest);
    let t3 = s3 + t4;
    assert(r3 + rest == t3);
    vstd::seq_lib::lemma_concat_associative(s2, r3, rest);
    let t2 = s2 + t3;
    assert(r2 + rest == t2);
    vstd::seq_lib::lemma_concat_associative(s1, r2, rest);
    assert(enc_suite(v) + rest == s1 + t2);
    assert(t4 == s4 + t5);
    assert(t3 == s3 + (s4 + t5));
    assert(t2 == s2 + (s3 + (s4 + t5)));
    assert(enc_suite(v) + rest == s1 + (s2 + (s3 + (s4 + t5))));
    lemma_rt_suite_head(v, t5);
    assert(t5 =~= s5 + (s6 + (s7 + (s8 + (s9 + (s10 + (s11 + (s12 + t13))))))));
    assert(t13[0] == ',') by {
        match v.git_sha {
            Some(sha) => {},
            None => {
                assert(t13 =~= t14);
            },
        }
    }
    lemma_rt_suite_mid(v, t13);
    assert(t13 =~= s13 + (s14 + (s15 + (s16 + rest))));
    lemma_rt_suite_tail(v, rest);
    assert(parse_suite_head(enc_suite(v) + rest) == Some((v.suite, v.results, t5)));
    assert(parse_suite_mid(t5) == Some((v.total_duration, v.started_at, v.runs, v.warmup_runs, t13)));
    assert(parse_suite_tail(t13) == Some((v.git_sha, v.metadata, rest)));
}

/// Round trip: parsing a persisted suite yields exactly the suite that was
/// persisted — every name, every integer nanosecond duration, and the order
/// of results all come back unchanged.
pub proof fn lemma_suite_round_trip(v: SuiteResultView)
    ensures
        parse_suite_spec(enc_suite(v)) == Some(v),
{
    lemma_rt_suite_obj(v, Seq::empty());
    assert(enc_suite(v) + Seq::<char>::empty() =~= enc_suite(v));
}

/// A one-character string for the hexadecimal digit `d`.
fn hex_str(d: u32) -> (r: &'static str)
    requires
        d < 16,
    ensures
        r@ == seq![hex_char(d as nat)],
{
    if d < 10 {
        digit_str(d as u64)
    } else {
        let r: &'static str = if d == 10 {
            "a"
        } else if d == 11 {
            "b"
        } else if d == 12 {
            "c"
        } else if d == 13 {
            "d"
        } else if d == 14 {
            "e"
        } else {
            "f"
        };
        proof {
            reveal_strlit("a");
            reveal_strlit("b");
            reveal_strlit("c");
            reveal_strlit("d");
            reveal_strlit("e");
            reveal_strlit("f");
            assert(r@ =~= seq![hex_char(d as nat)]);
        }
        r
    }
}

/// Escaping one more character extends the escaped body at its end.
proof fn lemma_esc_push(a: Seq<char>, c: char)
    ensures
        esc_string(a.push(c)) == esc_string(a) + esc_char(c),
    decreases a.len(),
{
    if a.len() == 0 {
        assert(a.push(c).drop_first() =~= Seq::<char>::empty());
        assert(a.push(c)[0] == c);
        assert(a.push(c).len() == 1);
        assert(esc_string(a.push(c)) == esc_char(c) + esc_string(Seq::<char>::empty()));
        assert(esc_string(a.push(c)) =~= esc_string(a) + esc_char(c));
    } else {
        lemma_esc_push(a.drop_first(), c);
        assert(a.push(c).drop_first() =~= a.drop_first().push(c));
        assert(a.push(c)[0] == a[0]);
        assert(esc_string(a.push(c)) =~= esc_string(a) + esc_char(c));
    }
}

/// Append one encoded JSON string, quotes and escapes included.
#[verifier::loop_isolation(false)]
fn push_json_string(s: &str, out: &mut String)
    ensures
        final(out)@ == old(out)@ + enc_string(s@),
{
    push_char(out, '"');
    let n = s.unicode_len();
    let ghost mid = out@;
    let mut i: usize = 0;
    while i < n
        invariant
            0 <= i <= n,
            out@ == mid + esc_string(s@.take(i as int)),
        decreases n - i,
    {
        let c = s.get_char(i);
        if c == '"' {
            out.append("\\\"");
            proof {
                reveal_strlit("\\\"");
            }
        } else if c == '\\' {
            out.append("\\\\");
            proof {
                reveal_strlit("\\\\");
            }
        } else if (c as u32) < 32 {
            out.append("\\u00");
            out.append(hex_str((c as u32) / 16));
            out.append(hex_str((c as u32) % 16));
            proof {
                reveal_strlit("\\u00");
            }
        } else {
            push_char(out, c);
        }
        proof {
            lemma_esc_push(s@.take(i as int), s@[i as int]);
            assert(s@.take(i + 1) =~= s@.take(i as int).push(s@[i as int]));
            assert(out@ =~= mid + esc_string(s@.take(i + 1)));
        }
        i = i + 1;
    }
    proof {
        assert(s@.take(n as int) =~= s@);
    }
    push_char(out, '"');
    proof {
        assert(out@ =~= old(out)@ + enc_string(s@));
    }
}

/// Encoding one more duration extends the encoded items at their end.
proof fn lemma_u64_items_snoc(a: Seq<u64>, x: u64)
    requires
        a.len() >= 1,
    ensures
        enc_u64_items(a.push(x)) == enc_u64_items(a) + seq![','] + dec_digits(x as nat),
    decreases a.len(),
{
    if a.len() == 1 {
        assert(a.push(x).drop_first() =~= seq![x]);
        assert(a.push(x)[0] == a[0]);
        assert(enc_u64_items(seq![x]) == dec_digits(x as nat));
        assert(enc_u64_items(a.push(x)) =~= enc_u64_items(a) + seq![','] + dec_digits(x as nat));
    } else {
        lemma_u64_items_snoc(a.drop_first(), x);
        assert(a.push(x).drop_first() =~= a.drop_first().push(x));
        assert(a.push(x)[0] == a[0]);
        assert(enc_u64_items(a.push(x)) =~= enc_u64_items(a) + seq![','] + dec_digits(x as nat));
    }
}

/// Append an encoded duration array.
#[verifier::loop_isolation(false)]
fn push_u64_array(v: &Vec<u64>, out: &mut String)
    ensures
        final(out)@ == old(out)@ + enc_u64_array(v@),
{
    push_char(out, '[');
    let ghost mid = out@;
    let mut i: usize = 0;
    while i < v.len()
        invariant
            0 <= i <= v@.len(),
            out@ == mid + enc_u64_items(v@.take(i as int)),
        decreases v@.len() - i,
    {
        if i > 0 {
            push_char(out, ',');
        }
        push_u64_digits(v[i], out);
        proof {
            assert(v@.take(i + 1) =~= v@.take(i as int).push(v@[i as int]));
            if i > 0 {
                lemma_u64_items_snoc(v@.take(i as int), v@[i as int]);
            }
            assert(out@ =~= mid + enc_u64_items(v@.take(i + 1)));
        }
        i = i + 1;
    }
    proof {
        assert(v@.take(v@.len() as int) =~= v@);
    }
    push_char(out, ']');
    proof {
        assert(out@ =~= old(out)@ + enc_u64_array(v@));
    }
}

/// Encoding one more entry extends the encoded map items at their end.
proof fn lemma_map_items_snoc(m: Seq<(Seq<char>, Seq<char>)>, k: Seq<char>, v: Seq<char>)
    requires
        m.len() >= 1,
    ensures
        enc_map_items(m.push((k, v))) == enc_map_items(m) + seq![','] + enc_entry(k, v),
    decreases m.len(),
{
    if m.len() == 1 {
        assert(m.push((k, v)).drop_first() =~= seq![(k, v)]);
        assert(m.push((k, v))[0] == m[0]);
        assert(m.push((k, v)).len() == 2);
        assert(seq![(k, v)][0] == (k, v));
        assert(enc_map_items(seq![(k, v)]) == enc_entry(k, v));
        assert(enc_map_items(m.push((k, v))) == enc_entry(m[0].0, m[0].1) + seq![',']
            + enc_map_items(m.push((k, v)).drop_first()));
        assert(enc_map_items(m) == enc_entry(m[0].0, m[0].1));
        assert(enc_map_items(m.push((k, v))) =~= enc_map_items(m) + seq![','] + enc_entry(k, v));
    } else {
        lemma_map_items_snoc(m.drop_first(), k, v);
        assert(m.push((k, v)).drop_first() =~= m.drop_first().push((k, v)));
        assert(m.push((k, v))[0] == m[0]);
        assert(enc_map_items(m.push((k, v))) =~= enc_map_items(m) + seq![','] + enc_entry(k, v));
    }
}

/// Append an encoded string map.
#[verifier::loop_isolation(false)]
fn push_map(m: &Vec<(String, String)>, out: &mut String)
    ensures
        final(out)@ == old(out)@ + enc_map(pairs_view(m@)),
{
    push_char(out, '{');
    let ghost mid = out@;
    let mut i: usize = 0;
    while i < m.len()
        invariant
            0 <= i <= m@.len(),
            out@ == mid + enc_map_items(pairs_view(m@.take(i as int))),
        decreases m@.len() - i,
    {
        if i > 0 {
            push_char(out, ',');
        }
        push_json_string(m[i].0.as_str(), out);
        push_char(out, ':');
        push_json_string(m[i].1.as_str(), out);
        proof {
            assert(pairs_view(m@.take(i + 1)) =~= pairs_view(m@.take(i as int)).push(
                (m@[i as int].0@, m@[i as int].1@),
            ));
            if i > 0 {
                assert(pairs_view(m@.take(i as int)).len() >= 1);
                lemma_map_items_snoc(
                    pairs_view(m@.take(i as int)),
                    m@[i as int].0@,
                    m@[i as int].1@,
                );
            }
            assert(out@ =~= mid + enc_map_items(pairs_view(m@.take(i + 1))));
        }
        i = i + 1;
    }
    proof {
        assert(m@.take(m@.len() as int) =~= m@);
        assert(pairs_view(m@).len() == m@.len());
    }
    push_char(out, '}');
    proof {
        assert(out@ =~= old(out)@ + enc_map(pairs_view(m@)));
    }
}

/// Append one encoded benchmark result.
#[verifier::rlimit(100)]
fn push_result(r: &BenchResult, out: &mut String)
    ensures
        final(out)@ == old(out)@ + enc_result(r@),
{
    let ghost o = out@;
    let ghost s1 = "{\"name\":"@;
    let ghost s2 = enc_string(r.name@);
    let ghost s3 = ",\"duration_ns\":"@;
    let ghost s4 = dec_digits(r.duration as nat);
    let ghost s5: Seq<char> = match r@.bytes {
        Some(b) => ",\"bytes\":"@ + dec_digits(b as nat),
        None => Seq::<char>::empty(),
    };
    let ghost s6: Seq<char> = match r@.elements {
        Some(e) => ",\"elements\":"@ + dec_digits(e as nat),
        None => Seq::<char>::empty(),
    };
    let ghost s7 = ",\"all_runs_ns\":"@;
    let ghost s8 = enc_u64_array(r.all_runs@);
    let ghost s9 = ",\"tags\":"@;
    let ghost s10 = enc_map(pairs_view(r.tags@));
    let ghost s11 = seq!['}'];
    out.append("{\"name\":");
    push_json_string(r.name.as_str(), out);
    out.append(",\"duration_ns\":");
    push_u64_digits(r.duration, out);
    let ghost l4 = out@;
    assert(l4 == o + s1 + s2 + s3 + s4);
    match r.bytes {
        Some(b) => {
            out.append(",\"bytes\":");
            push_u64_digits(b, out);
            proof {
                assert(out@ =~= l4 + s5);
            }
        },
        None => {
            proof {
                assert(out@ =~= l4 + s5);
            }
        },
    }
    let ghost l5 = out@;
    match r.elements {
        Some(e) => {
            out.append(",\"elements\":");
            push_u64_digits(e, out);
            proof {
                assert(out@ =~= l5 + s6);
            }
        },
        None => {
            proof {
                assert(out@ =~= l5 + s6);
            }
        },
    }
    out.append(",\"all_runs_ns\":");
    push_u64_array(&r.all_runs, out);
    out.append(",\"tags\":");
    push_map(&r.tags, out);
    push_char(out, '}');
    proof {
        assert(out@ == l5 + s6 + s7 + s8 + s9 + s10 + s11);
        let r11 = s11;
        let r10 = s10 + r11;
        let r9 = s9 + r10;
        let r8 = s8 + r9;
        let r7 = s7 + r8;
        let r6 = s6 + r7;
        let r5 = s5 + r6;
        let r4 = s4 + r5;
        let r3 = s3 + r4;
        let r2 = s2 + r3;
        assert(enc_result(r@) == s1 + r2);
        vstd::seq_lib::lemma_concat_associative(l5 + s6 + s7 + s8 + s9, s10, s11);
        vstd::seq_lib::lemma_concat_associative(l5 + s6 + s7 + s8, s9, r10);
        vstd::seq_lib::lemma_concat_associative(l5 + s6 + s7, s8, r9);
        vstd::seq_lib::lemma_concat_associative(l5 + s6, s7, r8);
        vstd::seq_lib::lemma_concat_associative(l5, s6, r7);
        assert(out@ == l5 + r6);
        vstd::seq_lib::lemma_concat_associative(l4, s5, r6);
        assert(out@ == l4 + r5);
        vstd::seq_lib::lemma_concat_associative(o + s1 + s2 + s3, s4, r5);
        vstd::seq_lib::lemma_concat_associative(o + s1 + s2, s3, r4);
        vstd::seq_lib::lemma_concat_associative(o + s1, s2, r3);
        vstd::seq_lib::lemma_concat_associative(o, s1, r2);
        assert(out@ == o + (s1 + r2));
    }
}

/// Encoding one more result extends the encoded items at their end.
proof fn lemma_result_items_snoc(rs: Seq<BenchResultView>, x: BenchResultView)
    requires
        rs.len() >= 1,
    ensures
        enc_result_items(rs.push(x)) == enc_result_items(rs) + seq![','] + enc_result(x),
    decreases rs.len(),
{
    if rs.len() == 1 {
        assert(rs.push(x).drop_first() =~= seq![x]);
        assert(rs.push(x)[0] == rs[0]);
        assert(rs.push(x).len() == 2);
        assert(seq![x][0] == x);
        assert(enc_result_items(seq![x]) == enc_result(x));
        assert(enc_result_items(rs.push(x)) == enc_result(rs[0]) + seq![','] + enc_result_items(
            rs.push(x).drop_first(),
        ));
        assert(enc_result_items(rs) == enc_result(rs[0]));
        assert(enc_result_items(rs.push(x)) =~= enc_result_items(rs) + seq![','] + enc_result(x));
    } else {
        lemma_result_items_snoc(rs.drop_first(), x);
        assert(rs.push(x).drop_first() =~= rs.drop_first().push(x));
        assert(rs.push(x)[0] == rs[0]);
        assert(enc_result_items(rs.push(x)) =~= enc_result_items(rs) + seq![','] + enc_result(x));
    }
}

/// The views of a vector of results.
pub open spec fn results_view(rs: Seq<BenchResult>) -> Seq<BenchResultView> {
    rs.map_values(|r: BenchResult| r@)
}

/// Append an encoded result array.
#[verifier::loop_isolation(false)]
fn push_result_array(rs: &Vec<BenchResult>, out: &mut String)
    ensures
        final(out)@ == old(out)@ + enc_result_array(results_view(rs@)),
{
    push_char(out, '[');
    let ghost mid = out@;
    let mut i: usize = 0;
    while i < rs.len()
        invariant
            0 <= i <= rs@.len(),
            out@ == mid + enc_result_items(results_view(rs@.take(i as int))),
        decreases rs@.len() - i,
    {
        if i > 0 {
            push_char(out, ',');
        }
        push_result(&rs[i], out);
        proof {
            assert(results_view(rs@.take(i + 1)) =~= results_view(rs@.take(i as int)).push(
                rs@[i as int]@,
            ));
            if i > 0 {
                assert(results_view(rs@.take(i as int)).len() >= 1);
                lemma_result_items_snoc(results_view(rs@.take(i as int)), rs@[i as int]@);
            }
            assert(out@ =~= mid + enc_result_items(results_view(rs@.take(i + 1))));
        }
        i = i + 1;
    }
    proof {
        assert(rs@.take(rs@.len() as int) =~= rs@);
        assert(results_view(rs@).len() == rs@.len());
    }
    push_char(out, ']');
    proof {
        assert(out@ =~= old(out)@ + enc_result_array(results_view(rs@)));
    }
}

/// Encode a suite result into its persisted form.
#[verifier::rlimit(100)]
pub fn encode_suite(s: &SuiteResult) -> (r: String)
    ensures
        r@ == enc_suite(s@),
{
    let mut out = String::new();
    let ghost s1 = "{\"suite\":"@;
    let ghost s2 = enc_string(s.suite@);
    let ghost s3 = ",\"results\":"@;
    let ghost s4 = enc_result_array(results_view(s.results@));
    let ghost s5 = ",\"total_duration_ns\":"@;
    let ghost s6 = dec_digits(s.total_duration as nat);
    let ghost s7 = enc_suite_mid(s@);
    out.append("{\"suite\":");
    push_json_string(s.suite.as_str(), &mut out);
    out.append(",\"results\":");
    push_result_array(&s.results, &mut out);
    out.append(",\"total_duration_ns\":");
    push_u64_digits(s.total_duration, &mut out);
    let ghost l6 = out@;
    assert(l6 == s1 + s2 + s3 + s4 + s5 + s6);
    push_suite_mid(s, &mut out);
    proof {
        assert(out@ == l6 + s7);
        assert(results_view(s.results@) == s@.results);
        let r6 = s6 + s7;
        let r5 = s5 + r6;
        let r4 = s4 + r5;
        let r3 = s3 + r4;
        let r2 = s2 + r3;
        assert(enc_suite(s@) == s1 + r2);
        vstd::seq_lib::lemma_concat_associative(s1 + s2 + s3 + s4 + s5, s6, s7);
        assert(out@ == (s1 + s2 + s3 + s4 + s5) + r6);
        vstd::seq_lib::lemma_concat_associative(s1 + s2 + s3 + s4, s5, r6);
        vstd::seq_lib::lemma_concat_associative(s1 + s2 + s3, s4, r5);
        vstd::seq_lib::lemma_concat_associative(s1 + s2, s3, r4);
        vstd::seq_lib::lemma_concat_associative(s1, s2, r3);
        assert(out@ == s1 + r2 + Seq::<char>::empty());
        assert(s1 + r2 + Seq::<char>::empty() =~= s1 + r2);
    }
    out
}

/// Append the encoded form of a suite from its timestamp marker on.
#[verifier::rlimit(100)]
fn push_suite_mid(s: &SuiteResult, out: &mut String)
    ensures
        final(out)@ == old(out)@ + enc_suite_mid(s@),
{
    let ghost o = out@;
    let ghost s1 = ",\"started_at\":"@;
    let ghost s2 = enc_string(s.started_at@);
    let ghost s3 = ",\"runs\":"@;
    let ghost s4 = dec_digits(s.runs as nat);
    let ghost s5 = ",\"warmup_runs\":"@;
    let ghost s6 = dec_digits(s.warmup_runs as nat);
    let ghost s7 = enc_suite_back(s@);
    out.append(",\"started_at\":");
    push_json_string(s.started_at.as_str(), out);
    out.append(",\"runs\":");
    push_u64_digits(s.runs, out);
    out.append(",\"warmup_runs\":");
    push_u64_digits(s.warmup_runs, out);
    let ghost l6 = out@;
    assert(l6 == o + s1 + s2 + s3 + s4 + s5 + s6);
    push_suite_back(s, out);
    proof {
        assert(out@ == l6 + s7);
        let r6 = s6 + s7;
        let r5 = s5 + r6;
        let r4 = s4 + r5;
        let r3 = s3 + r4;
        let r2 = s2 + r3;
        assert(enc_suite_mid(s@) == s1 + r2);
        vstd::seq_lib::lemma_concat_associative(o + s1 + s2 + s3 + s4 + s5, s6, s7);
        assert(out@ == (o + s1 + s2 + s3 + s4 + s5) + r6);
        vstd::seq_lib::lemma_concat_associative(o + s1 + s2 + s3 + s4, s5, r6);
        vstd::seq_lib::lemma_concat_associative(o + s1 + s2 + s3, s4, r5);
        vstd::seq_lib::lemma_concat_associative(o + s1 + s2, s3, r4);
        vstd::seq_lib::lemma_concat_associative(o + s1, s2, r3);
        vstd::seq_lib::lemma_concat_associative(o, s1, r2);
        assert(out@ == o + (s1 + r2));
    }
}

/// Append the encoded form of a suite after its run counts.
#[verifier::rlimit(100)]
fn push_suite_back(s: &SuiteResult, out: &mut String)
    ensures
        final(out)@ == old(out)@ + enc_suite_back(s@),
{
    let ghost o = out@;
    let ghost s1: Seq<char> = match s@.git_sha {
        Some(sha) => ",\"revision\":"@ + enc_string(sha),
        None => Seq::<char>::empty(),
    };
    let ghost s2 = ",\"metadata\":"@;
    let ghost s3 = enc_map(pairs_view(s.metadata@));
    let ghost s4 = seq!['}'];
    match &s.git_sha {
        Some(sha) => {
            out.append(",\"revision\":");
            push_json_string(sha.as_str(), out);
            proof {
                assert(out@ =~= o + s1);
            }
        },
        None => {
            proof {
                assert(out@ =~= o + s1);
            }
        },
    }
    out.append(",\"metadata\":");
    push_map(&s.metadata, out);
    push_char(out, '}');
    proof {
        assert(out@ == o + s1 + s2 + s3 + s4);
        let r3 = s3 + s4;
        let r2 = s2 + r3;
        assert(enc_suite_back(s@) == s1 + r2);
        vstd::seq_lib::lemma_concat_associative(o + s1 + s2, s3, s4);
        assert(out@ == (o + s1 + s2) + r3);
        vstd::seq_lib::lemma_concat_associative(o + s1, s2, r3);
        vstd::seq_lib::lemma_concat_associative(o, s1, r2);
        assert(out@ == o + (s1 + r2));
    }
}


/// Prepend already-parsed values to a parser outcome.
pub open spec fn prepend_parsed<T>(p: Seq<T>, o: Option<(Seq<T>, Seq<char>)>) -> Option<
    (Seq<T>, Seq<char>),
> {
    match o {
        Some((v, r)) => Some((p + v, r)),
        None => None,
    }
}

/// Prepending composes by concatenation, and prepending nothing changes
/// nothing.
proof fn lemma_prepend_compose<T>(a: Seq<T>, b: Seq<T>, o: Option<(Seq<T>, Seq<char>)>)
    ensures
        prepend_parsed(a, prepend_parsed(b, o)) == prepend_parsed(a + b, o),
{
    match o {
        Some((v, r)) => {
            assert(a + (b + v) =~= (a + b) + v);
        },
        None => {},
    }
}

/// Whether `c` is an ASCII decimal digit.
fn is_digit_c(c: char) -> (r: bool)
    ensures
        r == is_digit(c),
{
    c == '0' || c == '1' || c == '2' || c == '3' || c == '4' || c == '5' || c == '6' || c == '7'
        || c == '8' || c == '9'
}

/// The value of a decimal digit character.
fn char_digit_c(c: char) -> (r: u64)
    ensures
        r == char_digit(c),
        r < 10,
{
    if c == '0' {
        0
    } else if c == '1' {
        1
    } else if c == '2' {
        2
    } else if c == '3' {
        3
    } else if c == '4' {
        4
    } else if c == '5' {
        5
    } else if c == '6' {
        6
    } else if c == '7' {
        7
    } else if c == '8' {
        8
    } else if c == '9' {
        9
    } else {
        0
    }
}

/// Whether `c` is a lower-case hexadecimal digit.
fn is_hex_lc_c(c: char) -> (r: bool)
    ensures
        r == is_hex_lc(c),
{
    is_digit_c(c) || c == 'a' || c == 'b' || c == 'c' || c == 'd' || c == 'e' || c == 'f'
}

/// The value of a lower-case hexadecimal digit character.
fn hex_val_c(c: char) -> (r: u32)
    ensures
        r == hex_val(c),
        r < 16,
{
    if c == 'a' {
        10
    } else if c == 'b' {
        11
    } else if c == 'c' {
        12
    } else if c == 'd' {
        13
    } else if c == 'e' {
        14
    } else if c == 'f' {
        15
    } else {
        char_digit_c(c) as u32
    }
}

/// Relies on char::from_u32: the character with this code point.
#[verifier::external_body]
fn char_from_code(code: u32) -> (c: char)
    requires
        code < 0xD800,
    ensures
        c == (code as char),
{
    char::from_u32(code).unwrap()
}

/// Match an exact literal at position `i`.
#[verifier::loop_isolation(false)]
fn expect_pos(cs: &Vec<char>, i: usize, lit: &str) -> (r: Option<usize>)
    requires
        i <= cs@.len(),
    ensures
        match r {
            Some(j) => i <= j <= cs@.len() && expect(cs@.skip(i as int), lit@) == Some(
                cs@.skip(j as int),
            ),
            None => expect(cs@.skip(i as int), lit@) is None,
        },
{
    let n = lit.unicode_len();
    if cs.len() - i < n {
        return None;
    }
    let mut k: usize = 0;
    while k < n
        invariant
            0 <= k <= n,
            n == lit@.len(),
            i + n <= cs@.len(),
            forall|t: int| 0 <= t < k ==> cs@[i + t] == lit@[t],
        decreases n - k,
    {
        if cs[i + k] != lit.get_char(k) {
            proof {
                if expect(cs@.skip(i as int), lit@) is Some {
                    assert(cs@.skip(i as int).take(n as int)[k as int] == lit@[k as int]);
                }
            }
            return None;
        }
        k = k + 1;
    }
    proof {
        assert(cs@.skip(i as int).take(n as int) =~= lit@);
        assert(cs@.skip(i as int).skip(n as int) =~= cs@.skip(i + n));
    }
    Some(i + n)
}

/// Folding one more digit never shrinks the value.
proof fn lemma_fold_mono(ds: Seq<char>, m1: int, m2: int)
    requires
        0 <= m1 <= m2 <= ds.len(),
    ensures
        fold_digits(ds.take(m1)) <= fold_digits(ds.take(m2)),
    decreases m2,
{
    if m1 < m2 {
        lemma_fold_mono(ds, m1, m2 - 1);
        assert(ds.take(m2).drop_last() =~= ds.take(m2 - 1));
        assert(fold_digits(ds.take(m2)) == fold_digits(ds.take(m2 - 1)) * 10 + char_digit(
            ds.take(m2).last(),
        ));
    }
}

/// Parse a decimal number at position `i`.
#[verifier::loop_isolation(false)]
pub(crate) fn parse_u64_pos(cs: &Vec<char>, i: usize) -> (r: Option<(u64, usize)>)
    requires
        i <= cs@.len(),
    ensures
        match r {
            Some(p) => i < p.1 <= cs@.len() && parse_u64(cs@.skip(i as int)) == Some(
                (p.0, cs@.skip(p.1 as int)),
            ),
            None => parse_u64(cs@.skip(i as int)) is None,
        },
{
    let ghost sfx = cs@.skip(i as int);
    let mut k: usize = i;
    while k < cs.len() && is_digit_c(cs[k])
        invariant
            i <= k <= cs@.len(),
            forall|t: int| i <= t < k ==> is_digit(cs@[t]),
        decreases cs@.len() - k,
    {
        k = k + 1;
    }
    proof {
        assert(sfx =~= sfx.take(k - i) + sfx.skip(k - i));
        assert(forall|t: int| 0 <= t < k - i ==> is_digit(#[trigger] sfx.take(k - i)[t]));
        assert(sfx.skip(k - i).len() == 0 || !is_digit(sfx.skip(k - i)[0]));
        lemma_dpl_concat(sfx.take(k - i), sfx.skip(k - i));
        assert(digit_prefix_len(sfx) == k - i);
    }
    if k == i {
        return None;
    }
    let mut val: u64 = 0;
    let mut t: usize = i;
    while t < k
        invariant
            i <= t <= k <= cs@.len(),
            val == fold_digits(sfx.take(t - i)),
            sfx == cs@.skip(i as int),
            digit_prefix_len(sfx) == k - i,
            forall|u: int| i <= u < k ==> is_digit(cs@[u]),
        decreases k - t,
    {
        let d = char_digit_c(cs[t]);
        proof {
            assert(sfx.take(t + 1 - i).drop_last() =~= sfx.take(t - i));
            assert(sfx.take(t + 1 - i).last() == cs@[t as int]);
        }
        let v10 = match val.checked_mul(10) {
            Some(x) => x,
            None => {
                proof {
                    lemma_fold_mono(sfx, t + 1 - i, k - i);
                }
                return None;
            },
        };
        let v = match v10.checked_add(d) {
            Some(x) => x,
            None => {
                proof {
                    lemma_fold_mono(sfx, t + 1 - i, k - i);
                }
                return None;
            },
        };
        val = v;
        t = t + 1;
    }
    proof {
        assert(sfx.skip(k - i) =~= cs@.skip(k as int));
    }
    Some((val, k))
}

/// Parse a JSON string at position `i`.
#[verifier::loop_isolation(false)]
fn parse_string_pos(cs: &Vec<char>, i: usize) -> (r: Option<(String, usize)>)
    requires
        i <= cs@.len(),
    ensures
        match r {
            Some(p) => i < p.1 <= cs@.len() && parse_string(cs@.skip(i as int)) == Some(
                (p.0@, cs@.skip(p.1 as int)),
            ),
            None => parse_string(cs@.skip(i as int)) is None,
        },
{
    if i >= cs.len() || cs[i] != '"' {
        return None;
    }
    proof {
        assert(cs@.skip(i as int).drop_first() =~= cs@.skip(i + 1));
    }
    let ghost start = cs@.skip(i + 1);
    let mut out = String::new();
    let mut cur: usize = i + 1;
    loop
        invariant
            i + 1 <= cur <= cs@.len(),
            start == cs@.skip(i + 1),
            prepend_parsed(out@, parse_string_body(cs@.skip(cur as int))) == parse_string_body(
                start,
            ),
        decreases cs@.len() - cur,
    {
        if cur >= cs.len() {
            return None;
        }
        let c = cs[cur];
        proof {
            assert(cs@.skip(cur as int)[0] == c);
            assert(cs@.skip(cur as int).len() == cs@.len() - cur);
        }
        if c == '"' {
            proof {
                assert(cs@.skip(cur as int).drop_first() =~= cs@.skip(cur + 1));
                assert(out@ + Seq::<char>::empty() =~= out@);
            }
            return Some((out, cur + 1));
        } else if c == '\\' {
            if cur + 1 >= cs.len() {
                return None;
            }
            let c2 = cs[cur + 1];
            proof {
                assert(cs@.skip(cur as int)[1] == c2);
            }
            if c2 == '"' || c2 == '\\' {
                let ghost pre = out@;
                push_char(&mut out, c2);
                proof {
                    assert(cs@.skip(cur as int).skip(2) =~= cs@.skip(cur + 2));
                    lemma_prepend_compose(
                        pre,
                        seq![c2],
                        parse_string_body(cs@.skip(cur + 2)),
                    );
                    assert(pre + seq![c2] =~= out@);
                }
                cur = cur + 2;
            } else if c2 == 'u' {
                if cs.len() - cur < 6 {
                    return None;
                }
                let c3 = cs[cur + 2];
                let c4 = cs[cur + 3];
                let h1 = cs[cur + 4];
                let h2 = cs[cur + 5];
                proof {
                    assert(cs@.skip(cur as int)[2] == c3);
                    assert(cs@.skip(cur as int)[3] == c4);
                    assert(cs@.skip(cur as int)[4] == h1);
                    assert(cs@.skip(cur as int)[5] == h2);
                }
                if !(c3 == '0' && c4 == '0' && is_hex_lc_c(h1) && is_hex_lc_c(h2)) {
                    return None;
                }
                let code: u32 = 16 * hex_val_c(h1) + hex_val_c(h2);
                let dc = char_from_code(code);
                let ghost pre = out@;
                push_char(&mut out, dc);
                proof {
                    assert(cs@.skip(cur as int).skip(6) =~= cs@.skip(cur + 6));
                    lemma_prepend_compose(
                        pre,
                        seq![dc],
                        parse_string_body(cs@.skip(cur + 6)),
                    );
                    assert(pre + seq![dc] =~= out@);
                }
                cur = cur + 6;
            } else {
                return None;
            }
        } else {
            let ghost pre = out@;
            push_char(&mut out, c);
            proof {
                assert(cs@.skip(cur as int).drop_first() =~= cs@.skip(cur + 1));
                lemma_prepend_compose(pre, seq![c], parse_string_body(cs@.skip(cur + 1)));
                assert(pre + seq![c] =~= out@);
            }
            cur = cur + 1;
        }
    }
}

/// Parse a duration array at position `i`.
#[verifier::loop_isolation(false)]
fn parse_u64_array_pos(cs: &Vec<char>, i: usize) -> (r: Option<(Vec<u64>, usize)>)
    requires
        i <= cs@.len(),
    ensures
        match r {
            Some(p) => i < p.1 <= cs@.len() && parse_u64_array(cs@.skip(i as int)) == Some(
                (p.0@, cs@.skip(p.1 as int)),
            ),
            None => parse_u64_array(cs@.skip(i as int)) is None,
        },
{
    let ghost sfx = cs@.skip(i as int);
    if i >= cs.len() || cs[i] != '[' {
        return None;
    }
    proof {
        assert(sfx[0] == '[');
    }
    if i + 1 < cs.len() && cs[i + 1] == ']' {
        proof {
            assert(sfx[1] == ']');
            assert(sfx.skip(2) =~= cs@.skip(i + 2));
        }
        return Some((Vec::new(), i + 2));
    }
    proof {
        if sfx.len() >= 2 {
            assert(sfx[1] == cs@[i + 1]);
        }
        assert(!(sfx.len() >= 2 && sfx[0] == '[' && sfx[1] == ']'));
        assert(sfx.drop_first() =~= cs@.skip(i + 1));
    }
    let ghost fuel0 = sfx.len();
    let ghost start = cs@.skip(i + 1);
    let mut acc: Vec<u64> = Vec::new();
    let mut cur: usize = i + 1;
    let end: usize;
    loop
        invariant
            i + 1 <= cur <= cs@.len(),
            acc@.len() <= cur - i - 1,
            fuel0 == cs@.len() - i,
            start == cs@.skip(i + 1),
            sfx == cs@.skip(i as int),
            prepend_parsed(
                acc@,
                parse_u64_items(cs@.skip(cur as int), (fuel0 - acc@.len()) as nat),
            ) == parse_u64_items(start, fuel0 as nat),
        decreases cs@.len() - cur,
    {
        let ghost fc = (fuel0 - acc@.len()) as nat;
        proof {
            assert(fc >= 1);
        }
        match parse_u64_pos(cs, cur) {
            None => {
                return None;
            },
            Some((n, j)) => {
                let ghost pre = acc@;
                acc.push(n);
                if j < cs.len() && cs[j] == ',' {
                    proof {
                        assert(cs@.skip(j as int)[0] == ',');
                        assert(cs@.skip(j as int).drop_first() =~= cs@.skip(j + 1));
                        assert(parse_u64_items(cs@.skip(cur as int), fc) == prepend_parsed(
                            seq![n],
                            parse_u64_items(cs@.skip(j + 1), (fc - 1) as nat),
                        ));
                        lemma_prepend_compose(
                            pre,
                            seq![n],
                            parse_u64_items(cs@.skip(j + 1), (fc - 1) as nat),
                        );
                        assert(pre + seq![n] =~= acc@);
                    }
                    cur = j + 1;
                } else {
                    proof {
                        assert(cs@.skip(j as int).len() == cs@.len() - j);
                        if j < cs@.len() {
                            assert(cs@.skip(j as int)[0] == cs@[j as int]);
                        }
                        assert(parse_u64_items(cs@.skip(cur as int), fc) == Some(
                            (seq![n], cs@.skip(j as int)),
                        ));
                        assert(pre + seq![n] =~= acc@);
                    }
                    end = j;
                    break;
                }
            },
        }
    }
    proof {
        assert(parse_u64_items(start, fuel0 as nat) == Some((acc@, cs@.skip(end as int))));
    }
    if end < cs.len() && cs[end] == ']' {
        proof {
            assert(cs@.skip(end as int)[0] == ']');
            assert(cs@.skip(end as int).drop_first() =~= cs@.skip(end + 1));
        }
        Some((acc, end + 1))
    } else {
        proof {
            if end < cs@.len() {
                assert(cs@.skip(end as int)[0] == cs@[end as int]);
            } else {
                assert(cs@.skip(end as int).len() == 0);
            }
        }
        None
    }
}

/// Parse a string map at position `i`.
#[verifier::loop_isolation(false)]
fn parse_map_pos(cs: &Vec<char>, i: usize) -> (r: Option<(Vec<(String, String)>, usize)>)
    requires
        i <= cs@.len(),
    ensures
        match r {
            Some(p) => i < p.1 <= cs@.len() && parse_map(cs@.skip(i as int)) == Some(
                (pairs_view(p.0@), cs@.skip(p.1 as int)),
            ),
            None => parse_map(cs@.skip(i as int)) is None,
        },
{
    let ghost sfx = cs@.skip(i as int);
    if i >= cs.len() || cs[i] != '{' {
        return None;
    }
    proof {
        assert(sfx[0] == '{');
    }
    if i + 1 < cs.len() && cs[i + 1] == '}' {
        proof {
            assert(sfx[1] == '}');
            assert(sfx.skip(2) =~= cs@.skip(i + 2));
            assert(pairs_view(Seq::<(String, String)>::empty()) =~= Seq::<
                (Seq<char>, Seq<char>),
            >::empty());
        }
        return Some((Vec::new(), i + 2));
    }
    proof {
        if sfx.len() >= 2 {
            assert(sfx[1] == cs@[i + 1]);
        }
        assert(!(sfx.len() >= 2 && sfx[0] == '{' && sfx[1] == '}'));
        assert(sfx.drop_first() =~= cs@.skip(i + 1));
    }
    let ghost fuel0 = sfx.len();
    let ghost start = cs@.skip(i + 1);
    let mut acc: Vec<(String, String)> = Vec::new();
    let mut cur: usize = i + 1;
    let end: usize;
    loop
        invariant
            i + 1 <= cur <= cs@.len(),
            acc@.len() <= cur - i - 1,
            fuel0 == cs@.len() - i,
            start == cs@.skip(i + 1),
            sfx == cs@.skip(i as int),
            prepend_parsed(
                pairs_view(acc@),
                parse_map_items(cs@.skip(cur as int), (fuel0 - acc@.len()) as nat),
            ) == parse_map_items(start, fuel0 as nat),
        decreases cs@.len() - cur,
    {
        let ghost fc = (fuel0 - acc@.len()) as nat;
        proof {
            assert(fc >= 1);
        }
        let (k, r1) = match parse_string_pos(cs, cur) {
            None => {
                return None;
            },
            Some(p) => p,
        };
        if !(r1 < cs.len() && cs[r1] == ':') {
            proof {
                assert(cs@.skip(r1 as int).len() == cs@.len() - r1);
                if r1 < cs@.len() {
                    assert(cs@.skip(r1 as int)[0] == cs@[r1 as int]);
                }
            }
            return None;
        }
        proof {
            assert(cs@.skip(r1 as int)[0] == ':');
            assert(cs@.skip(r1 as int).drop_first() =~= cs@.skip(r1 + 1));
        }
        let (v, r2) = match parse_string_pos(cs, r1 + 1) {
            None => {
                return None;
            },
            Some(p) => p,
        };
        let ghost pre = acc@;
        let ghost kv = k@;
        let ghost vv = v@;
        acc.push((k, v));
        proof {
            assert(pairs_view(acc@) =~= pairs_view(pre).push((kv, vv)));
            assert(pairs_view(pre).push((kv, vv)) =~= pairs_view(pre) + seq![(kv, vv)]);
        }
        if r2 < cs.len() && cs[r2] == ',' {
            proof {
                assert(cs@.skip(r2 as int)[0] == ',');
                assert(cs@.skip(r2 as int).drop_first() =~= cs@.skip(r2 + 1));
                assert(parse_map_items(cs@.skip(cur as int), fc) == prepend_parsed(
                    seq![(kv, vv)],
                    parse_map_items(cs@.skip(r2 + 1), (fc - 1) as nat),
                ));
                lemma_prepend_compose(
                    pairs_view(pre),
                    seq![(kv, vv)],
                    parse_map_items(cs@.skip(r2 + 1), (fc - 1) as nat),
                );
            }
            cur = r2 + 1;
        } else {
            proof {
                assert(cs@.skip(r2 as int).len() == cs@.len() - r2);
                if r2 < cs@.len() {
                    assert(cs@.skip(r2 as int)[0] == cs@[r2 as int]);
                }
                assert(parse_map_items(cs@.skip(cur as int), fc) == Some(
                    (seq![(kv, vv)], cs@.skip(r2 as int)),
                ));
            }
            end = r2;
            break;
        }
    }
    proof {
        assert(parse_map_items(start, fuel0 as nat) == Some(
            (pairs_view(acc@), cs@.skip(end as int)),
        ));
    }
    if end < cs.len() && cs[end] == '}' {
        proof {
            assert(cs@.skip(end as int)[0] == '}');
            assert(cs@.skip(end as int).drop_first() =~= cs@.skip(end + 1));
        }
        Some((acc, end + 1))
    } else {
        proof {
            if end < cs@.len() {
                assert(cs@.skip(end as int)[0] == cs@[end as int]);
            } else {
                assert(cs@.skip(end as int).len() == 0);
            }
        }
        None
    }
}


/// Parse the name and duration of an encoded result at position `i`.
#[verifier::rlimit(100)]
fn parse_result_head_pos(cs: &Vec<char>, i: usize) -> (r: Option<(String, u64, usize)>)
    requires
        i <= cs@.len(),
    ensures
        match r {
            Some(p) => i <= p.2 <= cs@.len() && parse_result_head(cs@.skip(i as int)) == Some(
                (p.0@, p.1, cs@.skip(p.2 as int)),
            ),
            None => parse_result_head(cs@.skip(i as int)) is None,
        },
{
    let r0 = match expect_pos(cs, i, "{\"name\":") {
        Some(j) => j,
        None => {
            return None;
        },
    };
    let (name, r1) = match parse_string_pos(cs, r0) {
        Some(p) => p,
        None => {
            return None;
        },
    };
    let r2 = match expect_pos(cs, r1, ",\"duration_ns\":") {
        Some(j) => j,
        None => {
            return None;
        },
    };
    let (duration, r3) = match parse_u64_pos(cs, r2) {
        Some(p) => p,
        None => {
            return None;
        },
    };
    Some((name, duration, r3))
}

/// Parse the optional byte and element counts of an encoded result at
/// position `i`.
#[verifier::rlimit(100)]
fn parse_result_mid_pos(cs: &Vec<char>, i: usize) -> (r: Option<
    (Option<u64>, Option<u64>, usize),
>)
    requires
        i <= cs@.len(),
    ensures
        match r {
            Some(p) => i <= p.2 <= cs@.len() && parse_result_mid(cs@.skip(i as int)) == Some(
                (p.0, p.1, cs@.skip(p.2 as int)),
            ),
            None => parse_result_mid(cs@.skip(i as int)) is None,
        },
{
    let (bytes, r4) = match expect_pos(cs, i, ",\"bytes\":") {
        Some(rb) => match parse_u64_pos(cs, rb) {
            Some((b, j)) => (Some(b), j),
            None => {
                return None;
            },
        },
        None => (None, i),
    };
    let (elements, r5) = match expect_pos(cs, r4, ",\"elements\":") {
        Some(re) => match parse_u64_pos(cs, re) {
            Some((e, j)) => (Some(e), j),
            None => {
                return None;
            },
        },
        None => (None, r4),
    };
    Some((bytes, elements, r5))
}

/// Parse the runs, tags and closing brace of an encoded result at position
/// `i`.
#[verifier::rlimit(100)]
fn parse_result_tail_pos(cs: &Vec<char>, i: usize) -> (r: Option<
    (Vec<u64>, Vec<(String, String)>, usize),
>)
    requires
        i <= cs@.len(),
    ensures
        match r {
            Some(p) => i <= p.2 <= cs@.len() && parse_result_tail(cs@.skip(i as int)) == Some(
                (p.0@, pairs_view(p.1@), cs@.skip(p.2 as int)),
            ),
            None => parse_result_tail(cs@.skip(i as int)) is None,
        },
{
    let r6 = match expect_pos(cs, i, ",\"all_runs_ns\":") {
        Some(j) => j,
        None => {
            return None;
        },
    };
    let (all_runs, r7) = match parse_u64_array_pos(cs, r6) {
        Some(p) => p,
        None => {
            return None;
        },
    };
    let r8 = match expect_pos(cs, r7, ",\"tags\":") {
        Some(j) => j,
        None => {
            return None;
        },
    };
    let (tags, r9) = match parse_map_pos(cs, r8) {
        Some(p) => p,
        None => {
            return None;
        },
    };
    if !(r9 < cs.len() && cs[r9] == '}') {
        proof {
            assert(cs@.skip(r9 as int).len() == cs@.len() - r9);
            if r9 < cs@.len() {
                assert(cs@.skip(r9 as int)[0] == cs@[r9 as int]);
            }
        }
        return None;
    }
    proof {
        assert(cs@.skip(r9 as int)[0] == '}');
        assert(cs@.skip(r9 as int).drop_first() =~= cs@.skip(r9 + 1));
    }
    Some((all_runs, tags, r9 + 1))
}

/// Parse one encoded benchmark result at position `i`.
#[verifier::rlimit(100)]
fn parse_result_pos(cs: &Vec<char>, i: usize) -> (r: Option<(BenchResult, usize)>)
    requires
        i <= cs@.len(),
    ensures
        match r {
            Some(p) => i <= p.1 <= cs@.len() && parse_result(cs@.skip(i as int)) == Some(
                (p.0@, cs@.skip(p.1 as int)),
            ),
            None => parse_result(cs@.skip(i as int)) is None,
        },
{
    proof {
        reveal(parse_result);
    }
    let (name, duration, r3) = match parse_result_head_pos(cs, i) {
        Some(p) => p,
        None => {
            return None;
        },
    };
    let (bytes, elements, r5) = match parse_result_mid_pos(cs, r3) {
        Some(p) => p,
        None => {
            return None;
        },
    };
    let (all_runs, tags, r9) = match parse_result_tail_pos(cs, r5) {
        Some(p) => p,
        None => {
            return None;
        },
    };
    let result = BenchResult { name, duration, bytes, elements, all_runs, tags };
    Some((result, r9))
}

/// Parse an encoded result array at position `i`.
#[verifier::loop_isolation(false)]
#[verifier::rlimit(100)]
fn parse_result_array_pos(cs: &Vec<char>, i: usize) -> (r: Option<(Vec<BenchResult>, usize)>)
    requires
        i <= cs@.len(),
    ensures
        match r {
            Some(p) => i < p.1 <= cs@.len() && parse_result_array(cs@.skip(i as int)) == Some(
                (results_view(p.0@), cs@.skip(p.1 as int)),
            ),
            None => parse_result_array(cs@.skip(i as int)) is None,
        },
{
    let ghost sfx = cs@.skip(i as int);
    if i >= cs.len() || cs[i] != '[' {
        return None;
    }
    proof {
        assert(sfx[0] == '[');
    }
    if i + 1 < cs.len() && cs[i + 1] == ']' {
        proof {
            assert(sfx[1] == ']');
            assert(sfx.skip(2) =~= cs@.skip(i + 2));
            assert(results_view(Seq::<BenchResult>::empty()) =~= Seq::<BenchResultView>::empty());
        }
        return Some((Vec::new(), i + 2));
    }
    proof {
        if sfx.len() >= 2 {
            assert(sfx[1] == cs@[i + 1]);
        }
        assert(!(sfx.len() >= 2 && sfx[0] == '[' && sfx[1] == ']'));
        assert(sfx.drop_first() =~= cs@.skip(i + 1));
    }
    let ghost fuel0 = sfx.len();
    let ghost start = cs@.skip(i + 1);
    let mut acc: Vec<BenchResult> = Vec::new();
    let mut cur: usize = i + 1;
    let end: usize;
    loop
        invariant
            i + 1 <= cur <= cs@.len(),
            acc@.len() <= cur - i - 1,
            fuel0 == cs@.len() - i,
            start == cs@.skip(i + 1),
            sfx == cs@.skip(i as int),
            prepend_parsed(
                results_view(acc@),
                parse_result_items(cs@.skip(cur as int), (fuel0 - acc@.len()) as nat),
            ) == parse_result_items(start, fuel0 as nat),
        decreases cs@.len() - cur,
    {
        let ghost fc = (fuel0 - acc@.len()) as nat;
        proof {
            assert(fc >= 1);
        }
        match parse_result_pos(cs, cur) {
            None => {
                return None;
            },
            Some((res, j)) => {
                let ghost pre = acc@;
                let ghost rv = res@;
                acc.push(res);
                proof {
                    assert(results_view(acc@) =~= results_view(pre).push(rv));
                    assert(results_view(pre).push(rv) =~= results_view(pre) + seq![rv]);
                }
                if j < cs.len() && cs[j] == ',' {
                    proof {
                        assert(cs@.skip(j as int)[0] == ',');
                        assert(cs@.skip(j as int).drop_first() =~= cs@.skip(j + 1));
                        assert(parse_result_items(cs@.skip(cur as int), fc) == prepend_parsed(
                            seq![rv],
                            parse_result_items(cs@.skip(j + 1), (fc - 1) as nat),
                        ));
                        lemma_prepend_compose(
                            results_view(pre),
                            seq![rv],
                            parse_result_items(cs@.skip(j + 1), (fc - 1) as nat),
                        );
                    }
                    cur = j + 1;
                } else {
                    proof {
                        assert(cs@.skip(j as int).len() == cs@.len() - j);
                        if j < cs@.len() {
                            assert(cs@.skip(j as int)[0] == cs@[j as int]);
                        }
                        assert(parse_result_items(cs@.skip(cur as int), fc) == Some(
                            (seq![rv], cs@.skip(j as int)),
                        ));
                    }
                    end = j;
                    break;
                }
            },
        }
    }
    proof {
        assert(parse_result_items(start, fuel0 as nat) == Some(
            (results_view(acc@), cs@.skip(end as int)),
        ));
    }
    if end < cs.len() && cs[end] == ']' {
        proof {
            assert(cs@.skip(end as int)[0] == ']');
            assert(cs@.skip(end as int).drop_first() =~= cs@.skip(end + 1));
        }
        Some((acc, end + 1))
    } else {
        proof {
            if end < cs@.len() {
                assert(cs@.skip(end as int)[0] == cs@[end as int]);
            } else {
                assert(cs@.skip(end as int).len() == 0);
            }
        }
        None
    }
}

/// Parse the name and results of an encoded suite at position `i`.
#[verifier::rlimit(100)]
fn parse_suite_head_pos(cs: &Vec<char>, i: usize) -> (r: Option<(String, Vec<BenchResult>, usize)>)
    requires
        i <= cs@.len(),
    ensures
        match r {
            Some(p) => i <= p.2 <= cs@.len() && parse_suite_head(cs@.skip(i as int)) == Some(
                (p.0@, results_view(p.1@), cs@.skip(p.2 as int)),
            ),
            None => parse_suite_head(cs@.skip(i as int)) is None,
        },
{
    let r0 = match expect_pos(cs, i, "{\"suite\":") {
        Some(j) => j,
        None => {
            return None;
        },
    };
    let (suite, r1) = match parse_string_pos(cs, r0) {
        Some(p) => p,
        None => {
            return None;
        },
    };
    let r2 = match expect_pos(cs, r1, ",\"results\":") {
        Some(j) => j,
        None => {
            return None;
        },
    };
    let (results, r3) = match parse_result_array_pos(cs, r2) {
        Some(p) => p,
        None => {
            return None;
        },
    };
    Some((suite, results, r3))
}

/// Parse the totals and run counts of an encoded suite at position `i`.
#[verifier::rlimit(100)]
fn parse_suite_mid_pos(cs: &Vec<char>, i: usize) -> (r: Option<(u64, String, u64, u64, usize)>)
    requires
        i <= cs@.len(),
    ensures
        match r {
            Some(p) => i <= p.4 <= cs@.len() && parse_suite_mid(cs@.skip(i as int)) == Some(
                (p.0, p.1@, p.2, p.3, cs@.skip(p.4 as int)),
            ),
            None => parse_suite_mid(cs@.skip(i as int)) is None,
        },
{
    let r4 = match expect_pos(cs, i, ",\"total_duration_ns\":") {
        Some(j) => j,
        None => {
            return None;
        },
    };
    let (total_duration, r5) = match parse_u64_pos(cs, r4) {
        Some(p) => p,
        None => {
            return None;
        },
    };
    let r6 = match expect_pos(cs, r5, ",\"started_at\":") {
        Some(j) => j,
        None => {
            return None;
        },
    };
    let (started_at, r7) = match parse_string_pos(cs, r6) {
        Some(p) => p,
        None => {
            return None;
        },
    };
    let r8 = match expect_pos(cs, r7, ",\"runs\":") {
        Some(j) => j,
        None => {
            return None;
        },
    };
    let (runs, r9) = match parse_u64_pos(cs, r8) {
        Some(p) => p,
        None => {
            return None;
        },
    };
    let r10 = match expect_pos(cs, r9, ",\"warmup_runs\":") {
        Some(j) => j,
        None => {
            return None;
        },
    };
    let (warmup_runs, r11) = match parse_u64_pos(cs, r10) {
        Some(p) => p,
        None => {
            return None;
        },
    };
    Some((total_duration, started_at, runs, warmup_runs, r11))
}

/// Parse the revision, metadata and closing brace of an encoded suite at
/// position `i`.
#[verifier::rlimit(100)]
fn parse_suite_tail_pos(cs: &Vec<char>, i: usize) -> (r: Option<
    (Option<String>, Vec<(String, String)>, usize),
>)
    requires
        i <= cs@.len(),
    ensures
        match r {
            Some(p) => i <= p.2 <= cs@.len() && parse_suite_tail(cs@.skip(i as int)) == Some(
                (
                    match p.0 {
                        Some(ref sha) => Some(sha@),
                        None => None,
                    },
                    pairs_view(p.1@),
                    cs@.skip(p.2 as int),
                ),
            ),
            None => parse_suite_tail(cs@.skip(i as int)) is None,
        },
{
    let (git_sha, r12) = match expect_pos(cs, i, ",\"revision\":") {
        Some(rr) => match parse_string_pos(cs, rr) {
            Some((sha, j)) => (Some(sha), j),
            None => {
                return None;
            },
        },
        None => (None, i),
    };
    let r13 = match expect_pos(cs, r12, ",\"metadata\":") {
        Some(j) => j,
        None => {
            return None;
        },
    };
    let (metadata, r14) = match parse_map_pos(cs, r13) {
        Some(p) => p,
        None => {
            return None;
        },
    };
    if !(r14 < cs.len() && cs[r14] == '}') {
        proof {
            assert(cs@.skip(r14 as int).len() == cs@.len() - r14);
            if r14 < cs@.len() {
                assert(cs@.skip(r14 as int)[0] == cs@[r14 as int]);
            }
        }
        return None;
    }
    proof {
        assert(cs@.skip(r14 as int)[0] == '}');
        assert(cs@.skip(r14 as int).drop_first() =~= cs@.skip(r14 + 1));
    }
    Some((git_sha, metadata, r14 + 1))
}

/// Parse one encoded suite object at position `i`.
#[verifier::rlimit(100)]
fn parse_suite_obj_pos(cs: &Vec<char>, i: usize) -> (r: Option<(SuiteResult, usize)>)
    requires
        i <= cs@.len(),
    ensures
        match r {
            Some(p) => i <= p.1 <= cs@.len() && parse_suite_obj(cs@.skip(i as int)) == Some(
                (p.0@, cs@.skip(p.1 as int)),
            ),
            None => parse_suite_obj(cs@.skip(i as int)) is None,
        },
{
    proof {
        reveal(parse_suite_obj);
    }
    let (suite, results, r3) = match parse_suite_head_pos(cs, i) {
        Some(p) => p,
        None => {
            return None;
        },
    };
    let (total_duration, started_at, runs, warmup_runs, r11) = match parse_suite_mid_pos(cs, r3) {
        Some(p) => p,
        None => {
            return None;
        },
    };
    let (git_sha, metadata, r14) = match parse_suite_tail_pos(cs, r11) {
        Some(p) => p,
        None => {
            return None;
        },
    };
    let result = SuiteResult {
        suite,
        results,
        total_duration,
        started_at,
        runs,
        warmup_runs,
        git_sha,
        metadata,
    };
    Some((result, r14))
}

/// Parse a persisted suite: the whole input must be one encoded suite.
pub fn parse_suite(s: &str) -> (r: Option<SuiteResult>)
    ensures
        match r {
            Some(v) => parse_suite_spec(s@) == Some(v@),
            None => parse_suite_spec(s@) is None,
        },
{
    let cs = crate::glob::chars_of(s);
    proof {
        assert(cs@.skip(0) =~= s@);
    }
    match parse_suite_obj_pos(&cs, 0) {
        Some((v, j)) => {
            if j == cs.len() {
                proof {
                    assert(cs@.skip(j as int).len() == 0);
                }
                Some(v)
            } else {
                proof {
                    assert(cs@.skip(j as int).len() == cs@.len() - j);
                }
                None
            }
        },
        None => None,
    }
}

} // verus!
