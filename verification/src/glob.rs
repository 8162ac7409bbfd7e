//! Name-pattern matching for benchmark filtering.
//!
//! Patterns support the `*` wildcard: the pieces of the pattern between
//! wildcards must appear in the text in order, the first piece anchored to
//! the start of the text unless the pattern begins with `*`, and the last
//! piece anchored to the end unless the pattern ends with `*`. A pattern
//! without a wildcard matches any text containing it as a substring.
//! Matching is case-insensitive.

use vstd::prelude::*;
use vstd::string::*;

verus! {

/// `part` occurs in `t` starting at index `i`.
pub open spec fn match_at(t: Seq<char>, part: Seq<char>, i: int) -> bool {
    0 <= i && i + part.len() <= t.len() && t.subrange(i, i + part.len() as int) == part
}

/// `part` occurs somewhere in `t`.
pub open spec fn is_substring(t: Seq<char>, part: Seq<char>) -> bool {
    exists|i: int| match_at(t, part, i)
}

/// The parts can be placed in `t` in order, without overlap, all inside the
/// window `[from, upto)`.
pub open spec fn parts_in_order(t: Seq<char>, parts: Seq<Seq<char>>, from: int, upto: int) -> bool
    decreases parts.len(),
{
    if parts.len() == 0 {
        true
    } else {
        exists|i: int|
            from <= i && i + parts[0].len() <= upto && match_at(t, parts[0], i) && parts_in_order(
                t,
                parts.drop_first(),
                i + parts[0].len(),
                upto,
            )
    }
}

/// The pattern split on every '*', keeping empty pieces, exactly as a string
/// splits on a separator character.
pub open spec fn split_parts(p: Seq<char>) -> Seq<Seq<char>>
    decreases p.len(),
{
    if p.len() == 0 {
        seq![Seq::<char>::empty()]
    } else {
        let init = split_parts(p.drop_last());
        if p.last() == '*' {
            init.push(Seq::<char>::empty())
        } else {
            init.update(init.len() - 1, init.last().push(p.last()))
        }
    }
}

/// A split always yields at least one piece.
pub proof fn lemma_split_parts_nonempty(p: Seq<char>)
    ensures
        split_parts(p).len() >= 1,
    decreases p.len(),
{
    if p.len() > 0 {
        lemma_split_parts_nonempty(p.drop_last());
    }
}

/// The non-empty pieces of the pattern between '*' wildcards.
pub open spec fn star_parts(p: Seq<char>) -> Seq<Seq<char>> {
    split_parts(p).filter(|s: Seq<char>| s.len() > 0)
}

/// Whether the glob pattern `p` matches the text `t`.
pub open spec fn glob_match(t: Seq<char>, p: Seq<char>) -> bool {
    if !p.contains('*') {
        is_substring(t, p)
    } else {
        let parts = star_parts(p);
        if parts.len() == 0 {
            true
        } else {
            let anchor_start = p[0] != '*';
            let anchor_end = p[p.len() - 1] != '*';
            let lo: int = if anchor_start {
                parts[0].len() as int
            } else {
                0
            };
            let hi: int = if anchor_end {
                t.len() - parts.last().len()
            } else {
                t.len() as int
            };
            let s: int = if anchor_start {
                1
            } else {
                0
            };
            let e: int = if anchor_end {
                parts.len() - 1
            } else {
                parts.len() as int
            };
            let mids = if s <= e {
                parts.subrange(s, e)
            } else {
                Seq::<Seq<char>>::empty()
            };
            &&& (anchor_start ==> match_at(t, parts[0], 0))
            &&& (anchor_end ==> match_at(t, parts.last(), t.len() - parts.last().len()))
            &&& lo <= hi
            &&& parts_in_order(t, mids, lo, hi)
        }
    }
}

/// A placement that works from `from2` also works from any earlier start.
proof fn lemma_parts_mono(t: Seq<char>, parts: Seq<Seq<char>>, from1: int, from2: int, upto: int)
    requires
        from1 <= from2,
        parts_in_order(t, parts, from2, upto),
    ensures
        parts_in_order(t, parts, from1, upto),
{
    if parts.len() > 0 {
        let j = choose|j: int|
            from2 <= j && j + parts[0].len() <= upto && match_at(t, parts[0], j)
                && parts_in_order(t, parts.drop_first(), j + parts[0].len(), upto);
        assert(from1 <= j && j + parts[0].len() <= upto && match_at(t, parts[0], j)
            && parts_in_order(t, parts.drop_first(), j + parts[0].len(), upto));
    }
}

/// Taking the leftmost occurrence of the first part loses no matches: the
/// parts fit in the window from `from` exactly when the rest fit after the
/// leftmost occurrence.
proof fn lemma_greedy_step(t: Seq<char>, parts: Seq<Seq<char>>, from: int, upto: int, i: int)
    requires
        parts.len() > 0,
        from <= i,
        match_at(t, parts[0], i),
        forall|j: int| from <= j < i ==> !match_at(t, parts[0], j),
    ensures
        parts_in_order(t, parts, from, upto) <==> (i + parts[0].len() <= upto && parts_in_order(
            t,
            parts.drop_first(),
            i + parts[0].len(),
            upto,
        )),
{
    if parts_in_order(t, parts, from, upto) {
        let j = choose|j: int|
            from <= j && j + parts[0].len() <= upto && match_at(t, parts[0], j)
                && parts_in_order(t, parts.drop_first(), j + parts[0].len(), upto);
        assert(j >= i);
        lemma_parts_mono(t, parts.drop_first(), i + parts[0].len(), j + parts[0].len(), upto);
    }
    if i + parts[0].len() <= upto && parts_in_order(t, parts.drop_first(), i + parts[0].len(), upto) {
        assert(from <= i && i + parts[0].len() <= upto && match_at(t, parts[0], i)
            && parts_in_order(t, parts.drop_first(), i + parts[0].len(), upto));
    }
}

/// Collect the characters of a string slice.
pub fn chars_of(s: &str) -> (r: Vec<char>)
    ensures
        r@ == s@,
{
    let n = s.unicode_len();
    let mut r: Vec<char> = Vec::new();
    let mut i: usize = 0;
    while i < n
        invariant
            0 <= i <= n,
            n == s@.len(),
            r@ == s@.take(i as int),
        decreases n - i,
    {
        let c = s.get_char(i);
        r.push(c);
        proof {
            assert(s@.take(i + 1) =~= s@.take(i as int).push(s@[i as int]));
        }
        i = i + 1;
    }
    proof {
        assert(s@.take(n as int) =~= s@);
    }
    r
}

/// Compare the window of `text` at `i` against `part`.
fn matches_at(text: &Vec<char>, part: &Vec<char>, i: usize) -> (r: bool)
    requires
        i + part@.len() <= text@.len(),
    ensures
        r == match_at(text@, part@, i as int),
{
    let tn = text.len();
    let mut k: usize = 0;
    while k < part.len()
        invariant
            0 <= k <= part@.len(),
            i + part@.len() <= text@.len(),
            tn == text@.len(),
            forall|m: int| 0 <= m < k ==> text@[i + m] == part@[m],
        decreases part@.len() - k,
    {
        if text[i + k] != part[k] {
            proof {
                if match_at(text@, part@, i as int) {
                    assert(text@.subrange(i as int, i + part@.len() as int)[k as int] == part@[k as int]);
                }
            }
            return false;
        }
        k = k + 1;
    }
    proof {
        assert(text@.subrange(i as int, i + part@.len() as int) =~= part@);
    }
    true
}

/// First position at or after `from` where `part` occurs in `text`.
#[verifier::loop_isolation(false)]
pub fn find_from(text: &Vec<char>, part: &Vec<char>, from: usize) -> (r: Option<usize>)
    ensures
        match r {
            Some(i) => from <= i && match_at(text@, part@, i as int) && forall|j: int|
                from <= j < i ==> !match_at(text@, part@, j),
            None => forall|j: int| from <= j ==> !match_at(text@, part@, j),
        },
{
    if part.len() > text.len() {
        return None;
    }
    if part.len() == 0 {
        if from > text.len() {
            return None;
        }
        proof {
            assert(text@.subrange(from as int, from as int) =~= part@);
        }
        return Some(from);
    }
    let last_start = text.len() - part.len();
    let mut i: usize = from;
    while i <= last_start
        invariant
            from <= i,
            1 <= part@.len() <= text@.len(),
            last_start == text@.len() - part@.len(),
            forall|j: int| from <= j < i ==> !match_at(text@, part@, j),
        decreases last_start - i + 1,
    {
        if matches_at(text, part, i) {
            return Some(i);
        }
        i = i + 1;
    }
    None
}

/// Whether `part` occurs anywhere in `text`.
pub fn contains_part(text: &Vec<char>, part: &Vec<char>) -> (r: bool)
    ensures
        r == is_substring(text@, part@),
{
    match find_from(text, part, 0) {
        Some(_) => true,
        None => false,
    }
}

/// The views of a sequence of character vectors.
pub open spec fn views_of(parts: Seq<Vec<char>>) -> Seq<Seq<char>> {
    parts.map_values(|v: Vec<char>| v@)
}

/// Split the pattern on '*', dropping empty pieces.
pub fn split_star(pattern: &Vec<char>) -> (parts: Vec<Vec<char>>)
    ensures
        views_of(parts@) == star_parts(pattern@),
{
    let ghost p = pattern@;
    let ghost pred = |s: Seq<char>| s.len() > 0;
    let mut parts: Vec<Vec<char>> = Vec::new();
    let mut cur: Vec<char> = Vec::new();
    let ghost closed = Seq::<Seq<char>>::empty();
    let mut i: usize = 0;
    proof {
        assert(split_parts(p.take(0)) =~= closed.push(cur@));
        assert(closed.filter(pred) =~= views_of(parts@));
    }
    while i < pattern.len()
        invariant
            0 <= i <= p.len(),
            pattern@ == p,
            split_parts(p.take(i as int)) == closed.push(cur@),
            closed.filter(pred) == views_of(parts@),
            pred == (|s: Seq<char>| s.len() > 0),
        decreases p.len() - i,
    {
        let c = pattern[i];
        proof {
            assert(p.take(i + 1).drop_last() =~= p.take(i as int));
            assert(p.take(i + 1).last() == p[i as int]);
        }
        if c == '*' {
            let ghost old_closed = closed;
            let ghost old_parts = parts@;
            proof {
                closed = closed.push(cur@);
            }
            if cur.len() > 0 {
                parts.push(cur);
                proof {
                    old_closed.lemma_filter_push(cur@, pred);
                    assert(views_of(parts@) =~= views_of(old_parts).push(cur@));
                }
            } else {
                proof {
                    old_closed.lemma_filter_push(cur@, pred);
                }
            }
            cur = Vec::new();
            proof {
                assert(split_parts(p.take(i + 1)) =~= closed.push(cur@));
            }
        } else {
            let ghost old_cur = cur@;
            cur.push(c);
            proof {
                lemma_split_parts_nonempty(p.take(i as int));
                let init = split_parts(p.take(i as int));
                assert(init.last() == old_cur);
                assert(init.update(init.len() - 1, old_cur.push(p[i as int])) =~= closed.push(
                    cur@,
                ));
            }
        }
        i = i + 1;
    }
    proof {
        assert(p.take(p.len() as int) =~= p);
    }
    if cur.len() > 0 {
        let ghost old_parts = parts@;
        let ghost cur_view = cur@;
        parts.push(cur);
        proof {
            closed.lemma_filter_push(cur_view, pred);
            assert(split_parts(p) == closed.push(cur_view));
            assert(star_parts(p) == closed.filter(pred).push(cur_view));
            assert(views_of(parts@) =~= views_of(old_parts).push(cur_view));
        }
    } else {
        proof {
            closed.lemma_filter_push(cur@, pred);
            assert(split_parts(p) == closed.push(cur@));
            assert(star_parts(p) == closed.filter(pred));
        }
    }
    parts
}

/// Whether the glob pattern matches the text, both given as characters.
/// This is the exact executable form of `glob_match`.
#[verifier::loop_isolation(false)]
pub fn glob_match_chars(text: &Vec<char>, pattern: &Vec<char>) -> (r: bool)
    ensures
        r == glob_match(text@, pattern@),
{
    let mut has_star = false;
    let mut i: usize = 0;
    while i < pattern.len()
        invariant
            0 <= i <= pattern@.len(),
            has_star == pattern@.take(i as int).contains('*'),
        decreases pattern@.len() - i,
    {
        proof {
            assert(pattern@.take(i + 1).drop_last() =~= pattern@.take(i as int));
            assert(pattern@.take(i + 1).last() == pattern@[i as int]);
            if pattern@.take(i as int).contains('*') {
                let w = choose|w: int|
                    0 <= w < i && pattern@.take(i as int)[w] == '*';
                assert(pattern@.take(i + 1)[w] == '*');
            }
            if pattern@[i as int] == '*' {
                assert(pattern@.take(i + 1)[i as int] == '*');
            }
        }
        if pattern[i] == '*' {
            has_star = true;
        }
        i = i + 1;
    }
    proof {
        assert(pattern@.take(pattern@.len() as int) =~= pattern@);
    }
    if !has_star {
        return contains_part(text, pattern);
    }
    let parts = split_star(pattern);
    let ghost pview = views_of(parts@);
    proof {
        assert(pattern@.len() > 0);
    }
    if parts.len() == 0 {
        return true;
    }
    let anchor_start = pattern[0] != '*';
    let anchor_end = pattern[pattern.len() - 1] != '*';
    proof {
        assert(pview[0] == parts@[0]@);
        assert(pview[pview.len() - 1] == parts@[parts@.len() - 1]@);
    }
    if anchor_start {
        let p0 = &parts[0];
        if p0.len() > text.len() {
            return false;
        }
        if !matches_at(text, p0, 0) {
            return false;
        }
    }
    if anchor_end {
        let pl = &parts[parts.len() - 1];
        if pl.len() > text.len() {
            return false;
        }
        if !matches_at(text, pl, text.len() - pl.len()) {
            return false;
        }
    }
    let lo: usize = if anchor_start {
        parts[0].len()
    } else {
        0
    };
    let hi: usize = if anchor_end {
        text.len() - parts[parts.len() - 1].len()
    } else {
        text.len()
    };
    if lo > hi {
        return false;
    }
    let s: usize = if anchor_start {
        1
    } else {
        0
    };
    let e: usize = if anchor_end {
        parts.len() - 1
    } else {
        parts.len()
    };
    if s > e {
        proof {
            assert(parts_in_order(text@, Seq::<Seq<char>>::empty(), lo as int, hi as int));
        }
        return true;
    }
    let ghost mids = pview.subrange(s as int, e as int);
    let mut cur: usize = lo;
    let mut k: usize = s;
    proof {
        assert(mids.subrange(k - s, e - s) =~= mids);
    }
    while k < e
        invariant
            s <= k <= e,
            e <= parts@.len(),
            lo <= cur,
            cur <= text@.len(),
            mids == pview.subrange(s as int, e as int),
            pview == views_of(parts@),
            (cur <= hi) ==> (parts_in_order(text@, mids, lo as int, hi as int)
                <==> parts_in_order(text@, mids.subrange(k - s, e - s), cur as int, hi as int)),
            (cur > hi) ==> !parts_in_order(text@, mids, lo as int, hi as int),
        decreases e - k,
    {
        let ghost rem = mids.subrange(k - s, e - s);
        proof {
            assert(rem[0] == pview[k as int]);
            assert(pview[k as int] == parts@[k as int]@);
            assert(rem.drop_first() =~= mids.subrange(k + 1 - s, e - s));
        }
        match find_from(text, &parts[k], cur) {
            None => {
                proof {
                    if parts_in_order(text@, rem, cur as int, hi as int) {
                        let j = choose|j: int|
                            cur <= j && j + rem[0].len() <= hi && match_at(text@, rem[0], j)
                                && parts_in_order(
                                text@,
                                rem.drop_first(),
                                j + rem[0].len(),
                                hi as int,
                            );
                        assert(!match_at(text@, parts@[k as int]@, j));
                    }
                    if cur <= hi {
                        assert(!parts_in_order(text@, mids, lo as int, hi as int));
                    }
                }
                return false;
            },
            Some(fi) => {
                proof {
                    lemma_greedy_step(text@, rem, cur as int, hi as int, fi as int);
                    assert(fi + parts@[k as int]@.len() <= text@.len());
                }
                cur = fi + parts[k].len();
            },
        }
        k = k + 1;
    }
    proof {
        assert(mids.subrange(e - s, e - s) =~= Seq::<Seq<char>>::empty());
    }
    cur <= hi
}

/// Names a result of `str::to_lowercase`.
pub uninterp spec fn lower_of(s: Seq<char>) -> Seq<char>;

/// Relies on str::to_lowercase: the result is a function of the input
/// characters alone.
#[verifier::external_body]
pub(crate) fn lowercase(s: &str) -> (r: String)
    ensures
        r@ == lower_of(s@),
{
    s.to_lowercase()
}

/// Case-insensitive glob match of `pattern` against `text`.
pub fn matches_glob(text: &str, pattern: &str) -> (r: bool)
    ensures
        r == glob_match(lower_of(text@), lower_of(pattern@)),
{
    let lt = lowercase(text);
    let lp = lowercase(pattern);
    let tv = chars_of(lt.as_str());
    let pv = chars_of(lp.as_str());
    glob_match_chars(&tv, &pv)
}

/// Whether `text` contains `part`, case-sensitively.
pub fn contains_substring(text: &str, part: &str) -> (r: bool)
    ensures
        r == is_substring(text@, part@),
{
    let tv = chars_of(text);
    let pv = chars_of(part);
    contains_part(&tv, &pv)
}

} // verus!
