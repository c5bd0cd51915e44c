//! Reading what git reports about the working tree and about stale
//! remote-tracking branches.

use vstd::prelude::*;
use crate::text::{contains, contains_exec, occurs_at, occurs_at_exec, trim, trim_spaces};

verus! {

/// A character of a branch-name segment: an ASCII letter or digit, `_` or `-`.
pub open spec fn is_word(c: char) -> bool {
    let v = c as u32;
    (48 <= v && v <= 57) || (65 <= v && v <= 90) || (97 <= v && v <= 122) || v == 95 || v == 45
}

fn is_word_char(c: char) -> (r: bool)
    ensures
        r == is_word(c),
{
    let v = c as u32;
    (48 <= v && v <= 57) || (65 <= v && v <= 90) || (97 <= v && v <= 122) || v == 95 || v == 45
}

/// The first position at or after `i` that holds no word character.
pub open spec fn word_run_end(s: Seq<char>, i: int) -> int
    decreases s.len() - i,
{
    if 0 <= i < s.len() && is_word(s[i]) {
        word_run_end(s, i + 1)
    } else {
        i
    }
}

/// `origin/<prefix>/`, the start of a stale ref under `prefix`.
pub open spec fn ref_pattern(prefix: Seq<char>) -> Seq<char> {
    seq!['o', 'r', 'i', 'g', 'i', 'n', '/'] + prefix + seq!['/']
}

pub open spec fn is_ascii_char(c: char) -> bool {
    (c as u32) < 128
}

fn is_ascii_exec(c: char) -> (r: bool)
    ensures
        r == is_ascii_char(c),
{
    (c as u32) < 128
}

/// Whether a stale ref under the pattern `p` may start at `i`: the pattern
/// stands there and is followed by a segment character, or by a non-ASCII
/// character, which a segment may or may not hold.
pub open spec fn ref_at(t: Seq<char>, i: int, p: Seq<char>) -> bool {
    occurs_at(t, i, p) && i + p.len() < t.len() && (is_word(t[i + p.len()]) || !is_ascii_char(
        t[i + p.len()],
    ))
}

/// The first position at or after `i` where such a ref starts, or `t.len()`.
pub open spec fn first_ref(t: Seq<char>, i: int, p: Seq<char>) -> int
    decreases t.len() - i,
{
    if i < 0 || i >= t.len() {
        t.len() as int
    } else if ref_at(t, i, p) {
        i
    } else {
        first_ref(t, i + 1, p)
    }
}

/// The local branch that a line of `git remote prune origin -n` proposes
/// under `prefix`: `<prefix>/<segment>` for the leftmost
/// `origin/<prefix>/<segment>` in the line, with the segment as long as it
/// goes. The prefix is matched literally. Where the segment would start or
/// stop at a non-ASCII character the line proposes nothing: the name is
/// then not known for sure, and a shorter one could be another branch.
pub open spec fn candidate_of(line: Seq<char>, prefix: Seq<char>) -> Option<Seq<char>> {
    let t = trim(line);
    let p = ref_pattern(prefix);
    let m = first_ref(t, 0, p);
    let s = m + p.len();
    let e = word_run_end(t, s);
    if m < t.len() && is_ascii_char(t[s]) && (e == t.len() || is_ascii_char(t[e])) {
        Some(prefix + seq!['/'] + t.subrange(s, e))
    } else {
        None
    }
}

/// The branches that the lines propose, in order.
pub open spec fn candidates_spec(lines: Seq<Seq<char>>, prefix: Seq<char>) -> Seq<Seq<char>>
    decreases lines.len(),
{
    if lines.len() == 0 {
        Seq::empty()
    } else {
        let prev = candidates_spec(lines.drop_last(), prefix);
        match candidate_of(lines.last(), prefix) {
            Some(c) => prev.push(c),
            None => prev,
        }
    }
}

proof fn lemma_first_ref_bounds(t: Seq<char>, i: int, p: Seq<char>)
    requires
        0 <= i <= t.len(),
    ensures
        i <= first_ref(t, i, p) <= t.len(),
        first_ref(t, i, p) < t.len() ==> ref_at(t, first_ref(t, i, p), p),
    decreases t.len() - i,
{
    if i < t.len() && !ref_at(t, i, p) {
        lemma_first_ref_bounds(t, i + 1, p);
    }
}

proof fn lemma_word_run_end_bounds(s: Seq<char>, i: int)
    requires
        0 <= i <= s.len(),
    ensures
        i <= word_run_end(s, i) <= s.len(),
    decreases s.len() - i,
{
    if i < s.len() && is_word(s[i]) {
        lemma_word_run_end_bounds(s, i + 1);
    }
}

/// The branch that one line proposes under `prefix`, if any.
pub fn purge_candidate(line: &str, prefix: &str) -> (r: Option<String>)
    ensures
        match candidate_of(line@, prefix@) {
            Some(c) => r is Some && r->Some_0@ == c,
            None => r is None,
        },
{
    proof {
        reveal_strlit("origin/");
        reveal_strlit("/");
        assert("origin/"@ =~= seq!['o', 'r', 'i', 'g', 'i', 'n', '/']);
        assert("/"@ =~= seq!['/']);
    }
    let t = trim_spaces(line);
    let n = t.unicode_len();
    let pat = String::from_str("origin/").concat(prefix).concat("/");
    assert(pat@ == ref_pattern(prefix@));
    let pn = pat.unicode_len();
    let mut m: usize = 0;
    while m < n && !(occurs_at_exec(t, n, m, pat.as_str()) && pn < n - m && (is_word_char(
        t.get_char(m + pn),
    ) || !is_ascii_exec(t.get_char(m + pn))))
        invariant
            n == t@.len(),
            pn == pat@.len(),
            m <= n,
            first_ref(t@, 0, pat@) == first_ref(t@, m as int, pat@),
        decreases n - m,
    {
        m = m + 1;
    }
    proof {
        lemma_first_ref_bounds(t@, 0, pat@);
    }
    if m >= n {
        return None;
    }
    let s = m + pn;
    if !is_ascii_exec(t.get_char(s)) {
        return None;
    }
    let mut e: usize = s;
    while e < n && is_word_char(t.get_char(e))
        invariant
            n == t@.len(),
            s <= e <= n,
            word_run_end(t@, s as int) == word_run_end(t@, e as int),
        decreases n - e,
    {
        e = e + 1;
    }
    if e < n && !is_ascii_exec(t.get_char(e)) {
        return None;
    }
    let seg = t.substring_char(s, e);
    Some(String::from_str(prefix).concat("/").concat(seg))
}

/// The branches that a `git remote prune origin -n` report proposes under
/// `prefix`, one for each line that names one, in the report's order.
pub fn purge_candidates(lines: &Vec<String>, prefix: &str) -> (r: Vec<String>)
    ensures
        r@.map_values(|s: String| s@) == candidates_spec(
            lines@.map_values(|s: String| s@),
            prefix@,
        ),
{
    let ghost ls = lines@.map_values(|s: String| s@);
    let mut out: Vec<String> = Vec::new();
    let mut k: usize = 0;
    assert(ls.take(0) =~= Seq::<Seq<char>>::empty());
    assert(out@.map_values(|s: String| s@) =~= Seq::<Seq<char>>::empty());
    while k < lines.len()
        invariant
            k <= lines@.len(),
            ls == lines@.map_values(|s: String| s@),
            out@.map_values(|s: String| s@) == candidates_spec(ls.take(k as int), prefix@),
        decreases lines@.len() - k,
    {
        assert(ls.take(k + 1).drop_last() =~= ls.take(k as int));
        assert(ls.take(k + 1).last() == lines@[k as int]@);
        let ghost before = out@.map_values(|s: String| s@);
        match purge_candidate(lines[k].as_str(), prefix) {
            Some(c) => {
                out.push(c);
                assert(out@.map_values(|s: String| s@) =~= before.push(c@));
            },
            None => {},
        }
        k = k + 1;
    }
    assert(ls.take(lines@.len() as int) =~= ls);
    out
}

/// Whether `git status` reports a clean working tree, in either of the
/// wordings that git versions use.
pub fn is_clean_status(status: &str) -> (r: bool)
    ensures
        r == (contains(status@, "nothing to commit, working directory clean"@) || contains(
            status@,
            "nothing to commit, working tree clean"@,
        )),
{
    contains_exec(status, "nothing to commit, working directory clean") || contains_exec(
        status,
        "nothing to commit, working tree clean",
    )
}

/// The remote-tracking ref of the same-named branch on `origin`.
pub fn origin_ref(branch: &str) -> (r: String)
    ensures
        r@ == "origin/"@ + branch@,
{
    String::from_str("origin/").concat(branch)
}

} // verus!
