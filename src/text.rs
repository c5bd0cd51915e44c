//! Character-level scanning over string views.

use vstd::prelude::*;

verus! {

/// Unicode `White_Space`: the characters that `char::is_whitespace` and a
/// regex `\s` class accept.
pub open spec fn is_space(c: char) -> bool {
    let v = c as u32;
    (9 <= v && v <= 13) || v == 32 || v == 0x85 || v == 0xa0 || v == 0x1680
        || (0x2000 <= v && v <= 0x200a) || v == 0x2028 || v == 0x2029 || v == 0x202f
        || v == 0x205f || v == 0x3000
}

pub fn is_space_char(c: char) -> (r: bool)
    ensures
        r == is_space(c),
{
    let v = c as u32;
    (9 <= v && v <= 13) || v == 32 || v == 0x85 || v == 0xa0 || v == 0x1680
        || (0x2000 <= v && v <= 0x200a) || v == 0x2028 || v == 0x2029 || v == 0x202f
        || v == 0x205f || v == 0x3000
}

/// The first position at or after `i` that does not hold a space.
pub open spec fn space_end(s: Seq<char>, i: int) -> int
    decreases s.len() - i,
{
    if 0 <= i < s.len() && is_space(s[i]) {
        space_end(s, i + 1)
    } else {
        i
    }
}

/// The first position at or after `i` that holds a space.
pub open spec fn word_end(s: Seq<char>, i: int) -> int
    decreases s.len() - i,
{
    if 0 <= i < s.len() && !is_space(s[i]) {
        word_end(s, i + 1)
    } else {
        i
    }
}

/// The last position at or before `j` that follows no space.
pub open spec fn trailing_start(s: Seq<char>, j: int) -> int
    decreases j,
{
    if 0 < j <= s.len() && is_space(s[j - 1]) {
        trailing_start(s, j - 1)
    } else {
        j
    }
}

/// The first position at or after `i` that does not hold `c`.
pub open spec fn run_end(s: Seq<char>, i: int, c: char) -> int
    decreases s.len() - i,
{
    if 0 <= i < s.len() && s[i] == c {
        run_end(s, i + 1, c)
    } else {
        i
    }
}

/// `s` without its leading and trailing spaces.
pub open spec fn trim(s: Seq<char>) -> Seq<char> {
    let a = space_end(s, 0);
    let b = trailing_start(s, s.len() as int);
    if a < b {
        s.subrange(a, b)
    } else {
        Seq::empty()
    }
}

/// `s` without the characters `c` that start it.
pub open spec fn strip_leading(s: Seq<char>, c: char) -> Seq<char> {
    s.subrange(run_end(s, 0, c), s.len() as int)
}

/// Whether `pat` stands in `s` at position `i`.
pub open spec fn occurs_at(s: Seq<char>, i: int, pat: Seq<char>) -> bool {
    0 <= i && i + pat.len() <= s.len() && s.subrange(i, i + pat.len()) =~= pat
}

/// Whether `pat` stands anywhere in `s`.
pub open spec fn contains(s: Seq<char>, pat: Seq<char>) -> bool {
    exists|i: int| occurs_at(s, i, pat)
}

/// The first position at or after `i` where `pat` stands, or `s.len()`.
pub open spec fn find_from(s: Seq<char>, i: int, pat: Seq<char>) -> int
    decreases s.len() - i,
{
    if i < 0 || i >= s.len() {
        s.len() as int
    } else if occurs_at(s, i, pat) {
        i
    } else {
        find_from(s, i + 1, pat)
    }
}

pub proof fn lemma_space_end_bounds(s: Seq<char>, i: int)
    requires
        0 <= i <= s.len(),
    ensures
        i <= space_end(s, i) <= s.len(),
        space_end(s, i) < s.len() ==> !is_space(s[space_end(s, i)]),
        forall|k: int| i <= k < space_end(s, i) ==> is_space(s[k]),
    decreases s.len() - i,
{
    if i < s.len() && is_space(s[i]) {
        lemma_space_end_bounds(s, i + 1);
    }
}

pub proof fn lemma_word_end_bounds(s: Seq<char>, i: int)
    requires
        0 <= i <= s.len(),
    ensures
        i <= word_end(s, i) <= s.len(),
        word_end(s, i) < s.len() ==> is_space(s[word_end(s, i)]),
        forall|k: int| i <= k < word_end(s, i) ==> !is_space(s[k]),
    decreases s.len() - i,
{
    if i < s.len() && !is_space(s[i]) {
        lemma_word_end_bounds(s, i + 1);
    }
}

pub proof fn lemma_trailing_start_bounds(s: Seq<char>, j: int)
    requires
        0 <= j <= s.len(),
    ensures
        0 <= trailing_start(s, j) <= j,
        trailing_start(s, j) > 0 ==> !is_space(s[trailing_start(s, j) - 1]),
        forall|k: int| trailing_start(s, j) <= k < j ==> is_space(s[k]),
    decreases j,
{
    if 0 < j && is_space(s[j - 1]) {
        lemma_trailing_start_bounds(s, j - 1);
    }
}

pub proof fn lemma_run_end_bounds(s: Seq<char>, i: int, c: char)
    requires
        0 <= i <= s.len(),
    ensures
        i <= run_end(s, i, c) <= s.len(),
        run_end(s, i, c) < s.len() ==> s[run_end(s, i, c)] != c,
        forall|k: int| i <= k < run_end(s, i, c) ==> s[k] == c,
    decreases s.len() - i,
{
    if i < s.len() && s[i] == c {
        lemma_run_end_bounds(s, i + 1, c);
    }
}

pub proof fn lemma_find_from_bounds(s: Seq<char>, i: int, pat: Seq<char>)
    requires
        0 <= i <= s.len(),
    ensures
        i <= find_from(s, i, pat) <= s.len(),
        find_from(s, i, pat) < s.len() ==> occurs_at(s, find_from(s, i, pat), pat),
        forall|k: int| i <= k < find_from(s, i, pat) ==> !occurs_at(s, k, pat),
    decreases s.len() - i,
{
    if i < s.len() && !occurs_at(s, i, pat) {
        lemma_find_from_bounds(s, i + 1, pat);
    }
}

/// Executable `space_end`.
pub fn skip_spaces(s: &str, n: usize, i: usize) -> (r: usize)
    requires
        n == s@.len(),
        i <= n,
    ensures
        r == space_end(s@, i as int),
{
    let mut j: usize = i;
    while j < n && is_space_char(s.get_char(j))
        invariant
            n == s@.len(),
            i <= j <= n,
            space_end(s@, i as int) == space_end(s@, j as int),
        decreases n - j,
    {
        j = j + 1;
    }
    j
}

/// Executable `word_end`.
pub fn skip_word(s: &str, n: usize, i: usize) -> (r: usize)
    requires
        n == s@.len(),
        i <= n,
    ensures
        r == word_end(s@, i as int),
        i <= r <= n,
{
    proof {
        lemma_word_end_bounds(s@, i as int);
    }
    let mut j: usize = i;
    while j < n && !is_space_char(s.get_char(j))
        invariant
            n == s@.len(),
            i <= j <= n,
            word_end(s@, i as int) == word_end(s@, j as int),
        decreases n - j,
    {
        j = j + 1;
    }
    j
}

/// Executable `run_end`.
pub fn skip_run(s: &str, n: usize, i: usize, c: char) -> (r: usize)
    requires
        n == s@.len(),
        i <= n,
    ensures
        r == run_end(s@, i as int, c),
        i <= r <= n,
{
    proof {
        lemma_run_end_bounds(s@, i as int, c);
    }
    let mut j: usize = i;
    while j < n && s.get_char(j) == c
        invariant
            n == s@.len(),
            i <= j <= n,
            run_end(s@, i as int, c) == run_end(s@, j as int, c),
        decreases n - j,
    {
        j = j + 1;
    }
    j
}

/// `s` without its leading and trailing spaces.
pub fn trim_spaces(s: &str) -> (r: &str)
    ensures
        r@ == trim(s@),
{
    let n = s.unicode_len();
    let a = skip_spaces(s, n, 0);
    proof {
        lemma_space_end_bounds(s@, 0);
        lemma_trailing_start_bounds(s@, n as int);
    }
    let mut b: usize = n;
    while b > 0 && is_space_char(s.get_char(b - 1))
        invariant
            n == s@.len(),
            b <= n,
            trailing_start(s@, n as int) == trailing_start(s@, b as int),
        decreases b,
    {
        b = b - 1;
    }
    if a < b {
        s.substring_char(a, b)
    } else {
        let e = s.substring_char(0, 0);
        assert(e@ =~= Seq::<char>::empty());
        e
    }
}

/// Whether the characters of `pat` stand in `s` at position `i`.
pub fn occurs_at_exec(s: &str, n: usize, i: usize, pat: &str) -> (r: bool)
    requires
        n == s@.len(),
    ensures
        r == occurs_at(s@, i as int, pat@),
{
    let m = pat.unicode_len();
    if i > n || m > n - i {
        return false;
    }
    let mut k: usize = 0;
    while k < m
        invariant
            n == s@.len(),
            m == pat@.len(),
            i + m <= n,
            k <= m,
            forall|t: int| 0 <= t < k ==> s@[i + t] == pat@[t],
        decreases m - k,
    {
        if s.get_char(i + k) != pat.get_char(k) {
            assert(s@.subrange(i as int, i + m)[k as int] != pat@[k as int]);
            return false;
        }
        k = k + 1;
    }
    assert(s@.subrange(i as int, i + m) =~= pat@);
    true
}

/// Executable `find_from`.
pub fn find_exec(s: &str, n: usize, i: usize, pat: &str) -> (r: usize)
    requires
        n == s@.len(),
        i <= n,
    ensures
        r == find_from(s@, i as int, pat@),
        i <= r <= n,
{
    proof {
        lemma_find_from_bounds(s@, i as int, pat@);
    }
    let mut j: usize = i;
    while j < n && !occurs_at_exec(s, n, j, pat)
        invariant
            n == s@.len(),
            i <= j <= n,
            find_from(s@, i as int, pat@) == find_from(s@, j as int, pat@),
        decreases n - j,
    {
        j = j + 1;
    }
    j
}

/// `space_end` over a known run of spaces.
pub proof fn lemma_space_end_run(s: Seq<char>, i: int, j: int)
    requires
        0 <= i <= j <= s.len(),
        forall|k: int| i <= k < j ==> is_space(s[k]),
        j == s.len() || !is_space(s[j]),
    ensures
        space_end(s, i) == j,
    decreases j - i,
{
    if i < j {
        lemma_space_end_run(s, i + 1, j);
    }
}

/// `word_end` over a known run of non-spaces.
pub proof fn lemma_word_end_run(s: Seq<char>, i: int, j: int)
    requires
        0 <= i <= j <= s.len(),
        forall|k: int| i <= k < j ==> !is_space(s[k]),
        j == s.len() || is_space(s[j]),
    ensures
        word_end(s, i) == j,
    decreases j - i,
{
    if i < j {
        lemma_word_end_run(s, i + 1, j);
    }
}

/// `find_from` when the first occurrence at or after `i` is known.
pub proof fn lemma_find_from_run(s: Seq<char>, i: int, j: int, pat: Seq<char>)
    requires
        0 <= i <= j <= s.len(),
        forall|k: int| i <= k < j ==> !occurs_at(s, k, pat),
        j == s.len() || occurs_at(s, j, pat),
    ensures
        find_from(s, i, pat) == j,
    decreases j - i,
{
    if i < j {
        lemma_find_from_run(s, i + 1, j, pat);
    }
}

/// The lines of `s` from position `i`: pieces ended by `\n` or `\r\n`,
/// the last one with or without an ending, as `str::lines` gives them.
pub open spec fn lines_from(s: Seq<char>, i: int) -> Seq<Seq<char>>
    decreases s.len() - i,
{
    let e = find_from(s, i, seq!['\n']);
    if i < 0 || i >= s.len() || e < i {
        Seq::empty()
    } else {
        let piece = if e < s.len() && e > i && s[e - 1] == '\r' {
            s.subrange(i, e - 1)
        } else {
            s.subrange(i, e)
        };
        seq![piece] + if e < s.len() {
            lines_from(s, e + 1)
        } else {
            Seq::empty()
        }
    }
}

/// The lines of `s`, as `str::lines` gives them.
pub fn split_lines(s: &str) -> (r: Vec<String>)
    ensures
        r@.map_values(|l: String| l@) == lines_from(s@, 0),
{
    proof {
        reveal_strlit("\n");
        assert("\n"@ =~= seq!['\n']);
    }
    let n = s.unicode_len();
    let mut out: Vec<String> = Vec::new();
    let mut i: usize = 0;
    assert(out@.map_values(|l: String| l@) + lines_from(s@, 0) =~= lines_from(s@, 0));
    while i < n
        invariant
            n == s@.len(),
            "\n"@ == seq!['\n'],
            out@.map_values(|l: String| l@) + lines_from(s@, i as int) == lines_from(s@, 0),
        decreases n - i,
    {
        let e = find_exec(s, n, i, "\n");
        let cut = if e < n && e > i && s.get_char(e - 1) == '\r' {
            e - 1
        } else {
            e
        };
        let ghost before = out@.map_values(|l: String| l@);
        let piece = String::from_str(s.substring_char(i, cut));
        out.push(piece);
        assert(out@.map_values(|l: String| l@) =~= before.push(piece@));
        if e >= n {
            assert(lines_from(s@, i as int) == seq![piece@]);
            assert(before + seq![piece@] =~= before.push(piece@));
            return out;
        }
        assert(lines_from(s@, i as int) == seq![piece@] + lines_from(s@, e + 1));
        assert(before.push(piece@) + lines_from(s@, e + 1) =~= before + (seq![piece@] + lines_from(
            s@,
            e + 1,
        )));
        i = e + 1;
    }
    assert(lines_from(s@, i as int) == Seq::<Seq<char>>::empty());
    assert(out@.map_values(|l: String| l@) + Seq::<Seq<char>>::empty() =~= out@.map_values(
        |l: String| l@,
    ));
    out
}

/// Whether `pat` stands anywhere in `s`.
pub fn contains_exec(s: &str, pat: &str) -> (r: bool)
    ensures
        r == contains(s@, pat@),
{
    let n = s.unicode_len();
    let p = find_exec(s, n, 0, pat);
    proof {
        lemma_find_from_bounds(s@, 0, pat@);
    }
    if p < n {
        return true;
    }
    let at_end = occurs_at_exec(s, n, n, pat);
    proof {
        if !at_end {
            assert forall|k: int| !occurs_at(s@, k, pat@) by {
                if 0 <= k < n {
                } else if k > n {
                }
            }
        }
    }
    at_end
}

/// The number of maximal runs of non-space characters in `s` from `i`.
pub open spec fn token_count(s: Seq<char>, i: int) -> nat
    decreases s.len() - i,
{
    let a = space_end(s, i);
    let e = word_end(s, a);
    if i < 0 || a >= s.len() || e <= i || e > s.len() {
        0
    } else {
        1 + token_count(s, e)
    }
}

/// A trimmed sequence is empty or starts and ends with a non-space.
pub proof fn lemma_trim_ends(s: Seq<char>)
    ensures
        trim(s).len() > 0 ==> !is_space(trim(s)[0]) && !is_space(trim(s).last()),
{
    lemma_space_end_bounds(s, 0);
    lemma_trailing_start_bounds(s, s.len() as int);
    let a = space_end(s, 0);
    let b = trailing_start(s, s.len() as int);
    if a < b {
        assert(trim(s)[0] == s[a]);
        assert(trim(s).last() == s[b - 1]);
    }
}

} // verus!
