//! One line of a `git branch -vv` listing, parsed into a descriptor.
//!
//! A line has the shape `[*] <name> <hash> [[<upstream>[: ahead N][, behind N]]] <message>`.

use vstd::prelude::*;
use crate::text::{
    contains, find_exec, find_from, is_space, lemma_find_from_bounds, lemma_find_from_run,
    lemma_space_end_bounds, lemma_space_end_run, lemma_word_end_run,
    occurs_at, occurs_at_exec, run_end, skip_run, skip_spaces, skip_word, space_end,
    strip_leading, token_count, trailing_start, trim, trim_spaces, word_end, lemma_trim_ends,
    lemma_word_end_bounds,
};

verus! {

/// Divergence from the tracked upstream, as the listing reports it. A count
/// that the listing leaves out is `None`, not zero.
#[derive(Clone, Copy, Debug, PartialEq, Eq)]
pub struct Status {
    pub ahead: Option<i32>,
    pub behind: Option<i32>,
}

/// One local branch as the listing shows it.
#[derive(Clone, Debug)]
pub struct BranchDescriptor {
    pub current: bool,
    pub name: String,
    pub sha: String,
    pub upstream: Option<String>,
    pub message: String,
    pub status: Option<Status>,
}

/// The value of a `BranchDescriptor`, with its texts as character sequences.
pub struct EntryView {
    pub current: bool,
    pub name: Seq<char>,
    pub sha: Seq<char>,
    pub upstream: Option<Seq<char>>,
    pub message: Seq<char>,
    pub status: Option<Status>,
}

pub open spec fn opt_view(o: Option<String>) -> Option<Seq<char>> {
    match o {
        Some(s) => Some(s@),
        None => None,
    }
}

impl View for BranchDescriptor {
    type V = EntryView;

    open spec fn view(&self) -> EntryView {
        EntryView {
            current: self.current,
            name: self.name@,
            sha: self.sha@,
            upstream: opt_view(self.upstream),
            message: self.message@,
            status: self.status,
        }
    }
}

/// A line that does not have the listing's shape.
#[derive(Clone, Debug)]
pub struct ParseError {
    /// The offending line.
    pub line: String,
}

impl ParseError {
    /// The diagnostic for this error.
    pub fn message(&self) -> (r: String)
        ensures
            r@ == "Unexpectedly unable to parse branch line "@ + self.line@
                + " (wrong number of parts)"@,
    {
        let head = String::from_str("Unexpectedly unable to parse branch line ");
        let with_line = head.concat(self.line.as_str());
        with_line.concat(" (wrong number of parts)")
    }
}

pub open spec fn is_digit(c: char) -> bool {
    48 <= (c as u32) && (c as u32) <= 57
}

/// The first position at or after `i` that holds no decimal digit.
pub open spec fn digit_end(s: Seq<char>, i: int) -> int
    decreases s.len() - i,
{
    if 0 <= i < s.len() && is_digit(s[i]) {
        digit_end(s, i + 1)
    } else {
        i
    }
}

/// The number that a run of decimal digits writes.
pub open spec fn digits_value(d: Seq<char>) -> nat
    decreases d.len(),
{
    if d.len() == 0 {
        0
    } else {
        digits_value(d.drop_last()) * 10 + ((d.last() as u32) - 48) as nat
    }
}

/// A run of digits read as an `i32`; `None` where the number does not fit.
pub open spec fn count_of(d: Seq<char>) -> Option<i32> {
    if digits_value(d) <= i32::MAX {
        Some(digits_value(d) as i32)
    } else {
        None
    }
}

pub open spec fn ahead_word() -> Seq<char> {
    seq!['a', 'h', 'e', 'a', 'd', ' ']
}

pub open spec fn behind_word() -> Seq<char> {
    seq!['b', 'e', 'h', 'i', 'n', 'd', ' ']
}

pub open spec fn comma_sep() -> Seq<char> {
    seq![',', ' ']
}

pub open spec fn colon_sep() -> Seq<char> {
    seq![':', ' ']
}

/// Whether `word` followed by at least one digit stands at `i`.
pub open spec fn count_at(t: Seq<char>, i: int, word: Seq<char>) -> bool {
    occurs_at(t, i, word) && i + word.len() < t.len() && is_digit(t[i + word.len()])
}

/// Where the optional `ahead N` part of a status text ends.
pub open spec fn ahead_end(t: Seq<char>) -> int {
    if count_at(t, 0, ahead_word()) {
        digit_end(t, 6)
    } else {
        0
    }
}

/// Where the optional `behind N` part of a status text starts.
pub open spec fn behind_start(t: Seq<char>) -> int {
    if occurs_at(t, ahead_end(t), comma_sep()) {
        ahead_end(t) + 2
    } else {
        ahead_end(t)
    }
}

/// The counts that a status text such as `ahead 2, behind 1` reports.
pub open spec fn status_of(t: Seq<char>) -> Status {
    let b = behind_start(t);
    Status {
        ahead: if count_at(t, 0, ahead_word()) {
            count_of(t.subrange(6, ahead_end(t)))
        } else {
            None
        },
        behind: if count_at(t, b, behind_word()) {
            count_of(t.subrange(b + 7, digit_end(t, b + 7)))
        } else {
            None
        },
    }
}

/// Where the closing bracket of an annotation that opens `r` stands.
pub open spec fn bracket_close(r: Seq<char>) -> int {
    find_from(r, 1, seq![']'])
}

/// Whether `r` opens with a bracketed annotation followed by a space.
pub open spec fn has_annotation(r: Seq<char>) -> bool {
    r.len() > 0 && r[0] == '[' && bracket_close(r) + 1 < r.len() && r[bracket_close(r) + 1]
        == ' '
}

/// The text between the brackets of the annotation.
pub open spec fn annotation_of(r: Seq<char>) -> Seq<char> {
    r.subrange(1, bracket_close(r))
}

/// The tracked upstream: the annotation up to its first `": "`.
pub open spec fn upstream_of(a: Seq<char>) -> Seq<char> {
    a.subrange(0, find_from(a, 0, colon_sep()))
}

/// Whether the annotation carries a status part after `": "`.
pub open spec fn has_status(a: Seq<char>) -> bool {
    find_from(a, 0, colon_sep()) < a.len()
}

/// The status part: after the first `": "`, up to the next one.
pub open spec fn status_text(a: Seq<char>) -> Seq<char> {
    let p = find_from(a, 0, colon_sep());
    a.subrange(p + 2, find_from(a, p + 2, colon_sep()))
}

/// The commit message: what follows the annotation, up to a line break.
pub open spec fn message_of(r: Seq<char>) -> Seq<char> {
    let m = if has_annotation(r) {
        bracket_close(r) + 2
    } else {
        0
    };
    r.subrange(m, find_from(r, m, seq!['\n']))
}

/// The line with its spaces trimmed and the current-branch stars taken off.
pub open spec fn body_of(line: Seq<char>) -> Seq<char> {
    trim(strip_leading(trim(line), '*'))
}

pub open spec fn name_end(u: Seq<char>) -> int {
    word_end(u, 0)
}

pub open spec fn sha_start(u: Seq<char>) -> int {
    space_end(u, name_end(u))
}

pub open spec fn sha_end(u: Seq<char>) -> int {
    word_end(u, sha_start(u))
}

/// Whether the body splits on runs of spaces into at least three fields.
pub open spec fn has_three_fields(u: Seq<char>) -> bool {
    name_end(u) < u.len() && sha_end(u) < u.len()
}

/// The third field: everything after the hash and the spaces that follow it.
pub open spec fn rest_of(u: Seq<char>) -> Seq<char> {
    u.subrange(space_end(u, sha_end(u)), u.len() as int)
}

/// What a listing line describes, or `None` for a line without three fields.
#[verifier::opaque]
pub open spec fn parse_spec(line: Seq<char>) -> Option<EntryView> {
    let u = body_of(line);
    if !has_three_fields(u) {
        None
    } else {
        let r = rest_of(u);
        let a = annotation_of(r);
        Some(
            EntryView {
                current: trim(line).len() > 0 && trim(line)[0] == '*',
                name: u.subrange(0, name_end(u)),
                sha: u.subrange(sha_start(u), sha_end(u)),
                upstream: if has_annotation(r) {
                    Some(upstream_of(a))
                } else {
                    None
                },
                message: message_of(r),
                status: if has_annotation(r) && has_status(a) {
                    Some(status_of(status_text(a)))
                } else {
                    None
                },
            },
        )
    }
}

proof fn lemma_digit_end_bounds(s: Seq<char>, i: int)
    requires
        0 <= i <= s.len(),
    ensures
        i <= digit_end(s, i) <= s.len(),
        forall|k: int| i <= k < digit_end(s, i) ==> is_digit(s[k]),
    decreases s.len() - i,
{
    if i < s.len() && is_digit(s[i]) {
        lemma_digit_end_bounds(s, i + 1);
    }
}

fn is_digit_char(c: char) -> (r: bool)
    ensures
        r == is_digit(c),
{
    48 <= (c as u32) && (c as u32) <= 57
}

fn skip_digits(s: &str, n: usize, i: usize) -> (r: usize)
    requires
        n == s@.len(),
        i <= n,
    ensures
        r == digit_end(s@, i as int),
        i <= r <= n,
{
    proof {
        lemma_digit_end_bounds(s@, i as int);
    }
    let mut j: usize = i;
    while j < n && is_digit_char(s.get_char(j))
        invariant
            n == s@.len(),
            i <= j <= n,
            digit_end(s@, i as int) == digit_end(s@, j as int),
        decreases n - j,
    {
        j = j + 1;
    }
    j
}

/// Reads the digits at positions `a..b` of `s` as an `i32`.
fn read_count(s: &str, n: usize, a: usize, b: usize) -> (r: Option<i32>)
    requires
        n == s@.len(),
        a <= b <= n,
        forall|k: int| a <= k < b ==> is_digit(s@[k]),
    ensures
        r == count_of(s@.subrange(a as int, b as int)),
{
    let mut v: u64 = 0;
    let mut big = false;
    let mut k: usize = a;
    while k < b
        invariant
            n == s@.len(),
            a <= k <= b <= n,
            forall|t: int| a <= t < b ==> is_digit(s@[t]),
            v <= i32::MAX,
            !big ==> v == digits_value(s@.subrange(a as int, k as int)),
            big ==> digits_value(s@.subrange(a as int, k as int)) > i32::MAX,
        decreases b - k,
    {
        let c = s.get_char(k);
        let d = (c as u32 - 48) as u64;
        proof {
            let next = s@.subrange(a as int, k + 1);
            assert(next.drop_last() =~= s@.subrange(a as int, k as int));
            assert(next.last() == c);
        }
        if !big {
            let nv = v * 10 + d;
            if nv > i32::MAX as u64 {
                big = true;
            } else {
                v = nv;
            }
        }
        k = k + 1;
    }
    if big {
        None
    } else {
        Some(v as i32)
    }
}

/// Whether `word` followed by a digit stands at `i`, executable.
fn count_at_exec(t: &str, n: usize, i: usize, word: &str) -> (r: bool)
    requires
        n == t@.len(),
    ensures
        r == count_at(t@, i as int, word@),
{
    let m = word.unicode_len();
    if !occurs_at_exec(t, n, i, word) {
        return false;
    }
    i + m < n && is_digit_char(t.get_char(i + m))
}

/// The counts that a status text such as `ahead 2, behind 1` reports.
pub fn parse_status(t: &str) -> (r: Status)
    ensures
        r == status_of(t@),
{
    proof {
        reveal_strlit("ahead ");
        reveal_strlit("behind ");
        reveal_strlit(", ");
        assert("ahead "@ =~= ahead_word());
        assert("behind "@ =~= behind_word());
        assert(", "@ =~= comma_sep());
    }
    let n = t.unicode_len();
    let has_ahead = count_at_exec(t, n, 0, "ahead ");
    let mut ahead: Option<i32> = None;
    let mut p: usize = 0;
    if has_ahead {
        let e = skip_digits(t, n, 6);
        proof {
            lemma_digit_end_bounds(t@, 6);
        }
        ahead = read_count(t, n, 6, e);
        p = e;
    }
    assert(p == ahead_end(t@));
    if occurs_at_exec(t, n, p, ", ") {
        p = p + 2;
    }
    assert(p == behind_start(t@));
    let mut behind: Option<i32> = None;
    if count_at_exec(t, n, p, "behind ") {
        let e = skip_digits(t, n, p + 7);
        proof {
            lemma_digit_end_bounds(t@, p + 7);
        }
        behind = read_count(t, n, p + 7, e);
    }
    Status { ahead, behind }
}

/// Parses one line of a `git branch -vv` listing. A line whose body does not
/// split into a name, a hash and a rest is refused.
pub fn parse_branch_entry(line: &str) -> (r: Result<BranchDescriptor, ParseError>)
    ensures
        match parse_spec(line@) {
            Some(v) => r is Ok && r->Ok_0@ == v,
            None => r is Err && r->Err_0.line@ == line@,
        },
{
    reveal(parse_spec);
    let t0 = trim_spaces(line);
    let tn = t0.unicode_len();
    let k = skip_run(t0, tn, 0, '*');
    let u = trim_spaces(t0.substring_char(k, tn));
    assert(u@ == body_of(line@));
    let un = u.unicode_len();
    let n1 = skip_word(u, un, 0);
    if n1 >= un {
        return Err(ParseError { line: String::from_str(line) });
    }
    let h0 = skip_spaces(u, un, n1);
    proof {
        lemma_space_end_bounds(u@, n1 as int);
    }
    let h1 = skip_word(u, un, h0);
    if h1 >= un {
        return Err(ParseError { line: String::from_str(line) });
    }
    let r0 = skip_spaces(u, un, h1);
    proof {
        lemma_space_end_bounds(u@, h1 as int);
    }
    let rest = u.substring_char(r0, un);
    let rn = rest.unicode_len();
    proof {
        reveal_strlit("]");
        reveal_strlit(": ");
        reveal_strlit("\n");
        assert("]"@ =~= seq![']']);
        assert(": "@ =~= colon_sep());
        assert("\n"@ =~= seq!['\n']);
    }
    let mut upstream: Option<String> = None;
    let mut status: Option<Status> = None;
    let mut m: usize = 0;
    if rn > 0 && rest.get_char(0) == '[' {
        let c = find_exec(rest, rn, 1, "]");
        if c < rn && c + 1 < rn && rest.get_char(c + 1) == ' ' {
            let a = rest.substring_char(1, c);
            let an = a.unicode_len();
            let p = find_exec(a, an, 0, ": ");
            upstream = Some(String::from_str(a.substring_char(0, p)));
            if p < an {
                proof {
                    lemma_find_from_bounds(a@, 0, colon_sep());
                }
                let q = find_exec(a, an, p + 2, ": ");
                status = Some(parse_status(a.substring_char(p + 2, q)));
            }
            m = c + 2;
        }
    }
    let e = find_exec(rest, rn, m, "\n");
    let current = tn > 0 && t0.get_char(0) == '*';
    Ok(
        BranchDescriptor {
            current,
            name: String::from_str(u.substring_char(0, n1)),
            sha: String::from_str(u.substring_char(h0, h1)),
            upstream,
            message: String::from_str(rest.substring_char(m, e)),
            status,
        },
    )
}

/// A non-empty run of non-space characters.
pub open spec fn is_token(s: Seq<char>) -> bool {
    s.len() > 0 && forall|k: int| 0 <= k < s.len() ==> !is_space(#[trigger] s[k])
}

/// The `[upstream: status] ` annotation of a listing line, if any.
pub open spec fn annotation_text(upstream: Option<Seq<char>>, status: Option<Seq<char>>) -> Seq<char> {
    match upstream {
        None => Seq::empty(),
        Some(u) => seq!['['] + u + match status {
            Some(st) => colon_sep() + st,
            None => Seq::empty(),
        } + seq![']', ' '],
    }
}

/// The listing line that shows these fields.
pub open spec fn listing_line(
    current: bool,
    name: Seq<char>,
    sha: Seq<char>,
    upstream: Option<Seq<char>>,
    status: Option<Seq<char>>,
    message: Seq<char>,
) -> Seq<char> {
    (if current {
        seq!['*', ' ']
    } else {
        seq![' ', ' ']
    }) + name + seq![' '] + sha + seq![' '] + annotation_text(upstream, status) + message
}

/// Fields that a listing line can show and give back: a name and a hash
/// without spaces, the name not starting with `*`; a one-line message that
/// neither starts nor ends with a space and, without an upstream, does not
/// itself open with an annotation; an upstream without `]` or `": "`, and a
/// status text, only beside an upstream, without them either.
pub open spec fn listable(
    name: Seq<char>,
    sha: Seq<char>,
    upstream: Option<Seq<char>>,
    status: Option<Seq<char>>,
    message: Seq<char>,
) -> bool {
    &&& is_token(name)
    &&& name[0] != '*'
    &&& is_token(sha)
    &&& message.len() > 0
    &&& !is_space(message[0])
    &&& !is_space(message.last())
    &&& !message.contains('\n')
    &&& match upstream {
        None => !has_annotation(message) && status is None,
        Some(u) => !u.contains(']') && !contains(u, colon_sep()) && match status {
            None => true,
            Some(st) => !st.contains(']') && !contains(st, colon_sep()),
        },
    }
}

proof fn lemma_no_char(s: Seq<char>, c: char)
    requires
        !s.contains(c),
    ensures
        forall|k: int| !occurs_at(s, k, seq![c]),
{
    assert forall|k: int| !occurs_at(s, k, seq![c]) by {
        if occurs_at(s, k, seq![c]) {
            assert(s.subrange(k, k + 1)[0] == c);
            assert(s[k] == c);
        }
    }
}

proof fn lemma_annotation_parts(u: Seq<char>, status: Option<Seq<char>>)
    requires
        !u.contains(']'),
        !contains(u, colon_sep()),
        status matches Some(st) ==> !st.contains(']') && !contains(st, colon_sep()),
    ensures
        ({
            let a = u + match status {
                Some(st) => colon_sep() + st,
                None => Seq::empty(),
            };
            &&& !a.contains(']')
            &&& upstream_of(a) == u
            &&& has_status(a) == status is Some
            &&& status matches Some(st) ==> status_text(a) == st
        }),
{
    let tail = match status {
        Some(st) => colon_sep() + st,
        None => Seq::<char>::empty(),
    };
    let a = u + tail;
    assert forall|k: int| 0 <= k < a.len() implies a[k] != ']' by {
        if k < u.len() {
            assert(a[k] == u[k]);
        } else if let Some(st) = status {
            if k >= u.len() + 2 {
                assert(a[k] == st[k - u.len() - 2]);
            }
        }
    }
    assert forall|k: int| 0 <= k < u.len() implies !occurs_at(a, k, colon_sep()) by {
        if occurs_at(a, k, colon_sep()) {
            if k + 2 <= u.len() {
                assert(u.subrange(k, k + 2) =~= a.subrange(k, k + 2));
                assert(occurs_at(u, k, colon_sep()));
            } else {
                assert(a.subrange(k, k + 2)[1] == ' ');
                assert(a[k + 1] == ' ');
                if let Some(st) = status {
                    assert(a[k + 1] == ':');
                }
            }
        }
    }
    match status {
        None => {
            assert(a =~= u);
            lemma_find_from_run(a, 0, a.len() as int, colon_sep());
            assert(a.subrange(0, a.len() as int) =~= u);
        },
        Some(st) => {
            assert(a.subrange(u.len() as int, u.len() + 2 as int) =~= colon_sep());
            lemma_find_from_run(a, 0, u.len() as int, colon_sep());
            assert(a.subrange(0, u.len() as int) =~= u);
            assert forall|k: int| u.len() + 2 <= k < a.len() implies !occurs_at(a, k, colon_sep()) by {
                if occurs_at(a, k, colon_sep()) {
                    let j = k - u.len() - 2;
                    assert(st.subrange(j, j + 2) =~= a.subrange(k, k + 2));
                    assert(occurs_at(st, j, colon_sep()));
                }
            }
            lemma_find_from_run(a, u.len() + 2 as int, a.len() as int, colon_sep());
            assert(a.subrange(u.len() + 2 as int, a.len() as int) =~= st);
        },
    }
}

proof fn lemma_round_trip_body(current: bool, name: Seq<char>, u: Seq<char>, line: Seq<char>)
    requires
        u.len() > 0,
        !is_space(u[0]),
        u[0] != '*',
        !is_space(u.last()),
        line == (if current {
            seq!['*', ' ']
        } else {
            seq![' ', ' ']
        }) + u,
    ensures
        body_of(line) == u,
        (trim(line).len() > 0 && trim(line)[0] == '*') == current,
{
    lemma_space_end_run(u, 0, 0);
    assert(trailing_start(u, u.len() as int) == u.len());
    assert(u.subrange(0, u.len() as int) =~= u);
    assert(trim(u) == u);
    if current {
        lemma_space_end_run(line, 0, 0);
        assert(line.last() == u.last());
        assert(trailing_start(line, line.len() as int) == line.len());
        assert(line.subrange(0, line.len() as int) =~= line);
        assert(trim(line) == line);
        assert(run_end(line, 1, '*') == 1);
        assert(run_end(line, 0, '*') == 1);
        let s1 = line.subrange(1, line.len() as int);
        assert(s1 =~= seq![' '] + u);
        lemma_space_end_run(s1, 0, 1);
        assert(s1.last() == u.last());
        assert(trailing_start(s1, s1.len() as int) == s1.len());
        assert(s1.subrange(1, s1.len() as int) =~= u);
        assert(trim(s1) == u);
        assert(line[0] == '*');
    } else {
        lemma_space_end_run(line, 0, 2);
        assert(line.last() == u.last());
        assert(trailing_start(line, line.len() as int) == line.len());
        assert(line.subrange(2, line.len() as int) =~= u);
        assert(trim(line) == u);
        assert(run_end(u, 0, '*') == 0);
        assert(line[0] == ' ');
    }
}

proof fn lemma_round_trip_fields(name: Seq<char>, sha: Seq<char>, r: Seq<char>)
    requires
        is_token(name),
        is_token(sha),
        r.len() > 0,
        !is_space(r[0]),
    ensures
        ({
            let u = name + seq![' '] + sha + seq![' '] + r;
            &&& has_three_fields(u)
            &&& u.subrange(0, name_end(u)) == name
            &&& u.subrange(sha_start(u), sha_end(u)) == sha
            &&& rest_of(u) == r
        }),
{
    let u = name + seq![' '] + sha + seq![' '] + r;
    let nl = name.len() as int;
    let hl = sha.len() as int;
    assert forall|k: int| 0 <= k < nl implies !is_space(u[k]) by {
        assert(u[k] == name[k]);
    }
    lemma_word_end_run(u, 0, nl);
    lemma_space_end_run(u, nl, nl + 1);
    assert forall|k: int| nl + 1 <= k < nl + 1 + hl implies !is_space(u[k]) by {
        assert(u[k] == sha[k - nl - 1]);
    }
    lemma_word_end_run(u, nl + 1, nl + 1 + hl);
    assert(u[nl + 2 + hl] == r[0]);
    lemma_space_end_run(u, nl + 1 + hl, nl + 2 + hl);
    assert(u.subrange(0, nl) =~= name);
    assert(u.subrange(nl + 1, nl + 1 + hl) =~= sha);
    assert(rest_of(u) =~= r);
}

proof fn lemma_round_trip_rest(
    upstream: Option<Seq<char>>,
    status: Option<Seq<char>>,
    message: Seq<char>,
)
    requires
        listable(seq!['x'], seq!['x'], upstream, status, message),
    ensures
        ({
            let r = annotation_text(upstream, status) + message;
            &&& r.len() > 0
            &&& !is_space(r[0])
            &&& message_of(r) == message
            &&& has_annotation(r) == upstream is Some
            &&& upstream matches Some(up) ==> upstream_of(annotation_of(r)) == up
                && has_status(annotation_of(r)) == status is Some
                && (status matches Some(st) ==> status_text(annotation_of(r)) == st)
        }),
{
    let r = annotation_text(upstream, status) + message;
    lemma_no_char(message, '\n');
    match upstream {
        None => {
            assert(r =~= message);
            lemma_find_from_run(message, 0, message.len() as int, seq!['\n']);
            assert(message.subrange(0, message.len() as int) =~= message);
        },
        Some(up) => {
            lemma_annotation_parts(up, status);
            let a = up + match status {
                Some(st) => colon_sep() + st,
                None => Seq::<char>::empty(),
            };
            assert(r =~= seq!['['] + a + seq![']', ' '] + message);
            let c = (a.len() + 1) as int;
            assert forall|k: int| 1 <= k < c implies !occurs_at(r, k, seq![']']) by {
                if occurs_at(r, k, seq![']']) {
                    assert(r.subrange(k, k + 1)[0] == ']');
                    assert(r[k] == a[k - 1]);
                }
            }
            assert(r.subrange(c, c + 1) =~= seq![']']);
            lemma_find_from_run(r, 1, c, seq![']']);
            assert(bracket_close(r) == c);
            assert(has_annotation(r));
            assert(annotation_of(r) =~= a);
            assert forall|k: int| c + 2 <= k < r.len() implies !occurs_at(r, k, seq!['\n']) by {
                if occurs_at(r, k, seq!['\n']) {
                    assert(r.subrange(k, k + 1)[0] == '\n');
                    assert(r[k] == message[k - c - 2]);
                    assert(message.contains('\n'));
                }
            }
            lemma_find_from_run(r, c + 2, r.len() as int, seq!['\n']);
            assert(r.subrange(c + 2, r.len() as int) =~= message);
        },
    }
}

/// Parsing gives back what a listing line shows: for fields that a line can
/// hold, `parse_spec` of the line built from them returns exactly those
/// fields, and the counts of its status text.
pub proof fn lemma_parse_round_trip(
    current: bool,
    name: Seq<char>,
    sha: Seq<char>,
    upstream: Option<Seq<char>>,
    status: Option<Seq<char>>,
    message: Seq<char>,
)
    requires
        listable(name, sha, upstream, status, message),
    ensures
        ({
            let v = parse_spec(listing_line(current, name, sha, upstream, status, message));
            &&& v is Some
            &&& v->Some_0.current == current
            &&& v->Some_0.name == name
            &&& v->Some_0.sha == sha
            &&& v->Some_0.upstream == upstream
            &&& v->Some_0.message == message
            &&& v->Some_0.status == match status {
                Some(st) => Some(status_of(st)),
                None => None,
            }
        }),
{
    reveal(parse_spec);
    let line = listing_line(current, name, sha, upstream, status, message);
    let r = annotation_text(upstream, status) + message;
    let u = name + seq![' '] + sha + seq![' '] + r;
    assert(listable(seq!['x'], seq!['x'], upstream, status, message));
    lemma_round_trip_rest(upstream, status, message);
    lemma_round_trip_fields(name, sha, r);
    assert(u[0] == name[0]);
    assert(u.last() == message.last());
    assert(line =~= (if current {
        seq!['*', ' ']
    } else {
        seq![' ', ' ']
    }) + u);
    lemma_round_trip_body(current, name, u, line);
}

/// A line fails to parse exactly when, trimmed and with its leading stars
/// taken off, it holds fewer than three whitespace-separated tokens.
pub proof fn lemma_parse_fails_iff_few_tokens(line: Seq<char>)
    ensures
        parse_spec(line) is None <==> token_count(body_of(line), 0) < 3,
{
    reveal(parse_spec);
    let u = body_of(line);
    lemma_trim_ends(strip_leading(trim(line), '*'));
    if u.len() == 0 {
        lemma_space_end_bounds(u, 0);
        assert(token_count(u, 0) == 0);
        return;
    }
    let n = u.len() as int;
    lemma_space_end_run(u, 0, 0);
    lemma_word_end_bounds(u, 0);
    let e1 = word_end(u, 0);
    assert(e1 > 0);
    if e1 == n {
        lemma_space_end_bounds(u, n);
        assert(token_count(u, n) == 0);
        assert(token_count(u, 0) == 1);
        return;
    }
    lemma_space_end_bounds(u, e1);
    let a1 = space_end(u, e1);
    assert(a1 < n) by {
        if a1 == n {
            assert(is_space(u[n - 1]));
        }
    }
    lemma_word_end_bounds(u, a1);
    let e2 = word_end(u, a1);
    assert(e2 > a1);
    if e2 == n {
        lemma_space_end_bounds(u, n);
        assert(token_count(u, n) == 0);
        assert(token_count(u, e1) == 1);
        assert(token_count(u, 0) == 2);
        return;
    }
    lemma_space_end_bounds(u, e2);
    let a2 = space_end(u, e2);
    assert(a2 < n) by {
        if a2 == n {
            assert(is_space(u[n - 1]));
        }
    }
    lemma_word_end_bounds(u, a2);
    let e3 = word_end(u, a2);
    assert(e3 > a2);
    assert(token_count(u, e1) == 1 + token_count(u, e2));
    assert(token_count(u, e2) == 1 + token_count(u, e3));
    assert(token_count(u, 0) >= 3);
}

} // verus!
