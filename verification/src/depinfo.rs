//! Parsing of the dependency lister's textual report.
//!
//! The listing tool prints a report whose interesting part follows a fixed
//! header marker line; every line after it names one dependency, the
//! reference string being the line's last whitespace-delimited token.  A
//! token equal to the tool's own flag is a structural format mismatch.

use vstd::prelude::*;
use vstd::string::StrSliceExecFns;
use crate::text::{ends_with, seq_views, str_eq};

verus! {

/// The white-space characters recognized when trimming: the Unicode code
/// points with the White_Space property, as `str::trim` removes them.
pub open spec fn is_white(c: char) -> bool {
    ||| c == '\u{9}' || c == '\u{a}' || c == '\u{b}' || c == '\u{c}' || c == '\u{d}'
    ||| c == ' ' || c == '\u{85}' || c == '\u{a0}' || c == '\u{1680}'
    ||| c == '\u{2000}' || c == '\u{2001}' || c == '\u{2002}' || c == '\u{2003}'
    ||| c == '\u{2004}' || c == '\u{2005}' || c == '\u{2006}' || c == '\u{2007}'
    ||| c == '\u{2008}' || c == '\u{2009}' || c == '\u{200a}' || c == '\u{2028}'
    ||| c == '\u{2029}' || c == '\u{202f}' || c == '\u{205f}' || c == '\u{3000}'
}

/// The characters that delimit tokens within a report line: ASCII
/// whitespace, as `str::split_ascii_whitespace` splits on it.
pub open spec fn is_token_space(c: char) -> bool {
    c == ' ' || c == '\t' || c == '\n' || c == '\r' || c == '\u{c}'
}

/// `s` without leading whitespace.
pub open spec fn trim_front(s: Seq<char>) -> Seq<char>
    decreases s.len(),
{
    if s.len() > 0 && is_white(s.first()) {
        trim_front(s.drop_first())
    } else {
        s
    }
}

/// `s` without trailing whitespace.
pub open spec fn trim_back(s: Seq<char>) -> Seq<char>
    decreases s.len(),
{
    if s.len() > 0 && is_white(s.last()) {
        trim_back(s.drop_last())
    } else {
        s
    }
}

/// `s` without leading and trailing whitespace.
pub open spec fn trim_spec(s: Seq<char>) -> Seq<char> {
    trim_back(trim_front(s))
}

proof fn lemma_trim_front_at(s: Seq<char>, lo: int)
    requires
        0 <= lo <= s.len(),
        forall|j: int| 0 <= j < lo ==> is_white(#[trigger] s[j]),
        lo < s.len() ==> !is_white(s[lo]),
    ensures
        trim_front(s) == s.subrange(lo, s.len() as int),
    decreases s.len(),
{
    if lo == 0 {
        if s.len() > 0 && is_white(s.first()) {
            assert(false);
        }
        assert(s.subrange(0, s.len() as int) =~= s);
    } else {
        assert(is_white(s[0]));
        lemma_trim_front_at(s.drop_first(), lo - 1);
        assert(s.drop_first().subrange(lo - 1, s.drop_first().len() as int) =~= s.subrange(
            lo,
            s.len() as int,
        ));
    }
}

proof fn lemma_trim_back_at(s: Seq<char>, hi: int)
    requires
        0 <= hi <= s.len(),
        forall|j: int| hi <= j < s.len() ==> is_white(#[trigger] s[j]),
        hi > 0 ==> !is_white(s[hi - 1]),
    ensures
        trim_back(s) == s.take(hi),
    decreases s.len(),
{
    if hi == s.len() {
        if s.len() > 0 && is_white(s.last()) {
            assert(false);
        }
        assert(s.take(s.len() as int) =~= s);
    } else {
        assert(is_white(s.last()));
        lemma_trim_back_at(s.drop_last(), hi);
        assert(s.drop_last().take(hi) =~= s.take(hi));
    }
}

/// Whether `c` is recognized trimming white space.
fn is_white_char(c: char) -> (b: bool)
    ensures
        b == is_white(c),
{
    c == '\u{9}' || c == '\u{a}' || c == '\u{b}' || c == '\u{c}' || c == '\u{d}'
        || c == ' ' || c == '\u{85}' || c == '\u{a0}' || c == '\u{1680}'
        || c == '\u{2000}' || c == '\u{2001}' || c == '\u{2002}' || c == '\u{2003}'
        || c == '\u{2004}' || c == '\u{2005}' || c == '\u{2006}' || c == '\u{2007}'
        || c == '\u{2008}' || c == '\u{2009}' || c == '\u{200a}' || c == '\u{2028}'
        || c == '\u{2029}' || c == '\u{202f}' || c == '\u{205f}' || c == '\u{3000}'
}

/// Whether `c` delimits tokens within a line.
fn is_token_space_char(c: char) -> (b: bool)
    ensures
        b == is_token_space(c),
{
    c == ' ' || c == '\t' || c == '\n' || c == '\r' || c == '\u{c}'
}

/// `s` with leading and trailing whitespace removed.
pub fn str_trim<'a>(s: &'a str) -> (r: &'a str)
    ensures
        r@ == trim_spec(s@),
{
    let n = s.unicode_len();
    let mut lo: usize = 0;
    loop
        invariant
            n == s@.len(),
            0 <= lo <= n,
            forall|j: int| 0 <= j < lo ==> is_white(#[trigger] s@[j]),
        ensures
            0 <= lo <= n,
            forall|j: int| 0 <= j < lo ==> is_white(#[trigger] s@[j]),
            lo < n ==> !is_white(s@[lo as int]),
        decreases n - lo,
    {
        if lo == n {
            break;
        }
        if !is_white_char(s.get_char(lo)) {
            break;
        }
        lo = lo + 1;
    }
    let mut hi: usize = n;
    loop
        invariant
            n == s@.len(),
            lo <= hi <= n,
            forall|j: int| hi <= j < n ==> is_white(#[trigger] s@[j]),
        ensures
            lo <= hi <= n,
            forall|j: int| hi <= j < n ==> is_white(#[trigger] s@[j]),
            hi > lo ==> !is_white(s@[hi - 1]),
        decreases hi,
    {
        if hi == lo {
            break;
        }
        if !is_white_char(s.get_char(hi - 1)) {
            break;
        }
        hi = hi - 1;
    }
    proof {
        lemma_trim_front_at(s@, lo as int);
        let t = s@.subrange(lo as int, n as int);
        lemma_trim_back_at(t, hi - lo);
        assert(t.take(hi - lo) =~= s@.subrange(lo as int, hi as int));
    }
    s.substring_char(lo, hi)
}

/// The marker `m` occurs in `s` at position `i`.
pub open spec fn matches_at(s: Seq<char>, m: Seq<char>, i: int) -> bool {
    0 <= i && i + m.len() <= s.len() && s.subrange(i, i + m.len()) == m
}

/// The first position at which `m` occurs in `s`, if any.
pub open spec fn find_first(s: Seq<char>, m: Seq<char>) -> Option<int>
    decreases s.len(),
{
    if m.len() > s.len() {
        None
    } else if s.subrange(0, m.len() as int) == m {
        Some(0)
    } else if s.len() == 0 {
        None
    } else {
        match find_first(s.drop_first(), m) {
            None => None,
            Some(k) => Some(k + 1),
        }
    }
}

proof fn lemma_find_first(s: Seq<char>, m: Seq<char>)
    ensures
        match find_first(s, m) {
            Some(i) => matches_at(s, m, i) && forall|j: int| 0 <= j < i ==> !matches_at(s, m, j),
            None => forall|j: int| !matches_at(s, m, j),
        },
    decreases s.len(),
{
    if m.len() > s.len() {
        assert(forall|j: int| !matches_at(s, m, j));
    } else if s.subrange(0, m.len() as int) == m {
    } else if s.len() == 0 {
        assert forall|j: int| true implies !matches_at(s, m, j) by {
            if matches_at(s, m, j) {
                assert(j == 0);
            }
        };
    } else {
        lemma_find_first(s.drop_first(), m);
        assert forall|k: int| 0 <= k implies
            matches_at(s.drop_first(), m, k) == matches_at(s, m, k + 1) by {
            if k + 1 + m.len() <= s.len() {
                assert(s.drop_first().subrange(k, k + m.len() as int) =~= s.subrange(
                    k + 1,
                    k + 1 + m.len() as int,
                ));
            }
        };
        match find_first(s.drop_first(), m) {
            None => {
                assert forall|j: int| true implies !matches_at(s, m, j) by {
                    if matches_at(s, m, j) {
                        if j == 0 {
                            assert(s.subrange(0, m.len() as int) == m);
                        } else {
                            assert(matches_at(s.drop_first(), m, j - 1));
                        }
                    }
                };
            },
            Some(k) => {
                assert(matches_at(s, m, k + 1));
                assert forall|j: int| 0 <= j < k + 1 implies !matches_at(s, m, j) by {
                    if matches_at(s, m, j) && j > 0 {
                        assert(matches_at(s.drop_first(), m, j - 1));
                    }
                };
            },
        }
    }
}

/// Does `m` occur in `s` starting at `i`?
fn matches_here(s: &str, m: &str, i: usize) -> (b: bool)
    requires
        i + m@.len() <= s@.len(),
        s@.len() <= usize::MAX,
    ensures
        b == matches_at(s@, m@, i as int),
{
    let ml = m.unicode_len();
    let mut j: usize = 0;
    while j < ml
        invariant
            ml == m@.len(),
            i + ml <= s@.len(),
            s@.len() <= usize::MAX,
            0 <= j <= ml,
            forall|t: int| 0 <= t < j ==> s@[i + t] == m@[t],
        decreases ml - j,
    {
        if s.get_char(i + j) != m.get_char(j) {
            proof {
                if matches_at(s@, m@, i as int) {
                    assert(s@.subrange(i as int, i + m@.len())[j as int] == m@[j as int]);
                }
            }
            return false;
        }
        j = j + 1;
    }
    proof {
        assert(s@.subrange(i as int, i + m@.len()) =~= m@);
    }
    true
}

/// The first occurrence of `m` in `s`, scanning left to right.
fn find_sub(s: &str, m: &str) -> (r: Option<usize>)
    ensures
        match r {
            Some(i) => find_first(s@, m@) == Some(i as int),
            None => find_first(s@, m@) is None,
        },
{
    let sl = s.unicode_len();
    let ml = m.unicode_len();
    if ml > sl {
        proof {
            lemma_find_first(s@, m@);
        }
        return None;
    }
    let bound: usize = sl - ml;
    let mut i: usize = 0;
    loop
        invariant
            sl == s@.len(),
            ml == m@.len(),
            ml <= sl,
            bound == sl - ml,
            0 <= i <= bound,
            forall|j: int| 0 <= j < i ==> !matches_at(s@, m@, j),
        ensures
            forall|j: int| 0 <= j <= bound ==> !matches_at(s@, m@, j),
        decreases bound - i,
    {
        if matches_here(s, m, i) {
            proof {
                lemma_find_first(s@, m@);
                match find_first(s@, m@) {
                    Some(k) => {
                        if k < i {
                            assert(!matches_at(s@, m@, k));
                        }
                        if k > i {
                            assert(!matches_at(s@, m@, i as int));
                        }
                    },
                    None => {
                        assert(!matches_at(s@, m@, i as int));
                    },
                }
            }
            return Some(i);
        }
        if i == bound {
            break;
        }
        i = i + 1;
    }
    proof {
        lemma_find_first(s@, m@);
        assert forall|j: int| true implies !matches_at(s@, m@, j) by {
            if matches_at(s@, m@, j) {
                assert(0 <= j <= bound);
            }
        };
        if find_first(s@, m@) is Some {
            let k = find_first(s@, m@).unwrap();
            assert(matches_at(s@, m@, k));
        }
    }
    None
}

/// The index of the first newline in `s`, or `s`'s length if none.
pub open spec fn first_newline(s: Seq<char>) -> nat
    decreases s.len(),
{
    if s.len() == 0 {
        0
    } else if s.first() == '\n' {
        0
    } else {
        1 + first_newline(s.drop_first())
    }
}

proof fn lemma_first_newline(s: Seq<char>)
    ensures
        first_newline(s) <= s.len(),
        first_newline(s) < s.len() ==> s[first_newline(s) as int] == '\n',
        forall|j: int| 0 <= j < first_newline(s) ==> s[j] != '\n',
    decreases s.len(),
{
    if s.len() > 0 && s.first() != '\n' {
        lemma_first_newline(s.drop_first());
        assert forall|j: int| 0 <= j < first_newline(s) implies s[j] != '\n' by {
            if j > 0 {
                assert(s.drop_first()[j - 1] != '\n');
            }
        };
    }
}

/// `s` split at newlines; no newline yields a single line.
pub open spec fn split_lines(s: Seq<char>) -> Seq<Seq<char>>
    decreases s.len(),
{
    let k = first_newline(s) as int;
    if k >= s.len() {
        seq![s]
    } else {
        seq![s.take(k)] + split_lines(s.skip(k + 1))
    }
}

/// `t` without trailing token-delimiting whitespace.
pub open spec fn trim_back_token(t: Seq<char>) -> Seq<char>
    decreases t.len(),
{
    if t.len() > 0 && is_token_space(t.last()) {
        trim_back_token(t.drop_last())
    } else {
        t
    }
}

proof fn lemma_trim_back_token_at(s: Seq<char>, hi: int)
    requires
        0 <= hi <= s.len(),
        forall|j: int| hi <= j < s.len() ==> is_token_space(#[trigger] s[j]),
        hi > 0 ==> !is_token_space(s[hi - 1]),
    ensures
        trim_back_token(s) == s.take(hi),
    decreases s.len(),
{
    if hi == s.len() {
        if s.len() > 0 && is_token_space(s.last()) {
            assert(false);
        }
        assert(s.take(s.len() as int) =~= s);
    } else {
        assert(is_token_space(s.last()));
        lemma_trim_back_token_at(s.drop_last(), hi);
        assert(s.drop_last().take(hi) =~= s.take(hi));
    }
}

/// The maximal run of non-whitespace characters closing `t`; empty when
/// `t` ends in whitespace or is empty.
pub open spec fn tail_token(t: Seq<char>) -> Seq<char>
    decreases t.len(),
{
    if t.len() == 0 || is_token_space(t.last()) {
        Seq::empty()
    } else {
        tail_token(t.drop_last()).push(t.last())
    }
}

proof fn lemma_tail_token_at(t: Seq<char>, st: int)
    requires
        0 <= st < t.len(),
        forall|j: int| st <= j < t.len() ==> !is_token_space(#[trigger] t[j]),
        st > 0 ==> is_token_space(t[st - 1]),
    ensures
        tail_token(t) == t.skip(st),
    decreases t.len(),
{
    if st == t.len() - 1 {
        assert(tail_token(t.drop_last()) =~= Seq::<char>::empty());
        assert(tail_token(t) =~= t.skip(st));
    } else {
        lemma_tail_token_at(t.drop_last(), st);
        assert(t.drop_last().skip(st).push(t.last()) =~= t.skip(st));
    }
}

/// The last whitespace-delimited token of a line, if the line has one.
pub open spec fn last_token(l: Seq<char>) -> Option<Seq<char>> {
    let t = trim_back_token(l);
    if t.len() == 0 {
        None
    } else {
        Some(tail_token(t))
    }
}

/// The last tokens of the lines that have one, in line order: the
/// dependency reference strings of the report.
pub open spec fn report_tokens(lines: Seq<Seq<char>>) -> Seq<Seq<char>>
    decreases lines.len(),
{
    if lines.len() == 0 {
        Seq::empty()
    } else {
        let rest = report_tokens(lines.drop_last());
        match last_token(lines.last()) {
            Some(t) => rest.push(t),
            None => rest,
        }
    }
}

proof fn lemma_report_tokens_concat(a: Seq<Seq<char>>, b: Seq<Seq<char>>)
    ensures
        report_tokens(a + b) == report_tokens(a) + report_tokens(b),
    decreases b.len(),
{
    if b.len() == 0 {
        assert(a + b =~= a);
        assert(report_tokens(a) + report_tokens(b) =~= report_tokens(a));
    } else {
        lemma_report_tokens_concat(a, b.drop_last());
        assert((a + b).drop_last() =~= a + b.drop_last());
        assert((a + b).last() == b.last());
        match last_token(b.last()) {
            Some(t) => {
                assert(report_tokens(a) + report_tokens(b) =~= (report_tokens(a) + report_tokens(
                    b.drop_last(),
                )).push(t));
            },
            None => {},
        }
    }
}

/// The header marker line that precedes the dependency list.
pub open spec fn header_marker() -> Seq<char> {
    "attributes     load path"@
}

/// The listing tool's own flag token; seeing it as a reference means the
/// report's shape was not understood.
pub open spec fn flag_sentinel() -> Seq<char> {
    "-dependents:"@
}

/// Why a report could not be parsed.
#[derive(Debug, Clone, Copy, PartialEq, Eq, Structural)]
pub enum ParseError {
    /// The header marker line is missing.
    MissingHeader,
    /// A reference string equals the listing tool's own flag token.
    FlagSentinel,
}

/// What parsing a report yields: the text is trimmed, the part after the
/// first header marker (up to a second marker, if any) is split into
/// lines, and each line's last whitespace-delimited token is one
/// dependency reference.
pub open spec fn spec_parse_dependents(out: Seq<char>) -> Result<Seq<Seq<char>>, ParseError> {
    let t = trim_spec(out);
    match find_first(t, header_marker()) {
        None => Err(ParseError::MissingHeader),
        Some(i) => {
            let rest = t.skip(i + header_marker().len());
            let seg = match find_first(rest, header_marker()) {
                None => rest,
                Some(k) => rest.take(k),
            };
            let toks = report_tokens(split_lines(trim_spec(seg)));
            if toks.contains(flag_sentinel()) {
                Err(ParseError::FlagSentinel)
            } else {
                Ok(toks)
            }
        },
    }
}

/// Whether the lister's diagnostic stream says the binary was not found
/// for the requested architecture.
pub fn dependents_not_found(stderr: &str) -> (r: bool)
    ensures
        r == "file not found"@.is_suffix_of(trim_spec(stderr@)),
{
    let t = str_trim(stderr);
    ends_with(t, "file not found")
}

/// The last token of `line`, exactly as [`last_token`] describes it.
fn line_last_token(line: &str) -> (r: Option<String>)
    ensures
        match r {
            Some(t) => last_token(line@) matches Some(l) && l == t@,
            None => last_token(line@) is None,
        },
{
    let n = line.unicode_len();
    let mut hi: usize = n;
    loop
        invariant
            n == line@.len(),
            0 <= hi <= n,
            forall|j: int| hi <= j < n ==> is_token_space(#[trigger] line@[j]),
        ensures
            0 <= hi <= n,
            forall|j: int| hi <= j < n ==> is_token_space(#[trigger] line@[j]),
            hi > 0 ==> !is_token_space(line@[hi - 1]),
        decreases hi,
    {
        if hi == 0 {
            break;
        }
        if !is_token_space_char(line.get_char(hi - 1)) {
            break;
        }
        hi = hi - 1;
    }
    proof {
        lemma_trim_back_token_at(line@, hi as int);
    }
    if hi == 0 {
        return None;
    }
    let mut st: usize = hi;
    loop
        invariant
            n == line@.len(),
            0 < hi <= n,
            !is_token_space(line@[hi - 1]),
            0 <= st <= hi,
            forall|j: int| st <= j < hi ==> !is_token_space(#[trigger] line@[j]),
        ensures
            0 <= st < hi,
            forall|j: int| st <= j < hi ==> !is_token_space(#[trigger] line@[j]),
            st > 0 ==> is_token_space(line@[st - 1]),
        decreases st,
    {
        if st == 0 {
            break;
        }
        if is_token_space_char(line.get_char(st - 1)) {
            break;
        }
        st = st - 1;
    }
    proof {
        let t = line@.take(hi as int);
        assert(forall|j: int| st <= j < t.len() ==> !is_token_space(#[trigger] t[j]));
        lemma_tail_token_at(t, st as int);
        assert(t.skip(st as int) =~= line@.subrange(st as int, hi as int));
    }
    Some(line.substring_char(st, hi).to_owned())
}

/// Parse the dependency report: find the header marker, take the part up
/// to the next marker (or the end), and read each line's last token as one
/// reference string.  The result is exactly [`spec_parse_dependents`] of
/// the report's characters.
pub fn parse_dependents(out: &str) -> (r: Result<Vec<String>, ParseError>)
    ensures
        match r {
            Ok(v) => spec_parse_dependents(out@) matches Ok(toks) && seq_views(v@) == toks,
            Err(e) => spec_parse_dependents(out@) matches Err(e2) && e == e2,
        },
{
    let t = str_trim(out);
    let marker = "attributes     load path";
    let i = match find_sub(t, marker) {
        None => {
            return Err(ParseError::MissingHeader);
        },
        Some(i) => i,
    };
    let tl = t.unicode_len();
    let ml = marker.unicode_len();
    proof {
        lemma_find_first(t@, marker@);
    }
    let rest = t.substring_char(i + ml, tl);
    proof {
        assert(rest@ =~= t@.skip(i + marker@.len()));
    }
    let seg = match find_sub(rest, marker) {
        None => rest,
        Some(k) => {
            proof {
                lemma_find_first(rest@, marker@);
            }
            let s2 = rest.substring_char(0, k);
            proof {
                assert(s2@ =~= rest@.take(k as int));
            }
            s2
        },
    };
    let body = str_trim(seg);
    let ghost bs = body@;
    let ghost all_tokens = report_tokens(split_lines(bs));

    let bn = body.unicode_len();
    let mut toks: Vec<String> = Vec::new();
    let mut pos: usize = 0;
    let mut finished = false;
    let mut failed = false;
    proof {
        assert(bs.skip(0) =~= bs);
        assert(seq_views(toks@) =~= Seq::<Seq<char>>::empty());
        assert(seq_views(toks@) + report_tokens(split_lines(bs)) =~= report_tokens(
            split_lines(bs),
        ));
    }
    loop
        invariant
            bn == bs.len(),
            bs == body@,
            all_tokens == report_tokens(split_lines(bs)),
            0 <= pos <= bn,
            !finished ==> !failed && all_tokens == seq_views(toks@) + report_tokens(
                split_lines(bs.skip(pos as int)),
            ),
            finished && !failed ==> all_tokens == seq_views(toks@),
            failed ==> all_tokens.contains(flag_sentinel()),
            !seq_views(toks@).contains(flag_sentinel()),
        ensures
            !failed ==> all_tokens == seq_views(toks@),
            failed ==> all_tokens.contains(flag_sentinel()),
            !seq_views(toks@).contains(flag_sentinel()),
        decreases (if finished { 0int } else { 1int }), bn - pos,
    {
        if finished {
            break;
        }
        let ghost suffix = bs.skip(pos as int);
        // find the end of the current line
        let mut nl: usize = pos;
        loop
            invariant
                bn == bs.len(),
                bs == body@,
                pos <= nl <= bn,
                forall|j: int| pos <= j < nl ==> bs[j] != '\n',
            ensures
                pos <= nl <= bn,
                forall|j: int| pos <= j < nl ==> bs[j] != '\n',
                nl < bn ==> bs[nl as int] == '\n',
            decreases bn - nl,
        {
            if nl == bn {
                break;
            }
            if body.get_char(nl) == '\n' {
                break;
            }
            nl = nl + 1;
        }
        proof {
            lemma_first_newline(suffix);
            assert forall|j: int| 0 <= j < nl - pos implies suffix[j] != '\n' by {
                assert(bs[pos + j] != '\n');
            };
            if nl < bn {
                assert(suffix[nl - pos] == '\n');
            }
            if first_newline(suffix) < nl - pos {
                assert(suffix[first_newline(suffix) as int] != '\n');
            }
            if first_newline(suffix) > nl - pos {
                if (nl as int) < bn {
                    assert(suffix[nl - pos] != '\n');
                }
            }
            assert(first_newline(suffix) == nl - pos);
            assert(report_tokens(Seq::<Seq<char>>::empty()) =~= Seq::<Seq<char>>::empty());
        }
        let line = body.substring_char(pos, nl);
        proof {
            assert(line@ =~= suffix.take(nl - pos));
        }
        let tok = line_last_token(line);
        let ghost k = nl - pos;
        if nl == bn {
            // last line: the suffix is this one line, nothing follows
            proof {
                assert(suffix.take(k as int) =~= suffix);
                assert(split_lines(suffix) =~= seq![suffix]);
                assert(seq![suffix].drop_last() =~= Seq::<Seq<char>>::empty());
            }
            finished = true;
            match tok {
                None => {
                    proof {
                        assert(report_tokens(split_lines(suffix)) =~= Seq::<Seq<char>>::empty());
                        assert(seq_views(toks@) + report_tokens(split_lines(suffix)) =~= seq_views(
                            toks@,
                        ));
                    }
                },
                Some(tk) => {
                    proof {
                        assert(report_tokens(split_lines(suffix)) =~= seq![tk@]);
                    }
                    if str_eq(tk.as_str(), "-dependents:") {
                        failed = true;
                        proof {
                            assert(all_tokens[seq_views(toks@).len() as int] == tk@);
                            assert(all_tokens.contains(flag_sentinel()));
                        }
                    } else {
                        let ghost tv_old = seq_views(toks@);
                        toks.push(tk);
                        proof {
                            assert(seq_views(toks@) =~= tv_old.push(
                                all_tokens[tv_old.len() as int],
                            ));
                            assert(seq_views(toks@) =~= all_tokens);
                            assert(!seq_views(toks@).contains(flag_sentinel())) by {
                                if seq_views(toks@).contains(flag_sentinel()) {
                                    let x = choose|x: int|
                                        0 <= x < seq_views(toks@).len() && seq_views(toks@)[x]
                                            == flag_sentinel();
                                    if x < tv_old.len() {
                                        assert(tv_old[x] == flag_sentinel());
                                    }
                                }
                            }
                        }
                    }
                },
            }
        } else {
            // a newline: one line consumed, the rest continues
            let ghost suffix2 = bs.skip(nl + 1);
            proof {
                assert(split_lines(suffix) == seq![suffix.take(k as int)] + split_lines(
                    suffix.skip(k + 1),
                ));
                assert(suffix.skip(k + 1) =~= suffix2);
                lemma_report_tokens_concat(seq![suffix.take(k as int)], split_lines(suffix2));
                assert(seq![suffix.take(k as int)].drop_last() =~= Seq::<Seq<char>>::empty());
            }
            match tok {
                None => {
                    proof {
                        assert(report_tokens(seq![suffix.take(k as int)]) =~= Seq::<
                            Seq<char>,
                        >::empty());
                        assert(seq_views(toks@) + report_tokens(split_lines(suffix)) =~= seq_views(
                            toks@,
                        ) + report_tokens(split_lines(suffix2)));
                    }
                },
                Some(tk) => {
                    proof {
                        assert(report_tokens(seq![suffix.take(k as int)]) =~= seq![tk@]);
                    }
                    if str_eq(tk.as_str(), "-dependents:") {
                        failed = true;
                        finished = true;
                        proof {
                            let base = seq_views(toks@);
                            assert(all_tokens == base + (seq![tk@] + report_tokens(
                                split_lines(suffix2),
                            )));
                            assert(all_tokens[base.len() as int] == tk@);
                            assert(all_tokens.contains(flag_sentinel()));
                        }
                    } else {
                        let ghost tv_old = seq_views(toks@);
                        toks.push(tk);
                        proof {
                            assert(seq_views(toks@) =~= tv_old.push(tk@));
                            assert(tv_old + (seq![tk@] + report_tokens(split_lines(suffix2)))
                                =~= seq_views(toks@) + report_tokens(split_lines(suffix2)));
                            assert(!seq_views(toks@).contains(flag_sentinel())) by {
                                if seq_views(toks@).contains(flag_sentinel()) {
                                    let x = choose|x: int|
                                        0 <= x < seq_views(toks@).len() && seq_views(toks@)[x]
                                            == flag_sentinel();
                                    if x < tv_old.len() {
                                        assert(tv_old[x] == flag_sentinel());
                                    }
                                }
                            }
                        }
                    }
                },
            }
            if !failed {
                pos = nl + 1;
            }
        }
    }
    if failed {
        proof {
            assert(spec_parse_dependents(out@) == Err::<Seq<Seq<char>>, ParseError>(
                ParseError::FlagSentinel,
            ));
        }
        return Err(ParseError::FlagSentinel);
    }
    proof {
        assert(spec_parse_dependents(out@) == Ok::<Seq<Seq<char>>, ParseError>(all_tokens));
    }
    Ok(toks)
}

} // verus!
