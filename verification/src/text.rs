//! Character-level helpers for load-path strings: equality, prefix and
//! suffix tests, and basename extraction.

use vstd::prelude::*;
use vstd::string::StrSliceExecFns;

verus! {

/// The characters of `s` after its last `/`; all of `s` when no `/` occurs.
/// This is how the basename of a load path or file path is read.
pub open spec fn basename_of(s: Seq<char>) -> Seq<char>
    decreases s.len(),
{
    if s.len() == 0 {
        s
    } else if s.contains('/') {
        basename_of(s.drop_first())
    } else {
        s
    }
}

/// The suffix of `s` that starts right after the slash at `k - 1` (or at the
/// start of `s` when `k == 0`) and contains no further slash is the basename.
proof fn lemma_basename_at(s: Seq<char>, k: int)
    requires
        0 <= k <= s.len(),
        forall|j: int| k <= j < s.len() ==> s[j] != '/',
        k > 0 ==> s[k - 1] == '/',
    ensures
        basename_of(s) == s.subrange(k, s.len() as int),
    decreases s.len(),
{
    if k == 0 {
        assert(!s.contains('/'));
        if s.len() != 0 {
            assert(basename_of(s) == s);
        }
        assert(s.subrange(0, s.len() as int) =~= s);
    } else {
        assert(s.contains('/')) by {
            assert(s[k - 1] == '/');
        }
        let t = s.drop_first();
        assert(forall|j: int| k - 1 <= j < t.len() ==> t[j] != '/');
        lemma_basename_at(t, k - 1);
        assert(t.subrange(k - 1, t.len() as int) =~= s.subrange(k, s.len() as int));
    }
}

/// The views of a sequence of strings.
pub open spec fn seq_views(ss: Seq<String>) -> Seq<Seq<char>> {
    ss.map_values(|s: String| s@)
}

/// Each character of a prefix is the character of the whole at the same
/// position.
pub proof fn lemma_prefix_char(p: Seq<char>, s: Seq<char>, i: int)
    requires
        p.is_prefix_of(s),
        0 <= i < p.len(),
    ensures
        s[i] == p[i],
{
    assert(p == s.subrange(0, p.len() as int));
    assert(s.subrange(0, p.len() as int)[i] == s[i]);
}

/// Character-for-character string equality, stated over the views.
pub fn str_eq(a: &str, b: &str) -> (r: bool)
    ensures
        r == (a@ == b@),
{
    let an = a.unicode_len();
    let bn = b.unicode_len();
    if an != bn {
        return false;
    }
    let mut i: usize = 0;
    while i < an
        invariant
            an == a@.len(),
            an == b@.len(),
            0 <= i <= an,
            forall|j: int| 0 <= j < i ==> a@[j] == b@[j],
        decreases an - i,
    {
        if a.get_char(i) != b.get_char(i) {
            return false;
        }
        i = i + 1;
    }
    proof {
        assert(a@ =~= b@);
    }
    true
}

/// Whether `prefix`'s characters open `s`.
pub fn starts_with(s: &str, prefix: &str) -> (r: bool)
    ensures
        r == prefix@.is_prefix_of(s@),
{
    let sn = s.unicode_len();
    let pn = prefix.unicode_len();
    if pn > sn {
        return false;
    }
    let mut i: usize = 0;
    while i < pn
        invariant
            sn == s@.len(),
            pn == prefix@.len(),
            pn <= sn,
            0 <= i <= pn,
            forall|j: int| 0 <= j < i ==> s@[j] == prefix@[j],
        decreases pn - i,
    {
        if s.get_char(i) != prefix.get_char(i) {
            return false;
        }
        i = i + 1;
    }
    proof {
        assert(prefix@ =~= s@.subrange(0, prefix@.len() as int));
    }
    true
}

/// Whether `suffix`'s characters close `s`.
pub fn ends_with(s: &str, suffix: &str) -> (r: bool)
    ensures
        r == suffix@.is_suffix_of(s@),
{
    let sn = s.unicode_len();
    let fln = suffix.unicode_len();
    if fln > sn {
        return false;
    }
    let off: usize = sn - fln;
    let mut i: usize = 0;
    while i < fln
        invariant
            sn == s@.len(),
            fln == suffix@.len(),
            fln <= sn,
            off == sn - fln,
            0 <= i <= fln,
            forall|j: int| 0 <= j < i ==> s@[off + j] == suffix@[j],
        decreases fln - i,
    {
        if s.get_char(off + i) != suffix.get_char(i) {
            return false;
        }
        i = i + 1;
    }
    proof {
        assert(suffix@ =~= s@.subrange(s@.len() - suffix@.len(), s@.len() as int));
    }
    true
}

/// The basename of `s`: everything after the last `/`, or all of `s` when it
/// holds no `/`.
pub fn basename<'a>(s: &'a str) -> (r: &'a str)
    ensures
        r@ == basename_of(s@),
{
    let n = s.unicode_len();
    let mut k: usize = n;
    loop
        invariant
            n == s@.len(),
            0 <= k <= n,
            forall|j: int| k <= j < n ==> s@[j] != '/',
        ensures
            0 <= k <= n,
            forall|j: int| k <= j < n ==> s@[j] != '/',
            k > 0 ==> s@[k as int - 1] == '/',
        decreases k,
    {
        if k == 0 {
            break;
        }
        if s.get_char(k - 1) == '/' {
            break;
        }
        k = k - 1;
    }
    proof {
        lemma_basename_at(s@, k as int);
    }
    s.substring_char(k, n)
}

} // verus!
