//! Text primitives: case folding, substring and prefix tests, and
//! splitting a token at `/` separators.
//!
//! Matching is substring/prefix/exact only and always case-insensitive;
//! no pattern language is involved. Case folding is delegated to the
//! standard library and its result is only ever named, never restated.

use vstd::prelude::*;
use vstd::string::*;

verus! {

/// The Unicode lowercase folding of a character sequence, as computed by
/// `str::to_lowercase`. The folding depends on the characters alone, so the
/// result may be given a name; nothing else is assumed about it beyond what
/// `lowercase` states.
pub uninterp spec fn lower_of(s: Seq<char>) -> Seq<char>;

/// Relies on `str::to_lowercase`: the returned string is the lowercase
/// equivalent of the input, a function of the input characters alone, and
/// it is empty exactly when the input is empty (folding never deletes a
/// character, and produces none from nothing).
#[verifier::external_body]
pub fn lowercase(s: &str) -> (r: String)
    ensures
        r@ == lower_of(s@),
        r@.len() == 0 <==> s@.len() == 0,
{
    s.to_lowercase()
}

/// `p` occurs in `t` starting at position `i`.
pub open spec fn prefix_matches_at(t: Seq<char>, p: Seq<char>, i: int) -> bool {
    &&& 0 <= i
    &&& i + p.len() <= t.len()
    &&& forall|j: int| 0 <= j < p.len() ==> t[i + j] == p[j]
}

/// `p` occurs somewhere in `t` as a contiguous subsequence.
pub open spec fn seq_contains_sub(t: Seq<char>, p: Seq<char>) -> bool {
    exists|i: int| prefix_matches_at(t, p, i)
}

/// Character-by-character equality of two string slices.
pub fn str_eq_chars(a: &str, b: &str) -> (r: bool)
    ensures
        r == (a@ == b@),
{
    let n = a.unicode_len();
    if n != b.unicode_len() {
        return false;
    }
    let mut i: usize = 0;
    while i < n
        invariant
            i <= n,
            n == a@.len(),
            n == b@.len(),
            forall|k: int| 0 <= k < i ==> a@[k] == b@[k],
        decreases n - i,
    {
        if a.get_char(i) != b.get_char(i) {
            return false;
        }
        i = i + 1;
    }
    proof {
        assert(a@ =~= b@);
    }
    true
}

/// Whether `t` begins with `p`.
pub fn str_starts_with_sub(t: &str, p: &str) -> (r: bool)
    ensures
        r == prefix_matches_at(t@, p@, 0),
{
    let tn = t.unicode_len();
    let pn = p.unicode_len();
    if pn > tn {
        return false;
    }
    let mut j: usize = 0;
    while j < pn
        invariant
            j <= pn,
            pn <= tn,
            tn == t@.len(),
            pn == p@.len(),
            forall|k: int| 0 <= k < j ==> t@[k] == p@[k],
        decreases pn - j,
    {
        if t.get_char(j) != p.get_char(j) {
            return false;
        }
        j = j + 1;
    }
    true
}

/// Whether `p` occurs in `t` as a contiguous subsequence.
pub fn str_contains_sub(t: &str, p: &str) -> (r: bool)
    ensures
        r == seq_contains_sub(t@, p@),
{
    let tn = t.unicode_len();
    let pn = p.unicode_len();
    if pn > tn {
        return false;
    }
    let mut i: usize = 0;
    while i <= tn - pn
        invariant
            pn <= tn,
            tn == t@.len(),
            pn == p@.len(),
            i <= tn - pn + 1,
            forall|ii: int| 0 <= ii < i ==> !prefix_matches_at(t@, p@, ii),
        decreases tn - pn - i + 1,
    {
        let mut j: usize = 0;
        let mut hit: bool = true;
        while j < pn
            invariant_except_break
                j <= pn,
                i + pn <= tn,
                tn == t@.len(),
                pn == p@.len(),
                hit,
                forall|k: int| 0 <= k < j ==> t@[i + k] == p@[k],
            ensures
                hit ==> prefix_matches_at(t@, p@, i as int),
                !hit ==> !prefix_matches_at(t@, p@, i as int),
            decreases pn - j,
        {
            if t.get_char(i + j) != p.get_char(j) {
                hit = false;
                break;
            }
            j = j + 1;
        }
        if hit {
            return true;
        }
        i = i + 1;
    }
    proof {
        assert forall|ii: int| !prefix_matches_at(t@, p@, ii) by {
            if 0 <= ii && ii + p@.len() <= t@.len() {
                assert(ii < i);
            }
        }
    }
    false
}

/// Index of the first `/` in `s` at or after position `i`, or `s.len()`
/// when there is none (or when `i` is out of range).
pub open spec fn next_slash(s: Seq<char>, i: int) -> int
    decreases s.len() - i,
{
    if i < 0 || i >= s.len() {
        s.len() as int
    } else if s[i] == '/' {
        i
    } else {
        next_slash(s, i + 1)
    }
}

/// Basic bounds and characterisation of `next_slash`.
pub proof fn lemma_next_slash_bounds(s: Seq<char>, i: int)
    requires
        0 <= i <= s.len(),
    ensures
        i <= next_slash(s, i) <= s.len(),
        next_slash(s, i) < s.len() ==> s[next_slash(s, i)] == '/',
        forall|k: int| i <= k < next_slash(s, i) ==> s[k] != '/',
    decreases s.len() - i,
{
    if i < s.len() && s[i] != '/' {
        lemma_next_slash_bounds(s, i + 1);
    }
}

/// `next_slash` is pinned by a scan that found no `/` before `j`.
pub proof fn lemma_next_slash_at(s: Seq<char>, i: int, j: int)
    requires
        0 <= i <= j <= s.len(),
        forall|k: int| i <= k < j ==> s[k] != '/',
        j == s.len() || s[j] == '/',
    ensures
        next_slash(s, i) == j,
    decreases j - i,
{
    if i < j {
        lemma_next_slash_at(s, i + 1, j);
    }
}

/// The segments of `s` from position `i` on, split at `/`, keeping empty
/// segments, exactly as `str::split('/')` produces them.
pub open spec fn split_from(s: Seq<char>, i: int) -> Seq<Seq<char>>
    decreases s.len() - i,
{
    if i < 0 || i > s.len() {
        seq![]
    } else {
        let j = next_slash(s, i);
        if j < i || j > s.len() {
            seq![]
        } else if j == s.len() {
            seq![s.subrange(i, j)]
        } else {
            seq![s.subrange(i, j)] + split_from(s, j + 1)
        }
    }
}

/// The segments of `s` split at `/`, keeping empty segments.
pub open spec fn split_all(s: Seq<char>) -> Seq<Seq<char>> {
    split_from(s, 0)
}

/// Splitting always yields at least one segment.
pub proof fn lemma_split_from_len(s: Seq<char>, i: int)
    requires
        0 <= i <= s.len(),
    ensures
        split_from(s, i).len() >= 1,
    decreases s.len() - i,
{
    lemma_next_slash_bounds(s, i);
    let j = next_slash(s, i);
    if j < s.len() {
        lemma_split_from_len(s, j + 1);
    }
}

/// Splits a token at `/` separators, keeping empty segments, as
/// `str::split('/')` does.
pub fn split_slash(s: &str) -> (r: Vec<String>)
    ensures
        r.deep_view() == split_all(s@),
        r.len() >= 1,
{
    let n = s.unicode_len();
    let mut out: Vec<String> = Vec::new();
    let mut i: usize = 0;
    loop
        invariant_except_break
            i <= n,
            n == s@.len(),
            out.deep_view() + split_from(s@, i as int) =~= split_from(s@, 0),
        ensures
            out.deep_view() == split_all(s@),
            out.len() >= 1,
        decreases n - i,
    {
        let mut j: usize = i;
        while j < n && s.get_char(j) != '/'
            invariant
                i <= j <= n,
                n == s@.len(),
                forall|k: int| i <= k < j ==> s@[k] != '/',
            decreases n - j,
        {
            j = j + 1;
        }
        proof {
            lemma_next_slash_at(s@, i as int, j as int);
        }
        let seg = String::from_str(s.substring_char(i, j));
        let ghost old_out = out.deep_view();
        out.push(seg);
        proof {
            assert(out.deep_view() =~= old_out.push(s@.subrange(i as int, j as int)));
            lemma_split_from_len(s@, i as int);
        }
        if j == n {
            proof {
                assert(split_from(s@, i as int) =~= seq![s@.subrange(i as int, j as int)]);
                assert(out.deep_view() + Seq::<Seq<char>>::empty() =~= out.deep_view());
                assert(out.deep_view() =~= split_from(s@, 0));
            }
            break;
        }
        proof {
            assert(split_from(s@, i as int) =~= seq![s@.subrange(i as int, j as int)]
                + split_from(s@, j + 1));
            assert(out.deep_view() + split_from(s@, j + 1) =~= split_from(s@, 0));
        }
        i = j + 1;
    }
    out
}

} // verus!
