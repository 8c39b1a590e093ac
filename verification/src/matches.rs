//! The candidate result type, its mathematical model, and the total
//! order by which finished result lists are sorted.
//!
//! The order is: quality tier first (a better tier sorts earlier), then
//! depth — closer ancestors first for the upward tiers, shallower
//! children first for the downward tiers — then the path itself,
//! lexicographically, which makes the order total and the sorted,
//! deduplicated output canonical.

use vstd::prelude::*;
use vstd::relations::total_ordering;
use crate::quality::{MatchQuality, is_up_tier, rank, rank_of};
use crate::text::str_eq_chars;

verus! {

/// A candidate result: the absolute path of a directory (as a sequence
/// of path segments from the root), how many levels it lies from the
/// start directory (negative above, positive below), and the quality
/// tier of the match. Created by a tree walker the instant an entry is
/// classified; immutable thereafter.
#[derive(Debug)]
pub struct DirectoryMatch {
    pub path: Vec<String>,
    pub depth_from_current: i32,
    pub match_quality: MatchQuality,
}

/// The mathematical model of a [`DirectoryMatch`].
pub ghost struct MatchSpec {
    pub path: Seq<Seq<char>>,
    pub depth: int,
    pub quality: MatchQuality,
}

impl View for DirectoryMatch {
    type V = MatchSpec;

    open spec fn view(&self) -> MatchSpec {
        MatchSpec {
            path: self.path.deep_view(),
            depth: self.depth_from_current as int,
            quality: self.match_quality,
        }
    }
}

impl DeepView for DirectoryMatch {
    type V = MatchSpec;

    open spec fn deep_view(&self) -> MatchSpec {
        self.view()
    }
}

/// Strict lexicographic order on character sequences, by code point.
pub open spec fn lt_chars(a: Seq<char>, b: Seq<char>) -> bool
    decreases a.len(),
{
    if b.len() == 0 {
        false
    } else if a.len() == 0 {
        true
    } else if a[0] != b[0] {
        (a[0] as u32) < (b[0] as u32)
    } else {
        lt_chars(a.drop_first(), b.drop_first())
    }
}

/// Strict lexicographic order on segment sequences.
pub open spec fn lt_segs(a: Seq<Seq<char>>, b: Seq<Seq<char>>) -> bool
    decreases a.len(),
{
    if b.len() == 0 {
        false
    } else if a.len() == 0 {
        true
    } else if a[0] != b[0] {
        lt_chars(a[0], b[0])
    } else {
        lt_segs(a.drop_first(), b.drop_first())
    }
}

/// Non-strict lexicographic order on segment sequences.
pub open spec fn le_segs(a: Seq<Seq<char>>, b: Seq<Seq<char>>) -> bool {
    lt_segs(a, b) || a == b
}

/// `lt_chars` is trichotomous: of two distinct sequences one is smaller.
pub proof fn lemma_lt_chars_connected(a: Seq<char>, b: Seq<char>)
    ensures
        !lt_chars(a, b) && !lt_chars(b, a) ==> a == b,
        !(lt_chars(a, b) && lt_chars(b, a)),
    decreases a.len(),
{
    if a.len() == 0 && b.len() == 0 {
        assert(a =~= b);
    } else if a.len() > 0 && b.len() > 0 {
        if a[0] == b[0] {
            lemma_lt_chars_connected(a.drop_first(), b.drop_first());
            if !lt_chars(a, b) && !lt_chars(b, a) {
                assert(a.drop_first() == b.drop_first());
                assert(a =~= seq![a[0]] + a.drop_first());
                assert(b =~= seq![b[0]] + b.drop_first());
            }
        } else {
            vstd::utf8::char_u32_cast(a[0], a[0] as u32);
            vstd::utf8::char_u32_cast(b[0], b[0] as u32);
        }
    }
}

/// `lt_chars` is transitive.
pub proof fn lemma_lt_chars_transitive(a: Seq<char>, b: Seq<char>, c: Seq<char>)
    requires
        lt_chars(a, b),
        lt_chars(b, c),
    ensures
        lt_chars(a, c),
    decreases a.len() + b.len() + c.len(),
{
    if a.len() > 0 && b.len() > 0 && c.len() > 0 {
        if a[0] == b[0] && b[0] == c[0] {
            lemma_lt_chars_transitive(a.drop_first(), b.drop_first(), c.drop_first());
        }
    }
}

/// `lt_segs` is trichotomous: of two distinct sequences one is smaller.
pub proof fn lemma_lt_segs_connected(a: Seq<Seq<char>>, b: Seq<Seq<char>>)
    ensures
        !lt_segs(a, b) && !lt_segs(b, a) ==> a == b,
        !(lt_segs(a, b) && lt_segs(b, a)),
    decreases a.len(),
{
    if a.len() == 0 && b.len() == 0 {
        assert(a =~= b);
    } else if a.len() > 0 && b.len() > 0 {
        if a[0] == b[0] {
            lemma_lt_segs_connected(a.drop_first(), b.drop_first());
            if !lt_segs(a, b) && !lt_segs(b, a) {
                assert(a.drop_first() == b.drop_first());
                assert(a =~= seq![a[0]] + a.drop_first());
                assert(b =~= seq![b[0]] + b.drop_first());
            }
        } else {
            lemma_lt_chars_connected(a[0], b[0]);
        }
    }
}

/// `lt_segs` is transitive.
pub proof fn lemma_lt_segs_transitive(a: Seq<Seq<char>>, b: Seq<Seq<char>>, c: Seq<Seq<char>>)
    requires
        lt_segs(a, b),
        lt_segs(b, c),
    ensures
        lt_segs(a, c),
    decreases a.len() + b.len() + c.len(),
{
    if a.len() > 0 && b.len() > 0 && c.len() > 0 {
        if a[0] == b[0] && b[0] == c[0] {
            lemma_lt_segs_transitive(a.drop_first(), b.drop_first(), c.drop_first());
        } else if a[0] == b[0] {
            assert(lt_chars(a[0], c[0]));
        } else if b[0] == c[0] {
            assert(lt_chars(a[0], c[0]));
        } else {
            lemma_lt_chars_transitive(a[0], b[0], c[0]);
            lemma_lt_chars_connected(a[0], c[0]);
            if a[0] == c[0] {
                lemma_lt_chars_connected(a[0], b[0]);
            }
        }
    }
}

/// The total order on matches: quality tier, then depth (closer
/// ancestors first in the upward tiers, shallower children first in the
/// downward tiers), then path.
pub open spec fn leq_m(a: MatchSpec, b: MatchSpec) -> bool {
    if rank(a.quality) != rank(b.quality) {
        rank(a.quality) < rank(b.quality)
    } else if a.depth != b.depth {
        if is_up_tier(a.quality) {
            a.depth > b.depth
        } else {
            a.depth < b.depth
        }
    } else {
        le_segs(a.path, b.path)
    }
}

/// The order on matches, as a first-class relation.
pub open spec fn match_order() -> spec_fn(MatchSpec, MatchSpec) -> bool {
    |a: MatchSpec, b: MatchSpec| leq_m(a, b)
}

/// Any two matches are comparable under the order.
pub proof fn lemma_leq_m_connected(a: MatchSpec, b: MatchSpec)
    ensures
        leq_m(a, b) || leq_m(b, a),
{
    lemma_lt_segs_connected(a.path, b.path);
}

/// Two matches each at or below the other are equal.
pub proof fn lemma_leq_m_antisymmetric(a: MatchSpec, b: MatchSpec)
    requires
        leq_m(a, b),
        leq_m(b, a),
    ensures
        a == b,
{
    lemma_lt_segs_connected(a.path, b.path);
}

/// The order on matches is transitive.
pub proof fn lemma_leq_m_transitive(a: MatchSpec, b: MatchSpec, c: MatchSpec)
    requires
        leq_m(a, b),
        leq_m(b, c),
    ensures
        leq_m(a, c),
{
    if rank(a.quality) == rank(b.quality) && rank(b.quality) == rank(c.quality) {
        assert(a.quality == b.quality && b.quality == c.quality);
        if a.depth == b.depth && b.depth == c.depth {
            if lt_segs(a.path, b.path) && lt_segs(b.path, c.path) {
                lemma_lt_segs_transitive(a.path, b.path, c.path);
            }
        }
    }
}

/// `match_order` is a total ordering: reflexive, transitive,
/// antisymmetric and strongly connected.
pub proof fn lemma_match_order_total()
    ensures
        total_ordering(match_order()),
{
    let leq = match_order();
    assert forall|a: MatchSpec, b: MatchSpec| !(#[trigger] leq(a, b)) implies leq(b, a) by {
        lemma_leq_m_connected(a, b);
    }
    assert forall|a: MatchSpec, b: MatchSpec| #[trigger] leq(a, b) && #[trigger] leq(b, a)
        implies a == b by {
        lemma_leq_m_antisymmetric(a, b);
    }
    assert forall|a: MatchSpec, b: MatchSpec, c: MatchSpec|
        #[trigger] leq(a, b) && #[trigger] leq(b, c) implies leq(a, c) by {
        lemma_leq_m_transitive(a, b, c);
    }
}

/// Executable comparison under [`leq_m`] of two character sequences held
/// as strings: the strict order.
pub fn str_lt_chars(a: &str, b: &str) -> (r: bool)
    ensures
        r == lt_chars(a@, b@),
{
    let an = a.unicode_len();
    let bn = b.unicode_len();
    let mut k: usize = 0;
    proof {
        assert(a@.skip(0) =~= a@);
        assert(b@.skip(0) =~= b@);
    }
    loop
        invariant
            k <= an,
            k <= bn,
            an == a@.len(),
            bn == b@.len(),
            lt_chars(a@, b@) == lt_chars(a@.skip(k as int), b@.skip(k as int)),
        decreases an - k,
    {
        if k >= bn {
            proof {
                assert(b@.skip(k as int).len() == 0);
            }
            return false;
        }
        if k >= an {
            proof {
                assert(a@.skip(k as int).len() == 0 && b@.skip(k as int).len() > 0);
            }
            return true;
        }
        let ca = a.get_char(k);
        let cb = b.get_char(k);
        if ca != cb {
            proof {
                assert(a@.skip(k as int)[0] == a@[k as int]);
                assert(b@.skip(k as int)[0] == b@[k as int]);
            }
            return (ca as u32) < (cb as u32);
        }
        proof {
            assert(a@.skip(k as int).drop_first() =~= a@.skip(k as int + 1));
            assert(b@.skip(k as int).drop_first() =~= b@.skip(k as int + 1));
            assert(a@.skip(k as int)[0] == b@.skip(k as int)[0]);
        }
        k = k + 1;
    }
}

/// Executable non-strict lexicographic comparison of two paths.
pub fn path_le(a: &Vec<String>, b: &Vec<String>) -> (r: bool)
    ensures
        r == le_segs(a.deep_view(), b.deep_view()),
{
    let an = a.len();
    let bn = b.len();
    let mut k: usize = 0;
    proof {
        assert(a.deep_view().skip(0) =~= a.deep_view());
        assert(b.deep_view().skip(0) =~= b.deep_view());
    }
    loop
        invariant
            k <= an,
            k <= bn,
            an == a@.len(),
            bn == b@.len(),
            forall|j: int| 0 <= j < k ==> a.deep_view()[j] == b.deep_view()[j],
            lt_segs(a.deep_view(), b.deep_view())
                == lt_segs(a.deep_view().skip(k as int), b.deep_view().skip(k as int)),
        decreases an - k,
    {
        if k >= bn {
            if k >= an {
                proof {
                    assert(a.deep_view() =~= b.deep_view());
                }
                return true;
            }
            proof {
                assert(b.deep_view().skip(k as int).len() == 0);
                assert(a.deep_view().len() != b.deep_view().len());
            }
            return false;
        }
        if k >= an {
            proof {
                assert(a.deep_view().skip(k as int).len() == 0);
                assert(b.deep_view().skip(k as int).len() > 0);
            }
            return true;
        }
        if !str_eq_chars(a[k].as_str(), b[k].as_str()) {
            let r = str_lt_chars(a[k].as_str(), b[k].as_str());
            proof {
                assert(a.deep_view().skip(k as int)[0] == a.deep_view()[k as int]);
                assert(b.deep_view().skip(k as int)[0] == b.deep_view()[k as int]);
                assert(a.deep_view()[k as int] == a@[k as int]@);
                assert(b.deep_view()[k as int] == b@[k as int]@);
                if a.deep_view() == b.deep_view() {
                    assert(a.deep_view()[k as int] == b.deep_view()[k as int]);
                }
            }
            return r;
        }
        proof {
            assert(a.deep_view()[k as int] == a@[k as int]@);
            assert(b.deep_view()[k as int] == b@[k as int]@);
            assert(a.deep_view().skip(k as int).drop_first() =~= a.deep_view().skip(k as int + 1));
            assert(b.deep_view().skip(k as int).drop_first() =~= b.deep_view().skip(k as int + 1));
            assert(a.deep_view().skip(k as int)[0] == b.deep_view().skip(k as int)[0]);
        }
        k = k + 1;
    }
}

/// Whether two paths consist of the same segments.
pub fn path_eq(a: &Vec<String>, b: &Vec<String>) -> (r: bool)
    ensures
        r == (a.deep_view() == b.deep_view()),
{
    if a.len() != b.len() {
        proof {
            assert(a.deep_view().len() != b.deep_view().len());
        }
        return false;
    }
    let n = a.len();
    let mut k: usize = 0;
    while k < n
        invariant
            k <= n,
            n == a@.len(),
            n == b@.len(),
            forall|j: int| 0 <= j < k ==> a.deep_view()[j] == b.deep_view()[j],
        decreases n - k,
    {
        if !str_eq_chars(a[k].as_str(), b[k].as_str()) {
            proof {
                assert(a.deep_view()[k as int] == a@[k as int]@);
                assert(b.deep_view()[k as int] == b@[k as int]@);
            }
            return false;
        }
        proof {
            assert(a.deep_view()[k as int] == a@[k as int]@);
            assert(b.deep_view()[k as int] == b@[k as int]@);
        }
        k = k + 1;
    }
    proof {
        assert(a.deep_view() =~= b.deep_view());
    }
    true
}

/// Copies a path, segment by segment.
pub fn clone_segments(p: &Vec<String>) -> (r: Vec<String>)
    ensures
        r.deep_view() == p.deep_view(),
        r@ == p@,
{
    let n = p.len();
    let mut r: Vec<String> = Vec::new();
    let mut k: usize = 0;
    while k < n
        invariant
            k <= n,
            n == p@.len(),
            r@ =~= p@.take(k as int),
        decreases n - k,
    {
        r.push(p[k].clone());
        k = k + 1;
    }
    proof {
        assert(r@ =~= p@);
        assert(r.deep_view() =~= p.deep_view());
    }
    r
}

/// Copies a match.
pub fn clone_match(m: &DirectoryMatch) -> (r: DirectoryMatch)
    ensures
        r@ == m@,
{
    DirectoryMatch {
        path: clone_segments(&m.path),
        depth_from_current: m.depth_from_current,
        match_quality: m.match_quality,
    }
}

/// Executable comparison of two matches under the total order.
pub fn le_match(a: &DirectoryMatch, b: &DirectoryMatch) -> (r: bool)
    ensures
        r == leq_m(a@, b@),
{
    let ra = rank_of(&a.match_quality);
    let rb = rank_of(&b.match_quality);
    if ra != rb {
        return ra < rb;
    }
    if a.depth_from_current != b.depth_from_current {
        if ra <= 1 {
            return a.depth_from_current > b.depth_from_current;
        } else {
            return a.depth_from_current < b.depth_from_current;
        }
    }
    path_le(&a.path, &b.path)
}

} // verus!
