//! The ancestor walk: starting at the current directory, repeatedly
//! move to the parent, classifying each parent's own name against the
//! token.
//!
//! All exact matches come first, then all partial matches, each group
//! ordered closest ancestor first. The walk ends at the filesystem
//! root; ancestor chains are short by construction, so no budget is
//! consulted.

use vstd::prelude::*;
use crate::classify::{classify_lowered, classify_spec};
use crate::matches::{DirectoryMatch, MatchSpec, clone_segments};
use crate::quality::{MatchQuality, SearchDirection};
use crate::text::{lower_of, lowercase};

verus! {

/// A match record, in the model.
pub open spec fn mk_match(path: Seq<Seq<char>>, depth: int, q: MatchQuality) -> MatchSpec {
    MatchSpec { path: path, depth: depth, quality: q }
}

/// The ancestors of `cur` whose prefix length lies in `(lo, hi]`, from
/// the longest prefix (nearest ancestor) down, keeping those whose name
/// classifies as exactly `q` against the folded token `tok_l`. An
/// ancestor of prefix length `k` has name `cur[k - 1]` and lies
/// `cur.len() - k` levels above the start.
pub open spec fn up_between(
    cur: Seq<Seq<char>>,
    tok_l: Seq<char>,
    hi: int,
    lo: int,
    q: MatchQuality,
) -> Seq<MatchSpec>
    decreases hi - lo,
{
    if hi <= lo {
        Seq::empty()
    } else {
        let head: Seq<MatchSpec> = if classify_spec(lower_of(cur[hi - 1]), tok_l,
            SearchDirection::Up) == Some(q) {
            seq![mk_match(cur.take(hi), hi - cur.len(), q)]
        } else {
            Seq::empty()
        };
        head + up_between(cur, tok_l, hi - 1, lo, q)
    }
}

/// The whole ancestor-walk result: every exact ancestor match, nearest
/// first, then every partial ancestor match, nearest first.
pub open spec fn up_matches_spec(cur: Seq<Seq<char>>, tok_l: Seq<char>) -> Seq<MatchSpec> {
    up_between(cur, tok_l, cur.len() - 1, 0, MatchQuality::ExactUp)
        + up_between(cur, tok_l, cur.len() - 1, 0, MatchQuality::PartialUp)
}

/// Scanning `(lo, hi]` is scanning `(mid, hi]` and then `(lo, mid]`.
proof fn lemma_up_between_split(
    cur: Seq<Seq<char>>,
    tok_l: Seq<char>,
    hi: int,
    mid: int,
    lo: int,
    q: MatchQuality,
)
    requires
        lo <= mid <= hi,
    ensures
        up_between(cur, tok_l, hi, lo, q)
            == up_between(cur, tok_l, hi, mid, q) + up_between(cur, tok_l, mid, lo, q),
    decreases hi - mid,
{
    if hi == mid {
        assert(up_between(cur, tok_l, hi, mid, q) =~= Seq::<MatchSpec>::empty());
        assert(Seq::<MatchSpec>::empty() + up_between(cur, tok_l, mid, lo, q)
            =~= up_between(cur, tok_l, mid, lo, q));
    } else {
        lemma_up_between_split(cur, tok_l, hi - 1, mid, lo, q);
        let head: Seq<MatchSpec> = if classify_spec(lower_of(cur[hi - 1]), tok_l,
            SearchDirection::Up) == Some(q) {
            seq![mk_match(cur.take(hi), hi - cur.len(), q)]
        } else {
            Seq::empty()
        };
        assert(head + (up_between(cur, tok_l, hi - 1, mid, q) + up_between(cur, tok_l, mid, lo, q))
            =~= (head + up_between(cur, tok_l, hi - 1, mid, q))
                + up_between(cur, tok_l, mid, lo, q));
    }
}

/// Every entry of an ancestor scan carries the scanned quality and a
/// depth within the scanned range, and entries stand in strictly
/// decreasing depth: the nearest ancestor first.
pub proof fn lemma_up_between_ordered(
    cur: Seq<Seq<char>>,
    tok_l: Seq<char>,
    hi: int,
    lo: int,
    q: MatchQuality,
)
    requires
        0 <= lo,
        hi <= cur.len(),
    ensures
        forall|k: int| 0 <= k < up_between(cur, tok_l, hi, lo, q).len()
            ==> (#[trigger] up_between(cur, tok_l, hi, lo, q)[k]).quality == q
                && lo < up_between(cur, tok_l, hi, lo, q)[k].depth + cur.len() <= hi,
        forall|i: int, j: int|
            0 <= i < j < up_between(cur, tok_l, hi, lo, q).len()
                ==> up_between(cur, tok_l, hi, lo, q)[i].depth
                    > up_between(cur, tok_l, hi, lo, q)[j].depth,
    decreases hi - lo,
{
    if hi > lo {
        lemma_up_between_ordered(cur, tok_l, hi - 1, lo, q);
        let rest = up_between(cur, tok_l, hi - 1, lo, q);
        let s = up_between(cur, tok_l, hi, lo, q);
        if classify_spec(lower_of(cur[hi - 1]), tok_l, SearchDirection::Up) == Some(q) {
            assert(s == seq![mk_match(cur.take(hi), hi - cur.len(), q)] + rest);
            assert(s[0] == mk_match(cur.take(hi), hi - cur.len(), q));
            assert(forall|k: int| 1 <= k < s.len() ==> s[k] == rest[k - 1]);
        } else {
            assert(s =~= rest);
        }
    }
}

/// Within each quality tier, the ancestor walk lists the nearest
/// ancestor first: along the walk's result, two entries of one tier
/// stand in strictly decreasing depth.
pub proof fn lemma_up_walk_nearest_first(cur: Seq<Seq<char>>, tok_l: Seq<char>)
    ensures
        forall|i: int, j: int| 0 <= i < j < up_matches_spec(cur, tok_l).len()
            && up_matches_spec(cur, tok_l)[i].quality == up_matches_spec(cur, tok_l)[j].quality
            ==> up_matches_spec(cur, tok_l)[i].depth > up_matches_spec(cur, tok_l)[j].depth,
{
    let hi = cur.len() - 1;
    let ex = up_between(cur, tok_l, hi, 0, MatchQuality::ExactUp);
    let pa = up_between(cur, tok_l, hi, 0, MatchQuality::PartialUp);
    let s = up_matches_spec(cur, tok_l);
    lemma_up_between_ordered(cur, tok_l, hi, 0, MatchQuality::ExactUp);
    lemma_up_between_ordered(cur, tok_l, hi, 0, MatchQuality::PartialUp);
    assert forall|i: int, j: int| 0 <= i < j < s.len() && s[i].quality == s[j].quality
        implies s[i].depth > s[j].depth by {
        if j < ex.len() {
            assert(s[i] == ex[i] && s[j] == ex[j]);
        } else if i >= ex.len() {
            assert(s[i] == pa[i - ex.len()] && s[j] == pa[j - ex.len()]);
        } else {
            assert(s[i] == ex[i] && s[j] == pa[j - ex.len()]);
            assert(s[i].quality == MatchQuality::ExactUp);
            assert(s[j].quality == MatchQuality::PartialUp);
        }
    }
}

/// Walks from the current directory toward the root, classifying each
/// ancestor's name, and returns all exact ancestor matches followed by
/// all partial ancestor matches, each nearest ancestor first.
pub fn search_up_tree_with_priority(current_dir: &Vec<String>, search_term: &str)
    -> (r: Vec<DirectoryMatch>)
    requires
        current_dir@.len() < 0x8000_0000,
    ensures
        r.deep_view() == up_matches_spec(current_dir.deep_view(), lower_of(search_term@)),
{
    let ghost cur = current_dir.deep_view();
    let ghost tokl = lower_of(search_term@);
    let tok_l = lowercase(search_term);
    let mut exacts: Vec<DirectoryMatch> = Vec::new();
    let mut partials: Vec<DirectoryMatch> = Vec::new();
    let n = current_dir.len();
    if n == 0 {
        proof {
            assert(up_matches_spec(cur, tokl) =~= Seq::<MatchSpec>::empty());
            assert(exacts.deep_view() =~= Seq::<MatchSpec>::empty());
        }
        return exacts;
    }
    let mut pref = clone_segments(current_dir);
    let mut p: usize = n;
    while p > 1
        invariant
            1 <= p <= n,
            n == cur.len(),
            cur == current_dir.deep_view(),
            tok_l@ == tokl,
            pref.deep_view() == cur.take(p as int),
            pref@.len() == p,
            exacts.deep_view() == up_between(cur, tokl, n - 1, p - 1, MatchQuality::ExactUp),
            partials.deep_view() == up_between(cur, tokl, n - 1, p - 1, MatchQuality::PartialUp),
            n < 0x8000_0000,
        decreases p,
    {
        let ghost before = pref.deep_view();
        let _ = pref.pop();
        let q: usize = p - 1;
        proof {
            assert(pref.deep_view() =~= before.drop_last());
            assert(pref.deep_view() =~= cur.take(q as int));
            assert(pref.deep_view()[q - 1] == cur[q - 1]);
            assert(pref@[q - 1]@ == cur[q - 1]);
        }
        let name_l = lowercase(pref[q - 1].as_str());
        let depth: i32 = 0 - ((n - q) as i32);
        let cls = classify_lowered(name_l.as_str(), tok_l.as_str(), SearchDirection::Up);
        proof {
            lemma_up_between_split(cur, tokl, n - 1, q as int, q - 1,
                MatchQuality::ExactUp);
            lemma_up_between_split(cur, tokl, n - 1, q as int, q - 1,
                MatchQuality::PartialUp);
            assert(up_between(cur, tokl, q - 1, q - 1, MatchQuality::ExactUp)
                =~= Seq::<MatchSpec>::empty());
            assert(up_between(cur, tokl, q - 1, q - 1, MatchQuality::PartialUp)
                =~= Seq::<MatchSpec>::empty());
            assert(up_between(cur, tokl, q as int, q - 1, MatchQuality::ExactUp)
                == (if classify_spec(lower_of(cur[q - 1]), tokl, SearchDirection::Up)
                    == Some(MatchQuality::ExactUp) {
                    seq![mk_match(cur.take(q as int), q - cur.len(), MatchQuality::ExactUp)]
                } else {
                    Seq::<MatchSpec>::empty()
                }) + up_between(cur, tokl, q - 1, q - 1, MatchQuality::ExactUp));
        }
        match cls {
            Some(MatchQuality::ExactUp) => {
                let ghost old_ex = exacts.deep_view();
                exacts.push(DirectoryMatch {
                    path: clone_segments(&pref),
                    depth_from_current: depth,
                    match_quality: MatchQuality::ExactUp,
                });
                proof {
                    let m = mk_match(cur.take(q as int), q - cur.len(), MatchQuality::ExactUp);
                    assert(exacts.deep_view() =~= old_ex.push(m));
                    assert(old_ex.push(m)
                        =~= old_ex + (seq![m]
                            + up_between(cur, tokl, q - 1, q - 1, MatchQuality::ExactUp)));
                    assert(partials.deep_view() + Seq::<MatchSpec>::empty()
                        =~= partials.deep_view());
                    assert(up_between(cur, tokl, q as int, q - 1, MatchQuality::PartialUp)
                        =~= Seq::<MatchSpec>::empty());
                }
            },
            Some(MatchQuality::PartialUp) => {
                let ghost old_pa = partials.deep_view();
                partials.push(DirectoryMatch {
                    path: clone_segments(&pref),
                    depth_from_current: depth,
                    match_quality: MatchQuality::PartialUp,
                });
                proof {
                    let m = mk_match(cur.take(q as int), q - cur.len(), MatchQuality::PartialUp);
                    assert(partials.deep_view() =~= old_pa.push(m));
                    assert(old_pa.push(m)
                        =~= old_pa + (seq![m]
                            + up_between(cur, tokl, q - 1, q - 1, MatchQuality::PartialUp)));
                    assert(exacts.deep_view() + Seq::<MatchSpec>::empty()
                        =~= exacts.deep_view());
                    assert(up_between(cur, tokl, q as int, q - 1, MatchQuality::ExactUp)
                        =~= Seq::<MatchSpec>::empty());
                }
            },
            _ => {
                proof {
                    assert(up_between(cur, tokl, q as int, q - 1, MatchQuality::ExactUp)
                        =~= Seq::<MatchSpec>::empty());
                    assert(up_between(cur, tokl, q as int, q - 1, MatchQuality::PartialUp)
                        =~= Seq::<MatchSpec>::empty());
                    assert(exacts.deep_view() + Seq::<MatchSpec>::empty()
                        =~= exacts.deep_view());
                    assert(partials.deep_view() + Seq::<MatchSpec>::empty()
                        =~= partials.deep_view());
                }
            },
        }
        p = q;
    }
    let mut result = exacts;
    let ghost ex_v = result.deep_view();
    let ghost pa_v = partials.deep_view();
    let mut k: usize = 0;
    let pn = partials.len();
    while k < pn
        invariant
            k <= pn,
            pn == partials@.len(),
            pa_v == partials.deep_view(),
            result.deep_view() == ex_v + pa_v.take(k as int),
        decreases pn - k,
    {
        let ghost old_r = result.deep_view();
        let m = crate::matches::clone_match(&partials[k]);
        proof {
            assert(m@ == pa_v[k as int]);
        }
        result.push(m);
        proof {
            assert(result.deep_view() =~= old_r.push(pa_v[k as int]));
            assert(old_r.push(pa_v[k as int]) =~= ex_v + pa_v.take(k as int + 1));
        }
        k = k + 1;
    }
    proof {
        assert(pa_v.take(pn as int) =~= pa_v);
    }
    result
}

} // verus!
