//! The result finalizer: deduplicates candidates by path, then
//! total-orders them by quality tier, depth tie-break, and path.
//!
//! The output is canonical: it is the unique sequence that is sorted by
//! [`crate::matches::match_order`] and holds, for each distinct path of
//! the input, the first match recorded for that path. Running the
//! finalizer on its own output changes nothing.

use vstd::prelude::*;
use vstd::multiset::Multiset;
use vstd::relations::sorted_by;
use vstd::seq_lib::{lemma_multiset_commutative, lemma_sorted_unique};
use crate::matches::{DirectoryMatch, MatchSpec, clone_match, le_match, leq_m,
    lemma_leq_m_connected, lemma_leq_m_transitive, lemma_match_order_total, match_order, path_eq};

verus! {

broadcast use
    vstd::seq_lib::group_to_multiset_ensures,
    vstd::multiset::group_multiset_axioms;

/// Some entry of `s` has path `p`.
pub open spec fn has_path(s: Seq<MatchSpec>, p: Seq<Seq<char>>) -> bool {
    exists|i: int| 0 <= i < s.len() && s[i].path == p
}

/// No two entries of `s` share a path.
pub open spec fn distinct_paths(s: Seq<MatchSpec>) -> bool {
    forall|i: int, j: int| 0 <= i < j < s.len() ==> s[i].path != s[j].path
}

/// The subsequence of `s` that keeps, for each distinct path, the first
/// entry recorded for it, in order of first occurrence.
pub open spec fn dedup_first(s: Seq<MatchSpec>) -> Seq<MatchSpec>
    decreases s.len(),
{
    if s.len() == 0 {
        Seq::empty()
    } else {
        let pre = dedup_first(s.drop_last());
        if has_path(pre, s.last().path) {
            pre
        } else {
            pre.push(s.last())
        }
    }
}

/// What the final ordered list of a search is: the first match kept per
/// distinct path, sorted by the total match order.
pub open spec fn finalize_spec(s: Seq<MatchSpec>) -> Seq<MatchSpec> {
    dedup_first(s).sort_by(match_order())
}

/// A path is found in a non-empty list exactly when it is found short
/// of the last entry or at it.
proof fn lemma_has_path_split(s: Seq<MatchSpec>, p: Seq<Seq<char>>)
    requires
        s.len() > 0,
    ensures
        has_path(s, p) <==> (has_path(s.drop_last(), p) || s.last().path == p),
{
    if has_path(s, p) {
        let i = choose|i: int| 0 <= i < s.len() && s[i].path == p;
        if i < s.len() - 1 {
            assert(s.drop_last()[i] == s[i]);
        }
    }
    if has_path(s.drop_last(), p) {
        let i = choose|i: int| 0 <= i < s.drop_last().len() && s.drop_last()[i].path == p;
        assert(s[i] == s.drop_last()[i]);
    }
    if s.last().path == p {
        assert(s[s.len() - 1].path == p);
    }
}

/// A path is found in `s.push(x)` exactly when it is found in `s` or is
/// the path of `x`.
proof fn lemma_has_path_push(s: Seq<MatchSpec>, x: MatchSpec, p: Seq<Seq<char>>)
    ensures
        has_path(s.push(x), p) <==> (has_path(s, p) || x.path == p),
{
    lemma_has_path_split(s.push(x), p);
    assert(s.push(x).drop_last() =~= s);
    assert(s.push(x).last() == x);
}

/// Deduplication keeps exactly the paths of the input, keeps only
/// entries of the input, and leaves no path twice.
pub proof fn lemma_dedup_first_props(s: Seq<MatchSpec>)
    ensures
        distinct_paths(dedup_first(s)),
        forall|p: Seq<Seq<char>>| has_path(dedup_first(s), p) <==> has_path(s, p),
        forall|m: MatchSpec| #[trigger] dedup_first(s).contains(m) ==> s.contains(m),
    decreases s.len(),
{
    if s.len() > 0 {
        let d0 = s.drop_last();
        lemma_dedup_first_props(d0);
        let pre = dedup_first(d0);
        let x = s.last();
        let d = dedup_first(s);
        assert forall|p: Seq<Seq<char>>| has_path(d, p) <==> has_path(s, p) by {
            lemma_has_path_split(s, p);
            lemma_has_path_push(pre, x, p);
        }
        if !has_path(pre, x.path) {
            assert(d == pre.push(x));
            assert forall|i: int, j: int| 0 <= i < j < d.len()
                implies d[i].path != d[j].path by {
                if j < pre.len() {
                    assert(d[i] == pre[i] && d[j] == pre[j]);
                } else {
                    assert(d[j] == x);
                    assert(d[i] == pre[i]);
                    assert(!has_path(pre, x.path));
                }
            }
        }
        assert forall|m: MatchSpec| #[trigger] d.contains(m) implies s.contains(m) by {
            let i = choose|i: int| 0 <= i < d.len() && d[i] == m;
            if i < pre.len() {
                assert(pre[i] == m);
                assert(pre.contains(m));
                assert(d0.contains(m));
                let k = choose|k: int| 0 <= k < d0.len() && d0[k] == m;
                assert(s[k] == d0[k]);
            } else {
                assert(d == pre.push(x));
                assert(d[i] == x);
                assert(s[s.len() - 1] == x);
            }
        }
    }
}

/// Deduplication is the identity on a list whose paths are already
/// distinct.
pub proof fn lemma_dedup_first_identity(s: Seq<MatchSpec>)
    requires
        distinct_paths(s),
    ensures
        dedup_first(s) == s,
    decreases s.len(),
{
    if s.len() > 0 {
        assert forall|i: int, j: int| 0 <= i < j < s.drop_last().len()
            implies s.drop_last()[i].path != s.drop_last()[j].path by {
            assert(s.drop_last()[i] == s[i] && s.drop_last()[j] == s[j]);
        }
        lemma_dedup_first_identity(s.drop_last());
        assert forall|i: int| 0 <= i < s.drop_last().len()
            implies s.drop_last()[i].path != s.last().path by {
            assert(s.drop_last()[i] == s[i]);
        }
        assert(!has_path(s.drop_last(), s.last().path));
        assert(dedup_first(s) =~= s);
    }
}

/// Inserting an element anywhere in a sequence adds it once to the
/// multiset of the sequence.
proof fn lemma_insert_to_multiset(s: Seq<MatchSpec>, j: int, x: MatchSpec)
    requires
        0 <= j <= s.len(),
    ensures
        s.insert(j, x).to_multiset() == s.to_multiset().insert(x),
{
    let pre = s.take(j);
    let post = s.skip(j);
    assert(s.insert(j, x) =~= pre + (seq![x] + post));
    lemma_multiset_commutative(pre, seq![x] + post);
    lemma_multiset_commutative(seq![x], post);
    assert(seq![x] =~= Seq::<MatchSpec>::empty().push(x));
    assert(seq![x].to_multiset() =~= Multiset::<MatchSpec>::empty().insert(x));
    assert(s =~= pre + post);
    lemma_multiset_commutative(pre, post);
    assert(s.insert(j, x).to_multiset()
        =~= pre.to_multiset().add(post.to_multiset()).insert(x));
}

/// Removes duplicate paths, keeping the first match recorded for each.
fn dedup_matches(v: Vec<DirectoryMatch>) -> (r: Vec<DirectoryMatch>)
    ensures
        r.deep_view() == dedup_first(v.deep_view()),
{
    let n = v.len();
    let mut out: Vec<DirectoryMatch> = Vec::new();
    let mut i: usize = 0;
    proof {
        assert(v.deep_view().take(0) =~= Seq::<MatchSpec>::empty());
    }
    while i < n
        invariant
            i <= n,
            n == v@.len(),
            out.deep_view() == dedup_first(v.deep_view().take(i as int)),
        decreases n - i,
    {
        let mut seen: bool = false;
        let mut j: usize = 0;
        while j < out.len()
            invariant_except_break
                j <= out@.len(),
                i < n,
                n == v@.len(),
                seen ==> has_path(out.deep_view(), v.deep_view()[i as int].path),
                !seen ==> forall|k: int| 0 <= k < j
                    ==> out.deep_view()[k].path != v.deep_view()[i as int].path,
            ensures
                seen == has_path(out.deep_view(), v.deep_view()[i as int].path),
            decreases out@.len() - j,
        {
            if path_eq(&out[j].path, &v[i].path) {
                proof {
                    assert(out.deep_view()[j as int].path == out@[j as int]@.path);
                    assert(v.deep_view()[i as int].path == v@[i as int]@.path);
                }
                seen = true;
                break;
            }
            proof {
                assert(out.deep_view()[j as int].path == out@[j as int]@.path);
                assert(v.deep_view()[i as int].path == v@[i as int]@.path);
            }
            j = j + 1;
        }
        let ghost pre_out = out.deep_view();
        let ghost tv = v.deep_view().take(i as int + 1);
        proof {
            assert(tv.drop_last() =~= v.deep_view().take(i as int));
            assert(tv.last() == v.deep_view()[i as int]);
            assert(dedup_first(tv.drop_last()) == pre_out);
        }
        if !seen {
            proof {
                assert(!has_path(pre_out, v.deep_view()[i as int].path));
            }
            let m = clone_match(&v[i]);
            proof {
                assert(m@ == v.deep_view()[i as int]);
            }
            out.push(m);
            proof {
                assert(out.deep_view() =~= pre_out.push(v.deep_view()[i as int]));
            }
        }
        i = i + 1;
    }
    proof {
        assert(v.deep_view().take(n as int) =~= v.deep_view());
    }
    out
}

/// Sorts matches by the total match order, by insertion.
fn sort_matches(v: Vec<DirectoryMatch>) -> (r: Vec<DirectoryMatch>)
    ensures
        sorted_by(r.deep_view(), match_order()),
        r.deep_view().to_multiset() == v.deep_view().to_multiset(),
{
    let ghost leq = match_order();
    let mut rest = v;
    let mut out: Vec<DirectoryMatch> = Vec::new();
    while rest.len() > 0
        invariant
            sorted_by(out.deep_view(), match_order()),
            out.deep_view().to_multiset().add(rest.deep_view().to_multiset())
                == v.deep_view().to_multiset(),
            leq == match_order(),
        decreases rest@.len(),
    {
        let ghost old_rest = rest.deep_view();
        let m = rest.remove(rest.len() - 1);
        proof {
            assert(rest.deep_view() =~= old_rest.drop_last());
            assert(old_rest =~= rest.deep_view().push(m@));
        }
        let mut j: usize = 0;
        loop
            invariant_except_break
                j <= out@.len(),
                forall|k: int| 0 <= k < j ==> !leq_m(m@, #[trigger] out.deep_view()[k]),
            ensures
                j <= out@.len(),
                forall|k: int| 0 <= k < j ==> !leq_m(m@, #[trigger] out.deep_view()[k]),
                j < out@.len() ==> leq_m(m@, out.deep_view()[j as int]),
            decreases out@.len() - j,
        {
            if j >= out.len() {
                break;
            }
            let stop = le_match(&m, &out[j]);
            proof {
                assert(out.deep_view()[j as int] == out@[j as int]@);
            }
            if stop {
                break;
            }
            j = j + 1;
        }
        let ghost old_out = out.deep_view();
        let ghost jj = j as int;
        let ghost old_vs = out@;
        out.insert(j, m);
        proof {
            old_vs.insert_ensures(jj, m);
            old_out.insert_ensures(jj, m@);
            let s2 = out.deep_view();
            assert(out@ == old_vs.insert(jj, m));
            assert forall|k: int| 0 <= k < s2.len() implies s2[k] == old_out.insert(jj, m@)[k] by {
                if k < jj {
                    assert(out@[k] == old_vs[k]);
                    assert(old_out[k] == old_vs[k]@);
                } else if k == jj {
                    assert(out@[k] == m);
                } else {
                    assert(out@[k] == old_vs[k - 1]);
                    assert(old_out[k - 1] == old_vs[k - 1]@);
                    assert(old_out.insert(jj, m@)[k] == old_out[k - 1]);
                }
            }
            assert(s2 =~= old_out.insert(jj, m@));
            lemma_insert_to_multiset(old_out, jj, m@);
            assert forall|p: int, q: int| 0 <= p < q < s2.len() implies leq(s2[p], s2[q]) by {
                if q < jj {
                    assert(s2[p] == old_out[p] && s2[q] == old_out[q]);
                    assert(leq(old_out[p], old_out[q]));
                } else if p < jj && q == jj {
                    assert(s2[p] == old_out[p] && s2[q] == m@);
                    assert(!leq_m(m@, old_out[p]));
                    lemma_leq_m_connected(m@, old_out[p]);
                    assert(leq_m(old_out[p], m@));
                } else if p == jj && q > jj {
                    assert(s2[p] == m@ && s2[q] == old_out[q - 1]);
                    assert(leq_m(m@, old_out[jj]));
                    if q - 1 > jj {
                        assert(leq(old_out[jj], old_out[q - 1]));
                        lemma_leq_m_transitive(m@, old_out[jj], old_out[q - 1]);
                    }
                } else if p < jj && q > jj {
                    assert(s2[p] == old_out[p] && s2[q] == old_out[q - 1]);
                    if p < q - 1 {
                        assert(leq(old_out[p], old_out[q - 1]));
                    } else {
                        assert(!leq_m(m@, old_out[p]));
                        lemma_leq_m_connected(m@, old_out[p]);
                        assert(leq_m(m@, old_out[jj]));
                        lemma_leq_m_transitive(old_out[p], m@, old_out[jj]);
                    }
                } else {
                    assert(jj <= p - 1 < q - 1 < old_out.len());
                    assert(s2[p] == old_out[p - 1] && s2[q] == old_out[q - 1]);
                    assert(leq(old_out[p - 1], old_out[q - 1]));
                }
            }
        }
    }
    proof {
        assert(rest.deep_view() =~= Seq::<MatchSpec>::empty());
    }
    out
}

/// Deduplicates candidates by path — keeping, for each path, the first
/// match recorded — then sorts them by quality tier, by depth within a
/// tier (closer ancestors first in the upward tiers, shallower children
/// first in the downward tiers), and by path as the final tie-break.
pub fn finalize_matches(matches: Vec<DirectoryMatch>) -> (r: Vec<DirectoryMatch>)
    ensures
        r.deep_view() == finalize_spec(matches.deep_view()),
        sorted_by(r.deep_view(), match_order()),
        distinct_paths(r.deep_view()),
        forall|p: Seq<Seq<char>>| has_path(r.deep_view(), p) <==> has_path(matches.deep_view(), p),
{
    let ghost input = matches.deep_view();
    let d = dedup_matches(matches);
    let s = sort_matches(d);
    proof {
        lemma_match_order_total();
        dedup_first(input).lemma_sort_by_ensures(match_order());
        lemma_sorted_unique(s.deep_view(), finalize_spec(input), match_order());
        lemma_finalize_props(input);
    }
    s
}

/// Properties of the finalized list: sorted, no path twice, and exactly
/// the paths of the input survive.
pub proof fn lemma_finalize_props(s: Seq<MatchSpec>)
    ensures
        sorted_by(finalize_spec(s), match_order()),
        distinct_paths(finalize_spec(s)),
        forall|p: Seq<Seq<char>>| has_path(finalize_spec(s), p) <==> has_path(s, p),
        forall|m: MatchSpec| #[trigger] finalize_spec(s).contains(m) ==> s.contains(m),
{
    lemma_match_order_total();
    lemma_dedup_first_props(s);
    let d = dedup_first(s);
    let f = finalize_spec(s);
    d.lemma_sort_by_ensures(match_order());
    assert(d.to_multiset() == f.to_multiset());
    assert forall|m: MatchSpec| #[trigger] f.contains(m) implies s.contains(m) by {
        assert(f.to_multiset().count(m) > 0);
        assert(d.contains(m));
    }
    assert forall|i: int, j: int| 0 <= i < j < f.len() implies f[i].path != f[j].path by {
        if f[i].path == f[j].path {
            if f[i] == f[j] {
                lemma_dup_count(f, i, j);
                assert(d.to_multiset().count(f[i]) >= 2);
                lemma_count_two_distinct_indices(d, f[i]);
            } else {
                assert(f.contains(f[i]) && f.contains(f[j]));
                assert(d.contains(f[i]) && d.contains(f[j]));
                let p = choose|p: int| 0 <= p < d.len() && d[p] == f[i];
                let q = choose|q: int| 0 <= q < d.len() && d[q] == f[j];
                assert(p != q);
                assert(d[p].path == d[q].path);
                if p < q {
                    assert(!distinct_paths(d));
                } else {
                    assert(!distinct_paths(d));
                }
            }
        }
    }
    assert forall|p: Seq<Seq<char>>| has_path(f, p) implies has_path(s, p) by {
        let i = choose|i: int| 0 <= i < f.len() && f[i].path == p;
        assert(f.contains(f[i]));
        assert(d.contains(f[i]));
        let q = choose|q: int| 0 <= q < d.len() && d[q] == f[i];
        assert(has_path(d, p));
    }
    assert forall|p: Seq<Seq<char>>| has_path(s, p) implies has_path(f, p) by {
        assert(has_path(d, p));
        let i = choose|i: int| 0 <= i < d.len() && d[i].path == p;
        assert(d.contains(d[i]));
        assert(f.to_multiset().count(d[i]) > 0);
        assert(f.contains(d[i]));
        let q = choose|q: int| 0 <= q < f.len() && f[q] == d[i];
    }
}

/// A value standing at two indices counts at least twice in the multiset.
proof fn lemma_dup_count(s: Seq<MatchSpec>, i: int, j: int)
    requires
        0 <= i < j < s.len(),
        s[i] == s[j],
    ensures
        s.to_multiset().count(s[i]) >= 2,
{
    let r = s.remove(j);
    assert(s.to_multiset() =~= r.to_multiset().insert(s[j]));
    assert(r[i] == s[i]);
    assert(r.contains(s[i]));
    assert(r.to_multiset().count(s[i]) > 0);
}

/// A value counting at least twice stands at two distinct indices, so
/// the sequence repeats that value's path.
proof fn lemma_count_two_distinct_indices(s: Seq<MatchSpec>, m: MatchSpec)
    requires
        s.to_multiset().count(m) >= 2,
    ensures
        !distinct_paths(s),
{
    assert(s.to_multiset().count(m) > 0);
    assert(s.contains(m));
    let i = choose|i: int| 0 <= i < s.len() && s[i] == m;
    let r = s.remove(i);
    assert(s.to_multiset() =~= r.to_multiset().insert(m));
    assert(r.to_multiset().count(m) >= 1);
    assert(r.contains(m));
    let j = choose|j: int| 0 <= j < r.len() && r[j] == m;
    if j < i {
        assert(s[j] == m && s[i] == m && j < i);
        assert(s[j].path == s[i].path);
    } else {
        assert(s[j + 1] == m && s[i] == m && i < j + 1);
        assert(s[i].path == s[j + 1].path);
    }
}

/// In a list sorted by the match order, every entry of an upward tier
/// precedes every entry of a downward tier.
pub proof fn lemma_up_tiers_precede_down(s: Seq<MatchSpec>)
    requires
        sorted_by(s, match_order()),
    ensures
        forall|i: int, j: int| 0 <= i < j < s.len()
            && crate::quality::is_up_tier(s[j].quality)
            ==> crate::quality::is_up_tier(s[i].quality),
{
    let leq = match_order();
    assert forall|i: int, j: int| 0 <= i < j < s.len()
        && crate::quality::is_up_tier(s[j].quality)
        implies crate::quality::is_up_tier(s[i].quality) by {
        assert(leq(s[i], s[j]));
        assert(leq_m(s[i], s[j]));
    }
}

/// In a list sorted by the match order, entries of one downward tier
/// stand shallowest first.
pub proof fn lemma_down_tiers_shallowest_first(s: Seq<MatchSpec>)
    requires
        sorted_by(s, match_order()),
    ensures
        forall|i: int, j: int| 0 <= i < j < s.len() && s[i].quality == s[j].quality
            && crate::quality::is_down_tier(s[i].quality)
            ==> s[i].depth <= s[j].depth,
{
    let leq = match_order();
    assert forall|i: int, j: int| 0 <= i < j < s.len() && s[i].quality == s[j].quality
        && crate::quality::is_down_tier(s[i].quality)
        implies s[i].depth <= s[j].depth by {
        assert(leq(s[i], s[j]));
        assert(leq_m(s[i], s[j]));
    }
}

/// In a list sorted by the match order, entries of one upward tier
/// stand nearest ancestor first: depths closest to zero come first.
pub proof fn lemma_up_tiers_nearest_first(s: Seq<MatchSpec>)
    requires
        sorted_by(s, match_order()),
    ensures
        forall|i: int, j: int| 0 <= i < j < s.len() && s[i].quality == s[j].quality
            && crate::quality::is_up_tier(s[i].quality)
            ==> s[i].depth >= s[j].depth,
{
    let leq = match_order();
    assert forall|i: int, j: int| 0 <= i < j < s.len() && s[i].quality == s[j].quality
        && crate::quality::is_up_tier(s[i].quality)
        implies s[i].depth >= s[j].depth by {
        assert(leq(s[i], s[j]));
        assert(leq_m(s[i], s[j]));
    }
}

/// Running the finalizer twice yields what running it once yields: the
/// finished list is a fixed point of finalization.
pub proof fn lemma_finalize_idempotent(s: Seq<MatchSpec>)
    ensures
        finalize_spec(finalize_spec(s)) == finalize_spec(s),
{
    lemma_match_order_total();
    lemma_finalize_props(s);
    let f = finalize_spec(s);
    lemma_dedup_first_identity(f);
    f.lemma_sort_by_ensures(match_order());
    lemma_sorted_unique(f.sort_by(match_order()), f, match_order());
}

} // verus!
