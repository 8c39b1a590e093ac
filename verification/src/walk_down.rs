//! The downward walks: level-order search of the subtree under a start
//! directory, stopping at the first productive level.
//!
//! Levels are explored in order of depth, at most eight deep. As soon
//! as one level yields at least one match the walk returns exactly that
//! level's matches: deeper levels are never reported, which bounds
//! latency on wide or deep trees and prioritises local matches over
//! distant ones. The same walk, with a prefix tier added, serves
//! absolute-path resolution.
//!
//! These walks deliberately consult no search budget: their work is
//! already bounded by the eight-level ceiling and the stop at the
//! first productive level, and the promise to return that whole level
//! — on which the early-stop and ordering properties rest — could not
//! be kept under a ceiling that cuts a level short. The time and
//! match-count ceilings bind the exhaustive and pattern walks instead.

use vstd::prelude::*;
use vstd::string::*;
use crate::classify::{classify_abs_lowered, classify_abs_spec, classify_lowered, classify_spec};
use crate::matches::{DirectoryMatch, MatchSpec, clone_match, clone_segments};
use crate::quality::{MatchQuality, SearchDirection};
use crate::text::{lower_of, lowercase};
use crate::tree::DirTree;
use crate::walk_up::mk_match;

verus! {

/// Downward classification: the standard tiers, or the three tiers of
/// absolute-path resolution when `abs` is set.
pub open spec fn classify_level(name_l: Seq<char>, tok_l: Seq<char>, abs: bool)
    -> Option<MatchQuality> {
    if abs {
        classify_abs_spec(name_l, tok_l)
    } else {
        classify_spec(name_l, tok_l, SearchDirection::Down)
    }
}

/// The matches found among the descendants of the forest `cs` exactly
/// `d` levels below it, in forest order, each recorded at depth `lvl`
/// under the path `prefix` extended to the descendant.
pub open spec fn level_matches(
    cs: Seq<DirTree>,
    prefix: Seq<Seq<char>>,
    tok_l: Seq<char>,
    d: nat,
    lvl: int,
    abs: bool,
) -> Seq<MatchSpec>
    decreases d, cs.len(),
{
    if cs.len() == 0 || d == 0 {
        Seq::empty()
    } else {
        let head_path = prefix.push(cs[0].name@);
        let head: Seq<MatchSpec> = if d == 1 {
            match classify_level(lower_of(cs[0].name@), tok_l, abs) {
                Some(q) => seq![mk_match(head_path, lvl, q)],
                None => Seq::empty(),
            }
        } else {
            level_matches(cs[0].children@, head_path, tok_l, (d - 1) as nat, lvl, abs)
        };
        head + level_matches(cs.drop_first(), prefix, tok_l, d, lvl, abs)
    }
}

/// The matches of the first productive level at depth `d` or beyond,
/// up to depth 8; empty when no level up to 8 yields a match.
pub open spec fn first_hit(
    cs: Seq<DirTree>,
    prefix: Seq<Seq<char>>,
    tok_l: Seq<char>,
    d: nat,
    abs: bool,
) -> Seq<MatchSpec>
    decreases 9 - d,
{
    if d > 8 {
        Seq::empty()
    } else {
        let m = level_matches(cs, prefix, tok_l, d, d as int, abs);
        if m.len() > 0 {
            m
        } else {
            first_hit(cs, prefix, tok_l, d + 1, abs)
        }
    }
}

/// What the downward breadth-first walk under `node` returns: the
/// matches of the shallowest productive level, none deeper than 8.
pub open spec fn down_walk_spec(node: DirTree, start: Seq<Seq<char>>, tok_l: Seq<char>)
    -> Seq<MatchSpec> {
    first_hit(node.children@, start, tok_l, 1, false)
}

/// What the absolute-prefix walk under `node` returns: as the downward
/// walk, with the prefix tier between exact and substring.
pub open spec fn abs_walk_spec(node: DirTree, start: Seq<Seq<char>>, tok_l: Seq<char>)
    -> Seq<MatchSpec> {
    first_hit(node.children@, start, tok_l, 1, true)
}

/// A level scan distributes over concatenation of forests.
proof fn lemma_level_concat(
    a: Seq<DirTree>,
    b: Seq<DirTree>,
    prefix: Seq<Seq<char>>,
    tok_l: Seq<char>,
    d: nat,
    lvl: int,
    abs: bool,
)
    requires
        d >= 1,
    ensures
        level_matches(a + b, prefix, tok_l, d, lvl, abs)
            == level_matches(a, prefix, tok_l, d, lvl, abs)
                + level_matches(b, prefix, tok_l, d, lvl, abs),
    decreases a.len(),
{
    if a.len() == 0 {
        assert(a + b =~= b);
        assert(level_matches(a, prefix, tok_l, d, lvl, abs) =~= Seq::<MatchSpec>::empty());
        assert(Seq::<MatchSpec>::empty() + level_matches(b, prefix, tok_l, d, lvl, abs)
            =~= level_matches(b, prefix, tok_l, d, lvl, abs));
    } else {
        lemma_level_concat(a.drop_first(), b, prefix, tok_l, d, lvl, abs);
        assert((a + b)[0] == a[0]);
        assert((a + b).drop_first() =~= a.drop_first() + b);
        assert((a + b).len() > 0);
        let head_path = prefix.push(a[0].name@);
        let head: Seq<MatchSpec> = if d == 1 {
            match classify_level(lower_of(a[0].name@), tok_l, abs) {
                Some(q) => seq![mk_match(head_path, lvl, q)],
                None => Seq::empty(),
            }
        } else {
            level_matches(a[0].children@, head_path, tok_l, (d - 1) as nat, lvl, abs)
        };
        assert(level_matches(a + b, prefix, tok_l, d, lvl, abs)
            == head + level_matches(a.drop_first() + b, prefix, tok_l, d, lvl, abs));
        assert(head + (level_matches(a.drop_first(), prefix, tok_l, d, lvl, abs)
            + level_matches(b, prefix, tok_l, d, lvl, abs))
            =~= (head + level_matches(a.drop_first(), prefix, tok_l, d, lvl, abs))
                + level_matches(b, prefix, tok_l, d, lvl, abs));
    }
}

/// Every match of a level scan is recorded at the scanned depth.
pub proof fn lemma_level_depth(
    cs: Seq<DirTree>,
    prefix: Seq<Seq<char>>,
    tok_l: Seq<char>,
    d: nat,
    lvl: int,
    abs: bool,
)
    ensures
        forall|k: int| 0 <= k < level_matches(cs, prefix, tok_l, d, lvl, abs).len()
            ==> (#[trigger] level_matches(cs, prefix, tok_l, d, lvl, abs)[k]).depth == lvl,
    decreases d, cs.len(),
{
    if cs.len() > 0 && d >= 1 {
        let head_path = prefix.push(cs[0].name@);
        if d > 1 {
            lemma_level_depth(cs[0].children@, head_path, tok_l, (d - 1) as nat, lvl, abs);
        }
        lemma_level_depth(cs.drop_first(), prefix, tok_l, d, lvl, abs);
    }
}

/// A forest with no trees yields no match at any depth.
proof fn lemma_first_hit_empty(
    cs: Seq<DirTree>,
    prefix: Seq<Seq<char>>,
    tok_l: Seq<char>,
    d: nat,
    abs: bool,
)
    requires
        cs.len() == 0,
    ensures
        first_hit(cs, prefix, tok_l, d, abs) == Seq::<MatchSpec>::empty(),
    decreases 9 - d,
{
    if d <= 8 {
        lemma_first_hit_empty(cs, prefix, tok_l, d + 1, abs);
    }
}

/// Searching under a directory with no children returns no match at
/// all — an empty result, never an error.
pub proof fn lemma_empty_children_no_matches(node: DirTree, start: Seq<Seq<char>>,
    tok_l: Seq<char>)
    requires
        node.children@.len() == 0,
    ensures
        down_walk_spec(node, start, tok_l) == Seq::<MatchSpec>::empty(),
        abs_walk_spec(node, start, tok_l) == Seq::<MatchSpec>::empty(),
{
    lemma_first_hit_empty(node.children@, start, tok_l, 1, false);
    lemma_first_hit_empty(node.children@, start, tok_l, 1, true);
}

/// If the immediate children of the start directory contain a match,
/// the walk returns exactly those depth-1 matches: no descendant
/// beyond depth 1 appears in the result.
pub proof fn lemma_down_early_stop(node: DirTree, start: Seq<Seq<char>>, tok_l: Seq<char>)
    requires
        level_matches(node.children@, start, tok_l, 1, 1, false).len() > 0,
    ensures
        down_walk_spec(node, start, tok_l)
            == level_matches(node.children@, start, tok_l, 1, 1, false),
        forall|k: int| 0 <= k < down_walk_spec(node, start, tok_l).len()
            ==> (#[trigger] down_walk_spec(node, start, tok_l)[k]).depth == 1,
{
    lemma_level_depth(node.children@, start, tok_l, 1, 1, false);
}

/// Collects into `out` the matches of the forest `node.children` found
/// exactly `d` levels below `node`, recorded at depth `lvl`.
fn collect_level(
    node: &DirTree,
    prefix: &Vec<String>,
    tok_l: &str,
    d: usize,
    lvl: i32,
    abs: bool,
    out: &mut Vec<DirectoryMatch>,
)
    requires
        d >= 1,
    ensures
        final(out).deep_view() == old(out).deep_view()
            + level_matches(node.children@, prefix.deep_view(), tok_l@, d as nat, lvl as int,
                abs),
    decreases d,
{
    let ghost base = out.deep_view();
    let ghost cs = node.children@;
    let ghost pv = prefix.deep_view();
    let n = node.children.len();
    let mut k: usize = 0;
    proof {
        assert(cs.take(0) =~= Seq::<DirTree>::empty());
        assert(level_matches(cs.take(0), pv, tok_l@, d as nat, lvl as int, abs)
            =~= Seq::<MatchSpec>::empty());
        assert(base + Seq::<MatchSpec>::empty() =~= base);
    }
    while k < n
        invariant
            k <= n,
            n == node.children@.len(),
            cs == node.children@,
            pv == prefix.deep_view(),
            d >= 1,
            out.deep_view() == base
                + level_matches(cs.take(k as int), pv, tok_l@, d as nat, lvl as int, abs),
        decreases n - k,
    {
        let child = &node.children[k];
        let mut child_path = clone_segments(prefix);
        child_path.push(child.name.clone());
        proof {
            assert(child_path.deep_view() =~= pv.push(cs[k as int].name@));
        }
        let ghost pre = out.deep_view();
        let ghost head = if d == 1 {
            match classify_level(lower_of(cs[k as int].name@), tok_l@, abs) {
                Some(q) => seq![mk_match(pv.push(cs[k as int].name@), lvl as int, q)],
                None => Seq::<MatchSpec>::empty(),
            }
        } else {
            level_matches(cs[k as int].children@, pv.push(cs[k as int].name@), tok_l@,
                (d - 1) as nat, lvl as int, abs)
        };
        if d == 1 {
            let name_l = lowercase(child.name.as_str());
            let cls = if abs {
                classify_abs_lowered(name_l.as_str(), tok_l)
            } else {
                classify_lowered(name_l.as_str(), tok_l, SearchDirection::Down)
            };
            match cls {
                Some(q) => {
                    out.push(DirectoryMatch {
                        path: child_path,
                        depth_from_current: lvl,
                        match_quality: q,
                    });
                    proof {
                        assert(out.deep_view() =~= pre + head);
                    }
                },
                None => {
                    proof {
                        assert(out.deep_view() =~= pre + head);
                    }
                },
            }
        } else {
            collect_level(child, &child_path, tok_l, d - 1, lvl, abs, out);
            proof {
                assert(out.deep_view() == pre + head);
            }
        }
        proof {
            assert(cs.take(k as int + 1) =~= cs.take(k as int) + seq![cs[k as int]]);
            lemma_level_concat(cs.take(k as int), seq![cs[k as int]], pv, tok_l@, d as nat,
                lvl as int, abs);
            assert(seq![cs[k as int]].drop_first() =~= Seq::<DirTree>::empty());
            assert(level_matches(seq![cs[k as int]].drop_first(), pv, tok_l@, d as nat,
                lvl as int, abs) =~= Seq::<MatchSpec>::empty());
            assert(level_matches(seq![cs[k as int]], pv, tok_l@, d as nat, lvl as int, abs)
                =~= head);
            assert(out.deep_view() == base
                + level_matches(cs.take(k as int + 1), pv, tok_l@, d as nat, lvl as int, abs));
        }
        k = k + 1;
    }
    proof {
        assert(cs.take(n as int) =~= cs);
    }
}

/// Level-order walk of the subtree rooted at `start`: explores one
/// depth at a time, at most 8 deep, and returns exactly the matches of
/// the first productive level. If the immediate children contain a
/// match, nothing deeper is ever visited. No budget is consulted: the
/// depth ceiling and the early stop bound the work, and the exact
/// first-productive-level promise requires the whole level.
pub fn search_down_breadth_first_all(start: &DirTree, start_path: &Vec<String>,
    search_term: &str) -> (r: Vec<DirectoryMatch>)
    ensures
        r.deep_view() == down_walk_spec(*start, start_path.deep_view(), lower_of(search_term@)),
{
    let ghost cs = start.children@;
    let ghost pv = start_path.deep_view();
    let ghost tokl = lower_of(search_term@);
    let tok_l = lowercase(search_term);
    let mut d: usize = 1;
    while d <= 8
        invariant
            1 <= d <= 9,
            tok_l@ == tokl,
            tokl == lower_of(search_term@),
            cs == start.children@,
            pv == start_path.deep_view(),
            first_hit(cs, pv, tokl, 1, false) == first_hit(cs, pv, tokl, d as nat, false),
        decreases 9 - d,
    {
        let mut out: Vec<DirectoryMatch> = Vec::new();
        proof {
            assert(out.deep_view() =~= Seq::<MatchSpec>::empty());
        }
        collect_level(start, start_path, tok_l.as_str(), d, d as i32, false, &mut out);
        proof {
            assert(Seq::<MatchSpec>::empty()
                + level_matches(cs, pv, tokl, d as nat, d as int, false)
                =~= level_matches(cs, pv, tokl, d as nat, d as int, false));
            assert(out.deep_view() == level_matches(cs, pv, tokl, d as nat, d as int, false));
        }
        if out.len() > 0 {
            proof {
                assert(out.deep_view().len() > 0);
                assert(first_hit(cs, pv, tokl, d as nat, false)
                    == level_matches(cs, pv, tokl, d as nat, d as int, false));
                assert(out.deep_view() == first_hit(cs, pv, tokl, 1, false));
                assert(down_walk_spec(*start, start_path.deep_view(), lower_of(search_term@))
                    == first_hit(cs, pv, tokl, 1, false));
            }
            return out;
        }
        proof {
            assert(level_matches(cs, pv, tokl, d as nat, d as int, false).len() == 0);
        }
        d = d + 1;
    }
    let r: Vec<DirectoryMatch> = Vec::new();
    proof {
        assert(r.deep_view() =~= Seq::<MatchSpec>::empty());
    }
    r
}

/// The absolute-prefix walk: as the level-order walk, with three tiers
/// — exact, prefix, substring — appending what it finds to `matches`.
pub fn search_absolute_pattern(parent_dir: &DirTree, parent_path: &Vec<String>, pattern: &str,
    matches: &mut Vec<DirectoryMatch>)
    ensures
        final(matches).deep_view() == old(matches).deep_view()
            + abs_walk_spec(*parent_dir, parent_path.deep_view(), lower_of(pattern@)),
{
    let ghost cs = parent_dir.children@;
    let ghost pv = parent_path.deep_view();
    let ghost tokl = lower_of(pattern@);
    let ghost base = matches.deep_view();
    let tok_l = lowercase(pattern);
    let mut d: usize = 1;
    while d <= 8
        invariant
            1 <= d <= 9,
            tok_l@ == tokl,
            tokl == lower_of(pattern@),
            cs == parent_dir.children@,
            pv == parent_path.deep_view(),
            base == matches.deep_view(),
            base == old(matches).deep_view(),
            first_hit(cs, pv, tokl, 1, true) == first_hit(cs, pv, tokl, d as nat, true),
        decreases 9 - d,
    {
        let mut out: Vec<DirectoryMatch> = Vec::new();
        proof {
            assert(out.deep_view() =~= Seq::<MatchSpec>::empty());
        }
        collect_level(parent_dir, parent_path, tok_l.as_str(), d, d as i32, true, &mut out);
        proof {
            assert(Seq::<MatchSpec>::empty()
                + level_matches(cs, pv, tokl, d as nat, d as int, true)
                =~= level_matches(cs, pv, tokl, d as nat, d as int, true));
            assert(out.deep_view() == level_matches(cs, pv, tokl, d as nat, d as int, true));
        }
        if out.len() > 0 {
            proof {
                assert(first_hit(cs, pv, tokl, d as nat, true)
                    == level_matches(cs, pv, tokl, d as nat, d as int, true));
            }
            let ghost hit = out.deep_view();
            let mut k: usize = 0;
            let on = out.len();
            while k < on
                invariant
                    k <= on,
                    on == out@.len(),
                    hit == out.deep_view(),
                    matches.deep_view() == base + hit.take(k as int),
                decreases on - k,
            {
                let ghost before = matches.deep_view();
                let m = clone_match(&out[k]);
                proof {
                    assert(m@ == hit[k as int]);
                }
                matches.push(m);
                proof {
                    assert(matches.deep_view() =~= before.push(hit[k as int]));
                    assert(before.push(hit[k as int]) =~= base + hit.take(k as int + 1));
                }
                k = k + 1;
            }
            proof {
                assert(hit.take(on as int) =~= hit);
                assert(hit.len() > 0);
            }
            return;
        }
        proof {
            assert(level_matches(cs, pv, tokl, d as nat, d as int, true).len() == 0);
        }
        d = d + 1;
    }
    proof {
        assert(matches.deep_view() =~= base + Seq::<MatchSpec>::empty());
    }
}

} // verus!
