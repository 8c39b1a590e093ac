//! The search orchestrator: composes the path walkers and the result
//! finalizer into one operation over a snapshot of the directory tree.
//!
//! An empty token names the start directory itself. An absolute token
//! either lists the directory it names or, when it does not exist,
//! searches under its deepest existing ancestor. A slash-separated
//! token runs the pattern walk and falls back to the plain strategies
//! when that yields nothing. A plain token searches both toward the
//! root and into the subtree, and the merged candidates are finalized
//! into one ordered list. No outcome is an error: an empty list means
//! no match.

use vstd::prelude::*;
use vstd::relations::sorted_by;
use crate::budget::SearchContext;
use crate::finalize::{distinct_paths, finalize_matches, finalize_spec, has_path};
use crate::matches::{DirectoryMatch, MatchSpec, clone_match, clone_segments, match_order};
use crate::quality::MatchQuality;
use crate::text::lower_of;
use crate::tree::{DirTree, get_adaptive_depth, lemma_resolve_reachable, lookup, resolve_path};
use crate::walk_down::{abs_walk_spec, down_walk_spec, search_down_breadth_first_all,
    search_absolute_pattern};
use crate::walk_pattern::{abs_segments, dfs_sound, find_search_root_and_pattern,
    longest_existing, path_pattern_sound, search_down_tree_fast, search_path_pattern_fast,
    split_segments};
use crate::walk_up::{mk_match, search_up_tree_with_priority, up_matches_spec};

verus! {

/// The token names an absolute path.
pub open spec fn is_absolute(term: Seq<char>) -> bool {
    term.len() > 0 && term[0] == '/'
}

/// The token holds a path separator somewhere.
pub open spec fn has_slash(term: Seq<char>) -> bool {
    exists|i: int| 0 <= i < term.len() && term[i] == '/'
}

/// What the plain-token strategy collects before finalizing: the
/// ancestor matches, then the downward matches of the current
/// directory — or nothing downward when the current directory is not
/// in the tree.
pub open spec fn plain_spec(tree: DirTree, cur: Seq<Seq<char>>, tok_l: Seq<char>)
    -> Seq<MatchSpec> {
    up_matches_spec(cur, tok_l) + (match resolve_path(tree, cur) {
        Some(node) => down_walk_spec(node, cur, tok_l),
        None => Seq::empty(),
    })
}

/// What the absolute-token strategy collects when the named path does
/// not exist: the absolute-prefix walk under the deepest existing
/// ancestor, against the first missing segment.
pub open spec fn abs_fallback_spec(tree: DirTree, term: Seq<char>) -> Seq<MatchSpec> {
    let segs = abs_segments(term);
    let k = longest_existing(tree, segs, segs.len() - 1);
    let root = resolve_path(tree, segs.take(k))->Some_0;
    abs_walk_spec(root, segs.take(k), lower_of(segs[k]))
}

/// A prefix of `segs` chosen by `longest_existing` names an existing
/// directory (the empty prefix is the root, which always exists).
proof fn lemma_longest_exists(tree: DirTree, segs: Seq<Seq<char>>, j: int)
    ensures
        0 <= longest_existing(tree, segs, j) <= (if j >= 0 { j } else { 0 }),
        resolve_path(tree, segs.take(longest_existing(tree, segs, j))) is Some,
    decreases (if j >= 0 { j } else { 0 }),
{
    if j <= 0 {
        assert(segs.take(0) =~= Seq::<Seq<char>>::empty());
    } else if resolve_path(tree, segs.take(j)) is Some {
    } else {
        lemma_longest_exists(tree, segs, j - 1);
    }
}

/// Whether the token holds a `/`.
fn contains_slash(term: &str) -> (r: bool)
    ensures
        r == has_slash(term@),
{
    let n = term.unicode_len();
    let mut i: usize = 0;
    while i < n
        invariant
            i <= n,
            n == term@.len(),
            forall|k: int| 0 <= k < i ==> term@[k] != '/',
        decreases n - i,
    {
        if term.get_char(i) == '/' {
            return true;
        }
        i = i + 1;
    }
    false
}

/// Finds and ranks the candidate directories for a resolved token.
///
/// - An empty token yields exactly one candidate: the start directory
///   itself, at depth 0.
/// - An absolute token that names an existing directory yields that
///   directory at depth 0 together with an exhaustive, budget-bounded
///   listing of its subtree; one that does not yields the finalized
///   absolute-prefix walk under its deepest existing ancestor.
/// - A slash-separated token yields the finalized pattern-walk
///   candidates, or falls through to the plain strategies when the
///   pattern walk finds nothing.
/// - Any other token yields the finalized merge of the ancestor walk
///   and the downward walk.
pub fn find_matching_directories(tree: &DirTree, current_dir: &Vec<String>, search_term: &str)
    -> (r: Vec<DirectoryMatch>)
    requires
        current_dir@.len() < 0x8000_0000,
    ensures
        search_term@.len() == 0 ==> r.deep_view()
            == seq![mk_match(current_dir.deep_view(), 0, MatchQuality::ExactDown)],
        search_term@.len() > 0 ==> sorted_by(r.deep_view(), match_order())
            && distinct_paths(r.deep_view()),
        is_absolute(search_term@) && resolve_path(*tree, abs_segments(search_term@)) is Some
            ==> {
                &&& has_path(r.deep_view(), abs_segments(search_term@))
                &&& forall|i: int| 0 <= i < r.deep_view().len() ==> {
                    let m = #[trigger] r.deep_view()[i];
                    m == mk_match(abs_segments(search_term@), 0, MatchQuality::ExactDown)
                        || dfs_sound(*tree, abs_segments(search_term@), 1,
                            lower_of(Seq::<char>::empty()), m)
                }
            },
        is_absolute(search_term@) && resolve_path(*tree, abs_segments(search_term@)) is None
            ==> r.deep_view() == finalize_spec(abs_fallback_spec(*tree, search_term@)),
        search_term@.len() > 0 && !is_absolute(search_term@) && !has_slash(search_term@)
            ==> r.deep_view() == finalize_spec(plain_spec(*tree, current_dir.deep_view(),
                lower_of(search_term@))),
        search_term@.len() > 0 && !is_absolute(search_term@) && has_slash(search_term@)
            ==> (r.deep_view() == finalize_spec(plain_spec(*tree, current_dir.deep_view(),
                    lower_of(search_term@)))
                || forall|i: int| 0 <= i < r.deep_view().len()
                    ==> path_pattern_sound(*tree, current_dir.deep_view(), search_term@,
                        #[trigger] r.deep_view()[i])),
{
    let ghost cur = current_dir.deep_view();
    let ghost term = search_term@;
    if search_term.is_empty() {
        let mut ms: Vec<DirectoryMatch> = Vec::new();
        ms.push(DirectoryMatch {
            path: clone_segments(current_dir),
            depth_from_current: 0,
            match_quality: MatchQuality::ExactDown,
        });
        proof {
            assert(ms.deep_view() =~= seq![mk_match(cur, 0, MatchQuality::ExactDown)]);
        }
        return ms;
    }
    let first_slash = search_term.get_char(0) == '/';
    if first_slash {
        let segs = split_segments(search_term);
        let ghost sv = segs.deep_view();
        match lookup(tree, &segs) {
            Some(node) => {
                let mut ms: Vec<DirectoryMatch> = Vec::new();
                ms.push(DirectoryMatch {
                    path: clone_segments(&segs),
                    depth_from_current: 0,
                    match_quality: MatchQuality::ExactDown,
                });
                let ghost m0 = mk_match(sv, 0, MatchQuality::ExactDown);
                proof {
                    assert(ms.deep_view() =~= seq![m0]);
                    lemma_resolve_reachable(*tree, sv);
                }
                let mut context = SearchContext::new();
                let adaptive_depth = get_adaptive_depth(node);
                let empty_tok = String::new();
                search_down_tree_fast(tree, node, &segs, empty_tok.as_str(), &mut ms,
                    &mut context, 1, adaptive_depth);
                let ghost input = ms.deep_view();
                let r = finalize_matches(ms);
                proof {
                    crate::finalize::lemma_finalize_props(input);
                    assert(has_path(r.deep_view(), sv)) by {
                        assert(seq![m0][0].path == sv);
                        assert(has_path(seq![m0], sv));
                        assert(has_path(input, sv));
                    }
                    assert forall|i: int| 0 <= i < r.deep_view().len() implies {
                        let m = #[trigger] r.deep_view()[i];
                        m == m0 || dfs_sound(*tree, sv, 1, lower_of(Seq::<char>::empty()), m)
                    } by {
                        let m = r.deep_view()[i];
                        assert(r.deep_view().contains(m));
                        assert(input.contains(m));
                        let j = choose|j: int| 0 <= j < input.len() && input[j] == m;
                        if j == 0 {
                            assert(input[0] == m0);
                        }
                    }
                }
                return r;
            },
            None => {
                let rooted = find_search_root_and_pattern(tree, search_term);
                let pattern = rooted.1;
                let root = match rooted.0 {
                    Some(root) => root,
                    None => {
                        proof {
                            assert(false);
                        }
                        Vec::new()
                    },
                };
                proof {
                    assert(sv.len() > 0) by {
                        if sv.len() == 0 {
                            assert(sv =~= Seq::<Seq<char>>::empty());
                        }
                    }
                    lemma_longest_exists(*tree, sv, sv.len() - 1);
                }
                let node = match lookup(tree, &root) {
                    Some(node) => node,
                    None => {
                        proof {
                            assert(false);
                        }
                        tree
                    },
                };
                let mut ms: Vec<DirectoryMatch> = Vec::new();
                proof {
                    assert(ms.deep_view() =~= Seq::<MatchSpec>::empty());
                }
                search_absolute_pattern(node, &root, pattern.as_str(), &mut ms);
                proof {
                    assert(Seq::<MatchSpec>::empty()
                        + abs_walk_spec(*node, root.deep_view(), lower_of(pattern@))
                        =~= abs_walk_spec(*node, root.deep_view(), lower_of(pattern@)));
                    assert(ms.deep_view() == abs_fallback_spec(*tree, term));
                }
                return finalize_matches(ms);
            },
        }
    }
    let slashed = contains_slash(search_term);
    if slashed {
        let mut context = SearchContext::new();
        let mut ms: Vec<DirectoryMatch> = Vec::new();
        proof {
            assert(ms.deep_view() =~= Seq::<MatchSpec>::empty());
        }
        search_path_pattern_fast(tree, current_dir, search_term, &mut ms, &mut context);
        if ms.len() > 0 {
            let ghost pre = ms.deep_view();
            let r = finalize_matches(ms);
            proof {
                crate::finalize::lemma_finalize_props(pre);
                assert forall|i: int| 0 <= i < r.deep_view().len()
                    implies path_pattern_sound(*tree, cur, term,
                        #[trigger] r.deep_view()[i]) by {
                    let m = r.deep_view()[i];
                    assert(r.deep_view().contains(m));
                    let j = choose|j: int| 0 <= j < pre.len() && pre[j] == m;
                }
            }
            return r;
        }
    }
    let mut all = search_up_tree_with_priority(current_dir, search_term);
    let ghost up_v = all.deep_view();
    match lookup(tree, current_dir) {
        Some(node) => {
            let down = search_down_breadth_first_all(node, current_dir, search_term);
            let ghost down_v = down.deep_view();
            let mut k: usize = 0;
            let dn = down.len();
            proof {
                assert(all.deep_view() =~= up_v + down_v.take(0));
            }
            while k < dn
                invariant
                    k <= dn,
                    dn == down@.len(),
                    down_v == down.deep_view(),
                    all.deep_view() == up_v + down_v.take(k as int),
                decreases dn - k,
            {
                let ghost before = all.deep_view();
                let m = clone_match(&down[k]);
                proof {
                    assert(m@ == down_v[k as int]);
                }
                all.push(m);
                proof {
                    assert(all.deep_view() =~= before.push(down_v[k as int]));
                    assert(before.push(down_v[k as int]) =~= up_v + down_v.take(k as int + 1));
                }
                k = k + 1;
            }
            proof {
                assert(down_v.take(dn as int) =~= down_v);
                assert(all.deep_view() == plain_spec(*tree, cur, lower_of(term)));
            }
        },
        None => {
            proof {
                assert(up_v + Seq::<MatchSpec>::empty() =~= up_v);
                assert(all.deep_view() == plain_spec(*tree, cur, lower_of(term)));
            }
        },
    }
    finalize_matches(all)
}

} // verus!
