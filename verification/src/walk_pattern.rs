//! The bounded walks that serve slash-separated and absolute tokens:
//! an exhaustive depth-first walk of a known-good directory, a
//! depth-first pattern walk that chases one sub-pattern after another,
//! and the search for the deepest existing ancestor of an absolute
//! path.
//!
//! These walks consult the search budget, and the clock is outside the
//! model, so their contracts are soundness contracts: every match they
//! record points at a directory a walk can stand on, carries the right
//! depth for its path, and bears a quality its name earns against the
//! sub-pattern it was matched with.

use vstd::prelude::*;
use vstd::string::*;
use crate::budget::{SearchContext, budget_advanced, lemma_budget_advanced_trans};
use crate::classify::classify_lowered;
use crate::matches::{DirectoryMatch, MatchSpec, clone_segments};
use crate::quality::{MatchQuality, SearchDirection};
use crate::text::{lower_of, lowercase, seq_contains_sub, split_all, split_slash,
    str_contains_sub, str_eq_chars};
use crate::tree::{DirTree, lemma_reachable_child, lemma_resolve_reachable, lookup, node_exists,
    reachable, resolve_path};
use crate::walk_down::classify_level;
use crate::walk_up::mk_match;

verus! {

/// The list `b` begins with the list `a`: nothing already recorded is
/// disturbed.
pub open spec fn extends(a: Seq<MatchSpec>, b: Seq<MatchSpec>) -> bool {
    &&& a.len() <= b.len()
    &&& forall|i: int| 0 <= i < a.len() ==> b[i] == a[i]
}

/// Soundness of one match of the exhaustive walk started `depth`
/// levels below the directory at `node_path`: its directory can be
/// stood on, its depth agrees with its path, and its name earns its
/// quality against the token.
pub open spec fn dfs_sound(
    tree: DirTree,
    node_path: Seq<Seq<char>>,
    depth: int,
    tok_l: Seq<char>,
    m: MatchSpec,
) -> bool {
    &&& node_exists(tree, m.path)
    &&& m.path.len() > 0
    &&& m.depth >= depth
    &&& m.path.len() == node_path.len() + 1 + m.depth - depth
    &&& classify_level(lower_of(m.path.last()), tok_l, false) == Some(m.quality)
}

/// The name-versus-pattern part of a pattern-walk match: the exact
/// tiers exactly when the folded name equals the folded pattern, the
/// partial tiers exactly when it only contains it; the upward variant
/// exactly when the match lies at or above the start (depth at most
/// zero); the prefix tier is never produced here.
pub open spec fn pattern_name_ok(m: MatchSpec, pat_l: Seq<char>) -> bool {
    &&& (crate::quality::is_up_tier(m.quality) <==> m.depth <= 0)
    &&& match m.quality {
        MatchQuality::ExactUp | MatchQuality::ExactDown => lower_of(m.path.last()) == pat_l,
        MatchQuality::PartialUp | MatchQuality::PartialDown => seq_contains_sub(
            lower_of(m.path.last()), pat_l) && lower_of(m.path.last()) != pat_l,
        MatchQuality::PrefixDown => false,
    }
}

/// Soundness of one match of the recursive pattern walk anchored at
/// `node_path` with relative depth `base_depth`.
pub open spec fn pattern_sound(
    tree: DirTree,
    node_path: Seq<Seq<char>>,
    base_depth: int,
    pat_l: Seq<char>,
    m: MatchSpec,
) -> bool {
    &&& node_exists(tree, m.path)
    &&& m.path.len() > 0
    &&& node_path.is_prefix_of(m.path)
    &&& m.depth - base_depth == m.path.len() - node_path.len()
    &&& pattern_name_ok(m, pat_l)
}

/// The sub-patterns `parts[j..]` are matched, in order, along the
/// relative path `rel` — each matched segment's folded name containing
/// the folded sub-pattern, with unmatched segments allowed in between
/// where the walk descended regardless — and the last sub-pattern is
/// matched by the last segment of `rel`.
pub open spec fn chain_ok(parts: Seq<Seq<char>>, j: int, rel: Seq<Seq<char>>) -> bool
    decreases rel.len(),
{
    if rel.len() == 0 {
        false
    } else if rel.len() == 1 {
        j == parts.len() - 1 && seq_contains_sub(lower_of(rel[0]), lower_of(parts[j]))
    } else {
        (j + 1 < parts.len() && seq_contains_sub(lower_of(rel[0]), lower_of(parts[j]))
            && chain_ok(parts, j + 1, rel.drop_first()))
        || chain_ok(parts, j, rel.drop_first())
    }
}

/// Prefixes chain.
proof fn lemma_prefix_trans(a: Seq<Seq<char>>, b: Seq<Seq<char>>, c: Seq<Seq<char>>)
    requires
        a.is_prefix_of(b),
        b.is_prefix_of(c),
    ensures
        a.is_prefix_of(c),
{
    assert(a =~= c.subrange(0, a.len() as int));
}

/// Exhaustive depth-first walk below `node`, which stands at
/// `node_path`, `depth` levels below the directory the walk was
/// started for. Every subdirectory within `max_depth` levels is
/// visited and classified — exactly where the token is empty, by
/// substring otherwise — while the time budget lasts. The match-count
/// ceiling is deliberately not consulted: this walk lists a directory
/// the user named exactly, where finding every match within reach
/// outweighs the ceiling that caps the fuzzy walks; the count is still
/// kept, so the ceiling binds whatever traversal follows.
pub fn search_down_tree_fast(
    tree: &DirTree,
    node: &DirTree,
    node_path: &Vec<String>,
    search_term: &str,
    matches: &mut Vec<DirectoryMatch>,
    context: &mut SearchContext,
    depth: usize,
    max_depth: usize,
)
    requires
        reachable(*tree, node_path.deep_view(), *node),
        1 <= depth,
        max_depth < 0x8000_0000,
    ensures
        extends(old(matches).deep_view(), final(matches).deep_view()),
        budget_advanced(*old(context), *final(context),
            final(matches)@.len() - old(matches)@.len()),
        depth > max_depth ==> *final(matches) == *old(matches)
            && *final(context) == *old(context),
        forall|i: int| old(matches)@.len() <= i < final(matches)@.len()
            ==> {
                let m = #[trigger] final(matches).deep_view()[i];
                &&& dfs_sound(*tree, node_path.deep_view(), depth as int,
                    lower_of(search_term@), m)
                &&& m.depth <= max_depth
            },
    decreases max_depth - depth,
{
    if depth > max_depth {
        return;
    }
    if !context.time_remaining() {
        return;
    }
    let ghost base = matches.deep_view();
    let ghost npv = node_path.deep_view();
    let ghost ctx0 = *context;
    let tok_l = lowercase(search_term);
    let n = node.children.len();
    let mut k: usize = 0;
    while k < n
        invariant
            k <= n,
            n == node.children@.len(),
            1 <= depth <= max_depth,
            max_depth < 0x8000_0000,
            tok_l@ == lower_of(search_term@),
            npv == node_path.deep_view(),
            base == old(matches).deep_view(),
            ctx0 == *old(context),
            reachable(*tree, npv, *node),
            extends(base, matches.deep_view()),
            budget_advanced(ctx0, *context, matches.deep_view().len() - base.len()),
            forall|i: int| base.len() <= i < matches.deep_view().len()
                ==> {
                    let m = #[trigger] matches.deep_view()[i];
                    &&& dfs_sound(*tree, npv, depth as int, lower_of(search_term@), m)
                    &&& m.depth <= max_depth
                },
        decreases n - k,
    {
        let child = &node.children[k];
        let mut child_path = clone_segments(node_path);
        child_path.push(child.name.clone());
        proof {
            assert(child_path.deep_view() =~= npv.push(node.children@[k as int].name@));
            lemma_reachable_child(*tree, npv, *node, k as int);
        }
        let name_l = lowercase(child.name.as_str());
        let cls = classify_lowered(name_l.as_str(), tok_l.as_str(), SearchDirection::Down);
        if let Some(q) = cls {
            let ghost before = matches.deep_view();
            let ghost ctx_pre = *context;
            matches.push(DirectoryMatch {
                path: clone_segments(&child_path),
                depth_from_current: depth as i32,
                match_quality: q,
            });
            context.add_match();
            proof {
                let m = mk_match(npv.push(node.children@[k as int].name@), depth as int, q);
                assert(matches.deep_view() =~= before.push(m));
                assert(m.path.last() == node.children@[k as int].name@);
                assert(node_exists(*tree, m.path));
                assert(dfs_sound(*tree, npv, depth as int, lower_of(search_term@), m));
                lemma_budget_advanced_trans(ctx0, ctx_pre, *context,
                    before.len() - base.len(), 1);
            }
        }
        if depth < max_depth {
            if context.time_remaining() {
                let ghost before = matches.deep_view();
                let ghost ctx_pre = *context;
                search_down_tree_fast(tree, child, &child_path, search_term, matches, context,
                    depth + 1, max_depth);
                proof {
                    lemma_budget_advanced_trans(ctx0, ctx_pre, *context,
                        before.len() - base.len(),
                        matches.deep_view().len() - before.len());
                    assert forall|i: int| base.len() <= i < matches.deep_view().len()
                        implies {
                            let m = #[trigger] matches.deep_view()[i];
                            dfs_sound(*tree, npv, depth as int, lower_of(search_term@), m)
                                && m.depth <= max_depth
                        } by {
                        let m = matches.deep_view()[i];
                        if dfs_sound(*tree, child_path.deep_view(), depth as int + 1,
                            lower_of(search_term@), m) {
                            assert(child_path.deep_view().len() == npv.len() + 1);
                        }
                    }
                }
            }
        }
        k = k + 1;
    }
}

/// Recursive pattern walk: looks for the sub-pattern `parts[idx]`
/// among the descendants of `node` within `max_depth` levels. A
/// directory whose name matches the current sub-pattern either becomes
/// a match (at the last sub-pattern) or scopes the search for the next
/// sub-pattern; every directory is also descended into regardless, so
/// the pattern may be found at any depth within the budget —
/// completeness is favoured over the early-stop rule of the
/// breadth-first walk.
pub fn search_pattern_recursive_fast(
    tree: &DirTree,
    node: &DirTree,
    node_path: &Vec<String>,
    parts: &Vec<String>,
    idx: usize,
    matches: &mut Vec<DirectoryMatch>,
    context: &mut SearchContext,
    base_depth: i32,
    max_depth: usize,
)
    requires
        reachable(*tree, node_path.deep_view(), *node),
        idx < parts@.len(),
        base_depth as int + max_depth as int <= 0x7fff_ffff,
    ensures
        extends(old(matches).deep_view(), final(matches).deep_view()),
        budget_advanced(*old(context), *final(context),
            final(matches)@.len() - old(matches)@.len()),
        max_depth == 0 ==> *final(matches) == *old(matches)
            && *final(context) == *old(context),
        forall|i: int| old(matches)@.len() <= i < final(matches)@.len()
            ==> {
                let m = #[trigger] final(matches).deep_view()[i];
                &&& pattern_sound(*tree, node_path.deep_view(), base_depth as int,
                    lower_of(parts.deep_view().last()), m)
                &&& m.path.len() - node_path.deep_view().len() <= max_depth
                &&& chain_ok(parts.deep_view(), idx as int,
                    m.path.skip(node_path.deep_view().len() as int))
            },
    decreases max_depth,
{
    if max_depth == 0 {
        return;
    }
    if !context.should_continue() {
        return;
    }
    let ghost base = matches.deep_view();
    let ghost npv = node_path.deep_view();
    let ghost pv = parts.deep_view();
    let ghost patl = lower_of(parts.deep_view().last());
    let ghost ctx0 = *context;
    let pat_l = lowercase(parts[idx].as_str());
    let last = idx == parts.len() - 1;
    proof {
        if idx == parts@.len() - 1 {
            assert(parts.deep_view().last() == parts@[idx as int]@);
        }
    }
    let n = node.children.len();
    let mut k: usize = 0;
    loop
        invariant_except_break
            k <= n,
            n == node.children@.len(),
            idx < parts@.len(),
            parts@.len() <= usize::MAX,
            max_depth >= 1,
            base_depth as int + max_depth as int <= 0x7fff_ffff,
            pv == parts.deep_view(),
            pat_l@ == lower_of(pv[idx as int]),
            last == (idx == parts@.len() - 1),
            patl == lower_of(parts.deep_view().last()),
            last ==> pat_l@ == patl,
            npv == node_path.deep_view(),
            base == old(matches).deep_view(),
            ctx0 == *old(context),
            reachable(*tree, npv, *node),
            extends(base, matches.deep_view()),
            budget_advanced(ctx0, *context, matches.deep_view().len() - base.len()),
            forall|i: int| base.len() <= i < matches.deep_view().len()
                ==> {
                    let m = #[trigger] matches.deep_view()[i];
                    &&& pattern_sound(*tree, npv, base_depth as int, patl, m)
                    &&& m.path.len() - npv.len() <= max_depth
                    &&& chain_ok(pv, idx as int, m.path.skip(npv.len() as int))
                },
        ensures
            extends(base, matches.deep_view()),
            budget_advanced(ctx0, *context, matches.deep_view().len() - base.len()),
            forall|i: int| base.len() <= i < matches.deep_view().len()
                ==> {
                    let m = #[trigger] matches.deep_view()[i];
                    &&& pattern_sound(*tree, npv, base_depth as int, patl, m)
                    &&& m.path.len() - npv.len() <= max_depth
                    &&& chain_ok(pv, idx as int, m.path.skip(npv.len() as int))
                },
        decreases n - k,
    {
        if k >= n {
            break;
        }
        if !context.should_continue() {
            break;
        }
        let child = &node.children[k];
        let mut child_path = clone_segments(node_path);
        child_path.push(child.name.clone());
        proof {
            assert(child_path.deep_view() =~= npv.push(node.children@[k as int].name@));
            assert(npv.is_prefix_of(child_path.deep_view())) by {
                assert(npv =~= child_path.deep_view().subrange(0, npv.len() as int));
            }
            lemma_reachable_child(*tree, npv, *node, k as int);
        }
        let name_l = lowercase(child.name.as_str());
        if str_contains_sub(name_l.as_str(), pat_l.as_str()) {
            if last {
                let exact = str_eq_chars(name_l.as_str(), pat_l.as_str());
                let q = if exact {
                    if base_depth < 0 {
                        MatchQuality::ExactUp
                    } else {
                        MatchQuality::ExactDown
                    }
                } else {
                    if base_depth < 0 {
                        MatchQuality::PartialUp
                    } else {
                        MatchQuality::PartialDown
                    }
                };
                let ghost before = matches.deep_view();
                let ghost ctx_pre = *context;
                matches.push(DirectoryMatch {
                    path: clone_segments(&child_path),
                    depth_from_current: base_depth + 1,
                    match_quality: q,
                });
                context.add_match();
                proof {
                    let m = mk_match(npv.push(node.children@[k as int].name@),
                        base_depth as int + 1, q);
                    assert(matches.deep_view() =~= before.push(m));
                    assert(m.path.last() == node.children@[k as int].name@);
                    assert(node_exists(*tree, m.path));
                    assert(npv.is_prefix_of(m.path)) by {
                        assert(npv =~= m.path.subrange(0, npv.len() as int));
                    }
                    assert(pattern_sound(*tree, npv, base_depth as int, patl, m));
                    let rel = m.path.skip(npv.len() as int);
                    assert(rel =~= seq![node.children@[k as int].name@]);
                    assert(seq_contains_sub(lower_of(rel[0]), lower_of(pv[idx as int])));
                    assert(chain_ok(pv, idx as int, rel));
                    lemma_budget_advanced_trans(ctx0, ctx_pre, *context,
                        before.len() - base.len(), 1);
                }
            } else {
                let ghost before = matches.deep_view();
                let ghost ctx_pre = *context;
                proof {
                    assert(idx < parts@.len() - 1);
                }
                search_pattern_recursive_fast(tree, child, &child_path, parts, idx + 1,
                    matches, context, base_depth + 1, max_depth - 1);
                proof {
                    lemma_budget_advanced_trans(ctx0, ctx_pre, *context,
                        before.len() - base.len(),
                        matches.deep_view().len() - before.len());
                    let cpv = child_path.deep_view();
                    assert forall|i: int| base.len() <= i < matches.deep_view().len()
                        implies {
                            let m = #[trigger] matches.deep_view()[i];
                            &&& pattern_sound(*tree, npv, base_depth as int, patl, m)
                            &&& m.path.len() - npv.len() <= max_depth
                            &&& chain_ok(pv, idx as int, m.path.skip(npv.len() as int))
                        } by {
                        let m = matches.deep_view()[i];
                        if i >= before.len() {
                            assert(pattern_sound(*tree, cpv, base_depth as int + 1, patl, m));
                            assert(cpv.len() == npv.len() + 1);
                            lemma_prefix_trans(npv, cpv, m.path);
                            let rel = m.path.skip(npv.len() as int);
                            assert(chain_ok(pv, idx as int + 1,
                                m.path.skip(cpv.len() as int)));
                            assert(m.path.len() > cpv.len());
                            assert(cpv =~= m.path.subrange(0, cpv.len() as int));
                            assert(rel.len() >= 2);
                            assert(rel[0] == m.path[npv.len() as int]);
                            assert(m.path.subrange(0, cpv.len() as int)[npv.len() as int]
                                == m.path[npv.len() as int]);
                            assert(cpv[npv.len() as int]
                                == node.children@[k as int].name@);
                            assert(m.path[npv.len() as int]
                                == node.children@[k as int].name@);
                            assert(rel.drop_first() =~= m.path.skip(cpv.len() as int));
                            assert(seq_contains_sub(lower_of(rel[0]),
                                lower_of(pv[idx as int])));
                            assert(chain_ok(pv, idx as int, rel));
                        }
                    }
                }
            }
        }
        if context.should_continue() {
            let ghost before = matches.deep_view();
            let ghost ctx_pre = *context;
            search_pattern_recursive_fast(tree, child, &child_path, parts, idx, matches,
                context, base_depth + 1, max_depth - 1);
            proof {
                lemma_budget_advanced_trans(ctx0, ctx_pre, *context,
                    before.len() - base.len(),
                    matches.deep_view().len() - before.len());
                let cpv = child_path.deep_view();
                assert forall|i: int| base.len() <= i < matches.deep_view().len()
                    implies {
                        let m = #[trigger] matches.deep_view()[i];
                        &&& pattern_sound(*tree, npv, base_depth as int, patl, m)
                        &&& m.path.len() - npv.len() <= max_depth
                        &&& chain_ok(pv, idx as int, m.path.skip(npv.len() as int))
                    } by {
                    let m = matches.deep_view()[i];
                    if i >= before.len() {
                        assert(pattern_sound(*tree, cpv, base_depth as int + 1, patl, m));
                        assert(cpv.len() == npv.len() + 1);
                        lemma_prefix_trans(npv, cpv, m.path);
                        let rel = m.path.skip(npv.len() as int);
                        assert(chain_ok(pv, idx as int, m.path.skip(cpv.len() as int)));
                        assert(m.path.len() > cpv.len());
                        assert(rel.len() >= 2);
                        assert(rel.drop_first() =~= m.path.skip(cpv.len() as int));
                        assert(chain_ok(pv, idx as int, rel));
                    }
                }
            }
        }
        k = k + 1;
    }
}

/// Soundness of one match of the slash-pattern walk from `cur` for
/// the token `term`: its name earns its quality against the last
/// sub-pattern, its depth agrees with its path, and it was reached
/// through a chain matching the sub-patterns in order — either among
/// the descendants of `cur`, or from one of its ancestors whose own
/// name matched the first sub-pattern (the ancestor itself being the
/// match when there is only one sub-pattern).
pub open spec fn path_pattern_sound(
    tree: DirTree,
    cur: Seq<Seq<char>>,
    term: Seq<char>,
    m: MatchSpec,
) -> bool {
    let parts = split_all(term);
    &&& m.path.len() > 0
    &&& m.depth == m.path.len() - cur.len()
    &&& pattern_name_ok(m, lower_of(parts.last()))
    &&& ((cur.is_prefix_of(m.path) && node_exists(tree, m.path)
            && chain_ok(parts, 0, m.path.skip(cur.len() as int)))
        || (exists|q: int|
            #![trigger cur.take(q)]
            1 <= q < cur.len()
                && seq_contains_sub(lower_of(cur[q - 1]), lower_of(parts[0]))
                && if parts.len() == 1 {
                    m.path == cur.take(q)
                } else {
                    cur.take(q).is_prefix_of(m.path) && node_exists(tree, m.path)
                        && chain_ok(parts, 1, m.path.skip(q))
                }))
}

/// Pattern walk for a slash-separated token: splits the token into
/// sub-patterns, chases them downward from the current directory, and
/// also tries the first sub-pattern against up to ten ancestors,
/// scoping the rest of the chain to any ancestor that matches. All
/// within the search budget.
pub fn search_path_pattern_fast(
    tree: &DirTree,
    current_dir: &Vec<String>,
    search_term: &str,
    matches: &mut Vec<DirectoryMatch>,
    context: &mut SearchContext,
)
    requires
        current_dir@.len() < 0x8000_0000,
    ensures
        extends(old(matches).deep_view(), final(matches).deep_view()),
        budget_advanced(*old(context), *final(context),
            final(matches)@.len() - old(matches)@.len()),
        forall|i: int| old(matches)@.len() <= i < final(matches)@.len()
            ==> path_pattern_sound(*tree, current_dir.deep_view(), search_term@,
                #[trigger] final(matches).deep_view()[i]),
{
    let ghost base = matches.deep_view();
    let ghost cur = current_dir.deep_view();
    let ghost tv = search_term@;
    let ghost patl = lower_of(split_all(search_term@).last());
    let ghost ctx0 = *context;
    let parts = split_slash(search_term);
    if !context.should_continue() {
        return;
    }
    let n = current_dir.len();
    match lookup(tree, current_dir) {
        Some(node) => {
            proof {
                lemma_resolve_reachable(*tree, cur);
            }
            let ghost ctx_pre = *context;
            search_pattern_recursive_fast(tree, node, current_dir, &parts, 0, matches,
                context, 0, 3);
            proof {
                lemma_budget_advanced_trans(ctx0, ctx_pre, *context, 0,
                    matches.deep_view().len() - base.len());
                assert forall|i: int| base.len() <= i < matches.deep_view().len()
                    implies path_pattern_sound(*tree, cur, tv,
                        #[trigger] matches.deep_view()[i]) by {
                    let m = matches.deep_view()[i];
                    assert(pattern_sound(*tree, cur, 0, patl, m));
                    assert(chain_ok(split_all(tv), 0, m.path.skip(cur.len() as int)));
                }
            }
        },
        None => {},
    }
    let mut pref = clone_segments(current_dir);
    let mut p: usize = n;
    let mut up_count: usize = 0;
    loop
        invariant_except_break
            1 <= p || n == 0,
            p <= n,
            n == current_dir@.len(),
            n < 0x8000_0000,
            cur == current_dir.deep_view(),
            tv == search_term@,
            patl == lower_of(split_all(search_term@).last()),
            ctx0 == *old(context),
            parts.deep_view() == split_all(search_term@),
            parts@.len() >= 1,
            pref.deep_view() == cur.take(p as int),
            pref@.len() == p,
            extends(base, matches.deep_view()),
            base == old(matches).deep_view(),
            budget_advanced(ctx0, *context, matches.deep_view().len() - base.len()),
            forall|i: int| base.len() <= i < matches.deep_view().len()
                ==> path_pattern_sound(*tree, cur, tv, #[trigger] matches.deep_view()[i]),
        ensures
            extends(base, matches.deep_view()),
            budget_advanced(ctx0, *context, matches.deep_view().len() - base.len()),
            forall|i: int| base.len() <= i < matches.deep_view().len()
                ==> path_pattern_sound(*tree, cur, tv, #[trigger] matches.deep_view()[i]),
        decreases p,
    {
        if n == 0 || p <= 1 {
            break;
        }
        if up_count >= 10 {
            break;
        }
        if !context.should_continue() {
            break;
        }
        let ghost before_pop = pref.deep_view();
        let _ = pref.pop();
        let q: usize = p - 1;
        proof {
            assert(pref.deep_view() =~= before_pop.drop_last());
            assert(pref.deep_view() =~= cur.take(q as int));
            assert(pref.deep_view()[q - 1] == cur[q - 1]);
            assert(pref@[q - 1]@ == cur[q - 1]);
        }
        let name_l = lowercase(pref[q - 1].as_str());
        let pat0_l = lowercase(parts[0].as_str());
        proof {
            assert(parts.deep_view()[0] == parts@[0]@);
            assert(pat0_l@ == lower_of(split_all(tv)[0]));
        }
        if str_contains_sub(name_l.as_str(), pat0_l.as_str()) {
            if parts.len() == 1 {
                let exact = str_eq_chars(name_l.as_str(), pat0_l.as_str());
                let quality = if exact {
                    MatchQuality::ExactUp
                } else {
                    MatchQuality::PartialUp
                };
                let depth: i32 = 0 - ((n - q) as i32);
                let ghost before = matches.deep_view();
                let ghost ctx_pre = *context;
                matches.push(DirectoryMatch {
                    path: clone_segments(&pref),
                    depth_from_current: depth,
                    match_quality: quality,
                });
                context.add_match();
                proof {
                    lemma_budget_advanced_trans(ctx0, ctx_pre, *context,
                        before.len() - base.len(), 1);
                    let m = mk_match(cur.take(q as int), q - cur.len(), quality);
                    assert(matches.deep_view() =~= before.push(m));
                    assert(split_all(tv).last() == split_all(tv)[0]);
                    assert(m.path.last() == cur[q - 1]);
                    assert(pattern_name_ok(m, patl));
                    assert(path_pattern_sound(*tree, cur, tv, m));
                }
            } else {
                match lookup(tree, &pref) {
                    Some(pnode) => {
                        proof {
                            lemma_resolve_reachable(*tree, cur.take(q as int));
                        }
                        let depth: i32 = 0 - ((n - q) as i32);
                        let ghost before = matches.deep_view();
                        let ghost ctx_pre = *context;
                        search_pattern_recursive_fast(tree, pnode, &pref, &parts, 1, matches,
                            context, depth, 3);
                        proof {
                            lemma_budget_advanced_trans(ctx0, ctx_pre, *context,
                                before.len() - base.len(),
                                matches.deep_view().len() - before.len());
                            assert forall|i: int| base.len() <= i < matches.deep_view().len()
                                implies path_pattern_sound(*tree, cur, tv,
                                    #[trigger] matches.deep_view()[i]) by {
                                let m = matches.deep_view()[i];
                                if i >= before.len() {
                                    assert(pattern_sound(*tree, cur.take(q as int),
                                        q - cur.len(), patl, m));
                                    assert(cur.take(q as int).len() == q);
                                    assert(chain_ok(split_all(tv), 1,
                                        m.path.skip(q as int)));
                                    assert(path_pattern_sound(*tree, cur, tv, m));
                                }
                            }
                        }
                    },
                    None => {},
                }
            }
        }
        p = q;
        up_count = up_count + 1;
    }
}

/// Keeps the non-empty segments of a split token: the path segments an
/// absolute token names.
pub open spec fn keep_nonempty(ss: Seq<Seq<char>>) -> Seq<Seq<char>>
    decreases ss.len(),
{
    if ss.len() == 0 {
        Seq::empty()
    } else {
        let pre = keep_nonempty(ss.drop_last());
        if ss.last().len() > 0 {
            pre.push(ss.last())
        } else {
            pre
        }
    }
}

/// The path segments an absolute (or any) token names, in order,
/// empty segments dropped.
pub open spec fn abs_segments(term: Seq<char>) -> Seq<Seq<char>> {
    keep_nonempty(split_all(term))
}

/// Splits a token at `/` and keeps its non-empty segments.
pub fn split_segments(term: &str) -> (r: Vec<String>)
    ensures
        r.deep_view() == abs_segments(term@),
{
    let raw = split_slash(term);
    let mut out: Vec<String> = Vec::new();
    let mut i: usize = 0;
    let n = raw.len();
    proof {
        assert(raw.deep_view().take(0) =~= Seq::<Seq<char>>::empty());
        assert(keep_nonempty(raw.deep_view().take(0)) =~= Seq::<Seq<char>>::empty());
        assert(out.deep_view() =~= Seq::<Seq<char>>::empty());
    }
    while i < n
        invariant
            i <= n,
            n == raw@.len(),
            out.deep_view() == keep_nonempty(raw.deep_view().take(i as int)),
        decreases n - i,
    {
        let ghost tv = raw.deep_view().take(i as int + 1);
        proof {
            assert(tv.drop_last() =~= raw.deep_view().take(i as int));
            assert(tv.last() == raw.deep_view()[i as int]);
            assert(raw.deep_view()[i as int] == raw@[i as int]@);
        }
        if !raw[i].as_str().is_empty() {
            let ghost before = out.deep_view();
            out.push(raw[i].clone());
            proof {
                assert(out.deep_view() =~= before.push(raw@[i as int]@));
            }
        }
        i = i + 1;
    }
    proof {
        assert(raw.deep_view().take(n as int) =~= raw.deep_view());
    }
    out
}

/// The longest prefix of `segs`, no longer than `k`, that names an
/// existing directory under `tree`; the root (the empty prefix) always
/// exists.
pub open spec fn longest_existing(tree: DirTree, segs: Seq<Seq<char>>, k: int) -> int
    decreases k,
{
    if k <= 0 {
        0
    } else if resolve_path(tree, segs.take(k)) is Some {
        k
    } else {
        longest_existing(tree, segs, k - 1)
    }
}

/// Walks up the requested absolute path to find the deepest existing
/// ancestor; the search pattern is the first segment that does not
/// exist under it. The root always exists, so an ancestor is always
/// found.
pub fn find_search_root_and_pattern(tree: &DirTree, search_term: &str)
    -> (r: (Option<Vec<String>>, String))
    ensures
        r.0 is Some,
        abs_segments(search_term@).len() == 0 ==> {
            &&& r.0->Some_0.deep_view() == Seq::<Seq<char>>::empty()
            &&& r.1@ == Seq::<char>::empty()
        },
        abs_segments(search_term@).len() > 0 ==> {
            let segs = abs_segments(search_term@);
            let k = longest_existing(*tree, segs, segs.len() - 1);
            &&& r.0->Some_0.deep_view() == segs.take(k)
            &&& r.1@ == segs[k]
        },
{
    let segs = split_segments(search_term);
    let ghost sv = segs.deep_view();
    if segs.len() == 0 {
        let empty_path: Vec<String> = Vec::new();
        let empty_tok = String::new();
        proof {
            assert(empty_path.deep_view() =~= Seq::<Seq<char>>::empty());
            assert(empty_tok@ =~= Seq::<char>::empty());
        }
        return (Some(empty_path), empty_tok);
    }
    let mut pref = clone_segments(&segs);
    let ghost before_pop = pref.deep_view();
    let _ = pref.pop();
    let mut k: usize = segs.len() - 1;
    proof {
        assert(pref.deep_view() =~= before_pop.drop_last());
        assert(pref.deep_view() =~= sv.take(k as int));
    }
    loop
        invariant_except_break
            k <= sv.len() - 1,
            sv == segs.deep_view(),
            sv.len() == segs@.len(),
            sv.len() >= 1,
            pref.deep_view() == sv.take(k as int),
            pref@.len() == k,
            longest_existing(*tree, sv, sv.len() - 1) == longest_existing(*tree, sv, k as int),
        ensures
            k <= sv.len() - 1,
            pref.deep_view() == sv.take(k as int),
            longest_existing(*tree, sv, sv.len() - 1) == k as int,
        decreases k,
    {
        match lookup(tree, &pref) {
            Some(_) => {
                proof {
                    if k > 0 {
                        assert(longest_existing(*tree, sv, k as int) == k as int);
                    } else {
                        assert(longest_existing(*tree, sv, 0) == 0);
                    }
                }
                break;
            },
            None => {},
        }
        proof {
            assert(k > 0) by {
                if k == 0 {
                    assert(sv.take(0) =~= Seq::<Seq<char>>::empty());
                    assert(resolve_path(*tree, pref.deep_view()) is Some);
                }
            }
        }
        let ghost bp = pref.deep_view();
        let _ = pref.pop();
        k = k - 1;
        proof {
            assert(pref.deep_view() =~= bp.drop_last());
            assert(pref.deep_view() =~= sv.take(k as int));
        }
    }
    let out = segs[k].clone();
    (Some(pref), out)
}

} // verus!
