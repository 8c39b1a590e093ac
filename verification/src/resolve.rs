//! The path resolver: interprets navigation syntax — `.`, `..`,
//! `../foo`, chains of dot components — into a concrete starting
//! directory and a residual search token.
//!
//! Resolution always succeeds: where navigation cannot proceed (the
//! parent of the root is the root) it degrades to "no filtering". An
//! absolute token, or any ordinary token, passes through unchanged.

use vstd::prelude::*;
use vstd::string::*;
use crate::matches::clone_segments;
use crate::text::{prefix_matches_at, seq_contains_sub, split_all, split_slash,
    str_contains_sub, str_eq_chars, str_starts_with_sub};

verus! {

/// The `.` path component.
pub open spec fn is_dot(seg: Seq<char>) -> bool {
    seg =~= seq!['.']
}

/// The `..` path component.
pub open spec fn is_dotdot(seg: Seq<char>) -> bool {
    seg =~= seq!['.', '.']
}

/// The directory one level above `cur`; the root is its own parent.
pub open spec fn parent_of(cur: Seq<Seq<char>>) -> Seq<Seq<char>> {
    if cur.len() == 0 {
        cur
    } else {
        cur.drop_last()
    }
}

/// Walks the leading navigation components of a token: empty and `.`
/// components are skipped, `..` moves one level up, and the first
/// ordinary component becomes the residual search token.
pub open spec fn nav(cur: Seq<Seq<char>>, comps: Seq<Seq<char>>) -> (Seq<Seq<char>>, Seq<char>)
    decreases comps.len(),
{
    if comps.len() == 0 {
        (cur, Seq::empty())
    } else if comps[0].len() == 0 || is_dot(comps[0]) {
        nav(cur, comps.drop_first())
    } else if is_dotdot(comps[0]) {
        nav(parent_of(cur), comps.drop_first())
    } else {
        (cur, comps[0])
    }
}

/// Every character of `s` is a dot or a slash.
pub open spec fn all_dots_slashes(s: Seq<char>) -> bool {
    forall|i: int| 0 <= i < s.len() ==> s[i] == '.' || s[i] == '/'
}

/// What resolution does with a raw token: the starting directory for
/// the search and the residual token, or the token passed through
/// unchanged when it holds no leading navigation.
pub open spec fn resolve_spec(cur: Seq<Seq<char>>, term: Seq<char>) -> (Seq<Seq<char>>, Seq<char>) {
    if term.len() == 0 {
        (cur, Seq::empty())
    } else if is_dotdot(term) {
        (parent_of(cur), Seq::empty())
    } else if is_dot(term) {
        (cur, Seq::empty())
    } else if prefix_matches_at(term, seq!['.', '.', '/'], 0)
        || prefix_matches_at(term, seq!['.', '/'], 0) {
        nav(cur, split_all(term))
    } else if all_dots_slashes(term) && seq_contains_sub(term, seq!['.', '.']) {
        (nav(cur, split_all(term)).0, Seq::empty())
    } else {
        (cur, term)
    }
}

/// A `..` token resolves to the parent directory — one level above the
/// start — with no residual filtering.
pub proof fn lemma_resolve_parent(cur: Seq<Seq<char>>, term: Seq<char>)
    requires
        term =~= seq!['.', '.'],
        cur.len() > 0,
    ensures
        resolve_spec(cur, term).0 == cur.drop_last(),
        resolve_spec(cur, term).1.len() == 0,
{
}

/// Executable walk of the leading navigation components.
fn nav_exec(cur: &Vec<String>, comps: &Vec<String>) -> (r: (Vec<String>, String))
    ensures
        r.0.deep_view() == nav(cur.deep_view(), comps.deep_view()).0,
        r.1@ == nav(cur.deep_view(), comps.deep_view()).1,
{
    let mut dir = clone_segments(cur);
    let mut i: usize = 0;
    let n = comps.len();
    proof {
        assert(comps.deep_view().skip(0) =~= comps.deep_view());
    }
    loop
        invariant
            i <= n,
            n == comps@.len(),
            nav(cur.deep_view(), comps.deep_view())
                == nav(dir.deep_view(), comps.deep_view().skip(i as int)),
        decreases n - i,
    {
        if i >= n {
            proof {
                assert(comps.deep_view().skip(i as int).len() == 0);
            }
            return (dir, String::new());
        }
        let ghost rest = comps.deep_view().skip(i as int);
        proof {
            assert(rest[0] == comps.deep_view()[i as int]);
            assert(comps.deep_view()[i as int] == comps@[i as int]@);
            assert(rest.drop_first() =~= comps.deep_view().skip(i as int + 1));
        }
        let seg = &comps[i];
        if seg.as_str().is_empty() {
            i = i + 1;
        } else if str_eq_chars(seg.as_str(), ".") {
            proof {
                reveal_strlit(".");
                assert("."@ =~= seq!['.']);
                assert(is_dot(rest[0]));
            }
            i = i + 1;
        } else if str_eq_chars(seg.as_str(), "..") {
            proof {
                reveal_strlit("..");
                assert(".."@ =~= seq!['.', '.']);
                assert(is_dotdot(rest[0]));
            }
            if dir.len() > 0 {
                let ghost before = dir.deep_view();
                let _ = dir.pop();
                proof {
                    assert(dir.deep_view() =~= before.drop_last());
                    assert(dir.deep_view() == parent_of(before));
                }
            } else {
                proof {
                    assert(dir.deep_view() == parent_of(dir.deep_view()));
                }
            }
            i = i + 1;
        } else {
            proof {
                reveal_strlit(".");
                reveal_strlit("..");
                assert("."@ =~= seq!['.']);
                assert(".."@ =~= seq!['.', '.']);
                assert(rest[0].len() != 0);
                assert(!is_dot(rest[0]) && !is_dotdot(rest[0]));
                assert(nav(dir.deep_view(), rest) == (dir.deep_view(), rest[0]));
            }
            let out = seg.clone();
            return (dir, out);
        }
    }
}

/// Resolves navigation syntax at the front of a raw token into the
/// directory the search starts from and the residual search token.
/// An empty residual means no further filtering: the resolved
/// directory itself is the answer.
pub fn resolve_search_context(current_dir: &Vec<String>, search_term: &str)
    -> (r: (Vec<String>, String))
    ensures
        r.0.deep_view() == resolve_spec(current_dir.deep_view(), search_term@).0,
        r.1@ == resolve_spec(current_dir.deep_view(), search_term@).1,
{
    if search_term.is_empty() {
        return (clone_segments(current_dir), String::new());
    }
    if str_eq_chars(search_term, "..") {
        proof {
            reveal_strlit("..");
            assert(".."@ =~= seq!['.', '.']);
            assert(is_dotdot(search_term@));
        }
        let mut dir = clone_segments(current_dir);
        if dir.len() > 0 {
            let ghost before = dir.deep_view();
            let _ = dir.pop();
            proof {
                assert(dir.deep_view() =~= before.drop_last());
            }
        }
        return (dir, String::new());
    }
    proof {
        reveal_strlit("..");
        assert(".."@ =~= seq!['.', '.']);
        assert(!is_dotdot(search_term@));
    }
    if str_eq_chars(search_term, ".") {
        proof {
            reveal_strlit(".");
            assert("."@ =~= seq!['.']);
            assert(is_dot(search_term@));
        }
        return (clone_segments(current_dir), String::new());
    }
    proof {
        reveal_strlit(".");
        assert("."@ =~= seq!['.']);
        assert(!is_dot(search_term@));
    }
    let rel = str_starts_with_sub(search_term, "../") || str_starts_with_sub(search_term, "./");
    proof {
        reveal_strlit("../");
        reveal_strlit("./");
        assert("../"@ =~= seq!['.', '.', '/']);
        assert("./"@ =~= seq!['.', '/']);
    }
    if rel {
        let comps = split_slash(search_term);
        return nav_exec(current_dir, &comps);
    }
    let mut only_dots: bool = true;
    let n = search_term.unicode_len();
    let mut i: usize = 0;
    while i < n
        invariant
            i <= n,
            n == search_term@.len(),
            only_dots == forall|k: int| 0 <= k < i
                ==> search_term@[k] == '.' || search_term@[k] == '/',
        decreases n - i,
    {
        let c = search_term.get_char(i);
        if c != '.' && c != '/' {
            only_dots = false;
        }
        i = i + 1;
    }
    if only_dots && str_contains_sub(search_term, "..") {
        proof {
            reveal_strlit("..");
            assert(".."@ =~= seq!['.', '.']);
            assert(all_dots_slashes(search_term@));
            assert(seq_contains_sub(search_term@, seq!['.', '.']));
        }
        let comps = split_slash(search_term);
        let r = nav_exec(current_dir, &comps);
        return (r.0, String::new());
    }
    proof {
        reveal_strlit("..");
        assert(".."@ =~= seq!['.', '.']);
    }
    (clone_segments(current_dir), String::from_str(search_term))
}

} // verus!
