//! The snapshot of a directory tree that a search runs over, and path
//! resolution within it.
//!
//! A node holds the name of one directory and its subdirectories;
//! files play no part in the search and are not represented. A path is
//! a sequence of segment names from the root. Resolution follows, at
//! each step, the first child bearing the wanted name, as a scan of a
//! real directory would.

use vstd::prelude::*;
use crate::text::str_eq_chars;

verus! {

/// One directory of the snapshot: its name and its subdirectories.
pub struct DirTree {
    pub name: String,
    pub children: Vec<DirTree>,
}

/// Index of the first tree in `cs` named `nm`, or `-1` when none is.
pub open spec fn first_named(cs: Seq<DirTree>, nm: Seq<char>) -> int
    decreases cs.len(),
{
    if cs.len() == 0 {
        -1
    } else if cs[0].name@ == nm {
        0
    } else {
        let r = first_named(cs.drop_first(), nm);
        if r < 0 {
            -1
        } else {
            1 + r
        }
    }
}

/// What `first_named` finds: a child of that name, before which no
/// child has the name; or there is no such child at all.
pub proof fn lemma_first_named_props(cs: Seq<DirTree>, nm: Seq<char>)
    ensures
        first_named(cs, nm) >= 0 ==> {
            let i = first_named(cs, nm);
            &&& i < cs.len()
            &&& cs[i].name@ == nm
            &&& forall|k: int| 0 <= k < i ==> cs[k].name@ != nm
        },
        first_named(cs, nm) < 0 ==> forall|k: int| 0 <= k < cs.len() ==> cs[k].name@ != nm,
    decreases cs.len(),
{
    if cs.len() > 0 && cs[0].name@ != nm {
        lemma_first_named_props(cs.drop_first(), nm);
        let r = first_named(cs.drop_first(), nm);
        if r >= 0 {
            assert forall|k: int| 0 <= k < 1 + r implies cs[k].name@ != nm by {
                if k > 0 {
                    assert(cs.drop_first()[k - 1] == cs[k]);
                }
            }
        } else {
            assert forall|k: int| 0 <= k < cs.len() implies cs[k].name@ != nm by {
                if k > 0 {
                    assert(cs.drop_first()[k - 1] == cs[k]);
                }
            }
        }
    }
}

/// The directory that the path `p` denotes under `t`, following at each
/// step the first child of the wanted name, or `None` when a segment
/// does not exist.
pub open spec fn resolve_path(t: DirTree, p: Seq<Seq<char>>) -> Option<DirTree>
    decreases p.len(),
{
    if p.len() == 0 {
        Some(t)
    } else {
        let i = first_named(t.children@, p[0]);
        if i < 0 || i >= t.children@.len() {
            None
        } else {
            resolve_path(t.children@[i], p.drop_first())
        }
    }
}

/// Finds the directory that `path` denotes under `tree`, following at
/// each step the first child of the wanted name.
pub fn lookup<'a>(tree: &'a DirTree, path: &Vec<String>) -> (r: Option<&'a DirTree>)
    ensures
        match r {
            Some(n) => resolve_path(*tree, path.deep_view()) == Some(*n),
            None => resolve_path(*tree, path.deep_view()) is None,
        },
{
    let ghost whole = path.deep_view();
    let mut node: &'a DirTree = tree;
    let mut s: usize = 0;
    let n = path.len();
    proof {
        assert(whole.skip(0) =~= whole);
    }
    while s < n
        invariant
            s <= n,
            n == path@.len(),
            whole == path.deep_view(),
            resolve_path(*tree, whole) == resolve_path(*node, whole.skip(s as int)),
        decreases n - s,
    {
        let ghost rest = whole.skip(s as int);
        proof {
            assert(rest[0] == whole[s as int]);
            assert(whole[s as int] == path@[s as int]@);
            assert(rest.drop_first() =~= whole.skip(s as int + 1));
        }
        let mut k: usize = 0;
        let cn = node.children.len();
        let mut found: bool = false;
        let mut idx: usize = 0;
        while k < cn
            invariant_except_break
                k <= cn,
                cn == node.children@.len(),
                !found,
                forall|j: int| 0 <= j < k ==> node.children@[j].name@ != path@[s as int]@,
                s < n,
                n == path@.len(),
            ensures
                found ==> idx < node.children@.len()
                    && node.children@[idx as int].name@ == path@[s as int]@
                    && forall|j: int| 0 <= j < idx ==> node.children@[j].name@ != path@[s as int]@,
                !found ==> forall|j: int| 0 <= j < node.children@.len()
                    ==> node.children@[j].name@ != path@[s as int]@,
            decreases cn - k,
        {
            if str_eq_chars(node.children[k].name.as_str(), path[s].as_str()) {
                found = true;
                idx = k;
                break;
            }
            k = k + 1;
        }
        proof {
            lemma_first_named_at(node.children@, path@[s as int]@);
        }
        if !found {
            proof {
                assert(first_named(node.children@, rest[0]) == -1);
            }
            return None;
        }
        proof {
            assert(first_named(node.children@, rest[0]) == idx as int);
        }
        node = &node.children[idx];
        s = s + 1;
    }
    proof {
        assert(whole.skip(n as int) =~= Seq::<Seq<char>>::empty());
    }
    Some(node)
}

/// A scan that stops at the first child of the wanted name computes
/// `first_named`.
pub proof fn lemma_first_named_at(cs: Seq<DirTree>, nm: Seq<char>)
    ensures
        forall|i: int| 0 <= i < cs.len() && cs[i].name@ == nm
            && (forall|k: int| 0 <= k < i ==> cs[k].name@ != nm)
            ==> first_named(cs, nm) == i,
        (forall|k: int| 0 <= k < cs.len() ==> cs[k].name@ != nm) ==> first_named(cs, nm) == -1,
    decreases cs.len(),
{
    if cs.len() > 0 {
        lemma_first_named_at(cs.drop_first(), nm);
        assert forall|i: int| 0 <= i < cs.len() && cs[i].name@ == nm
            && (forall|k: int| 0 <= k < i ==> cs[k].name@ != nm)
            implies first_named(cs, nm) == i by {
            if i > 0 {
                assert(cs[0].name@ != nm);
                assert forall|k: int| 0 <= k < i - 1 implies cs.drop_first()[k].name@ != nm by {
                    assert(cs.drop_first()[k] == cs[k + 1]);
                }
                assert(cs.drop_first()[i - 1] == cs[i]);
                assert(first_named(cs.drop_first(), nm) == i - 1);
            }
        }
        if forall|k: int| 0 <= k < cs.len() ==> cs[k].name@ != nm {
            assert forall|k: int| 0 <= k < cs.drop_first().len()
                implies cs.drop_first()[k].name@ != nm by {
                assert(cs.drop_first()[k] == cs[k + 1]);
            }
        }
    }
}

/// There is a chain of children from `t` along the segment names of
/// `p` ending at `n`. Unlike [`resolve_path`], any same-named sibling
/// may be taken, so this describes every node a walk can stand on.
pub open spec fn reachable(t: DirTree, p: Seq<Seq<char>>, n: DirTree) -> bool
    decreases p.len(),
{
    if p.len() == 0 {
        n == t
    } else {
        exists|i: int| 0 <= i < t.children@.len() && t.children@[i].name@ == p[0]
            && reachable(t.children@[i], p.drop_first(), n)
    }
}

/// Some directory stands at the end of the path `p` under `t`.
pub open spec fn node_exists(t: DirTree, p: Seq<Seq<char>>) -> bool {
    exists|n: DirTree| reachable(t, p, n)
}

/// Every child of a reachable directory is reachable, one level down,
/// under the path extended by its name.
pub proof fn lemma_reachable_child(t: DirTree, p: Seq<Seq<char>>, n: DirTree, i: int)
    requires
        reachable(t, p, n),
        0 <= i < n.children@.len(),
    ensures
        reachable(t, p.push(n.children@[i].name@), n.children@[i]),
    decreases p.len(),
{
    let q = p.push(n.children@[i].name@);
    if p.len() == 0 {
        assert(q[0] == n.children@[i].name@);
        assert(q.drop_first() =~= Seq::<Seq<char>>::empty());
        assert(reachable(t.children@[i], q.drop_first(), n.children@[i]));
    } else {
        let j = choose|j: int| 0 <= j < t.children@.len() && t.children@[j].name@ == p[0]
            && reachable(t.children@[j], p.drop_first(), n);
        assert(q[0] == p[0]);
        assert(q.drop_first() =~= p.drop_first().push(n.children@[i].name@));
        lemma_reachable_child(t.children@[j], p.drop_first(), n, i);
    }
}

/// What first-child resolution finds, a walk can stand on.
pub proof fn lemma_resolve_reachable(t: DirTree, p: Seq<Seq<char>>)
    requires
        resolve_path(t, p) is Some,
    ensures
        reachable(t, p, resolve_path(t, p)->Some_0),
    decreases p.len(),
{
    if p.len() > 0 {
        let i = first_named(t.children@, p[0]);
        lemma_first_named_props(t.children@, p[0]);
        lemma_resolve_reachable(t.children@[i], p.drop_first());
    }
}

/// Depth chosen for the exhaustive downward walk of a directory, traded
/// against how wide the directory is: 4 for up to 10 children, 3 for up
/// to 30, 2 for up to 50, and 1 beyond that.
pub open spec fn adaptive_depth(n_children: int) -> int {
    if n_children <= 10 {
        4
    } else if n_children <= 30 {
        3
    } else if n_children <= 50 {
        2
    } else {
        1
    }
}

/// Sizes the exhaustive downward walk to the branching factor of the
/// start directory: wide directories are searched shallowly so that
/// total work stays roughly bounded.
pub fn get_adaptive_depth(dir: &DirTree) -> (r: usize)
    ensures
        r as int == adaptive_depth(dir.children@.len() as int),
        1 <= r <= 4,
{
    let n = dir.children.len();
    if n <= 10 {
        4
    } else if n <= 30 {
        3
    } else if n <= 50 {
        2
    } else {
        1
    }
}

} // verus!
