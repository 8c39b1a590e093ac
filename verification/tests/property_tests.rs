//! Concrete checks of the library's stated properties: ordering and
//! deduplication of finished lists, the early-stop rule of the
//! downward walk, ancestor ordering, parent navigation, and literal
//! matching of unusual characters.

use mcd::classify::{classify, classify_abs_lowered};
use mcd::finalize::finalize_matches;
use mcd::matches::DirectoryMatch;
use mcd::quality::{MatchQuality, SearchDirection};
use mcd::resolve::resolve_search_context;
use mcd::search::find_matching_directories;
use mcd::text::{lowercase, str_contains_sub, str_eq_chars, str_starts_with_sub};
use mcd::tree::{DirTree, get_adaptive_depth};
use mcd::walk_up::search_up_tree_with_priority;
use mcd::walk_down::search_down_breadth_first_all;

fn node(name: &str, children: Vec<DirTree>) -> DirTree {
    DirTree { name: name.to_string(), children }
}

fn leaf(name: &str) -> DirTree {
    node(name, Vec::new())
}

fn segments(path: &str) -> Vec<String> {
    path.split('/').filter(|s| !s.is_empty()).map(|s| s.to_string()).collect()
}

fn render(m: &DirectoryMatch) -> String {
    m.path.join("/")
}

fn mk(path: &str, depth: i32, quality: MatchQuality) -> DirectoryMatch {
    DirectoryMatch {
        path: segments(path),
        depth_from_current: depth,
        match_quality: quality,
    }
}

fn rank(q: &MatchQuality) -> u8 {
    match q {
        MatchQuality::ExactUp => 0,
        MatchQuality::PartialUp => 1,
        MatchQuality::ExactDown => 2,
        MatchQuality::PrefixDown => 3,
        MatchQuality::PartialDown => 4,
    }
}

/// The finalizer never returns two entries with the same path, and the
/// first entry recorded for a path is the one kept.
#[test]
fn test_finalize_dedup_by_path() {
    let input = vec![
        mk("a/b", 2, MatchQuality::PartialDown),
        mk("a/c", 2, MatchQuality::ExactDown),
        mk("a/b", 2, MatchQuality::PartialDown),
        mk("a/b", 2, MatchQuality::PartialDown),
    ];
    let out = finalize_matches(input);
    assert_eq!(out.len(), 2);
    for i in 0..out.len() {
        for j in (i + 1)..out.len() {
            assert_ne!(out[i].path, out[j].path);
        }
    }
    assert_eq!(render(&out[0]), "a/c");
    assert_eq!(render(&out[1]), "a/b");
}

/// Upward-tier entries precede all downward-tier entries, tiers sort
/// by priority, and within a tier depth breaks ties the right way
/// round: ancestors nearest first, children shallowest first.
#[test]
fn test_finalize_total_order() {
    let input = vec![
        mk("x/deep", 3, MatchQuality::PartialDown),
        mk("x/kid", 1, MatchQuality::ExactDown),
        mk("anc", -2, MatchQuality::ExactUp),
        mk("x/pref", 1, MatchQuality::PrefixDown),
        mk("anc/near", -1, MatchQuality::ExactUp),
        mk("x/kid2", 1, MatchQuality::PartialDown),
        mk("anc/part", -1, MatchQuality::PartialUp),
    ];
    let out = finalize_matches(input);
    let got: Vec<String> = out.iter().map(render).collect();
    assert_eq!(got, vec![
        "anc/near".to_string(),
        "anc".to_string(),
        "anc/part".to_string(),
        "x/kid".to_string(),
        "x/pref".to_string(),
        "x/kid2".to_string(),
        "x/deep".to_string(),
    ]);
    for i in 0..out.len() {
        for j in (i + 1)..out.len() {
            assert!(rank(&out[i].match_quality) <= rank(&out[j].match_quality));
        }
    }
}

/// Finalizing twice gives the same list as finalizing once.
#[test]
fn test_finalize_idempotent() {
    let input = vec![
        mk("b", 2, MatchQuality::PartialDown),
        mk("a", 1, MatchQuality::ExactDown),
        mk("b", 2, MatchQuality::PartialDown),
        mk("up", -1, MatchQuality::PartialUp),
    ];
    let once = finalize_matches(input);
    let copy: Vec<DirectoryMatch> = once
        .iter()
        .map(|m| DirectoryMatch {
            path: m.path.clone(),
            depth_from_current: m.depth_from_current,
            match_quality: m.match_quality,
        })
        .collect();
    let twice = finalize_matches(copy);
    assert_eq!(twice.len(), once.len());
    for i in 0..once.len() {
        assert_eq!(once[i].path, twice[i].path);
        assert_eq!(once[i].depth_from_current, twice[i].depth_from_current);
        assert_eq!(once[i].match_quality, twice[i].match_quality);
    }
}

/// The ancestor walk returns all exact matches before all partial
/// matches, each nearest ancestor first.
#[test]
fn test_up_walk_priority_and_order() {
    let current = segments("ab/zz/xaby/q");
    let out = search_up_tree_with_priority(&current, "ab");
    let got: Vec<(String, i32)> = out
        .iter()
        .map(|m| (render(m), m.depth_from_current))
        .collect();
    assert_eq!(got, vec![
        ("ab".to_string(), -3),
        ("ab/zz/xaby".to_string(), -1),
    ]);
    assert_eq!(out[0].match_quality, MatchQuality::ExactUp);
    assert_eq!(out[1].match_quality, MatchQuality::PartialUp);
}

/// If the immediate children contain a match, nothing deeper appears.
#[test]
fn test_down_walk_early_stop() {
    let tree = node("root", vec![
        node("alpha", vec![leaf("alpha")]),
        leaf("beta"),
    ]);
    let start = segments("root");
    let out = search_down_breadth_first_all(&tree, &start, "alpha");
    assert_eq!(out.len(), 1);
    assert_eq!(render(&out[0]), "root/alpha");
    assert_eq!(out[0].depth_from_current, 1);
}

/// With no match among the children, the walk reports the first
/// productive level, shallowest first after finalizing.
#[test]
fn test_down_walk_first_productive_level() {
    let tree = node("root", vec![
        node("one", vec![node("two", vec![leaf("hit")]), leaf("hit")]),
    ]);
    let start = segments("root");
    let out = search_down_breadth_first_all(&tree, &start, "hit");
    assert_eq!(out.len(), 1);
    assert_eq!(render(&out[0]), "root/one/hit");
    assert_eq!(out[0].depth_from_current, 2);
}

/// Searching `..` from a non-root directory returns exactly one
/// match: the parent.
#[test]
fn test_parent_navigation() {
    let tree = node("", vec![node("a", vec![node("b", vec![leaf("c")])])]);
    let current = segments("a/b");
    let (start, pattern) = resolve_search_context(&current, "..");
    assert_eq!(start, segments("a"));
    assert_eq!(pattern, "");
    let out = find_matching_directories(&tree, &start, &pattern);
    assert_eq!(out.len(), 1);
    assert_eq!(render(&out[0]), "a");
    assert_eq!(out[0].depth_from_current, 0);
    assert_eq!(out[0].match_quality, MatchQuality::ExactDown);
}

/// Searching a directory with no children yields an empty list.
#[test]
fn test_empty_children_no_error() {
    let tree = node("", vec![leaf("lonely")]);
    let current = segments("lonely");
    let out = find_matching_directories(&tree, &current, "zzz");
    assert!(out.is_empty());
}

/// A token with non-alphanumeric characters is matched literally by
/// substring comparison: the same name matches exactly, a dissimilar
/// name not at all.
#[test]
fn test_literal_special_characters() {
    assert_eq!(
        classify("weird@dir", "weird@dir", SearchDirection::Down),
        Some(MatchQuality::ExactDown)
    );
    assert_eq!(
        classify("weird@dir", "weird@dir", SearchDirection::Up),
        Some(MatchQuality::ExactUp)
    );
    assert_eq!(classify("plain", "weird@dir", SearchDirection::Down), None);
    let tree = node("", vec![leaf("weird@dir"), leaf("plain")]);
    let root: Vec<String> = Vec::new();
    let out = find_matching_directories(&tree, &root, "weird@dir");
    assert_eq!(out.len(), 1);
    assert_eq!(render(&out[0]), "weird@dir");
    assert_eq!(out[0].match_quality, MatchQuality::ExactDown);
}

/// An absolute path that exists is listed first at depth 0, then its
/// children at depth 1.
#[test]
fn test_absolute_existing_path() {
    let tree = node("", vec![node("tmp", vec![leaf("foo")]), leaf("other")]);
    let root: Vec<String> = Vec::new();
    let out = find_matching_directories(&tree, &root, "/tmp/");
    assert_eq!(out.len(), 2);
    assert_eq!(render(&out[0]), "tmp");
    assert_eq!(out[0].depth_from_current, 0);
    assert_eq!(out[0].match_quality, MatchQuality::ExactDown);
    assert_eq!(render(&out[1]), "tmp/foo");
    assert_eq!(out[1].depth_from_current, 1);
    assert_eq!(out[1].match_quality, MatchQuality::ExactDown);
}

/// Classification folds case: a name differing only in case is an
/// exact match, so the folding wrapper really folds.
#[test]
fn test_case_insensitive_exact() {
    assert_eq!(
        classify("FOO", "foo", SearchDirection::Down),
        Some(MatchQuality::ExactDown)
    );
    assert_eq!(
        classify("Documents", "docum", SearchDirection::Down),
        Some(MatchQuality::PartialDown)
    );
    let folded = lowercase("MiXeD");
    assert_eq!(folded, "mixed");
}

/// The absolute classifier orders its tiers: exact, then prefix, then
/// substring.
#[test]
fn test_absolute_tiers() {
    assert_eq!(classify_abs_lowered("doc", "doc"), Some(MatchQuality::ExactDown));
    assert_eq!(classify_abs_lowered("docs", "doc"), Some(MatchQuality::PrefixDown));
    assert_eq!(classify_abs_lowered("mydocs", "doc"), Some(MatchQuality::PartialDown));
    assert_eq!(classify_abs_lowered("other", "doc"), None);
}

/// Text primitives compare exactly, with no pattern language.
#[test]
fn test_text_primitives() {
    assert!(str_eq_chars("abc", "abc"));
    assert!(!str_eq_chars("abc", "abd"));
    assert!(str_contains_sub("abcdef", "cde"));
    assert!(!str_contains_sub("abcdef", "cdf"));
    assert!(str_contains_sub("abc", ""));
    assert!(str_starts_with_sub("abcdef", "abc"));
    assert!(!str_starts_with_sub("abcdef", "bcd"));
}

/// The adaptive depth trades width for depth.
#[test]
fn test_adaptive_depth() {
    let small = node("d", (0..3).map(|i| leaf(&format!("c{}", i))).collect());
    let medium = node("d", (0..11).map(|i| leaf(&format!("c{}", i))).collect());
    let large = node("d", (0..31).map(|i| leaf(&format!("c{}", i))).collect());
    let huge = node("d", (0..51).map(|i| leaf(&format!("c{}", i))).collect());
    assert_eq!(get_adaptive_depth(&small), 4);
    assert_eq!(get_adaptive_depth(&medium), 3);
    assert_eq!(get_adaptive_depth(&large), 2);
    assert_eq!(get_adaptive_depth(&huge), 1);
}
