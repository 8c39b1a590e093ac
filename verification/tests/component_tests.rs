//! Checks of the individual components: the resolver's navigation
//! syntax, the slash-pattern walk, the deepest-existing-ancestor
//! search, and the search budget.

use mcd::budget::SearchContext;
use mcd::matches::DirectoryMatch;
use mcd::resolve::resolve_search_context;
use mcd::search::find_matching_directories;
use mcd::tree::DirTree;
use mcd::walk_pattern::{find_search_root_and_pattern, search_path_pattern_fast};
use mcd::quality::MatchQuality;

fn node(name: &str, children: Vec<DirTree>) -> DirTree {
    DirTree { name: name.to_string(), children }
}

fn leaf(name: &str) -> DirTree {
    node(name, Vec::new())
}

fn segments(path: &str) -> Vec<String> {
    path.split('/').filter(|s| !s.is_empty()).map(|s| s.to_string()).collect()
}

fn render(m: &DirectoryMatch) -> String {
    m.path.join("/")
}

#[test]
fn test_resolve_navigation() {
    let current = segments("a/b/c");
    assert_eq!(resolve_search_context(&current, ""), (segments("a/b/c"), String::new()));
    assert_eq!(resolve_search_context(&current, "."), (segments("a/b/c"), String::new()));
    assert_eq!(resolve_search_context(&current, ".."), (segments("a/b"), String::new()));
    assert_eq!(
        resolve_search_context(&current, "../../"),
        (segments("a"), String::new())
    );
    assert_eq!(
        resolve_search_context(&current, "../foo"),
        (segments("a/b"), "foo".to_string())
    );
    assert_eq!(
        resolve_search_context(&current, "./foo"),
        (segments("a/b/c"), "foo".to_string())
    );
    assert_eq!(
        resolve_search_context(&current, "../../../../.."),
        (Vec::<String>::new(), String::new())
    );
    assert_eq!(
        resolve_search_context(&current, "plain"),
        (segments("a/b/c"), "plain".to_string())
    );
    assert_eq!(
        resolve_search_context(&current, "/abs/path"),
        (segments("a/b/c"), "/abs/path".to_string())
    );
}

#[test]
fn test_root_has_no_parent() {
    let root: Vec<String> = Vec::new();
    assert_eq!(resolve_search_context(&root, ".."), (Vec::<String>::new(), String::new()));
}

#[test]
fn test_slash_pattern_walk() {
    let tree = node("", vec![
        node("src", vec![leaf("main"), leaf("tests")]),
        leaf("docs"),
    ]);
    let root: Vec<String> = Vec::new();
    let out = find_matching_directories(&tree, &root, "src/main");
    assert!(!out.is_empty());
    assert_eq!(render(&out[0]), "src/main");
    assert_eq!(out[0].depth_from_current, 2);
    assert_eq!(out[0].match_quality, MatchQuality::ExactDown);
}

#[test]
fn test_slash_pattern_walk_appends() {
    let tree = node("", vec![node("src", vec![leaf("main")])]);
    let root: Vec<String> = Vec::new();
    let mut matches: Vec<DirectoryMatch> = Vec::new();
    let mut context = SearchContext::new();
    search_path_pattern_fast(&tree, &root, "src/main", &mut matches, &mut context);
    assert_eq!(matches.len(), 1);
    assert_eq!(render(&matches[0]), "src/main");
    assert_eq!(context.current_matches, matches.len());
}

#[test]
fn test_slash_pattern_via_ancestor_is_up_tier() {
    let tree = node("", vec![node("a", vec![leaf("b"), leaf("x")])]);
    let current = segments("a/b");
    let out = find_matching_directories(&tree, &current, "a/x");
    assert_eq!(out.len(), 1);
    assert_eq!(render(&out[0]), "a/x");
    assert_eq!(out[0].depth_from_current, 0);
    assert_eq!(out[0].match_quality, MatchQuality::ExactUp);
}

#[test]
fn test_deepest_existing_ancestor() {
    let tree = node("", vec![node("a", vec![node("b", vec![leaf("c")])])]);
    let (root, pattern) = find_search_root_and_pattern(&tree, "/a/b/x/y");
    assert_eq!(root, Some(segments("a/b")));
    assert_eq!(pattern, "x");
    let (root2, pattern2) = find_search_root_and_pattern(&tree, "/nope");
    assert_eq!(root2, Some(Vec::<String>::new()));
    assert_eq!(pattern2, "nope");
}

#[test]
fn test_absolute_missing_path_prefix_search() {
    let tree = node("", vec![node("home", vec![leaf("docs"), leaf("docked"), leaf("mydoc")])]);
    let root: Vec<String> = Vec::new();
    let out = find_matching_directories(&tree, &root, "/home/doc");
    let got: Vec<(String, MatchQuality)> = out
        .iter()
        .map(|m| (render(m), m.match_quality))
        .collect();
    assert_eq!(got, vec![
        ("home/docked".to_string(), MatchQuality::PrefixDown),
        ("home/docs".to_string(), MatchQuality::PrefixDown),
        ("home/mydoc".to_string(), MatchQuality::PartialDown),
    ]);
}

#[test]
fn test_budget_match_ceiling() {
    let mut context = SearchContext::new();
    assert_eq!(context.current_matches, 0);
    assert_eq!(context.max_matches, 20);
    assert_eq!(context.max_time, 500);
    for _ in 0..20 {
        context.add_match();
    }
    assert_eq!(context.current_matches, 20);
    assert!(!context.should_continue());
}
