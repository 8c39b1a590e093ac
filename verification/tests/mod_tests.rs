//! Shell-integration scenarios: command-line expansion and
//! trailing-slash completion, including a directory whose name holds
//! characters outside the alphanumeric range.

use mcd::matches::DirectoryMatch;
use mcd::resolve::resolve_search_context;
use mcd::search::find_matching_directories;
use mcd::tree::DirTree;

fn node(name: &str, children: Vec<DirTree>) -> DirTree {
    DirTree { name: name.to_string(), children }
}

fn leaf(name: &str) -> DirTree {
    node(name, Vec::new())
}

fn segments(path: &str) -> Vec<String> {
    path.split('/').filter(|s| !s.is_empty()).map(|s| s.to_string()).collect()
}

fn render(m: &DirectoryMatch) -> String {
    m.path.join("/")
}

fn fixture() -> DirTree {
    node("", vec![
        node("foo", vec![
            node("foo1", vec![
                node("foo2", vec![
                    node("foo3a", vec![leaf("foo4")]),
                    node("foo3b", vec![leaf("foo4")]),
                ]),
            ]),
        ]),
        leaf("empty_dir"),
        node("dir_with_@_chars", vec![leaf("subdir")]),
    ])
}

fn mcd_expand(input: &str) -> String {
    let token = input.strip_prefix("mcd ").expect("a mcd command line");
    let tree = fixture();
    let current = segments("foo");
    let (start, pattern) = resolve_search_context(&current, token);
    let matches = find_matching_directories(&tree, &start, &pattern);
    render(&matches[0])
}

fn tab_complete(input: &str) -> Vec<String> {
    let token = input.strip_prefix("mcd ").expect("a mcd command line");
    let tree = fixture();
    let typed = token.trim_end_matches('/');
    let query: &str = typed.trim_end_matches(|c: char| !c.is_ascii_alphanumeric());
    let root: Vec<String> = Vec::new();
    let absolute = format!("/{}", query);
    let listed = find_matching_directories(&tree, &root, &absolute);
    let mut out: Vec<String> = listed
        .iter()
        .map(render)
        .filter(|p| p.as_str() != typed && p.as_str() != query)
        .collect();
    if out.is_empty() {
        let last = query.rsplit('/').next().unwrap_or(query);
        let candidates = find_matching_directories(&tree, &root, last);
        out = candidates
            .iter()
            .map(render)
            .filter(|p| p.as_str() != typed)
            .collect();
    }
    out
}

#[test]
fn mod_test_mcd_expansion() {
    let input = "mcd 4";
    let expected = "foo/foo1/foo2/foo3a/foo4";
    let result = mcd_expand(input);
    assert_eq!(result, expected);
}

#[test]
fn mod_test_tab_completion() {
    let input = "mcd foo/foo1/foo2/foo3a/foo4/";
    let expected_options = vec!["foo/foo1/foo2/foo3b/foo4"];
    let result = tab_complete(input);
    assert_eq!(result, expected_options);
}

#[test]
fn mod_test_empty_directory() {
    let input = "mcd empty_dir/";
    let expected: Vec<String> = vec![];
    let result = tab_complete(input);
    assert_eq!(result, expected);
}

#[test]
fn mod_test_unexpected_characters() {
    let input = "mcd dir_with_@_chars/";
    let expected_options = vec!["dir_with_@_chars/subdir"];
    let result = tab_complete(input);
    assert_eq!(result, expected_options);
}
