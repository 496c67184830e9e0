//! Export-ignored paths.

use plouf_rs::gitattributes::{link, patterns};
use plouf_rs::model::{Node, RawEdge};

/// Links the export-ignored paths of one file, given which paths exist.
fn scan(source: &str, dir: &str, text: &str, present: &[&str]) -> (Vec<Node>, Vec<RawEdge>) {
    let items = patterns(dir, text);
    let exists: Vec<bool> = items.iter().map(|i| present.contains(&i.path.as_str())).collect();
    let mut nodes = Vec::new();
    let mut edges = Vec::new();
    link(source, &items, &exists, &mut nodes, &mut edges);
    (nodes, edges)
}

#[test]
fn maps_existing_paths_and_flags_stale() {
    let (nodes, edges) = scan(
        ".gitattributes",
        "",
        "# a comment\n\n/.github/ export-ignore\nkeep.txt export-ignore\ngone.txt export-ignore\nnormal.txt text\n",
        &[".github", "keep.txt"],
    );

    // One export-ignore edge per set line, all from the .gitattributes file.
    let mapped: Vec<&str> =
        edges.iter().filter(|e| e.relation == "export-ignores").filter_map(|e| e.name.as_deref()).collect();
    assert_eq!(mapped.len(), 3);
    assert!(edges.iter().filter(|e| e.relation == "export-ignores").all(|e| e.source == ".gitattributes"));
    assert!(mapped.contains(&".github") && mapped.contains(&"keep.txt") && mapped.contains(&"gone.txt"));

    // A node only for the paths that exist (the stale one stays unresolved).
    let ids: Vec<&str> = nodes.iter().map(|n| n.id.as_str()).collect();
    assert!(ids.contains(&".github") && ids.contains(&"keep.txt"));
    assert!(!ids.contains(&"gone.txt"));
    assert!(nodes.iter().all(|n| n.kind == "path"));
}

#[test]
fn honours_unset_glob_and_nested_dir() {
    // Nested file: its pattern is relative to `sub/`.
    let (inner_nodes, inner_edges) = scan("sub/.gitattributes", "sub", "a.php export-ignore\n", &["sub/a.php"]);
    // Root: a glob (recorded, never existence-checked) and an unset line.
    let (nodes, edges) = scan(".gitattributes", "", "*.dist export-ignore\nfoo -export-ignore\n", &[]);

    let mapped: Vec<&str> = inner_edges
        .iter()
        .chain(edges.iter())
        .filter(|e| e.relation == "export-ignores")
        .filter_map(|e| e.name.as_deref())
        .collect();
    assert!(mapped.contains(&"sub/a.php")); // prefixed with the nested dir
    assert!(mapped.contains(&"*.dist")); // glob kept
    assert!(!mapped.contains(&"foo")); // unset line dropped

    let ids: Vec<&str> = inner_nodes.iter().chain(nodes.iter()).map(|n| n.id.as_str()).collect();
    assert!(ids.contains(&"sub/a.php")); // existing file -> node
    assert!(ids.contains(&"*.dist")); // glob -> node (assumed to match)
}

#[test]
fn rejects_negated_uptree_and_empty_patterns() {
    let (nodes, edges) =
        scan(".gitattributes", "", "!keep export-ignore\n../escape export-ignore\n/ export-ignore\n", &[]);
    assert!(edges.is_empty() && nodes.is_empty());
}
