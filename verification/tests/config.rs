//! Linter configs.

use plouf_rs::config::{scan_phpcs, scan_phpstan};
use plouf_rs::model::RawEdge;

fn targets(edges: &[RawEdge]) -> Vec<String> {
    edges.iter().filter(|e| e.relation == "configures").filter_map(|e| e.name.clone()).collect()
}

#[test]
fn phpcs_links_sniff_files_and_skips_external() {
    let xml = "<ruleset>\n  <rule ref=\"Generic.Files.LineLength\"/>\n  <rule ref=\"./coding-standard/Sniffs/Foo/BarSniff.php\"/>\n</ruleset>";
    let mut edges = Vec::new();
    scan_phpcs("phpcs.xml", "", xml, &mut edges);
    let t = targets(&edges);
    assert_eq!(t, vec!["coding-standard/Sniffs/Foo/BarSniff.php"]); // external dotted ref skipped
}

#[test]
fn join_relative_and_ref_values_edge_cases() {
    assert_eq!(plouf_rs::config::join_relative("a/b", "../c.php"), "a/c.php"); // `..` pops a dir
    assert_eq!(plouf_rs::config::join_relative("", "./x.php"), "x.php"); // root config
    // single- and double-quoted refs captured; a bare (unquoted) ref= skipped.
    let refs = plouf_rs::config::ref_values("<rule ref='a.php'/><rule ref=\"b.php\"/><x ref=nope/>");
    assert_eq!(refs, vec!["a.php", "b.php"]);
}

#[test]
fn phpstan_links_rule_classes_and_neon_includes() {
    let neon = "includes:\n    - phpstan-baseline.neon\nrules:\n    - Acme\\PHPStan\\Rules\\NoDynamicPropertyRule\n    - 'Acme\\PHPStan\\Rules\\OpenApiSyncRule'";
    let mut edges = Vec::new();
    scan_phpstan("phpstan.neon", "", neon, &mut edges);
    let t = targets(&edges);
    assert!(t.contains(&"NoDynamicPropertyRule".to_string())); // FQCN -> bare class name
    assert!(t.contains(&"OpenApiSyncRule".to_string())); // quoted FQCN too
    assert!(t.contains(&"phpstan-baseline.neon".to_string())); // include -> the neon file
}
