//! Queries over the graph.

use plouf_rs::query::{
    body, callers, find, is_unit, missing, resolve, signature, source_slice, EdgeRec, Graph, NodeRec,
};

fn node(id: &str, name: &str, kind: &str, path: &str, start: usize, end: usize) -> NodeRec {
    NodeRec {
        id: id.to_string(),
        name: name.to_string(),
        kind: kind.to_string(),
        path: path.to_string(),
        start,
        end,
    }
}

#[test]
fn resolves_exact_bare_ambiguous_and_missing() {
    let graph = Graph {
        nodes: vec![
            node("a.php#Foo", "Foo", "class", "a.php", 0, 0),
            node("a.php#Foo.bar", "bar", "method", "a.php", 0, 0),
            node("b.php#Foo.bar", "bar", "method", "b.php", 0, 0),
        ],
        edges: vec![],
    };
    assert_eq!(resolve(&graph, "a.php#Foo.bar").unwrap().id, "a.php#Foo.bar");
    assert_eq!(resolve(&graph, "Foo").unwrap().id, "a.php#Foo");
    assert!(resolve(&graph, "bar").is_err()); // ambiguous
    assert!(resolve(&graph, "nope").is_err()); // missing
}

#[test]
fn slices_a_symbol_span_from_source() {
    let n = node("x#foo", "foo", "function", "plouf_query_span.php", 6, 100);
    let code = "<?php function foo(): int { return 1; }";
    assert!(source_slice(&n, code).starts_with("function foo"));
}

#[test]
fn file_kind_slice_returns_whole_file() {
    let p = "plouf_query_whole.php";
    let n = node(p, "plouf_query_whole.php", "file", p, 0, 0);
    assert!(source_slice(&n, "<?php // whole-file-body").contains("whole-file-body"));
}

fn edge(source: &str, target: &str, relation: &str) -> EdgeRec {
    EdgeRec { source: source.to_string(), target: target.to_string(), relation: relation.to_string() }
}

#[test]
fn an_exact_id_wins_over_a_name() {
    let graph = Graph {
        nodes: vec![
            node("b.php#helper", "helper", "function", "b.php", 0, 0),
            node("helper", "helper", "file", "helper", 0, 0),
        ],
        edges: vec![],
    };
    // The file answers to its id alone.
    assert_eq!(resolve(&graph, "helper").unwrap().kind, "file");
    assert_eq!(resolve(&graph, "b.php#helper").unwrap().kind, "function");
}

#[test]
fn callers_are_sorted_references_without_repeats() {
    let graph = Graph {
        nodes: vec![node("a#f", "f", "function", "a", 0, 0)],
        edges: vec![
            edge("z", "a#f", "calls"),
            edge("b", "a#f", "imports"),
            edge("a", "a#f", "contains"), // no reference
            edge("c", "a#g", "calls"),    // another target
            edge("z", "a#f", "calls"),
            edge("y", "a#f", "calls"),
        ],
    };
    assert_eq!(callers(&graph, "f").unwrap(), vec!["calls\ty", "calls\tz", "imports\tb"]);
}

#[test]
fn a_search_ignores_letter_case_and_files() {
    let graph = Graph {
        nodes: vec![
            node("b.php#ZooKeeper", "ZooKeeper", "class", "b.php", 0, 0),
            node("zoo.php", "zoo.php", "file", "zoo.php", 0, 0),
            node("a.php#Zoo", "Zoo", "class", "a.php", 0, 0),
            node("c.php#Bar", "Bar", "class", "c.php", 0, 0),
        ],
        edges: vec![],
    };
    assert_eq!(find(&graph, "zOO"), vec!["class\ta.php#Zoo", "class\tb.php#ZooKeeper"]);
    assert_eq!(find(&graph, "É"), Vec::<String>::new());
}

#[test]
fn a_signature_ends_before_the_body() {
    let code = "<?php function foo(): int { return 1; } abstract function bar(); é";
    let foo = node("x#foo", "foo", "function", "x.php", 6, 39);
    assert_eq!(signature(&foo, code), "function foo(): int");
    assert_eq!(body(&foo, code), "function foo(): int { return 1; }");
    let bar = node("x#bar", "bar", "method", "x.php", 40, 64);
    assert_eq!(signature(&bar, code), "abstract function bar()");
    // A whole unit is named, and its source is not needed.
    let unit = node("X.vue#X", "X", "component", "X.vue", 0, 9);
    assert!(is_unit(&unit) && !is_unit(&foo));
    assert_eq!(signature(&unit, ""), "component X");
}

#[test]
fn a_span_of_a_component_lies_in_its_script() {
    let code = "<template>{ nothing }</template><script>function f() {}</script>";
    let n = node("X.vue#f", "f", "function", "X.vue", 0, 15);
    assert_eq!(body(&n, code), "function f() {}");
}

#[test]
fn a_span_that_splits_a_character_is_replaced() {
    let n = node("x#e", "e", "function", "x.php", 1, 2);
    assert_eq!(body(&n, "aéb"), "\u{fffd}");
    let past = node("x#e", "e", "function", "x.php", 90, 99);
    assert_eq!(body(&past, "aéb"), "");
}

#[test]
fn a_report_is_capped() {
    let nodes: Vec<NodeRec> = (0..23).map(|i| node(&format!("a#f{i}"), "f", "function", "a", 0, 0)).collect();
    let lines = missing(&Graph { nodes, edges: vec![] });
    assert_eq!(lines[0], "unreferenced symbols (never called/imported/extended): 23");
    assert_eq!(lines[1], "  a#f0");
    assert_eq!(lines[20], "  a#f19");
    assert_eq!(lines[21], "  ... and 3 more");
    assert_eq!(lines[22], "unresolved edges (target not in graph): 0");
    assert_eq!(lines[23], "empty files (parsed to nothing): 0");
}

#[test]
fn gaps_are_references_into_the_tree_that_lead_nowhere() {
    let graph = Graph {
        nodes: vec![node("a.ts", "a.ts", "file", "a.ts", 0, 0)],
        edges: vec![
            edge("a.ts", "./gone", "imports"),
            edge("a.ts", "vue", "imports"),               // a package
            edge("a.ts", "Base", "extends"),              // a class of a library
            edge("a.ts", "vendor/x/y.php", "requires"),   // a dependency
            edge("a.ts", "views/gone", "includes"),
            edge("a.ts", "a.ts", "requires"),
        ],
    };
    assert_eq!(
        missing(&graph),
        vec![
            "unreferenced symbols (never called/imported/extended): 0",
            "unresolved edges (target not in graph): 2",
            "  a.ts -> ./gone (imports)",
            "  a.ts -> views/gone (includes)",
            "empty files (parsed to nothing): 1",
            "  a.ts",
        ]
    );
}

#[test]
fn a_route_lists_the_scenarios_and_the_page() {
    let graph = Graph {
        nodes: vec![
            node("route:/clients", "/clients", "route", "router.ts", 0, 0),
            node("pages/Clients.vue", "Clients.vue", "file", "pages/Clients.vue", 0, 0),
            node("a.php#C", "C", "class", "a.php", 0, 0),
        ],
        edges: vec![
            edge("s.bbscript#sc", "route:/clients", "visits"),
            edge("route:/clients", "pages/Clients.vue", "renders"),
            edge("route:/clients", "a.php#C", "serves"),
            edge("route:/clients", "elsewhere", "mentions"), // no page
            edge("a.php#C", "pages/Clients.vue", "renders"), // of a class
        ],
    };
    assert_eq!(
        callers(&graph, "route:/clients").unwrap(),
        vec!["renders\tpages/Clients.vue", "serves\ta.php#C", "visits\ts.bbscript#sc"]
    );
    // What another node points to is not among its callers.
    assert_eq!(callers(&graph, "a.php#C").unwrap(), vec!["serves\troute:/clients"]);
}

#[test]
fn files_that_parsed_to_nothing_are_empty() {
    let file = |id: &str| node(id, id, "file", id, 0, 0);
    let graph = Graph {
        nodes: vec![
            file("t.twig"),
            file("d.sql"),
            file("m.lang"),
            file("e.php"),
            file("page.HTML"),
            file("a.json"),
            file("b.css"),
            file("c.scss"),
            file("d.sass"),
            file("e.svg"),
            file("v.blade.php"),
            file("f.php"),
            file("g.php"),
        ],
        edges: vec![edge("f.php", "f.php#f", "contains"), edge("g.php", "x", "returns")],
    };
    let lines = missing(&graph);
    let at = lines.iter().position(|l| l == "empty files (parsed to nothing): 4").unwrap();
    assert_eq!(lines[at + 1..], ["  t.twig", "  d.sql", "  m.lang", "  e.php"]);
}
