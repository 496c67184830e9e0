//! A whole tree, from its files to the answers of the queries.

use plouf_rs::failure::Failure;
use plouf_rs::index::{
    assemble, drain_usages, gather, kind_histogram, thread_count, write_stats, write_wiring,
};
use plouf_rs::model::{Node, RawEdge, ResolvedEdge};
use plouf_rs::query::{body, callers, find, load, missing, resolve, signature, uses, Graph};
use plouf_rs::statusline::graph_size;
use plouf_rs::lang;

const COMPANY: &str = "<?php\nclass Company extends Model\n{\n    public function invoices() { return $this->hasMany(Invoice::class); }\n    public function label(): string { return __('company.label'); }\n}\n";
const INVOICE: &str = "<?php\nclass Invoice extends Model\n{\n    public function company() { return $this->belongsTo(Company::class); }\n}\n";
const MIGRATION: &str = "<?php\nSchema::create('companies', function ($t) { $t->string('name'); });\n";
const TESTED: &str = "<?php\n#[CoversClass(Company::class)]\nclass CompanyTest extends TestCase\n{\n}\n";
const HELPER: &str = "<?php\nfunction helper(string $s): int\n{\n    return strlen($s);\n}\n";
const NAMED: &str = "<?php\ntrait Named { public function label() { return $this->name; } }\n";
const APP: &str = "<template><p>{{ $t('invoice.title') }}</p></template>\n<script setup lang=\"ts\">\nfunction total(): string { return t('invoice.total'); }\n</script>\n";
const ROUTER: &str = "const routes = [\n  { path: '/app', component: () => import('../App.vue') },\n];\n";
const SCRIPT: &str = "Feature: clients\nScenario: lists clients\n  open /clients\n";

fn tree() -> Vec<(&'static str, &'static str)> {
    vec![
        ("app/Models/Company.php", COMPANY),
        ("app/Models/Invoice.php", INVOICE),
        ("database/migrations/companies.php", MIGRATION),
        ("tests/CompanyTest.php", TESTED),
        ("app/helper.php", HELPER),
        ("app/Named.php", NAMED),
        ("resources/js/App.vue", APP),
        ("resources/js/router/index.ts", ROUTER),
        ("e2e/clients.bbscript", SCRIPT),
    ]
}

fn extracted() -> (Vec<Node>, Vec<RawEdge>) {
    let mut nodes = Vec::new();
    let mut edges = Vec::new();
    for (rel, code) in tree() {
        let base = rel.rsplit('/').next().unwrap();
        let ext = base.rsplit('.').next().unwrap();
        let (mut n, mut e) = plouf_rs::format::extract(rel, base, ext, code);
        nodes.append(&mut n);
        edges.append(&mut e);
    }
    (nodes, edges)
}

/// The written graph, the written translation index, and how many keys it has.
fn written() -> (String, String, usize) {
    let (nodes, edges) = extracted();
    let build = assemble(nodes, edges);
    let (text, keys) = lang::write_index(&build.usages);
    (write_wiring(&build.nodes, &build.edges), text, keys)
}

fn graph() -> Graph {
    load(&written().0).unwrap()
}

#[test]
fn a_symbol_is_found_by_a_part_of_its_name() {
    let lines = find(&graph(), "COMPANY");
    assert!(lines.contains(&"class\tapp/Models/Company.php#Company".to_string()), "{lines:?}");
    assert!(lines.contains(&"method\tapp/Models/Company.php#Company.label".to_string()), "{lines:?}");
    assert!(!lines.contains(&"table\ttable:companies".to_string())); // "companies" has no "company"
    assert!(lines.iter().all(|l| !l.starts_with("file\t")));
    assert!(find(&graph(), "definitely_not_here").is_empty());
}

#[test]
fn a_span_gives_the_signature_and_the_body() {
    let g = graph();
    let n = resolve(&g, "Company.invoices").unwrap();
    assert_eq!(signature(n, COMPANY), "public function invoices()");
    assert_eq!(body(n, COMPANY), "public function invoices() { return $this->hasMany(Invoice::class); }");
    let n = resolve(&g, "helper").unwrap();
    assert!(body(n, HELPER).contains("strlen"));
    // A whole unit has no signature line to slice.
    let n = resolve(&g, "App").unwrap();
    assert!(signature(n, "").contains("App"));
}

#[test]
fn callers_join_models_tests_and_migrations() {
    let g = graph();
    let lines = callers(&g, "Company").unwrap();
    assert!(lines.contains(&"belongsTo\tapp/Models/Invoice.php#Invoice".to_string()), "{lines:?}");
    assert!(lines.iter().any(|l| l.starts_with("covers\t")), "{lines:?}");
    assert_eq!(
        callers(&g, "table:companies").unwrap(),
        vec![
            "migrates\tdatabase/migrations/companies.php".to_string(),
            "table\tapp/Models/Company.php#Company".to_string(),
        ]
    );
    assert_eq!(
        callers(&g, "route:/clients").unwrap(),
        vec!["visits\te2e/clients.bbscript#lists clients".to_string()]
    );
    assert_eq!(
        callers(&g, "resources/js/App.vue").unwrap(),
        vec!["renders\troute:/app".to_string()]
    );
}

#[test]
fn translation_keys_live_in_the_sidecar_alone() {
    let (wiring, text, keys) = written();
    assert!(!wiring.contains("uses-lang"));
    assert!(!wiring.contains("invoice.total"));
    assert_eq!(keys, 3);
    assert_eq!(
        uses(&text, "company.label").unwrap(),
        vec!["company.label\tapp/Models/Company.php".to_string()]
    );
    // No key is `INVOICE.` exactly: those that contain it are listed.
    assert_eq!(
        uses(&text, "INVOICE.").unwrap(),
        vec![
            "invoice.title\tresources/js/App.vue".to_string(),
            "invoice.total\tresources/js/App.vue".to_string(),
        ]
    );
    assert!(uses(&text, "no.such.key.anywhere").unwrap().is_empty());
}

#[test]
fn the_index_lists_each_file_of_a_key_once_and_in_order() {
    let u = vec![
        ("b.php".to_string(), "k".to_string()),
        ("a.php".to_string(), "k".to_string()),
        ("b.php".to_string(), "k".to_string()),
        ("c.php".to_string(), "j".to_string()),
    ];
    let (text, keys) = lang::write_index(&u);
    assert_eq!(text, r#"{"j":["c.php"],"k":["a.php","b.php"]}"#);
    assert_eq!(keys, 2);
    assert_eq!(uses(&text, "k").unwrap(), vec!["k\ta.php".to_string(), "k\tb.php".to_string()]);
}

#[test]
fn the_graph_that_was_written_is_the_graph_that_is_loaded() {
    let (nodes, edges) = extracted();
    let build = assemble(nodes, edges);
    let g = load(&write_wiring(&build.nodes, &build.edges)).unwrap();
    assert_eq!(g.nodes.len(), build.nodes.len());
    for (n, m) in g.nodes.iter().zip(&build.nodes) {
        assert_eq!((&n.id, &n.name, n.kind.as_str(), &n.path), (&m.id, &m.name, m.kind, &m.path));
        assert_eq!((n.start, n.end), (m.start as usize, m.end as usize));
    }
    assert_eq!(g.edges.len(), build.edges.len());
    for (e, f) in g.edges.iter().zip(&build.edges) {
        assert_eq!((&e.source, &e.target, e.relation.as_str()), (&f.source, &f.target, f.relation));
    }
}

#[test]
fn the_text_of_a_graph() {
    let node = Node {
        id: "a\"b".to_string(),
        name: "b".to_string(),
        kind: "class",
        path: "é\n.php".to_string(),
        start: 1,
        end: u32::MAX,
    };
    let edge = ResolvedEdge { source: "a".to_string(), target: "b".to_string(), relation: "calls" };
    let text = write_wiring(&[node], &[edge]);
    assert!(text.contains(r#""id":"a\"b""#), "{text}");
    assert!(text.contains(r#""end":4294967295"#), "{text}");
    assert!(text.contains(r#""relation":"calls""#), "{text}");
    let g = load(&text).unwrap();
    assert_eq!(g.nodes[0].id, "a\"b");
    assert_eq!(g.nodes[0].path, "é\n.php");
    assert_eq!(g.nodes[0].end, 4294967295);
}

#[test]
fn nodes_of_one_id_collapse_onto_the_first() {
    let node = |id: &str, path: &str| Node {
        id: id.to_string(),
        name: id.to_string(),
        kind: "table",
        path: path.to_string(),
        start: 0,
        end: 0,
    };
    let build = assemble(vec![node("x", "1"), node("y", "2"), node("x", "3")], Vec::new());
    let kept: Vec<(&str, &str)> = build.nodes.iter().map(|n| (n.id.as_str(), n.path.as_str())).collect();
    assert_eq!(kept, vec![("x", "1"), ("y", "2")]);
}

#[test]
fn usages_are_drained_from_the_edges() {
    let edges = vec![
        RawEdge::named("a".to_string(), "uses-lang", "k".to_string()),
        RawEdge::named("a".to_string(), "table", "t".to_string()),
    ];
    let (wiring, usages) = drain_usages(edges);
    assert_eq!(usages, vec![("a".to_string(), "k".to_string())]);
    assert_eq!(wiring.len(), 1);
    assert_eq!(wiring[0].relation, "table");
}

#[test]
fn kinds_are_counted_and_ranked() {
    let node = |id: &str, kind: &'static str| Node {
        id: id.to_string(),
        name: id.to_string(),
        kind,
        path: String::new(),
        start: 0,
        end: 0,
    };
    let nodes = [node("a", "file"), node("b", "class"), node("c", "class"), node("d", "method")];
    let kinds = kind_histogram(&nodes);
    assert_eq!(kinds[0], ("class", 2));
    assert_eq!(kinds.len(), 3);
    assert!(kinds.contains(&("file", 1)) && kinds.contains(&("method", 1)));
    assert!(kind_histogram(&[]).is_empty());
}

#[test]
fn the_sizes_of_a_graph_reach_the_status_line() {
    let text = write_stats(3, 40, 50, 6, 7);
    assert_eq!(text, r#"{"files":3,"nodes":40,"edges":50,"lang_keys":6,"lang_usages":7}"#);
    assert_eq!(graph_size(Some(&text)), "plouf 40n/50e");
}

#[test]
fn the_gaps_of_a_tree() {
    assert_eq!(
        missing(&graph()),
        vec![
            "unreferenced symbols (never called/imported/extended): 10",
            "  app/Models/Company.php#Company.invoices",
            "  app/Models/Company.php#Company.label",
            "  app/Models/Invoice.php#Invoice.company",
            "  database/migrations/companies.php.{closure}",
            "  tests/CompanyTest.php#CompanyTest",
            "  app/helper.php#helper",
            "  app/Named.php#Named",
            "  app/Named.php#Named.label",
            "  resources/js/App.vue#total",
            "  e2e/clients.bbscript#lists clients",
            "unresolved edges (target not in graph): 0",
            "empty files (parsed to nothing): 1",
            "  resources/js/router/index.ts",
        ]
    );
}

#[test]
fn an_unknown_symbol_and_an_ambiguous_one_fail() {
    let g = graph();
    match resolve(&g, "definitely_not_here") {
        Err(Failure::NoSymbol(s)) => assert_eq!(s, "definitely_not_here"),
        other => panic!("{other:?}"),
    }
    // Company.label + Named.label
    match callers(&g, "label") {
        Err(Failure::Ambiguous(s, ids)) => {
            assert_eq!(s, "label");
            assert_eq!(
                ids,
                vec![
                    "app/Models/Company.php#Company.label".to_string(),
                    "app/Named.php#Named.label".to_string(),
                ]
            );
        }
        other => panic!("{other:?}"),
    }
}

#[test]
fn a_graph_that_is_no_json_fails() {
    match load("not json") {
        Err(Failure::Json(m)) => assert!(!m.is_empty()),
        other => panic!("{other:?}"),
    }
    match uses("[]", "k") {
        Err(Failure::NotAnObject) => {}
        other => panic!("{other:?}"),
    }
    match uses("{", "k") {
        Err(Failure::Json(_)) => {}
        other => panic!("{other:?}"),
    }
    // Sections that are missing are empty.
    let g = load("{}").unwrap();
    assert!(g.nodes.is_empty() && g.edges.is_empty());
}

#[test]
fn the_words_of_the_failures() {
    assert_eq!(Failure::Json("oops".to_string()).message(), "oops");
    assert_eq!(Failure::NotAnObject.message(), "lang.json: not an object");
    assert_eq!(Failure::NoSymbol("x".to_string()).message(), "no symbol matches 'x'");
    assert_eq!(
        Failure::Ambiguous("x".to_string(), vec!["a".to_string(), "b".to_string()]).message(),
        "ambiguous 'x':\n  a\n  b"
    );
    assert_eq!(Failure::NoTable("t".to_string()).message(), "no table 't'");
}

#[test]
fn each_extension_has_its_format() {
    for ext in ["php", "ts", "tsx", "mts", "cts", "js", "jsx", "mjs", "cjs", "vue", "html", "twig", "bbscript", "sql", "lang"] {
        assert!(plouf_rs::format::is_source_ext(ext), "{ext}");
        let base = format!("x.{ext}");
        let (nodes, _) = plouf_rs::format::extract(&base, &base, ext, "");
        assert_eq!((nodes[0].id.as_str(), nodes[0].kind), (base.as_str(), "file"), "{ext}");
    }
    assert!(!plouf_rs::format::is_source_ext("PHP"));
    assert!(!plouf_rs::format::is_source_ext("rs"));
    let (nodes, edges) = plouf_rs::format::extract("x.rs", "x.rs", "rs", "fn main() {}");
    assert!(nodes.is_empty() && edges.is_empty());
}

#[test]
fn a_template_is_no_php_file() {
    // A `*.blade.php` goes to Blade, though its extension is `php`.
    let code = "@include('partials.head')\n<?php class Foo {}";
    let (nodes, edges) = plouf_rs::format::extract("v/x.blade.php", "x.blade.php", "php", code);
    assert_eq!(nodes.len(), 1);
    assert!(edges.iter().any(|e| e.relation == "includes" && e.name.as_deref() == Some("partials.head")));
    let (nodes, _) = plouf_rs::format::extract("v/x.php", "x.php", "php", code);
    assert!(nodes.iter().any(|n| n.kind == "class" && n.name == "Foo"));
}

#[test]
fn ddl_and_translation_files_have_formats() {
    let (nodes, edges) =
        plouf_rs::format::extract("sql/w.sql", "w.sql", "sql", "CREATE TABLE IF NOT EXISTS llx_widget (id int);");
    assert!(nodes.iter().any(|n| n.id == "table:widget"));
    assert!(edges.iter().any(|e| e.relation == "migrates" && e.name.as_deref() == Some("widget")));
    let (_, edges) =
        plouf_rs::format::extract("langs/en_US/w.lang", "w.lang", "lang", "# comment\nWidgetTitle = Title\n");
    assert_eq!(edges.len(), 1);
    assert_eq!((edges[0].relation, edges[0].name.as_deref()), ("uses-lang", Some("WidgetTitle")));
}

#[test]
fn a_script_brings_its_routes_and_a_component_does_not() {
    let (nodes, edges) = plouf_rs::format::extract("r/index.ts", "index.ts", "ts", ROUTER);
    assert!(nodes.iter().any(|n| n.id == "route:/app"));
    assert!(edges.iter().any(|e| e.relation == "renders" && e.source == "route:/app"));
    let vue = format!("<script>{ROUTER}</script>");
    let (nodes, _) = plouf_rs::format::extract("r/X.vue", "X.vue", "vue", &vue);
    assert!(!nodes.iter().any(|n| n.kind == "route"));
    assert!(nodes.iter().any(|n| n.kind == "component" && n.name == "X"));
}

#[test]
fn a_route_leads_from_its_path_to_its_page() {
    assert_eq!(callers(&graph(), "route:/app").unwrap(), vec!["renders\tresources/js/App.vue".to_string()]);
}

#[test]
fn templates_meet_what_they_use() {
    let files = [
        ("src/Ext.php", "<?php\nclass Ext { function f() { return [new TwigFunction('getIcon', 'icon')]; } }"),
        ("t/page.twig", "{{ getIcon('x') }} {{ range(1, 2) }}"),
        ("app/ago.pipe.ts", "@Pipe({ name: 'timeAgo' })\nexport class TimeAgoPipe {}"),
        ("app/page.html", "<p>{{ at | timeAgo }} {{ at | date }}</p>"),
    ];
    let mut nodes = Vec::new();
    let mut edges = Vec::new();
    for (rel, code) in files {
        let base = rel.rsplit('/').next().unwrap();
        let ext = base.rsplit('.').next().unwrap();
        let (mut n, mut e) = plouf_rs::format::extract(rel, base, ext, code);
        nodes.append(&mut n);
        edges.append(&mut e);
    }
    let resolved = plouf_rs::resolve::resolve(&nodes, &edges);
    let users = |id: &str| -> Vec<String> {
        let mut all: Vec<_> = resolved.iter().filter(|e| e.target == id).map(|e| e.source.clone()).collect();
        all.sort();
        all
    };
    assert_eq!(users("twigfn:getIcon"), vec!["src/Ext.php", "t/page.twig"]);
    assert_eq!(users("pipe:timeAgo"), vec!["app/ago.pipe.ts#TimeAgoPipe", "app/page.html"]);
    assert!(!nodes.iter().any(|n| n.id == "pipe:date" || n.id == "twigfn:range"));
}

#[test]
fn the_setting_says_how_many_threads_read() {
    assert_eq!(thread_count(Some("1"), 8), 1);
    assert_eq!(thread_count(Some("16"), 8), 16);
    assert_eq!(thread_count(Some("+007"), 8), 7);
    // Without a positive number there is one for each core, at most four.
    assert_eq!(thread_count(None, 8), 4);
    assert_eq!(thread_count(None, 2), 2);
    for text in ["0", "", "+", "-1", " 2", "2x", "two", "99999999999999999999999999"] {
        assert_eq!(thread_count(Some(text), 3), 3, "{text}");
    }
    let most = usize::MAX.to_string();
    assert_eq!(thread_count(Some(&most), 3), usize::MAX);
    let more = format!("{most}0");
    assert_eq!(thread_count(Some(&more), 3), 3);
}

#[test]
fn the_division_of_the_files_leaves_the_graph_as_it_is() {
    let all = tree();
    let run = |files: &[(&'static str, &'static str)]| -> (Vec<Node>, Vec<RawEdge>) {
        let mut nodes = Vec::new();
        let mut edges = Vec::new();
        for (rel, code) in files {
            let base = rel.rsplit('/').next().unwrap();
            let ext = base.rsplit('.').next().unwrap();
            gather(&mut nodes, &mut edges, plouf_rs::format::extract(rel, base, ext, code));
        }
        (nodes, edges)
    };
    let (nodes, edges) = run(&all);
    assert!(nodes.len() > all.len());
    for at in 0..all.len() {
        let (mut n, mut e) = run(&all[..at]);
        gather(&mut n, &mut e, run(&all[at..]));
        let ids = |v: &[Node]| -> Vec<String> { v.iter().map(|x| x.id.clone()).collect() };
        let told = |v: &[RawEdge]| -> Vec<_> {
            v.iter().map(|x| (x.source.clone(), x.relation, x.name.clone(), x.target_id.clone())).collect()
        };
        assert_eq!(ids(&n), ids(&nodes));
        assert_eq!(told(&e), told(&edges));
    }
}
