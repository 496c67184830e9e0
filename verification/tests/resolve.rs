//! Edge resolution.

use plouf_rs::resolve::{class_of, resolve};
use plouf_rs::model::{Node, RawEdge};

fn node(id: &str, name: &str, kind: &'static str) -> Node {
    let path = id.split('#').next().unwrap_or(id).to_string();
    Node { id: id.to_string(), name: name.to_string(), kind, path, start: 0, end: 0 }
}

fn call_target<'a>(edges: &'a [plouf_rs::model::ResolvedEdge], source: &str) -> Option<&'a str> {
    edges.iter().find(|e| e.relation == "calls" && e.source == source).map(|e| e.target.as_str())
}

#[test]
fn class_of_extracts_class_segment() {
    assert_eq!(class_of("app/Foo.php#Foo.bar").as_deref(), Some("Foo"));
    assert_eq!(class_of("app/Foo.php#Foo").as_deref(), Some("Foo"));
    assert_eq!(class_of("app/Foo.php").as_deref(), None);
}

#[test]
fn resolves_unique_function_call_by_name() {
    let nodes = vec![
        node("a.php#Foo", "Foo", "class"),
        node("a.php#Foo.bar", "bar", "method"),
        node("b.php#baz", "baz", "function"),
    ];
    let edges = vec![RawEdge::call("a.php#Foo.bar".to_string(), "baz".to_string(), false, None)];
    let resolved = resolve(&nodes, &edges);
    assert_eq!(call_target(&resolved, "a.php#Foo.bar"), Some("b.php#baz"));
}

#[test]
fn resolves_receiver_typed_method_call() {
    let nodes = vec![
        node("a.php#Foo", "Foo", "class"),
        node("a.php#Foo.bar", "bar", "method"),
        node("a.php#Foo.qux", "qux", "method"),
    ];
    let edges =
        vec![RawEdge::call("a.php#Foo.bar".to_string(), "qux".to_string(), true, Some("Foo".to_string()))];
    let resolved = resolve(&nodes, &edges);
    assert_eq!(call_target(&resolved, "a.php#Foo.bar"), Some("a.php#Foo.qux"));
}

#[test]
fn drops_unresolved_member_call() {
    let nodes = vec![node("a.php#Foo.bar", "bar", "method")];
    let edges = vec![RawEdge::call("a.php#Foo.bar".to_string(), "unknown".to_string(), true, None)];
    let resolved = resolve(&nodes, &edges);
    assert!(resolved.iter().all(|e| e.relation != "calls"));
}

#[test]
fn resolves_laravel_scope_only_with_proof() {
    let nodes = vec![
        node("app/User.php#User", "User", "class"),
        node("app/User.php#User.scopeActive", "scopeActive", "method"),
    ];
    // ->active() on a User receiver maps to scopeActive -- the scope exists.
    let hit = vec![RawEdge::call("a.php#X.f".to_string(), "active".to_string(), true, Some("User".to_string()))];
    assert_eq!(call_target(&resolve(&nodes, &hit), "a.php#X.f"), Some("app/User.php#User.scopeActive"));
    // ->missing() has NO scopeMissing method -> dropped, never a blind rename.
    let miss = vec![RawEdge::call("a.php#X.f".to_string(), "missing".to_string(), true, Some("User".to_string()))];
    assert!(resolve(&nodes, &miss).iter().all(|e| e.relation != "calls"));
}

#[test]
fn resolves_method_through_extends_chain() {
    let nodes = vec![
        node("a.php#Child", "Child", "class"),
        node("a.php#Child.f", "f", "method"),
        node("b.php#Base", "Base", "class"),
        node("b.php#Base.m", "m", "method"),
    ];
    let edges = vec![
        RawEdge::named("a.php#Child".to_string(), "extends", "Base".to_string()),
        RawEdge::call("a.php#Child.f".to_string(), "m".to_string(), true, Some("Child".to_string())),
    ];
    let resolved = resolve(&nodes, &edges);
    assert_eq!(call_target(&resolved, "a.php#Child.f"), Some("b.php#Base.m"));
}

#[test]
fn resolves_heritage_by_unique_name() {
    let nodes = vec![node("a.php#Child", "Child", "class"), node("b.php#Base", "Base", "class")];
    let edges = vec![RawEdge::named("a.php#Child".to_string(), "extends", "Base".to_string())];
    let resolved = resolve(&nodes, &edges);
    let target = resolved.iter().find(|e| e.relation == "extends").map(|e| e.target.as_str());
    assert_eq!(target, Some("b.php#Base"));
}

#[test]
fn resolves_relative_js_import_to_file() {
    let nodes = vec![node("resources/js/a.ts", "a.ts", "file"), node("resources/js/b.ts", "b.ts", "file")];
    let edges = vec![RawEdge::named("resources/js/a.ts".to_string(), "imports", "./b".to_string())];
    let resolved = resolve(&nodes, &edges);
    let target = resolved.iter().find(|e| e.relation == "imports").map(|e| e.target.as_str());
    assert_eq!(target, Some("resources/js/b.ts"));
}

#[test]
fn resolves_js_specifier_to_ts_twin() {
    // `import './api/client.js'` hits client.ts -- the ESM/TS convention where
    // the written `.js` extension refers to the `.ts` source.
    let nodes = vec![node("resources/js/a.ts", "a.ts", "file"), node("resources/js/api/client.ts", "client.ts", "file")];
    let edges = vec![RawEdge::named("resources/js/a.ts".to_string(), "imports", "./api/client.js".to_string())];
    let r = resolve(&nodes, &edges);
    let target = r.iter().find(|e| e.relation == "imports").map(|e| e.target.as_str());
    assert_eq!(target, Some("resources/js/api/client.ts"));
}

#[test]
fn keeps_unresolved_bare_import_name() {
    let nodes = vec![node("resources/js/a.ts", "a.ts", "file")];
    let edges = vec![RawEdge::named("resources/js/a.ts".to_string(), "imports", "vue".to_string())];
    let resolved = resolve(&nodes, &edges);
    let target = resolved.iter().find(|e| e.relation == "imports").map(|e| e.target.as_str());
    assert_eq!(target, Some("vue"));
}

#[test]
fn resolves_relative_index_blade_include_and_keeps_unresolved() {
    // relative import resolving through `/index.*`
    let nodes = vec![node("a/b.ts", "b.ts", "file"), node("a/x/index.ts", "index.ts", "file")];
    let edges = vec![RawEdge::named("a/b.ts".to_string(), "imports", "./x".to_string())];
    let r = resolve(&nodes, &edges);
    assert_eq!(r.iter().find(|e| e.relation == "imports").map(|e| e.target.as_str()), Some("a/x/index.ts"));

    // a dotted Blade view resolves to its `.blade.php` file
    let nodes = vec![node("resources/views/layouts/app.blade.php", "app.blade.php", "file")];
    let edges = vec![RawEdge::named("v.blade.php".to_string(), "includes", "layouts.app".to_string())];
    let r = resolve(&nodes, &edges);
    assert_eq!(
        r.iter().find(|e| e.relation == "includes").map(|e| e.target.as_str()),
        Some("resources/views/layouts/app.blade.php")
    );

    // an unresolvable relative import keeps the raw specifier
    let nodes = vec![node("a/b.ts", "b.ts", "file")];
    let edges = vec![RawEdge::named("a/b.ts".to_string(), "imports", "./nope".to_string())];
    let r = resolve(&nodes, &edges);
    assert_eq!(r.iter().find(|e| e.relation == "imports").map(|e| e.target.as_str()), Some("./nope"));
}

#[test]
fn resolves_eloquent_relation_and_table_edges() {
    let nodes = vec![
        node("app/Invoice.php#Invoice", "Invoice", "class"),
        node("app/Company.php#Company", "Company", "class"),
        node("table:companies", "companies", "table"),
    ];
    let edges = vec![
        RawEdge::named("app/Invoice.php#Invoice".to_string(), "belongsTo", "Company".to_string()),
        RawEdge::named("app/Company.php#Company".to_string(), "table", "companies".to_string()),
        RawEdge::named("db/m.php".to_string(), "migrates", "companies".to_string()),
    ];
    let r = resolve(&nodes, &edges);
    assert!(r.iter().any(|e| e.relation == "belongsTo" && e.target == "app/Company.php#Company"));
    assert!(r.iter().any(|e| e.relation == "table" && e.target == "table:companies"));
    assert!(r.iter().any(|e| e.relation == "migrates" && e.target == "table:companies"));
}

#[test]
fn resolves_self_referential_relation_to_its_model() {
    let nodes = vec![node("app/Models/Step.php#Step", "Step", "class")];
    // `belongsTo(self::class)` on Step points back at Step.
    let edges = vec![RawEdge::named("app/Models/Step.php#Step".to_string(), "belongsTo", "self".to_string())];
    let r = resolve(&nodes, &edges);
    assert!(r.iter().any(|e| e.relation == "belongsTo" && e.target == "app/Models/Step.php#Step"));
}

#[test]
fn fqcn_use_disambiguates_short_name_collision() {
    let nodes = vec![
        node("app/Models/Address.php#Address", "Address", "class"),
        node("app/OpenApi/Schemas/Address.php#Address", "Address", "class"),
        node("app/Models/Company.php#Company", "Company", "class"),
    ];
    // The importing file's `use App\Models\Address` picks the model, not the
    // OpenAPI-schema twin, for its `belongsTo(Address::class)`.
    let edges = vec![
        // `use` imports are file-sourced; the relation is class-node-sourced.
        RawEdge::named("app/Models/Company.php".to_string(), "imports", "App\\Models\\Address".to_string()),
        RawEdge::named("app/Models/Company.php#Company".to_string(), "belongsTo", "Address".to_string()),
    ];
    let r = resolve(&nodes, &edges);
    assert!(r.iter().any(|e| e.relation == "belongsTo" && e.target == "app/Models/Address.php#Address"));

    // Same-namespace reference with NO use import: the candidate in the same
    // directory as the referencing file wins (current namespace resolved first).
    let edges3 = vec![RawEdge::named("app/Models/Contact.php#Contact".to_string(), "belongsTo", "Address".to_string())];
    let r3 = resolve(&nodes, &edges3);
    assert!(r3.iter().any(|e| e.relation == "belongsTo" && e.target == "app/Models/Address.php#Address"));

    // Neither a use nor a same-dir candidate: an ambiguous name stays raw.
    let edges2 = vec![RawEdge::named("app/x.php#X".to_string(), "belongsTo", "Address".to_string())];
    let r2 = resolve(&nodes, &edges2);
    assert!(r2.iter().any(|e| e.relation == "belongsTo" && e.target == "Address"));
}

#[test]
fn resolves_export_ignore_to_named_path() {
    let nodes = vec![node(".github", ".github", "path")];
    let edges = vec![
        RawEdge::named(".gitattributes".to_string(), "export-ignores", ".github".to_string()),
        RawEdge::named(".gitattributes".to_string(), "export-ignores", "gone.txt".to_string()),
    ];
    let r = resolve(&nodes, &edges);
    let targets: Vec<&str> =
        r.iter().filter(|e| e.relation == "export-ignores").map(|e| e.target.as_str()).collect();
    assert!(targets.contains(&".github")); // existing path -> resolves to the node
    assert!(targets.contains(&"gone.txt")); // stale -> kept raw, so `missing` flags it
}

#[test]
fn resolves_configures_to_sniff_file_and_rule_class() {
    let nodes = vec![
        node("standard/FooSniff.php", "FooSniff.php", "file"),
        node("standard/BarRule.php#BarRule", "BarRule", "class"),
    ];
    let edges = vec![
        // a phpcs sniff ref (an in-repo path) and a phpstan rule class (by name)
        RawEdge::named("phpcs.xml".to_string(), "configures", "standard/FooSniff.php".to_string()),
        RawEdge::named("phpstan.neon".to_string(), "configures", "BarRule".to_string()),
    ];
    let r = resolve(&nodes, &edges);
    assert!(r.iter().any(|e| e.relation == "configures" && e.target == "standard/FooSniff.php"));
    assert!(r.iter().any(|e| e.relation == "configures" && e.target == "standard/BarRule.php#BarRule"));
}

#[test]
fn dedupes_identical_edges() {
    let nodes = vec![node("b.php#baz", "baz", "function")];
    let edges = vec![
        RawEdge::call("a.php".to_string(), "baz".to_string(), false, None),
        RawEdge::call("a.php".to_string(), "baz".to_string(), false, None),
    ];
    let resolved = resolve(&nodes, &edges);
    assert_eq!(resolved.iter().filter(|e| e.relation == "calls").count(), 1);
}

#[test]
fn join_relations_reach_their_node() {
    let joins = [
        ("table", "table:x"),
        ("migrates", "table:x"),
        ("uses-table", "table:x"),
        ("visits", "route:x"),
        ("checks-permission", "right:x"),
        ("raises-trigger", "trigger:x"),
        ("handles-trigger", "trigger:x"),
        ("fires-hook", "hook:x"),
        ("handles-hook", "hook:x"),
        ("declares-module", "module:x"),
        ("requires-role", "role:x"),
        ("defines-fn", "twigfn:x"),
        ("defines-pipe", "pipe:x"),
    ];
    for (relation, target) in joins {
        let resolved = resolve(&[], &[RawEdge::named("s".to_string(), relation, "x".to_string())]);
        assert_eq!(resolved.len(), 1, "{relation}");
        assert_eq!(
            (resolved[0].source.as_str(), resolved[0].target.as_str(), resolved[0].relation),
            ("s", target, relation)
        );
    }
}

#[test]
fn what_nothing_defines_is_dropped() {
    let edges = [
        RawEdge::call("s".to_string(), "nowhere".to_string(), false, None),
        RawEdge::call("s".to_string(), "nowhere".to_string(), true, Some("Nobody".to_string())),
        RawEdge::named("s".to_string(), "uses-fn", "f".to_string()),
        RawEdge::named("s".to_string(), "uses-pipe", "p".to_string()),
        RawEdge::named("s".to_string(), "uses-lang", "k".to_string()),
        RawEdge::named("s".to_string(), "unheard-of", "x".to_string()),
    ];
    assert!(resolve(&[], &edges).is_empty());
    let nodes = [node("twigfn:f", "f", "twig-function"), node("pipe:p", "p", "pipe")];
    let resolved = resolve(&nodes, &edges);
    let targets: Vec<&str> = resolved.iter().map(|e| e.target.as_str()).collect();
    assert_eq!(targets, vec!["twigfn:f", "pipe:p"]);
}

#[test]
fn the_same_edge_is_resolved_once() {
    let e = || RawEdge::named("s".to_string(), "table", "x".to_string());
    let other = RawEdge::named("s".to_string(), "migrates", "x".to_string());
    let resolved = resolve(&[], &[e(), other, e()]);
    let relations: Vec<&str> = resolved.iter().map(|e| e.relation).collect();
    assert_eq!(relations, vec!["table", "migrates"]);
}

#[test]
fn an_own_method_wins_over_an_inherited_one() {
    let nodes = [
        node("a.php#Base", "Base", "class"),
        node("a.php#Base.run", "run", "method"),
        node("a.php#Base.stop", "stop", "method"),
        node("b.php#Child", "Child", "class"),
        node("b.php#Child.run", "run", "method"),
    ];
    let edges = [
        RawEdge::named("b.php#Child".to_string(), "extends", "Base".to_string()),
        RawEdge::call("x".to_string(), "run".to_string(), true, Some("Child".to_string())),
        RawEdge::call("y".to_string(), "stop".to_string(), true, Some("Child".to_string())),
    ];
    let resolved = resolve(&nodes, &edges);
    assert_eq!(call_target(&resolved, "x"), Some("b.php#Child.run"));
    assert_eq!(call_target(&resolved, "y"), Some("a.php#Base.stop"));
}

#[test]
fn a_circle_of_base_classes_is_walked_once() {
    let nodes = [node("a.php#A", "A", "class"), node("b.php#B", "B", "class")];
    let edges = [
        RawEdge::named("a.php#A".to_string(), "extends", "B".to_string()),
        RawEdge::named("b.php#B".to_string(), "extends", "A".to_string()),
        RawEdge::call("x".to_string(), "run".to_string(), true, Some("A".to_string())),
    ];
    assert_eq!(call_target(&resolve(&nodes, &edges), "x"), None);
}

fn resolved_pairs(nodes: &[Node], edges: &[RawEdge]) -> Vec<(String, &'static str, String)> {
    resolve(nodes, edges).into_iter().map(|e| (e.source, e.relation, e.target)).collect()
}

#[test]
fn a_class_reference_reaches_its_class() {
    let nodes = vec![node("a.php#X", "X", "class")];
    for relation in ["instantiates", "uses-const", "schedules", "extends"] {
        let edges = vec![RawEdge::named("b.php".to_string(), relation, "X".to_string())];
        assert_eq!(
            resolved_pairs(&nodes, &edges),
            vec![("b.php".to_string(), relation, "a.php#X".to_string())]
        );
    }
    // A class that is not indexed keeps its name.
    let edges = vec![RawEdge::named("b.php".to_string(), "instantiates", "Y".to_string())];
    assert_eq!(
        resolved_pairs(&nodes, &edges),
        vec![("b.php".to_string(), "instantiates", "Y".to_string())]
    );
}

#[test]
fn edges_told_twice_resolve_as_if_told_once() {
    let nodes = vec![
        node("a.php#Foo", "Foo", "class"),
        node("a.php#Foo.bar", "bar", "method"),
        node("b.php#Sub", "Sub", "class"),
        node("b.php#Sub.run", "run", "method"),
    ];
    let edges = || {
        vec![
            RawEdge::named("b.php#Sub".to_string(), "extends", "Foo".to_string()),
            RawEdge::call("b.php#Sub.run".to_string(), "bar".to_string(), true, Some("Sub".to_string())),
            RawEdge::named("b.php".to_string(), "uses-table", "foos".to_string()),
        ]
    };
    let mut twice = edges();
    twice.append(&mut edges());
    let once = resolved_pairs(&nodes, &edges());
    assert_eq!(once.len(), 3);
    assert_eq!(resolved_pairs(&nodes, &twice), once);
}

#[test]
fn only_registered_functions_and_pipes_are_used() {
    let nodes = vec![
        node("twigfn:getIcon", "getIcon", "twig-function"),
        node("pipe:timeAgo", "timeAgo", "pipe"),
    ];
    let edges = vec![
        RawEdge::named("t.twig".to_string(), "uses-fn", "getIcon".to_string()),
        RawEdge::named("t.twig".to_string(), "uses-fn", "range".to_string()),
        RawEdge::named("x.html".to_string(), "uses-pipe", "timeAgo".to_string()),
        RawEdge::named("x.html".to_string(), "uses-pipe", "date".to_string()),
    ];
    assert_eq!(
        resolved_pairs(&nodes, &edges),
        vec![
            ("t.twig".to_string(), "uses-fn", "twigfn:getIcon".to_string()),
            ("x.html".to_string(), "uses-pipe", "pipe:timeAgo".to_string()),
        ]
    );
}
