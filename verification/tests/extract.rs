//! The walk over a syntax tree that records containment, heritage, imports and calls.

use plouf_rs::extract::{Ctx, Ext};
use plouf_rs::model::{Node, RawEdge};
use plouf_rs::syntax;

fn extract(rel: &str, code: &str) -> (Vec<Node>, Vec<RawEdge>) {
    let program = syntax::parse(code);
    let mut ctx = Ctx::new(rel.to_string());
    ctx.push_file("f.php".to_string());
    Ext::run(&program, &mut ctx);
    (ctx.nodes, ctx.edges)
}

fn has_call(edges: &[RawEdge], name: &str, recv: Option<&str>) -> bool {
    edges
        .iter()
        .any(|e| e.relation == "calls" && e.name.as_deref() == Some(name) && e.recv_type.as_deref() == recv)
}

#[test]
fn extract_extracts_class_methods_and_heritage() {
    let code = "<?php\nclass Foo extends Bar implements Baz {\n    public function m(): int { return $this->n(); }\n    public function n(): int { return 1; }\n}";
    let (nodes, edges) = extract("a.php", code);
    assert!(nodes.iter().any(|n| n.kind == "class" && n.name == "Foo"));
    assert!(nodes.iter().any(|n| n.kind == "method" && n.name == "m"));
    assert!(edges.iter().any(|e| e.relation == "extends" && e.name.as_deref() == Some("Bar")));
    assert!(edges.iter().any(|e| e.relation == "implements" && e.name.as_deref() == Some("Baz")));
    assert!(has_call(&edges, "n", Some("Foo")));
}

#[test]
fn extract_extracts_enum_with_const_member() {
    // An enum with a const member (a shape some tree-sitter-php grammars drop).
    let code = "<?php\nenum Color: string {\n    case Red = 'r';\n    private const MAP = ['r' => 1];\n    public function label(): int { return self::MAP[$this->value] ?? 0; }\n}";
    let (nodes, _) = extract("a.php", code);
    assert!(nodes.iter().any(|n| n.kind == "enum" && n.name == "Color"));
    assert!(nodes.iter().any(|n| n.kind == "method" && n.name == "label"));
}

#[test]
fn extract_extracts_function_and_use_import() {
    let code = "<?php\nuse App\\Models\\User;\nfunction helper(): void { strlen('x'); }";
    let (nodes, edges) = extract("a.php", code);
    assert!(nodes.iter().any(|n| n.kind == "function" && n.name == "helper"));
    assert!(edges.iter().any(|e| e.relation == "imports" && e.name.as_deref() == Some("App\\Models\\User")));
}

#[test]
fn extract_binds_typed_param_for_member_call_receiver() {
    let code = "<?php\nfunction f(Foo $x): void { $x->bar(); }";
    let (_, edges) = extract("a.php", code);
    assert!(has_call(&edges, "bar", Some("Foo")));
}

#[test]
fn extract_records_byte_spans_on_symbols() {
    let code = "<?php\nfunction foo(): void {}";
    let (nodes, _) = extract("a.php", code);
    let foo = nodes.iter().find(|n| n.name == "foo").unwrap();
    assert!(foo.end > foo.start);
}
