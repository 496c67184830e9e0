//! JS, TS and Vue files.

use plouf_rs::js::{extract, extract_vue, mend, vue_script};
use plouf_rs::model::{Node, RawEdge};

fn names<'a>(nodes: &'a [Node], kind: &str) -> Vec<&'a str> {
    nodes.iter().filter(|n| n.kind == kind).map(|n| n.name.as_str()).collect()
}

fn has_call(edges: &[RawEdge], name: &str, recv: Option<&str>) -> bool {
    edges
        .iter()
        .any(|e| e.relation == "calls" && e.name.as_deref() == Some(name) && e.recv_type.as_deref() == recv)
}

#[test]
fn extracts_class_method_function_and_heritage() {
    let code = r#"
        export class Widget extends Base implements Greeter {
            greet(): string { return this.render(); }
            render(): string { return "x"; }
        }
        export function make(): Widget { return new Widget(); }
    "#;
    let (nodes, edges) = extract("a.ts", "a.ts", code, "ts");
    assert!(names(&nodes, "class").contains(&"Widget"));
    assert!(names(&nodes, "method").contains(&"greet"));
    assert!(names(&nodes, "function").contains(&"make"));
    assert!(edges.iter().any(|e| e.relation == "extends" && e.name.as_deref() == Some("Base")));
    assert!(edges.iter().any(|e| e.relation == "implements" && e.name.as_deref() == Some("Greeter")));
    assert!(has_call(&edges, "render", Some("Widget")));
}

#[test]
fn detects_angular_component_and_selector() {
    let code = "@Component({ selector: 'app-foo', templateUrl: './foo.html' })\nexport class FooComponent { ngOnInit(): void {} }";
    let (nodes, _) = extract("src/app/foo.component.ts", "foo.component.ts", code, "ts");
    assert!(nodes.iter().any(|n| n.kind == "component" && n.name == "FooComponent"));
    assert!(nodes.iter().any(|n| n.kind == "component" && n.name == "app-foo"));
    assert!(names(&nodes, "method").contains(&"ngOnInit"));
    // A plain class stays a class.
    let (plain, _) = extract("b.ts", "b.ts", "export class Bar {}", "ts");
    assert!(names(&plain, "class").contains(&"Bar"));
}

#[test]
fn extracts_interface_and_enum() {
    let code = "export interface I extends J {} export enum Color { Red, Green }";
    let (nodes, _) = extract("a.ts", "a.ts", code, "ts");
    assert!(names(&nodes, "interface").contains(&"I"));
    assert!(names(&nodes, "enum").contains(&"Color"));
}

#[test]
fn emits_relative_import_edges() {
    let code = "import { Foo } from './foo'; import Bar from '../bar';";
    let (_, edges) = extract("a.ts", "a.ts", code, "ts");
    let imports: Vec<&str> =
        edges.iter().filter(|e| e.relation == "imports").filter_map(|e| e.name.as_deref()).collect();
    assert!(imports.contains(&"./foo"));
    assert!(imports.contains(&"../bar"));
}

#[test]
fn resolves_typed_param_receiver() {
    let code = "export function use(x: Foo): void { x.bar(); }";
    let (_, edges) = extract("a.ts", "a.ts", code, "ts");
    assert!(has_call(&edges, "bar", Some("Foo")));
}

#[test]
fn vue_script_extracts_only_the_script_block() {
    let sfc = "<template><div/></template>\n<script setup lang=\"ts\">\nfunction handle() {}\n</script>\n";
    let script = vue_script(sfc);
    assert!(script.contains("function handle"));
    assert!(!script.contains("template"));
}

#[test]
fn extract_vue_emits_a_named_component_node() {
    let sfc = "<script setup lang=\"ts\">\nfunction helper() {}\n</script>\n";
    let (nodes, _) = extract_vue("resources/js/AppComponent.vue", "AppComponent.vue", sfc);
    assert!(nodes.iter().any(|n| n.kind == "component" && n.name == "AppComponent"));
    assert!(names(&nodes, "function").contains(&"helper"));
}

#[test]
fn extract_vue_prefers_define_options_name() {
    let sfc = "<script setup lang=\"ts\">\ndefineOptions({ name: \"CustomName\" });\n</script>\n";
    let (nodes, _) = extract_vue("resources/js/Foo.vue", "Foo.vue", sfc);
    assert!(nodes.iter().any(|n| n.kind == "component" && n.name == "CustomName"));
}

#[test]
fn what_other_readers_refuse_is_mended() {
    assert_eq!(mend(r#"{"a":"\ud83d","b":1e+400}"#), r#"{"a":"\ufffdd83d","b":0}"#);
    // Inside of a string a number stays, and an escaped backslash starts no escape.
    assert_eq!(mend(r#"["1e+400","\\ud83d","\"\ud800"]"#), r#"["1e+400","\\ud83d","\"\ufffdd800"]"#);
    assert_eq!(mend(r#"["\u00e9"]"#), r#"["\u00e9"]"#);
    assert_eq!(mend(""), "");
}

#[test]
fn code_with_half_a_pair_and_an_infinite_number_is_read() {
    let code = "const a = '\\ud83d'; const b = 1e400; export function f() {}";
    let (nodes, _) = extract("a.ts", "a.ts", code, "ts");
    assert_eq!(names(&nodes, "function"), vec!["f"]);
}

#[test]
fn a_symbol_that_is_declared_twice_has_one_node() {
    let code = "function f(a: string): void; function f(a: number): void; function f(a: any) {}";
    let (nodes, edges) = extract("a.ts", "a.ts", code, "ts");
    assert_eq!(names(&nodes, "function"), vec!["f"]);
    assert_eq!(edges.iter().filter(|e| e.target_id.as_deref() == Some("a.ts#f")).count(), 3);
}

#[test]
fn scopes_are_closed_behind_their_bodies() {
    let code = "class A { m() { inner(); } } outer();";
    let (_, edges) = extract("a.ts", "a.ts", code, "ts");
    let source = |name: &str| {
        edges.iter().find(|e| e.relation == "calls" && e.name.as_deref() == Some(name)).map(|e| e.source.clone())
    };
    assert_eq!(source("inner").as_deref(), Some("a.ts#A.m"));
    assert_eq!(source("outer").as_deref(), Some("a.ts"));
}

#[test]
fn the_spans_of_symbols_are_bytes() {
    let code = "/* é */ function f() {}";
    let (nodes, _) = extract("a.js", "a.js", code, "js");
    let f = nodes.iter().find(|n| n.name == "f").unwrap();
    assert_eq!(&code[f.start as usize..f.end as usize], "function f() {}");
}

#[test]
fn code_that_cannot_be_parsed_keeps_its_file() {
    let (nodes, _) = extract("a.ts", "a.ts", "class {{{", "ts");
    assert_eq!(nodes[0].id, "a.ts");
    assert_eq!(nodes[0].kind, "file");
}

#[test]
fn deeply_nested_code_is_read() {
    let depth = 300;
    let code = format!("const a = {}f(){}; export function g() {{}}", "[".repeat(depth), "]".repeat(depth));
    let (nodes, edges) = extract("a.ts", "a.ts", &code, "ts");
    assert_eq!(names(&nodes, "function"), vec!["g"]);
    assert!(has_call(&edges, "f", None));
}

#[test]
fn wrappers_do_not_hide_a_receiver() {
    let code = "class A {} const a = (new A() as A); (a!).m(); (f as any)(); a.#p(); a['q'](); a?.r();";
    let (_, edges) = extract("a.ts", "a.ts", code, "ts");
    assert!(has_call(&edges, "m", Some("A")));
    assert!(has_call(&edges, "f", None));
    assert!(has_call(&edges, "r", Some("A")));
    assert!(!edges.iter().any(|e| matches!(e.name.as_deref(), Some("p" | "q"))));
}

#[test]
fn an_angular_pipe_is_registered() {
    let code = "@Pipe({ name: 'timeAgo', standalone: true })\nexport class TimeAgoPipe implements PipeTransform { transform(v: number): string { return ''; } }\nexport class Plain {}";
    let (nodes, edges) = extract("src/time.pipe.ts", "time.pipe.ts", code, "ts");
    assert_eq!(names(&nodes, "pipe"), vec!["timeAgo"]);
    assert!(nodes.iter().any(|n| n.id == "pipe:timeAgo" && n.path == "src/time.pipe.ts"));
    let told: Vec<_> = edges.iter().filter(|e| e.relation == "defines-pipe").collect();
    assert_eq!(told.len(), 1);
    assert_eq!(told[0].source, "src/time.pipe.ts#TimeAgoPipe");
    assert_eq!(told[0].name.as_deref(), Some("timeAgo"));
    // The class itself stays a class.
    assert_eq!(names(&nodes, "class"), vec!["TimeAgoPipe", "Plain"]);
}

#[test]
fn code_that_is_nested_too_deeply_keeps_its_file() {
    let sum = |n: usize| format!("function f() {{ return 1{}; }}", " + a".repeat(n));
    let (nodes, _) = extract("a.ts", "a.ts", &sum(1900), "ts");
    assert_eq!(names(&nodes, "function"), vec!["f"]);
    let (nodes, edges) = extract("a.ts", "a.ts", &sum(2000), "ts");
    assert_eq!(names(&nodes, "file"), vec!["a.ts"]);
    assert_eq!(nodes.len(), 1);
    assert!(edges.is_empty());
}

#[test]
fn brackets_in_a_string_do_not_nest() {
    let code = format!("function f() {{ return '{}\\\\\\''; }}", "[{".repeat(2000));
    let (nodes, _) = extract("a.ts", "a.ts", &code, "ts");
    assert_eq!(names(&nodes, "function"), vec!["f"]);
}
