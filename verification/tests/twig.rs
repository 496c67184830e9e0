//! Twig templates.

use plouf_rs::twig::extract;
use plouf_rs::model::RawEdge;

fn has(edges: &[RawEdge], relation: &str, name: &str) -> bool {
    edges.iter().any(|e| e.relation == relation && e.name.as_deref() == Some(name))
}

#[test]
fn captures_includes_extends_and_translations() {
    let code = "{% extends 'layout.twig' %}\n{%- include 'database/structure/row' with {'x': y} only -%}\n{% import 'macros.twig' as m %}\n<p>{% trans %}Hello world{% endtrans %}</p>\n<span>{{ 'Save'|trans }}</span>\n{%- trans -%}Spaced{%- endtrans -%}";
    let (nodes, edges) = extract("templates/table.twig", "table.twig", code);
    assert_eq!(nodes.len(), 1);
    assert!(has(&edges, "includes", "layout.twig"));
    assert!(has(&edges, "includes", "database/structure/row"));
    assert!(has(&edges, "includes", "macros.twig"));
    assert!(has(&edges, "uses-lang", "Hello world")); // {% trans %} block
    assert!(has(&edges, "uses-lang", "Save")); // |trans filter (via lang::scan)
    assert!(has(&edges, "uses-lang", "Spaced")); // whitespace-control block
}

#[test]
fn ignores_non_reference_tags() {
    let code = "{% if x %}{% set a = 'b' %}{% endif %}\n{{ value }}";
    let (_, edges) = extract("t.twig", "t.twig", code);
    assert!(edges.is_empty());
}

#[test]
fn captures_calls() {
    let code = "{{ getIcon('b_edit') }} {{ user.getName() }} {{ 'quoted(x)' }} {% if isAllowed (1) %}{{- 2(3) -}}{% endif %} plain(text) {{ size|formatBytes(2) }}";
    let (_, edges) = extract("t.twig", "t.twig", code);
    let names: Vec<_> = edges.iter().filter(|e| e.relation == "uses-fn").filter_map(|e| e.name.as_deref()).collect();
    assert_eq!(names, vec!["getIcon", "formatBytes", "isAllowed"]);
    assert!(edges.iter().all(|e| e.source == "t.twig"));
}
