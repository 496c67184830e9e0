//! Blade templates.

use plouf_rs::blade::extract;
use plouf_rs::model::RawEdge;

fn has(edges: &[RawEdge], relation: &str, name: &str) -> bool {
    edges
        .iter()
        .any(|e| e.relation == relation && e.name.as_deref() == Some(name))
}

fn count(edges: &[RawEdge], relation: &str) -> usize {
    edges.iter().filter(|e| e.relation == relation).count()
}

#[test]
fn emits_exactly_one_file_node() {
    let (nodes, _) = extract("resources/views/x.blade.php", "x.blade.php", "<p>hi</p>");
    assert_eq!(nodes.len(), 1);
    assert_eq!(nodes[0].kind, "file");
    assert_eq!(nodes[0].id, "resources/views/x.blade.php");
    assert_eq!(nodes[0].name, "x.blade.php");
    assert_eq!(nodes[0].start, 0);
    assert_eq!(nodes[0].end, 0);
}

#[test]
fn captures_extends_include_and_each_views() {
    let code = "@extends('layouts.app')\n@include('partials.header')\n@each('rows.item', $rows, 'row')";
    let (_, edges) = extract("v.blade.php", "v.blade.php", code);
    assert!(has(&edges, "includes", "layouts.app"));
    assert!(has(&edges, "includes", "partials.header"));
    assert!(has(&edges, "includes", "rows.item"));
}

#[test]
fn maps_component_tag_to_dotted_name() {
    let code = "<x-foo.bar class=\"a\" :x=\"$y\" />\n<x-alert>msg</x-alert>";
    let (_, edges) = extract("v.blade.php", "v.blade.php", code);
    assert!(has(&edges, "includes", "foo.bar"));
    assert!(has(&edges, "includes", "alert"));
}

#[test]
fn captures_livewire_tags_and_directive() {
    let code = "<livewire:user.profile :id=\"$id\" />\n<livewire:nav-bar />\n@livewire('admin.dashboard', ['x' => 1])";
    let (_, edges) = extract("v.blade.php", "v.blade.php", code);
    assert!(has(&edges, "includes", "user.profile"));
    assert!(has(&edges, "includes", "nav-bar"));
    assert!(has(&edges, "includes", "admin.dashboard"));
}

#[test]
fn keeps_namespaced_component_name_raw() {
    let code = "<x-mail::message>Body</x-mail::message>";
    let (_, edges) = extract("v.blade.php", "v.blade.php", code);
    assert!(has(&edges, "includes", "mail::message"));
}

#[test]
fn ignores_slot_and_dynamic_component_tags() {
    let code = "<x-slot:title>T</x-slot:title>\n<x-slot name=\"body\"></x-slot>\n<x-dynamic-component :component=\"$c\" />";
    let (_, edges) = extract("v.blade.php", "v.blade.php", code);
    assert_eq!(count(&edges, "includes"), 0);
}

#[test]
fn captures_lang_choice_and_helper_keys() {
    let code =
        "@lang('messages.welcome')\n@choice('messages.apples', $n)\n<p>{{ __('nav.home') }}</p>\n{!! trans('nav.about') !!}\n{{ trans_choice('items.count', $n) }}";
    let (_, edges) = extract("v.blade.php", "v.blade.php", code);
    assert!(has(&edges, "uses-lang", "messages.welcome"));
    assert!(has(&edges, "uses-lang", "messages.apples"));
    assert!(has(&edges, "uses-lang", "nav.home"));
    assert!(has(&edges, "uses-lang", "nav.about"));
    assert!(has(&edges, "uses-lang", "items.count"));
}

#[test]
fn helper_in_html_attribute_is_captured() {
    let code = "<input placeholder=\"{{ __('form.name') }}\" value=\"{{ trans('form.value') }}\">";
    let (_, edges) = extract("v.blade.php", "v.blade.php", code);
    assert!(has(&edges, "uses-lang", "form.name"));
    assert!(has(&edges, "uses-lang", "form.value"));
}

#[test]
fn handles_multiline_and_spacey_directives() {
    let code = "@include (\n    'partials.footer',\n    ['k' => $v]\n)\n@lang( 'messages.bye' )";
    let (_, edges) = extract("v.blade.php", "v.blade.php", code);
    assert!(has(&edges, "includes", "partials.footer"));
    assert!(has(&edges, "uses-lang", "messages.bye"));
}

#[test]
fn include_when_and_unless_take_the_second_argument_view() {
    let code = "@includeWhen($ok, 'alerts.ok', ['x' => 'ignored'])\n@includeUnless($bad, 'alerts.bad')";
    let (_, edges) = extract("v.blade.php", "v.blade.php", code);
    assert!(has(&edges, "includes", "alerts.ok"));
    assert!(has(&edges, "includes", "alerts.bad"));
    assert!(!has(&edges, "includes", "ignored"));
}

#[test]
fn include_first_captures_every_view_in_the_array() {
    let code = "@includeFirst(['custom.admin', 'admin.index'], ['status' => 'ok'])";
    let (_, edges) = extract("v.blade.php", "v.blade.php", code);
    assert!(has(&edges, "includes", "custom.admin"));
    assert!(has(&edges, "includes", "admin.index"));
    assert!(!has(&edges, "includes", "ok"));
}

#[test]
fn include_if_and_component_are_captured() {
    let code = "@includeIf('maybe.here', $data)\n@component('mail.message')\n@endcomponent";
    let (_, edges) = extract("v.blade.php", "v.blade.php", code);
    assert!(has(&edges, "includes", "maybe.here"));
    assert!(has(&edges, "includes", "mail.message"));
}

#[test]
fn dynamic_include_emits_no_edge() {
    let code = "@include($view)\n@include ( $another )";
    let (_, edges) = extract("v.blade.php", "v.blade.php", code);
    assert_eq!(count(&edges, "includes"), 0);
}

#[test]
fn commented_directive_emits_no_edge() {
    let code = "{{-- @include('ignored.partial') and {{ __('ignored.key') }} --}}\n@include('real.partial')";
    let (_, edges) = extract("v.blade.php", "v.blade.php", code);
    assert!(has(&edges, "includes", "real.partial"));
    assert!(!has(&edges, "includes", "ignored.partial"));
    assert!(!has(&edges, "uses-lang", "ignored.key"));
}

#[test]
fn verbatim_block_is_not_scanned() {
    let code = "@verbatim\n@include('literal.text')\n{{ __('literal.key') }}\n@endverbatim\n@include('kept.view')";
    let (_, edges) = extract("v.blade.php", "v.blade.php", code);
    assert!(has(&edges, "includes", "kept.view"));
    assert!(!has(&edges, "includes", "literal.text"));
    assert!(!has(&edges, "uses-lang", "literal.key"));
}

#[test]
fn escaped_directive_is_ignored() {
    let code = "@@include('shown.literally')\n@include('processed.view')";
    let (_, edges) = extract("v.blade.php", "v.blade.php", code);
    assert!(has(&edges, "includes", "processed.view"));
    assert!(!has(&edges, "includes", "shown.literally"));
}

#[test]
fn control_flow_and_asset_directives_emit_nothing() {
    let code = "@if ($x) @foreach ($xs as $y) @endforeach @endif\n@csrf @method('PUT')\n@section('content') @yield('sidebar') @stop\n@push('scripts') @endpush\n@vite(['resources/js/app.ts'])\n@php $z = __('php.key'); @endphp";
    let (_, edges) = extract("v.blade.php", "v.blade.php", code);
    assert_eq!(count(&edges, "includes"), 0);
    // The helper inside a @php block is live PHP, so its key IS captured;
    // @method/@section/@yield/@push/@vite names are not views/keys.
    assert!(has(&edges, "uses-lang", "php.key"));
    assert_eq!(count(&edges, "uses-lang"), 1);
}

#[test]
fn css_at_rules_do_not_false_match() {
    let code = "<style>@media (max-width: 600px) { a { transition: none; } }\n@page { margin: 1mm; }</style>\n@include('real.one')";
    let (_, edges) = extract("v.blade.php", "v.blade.php", code);
    assert!(has(&edges, "includes", "real.one"));
    assert_eq!(count(&edges, "includes"), 1);
    assert_eq!(count(&edges, "uses-lang"), 0);
}

#[test]
fn what_a_comment_says_does_not_matter() {
    let told = |code: &str| {
        let (_, edges) = extract("v.blade.php", "v.blade.php", code);
        edges.iter().map(|e| (e.relation, e.name.clone())).collect::<Vec<_>>()
    };
    let plain = told("@include('a') {{--  --}} @include('b')");
    assert_eq!(plain.len(), 2);
    assert_eq!(told("@include('a') {{-- @include('x') {{ __('k') }} --}} @include('b')"), plain);
    assert_eq!(told("@include('a') @verbatim @include('x') @endverbatim @include('b')"), plain);
    // A comment that is never closed takes the rest with it.
    assert_eq!(told("@include('a') {{-- @include('b')"), plain[..1].to_vec());
}
