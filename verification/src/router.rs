//! Route -> page linking for Vue Router + Angular Router configs (TS/JS). A route
//! object `{ path: '/x', component: Foo }` (or `loadComponent` / `loadChildren:
//! () => import('...')`) links a `route:<path>` node to the page component's
//! file. `route:<path>` is the same join node bbscript emits, so
//! `callers route:/x` reaches both the e2e scenarios that visit a route and the
//! component that serves it -- closing scenario -> route -> source.
//!
//! Text-scanned (not AST): route objects are frequently multi-line, and the two
//! router frameworks share the `path:` / `component:` shape, so one scan covers
//! both. Runs only on files that look like a router config.

use vstd::prelude::*;
use vstd::slice::slice_subrange;

use crate::laravel;
use crate::model;
use crate::model::{dedup_nodes, make_join, Found, FoundView, Node, RawEdge};
use crate::paths;
use crate::scan;
use crate::scan::Nesting;
use crate::seqs;
use crate::text;
use crate::text::{chars_of, is_text, join2, string_of, CharSet};

verus! {

broadcast use {
    crate::seqs::group_text,
    text::lemma_run,
    text::lemma_seek,
    scan::lemma_closing,
    scan::lemma_matching,
};

// ---------------------------------------------------------------------------
// Imports

/// The `import('spec')` specifier appearing anywhere in `s`, if any.
pub open spec fn import_spec(s: Seq<char>) -> Option<Seq<char>> {
    let i = text::find(s, "import("@, 0);
    if i >= s.len() {
        None
    } else {
        scan::literal(s.subrange(i + "import("@.len(), s.len() as int), CharSet::JsQuote)
    }
}

/// The `import('spec')` specifier appearing anywhere in `s`, if any.
fn import_call_spec<'a>(s: &'a [char]) -> (r: Option<&'a [char]>)
    ensures
        seqs::opt_view(r) == import_spec(s@),
{
    let i = text::search(s, "import(", 0);
    if i >= s.len() {
        return None;
    }
    scan::first_literal(slice_subrange(s, i + text::length_of("import("), s.len()), CharSet::JsQuote)
}

/// The identifier that a text starts with.
pub open spec fn leading_ident(s: Seq<char>) -> Seq<char> {
    s.subrange(0, text::run(s, 0, CharSet::WordDollar))
}

/// The identifier that a text starts with.
fn read_ident<'a>(s: &'a [char]) -> (r: &'a [char])
    ensures
        r@ == leading_ident(s@),
{
    slice_subrange(s, 0, text::skip(s, 0, CharSet::WordDollar))
}

/// A local name, and the specifier that it is imported from.
pub struct AliasView {
    pub name: Seq<char>,
    pub spec: Seq<char>,
}

/// A local name, and the specifier that it is imported from.
pub struct Alias {
    pub name: String,
    pub spec: String,
}

impl View for Alias {
    type V = AliasView;

    open spec fn view(&self) -> AliasView {
        AliasView { name: self.name@, spec: self.spec@ }
    }
}

/// The end of the statement that goes on at index `i`.
pub open spec fn statement_end(s: Seq<char>, i: int) -> int {
    text::seek(s, i, CharSet::Two(';', '\n'))
}

pub open spec fn lazy_alias(s: Seq<char>) -> spec_fn(int) -> Seq<AliasView> {
    |i: int|
        {
            let a = i + "const "@.len();
            let stmt = s.subrange(a, statement_end(s, a));
            let name = s.subrange(a, text::run(s, a, CharSet::WordDollar));
            if name.len() > 0 && import_spec(stmt) is Some {
                seq![AliasView { name, spec: import_spec(stmt)->0 }]
            } else {
                Seq::empty()
            }
        }
}

/// The names that `const X = () => import('spec')` binds.
pub open spec fn lazy_aliases(s: Seq<char>) -> Seq<AliasView> {
    seqs::each(text::hits(s, "const "@, 0), lazy_alias(s))
}

/// The names that `const X = () => import('spec')` binds.
fn read_lazy_aliases(s: &[char]) -> (r: Vec<Alias>)
    ensures
        seqs::views(r@) == lazy_aliases(s@),
{
    let places = text::occurrences(s, "const ");
    let n = text::length_of("const ");
    let ghost ks = text::hits(s@, "const "@, 0);
    let mut out: Vec<Alias> = Vec::new();
    let mut k: usize = 0;
    while k < places.len()
        invariant
            n == "const "@.len(),
            k <= places@.len(),
            ks == text::hits(s@, "const "@, 0),
            text::are_hits(s@, "const "@, places@),
            seqs::views(out@) + seqs::each_from(ks, k as int, lazy_alias(s@)) == lazy_aliases(s@),
        decreases places@.len() - k,
    {
        assert(ks[k as int] == places@[k as int]);
        let a = places[k] + n;
        let name = slice_subrange(s, a, text::skip(s, a, CharSet::WordDollar));
        if name.len() > 0 {
            let stmt = slice_subrange(s, a, text::look(s, a, CharSet::Two(';', '\n')));
            if let Some(spec) = import_call_spec(stmt) {
                out.push(Alias { name: string_of(name), spec: string_of(spec) });
            }
        }
        k += 1;
    }
    out
}

/// The local name of one part of a named import clause (`A`, `B as C`).
pub open spec fn local_of() -> spec_fn(Seq<char>) -> Seq<Seq<char>> {
    |part: Seq<char>|
        {
            let i = text::find_back(part, " as "@, part.len() - 1);
            let name = if i < part.len() {
                part.subrange(i + " as "@.len(), part.len() as int)
            } else {
                part
            };
            let local = leading_ident(text::trimmed(name, CharSet::Space));
            if local.len() > 0 {
                seq![local]
            } else {
                Seq::empty()
            }
        }
}

/// The local names an import clause binds (`Foo`, `{ A, B as C }`, `Foo, { A }`).
pub open spec fn import_locals(clause: Seq<char>) -> Seq<Seq<char>> {
    let o = text::seek(clause, 0, CharSet::One('{'));
    let c = text::seek(clause, o + 1, CharSet::One('}'));
    let default = leading_ident(
        text::trimmed(
            text::trimmed_end(
                text::trimmed(clause.subrange(0, o), CharSet::Space),
                CharSet::One(','),
            ),
            CharSet::Space,
        ),
    );
    (if default.len() > 0 && default != "type"@ {
        seq![default]
    } else {
        Seq::empty()
    }) + (if o < clause.len() {
        seqs::each(text::pieces(clause.subrange(o + 1, c), CharSet::One(',')), local_of())
    } else {
        Seq::empty()
    })
}

/// The local names an import clause binds.
fn read_locals(clause: &[char]) -> (r: Vec<String>)
    ensures
        seqs::views(r@) == import_locals(clause@),
{
    let mut out: Vec<String> = Vec::new();
    let o = text::look(clause, 0, CharSet::One('{'));
    let head = text::trim(slice_subrange(clause, 0, o), CharSet::Space);
    let default = read_ident(text::trim(text::trim_end(head, CharSet::One(',')), CharSet::Space));
    if default.len() > 0 && !is_text(default, "type") {
        out.push(string_of(default));
    }
    let ghost first = seqs::views(out@);
    if o < clause.len() {
        let c = text::look(clause, o + 1, CharSet::One('}'));
        let parts = text::split(slice_subrange(clause, o + 1, c), CharSet::One(','));
        let ghost all = seqs::views(parts@);
        let mut k: usize = 0;
        while k < parts.len()
            invariant
                k <= parts@.len(),
                all == seqs::views(parts@),
                seqs::views(out@) + seqs::each_from(all, k as int, local_of()) == first + seqs::each(
                    all,
                    local_of(),
                ),
            decreases parts@.len() - k,
        {
            let part = parts[k];
            assert(all[k as int] == part@);
            let i = text::search_last(part, " as ");
            let name = if i < part.len() {
                slice_subrange(part, i + text::length_of(" as "), part.len())
            } else {
                part
            };
            let local = read_ident(text::trim(name, CharSet::Space));
            if local.len() > 0 {
                out.push(string_of(local));
            }
            k += 1;
        }
    }
    out
}

pub open spec fn with_spec(names: Seq<Seq<char>>, spec: Seq<char>) -> Seq<AliasView> {
    names.map_values(|n: Seq<char>| AliasView { name: n, spec })
}

pub open spec fn static_alias(s: Seq<char>) -> spec_fn(int) -> Seq<AliasView> {
    |i: int|
        {
            let a = i + "import "@.len();
            let line = s.subrange(a, statement_end(s, a));
            let f = text::find(line, " from "@, 0);
            let spec = scan::literal(
                line.subrange(f + " from "@.len(), line.len() as int),
                CharSet::JsQuote,
            );
            if f < line.len() && spec is Some {
                with_spec(import_locals(line.subrange(0, f)), spec->0)
            } else {
                Seq::empty()
            }
        }
}

/// The names that `import X from 'spec'` binds.
pub open spec fn static_aliases(s: Seq<char>) -> Seq<AliasView> {
    seqs::each(text::hits(s, "import "@, 0), static_alias(s))
}

/// Pairs each of the names with the specifier.
fn pair_all(names: Vec<String>, spec: &[char], out: &mut Vec<Alias>)
    ensures
        seqs::views(final(out)@) == seqs::views(old(out)@) + with_spec(seqs::views(names@), spec@),
{
    let ghost first = seqs::views(out@);
    let ghost want = with_spec(seqs::views(names@), spec@);
    for name in it: names
        invariant
            it.seq() == names@,
            want == with_spec(seqs::views(names@), spec@),
            seqs::views(out@) == first + want.take(it.index() as int),
    {
        assert(want[it.index() as int].name == name@);
        out.push(Alias { name, spec: string_of(spec) });
        assert(want.take(it.index() + 1) =~= want.take(it.index() as int).push(want[it.index() as int]));
    }
    assert(want.take(want.len() as int) =~= want);
}

/// The names that `import X from 'spec'` binds.
fn read_static_aliases(s: &[char], out: &mut Vec<Alias>)
    ensures
        seqs::views(final(out)@) == seqs::views(old(out)@) + static_aliases(s@),
{
    let places = text::occurrences(s, "import ");
    let n = text::length_of("import ");
    let ghost ks = text::hits(s@, "import "@, 0);
    let ghost first = seqs::views(out@);
    let mut k: usize = 0;
    while k < places.len()
        invariant
            n == "import "@.len(),
            k <= places@.len(),
            ks == text::hits(s@, "import "@, 0),
            text::are_hits(s@, "import "@, places@),
            seqs::views(out@) + seqs::each_from(ks, k as int, static_alias(s@)) == first + static_aliases(s@),
        decreases places@.len() - k,
    {
        assert(ks[k as int] == places@[k as int]);
        let a = places[k] + n;
        let line = slice_subrange(s, a, text::look(s, a, CharSet::Two(';', '\n')));
        let f = text::search(line, " from ", 0);
        if f < line.len() {
            let rest = slice_subrange(line, f + text::length_of(" from "), line.len());
            if let Some(spec) = scan::first_literal(rest, CharSet::JsQuote) {
                pair_all(read_locals(slice_subrange(line, 0, f)), spec, out);
            }
        }
        k += 1;
    }
}

/// Every local name of a file with its import specifier: `const X = () =>
/// import('spec')` lazy consts, then static `import X from 'spec'` declarations.
pub open spec fn aliases(s: Seq<char>) -> Seq<AliasView> {
    lazy_aliases(s) + static_aliases(s)
}

/// The specifier of the last alias of this name among the first `k`.
pub open spec fn alias_spec(all: Seq<AliasView>, k: int, name: Seq<char>) -> Option<Seq<char>>
    decreases k,
{
    if k <= 0 || k > all.len() {
        None
    } else if all[k - 1].name == name {
        Some(all[k - 1].spec)
    } else {
        alias_spec(all, k - 1, name)
    }
}

/// The specifier that `name` is imported from; the last binding counts.
fn find_alias(all: &[Alias], name: &[char]) -> (r: Option<String>)
    ensures
        seqs::opt_view(r) == alias_spec(seqs::views(all@), all@.len() as int, name@),
{
    let ghost views = seqs::views(all@);
    let mut k: usize = all.len();
    while k > 0
        invariant
            k <= all@.len(),
            views == seqs::views(all@),
            alias_spec(views, k as int, name@) == alias_spec(views, all@.len() as int, name@),
        decreases k,
    {
        assert(views[k - 1] == all@[k - 1]@);
        if is_text(name, &all[k - 1].name) {
            return Some(all[k - 1].spec.clone());
        }
        k -= 1;
    }
    None
}

// ---------------------------------------------------------------------------
// Route objects

/// All brackets nest; single, double and back quotes delimit.
pub open spec fn nesting() -> Nesting {
    Nesting { braces: true, quotes: CharSet::JsQuote }
}

/// The value of the `key:` property named at index `i`: from after its colon up
/// to the next top-level comma.
pub open spec fn value_at(obj: Seq<char>, key: Seq<char>) -> spec_fn(int) -> Option<Seq<char>> {
    |i: int|
        {
            let c = text::run(obj, i + key.len(), CharSet::AsciiSpace);
            if scan::preceded(obj, i, CharSet::WordDollar) || !scan::at(obj, c, CharSet::One(':')) {
                None
            } else {
                Some(
                    text::trimmed(
                        obj.subrange(c + 1, scan::top_level(obj, c + 1, 0, ',', nesting())),
                        CharSet::Space,
                    ),
                )
            }
        }
}

/// The value of the `key:` property of an object body.
pub open spec fn property(obj: Seq<char>, key: Seq<char>) -> Option<Seq<char>> {
    seqs::first_some(text::hits(obj, key, 0), value_at(obj, key))
}

/// The raw value text of the `key:` property -- from after its colon up to the
/// next top-level comma (quotes/brackets/braces/parens respected).
fn prop_value<'a>(obj: &'a [char], key: &str) -> (r: Option<&'a [char]>)
    ensures
        seqs::opt_view(r) == property(obj@, key@),
{
    let places = text::occurrences(obj, key);
    let n = text::length_of(key);
    let ghost ks = text::hits(obj@, key@, 0);
    let mut k: usize = 0;
    while k < places.len()
        invariant
            n == key@.len(),
            k <= places@.len(),
            ks == text::hits(obj@, key@, 0),
            text::are_hits(obj@, key@, places@),
            seqs::first_from(ks, k as int, value_at(obj@, key@)) == property(obj@, key@),
        decreases places@.len() - k,
    {
        let i = places[k];
        assert(ks[k as int] == i);
        let c = text::skip(obj, i + n, CharSet::AsciiSpace);
        if !scan::is_preceded(obj, i, CharSet::WordDollar) && scan::is_at(obj, c, CharSet::One(':')) {
            let nest = Nesting { braces: true, quotes: CharSet::JsQuote };
            let e = scan::find_top_level(obj, c + 1, ',', nest);
            return Some(text::trim(slice_subrange(obj, c + 1, e), CharSet::Space));
        }
        k += 1;
    }
    None
}

/// The component specifier that a property names: a dynamic-import string, or an
/// aliased identifier's import.
pub open spec fn component_of(obj: Seq<char>, key: Seq<char>, all: Seq<AliasView>) -> Option<Seq<char>> {
    match property(obj, key) {
        Some(value) => if import_spec(value) is Some {
            import_spec(value)
        } else {
            alias_spec(all, all.len() as int, leading_ident(text::trimmed(value, CharSet::Space)))
        },
        None => None,
    }
}

/// The component specifier that a property names.
fn read_component(obj: &[char], key: &str, all: &[Alias]) -> (r: Option<String>)
    ensures
        seqs::opt_view(r) == component_of(obj@, key@, seqs::views(all@)),
{
    match prop_value(obj, key) {
        Some(value) => {
            if let Some(spec) = import_call_spec(value) {
                return Some(string_of(spec));
            }
            find_alias(all, read_ident(text::trim(value, CharSet::Space)))
        },
        None => None,
    }
}

/// The page component of a route object.
pub open spec fn page_of(obj: Seq<char>, all: Seq<AliasView>) -> Option<Seq<char>> {
    if component_of(obj, "component"@, all) is Some {
        component_of(obj, "component"@, all)
    } else if component_of(obj, "loadComponent"@, all) is Some {
        component_of(obj, "loadComponent"@, all)
    } else if component_of(obj, "loadChildren"@, all) is Some {
        component_of(obj, "loadChildren"@, all)
    } else {
        component_of(obj, "element"@, all)
    }
}

/// The path of a route object.
pub open spec fn path_of(obj: Seq<char>) -> Option<Seq<char>> {
    match property(obj, "path"@) {
        Some(value) => scan::literal(value, CharSet::JsQuote),
        None => None,
    }
}

/// Resolve a relative import specifier against the importing file's directory
/// (`resources/js/router/index.ts` + `../pages/X.vue` -> `resources/js/pages/X.vue`).
/// Non-relative specifiers (bare packages, `@/` aliases) are kept as-is.
pub open spec fn page_path(rel: Seq<char>, spec: Seq<char>) -> Seq<char> {
    if text::starts(spec, "."@) {
        paths::joined_path(rel, spec)
    } else {
        spec
    }
}

/// What a route object wires: its path's node, and the edge to the page. A path
/// with a regex anchor or character class is a validation pattern, not a route.
pub open spec fn entry(rel: Seq<char>, obj: Seq<char>, all: Seq<AliasView>) -> FoundView {
    match (path_of(obj), page_of(obj, all)) {
        (Some(path), Some(spec)) => {
            let route = laravel::normal_route(path);
            if text::some_in(route, CharSet::Pattern) {
                FoundView::none()
            } else {
                FoundView {
                    nodes: seq![model::route_node(rel, route)],
                    edges: seq![
                        model::named_edge("route:"@ + route, "renders"@, page_path(rel, spec)),
                    ],
                }
            }
        },
        _ => FoundView::none(),
    }
}

/// The page component of a route object.
fn read_page(obj: &[char], all: &[Alias]) -> (r: Option<String>)
    ensures
        seqs::opt_view(r) == page_of(obj@, seqs::views(all@)),
{
    let component = read_component(obj, "component", all);
    if component.is_some() {
        return component;
    }
    let lazy = read_component(obj, "loadComponent", all);
    if lazy.is_some() {
        return lazy;
    }
    let children = read_component(obj, "loadChildren", all);
    if children.is_some() {
        return children;
    }
    read_component(obj, "element", all)
}

/// What a route object wires.
fn read_entry(rel: &str, obj: &[char], all: &[Alias]) -> (r: Found)
    ensures
        r@ == entry(rel@, obj@, seqs::views(all@)),
{
    let mut out = Found::none();
    let path = match prop_value(obj, "path") {
        Some(value) => match scan::first_literal(value, CharSet::JsQuote) {
            Some(p) => p,
            None => {
                return out;
            },
        },
        None => {
            return out;
        },
    };
    if let Some(spec) = read_page(obj, all) {
        let route = laravel::normalize_route(path);
        if !text::has_any(&chars_of(&route), CharSet::Pattern) {
            let target = if text::starts_with(&chars_of(&spec), ".") {
                paths::join_path(rel, &spec)
            } else {
                spec
            };
            out.nodes.push(make_join("route:", "route", rel, &route));
            out.edges.push(RawEdge::named(join2("route:", &route), "renders", target));
            assert(out@ =~= entry(rel@, obj@, seqs::views(all@)));
        }
    }
    out
}

/// What the objects that open from index `i` on wire. Every `{` is inspected (not
/// skipped), so nested `children` routes are found too; each object uses its own
/// first `path:` + component. The search ends at an object that never closes.
pub open spec fn entries_from(rel: Seq<char>, s: Seq<char>, all: Seq<AliasView>, i: int) -> FoundView
    decreases s.len() - i,
{
    let e = scan::partner(s, i, '{', '}', CharSet::JsQuote);
    if i < 0 || i >= s.len() {
        FoundView::none()
    } else if s[i] != '{' {
        entries_from(rel, s, all, i + 1)
    } else if e >= s.len() {
        FoundView::none()
    } else {
        entry(rel, s.subrange(i + 1, e), all).plus(entries_from(rel, s, all, i + 1))
    }
}

/// The text looks like a router config.
pub open spec fn is_router_config(s: Seq<char>) -> bool {
    text::includes(s, "path:"@) && (text::includes(s, "component"@) || text::includes(s, "loadChildren"@))
}

/// The routes of a JS/TS file, and the pages they render.
pub open spec fn routes(rel: Seq<char>, s: Seq<char>) -> FoundView {
    if is_router_config(s) {
        entries_from(rel, s, aliases(s), 0).deduped()
    } else {
        FoundView::none()
    }
}

/// Scan a JS/TS file for router route definitions, emitting `route:<path>` nodes
/// and `renders` edges to each route's component file.
pub fn scan(rel: &str, code: &str) -> (r: (Vec<Node>, Vec<RawEdge>))
    ensures
        seqs::views(r.0@) == routes(rel@, code@).nodes,
        seqs::views(r.1@) == routes(rel@, code@).edges,
{
    let s = chars_of(code);
    let mut out = Found::none();
    // Only router-config-shaped files pay for the brace scan.
    if !text::has_text(&s, "path:") || !(text::has_text(&s, "component") || text::has_text(&s, "loadChildren")) {
        return (out.nodes, out.edges);
    }
    let mut all = read_lazy_aliases(&s);
    read_static_aliases(&s, &mut all);
    let ghost views = seqs::views(all@);
    let mut i: usize = 0;
    while i < s.len()
        invariant
            i <= s@.len(),
            views == seqs::views(all@),
            s@ == code@,
            is_router_config(s@),
            views == aliases(s@),
            out@.plus(entries_from(rel@, s@, views, i as int)) == entries_from(rel@, s@, views, 0),
        decreases s@.len() - i,
    {
        if s[i] == '{' {
            let e = scan::close_bracket(&s, i, '{', '}', CharSet::JsQuote);
            if e >= s.len() {
                assert(out@ =~= entries_from(rel@, s@, views, 0));
                return (dedup_nodes(out.nodes), out.edges);
            }
            out.add_all(read_entry(rel, slice_subrange(&s, i + 1, e), &all));
        }
        i += 1;
    }
    assert(out@ =~= entries_from(rel@, s@, views, 0));
    (dedup_nodes(out.nodes), out.edges)
}

} // verus!
