//! Blade template extraction (`*.blade.php`).
//!
//! Blade is not AST-parsed by Mago (its `@directive` / `{{ }}` / `<x-...>`
//! syntax is not valid PHP, so the parser would choke). Instead the raw text is
//! scanned -- comment/verbatim stripping followed by a few small,
//! quote/paren-aware passes -- for exactly two graph relations:
//!
//! * `"includes"` -- a reference to another Blade view by its dotted name
//!   (the whole directive family that pulls in a view, and `<x-...>`), so "who
//!   references view X" is answerable with one query.
//! * `"uses-lang"` -- a translation-key usage (`@lang` / `@choice` and the
//!   `__` / `trans` / `trans_choice` helpers anywhere in the text).
//!
//! Targets are kept raw (the dotted view name / the translation key); the
//! dotted-name -> file-path resolution happens later in `resolve`. Only a
//! captured string literal (single or double quoted) produces an edge; a purely
//! dynamic reference (a variable) is skipped.

use vstd::prelude::*;
use vstd::slice::slice_subrange;

use crate::model;
use crate::model::{make_file, EdgeView, FoundView, Node, RawEdge};
use crate::scan;
use crate::scan::Nesting;
use crate::seqs;
use crate::text;
use crate::text::{chars_of, is_text, string_of, CharSet};

verus! {

broadcast use {
    crate::seqs::group_text,
    text::lemma_run,
    text::lemma_seek,
    scan::lemma_closing,
    scan::lemma_matching,
};

/// The Blade format: routes every `*.blade.php`. Registered before PHP so these
/// templates never reach Mago (which chokes on `@directive` / `{{ }}`).
pub struct Blade;

// ---------------------------------------------------------------------------
// Suppressed regions

/// `s` from index `i` on, without its `open ... close` regions (non-nesting; an
/// unterminated `open` drops the remainder).
pub open spec fn stripped_from(s: Seq<char>, open: Seq<char>, close: Seq<char>, i: int) -> Seq<char>
    decreases s.len() - i,
{
    let a = text::find(s, open, i);
    let b = text::find(s, close, a + open.len());
    if i < 0 || i > s.len() || open.len() == 0 {
        Seq::empty()
    } else if a >= s.len() {
        s.subrange(i, s.len() as int)
    } else {
        proof {
            text::lemma_find(s, open, i);
            text::lemma_find(s, close, a + open.len());
        }
        s.subrange(i, a) + (if b >= s.len() {
            Seq::empty()
        } else {
            stripped_from(s, open, close, b + close.len())
        })
    }
}

/// `s` without its `open ... close` regions.
pub open spec fn stripped(s: Seq<char>, open: Seq<char>, close: Seq<char>) -> Seq<char> {
    stripped_from(s, open, close, 0)
}

/// Appends a text.
fn extend(out: &mut Vec<char>, s: &[char])
    ensures
        final(out)@ == old(out)@ + s@,
{
    let ghost first = out@;
    let mut i: usize = 0;
    while i < s.len()
        invariant
            i <= s@.len(),
            out@ == first + s@.take(i as int),
        decreases s@.len() - i,
    {
        out.push(s[i]);
        i += 1;
        assert(s@.take(i as int) =~= s@.take(i - 1).push(s@[i - 1]));
    }
    assert(s@.take(i as int) =~= s@);
}

/// Removes every `open ... close` region (non-nesting; an unterminated `open`
/// drops the remainder).
fn strip_between(s: &[char], open: &str, close: &str) -> (r: Vec<char>)
    requires
        open@.len() > 0,
    ensures
        r@ == stripped(s@, open@, close@),
{
    let size = s.len();
    let mut out: Vec<char> = Vec::new();
    let mut i: usize = 0;
    loop
        invariant
            i <= size == s@.len(),
            open@.len() > 0,
            out@ + stripped_from(s@, open@, close@, i as int) == stripped(s@, open@, close@),
        decreases s@.len() - i,
    {
        let a = text::search(s, open, i);
        if a >= size {
            extend(&mut out, slice_subrange(s, i, size));
            return out;
        }
        extend(&mut out, slice_subrange(s, i, a));
        let b = text::search(s, close, a + text::length_of(open));
        if b >= size {
            return out;
        }
        i = b + text::length_of(close);
    }
}

/// A template without what Blade does not process: `{{-- --}}` comments and
/// `@verbatim ... @endverbatim` blocks both suppress directives and echoes.
pub open spec fn live(code: Seq<char>) -> Seq<char> {
    stripped(stripped(code, "{{--"@, "--}}"@), "@verbatim"@, "@endverbatim"@)
}

// ---------------------------------------------------------------------------
// Directives

/// The content of the first literal of `s`, where that literal is closed.
pub open spec fn first_string(s: Seq<char>) -> Option<Seq<char>> {
    let i = text::seek(s, 0, CharSet::Quote);
    if i >= s.len() || scan::closing(s, i + 1, s[i]) >= s.len() {
        None
    } else {
        Some(s.subrange(i + 1, scan::closing(s, i + 1, s[i])))
    }
}

/// The content of the first literal of `s`, where that literal is closed.
fn read_first_string<'a>(s: &'a [char]) -> (r: Option<&'a [char]>)
    ensures
        seqs::opt_view(r) == first_string(s@),
{
    let i = text::look(s, 0, CharSet::Quote);
    if i >= s.len() {
        return None;
    }
    let e = scan::close_quote(s, i + 1, s[i]);
    if e >= s.len() {
        return None;
    }
    Some(slice_subrange(s, i + 1, e))
}

/// Parentheses, square brackets and braces nest; single and double quotes delimit.
pub open spec fn nesting() -> Nesting {
    Nesting { braces: true, quotes: CharSet::Quote }
}

/// A directive whose view is its first string literal. `@extends` is layout
/// inheritance -- the same relation, so one query covers every view reference.
/// `@livewire('name')` references a Livewire component by its registered name.
pub open spec fn is_view_directive(d: Seq<char>) -> bool {
    ||| d == "include"@
    ||| d == "includeIf"@
    ||| d == "extends"@
    ||| d == "component"@
    ||| d == "each"@
    ||| d == "livewire"@
}

/// A conditional directive, whose view is in its second argument.
pub open spec fn is_conditional_directive(d: Seq<char>) -> bool {
    d == "includeWhen"@ || d == "includeUnless"@
}

/// The views that a directive refers to.
pub open spec fn directive_views(d: Seq<char>, args: Seq<char>) -> Seq<Seq<char>> {
    let parts = scan::arguments(args, nesting());
    if is_view_directive(d) {
        seqs::opt_seq(first_string(args))
    } else if is_conditional_directive(d) {
        if parts.len() >= 2 {
            seqs::opt_seq(first_string(parts[1]))
        } else {
            Seq::empty()
        }
    } else if d == "includeFirst"@ {
        scan::literals(parts[0])
    } else {
        Seq::empty()
    }
}

/// The translation key that a directive uses.
pub open spec fn directive_keys(d: Seq<char>, args: Seq<char>) -> Seq<Seq<char>> {
    if d == "lang"@ || d == "choice"@ {
        seqs::opt_seq(first_string(args))
    } else {
        Seq::empty()
    }
}

pub open spec fn edges_to(rel: Seq<char>, relation: Seq<char>, names: Seq<Seq<char>>) -> Seq<EdgeView> {
    names.map_values(|n: Seq<char>| model::named_edge(rel, relation, n))
}

/// The edges of one directive; none for a directive that references neither a
/// view nor a translation key.
pub open spec fn directive_edges(rel: Seq<char>, d: Seq<char>, args: Seq<char>) -> Seq<EdgeView> {
    edges_to(rel, "includes"@, directive_views(d, args)) + edges_to(rel, "uses-lang"@, directive_keys(d, args))
}

/// Appends an edge to each of the names.
fn push_edges(rel: &str, relation: &'static str, names: &[&[char]], edges: &mut Vec<RawEdge>)
    ensures
        seqs::views(final(edges)@) == seqs::views(old(edges)@) + edges_to(rel@, relation@, seqs::views(names@)),
{
    let ghost first = seqs::views(edges@);
    let ghost want = edges_to(rel@, relation@, seqs::views(names@));
    let mut k: usize = 0;
    while k < names.len()
        invariant
            k <= names@.len(),
            want == edges_to(rel@, relation@, seqs::views(names@)),
            seqs::views(edges@) == first + want.take(k as int),
        decreases names@.len() - k,
    {
        edges.push(RawEdge::named(rel.to_string(), relation, string_of(names[k])));
        assert(want.take(k + 1) =~= want.take(k as int).push(want[k as int]));
        k += 1;
    }
    assert(want.take(k as int) =~= want);
}

/// The views that a directive refers to.
fn views_of<'a>(d: &[char], args: &'a [char]) -> (r: Vec<&'a [char]>)
    ensures
        seqs::views(r@) == directive_views(d@, args@),
{
    let mut out: Vec<&'a [char]> = Vec::new();
    if is_text(d, "include") || is_text(d, "includeIf") || is_text(d, "extends") || is_text(d, "component")
        || is_text(d, "each") || is_text(d, "livewire") {
        if let Some(view) = read_first_string(args) {
            out.push(view);
        }
        assert(seqs::views(out@) =~= seqs::opt_seq(first_string(args@)));
        return out;
    }
    if is_text(d, "includeWhen") || is_text(d, "includeUnless") {
        // The view is the second argument, so a string inside the boolean
        // condition is not mistaken for it.
        let parts = scan::split_arguments(args, Nesting { braces: true, quotes: CharSet::Quote });
        let ghost all = seqs::views(parts@);
        if parts.len() >= 2 {
            assert(all[1] == parts@[1]@);
            if let Some(view) = read_first_string(parts[1]) {
                out.push(view);
            }
            assert(seqs::views(out@) =~= seqs::opt_seq(first_string(all[1])));
        }
        return out;
    }
    if is_text(d, "includeFirst") {
        // Every view in the first array argument (the second is data).
        let parts = scan::split_arguments(args, Nesting { braces: true, quotes: CharSet::Quote });
        assert(seqs::views(parts@)[0] == parts@[0]@);
        return scan::all_literals(parts[0]);
    }
    out
}

/// Emits the edges of one directive.
fn handle_directive(rel: &str, d: &[char], args: &[char], edges: &mut Vec<RawEdge>)
    ensures
        seqs::views(final(edges)@) == seqs::views(old(edges)@) + directive_edges(rel@, d@, args@),
{
    let views = views_of(d, args);
    push_edges(rel, "includes", &views, edges);
    let mut keys: Vec<&[char]> = Vec::new();
    if is_text(d, "lang") || is_text(d, "choice") {
        if let Some(key) = read_first_string(args) {
            keys.push(key);
        }
    }
    assert(seqs::views(keys@) =~= directive_keys(d@, args@));
    push_edges(rel, "uses-lang", &keys, edges);
}

/// The edges of the `@directive(...)` occurrences from index `i` on. `@@directive`
/// is an escaped literal, not a directive.
pub open spec fn directives_from(rel: Seq<char>, s: Seq<char>, i: int) -> Seq<EdgeView>
    decreases s.len() - i,
{
    let a = text::run(s, i + 1, CharSet::Alpha);
    let o = text::run(s, a, CharSet::Blank);
    let c = scan::partner(s, o, '(', ')', CharSet::Quote);
    if i < 0 || i >= s.len() {
        Seq::empty()
    } else if s[i] != '@' || scan::preceded(s, i, CharSet::One('@')) || a == i + 1 || !scan::at(
        s,
        o,
        CharSet::One('('),
    ) || c >= s.len() {
        directives_from(rel, s, i + 1)
    } else {
        proof {
            text::lemma_run(s, i + 1, CharSet::Alpha);
            text::lemma_run(s, a, CharSet::Blank);
            scan::lemma_matching(s, o + 1, 1, '(', ')', CharSet::Quote);
        }
        directive_edges(rel, s.subrange(i + 1, a), s.subrange(o + 1, c)) + directives_from(rel, s, c + 1)
    }
}

/// Scan `@directive(...)` occurrences and emit `includes` / `uses-lang` edges
/// for the view-reference and translation directive families.
fn scan_directives(rel: &str, s: &[char], edges: &mut Vec<RawEdge>)
    ensures
        seqs::views(final(edges)@) == seqs::views(old(edges)@) + directives_from(rel@, s@, 0),
{
    let ghost first = seqs::views(edges@);
    let mut i: usize = 0;
    while i < s.len()
        invariant
            i <= s@.len(),
            seqs::views(edges@) + directives_from(rel@, s@, i as int) == first + directives_from(rel@, s@, 0),
        decreases s@.len() - i,
    {
        if s[i] != '@' || scan::is_preceded(s, i, CharSet::One('@')) {
            i += 1;
        } else {
            let a = text::skip(s, i + 1, CharSet::Alpha);
            let o = text::skip(s, a, CharSet::Blank);
            if a == i + 1 || !scan::is_at(s, o, CharSet::One('(')) {
                i += 1;
            } else {
                let c = scan::close_bracket(s, o, '(', ')', CharSet::Quote);
                if c >= s.len() {
                    i += 1;
                } else {
                    handle_directive(rel, slice_subrange(s, i + 1, a), slice_subrange(s, o + 1, c), edges);
                    i = c + 1;
                }
            }
        }
    }
}

// ---------------------------------------------------------------------------
// Component tags

/// The view that the component tag opened by the `<x-` at index `i` renders
/// (`<x-foo.bar>` -> `foo.bar`, `<x-foo />` -> `foo`). A slot is not a view, and
/// a dynamic component has no literal name.
pub open spec fn component_at(s: Seq<char>, i: int) -> Seq<Seq<char>> {
    let name = s.subrange(i + 3, text::run(s, i + 3, CharSet::Tag));
    if name.len() == 0 || name == "slot"@ || text::starts(name, "slot:"@) || name == "dynamic-component"@ {
        Seq::empty()
    } else {
        seq![name]
    }
}

pub open spec fn component_of(s: Seq<char>) -> spec_fn(int) -> Seq<Seq<char>> {
    |i: int| component_at(s, i)
}

/// The Livewire component that the tag opened at index `i` renders.
pub open spec fn livewire_at(s: Seq<char>, i: int) -> Seq<Seq<char>> {
    let a = i + "<livewire:"@.len();
    let name = s.subrange(a, text::run(s, a, CharSet::Dotted));
    if name.len() == 0 {
        Seq::empty()
    } else {
        seq![name]
    }
}

pub open spec fn livewire_of(s: Seq<char>) -> spec_fn(int) -> Seq<Seq<char>> {
    |i: int| livewire_at(s, i)
}

/// The views that the component tags of a template render.
pub open spec fn component_names(s: Seq<char>) -> Seq<Seq<char>> {
    seqs::each(text::hits(s, "<x-"@, 0), component_of(s)) + seqs::each(
        text::hits(s, "<livewire:"@, 0),
        livewire_of(s),
    )
}

/// Scan `<x-...>` and `<livewire:...>` component tags and emit an `includes` edge
/// with the dotted component/view name.
fn scan_components(rel: &str, s: &[char], edges: &mut Vec<RawEdge>)
    ensures
        seqs::views(final(edges)@) == seqs::views(old(edges)@) + edges_to(
            rel@,
            "includes"@,
            component_names(s@),
        ),
{
    proof {
        reveal_strlit("<x-");
    }
    let places = text::occurrences(s, "<x-");
    let ghost ks = text::hits(s@, "<x-"@, 0);
    let mut names: Vec<&[char]> = Vec::new();
    let mut k: usize = 0;
    while k < places.len()
        invariant
            "<x-"@.len() == 3,
            k <= places@.len(),
            ks == text::hits(s@, "<x-"@, 0),
            text::are_hits(s@, "<x-"@, places@),
            seqs::views(names@) + seqs::each_from(ks, k as int, component_of(s@)) == seqs::each(
                ks,
                component_of(s@),
            ),
        decreases places@.len() - k,
    {
        let i = places[k];
        assert(ks[k as int] == i);
        let name = slice_subrange(s, i + 3, text::skip(s, i + 3, CharSet::Tag));
        if name.len() > 0 && !is_text(name, "slot") && !text::starts_with(name, "slot:") && !is_text(
            name,
            "dynamic-component",
        ) {
            names.push(name);
        }
        k += 1;
    }
    let ghost tags = seqs::views(names@);
    let places = text::occurrences(s, "<livewire:");
    let n = text::length_of("<livewire:");
    let ghost ks = text::hits(s@, "<livewire:"@, 0);
    let mut k: usize = 0;
    while k < places.len()
        invariant
            n == "<livewire:"@.len(),
            k <= places@.len(),
            ks == text::hits(s@, "<livewire:"@, 0),
            text::are_hits(s@, "<livewire:"@, places@),
            seqs::views(names@) + seqs::each_from(ks, k as int, livewire_of(s@)) == tags + seqs::each(
                ks,
                livewire_of(s@),
            ),
        decreases places@.len() - k,
    {
        let i = places[k];
        assert(ks[k as int] == i);
        let name = slice_subrange(s, i + n, text::skip(s, i + n, CharSet::Dotted));
        if name.len() > 0 {
            names.push(name);
        }
        k += 1;
    }
    push_edges(rel, "includes", &names, edges);
}

// ---------------------------------------------------------------------------
// Translation helpers

/// The key that the call of the helper named at index `i` carries. A preceding
/// identifier character rules out a longer name (`mytrans(`, `->__construct(`).
pub open spec fn helper_key(s: Seq<char>, f: Seq<char>, i: int) -> Option<Seq<char>> {
    let o = text::run(s, i + f.len(), CharSet::Blank);
    let c = scan::partner(s, o, '(', ')', CharSet::Quote);
    if scan::preceded(s, i, CharSet::Callee) || !scan::at(s, o, CharSet::One('(')) || c >= s.len() {
        None
    } else {
        first_string(s.subrange(o + 1, c))
    }
}

pub open spec fn helper_key_of(s: Seq<char>, f: Seq<char>) -> spec_fn(int) -> Seq<Seq<char>> {
    |i: int| seqs::opt_seq(helper_key(s, f, i))
}

/// The keys of the `f(<string>, ...)` calls of a template.
pub open spec fn helper_keys(s: Seq<char>, f: Seq<char>) -> Seq<Seq<char>> {
    seqs::each(text::hits(s, f, 0), helper_key_of(s, f))
}

/// Emit a `uses-lang` edge for every `fname(<string>, ...)` call.
fn scan_call(rel: &str, s: &[char], fname: &str, edges: &mut Vec<RawEdge>)
    ensures
        seqs::views(final(edges)@) == seqs::views(old(edges)@) + edges_to(
            rel@,
            "uses-lang"@,
            helper_keys(s@, fname@),
        ),
{
    let places = text::occurrences(s, fname);
    let n = text::length_of(fname);
    let ghost ks = text::hits(s@, fname@, 0);
    let mut names: Vec<&[char]> = Vec::new();
    let mut k: usize = 0;
    while k < places.len()
        invariant
            n == fname@.len(),
            k <= places@.len(),
            ks == text::hits(s@, fname@, 0),
            text::are_hits(s@, fname@, places@),
            seqs::views(names@) + seqs::each_from(ks, k as int, helper_key_of(s@, fname@)) == helper_keys(
                s@,
                fname@,
            ),
        decreases places@.len() - k,
    {
        let i = places[k];
        assert(ks[k as int] == i);
        let o = text::skip(s, i + n, CharSet::Blank);
        if !scan::is_preceded(s, i, CharSet::Callee) && scan::is_at(s, o, CharSet::One('(')) {
            let c = scan::close_bracket(s, o, '(', ')', CharSet::Quote);
            if c < s.len() {
                if let Some(key) = read_first_string(slice_subrange(s, o + 1, c)) {
                    names.push(key);
                }
            }
        }
        k += 1;
    }
    push_edges(rel, "uses-lang", &names, edges);
}

// ---------------------------------------------------------------------------
// The template

/// The edges of the live part of a template.
pub open spec fn template_edges(rel: Seq<char>, s: Seq<char>) -> Seq<EdgeView> {
    directives_from(rel, s, 0) + edges_to(rel, "includes"@, component_names(s)) + edges_to(
        rel,
        "uses-lang"@,
        helper_keys(s, "trans_choice"@),
    ) + edges_to(rel, "uses-lang"@, helper_keys(s, "trans"@)) + edges_to(
        rel,
        "uses-lang"@,
        helper_keys(s, "__"@),
    )
}

/// What a Blade template gives.
pub open spec fn extracted(rel: Seq<char>, base: Seq<char>, code: Seq<char>) -> FoundView {
    FoundView { nodes: seq![model::file_node(rel, base)], edges: template_edges(rel, live(code)) }
}

/// Extract a Blade template (`*.blade.php`) into nodes + raw edges.
///
/// Emits exactly one `file` node (id = `rel`, span `0..0`, like every file node)
/// plus `includes` / `uses-lang` edges whose `source` is the file id.
pub fn extract(rel: &str, base: &str, code: &str) -> (r: (Vec<Node>, Vec<RawEdge>))
    ensures
        seqs::views(r.0@) == extracted(rel@, base@, code@).nodes,
        seqs::views(r.1@) == extracted(rel@, base@, code@).edges,
{
    proof {
        reveal_strlit("{{--");
        reveal_strlit("@verbatim");
    }
    let mut nodes: Vec<Node> = Vec::new();
    nodes.push(make_file(rel, base));
    assert(seqs::views(nodes@) =~= seq![model::file_node(rel@, base@)]);
    let s = chars_of(code);
    let uncommented = strip_between(&s, "{{--", "--}}");
    let cleaned = strip_between(&uncommented, "@verbatim", "@endverbatim");
    let mut edges: Vec<RawEdge> = Vec::new();
    scan_directives(rel, &cleaned, &mut edges);
    scan_components(rel, &cleaned, &mut edges);
    scan_call(rel, &cleaned, "trans_choice", &mut edges);
    scan_call(rel, &cleaned, "trans", &mut edges);
    scan_call(rel, &cleaned, "__", &mut edges);
    (nodes, edges)
}

// ---------------------------------------------------------------------------
// Laws

proof fn lemma_first_find(s: Seq<char>, p: Seq<char>, i: int, k: int)
    requires
        0 <= i <= k < s.len(),
        text::occurs(s, k, p),
        forall|j: int| i <= j < k ==> !#[trigger] text::occurs(s, j, p),
    ensures
        text::find(s, p, i) == k,
    decreases k - i,
{
    if i < k {
        lemma_first_find(s, p, i + 1, k);
    }
}

proof fn lemma_shifted_find(s: Seq<char>, p: Seq<char>, i: int, n: int)
    requires
        0 <= n <= i <= s.len(),
    ensures
        text::find(s, p, i) == n + text::find(s.skip(n), p, i - n),
    decreases s.len() - i,
{
    let t = s.skip(n);
    if i < s.len() {
        lemma_shifted_find(s, p, i + 1, n);
        if i + p.len() <= s.len() {
            assert(s.subrange(i, i + p.len()) =~= t.subrange(i - n, i - n + p.len()));
        }
    }
}

proof fn lemma_shifted_strip(s: Seq<char>, open: Seq<char>, close: Seq<char>, i: int, n: int)
    requires
        0 <= n <= i <= s.len(),
        open.len() > 0,
    ensures
        stripped_from(s, open, close, i) == stripped_from(s.skip(n), open, close, i - n),
    decreases s.len() - i,
{
    let t = s.skip(n);
    let a = text::find(s, open, i);
    text::lemma_find(s, open, i);
    lemma_shifted_find(s, open, i, n);
    if a < s.len() {
        let b = text::find(s, close, a + open.len());
        text::lemma_find(s, close, a + open.len());
        lemma_shifted_find(s, close, a + open.len(), n);
        assert(s.subrange(i, a) =~= t.subrange(i - n, a - n));
        if b < s.len() {
            lemma_shifted_strip(s, open, close, b + close.len(), n);
        }
    } else {
        assert(s.subrange(i, s.len() as int) =~= t.subrange(i - n, t.len() as int));
    }
}

/// `x` runs up to the first `mark` after it.
pub open spec fn runs_to(x: Seq<char>, mark: Seq<char>) -> bool {
    forall|j: int| 0 <= j < x.len() ==> !#[trigger] text::occurs(x + mark, j, mark)
}

proof fn lemma_mark_after(head: Seq<char>, x: Seq<char>, mark: Seq<char>, tail: Seq<char>)
    requires
        mark.len() > 0,
        runs_to(x, mark),
    ensures
        text::find(head + (x + (mark + tail)), mark, head.len() as int) == head.len() + x.len(),
{
    let s = head + (x + (mark + tail));
    let n = head.len() as int;
    let k = n + x.len();
    assert(s.subrange(k, k + mark.len()) =~= mark);
    assert forall|j: int| n <= j < k implies !#[trigger] text::occurs(s, j, mark) by {
        if text::occurs(s, j, mark) {
            assert((x + mark).subrange(j - n, j - n + mark.len()) =~= s.subrange(j, j + mark.len()));
            assert(text::occurs(x + mark, j - n, mark));
        }
    }
    lemma_first_find(s, mark, n, k);
}

/// A closed region is dropped, whatever it holds.
pub proof fn a_region_is_dropped(
    before: Seq<char>,
    open: Seq<char>,
    inside: Seq<char>,
    close: Seq<char>,
    after: Seq<char>,
)
    requires
        open.len() > 0,
        close.len() > 0,
        runs_to(before, open),
        runs_to(inside, close),
    ensures
        stripped(before + (open + (inside + (close + after))), open, close) == before + stripped(
            after,
            open,
            close,
        ),
{
    let s = before + (open + (inside + (close + after)));
    let a = before.len() as int;
    let b = a + open.len() + inside.len();
    lemma_mark_after(Seq::empty(), before, open, inside + (close + after));
    assert(Seq::<char>::empty() + s =~= s);
    lemma_mark_after(before + open, inside, close, after);
    assert((before + open) + (inside + (close + after)) =~= s);
    lemma_shifted_strip(s, open, close, b + close.len(), b + close.len());
    assert(s.skip(b + close.len()) =~= after);
    assert(s.subrange(0, a) =~= before);
}

/// What a comment says does not matter: two templates that differ only inside of a
/// comment hold the same.
pub proof fn comments_do_not_matter(
    rel: Seq<char>,
    base: Seq<char>,
    before: Seq<char>,
    comment: Seq<char>,
    other: Seq<char>,
    after: Seq<char>,
)
    requires
        runs_to(before, "{{--"@),
        runs_to(comment, "--}}"@),
        runs_to(other, "--}}"@),
    ensures
        extracted(rel, base, before + ("{{--"@ + (comment + ("--}}"@ + after)))) == extracted(
            rel,
            base,
            before + ("{{--"@ + (other + ("--}}"@ + after))),
        ),
{
    reveal_strlit("{{--");
    reveal_strlit("--}}");
    a_region_is_dropped(before, "{{--"@, comment, "--}}"@, after);
    a_region_is_dropped(before, "{{--"@, other, "--}}"@, after);
}

} // verus!
