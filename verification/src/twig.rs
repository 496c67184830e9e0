//! Twig template extraction (`*.twig`). Hand-scanned like Blade: template tags
//! (`{% extends %}` / `{% embed %}` / `{% import %}` / `{% from %}` / `{% use %}`
//! and the tag that pulls in a partial) emit `includes` edges to the referenced
//! template, translations (`{% trans %}...{% endtrans %}` blocks and the `|trans`
//! filter) emit `uses-lang`, and calls (`{{ name(...) }}`) emit `uses-fn`.
//! Whitespace-control markers (`{%- ... -%}`) are tolerated.

use vstd::prelude::*;
use vstd::slice::slice_subrange;

use crate::lang;
use crate::model;
use crate::model::{make_file, EdgeView, FoundView, Node, RawEdge};
use crate::scan;
use crate::seqs;
use crate::text;
use crate::text::{chars_of, is_text, string_of, CharSet};

verus! {

broadcast use {crate::seqs::group_text, text::lemma_run, text::lemma_seek};

/// The Twig format: routes every `*.twig`.
pub struct Twig;

/// The first word of a text, or nothing.
pub open spec fn first_word(s: Seq<char>) -> Seq<char> {
    let a = text::run(s, 0, CharSet::Space);
    s.subrange(a, text::seek(s, a, CharSet::Space))
}

/// The first word of a text.
fn keyword_of<'a>(s: &'a [char]) -> (r: &'a [char])
    ensures
        r@ == first_word(s@),
{
    let a = text::skip(s, 0, CharSet::Space);
    slice_subrange(s, a, text::look(s, a, CharSet::Space))
}

/// A tag that refers to another template.
pub open spec fn is_reference_tag(w: Seq<char>) -> bool {
    ||| w == "extends"@
    ||| w == "include"@
    ||| w == "embed"@
    ||| w == "import"@
    ||| w == "from"@
    ||| w == "use"@
}

/// The content of the tag opened by the `{%` at index `i`.
pub open spec fn tag_at(s: Seq<char>, i: int) -> Option<Seq<char>> {
    let e = text::find(s, "%}"@, i + 2);
    if e >= s.len() {
        None
    } else {
        Some(
            text::trimmed(
                text::trimmed_start(text::trimmed(s.subrange(i + 2, e), CharSet::Space), CharSet::One('-')),
                CharSet::Space,
            ),
        )
    }
}

pub open spec fn tag_edge(rel: Seq<char>, s: Seq<char>) -> spec_fn(int) -> Seq<EdgeView> {
    |i: int|
        match tag_at(s, i) {
            Some(tag) => if is_reference_tag(first_word(tag)) && scan::literal(tag, CharSet::Quote) is Some {
                seq![model::named_edge(rel, "includes"@, scan::literal(tag, CharSet::Quote)->0)]
            } else {
                Seq::empty()
            },
            None => Seq::empty(),
        }
}

/// An `includes` edge for each template-reference tag's first quoted name.
pub open spec fn tag_edges(rel: Seq<char>, s: Seq<char>) -> Seq<EdgeView> {
    seqs::each(text::hits(s, "{%"@, 0), tag_edge(rel, s))
}

/// Emit an `includes` edge for each template-reference tag's first quoted name.
fn scan_tags(rel: &str, s: &[char]) -> (r: Vec<RawEdge>)
    ensures
        seqs::views(r@) == tag_edges(rel@, s@),
{
    proof {
        reveal_strlit("{%");
    }
    let places = text::occurrences(s, "{%");
    let ghost ks = text::hits(s@, "{%"@, 0);
    let mut out: Vec<RawEdge> = Vec::new();
    let mut k: usize = 0;
    while k < places.len()
        invariant
            "{%"@.len() == 2,
            k <= places@.len(),
            ks == text::hits(s@, "{%"@, 0),
            text::are_hits(s@, "{%"@, places@),
            seqs::views(out@) + seqs::each_from(ks, k as int, tag_edge(rel@, s@)) == tag_edges(rel@, s@),
        decreases places@.len() - k,
    {
        let i = places[k];
        assert(ks[k as int] == i);
        let e = text::search(s, "%}", i + 2);
        if e < s.len() {
            let inner = text::trim(slice_subrange(s, i + 2, e), CharSet::Space);
            let tag = text::trim(text::trim_start(inner, CharSet::One('-')), CharSet::Space);
            let w = keyword_of(tag);
            if is_text(w, "extends") || is_text(w, "include") || is_text(w, "embed") || is_text(w, "import")
                || is_text(w, "from") || is_text(w, "use") {
                if let Some(name) = scan::first_literal(tag, CharSet::Quote) {
                    out.push(RawEdge::named(rel.to_string(), "includes", string_of(name)));
                }
            }
        }
        k += 1;
    }
    out
}

/// The keyword of the tag between `a` and `e`, behind its whitespace control.
pub open spec fn block_keyword(s: Seq<char>, a: int, e: int) -> Seq<char> {
    first_word(
        text::trimmed_start(
            text::trimmed_start(s.subrange(a, e), CharSet::Space),
            CharSet::Two('-', ' '),
        ),
    )
}

/// The text between `a` and the tag that holds the word at `e`.
pub open spec fn block_text(s: Seq<char>, a: int, e: int) -> Seq<char> {
    let body = s.subrange(a, e);
    let t = text::find_back(body, "{%"@, body.len() - 1);
    text::trimmed(body.subrange(0, t), CharSet::Space)
}

/// The texts of the `{% trans %}...{% endtrans %}` blocks from index `i` on.
pub open spec fn blocks_from(s: Seq<char>, i: int) -> Seq<Seq<char>>
    decreases s.len() - i,
{
    let open = text::find(s, "{%"@, i);
    let close = text::find(s, "%}"@, open + 2);
    let end = text::find(s, "endtrans"@, close + 2);
    if i < 0 || i > s.len() || open >= s.len() || close >= s.len() {
        Seq::empty()
    } else {
        proof {
            reveal_strlit("{%");
            reveal_strlit("%}");
            reveal_strlit("endtrans");
            text::lemma_find(s, "{%"@, i);
            text::lemma_find(s, "%}"@, open + 2);
            text::lemma_find(s, "endtrans"@, close + 2);
        }
        if block_keyword(s, open + 2, close) != "trans"@ {
            blocks_from(s, close + 2)
        } else if end >= s.len() {
            Seq::empty()
        } else {
            let text = block_text(s, close + 2, end);
            (if text.len() > 0 {
                seq![text]
            } else {
                Seq::empty()
            }) + blocks_from(s, end + "endtrans"@.len())
        }
    }
}

/// A `uses-lang` edge for each translation block, keyed by its (trimmed) inner
/// text -- the gettext msgid.
pub open spec fn block_edges(rel: Seq<char>, s: Seq<char>) -> Seq<EdgeView> {
    blocks_from(s, 0).map_values(|t: Seq<char>| model::named_edge(rel, "uses-lang"@, t))
}

/// The texts of the translation blocks.
fn trans_blocks(s: &[char]) -> (r: Vec<String>)
    ensures
        seqs::views(r@) == blocks_from(s@, 0),
{
    let n = text::length_of("endtrans");
    let size = s.len();
    let mut out: Vec<String> = Vec::new();
    let mut i: usize = 0;
    loop
        invariant
            n == "endtrans"@.len(),
            i <= size == s@.len(),
            seqs::views(out@) + blocks_from(s@, i as int) == blocks_from(s@, 0),
        decreases s@.len() - i,
    {
        proof {
            reveal_strlit("{%");
            reveal_strlit("%}");
            reveal_strlit("endtrans");
        }
        let open = text::search(s, "{%", i);
        if open >= size {
            return out;
        }
        let close = text::search(s, "%}", open + 2);
        if close >= size {
            return out;
        }
        let tag = text::trim_start(slice_subrange(s, open + 2, close), CharSet::Space);
        if !is_text(keyword_of(text::trim_start(tag, CharSet::Two('-', ' '))), "trans") {
            i = close + 2;
        } else {
            let end = text::search(s, "endtrans", close + 2);
            if end >= size {
                return out;
            }
            // The msgid ends just before the `{%` (or `{%-`) that opens `endtrans`.
            let body = slice_subrange(s, close + 2, end);
            let msgid = text::trim(slice_subrange(body, 0, text::search_last(body, "{%")), CharSet::Space);
            if msgid.len() > 0 {
                out.push(string_of(msgid));
            }
            i = end + n;
        }
    }
}

/// The names that are called from index `i` of an expression on: `name(...)`,
/// outside string literals, and not as the method of an object.
pub open spec fn calls_from(s: Seq<char>, i: int) -> Seq<Seq<char>>
    decreases s.len() - i,
{
    let e = scan::closing(s, i + 1, s[i]);
    let b = text::run(s, i, CharSet::Word);
    if i < 0 || i >= s.len() {
        Seq::empty()
    } else if CharSet::Quote.has(s[i]) {
        proof {
            scan::lemma_closing(s, i + 1, s[i]);
        }
        if e < s.len() {
            calls_from(s, e + 1)
        } else {
            Seq::empty()
        }
    } else if CharSet::Word.has(s[i]) {
        (if scan::at(s, text::run(s, b, CharSet::AsciiSpace), CharSet::One('(')) && !CharSet::Digit.has(s[i])
            && !scan::preceded(s, i, CharSet::One('.')) {
            seq![s.subrange(i, b)]
        } else {
            Seq::empty()
        }) + calls_from(s, b)
    } else {
        calls_from(s, i + 1)
    }
}

/// The names that an expression calls.
fn called_names(s: &[char]) -> (r: Vec<String>)
    ensures
        seqs::views(r@) == calls_from(s@, 0),
{
    let size = s.len();
    let mut out: Vec<String> = Vec::new();
    let mut i: usize = 0;
    while i < size
        invariant
            size == s@.len(),
            seqs::views(out@) + calls_from(s@, i as int) == calls_from(s@, 0),
        decreases size - i,
    {
        if CharSet::Quote.test(s[i]) {
            let e = scan::close_quote(s, i + 1, s[i]);
            if e >= size {
                return out;
            }
            i = e + 1;
        } else if CharSet::Word.test(s[i]) {
            let b = text::skip(s, i, CharSet::Word);
            if scan::is_at(s, text::skip(s, b, CharSet::AsciiSpace), CharSet::One('(')) && !CharSet::Digit.test(
                s[i],
            ) && !scan::is_preceded(s, i, CharSet::One('.')) {
                out.push(string_of(slice_subrange(s, i, b)));
            }
            i = b;
        } else {
            i += 1;
        }
    }
    out
}

/// The names that are called between the mark at index `i`, two characters long,
/// and the mark `close`.
pub open spec fn region_calls(s: Seq<char>, close: Seq<char>) -> spec_fn(int) -> Seq<Seq<char>> {
    |i: int|
        {
            let e = text::find(s, close, i + 2);
            if e < s.len() {
                calls_from(s.subrange(i + 2, e), 0)
            } else {
                Seq::empty()
            }
        }
}

/// The names that are called in the regions between two marks.
pub open spec fn calls_between(s: Seq<char>, open: Seq<char>, close: Seq<char>) -> Seq<Seq<char>> {
    seqs::each(text::hits(s, open, 0), region_calls(s, close))
}

fn names_between(s: &[char], open: &str, close: &str) -> (r: Vec<String>)
    requires
        open@.len() == 2,
    ensures
        seqs::views(r@) == calls_between(s@, open@, close@),
{
    let places = text::occurrences(s, open);
    let ghost ks = text::hits(s@, open@, 0);
    let ghost f = region_calls(s@, close@);
    let mut out: Vec<String> = Vec::new();
    let mut k: usize = 0;
    while k < places.len()
        invariant
            open@.len() == 2,
            k <= places@.len(),
            ks == text::hits(s@, open@, 0),
            f == region_calls(s@, close@),
            text::are_hits(s@, open@, places@),
            seqs::views(out@) + seqs::each_from(ks, k as int, f) == calls_between(s@, open@, close@),
        decreases places@.len() - k,
    {
        let i = places[k];
        assert(ks[k as int] == i);
        let e = text::search(s, close, i + 2);
        if e < s.len() {
            let mut names = called_names(slice_subrange(s, i + 2, e));
            out.append(&mut names);
        }
        k += 1;
    }
    out
}

/// The names that a template calls, in what it prints and in its tags.
pub open spec fn called(s: Seq<char>) -> Seq<Seq<char>> {
    calls_between(s, "{{"@, "}}"@) + calls_between(s, "{%"@, "%}"@)
}

/// A `uses-fn` edge for each call of a function or filter. Which of them are
/// registered by the project is settled when the edges are resolved.
pub open spec fn call_edges(rel: Seq<char>, s: Seq<char>) -> Seq<EdgeView> {
    called(s).map_values(|t: Seq<char>| model::named_edge(rel, "uses-fn"@, t))
}

/// Adds an edge from `rel` to each name.
fn push_named(rel: &str, relation: &'static str, names: Vec<String>, edges: &mut Vec<RawEdge>)
    ensures
        seqs::views(final(edges)@) == seqs::views(old(edges)@) + seqs::views(names@).map_values(
            |t: Seq<char>| model::named_edge(rel@, relation@, t),
        ),
{
    let ghost first = seqs::views(edges@);
    let ghost want = seqs::views(names@).map_values(|t: Seq<char>| model::named_edge(rel@, relation@, t));
    for name in it: names
        invariant
            it.seq() == names@,
            want == seqs::views(names@).map_values(|t: Seq<char>| model::named_edge(rel@, relation@, t)),
            seqs::views(edges@) == first + want.take(it.index() as int),
    {
        assert(seqs::views(names@)[it.index() as int] == name@);
        edges.push(RawEdge::named(rel.to_string(), relation, name));
        assert(want.take(it.index() + 1) =~= want.take(it.index() as int).push(want[it.index() as int]));
    }
    assert(want.take(want.len() as int) =~= want);
}

/// The edges of a template.
#[verifier::opaque]
pub open spec fn template_edges(rel: Seq<char>, code: Seq<char>) -> Seq<EdgeView> {
    tag_edges(rel, code) + block_edges(rel, code) + lang::lang_edges(rel, code) + call_edges(rel, code)
}

/// What a Twig template gives.
pub open spec fn extracted(rel: Seq<char>, base: Seq<char>, code: Seq<char>) -> FoundView {
    FoundView {
        nodes: seq![model::file_node(rel, base)],
        edges: template_edges(rel, code),
    }
}

/// A `file` node plus `includes` / `uses-lang` / `uses-fn` edges for a Twig template.
pub fn extract(rel: &str, base: &str, code: &str) -> (r: (Vec<Node>, Vec<RawEdge>))
    ensures
        seqs::views(r.0@) == extracted(rel@, base@, code@).nodes,
        seqs::views(r.1@) == extracted(rel@, base@, code@).edges,
{
    let s = chars_of(code);
    let mut nodes: Vec<Node> = Vec::new();
    nodes.push(make_file(rel, base));
    assert(seqs::views(nodes@) =~= seq![model::file_node(rel@, base@)]);
    let mut edges = scan_tags(rel, &s);
    push_named(rel, "uses-lang", trans_blocks(&s), &mut edges);
    // The `|trans` filter (`'key'|trans`) is caught by the shared scanner.
    let mut keys = lang::scan(rel, code);
    edges.append(&mut keys);
    proof {
        reveal(template_edges);
        reveal_strlit("{{");
        reveal_strlit("{%");
    }
    let mut names = names_between(&s, "{{", "}}");
    let mut tagged = names_between(&s, "{%", "%}");
    names.append(&mut tagged);
    push_named(rel, "uses-fn", names, &mut edges);
    (nodes, edges)
}

} // verus!
