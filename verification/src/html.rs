//! HTML format: e.g. Angular external templates. HTML holds no code symbols, so
//! this emits a single `file` node plus translation-key usages (the
//! `| translate` pipe) from the shared scanner.

use vstd::prelude::*;
use vstd::slice::slice_subrange;

use crate::lang;
use crate::model;
use crate::model::{make_file, EdgeView, FoundView, Node, RawEdge};
use crate::scan;
use crate::seqs;
use crate::text;
use crate::text::{chars_of, string_of, CharSet};

verus! {

broadcast use {crate::seqs::group_text, text::lemma_run, text::lemma_seek};

/// The HTML format: routes every `*.html`.
pub struct Html;

/// A single `|` stands at index `i`, not one of two.
pub open spec fn lone_bar(s: Seq<char>, i: int) -> bool {
    &&& scan::at(s, i, CharSet::One('|'))
    &&& !scan::at(s, i + 1, CharSet::One('|'))
    &&& !scan::preceded(s, i, CharSet::One('|'))
}

/// The names of the template pipes `| name` from index `i` on.
pub open spec fn pipes_from(s: Seq<char>, i: int) -> Seq<Seq<char>>
    decreases s.len() - i,
{
    if i < 0 || i >= s.len() {
        Seq::empty()
    } else if lone_bar(s, i) {
        let a = text::run(s, i + 1, CharSet::AsciiSpace);
        let b = text::run(s, a, CharSet::Word);
        proof {
            text::lemma_run(s, i + 1, CharSet::AsciiSpace);
            text::lemma_run(s, a, CharSet::Word);
        }
        (if a < b {
            seq![s.subrange(a, b)]
        } else {
            Seq::empty()
        }) + pipes_from(s, b)
    } else {
        pipes_from(s, i + 1)
    }
}

/// A `uses-pipe` edge for each template pipe. Candidates only: those that no
/// class registered drop out when edges are resolved.
pub open spec fn pipe_edges(rel: Seq<char>, s: Seq<char>) -> Seq<EdgeView> {
    pipes_from(s, 0).map_values(|p: Seq<char>| model::named_edge(rel, "uses-pipe"@, p))
}

/// Emit a `uses-pipe` edge for each Angular template pipe use `| pipeName`
/// (`{{ x | myPipe:arg }}`). Candidates: only names a class registered with
/// `@Pipe({ name })` survive resolution, so built-in pipes (`date`, `async`,
/// `json`, ...) drop out without an exclude-list.
fn scan_pipes(rel: &str, s: &[char], edges: &mut Vec<RawEdge>)
    ensures
        seqs::views(final(edges)@) == seqs::views(old(edges)@) + pipe_edges(rel@, s@),
{
    let ghost first = seqs::views(edges@);
    let ghost mut names: Seq<Seq<char>> = Seq::empty();
    let ghost f = |p: Seq<char>| model::named_edge(rel@, "uses-pipe"@, p);
    let mut i: usize = 0;
    assert(names.map_values(f) =~= Seq::<EdgeView>::empty());
    while i < s.len()
        invariant
            i <= s@.len(),
            f == (|p: Seq<char>| model::named_edge(rel@, "uses-pipe"@, p)),
            names + pipes_from(s@, i as int) == pipes_from(s@, 0),
            seqs::views(edges@) == first + names.map_values(f),
        decreases s@.len() - i,
    {
        if scan::is_at(s, i, CharSet::One('|')) && !scan::is_at(s, i + 1, CharSet::One('|'))
            && !scan::is_preceded(s, i, CharSet::One('|')) {
            let a = text::skip(s, i + 1, CharSet::AsciiSpace);
            let b = text::skip(s, a, CharSet::Word);
            if a < b {
                let ghost name = s@.subrange(a as int, b as int);
                let ghost before = seqs::views(edges@);
                edges.push(
                    RawEdge::named(rel.to_string(), "uses-pipe", string_of(slice_subrange(s, a, b))),
                );
                proof {
                    assert(names.push(name).map_values(f) =~= names.map_values(f).push(f(name)));
                    assert(seqs::views(edges@) =~= first + names.push(name).map_values(f));
                    names = names.push(name);
                }
            }
            i = b;
        } else {
            i += 1;
        }
    }
    assert(names =~= pipes_from(s@, 0));
}

/// What an HTML file gives.
pub open spec fn extracted(rel: Seq<char>, base: Seq<char>, code: Seq<char>) -> FoundView {
    FoundView {
        nodes: seq![model::file_node(rel, base)],
        edges: lang::lang_edges(rel, code) + pipe_edges(rel, code),
    }
}

/// A `file` node for the template plus its translation-key + pipe usages.
pub fn extract(rel: &str, base: &str, code: &str) -> (r: (Vec<Node>, Vec<RawEdge>))
    ensures
        seqs::views(r.0@) == extracted(rel@, base@, code@).nodes,
        seqs::views(r.1@) == extracted(rel@, base@, code@).edges,
{
    let mut nodes: Vec<Node> = Vec::new();
    nodes.push(make_file(rel, base));
    assert(seqs::views(nodes@) =~= seq![model::file_node(rel@, base@)]);
    let mut edges = lang::scan(rel, code);
    scan_pipes(rel, &chars_of(code), &mut edges);
    (nodes, edges)
}

} // verus!
