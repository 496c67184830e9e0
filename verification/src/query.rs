//! Query layer over a built `wiring.json`: word search, signature/body slicing
//! (via the byte spans stored on each node), and a gaps report. Paths in the
//! graph are relative to the indexed root, so run queries from that same root.

use serde_json::Value;
use vstd::hash_set::StringHashSet;
use vstd::prelude::*;
use vstd::slice::slice_subrange;
use vstd::string::*;
use vstd::utf8;

use crate::ast;
use crate::failure::{Failure, FailureView};
use crate::js;
use crate::json;
use crate::json::JsonView;
use crate::model;
use crate::paths;
use crate::relations;
use crate::relations::is_reference;
use crate::seqs;
use crate::sorting;
use crate::text;
use crate::text::{chars_of, is_text, join2, join3, string_of, CharSet};

verus! {

broadcast use crate::seqs::group_text;

/// A node as read back from `wiring.json`.
#[derive(Debug)]
pub struct NodeRec {
    pub id: String,
    pub name: String,
    pub kind: String,
    pub path: String,
    pub start: usize,
    pub end: usize,
}

/// What a [`NodeRec`] says.
pub struct NodeRecView {
    pub id: Seq<char>,
    pub name: Seq<char>,
    pub kind: Seq<char>,
    pub path: Seq<char>,
    pub start: usize,
    pub end: usize,
}

impl View for NodeRec {
    type V = NodeRecView;

    open spec fn view(&self) -> NodeRecView {
        NodeRecView {
            id: self.id@,
            name: self.name@,
            kind: self.kind@,
            path: self.path@,
            start: self.start,
            end: self.end,
        }
    }
}

/// An edge as read back from `wiring.json`.
#[derive(Debug)]
pub struct EdgeRec {
    pub source: String,
    pub target: String,
    pub relation: String,
}

/// What an [`EdgeRec`] says.
pub struct EdgeRecView {
    pub source: Seq<char>,
    pub target: Seq<char>,
    pub relation: Seq<char>,
}

impl View for EdgeRec {
    type V = EdgeRecView;

    open spec fn view(&self) -> EdgeRecView {
        EdgeRecView { source: self.source@, target: self.target@, relation: self.relation@ }
    }
}

/// The loaded graph.
#[derive(Debug)]
pub struct Graph {
    pub nodes: Vec<NodeRec>,
    pub edges: Vec<EdgeRec>,
}

/// What a [`Graph`] says.
#[verifier::ext_equal]
pub struct GraphView {
    pub nodes: Seq<NodeRecView>,
    pub edges: Seq<EdgeRecView>,
}

impl View for Graph {
    type V = GraphView;

    open spec fn view(&self) -> GraphView {
        GraphView { nodes: seqs::views(self.nodes@), edges: seqs::views(self.edges@) }
    }
}

// ---------------------------------------------------------------------------
// Reading the graph back

/// A number as an offset: 0 where there is none, or where it is no `usize`.
pub open spec fn as_offset(n: Option<u64>) -> usize {
    match n {
        Some(n) => if n <= usize::MAX {
            n as usize
        } else {
            0
        },
        None => 0,
    }
}

fn offset_of(n: Option<u64>) -> (r: usize)
    ensures
        r == as_offset(n),
{
    match n {
        Some(n) => if n <= usize::MAX as u64 {
            n as usize
        } else {
            0
        },
        None => 0,
    }
}

/// The node that a JSON object describes: it has an id, a name, a kind and a path.
pub open spec fn node_of(j: JsonView) -> Option<NodeRecView> {
    match (j.at("id"@).text(), j.at("name"@).text(), j.at("kind"@).text(), j.at("path"@).text()) {
        (Some(id), Some(name), Some(kind), Some(path)) => Some(
            NodeRecView {
                id,
                name,
                kind,
                path,
                start: as_offset(j.at("start"@).number()),
                end: as_offset(j.at("end"@).number()),
            },
        ),
        _ => None,
    }
}

/// The edge that a JSON object describes: it has a source, a target and a relation.
pub open spec fn edge_of(j: JsonView) -> Option<EdgeRecView> {
    match (j.at("source"@).text(), j.at("target"@).text(), j.at("relation"@).text()) {
        (Some(source), Some(target), Some(relation)) => Some(
            EdgeRecView { source, target, relation },
        ),
        _ => None,
    }
}

/// Reads a node of the graph.
pub fn node_rec(v: &Value) -> (r: Option<NodeRec>)
    ensures
        seqs::opt_view(r) == node_of(json::held(*v)),
{
    let id = json::field(v, "id").as_str()?;
    let name = json::field(v, "name").as_str()?;
    let kind = json::field(v, "kind").as_str()?;
    let path = json::field(v, "path").as_str()?;
    let start = offset_of(json::field(v, "start").as_u64());
    let end = offset_of(json::field(v, "end").as_u64());
    Some(
        NodeRec {
            id: id.to_string(),
            name: name.to_string(),
            kind: kind.to_string(),
            path: path.to_string(),
            start,
            end,
        },
    )
}

/// Reads an edge of the graph.
pub fn edge_rec(v: &Value) -> (r: Option<EdgeRec>)
    ensures
        seqs::opt_view(r) == edge_of(json::held(*v)),
{
    let source = json::field(v, "source").as_str()?;
    let target = json::field(v, "target").as_str()?;
    let relation = json::field(v, "relation").as_str()?;
    Some(
        EdgeRec {
            source: source.to_string(),
            target: target.to_string(),
            relation: relation.to_string(),
        },
    )
}

/// The elements of an array; none where it is no array.
pub open spec fn items_of(j: JsonView) -> Seq<JsonView> {
    match j.items() {
        Some(s) => s,
        None => Seq::empty(),
    }
}

pub open spec fn node_items() -> spec_fn(JsonView) -> Seq<NodeRecView> {
    |j: JsonView| seqs::opt_seq(node_of(j))
}

pub open spec fn edge_items() -> spec_fn(JsonView) -> Seq<EdgeRecView> {
    |j: JsonView| seqs::opt_seq(edge_of(j))
}

/// The graph that a JSON value describes; what is no node or no edge is left out.
pub open spec fn graph_of(j: JsonView) -> GraphView {
    GraphView {
        nodes: seqs::each(items_of(j.at("nodes"@)), node_items()),
        edges: seqs::each(items_of(j.at("edges"@)), edge_items()),
    }
}

fn read_nodes(v: &Value) -> (r: Vec<NodeRec>)
    ensures
        seqs::views(r@) == seqs::each(items_of(json::held(*v)), node_items()),
{
    let mut out: Vec<NodeRec> = Vec::new();
    let items = match v.as_array() {
        Some(items) => items,
        None => {
            return out;
        },
    };
    let ghost all = items_of(json::held(*v));
    let mut k: usize = 0;
    while k < items.len()
        invariant
            k <= items@.len(),
            all == json::held_all(items@),
            seqs::views(out@) + seqs::each_from(all, k as int, node_items()) == seqs::each(
                all,
                node_items(),
            ),
        decreases items@.len() - k,
    {
        assert(all[k as int] == json::held(items@[k as int]));
        if let Some(n) = node_rec(&items[k]) {
            out.push(n);
        }
        k += 1;
    }
    out
}

fn read_edges(v: &Value) -> (r: Vec<EdgeRec>)
    ensures
        seqs::views(r@) == seqs::each(items_of(json::held(*v)), edge_items()),
{
    let mut out: Vec<EdgeRec> = Vec::new();
    let items = match v.as_array() {
        Some(items) => items,
        None => {
            return out;
        },
    };
    let ghost all = items_of(json::held(*v));
    let mut k: usize = 0;
    while k < items.len()
        invariant
            k <= items@.len(),
            all == json::held_all(items@),
            seqs::views(out@) + seqs::each_from(all, k as int, edge_items()) == seqs::each(
                all,
                edge_items(),
            ),
        decreases items@.len() - k,
    {
        assert(all[k as int] == json::held(items@[k as int]));
        if let Some(e) = edge_rec(&items[k]) {
            out.push(e);
        }
        k += 1;
    }
    out
}

/// The graph that a parsed `wiring.json` describes.
pub fn graph(v: &Value) -> (r: Graph)
    ensures
        r@ == graph_of(json::held(*v)),
{
    Graph {
        nodes: read_nodes(json::field(v, "nodes")),
        edges: read_edges(json::field(v, "edges")),
    }
}

/// The graph that the text of a `wiring.json` describes.
pub open spec fn loaded(text: Seq<char>) -> Result<GraphView, FailureView> {
    match json::parsed(text) {
        Ok(j) => Ok(graph_of(j)),
        Err(m) => Err(FailureView::Json(m)),
    }
}

/// Reads the text of a `wiring.json`.
pub fn load(text: &str) -> (r: Result<Graph, Failure>)
    ensures
        match r {
            Ok(g) => loaded(text@) == Ok::<GraphView, FailureView>(g@),
            Err(e) => loaded(text@) == Err::<GraphView, FailureView>(e@),
        },
{
    match json::parse(text) {
        Ok(v) => Ok(graph(&v)),
        Err(m) => Err(Failure::Json(m)),
    }
}

// ---------------------------------------------------------------------------
// Naming a symbol

/// `symbol` is the name of the node, or the last part of its id.
pub open spec fn answers_to(n: NodeRecView, symbol: Seq<char>) -> bool {
    n.kind != "file"@ && (n.name == symbol || text::ends(n.id, "#"@ + symbol) || text::ends(
        n.id,
        "."@ + symbol,
    ))
}

pub open spec fn answering(symbol: Seq<char>) -> spec_fn(NodeRecView) -> bool {
    |n: NodeRecView| answers_to(n, symbol)
}

pub open spec fn with_id(symbol: Seq<char>) -> spec_fn(NodeRecView) -> Option<NodeRecView> {
    |n: NodeRecView|
        if n.id == symbol {
            Some(n)
        } else {
            None
        }
}

/// The ids of the nodes.
pub open spec fn ids_of(nodes: Seq<NodeRecView>) -> Seq<Seq<char>> {
    nodes.map_values(|n: NodeRecView| n.id)
}

/// The node that a symbol names: the first with that id, else the only one that
/// answers to it.
pub open spec fn named(nodes: Seq<NodeRecView>, symbol: Seq<char>) -> Result<NodeRecView, FailureView> {
    let cands = seqs::kept(nodes, answering(symbol));
    match seqs::first_some(nodes, with_id(symbol)) {
        Some(n) => Ok(n),
        None => if cands.len() == 0 {
            Err(FailureView::NoSymbol(symbol))
        } else if cands.len() == 1 {
            Ok(cands[0])
        } else {
            Err(FailureView::Ambiguous(symbol, ids_of(cands)))
        },
    }
}

/// Resolve a symbol string to one node: exact id, else a unique `#name` /
/// `.name` / bare-name match. Ambiguous or missing is an error.
pub fn resolve<'a>(graph: &'a Graph, symbol: &str) -> (r: Result<&'a NodeRec, Failure>)
    ensures
        match r {
            Ok(n) => named(graph@.nodes, symbol@) == Ok::<NodeRecView, FailureView>(n@),
            Err(e) => named(graph@.nodes, symbol@) == Err::<NodeRecView, FailureView>(e@),
        },
{
    let ghost all = graph@.nodes;
    let wanted = symbol.to_string();
    let mut k: usize = 0;
    while k < graph.nodes.len()
        invariant
            k <= graph.nodes@.len(),
            all == seqs::views(graph.nodes@),
            wanted@ == symbol@,
            seqs::first_some(all, with_id(symbol@)) == seqs::first_from(all, k as int, with_id(symbol@)),
        decreases graph.nodes@.len() - k,
    {
        assert(all[k as int] == graph.nodes@[k as int]@);
        if graph.nodes[k].id == wanted {
            return Ok(&graph.nodes[k]);
        }
        k += 1;
    }
    let hash = join2("#", symbol);
    let dot = join2(".", symbol);
    let mut ids: Vec<String> = Vec::new();
    let mut last: usize = 0;
    let ghost mut cs: Seq<NodeRecView> = Seq::empty();
    let ghost f = seqs::keep(answering(symbol@));
    let mut k: usize = 0;
    while k < graph.nodes.len()
        invariant
            k <= graph.nodes@.len(),
            all == seqs::views(graph.nodes@),
            wanted@ == symbol@,
            hash@ == "#"@ + symbol@,
            dot@ == "."@ + symbol@,
            f == seqs::keep(answering(symbol@)),
            cs + seqs::each_from(all, k as int, f) == seqs::each(all, f),
            seqs::views(ids@) == ids_of(cs),
            cs.len() > 0 ==> last < graph.nodes@.len() && all[last as int] == cs.last(),
        decreases graph.nodes@.len() - k,
    {
        assert(all[k as int] == graph.nodes@[k as int]@);
        let n = &graph.nodes[k];
        let id = chars_of(&n.id);
        if !is_text(&chars_of(&n.kind), "file") && (n.name == wanted || text::ends_with(&id, &hash)
            || text::ends_with(&id, &dot)) {
            ids.push(n.id.clone());
            last = k;
            proof {
                assert(ids_of(cs.push(n@)) =~= ids_of(cs).push(n@.id));
                cs = cs.push(n@);
            }
        }
        k += 1;
    }
    assert(seqs::views(ids@).len() == cs.len());
    assert(cs == seqs::kept(all, answering(symbol@)));
    if ids.len() == 0 {
        Err(Failure::NoSymbol(wanted))
    } else if ids.len() == 1 {
        assert(all[last as int] == graph.nodes@[last as int]@);
        Ok(&graph.nodes[last])
    } else {
        Err(Failure::Ambiguous(wanted, ids))
    }
}

// ---------------------------------------------------------------------------
// Source text

/// The script of a `.vue` file, any other file as it is.
pub open spec fn parsed_part(path: Seq<char>, code: Seq<char>) -> Seq<char> {
    if paths::has_extension(path, "vue"@) {
        js::scripts_from(code, 0)
    } else {
        code
    }
}

/// The bytes of a text from `start` to `end`, cut at its end.
pub open spec fn byte_range(b: Seq<u8>, start: int, end: int) -> Seq<u8> {
    let a = if start < b.len() { start } else { b.len() as int };
    let e = if end < start { start } else { end };
    let z = if e < b.len() { e } else { b.len() as int };
    b.subrange(a, z)
}

/// What the code `code` of its file says of a node: all of it for a file node,
/// else the bytes of its span.
pub open spec fn source_of(n: NodeRecView, code: Seq<char>) -> Seq<char> {
    if n.kind == "file"@ {
        code
    } else {
        ast::lossy(
            byte_range(utf8::encode_utf8(parsed_part(n.path, code)), n.start as int, n.end as int),
        )
    }
}

/// The span of a node cuts no character of its source: both its ends are offsets
/// of characters, or of the end.
pub open spec fn cuts_no_character(n: NodeRecView, code: Seq<char>) -> bool {
    let all = utf8::encode_utf8(parsed_part(n.path, code));
    &&& n.start <= n.end <= all.len()
    &&& utf8::is_char_boundary(all, n.start as int)
    &&& utf8::is_char_boundary(all, n.end as int)
}

/// The source text a node spans (the whole file for `file` nodes; the extracted
/// `<script>` for `.vue`, matching how spans were recorded).
pub fn source_slice(node: &NodeRec, code: &str) -> (r: String)
    ensures
        r@ == source_of(node@, code@),
        node@.kind != "file"@ && cuts_no_character(node@, code@) ==> ast::sliced(
            parsed_part(node@.path, code@),
            node.start as int,
            node.end as int,
        ) == Some(r@),
{
    if is_text(&chars_of(&node.kind), "file") {
        return code.to_string();
    }
    let text = if paths::is_extension(&node.path, "vue") {
        js::vue_script(code)
    } else {
        code.to_string()
    };
    let bytes = text.as_str().as_bytes();
    let n = bytes.len();
    let a: usize = if node.start < n { node.start } else { n };
    let e: usize = if node.end < node.start { node.start } else { node.end };
    let z: usize = if e < n { e } else { n };
    proof {
        if cuts_no_character(node@, code@) {
            utf8::encode_utf8_valid_utf8(text@);
            ast::lemma_valid_slice(bytes@, a as int, z as int);
        }
    }
    ast::bytes(slice_subrange(bytes, a, z))
}

/// A node is a whole unit, without a declaration line of its own.
pub open spec fn is_unit_kind(kind: Seq<char>) -> bool {
    kind == "component"@ || kind == "file"@
}

/// Whether a node is a whole unit, whose source need not be read to name it.
pub fn is_unit(node: &NodeRec) -> (r: bool)
    ensures
        r == is_unit_kind(node@.kind),
{
    let kind = chars_of(&node.kind);
    is_text(&kind, "component") || is_text(&kind, "file")
}

/// The text up to its first `{`, or else its first `;`.
pub open spec fn declaration(s: Seq<char>) -> Seq<char> {
    let b = text::seek(s, 0, CharSet::One('{'));
    let c = text::seek(s, 0, CharSet::One(';'));
    text::trimmed(
        s.take(
            if b < s.len() {
                b
            } else {
                c
            },
        ),
        CharSet::Space,
    )
}

/// The declaration line of a node.
pub open spec fn signature_of(n: NodeRecView, code: Seq<char>) -> Seq<char> {
    if is_unit_kind(n.kind) {
        n.kind + " "@ + n.name
    } else {
        declaration(source_of(n, code))
    }
}

/// A symbol's declaration line (source up to its opening `{` or `;`). Whole-unit
/// kinds have no declaration line to slice; they are named instead.
pub fn signature(node: &NodeRec, code: &str) -> (r: String)
    ensures
        r@ == signature_of(node@, code@),
{
    if is_unit(node) {
        return join3(&node.kind, " ", &node.name);
    }
    let source = chars_of(&source_slice(node, code));
    let b = text::look(&source, 0, CharSet::One('{'));
    let cut = if b < source.len() {
        b
    } else {
        text::look(&source, 0, CharSet::One(';'))
    };
    let line = slice_subrange(&source, 0, cut);
    assert(line@ =~= source@.take(cut as int));
    string_of(text::trim(line, CharSet::Space))
}

/// A symbol's full source body.
pub fn body(node: &NodeRec, code: &str) -> (r: String)
    ensures
        r@ == source_of(node@, code@),
        node@.kind != "file"@ && cuts_no_character(node@, code@) ==> ast::sliced(
            parsed_part(node@.path, code@),
            node.start as int,
            node.end as int,
        ) == Some(r@),
{
    source_slice(node, code)
}

// ---------------------------------------------------------------------------
// Word search

/// The id or the name of the node contains the lower-case text `needle`, in any
/// letter case.
pub open spec fn mentions(n: NodeRecView, needle: Seq<char>) -> bool {
    n.kind != "file"@ && (text::includes(text::lowercase(n.id), needle) || text::includes(
        text::lowercase(n.name),
        needle,
    ))
}

pub open spec fn mentioning(needle: Seq<char>) -> spec_fn(NodeRecView) -> bool {
    |n: NodeRecView| mentions(n, needle)
}

/// The line of a node: its kind and its id.
pub open spec fn node_line(n: NodeRecView) -> Seq<char> {
    n.kind + "\t"@ + n.id
}

/// The lines of the symbols whose id or name contains `term`, in the order of
/// their ids.
pub open spec fn found(nodes: Seq<NodeRecView>, term: Seq<char>) -> Seq<Seq<char>> {
    let hits = seqs::kept(nodes, mentioning(text::lowercase(term)));
    sorting::arranged(hits.map_values(|n: NodeRecView| node_line(n)), ids_of(hits))
}

/// List symbols whose id or name contains `term` (case-insensitive).
pub fn find(graph: &Graph, term: &str) -> (r: Vec<String>)
    ensures
        seqs::views(r@) == found(graph@.nodes, term@),
{
    let needle = term.to_lowercase();
    let ghost all = graph@.nodes;
    let ghost p = mentioning(text::lowercase(term@));
    let ghost line = |n: NodeRecView| node_line(n);
    let ghost mut hits: Seq<NodeRecView> = Seq::empty();
    let mut lines: Vec<String> = Vec::new();
    let mut keys: Vec<Vec<char>> = Vec::new();
    let mut k: usize = 0;
    assert(hits.map_values(line) =~= Seq::empty());
    assert(ids_of(hits) =~= Seq::empty());
    while k < graph.nodes.len()
        invariant
            k <= graph.nodes@.len(),
            all == seqs::views(graph.nodes@),
            needle@ == text::lowercase(term@),
            p == mentioning(text::lowercase(term@)),
            line == (|n: NodeRecView| node_line(n)),
            hits + seqs::each_from(all, k as int, seqs::keep(p)) == seqs::kept(all, p),
            seqs::views(lines@) == hits.map_values(line),
            seqs::views(keys@) == ids_of(hits),
        decreases graph.nodes@.len() - k,
    {
        assert(all[k as int] == graph.nodes@[k as int]@);
        let n = &graph.nodes[k];
        let id = n.id.as_str().to_lowercase();
        let name = n.name.as_str().to_lowercase();
        if !is_text(&chars_of(&n.kind), "file") && (text::has_text(&chars_of(&id), &needle)
            || text::has_text(&chars_of(&name), &needle)) {
            lines.push(join3(&n.kind, "\t", &n.id));
            keys.push(chars_of(&n.id));
            proof {
                assert(hits.push(n@).map_values(line) =~= hits.map_values(line).push(node_line(n@)));
                assert(ids_of(hits.push(n@)) =~= ids_of(hits).push(n@.id));
                hits = hits.push(n@);
            }
        }
        k += 1;
    }
    proof {
        assert(hits == seqs::kept(all, p));
        assert(seqs::views(lines@).len() == hits.len());
        assert(seqs::views(keys@).len() == hits.len());
    }
    sorting::arrange(&lines, &keys)
}

// ---------------------------------------------------------------------------
// Who refers to a symbol

pub open spec fn reference_to(id: Seq<char>) -> spec_fn(EdgeRecView) -> Seq<Seq<char>> {
    |e: EdgeRecView|
        if e.target == id && relations::refers(e.relation) {
            seq![e.relation + "\t"@ + e.source]
        } else {
            Seq::empty()
        }
}

/// A `relation<TAB>source` line for each reference edge to the node `id`.
pub open spec fn reference_lines(edges: Seq<EdgeRecView>, id: Seq<char>) -> Seq<Seq<char>> {
    seqs::each(edges, reference_to(id))
}

fn references(graph: &Graph, id: &str) -> (r: Vec<String>)
    ensures
        seqs::views(r@) == reference_lines(graph@.edges, id@),
{
    let ghost all = graph@.edges;
    let wanted = id.to_string();
    let mut out: Vec<String> = Vec::new();
    let mut k: usize = 0;
    while k < graph.edges.len()
        invariant
            k <= graph.edges@.len(),
            all == seqs::views(graph.edges@),
            wanted@ == id@,
            seqs::views(out@) + seqs::each_from(all, k as int, reference_to(id@)) == reference_lines(
                all,
                id@,
            ),
        decreases graph.edges@.len() - k,
    {
        assert(all[k as int] == graph.edges@[k as int]@);
        let e = &graph.edges[k];
        if e.target == wanted && is_reference(&e.relation) {
            out.push(join3(&e.relation, "\t", &e.source));
        }
        k += 1;
    }
    out
}

/// The relations by which a route points to what serves it.
pub open spec fn is_serving(relation: Seq<char>) -> bool {
    relation == "renders"@ || relation == "serves"@
}

pub open spec fn serving_from(id: Seq<char>) -> spec_fn(EdgeRecView) -> Seq<Seq<char>> {
    |e: EdgeRecView|
        if e.source == id && is_serving(e.relation) {
            seq![e.relation + "\t"@ + e.target]
        } else {
            Seq::empty()
        }
}

/// A `relation<TAB>target` line for each page component or controller that the
/// route `id` points to.
pub open spec fn serving_lines(edges: Seq<EdgeRecView>, id: Seq<char>) -> Seq<Seq<char>> {
    seqs::each(edges, serving_from(id))
}

fn serving(graph: &Graph, id: &str) -> (r: Vec<String>)
    ensures
        seqs::views(r@) == serving_lines(graph@.edges, id@),
{
    let ghost all = graph@.edges;
    let wanted = id.to_string();
    let mut out: Vec<String> = Vec::new();
    let mut k: usize = 0;
    while k < graph.edges.len()
        invariant
            k <= graph.edges@.len(),
            all == seqs::views(graph.edges@),
            wanted@ == id@,
            seqs::views(out@) + seqs::each_from(all, k as int, serving_from(id@)) == serving_lines(all, id@),
        decreases graph.edges@.len() - k,
    {
        assert(all[k as int] == graph.edges@[k as int]@);
        let e = &graph.edges[k];
        let relation = chars_of(&e.relation);
        if e.source == wanted && (is_text(&relation, "renders") || is_text(&relation, "serves")) {
            out.push(join3(&e.relation, "\t", &e.target));
        }
        k += 1;
    }
    out
}

/// What reaches a node, or serves it: the reference edges to it and, of a route,
/// the edges to what serves it, so that the scenarios that open a route and the
/// page behind it meet.
pub open spec fn caller_lines(edges: Seq<EdgeRecView>, n: NodeRecView) -> Seq<Seq<char>> {
    reference_lines(edges, n.id) + if n.kind == "route"@ {
        serving_lines(edges, n.id)
    } else {
        Seq::empty()
    }
}

/// List what references a symbol: every reference edge that targets it, as
/// `relation<TAB>source` (the blast radius), in order and each once. A route lists
/// the page component or controller that serves it, too, as `relation<TAB>target`.
pub fn callers(graph: &Graph, symbol: &str) -> (r: Result<Vec<String>, Failure>)
    ensures
        match named(graph@.nodes, symbol@) {
            Ok(n) => r matches Ok(lines) && sorting::is_sorted_set(
                caller_lines(graph@.edges, n),
                seqs::views(lines@),
            ),
            Err(e) => r matches Err(f) && f@ == e,
        },
{
    match resolve(graph, symbol) {
        Ok(node) => {
            let mut lines = references(graph, &node.id);
            if is_text(&chars_of(&node.kind), "route") {
                let mut pages = serving(graph, &node.id);
                lines.append(&mut pages);
            }
            Ok(sorting::sort_unique(lines))
        },
        Err(e) => Err(e),
    }
}

// ---------------------------------------------------------------------------
// Who uses a translation key

pub open spec fn use_line(key: Seq<char>) -> spec_fn(JsonView) -> Seq<Seq<char>> {
    |f: JsonView|
        match f.text() {
            Some(t) => seq![key + "\t"@ + t],
            None => Seq::empty(),
        }
}

/// A `key<TAB>file` line for each file that the index lists for the key.
pub open spec fn use_lines(key: Seq<char>, files: JsonView) -> Seq<Seq<char>> {
    seqs::each(items_of(files), use_line(key))
}

pub open spec fn loose_use(needle: Seq<char>) -> spec_fn((Seq<char>, JsonView)) -> Seq<Seq<char>> {
    |e: (Seq<char>, JsonView)|
        if text::includes(text::lowercase(e.0), needle) {
            use_lines(e.0, e.1)
        } else {
            Seq::empty()
        }
}

/// The usages of a key: those of exactly that key, or, where there are none, those
/// of the keys that contain it, in any letter case.
pub open spec fn usages(index: JsonView, key: Seq<char>) -> Seq<Seq<char>> {
    let exact = use_lines(key, index.at(key));
    if exact.len() > 0 {
        exact
    } else {
        seqs::each(index->Obj_0, loose_use(text::lowercase(key)))
    }
}

fn key_lines(key: &str, files: &Value) -> (r: Vec<String>)
    ensures
        seqs::views(r@) == use_lines(key@, json::held(*files)),
{
    let mut out: Vec<String> = Vec::new();
    let items = match files.as_array() {
        Some(items) => items,
        None => {
            return out;
        },
    };
    let ghost all = items_of(json::held(*files));
    let mut k: usize = 0;
    while k < items.len()
        invariant
            k <= items@.len(),
            all == json::held_all(items@),
            seqs::views(out@) + seqs::each_from(all, k as int, use_line(key@)) == seqs::each(
                all,
                use_line(key@),
            ),
        decreases items@.len() - k,
    {
        assert(all[k as int] == json::held(items@[k as int]));
        if let Some(f) = items[k].as_str() {
            out.push(join3(key, "\t", f));
        }
        k += 1;
    }
    out
}

/// List the usages of a translation `key` in a parsed index, as `key<TAB>file`,
/// in order and each once. Tries an exact key first; if none, falls back to a
/// case-insensitive substring match over every key (discovery).
pub fn uses_in(index: &Value, key: &str) -> (r: Result<Vec<String>, Failure>)
    ensures
        json::held(*index) is Obj ==> (r matches Ok(lines) && sorting::is_sorted_set(
            usages(json::held(*index), key@),
            seqs::views(lines@),
        )),
        !(json::held(*index) is Obj) ==> (r matches Err(e) && e@ is NotAnObject),
{
    let entries = match json::members(index) {
        Some(entries) => entries,
        None => {
            return Err(Failure::NotAnObject);
        },
    };
    let exact = key_lines(key, json::field(index, key));
    assert(seqs::views(exact@).len() == exact@.len());
    if exact.len() > 0 {
        return Ok(sorting::sort_unique(exact));
    }
    let needle = key.to_lowercase();
    let ghost all = json::held_entries(entries@);
    let ghost f = loose_use(text::lowercase(key@));
    let mut out: Vec<String> = Vec::new();
    let mut k: usize = 0;
    while k < entries.len()
        invariant
            k <= entries@.len(),
            all == json::held_entries(entries@),
            needle@ == text::lowercase(key@),
            f == loose_use(text::lowercase(key@)),
            seqs::views(out@) + seqs::each_from(all, k as int, f) == seqs::each(all, f),
        decreases entries@.len() - k,
    {
        assert(all[k as int] == (entries@[k as int].0@, json::held(*entries@[k as int].1)));
        let (name, files) = entries[k];
        let lowered = name.as_str().to_lowercase();
        if text::has_text(&chars_of(&lowered), &needle) {
            let mut lines = key_lines(name, files);
            out.append(&mut lines);
        }
        k += 1;
    }
    Ok(sorting::sort_unique(out))
}

/// What `uses` answers for a `lang.json` text.
pub open spec fn uses_answer(text: Seq<char>, key: Seq<char>) -> Result<Seq<Seq<char>>, FailureView> {
    match json::parsed(text) {
        Ok(j) => if j is Obj {
            Ok(usages(j, key))
        } else {
            Err(FailureView::NotAnObject)
        },
        Err(m) => Err(FailureView::Json(m)),
    }
}

/// List files that use a translation `key`, from the text of the
/// `.graph/lang.json` sidecar (kept out of `wiring.json` because there can be
/// thousands): `key<TAB>file` per usage.
pub fn uses(text: &str, key: &str) -> (r: Result<Vec<String>, Failure>)
    ensures
        match uses_answer(text@, key@) {
            Ok(raw) => r matches Ok(lines) && sorting::is_sorted_set(raw, seqs::views(lines@)),
            Err(e) => r matches Err(f) && f@ == e,
        },
{
    match json::parse(text) {
        Ok(v) => uses_in(&v, key),
        Err(m) => Err(Failure::Json(m)),
    }
}

// ---------------------------------------------------------------------------
// Gaps

/// An edge other than containment leads to the node `id`.
pub open spec fn is_referenced(edges: Seq<EdgeRecView>, id: Seq<char>) -> bool {
    exists|i: int|
        0 <= i < edges.len() && (#[trigger] edges[i]).relation != "contains"@ && edges[i].target == id
}

/// An edge of the given relation leaves the node `id`.
pub open spec fn is_source(edges: Seq<EdgeRecView>, relation: Seq<char>, id: Seq<char>) -> bool {
    exists|i: int|
        0 <= i < edges.len() && (#[trigger] edges[i]).relation == relation && edges[i].source == id
}

/// A node has the id `id`.
pub open spec fn has_id(nodes: Seq<NodeRecView>, id: Seq<char>) -> bool {
    exists|i: int| 0 <= i < nodes.len() && (#[trigger] nodes[i]).id == id
}

/// A symbol that nothing refers to. Whole units and join nodes point out to
/// what they join, so they are none.
pub open spec fn is_dead(edges: Seq<EdgeRecView>) -> spec_fn(NodeRecView) -> bool {
    |n: NodeRecView| !relations::hub_kinds().contains(n.kind) && !is_referenced(edges, n.id)
}

/// A reference that leads nowhere, though it should lead to something in the
/// tree: not an import by a bare name, not a base or related class, and nothing
/// under `vendor/`.
pub open spec fn is_broken(nodes: Seq<NodeRecView>) -> spec_fn(EdgeRecView) -> bool {
    |e: EdgeRecView|
        {
            &&& relations::refers(e.relation)
            &&& !has_id(nodes, e.target)
            &&& if e.relation == "imports"@ {
                text::starts(e.target, "."@)
            } else {
                !relations::outward_names().contains(e.relation)
            }
            &&& !text::includes(e.target, "vendor/"@)
        }
}

/// A path names a template or an asset, which holds no code symbols.
pub open spec fn is_symbolless(path: Seq<char>) -> bool {
    text::ends(path, ".blade.php"@) || match paths::extension(path) {
        Some(e) => relations::no_symbol_exts().contains(text::lower(e)),
        None => false,
    }
}

/// A file that contains no symbol, and is not meant to hold none.
pub open spec fn is_empty_file(edges: Seq<EdgeRecView>) -> spec_fn(NodeRecView) -> bool {
    |n: NodeRecView|
        {
            &&& n.kind == "file"@
            &&& !is_source(edges, "contains"@, n.id)
            &&& !is_source(edges, "returns"@, n.id)
            &&& !is_symbolless(n.path)
        }
}

/// The line of an edge that leads nowhere.
pub open spec fn edge_line(e: EdgeRecView) -> Seq<char> {
    e.source + " -> "@ + (e.target + " ("@ + (e.relation + ")"@))
}

/// The lines of the references that lead nowhere, in the order of their targets.
pub open spec fn broken_lines(g: GraphView) -> Seq<Seq<char>> {
    let hits = seqs::kept(g.edges, is_broken(g.nodes));
    sorting::arranged(
        hits.map_values(|e: EdgeRecView| edge_line(e)),
        hits.map_values(|e: EdgeRecView| e.target),
    )
}

/// How many items a report lists at most.
pub const SAMPLE: usize = 20;

/// A titled count plus a capped sample of the items.
pub open spec fn reported(title: Seq<char>, items: Seq<Seq<char>>) -> Seq<Seq<char>> {
    let n = items.len() as int;
    let shown = if n > SAMPLE { SAMPLE as int } else { n };
    seq![title + ": "@ + text::decimal(n as nat)] + items.take(shown).map_values(
        |x: Seq<char>| "  "@ + x,
    ) + if n > SAMPLE {
        seq!["  ... and "@ + text::decimal((n - SAMPLE) as nat) + " more"@]
    } else {
        Seq::empty()
    }
}

/// The gaps of a graph.
pub open spec fn gaps(g: GraphView) -> Seq<Seq<char>> {
    reported(
        "unreferenced symbols (never called/imported/extended)"@,
        ids_of(seqs::kept(g.nodes, is_dead(g.edges))),
    ) + (reported("unresolved edges (target not in graph)"@, broken_lines(g)) + reported(
        "empty files (parsed to nothing)"@,
        ids_of(seqs::kept(g.nodes, is_empty_file(g.edges))),
    ))
}

fn referenced_ids(edges: &[EdgeRec]) -> (r: StringHashSet)
    ensures
        forall|id: Seq<char>| #[trigger] r@.contains(id) <==> is_referenced(seqs::views(edges@), id),
{
    let ghost all = seqs::views(edges@);
    let mut out = StringHashSet::new();
    let mut k: usize = 0;
    while k < edges.len()
        invariant
            k <= edges@.len(),
            all == seqs::views(edges@),
            forall|id: Seq<char>| #[trigger]
                out@.contains(id) <==> exists|i: int|
                    0 <= i < k && (#[trigger] all[i]).relation != "contains"@ && all[i].target == id,
        decreases edges@.len() - k,
    {
        assert(all[k as int] == edges@[k as int]@);
        if !is_text(&chars_of(&edges[k].relation), "contains") {
            out.insert(edges[k].target.clone());
        }
        k += 1;
    }
    out
}

fn sources(edges: &[EdgeRec], relation: &str) -> (r: StringHashSet)
    ensures
        forall|id: Seq<char>| #[trigger]
            r@.contains(id) <==> is_source(seqs::views(edges@), relation@, id),
{
    let ghost all = seqs::views(edges@);
    let mut out = StringHashSet::new();
    let mut k: usize = 0;
    while k < edges.len()
        invariant
            k <= edges@.len(),
            all == seqs::views(edges@),
            forall|id: Seq<char>| #[trigger]
                out@.contains(id) <==> exists|i: int|
                    0 <= i < k && (#[trigger] all[i]).relation == relation@ && all[i].source == id,
        decreases edges@.len() - k,
    {
        assert(all[k as int] == edges@[k as int]@);
        if is_text(&chars_of(&edges[k].relation), relation) {
            out.insert(edges[k].source.clone());
        }
        k += 1;
    }
    out
}

fn node_ids(nodes: &[NodeRec]) -> (r: StringHashSet)
    ensures
        forall|id: Seq<char>| #[trigger] r@.contains(id) <==> has_id(seqs::views(nodes@), id),
{
    let ghost all = seqs::views(nodes@);
    let mut out = StringHashSet::new();
    let mut k: usize = 0;
    while k < nodes.len()
        invariant
            k <= nodes@.len(),
            all == seqs::views(nodes@),
            forall|id: Seq<char>| #[trigger]
                out@.contains(id) <==> exists|i: int| 0 <= i < k && (#[trigger] all[i]).id == id,
        decreases nodes@.len() - k,
    {
        assert(all[k as int] == nodes@[k as int]@);
        out.insert(nodes[k].id.clone());
        k += 1;
    }
    out
}

/// The ids of the symbols that nothing refers to.
pub fn unreferenced(graph: &Graph) -> (r: Vec<String>)
    ensures
        seqs::views(r@) == ids_of(seqs::kept(graph@.nodes, is_dead(graph@.edges))),
{
    let ghost all = graph@.nodes;
    let ghost p = is_dead(graph@.edges);
    let ghost mut hits: Seq<NodeRecView> = Seq::empty();
    let referenced = referenced_ids(&graph.edges);
    let mut out: Vec<String> = Vec::new();
    let mut k: usize = 0;
    while k < graph.nodes.len()
        invariant
            k <= graph.nodes@.len(),
            all == seqs::views(graph.nodes@),
            p == is_dead(graph@.edges),
            forall|id: Seq<char>| #[trigger]
                referenced@.contains(id) <==> is_referenced(graph@.edges, id),
            hits + seqs::each_from(all, k as int, seqs::keep(p)) == seqs::kept(all, p),
            seqs::views(out@) == ids_of(hits),
        decreases graph.nodes@.len() - k,
    {
        let n = &graph.nodes[k];
        assert(all[k as int] == n@);
        if !relations::is_hub(&n.kind) && !referenced.contains(&n.id) {
            out.push(n.id.clone());
            proof {
                assert(ids_of(hits.push(n@)) =~= ids_of(hits).push(n@.id));
                hits = hits.push(n@);
            }
        }
        k += 1;
    }
    assert(hits == seqs::kept(all, p));
    out
}

fn symbolless(path: &str) -> (r: bool)
    ensures
        r == is_symbolless(path@),
{
    if text::ends_with(&chars_of(path), ".blade.php") {
        return true;
    }
    match paths::extension_of(path) {
        Some(e) => relations::is_no_symbol_ext(&text::to_lower(&e)),
        None => false,
    }
}

/// The ids of the files that parsed to nothing.
pub fn empty_files(graph: &Graph) -> (r: Vec<String>)
    ensures
        seqs::views(r@) == ids_of(seqs::kept(graph@.nodes, is_empty_file(graph@.edges))),
{
    let ghost all = graph@.nodes;
    let ghost p = is_empty_file(graph@.edges);
    let ghost mut hits: Seq<NodeRecView> = Seq::empty();
    let parents = sources(&graph.edges, "contains");
    let returning = sources(&graph.edges, "returns");
    let mut out: Vec<String> = Vec::new();
    let mut k: usize = 0;
    while k < graph.nodes.len()
        invariant
            k <= graph.nodes@.len(),
            all == seqs::views(graph.nodes@),
            p == is_empty_file(graph@.edges),
            forall|id: Seq<char>| #[trigger]
                parents@.contains(id) <==> is_source(graph@.edges, "contains"@, id),
            forall|id: Seq<char>| #[trigger]
                returning@.contains(id) <==> is_source(graph@.edges, "returns"@, id),
            hits + seqs::each_from(all, k as int, seqs::keep(p)) == seqs::kept(all, p),
            seqs::views(out@) == ids_of(hits),
        decreases graph.nodes@.len() - k,
    {
        let n = &graph.nodes[k];
        assert(all[k as int] == n@);
        if is_text(&chars_of(&n.kind), "file") && !parents.contains(&n.id) && !returning.contains(&n.id)
            && !symbolless(&n.path) {
            out.push(n.id.clone());
            proof {
                assert(ids_of(hits.push(n@)) =~= ids_of(hits).push(n@.id));
                hits = hits.push(n@);
            }
        }
        k += 1;
    }
    assert(hits == seqs::kept(all, p));
    out
}

/// The lines of the references that lead nowhere.
pub fn unresolved(graph: &Graph) -> (r: Vec<String>)
    ensures
        seqs::views(r@) == broken_lines(graph@),
{
    let ghost all = graph@.edges;
    let ghost p = is_broken(graph@.nodes);
    let ghost line = |e: EdgeRecView| edge_line(e);
    let ghost key = |e: EdgeRecView| e.target;
    let ghost mut hits: Seq<EdgeRecView> = Seq::empty();
    let ids = node_ids(&graph.nodes);
    let mut lines: Vec<String> = Vec::new();
    let mut keys: Vec<Vec<char>> = Vec::new();
    assert(hits.map_values(line) =~= Seq::empty());
    assert(hits.map_values(key) =~= Seq::empty());
    let mut k: usize = 0;
    while k < graph.edges.len()
        invariant
            k <= graph.edges@.len(),
            all == seqs::views(graph.edges@),
            p == is_broken(graph@.nodes),
            line == (|e: EdgeRecView| edge_line(e)),
            key == (|e: EdgeRecView| e.target),
            forall|id: Seq<char>| #[trigger] ids@.contains(id) <==> has_id(graph@.nodes, id),
            hits + seqs::each_from(all, k as int, seqs::keep(p)) == seqs::kept(all, p),
            seqs::views(lines@) == hits.map_values(line),
            seqs::views(keys@) == hits.map_values(key),
        decreases graph.edges@.len() - k,
    {
        let e = &graph.edges[k];
        assert(all[k as int] == e@);
        let target = chars_of(&e.target);
        let inward = if is_text(&chars_of(&e.relation), "imports") {
            text::starts_with(&target, ".")
        } else {
            !relations::is_outward(&e.relation)
        };
        if is_reference(&e.relation) && !ids.contains(&e.target) && inward && !text::has_text(
            &target,
            "vendor/",
        ) {
            let tail = join2(&e.relation, ")");
            let tail = join3(&e.target, " (", &tail);
            lines.push(join3(&e.source, " -> ", &tail));
            keys.push(target);
            proof {
                assert(hits.push(e@).map_values(line) =~= hits.map_values(line).push(edge_line(e@)));
                assert(hits.push(e@).map_values(key) =~= hits.map_values(key).push(e@.target));
                hits = hits.push(e@);
            }
        }
        k += 1;
    }
    proof {
        assert(hits == seqs::kept(all, p));
        assert(seqs::views(lines@).len() == hits.len());
        assert(seqs::views(keys@).len() == hits.len());
    }
    sorting::arrange(&lines, &keys)
}

/// A titled count plus a capped sample of the items.
pub fn report(title: &str, items: &[String]) -> (r: Vec<String>)
    ensures
        seqs::views(r@) == reported(title@, seqs::views(items@)),
{
    let n = items.len();
    let shown: usize = if n > SAMPLE { SAMPLE } else { n };
    let ghost all = seqs::views(items@);
    let ghost head = seq![title@ + ": "@ + text::decimal(n as nat)];
    let ghost indent = |x: Seq<char>| "  "@ + x;
    let mut out: Vec<String> = Vec::new();
    out.push(join3(title, ": ", &text::to_decimal(n as u128)));
    assert(all.take(0).map_values(indent) =~= Seq::empty());
    let mut k: usize = 0;
    while k < shown
        invariant
            k <= shown <= items@.len(),
            all == seqs::views(items@),
            indent == (|x: Seq<char>| "  "@ + x),
            seqs::views(out@) == head + all.take(k as int).map_values(indent),
        decreases shown - k,
    {
        assert(all.take(k + 1).map_values(indent) =~= all.take(k as int).map_values(indent).push(
            indent(all[k as int]),
        ));
        out.push(join2("  ", &items[k]));
        k += 1;
    }
    if n > SAMPLE {
        out.push(join3("  ... and ", &text::to_decimal((n - SAMPLE) as u128), " more"));
    }
    out
}

/// Report graph gaps: symbols nothing references, edges that never resolved to a
/// node, and files that parsed to nothing.
pub fn missing(graph: &Graph) -> (r: Vec<String>)
    ensures
        seqs::views(r@) == gaps(graph@),
{
    let mut out = report(
        "unreferenced symbols (never called/imported/extended)",
        &unreferenced(graph),
    );
    let mut broken = report("unresolved edges (target not in graph)", &unresolved(graph));
    let mut empty = report("empty files (parsed to nothing)", &empty_files(graph));
    out.append(&mut broken);
    out.append(&mut empty);
    out
}

// ---------------------------------------------------------------------------
// Laws

proof fn lemma_with_id(nodes: Seq<NodeRecView>, k: int, symbol: Seq<char>)
    requires
        k >= 0,
    ensures
        match seqs::first_from(nodes, k, with_id(symbol)) {
            Some(n) => n.id == symbol && nodes.contains(n),
            None => forall|i: int| k <= i < nodes.len() ==> (#[trigger] nodes[i]).id != symbol,
        },
    decreases nodes.len() - k,
{
    if k < nodes.len() {
        lemma_with_id(nodes, k + 1, symbol);
        assert(nodes.contains(nodes[k]));
    }
}

/// An exact id names a node that has it, whatever else answers to it.
pub proof fn an_exact_id_resolves(nodes: Seq<NodeRecView>, symbol: Seq<char>)
    requires
        has_id(nodes, symbol),
    ensures
        named(nodes, symbol) matches Ok(n) && n.id == symbol && nodes.contains(n),
{
    lemma_with_id(nodes, 0, symbol);
    let i = choose|i: int| 0 <= i < nodes.len() && (#[trigger] nodes[i]).id == symbol;
    assert(nodes[i].id == symbol);
}

/// A bare name names the node that answers to it where that is the only one.
pub proof fn a_unique_name_resolves(nodes: Seq<NodeRecView>, symbol: Seq<char>, i: int)
    requires
        !has_id(nodes, symbol),
        0 <= i < nodes.len(),
        answers_to(nodes[i], symbol),
        forall|j: int| 0 <= j < nodes.len() && j != i ==> !answers_to(#[trigger] nodes[j], symbol),
    ensures
        named(nodes, symbol) == Ok::<NodeRecView, FailureView>(nodes[i]),
{
    lemma_with_id(nodes, 0, symbol);
    if let Some(n) = seqs::first_some(nodes, with_id(symbol)) {
        let k = choose|k: int| 0 <= k < nodes.len() && nodes[k] == n;
        assert(nodes[k].id == symbol);
    }
    seqs::lemma_kept_one(nodes, 0, answering(symbol), i);
}

/// A bare name that more than one node answers to names none of them: the failure
/// lists the id of each.
pub proof fn an_ambiguous_name_lists_the_candidates(
    nodes: Seq<NodeRecView>,
    symbol: Seq<char>,
    i: int,
    j: int,
)
    requires
        !has_id(nodes, symbol),
        0 <= i < j < nodes.len(),
        answers_to(nodes[i], symbol),
        answers_to(nodes[j], symbol),
    ensures
        named(nodes, symbol) matches Err(FailureView::Ambiguous(s, ids)) && s == symbol && ids.contains(
            nodes[i].id,
        ) && ids.contains(nodes[j].id),
{
    lemma_with_id(nodes, 0, symbol);
    if let Some(n) = seqs::first_some(nodes, with_id(symbol)) {
        let k = choose|k: int| 0 <= k < nodes.len() && nodes[k] == n;
        assert(nodes[k].id == symbol);
    }
    seqs::lemma_kept_some(nodes, 0, answering(symbol), i, j);
    let cands = seqs::kept(nodes, answering(symbol));
    seqs::lemma_kept(nodes, answering(symbol), nodes[i]);
    seqs::lemma_kept(nodes, answering(symbol), nodes[j]);
    assert(nodes.contains(nodes[i]));
    assert(nodes.contains(nodes[j]));
    let a = choose|a: int| 0 <= a < cands.len() && cands[a] == nodes[i];
    let b = choose|b: int| 0 <= b < cands.len() && cands[b] == nodes[j];
    assert(ids_of(cands)[a] == nodes[i].id);
    assert(ids_of(cands)[b] == nodes[j].id);
}

/// A name that no node answers to is no symbol.
pub proof fn an_unknown_name_is_no_symbol(nodes: Seq<NodeRecView>, symbol: Seq<char>)
    requires
        !has_id(nodes, symbol),
        forall|j: int| 0 <= j < nodes.len() ==> !answers_to(#[trigger] nodes[j], symbol),
    ensures
        named(nodes, symbol) == Err::<NodeRecView, FailureView>(FailureView::NoSymbol(symbol)),
{
    lemma_with_id(nodes, 0, symbol);
    if let Some(n) = seqs::first_some(nodes, with_id(symbol)) {
        let k = choose|k: int| 0 <= k < nodes.len() && nodes[k] == n;
        assert(nodes[k].id == symbol);
    }
    let cands = seqs::kept(nodes, answering(symbol));
    if cands.len() > 0 {
        seqs::lemma_kept(nodes, answering(symbol), cands[0]);
        assert(cands.contains(cands[0]));
        let j = choose|j: int| 0 <= j < nodes.len() && nodes[j] == cands[0];
        assert(!answers_to(nodes[j], symbol));
    }
}

/// The edge refers to the node `id`, and `line` says so.
pub open spec fn tells(e: EdgeRecView, id: Seq<char>, line: Seq<char>) -> bool {
    e.target == id && relations::refers(e.relation) && line == e.relation + "\t"@ + e.source
}

/// The edge leads from the route `id` to what serves it, and `line` says so.
pub open spec fn serves_by(e: EdgeRecView, id: Seq<char>, line: Seq<char>) -> bool {
    e.source == id && is_serving(e.relation) && line == e.relation + "\t"@ + e.target
}

proof fn lemma_references(edges: Seq<EdgeRecView>, id: Seq<char>, line: Seq<char>)
    ensures
        reference_lines(edges, id).contains(line) <==> exists|i: int|
            0 <= i < edges.len() && tells(#[trigger] edges[i], id, line),
{
    let f = reference_to(id);
    seqs::lemma_each(edges, 0, f, line);
    if reference_lines(edges, id).contains(line) {
        let i = choose|i: int| 0 <= i < edges.len() && f(#[trigger] edges[i]).contains(line);
        assert(tells(edges[i], id, line));
    }
    if exists|i: int| 0 <= i < edges.len() && tells(#[trigger] edges[i], id, line) {
        let i = choose|i: int| 0 <= i < edges.len() && tells(#[trigger] edges[i], id, line);
        assert(f(edges[i])[0] == line);
    }
}

proof fn lemma_serving(edges: Seq<EdgeRecView>, id: Seq<char>, line: Seq<char>)
    ensures
        serving_lines(edges, id).contains(line) <==> exists|i: int|
            0 <= i < edges.len() && serves_by(#[trigger] edges[i], id, line),
{
    let f = serving_from(id);
    seqs::lemma_each(edges, 0, f, line);
    if serving_lines(edges, id).contains(line) {
        let i = choose|i: int| 0 <= i < edges.len() && f(#[trigger] edges[i]).contains(line);
        assert(serves_by(edges[i], id, line));
    }
    if exists|i: int| 0 <= i < edges.len() && serves_by(#[trigger] edges[i], id, line) {
        let i = choose|i: int| 0 <= i < edges.len() && serves_by(#[trigger] edges[i], id, line);
        assert(f(edges[i])[0] == line);
    }
}

/// The callers of a node are the sources of the reference edges to it and, of a
/// route, the targets of its own `renders` and `serves` edges: none is missing, and
/// none is made up.
pub proof fn callers_are_the_references(edges: Seq<EdgeRecView>, n: NodeRecView, line: Seq<char>)
    ensures
        caller_lines(edges, n).contains(line) <==> {
            ||| exists|i: int| 0 <= i < edges.len() && tells(#[trigger] edges[i], n.id, line)
            ||| n.kind == "route"@ && exists|i: int|
                0 <= i < edges.len() && serves_by(#[trigger] edges[i], n.id, line)
        },
{
    let a = reference_lines(edges, n.id);
    let b = serving_lines(edges, n.id);
    let all = caller_lines(edges, n);
    lemma_references(edges, n.id, line);
    lemma_serving(edges, n.id, line);
    if all.contains(line) {
        let k = choose|k: int| 0 <= k < all.len() && all[k] == line;
        if k < a.len() {
            assert(a[k] == line);
        } else {
            assert(b[k - a.len()] == line);
        }
    }
    if a.contains(line) {
        let k = choose|k: int| 0 <= k < a.len() && a[k] == line;
        assert(all[k] == line);
    }
    if n.kind == "route"@ && b.contains(line) {
        let k = choose|k: int| 0 <= k < b.len() && b[k] == line;
        assert(all[a.len() + k] == line);
    }
}

/// A route closes the way from a scenario to the source: its callers list both the
/// scenario that opens it and the page that it renders.
pub proof fn a_route_lists_scenario_and_page(
    edges: Seq<EdgeRecView>,
    n: NodeRecView,
    i: int,
    k: int,
)
    requires
        n.kind == "route"@,
        0 <= i < edges.len(),
        0 <= k < edges.len(),
        edges[i].relation == "visits"@,
        edges[i].target == n.id,
        is_serving(edges[k].relation),
        edges[k].source == n.id,
    ensures
        caller_lines(edges, n).contains("visits"@ + "\t"@ + edges[i].source),
        caller_lines(edges, n).contains(edges[k].relation + "\t"@ + edges[k].target),
{
    let opened = "visits"@ + "\t"@ + edges[i].source;
    let page = edges[k].relation + "\t"@ + edges[k].target;
    assert(relations::reference_names()[9] == "visits"@);
    assert(tells(edges[i], n.id, opened));
    assert(serves_by(edges[k], n.id, page));
    callers_are_the_references(edges, n, opened);
    callers_are_the_references(edges, n, page);
}

// ---------------------------------------------------------------------------
// What the answers say of the graph

/// The relation is one by which one thing refers to another.
pub open spec fn is_reference_to(relation: Seq<char>) -> bool {
    ||| relation == "calls"@
    ||| relation == "imports"@
    ||| relation == "extends"@
    ||| relation == "implements"@
    ||| relation == "includes"@
    ||| relation == "covers"@
    ||| relation == "table"@
    ||| relation == "migrates"@
    ||| relation == "uses-table"@
    ||| relation == "visits"@
    ||| relation == "renders"@
    ||| relation == "requires"@
    ||| relation == "defines-fn"@
    ||| relation == "uses-fn"@
    ||| relation == "defines-pipe"@
    ||| relation == "uses-pipe"@
    ||| relation == "routes-to"@
    ||| relation == "serves"@
    ||| relation == "export-ignores"@
    ||| relation == "configures"@
    ||| relation == "checks-permission"@
    ||| relation == "raises-trigger"@
    ||| relation == "handles-trigger"@
    ||| relation == "fires-hook"@
    ||| relation == "handles-hook"@
    ||| relation == "declares-module"@
    ||| relation == "relates-to"@
    ||| relation == "depends-on"@
    ||| relation == "requires-role"@
    ||| relation == "dol-requires"@
    ||| relation == "instantiates"@
    ||| relation == "uses-const"@
    ||| relation == "schedules"@
    ||| relation == "belongsTo"@
    ||| relation == "hasMany"@
    ||| relation == "hasOne"@
    ||| relation == "belongsToMany"@
    ||| relation == "morphTo"@
    ||| relation == "morphMany"@
    ||| relation == "morphOne"@
    ||| relation == "morphToMany"@
    ||| relation == "morphedByMany"@
    ||| relation == "hasManyThrough"@
    ||| relation == "hasOneThrough"@
}

proof fn lemma_refers(relation: Seq<char>)
    ensures
        relations::refers(relation) <==> is_reference_to(relation),
{
    let all = relations::reference_names();
    let models = model::relation_names();
    assert(all.len() == 33);
    assert(models.len() == 11);
    assert(all[0] == "calls"@);
    assert(all[1] == "imports"@);
    assert(all[2] == "extends"@);
    assert(all[3] == "implements"@);
    assert(all[4] == "includes"@);
    assert(all[5] == "covers"@);
    assert(all[6] == "table"@);
    assert(all[7] == "migrates"@);
    assert(all[8] == "uses-table"@);
    assert(all[9] == "visits"@);
    assert(all[10] == "renders"@);
    assert(all[11] == "requires"@);
    assert(all[12] == "defines-fn"@);
    assert(all[13] == "uses-fn"@);
    assert(all[14] == "defines-pipe"@);
    assert(all[15] == "uses-pipe"@);
    assert(all[16] == "routes-to"@);
    assert(all[17] == "serves"@);
    assert(all[18] == "export-ignores"@);
    assert(all[19] == "configures"@);
    assert(all[20] == "checks-permission"@);
    assert(all[21] == "raises-trigger"@);
    assert(all[22] == "handles-trigger"@);
    assert(all[23] == "fires-hook"@);
    assert(all[24] == "handles-hook"@);
    assert(all[25] == "declares-module"@);
    assert(all[26] == "relates-to"@);
    assert(all[27] == "depends-on"@);
    assert(all[28] == "requires-role"@);
    assert(all[29] == "dol-requires"@);
    assert(all[30] == "instantiates"@);
    assert(all[31] == "uses-const"@);
    assert(all[32] == "schedules"@);
    assert(models[0] == "belongsTo"@);
    assert(models[1] == "hasMany"@);
    assert(models[2] == "hasOne"@);
    assert(models[3] == "belongsToMany"@);
    assert(models[4] == "morphTo"@);
    assert(models[5] == "morphMany"@);
    assert(models[6] == "morphOne"@);
    assert(models[7] == "morphToMany"@);
    assert(models[8] == "morphedByMany"@);
    assert(models[9] == "hasManyThrough"@);
    assert(models[10] == "hasOneThrough"@);
    if all.contains(relation) {
        let k = choose|k: int| 0 <= k < all.len() && all[k] == relation;
        assert(all[k] == relation);
    }
    if models.contains(relation) {
        let k = choose|k: int| 0 <= k < models.len() && models[k] == relation;
        assert(models[k] == relation);
    }
}

/// Whatever refers to a node is listed with how it does: a call, an import, a
/// subclass, a template that includes it, a test that covers it, a route, a query, a
/// linter, an Eloquent relation, and so on. What refers to another node, or merely
/// contains this one, is not.
pub proof fn callers_list_every_reference(edges: Seq<EdgeRecView>, n: NodeRecView)
    ensures
        forall|i: int|
            0 <= i < edges.len() && (#[trigger] edges[i]).target == n.id && is_reference_to(edges[i].relation)
                ==> caller_lines(edges, n).contains(edges[i].relation + "\t"@ + edges[i].source),
        n.kind != "route"@ ==> forall|line: Seq<char>| #[trigger]
            caller_lines(edges, n).contains(line) ==> exists|i: int|
                0 <= i < edges.len() && (#[trigger] edges[i]).target == n.id && is_reference_to(edges[i].relation)
                    && line == edges[i].relation + "\t"@ + edges[i].source,
{
    assert forall|i: int|
        0 <= i < edges.len() && (#[trigger] edges[i]).target == n.id && is_reference_to(
            edges[i].relation,
        ) implies caller_lines(edges, n).contains(edges[i].relation + "\t"@ + edges[i].source) by {
        let line = edges[i].relation + "\t"@ + edges[i].source;
        lemma_refers(edges[i].relation);
        assert(tells(edges[i], n.id, line));
        callers_are_the_references(edges, n, line);
    }
    if n.kind != "route"@ {
        assert forall|line: Seq<char>| #[trigger] caller_lines(edges, n).contains(line) implies exists|i: int|
            0 <= i < edges.len() && (#[trigger] edges[i]).target == n.id && is_reference_to(edges[i].relation)
                && line == edges[i].relation + "\t"@ + edges[i].source by {
            callers_are_the_references(edges, n, line);
            let i = choose|i: int| 0 <= i < edges.len() && tells(#[trigger] edges[i], n.id, line);
            lemma_refers(edges[i].relation);
            assert(edges[i].target == n.id);
        }
    }
}

/// A route also lists what serves it: the pages it renders and the controllers that
/// serve it, and nothing else that it points to.
pub proof fn a_route_lists_what_serves_it(edges: Seq<EdgeRecView>, n: NodeRecView)
    requires
        n.kind == "route"@,
    ensures
        forall|i: int|
            0 <= i < edges.len() && (#[trigger] edges[i]).source == n.id && (edges[i].relation == "renders"@
                || edges[i].relation == "serves"@) ==> caller_lines(edges, n).contains(
                edges[i].relation + "\t"@ + edges[i].target,
            ),
        forall|line: Seq<char>| #[trigger]
            caller_lines(edges, n).contains(line) ==> {
                ||| exists|i: int|
                    0 <= i < edges.len() && (#[trigger] edges[i]).target == n.id && is_reference_to(
                        edges[i].relation,
                    ) && line == edges[i].relation + "\t"@ + edges[i].source
                ||| exists|i: int|
                    0 <= i < edges.len() && (#[trigger] edges[i]).source == n.id && (edges[i].relation
                        == "renders"@ || edges[i].relation == "serves"@) && line == edges[i].relation + "\t"@
                        + edges[i].target
            },
{
    assert forall|i: int|
        0 <= i < edges.len() && (#[trigger] edges[i]).source == n.id && (edges[i].relation == "renders"@
            || edges[i].relation == "serves"@) implies caller_lines(edges, n).contains(
        edges[i].relation + "\t"@ + edges[i].target,
    ) by {
        let line = edges[i].relation + "\t"@ + edges[i].target;
        assert(serves_by(edges[i], n.id, line));
        callers_are_the_references(edges, n, line);
    }
    assert forall|line: Seq<char>| #[trigger] caller_lines(edges, n).contains(line) implies {
        ||| exists|i: int|
            0 <= i < edges.len() && (#[trigger] edges[i]).target == n.id && is_reference_to(edges[i].relation)
                && line == edges[i].relation + "\t"@ + edges[i].source
        ||| exists|i: int|
            0 <= i < edges.len() && (#[trigger] edges[i]).source == n.id && (edges[i].relation == "renders"@
                || edges[i].relation == "serves"@) && line == edges[i].relation + "\t"@ + edges[i].target
    } by {
        callers_are_the_references(edges, n, line);
        if exists|i: int| 0 <= i < edges.len() && tells(#[trigger] edges[i], n.id, line) {
            let i = choose|i: int| 0 <= i < edges.len() && tells(#[trigger] edges[i], n.id, line);
            lemma_refers(edges[i].relation);
            assert(edges[i].target == n.id);
        } else {
            let i = choose|i: int| 0 <= i < edges.len() && serves_by(#[trigger] edges[i], n.id, line);
            assert(edges[i].source == n.id);
        }
    }
}

/// A symbol answers to its name, and to what stands behind a `#` or a `.` at the end
/// of its id; a file does not.
pub proof fn symbols_answer_to_their_names(n: NodeRecView, symbol: Seq<char>)
    ensures
        n.kind == "file"@ ==> !answers_to(n, symbol),
        n.kind != "file"@ && n.name == symbol ==> answers_to(n, symbol),
        n.kind != "file"@ ==> forall|a: Seq<char>|
            n.id == #[trigger] (a + seq!['#']) + symbol || n.id == (a + seq!['.']) + symbol ==> answers_to(
                n,
                symbol,
            ),
        answers_to(n, symbol) && n.name != symbol ==> exists|a: Seq<char>|
            n.id == #[trigger] (a + seq!['#']) + symbol || n.id == (a + seq!['.']) + symbol,
{
    reveal_strlit("#");
    reveal_strlit(".");
    let m = n.id.len() - symbol.len() - 1;
    assert forall|a: Seq<char>|
        n.kind != "file"@ && (n.id == #[trigger] (a + seq!['#']) + symbol || n.id == (a + seq!['.']) + symbol) implies answers_to(
        n,
        symbol,
    ) by {
        assert(a.len() == m);
        if n.id == (a + seq!['#']) + symbol {
            assert(n.id.subrange(m, n.id.len() as int) =~= "#"@ + symbol);
        } else {
            assert(n.id.subrange(m, n.id.len() as int) =~= "."@ + symbol);
        }
    }
    if answers_to(n, symbol) && n.name != symbol {
        let a = n.id.subrange(0, m);
        let tail = n.id.subrange(m, n.id.len() as int);
        assert(n.id =~= a + tail);
        assert(tail[0] == '#' || tail[0] == '.');
        assert(tail.subrange(1, tail.len() as int) =~= symbol);
        if tail[0] == '#' {
            assert(n.id =~= (a + seq!['#']) + symbol);
        } else {
            assert(n.id =~= (a + seq!['.']) + symbol);
        }
    }
}

proof fn lemma_ids_kept(nodes: Seq<NodeRecView>, p: spec_fn(NodeRecView) -> bool, id: Seq<char>)
    ensures
        ids_of(seqs::kept(nodes, p)).contains(id) <==> exists|k: int|
            0 <= k < nodes.len() && (#[trigger] nodes[k]).id == id && p(nodes[k]),
{
    let hits = seqs::kept(nodes, p);
    if ids_of(hits).contains(id) {
        let m = choose|m: int| 0 <= m < ids_of(hits).len() && ids_of(hits)[m] == id;
        seqs::lemma_kept(nodes, p, hits[m]);
        assert(hits.contains(hits[m]));
        let k = choose|k: int| 0 <= k < nodes.len() && nodes[k] == hits[m];
        assert(nodes[k].id == id && p(nodes[k]));
    }
    if exists|k: int| 0 <= k < nodes.len() && (#[trigger] nodes[k]).id == id && p(nodes[k]) {
        let k = choose|k: int| 0 <= k < nodes.len() && (#[trigger] nodes[k]).id == id && p(nodes[k]);
        seqs::lemma_kept(nodes, p, nodes[k]);
        assert(nodes.contains(nodes[k]));
        let m = choose|m: int| 0 <= m < hits.len() && hits[m] == nodes[k];
        assert(ids_of(hits)[m] == id);
    }
}

/// The kind is one of a whole unit, or of a join node.
pub open spec fn is_unit_or_join(kind: Seq<char>) -> bool {
    ||| kind == "file"@
    ||| kind == "component"@
    ||| kind == "route"@
    ||| kind == "module"@
    ||| kind == "permission"@
    ||| kind == "trigger"@
    ||| kind == "hook"@
    ||| kind == "role"@
}

proof fn lemma_hubs(kind: Seq<char>)
    ensures
        relations::hub_kinds().contains(kind) <==> is_unit_or_join(kind),
{
    let all = relations::hub_kinds();
    assert(all.len() == 8);
    assert(all[0] == "file"@);
    assert(all[1] == "component"@);
    assert(all[2] == "route"@);
    assert(all[3] == "module"@);
    assert(all[4] == "permission"@);
    assert(all[5] == "trigger"@);
    assert(all[6] == "hook"@);
    assert(all[7] == "role"@);
    if all.contains(kind) {
        let k = choose|k: int| 0 <= k < all.len() && all[k] == kind;
        assert(all[k] == kind);
    }
}

/// The symbols that are reported as unreferenced are those to which no edge leads but
/// the one from what contains them: what is called, imported, extended, or referred to
/// in any other way is none, and neither is a whole unit or a join node.
pub proof fn unreferenced_symbols_have_no_users(g: GraphView, id: Seq<char>)
    ensures
        ids_of(seqs::kept(g.nodes, is_dead(g.edges))).contains(id) <==> {
            &&& exists|k: int| 0 <= k < g.nodes.len() && (#[trigger] g.nodes[k]).id == id && !is_unit_or_join(g.nodes[k].kind)
            &&& forall|i: int| 0 <= i < g.edges.len() && (#[trigger] g.edges[i]).target == id ==> g.edges[i].relation
                == "contains"@
        },
{
    lemma_ids_kept(g.nodes, is_dead(g.edges), id);
    assert forall|k: int| 0 <= k < g.nodes.len() implies relations::hub_kinds().contains(
        (#[trigger] g.nodes[k]).kind,
    ) == is_unit_or_join(g.nodes[k].kind) by {
        lemma_hubs(g.nodes[k].kind);
    }
    if ids_of(seqs::kept(g.nodes, is_dead(g.edges))).contains(id) {
        let k = choose|k: int| 0 <= k < g.nodes.len() && (#[trigger] g.nodes[k]).id == id && is_dead(g.edges)(g.nodes[k]);
        assert(g.nodes[k].id == id && !is_unit_or_join(g.nodes[k].kind));
    }
    if exists|k: int| 0 <= k < g.nodes.len() && (#[trigger] g.nodes[k]).id == id && !is_unit_or_join(g.nodes[k].kind) {
        let k = choose|k: int| 0 <= k < g.nodes.len() && (#[trigger] g.nodes[k]).id == id && !is_unit_or_join(g.nodes[k].kind);
        if forall|i: int|
            0 <= i < g.edges.len() && (#[trigger] g.edges[i]).target == id ==> g.edges[i].relation == "contains"@ {
            assert(is_dead(g.edges)(g.nodes[k]));
        }
    }
}

/// The relation usually leads out of the tree.
pub open spec fn leads_outside(relation: Seq<char>) -> bool {
    ||| relation == "extends"@
    ||| relation == "implements"@
    ||| relation == "relates-to"@
    ||| relation == "depends-on"@
    ||| relation == "dol-requires"@
    ||| relation == "instantiates"@
    ||| relation == "uses-const"@
    ||| relation == "schedules"@
}

proof fn lemma_outward(relation: Seq<char>)
    ensures
        relations::outward_names().contains(relation) <==> leads_outside(relation),
{
    let all = relations::outward_names();
    assert(all.len() == 8);
    assert(all[0] == "extends"@);
    assert(all[1] == "implements"@);
    assert(all[2] == "relates-to"@);
    assert(all[3] == "depends-on"@);
    assert(all[4] == "dol-requires"@);
    assert(all[5] == "instantiates"@);
    assert(all[6] == "uses-const"@);
    assert(all[7] == "schedules"@);
    if all.contains(relation) {
        let k = choose|k: int| 0 <= k < all.len() && all[k] == relation;
        assert(all[k] == relation);
    }
}

/// The edge refers to something of the tree that is not there: no node has its target
/// for an id, and it is no import by a bare name, no heritage or relation to a class
/// or module elsewhere, and nothing under `vendor/`.
pub open spec fn leads_nowhere(nodes: Seq<NodeRecView>, e: EdgeRecView) -> bool {
    &&& is_reference_to(e.relation)
    &&& forall|k: int| 0 <= k < nodes.len() ==> (#[trigger] nodes[k]).id != e.target
    &&& e.relation == "imports"@ ==> e.target.len() > 0 && e.target[0] == '.'
    &&& !leads_outside(e.relation)
    &&& forall|a: Seq<char>, b: Seq<char>| e.target != #[trigger] ((a + "vendor/"@) + b)
}

proof fn lemma_broken(nodes: Seq<NodeRecView>, e: EdgeRecView)
    ensures
        is_broken(nodes)(e) <==> leads_nowhere(nodes, e),
{
    let v = "vendor/"@;
    let t = e.target;
    lemma_refers(e.relation);
    lemma_outward(e.relation);
    reveal_strlit(".");
    reveal_strlit("imports");
    reveal_strlit("extends");
    reveal_strlit("implements");
    reveal_strlit("relates-to");
    reveal_strlit("depends-on");
    reveal_strlit("dol-requires");
    reveal_strlit("instantiates");
    reveal_strlit("uses-const");
    reveal_strlit("schedules");
    assert(!leads_outside("imports"@)) by {
        assert("imports"@.len() == 7);
        assert("extends"@[0] != "imports"@[0]);
    }
    assert(text::starts(t, "."@) <==> t.len() > 0 && t[0] == '.') by {
        if text::starts(t, "."@) {
            assert(t.subrange(0, 1)[0] == "."@[0]);
        }
        if t.len() > 0 && t[0] == '.' {
            assert(t.subrange(0, 1) =~= "."@);
        }
    }
    if text::includes(t, v) {
        let i = choose|i: int| #[trigger] text::occurs(t, i, v);
        let a = t.subrange(0, i);
        let b = t.subrange(i + v.len(), t.len() as int);
        assert(t =~= (a + v) + b);
    } else {
        assert forall|a: Seq<char>, b: Seq<char>| t != #[trigger] ((a + v) + b) by {
            if t == (a + v) + b {
                assert(t.subrange(a.len() as int, (a.len() + v.len()) as int) =~= v);
                assert(text::occurs(t, a.len() as int, v));
            }
        }
    }
    if leads_nowhere(nodes, e) {
        assert(!has_id(nodes, e.target));
    }
    if !has_id(nodes, e.target) {
        assert forall|k: int| 0 <= k < nodes.len() implies (#[trigger] nodes[k]).id != e.target by {}
    }
}

/// The references that are reported as unresolved are those that lead nowhere, each
/// told as `source -> target (relation)`: none is left out, and none is made up.
pub proof fn unresolved_references_lead_nowhere(g: GraphView, line: Seq<char>)
    ensures
        broken_lines(g).contains(line) <==> exists|i: int|
            0 <= i < g.edges.len() && leads_nowhere(g.nodes, #[trigger] g.edges[i]) && line == g.edges[i].source
                + " -> "@ + g.edges[i].target + " ("@ + g.edges[i].relation + ")"@,
{
    let p = is_broken(g.nodes);
    let hits = seqs::kept(g.edges, p);
    let lines = hits.map_values(|e: EdgeRecView| edge_line(e));
    let keys = hits.map_values(|e: EdgeRecView| e.target);
    sorting::arranged_texts_are_in_order(lines, keys);
    assert forall|e: EdgeRecView| #[trigger] edge_line(e) == e.source + " -> "@ + e.target + " ("@ + e.relation
        + ")"@ by {
        assert(edge_line(e) =~= e.source + " -> "@ + e.target + " ("@ + e.relation + ")"@);
    }
    if broken_lines(g).contains(line) {
        let m = choose|m: int| 0 <= m < lines.len() && lines[m] == line;
        seqs::lemma_kept(g.edges, p, hits[m]);
        assert(hits.contains(hits[m]));
        let i = choose|i: int| 0 <= i < g.edges.len() && g.edges[i] == hits[m];
        lemma_broken(g.nodes, g.edges[i]);
        assert(leads_nowhere(g.nodes, g.edges[i]));
        assert(line == edge_line(g.edges[i]));
    }
    if exists|i: int|
        0 <= i < g.edges.len() && leads_nowhere(g.nodes, #[trigger] g.edges[i]) && line == g.edges[i].source
            + " -> "@ + g.edges[i].target + " ("@ + g.edges[i].relation + ")"@ {
        let i = choose|i: int|
            0 <= i < g.edges.len() && leads_nowhere(g.nodes, #[trigger] g.edges[i]) && line == g.edges[i].source
                + " -> "@ + g.edges[i].target + " ("@ + g.edges[i].relation + ")"@;
        lemma_broken(g.nodes, g.edges[i]);
        seqs::lemma_kept(g.edges, p, g.edges[i]);
        assert(g.edges.contains(g.edges[i]));
        let m = choose|m: int| 0 <= m < hits.len() && hits[m] == g.edges[i];
        assert(lines[m] == edge_line(g.edges[i]));
        assert(lines.contains(line));
    }
}

/// The extension is one of files that hold no code.
pub open spec fn holds_no_code(ext: Seq<char>) -> bool {
    ||| ext == "html"@
    ||| ext == "json"@
    ||| ext == "css"@
    ||| ext == "scss"@
    ||| ext == "sass"@
    ||| ext == "svg"@
}

proof fn lemma_exts(ext: Seq<char>)
    ensures
        relations::no_symbol_exts().contains(ext) <==> holds_no_code(ext),
{
    let all = relations::no_symbol_exts();
    assert(all.len() == 6);
    assert(all[0] == "html"@);
    assert(all[1] == "json"@);
    assert(all[2] == "css"@);
    assert(all[3] == "scss"@);
    assert(all[4] == "sass"@);
    assert(all[5] == "svg"@);
    if all.contains(ext) {
        let k = choose|k: int| 0 <= k < all.len() && all[k] == ext;
        assert(all[k] == ext);
    }
}

/// The files that are reported as empty are those that contain nothing and return
/// nothing, but for Blade templates and for files that hold no code.
pub proof fn empty_files_hold_nothing(g: GraphView, id: Seq<char>)
    ensures
        ids_of(seqs::kept(g.nodes, is_empty_file(g.edges))).contains(id) <==> {
            &&& exists|k: int| 0 <= k < g.nodes.len() && (#[trigger] g.nodes[k]).id == id && g.nodes[k].kind == "file"@
                && (forall|a: Seq<char>| g.nodes[k].path != #[trigger] (a + ".blade.php"@)) && (paths::extension(
                g.nodes[k].path,
            ) matches Some(e) ==> !holds_no_code(text::lower(e)))
            &&& forall|i: int| 0 <= i < g.edges.len() && (#[trigger] g.edges[i]).source == id ==> g.edges[i].relation
                != "contains"@ && g.edges[i].relation != "returns"@
        },
{
    let p = is_empty_file(g.edges);
    let b = ".blade.php"@;
    lemma_ids_kept(g.nodes, p, id);
    assert forall|k: int| 0 <= k < g.nodes.len() implies is_symbolless((#[trigger] g.nodes[k]).path) == !((forall|
        a: Seq<char>,
    | g.nodes[k].path != #[trigger] (a + b)) && (paths::extension(g.nodes[k].path) matches Some(e)
        ==> !holds_no_code(text::lower(e)))) by {
        let path = g.nodes[k].path;
        if let Some(e) = paths::extension(path) {
            lemma_exts(text::lower(e));
        }
        if text::ends(path, b) {
            let a = path.subrange(0, path.len() - b.len());
            assert(path =~= a + b);
        } else {
            assert forall|a: Seq<char>| path != #[trigger] (a + b) by {
                if path == a + b {
                    assert(path.subrange(a.len() as int, path.len() as int) =~= b);
                }
            }
        }
    }
    if ids_of(seqs::kept(g.nodes, p)).contains(id) {
        let k = choose|k: int| 0 <= k < g.nodes.len() && (#[trigger] g.nodes[k]).id == id && p(g.nodes[k]);
        assert(g.nodes[k].id == id && g.nodes[k].kind == "file"@);
    }
    if (exists|k: int| 0 <= k < g.nodes.len() && (#[trigger] g.nodes[k]).id == id && g.nodes[k].kind == "file"@ && (forall|
        a: Seq<char>,
    | g.nodes[k].path != #[trigger] (a + b)) && (paths::extension(g.nodes[k].path) matches Some(e)
        ==> !holds_no_code(text::lower(e)))) && (forall|i: int|
        0 <= i < g.edges.len() && (#[trigger] g.edges[i]).source == id ==> g.edges[i].relation != "contains"@
            && g.edges[i].relation != "returns"@) {
        let k = choose|k: int| 0 <= k < g.nodes.len() && (#[trigger] g.nodes[k]).id == id && g.nodes[k].kind == "file"@ && (forall|
            a: Seq<char>,
        | g.nodes[k].path != #[trigger] (a + b)) && (paths::extension(g.nodes[k].path) matches Some(e)
            ==> !holds_no_code(text::lower(e)));
        assert(p(g.nodes[k]));
    }
}

/// A report is its title with the number of items, and the items, indented; of more than
/// twenty it lists the first twenty and says how many there are besides.
pub proof fn a_report_counts_and_lists(title: Seq<char>, items: Seq<Seq<char>>)
    ensures
        reported(title, items)[0] == title + ": "@ + text::decimal(items.len()),
        items.len() <= 20 ==> reported(title, items).len() == items.len() + 1,
        forall|k: int|
            0 <= k < items.len() && k < 20 ==> #[trigger] reported(title, items)[k + 1] == "  "@ + items[k],
        items.len() > 20 ==> reported(title, items).len() == 22 && reported(title, items)[21] == "  ... and "@
            + text::decimal((items.len() - 20) as nat) + " more"@,
{
    let all = reported(title, items);
    let shown = if items.len() > 20 { 20int } else { items.len() as int };
    let middle = items.take(shown).map_values(|x: Seq<char>| "  "@ + x);
    assert(all[0] == title + ": "@ + text::decimal(items.len()));
    assert forall|k: int| 0 <= k < items.len() && k < 20 implies #[trigger] all[k + 1] == "  "@ + items[k] by {
        assert(all[k + 1] == middle[k]);
    }
}

/// The gaps are three reports: of the symbols that nothing refers to, of the references
/// that lead nowhere, and of the files that hold nothing.
pub proof fn the_gaps_are_three_reports(g: GraphView)
    ensures
        gaps(g) == reported(
            "unreferenced symbols (never called/imported/extended)"@,
            g.nodes.filter(is_dead(g.edges)).map_values(|n: NodeRecView| n.id),
        ) + reported("unresolved edges (target not in graph)"@, broken_lines(g)) + reported(
            "empty files (parsed to nothing)"@,
            g.nodes.filter(is_empty_file(g.edges)).map_values(|n: NodeRecView| n.id),
        ),
{
    seqs::what_is_kept_is_filtered(g.nodes, is_dead(g.edges));
    seqs::what_is_kept_is_filtered(g.nodes, is_empty_file(g.edges));
    assert(ids_of(g.nodes.filter(is_dead(g.edges))) =~= g.nodes.filter(is_dead(g.edges)).map_values(
        |n: NodeRecView| n.id,
    ));
}

/// The text stands somewhere in the other.
pub open spec fn has_within(s: Seq<char>, p: Seq<char>) -> bool {
    exists|a: Seq<char>, b: Seq<char>| s == #[trigger] ((a + p) + b)
}

proof fn lemma_includes(s: Seq<char>, p: Seq<char>)
    ensures
        text::includes(s, p) <==> has_within(s, p),
{
    if text::includes(s, p) {
        let i = choose|i: int| #[trigger] text::occurs(s, i, p);
        let a = s.subrange(0, i);
        let b = s.subrange(i + p.len(), s.len() as int);
        assert(s =~= (a + p) + b);
    }
    if has_within(s, p) {
        let (a, b) = choose|a: Seq<char>, b: Seq<char>| s == #[trigger] ((a + p) + b);
        assert(s.subrange(a.len() as int, (a.len() + p.len()) as int) =~= p);
        assert(text::occurs(s, a.len() as int, p));
    }
}

/// A search finds every symbol whose id or name has the term within, in any letter case,
/// as its kind and its id; it finds no files, and nothing else.
pub proof fn a_search_finds_what_mentions_the_term(nodes: Seq<NodeRecView>, term: Seq<char>, line: Seq<char>)
    ensures
        found(nodes, term).contains(line) <==> exists|k: int|
            0 <= k < nodes.len() && (#[trigger] nodes[k]).kind != "file"@ && (has_within(
                text::lowercase(nodes[k].id),
                text::lowercase(term),
            ) || has_within(text::lowercase(nodes[k].name), text::lowercase(term))) && line == nodes[k].kind
                + "\t"@ + nodes[k].id,
{
    let needle = text::lowercase(term);
    let p = mentioning(needle);
    let hits = seqs::kept(nodes, p);
    let lines = hits.map_values(|n: NodeRecView| node_line(n));
    sorting::arranged_texts_are_in_order(lines, ids_of(hits));
    assert forall|k: int| 0 <= k < nodes.len() implies p(#[trigger] nodes[k]) == (nodes[k].kind != "file"@ && (
    has_within(text::lowercase(nodes[k].id), needle) || has_within(text::lowercase(nodes[k].name), needle))) by {
        lemma_includes(text::lowercase(nodes[k].id), needle);
        lemma_includes(text::lowercase(nodes[k].name), needle);
    }
    if found(nodes, term).contains(line) {
        let m = choose|m: int| 0 <= m < lines.len() && lines[m] == line;
        seqs::lemma_kept(nodes, p, hits[m]);
        assert(hits.contains(hits[m]));
        let k = choose|k: int| 0 <= k < nodes.len() && nodes[k] == hits[m];
        assert(p(nodes[k]));
    }
    if exists|k: int|
        0 <= k < nodes.len() && (#[trigger] nodes[k]).kind != "file"@ && (has_within(
            text::lowercase(nodes[k].id),
            needle,
        ) || has_within(text::lowercase(nodes[k].name), needle)) && line == nodes[k].kind + "\t"@ + nodes[k].id {
        let k = choose|k: int|
            0 <= k < nodes.len() && (#[trigger] nodes[k]).kind != "file"@ && (has_within(
                text::lowercase(nodes[k].id),
                needle,
            ) || has_within(text::lowercase(nodes[k].name), needle)) && line == nodes[k].kind + "\t"@
                + nodes[k].id;
        assert(p(nodes[k]));
        seqs::lemma_kept(nodes, p, nodes[k]);
        assert(nodes.contains(nodes[k]));
        let m = choose|m: int| 0 <= m < hits.len() && hits[m] == nodes[k];
        assert(lines[m] == line);
        assert(lines.contains(line));
    }
}

/// What is found stands in the order of the ids.
pub proof fn what_is_found_is_in_order(nodes: Seq<NodeRecView>, term: Seq<char>, i: int, j: int)
    requires
        0 <= i < j < found(nodes, term).len(),
    ensures
        exists|a: NodeRecView, b: NodeRecView|
            #![trigger nodes.contains(a), nodes.contains(b)]
            nodes.contains(a) && nodes.contains(b) && found(nodes, term)[i] == a.kind + "\t"@ + a.id && found(
                nodes,
                term,
            )[j] == b.kind + "\t"@ + b.id && (sorting::less(a.id, b.id) || a.id == b.id),
{
    let p = mentioning(text::lowercase(term));
    let hits = seqs::kept(nodes, p);
    let lines = hits.map_values(|n: NodeRecView| node_line(n));
    let keys = ids_of(hits);
    sorting::arranged_texts_are_in_order(lines, keys);
    let ks = choose|ks: Seq<int>| #[trigger]
        sorting::is_order(keys, ks) && sorting::arranged(lines, keys) == ks.map_values(|k: int| lines[k]);
    let x = ks[i];
    let y = ks[j];
    assert(sorting::before(keys, x, y));
    seqs::lemma_kept(nodes, p, hits[x]);
    seqs::lemma_kept(nodes, p, hits[y]);
    assert(hits.contains(hits[x]) && hits.contains(hits[y]));
    assert(found(nodes, term)[i] == lines[x]);
    assert(found(nodes, term)[j] == lines[y]);
    assert(keys[x] == hits[x].id && keys[y] == hits[y].id);
}

/// A declaration line is what stands before the first `{`, or else before the first `;`,
/// without the white space round it.
pub proof fn a_declaration_ends_at_its_body(line: Seq<char>, rest: Seq<char>, braced: bool)
    requires
        line.len() > 0,
        !CharSet::Space.has(line[0]),
        !CharSet::Space.has(line.last()),
        !line.contains('{'),
        !braced ==> !line.contains(';') && !rest.contains('{'),
    ensures
        declaration(line + seq![if braced { '{' } else { ';' }] + rest) == line,
        !line.contains(';') ==> declaration(line) == line,
{
    let mark = if braced { '{' } else { ';' };
    let s = line + seq![mark] + rest;
    let n = line.len() as int;
    lemma_mark(line, rest, mark);
    if !braced {
        let b = text::seek(s, 0, CharSet::One('{'));
        text::lemma_seek(s, 0, CharSet::One('{'));
        if b < s.len() {
            assert(s[b] == '{');
            if b < n {
                assert(line[b] == '{');
            } else {
                assert(rest[b - n - 1] == '{');
            }
        }
    }
    assert(s.take(n) =~= line);
    lemma_untrimmed(line);
    if !line.contains(';') {
        text::lemma_seek(line, 0, CharSet::One('{'));
        text::lemma_seek(line, 0, CharSet::One(';'));
        let b = text::seek(line, 0, CharSet::One('{'));
        let c = text::seek(line, 0, CharSet::One(';'));
        if b < n {
            assert(line[b] == '{');
        }
        if c < n {
            assert(line[c] == ';');
        }
        assert(line.take(n) =~= line);
    }
}

proof fn lemma_mark(line: Seq<char>, rest: Seq<char>, mark: char)
    requires
        !line.contains(mark),
    ensures
        text::seek(line + seq![mark] + rest, 0, CharSet::One(mark)) == line.len(),
{
    let s = line + seq![mark] + rest;
    let k = CharSet::One(mark);
    let i = text::seek(s, 0, k);
    text::lemma_seek(s, 0, k);
    assert(s[line.len() as int] == mark);
    if i < line.len() {
        assert(s[i] == line[i]);
        assert(k.has(s[i]));
    }
    if i > line.len() {
        assert(!k.has(s[line.len() as int]));
    }
}

proof fn lemma_untrimmed(line: Seq<char>)
    requires
        line.len() > 0,
        !CharSet::Space.has(line[0]),
        !CharSet::Space.has(line.last()),
    ensures
        text::trimmed(line, CharSet::Space) == line,
{
    let k = CharSet::Space;
    assert(text::run(line, 0, k) == 0);
    assert(line.subrange(0, line.len() as int) =~= line);
    assert(text::run_back(line, line.len() as int, k) == line.len());
}

/// The source of a symbol is the part of its file that its span covers; the offsets of
/// a Vue component are those of its script.
pub proof fn a_source_is_cut_by_its_span(n: NodeRecView, code: Seq<char>)
    requires
        n.kind != "file"@,
        n.start <= n.end,
    ensures
        !paths::has_extension(n.path, "vue"@) && n.end <= utf8::encode_utf8(code).len() ==> source_of(n, code)
            == ast::lossy(utf8::encode_utf8(code).subrange(n.start as int, n.end as int)),
        paths::has_extension(n.path, "vue"@) && n.end <= utf8::encode_utf8(js::scripts_from(code, 0)).len()
            ==> source_of(n, code) == ast::lossy(
            utf8::encode_utf8(js::scripts_from(code, 0)).subrange(n.start as int, n.end as int),
        ),
{
}

/// A component or a file is named by its kind and its name; any other symbol by its
/// declaration. The body of a file is all of it.
pub proof fn whole_units_are_named(n: NodeRecView, code: Seq<char>)
    ensures
        n.kind == "component"@ || n.kind == "file"@ ==> signature_of(n, code) == n.kind + " "@ + n.name,
        n.kind != "component"@ && n.kind != "file"@ ==> signature_of(n, code) == declaration(source_of(n, code)),
        n.kind == "file"@ ==> source_of(n, code) == code,
{
}

/// A key that the index lists files for is used by each of them, and by no other; one
/// that it lists none for is looked for within the keys, in any letter case.
pub proof fn uses_are_looked_up(
    entries: Seq<(Seq<char>, JsonView)>,
    key: Seq<char>,
    files: Seq<JsonView>,
    line: Seq<char>,
)
    requires
        JsonView::Obj(entries).at(key) == JsonView::Arr(files),
        exists|i: int| 0 <= i < files.len() && (#[trigger] files[i]) is Str,
    ensures
        usages(JsonView::Obj(entries), key).contains(line) <==> exists|i: int|
            0 <= i < files.len() && ((#[trigger] files[i]) matches JsonView::Str(f) && line == key + "\t"@ + f),
{
    let f = use_line(key);
    let exact = use_lines(key, JsonView::Arr(files));
    seqs::lemma_each(files, 0, f, line);
    let k = choose|i: int| 0 <= i < files.len() && (#[trigger] files[i]) is Str;
    let one = key + "\t"@ + files[k]->Str_0;
    assert(f(files[k])[0] == one);
    seqs::lemma_each(files, 0, f, one);
    assert(exact.contains(one));
    assert(exact.len() > 0);
    if exact.contains(line) {
        let i = choose|i: int| 0 <= i < files.len() && f(#[trigger] files[i]).contains(line);
        assert(files[i] is Str);
    }
    if exists|i: int|
        0 <= i < files.len() && ((#[trigger] files[i]) matches JsonView::Str(t) && line == key + "\t"@ + t) {
        let i = choose|i: int|
            0 <= i < files.len() && ((#[trigger] files[i]) matches JsonView::Str(t) && line == key + "\t"@ + t);
        assert(f(files[i])[0] == line);
    }
}

/// The entry of the index has the key within, and lists a file that `line` tells of.
pub open spec fn lists(e: (Seq<char>, JsonView), key: Seq<char>, line: Seq<char>) -> bool {
    &&& has_within(text::lowercase(e.0), text::lowercase(key))
    &&& e.1 matches JsonView::Arr(files) && exists|i: int|
        0 <= i < files.len() && ((#[trigger] files[i]) matches JsonView::Str(f) && line == e.0 + "\t"@ + f)
}

/// A key that is not in the index is looked for within its keys: each file of each key
/// that has it within is listed, in any letter case.
pub proof fn loose_uses_are_found(entries: Seq<(Seq<char>, JsonView)>, key: Seq<char>, line: Seq<char>)
    requires
        JsonView::Obj(entries).at(key) is Null,
    ensures
        usages(JsonView::Obj(entries), key).contains(line) <==> exists|k: int|
            0 <= k < entries.len() && lists(#[trigger] entries[k], key, line),
{
    let needle = text::lowercase(key);
    let g = loose_use(needle);
    let all = usages(JsonView::Obj(entries), key);
    assert(use_lines(key, JsonView::Null).len() == 0);
    seqs::lemma_each(entries, 0, g, line);
    if all.contains(line) {
        let k = choose|k: int| 0 <= k < entries.len() && g(#[trigger] entries[k]).contains(line);
        lemma_includes(text::lowercase(entries[k].0), needle);
        let files = items_of(entries[k].1);
        let f = use_line(entries[k].0);
        seqs::lemma_each(files, 0, f, line);
        let i = choose|i: int| 0 <= i < files.len() && f(#[trigger] files[i]).contains(line);
        assert(files[i] is Str);
        assert(entries[k].1 == JsonView::Arr(files));
        assert(lists(entries[k], key, line));
    }
    if exists|k: int| 0 <= k < entries.len() && lists(#[trigger] entries[k], key, line) {
        let k = choose|k: int| 0 <= k < entries.len() && lists(#[trigger] entries[k], key, line);
        lemma_includes(text::lowercase(entries[k].0), needle);
        let files = entries[k].1->Arr_0;
        let i = choose|i: int|
            0 <= i < files.len() && ((#[trigger] files[i]) matches JsonView::Str(t) && line == entries[k].0
                + "\t"@ + t);
        let f = use_line(entries[k].0);
        assert(f(files[i])[0] == line);
        seqs::lemma_each(files, 0, f, line);
        assert(g(entries[k]).contains(line));
    }
}

/// Each object of the `nodes` and `edges` of a graph's text that says what a node or an
/// edge has to say is one: by its `id`, `name`, `kind`, `path`, `start` and `end`, or by
/// its `source`, `target` and `relation`.
pub proof fn the_text_of_a_graph_says_its_nodes_and_edges(
    j: JsonView,
    ns: Seq<JsonView>,
    es: Seq<JsonView>,
    k: int,
    n: NodeRecView,
    e: EdgeRecView,
)
    requires
        j.at("nodes"@) == JsonView::Arr(ns),
        j.at("edges"@) == JsonView::Arr(es),
        n.start <= u64::MAX && n.end <= u64::MAX,
    ensures
        0 <= k < ns.len() && ns[k].at("id"@) == JsonView::Str(n.id) && ns[k].at("name"@) == JsonView::Str(n.name)
            && ns[k].at("kind"@) == JsonView::Str(n.kind) && ns[k].at("path"@) == JsonView::Str(n.path)
            && ns[k].at("start"@) == JsonView::Int(n.start as u64) && ns[k].at("end"@) == JsonView::Int(
            n.end as u64,
        ) ==> graph_of(j).nodes.contains(n),
        0 <= k < es.len() && es[k].at("source"@) == JsonView::Str(e.source) && es[k].at("target"@)
            == JsonView::Str(e.target) && es[k].at("relation"@) == JsonView::Str(e.relation) ==> graph_of(
            j,
        ).edges.contains(e),
{
    seqs::lemma_each(ns, 0, node_items(), n);
    seqs::lemma_each(es, 0, edge_items(), e);
    if 0 <= k < ns.len() && node_of(ns[k]) == Some(n) {
        assert(node_items()(ns[k])[0] == n);
    }
    if 0 <= k < es.len() && edge_of(es[k]) == Some(e) {
        assert(edge_items()(es[k])[0] == e);
    }
}

} // verus!
