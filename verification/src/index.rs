//! Assembling the graph of a whole tree, and writing it down: `wiring.json`, and
//! the sidecar with its sizes.

use serde_json::Value;
use vstd::prelude::*;
use vstd::slice::slice_subrange;

use crate::buckets;
use crate::json;
use crate::json::JsonView;
use crate::lang;
use crate::model;
use crate::model::{EdgeView, FoundView, Node, NodeView, RawEdge, ResolvedEdge, ResolvedView};
use crate::query;
use crate::query::{EdgeRecView, GraphView, NodeRecView};
use crate::relations;
use crate::resolve;
use crate::seqs;
use crate::sorting;
use crate::statusline;
use crate::text;
use crate::text::{chars_of, is_text, CharSet};

verus! {

broadcast use crate::seqs::group_text;

// ---------------------------------------------------------------------------
// Reading the files

/// The number that the first `k` characters write in decimal.
pub open spec fn number_upto(s: Seq<char>, k: int) -> nat
    decreases k,
{
    if k <= 0 {
        0
    } else {
        (number_upto(s, k - 1) * 10 + (s[k - 1] as u32 - '0' as u32)) as nat
    }
}

/// A text without the `+` that it may start with.
pub open spec fn unsigned(s: Seq<char>) -> Seq<char> {
    if s.len() > 0 && s[0] == '+' {
        s.subrange(1, s.len() as int)
    } else {
        s
    }
}

/// The number that a text writes in decimal, if it writes one that fits a `usize`.
pub open spec fn whole_number(s: Seq<char>) -> Option<nat> {
    let d = unsigned(s);
    if d.len() > 0 && text::all_in(d, CharSet::Digit) && number_upto(d, d.len() as int) <= usize::MAX {
        Some(number_upto(d, d.len() as int))
    } else {
        None
    }
}

/// How many threads read the files: what the setting says, where that is a positive
/// number, else one for each core, but not more than four.
pub open spec fn threads_for(setting: Option<Seq<char>>, cores: usize) -> nat {
    match setting {
        Some(s) => match whole_number(s) {
            Some(n) => if n > 0 { n } else { default_threads(cores) },
            None => default_threads(cores),
        },
        None => default_threads(cores),
    }
}

/// One thread for each core, but not more than four.
pub open spec fn default_threads(cores: usize) -> nat {
    if cores < 4 {
        cores as nat
    } else {
        4
    }
}

proof fn lemma_number_grows(s: Seq<char>, i: int, k: int)
    requires
        0 <= i <= k <= s.len(),
        text::all_in(s, CharSet::Digit),
    ensures
        number_upto(s, i) <= number_upto(s, k),
    decreases k - i,
{
    if i < k {
        lemma_number_grows(s, i, k - 1);
        assert(CharSet::Digit.has(s[k - 1]));
    }
}

fn read_number(text: &str) -> (r: Option<usize>)
    ensures
        match r {
            Some(n) => whole_number(text@) == Some(n as nat),
            None => whole_number(text@) is None,
        },
{
    let s = chars_of(text);
    let start: usize = if s.len() > 0 && s[0] == '+' {
        1
    } else {
        0
    };
    let d = slice_subrange(s.as_slice(), start, s.len());
    assert(d@ =~= unsigned(text@));
    if d.len() == 0 || !text::is_all(d, CharSet::Digit) {
        return None;
    }
    let mut n: usize = 0;
    let mut k: usize = 0;
    while k < d.len()
        invariant
            k <= d@.len(),
            text::all_in(d@, CharSet::Digit),
            n == number_upto(d@, k as int),
            d@ == unsigned(text@),
        decreases d@.len() - k,
    {
        assert(CharSet::Digit.has(d@[k as int]));
        let v = (d[k] as u32 - '0' as u32) as usize;
        if n > (usize::MAX - v) / 10 {
            proof {
                assert(number_upto(d@, k + 1) == n * 10 + v);
                lemma_number_grows(d@, k + 1, d@.len() as int);
            }
            return None;
        }
        n = n * 10 + v;
        k += 1;
    }
    Some(n)
}

/// How many threads read the files. They default to one for each core, at most four;
/// a positive number in the setting overrides that.
pub fn thread_count(setting: Option<&str>, cores: usize) -> (r: usize)
    ensures
        r == threads_for(seqs::opt_view(setting), cores),
{
    if let Some(text) = setting {
        if let Some(n) = read_number(text) {
            if n > 0 {
                return n;
            }
        }
    }
    if cores < 4 {
        cores
    } else {
        4
    }
}

/// What a number of files give, one after the other.
pub open spec fn gathered(found: Seq<FoundView>) -> FoundView
    decreases found.len(),
{
    if found.len() == 0 {
        FoundView::none()
    } else {
        gathered(found.drop_last()).plus(found.last())
    }
}

/// Adds what more files give to what is there.
pub fn gather(nodes: &mut Vec<Node>, edges: &mut Vec<RawEdge>, found: (Vec<Node>, Vec<RawEdge>))
    ensures
        (FoundView { nodes: seqs::views(final(nodes)@), edges: seqs::views(final(edges)@) }) == (FoundView {
            nodes: seqs::views(old(nodes)@),
            edges: seqs::views(old(edges)@),
        }).plus(FoundView { nodes: seqs::views(found.0@), edges: seqs::views(found.1@) }),
{
    let (mut more_nodes, mut more_edges) = found;
    nodes.append(&mut more_nodes);
    edges.append(&mut more_edges);
}

proof fn lemma_gathered_add(a: Seq<FoundView>, b: Seq<FoundView>)
    ensures
        gathered(a + b) == gathered(a).plus(gathered(b)),
    decreases b.len(),
{
    if b.len() == 0 {
        assert(a + b =~= a);
        assert(gathered(a).plus(gathered(b)).nodes =~= gathered(a).nodes);
        assert(gathered(a).plus(gathered(b)).edges =~= gathered(a).edges);
    } else {
        lemma_gathered_add(a, b.drop_last());
        assert((a + b).drop_last() =~= a + b.drop_last());
        assert((a + b).last() == b.last());
    }
}

/// The graph does not depend on how many threads read the files: where each gathers
/// what a run of them gives, and the runs are gathered in their order, that is what
/// the files give one after the other.
pub proof fn the_division_of_the_files_does_not_matter(runs: Seq<Seq<FoundView>>)
    ensures
        gathered(runs.map_values(|run: Seq<FoundView>| gathered(run))) == gathered(runs.flatten()),
    decreases runs.len(),
{
    let f = |run: Seq<FoundView>| gathered(run);
    if runs.len() == 0 {
        assert(runs.map_values(f) =~= Seq::<FoundView>::empty());
        assert(runs.flatten() =~= Seq::<FoundView>::empty());
    } else {
        let rest = runs.drop_first();
        the_division_of_the_files_does_not_matter(rest);
        let one = seq![gathered(runs.first())];
        assert(runs.map_values(f) =~= one + rest.map_values(f));
        lemma_gathered_add(one, rest.map_values(f));
        lemma_gathered_add(runs.first(), rest.flatten());
        reveal_with_fuel(gathered, 2);
        assert(gathered(one).nodes =~= one[0].nodes);
        assert(gathered(one).edges =~= one[0].edges);
    }
}

// ---------------------------------------------------------------------------
// Assembling the graph

pub open spec fn usage_of() -> spec_fn(EdgeView) -> Seq<(Seq<char>, Seq<char>)> {
    |e: EdgeView|
        match e.name {
            Some(key) => if e.relation == "uses-lang"@ {
                seq![(e.source, key)]
            } else {
                Seq::empty()
            },
            None => Seq::empty(),
        }
}

/// The `(file, key)` usages that the `uses-lang` edges state.
pub open spec fn drained(edges: Seq<EdgeView>) -> Seq<(Seq<char>, Seq<char>)> {
    seqs::each(edges, usage_of())
}

pub open spec fn is_wiring() -> spec_fn(EdgeView) -> bool {
    |e: EdgeView| e.relation != "uses-lang"@
}

/// The edges that belong into the graph.
pub open spec fn wiring_edges(edges: Seq<EdgeView>) -> Seq<EdgeView> {
    seqs::kept(edges, is_wiring())
}

/// Translation-key usages can be numerous (a gettext app has thousands) and
/// would bloat the graph everyone loads: parts the edges into those of the graph
/// and the `(file, key)` usages that the others state.
pub fn drain_usages(edges: Vec<RawEdge>) -> (r: (Vec<RawEdge>, Vec<(String, String)>))
    ensures
        seqs::views(r.0@) == wiring_edges(seqs::views(edges@)),
        lang::usage_views(r.1@) == drained(seqs::views(edges@)),
{
    let ghost all = seqs::views(edges@);
    let mut kept: Vec<RawEdge> = Vec::new();
    let mut usages: Vec<(String, String)> = Vec::new();
    assert(lang::usage_views(usages@) =~= Seq::empty());
    for e in it: edges
        invariant
            it.seq() == edges@,
            all == seqs::views(edges@),
            seqs::views(kept@) + seqs::each_from(all, it.index() as int, seqs::keep(is_wiring()))
                == wiring_edges(all),
            lang::usage_views(usages@) + seqs::each_from(all, it.index() as int, usage_of()) == drained(
                all,
            ),
    {
        assert(all[it.index() as int] == e@);
        if is_text(&chars_of(e.relation), "uses-lang") {
            if let Some(key) = e.name {
                let ghost so_far = usages@;
                let usage = (e.source, key);
                usages.push(usage);
                assert(lang::usage_views(usages@) =~= lang::usage_views(so_far).push(
                    (usage.0@, usage.1@),
                ));
            }
        } else {
            kept.push(e);
        }
    }
    (kept, usages)
}

/// The graph of a tree.
#[derive(Debug)]
pub struct Build {
    pub nodes: Vec<Node>,
    pub edges: Vec<ResolvedEdge>,
    pub usages: Vec<(String, String)>,
}

/// Makes the graph of what was found in a tree: collapses the nodes that several
/// files share, sets the translation-key usages aside, and resolves the edges.
pub fn assemble(nodes: Vec<Node>, edges: Vec<RawEdge>) -> (r: Build)
    ensures
        seqs::views(r.nodes@) == model::fresh(seqs::views(nodes@)),
        seqs::views(r.edges@) == resolve::resolved(
            model::fresh(seqs::views(nodes@)),
            wiring_edges(seqs::views(edges@)),
        ),
        lang::usage_views(r.usages@) == drained(seqs::views(edges@)),
{
    let nodes = model::dedup_nodes(nodes);
    let (edges, usages) = drain_usages(edges);
    let edges = resolve::resolve(&nodes, &edges);
    Build { nodes, edges, usages }
}

/// How many of the first `k` nodes are of a kind.
pub open spec fn kind_count(nodes: Seq<NodeView>, k: int, kind: Seq<char>) -> nat
    decreases k,
{
    if k <= 0 {
        0
    } else {
        kind_count(nodes, k - 1, kind) + if nodes[k - 1].kind == kind {
            1nat
        } else {
            0
        }
    }
}

/// `h` lists the kind `kind`.
pub open spec fn is_listed(h: Seq<(&'static str, usize)>, kind: Seq<char>) -> bool {
    exists|i: int| 0 <= i < h.len() && (#[trigger] h[i]).0@ == kind
}

/// `h` lists each kind of the first `k` nodes once, with the number of nodes of
/// that kind.
pub open spec fn is_tally(nodes: Seq<NodeView>, k: int, h: Seq<(&'static str, usize)>) -> bool {
    &&& forall|i: int, j: int| 0 <= i < j < h.len() ==> (#[trigger] h[i]).0@ != (#[trigger] h[j]).0@
    &&& forall|i: int| 0 <= i < h.len() ==> (#[trigger] h[i]).1 == kind_count(nodes, k, h[i].0@) && h[i].1 > 0
    &&& forall|n: int| 0 <= n < k ==> is_listed(h, (#[trigger] nodes[n]).kind)
}

/// The counts do not increase.
pub open spec fn is_ranked(h: Seq<(&'static str, usize)>) -> bool {
    forall|i: int, j: int| 0 <= i < j < h.len() ==> (#[trigger] h[i]).1 >= (#[trigger] h[j]).1
}

proof fn lemma_kind_count(nodes: Seq<NodeView>, k: int, kind: Seq<char>)
    requires
        0 <= k <= nodes.len(),
    ensures
        kind_count(nodes, k, kind) <= k,
        (forall|n: int| 0 <= n < k ==> (#[trigger] nodes[n]).kind != kind) ==> kind_count(nodes, k, kind)
            == 0,
    decreases k,
{
    if k > 0 {
        lemma_kind_count(nodes, k - 1, kind);
    }
}

fn tally(nodes: &[Node]) -> (r: Vec<(&'static str, usize)>)
    ensures
        is_tally(seqs::views(nodes@), nodes@.len() as int, r@),
{
    let ghost all = seqs::views(nodes@);
    let mut out: Vec<(&'static str, usize)> = Vec::new();
    let mut k: usize = 0;
    while k < nodes.len()
        invariant
            k <= nodes@.len(),
            all == seqs::views(nodes@),
            is_tally(all, k as int, out@),
        decreases nodes@.len() - k,
    {
        let kind = nodes[k].kind;
        let chars = chars_of(kind);
        let ghost before = out@;
        assert(all[k as int].kind == kind@);
        let mut i: usize = 0;
        while i < out.len() && !is_text(&chars, out[i].0)
            invariant
                i <= out@.len(),
                out@ == before,
                chars@ == kind@,
                forall|j: int| 0 <= j < i ==> (#[trigger] out@[j]).0@ != kind@,
            decreases out@.len() - i,
        {
            i += 1;
        }
        proof {
            lemma_kind_count(all, k as int, kind@);
        }
        if i < out.len() {
            let count = out[i].1;
            let label = out[i].0;
            out.set(i, (label, count + 1));
            proof {
                assert forall|n: int| 0 <= n < k + 1 implies is_listed(
                    out@,
                    (#[trigger] all[n]).kind,
                ) by {
                    if n < k {
                        assert(is_listed(before, all[n].kind));
                        let j = choose|j: int|
                            0 <= j < before.len() && (#[trigger] before[j]).0@ == all[n].kind;
                        assert(out@[j].0@ == all[n].kind);
                    } else {
                        assert(out@[i as int].0@ == all[n].kind);
                    }
                }
            }
        } else {
            out.push((kind, 1));
            proof {
                assert forall|n: int| 0 <= n < k implies (#[trigger] all[n]).kind != kind@ by {
                    assert(is_listed(before, all[n].kind));
                    let j = choose|j: int|
                        0 <= j < before.len() && (#[trigger] before[j]).0@ == all[n].kind;
                }
                assert forall|n: int| 0 <= n < k + 1 implies is_listed(
                    out@,
                    (#[trigger] all[n]).kind,
                ) by {
                    if n < k {
                        assert(is_listed(before, all[n].kind));
                        let j = choose|j: int|
                            0 <= j < before.len() && (#[trigger] before[j]).0@ == all[n].kind;
                        assert(out@[j].0@ == all[n].kind);
                    } else {
                        assert(out@[before.len() as int].0@ == all[n].kind);
                    }
                }
            }
        }
        k += 1;
    }
    out
}

/// The kinds of nodes, with how many there are of each, the most frequent first.
pub fn kind_histogram(nodes: &[Node]) -> (r: Vec<(&'static str, usize)>)
    ensures
        is_tally(seqs::views(nodes@), nodes@.len() as int, r@),
        is_ranked(r@),
{
    let h = tally(nodes);
    let ghost all = seqs::views(nodes@);
    let mut out: Vec<(&'static str, usize)> = Vec::new();
    let mut k: usize = 0;
    while k < h.len()
        invariant
            k <= h@.len(),
            is_tally(all, all.len() as int, h@),
            is_ranked(out@),
            forall|i: int, j: int| 0 <= i < j < out@.len() ==> (#[trigger] out@[i]).0@ != (#[trigger] out@[j]).0@,
            forall|i: int| 0 <= i < out@.len() ==> h@.take(k as int).contains(#[trigger] out@[i]),
            forall|j: int| 0 <= j < k ==> out@.contains(#[trigger] h@[j]),
        decreases h@.len() - k,
    {
        let item = h[k];
        let ghost before = out@;
        let mut p: usize = 0;
        while p < out.len() && out[p].1 >= item.1
            invariant
                p <= out@.len(),
                forall|i: int| 0 <= i < p ==> (#[trigger] out@[i]).1 >= item.1,
            decreases out@.len() - p,
        {
            p += 1;
        }
        out.insert(p, item);
        proof {
            assert forall|i: int| 0 <= i < before.len() implies (#[trigger] before[i]).0@ != item.0@ by {
                let j = choose|j: int| 0 <= j < h@.take(k as int).len() && h@.take(k as int)[j] == before[i];
                assert(h@[j] == before[i]);
            }
            assert forall|i: int| 0 <= i < out@.len() implies h@.take(k + 1).contains(
                #[trigger] out@[i],
            ) by {
                if i == p {
                    assert(h@.take(k + 1)[k as int] == item);
                } else {
                    let o = if i < p { i } else { i - 1 };
                    assert(out@[i] == before[o]);
                    let j = choose|j: int|
                        0 <= j < h@.take(k as int).len() && h@.take(k as int)[j] == before[o];
                    assert(h@.take(k + 1)[j] == out@[i]);
                }
            }
            assert forall|j: int| 0 <= j < k + 1 implies out@.contains(#[trigger] h@[j]) by {
                if j == k {
                    assert(out@[p as int] == item);
                } else {
                    let i = choose|i: int| 0 <= i < before.len() && before[i] == h@[j];
                    let o = if i < p { i } else { i + 1 };
                    assert(out@[o] == h@[j]);
                }
            }
        }
        k += 1;
    }
    proof {
        assert forall|i: int| 0 <= i < out@.len() implies (#[trigger] out@[i]).1 == kind_count(
            all,
            all.len() as int,
            out@[i].0@,
        ) && out@[i].1 > 0 by {
            assert(h@.take(k as int).contains(out@[i]));
            let j = choose|j: int| 0 <= j < h@.take(k as int).len() && h@.take(k as int)[j] == out@[i];
            assert(h@[j] == out@[i]);
        }
        assert forall|n: int| 0 <= n < all.len() implies is_listed(
            out@,
            (#[trigger] all[n]).kind,
        ) by {
            assert(is_listed(h@, all[n].kind));
            let j = choose|j: int| 0 <= j < h@.len() && (#[trigger] h@[j]).0@ == all[n].kind;
            assert(out@.contains(h@[j]));
            let i = choose|i: int| 0 <= i < out@.len() && out@[i] == h@[j];
            assert(out@[i].0@ == all[n].kind);
        }
        assert(is_tally(all, all.len() as int, out@));
    }
    out
}

// ---------------------------------------------------------------------------
// Writing the graph

/// A node in `wiring.json`.
pub open spec fn node_json(n: NodeView) -> JsonView {
    JsonView::Obj(
        seq![
            ("id"@, JsonView::Str(n.id)),
            ("name"@, JsonView::Str(n.name)),
            ("kind"@, JsonView::Str(n.kind)),
            ("path"@, JsonView::Str(n.path)),
            ("start"@, JsonView::Int(n.start as u64)),
            ("end"@, JsonView::Int(n.end as u64)),
            ("exported"@, JsonView::Bool(true)),
        ],
    )
}

/// An edge in `wiring.json`.
pub open spec fn edge_json(e: ResolvedView) -> JsonView {
    JsonView::Obj(
        seq![
            ("source"@, JsonView::Str(e.source)),
            ("target"@, JsonView::Str(e.target)),
            ("relation"@, JsonView::Str(e.relation)),
        ],
    )
}

/// What `wiring.json` says of itself.
pub open spec fn meta_json() -> JsonView {
    JsonView::Obj(
        seq![("tool"@, JsonView::Str("plouf-rs"@)), ("lang"@, JsonView::Str("php+js"@))],
    )
}

/// The nodes in `wiring.json`.
pub open spec fn nodes_json(nodes: Seq<NodeView>) -> Seq<JsonView> {
    nodes.map_values(|n: NodeView| node_json(n))
}

/// The edges in `wiring.json`.
pub open spec fn edges_json(edges: Seq<ResolvedView>) -> Seq<JsonView> {
    edges.map_values(|e: ResolvedView| edge_json(e))
}

/// The content of `wiring.json`.
pub open spec fn wiring(nodes: Seq<NodeView>, edges: Seq<ResolvedView>) -> JsonView {
    JsonView::Obj(
        seq![
            ("meta"@, meta_json()),
            ("nodes"@, JsonView::Arr(nodes_json(nodes))),
            ("edges"@, JsonView::Arr(edges_json(edges))),
        ],
    )
}

/// The names of the members differ from each other.
proof fn lemma_node_names()
    ensures
        "id"@.len() == 2,
        "end"@.len() == 3,
        "start"@.len() == 5,
        "exported"@.len() == 8,
        "name"@.len() == 4,
        "kind"@.len() == 4,
        "path"@.len() == 4,
        "name"@ != "kind"@,
        "name"@ != "path"@,
        "kind"@ != "path"@,
{
    reveal_strlit("id");
    reveal_strlit("end");
    reveal_strlit("start");
    reveal_strlit("exported");
    reveal_strlit("name");
    reveal_strlit("kind");
    reveal_strlit("path");
    assert("name"@[0] == 'n');
    assert("kind"@[0] == 'k');
    assert("path"@[0] == 'p');
}

proof fn lemma_edge_names()
    ensures
        "source"@.len() == 6,
        "target"@.len() == 6,
        "relation"@.len() == 8,
        "source"@ != "target"@,
{
    reveal_strlit("source");
    reveal_strlit("target");
    reveal_strlit("relation");
    assert("source"@[0] == 's');
    assert("target"@[0] == 't');
}

proof fn lemma_wiring_names()
    ensures
        "meta"@.len() == 4,
        "nodes"@.len() == 5,
        "edges"@.len() == 5,
        "nodes"@ != "edges"@,
        "tool"@ != "lang"@,
{
    reveal_strlit("meta");
    reveal_strlit("nodes");
    reveal_strlit("edges");
    reveal_strlit("tool");
    reveal_strlit("lang");
    assert("nodes"@[0] == 'n');
    assert("edges"@[0] == 'e');
    assert("tool"@[0] == 't');
    assert("lang"@[0] == 'l');
}

fn node_value(n: &Node) -> (r: Value)
    ensures
        json::held(r) == node_json(n@),
{
    let mut entries: Vec<(String, Value)> = Vec::new();
    entries.push(("id".to_string(), json::text_value(&n.id)));
    entries.push(("name".to_string(), json::text_value(&n.name)));
    entries.push(("kind".to_string(), json::text_value(n.kind)));
    entries.push(("path".to_string(), json::text_value(&n.path)));
    entries.push(("start".to_string(), json::number_value(n.start as u64)));
    entries.push(("end".to_string(), json::number_value(n.end as u64)));
    entries.push(("exported".to_string(), json::bool_value(true)));
    proof {
        lemma_node_names();
        assert(json::held_pairs(entries@) =~= node_json(n@)->Obj_0);
    }
    json::object_value(entries)
}

fn edge_value(e: &ResolvedEdge) -> (r: Value)
    ensures
        json::held(r) == edge_json(e@),
{
    let mut entries: Vec<(String, Value)> = Vec::new();
    entries.push(("source".to_string(), json::text_value(&e.source)));
    entries.push(("target".to_string(), json::text_value(&e.target)));
    entries.push(("relation".to_string(), json::text_value(e.relation)));
    proof {
        lemma_edge_names();
        assert(json::held_pairs(entries@) =~= edge_json(e@)->Obj_0);
    }
    json::object_value(entries)
}

fn node_values(nodes: &[Node]) -> (r: Value)
    ensures
        json::held(r) == JsonView::Arr(nodes_json(seqs::views(nodes@))),
{
    let ghost want = nodes_json(seqs::views(nodes@));
    let mut items: Vec<Value> = Vec::new();
    assert(json::held_all(items@) =~= want.take(0));
    let mut k: usize = 0;
    while k < nodes.len()
        invariant
            k <= nodes@.len(),
            want == nodes_json(seqs::views(nodes@)),
            json::held_all(items@) == want.take(k as int),
        decreases nodes@.len() - k,
    {
        let ghost so_far = items@;
        let item = node_value(&nodes[k]);
        items.push(item);
        assert(json::held_all(items@) =~= json::held_all(so_far).push(json::held(item)));
        assert(want.take(k + 1) =~= want.take(k as int).push(want[k as int]));
        k += 1;
    }
    assert(want.take(k as int) =~= want);
    json::list_value(items)
}

fn edge_values(edges: &[ResolvedEdge]) -> (r: Value)
    ensures
        json::held(r) == JsonView::Arr(edges_json(seqs::views(edges@))),
{
    let ghost want = edges_json(seqs::views(edges@));
    let mut items: Vec<Value> = Vec::new();
    assert(json::held_all(items@) =~= want.take(0));
    let mut k: usize = 0;
    while k < edges.len()
        invariant
            k <= edges@.len(),
            want == edges_json(seqs::views(edges@)),
            json::held_all(items@) == want.take(k as int),
        decreases edges@.len() - k,
    {
        let ghost so_far = items@;
        let item = edge_value(&edges[k]);
        items.push(item);
        assert(json::held_all(items@) =~= json::held_all(so_far).push(json::held(item)));
        assert(want.take(k + 1) =~= want.take(k as int).push(want[k as int]));
        k += 1;
    }
    assert(want.take(k as int) =~= want);
    json::list_value(items)
}

proof fn lemma_node_plain(n: NodeView)
    ensures
        node_json(n).is_plain((json::DEPTH - 2) as nat),
{
    let s = node_json(n)->Obj_0;
    lemma_node_names();
    assert forall|i: int| 0 <= i < s.len() implies (#[trigger] s[i]).1.is_plain(
        (json::DEPTH - 3) as nat,
    ) by {
        assert(s[i].1 is Str || s[i].1 is Int || s[i].1 is Bool);
    }
}

proof fn lemma_edge_plain(e: ResolvedView)
    ensures
        edge_json(e).is_plain((json::DEPTH - 2) as nat),
{
    let s = edge_json(e)->Obj_0;
    lemma_edge_names();
    assert forall|i: int| 0 <= i < s.len() implies (#[trigger] s[i]).1.is_plain(
        (json::DEPTH - 3) as nat,
    ) by {
        assert(s[i].1 is Str);
    }
}

proof fn lemma_wiring_plain(nodes: Seq<NodeView>, edges: Seq<ResolvedView>)
    ensures
        wiring(nodes, edges).is_plain(json::DEPTH as nat),
{
    let s = wiring(nodes, edges)->Obj_0;
    let ns = nodes_json(nodes);
    let es = edges_json(edges);
    let ms = meta_json()->Obj_0;
    lemma_wiring_names();
    assert forall|i: int| 0 <= i < ns.len() implies (#[trigger] ns[i]).is_plain(
        (json::DEPTH - 2) as nat,
    ) by {
        lemma_node_plain(nodes[i]);
    }
    assert forall|i: int| 0 <= i < es.len() implies (#[trigger] es[i]).is_plain(
        (json::DEPTH - 2) as nat,
    ) by {
        lemma_edge_plain(edges[i]);
    }
    assert forall|i: int| 0 <= i < ms.len() implies (#[trigger] ms[i]).1.is_plain(
        (json::DEPTH - 2) as nat,
    ) by {
        assert(ms[i].1 is Str);
    }
    assert(JsonView::Arr(ns).is_plain((json::DEPTH - 1) as nat));
    assert(JsonView::Arr(es).is_plain((json::DEPTH - 1) as nat));
    assert(meta_json().is_plain((json::DEPTH - 1) as nat));
    assert(json::distinct_keys(s));
}

/// The text of `wiring.json`.
pub fn write_wiring(nodes: &[Node], edges: &[ResolvedEdge]) -> (r: String)
    ensures
        r@ == json::rendered(wiring(seqs::views(nodes@), seqs::views(edges@))),
        json::reads(r@, wiring(seqs::views(nodes@), seqs::views(edges@))),
{
    let mut about: Vec<(String, Value)> = Vec::new();
    about.push(("tool".to_string(), json::text_value("plouf-rs")));
    about.push(("lang".to_string(), json::text_value("php+js")));
    proof {
        lemma_wiring_names();
        assert(json::held_pairs(about@) =~= meta_json()->Obj_0);
    }
    let mut entries: Vec<(String, Value)> = Vec::new();
    entries.push(("meta".to_string(), json::object_value(about)));
    entries.push(("nodes".to_string(), node_values(nodes)));
    entries.push(("edges".to_string(), edge_values(edges)));
    proof {
        assert(json::held_pairs(entries@) =~= wiring(seqs::views(nodes@), seqs::views(edges@))->Obj_0);
        lemma_wiring_plain(seqs::views(nodes@), seqs::views(edges@));
    }
    json::render(&json::object_value(entries))
}

/// A node as the queries read it.
pub open spec fn node_record(n: NodeView) -> NodeRecView {
    NodeRecView {
        id: n.id,
        name: n.name,
        kind: n.kind,
        path: n.path,
        start: n.start as usize,
        end: n.end as usize,
    }
}

/// An edge as the queries read it.
pub open spec fn edge_record(e: ResolvedView) -> EdgeRecView {
    EdgeRecView { source: e.source, target: e.target, relation: e.relation }
}

/// A graph as the queries read it.
pub open spec fn graph_records(nodes: Seq<NodeView>, edges: Seq<ResolvedView>) -> GraphView {
    GraphView {
        nodes: nodes.map_values(|n: NodeView| node_record(n)),
        edges: edges.map_values(|e: ResolvedView| edge_record(e)),
    }
}

proof fn lemma_node_reads_back(n: NodeView)
    ensures
        query::node_of(node_json(n)) == Some(node_record(n)),
{
    lemma_node_names();
    reveal_with_fuel(json::first_entry, 8);
}

proof fn lemma_edge_reads_back(e: ResolvedView)
    ensures
        query::edge_of(edge_json(e)) == Some(edge_record(e)),
{
    lemma_edge_names();
    reveal_with_fuel(json::first_entry, 4);
}

proof fn lemma_nodes_read_back(nodes: Seq<NodeView>, k: int)
    requires
        0 <= k <= nodes.len(),
    ensures
        seqs::each_from(nodes_json(nodes), k, query::node_items()) == nodes.skip(k).map_values(
            |n: NodeView| node_record(n),
        ),
    decreases nodes.len() - k,
{
    if k < nodes.len() {
        lemma_nodes_read_back(nodes, k + 1);
        lemma_node_reads_back(nodes[k]);
        assert(nodes.skip(k).map_values(|n: NodeView| node_record(n)) =~= seq![node_record(nodes[k])]
            + nodes.skip(k + 1).map_values(|n: NodeView| node_record(n)));
    } else {
        assert(nodes.skip(k).map_values(|n: NodeView| node_record(n)) =~= Seq::empty());
    }
}

proof fn lemma_edges_read_back(edges: Seq<ResolvedView>, k: int)
    requires
        0 <= k <= edges.len(),
    ensures
        seqs::each_from(edges_json(edges), k, query::edge_items()) == edges.skip(k).map_values(
            |e: ResolvedView| edge_record(e),
        ),
    decreases edges.len() - k,
{
    if k < edges.len() {
        lemma_edges_read_back(edges, k + 1);
        lemma_edge_reads_back(edges[k]);
        assert(edges.skip(k).map_values(|e: ResolvedView| edge_record(e)) =~= seq![
            edge_record(edges[k]),
        ] + edges.skip(k + 1).map_values(|e: ResolvedView| edge_record(e)));
    } else {
        assert(edges.skip(k).map_values(|e: ResolvedView| edge_record(e)) =~= Seq::empty());
    }
}

/// The queries read back what indexing wrote: a text that reads as the `wiring.json`
/// of some nodes and edges loads as exactly those nodes and edges, in their order.
pub proof fn the_graph_reads_back(text: Seq<char>, nodes: Seq<NodeView>, edges: Seq<ResolvedView>)
    requires
        json::reads(text, wiring(nodes, edges)),
    ensures
        query::loaded(text) == Ok::<GraphView, crate::failure::FailureView>(graph_records(nodes, edges)),
{
    let j = wiring(nodes, edges);
    lemma_wiring_names();
    reveal_with_fuel(json::first_entry, 4);
    lemma_nodes_read_back(nodes, 0);
    lemma_edges_read_back(edges, 0);
    assert(nodes.skip(0) =~= nodes);
    assert(edges.skip(0) =~= edges);
    assert(j.at("nodes"@) == JsonView::Arr(nodes_json(nodes)));
    assert(j.at("edges"@) == JsonView::Arr(edges_json(edges)));
    assert(query::graph_of(j) == graph_records(nodes, edges));
}

/// The sizes of a graph in `stats.json`.
pub open spec fn stats_json(files: usize, nodes: usize, edges: usize, keys: usize, usages: usize) -> JsonView {
    JsonView::Obj(
        seq![
            ("files"@, JsonView::Int(files as u64)),
            ("nodes"@, JsonView::Int(nodes as u64)),
            ("edges"@, JsonView::Int(edges as u64)),
            ("lang_keys"@, JsonView::Int(keys as u64)),
            ("lang_usages"@, JsonView::Int(usages as u64)),
        ],
    )
}

proof fn lemma_stats_names()
    ensures
        "files"@ != "nodes"@,
        "files"@ != "edges"@,
        "nodes"@ != "edges"@,
        "files"@.len() == 5,
        "nodes"@.len() == 5,
        "edges"@.len() == 5,
        "lang_keys"@.len() == 9,
        "lang_usages"@.len() == 11,
{
    reveal_strlit("files");
    reveal_strlit("nodes");
    reveal_strlit("edges");
    reveal_strlit("lang_keys");
    reveal_strlit("lang_usages");
    assert("files"@[0] == 'f');
    assert("nodes"@[0] == 'n');
    assert("edges"@[0] == 'e');
}

proof fn lemma_stats_plain(files: usize, nodes: usize, edges: usize, keys: usize, usages: usize)
    ensures
        stats_json(files, nodes, edges, keys, usages).is_plain(json::DEPTH as nat),
{
    let s = stats_json(files, nodes, edges, keys, usages)->Obj_0;
    lemma_stats_names();
    assert forall|i: int| 0 <= i < s.len() implies (#[trigger] s[i]).1.is_plain(
        (json::DEPTH - 1) as nat,
    ) by {
        assert(s[i].1 is Int);
    }
}

/// The text of `stats.json`, a tiny sidecar that the status line (and other
/// tooling) can read without parsing the multi-MB `wiring.json` on every render.
pub fn write_stats(files: usize, nodes: usize, edges: usize, keys: usize, usages: usize) -> (r: String)
    ensures
        r@ == json::rendered(stats_json(files, nodes, edges, keys, usages)),
        json::reads(r@, stats_json(files, nodes, edges, keys, usages)),
{
    let mut entries: Vec<(String, Value)> = Vec::new();
    entries.push(("files".to_string(), json::number_value(files as u64)));
    entries.push(("nodes".to_string(), json::number_value(nodes as u64)));
    entries.push(("edges".to_string(), json::number_value(edges as u64)));
    entries.push(("lang_keys".to_string(), json::number_value(keys as u64)));
    entries.push(("lang_usages".to_string(), json::number_value(usages as u64)));
    proof {
        lemma_stats_names();
        lemma_stats_plain(files, nodes, edges, keys, usages);
        assert(json::held_pairs(entries@) =~= stats_json(files, nodes, edges, keys, usages)->Obj_0);
    }
    json::render(&json::object_value(entries))
}

// ---------------------------------------------------------------------------
// What the sidecars give back

/// The status line shows the sizes that indexing wrote.
pub proof fn the_sizes_read_back(
    text: Seq<char>,
    files: usize,
    nodes: usize,
    edges: usize,
    keys: usize,
    usages: usize,
)
    requires
        json::reads(text, stats_json(files, nodes, edges, keys, usages)),
    ensures
        statusline::size_line(Some(text)) == "plouf "@ + text::decimal(nodes as nat) + ("n/"@
            + text::decimal(edges as nat) + "e"@),
{
    lemma_stats_names();
    reveal_with_fuel(json::first_entry, 6);
}

/// The line that `uses` answers for a key and a file.
pub open spec fn usage_line(key: Seq<char>, file: Seq<char>) -> Seq<char> {
    key + "\t"@ + file
}

proof fn lemma_entry(u: Seq<(Seq<char>, Seq<char>)>, keys: Seq<Seq<char>>, k: int, key: Seq<char>)
    requires
        0 <= k <= keys.len(),
        exists|i: int| k <= i < keys.len() && keys[i] == key,
    ensures
        json::first_entry(keys.map_values(|n: Seq<char>| lang::index_entry(u, n)), k, key)
            == lang::index_entry(u, key).1,
    decreases keys.len() - k,
{
    if keys[k] != key {
        lemma_entry(u, keys, k + 1, key);
    }
}

proof fn lemma_lines(files: Seq<Seq<char>>, k: int, key: Seq<char>)
    requires
        0 <= k <= files.len(),
    ensures
        seqs::each_from(files.map_values(|f: Seq<char>| JsonView::Str(f)), k, query::use_line(key))
            == files.skip(k).map_values(|f: Seq<char>| usage_line(key, f)),
    decreases files.len() - k,
{
    if k < files.len() {
        lemma_lines(files, k + 1, key);
        assert(files.skip(k).map_values(|f: Seq<char>| usage_line(key, f)) =~= seq![
            usage_line(key, files[k]),
        ] + files.skip(k + 1).map_values(|f: Seq<char>| usage_line(key, f)));
    } else {
        assert(files.skip(k).map_values(|f: Seq<char>| usage_line(key, f)) =~= Seq::empty());
    }
}

/// The files of a key are those that use it.
pub proof fn the_files_of_a_key_use_it(
    u: Seq<(Seq<char>, Seq<char>)>,
    key: Seq<char>,
    file: Seq<char>,
)
    ensures
        sorting::sorted_set(lang::using_files(u, key)).contains(file) <==> u.contains((file, key)),
{
    let marks = u.map_values(|e: (Seq<char>, Seq<char>)| Some(e.1));
    let places = lang::usage_places(u, key);
    let files = lang::using_files(u, key);
    sorting::sorted_set_exists(files);
    buckets::lemma_bucket(marks, key);
    if u.contains((file, key)) {
        let i = choose|i: int| 0 <= i < u.len() && u[i] == (file, key);
        assert(marks[i] == Some(key));
        assert(places.contains(i));
        let j = choose|j: int| 0 <= j < places.len() && places[j] == i;
        assert(files[j] == file);
    }
    if files.contains(file) {
        let j = choose|j: int| 0 <= j < files.len() && files[j] == file;
        let i = places[j];
        assert(marks[i] == Some(key));
        assert(u[i] == (file, key));
    }
}

/// `uses` answers from the index that was written: for a key that is used, exactly
/// the files that use it, in order.
pub proof fn the_usages_read_back(text: Seq<char>, u: Seq<(Seq<char>, Seq<char>)>, key: Seq<char>)
    requires
        json::reads(text, lang::index_of(u)),
        lang::used_keys(u).contains(key),
    ensures
        query::uses_answer(text, key) == Ok::<Seq<Seq<char>>, crate::failure::FailureView>(
            sorting::sorted_set(lang::using_files(u, key)).map_values(
                |f: Seq<char>| usage_line(key, f),
            ),
        ),
{
    let j = lang::index_of(u);
    let keys = sorting::sorted_set(lang::used_keys(u));
    let files = sorting::sorted_set(lang::using_files(u, key));
    sorting::sorted_set_exists(lang::used_keys(u));
    assert(keys.contains(key));
    lemma_entry(u, keys, 0, key);
    assert(j.at(key) == lang::index_entry(u, key).1);
    lemma_lines(files, 0, key);
    assert(files.skip(0) =~= files);
    let i = choose|i: int| 0 <= i < u.len() && lang::used_keys(u)[i] == key;
    assert(u[i] == (u[i].0, key));
    the_files_of_a_key_use_it(u, key, u[i].0);
    let m = choose|m: int| 0 <= m < files.len() && files[m] == u[i].0;
}

proof fn lemma_joins_refer(relation: Seq<char>)
    requires
        resolve::join_prefix(relation) is Some,
    ensures
        relations::refers(relation),
{
    let all = relations::reference_names();
    assert(all[6] == "table"@);
    assert(all[7] == "migrates"@);
    assert(all[8] == "uses-table"@);
    assert(all[9] == "visits"@);
    assert(all[12] == "defines-fn"@);
    assert(all[14] == "defines-pipe"@);
    assert(all[20] == "checks-permission"@);
    assert(all[21] == "raises-trigger"@);
    assert(all[22] == "handles-trigger"@);
    assert(all[23] == "fires-hook"@);
    assert(all[24] == "handles-hook"@);
    assert(all[25] == "declares-module"@);
    assert(all[28] == "requires-role"@);
}

/// The callers of a join node are all that name it: the callers of `table:<name>`
/// list the model and every migration, those of `route:<path>` the scenarios that
/// open it, and so on.
pub proof fn a_join_node_lists_all_that_name_it(
    nodes: Seq<NodeView>,
    edges: Seq<EdgeView>,
    i: int,
    source: Seq<char>,
    relation: Seq<char>,
    name: Seq<char>,
    n: NodeRecView,
)
    requires
        0 <= i < edges.len(),
        edges[i] == model::named_edge(source, relation, name),
        resolve::join_prefix(relation) is Some,
        n.id == resolve::join_prefix(relation)->0 + name,
    ensures
        query::caller_lines(graph_records(nodes, resolve::resolved(nodes, edges)).edges, n).contains(
            relation + "\t"@ + source,
        ),
{
    let line = relation + "\t"@ + source;
    let r = ResolvedView { source, target: n.id, relation };
    let all = resolve::resolved(nodes, edges);
    let records = graph_records(nodes, all).edges;
    resolve::joined_names_meet(nodes, edges, i, source, relation, name);
    lemma_joins_refer(relation);
    let k = choose|k: int| 0 <= k < all.len() && all[k] == r;
    assert(query::tells(records[k], n.id, line));
    query::callers_are_the_references(records, n, line);
}

/// The edge says that the file uses the key.
pub open spec fn says_use(e: EdgeView, file: Seq<char>, key: Seq<char>) -> bool {
    e.relation == "uses-lang"@ && e.source == file && e.name == Some(key)
}

/// The usages that are indexed are those that the files were found to make: none is
/// lost, and none is made up.
pub proof fn every_usage_is_indexed(edges: Seq<EdgeView>, file: Seq<char>, key: Seq<char>)
    ensures
        drained(edges).contains((file, key)) <==> exists|i: int|
            0 <= i < edges.len() && says_use(#[trigger] edges[i], file, key),
{
    let f = usage_of();
    seqs::lemma_each(edges, 0, f, (file, key));
    if drained(edges).contains((file, key)) {
        let i = choose|i: int| 0 <= i < edges.len() && f(#[trigger] edges[i]).contains((file, key));
        assert(says_use(edges[i], file, key));
    }
    if exists|i: int| 0 <= i < edges.len() && says_use(#[trigger] edges[i], file, key) {
        let i = choose|i: int| 0 <= i < edges.len() && says_use(#[trigger] edges[i], file, key);
        assert(f(edges[i])[0] == (file, key));
    }
}

/// A node and an edge are written under these keys.
pub proof fn records_are_written_under_these_keys(n: NodeView, e: ResolvedView)
    ensures
        node_json(n).at("id"@) == JsonView::Str(n.id),
        node_json(n).at("name"@) == JsonView::Str(n.name),
        node_json(n).at("kind"@) == JsonView::Str(n.kind),
        node_json(n).at("path"@) == JsonView::Str(n.path),
        node_json(n).at("start"@) == JsonView::Int(n.start as u64),
        node_json(n).at("end"@) == JsonView::Int(n.end as u64),
        edge_json(e).at("source"@) == JsonView::Str(e.source),
        edge_json(e).at("target"@) == JsonView::Str(e.target),
        edge_json(e).at("relation"@) == JsonView::Str(e.relation),
{
    reveal_with_fuel(json::first_entry, 8);
    reveal_strlit("id");
    reveal_strlit("name");
    reveal_strlit("kind");
    reveal_strlit("path");
    reveal_strlit("start");
    reveal_strlit("end");
    reveal_strlit("exported");
    reveal_strlit("source");
    reveal_strlit("target");
    reveal_strlit("relation");
    assert("name"@[0] == 'n' && "kind"@[0] == 'k' && "path"@[0] == 'p' && "source"@[0] == 's' && "target"@[0]
        == 't');
    assert("id"@.len() == 2 && "start"@.len() == 5 && "end"@.len() == 3 && "relation"@.len() == 8);
}

/// The number of threads is what is set where that is a positive number, and that of
/// the cores elsewhere, four at most.
pub proof fn threads_are_set_or_follow_the_cores(setting: Seq<char>, cores: usize)
    ensures
        threads_for(None, cores) <= 4 && threads_for(None, cores) <= cores,
        threads_for(None, cores) == 4 || threads_for(None, cores) == cores,
        whole_number(setting) matches Some(n) && n > 0 ==> threads_for(Some(setting), cores)
            == whole_number(setting)->0,
        !(whole_number(setting) matches Some(n) && n > 0) ==> threads_for(Some(setting), cores) == threads_for(
            None,
            cores,
        ),
{
}

/// A digit more makes a number ten times as large, and adds the digit.
pub proof fn numbers_are_read_in_base_ten(s: Seq<char>, d: int)
    requires
        s.len() > 0,
        s[0] != '+',
        0 <= d <= 9,
        whole_number(s) is Some,
        whole_number(s)->0 * 10 + d <= usize::MAX,
    ensures
        whole_number(s.push((48 + d) as char)) == Some((whole_number(s)->0 * 10 + d) as nat),
{
    let c = (48 + d) as char;
    let t = s.push(c);
    let n = s.len() as int;
    assert(unsigned(s) == s && unsigned(t) == t);
    lemma_number_upto(s, t, n);
    assert(t[n] == c);
    assert(text::all_in(t, CharSet::Digit)) by {
        assert forall|i: int| 0 <= i < t.len() implies CharSet::Digit.has(#[trigger] t[i]) by {
            if i < n {
                assert(t[i] == s[i]);
                assert(CharSet::Digit.has(s[i]));
            }
        }
    }
    assert(number_upto(t, n + 1) == number_upto(s, n) * 10 + d);
}

proof fn lemma_number_upto(s: Seq<char>, t: Seq<char>, k: int)
    requires
        0 <= k <= s.len() <= t.len(),
        forall|i: int| 0 <= i < s.len() ==> #[trigger] s[i] == t[i],
    ensures
        number_upto(s, k) == number_upto(t, k),
    decreases k,
{
    if k > 0 {
        lemma_number_upto(s, t, k - 1);
    }
}

} // verus!
