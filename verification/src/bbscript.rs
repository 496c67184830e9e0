//! bbscript format: a Gherkin-like end-to-end test DSL. A `*.bbscript` file is a
//! `Feature:` with a `Background:` and one or more `Scenario:` blocks of indented
//! steps (`open /login`, `fill ...`, `click ...`, `seeurl ends /clients`, ...).
//!
//! It gives a `file` node, a `scenario` node per Scenario, and a `visits` edge to
//! a `route:<path>` node for every step that references a route -- so the graph
//! knows which e2e tests exercise which routes. (`route:<path>` mirrors the
//! `table:<name>` join node: the router scan links a route to its page component,
//! connecting a scenario to the source it drives.)

use vstd::hash_set::StringHashSet;
use vstd::prelude::*;
use vstd::slice::slice_subrange;

use crate::model;
use crate::model::{make_file, make_join, plain_node, EdgeView, FoundView, Minter, Node, NodeView, RawEdge};
use crate::reading;
use crate::seqs;
use crate::text;
use crate::text::{chars_of, string_of, CharSet};

verus! {

broadcast use {crate::seqs::group_text, text::lemma_run, text::lemma_seek};

/// The bbscript format: routes every `*.bbscript`.
pub struct BbScript;

/// What has been read of a script so far.
#[verifier::ext_equal]
pub struct Story {
    /// The id of the file or scenario that a step belongs to.
    pub scope: Seq<char>,
    /// The ids that are taken.
    pub taken: Set<Seq<char>>,
    /// The routes that have a node.
    pub routes: Set<Seq<char>>,
    pub nodes: Seq<NodeView>,
    pub edges: Seq<EdgeView>,
}

pub open spec fn route_word() -> spec_fn(Seq<char>) -> Option<Seq<char>> {
    |w: Seq<char>|
        if w.len() > 0 && w[0] == '/' {
            Some(w.subrange(0, text::seek(w, 0, CharSet::Two('?', '#'))))
        } else {
            None
        }
}

/// The route a step references: the first word starting with `/`, without any
/// `?query` / `#fragment`.
pub open spec fn route_of(step: Seq<char>) -> Option<Seq<char>> {
    seqs::first_some(text::words(step), route_word())
}

/// The route a step references.
fn read_route(step: &[char]) -> (r: Option<String>)
    ensures
        seqs::opt_view(r) == route_of(step@),
{
    let words = text::split_words(step);
    let ghost all = seqs::views(words@);
    let mut k: usize = 0;
    while k < words.len()
        invariant
            k <= words@.len(),
            all == seqs::views(words@),
            seqs::first_from(all, k as int, route_word()) == seqs::first_some(all, route_word()),
            all == text::words(step@),
        decreases words@.len() - k,
    {
        let w = words[k];
        assert(all[k as int] == w@);
        if w.len() > 0 && w[0] == '/' {
            return Some(string_of(slice_subrange(w, 0, text::look(w, 0, CharSet::Two('?', '#')))));
        }
        k += 1;
    }
    None
}

/// The story after one more line.
pub open spec fn step(rel: Seq<char>, st: Story, line: Seq<char>) -> Story {
    let l = text::trimmed(line, CharSet::Space);
    if l.len() == 0 || l[0] == '#' {
        st
    } else if text::starts(l, "Scenario:"@) {
        let name = text::trimmed(l.subrange("Scenario:"@.len() as int, l.len() as int), CharSet::Space);
        let id = model::minted_id(st.taken, rel + "#"@ + name);
        Story {
            scope: id,
            taken: st.taken.insert(id),
            routes: st.routes,
            nodes: st.nodes.push(model::unspanned(id, name, "scenario"@, rel)),
            edges: st.edges.push(model::contains_edge(rel, id)),
        }
    } else if text::starts(l, "Feature:"@) || text::starts(l, "Background:"@) {
        Story { scope: rel, taken: st.taken, routes: st.routes, nodes: st.nodes, edges: st.edges }
    } else {
        match route_of(l) {
            Some(route) => Story {
                scope: st.scope,
                taken: st.taken,
                routes: st.routes.insert(route),
                nodes: if st.routes.contains(route) {
                    st.nodes
                } else {
                    st.nodes.push(model::route_node(rel, route))
                },
                edges: st.edges.push(model::named_edge(st.scope, "visits"@, route)),
            },
            None => st,
        }
    }
}

/// The story after the first `k` lines. Steps before the first `Scenario:` (the
/// `Background:` / `Feature:` preamble) belong to the file itself.
pub open spec fn story(rel: Seq<char>, base: Seq<char>, lines: Seq<Seq<char>>, k: int) -> Story
    decreases k,
{
    if k <= 0 || k > lines.len() {
        Story {
            scope: rel,
            taken: Set::empty().insert(rel),
            routes: Set::empty(),
            nodes: seq![model::file_node(rel, base)],
            edges: Seq::empty(),
        }
    } else {
        step(rel, story(rel, base, lines, k - 1), lines[k - 1])
    }
}

/// What a script gives.
pub open spec fn extracted(rel: Seq<char>, base: Seq<char>, code: Seq<char>) -> FoundView {
    let lines = text::lines(code);
    let st = story(rel, base, lines, lines.len() as int);
    FoundView { nodes: st.nodes, edges: st.edges }
}

/// Parse a bbscript file into a `file` node, per-`Scenario:` `scenario` nodes,
/// and `visits` edges to the routes each references.
pub fn extract(rel: &str, base: &str, code: &str) -> (r: (Vec<Node>, Vec<RawEdge>))
    ensures
        seqs::views(r.0@) == extracted(rel@, base@, code@).nodes,
        seqs::views(r.1@) == extracted(rel@, base@, code@).edges,
{
    let s = chars_of(code);
    let lines = text::split_lines(&s);
    let ghost all = seqs::views(lines@);
    let mut nodes: Vec<Node> = Vec::new();
    nodes.push(make_file(rel, base));
    let mut edges: Vec<RawEdge> = Vec::new();
    let mut minter = Minter::new();
    minter.take(rel.to_string());
    let mut routes = StringHashSet::new();
    let mut scope = rel.to_string();
    assert(seqs::views(nodes@) =~= seq![model::file_node(rel@, base@)]);
    let mut k: usize = 0;
    while k < lines.len()
        invariant
            k <= lines@.len(),
            all == seqs::views(lines@),
            minter@.finite(),
            story(rel@, base@, all, k as int) == (Story {
                scope: scope@,
                taken: minter@,
                routes: routes@,
                nodes: seqs::views(nodes@),
                edges: seqs::views(edges@),
            }),
        decreases lines@.len() - k,
    {
        assert(all[k as int] == lines@[k as int]@);
        let l = text::trim(lines[k], CharSet::Space);
        if l.len() == 0 || l[0] == '#' {
        } else if text::starts_with(l, "Scenario:") {
            let rest = slice_subrange(l, text::length_of("Scenario:"), l.len());
            let name = string_of(text::trim(rest, CharSet::Space));
            let id = minter.mint(text::join3(rel, "#", &name));
            edges.push(RawEdge::contains(rel.to_string(), id.clone()));
            nodes.push(plain_node(id.clone(), name, "scenario", rel));
            scope = id;
        } else if text::starts_with(l, "Feature:") || text::starts_with(l, "Background:") {
            scope = rel.to_string();
        } else if let Some(route) = read_route(l) {
            edges.push(RawEdge::named(scope.clone(), "visits", route.clone()));
            assert(routes@.contains(route@) ==> routes@.insert(route@) =~= routes@);
            if routes.insert(route.clone()) {
                nodes.push(make_join("route:", "route", rel, &route));
            }
        }
        k += 1;
    }
    (nodes, edges)
}

// ---------------------------------------------------------------------------
// Laws

/// What holds of a story at every line: the file and the scenarios have distinct
/// ids; every edge starts at one of them; and every route that a step visits has its
/// node.
pub open spec fn is_sound(rel: Seq<char>, st: Story) -> bool {
    &&& st.taken.finite()
    &&& model::is_id(st.nodes, rel)
    &&& model::is_id(st.nodes, st.scope)
    &&& forall|i: int|
        0 <= i < st.nodes.len() && (#[trigger] st.nodes[i]).kind != "route"@ ==> st.taken.contains(st.nodes[i].id)
    &&& forall|i: int, j: int|
        0 <= i < j < st.nodes.len() && (#[trigger] st.nodes[i]).kind != "route"@ && (
        #[trigger] st.nodes[j]).kind != "route"@ ==> st.nodes[i].id != st.nodes[j].id
    &&& forall|r: Seq<char>| #[trigger] st.routes.contains(r) ==> model::is_id(st.nodes, "route:"@ + r)
    &&& forall|k: int| 0 <= k < st.edges.len() ==> model::is_id(st.nodes, (#[trigger] st.edges[k]).source)
    &&& forall|k: int|
        0 <= k < st.edges.len() && (#[trigger] st.edges[k]).name is Some ==> model::is_id(
            st.nodes,
            "route:"@ + st.edges[k].name->0,
        )
}

proof fn lemma_node(rel: Seq<char>, st: Story, n: NodeView)
    requires
        is_sound(rel, st),
        n.kind == "route"@ || !st.taken.contains(n.id),
    ensures
        is_sound(
            rel,
            Story {
                nodes: st.nodes.push(n),
                taken: if n.kind == "route"@ {
                    st.taken
                } else {
                    st.taken.insert(n.id)
                },
                ..st
            },
        ),
        model::is_id(st.nodes.push(n), n.id),
{
    let nodes = st.nodes.push(n);
    model::lemma_ids_grow(st.nodes, n);
    assert forall|i: int| 0 <= i < st.nodes.len() implies #[trigger] nodes[i] == st.nodes[i] by {}
}

proof fn lemma_edge(rel: Seq<char>, st: Story, e: EdgeView)
    requires
        is_sound(rel, st),
        model::is_id(st.nodes, e.source),
        e.name is Some ==> model::is_id(st.nodes, "route:"@ + e.name->0),
    ensures
        is_sound(rel, Story { edges: st.edges.push(e), ..st }),
{
    let edges = st.edges.push(e);
    assert forall|i: int| 0 <= i < st.edges.len() implies #[trigger] edges[i] == st.edges[i] by {}
}

proof fn lemma_step(rel: Seq<char>, st: Story, line: Seq<char>)
    requires
        is_sound(rel, st),
    ensures
        is_sound(rel, step(rel, st, line)),
{
    let l = text::trimmed(line, CharSet::Space);
    if l.len() == 0 || l[0] == '#' {
    } else if text::starts(l, "Scenario:"@) {
        let name = text::trimmed(l.subrange("Scenario:"@.len() as int, l.len() as int), CharSet::Space);
        let id = model::minted_id(st.taken, rel + "#"@ + name);
        let n = model::unspanned(id, name, "scenario"@, rel);
        model::minted_ids_are_free(st.taken, rel + "#"@ + name);
        reveal_strlit("scenario");
        reveal_strlit("route");
        assert(n.kind.len() != "route"@.len());
        lemma_node(rel, st, n);
        let more = Story { nodes: st.nodes.push(n), taken: st.taken.insert(id), ..st };
        lemma_edge(rel, more, model::contains_edge(rel, id));
        assert(step(rel, st, line) == (Story {
            scope: id,
            edges: more.edges.push(model::contains_edge(rel, id)),
            ..more
        }));
    } else if text::starts(l, "Feature:"@) || text::starts(l, "Background:"@) {
    } else if let Some(route) = route_of(l) {
        let n = model::route_node(rel, route);
        let e = model::named_edge(st.scope, "visits"@, route);
        if st.routes.contains(route) {
            lemma_edge(rel, st, e);
            assert(st.routes.insert(route) =~= st.routes);
        } else {
            lemma_node(rel, st, n);
            let more = Story { nodes: st.nodes.push(n), ..st };
            lemma_edge(rel, more, e);
        }
    }
}

proof fn lemma_story(rel: Seq<char>, base: Seq<char>, lines: Seq<Seq<char>>, k: int)
    ensures
        is_sound(rel, story(rel, base, lines, k)),
    decreases k,
{
    if k <= 0 || k > lines.len() {
        let st = story(rel, base, lines, k);
        assert(st.nodes[0].id == rel);
    } else {
        lemma_story(rel, base, lines, k - 1);
        lemma_step(rel, story(rel, base, lines, k - 1), lines[k - 1]);
    }
}

/// Whatever a script says, the file and its scenarios have distinct ids, every edge
/// starts at one of the nodes, and every route that is visited has a node to join.
pub proof fn scenarios_reach_their_routes(rel: Seq<char>, base: Seq<char>, code: Seq<char>)
    ensures
        ({
            let found = extracted(rel, base, code);
            &&& forall|i: int, j: int|
                0 <= i < j < found.nodes.len() && (#[trigger] found.nodes[i]).kind != "route"@ && (
                #[trigger] found.nodes[j]).kind != "route"@ ==> found.nodes[i].id != found.nodes[j].id
            &&& forall|k: int|
                0 <= k < found.edges.len() ==> model::is_id(found.nodes, (#[trigger] found.edges[k]).source)
            &&& forall|k: int|
                0 <= k < found.edges.len() && (#[trigger] found.edges[k]).relation == "visits"@
                    && found.edges[k].name is Some ==> model::is_id(
                    found.nodes,
                    "route:"@ + found.edges[k].name->0,
                )
        }),
{
    let lines = text::lines(code);
    lemma_story(rel, base, lines, lines.len() as int);
}

proof fn lemma_story_grows(rel: Seq<char>, base: Seq<char>, lines: Seq<Seq<char>>, j: int, k: int)
    requires
        0 <= j <= k <= lines.len(),
    ensures
        ({
            let a = story(rel, base, lines, j);
            let b = story(rel, base, lines, k);
            &&& a.nodes.len() <= b.nodes.len()
            &&& a.edges.len() <= b.edges.len()
            &&& forall|i: int| 0 <= i < a.nodes.len() ==> b.nodes[i] == #[trigger] a.nodes[i]
            &&& forall|i: int| 0 <= i < a.edges.len() ==> b.edges[i] == #[trigger] a.edges[i]
        }),
    decreases k,
{
    if j < k {
        lemma_story_grows(rel, base, lines, j, k - 1);
    }
}

/// A line that opens a scenario, and its name.
pub open spec fn opens_scenario(line: Seq<char>, name: Seq<char>) -> bool {
    &&& reading::is_plain(name)
    &&& line == "Scenario: "@ + name
}

/// A step that goes to a route: its first word that begins with a slash.
pub open spec fn goes_to(line: Seq<char>, w: int, route: Seq<char>) -> bool {
    &&& line.len() > 0 && 'A' <= line[0] && line[0] <= 'Z' && reading::in_word(line.last())
    &&& !reading::reads(line, 0, "Scenario:"@) && !reading::reads(line, 0, "Feature:"@) && !reading::reads(
        line,
        0,
        "Background:"@,
    )
    &&& 0 <= w < text::words(line).len()
    &&& text::words(line)[w] == route
    &&& route.len() > 0 && route[0] == '/'
    &&& !route.contains('?') && !route.contains('#')
    &&& forall|v: int|
        0 <= v < w ==> !((#[trigger] text::words(line)[v]).len() > 0 && text::words(line)[v][0] == '/')
}

proof fn lemma_opens(rel: Seq<char>, st: Story, line: Seq<char>, name: Seq<char>)
    requires
        opens_scenario(line, name),
    ensures
        ({
            let next = step(rel, st, line);
            let id = model::minted_id(st.taken, rel + "#"@ + name);
            &&& next.scope == id
            &&& next.nodes == st.nodes.push(model::unspanned(id, name, "scenario"@, rel))
            &&& next.edges == st.edges.push(model::contains_edge(rel, id))
        }),
{
    reveal_strlit("Scenario: ");
    reveal_strlit("Scenario:");
    let head = "Scenario: "@;
    assert(head[0] == 'S' && head[9] == ' ');
    let n = line.len() as int;
    assert(line[0] == 'S');
    assert(line[n - 1] == name.last());
    assert(reading::in_word(name.last()) && reading::in_word(name[0]));
    lemma_whole(line);
    assert(line.subrange(0, 9) =~= "Scenario:"@);
    let rest = line.subrange(9, n);
    reading::lemma_run_to(rest, 0, 1, CharSet::Space);
    assert(rest[0] == ' ');
    assert(rest[1] == name[0]);
    assert(text::trimmed_start(rest, CharSet::Space) =~= name);
    lemma_trim(rest, name);
}

proof fn lemma_whole(line: Seq<char>)
    requires
        line.len() > 0,
        !text::is_space(line[0]),
        !text::is_space(line.last()),
    ensures
        text::trimmed(line, CharSet::Space) == line,
{
    reading::lemma_run_to(line, 0, 0, CharSet::Space);
    assert(line.subrange(0, line.len() as int) =~= line);
    reading::lemma_run_from(line, line.len() as int, line.len() as int, CharSet::Space);
}

proof fn lemma_trim(rest: Seq<char>, name: Seq<char>)
    requires
        name.len() > 0,
        !text::is_space(name.last()),
        text::trimmed_start(rest, CharSet::Space) == name,
    ensures
        text::trimmed(rest, CharSet::Space) == name,
{
    reading::lemma_run_from(name, name.len() as int, name.len() as int, CharSet::Space);
    assert(name.subrange(0, name.len() as int) =~= name);
}

proof fn lemma_first_word(words: Seq<Seq<char>>, k: int, w: int, route: Seq<char>)
    requires
        0 <= k <= w < words.len(),
        words[w] == route,
        route.len() > 0 && route[0] == '/',
        !route.contains('?') && !route.contains('#'),
        forall|v: int| 0 <= v < w ==> !((#[trigger] words[v]).len() > 0 && words[v][0] == '/'),
    ensures
        seqs::first_from(words, k, route_word()) == Some(route),
    decreases w - k,
{
    if k < w {
        assert(!(words[k].len() > 0 && words[k][0] == '/'));
        lemma_first_word(words, k + 1, w, route);
    } else {
        let n = route.len() as int;
        assert forall|m: int| 0 <= m < n implies !CharSet::Two('?', '#').has(#[trigger] route[m]) by {
            assert(route.contains(route[m]));
        }
        reading::lemma_seek_to(route, 0, n, CharSet::Two('?', '#'));
        assert(route.subrange(0, n) =~= route);
    }
}

proof fn lemma_goes(rel: Seq<char>, st: Story, line: Seq<char>, w: int, route: Seq<char>)
    requires
        goes_to(line, w, route),
    ensures
        step(rel, st, line).scope == st.scope,
        step(rel, st, line).edges == st.edges.push(model::named_edge(st.scope, "visits"@, route)),
{
    lemma_whole(line);
    reading::lemma_reads(line, 0, "Scenario:"@);
    reading::lemma_reads(line, 0, "Feature:"@);
    reading::lemma_reads(line, 0, "Background:"@);
    lemma_first_word(text::words(line), 0, w, route);
    assert(route_of(line) == Some(route));
}

proof fn lemma_scope(
    rel: Seq<char>,
    base: Seq<char>,
    lines: Seq<Seq<char>>,
    i: int,
    j: int,
    ws: Seq<int>,
    routes: Seq<Seq<char>>,
)
    requires
        0 <= i < j <= lines.len(),
        forall|k: int| i < k < j ==> goes_to(#[trigger] lines[k], ws[k], routes[k]),
    ensures
        story(rel, base, lines, j).scope == story(rel, base, lines, i + 1).scope,
    decreases j,
{
    if i + 1 < j {
        lemma_scope(rel, base, lines, i, j - 1, ws, routes);
        lemma_goes(rel, story(rel, base, lines, j - 1), lines[j - 1], ws[j - 1], routes[j - 1]);
    }
}

/// A scenario is a symbol of its file, and it visits the route of each step that
/// follows its heading.
pub proof fn a_scenario_visits_the_routes_of_its_steps(
    rel: Seq<char>,
    base: Seq<char>,
    code: Seq<char>,
    i: int,
    j: int,
    name: Seq<char>,
    ws: Seq<int>,
    routes: Seq<Seq<char>>,
)
    requires
        0 <= i < j < text::lines(code).len(),
        opens_scenario(text::lines(code)[i], name),
        forall|k: int| i < k <= j ==> goes_to(#[trigger] text::lines(code)[k], ws[k], routes[k]),
    ensures
        exists|id: Seq<char>|
            {
                let found = extracted(rel, base, code);
                &&& found.nodes.contains(#[trigger] model::unspanned(id, name, "scenario"@, rel))
                &&& found.edges.contains(model::contains_edge(rel, id))
                &&& found.edges.contains(model::named_edge(id, "visits"@, routes[j]))
            },
{
    let lines = text::lines(code);
    let n = lines.len() as int;
    let before = story(rel, base, lines, i);
    let at = story(rel, base, lines, i + 1);
    let prior = story(rel, base, lines, j);
    let after = story(rel, base, lines, j + 1);
    let end = story(rel, base, lines, n);
    let id = model::minted_id(before.taken, rel + "#"@ + name);
    lemma_opens(rel, before, lines[i], name);
    lemma_scope(rel, base, lines, i, j, ws, routes);
    lemma_goes(rel, prior, lines[j], ws[j], routes[j]);
    lemma_story_grows(rel, base, lines, i + 1, n);
    lemma_story_grows(rel, base, lines, j + 1, n);
    let a = before.nodes.len() as int;
    let b = before.edges.len() as int;
    let c = prior.edges.len() as int;
    assert(at.nodes[a] == model::unspanned(id, name, "scenario"@, rel));
    assert(end.nodes[a] == at.nodes[a]);
    assert(at.edges[b] == model::contains_edge(rel, id));
    assert(end.edges[b] == at.edges[b]);
    assert(after.edges[c] == model::named_edge(id, "visits"@, routes[j]));
    assert(end.edges[c] == after.edges[c]);
    let found = extracted(rel, base, code);
    assert(found.nodes.contains(model::unspanned(id, name, "scenario"@, rel)));
    assert(found.edges.contains(model::contains_edge(rel, id)));
    assert(found.edges.contains(model::named_edge(id, "visits"@, routes[j])));
}

} // verus!
