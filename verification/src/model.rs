//! Graph data types for the `wiring.json` output.

use vstd::hash_set::StringHashSet;
use vstd::prelude::*;

use crate::seqs;
use crate::text;
use crate::text::{chars_of, is_text, join2};

verus! {

broadcast use crate::seqs::group_text;

/// A code-graph node: a file, class, interface, trait, enum, function, method,
/// or Vue component. `start`/`end` are byte offsets into the parsed source
/// (the file itself, or -- for `.vue` -- its extracted `<script>`), so the query
/// layer can slice a symbol's signature/body without re-parsing.
#[derive(Debug)]
pub struct Node {
    pub id: String,
    pub name: String,
    pub kind: &'static str,
    pub path: String,
    pub start: u32,
    pub end: u32,
}

/// What a [`Node`] says.
pub struct NodeView {
    pub id: Seq<char>,
    pub name: Seq<char>,
    pub kind: Seq<char>,
    pub path: Seq<char>,
    pub start: u32,
    pub end: u32,
}

impl View for Node {
    type V = NodeView;

    open spec fn view(&self) -> NodeView {
        NodeView {
            id: self.id@,
            name: self.name@,
            kind: self.kind@,
            path: self.path@,
            start: self.start,
            end: self.end,
        }
    }
}

impl Clone for Node {
    fn clone(&self) -> (r: Self)
        ensures
            r@ == self@,
    {
        Node {
            id: self.id.clone(),
            name: self.name.clone(),
            kind: self.kind,
            path: self.path.clone(),
            start: self.start,
            end: self.end,
        }
    }
}

/// An edge before target resolution. `contains` carries a resolved `target_id`;
/// every other relation carries a `name` (and, for member `calls`, a `recv_type`)
/// resolved against the whole-tree index later.
#[derive(Debug)]
pub struct RawEdge {
    pub source: String,
    pub relation: &'static str,
    pub target_id: Option<String>,
    pub name: Option<String>,
    pub via_member: bool,
    pub recv_type: Option<String>,
}

/// What a [`RawEdge`] says.
pub struct EdgeView {
    pub source: Seq<char>,
    pub relation: Seq<char>,
    pub target_id: Option<Seq<char>>,
    pub name: Option<Seq<char>>,
    pub via_member: bool,
    pub recv_type: Option<Seq<char>>,
}

impl View for RawEdge {
    type V = EdgeView;

    open spec fn view(&self) -> EdgeView {
        EdgeView {
            source: self.source@,
            relation: self.relation@,
            target_id: seqs::opt_view(self.target_id),
            name: seqs::opt_view(self.name),
            via_member: self.via_member,
            recv_type: seqs::opt_view(self.recv_type),
        }
    }
}

/// A fully resolved edge (`source`/`target` are node ids or kept-raw names).
#[derive(Debug)]
pub struct ResolvedEdge {
    pub source: String,
    pub target: String,
    pub relation: &'static str,
}

/// What a [`ResolvedEdge`] says.
pub struct ResolvedView {
    pub source: Seq<char>,
    pub target: Seq<char>,
    pub relation: Seq<char>,
}

impl View for ResolvedEdge {
    type V = ResolvedView;

    open spec fn view(&self) -> ResolvedView {
        ResolvedView { source: self.source@, target: self.target@, relation: self.relation@ }
    }
}

/// The edge from a container to the node with id `target_id`.
pub open spec fn contains_edge(source: Seq<char>, target_id: Seq<char>) -> EdgeView {
    EdgeView {
        source,
        relation: "contains"@,
        target_id: Some(target_id),
        name: None,
        via_member: false,
        recv_type: None,
    }
}

/// An edge to whatever `name` turns out to be.
pub open spec fn named_edge(source: Seq<char>, relation: Seq<char>, name: Seq<char>) -> EdgeView {
    EdgeView {
        source,
        relation,
        target_id: None,
        name: Some(name),
        via_member: false,
        recv_type: None,
    }
}

/// A call of `name`, on a receiver of the given type where that is known.
pub open spec fn call_edge(
    source: Seq<char>,
    name: Seq<char>,
    via_member: bool,
    recv_type: Option<Seq<char>>,
) -> EdgeView {
    EdgeView { source, relation: "calls"@, target_id: None, name: Some(name), via_member, recv_type }
}

impl RawEdge {
    /// The edge from a container to the node with id `target_id`.
    pub fn contains(source: String, target_id: String) -> (r: Self)
        ensures
            r@ == contains_edge(source@, target_id@),
    {
        RawEdge {
            source,
            relation: "contains",
            target_id: Some(target_id),
            name: None,
            via_member: false,
            recv_type: None,
        }
    }

    /// An edge to whatever `name` turns out to be.
    pub fn named(source: String, relation: &'static str, name: String) -> (r: Self)
        ensures
            r@ == named_edge(source@, relation@, name@),
    {
        RawEdge {
            source,
            relation,
            target_id: None,
            name: Some(name),
            via_member: false,
            recv_type: None,
        }
    }

    /// A call of `name`, on a receiver of the given type where that is known.
    pub fn call(source: String, name: String, via_member: bool, recv_type: Option<String>) -> (r: Self)
        ensures
            r@ == call_edge(source@, name@, via_member, seqs::opt_view(recv_type)),
    {
        RawEdge { source, relation: "calls", target_id: None, name: Some(name), via_member, recv_type }
    }
}

/// A node that is not tied to a span of source: a join node, or a whole file.
pub open spec fn unspanned(id: Seq<char>, name: Seq<char>, kind: Seq<char>, path: Seq<char>) -> NodeView {
    NodeView { id, name, kind, path, start: 0, end: 0 }
}

/// A node that is not tied to a span of source.
pub fn plain_node(id: String, name: String, kind: &'static str, path: &str) -> (r: Node)
    ensures
        r@ == unspanned(id@, name@, kind@, path@),
{
    Node { id, name, kind, path: path.to_string(), start: 0, end: 0 }
}

/// The node of a whole file.
pub open spec fn file_node(rel: Seq<char>, base: Seq<char>) -> NodeView {
    unspanned(rel, base, "file"@, rel)
}

/// The node of a whole file.
pub fn make_file(rel: &str, base: &str) -> (r: Node)
    ensures
        r@ == file_node(rel@, base@),
{
    plain_node(rel.to_string(), base.to_string(), "file", rel)
}

/// The join node `<prefix>:<name>` of the given kind, minted by the file `rel`.
pub open spec fn join_node(prefix: Seq<char>, kind: Seq<char>, rel: Seq<char>, name: Seq<char>) -> NodeView {
    unspanned(prefix + name, name, kind, rel)
}

/// The join node `<prefix><name>` of the given kind.
pub fn make_join(prefix: &str, kind: &'static str, rel: &str, name: &str) -> (r: Node)
    ensures
        r@ == join_node(prefix@, kind@, rel@, name@),
{
    plain_node(join2(prefix, name), name.to_string(), kind, rel)
}

/// The shared node of a database table.
pub open spec fn table_node(rel: Seq<char>, name: Seq<char>) -> NodeView {
    join_node("table:"@, "table"@, rel, name)
}

/// The shared node of a route.
pub open spec fn route_node(rel: Seq<char>, path: Seq<char>) -> NodeView {
    join_node("route:"@, "route"@, rel, path)
}

/// The nodes of `cands` whose ids are not in `seen`, each id once.
pub open spec fn fresh_from(cands: Seq<NodeView>, k: int, seen: Set<Seq<char>>) -> Seq<NodeView>
    decreases cands.len() - k,
{
    if k < 0 || k >= cands.len() {
        Seq::empty()
    } else if seen.contains(cands[k].id) {
        fresh_from(cands, k + 1, seen)
    } else {
        seq![cands[k]] + fresh_from(cands, k + 1, seen.insert(cands[k].id))
    }
}

/// The first node of each id in `cands`, in order.
pub open spec fn fresh(cands: Seq<NodeView>) -> Seq<NodeView> {
    fresh_from(cands, 0, Set::empty())
}

/// Keeps the first node of each id.
pub fn dedup_nodes(cands: Vec<Node>) -> (r: Vec<Node>)
    ensures
        seqs::views(r@) == fresh(seqs::views(cands@)),
{
    let ghost all = seqs::views(cands@);
    let mut out: Vec<Node> = Vec::new();
    let mut seen = StringHashSet::new();
    for n in it: cands
        invariant
            it.seq() == cands@,
            all == seqs::views(cands@),
            seqs::views(out@) + fresh_from(all, it.index() as int, seen@) == fresh(all),
    {
        assert(all[it.index() as int] == n@);
        assert(seen@.contains(n.id@) ==> seen@.insert(n.id@) =~= seen@);
        if seen.insert(n.id.clone()) {
            out.push(n);
        }
    }
    out
}

/// No two nodes carry the same id.
pub open spec fn ids_are_distinct(nodes: Seq<NodeView>) -> bool {
    forall|i: int, j: int|
        0 <= i < j < nodes.len() ==> (#[trigger] nodes[i]).id != (#[trigger] nodes[j]).id
}

/// Some node carries the id.
pub open spec fn is_id(nodes: Seq<NodeView>, id: Seq<char>) -> bool {
    exists|i: int| 0 <= i < nodes.len() && (#[trigger] nodes[i]).id == id
}

/// One more node loses no id.
pub proof fn lemma_ids_grow(nodes: Seq<NodeView>, n: NodeView)
    ensures
        is_id(nodes.push(n), n.id),
        forall|id: Seq<char>| #[trigger] is_id(nodes, id) ==> is_id(nodes.push(n), id),
{
    let more = nodes.push(n);
    assert(more[nodes.len() as int] == n);
    assert forall|id: Seq<char>| #[trigger] is_id(nodes, id) implies is_id(more, id) by {
        let i = choose|i: int| 0 <= i < nodes.len() && (#[trigger] nodes[i]).id == id;
        assert(more[i].id == id);
    }
}

/// No node before node `i` carries its id.
pub open spec fn is_first_of_its_id(nodes: Seq<NodeView>, i: int) -> bool {
    forall|j: int| 0 <= j < i ==> (#[trigger] nodes[j]).id != nodes[i].id
}

proof fn lemma_fresh(cands: Seq<NodeView>, k: int, seen: Set<Seq<char>>)
    requires
        0 <= k <= cands.len(),
        forall|x: Seq<char>| #[trigger]
            seen.contains(x) <==> exists|i: int| 0 <= i < k && (#[trigger] cands[i]).id == x,
    ensures
        ids_are_distinct(fresh_from(cands, k, seen)),
        forall|n: NodeView| #[trigger]
            fresh_from(cands, k, seen).contains(n) <==> exists|i: int|
                k <= i < cands.len() && #[trigger] cands[i] == n && is_first_of_its_id(cands, i),
    decreases cands.len() - k,
{
    let now = fresh_from(cands, k, seen);
    if k < cands.len() {
        let more = seen.insert(cands[k].id);
        assert forall|x: Seq<char>| #[trigger] more.contains(x) <==> exists|i: int|
            0 <= i < k + 1 && (#[trigger] cands[i]).id == x by {
            if more.contains(x) && x == cands[k].id {
                assert(cands[k].id == x);
            }
        }
        let rest = fresh_from(cands, k + 1, more);
        lemma_fresh(cands, k + 1, more);
        if seen.contains(cands[k].id) {
            assert(more =~= seen);
            assert(!is_first_of_its_id(cands, k));
        } else {
            assert(is_first_of_its_id(cands, k));
            assert(now =~= seq![cands[k]] + rest);
            assert forall|i: int, j: int| 0 <= i < j < now.len() implies (#[trigger] now[i]).id != (
            #[trigger] now[j]).id by {
                assert(now[j] == rest[j - 1]);
                if i == 0 {
                    assert(rest.contains(rest[j - 1]));
                    let m = choose|m: int|
                        k + 1 <= m < cands.len() && #[trigger] cands[m] == rest[j - 1] && is_first_of_its_id(
                            cands,
                            m,
                        );
                    assert(cands[k].id != cands[m].id);
                } else {
                    assert(now[i] == rest[i - 1]);
                }
            }
            assert forall|n: NodeView| #[trigger] now.contains(n) <==> exists|i: int|
                k <= i < cands.len() && #[trigger] cands[i] == n && is_first_of_its_id(cands, i) by {
                if now.contains(n) {
                    let j = choose|j: int| 0 <= j < now.len() && now[j] == n;
                    if j > 0 {
                        assert(rest[j - 1] == n);
                        assert(rest.contains(n));
                    } else {
                        assert(cands[k] == n);
                    }
                }
                if exists|i: int|
                    k <= i < cands.len() && #[trigger] cands[i] == n && is_first_of_its_id(cands, i) {
                    let i = choose|i: int|
                        k <= i < cands.len() && #[trigger] cands[i] == n && is_first_of_its_id(cands, i);
                    if i == k {
                        assert(now[0] == n);
                    } else {
                        assert(rest.contains(n));
                        let j = choose|j: int| 0 <= j < rest.len() && rest[j] == n;
                        assert(now[j + 1] == n);
                    }
                }
            }
        }
    }
}

/// After the collapse no id occurs twice.
pub proof fn collapsed_ids_are_distinct(cands: Seq<NodeView>)
    ensures
        ids_are_distinct(fresh(cands)),
{
    lemma_fresh(cands, 0, Set::empty());
}

/// The collapse keeps the first node of each id, and no other.
pub proof fn the_first_node_of_each_id_stays(cands: Seq<NodeView>, n: NodeView)
    ensures
        fresh(cands).contains(n) <==> exists|i: int|
            0 <= i < cands.len() && #[trigger] cands[i] == n && is_first_of_its_id(cands, i),
{
    lemma_fresh(cands, 0, Set::empty());
}

proof fn lemma_first_of_id(cands: Seq<NodeView>, i: int) -> (r: int)
    requires
        0 <= i < cands.len(),
    ensures
        0 <= r <= i,
        cands[r].id == cands[i].id,
        is_first_of_its_id(cands, r),
    decreases i,
{
    if is_first_of_its_id(cands, i) {
        i
    } else {
        let j = choose|j: int| 0 <= j < i && (#[trigger] cands[j]).id == cands[i].id;
        lemma_first_of_id(cands, j)
    }
}

/// The collapse loses no id.
pub proof fn every_id_survives_the_collapse(cands: Seq<NodeView>, id: Seq<char>)
    ensures
        is_id(fresh(cands), id) <==> is_id(cands, id),
{
    lemma_fresh(cands, 0, Set::empty());
    let all = fresh(cands);
    if is_id(cands, id) {
        let i = choose|i: int| 0 <= i < cands.len() && (#[trigger] cands[i]).id == id;
        let r = lemma_first_of_id(cands, i);
        assert(all.contains(cands[r]));
        let j = choose|j: int| 0 <= j < all.len() && all[j] == cands[r];
        assert(all[j].id == id);
    }
    if is_id(all, id) {
        let j = choose|j: int| 0 <= j < all.len() && (#[trigger] all[j]).id == id;
        assert(all.contains(all[j]));
    }
}

/// What a scan of one file found: candidate nodes, and edges.
#[derive(Debug)]
pub struct Found {
    pub nodes: Vec<Node>,
    pub edges: Vec<RawEdge>,
}

/// What a [`Found`] says.
#[verifier::ext_equal]
pub struct FoundView {
    pub nodes: Seq<NodeView>,
    pub edges: Seq<EdgeView>,
}

impl View for Found {
    type V = FoundView;

    open spec fn view(&self) -> FoundView {
        FoundView { nodes: seqs::views(self.nodes@), edges: seqs::views(self.edges@) }
    }
}

impl FoundView {
    /// Nothing.
    pub open spec fn none() -> Self {
        FoundView { nodes: Seq::empty(), edges: Seq::empty() }
    }

    /// What was found first, then the rest.
    pub open spec fn plus(self, rest: Self) -> Self {
        FoundView { nodes: self.nodes + rest.nodes, edges: self.edges + rest.edges }
    }

    /// With the first node of each id only.
    pub open spec fn deduped(self) -> Self {
        FoundView { nodes: fresh(self.nodes), edges: self.edges }
    }
}

/// What `f` finds at the elements of `s` from index `k` on, in order.
pub open spec fn found_from<A>(s: Seq<A>, k: int, f: spec_fn(A) -> FoundView) -> FoundView
    decreases s.len() - k,
{
    if k < 0 || k >= s.len() {
        FoundView::none()
    } else {
        f(s[k]).plus(found_from(s, k + 1, f))
    }
}

/// What `f` finds at the elements of `s`, in order.
pub open spec fn found_each<A>(s: Seq<A>, f: spec_fn(A) -> FoundView) -> FoundView {
    found_from(s, 0, f)
}

/// `nodes` and `edges` as they stand after `found` was appended to them.
pub open spec fn appended(
    before_nodes: Seq<Node>,
    before_edges: Seq<RawEdge>,
    after_nodes: Seq<Node>,
    after_edges: Seq<RawEdge>,
    found: FoundView,
) -> bool {
    &&& seqs::views(after_nodes) == seqs::views(before_nodes) + found.nodes
    &&& seqs::views(after_edges) == seqs::views(before_edges) + found.edges
}

/// A `<prefix><name>` join node and an edge to it from the file `rel`, for each
/// of the names.
pub open spec fn linked(
    prefix: Seq<char>,
    kind: Seq<char>,
    rel: Seq<char>,
    relation: Seq<char>,
    names: Seq<Seq<char>>,
) -> FoundView {
    FoundView {
        nodes: names.map_values(|n: Seq<char>| join_node(prefix, kind, rel, n)),
        edges: names.map_values(|n: Seq<char>| named_edge(rel, relation, n)),
    }
}

impl Found {
    /// Nothing found yet.
    pub fn none() -> (r: Self)
        ensures
            r@ == FoundView::none(),
    {
        Found { nodes: Vec::new(), edges: Vec::new() }
    }

    /// Adds what another scan found.
    pub fn add_all(&mut self, rest: Found)
        ensures
            final(self)@ == old(self)@.plus(rest@),
    {
        let mut rest = rest;
        self.nodes.append(&mut rest.nodes);
        self.edges.append(&mut rest.edges);
    }

    /// Appends what was found, each node id once.
    pub fn emit(self, nodes: &mut Vec<Node>, edges: &mut Vec<RawEdge>)
        ensures
            appended(old(nodes)@, old(edges)@, final(nodes)@, final(edges)@, self@.deduped()),
    {
        let mut kept = dedup_nodes(self.nodes);
        let mut found = self.edges;
        nodes.append(&mut kept);
        edges.append(&mut found);
    }
}

/// Links the file `rel` to the join node of each of the names.
pub fn link_all(
    prefix: &str,
    kind: &'static str,
    rel: &str,
    relation: &'static str,
    names: &[String],
) -> (r: Found)
    ensures
        r@ == linked(prefix@, kind@, rel@, relation@, seqs::views(names@)),
{
    let mut out = Found::none();
    let ghost all = seqs::views(names@);
    let ghost want = linked(prefix@, kind@, rel@, relation@, all);
    let mut k: usize = 0;
    while k < names.len()
        invariant
            k <= names@.len(),
            all == seqs::views(names@),
            want == linked(prefix@, kind@, rel@, relation@, all),
            out@.nodes == want.nodes.take(k as int),
            out@.edges == want.edges.take(k as int),
        decreases names@.len() - k,
    {
        out.nodes.push(make_join(prefix, kind, rel, names[k].as_str()));
        out.edges.push(RawEdge::named(rel.to_string(), relation, names[k].clone()));
        assert(want.nodes.take(k + 1) =~= want.nodes.take(k as int).push(want.nodes[k as int]));
        assert(want.edges.take(k + 1) =~= want.edges.take(k as int).push(want.edges[k as int]));
        k += 1;
    }
    assert(want.nodes.take(k as int) =~= want.nodes);
    assert(want.edges.take(k as int) =~= want.edges);
    out
}

// ---------------------------------------------------------------------------
// Collision-proof ids

/// The `k`th variant of an id.
pub open spec fn variant(base: Seq<char>, k: nat) -> Seq<char> {
    base + "~"@ + text::decimal(k)
}

/// `k` is the first number, from 2 on, whose variant of `base` is not taken.
pub open spec fn is_first_free(taken: Set<Seq<char>>, base: Seq<char>, k: nat) -> bool {
    &&& k >= 2
    &&& !taken.contains(variant(base, k))
    &&& forall|j: nat| 2 <= j < k ==> taken.contains(#[trigger] variant(base, j))
}

/// The id that a new node gets: `base` itself, or its first variant that is not
/// taken (`~2`, `~3`, ...).
pub open spec fn minted_id(taken: Set<Seq<char>>, base: Seq<char>) -> Seq<char> {
    if taken.contains(base) {
        variant(base, choose|k: nat| is_first_free(taken, base, k))
    } else {
        base
    }
}

/// The ids that are taken.
pub struct Minter {
    taken: StringHashSet,
}

impl View for Minter {
    type V = Set<Seq<char>>;

    closed spec fn view(&self) -> Set<Seq<char>> {
        self.taken@
    }
}

spec fn variants(base: Seq<char>, k: nat) -> Set<Seq<char>>
    decreases k,
{
    if k <= 2 {
        Set::empty()
    } else {
        variants(base, (k - 1) as nat).insert(variant(base, (k - 1) as nat))
    }
}

proof fn lemma_variants(base: Seq<char>, k: nat)
    requires
        k >= 2,
    ensures
        variants(base, k).finite(),
        variants(base, k).len() == k - 2,
        forall|x: Seq<char>| #[trigger]
            variants(base, k).contains(x) ==> exists|j: nat| 2 <= j < k && x == #[trigger] variant(base, j),
    decreases k,
{
    if k > 2 {
        let before = variants(base, (k - 1) as nat);
        let last = variant(base, (k - 1) as nat);
        lemma_variants(base, (k - 1) as nat);
        if before.contains(last) {
            let j = choose|j: nat| 2 <= j < k - 1 && last == #[trigger] variant(base, j);
            let n = (base + "~"@).len() as int;
            assert(last.subrange(n, last.len() as int) =~= text::decimal((k - 1) as nat));
            assert(variant(base, j).subrange(n, last.len() as int) =~= text::decimal(j));
            text::decimal_is_injective(j, (k - 1) as nat);
        }
    }
}

impl Minter {
    /// Nothing is taken.
    pub fn new() -> (r: Self)
        ensures
            r@ == Set::<Seq<char>>::empty(),
    {
        Minter { taken: StringHashSet::new() }
    }

    /// Takes `id`; false where it was taken before.
    pub fn take(&mut self, id: String) -> (r: bool)
        ensures
            r == !old(self)@.contains(id@),
            final(self)@ == old(self)@.insert(id@),
    {
        self.taken.insert(id)
    }

    /// A collision-proof id (`~2`/`~3`/...) for a new node, which is then taken.
    pub fn mint(&mut self, base: String) -> (r: String)
        requires
            old(self)@.finite(),
        ensures
            r@ == minted_id(old(self)@, base@),
            !old(self)@.contains(r@),
            final(self)@ == old(self)@.insert(r@),
            final(self)@.finite(),
    {
        if self.taken.insert(base.clone()) {
            return base;
        }
        let ghost taken = old(self)@;
        assert(self@ =~= taken);
        let size = self.taken.len();
        assert(size == taken.len());
        let mut k: u128 = 2;
        loop
            invariant
                self@ == taken,
                taken == old(self)@,
                taken.finite(),
                taken.len() <= usize::MAX,
                taken.contains(base@),
                k >= 2,
                forall|j: nat| 2 <= j < k ==> taken.contains(#[trigger] variant(base@, j)),
            decreases taken.len() + 2 - k,
        {
            proof {
                lemma_variants(base@, k as nat);
                assert(variants(base@, k as nat).subset_of(taken));
                vstd::set_lib::lemma_len_subset(variants(base@, k as nat), taken);
            }
            let number = text::to_decimal(k);
            let id = text::join3(&base, "~", &number);
            if self.taken.insert(id.clone()) {
                proof {
                    let first = choose|n: nat| is_first_free(taken, base@, n);
                    assert(is_first_free(taken, base@, k as nat));
                    assert(first == k) by {
                        if first < k {
                            assert(taken.contains(variant(base@, first)));
                        }
                        if first > k {
                            assert(taken.contains(variant(base@, k as nat)));
                        }
                    }
                }
                return id;
            }
            assert(self@ =~= taken);
            proof {
                let more = variants(base@, (k + 1) as nat);
                lemma_variants(base@, (k + 1) as nat);
                assert(more.subset_of(taken)) by {
                    assert forall|x: Seq<char>| more.contains(x) implies taken.contains(x) by {
                        let j = choose|j: nat| 2 <= j < k + 1 && x == #[trigger] variant(base@, j);
                    }
                }
                vstd::set_lib::lemma_len_subset(more, taken);
            }
            k += 1;
        }
    }
}

proof fn lemma_free_variant(taken: Set<Seq<char>>, base: Seq<char>, k: nat)
    requires
        taken.finite(),
        k >= 2,
        forall|j: nat| 2 <= j < k ==> taken.contains(#[trigger] variant(base, j)),
    ensures
        exists|n: nat| #[trigger] is_first_free(taken, base, n),
    decreases taken.len() + 2 - k,
{
    lemma_variants(base, k);
    assert(variants(base, k).subset_of(taken));
    vstd::set_lib::lemma_len_subset(variants(base, k), taken);
    if taken.contains(variant(base, k)) {
        lemma_variants(base, k + 1);
        let more = variants(base, k + 1);
        assert(more.subset_of(taken)) by {
            assert forall|x: Seq<char>| more.contains(x) implies taken.contains(x) by {
                let j = choose|j: nat| 2 <= j < k + 1 && x == #[trigger] variant(base, j);
            }
        }
        vstd::set_lib::lemma_len_subset(more, taken);
        lemma_free_variant(taken, base, k + 1);
    } else {
        assert(is_first_free(taken, base, k));
    }
}

/// A minted id is never one that is taken.
pub proof fn minted_ids_are_free(taken: Set<Seq<char>>, base: Seq<char>)
    requires
        taken.finite(),
    ensures
        !taken.contains(minted_id(taken, base)),
{
    if taken.contains(base) {
        lemma_free_variant(taken, base, 2);
        let k = choose|k: nat| is_first_free(taken, base, k);
        assert(is_first_free(taken, base, k));
    }
}

/// The Eloquent relation methods: a `$this->belongsTo(Related::class)` call
/// yields a model-class -> related-class edge whose relation is the method name.
pub open spec fn relation_names() -> Seq<Seq<char>> {
    seq![
        "belongsTo"@,
        "hasMany"@,
        "hasOne"@,
        "belongsToMany"@,
        "morphTo"@,
        "morphMany"@,
        "morphOne"@,
        "morphToMany"@,
        "morphedByMany"@,
        "hasManyThrough"@,
        "hasOneThrough"@,
    ]
}

/// `method` is an Eloquent relation method.
pub open spec fn is_relation(method: Seq<char>) -> bool {
    relation_names().contains(method)
}

/// The `&'static` relation label for an Eloquent relation method, if it is one.
pub fn relation_kind(method: &str) -> (r: Option<&'static str>)
    ensures
        r is Some <==> is_relation(method@),
        r matches Some(label) ==> label@ == method@,
{
    let m = chars_of(method);
    let names: [&'static str; 11] = [
        "belongsTo",
        "hasMany",
        "hasOne",
        "belongsToMany",
        "morphTo",
        "morphMany",
        "morphOne",
        "morphToMany",
        "morphedByMany",
        "hasManyThrough",
        "hasOneThrough",
    ];
    let ghost all = relation_names();
    let mut k: usize = 0;
    while k < 11
        invariant
            k <= 11,
            all == relation_names(),
            all.len() == 11,
            forall|j: int| 0 <= j < 11 ==> (#[trigger] names@[j])@ == all[j],
            m@ == method@,
            forall|j: int| 0 <= j < k ==> #[trigger] all[j] != method@,
        decreases 11 - k,
    {
        if is_text(&m, names[k]) {
            assert(all[k as int] == method@);
            return Some(names[k]);
        }
        k += 1;
    }
    None
}

/// Edges whose target is a class node resolved by unique name: heritage plus the
/// Eloquent relation kinds. `table`/`migrates` (target = a `table:` node) and the
/// others resolve differently.
pub fn resolves_to_class(relation: &str) -> (r: bool)
    ensures
        r == (relation@ == "extends"@ || relation@ == "implements"@ || is_relation(relation@)),
{
    let s = chars_of(relation);
    is_text(&s, "extends") || is_text(&s, "implements") || relation_kind(relation).is_some()
}

/// What an edge says: a containment leads to an id, and a reference or a call to a
/// name that is still to be resolved.
pub proof fn edges_say_where_they_lead(
    source: Seq<char>,
    relation: Seq<char>,
    to: Seq<char>,
    via_member: bool,
    class: Option<Seq<char>>,
)
    ensures
        ({
            let inner = contains_edge(source, to);
            let named = named_edge(source, relation, to);
            let call = call_edge(source, to, via_member, class);
            &&& inner.source == source && named.source == source && call.source == source
            &&& inner.relation == "contains"@ && named.relation == relation && call.relation == "calls"@
            &&& inner.target_id == Some(to) && named.target_id is None && call.target_id is None
            &&& inner.name is None && named.name == Some(to) && call.name == Some(to)
            &&& !inner.via_member && !named.via_member && call.via_member == via_member
            &&& inner.recv_type is None && named.recv_type is None && call.recv_type == class
        }),
{
}

/// The node of a file has the path for its id. A join node goes by its prefix and its
/// name, so that all files that name it share it.
pub proof fn nodes_go_by_their_ids(rel: Seq<char>, other: Seq<char>, base: Seq<char>, name: Seq<char>)
    ensures
        file_node(rel, base).id == rel && file_node(rel, base).name == base && file_node(rel, base).kind == "file"@,
        file_node(rel, base).path == rel,
        table_node(rel, name).id == "table:"@ + name && table_node(rel, name).kind == "table"@,
        route_node(rel, name).id == "route:"@ + name && route_node(rel, name).kind == "route"@,
        table_node(rel, name).name == name && route_node(rel, name).name == name,
        table_node(rel, name).path == rel && route_node(rel, name).path == rel,
        table_node(rel, name).id == table_node(other, name).id,
        route_node(rel, name).id == route_node(other, name).id,
{
}

/// A new node gets the id that it asks for where that is free.
pub proof fn a_free_id_is_granted(taken: Set<Seq<char>>, base: Seq<char>)
    requires
        !taken.contains(base),
    ensures
        minted_id(taken, base) == base,
{
}

} // verus!
