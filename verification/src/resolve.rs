//! Whole-tree edge resolution: turns raw name/receiver refs into node ids
//! (contains passthrough, imports -> file, heritage keeps unresolved names,
//! calls via receiver-type + extends chain).

use vstd::hash_set::StringHashSet;
use vstd::prelude::*;
use vstd::slice::slice_subrange;

use crate::buckets;
use crate::buckets::Buckets;
use crate::model;
use crate::model::{EdgeView, Node, NodeView, RawEdge, ResolvedEdge, ResolvedView};
use crate::paths;
use crate::scan;
use crate::seqs;
use crate::text;
use crate::text::{chars_of, is_text, join2, string_of, CharSet};

verus! {

broadcast use {
    crate::seqs::group_text,
    text::lemma_run,
    text::lemma_seek,
    text::lemma_seek_back,
};

// ---------------------------------------------------------------------------
// Ids

/// The part of an id between its first and its second `#`.
pub open spec fn symbol_part(id: Seq<char>) -> Option<Seq<char>> {
    let i = text::seek(id, 0, CharSet::One('#'));
    if i >= id.len() {
        None
    } else {
        Some(id.subrange(i + 1, text::seek(id, i + 1, CharSet::One('#'))))
    }
}

/// The class segment of a symbol id (`path#Class.method` -> `Class`;
/// `path#Class` -> `Class`).
pub open spec fn class_part(id: Seq<char>) -> Option<Seq<char>> {
    match symbol_part(id) {
        Some(s) => {
            let i = text::seek_back(s, s.len() as int, CharSet::One('.'));
            if i > 0 {
                Some(s.subrange(0, i - 1))
            } else {
                Some(s)
            }
        },
        None => None,
    }
}

/// The part of `id` between its first and its second `#`.
fn symbol_of<'a>(id: &'a [char]) -> (r: Option<&'a [char]>)
    ensures
        seqs::opt_view(r) == symbol_part(id@),
{
    let i = text::look(id, 0, CharSet::One('#'));
    if i >= id.len() {
        return None;
    }
    Some(slice_subrange(id, i + 1, text::look(id, i + 1, CharSet::One('#'))))
}

/// The class segment of a symbol id (`path#Class.method` -> `Class`;
/// `path#Class` -> `Class`).
pub fn class_of(id: &str) -> (r: Option<String>)
    ensures
        seqs::opt_view(r) == class_part(id@),
{
    let c = chars_of(id);
    match symbol_of(&c) {
        Some(s) => {
            let i = text::look_back(s, s.len(), CharSet::One('.'));
            if i > 0 {
                Some(string_of(slice_subrange(s, 0, i - 1)))
            } else {
                Some(string_of(s))
            }
        },
        None => None,
    }
}

/// A Laravel local-scope method name for a query call: `active` -> `scopeActive`.
pub open spec fn scoped(method: Seq<char>) -> Seq<char> {
    if method.len() == 0 {
        Seq::empty()
    } else {
        "scope"@ + (seq![text::upper_char(method[0])] + method.subrange(1, method.len() as int))
    }
}

/// A Laravel local-scope method name for a query call: `active` -> `scopeActive`.
fn scope_name(method: &str) -> (r: String)
    ensures
        r@ == scoped(method@),
{
    let m = chars_of(method);
    if m.len() == 0 {
        return String::new();
    }
    let mut rest = String::new();
    rest.push(text::to_upper_char(m[0]));
    rest.append(&string_of(slice_subrange(&m, 1, m.len())));
    assert(rest@ =~= seq![text::upper_char(m@[0])] + m@.subrange(1, m@.len() as int));
    join2("scope", &rest)
}

// ---------------------------------------------------------------------------
// The index

/// The name under which a node is found: every node but a method, a file, or a
/// `.gitattributes` path is found by its name.
pub open spec fn name_key(n: NodeView) -> Option<Seq<char>> {
    if n.kind == "method"@ || n.kind == "file"@ || n.kind == "path"@ {
        None
    } else {
        Some(n.name)
    }
}

/// The name of a method.
pub open spec fn method_key(n: NodeView) -> Option<Seq<char>> {
    if n.kind == "method"@ {
        Some(n.name)
    } else {
        None
    }
}

/// The class that a method belongs to.
pub open spec fn owner_key(n: NodeView) -> Option<Seq<char>> {
    if n.kind == "method"@ {
        class_part(n.id)
    } else {
        None
    }
}

/// The class that an `extends` edge gives a parent.
pub open spec fn child_key(e: EdgeView) -> Option<Seq<char>> {
    if e.relation == "extends"@ && e.name is Some {
        symbol_part(e.source)
    } else {
        None
    }
}

/// The file whose `use A\B\Foo;` an `imports` edge stands for.
pub open spec fn use_key(e: EdgeView) -> Option<Seq<char>> {
    if e.relation == "imports"@ && e.name is Some && text::some_in(e.name->0, CharSet::One('\\')) {
        Some(e.source)
    } else {
        None
    }
}

pub open spec fn name_keys(nodes: Seq<NodeView>) -> Seq<Option<Seq<char>>> {
    nodes.map_values(|n: NodeView| name_key(n))
}

pub open spec fn method_keys(nodes: Seq<NodeView>) -> Seq<Option<Seq<char>>> {
    nodes.map_values(|n: NodeView| method_key(n))
}

pub open spec fn owner_keys(nodes: Seq<NodeView>) -> Seq<Option<Seq<char>>> {
    nodes.map_values(|n: NodeView| owner_key(n))
}

pub open spec fn child_keys(edges: Seq<EdgeView>) -> Seq<Option<Seq<char>>> {
    edges.map_values(|e: EdgeView| child_key(e))
}

pub open spec fn use_keys(edges: Seq<EdgeView>) -> Seq<Option<Seq<char>>> {
    edges.map_values(|e: EdgeView| use_key(e))
}

pub open spec fn path_of() -> spec_fn(NodeView) -> Seq<Seq<char>> {
    |n: NodeView|
        if n.kind == "file"@ {
            seq![n.path]
        } else {
            Seq::empty()
        }
}

/// The repo-relative paths of the file nodes, in order.
pub open spec fn file_list(nodes: Seq<NodeView>) -> Seq<Seq<char>> {
    seqs::each(nodes, path_of())
}

/// The repo-relative paths of the file nodes.
pub open spec fn file_paths(nodes: Seq<NodeView>) -> Set<Seq<char>> {
    file_list(nodes).to_set()
}

/// The ids of the nodes.
pub open spec fn node_ids(nodes: Seq<NodeView>) -> Set<Seq<char>> {
    nodes.map_values(|n: NodeView| n.id).to_set()
}

/// The one position of a bucket that holds exactly one.
pub open spec fn sole(b: Seq<int>) -> Option<int> {
    if b.len() == 1 {
        Some(b[0])
    } else {
        None
    }
}

/// The id of the only node of this name.
pub open spec fn unique_id(nodes: Seq<NodeView>, name: Seq<char>) -> Option<Seq<char>> {
    match sole(buckets::bucket(name_keys(nodes), name)) {
        Some(i) => Some(nodes[i].id),
        None => None,
    }
}

/// Name/receiver indices over the nodes and edges.
struct Index {
    by_name: Buckets,
    method_by_name: Buckets,
    owner: Buckets,
    parents: Buckets,
    uses: Buckets,
    files: StringHashSet,
    paths: Vec<Vec<char>>,
    ids: StringHashSet,
}

impl Index {
    spec fn of(self, nodes: Seq<NodeView>, edges: Seq<EdgeView>) -> bool {
        &&& self.by_name.wf() && self.by_name@ == name_keys(nodes)
        &&& self.method_by_name.wf() && self.method_by_name@ == method_keys(nodes)
        &&& self.owner.wf() && self.owner@ == owner_keys(nodes)
        &&& self.parents.wf() && self.parents@ == child_keys(edges)
        &&& self.uses.wf() && self.uses@ == use_keys(edges)
        &&& self.files@ == file_paths(nodes)
        &&& seqs::views(self.paths@) == file_list(nodes)
        &&& self.ids@ == node_ids(nodes)
    }

    /// Indexes the nodes and edges.
    fn build(nodes: &[Node], edges: &[RawEdge]) -> (r: Self)
        ensures
            r.of(seqs::views(nodes@), seqs::views(edges@)),
    {
        let mut by_name = Buckets::new();
        let mut method_by_name = Buckets::new();
        let mut owner = Buckets::new();
        let mut files = StringHashSet::new();
        let mut paths: Vec<Vec<char>> = Vec::new();
        let mut ids = StringHashSet::new();
        let ghost ns = seqs::views(nodes@);
        let ghost es = seqs::views(edges@);
        let mut k: usize = 0;
        assert(name_keys(ns.take(0)) =~= Seq::<Option<Seq<char>>>::empty());
        assert(method_keys(ns.take(0)) =~= Seq::<Option<Seq<char>>>::empty());
        assert(owner_keys(ns.take(0)) =~= Seq::<Option<Seq<char>>>::empty());
        while k < nodes.len()
            invariant
                k <= nodes@.len(),
                ns == seqs::views(nodes@),
                by_name.wf() && by_name@ == name_keys(ns.take(k as int)),
                method_by_name.wf() && method_by_name@ == method_keys(ns.take(k as int)),
                owner.wf() && owner@ == owner_keys(ns.take(k as int)),
                files@ == seqs::views(paths@).to_set(),
                seqs::views(paths@) + seqs::each_from(ns, k as int, path_of()) == file_list(ns),
                ids@ == node_ids(ns.take(k as int)),
            decreases nodes@.len() - k,
        {
            let n = &nodes[k];
            proof {
                reveal_strlit("method");
                reveal_strlit("file");
                assert("method"@.len() != "file"@.len());
                let before = ns.take(k as int);
                let after = ns.take(k + 1);
                let id = |n: NodeView| n.id;
                assert(ns[k as int] == n@);
                assert(after =~= before.push(n@));
                assert(name_keys(after) =~= name_keys(before).push(name_key(n@)));
                assert(method_keys(after) =~= method_keys(before).push(method_key(n@)));
                assert(owner_keys(after) =~= owner_keys(before).push(owner_key(n@)));
                assert(after.map_values(id) =~= before.map_values(id).push(n@.id));
            }
            ids.insert(n.id.clone());
            let kind = chars_of(n.kind);
            if is_text(&kind, "method") {
                owner.push(class_of(&n.id));
                method_by_name.push(Some(n.name.clone()));
                by_name.push(None);
            } else if is_text(&kind, "file") {
                files.insert(n.path.clone());
                paths.push(chars_of(&n.path));
                owner.push(None);
                method_by_name.push(None);
                by_name.push(None);
            } else if is_text(&kind, "path") {
                owner.push(None);
                method_by_name.push(None);
                by_name.push(None);
            } else {
                owner.push(None);
                method_by_name.push(None);
                by_name.push(Some(n.name.clone()));
            }
            k += 1;
        }
        assert(ns.take(k as int) =~= ns);
        let mut parents = Buckets::new();
        let mut uses = Buckets::new();
        let mut k: usize = 0;
        assert(child_keys(es.take(0)) =~= Seq::<Option<Seq<char>>>::empty());
        assert(use_keys(es.take(0)) =~= Seq::<Option<Seq<char>>>::empty());
        while k < edges.len()
            invariant
                k <= edges@.len(),
                es == seqs::views(edges@),
                parents.wf() && parents@ == child_keys(es.take(k as int)),
                uses.wf() && uses@ == use_keys(es.take(k as int)),
            decreases edges@.len() - k,
        {
            let e = &edges[k];
            proof {
                assert(es[k as int] == e@);
                assert(es.take(k + 1) =~= es.take(k as int).push(e@));
                assert(child_keys(es.take(k + 1)) =~= child_keys(es.take(k as int)).push(child_key(e@)));
                assert(use_keys(es.take(k + 1)) =~= use_keys(es.take(k as int)).push(use_key(e@)));
            }
            let relation = chars_of(e.relation);
            let mut child: Option<String> = None;
            let mut user: Option<String> = None;
            if let Some(name) = &e.name {
                if is_text(&relation, "extends") {
                    let source = chars_of(&e.source);
                    child = match symbol_of(&source) {
                        Some(own) => Some(string_of(own)),
                        None => None,
                    };
                }
                if is_text(&relation, "imports") {
                    let fqcn = chars_of(name);
                    if text::has_any(&fqcn, CharSet::One('\\')) {
                        user = Some(e.source.clone());
                    }
                }
            }
            parents.push(child);
            uses.push(user);
            k += 1;
        }
        assert(es.take(k as int) =~= es);
        Index { by_name, method_by_name, owner, parents, uses, files, paths, ids }
    }
}

// ---------------------------------------------------------------------------
// Classes by name

pub open spec fn ends_like(nodes: Seq<NodeView>, want: Seq<char>) -> spec_fn(int) -> Option<Seq<char>> {
    |i: int|
        if text::ends(text::lowercase(scan::first_part(nodes[i].id, '#')), want) {
            Some(nodes[i].id)
        } else {
            None
        }
}

pub open spec fn same_dir(nodes: Seq<NodeView>, dir: Seq<char>) -> spec_fn(int) -> Option<Seq<char>> {
    |i: int|
        if scan::dir_part(scan::first_part(nodes[i].id, '#')) == dir {
            Some(nodes[i].id)
        } else {
            None
        }
}

/// The name imported last among `uses`, from index `k` down, whose last segment
/// is `short`.
pub open spec fn last_use(edges: Seq<EdgeView>, uses: Seq<int>, k: int, short: Seq<char>) -> Option<Seq<char>>
    decreases k,
{
    if k <= 0 || k > uses.len() {
        None
    } else if scan::last_part(edges[uses[k - 1]].name->0, '\\') == short {
        edges[uses[k - 1]].name
    } else {
        last_use(edges, uses, k - 1, short)
    }
}

/// The fully qualified name that the file imports under the name `short`.
pub open spec fn imported(edges: Seq<EdgeView>, file: Seq<char>, short: Seq<char>) -> Option<Seq<char>> {
    let uses = buckets::bucket(use_keys(edges), file);
    last_use(edges, uses, uses.len() as int, short)
}

/// The path that a fully qualified class name has by convention, in lower case.
pub open spec fn class_path(fqcn: Seq<char>) -> Seq<char> {
    text::lowercase(text::replaced(fqcn, '\\', '/')) + ".php"@
}

/// A bare class name referenced from `source` -> a node id. A unique name wins;
/// on a short-name collision the source file's `use` import gives the
/// fully qualified name, and the candidate whose path matches the namespace is
/// chosen; else the candidate in the directory of the source file, if any.
pub open spec fn class_named(
    nodes: Seq<NodeView>,
    edges: Seq<EdgeView>,
    source: Seq<char>,
    name: Seq<char>,
) -> Option<Seq<char>> {
    let b = buckets::bucket(name_keys(nodes), name);
    let file = scan::first_part(source, '#');
    let by_import = match imported(edges, file, name) {
        Some(fqcn) => seqs::first_some(b, ends_like(nodes, class_path(fqcn))),
        None => None,
    };
    if b.len() == 1 {
        Some(nodes[b[0]].id)
    } else if by_import is Some {
        by_import
    } else {
        seqs::first_some(b, same_dir(nodes, scan::dir_part(file)))
    }
}

impl Index {
    /// The fully qualified name that `file` imports under the name `short`.
    fn import_of(&self, edges: &[RawEdge], file: &str, short: &str, Ghost(nodes): Ghost<Seq<NodeView>>) -> (r:
        Option<String>)
        requires
            self.of(nodes, seqs::views(edges@)),
        ensures
            seqs::opt_view(r) == imported(seqs::views(edges@), file@, short@),
    {
        let uses = self.uses.get(file);
        let ghost es = seqs::views(edges@);
        let ghost b = buckets::bucket(use_keys(es), file@);
        let mut k: usize = uses.len();
        while k > 0
            invariant
                k <= uses@.len(),
                es == seqs::views(edges@),
                b == text::ints(uses@),
                b == buckets::bucket(use_keys(es), file@),
                last_use(es, b, k as int, short@) == imported(es, file@, short@),
            decreases k,
        {
            let i = uses[k - 1];
            proof {
                buckets::lemma_bucket(use_keys(es), file@);
                assert(b[k - 1] == i);
                assert(use_keys(es)[i as int] == Some(file@));
                assert(es[i as int] == edges@[i as int]@);
            }
            if let Some(fqcn) = &edges[i].name {
                let c = chars_of(fqcn);
                if is_text(scan::behind_last(&c, '\\'), short) {
                    return Some(fqcn.clone());
                }
            }
            k -= 1;
        }
        None
    }

    /// The node that a bare class name referenced from `source` stands for.
    fn resolve_named(&self, nodes: &[Node], edges: &[RawEdge], source: &str, name: &str) -> (r: Option<String>)
        requires
            self.of(seqs::views(nodes@), seqs::views(edges@)),
        ensures
            seqs::opt_view(r) == class_named(seqs::views(nodes@), seqs::views(edges@), source@, name@),
    {
        let found = self.by_name.get(name);
        let ghost ns = seqs::views(nodes@);
        let ghost es = seqs::views(edges@);
        let ghost b = buckets::bucket(name_keys(ns), name@);
        assert(b == text::ints(found@));
        if found.len() == 1 {
            assert(b[0] == found@[0]);
            assert(ns[found@[0] as int] == nodes@[found@[0] as int]@);
            return Some(nodes[found[0]].id.clone());
        }
        let whole = chars_of(source);
        let file = scan::before_first(&whole, '#');
        if let Some(fqcn) = self.import_of(edges, &string_of(file), name, Ghost(ns)) {
            let path = string_of(&text::replace_char(&chars_of(&fqcn), '\\', '/'));
            let want = join2(&path.to_lowercase(), ".php");
            let mut k: usize = 0;
            while k < found.len()
                invariant
                    k <= found@.len(),
                    ns == seqs::views(nodes@),
                    b == text::ints(found@),
                    forall|j: int| 0 <= j < found@.len() ==> (#[trigger] found@[j]) < nodes@.len(),
                    seqs::first_from(b, k as int, ends_like(ns, want@)) == seqs::first_some(
                        b,
                        ends_like(ns, want@),
                    ),
                    b.len() != 1,
                    file@ == scan::first_part(source@, '#'),
                    imported(es, file@, name@) == Some(fqcn@),
                    want@ == class_path(fqcn@),
                    b == buckets::bucket(name_keys(ns), name@),
                    es == seqs::views(edges@),
                decreases found@.len() - k,
            {
                let id = &nodes[found[k]].id;
                assert(b[k as int] == found@[k as int]);
                assert(ns[found@[k as int] as int] == nodes@[found@[k as int] as int]@);
                let c = chars_of(id);
                let low = string_of(scan::before_first(&c, '#')).to_lowercase();
                if text::ends_with(&chars_of(&low), &want) {
                    return Some(id.clone());
                }
                k += 1;
            }
        }
        let dir = scan::directory(file);
        let mut k: usize = 0;
        while k < found.len()
            invariant
                k <= found@.len(),
                ns == seqs::views(nodes@),
                b == text::ints(found@),
                forall|j: int| 0 <= j < found@.len() ==> (#[trigger] found@[j]) < nodes@.len(),
                seqs::first_from(b, k as int, same_dir(ns, dir@)) == seqs::first_some(b, same_dir(ns, dir@)),
                seqs::first_some(b, same_dir(ns, dir@)) == class_named(ns, es, source@, name@),
                es == seqs::views(edges@),
            decreases found@.len() - k,
        {
            let id = &nodes[found[k]].id;
            assert(b[k as int] == found@[k as int]);
            assert(ns[found@[k as int] as int] == nodes@[found@[k as int] as int]@);
            let c = chars_of(id);
            let d = string_of(scan::directory(scan::before_first(&c, '#')));
            if is_text(dir, &d) {
                return Some(id.clone());
            }
            k += 1;
        }
        None
    }

    /// The id of the only node of this name.
    fn unique(&self, nodes: &[Node], name: &str, Ghost(edges): Ghost<Seq<EdgeView>>) -> (r: Option<usize>)
        requires
            self.of(seqs::views(nodes@), edges),
        ensures
            r matches Some(i) ==> i < nodes@.len() && sole(
                buckets::bucket(name_keys(seqs::views(nodes@)), name@),
            ) == Some(i as int),
            r is None ==> sole(buckets::bucket(name_keys(seqs::views(nodes@)), name@)) is None,
    {
        let found = self.by_name.get(name);
        let ghost b = buckets::bucket(name_keys(seqs::views(nodes@)), name@);
        assert(b == text::ints(found@));
        if found.len() == 1 {
            assert(b[0] == found@[0]);
            Some(found[0])
        } else {
            None
        }
    }
}

// ---------------------------------------------------------------------------
// Members

pub open spec fn named_method(nodes: Seq<NodeView>, method: Seq<char>) -> spec_fn(int) -> Seq<Seq<char>> {
    |i: int|
        if nodes[i].name == method {
            seq![nodes[i].id]
        } else {
            Seq::empty()
        }
}

/// The ids of the methods of this name that the class declares.
pub open spec fn methods(nodes: Seq<NodeView>, class: Seq<char>, method: Seq<char>) -> Seq<Seq<char>> {
    seqs::each(buckets::bucket(owner_keys(nodes), class), named_method(nodes, method))
}

/// The method that a call of `method` on the class itself reaches: the only
/// method of that name, else the only Laravel local scope for it
/// (`->active()` -> `scopeActive`), which has to exist on the class.
pub open spec fn own_method(nodes: Seq<NodeView>, class: Seq<char>, method: Seq<char>) -> Option<Seq<char>> {
    if methods(nodes, class, method).len() == 1 {
        Some(methods(nodes, class, method)[0])
    } else if methods(nodes, class, scoped(method)).len() == 1 {
        Some(methods(nodes, class, scoped(method))[0])
    } else {
        None
    }
}

/// The names of the parents that `extends` edges give a class, in order.
pub open spec fn parents_of(edges: Seq<EdgeView>, class: Seq<char>) -> Seq<Seq<char>> {
    buckets::bucket(child_keys(edges), class).map_values(|i: int| edges[i].name->0)
}

/// The children of `extends` edges that are not in `seen`.
pub open spec fn unseen(edges: Seq<EdgeView>, seen: Set<Seq<char>>) -> Set<Option<Seq<char>>> {
    child_keys(edges).to_set().filter(|k: Option<Seq<char>>| k is Some && !seen.contains(k->0))
}

pub proof fn lemma_unseen(edges: Seq<EdgeView>, seen: Set<Seq<char>>, c: Seq<char>)
    requires
        !seen.contains(c),
    ensures
        parents_of(edges, c).len() > 0 ==> unseen(edges, seen.insert(c)).len() < unseen(edges, seen).len(),
        parents_of(edges, c).len() == 0 ==> unseen(edges, seen.insert(c)).len() <= unseen(edges, seen).len(),
{
    let keys = child_keys(edges);
    let a = unseen(edges, seen.insert(c));
    let b = unseen(edges, seen);
    vstd::seq_lib::seq_to_set_is_finite(keys);
    buckets::lemma_bucket(keys, c);
    assert(b.subset_of(keys.to_set()));
    assert(a.subset_of(b));
    vstd::set_lib::lemma_set_subset_finite(keys.to_set(), b);
    vstd::set_lib::lemma_len_subset(a, b);
    if parents_of(edges, c).len() > 0 {
        let i = buckets::bucket(keys, c)[0];
        assert(keys[i] == Some(c));
        assert(b.contains(Some(c)));
        assert(!a.contains(Some(c)));
        assert(a.subset_of(b.remove(Some(c))));
        vstd::set_lib::lemma_len_subset(a, b.remove(Some(c)));
    }
}

/// The classes that are reached from `todo` over `extends` edges, depth first
/// and parents in order, each once, but for those already `seen`.
pub open spec fn ancestry(edges: Seq<EdgeView>, todo: Seq<Seq<char>>, seen: Set<Seq<char>>) -> Seq<Seq<char>>
    decreases unseen(edges, seen).len(), todo.len(),
{
    if todo.len() == 0 {
        Seq::empty()
    } else {
        let c = todo.first();
        let rest = todo.drop_first();
        if seen.contains(c) {
            ancestry(edges, rest, seen)
        } else {
            proof {
                lemma_unseen(edges, seen, c);
            }
            seq![c] + ancestry(edges, parents_of(edges, c) + rest, seen.insert(c))
        }
    }
}

pub open spec fn own_method_of(nodes: Seq<NodeView>, method: Seq<char>) -> spec_fn(Seq<char>) -> Option<
    Seq<char>,
> {
    |c: Seq<char>| own_method(nodes, c, method)
}

/// `recv.method`: the method of the first class, from `recv` up the extends
/// chain, that has one.
pub open spec fn member(
    nodes: Seq<NodeView>,
    edges: Seq<EdgeView>,
    recv: Seq<char>,
    method: Seq<char>,
) -> Option<Seq<char>> {
    seqs::first_some(ancestry(edges, seq![recv], Set::empty()), own_method_of(nodes, method))
}

impl Index {
    /// The ids of the methods of this name that the class declares: how many,
    /// and the first.
    fn count_methods(
        &self,
        nodes: &[Node],
        class: &str,
        method: &str,
        Ghost(edges): Ghost<Seq<EdgeView>>,
    ) -> (r: Option<usize>)
        requires
            self.of(seqs::views(nodes@), edges),
        ensures
            r matches Some(i) ==> i < nodes@.len() && methods(seqs::views(nodes@), class@, method@) == seq![
                nodes@[i as int].id@,
            ],
            r is None ==> methods(seqs::views(nodes@), class@, method@).len() != 1,
    {
        let found = self.owner.get(class);
        let m = chars_of(method);
        let ghost ns = seqs::views(nodes@);
        let ghost b = buckets::bucket(owner_keys(ns), class@);
        let ghost mut ids: Seq<Seq<char>> = Seq::empty();
        assert(b == text::ints(found@));
        let mut first: Option<usize> = None;
        let mut many = false;
        let mut k: usize = 0;
        while k < found.len()
            invariant
                k <= found@.len(),
                m@ == method@,
                ns == seqs::views(nodes@),
                b == text::ints(found@),
                forall|j: int| 0 <= j < found@.len() ==> (#[trigger] found@[j]) < nodes@.len(),
                ids + seqs::each_from(b, k as int, named_method(ns, method@)) == methods(ns, class@, method@),
                first is None <==> ids.len() == 0,
                first matches Some(i) ==> i < nodes@.len() && ids[0] == nodes@[i as int].id@,
                many <==> ids.len() > 1,
            decreases found@.len() - k,
        {
            let i = found[k];
            assert(b[k as int] == i);
            assert(ns[i as int] == nodes@[i as int]@);
            if is_text(&m, &nodes[i].name) {
                proof {
                    ids = ids.push(ns[i as int].id);
                }
                if first.is_none() {
                    first = Some(i);
                } else {
                    many = true;
                }
            }
            k += 1;
        }
        assert(ids == methods(ns, class@, method@));
        if many {
            None
        } else {
            if first.is_some() {
                assert(ids =~= seq![ids[0]]);
            }
            first
        }
    }

    /// The method that a call on the class itself reaches.
    fn own(&self, nodes: &[Node], class: &str, method: &str, Ghost(edges): Ghost<Seq<EdgeView>>) -> (r: Option<
        String,
    >)
        requires
            self.of(seqs::views(nodes@), edges),
        ensures
            seqs::opt_view(r) == own_method(seqs::views(nodes@), class@, method@),
    {
        if let Some(i) = self.count_methods(nodes, class, method, Ghost(edges)) {
            return Some(nodes[i].id.clone());
        }
        let scope = scope_name(method);
        if let Some(i) = self.count_methods(nodes, class, &scope, Ghost(edges)) {
            return Some(nodes[i].id.clone());
        }
        None
    }

    /// `recv.method`, walking the extends chain. Falls back to a Laravel local
    /// scope (`->active()` -> `scopeActive`) but only when that `scope<Method>`
    /// method actually exists on the class -- never a blind rename, so a plain
    /// call that has no matching scope is unaffected.
    fn resolve_member(&self, nodes: &[Node], edges: &[RawEdge], recv: &str, method: &str) -> (r: Option<String>)
        requires
            self.of(seqs::views(nodes@), seqs::views(edges@)),
        ensures
            seqs::opt_view(r) == member(seqs::views(nodes@), seqs::views(edges@), recv@, method@),
    {
        let ghost ns = seqs::views(nodes@);
        let ghost es = seqs::views(edges@);
        let ghost f = own_method_of(ns, method@);
        let mut seen = StringHashSet::new();
        // The classes still to visit, the next one last.
        let mut stack: Vec<String> = Vec::new();
        stack.push(recv.to_string());
        let ghost mut todo: Seq<Seq<char>> = seq![recv@];
        assert(seqs::views(stack@).reverse() =~= todo);
        while stack.len() > 0
            invariant
                self.of(ns, es),
                ns == seqs::views(nodes@),
                es == seqs::views(edges@),
                f == own_method_of(ns, method@),
                todo == seqs::views(stack@).reverse(),
                seqs::first_some(ancestry(es, todo, seen@), f) == member(ns, es, recv@, method@),
            decreases unseen(es, seen@).len(), stack@.len(),
        {
            let ghost last = stack@.len() - 1;
            let ghost stack_before = stack@;
            let ghost seen_before = seen@;
            let class = match stack.pop() {
                Some(c) => c,
                None => {
                    return None;
                },
            };
            let ghost rest = todo.drop_first();
            proof {
                assert(todo.first() == class@);
                assert(rest =~= seqs::views(stack@).reverse());
            }
            if seen.contains(&class) {
                proof {
                    todo = rest;
                }
            } else {
                proof {
                    lemma_unseen(es, seen@, class@);
                }
                seen.insert(class.clone());
                let ghost tail = ancestry(es, parents_of(es, class@) + rest, seen@);
                proof {
                    lemma_first_cons(class@, tail, f);
                    assert(ancestry(es, todo, seen_before) == seq![class@] + tail);
                }
                let found = self.own(nodes, &class, method, Ghost(es));
                if found.is_some() {
                    return found;
                }
                let ups = self.parents.get(&class);
                let ghost b = buckets::bucket(child_keys(es), class@);
                let ghost names = parents_of(es, class@);
                let ghost base = seqs::views(stack@);
                let mut k: usize = ups.len();
                assert(names.subrange(k as int, names.len() as int) =~= Seq::<Seq<char>>::empty());
                assert(seqs::views(stack@) =~= base + names.subrange(k as int, names.len() as int).reverse());
                while k > 0
                    invariant
                        k <= ups@.len(),
                        es == seqs::views(edges@),
                        b == text::ints(ups@),
                        b == buckets::bucket(child_keys(es), class@),
                        names == parents_of(es, class@),
                        seqs::views(stack@) == base + names.subrange(k as int, names.len() as int).reverse(),
                    decreases k,
                {
                    let i = ups[k - 1];
                    proof {
                        buckets::lemma_bucket(child_keys(es), class@);
                        assert(b[k - 1] == i);
                        assert(child_keys(es)[i as int] == Some(class@));
                        assert(es[i as int] == edges@[i as int]@);
                        assert(names[k - 1] == es[i as int].name->0);
                        assert(names.subrange(k - 1, names.len() as int).reverse() =~= names.subrange(
                            k as int,
                            names.len() as int,
                        ).reverse().push(names[k - 1]));
                    }
                    if let Some(name) = &edges[i].name {
                        stack.push(name.clone());
                    }
                    k -= 1;
                }
                proof {
                    todo = names + rest;
                    assert(names.subrange(0, names.len() as int) =~= names);
                    assert(seqs::views(stack@).reverse() =~= todo);
                    if names.len() == 0 {
                        assert(stack@.len() <= last);
                    }
                }
            }
        }
        None
    }
}

/// The first value found in a sequence is found at its head, or behind it.
proof fn lemma_first_cons<A, B>(x: A, s: Seq<A>, f: spec_fn(A) -> Option<B>)
    ensures
        seqs::first_some(seq![x] + s, f) == (if f(x) is Some {
            f(x)
        } else {
            seqs::first_some(s, f)
        }),
{
    lemma_first_shift(x, s, 0, f);
    assert((seq![x] + s)[0] == x);
}

proof fn lemma_first_shift<A, B>(x: A, s: Seq<A>, k: int, f: spec_fn(A) -> Option<B>)
    requires
        k >= 0,
    ensures
        seqs::first_from(seq![x] + s, k + 1, f) == seqs::first_from(s, k, f),
    decreases s.len() - k,
{
    if k < s.len() {
        assert((seq![x] + s)[k + 1] == s[k]);
        lemma_first_shift(x, s, k + 1, f);
    }
}

// ---------------------------------------------------------------------------
// Targets

/// What was found, or else the name as it stands.
pub open spec fn or_name(found: Option<Seq<char>>, name: Seq<char>) -> Seq<char> {
    match found {
        Some(x) => x,
        None => name,
    }
}

/// The prefix of the join nodes that a relation points at.
pub open spec fn join_prefix(relation: Seq<char>) -> Option<Seq<char>> {
    if relation == "table"@ || relation == "migrates"@ || relation == "uses-table"@ {
        Some("table:"@)
    } else if relation == "visits"@ {
        Some("route:"@)
    } else if relation == "checks-permission"@ {
        Some("right:"@)
    } else if relation == "raises-trigger"@ || relation == "handles-trigger"@ {
        Some("trigger:"@)
    } else if relation == "fires-hook"@ || relation == "handles-hook"@ {
        Some("hook:"@)
    } else if relation == "declares-module"@ {
        Some("module:"@)
    } else if relation == "requires-role"@ {
        Some("role:"@)
    } else if relation == "defines-fn"@ {
        Some("twigfn:"@)
    } else if relation == "defines-pipe"@ {
        Some("pipe:"@)
    } else {
        None
    }
}

/// The prefix of the join nodes that a relation points at.
fn prefix_of(relation: &[char]) -> (r: Option<&'static str>)
    ensures
        seqs::opt_view(r) == join_prefix(relation@),
{
    if is_text(relation, "table") || is_text(relation, "migrates") || is_text(relation, "uses-table") {
        Some("table:")
    } else if is_text(relation, "visits") {
        Some("route:")
    } else if is_text(relation, "checks-permission") {
        Some("right:")
    } else if is_text(relation, "raises-trigger") || is_text(relation, "handles-trigger") {
        Some("trigger:")
    } else if is_text(relation, "fires-hook") || is_text(relation, "handles-hook") {
        Some("hook:")
    } else if is_text(relation, "declares-module") {
        Some("module:")
    } else if is_text(relation, "requires-role") {
        Some("role:")
    } else if is_text(relation, "defines-fn") {
        Some("twigfn:")
    } else if is_text(relation, "defines-pipe") {
        Some("pipe:")
    } else {
        None
    }
}

/// A relation whose target is a class or function node found by name, and kept
/// as the bare name where it is not.
pub open spec fn names_class(relation: Seq<char>) -> bool {
    ||| relation == "extends"@
    ||| relation == "implements"@
    ||| relation == "covers"@
    ||| relation == "routes-to"@
    ||| relation == "relates-to"@
    ||| relation == "depends-on"@
    ||| relation == "instantiates"@
    ||| relation == "uses-const"@
    ||| relation == "schedules"@
}

/// What a call reaches: the receiver's method where the receiver's type is
/// known; on an unknown receiver the only Laravel scope method of that name; a
/// plain call the only symbol of that name.
pub open spec fn call_target(nodes: Seq<NodeView>, edges: Seq<EdgeView>, e: EdgeView, name: Seq<char>) -> Option<
    Seq<char>,
> {
    match e.recv_type {
        Some(recv) => member(nodes, edges, recv, name),
        None => if e.via_member {
            match sole(buckets::bucket(method_keys(nodes), scoped(name))) {
                Some(i) => Some(nodes[i].id),
                None => None,
            }
        } else {
            unique_id(nodes, name)
        },
    }
}

/// What an edge points at, in a graph of the given nodes and raw edges; nothing
/// where the edge is dropped.
pub open spec fn target(nodes: Seq<NodeView>, edges: Seq<EdgeView>, e: EdgeView) -> Option<Seq<char>> {
    let r = e.relation;
    let name = match e.name {
        Some(n) => n,
        None => Seq::empty(),
    };
    let files = file_paths(nodes);
    if r == "contains"@ {
        e.target_id
    } else if r == "imports"@ {
        if text::starts(name, "."@) {
            Some(or_name(paths::relative_file(e.source, name, files), name))
        } else {
            match sole(buckets::bucket(name_keys(nodes), scan::last_part(name, '\\'))) {
                Some(i) => Some(nodes[i].path),
                None => Some(name),
            }
        }
    } else if names_class(r) {
        Some(or_name(class_named(nodes, edges, e.source, name), name))
    } else if r == "serves"@ {
        if node_ids(nodes).contains(name) {
            Some(name)
        } else {
            Some(or_name(class_named(nodes, edges, e.source, name), name))
        }
    } else if r == "export-ignores"@ {
        Some(name)
    } else if r == "configures"@ {
        if files.contains(name) {
            Some(name)
        } else {
            Some(or_name(unique_id(nodes, name), name))
        }
    } else if model::is_relation(r) {
        if name == "self"@ || name == "static"@ {
            Some(e.source)
        } else {
            Some(or_name(class_named(nodes, edges, e.source, name), name))
        }
    } else if join_prefix(r) is Some {
        Some(join_prefix(r)->0 + name)
    } else if r == "renders"@ {
        Some(or_name(paths::component_file(name, files), name))
    } else if r == "requires"@ {
        Some(or_name(paths::relative_file(e.source, name, files), name))
    } else if r == "returns"@ {
        Some(e.source)
    } else if r == "dol-requires"@ {
        Some(paths::dol_file(name, files))
    } else if r == "uses-fn"@ {
        if node_ids(nodes).contains("twigfn:"@ + name) {
            Some("twigfn:"@ + name)
        } else {
            None
        }
    } else if r == "uses-pipe"@ {
        if node_ids(nodes).contains("pipe:"@ + name) {
            Some("pipe:"@ + name)
        } else {
            None
        }
    } else if r == "calls"@ {
        call_target(nodes, edges, e, name)
    } else if r == "includes"@ {
        Some(or_name(paths::view_file(name, files), name))
    } else {
        None
    }
}

/// What was found, or else the name as it stands.
fn kept(found: Option<String>, name: &str) -> (r: String)
    ensures
        r@ == or_name(seqs::opt_view(found), name@),
{
    match found {
        Some(x) => x,
        None => name.to_string(),
    }
}

impl Index {
    /// What a call reaches.
    fn resolve_call(&self, nodes: &[Node], edges: &[RawEdge], e: &RawEdge, name: &str) -> (r: Option<String>)
        requires
            self.of(seqs::views(nodes@), seqs::views(edges@)),
        ensures
            seqs::opt_view(r) == call_target(seqs::views(nodes@), seqs::views(edges@), e@, name@),
    {
        if let Some(recv) = &e.recv_type {
            return self.resolve_member(nodes, edges, recv, name);
        }
        let ghost ns = seqs::views(nodes@);
        if e.via_member {
            // No known receiver (a query-builder chain, `Model::query()->scope()`,
            // etc.). A Laravel scope call (`->active()`) still resolves when exactly
            // one `scopeActive` method exists anywhere.
            let found = self.method_by_name.get(&scope_name(name));
            let ghost b = buckets::bucket(method_keys(ns), scoped(name@));
            assert(b == text::ints(found@));
            if found.len() == 1 {
                assert(b[0] == found@[0]);
                assert(ns[found@[0] as int] == nodes@[found@[0] as int]@);
                return Some(nodes[found[0]].id.clone());
            }
            return None;
        }
        self.unique_of(nodes, name, Ghost(seqs::views(edges@)))
    }

    /// The id of the only node of this name.
    fn unique_of(&self, nodes: &[Node], name: &str, Ghost(edges): Ghost<Seq<EdgeView>>) -> (r: Option<String>)
        requires
            self.of(seqs::views(nodes@), edges),
        ensures
            seqs::opt_view(r) == unique_id(seqs::views(nodes@), name@),
    {
        match self.unique(nodes, name, Ghost(edges)) {
            Some(i) => {
                assert(seqs::views(nodes@)[i as int] == nodes@[i as int]@);
                Some(nodes[i].id.clone())
            },
            None => None,
        }
    }

    /// What an edge points at.
    fn target_of(&self, nodes: &[Node], edges: &[RawEdge], e: &RawEdge) -> (r: Option<String>)
        requires
            self.of(seqs::views(nodes@), seqs::views(edges@)),
        ensures
            seqs::opt_view(r) == target(seqs::views(nodes@), seqs::views(edges@), e@),
    {
        let ghost ns = seqs::views(nodes@);
        let ghost es = seqs::views(edges@);
        let empty = String::new();
        let name = match &e.name {
            Some(n) => n.as_str(),
            None => empty.as_str(),
        };
        let r = chars_of(e.relation);
        let nc = chars_of(name);
        if is_text(&r, "contains") {
            match &e.target_id {
                Some(t) => Some(t.clone()),
                None => None,
            }
        } else if is_text(&r, "imports") {
            if text::starts_with(&nc, ".") {
                return Some(kept(paths::resolve_relative(&e.source, name, &self.files), name));
            }
            let last = string_of(scan::behind_last(&nc, '\\'));
            match self.unique(nodes, &last, Ghost(es)) {
                Some(i) => {
                    assert(ns[i as int] == nodes@[i as int]@);
                    Some(nodes[i].path.clone())
                },
                None => Some(name.to_string()),
            }
        } else if is_text(&r, "extends") || is_text(&r, "implements") || is_text(&r, "covers") || is_text(
            &r,
            "routes-to",
        ) || is_text(&r, "relates-to") || is_text(&r, "depends-on") || is_text(&r, "instantiates") || is_text(
            &r,
            "uses-const",
        ) || is_text(&r, "schedules") {
            Some(kept(self.resolve_named(nodes, edges, &e.source, name), name))
        } else if is_text(&r, "serves") {
            // A Dolibarr API route names the implementing method node directly (an
            // exact id); an attribute route names the controller class.
            if self.ids.contains(name) {
                return Some(name.to_string());
            }
            Some(kept(self.resolve_named(nodes, edges, &e.source, name), name))
        } else if is_text(&r, "export-ignores") {
            // The path it names: a source file node, a `path` node when the target
            // exists, else kept raw -- so `missing` flags it as a stale entry.
            Some(name.to_string())
        } else if is_text(&r, "configures") {
            // A phpcs sniff file (an in-repo path) resolves directly; a phpstan rule
            // class resolves by unique bare name; anything else is kept raw.
            if self.files.contains(name) {
                return Some(name.to_string());
            }
            Some(kept(self.unique_of(nodes, name, Ghost(es)), name))
        } else if model::relation_kind(e.relation).is_some() {
            // A self-referential relation (`belongsTo(self::class)`) points back at
            // the model that declares it (the edge's own source).
            if is_text(&nc, "self") || is_text(&nc, "static") {
                return Some(e.source.clone());
            }
            Some(kept(self.resolve_named(nodes, edges, &e.source, name), name))
        } else if let Some(prefix) = prefix_of(&r) {
            Some(join2(prefix, name))
        } else if is_text(&r, "renders") {
            Some(kept(paths::match_component_file(name, &self.files), name))
        } else if is_text(&r, "requires") {
            Some(kept(paths::resolve_relative(&e.source, name, &self.files), name))
        } else if is_text(&r, "returns") {
            // A file-scope `return` marker (config/manifest file) -> the file itself,
            // so `missing` can tell "returns a value" from "empty/broken".
            Some(e.source.clone())
        } else if is_text(&r, "dol-requires") {
            Some(paths::resolve_dol_path(name, &self.files))
        } else if is_text(&r, "uses-fn") {
            // Only if it was actually registered (drops built-ins, filters, keywords).
            let id = join2("twigfn:", name);
            if self.ids.contains(&id) {
                Some(id)
            } else {
                None
            }
        } else if is_text(&r, "uses-pipe") {
            let id = join2("pipe:", name);
            if self.ids.contains(&id) {
                Some(id)
            } else {
                None
            }
        } else if is_text(&r, "calls") {
            self.resolve_call(nodes, edges, e, name)
        } else if is_text(&r, "includes") {
            Some(kept(paths::resolve_view(name, &self.files, &self.paths), name))
        } else {
            None
        }
    }
}

// ---------------------------------------------------------------------------
// The resolved graph

/// The resolved form of the first `k` edges: each with its target, without
/// those that are dropped, and each source, target and relation once.
pub open spec fn resolved_upto(nodes: Seq<NodeView>, edges: Seq<EdgeView>, k: int) -> Seq<ResolvedView>
    decreases k,
{
    if k <= 0 || k > edges.len() {
        Seq::empty()
    } else {
        let before = resolved_upto(nodes, edges, k - 1);
        match target(nodes, edges, edges[k - 1]) {
            Some(t) => {
                let r = ResolvedView { source: edges[k - 1].source, target: t, relation: edges[k - 1].relation };
                if before.contains(r) {
                    before
                } else {
                    before.push(r)
                }
            },
            None => before,
        }
    }
}

/// The resolved edges of a graph.
pub open spec fn resolved(nodes: Seq<NodeView>, edges: Seq<EdgeView>) -> Seq<ResolvedView> {
    resolved_upto(nodes, edges, edges.len() as int)
}

/// The text under which a resolved edge is looked for.
pub open spec fn dedup_key(e: ResolvedView) -> Option<Seq<char>> {
    Some(e.source + e.target)
}

pub open spec fn dedup_keys(edges: Seq<ResolvedView>) -> Seq<Option<Seq<char>>> {
    edges.map_values(|e: ResolvedView| dedup_key(e))
}

/// Whether the edges hold one with this source, target and relation.
fn is_known(edges: &[ResolvedEdge], index: &Buckets, source: &str, target: &str, relation: &str) -> (r: bool)
    requires
        index.wf(),
        index@ == dedup_keys(seqs::views(edges@)),
    ensures
        r == seqs::views(edges@).contains(
            (ResolvedView { source: source@, target: target@, relation: relation@ }),
        ),
{
    let key = join2(source, target);
    let found = index.get(&key);
    let ghost es = seqs::views(edges@);
    let ghost want = ResolvedView { source: source@, target: target@, relation: relation@ };
    let ghost b = buckets::bucket(dedup_keys(es), key@);
    let s = chars_of(source);
    let t = chars_of(target);
    let rel = chars_of(relation);
    let mut k: usize = 0;
    while k < found.len()
        invariant
            k <= found@.len(),
            s@ == source@,
            t@ == target@,
            rel@ == relation@,
            es == seqs::views(edges@),
            b == text::ints(found@),
            want == (ResolvedView { source: source@, target: target@, relation: relation@ }),
            forall|j: int| 0 <= j < found@.len() ==> (#[trigger] found@[j]) < edges@.len(),
            forall|j: int| 0 <= j < k ==> es[#[trigger] b[j]] != want,
        decreases found@.len() - k,
    {
        let e = &edges[found[k]];
        assert(b[k as int] == found@[k as int]);
        assert(es[found@[k as int] as int] == e@);
        if is_text(&s, &e.source) && is_text(&t, &e.target) && is_text(&rel, e.relation) {
            assert(es[found@[k as int] as int] == want);
            return true;
        }
        k += 1;
    }
    proof {
        if es.contains(want) {
            let i = choose|i: int| 0 <= i < es.len() && es[i] == want;
            buckets::lemma_bucket(dedup_keys(es), key@);
            assert(dedup_keys(es)[i] == Some(key@));
            let j = choose|j: int| 0 <= j < b.len() && b[j] == i;
            assert(es[b[j]] == want);
        }
    }
    false
}

/// Resolve every raw edge to a deduplicated `ResolvedEdge` list.
pub fn resolve(nodes: &[Node], edges: &[RawEdge]) -> (r: Vec<ResolvedEdge>)
    ensures
        seqs::views(r@) == resolved(seqs::views(nodes@), seqs::views(edges@)),
{
    let idx = Index::build(nodes, edges);
    let ghost ns = seqs::views(nodes@);
    let ghost es = seqs::views(edges@);
    let mut out: Vec<ResolvedEdge> = Vec::new();
    let mut known = Buckets::new();
    assert(dedup_keys(seqs::views(out@)) =~= Seq::<Option<Seq<char>>>::empty());
    let mut k: usize = 0;
    while k < edges.len()
        invariant
            k <= edges@.len(),
            ns == seqs::views(nodes@),
            es == seqs::views(edges@),
            idx.of(ns, es),
            known.wf(),
            known@ == dedup_keys(seqs::views(out@)),
            out@.len() <= k,
            seqs::views(out@) == resolved_upto(ns, es, k as int),
        decreases edges@.len() - k,
    {
        let e = &edges[k];
        assert(es[k as int] == e@);
        if let Some(t) = idx.target_of(nodes, edges, e) {
            if !is_known(&out, &known, &e.source, &t, e.relation) {
                let ghost before = seqs::views(out@);
                known.push(Some(join2(&e.source, &t)));
                out.push(ResolvedEdge { source: e.source.clone(), target: t, relation: e.relation });
                assert(dedup_keys(seqs::views(out@)) =~= dedup_keys(before).push(
                    dedup_key(seqs::views(out@).last()),
                ));
            }
        }
        k += 1;
    }
    out
}

// ---------------------------------------------------------------------------
// Laws

/// What edge `i` resolves to.
pub open spec fn resolved_edge(nodes: Seq<NodeView>, edges: Seq<EdgeView>, i: int) -> Option<ResolvedView> {
    match target(nodes, edges, edges[i]) {
        Some(t) => Some(
            ResolvedView { source: edges[i].source, target: t, relation: edges[i].relation },
        ),
        None => None,
    }
}

proof fn lemma_upto(nodes: Seq<NodeView>, edges: Seq<EdgeView>, k: int)
    requires
        0 <= k <= edges.len(),
    ensures
        resolved_upto(nodes, edges, k).no_duplicates(),
        forall|r: ResolvedView|
            resolved_upto(nodes, edges, k).contains(r) <==> exists|i: int|
                0 <= i < k && #[trigger] resolved_edge(nodes, edges, i) == Some(r),
    decreases k,
{
    let now = resolved_upto(nodes, edges, k);
    if k > 0 {
        lemma_upto(nodes, edges, k - 1);
        let before = resolved_upto(nodes, edges, k - 1);
        assert forall|r: ResolvedView| now.contains(r) <==> exists|i: int|
            0 <= i < k && #[trigger] resolved_edge(nodes, edges, i) == Some(r) by {
            if now.contains(r) {
                let j = choose|j: int| 0 <= j < now.len() && now[j] == r;
                if j < before.len() {
                    assert(before[j] == r);
                    assert(before.contains(r));
                } else {
                    assert(resolved_edge(nodes, edges, k - 1) == Some(r));
                }
            }
            if exists|i: int| 0 <= i < k && #[trigger] resolved_edge(nodes, edges, i) == Some(r) {
                let i = choose|i: int| 0 <= i < k && #[trigger] resolved_edge(nodes, edges, i) == Some(r);
                if i < k - 1 {
                    assert(before.contains(r));
                    let j = choose|j: int| 0 <= j < before.len() && before[j] == r;
                    assert(now[j] == r);
                } else if !before.contains(r) {
                    assert(now[before.len() as int] == r);
                }
            }
        }
    }
}

/// No source, target and relation is resolved twice.
pub proof fn resolved_edges_are_distinct(nodes: Seq<NodeView>, edges: Seq<EdgeView>)
    ensures
        resolved(nodes, edges).no_duplicates(),
{
    lemma_upto(nodes, edges, edges.len() as int);
}

/// The resolved edges are exactly what the raw edges resolve to: none is lost,
/// and none is made up.
pub proof fn resolved_edges_are_the_raw_edges(nodes: Seq<NodeView>, edges: Seq<EdgeView>, r: ResolvedView)
    ensures
        resolved(nodes, edges).contains(r) <==> exists|i: int|
            0 <= i < edges.len() && #[trigger] resolved_edge(nodes, edges, i) == Some(r),
{
    lemma_upto(nodes, edges, edges.len() as int);
}

/// A `contains` edge passes through to the id it carries.
pub proof fn contains_edges_pass_through(
    nodes: Seq<NodeView>,
    edges: Seq<EdgeView>,
    i: int,
    source: Seq<char>,
    id: Seq<char>,
)
    requires
        0 <= i < edges.len(),
        edges[i] == model::contains_edge(source, id),
    ensures
        resolved(nodes, edges).contains(
            (ResolvedView { source, target: id, relation: "contains"@ }),
        ),
{
    lemma_upto(nodes, edges, edges.len() as int);
    assert(resolved_edge(nodes, edges, i) == Some(
        ResolvedView { source, target: id, relation: "contains"@ },
    ));
}

/// Heritage to a name that no node carries keeps that name.
pub proof fn unknown_heritage_keeps_its_name(
    nodes: Seq<NodeView>,
    edges: Seq<EdgeView>,
    i: int,
    source: Seq<char>,
    name: Seq<char>,
)
    requires
        0 <= i < edges.len(),
        edges[i] == model::named_edge(source, "extends"@, name) || edges[i] == model::named_edge(
            source,
            "implements"@,
            name,
        ),
        forall|j: int| 0 <= j < nodes.len() ==> (#[trigger] nodes[j]).name != name,
    ensures
        resolved(nodes, edges).contains(
            (ResolvedView { source, target: name, relation: edges[i].relation }),
        ),
{
    lemma_upto(nodes, edges, edges.len() as int);
    let keys = name_keys(nodes);
    let b = buckets::bucket(keys, name);
    buckets::lemma_bucket(keys, name);
    if b.len() > 0 {
        assert(keys[b[0]] == Some(name));
        assert(nodes[b[0]].name == name);
    }
    reveal_strlit("extends");
    reveal_strlit("implements");
    reveal_strlit("contains");
    reveal_strlit("imports");
    assert("extends"@[0] != "imports"@[0]);
    assert("implements"@.len() != "imports"@.len());
    assert("contains"@[0] != "extends"@[0]);
    assert("contains"@[0] != "implements"@[0]);
    assert(resolved_edge(nodes, edges, i) == Some(
        ResolvedView { source, target: name, relation: edges[i].relation },
    ));
}

/// A relation to a class reaches the only node of that name: a class that is only
/// ever constructed, read through its constants or scheduled is referred to, as one
/// that is extended is.
pub proof fn class_references_reach_their_class(
    nodes: Seq<NodeView>,
    edges: Seq<EdgeView>,
    i: int,
    k: int,
    source: Seq<char>,
    relation: Seq<char>,
)
    requires
        0 <= i < edges.len(),
        0 <= k < nodes.len(),
        names_class(relation),
        edges[i] == model::named_edge(source, relation, nodes[k].name),
        name_key(nodes[k]) is Some,
        forall|j: int| 0 <= j < nodes.len() && j != k ==> name_key(#[trigger] nodes[j]) != name_key(nodes[k]),
    ensures
        resolved(nodes, edges).contains((ResolvedView { source, target: nodes[k].id, relation })),
{
    lemma_upto(nodes, edges, edges.len() as int);
    lemma_tags();
    let name = nodes[k].name;
    let keys = name_keys(nodes);
    let b = buckets::bucket(keys, name);
    buckets::lemma_bucket(keys, name);
    buckets::lemma_bucket_increases(keys, name);
    assert(keys[k] == Some(name));
    let j = choose|j: int| 0 <= j < b.len() && b[j] == k;
    assert forall|m: int| 0 <= m < b.len() implies #[trigger] b[m] == k by {
        assert(keys[b[m]] == Some(name));
        assert(name_key(nodes[b[m]]) == name_key(nodes[k]));
    }
    if b.len() > 1 {
        assert(b[0] < b[1]);
    }
    assert(b.len() == 1);
    assert(b[0] == k);
    assert(resolved_edge(nodes, edges, i) == Some(ResolvedView { source, target: nodes[k].id, relation }));
}

spec fn is_named_in(nodes: Seq<NodeView>, b: Seq<int>, method: Seq<char>, id: Seq<char>) -> bool {
    exists|j: int| 0 <= j < b.len() && nodes[#[trigger] b[j]].name == method && nodes[b[j]].id == id
}

proof fn lemma_methods(nodes: Seq<NodeView>, b: Seq<int>, k: int, method: Seq<char>)
    requires
        0 <= k,
    ensures
        forall|m: int|
            0 <= m < seqs::each_from(b, k, named_method(nodes, method)).len() ==> is_named_in(
                nodes,
                b,
                method,
                #[trigger] seqs::each_from(b, k, named_method(nodes, method))[m],
            ),
    decreases b.len() - k,
{
    let f = named_method(nodes, method);
    let all = seqs::each_from(b, k, f);
    if k < b.len() {
        lemma_methods(nodes, b, k + 1, method);
        let head = f(b[k]);
        let rest = seqs::each_from(b, k + 1, f);
        assert forall|m: int| 0 <= m < all.len() implies is_named_in(nodes, b, method, #[trigger] all[m]) by {
            if m < head.len() {
                assert(all[m] == head[m]);
                assert(nodes[b[k]].id == all[m]);
            } else {
                assert(all[m] == rest[m - head.len()]);
            }
        }
    }
}

/// `id` is the id of a method of this name.
pub open spec fn is_method(nodes: Seq<NodeView>, id: Seq<char>, name: Seq<char>) -> bool {
    exists|i: int|
        0 <= i < nodes.len() && (#[trigger] nodes[i]).kind == "method"@ && nodes[i].name == name && nodes[i].id
            == id
}

proof fn lemma_own_method(nodes: Seq<NodeView>, class: Seq<char>, method: Seq<char>)
    ensures
        own_method(nodes, class, method) matches Some(id) ==> is_method(nodes, id, method) || is_method(
            nodes,
            id,
            scoped(method),
        ),
{
    let keys = owner_keys(nodes);
    let b = buckets::bucket(keys, class);
    buckets::lemma_bucket(keys, class);
    lemma_methods(nodes, b, 0, method);
    lemma_methods(nodes, b, 0, scoped(method));
    assert forall|j: int| 0 <= j < b.len() implies nodes[#[trigger] b[j]].kind == "method"@ by {
        assert(keys[b[j]] == Some(class));
    }
    if let Some(id) = own_method(nodes, class, method) {
        let name = if methods(nodes, class, method).len() == 1 {
            method
        } else {
            scoped(method)
        };
        let found = seqs::each_from(b, 0, named_method(nodes, name));
        assert(id == found[0]);
        assert(is_named_in(nodes, b, name, found[0]));
        let j = choose|j: int|
            0 <= j < b.len() && nodes[#[trigger] b[j]].name == name && nodes[b[j]].id == found[0];
        assert(nodes[b[j]].kind == "method"@);
        assert(is_method(nodes, id, name));
    }
}

proof fn lemma_first_own(nodes: Seq<NodeView>, classes: Seq<Seq<char>>, k: int, method: Seq<char>)
    requires
        k >= 0,
    ensures
        seqs::first_from(classes, k, own_method_of(nodes, method)) matches Some(id) ==> is_method(
            nodes,
            id,
            method,
        ) || is_method(nodes, id, scoped(method)),
    decreases classes.len() - k,
{
    if k < classes.len() {
        lemma_own_method(nodes, classes[k], method);
        lemma_first_own(nodes, classes, k + 1, method);
    }
}

/// A call on a receiver is never renamed blindly: it resolves to a method of
/// the called name, or to the Laravel scope of that name, and that method exists.
pub proof fn member_calls_reach_existing_methods(
    nodes: Seq<NodeView>,
    edges: Seq<EdgeView>,
    recv: Seq<char>,
    method: Seq<char>,
)
    ensures
        member(nodes, edges, recv, method) matches Some(id) ==> is_method(nodes, id, method) || is_method(
            nodes,
            id,
            scoped(method),
        ),
{
    lemma_first_own(nodes, ancestry(edges, seq![recv], Set::empty()), 0, method);
}

// ---------------------------------------------------------------------------
// Telling relations apart

/// A number that differs between any two relations.
#[verifier::opaque]
spec fn tag(s: Seq<char>) -> int {
    s.len() * 1000000 + s[0] as int * 10000 + s[2] as int * 100 + s.last() as int
}

proof fn lemma_tags_of_classes()
    ensures
        tag("contains"@) == 9001115,
        tag("imports"@) == 8061315,
        tag("extends"@) == 8021715,
        tag("implements"@) == 11061315,
        tag("covers"@) == 7001915,
        tag("routes-to"@) == 10151811,
        tag("relates-to"@) == 11150911,
        tag("depends-on"@) == 11011310,
        tag("serves"@) == 7161515,
        tag("export-ignores"@) == 15021315,
        tag("configures"@) == 11001115,
        tag("instantiates"@) == 13061615,
        tag("uses-const"@) == 11180216,
        tag("schedules"@) == 10160515,
{
    reveal(tag);
    reveal_strlit("contains");
    reveal_strlit("imports");
    reveal_strlit("extends");
    reveal_strlit("implements");
    reveal_strlit("covers");
    reveal_strlit("routes-to");
    reveal_strlit("relates-to");
    reveal_strlit("depends-on");
    reveal_strlit("serves");
    reveal_strlit("export-ignores");
    reveal_strlit("configures");
    reveal_strlit("instantiates");
    reveal_strlit("uses-const");
    reveal_strlit("schedules");
}

proof fn lemma_tags_of_models()
    ensures
        tag("belongsTo"@) == 9990911,
        tag("hasMany"@) == 8051621,
        tag("hasOne"@) == 7051601,
        tag("belongsToMany"@) == 13990921,
        tag("morphTo"@) == 8101511,
        tag("morphMany"@) == 10101521,
        tag("morphOne"@) == 9101501,
        tag("morphToMany"@) == 12101521,
        tag("morphedByMany"@) == 14101521,
        tag("hasManyThrough"@) == 15051604,
        tag("hasOneThrough"@) == 14051604,
{
    reveal(tag);
    reveal_strlit("belongsTo");
    reveal_strlit("hasMany");
    reveal_strlit("hasOne");
    reveal_strlit("belongsToMany");
    reveal_strlit("morphTo");
    reveal_strlit("morphMany");
    reveal_strlit("morphOne");
    reveal_strlit("morphToMany");
    reveal_strlit("morphedByMany");
    reveal_strlit("hasManyThrough");
    reveal_strlit("hasOneThrough");
}

proof fn lemma_tags_of_joins()
    ensures
        tag("table"@) == 6169901,
        tag("migrates"@) == 9100415,
        tag("uses-table"@) == 11180201,
        tag("visits"@) == 7191615,
        tag("checks-permission"@) == 18000210,
        tag("raises-trigger"@) == 15150614,
        tag("handles-trigger"@) == 16051114,
        tag("fires-hook"@) == 11031507,
        tag("handles-hook"@) == 13051107,
        tag("declares-module"@) == 16010001,
        tag("requires-role"@) == 14151401,
        tag("defines-fn"@) == 11010310,
        tag("defines-pipe"@) == 13010301,
{
    reveal(tag);
    reveal_strlit("table");
    reveal_strlit("migrates");
    reveal_strlit("uses-table");
    reveal_strlit("visits");
    reveal_strlit("checks-permission");
    reveal_strlit("raises-trigger");
    reveal_strlit("handles-trigger");
    reveal_strlit("fires-hook");
    reveal_strlit("handles-hook");
    reveal_strlit("declares-module");
    reveal_strlit("requires-role");
    reveal_strlit("defines-fn");
    reveal_strlit("defines-pipe");
}

proof fn lemma_tags_of_files()
    ensures
        tag("renders"@) == 8151115,
        tag("requires"@) == 9151415,
        tag("returns"@) == 8151715,
        tag("dol-requires"@) == 13010915,
        tag("uses-fn"@) == 8180210,
        tag("uses-pipe"@) == 10180201,
        tag("calls"@) == 6000915,
        tag("includes"@) == 9060015,
        tag("uses-lang"@) == 10180203,
{
    reveal(tag);
    reveal_strlit("renders");
    reveal_strlit("requires");
    reveal_strlit("returns");
    reveal_strlit("dol-requires");
    reveal_strlit("uses-fn");
    reveal_strlit("uses-pipe");
    reveal_strlit("calls");
    reveal_strlit("includes");
    reveal_strlit("uses-lang");
}

proof fn lemma_tags()
    ensures
        tag("contains"@) == 9001115,
        tag("imports"@) == 8061315,
        tag("extends"@) == 8021715,
        tag("implements"@) == 11061315,
        tag("covers"@) == 7001915,
        tag("routes-to"@) == 10151811,
        tag("relates-to"@) == 11150911,
        tag("depends-on"@) == 11011310,
        tag("serves"@) == 7161515,
        tag("export-ignores"@) == 15021315,
        tag("configures"@) == 11001115,
        tag("instantiates"@) == 13061615,
        tag("uses-const"@) == 11180216,
        tag("schedules"@) == 10160515,
        tag("belongsTo"@) == 9990911,
        tag("hasMany"@) == 8051621,
        tag("hasOne"@) == 7051601,
        tag("belongsToMany"@) == 13990921,
        tag("morphTo"@) == 8101511,
        tag("morphMany"@) == 10101521,
        tag("morphOne"@) == 9101501,
        tag("morphToMany"@) == 12101521,
        tag("morphedByMany"@) == 14101521,
        tag("hasManyThrough"@) == 15051604,
        tag("hasOneThrough"@) == 14051604,
        tag("table"@) == 6169901,
        tag("migrates"@) == 9100415,
        tag("uses-table"@) == 11180201,
        tag("visits"@) == 7191615,
        tag("checks-permission"@) == 18000210,
        tag("raises-trigger"@) == 15150614,
        tag("handles-trigger"@) == 16051114,
        tag("fires-hook"@) == 11031507,
        tag("handles-hook"@) == 13051107,
        tag("declares-module"@) == 16010001,
        tag("requires-role"@) == 14151401,
        tag("defines-fn"@) == 11010310,
        tag("defines-pipe"@) == 13010301,
        tag("renders"@) == 8151115,
        tag("requires"@) == 9151415,
        tag("returns"@) == 8151715,
        tag("dol-requires"@) == 13010915,
        tag("uses-fn"@) == 8180210,
        tag("uses-pipe"@) == 10180201,
        tag("calls"@) == 6000915,
        tag("includes"@) == 9060015,
        tag("uses-lang"@) == 10180203,
{
    lemma_tags_of_classes();
    lemma_tags_of_models();
    lemma_tags_of_joins();
    lemma_tags_of_files();
}

proof fn lemma_relation_tags(r: Seq<char>)
    requires
        model::is_relation(r),
    ensures
        tag(r) == 9990911
            || tag(r) == 8051621
            || tag(r) == 7051601
            || tag(r) == 13990921
            || tag(r) == 8101511
            || tag(r) == 10101521
            || tag(r) == 9101501
            || tag(r) == 12101521
            || tag(r) == 14101521
            || tag(r) == 15051604
            || tag(r) == 14051604,
{
    lemma_tags();
    let all = model::relation_names();
    let k = choose|k: int| 0 <= k < all.len() && all[k] == r;
    assert(all.len() == 11);
}

/// A relation to a join node (a table, a route, a hook, ...) resolves to the node of
/// that name, so whoever names it is joined there.
pub proof fn joined_names_meet(
    nodes: Seq<NodeView>,
    edges: Seq<EdgeView>,
    i: int,
    source: Seq<char>,
    relation: Seq<char>,
    name: Seq<char>,
)
    requires
        0 <= i < edges.len(),
        edges[i] == model::named_edge(source, relation, name),
        join_prefix(relation) is Some,
    ensures
        resolved(nodes, edges).contains(
            (ResolvedView { source, target: join_prefix(relation)->0 + name, relation }),
        ),
{
    lemma_upto(nodes, edges, edges.len() as int);
    lemma_tags();
    if model::is_relation(relation) {
        lemma_relation_tags(relation);
    }
    assert(target(nodes, edges, edges[i]) == Some(join_prefix(relation)->0 + name));
    assert(resolved_edge(nodes, edges, i) == Some(
        ResolvedView { source, target: join_prefix(relation)->0 + name, relation },
    ));
}

proof fn lemma_sole_is_id(nodes: Seq<NodeView>, keys: Seq<Option<Seq<char>>>, key: Seq<char>)
    requires
        keys.len() == nodes.len(),
    ensures
        sole(buckets::bucket(keys, key)) matches Some(i) ==> model::is_id(nodes, nodes[i].id),
{
    buckets::lemma_bucket(keys, key);
    if let Some(i) = sole(buckets::bucket(keys, key)) {
        assert(buckets::bucket(keys, key)[0] == i);
        assert(nodes[i].id == nodes[i].id);
    }
}

proof fn lemma_method_is_id(nodes: Seq<NodeView>, id: Seq<char>, name: Seq<char>)
    requires
        is_method(nodes, id, name),
    ensures
        model::is_id(nodes, id),
{
    let i = choose|i: int|
        0 <= i < nodes.len() && (#[trigger] nodes[i]).kind == "method"@ && nodes[i].name == name && nodes[i].id
            == id;
    assert(nodes[i].id == id);
}

/// A call is never left dangling: it is resolved to a node of the graph, or dropped.
pub proof fn calls_reach_nodes(nodes: Seq<NodeView>, edges: Seq<EdgeView>, r: ResolvedView)
    requires
        resolved(nodes, edges).contains(r),
        r.relation == "calls"@,
    ensures
        model::is_id(nodes, r.target),
{
    lemma_upto(nodes, edges, edges.len() as int);
    lemma_tags();
    let i = choose|i: int| 0 <= i < edges.len() && #[trigger] resolved_edge(nodes, edges, i) == Some(r);
    let e = edges[i];
    let name = match e.name {
        Some(n) => n,
        None => Seq::empty(),
    };
    if model::is_relation(e.relation) {
        lemma_relation_tags(e.relation);
    }
    assert(target(nodes, edges, e) == call_target(nodes, edges, e, name));
    match e.recv_type {
        Some(recv) => {
            member_calls_reach_existing_methods(nodes, edges, recv, name);
            if is_method(nodes, r.target, name) {
                lemma_method_is_id(nodes, r.target, name);
            } else {
                lemma_method_is_id(nodes, r.target, scoped(name));
            }
        },
        None => {
            lemma_sole_is_id(nodes, method_keys(nodes), scoped(name));
            lemma_sole_is_id(nodes, name_keys(nodes), name);
        },
    }
}

/// A template's use of a function or pipe is kept only where some file defines it.
pub proof fn template_uses_reach_nodes(nodes: Seq<NodeView>, edges: Seq<EdgeView>, r: ResolvedView)
    requires
        resolved(nodes, edges).contains(r),
        r.relation == "uses-fn"@ || r.relation == "uses-pipe"@,
    ensures
        model::is_id(nodes, r.target),
{
    lemma_upto(nodes, edges, edges.len() as int);
    lemma_tags();
    let i = choose|i: int| 0 <= i < edges.len() && #[trigger] resolved_edge(nodes, edges, i) == Some(r);
    let e = edges[i];
    if model::is_relation(e.relation) {
        lemma_relation_tags(e.relation);
    }
    let ids = nodes.map_values(|n: NodeView| n.id);
    assert(node_ids(nodes).contains(r.target));
    let k = choose|k: int| 0 <= k < ids.len() && ids[k] == r.target;
    assert(nodes[k].id == r.target);
}

/// A translation key is never an edge of the graph.
pub proof fn translation_keys_stay_out(nodes: Seq<NodeView>, edges: Seq<EdgeView>, r: ResolvedView)
    requires
        resolved(nodes, edges).contains(r),
    ensures
        r.relation != "uses-lang"@,
{
    lemma_upto(nodes, edges, edges.len() as int);
    lemma_tags();
    let i = choose|i: int| 0 <= i < edges.len() && #[trigger] resolved_edge(nodes, edges, i) == Some(r);
    if model::is_relation(edges[i].relation) {
        lemma_relation_tags(edges[i].relation);
    }
}

/// A relative import, a page of a route, a required file and an included view each
/// resolve to a file of the graph, or keep the name as it is written.
pub proof fn file_references_reach_files(
    nodes: Seq<NodeView>,
    edges: Seq<EdgeView>,
    i: int,
    source: Seq<char>,
    relation: Seq<char>,
    name: Seq<char>,
)
    requires
        0 <= i < edges.len(),
        edges[i] == model::named_edge(source, relation, name),
        relation == "renders"@ || relation == "requires"@ || relation == "includes"@ || (relation == "imports"@
            && text::starts(name, "."@)),
    ensures
        resolved_edge(nodes, edges, i) matches Some(r) && (file_paths(nodes).contains(r.target) || r.target
            == name),
{
    lemma_tags();
    if model::is_relation(relation) {
        lemma_relation_tags(relation);
    }
    let files = file_paths(nodes);
    paths::resolved_paths_are_files(source, name, files);
}

/// A method that the receiver's class declares is the one that is called.
pub proof fn the_receivers_own_method_wins(
    nodes: Seq<NodeView>,
    edges: Seq<EdgeView>,
    recv: Seq<char>,
    method: Seq<char>,
)
    requires
        own_method(nodes, recv, method) is Some,
    ensures
        member(nodes, edges, recv, method) == own_method(nodes, recv, method),
{
    let up = ancestry(edges, seq![recv], Set::empty());
    assert(seq![recv].first() == recv);
    assert(up[0] == recv);
}

/// A method that the receiver's class does not declare is looked for in its parent.
pub proof fn an_inherited_method_is_reached(
    nodes: Seq<NodeView>,
    edges: Seq<EdgeView>,
    recv: Seq<char>,
    parent: Seq<char>,
    method: Seq<char>,
)
    requires
        own_method(nodes, recv, method) is None,
        parents_of(edges, recv).len() > 0,
        parents_of(edges, recv)[0] == parent,
        own_method(nodes, parent, method) is Some,
    ensures
        member(nodes, edges, recv, method) == own_method(nodes, parent, method),
{
    let seen = Set::<Seq<char>>::empty().insert(recv);
    let todo = parents_of(edges, recv) + seq![recv].drop_first();
    let up = ancestry(edges, seq![recv], Set::empty());
    assert(seq![recv].first() == recv);
    assert(todo.first() == parent);
    assert(parent != recv);
    assert(ancestry(edges, todo, seen)[0] == parent);
    assert(up == seq![recv] + ancestry(edges, todo, seen));
    assert(up[0] == recv);
    assert(up[1] == parent);
    let f = own_method_of(nodes, method);
    assert(seqs::first_from(up, 1, f) == f(up[1]));
}

// ---------------------------------------------------------------------------
// Edges that are told twice

/// The elements of a list that are not in `seen`, each where it stands first.
spec fn firsts(s: Seq<Seq<char>>, seen: Set<Seq<char>>) -> Seq<Seq<char>>
    decreases s.len(),
{
    if s.len() == 0 {
        Seq::empty()
    } else if seen.contains(s.first()) {
        firsts(s.drop_first(), seen)
    } else {
        seq![s.first()] + firsts(s.drop_first(), seen.insert(s.first()))
    }
}

proof fn lemma_firsts_add(a: Seq<Seq<char>>, b: Seq<Seq<char>>, seen: Set<Seq<char>>)
    ensures
        firsts(a + b, seen) == firsts(a, seen) + firsts(b, seen.union(a.to_set())),
    decreases a.len(),
{
    if a.len() == 0 {
        assert(a + b =~= b);
        assert(seen.union(a.to_set()) =~= seen);
        assert(firsts(a, seen) + firsts(b, seen) =~= firsts(b, seen));
    } else {
        let x = a.first();
        let rest = a.drop_first();
        assert(a.to_set() =~= rest.to_set().insert(x)) by {
            assert(a =~= seq![x] + rest);
            assert forall|y: Seq<char>| rest.to_set().insert(x).contains(y) implies a.to_set().contains(y) by {
                if y == x {
                    assert(a[0] == y);
                } else {
                    let i = choose|i: int| 0 <= i < rest.len() && rest[i] == y;
                    assert(a[i + 1] == y);
                }
            }
            assert forall|y: Seq<char>| a.to_set().contains(y) implies rest.to_set().insert(x).contains(y) by {
                let i = choose|i: int| 0 <= i < a.len() && a[i] == y;
                if i > 0 {
                    assert(rest[i - 1] == y);
                }
            }
        }
        assert((a + b).first() == x);
        assert((a + b).drop_first() =~= rest + b);
        if seen.contains(x) {
            lemma_firsts_add(rest, b, seen);
            assert(seen.union(rest.to_set()) =~= seen.union(a.to_set()));
        } else {
            lemma_firsts_add(rest, b, seen.insert(x));
            assert(seen.insert(x).union(rest.to_set()) =~= seen.union(a.to_set()));
        }
    }
}

proof fn lemma_firsts_more(b: Seq<Seq<char>>, seen: Set<Seq<char>>, more: Set<Seq<char>>)
    ensures
        firsts(b, seen.union(more)) == firsts(firsts(b, seen), more),
    decreases b.len(),
{
    if b.len() > 0 {
        let x = b.first();
        let rest = b.drop_first();
        if seen.contains(x) {
            lemma_firsts_more(rest, seen, more);
        } else {
            let tail = firsts(rest, seen.insert(x));
            let all = firsts(b, seen);
            assert(all.first() == x);
            assert(all.drop_first() =~= tail);
            if more.contains(x) {
                lemma_firsts_more(rest, seen.insert(x), more);
                assert(seen.insert(x).union(more) =~= seen.union(more));
            } else {
                lemma_firsts_more(rest, seen.insert(x), more.insert(x));
                assert(seen.insert(x).union(more.insert(x)) =~= seen.union(more).insert(x));
            }
        }
    }
}

proof fn lemma_firsts_none(a: Seq<Seq<char>>, seen: Set<Seq<char>>)
    requires
        forall|i: int| 0 <= i < a.len() ==> seen.contains(#[trigger] a[i]),
    ensures
        firsts(a, seen) == Seq::<Seq<char>>::empty(),
    decreases a.len(),
{
    if a.len() > 0 {
        assert(seen.contains(a[0]));
        assert forall|i: int| 0 <= i < a.drop_first().len() implies seen.contains(
            #[trigger] a.drop_first()[i],
        ) by {
            assert(seen.contains(a[i + 1]));
        }
        lemma_firsts_none(a.drop_first(), seen);
    }
}

proof fn lemma_parents_twice(edges: Seq<EdgeView>, c: Seq<char>)
    ensures
        parents_of(edges + edges, c) == parents_of(edges, c) + parents_of(edges, c),
{
    let twice = edges + edges;
    let n = edges.len();
    let keys = child_keys(edges);
    let b = buckets::bucket(keys, c);
    assert(child_keys(twice) =~= keys + keys);
    buckets::lemma_bucket(keys, c);
    buckets::lemma_bucket_twice(keys, keys, c);
    let later = b.map_values(|i: int| i + keys.len());
    assert forall|j: int| 0 <= j < b.len() implies twice[#[trigger] later[j]] == edges[b[j]] by {
        assert(0 <= b[j] < keys.len());
    }
    assert forall|j: int| 0 <= j < b.len() implies twice[#[trigger] b[j]] == edges[b[j]] by {}
    assert(parents_of(twice, c) =~= parents_of(edges, c) + parents_of(edges, c));
}

proof fn lemma_ancestry_twice(
    edges: Seq<EdgeView>,
    todo: Seq<Seq<char>>,
    other: Seq<Seq<char>>,
    seen: Set<Seq<char>>,
)
    requires
        firsts(todo, seen) == firsts(other, seen),
    ensures
        ancestry(edges + edges, other, seen) == ancestry(edges, todo, seen),
    decreases unseen(edges, seen).len(), todo.len() + other.len(),
{
    if todo.len() > 0 && seen.contains(todo.first()) {
        lemma_ancestry_twice(edges, todo.drop_first(), other, seen);
    } else if other.len() > 0 && seen.contains(other.first()) {
        lemma_ancestry_twice(edges, todo, other.drop_first(), seen);
    } else if todo.len() == 0 || other.len() == 0 {
        assert(todo.len() == 0 && other.len() == 0);
    } else {
        let c = todo.first();
        let rest = todo.drop_first();
        let rest2 = other.drop_first();
        let now = seen.insert(c);
        let ps = parents_of(edges, c);
        let known = now.union(ps.to_set());
        assert(firsts(todo, seen)[0] == c);
        assert(firsts(other, seen)[0] == other.first());
        assert(other.first() == c);
        assert(firsts(rest, now) =~= firsts(todo, seen).drop_first());
        assert(firsts(rest2, now) =~= firsts(other, seen).drop_first());
        lemma_parents_twice(edges, c);
        lemma_unseen(edges, seen, c);
        lemma_firsts_add(ps, rest, now);
        lemma_firsts_add(ps + ps, rest2, now);
        lemma_firsts_add(ps, ps, now);
        lemma_firsts_none(ps, known);
        assert((ps + ps).to_set() =~= ps.to_set()) by {
            assert forall|y: Seq<char>| (ps + ps).to_set().contains(y) == ps.to_set().contains(y) by {
                if ps.to_set().contains(y) {
                    let i = choose|i: int| 0 <= i < ps.len() && ps[i] == y;
                    assert((ps + ps)[i] == y);
                }
                if (ps + ps).to_set().contains(y) {
                    let i = choose|i: int| 0 <= i < (ps + ps).len() && (ps + ps)[i] == y;
                    assert(ps[if i < ps.len() { i } else { i - ps.len() }] == y);
                }
            }
        }
        lemma_firsts_more(rest, now, ps.to_set());
        lemma_firsts_more(rest2, now, ps.to_set());
        assert(firsts(ps, now) + Seq::<Seq<char>>::empty() =~= firsts(ps, now));
        lemma_ancestry_twice(edges, ps + rest, (ps + ps) + rest2, now);
    }
}

proof fn lemma_last_use_early(
    edges: Seq<EdgeView>,
    uses: Seq<int>,
    more: Seq<int>,
    k: int,
    short: Seq<char>,
)
    requires
        0 <= k <= uses.len(),
        forall|j: int| 0 <= j < uses.len() ==> 0 <= #[trigger] uses[j] < edges.len(),
    ensures
        last_use(edges + edges, uses + more, k, short) == last_use(edges, uses, k, short),
    decreases k,
{
    if k > 0 {
        lemma_last_use_early(edges, uses, more, k - 1, short);
        assert((uses + more)[k - 1] == uses[k - 1]);
        assert((edges + edges)[uses[k - 1]] == edges[uses[k - 1]]);
    }
}

proof fn lemma_last_use_late(edges: Seq<EdgeView>, uses: Seq<int>, k: int, short: Seq<char>)
    requires
        0 <= k <= uses.len(),
        forall|j: int| 0 <= j < uses.len() ==> 0 <= #[trigger] uses[j] < edges.len(),
    ensures
        ({
            let twice = uses + uses.map_values(|i: int| i + edges.len());
            let late = last_use(edges + edges, twice, uses.len() + k, short);
            let once = last_use(edges, uses, k, short);
            if once is Some {
                late == once
            } else {
                late is None || late == last_use(edges + edges, twice, uses.len() as int, short)
            }
        }),
    decreases k,
{
    if k > 0 {
        let later = uses.map_values(|i: int| i + edges.len());
        lemma_last_use_late(edges, uses, k - 1, short);
        assert((uses + later)[uses.len() + k - 1] == later[k - 1]);
        assert(0 <= uses[k - 1] < edges.len());
        assert((edges + edges)[later[k - 1]] == edges[uses[k - 1]]);
    }
}

proof fn lemma_imported_twice(edges: Seq<EdgeView>, file: Seq<char>, short: Seq<char>)
    ensures
        imported(edges + edges, file, short) == imported(edges, file, short),
{
    let keys = use_keys(edges);
    let uses = buckets::bucket(keys, file);
    let later = uses.map_values(|i: int| i + edges.len());
    assert(use_keys(edges + edges) =~= keys + keys);
    buckets::lemma_bucket(keys, file);
    buckets::lemma_bucket_twice(keys, keys, file);
    assert(uses.map_values(|i: int| i + keys.len()) =~= later);
    assert(buckets::bucket(use_keys(edges + edges), file) == uses + later);
    lemma_last_use_early(edges, uses, later, uses.len() as int, short);
    lemma_last_use_late(edges, uses, uses.len() as int, short);
}

proof fn lemma_target_twice(nodes: Seq<NodeView>, edges: Seq<EdgeView>, e: EdgeView)
    ensures
        target(nodes, edges + edges, e) == target(nodes, edges, e),
{
    let name = match e.name {
        Some(n) => n,
        None => Seq::empty(),
    };
    lemma_imported_twice(edges, scan::first_part(e.source, '#'), name);
    assert(class_named(nodes, edges + edges, e.source, name) == class_named(nodes, edges, e.source, name));
    if let Some(recv) = e.recv_type {
        lemma_ancestry_twice(edges, seq![recv], seq![recv], Set::empty());
        assert(member(nodes, edges + edges, recv, name) == member(nodes, edges, recv, name));
    }
    assert(call_target(nodes, edges + edges, e, name) == call_target(nodes, edges, e, name));
}

proof fn lemma_upto_twice(nodes: Seq<NodeView>, edges: Seq<EdgeView>, k: int)
    requires
        0 <= k <= edges.len() + edges.len(),
    ensures
        resolved_upto(nodes, edges + edges, k) == resolved_upto(
            nodes,
            edges,
            if k < edges.len() {
                k
            } else {
                edges.len() as int
            },
        ),
    decreases k,
{
    let n = edges.len() as int;
    if k > 0 {
        lemma_upto_twice(nodes, edges, k - 1);
        let i = if k - 1 < n { k - 1 } else { k - 1 - n };
        let e = edges[i];
        assert((edges + edges)[k - 1] == e);
        lemma_target_twice(nodes, edges, e);
        if k > n {
            lemma_upto(nodes, edges, n);
            if let Some(t) = target(nodes, edges, e) {
                let r = ResolvedView { source: e.source, target: t, relation: e.relation };
                assert(resolved_edge(nodes, edges, i) == Some(r));
                assert(resolved_upto(nodes, edges, n).contains(r));
            }
        }
    }
}

/// Telling every raw edge once more changes nothing: neither the resolved edges nor
/// their order.
pub proof fn edges_told_twice_resolve_alike(nodes: Seq<NodeView>, edges: Seq<EdgeView>)
    ensures
        resolved(nodes, edges + edges) == resolved(nodes, edges),
{
    lemma_upto_twice(nodes, edges, (edges + edges).len() as int);
}

// ---------------------------------------------------------------------------
// Where each relation leads

/// The node goes by `name`: it is neither a method, nor a file, nor a path of a
/// `.gitattributes`.
pub open spec fn goes_by(n: NodeView, name: Seq<char>) -> bool {
    n.name == name && n.kind != "method"@ && n.kind != "file"@ && n.kind != "path"@
}

/// Node `k` is the only one that goes by `name`.
pub open spec fn is_only(nodes: Seq<NodeView>, k: int, name: Seq<char>) -> bool {
    &&& 0 <= k < nodes.len()
    &&& goes_by(nodes[k], name)
    &&& forall|j: int| 0 <= j < nodes.len() && j != k ==> !goes_by(#[trigger] nodes[j], name)
}

/// No node goes by `name`.
pub open spec fn is_unknown(nodes: Seq<NodeView>, name: Seq<char>) -> bool {
    forall|j: int| 0 <= j < nodes.len() ==> !goes_by(#[trigger] nodes[j], name)
}

/// Nodes `a` and `b` both go by `name`.
pub open spec fn are_several(nodes: Seq<NodeView>, a: int, b: int, name: Seq<char>) -> bool {
    0 <= a < b < nodes.len() && goes_by(nodes[a], name) && goes_by(nodes[b], name)
}

/// The path is that of a file of the tree.
pub open spec fn is_file(nodes: Seq<NodeView>, path: Seq<char>) -> bool {
    exists|j: int| 0 <= j < nodes.len() && (#[trigger] nodes[j]).kind == "file"@ && nodes[j].path == path
}

proof fn lemma_only(nodes: Seq<NodeView>, k: int, name: Seq<char>)
    requires
        is_only(nodes, k, name),
    ensures
        buckets::bucket(name_keys(nodes), name) == seq![k],
{
    let keys = name_keys(nodes);
    let b = buckets::bucket(keys, name);
    buckets::lemma_bucket(keys, name);
    buckets::lemma_bucket_increases(keys, name);
    assert(keys[k] == Some(name));
    assert(b.contains(k));
    let at = choose|j: int| 0 <= j < b.len() && b[j] == k;
    assert forall|m: int| 0 <= m < b.len() implies #[trigger] b[m] == k by {
        assert(keys[b[m]] == Some(name));
        assert(goes_by(nodes[b[m]], name));
    }
    if b.len() > 1 {
        assert(b[0] < b[1]);
    }
    assert(b =~= seq![k]);
}

proof fn lemma_unknown(nodes: Seq<NodeView>, name: Seq<char>)
    requires
        is_unknown(nodes, name),
    ensures
        buckets::bucket(name_keys(nodes), name) == Seq::<int>::empty(),
{
    let keys = name_keys(nodes);
    let b = buckets::bucket(keys, name);
    buckets::lemma_bucket(keys, name);
    if b.len() > 0 {
        assert(keys[b[0]] == Some(name));
        assert(goes_by(nodes[b[0]], name));
    }
    assert(b =~= Seq::<int>::empty());
}

proof fn lemma_several(nodes: Seq<NodeView>, a: int, b: int, name: Seq<char>)
    requires
        are_several(nodes, a, b, name),
    ensures
        buckets::bucket(name_keys(nodes), name).len() > 1,
{
    let keys = name_keys(nodes);
    let found = buckets::bucket(keys, name);
    buckets::lemma_bucket(keys, name);
    assert(keys[a] == Some(name) && keys[b] == Some(name));
    assert(found.contains(a) && found.contains(b));
    let x = choose|j: int| 0 <= j < found.len() && found[j] == a;
    let y = choose|j: int| 0 <= j < found.len() && found[j] == b;
    assert(x != y);
}

proof fn lemma_files(nodes: Seq<NodeView>, path: Seq<char>)
    ensures
        file_paths(nodes).contains(path) <==> is_file(nodes, path),
{
    let f = path_of();
    seqs::lemma_each(nodes, 0, f, path);
    if file_list(nodes).contains(path) {
        let j = choose|j: int| 0 <= j < nodes.len() && f(#[trigger] nodes[j]).contains(path);
        assert(nodes[j].kind == "file"@ && nodes[j].path == path);
    }
    if is_file(nodes, path) {
        let j = choose|j: int|
            0 <= j < nodes.len() && (#[trigger] nodes[j]).kind == "file"@ && nodes[j].path == path;
        assert(f(nodes[j])[0] == path);
    }
}

proof fn lemma_ids(nodes: Seq<NodeView>, id: Seq<char>)
    ensures
        node_ids(nodes).contains(id) <==> model::is_id(nodes, id),
{
    let ids = nodes.map_values(|n: NodeView| n.id);
    if ids.contains(id) {
        let k = choose|k: int| 0 <= k < ids.len() && ids[k] == id;
        assert(nodes[k].id == id);
    }
    if model::is_id(nodes, id) {
        let k = choose|k: int| 0 <= k < nodes.len() && (#[trigger] nodes[k]).id == id;
        assert(ids[k] == id);
    }
}

/// The text behind the last `c` of `a + c + b` is `b`, where `b` holds no `c`.
pub proof fn the_last_part_is_behind_the_last_mark(a: Seq<char>, b: Seq<char>, c: char)
    requires
        !b.contains(c),
    ensures
        scan::last_part(a + seq![c] + b, c) == b,
        scan::last_part(b, c) == b,
{
    let s = a + seq![c] + b;
    let k = CharSet::One(c);
    let i = text::seek_back(s, s.len() as int, k);
    assert(s[a.len() as int] == c);
    assert forall|j: int| a.len() < j < s.len() implies !k.has(#[trigger] s[j]) by {
        assert(s[j] == b[j - a.len() - 1]);
    }
    assert(i == a.len() + 1) by {
        if i <= a.len() {
            assert(!k.has(s[a.len() as int]));
        }
        if i > a.len() + 1 {
            assert(k.has(s[i - 1]));
        }
    }
    assert(s.subrange(i, s.len() as int) =~= b);
    let m = text::seek_back(b, b.len() as int, k);
    if m > 0 {
        assert(k.has(b[m - 1]));
    }
    assert(b.subrange(0, b.len() as int) =~= b);
}

/// The text before the first `c` of `a + c + b` is `a`, where `a` holds no `c`.
pub proof fn the_first_part_is_before_the_first_mark(a: Seq<char>, b: Seq<char>, c: char)
    requires
        !a.contains(c),
    ensures
        scan::first_part(a + seq![c] + b, c) == a,
        scan::first_part(a, c) == a,
{
    let s = a + seq![c] + b;
    let k = CharSet::One(c);
    let i = text::seek(s, 0, k);
    assert(s[a.len() as int] == c);
    assert forall|j: int| 0 <= j < a.len() implies !k.has(#[trigger] s[j]) by {
        assert(s[j] == a[j]);
    }
    assert(i == a.len()) by {
        if i < a.len() {
            assert(k.has(s[i]));
        }
        if i > a.len() {
            assert(!k.has(s[a.len() as int]));
        }
    }
    assert(s.subrange(0, i) =~= a);
    let m = text::seek(a, 0, k);
    if m < a.len() {
        assert(k.has(a[m]));
    }
    assert(a.subrange(0, a.len() as int) =~= a);
}

/// The directory of `d/f` is `d`, where `f` holds no `/`; that of `f` is empty.
pub proof fn the_directory_is_before_the_last_slash(d: Seq<char>, f: Seq<char>)
    requires
        !f.contains('/'),
    ensures
        scan::dir_part(d + seq!['/'] + f) == d,
        scan::dir_part(f) == Seq::<char>::empty(),
{
    let s = d + seq!['/'] + f;
    let k = CharSet::One('/');
    let i = text::seek_back(s, s.len() as int, k);
    assert(s[d.len() as int] == '/');
    assert forall|j: int| d.len() < j < s.len() implies !k.has(#[trigger] s[j]) by {
        assert(s[j] == f[j - d.len() - 1]);
    }
    assert(i == d.len() + 1) by {
        if i <= d.len() {
            assert(!k.has(s[d.len() as int]));
        }
        if i > d.len() + 1 {
            assert(k.has(s[i - 1]));
        }
    }
    assert(s.subrange(0, d.len() as int) =~= d);
    let m = text::seek_back(f, f.len() as int, k);
    if m > 0 {
        assert(k.has(f[m - 1]));
    }
}

proof fn lemma_symbol_part(path: Seq<char>, symbol: Seq<char>)
    requires
        !path.contains('#'),
        !symbol.contains('#'),
    ensures
        symbol_part(path + seq!['#'] + symbol) == Some(symbol),
        symbol_part(path) is None,
{
    let s = path + seq!['#'] + symbol;
    let k = CharSet::One('#');
    let i = text::seek(s, 0, k);
    assert(s[path.len() as int] == '#');
    assert forall|j: int| 0 <= j < path.len() implies !k.has(#[trigger] s[j]) by {
        assert(s[j] == path[j]);
    }
    assert(i == path.len()) by {
        if i < path.len() {
            assert(k.has(s[i]));
        }
        if i > path.len() {
            assert(!k.has(s[path.len() as int]));
        }
    }
    let e = text::seek(s, i + 1, k);
    if e < s.len() {
        assert(k.has(s[e]));
        assert(s[e] == symbol[e - i - 1]);
    }
    assert(s.subrange(i + 1, e) =~= symbol);
    let m = text::seek(path, 0, k);
    if m < path.len() {
        assert(k.has(path[m]));
    }
}

/// The class of the symbol `path#Class.method` and of `path#Class` is `Class`; a path
/// without a symbol has none.
pub proof fn the_class_stands_before_the_method(path: Seq<char>, class: Seq<char>, method: Seq<char>)
    requires
        !path.contains('#'),
        !class.contains('#'),
        !method.contains('#'),
        !method.contains('.'),
        !class.contains('.'),
    ensures
        class_part(path + seq!['#'] + (class + seq!['.'] + method)) == Some(class),
        class_part(path + seq!['#'] + class) == Some(class),
        class_part(path) is None,
{
    let s = class + seq!['.'] + method;
    let k = CharSet::One('.');
    assert forall|c: int| 0 <= c < s.len() implies #[trigger] s[c] != '#' by {
        if c < class.len() {
            assert(class.contains(class[c]));
        } else if c > class.len() {
            assert(method.contains(method[c - class.len() - 1]));
        }
    }
    lemma_symbol_part(path, s);
    lemma_symbol_part(path, class);
    let i = text::seek_back(s, s.len() as int, k);
    assert(s[class.len() as int] == '.');
    assert forall|j: int| class.len() < j < s.len() implies !k.has(#[trigger] s[j]) by {
        assert(s[j] == method[j - class.len() - 1]);
    }
    assert(i == class.len() + 1) by {
        if i <= class.len() {
            assert(!k.has(s[class.len() as int]));
        }
        if i > class.len() + 1 {
            assert(k.has(s[i - 1]));
        }
    }
    assert(s.subrange(0, class.len() as int) =~= class);
    let m = text::seek_back(class, class.len() as int, k);
    if m > 0 {
        assert(k.has(class[m - 1]));
    }
}

proof fn lemma_told(nodes: Seq<NodeView>, edges: Seq<EdgeView>, i: int, t: Seq<char>)
    requires
        0 <= i < edges.len(),
        target(nodes, edges, edges[i]) == Some(t),
    ensures
        resolved(nodes, edges).contains(
            (ResolvedView { source: edges[i].source, target: t, relation: edges[i].relation }),
        ),
{
    lemma_upto(nodes, edges, edges.len() as int);
    assert(resolved_edge(nodes, edges, i) == Some(
        ResolvedView { source: edges[i].source, target: t, relation: edges[i].relation },
    ));
}

proof fn lemma_upto_len(nodes: Seq<NodeView>, edges: Seq<EdgeView>, k: int)
    requires
        0 <= k <= edges.len(),
    ensures
        resolved_upto(nodes, edges, k).len() <= k,
    decreases k,
{
    if k > 0 {
        lemma_upto_len(nodes, edges, k - 1);
    }
}

/// Resolution makes nothing up: there are no more resolved edges than raw ones, and
/// each has the source and the relation of a raw one.
pub proof fn resolution_adds_no_edges(nodes: Seq<NodeView>, edges: Seq<EdgeView>)
    ensures
        resolved(nodes, edges).len() <= edges.len(),
        forall|r: ResolvedView| #[trigger]
            resolved(nodes, edges).contains(r) ==> exists|i: int|
                0 <= i < edges.len() && (#[trigger] edges[i]).source == r.source && edges[i].relation == r.relation,
{
    lemma_upto(nodes, edges, edges.len() as int);
    lemma_upto_len(nodes, edges, edges.len() as int);
    assert forall|r: ResolvedView| #[trigger] resolved(nodes, edges).contains(r) implies exists|i: int|
        0 <= i < edges.len() && (#[trigger] edges[i]).source == r.source && edges[i].relation == r.relation by {
        let i = choose|i: int| 0 <= i < edges.len() && #[trigger] resolved_edge(nodes, edges, i) == Some(r);
        assert(edges[i].source == r.source && edges[i].relation == r.relation);
    }
}

/// `use A\B\Name;` leads to the file of the only symbol that goes by `Name`; a name
/// that no symbol, or more than one, goes by is kept as it is written.
pub proof fn imports_reach_the_file_of_the_class(
    nodes: Seq<NodeView>,
    edges: Seq<EdgeView>,
    i: int,
    source: Seq<char>,
    space: Seq<char>,
    short: Seq<char>,
    qualified: bool,
)
    requires
        0 <= i < edges.len(),
        !short.contains('\\'),
        ({
            let name = if qualified { space + seq!['\\'] + short } else { short };
            edges[i] == model::named_edge(source, "imports"@, name) && (name.len() > 0 ==> name[0] != '.')
        }),
    ensures
        forall|k: int| #[trigger]
            is_only(nodes, k, short) ==> resolved(nodes, edges).contains(
                (ResolvedView { source, target: nodes[k].path, relation: "imports"@ }),
            ),
        is_unknown(nodes, short) ==> resolved(nodes, edges).contains(
            (ResolvedView { source, target: edges[i].name->0, relation: "imports"@ }),
        ),
        forall|a: int, b: int| #[trigger]
            are_several(nodes, a, b, short) ==> resolved(nodes, edges).contains(
                (ResolvedView { source, target: edges[i].name->0, relation: "imports"@ }),
            ),
{
    let name = edges[i].name->0;
    lemma_tags();
    reveal_strlit(".");
    the_last_part_is_behind_the_last_mark(space, short, '\\');
    assert(!text::starts(name, "."@)) by {
        if text::starts(name, "."@) {
            assert(name.subrange(0, 1)[0] == "."@[0]);
        }
    }
    assert forall|k: int| #[trigger] is_only(nodes, k, short) implies resolved(nodes, edges).contains(
        (ResolvedView { source, target: nodes[k].path, relation: "imports"@ }),
    ) by {
        lemma_only(nodes, k, short);
        lemma_told(nodes, edges, i, nodes[k].path);
    }
    if is_unknown(nodes, short) {
        lemma_unknown(nodes, short);
        lemma_told(nodes, edges, i, name);
    }
    assert forall|a: int, b: int| #[trigger] are_several(nodes, a, b, short) implies resolved(
        nodes,
        edges,
    ).contains((ResolvedView { source, target: name, relation: "imports"@ })) by {
        lemma_several(nodes, a, b, short);
        lemma_told(nodes, edges, i, name);
    }
}

/// The relation leads to a class: heritage, coverage, a route's controller, a relation
/// between modules, and what constructs, reads or schedules a class.
pub open spec fn leads_to_class(relation: Seq<char>) -> bool {
    ||| relation == "extends"@
    ||| relation == "implements"@
    ||| relation == "covers"@
    ||| relation == "routes-to"@
    ||| relation == "relates-to"@
    ||| relation == "depends-on"@
    ||| relation == "instantiates"@
    ||| relation == "uses-const"@
    ||| relation == "schedules"@
    ||| is_eloquent(relation)
}

/// The relation is one between Eloquent models.
pub open spec fn is_eloquent(relation: Seq<char>) -> bool {
    ||| relation == "belongsTo"@
    ||| relation == "hasMany"@
    ||| relation == "hasOne"@
    ||| relation == "belongsToMany"@
    ||| relation == "morphTo"@
    ||| relation == "morphMany"@
    ||| relation == "morphOne"@
    ||| relation == "morphToMany"@
    ||| relation == "morphedByMany"@
    ||| relation == "hasManyThrough"@
    ||| relation == "hasOneThrough"@
}

proof fn lemma_eloquent(relation: Seq<char>)
    ensures
        is_eloquent(relation) <==> model::is_relation(relation),
{
    let all = model::relation_names();
    assert(all.len() == 11);
    assert(all[0] == "belongsTo"@);
    assert(all[1] == "hasMany"@);
    assert(all[2] == "hasOne"@);
    assert(all[3] == "belongsToMany"@);
    assert(all[4] == "morphTo"@);
    assert(all[5] == "morphMany"@);
    assert(all[6] == "morphOne"@);
    assert(all[7] == "morphToMany"@);
    assert(all[8] == "morphedByMany"@);
    assert(all[9] == "hasManyThrough"@);
    assert(all[10] == "hasOneThrough"@);
    if model::is_relation(relation) {
        let k = choose|k: int| 0 <= k < all.len() && all[k] == relation;
        assert(all[k] == relation);
    }
}

/// What a class reference resolves to, where it is no `self` or `static` of a model.
proof fn lemma_class_reference(nodes: Seq<NodeView>, edges: Seq<EdgeView>, e: EdgeView)
    requires
        e.name is Some,
        leads_to_class(e.relation) || (e.relation == "serves"@ && !model::is_id(nodes, e.name->0)),
        is_eloquent(e.relation) ==> e.name->0 != "self"@ && e.name->0 != "static"@,
    ensures
        target(nodes, edges, e) == Some(
            or_name(class_named(nodes, edges, e.source, e.name->0), e.name->0),
        ),
{
    lemma_tags();
    lemma_eloquent(e.relation);
    lemma_ids(nodes, e.name->0);
    if model::is_relation(e.relation) {
        lemma_relation_tags(e.relation);
    }
}

/// A reference to a class leads to the only symbol that goes by its name, and keeps a
/// name that no symbol goes by. So does a route's controller that is named by its
/// class.
pub proof fn references_reach_the_class(
    nodes: Seq<NodeView>,
    edges: Seq<EdgeView>,
    i: int,
    source: Seq<char>,
    relation: Seq<char>,
    name: Seq<char>,
)
    requires
        0 <= i < edges.len(),
        edges[i] == model::named_edge(source, relation, name),
        leads_to_class(relation) || (relation == "serves"@ && !model::is_id(nodes, name)),
        is_eloquent(relation) ==> name != "self"@ && name != "static"@,
    ensures
        forall|k: int| #[trigger]
            is_only(nodes, k, name) ==> resolved(nodes, edges).contains(
                (ResolvedView { source, target: nodes[k].id, relation }),
            ),
        is_unknown(nodes, name) ==> resolved(nodes, edges).contains(
            (ResolvedView { source, target: name, relation }),
        ),
{
    lemma_class_reference(nodes, edges, edges[i]);
    assert forall|k: int| #[trigger] is_only(nodes, k, name) implies resolved(nodes, edges).contains(
        (ResolvedView { source, target: nodes[k].id, relation }),
    ) by {
        lemma_only(nodes, k, name);
        lemma_told(nodes, edges, i, nodes[k].id);
    }
    if is_unknown(nodes, name) {
        lemma_unknown(nodes, name);
        lemma_told(nodes, edges, i, name);
    }
}

/// An Eloquent relation to `self` or `static` leads back to the model.
pub proof fn a_model_relates_to_itself(
    nodes: Seq<NodeView>,
    edges: Seq<EdgeView>,
    i: int,
    source: Seq<char>,
    relation: Seq<char>,
    name: Seq<char>,
)
    requires
        0 <= i < edges.len(),
        edges[i] == model::named_edge(source, relation, name),
        is_eloquent(relation),
        name == "self"@ || name == "static"@,
    ensures
        resolved(nodes, edges).contains((ResolvedView { source, target: source, relation })),
{
    lemma_tags();
    lemma_eloquent(relation);
    lemma_relation_tags(relation);
    lemma_told(nodes, edges, i, source);
}

/// A join node is named by its kind and its name, whoever names it: the tables of
/// models, migrations and queries, the routes that scenarios open, the rights,
/// triggers, hooks, modules and roles of Dolibarr, and the functions and pipes that
/// templates use.
pub proof fn join_nodes_are_named_alike(
    nodes: Seq<NodeView>,
    edges: Seq<EdgeView>,
    i: int,
    source: Seq<char>,
    relation: Seq<char>,
    name: Seq<char>,
    prefix: Seq<char>,
)
    requires
        0 <= i < edges.len(),
        edges[i] == model::named_edge(source, relation, name),
        ({
            ||| prefix == "table:"@ && (relation == "table"@ || relation == "migrates"@ || relation == "uses-table"@)
            ||| prefix == "route:"@ && relation == "visits"@
            ||| prefix == "right:"@ && relation == "checks-permission"@
            ||| prefix == "trigger:"@ && (relation == "raises-trigger"@ || relation == "handles-trigger"@)
            ||| prefix == "hook:"@ && (relation == "fires-hook"@ || relation == "handles-hook"@)
            ||| prefix == "module:"@ && relation == "declares-module"@
            ||| prefix == "role:"@ && relation == "requires-role"@
            ||| prefix == "twigfn:"@ && relation == "defines-fn"@
            ||| prefix == "pipe:"@ && relation == "defines-pipe"@
        }),
    ensures
        resolved(nodes, edges).contains((ResolvedView { source, target: prefix + name, relation })),
{
    lemma_tags();
    assert(join_prefix(relation) == Some(prefix));
    joined_names_meet(nodes, edges, i, source, relation, name);
}

/// A template's use of a function or a pipe leads to the node under which it is
/// registered, and nowhere where it is not.
pub proof fn template_uses_reach_what_is_registered(
    nodes: Seq<NodeView>,
    edges: Seq<EdgeView>,
    i: int,
    source: Seq<char>,
    name: Seq<char>,
    pipe: bool,
)
    requires
        0 <= i < edges.len(),
        edges[i] == model::named_edge(source, if pipe { "uses-pipe"@ } else { "uses-fn"@ }, name),
    ensures
        ({
            let id = (if pipe { "pipe:"@ } else { "twigfn:"@ }) + name;
            if model::is_id(nodes, id) {
                resolved(nodes, edges).contains(
                    (ResolvedView { source, target: id, relation: edges[i].relation }),
                )
            } else {
                resolved(nodes, seq![edges[i]]) == Seq::<ResolvedView>::empty()
            }
        }),
{
    let id = (if pipe { "pipe:"@ } else { "twigfn:"@ }) + name;
    let one = seq![edges[i]];
    lemma_tags();
    lemma_eloquent(edges[i].relation);
    if model::is_relation(edges[i].relation) {
        lemma_relation_tags(edges[i].relation);
    }
    lemma_ids(nodes, id);
    if model::is_id(nodes, id) {
        lemma_told(nodes, edges, i, id);
    } else {
        assert(target(nodes, one, one[0]) is None);
        assert(resolved_upto(nodes, one, 0) == Seq::<ResolvedView>::empty());
        assert(resolved_upto(nodes, one, 1) == Seq::<ResolvedView>::empty());
    }
}

/// A route that names the id of a node leads to that node; a linter's entry that names
/// a file leads to that file, and one that names the only symbol of a name to that
/// symbol; a stale entry keeps its name. An ignored path is named as it is. The mark
/// of a file that returns a value leads to the file itself.
pub proof fn named_ids_and_paths_stay(
    nodes: Seq<NodeView>,
    edges: Seq<EdgeView>,
    i: int,
    source: Seq<char>,
    relation: Seq<char>,
    name: Seq<char>,
)
    requires
        0 <= i < edges.len(),
        edges[i] == model::named_edge(source, relation, name),
    ensures
        relation == "serves"@ && model::is_id(nodes, name) ==> resolved(nodes, edges).contains(
            (ResolvedView { source, target: name, relation }),
        ),
        relation == "configures"@ && is_file(nodes, name) ==> resolved(nodes, edges).contains(
            (ResolvedView { source, target: name, relation }),
        ),
        relation == "configures"@ && !is_file(nodes, name) ==> forall|k: int| #[trigger]
            is_only(nodes, k, name) ==> resolved(nodes, edges).contains(
                (ResolvedView { source, target: nodes[k].id, relation }),
            ),
        relation == "configures"@ && is_unknown(nodes, name) ==> resolved(nodes, edges).contains(
            (ResolvedView { source, target: name, relation }),
        ),
        relation == "export-ignores"@ ==> resolved(nodes, edges).contains(
            (ResolvedView { source, target: name, relation }),
        ),
        relation == "returns"@ ==> resolved(nodes, edges).contains(
            (ResolvedView { source, target: source, relation }),
        ),
{
    lemma_tags();
    lemma_files(nodes, name);
    lemma_ids(nodes, name);
    if model::is_relation(relation) {
        lemma_relation_tags(relation);
    }
    if relation == "serves"@ && model::is_id(nodes, name) {
        lemma_told(nodes, edges, i, name);
    }
    if relation == "configures"@ {
        if is_file(nodes, name) {
            lemma_told(nodes, edges, i, name);
        } else {
            assert forall|k: int| #[trigger] is_only(nodes, k, name) implies resolved(nodes, edges).contains(
                (ResolvedView { source, target: nodes[k].id, relation }),
            ) by {
                lemma_only(nodes, k, name);
                lemma_told(nodes, edges, i, nodes[k].id);
            }
            if is_unknown(nodes, name) {
                lemma_unknown(nodes, name);
                lemma_told(nodes, edges, i, name);
            }
        }
    }
    if relation == "export-ignores"@ {
        lemma_told(nodes, edges, i, name);
    }
    if relation == "returns"@ {
        lemma_told(nodes, edges, i, source);
    }
}

// ---------------------------------------------------------------------------
// Where calls lead

/// The node is a method of this name of the class.
pub open spec fn is_method_of(n: NodeView, class: Seq<char>, method: Seq<char>) -> bool {
    n.kind == "method"@ && n.name == method && class_part(n.id) == Some(class)
}

/// Node `k` is the only method of this name of the class.
pub open spec fn is_only_method_of(nodes: Seq<NodeView>, k: int, class: Seq<char>, method: Seq<char>) -> bool {
    &&& 0 <= k < nodes.len()
    &&& is_method_of(nodes[k], class, method)
    &&& forall|j: int|
        0 <= j < nodes.len() && j != k ==> !is_method_of(#[trigger] nodes[j], class, method)
}

/// The class has no method of this name.
pub open spec fn has_no_method(nodes: Seq<NodeView>, class: Seq<char>, method: Seq<char>) -> bool {
    forall|j: int| 0 <= j < nodes.len() ==> !is_method_of(#[trigger] nodes[j], class, method)
}

/// The edge says that the class extends the parent.
pub open spec fn is_extension(e: EdgeView, class: Seq<char>, parent: Seq<char>) -> bool {
    e.relation == "extends"@ && symbol_part(e.source) == Some(class) && e.name == Some(parent)
}

/// Some edge says that the class extends the parent.
pub open spec fn extends_class(edges: Seq<EdgeView>, class: Seq<char>, parent: Seq<char>) -> bool {
    exists|x: int| 0 <= x < edges.len() && is_extension(#[trigger] edges[x], class, parent)
}

proof fn lemma_parents(edges: Seq<EdgeView>, class: Seq<char>, parent: Seq<char>)
    ensures
        parents_of(edges, class).contains(parent) <==> extends_class(edges, class, parent),
{
    let keys = child_keys(edges);
    let b = buckets::bucket(keys, class);
    let ps = parents_of(edges, class);
    buckets::lemma_bucket(keys, class);
    if ps.contains(parent) {
        let j = choose|j: int| 0 <= j < ps.len() && ps[j] == parent;
        assert(keys[b[j]] == Some(class));
        assert(is_extension(edges[b[j]], class, parent));
    }
    if extends_class(edges, class, parent) {
        let x = choose|x: int| 0 <= x < edges.len() && is_extension(#[trigger] edges[x], class, parent);
        assert(keys[x] == Some(class));
        assert(b.contains(x));
        let j = choose|j: int| 0 <= j < b.len() && b[j] == x;
        assert(ps[j] == parent);
    }
}

proof fn lemma_methods_contains(nodes: Seq<NodeView>, class: Seq<char>, method: Seq<char>, id: Seq<char>)
    ensures
        methods(nodes, class, method).contains(id) <==> exists|j: int|
            0 <= j < nodes.len() && is_method_of(#[trigger] nodes[j], class, method) && nodes[j].id == id,
{
    let keys = owner_keys(nodes);
    let b = buckets::bucket(keys, class);
    let f = named_method(nodes, method);
    buckets::lemma_bucket(keys, class);
    seqs::lemma_each(b, 0, f, id);
    if methods(nodes, class, method).contains(id) {
        let m = choose|m: int| 0 <= m < b.len() && f(#[trigger] b[m]).contains(id);
        assert(keys[b[m]] == Some(class));
        assert(is_method_of(nodes[b[m]], class, method) && nodes[b[m]].id == id);
    }
    if exists|j: int|
        0 <= j < nodes.len() && is_method_of(#[trigger] nodes[j], class, method) && nodes[j].id == id {
        let j = choose|j: int|
            0 <= j < nodes.len() && is_method_of(#[trigger] nodes[j], class, method) && nodes[j].id == id;
        assert(keys[j] == Some(class));
        assert(b.contains(j));
        let m = choose|m: int| 0 <= m < b.len() && b[m] == j;
        assert(f(b[m])[0] == id);
    }
}

proof fn lemma_methods_one(nodes: Seq<NodeView>, b: Seq<int>, k: int, method: Seq<char>, from: int)
    requires
        0 <= from,
        forall|m: int| 0 <= m < b.len() && nodes[#[trigger] b[m]].name == method ==> b[m] == k,
        forall|m: int, n: int| 0 <= m < n < b.len() ==> (#[trigger] b[m]) < (#[trigger] b[n]),
    ensures
        seqs::each_from(b, from, named_method(nodes, method)).len() <= 1,
        (forall|m: int| from <= m < b.len() ==> nodes[#[trigger] b[m]].name != method) ==> seqs::each_from(
            b,
            from,
            named_method(nodes, method),
        ).len() == 0,
    decreases b.len() - from,
{
    if from < b.len() {
        lemma_methods_one(nodes, b, k, method, from + 1);
        if nodes[b[from]].name == method {
            assert forall|m: int| from + 1 <= m < b.len() implies nodes[#[trigger] b[m]].name != method by {
                assert(b[from] < b[m]);
            }
        }
    }
}

proof fn lemma_own(nodes: Seq<NodeView>, class: Seq<char>, method: Seq<char>)
    ensures
        forall|k: int| #[trigger]
            is_only_method_of(nodes, k, class, method) ==> methods(nodes, class, method) == seq![nodes[k].id],
        has_no_method(nodes, class, method) ==> methods(nodes, class, method).len() == 0,
{
    let keys = owner_keys(nodes);
    let b = buckets::bucket(keys, class);
    let all = methods(nodes, class, method);
    buckets::lemma_bucket(keys, class);
    buckets::lemma_bucket_increases(keys, class);
    assert forall|k: int| #[trigger] is_only_method_of(nodes, k, class, method) implies all == seq![
        nodes[k].id,
    ] by {
        assert forall|m: int| 0 <= m < b.len() && nodes[#[trigger] b[m]].name == method implies b[m] == k by {
            assert(keys[b[m]] == Some(class));
            assert(is_method_of(nodes[b[m]], class, method));
        }
        lemma_methods_one(nodes, b, k, method, 0);
        lemma_methods_contains(nodes, class, method, nodes[k].id);
        assert(all.contains(nodes[k].id));
        assert(all =~= seq![nodes[k].id]);
    }
    if has_no_method(nodes, class, method) {
        if all.len() > 0 {
            lemma_methods_contains(nodes, class, method, all[0]);
            assert(all.contains(all[0]));
        }
    }
}

/// A Laravel scope method is named by `scope` and the called name with its first
/// letter in upper case.
pub proof fn a_scope_is_named_by_its_call(method: Seq<char>)
    ensures
        method.len() > 0 && 'a' <= method[0] <= 'z' ==> scoped(method) == "scope"@ + seq![
            ((method[0] as u8) - 32) as char,
        ] + method.subrange(1, method.len() as int),
        method.len() > 0 && !('a' <= method[0] <= 'z') ==> scoped(method) == "scope"@ + method,
{
    if method.len() > 0 {
        assert(seq![method[0]] + method.subrange(1, method.len() as int) =~= method);
    }
}

/// A call on a receiver whose class declares the method reaches that method; where it
/// declares none of that name, but a Laravel scope for it, the scope.
pub proof fn a_call_reaches_the_method_of_its_receiver(
    nodes: Seq<NodeView>,
    edges: Seq<EdgeView>,
    i: int,
    k: int,
    source: Seq<char>,
    class: Seq<char>,
    method: Seq<char>,
    via_member: bool,
)
    requires
        0 <= i < edges.len(),
        edges[i] == model::call_edge(source, method, via_member, Some(class)),
        is_only_method_of(nodes, k, class, method) || (has_no_method(nodes, class, method) && is_only_method_of(
            nodes,
            k,
            class,
            scoped(method),
        )),
    ensures
        resolved(nodes, edges).contains((ResolvedView { source, target: nodes[k].id, relation: "calls"@ })),
{
    lemma_calls(nodes, edges, edges[i]);
    lemma_own(nodes, class, method);
    lemma_own(nodes, class, scoped(method));
    assert(own_method(nodes, class, method) == Some(nodes[k].id));
    the_receivers_own_method_wins(nodes, edges, class, method);
    lemma_told(nodes, edges, i, nodes[k].id);
}

proof fn lemma_calls(nodes: Seq<NodeView>, edges: Seq<EdgeView>, e: EdgeView)
    requires
        e.relation == "calls"@,
        e.name is Some,
    ensures
        target(nodes, edges, e) == call_target(nodes, edges, e, e.name->0),
{
    lemma_tags();
    if model::is_relation(e.relation) {
        lemma_relation_tags(e.relation);
    }
}

/// The classes hold all that they extend.
pub open spec fn is_closed(edges: Seq<EdgeView>, classes: Set<Seq<char>>) -> bool {
    forall|c: Seq<char>, p: Seq<char>|
        classes.contains(c) && #[trigger] extends_class(edges, c, p) ==> classes.contains(p)
}

proof fn lemma_ancestry_inside(
    edges: Seq<EdgeView>,
    todo: Seq<Seq<char>>,
    seen: Set<Seq<char>>,
    classes: Set<Seq<char>>,
)
    requires
        is_closed(edges, classes),
        forall|j: int| 0 <= j < todo.len() ==> classes.contains(#[trigger] todo[j]),
    ensures
        forall|j: int|
            0 <= j < ancestry(edges, todo, seen).len() ==> classes.contains(
                #[trigger] ancestry(edges, todo, seen)[j],
            ),
    decreases unseen(edges, seen).len(), todo.len(),
{
    if todo.len() > 0 {
        let c = todo.first();
        let rest = todo.drop_first();
        assert(classes.contains(todo[0]));
        assert forall|j: int| 0 <= j < rest.len() implies classes.contains(#[trigger] rest[j]) by {
            assert(classes.contains(todo[j + 1]));
        }
        if seen.contains(c) {
            lemma_ancestry_inside(edges, rest, seen, classes);
            assert(ancestry(edges, todo, seen) == ancestry(edges, rest, seen));
        } else {
            let ps = parents_of(edges, c);
            lemma_unseen(edges, seen, c);
            assert forall|j: int| 0 <= j < (ps + rest).len() implies classes.contains(
                #[trigger] (ps + rest)[j],
            ) by {
                if j < ps.len() {
                    lemma_parents(edges, c, ps[j]);
                    assert(ps.contains(ps[j]));
                    assert(extends_class(edges, c, ps[j]));
                } else {
                    assert(classes.contains(rest[j - ps.len()]));
                }
            }
            lemma_ancestry_inside(edges, ps + rest, seen.insert(c), classes);
            let tail = ancestry(edges, ps + rest, seen.insert(c));
            let all = ancestry(edges, todo, seen);
            assert(all == seq![c] + tail);
            assert forall|j: int| 0 <= j < all.len() implies classes.contains(#[trigger] all[j]) by {
                if j > 0 {
                    assert(all[j] == tail[j - 1]);
                }
            }
        }
    } else {
        assert(ancestry(edges, todo, seen).len() == 0);
    }
}

proof fn lemma_ancestry_all(edges: Seq<EdgeView>, todo: Seq<Seq<char>>, seen: Set<Seq<char>>)
    ensures
        forall|c: Seq<char>| #[trigger]
            todo.contains(c) ==> seen.contains(c) || ancestry(edges, todo, seen).contains(c),
        forall|c: Seq<char>, p: Seq<char>|
            ancestry(edges, todo, seen).contains(c) && #[trigger] extends_class(edges, c, p) ==> seen.contains(p)
                || ancestry(edges, todo, seen).contains(p),
    decreases unseen(edges, seen).len(), todo.len(),
{
    if todo.len() > 0 {
        let first = todo.first();
        let rest = todo.drop_first();
        let all = ancestry(edges, todo, seen);
        if seen.contains(first) {
            lemma_ancestry_all(edges, rest, seen);
            assert forall|c: Seq<char>| #[trigger] todo.contains(c) implies seen.contains(c) || all.contains(c) by {
                let j = choose|j: int| 0 <= j < todo.len() && todo[j] == c;
                if j > 0 {
                    assert(rest[j - 1] == c);
                    assert(rest.contains(c));
                }
            }
        } else {
            let ps = parents_of(edges, first);
            let now = seen.insert(first);
            let tail = ancestry(edges, ps + rest, now);
            lemma_unseen(edges, seen, first);
            lemma_ancestry_all(edges, ps + rest, now);
            assert(all == seq![first] + tail);
            assert(all[0] == first);
            assert forall|c: Seq<char>| #[trigger] tail.contains(c) implies all.contains(c) by {
                let j = choose|j: int| 0 <= j < tail.len() && tail[j] == c;
                assert(all[j + 1] == c);
            }
            assert forall|c: Seq<char>| #[trigger] todo.contains(c) implies seen.contains(c) || all.contains(c) by {
                let j = choose|j: int| 0 <= j < todo.len() && todo[j] == c;
                if j > 0 {
                    assert(rest[j - 1] == c);
                    assert((ps + rest)[ps.len() + j - 1] == c);
                    assert((ps + rest).contains(c));
                    assert(now.contains(c) || tail.contains(c));
                }
            }
            assert forall|c: Seq<char>, p: Seq<char>|
                all.contains(c) && #[trigger] extends_class(edges, c, p) implies seen.contains(p) || all.contains(
                p,
            ) by {
                let j = choose|j: int| 0 <= j < all.len() && all[j] == c;
                if j == 0 {
                    lemma_parents(edges, c, p);
                    let m = choose|m: int| 0 <= m < ps.len() && ps[m] == p;
                    assert((ps + rest)[m] == p);
                    assert((ps + rest).contains(p));
                } else {
                    assert(tail[j - 1] == c);
                    assert(tail.contains(c));
                }
                assert(now.contains(p) || tail.contains(p));
            }
        }
    }
}

/// The classes lead from each to the next over `extends` edges.
pub open spec fn is_chain(edges: Seq<EdgeView>, chain: Seq<Seq<char>>) -> bool {
    forall|t: int| 0 < t < chain.len() ==> extends_class(edges, chain[t - 1], #[trigger] chain[t])
}

proof fn lemma_chain(edges: Seq<EdgeView>, chain: Seq<Seq<char>>, t: int)
    requires
        is_chain(edges, chain),
        0 <= t < chain.len(),
    ensures
        ancestry(edges, seq![chain[0]], Set::empty()).contains(chain[t]),
    decreases t,
{
    lemma_ancestry_all(edges, seq![chain[0]], Set::empty());
    if t == 0 {
        assert(seq![chain[0]][0] == chain[0]);
        assert(seq![chain[0]].contains(chain[0]));
    } else {
        lemma_chain(edges, chain, t - 1);
        assert(extends_class(edges, chain[t - 1], chain[t]));
    }
}

proof fn lemma_first_at<A, B>(s: Seq<A>, k: int, f: spec_fn(A) -> Option<B>)
    requires
        0 <= k,
    ensures
        seqs::first_from(s, k, f) matches Some(v) ==> exists|j: int|
            k <= j < s.len() && f(#[trigger] s[j]) == Some(v),
        seqs::first_from(s, k, f) is None ==> forall|j: int| k <= j < s.len() ==> f(#[trigger] s[j]) is None,
    decreases s.len() - k,
{
    if k < s.len() {
        lemma_first_at(s, k + 1, f);
        if f(s[k]) is None {
            if let Some(v) = seqs::first_from(s, k, f) {
                let j = choose|j: int| k + 1 <= j < s.len() && f(#[trigger] s[j]) == Some(v);
                assert(f(s[j]) == Some(v));
            }
        }
    }
}

/// A call of a method that only an ancestor of the receiver's class declares reaches
/// that method, however far up the `extends` chain it stands.
pub proof fn a_call_reaches_the_method_of_an_ancestor(
    nodes: Seq<NodeView>,
    edges: Seq<EdgeView>,
    i: int,
    k: int,
    source: Seq<char>,
    chain: Seq<Seq<char>>,
    method: Seq<char>,
    via_member: bool,
)
    requires
        0 <= i < edges.len(),
        chain.len() > 0,
        edges[i] == model::call_edge(source, method, via_member, Some(chain[0])),
        is_chain(edges, chain),
        0 <= k < nodes.len(),
        is_method_of(nodes[k], chain.last(), method),
        forall|j: int|
            0 <= j < nodes.len() && j != k && (#[trigger] nodes[j]).kind == "method"@ ==> nodes[j].name != method
                && nodes[j].name != scoped(method),
        method != scoped(method),
    ensures
        resolved(nodes, edges).contains((ResolvedView { source, target: nodes[k].id, relation: "calls"@ })),
{
    let recv = chain[0];
    let last = chain.last();
    let up = ancestry(edges, seq![recv], Set::empty());
    let f = own_method_of(nodes, method);
    lemma_calls(nodes, edges, edges[i]);
    lemma_chain(edges, chain, chain.len() - 1);
    lemma_own(nodes, last, method);
    assert(is_only_method_of(nodes, k, last, method));
    assert(f(last) == Some(nodes[k].id));
    lemma_first_at(up, 0, f);
    let at = choose|j: int| 0 <= j < up.len() && up[j] == last;
    assert(f(up[at]) is Some);
    let id = seqs::first_some(up, f)->0;
    let j = choose|j: int| 0 <= j < up.len() && f(#[trigger] up[j]) == Some(id);
    let c = up[j];
    if c != last {
        assert(has_no_method(nodes, c, method)) by {
            assert forall|m: int| 0 <= m < nodes.len() implies !is_method_of(#[trigger] nodes[m], c, method) by {}
        }
        assert(has_no_method(nodes, c, scoped(method))) by {
            assert forall|m: int| 0 <= m < nodes.len() implies !is_method_of(
                #[trigger] nodes[m],
                c,
                scoped(method),
            ) by {}
        }
        lemma_own(nodes, c, method);
        lemma_own(nodes, c, scoped(method));
        assert(f(c) is None);
    }
    assert(id == nodes[k].id);
    lemma_told(nodes, edges, i, nodes[k].id);
}

/// The node is what the call means: on a receiver of a known class, a method of that
/// name or its Laravel scope, in a class that the receiver's class is or extends; on
/// an unknown receiver, the Laravel scope; without a receiver, a symbol of that name.
pub open spec fn is_called(edges: Seq<EdgeView>, e: EdgeView, n: NodeView) -> bool {
    match e.recv_type {
        Some(recv) => {
            &&& n.kind == "method"@
            &&& n.name == e.name->0 || n.name == scoped(e.name->0)
            &&& class_part(n.id) is Some
            &&& forall|classes: Set<Seq<char>>|
                classes.contains(recv) && #[trigger] is_closed(edges, classes) ==> classes.contains(
                    class_part(n.id)->0,
                )
        },
        None => if e.via_member {
            n.kind == "method"@ && n.name == scoped(e.name->0)
        } else {
            goes_by(n, e.name->0)
        },
    }
}

/// A call reaches nothing else than what it means; a call of what is not in the tree
/// is dropped.
pub proof fn a_call_reaches_only_what_it_means(nodes: Seq<NodeView>, edges: Seq<EdgeView>, r: ResolvedView)
    requires
        resolved(nodes, edges).contains(r),
        r.relation == "calls"@,
        forall|j: int|
            0 <= j < edges.len() && (#[trigger] edges[j]).relation == "calls"@ ==> edges[j].name is Some,
    ensures
        exists|i: int, k: int|
            0 <= i < edges.len() && 0 <= k < nodes.len() && (#[trigger] edges[i]).relation == "calls"@
                && edges[i].source == r.source && (#[trigger] nodes[k]).id == r.target && is_called(
                edges,
                edges[i],
                nodes[k],
            ),
{
    lemma_upto(nodes, edges, edges.len() as int);
    let i = choose|i: int| 0 <= i < edges.len() && #[trigger] resolved_edge(nodes, edges, i) == Some(r);
    let e = edges[i];
    let name = e.name->0;
    lemma_calls(nodes, edges, e);
    match e.recv_type {
        Some(recv) => {
            let up = ancestry(edges, seq![recv], Set::empty());
            let f = own_method_of(nodes, name);
            lemma_first_at(up, 0, f);
            let j = choose|j: int| 0 <= j < up.len() && f(#[trigger] up[j]) == Some(r.target);
            let c = up[j];
            let m = if methods(nodes, c, name).len() == 1 { name } else { scoped(name) };
            assert(methods(nodes, c, m)[0] == r.target);
            assert(methods(nodes, c, m).contains(r.target));
            lemma_methods_contains(nodes, c, m, r.target);
            let k = choose|k: int|
                0 <= k < nodes.len() && is_method_of(#[trigger] nodes[k], c, m) && nodes[k].id == r.target;
            assert forall|classes: Set<Seq<char>>|
                classes.contains(recv) && #[trigger] is_closed(edges, classes) implies classes.contains(c) by {
                lemma_ancestry_inside(edges, seq![recv], Set::empty(), classes);
                assert(classes.contains(up[j]));
            }
            assert(is_called(edges, edges[i], nodes[k]));
        },
        None => {
            let keys = if e.via_member { method_keys(nodes) } else { name_keys(nodes) };
            let key = if e.via_member { scoped(name) } else { name };
            let b = buckets::bucket(keys, key);
            buckets::lemma_bucket(keys, key);
            let k = b[0];
            assert(keys[k] == Some(key));
            assert(nodes[k].id == r.target);
            assert(is_called(edges, edges[i], nodes[k]));
        },
    }
}

/// A call without a receiver reaches the only symbol that goes by its name; where none
/// does, or more than one, it is dropped.
pub proof fn a_plain_call_reaches_the_only_symbol(
    nodes: Seq<NodeView>,
    edges: Seq<EdgeView>,
    i: int,
    source: Seq<char>,
    name: Seq<char>,
)
    requires
        0 <= i < edges.len(),
        edges[i] == model::call_edge(source, name, false, None),
    ensures
        forall|k: int| #[trigger]
            is_only(nodes, k, name) ==> resolved(nodes, edges).contains(
                (ResolvedView { source, target: nodes[k].id, relation: "calls"@ }),
            ),
        forall|a: int, b: int| #[trigger]
            are_several(nodes, a, b, name) ==> resolved(nodes, seq![edges[i]]).len() == 0,
        is_unknown(nodes, name) ==> resolved(nodes, seq![edges[i]]).len() == 0,
{
    let one = seq![edges[i]];
    lemma_calls(nodes, edges, edges[i]);
    lemma_calls(nodes, one, one[0]);
    assert(resolved_upto(nodes, one, 0) == Seq::<ResolvedView>::empty());
    assert forall|k: int| #[trigger] is_only(nodes, k, name) implies resolved(nodes, edges).contains(
        (ResolvedView { source, target: nodes[k].id, relation: "calls"@ }),
    ) by {
        lemma_only(nodes, k, name);
        lemma_told(nodes, edges, i, nodes[k].id);
    }
    assert forall|a: int, b: int| #[trigger] are_several(nodes, a, b, name) implies resolved(
        nodes,
        one,
    ).len() == 0 by {
        lemma_several(nodes, a, b, name);
        assert(target(nodes, one, one[0]) is None);
        assert(resolved_upto(nodes, one, 1) == Seq::<ResolvedView>::empty());
    }
    if is_unknown(nodes, name) {
        lemma_unknown(nodes, name);
        assert(target(nodes, one, one[0]) is None);
        assert(resolved_upto(nodes, one, 1) == Seq::<ResolvedView>::empty());
    }
}

/// A call on an unknown receiver reaches the only Laravel scope for its name.
pub proof fn a_query_reaches_the_only_scope(
    nodes: Seq<NodeView>,
    edges: Seq<EdgeView>,
    i: int,
    k: int,
    source: Seq<char>,
    name: Seq<char>,
)
    requires
        0 <= i < edges.len(),
        edges[i] == model::call_edge(source, name, true, None),
        0 <= k < nodes.len(),
        nodes[k].kind == "method"@,
        nodes[k].name == scoped(name),
        forall|j: int|
            0 <= j < nodes.len() && j != k && (#[trigger] nodes[j]).kind == "method"@ ==> nodes[j].name != scoped(
                name,
            ),
    ensures
        resolved(nodes, edges).contains((ResolvedView { source, target: nodes[k].id, relation: "calls"@ })),
{
    let keys = method_keys(nodes);
    let key = scoped(name);
    let b = buckets::bucket(keys, key);
    lemma_calls(nodes, edges, edges[i]);
    buckets::lemma_bucket(keys, key);
    buckets::lemma_bucket_increases(keys, key);
    assert(keys[k] == Some(key));
    assert(b.contains(k));
    assert forall|m: int| 0 <= m < b.len() implies #[trigger] b[m] == k by {
        assert(keys[b[m]] == Some(key));
    }
    if b.len() > 1 {
        assert(b[0] < b[1]);
    }
    assert(b.len() == 1 && b[0] == k);
    lemma_told(nodes, edges, i, nodes[k].id);
}

// ---------------------------------------------------------------------------
// Names that several symbols go by

/// The edge imports, in the file, something that goes by `short` there.
pub open spec fn imports_as(e: EdgeView, file: Seq<char>, short: Seq<char>) -> bool {
    e.relation == "imports"@ && e.source == file && e.name is Some && e.name->0.contains('\\') && scan::last_part(
        e.name->0,
        '\\',
    ) == short
}

proof fn lemma_some_in(s: Seq<char>, c: char)
    ensures
        text::some_in(s, CharSet::One(c)) <==> s.contains(c),
{
    if s.contains(c) {
        let j = choose|j: int| 0 <= j < s.len() && s[j] == c;
        assert(CharSet::One(c).has(s[j]));
    }
}

proof fn lemma_last_use(edges: Seq<EdgeView>, uses: Seq<int>, k: int, short: Seq<char>)
    requires
        0 <= k <= uses.len(),
        forall|j: int| 0 <= j < uses.len() ==> edges[#[trigger] uses[j]].name is Some,
    ensures
        last_use(edges, uses, k, short) is None ==> forall|j: int|
            0 <= j < k ==> scan::last_part(edges[#[trigger] uses[j]].name->0, '\\') != short,
        last_use(edges, uses, k, short) is Some ==> exists|j: int|
            0 <= j < k && scan::last_part(edges[#[trigger] uses[j]].name->0, '\\') == short && edges[uses[j]].name
                == last_use(edges, uses, k, short),
    decreases k,
{
    if k > 0 && scan::last_part(edges[uses[k - 1]].name->0, '\\') != short {
        lemma_last_use(edges, uses, k - 1, short);
    }
}

proof fn lemma_imported(edges: Seq<EdgeView>, file: Seq<char>, short: Seq<char>)
    ensures
        imported(edges, file, short) is None ==> forall|j: int|
            0 <= j < edges.len() ==> !imports_as(#[trigger] edges[j], file, short),
        imported(edges, file, short) is Some ==> exists|j: int|
            0 <= j < edges.len() && imports_as(#[trigger] edges[j], file, short) && edges[j].name == imported(
                edges,
                file,
                short,
            ),
{
    let keys = use_keys(edges);
    let uses = buckets::bucket(keys, file);
    buckets::lemma_bucket(keys, file);
    assert forall|j: int| 0 <= j < uses.len() implies edges[#[trigger] uses[j]].name is Some by {
        assert(keys[uses[j]] == Some(file));
    }
    lemma_last_use(edges, uses, uses.len() as int, short);
    if imported(edges, file, short) is None {
        assert forall|j: int| 0 <= j < edges.len() implies !imports_as(#[trigger] edges[j], file, short) by {
            if imports_as(edges[j], file, short) {
                lemma_some_in(edges[j].name->0, '\\');
                assert(keys[j] == Some(file));
                assert(uses.contains(j));
                let m = choose|m: int| 0 <= m < uses.len() && uses[m] == j;
                assert(scan::last_part(edges[uses[m]].name->0, '\\') != short);
            }
        }
    } else {
        let m = choose|m: int|
            0 <= m < uses.len() && scan::last_part(edges[#[trigger] uses[m]].name->0, '\\') == short
                && edges[uses[m]].name == imported(edges, file, short);
        assert(keys[uses[m]] == Some(file));
        lemma_some_in(edges[uses[m]].name->0, '\\');
        assert(imports_as(edges[uses[m]], file, short));
    }
}

/// The node stands in the file that the fully qualified name has by convention, in any
/// letter case.
pub open spec fn stands_in(n: NodeView, fqcn: Seq<char>) -> bool {
    let path = Seq::new(fqcn.len(), |c: int| if fqcn[c] == '\\' { '/' } else { fqcn[c] });
    text::ends(text::lowercase(scan::first_part(n.id, '#')), text::lowercase(path) + ".php"@)
}

/// A name that several symbols go by means the one that the file imports under it.
pub proof fn an_import_tells_classes_apart(
    nodes: Seq<NodeView>,
    edges: Seq<EdgeView>,
    i: int,
    m: int,
    k: int,
    source: Seq<char>,
    relation: Seq<char>,
    name: Seq<char>,
    fqcn: Seq<char>,
)
    requires
        0 <= i < edges.len(),
        edges[i] == model::named_edge(source, relation, name),
        leads_to_class(relation) || (relation == "serves"@ && !model::is_id(nodes, name)),
        is_eloquent(relation) ==> name != "self"@ && name != "static"@,
        0 <= m < edges.len(),
        imports_as(edges[m], scan::first_part(source, '#'), name),
        edges[m].name == Some(fqcn),
        forall|j: int|
            0 <= j < edges.len() && imports_as(#[trigger] edges[j], scan::first_part(source, '#'), name)
                ==> edges[j].name == Some(fqcn),
        0 <= k < nodes.len(),
        goes_by(nodes[k], name),
        stands_in(nodes[k], fqcn),
        forall|j: int|
            0 <= j < nodes.len() && j != k && goes_by(#[trigger] nodes[j], name) ==> !stands_in(nodes[j], fqcn),
    ensures
        resolved(nodes, edges).contains((ResolvedView { source, target: nodes[k].id, relation })),
{
    let file = scan::first_part(source, '#');
    let keys = name_keys(nodes);
    let b = buckets::bucket(keys, name);
    let f = ends_like(nodes, class_path(fqcn));
    let path = Seq::new(fqcn.len(), |c: int| if fqcn[c] == '\\' { '/' } else { fqcn[c] });
    lemma_class_reference(nodes, edges, edges[i]);
    lemma_imported(edges, file, name);
    assert(imported(edges, file, name) == Some(fqcn));
    assert(text::replaced(fqcn, '\\', '/') =~= path);
    buckets::lemma_bucket(keys, name);
    assert(keys[k] == Some(name));
    assert(b.contains(k));
    let at = choose|j: int| 0 <= j < b.len() && b[j] == k;
    assert forall|j: int| 0 <= j < b.len() && f(#[trigger] b[j]) is Some implies b[j] == k by {
        assert(keys[b[j]] == Some(name));
        assert(goes_by(nodes[b[j]], name));
        assert(stands_in(nodes[b[j]], fqcn));
    }
    assert(f(b[at]) == Some(nodes[k].id));
    lemma_first_at(b, 0, f);
    if b.len() == 1 {
        assert(b[0] == k);
    } else {
        let id = seqs::first_some(b, f)->0;
        let j = choose|j: int| 0 <= j < b.len() && f(#[trigger] b[j]) == Some(id);
        assert(b[j] == k);
    }
    lemma_told(nodes, edges, i, nodes[k].id);
}

/// The node stands in the directory of the file that refers to it.
pub open spec fn stands_beside(n: NodeView, source: Seq<char>) -> bool {
    scan::dir_part(scan::first_part(n.id, '#')) == scan::dir_part(scan::first_part(source, '#'))
}

/// A name that several symbols go by, and that the file does not import, means the one
/// in the directory of the file; where none stands there, the name is kept.
pub proof fn the_directory_tells_classes_apart(
    nodes: Seq<NodeView>,
    edges: Seq<EdgeView>,
    i: int,
    a: int,
    b: int,
    source: Seq<char>,
    relation: Seq<char>,
    name: Seq<char>,
)
    requires
        0 <= i < edges.len(),
        edges[i] == model::named_edge(source, relation, name),
        leads_to_class(relation) || (relation == "serves"@ && !model::is_id(nodes, name)),
        is_eloquent(relation) ==> name != "self"@ && name != "static"@,
        are_several(nodes, a, b, name),
        forall|j: int|
            0 <= j < edges.len() ==> !imports_as(#[trigger] edges[j], scan::first_part(source, '#'), name),
    ensures
        forall|k: int|
            0 <= k < nodes.len() && goes_by(nodes[k], name) && #[trigger] stands_beside(nodes[k], source) && (
            forall|j: int|
                0 <= j < nodes.len() && j != k && goes_by(#[trigger] nodes[j], name) ==> !stands_beside(
                    nodes[j],
                    source,
                )) ==> resolved(nodes, edges).contains(
                (ResolvedView { source, target: nodes[k].id, relation }),
            ),
        (forall|j: int|
            0 <= j < nodes.len() && goes_by(#[trigger] nodes[j], name) ==> !stands_beside(nodes[j], source))
            ==> resolved(nodes, edges).contains((ResolvedView { source, target: name, relation })),
{
    let file = scan::first_part(source, '#');
    let keys = name_keys(nodes);
    let found = buckets::bucket(keys, name);
    let f = same_dir(nodes, scan::dir_part(file));
    lemma_class_reference(nodes, edges, edges[i]);
    lemma_imported(edges, file, name);
    lemma_several(nodes, a, b, name);
    buckets::lemma_bucket(keys, name);
    lemma_first_at(found, 0, f);
    assert forall|k: int|
        0 <= k < nodes.len() && goes_by(nodes[k], name) && #[trigger] stands_beside(nodes[k], source) && (forall|
            j: int,
        |
            0 <= j < nodes.len() && j != k && goes_by(#[trigger] nodes[j], name) ==> !stands_beside(
                nodes[j],
                source,
            )) implies resolved(nodes, edges).contains(
        (ResolvedView { source, target: nodes[k].id, relation }),
    ) by {
        assert(keys[k] == Some(name));
        assert(found.contains(k));
        let at = choose|j: int| 0 <= j < found.len() && found[j] == k;
        assert(f(found[at]) == Some(nodes[k].id));
        let id = seqs::first_some(found, f)->0;
        let j = choose|j: int| 0 <= j < found.len() && f(#[trigger] found[j]) == Some(id);
        assert(keys[found[j]] == Some(name));
        assert(goes_by(nodes[found[j]], name));
        assert(stands_beside(nodes[found[j]], source));
        assert(found[j] == k);
        lemma_told(nodes, edges, i, nodes[k].id);
    }
    if forall|j: int|
        0 <= j < nodes.len() && goes_by(#[trigger] nodes[j], name) ==> !stands_beside(nodes[j], source) {
        if let Some(id) = seqs::first_some(found, f) {
            let j = choose|j: int| 0 <= j < found.len() && f(#[trigger] found[j]) == Some(id);
            assert(keys[found[j]] == Some(name));
            assert(goes_by(nodes[found[j]], name));
            assert(stands_beside(nodes[found[j]], source));
        }
        lemma_told(nodes, edges, i, name);
    }
}

/// What was found, and the name as it is written where nothing was.
pub open spec fn found_or(found: Option<Seq<char>>, name: Seq<char>) -> Seq<char> {
    match found {
        Some(f) => f,
        None => name,
    }
}

/// A reference by path leads to the file that the path means among the files of the
/// tree: one of a script or of a required file relative to where it stands, one of a
/// router to the file of the component, one of a template to the file of the view.
pub proof fn references_by_path_reach_their_files(
    nodes: Seq<NodeView>,
    edges: Seq<EdgeView>,
    i: int,
    source: Seq<char>,
    relation: Seq<char>,
    name: Seq<char>,
    files: Set<Seq<char>>,
)
    requires
        0 <= i < edges.len(),
        edges[i] == model::named_edge(source, relation, name),
        forall|p: Seq<char>| #[trigger] files.contains(p) <==> is_file(nodes, p),
    ensures
        relation == "imports"@ && name.len() > 0 && name[0] == '.' || relation == "requires"@ ==> resolved(
            nodes,
            edges,
        ).contains(
            (ResolvedView { source, target: found_or(paths::relative_file(source, name, files), name), relation }),
        ),
        relation == "renders"@ ==> resolved(nodes, edges).contains(
            (ResolvedView { source, target: found_or(paths::component_file(name, files), name), relation }),
        ),
        relation == "includes"@ ==> resolved(nodes, edges).contains(
            (ResolvedView { source, target: found_or(paths::view_file(name, files), name), relation }),
        ),
        relation == "dol-requires"@ ==> resolved(nodes, edges).contains(
            (ResolvedView { source, target: paths::dol_file(name, files), relation }),
        ),
        relation == "returns"@ ==> resolved(nodes, edges).contains(
            (ResolvedView { source, target: source, relation }),
        ),
{
    lemma_tags();
    lemma_eloquent(relation);
    if model::is_relation(relation) {
        lemma_relation_tags(relation);
    }
    assert(files =~= file_paths(nodes)) by {
        assert forall|p: Seq<char>| files.contains(p) == file_paths(nodes).contains(p) by {
            lemma_files(nodes, p);
        }
    }
    reveal_strlit(".");
    if relation == "imports"@ && name.len() > 0 && name[0] == '.' {
        assert(name.subrange(0, 1) =~= "."@);
        lemma_told(nodes, edges, i, found_or(paths::relative_file(source, name, files), name));
    } else if relation == "requires"@ {
        lemma_told(nodes, edges, i, found_or(paths::relative_file(source, name, files), name));
    } else if relation == "renders"@ {
        lemma_told(nodes, edges, i, found_or(paths::component_file(name, files), name));
    } else if relation == "includes"@ {
        lemma_told(nodes, edges, i, found_or(paths::view_file(name, files), name));
    } else if relation == "dol-requires"@ {
        lemma_told(nodes, edges, i, paths::dol_file(name, files));
    } else if relation == "returns"@ {
        lemma_told(nodes, edges, i, source);
    }
}

} // verus!
