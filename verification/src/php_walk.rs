//! What the walk over a PHP file records: of each construct, the nodes and edges that
//! it gives, wherever in the file it stands.

use vstd::prelude::*;

use crate::ast;
use crate::eloquent;
use crate::extract;
use crate::extract::CtxView;
use crate::model;
use crate::model::{EdgeView, NodeView};
use crate::php;
use crate::seqs;
use crate::syntax;
use crate::syntax::TreeView;
use crate::text;
use crate::text::CharSet;
use crate::types;

verus! {

// ---------------------------------------------------------------------------
// Reading the tree

/// The first child of a kind is the child of that kind before which there is no other.
pub proof fn the_first_child_of_a_kind(t: TreeView, kind: Seq<char>)
    ensures
        t.child(kind) matches Some(c) ==> exists|k: int|
            0 <= k < t.children.len() && #[trigger] t.children[k] == c && c.kind == kind && forall|j: int|
                0 <= j < k ==> (#[trigger] t.children[j]).kind != kind,
        t.child(kind) is None ==> forall|j: int|
            0 <= j < t.children.len() ==> (#[trigger] t.children[j]).kind != kind,
{
    lemma_first_child(t, 0, kind);
}

proof fn lemma_first_child(t: TreeView, k: int, kind: Seq<char>)
    requires
        0 <= k,
    ensures
        seqs::first_from(t.children, k, syntax::of_kind(kind)) matches Some(c) ==> exists|i: int|
            k <= i < t.children.len() && #[trigger] t.children[i] == c && c.kind == kind && forall|j: int|
                k <= j < i ==> (#[trigger] t.children[j]).kind != kind,
        seqs::first_from(t.children, k, syntax::of_kind(kind)) is None ==> forall|j: int|
            k <= j < t.children.len() ==> (#[trigger] t.children[j]).kind != kind,
    decreases t.children.len() - k,
{
    let f = syntax::of_kind(kind);
    if k < t.children.len() {
        lemma_first_child(t, k + 1, kind);
        if t.children[k].kind == kind {
            assert(t.children[k] == t.children[k]);
        } else if let Some(c) = seqs::first_from(t.children, k + 1, f) {
            let i = choose|i: int|
                k + 1 <= i < t.children.len() && #[trigger] t.children[i] == c && c.kind == kind && forall|j: int|
                    k + 1 <= j < i ==> (#[trigger] t.children[j]).kind != kind;
            assert(t.children[i] == c);
        }
    }
}

/// The children of a kind are those of that kind, in their order.
pub proof fn the_children_of_a_kind(t: TreeView, kind: Seq<char>)
    ensures
        t.all(kind) == t.children.filter(|c: TreeView| c.kind == kind),
{
    seqs::what_is_kept_is_filtered(t.children, syntax::is_kind(kind));
    assert(syntax::is_kind(kind) =~= (|c: TreeView| c.kind == kind));
}

/// What an identifier is called in full: its text without the `\` that it may start
/// with. Its bare name is what stands behind the last `\` of that.
pub proof fn an_identifier_goes_by_its_last_segment(t: TreeView, space: Seq<char>, name: Seq<char>)
    requires
        !name.contains('\\'),
        ({
            let raw = if t.children.len() > 0 { t.children[0].text } else { t.text };
            raw == space + seq!['\\'] + name || raw == name
        }),
    ensures
        ast::bare_name(t) == name,
        ({
            let raw = if t.children.len() > 0 { t.children[0].text } else { t.text };
            raw.len() > 0 && raw[0] != '\\' ==> ast::full_name(t) == raw
        }),
{
    broadcast use {text::lemma_run, text::lemma_seek_back};

    let raw = ast::ident_text(t);
    let k = CharSet::One('\\');
    let r = text::run(raw, 0, k);
    let full = raw.subrange(r, raw.len() as int);
    let i = text::seek_back(full, full.len() as int, k);
    let n = raw.len() - name.len();
    assert forall|j: int| n <= j < raw.len() implies raw[j] != '\\' by {
        assert(raw[j] == name[j - n]);
    }
    assert(r <= n) by {
        if r > n {
            assert(k.has(raw[n]));
        }
    }
    assert(i + r == n) by {
        if i + r < n {
            assert(raw[n - 1] == '\\');
            assert(full[n - 1 - r] == raw[n - 1]);
            assert(!k.has(full[n - 1 - r]));
        }
        if i + r > n {
            assert(k.has(full[i - 1]));
            assert(full[i - 1] == raw[i - 1 + r]);
        }
    }
    assert(full.subrange(i, full.len() as int) =~= name);
    if raw.len() > 0 && raw[0] != '\\' {
        if r > 0 {
            assert(k.has(raw[0]));
        }
        assert(full =~= raw);
    }
}

/// The expression is the variable `v`, with its `$`.
pub open spec fn is_variable(e: TreeView, v: Seq<char>) -> bool {
    e.child("Variable"@) matches Some(x) && x.child("DirectVariable"@) matches Some(d) && d.text == v
}

/// The expression is the plain name `n`, however it is qualified.
pub open spec fn is_name(e: TreeView, n: Seq<char>) -> bool {
    e.child("Identifier"@) matches Some(id) && ast::bare_name(id) == n
}

/// The selector selects the member `m`.
pub open spec fn is_member(s: TreeView, m: Seq<char>) -> bool {
    s.child("LocalIdentifier"@) matches Some(id) && id.text == m
}

/// The expression is the keyword `w`, in any letter case.
pub open spec fn is_keyword(e: TreeView, w: Seq<char>) -> bool {
    &&& e.child("Identifier"@) is None
    &&& e.child("Keyword"@) matches Some(k) && text::lower(k.text) == w
}

/// The type hint wraps, in a layer of this kind, one that names the class `n`.
pub open spec fn may_be(h: TreeView, kind: Seq<char>, n: Seq<char>) -> bool {
    h.child(kind) matches Some(x) && x.child("Hint"@) matches Some(i) && is_name(i, n)
}

/// The type hint names the class `n`, which may be null or stand in parentheses.
pub open spec fn hints_at(h: TreeView, n: Seq<char>) -> bool {
    ||| is_name(h, n)
    ||| h.child("Identifier"@) is None && may_be(h, "NullableHint"@, n)
    ||| h.child("Identifier"@) is None && h.child("NullableHint"@) is None && may_be(h, "ParenthesizedHint"@, n)
}

/// A type hint names a class where it is a plain name, or such a name that may be
/// null or stands in parentheses; a union names none.
pub proof fn a_hint_names_its_class(h: TreeView, n: Seq<char>)
    ensures
        hints_at(h, n) ==> ast::hinted(h) == Some(n),
        h.child("Identifier"@) is None && h.child("NullableHint"@) is None && h.child("ParenthesizedHint"@) is None
            ==> ast::hinted(h) is None,
{
    reveal_with_fuel(ast::hinted, 3);
}

// ---------------------------------------------------------------------------
// Telling kinds apart

#[verifier::opaque]
spec fn tag(s: Seq<char>) -> int {
    s.len() * 1000 + s[0] as int
}

proof fn lemma_kinds()
    ensures
        tag("Class"@) == 5067,
        tag("Interface"@) == 9073,
        tag("Trait"@) == 5084,
        tag("Enum"@) == 4069,
        tag("Function"@) == 8070,
        tag("Method"@) == 6077,
        tag("Closure"@) == 7067,
        tag("ArrowFunction"@) == 13065,
        tag("Assignment"@) == 10065,
        tag("Use"@) == 3085,
        tag("TraitUse"@) == 8084,
        tag("FunctionCall"@) == 12070,
        tag("MethodCall"@) == 10077,
        tag("StaticMethodCall"@) == 16083,
        tag("FunctionPartialApplication"@) == 26070,
        tag("MethodPartialApplication"@) == 24077,
        tag("StaticMethodPartialApplication"@) == 30083,
        tag("ClassConstantAccess"@) == 19067,
        tag("Instantiation"@) == 13073,
        tag("RequireConstruct"@) == 16082,
        tag("RequireOnceConstruct"@) == 20082,
        tag("IncludeConstruct"@) == 16073,
        tag("IncludeOnceConstruct"@) == 20073,
        tag("Return"@) == 6082,
{
    reveal(tag);
    reveal_strlit("Class");
    reveal_strlit("Interface");
    reveal_strlit("Trait");
    reveal_strlit("Enum");
    reveal_strlit("Function");
    reveal_strlit("Method");
    reveal_strlit("Closure");
    reveal_strlit("ArrowFunction");
    reveal_strlit("Assignment");
    reveal_strlit("Use");
    reveal_strlit("TraitUse");
    reveal_strlit("FunctionCall");
    reveal_strlit("MethodCall");
    reveal_strlit("StaticMethodCall");
    reveal_strlit("FunctionPartialApplication");
    reveal_strlit("MethodPartialApplication");
    reveal_strlit("StaticMethodPartialApplication");
    reveal_strlit("ClassConstantAccess");
    reveal_strlit("Instantiation");
    reveal_strlit("RequireConstruct");
    reveal_strlit("RequireOnceConstruct");
    reveal_strlit("IncludeConstruct");
    reveal_strlit("IncludeOnceConstruct");
    reveal_strlit("Return");
}

/// The kind of a tree that opens a scope.
pub open spec fn opens_scope(t: TreeView) -> bool {
    ||| t.kind == "Class"@
    ||| t.kind == "Interface"@
    ||| t.kind == "Trait"@
    ||| t.kind == "Enum"@
    ||| t.kind == "Function"@
    ||| t.kind == "Method"@
    ||| t.kind == "Closure"@
    ||| t.kind == "ArrowFunction"@
}

/// The id of the innermost scope, or the file outside of all.
pub open spec fn place(c: CtxView) -> Seq<char> {
    if c.scope.len() > 0 {
        c.scope[c.scope.len() - 1]
    } else {
        c.rel
    }
}

proof fn lemma_stays(t: TreeView, c: CtxView)
    ensures
        extract::grows(extract::entered(t, c), extract::walked(t, c)),
        extract::grows(c, extract::entered(t, c)),
{
    extract::lemma_entered_grows(t, c);
    extract::lemma_children_grow(t, 0, extract::entered(t, c));
}

/// The edges of a state from index `k` on start with `es`.
pub open spec fn told_at(c: CtxView, k: int, es: Seq<EdgeView>) -> bool {
    0 <= k && k + es.len() <= c.edges.len() && c.edges.subrange(k, k + es.len()) == es
}

proof fn lemma_told(t: TreeView, c: CtxView, es: Seq<EdgeView>)
    requires
        extract::entered(t, c).edges == c.edges + es,
    ensures
        told_at(extract::walked(t, c), c.edges.len() as int, es),
{
    let d = extract::walked(t, c);
    let e = extract::entered(t, c);
    let n = c.edges.len() as int;
    lemma_stays(t, c);
    assert forall|j: int| 0 <= j < es.len() implies d.edges[n + j] == es[j] by {
        assert(d.edges[n + j] == e.edges[n + j]);
    }
    assert(d.edges.subrange(n, n + es.len()) =~= es);
}

// ---------------------------------------------------------------------------
// Declarations

/// The kind of node that a declaration gives.
pub open spec fn declares(t: TreeView, kind: Seq<char>) -> bool {
    ||| t.kind == "Class"@ && kind == "class"@
    ||| t.kind == "Interface"@ && kind == "interface"@
    ||| t.kind == "Trait"@ && kind == "trait"@
    ||| t.kind == "Enum"@ && kind == "enum"@
    ||| t.kind == "Function"@ && kind == "function"@
}

/// A class, interface, trait, enum or function of the file gives a node under its
/// name, with its span, which the innermost scope contains.
pub proof fn a_declaration_gives_a_symbol(t: TreeView, c: CtxView, kind: Seq<char>, name: TreeView)
    requires
        declares(t, kind),
        t.child("LocalIdentifier"@) == Some(name),
        !c.taken.contains(c.rel + "#"@ + name.text),
    ensures
        ({
            let d = extract::walked(t, c);
            let id = c.rel + "#"@ + name.text;
            &&& c.nodes.len() < d.nodes.len()
            &&& d.nodes[c.nodes.len() as int] == NodeView {
                id,
                name: name.text,
                kind,
                path: c.rel,
                start: t.start,
                end: t.end,
            }
            &&& told_at(d, c.edges.len() as int, seq![model::contains_edge(place(c), id)])
        }),
{
    let id = c.rel + "#"@ + name.text;
    let e = extract::entered(t, c);
    let d = extract::walked(t, c);
    lemma_kinds();
    lemma_stays(t, c);
    let n = c.edges.len() as int;
    assert(e.nodes[c.nodes.len() as int].id == id);
    assert(e.edges[n] == model::contains_edge(place(c), id));
    assert(d.edges.subrange(n, n + 1) =~= seq![model::contains_edge(place(c), id)]);
}

/// A method gives a node under its class and its name.
pub proof fn a_method_gives_a_symbol_of_its_class(t: TreeView, c: CtxView, name: TreeView)
    requires
        t.kind == "Method"@,
        t.child("LocalIdentifier"@) == Some(name),
        c.classes.len() > 0,
        !c.taken.contains(c.rel + "#"@ + (c.classes.last().name + "."@ + name.text)),
    ensures
        ({
            let d = extract::walked(t, c);
            let id = c.rel + "#"@ + (c.classes.last().name + "."@ + name.text);
            &&& c.nodes.len() < d.nodes.len()
            &&& d.nodes[c.nodes.len() as int] == NodeView {
                id,
                name: name.text,
                kind: "method"@,
                path: c.rel,
                start: t.start,
                end: t.end,
            }
            &&& told_at(d, c.edges.len() as int, seq![model::contains_edge(place(c), id)])
        }),
{
    let id = c.rel + "#"@ + (c.classes.last().name + "."@ + name.text);
    let e = extract::entered(t, c);
    let d = extract::walked(t, c);
    lemma_kinds();
    lemma_stays(t, c);
    let n = c.edges.len() as int;
    assert(e.nodes[c.nodes.len() as int].id == id);
    assert(e.edges[n] == model::contains_edge(place(c), id));
    assert(d.edges.subrange(n, n + 1) =~= seq![model::contains_edge(place(c), id)]);
}

/// A closure gives a function under the innermost scope, named by the variable that it
/// is assigned to.
pub proof fn a_closure_gives_a_function(t: TreeView, c: CtxView)
    requires
        t.kind == "Closure"@ || t.kind == "ArrowFunction"@,
    ensures
        ({
            let d = extract::walked(t, c);
            let name = if c.pending is Some { c.pending->0 } else { "{closure}"@ };
            let id = place(c) + "."@ + name;
            &&& c.nodes.len() < d.nodes.len()
            &&& d.nodes[c.nodes.len() as int].name == name
            &&& d.nodes[c.nodes.len() as int].kind == "function"@
            &&& !c.taken.contains(id) ==> d.nodes[c.nodes.len() as int].id == id
        }),
{
    let e = extract::entered(t, c);
    lemma_kinds();
    lemma_stays(t, c);
    assert(e.nodes[c.nodes.len() as int].kind == "function"@);
}

/// An edge of the relation from `id` to each of the classes that the identifiers name.
pub open spec fn edges_to(id: Seq<char>, relation: Seq<char>, ids: Seq<TreeView>) -> Seq<EdgeView> {
    Seq::new(ids.len(), |k: int| model::named_edge(id, relation, ast::bare_name(ids[k])))
}

/// The identifiers that stand in the clause of this kind.
pub open spec fn listed(t: TreeView, kind: Seq<char>) -> Seq<TreeView> {
    match t.child(kind) {
        Some(x) => x.all("Identifier"@),
        None => Seq::empty(),
    }
}

/// A class says what it extends, and then what it implements: an edge to each name.
/// An interface says what it extends, an enum what it implements.
pub proof fn heritage_is_recorded(t: TreeView, c: CtxView, name: TreeView)
    requires
        t.child("LocalIdentifier"@) == Some(name),
        !c.taken.contains(c.rel + "#"@ + name.text),
    ensures
        ({
            let id = c.rel + "#"@ + name.text;
            let d = extract::walked(t, c);
            let n = c.edges.len() as int;
            &&& t.kind == "Class"@ ==> told_at(
                d,
                n + 1,
                edges_to(id, "extends"@, listed(t, "Extends"@)) + edges_to(
                    id,
                    "implements"@,
                    listed(t, "Implements"@),
                ),
            )
            &&& t.kind == "Interface"@ ==> told_at(
                d,
                n + 1,
                edges_to(id, "extends"@, listed(t, "Extends"@)),
            )
            &&& t.kind == "Enum"@ ==> told_at(
                d,
                n + 1,
                edges_to(id, "implements"@, listed(t, "Implements"@)),
            )
        }),
{
    let id = c.rel + "#"@ + name.text;
    let d = extract::walked(t, c);
    let e = extract::entered(t, c);
    let n = c.edges.len() as int;
    let ups = edges_to(id, "extends"@, listed(t, "Extends"@));
    let ins = edges_to(id, "implements"@, listed(t, "Implements"@));
    lemma_kinds();
    lemma_stays(t, c);
    lemma_heritage(id, "extends"@, listed(t, "Extends"@));
    lemma_heritage(id, "implements"@, listed(t, "Implements"@));
    let first = c.edges.push(model::contains_edge(place(c), id));
    if t.kind == "Class"@ {
        let told = (first + ups) + ins;
        assert forall|j: int| 0 <= j < told.len() implies e.edges[j] == told[j] by {}
        assert forall|j: int| 0 <= j < (ups + ins).len() implies d.edges[n + 1 + j] == (ups + ins)[j] by {
            assert(told[n + 1 + j] == (ups + ins)[j]);
            assert(d.edges[n + 1 + j] == e.edges[n + 1 + j]);
        }
        assert(d.edges.subrange(n + 1, n + 1 + (ups + ins).len()) =~= ups + ins);
    } else if t.kind == "Interface"@ {
        assert(e.edges =~= first + ups);
        assert forall|j: int| 0 <= j < ups.len() implies d.edges[n + 1 + j] == ups[j] by {
            assert(d.edges[n + 1 + j] == e.edges[n + 1 + j]);
        }
        assert(d.edges.subrange(n + 1, n + 1 + ups.len()) =~= ups);
    } else if t.kind == "Enum"@ {
        assert(e.edges =~= first + ins);
        assert forall|j: int| 0 <= j < ins.len() implies d.edges[n + 1 + j] == ins[j] by {
            assert(d.edges[n + 1 + j] == e.edges[n + 1 + j]);
        }
        assert(d.edges.subrange(n + 1, n + 1 + ins.len()) =~= ins);
    }
}

proof fn lemma_heritage(id: Seq<char>, relation: Seq<char>, ids: Seq<TreeView>)
    ensures
        ids.map_values(|t: TreeView| model::named_edge(id, relation, ast::bare_name(t))) == edges_to(
            id,
            relation,
            ids,
        ),
{
    assert(ids.map_values(|t: TreeView| model::named_edge(id, relation, ast::bare_name(t))) =~= edges_to(
        id,
        relation,
        ids,
    ));
}

// ---------------------------------------------------------------------------
// References

/// `use T, U;` in a class: the innermost scope implements each of the traits, in their
/// order.
pub proof fn used_traits_are_recorded(t: TreeView, c: CtxView)
    requires
        t.kind == "TraitUse"@,
        c.scope.len() > 0,
    ensures
        told_at(
            extract::walked(t, c),
            c.edges.len() as int,
            edges_to(c.scope.last(), "implements"@, t.all("Identifier"@)),
        ),
        extract::entered(t, c).edges.len() == c.edges.len() + t.all("Identifier"@).len(),
        extract::entered(t, c).nodes == c.nodes,
{
    lemma_kinds();
    lemma_heritage(c.scope.last(), "implements"@, t.all("Identifier"@));
    lemma_told(t, c, edges_to(c.scope.last(), "implements"@, t.all("Identifier"@)));
}

/// `use A\B, C;` at the top of a file imports each of the names, in full and in their
/// order.
pub proof fn imports_are_recorded(t: TreeView, c: CtxView, items: TreeView, list: TreeView)
    requires
        t.kind == "Use"@,
        t.child("UseItems"@) == Some(items),
        items.child("UseItemSequence"@) == Some(list),
        forall|k: int|
            0 <= k < list.all("UseItem"@).len() ==> (#[trigger] list.all("UseItem"@)[k]).child("Identifier"@) is Some,
    ensures
        told_at(
            extract::walked(t, c),
            c.edges.len() as int,
            Seq::new(
                list.all("UseItem"@).len(),
                |k: int|
                    model::named_edge(
                        c.rel,
                        "imports"@,
                        ast::full_name(list.all("UseItem"@)[k].child("Identifier"@)->0),
                    ),
            ),
        ),
{
    let all = list.all("UseItem"@);
    let es = Seq::new(
        all.len(),
        |k: int| model::named_edge(c.rel, "imports"@, ast::full_name(all[k].child("Identifier"@)->0)),
    );
    lemma_kinds();
    lemma_imports(all, 0, c.rel);
    assert(es.skip(0) =~= es);
    lemma_told(t, c, es);
}

proof fn lemma_imports(all: Seq<TreeView>, k: int, rel: Seq<char>)
    requires
        0 <= k <= all.len(),
        forall|j: int| 0 <= j < all.len() ==> (#[trigger] all[j]).child("Identifier"@) is Some,
    ensures
        seqs::each_from(all, k, extract::import_edge(rel)) == Seq::new(
            all.len(),
            |j: int| model::named_edge(rel, "imports"@, ast::full_name(all[j].child("Identifier"@)->0)),
        ).skip(k),
    decreases all.len() - k,
{
    let es = Seq::new(
        all.len(),
        |j: int| model::named_edge(rel, "imports"@, ast::full_name(all[j].child("Identifier"@)->0)),
    );
    if k < all.len() {
        lemma_imports(all, k + 1, rel);
        assert(es.skip(k) =~= seq![es[k]] + es.skip(k + 1));
    } else {
        assert(es.skip(k) =~= Seq::<EdgeView>::empty());
    }
}

/// A call of a function by its name is recorded where it stands; so is, in a full walk,
/// a function that is taken as a callable.
pub proof fn calls_are_recorded(t: TreeView, c: CtxView, e: TreeView, name: Seq<char>)
    requires
        t.kind == "FunctionCall"@ || (t.kind == "FunctionPartialApplication"@ && c.full),
        t.child("Expression"@) == Some(e),
        is_name(e, name),
    ensures
        told_at(
            extract::walked(t, c),
            c.edges.len() as int,
            seq![model::call_edge(place(c), name, false, None)],
        ),
{
    lemma_kinds();
    assert(c.edges.push(model::call_edge(place(c), name, false, None)) =~= c.edges + seq![
        model::call_edge(place(c), name, false, None),
    ]);
    lemma_told(t, c, seq![model::call_edge(place(c), name, false, None)]);
}

/// The call of a member `m` on the expression `e`.
pub open spec fn calls_member(t: TreeView, c: CtxView, e: TreeView, m: Seq<char>) -> bool {
    &&& t.kind == "MethodCall"@ || (t.kind == "MethodPartialApplication"@ && c.full)
    &&& t.child("Expression"@) == Some(e)
    &&& t.child("ClassLikeMemberSelector"@) matches Some(s) && is_member(s, m)
}

proof fn lemma_member_call(t: TreeView, c: CtxView, e: TreeView, m: Seq<char>)
    requires
        calls_member(t, c, e, m),
        !(t.kind == "MethodCall"@ && c.full && is_variable(e, "$this"@) && model::is_relation(m)),
    ensures
        told_at(
            extract::walked(t, c),
            c.edges.len() as int,
            seq![model::call_edge(place(c), m, true, extract::receiver(e, c))],
        ),
{
    lemma_kinds();
    let edge = model::call_edge(place(c), m, true, extract::receiver(e, c));
    assert(c.edges.push(edge) =~= c.edges + seq![edge]);
    lemma_told(t, c, seq![edge]);
}

/// `$this->m()` is a call on the innermost class.
pub proof fn this_is_the_innermost_class(t: TreeView, c: CtxView, e: TreeView, m: Seq<char>)
    requires
        calls_member(t, c, e, m),
        is_variable(e, "$this"@),
        c.classes.len() > 0,
        !model::is_relation(m),
    ensures
        told_at(
            extract::walked(t, c),
            c.edges.len() as int,
            seq![model::call_edge(place(c), m, true, Some(c.classes.last().name))],
        ),
{
    lemma_member_call(t, c, e, m);
}

/// The innermost function that knows the class of the variable says `class`.
pub open spec fn is_bound(c: CtxView, v: Seq<char>, class: Seq<char>) -> bool {
    exists|k: int|
        0 <= k < c.bindings.len() && (#[trigger] c.bindings[k]).contains_key(v) && c.bindings[k][v] == class
            && forall|j: int| k < j < c.bindings.len() ==> !(#[trigger] c.bindings[j]).contains_key(v)
}

proof fn lemma_bound(frames: Seq<Map<Seq<char>, Seq<char>>>, n: int, k: int, v: Seq<char>)
    requires
        0 <= k < n <= frames.len(),
        frames[k].contains_key(v),
        forall|j: int| k < j < n ==> !(#[trigger] frames[j]).contains_key(v),
    ensures
        types::innermost(frames, n, v) == Some(frames[k][v]),
    decreases n,
{
    if n - 1 > k {
        lemma_bound(frames, n - 1, k, v);
    }
}

proof fn lemma_unbound(frames: Seq<Map<Seq<char>, Seq<char>>>, n: int, v: Seq<char>)
    requires
        0 <= n <= frames.len(),
        forall|j: int| 0 <= j < n ==> !(#[trigger] frames[j]).contains_key(v),
    ensures
        types::innermost(frames, n, v) is None,
    decreases n,
{
    if n > 0 {
        lemma_unbound(frames, n - 1, v);
    }
}

/// `$v->m()` is a call on the class that is known of the variable; where none is, the
/// class of the receiver is left open.
pub proof fn a_variable_is_of_its_class(t: TreeView, c: CtxView, e: TreeView, v: Seq<char>, m: Seq<char>)
    requires
        calls_member(t, c, e, m),
        is_variable(e, v),
        v != "$this"@,
    ensures
        forall|class: Seq<char>| #[trigger]
            is_bound(c, v, class) ==> told_at(
                extract::walked(t, c),
                c.edges.len() as int,
                seq![model::call_edge(place(c), m, true, Some(class))],
            ),
        (forall|j: int| 0 <= j < c.bindings.len() ==> !(#[trigger] c.bindings[j]).contains_key(v)) ==> told_at(
            extract::walked(t, c),
            c.edges.len() as int,
            seq![model::call_edge(place(c), m, true, None)],
        ),
{
    lemma_member_call(t, c, e, m);
    assert forall|class: Seq<char>| #[trigger] is_bound(c, v, class) implies told_at(
        extract::walked(t, c),
        c.edges.len() as int,
        seq![model::call_edge(place(c), m, true, Some(class))],
    ) by {
        let k = choose|k: int|
            0 <= k < c.bindings.len() && (#[trigger] c.bindings[k]).contains_key(v) && c.bindings[k][v] == class
                && forall|j: int| k < j < c.bindings.len() ==> !(#[trigger] c.bindings[j]).contains_key(v);
        lemma_bound(c.bindings, c.bindings.len() as int, k, v);
    }
    if forall|j: int| 0 <= j < c.bindings.len() ==> !(#[trigger] c.bindings[j]).contains_key(v) {
        lemma_unbound(c.bindings, c.bindings.len() as int, v);
    }
}

/// `$this->p->m()` is a call on the declared class of the property `p`.
pub proof fn a_property_is_of_its_class(
    t: TreeView,
    c: CtxView,
    e: TreeView,
    access: TreeView,
    form: TreeView,
    owner: TreeView,
    selector: TreeView,
    p: Seq<char>,
    m: Seq<char>,
)
    requires
        calls_member(t, c, e, m),
        c.full,
        c.classes.len() > 0,
        e.child("Variable"@) is None,
        e.child("Access"@) == Some(access),
        access.child("PropertyAccess"@) == Some(form) || (access.child("PropertyAccess"@) is None && access.child(
            "NullSafePropertyAccess"@,
        ) == Some(form)),
        form.child("Expression"@) == Some(owner),
        form.child("ClassLikeMemberSelector"@) == Some(selector),
        is_variable(owner, "$this"@),
        is_member(selector, p),
        c.classes.last().props.contains_key(p),
    ensures
        told_at(
            extract::walked(t, c),
            c.edges.len() as int,
            seq![model::call_edge(place(c), m, true, Some(c.classes.last().props[p]))],
        ),
{
    lemma_member_call(t, c, e, m);
}

/// A class that sets its table is tied to the table where it is declared.
pub proof fn a_model_is_tied_to_its_table(t: TreeView, c: CtxView, name: TreeView, i: int, table: Seq<char>)
    requires
        t.kind == "Class"@,
        c.full,
        t.child("LocalIdentifier"@) == Some(name),
        !c.taken.contains(c.rel + "#"@ + name.text),
        eloquent::sets_table(ast::spanned(c.source, t.start as int, t.end as int), i, table),
    ensures
        extract::walked(t, c).edges.contains(model::named_edge(c.rel + "#"@ + name.text, "table"@, table)),
{
    let body = ast::spanned(c.source, t.start as int, t.end as int);
    let bases = extract::bare_names(extract::clause(t, "Extends"@));
    eloquent::a_class_maps_to_the_table_it_sets(name.text, bases, body, i, table);
    lemma_kinds();
    lemma_stays(t, c);
    let e = extract::entered(t, c);
    let k = e.edges.len() - 1;
    assert(e.edges[k] == model::named_edge(c.rel + "#"@ + name.text, "table"@, table));
    assert(extract::walked(t, c).edges[k] == e.edges[k]);
}

/// An Eloquent relation that a model declares by a call on itself leads from the class
/// to the related model, in place of a call.
pub proof fn eloquent_relations_are_recorded(t: TreeView, c: CtxView, e: TreeView, m: Seq<char>, related: Seq<char>)
    requires
        t.kind == "MethodCall"@,
        c.full,
        c.classes.len() > 0,
        calls_member(t, c, e, m),
        is_variable(e, "$this"@),
        model::is_relation(m),
        crate::laravel::related(ast::spanned(c.source, t.start as int, t.end as int)) == Some(related),
    ensures
        told_at(
            extract::walked(t, c),
            c.edges.len() as int,
            seq![model::named_edge(c.classes.last().id, m, related)],
        ),
{
    lemma_kinds();
    let edge = model::named_edge(c.classes.last().id, m, related);
    assert(c.edges.push(edge) =~= c.edges + seq![edge]);
    lemma_told(t, c, seq![edge]);
}

/// `X::m()` is a call on `X`: the named class, the innermost one for `self` and
/// `static`, and its base for `parent`.
pub proof fn static_calls_are_recorded(t: TreeView, c: CtxView, e: TreeView, m: Seq<char>, class: Option<Seq<char>>)
    requires
        t.kind == "StaticMethodCall"@ || (t.kind == "StaticMethodPartialApplication"@ && c.full),
        t.child("Expression"@) == Some(e),
        t.child("ClassLikeMemberSelector"@) matches Some(s) && is_member(s, m),
        ({
            ||| class is Some && is_name(e, class->0)
            ||| (is_keyword(e, "self"@) || is_keyword(e, "static"@)) && c.classes.len() > 0 && class == Some(
                c.classes.last().name,
            )
            ||| is_keyword(e, "parent"@) && c.full && c.classes.len() > 0 && class == c.classes.last().parent
        }),
    ensures
        told_at(
            extract::walked(t, c),
            c.edges.len() as int,
            seq![model::call_edge(place(c), m, true, class)],
        ),
{
    lemma_kinds();
    lemma_keywords();
    let edge = model::call_edge(place(c), m, true, class);
    assert(c.edges.push(edge) =~= c.edges + seq![edge]);
    lemma_told(t, c, seq![edge]);
}

proof fn lemma_keywords()
    ensures
        "self"@ != "static"@,
        "self"@ != "parent"@,
        "static"@ != "parent"@,
{
    reveal_strlit("self");
    reveal_strlit("static");
    reveal_strlit("parent");
    assert("self"@.len() == 4);
    assert("static"@[0] != "parent"@[0]);
}

/// `X::CONST` uses the class `X`; `parent::CONST` uses the base class.
pub proof fn constants_are_recorded(t: TreeView, c: CtxView, e: TreeView, class: Seq<char>)
    requires
        t.kind == "ClassConstantAccess"@,
        c.full,
        t.child("Expression"@) == Some(e),
        is_name(e, class) || (is_keyword(e, "parent"@) && c.classes.len() > 0 && c.classes.last().parent == Some(
            class,
        )),
    ensures
        told_at(
            extract::walked(t, c),
            c.edges.len() as int,
            seq![model::named_edge(place(c), "uses-const"@, class)],
        ),
{
    lemma_kinds();
    let edge = model::named_edge(place(c), "uses-const"@, class);
    assert(c.edges.push(edge) =~= c.edges + seq![edge]);
    lemma_told(t, c, seq![edge]);
}

/// The expression `new X()` constructs the class.
pub open spec fn constructs(inst: TreeView, c: CtxView, class: Seq<char>) -> bool {
    inst.child("Expression"@) matches Some(e) && (is_name(e, class) || ((is_keyword(e, "self"@) || is_keyword(
        e,
        "static"@,
    )) && c.classes.len() > 0 && class == c.classes.last().name))
}

/// `new X()` instantiates the class and calls its constructor.
pub proof fn instantiations_are_recorded(t: TreeView, c: CtxView, class: Seq<char>)
    requires
        t.kind == "Instantiation"@,
        c.full,
        constructs(t, c, class),
    ensures
        told_at(
            extract::walked(t, c),
            c.edges.len() as int,
            seq![
                model::named_edge(place(c), "instantiates"@, class),
                model::call_edge(place(c), "__construct"@, true, Some(class)),
            ],
        ),
{
    lemma_kinds();
    let a = model::named_edge(place(c), "instantiates"@, class);
    let b = model::call_edge(place(c), "__construct"@, true, Some(class));
    assert(c.edges.push(a).push(b) =~= c.edges + seq![a, b]);
    lemma_told(t, c, seq![a, b]);
}

/// A required or included file is a dependency of the file, whatever the scope.
pub proof fn required_files_are_recorded(t: TreeView, c: CtxView, e: TreeView, spec: Seq<char>)
    requires
        t.kind == "RequireConstruct"@ || t.kind == "RequireOnceConstruct"@ || t.kind == "IncludeConstruct"@ || t.kind
            == "IncludeOnceConstruct"@,
        c.full,
        t.child("Expression"@) == Some(e),
        php::required(ast::spanned(c.source, e.start as int, e.end as int)) == Some(spec),
    ensures
        told_at(
            extract::walked(t, c),
            c.edges.len() as int,
            seq![model::named_edge(c.rel, "requires"@, spec)],
        ),
{
    lemma_kinds();
    let edge = model::named_edge(c.rel, "requires"@, spec);
    assert(c.edges.push(edge) =~= c.edges + seq![edge]);
    lemma_told(t, c, seq![edge]);
}

/// The first `return` outside of all scopes marks the file, once; one in a function
/// does not.
pub proof fn a_returned_value_marks_the_file(t: TreeView, c: CtxView)
    requires
        t.kind == "Return"@,
        c.full,
    ensures
        c.scope.len() == 0 && !c.returned ==> told_at(
            extract::walked(t, c),
            c.edges.len() as int,
            seq![model::named_edge(c.rel, "returns"@, c.rel)],
        ) && extract::entered(t, c).returned,
        c.scope.len() > 0 || c.returned ==> extract::entered(t, c) == c,
{
    lemma_kinds();
    let edge = model::named_edge(c.rel, "returns"@, c.rel);
    assert(c.edges.push(edge) =~= c.edges + seq![edge]);
    if c.scope.len() == 0 && !c.returned {
        lemma_told(t, c, seq![edge]);
    }
}

// ---------------------------------------------------------------------------
// Where a construct stands

/// The state before the walk over child `j`, where that over child `k` starts in `c`.
spec fn state_at(p: TreeView, k: int, j: int, c: CtxView) -> CtxView
    decreases j - k,
{
    if k >= j {
        c
    } else {
        state_at(p, k + 1, j, extract::walked(p.children[k], c))
    }
}

proof fn lemma_grows_on(a: CtxView, b: CtxView, c: CtxView)
    requires
        extract::grows(a, b),
        extract::grows(b, c),
    ensures
        extract::grows(a, c),
{
    assert forall|i: int| 0 <= i < a.nodes.len() implies #[trigger] c.nodes[i] == a.nodes[i] by {
        assert(b.nodes[i] == a.nodes[i]);
    }
    assert forall|i: int| 0 <= i < a.edges.len() implies #[trigger] c.edges[i] == a.edges[i] by {
        assert(b.edges[i] == a.edges[i]);
    }
}

proof fn lemma_state_at(p: TreeView, k: int, j: int, c: CtxView)
    requires
        0 <= k <= j < p.children.len(),
    ensures
        extract::same_scopes(c, state_at(p, k, j, c)),
        extract::grows(c, state_at(p, k, j, c)),
        extract::grows(
            extract::walked(p.children[j], state_at(p, k, j, c)),
            extract::walked_children(p, k, c),
        ),
        (forall|m: int| k <= m < j ==> binds_nothing(#[trigger] p.children[m])) ==> state_at(p, k, j, c).bindings
            == c.bindings,
    decreases j - k,
{
    if k == j {
        extract::lemma_children_grow(p, k + 1, extract::walked(p.children[k], c));
    } else {
        let next = extract::walked(p.children[k], c);
        extract::scopes_are_left(p.children[k], c);
        extract::walks_only_add(p.children[k], c);
        lemma_state_at(p, k + 1, j, next);
        lemma_grows_on(c, next, state_at(p, k, j, c));
        if forall|m: int| k <= m < j ==> binds_nothing(#[trigger] p.children[m]) {
            assert(binds_nothing(p.children[k]));
            lemma_binds_nothing(p.children[k], c);
        }
    }
}

/// No assignment stands in the tree.
pub open spec fn binds_nothing(t: TreeView) -> bool
    decreases t,
{
    t.kind != "Assignment"@ && forall|k: int| 0 <= k < t.children.len() ==> binds_nothing(#[trigger] t.children[k])
}

proof fn lemma_binds_nothing(t: TreeView, c: CtxView)
    requires
        binds_nothing(t),
    ensures
        extract::walked(t, c).bindings == c.bindings,
    decreases t, t.children.len() + 2,
{
    let e = extract::entered(t, c);
    lemma_kinds();
    lemma_binds_nothing_in(t, 0, e);
    let d = extract::walked_children(t, 0, e);
    if opens_function(t) {
        assert(e.bindings.drop_last() =~= c.bindings);
    }
    assert(extract::walked(t, c).bindings =~= c.bindings);
}

proof fn lemma_binds_nothing_in(t: TreeView, k: int, c: CtxView)
    requires
        0 <= k,
        forall|j: int| 0 <= j < t.children.len() ==> binds_nothing(#[trigger] t.children[j]),
    ensures
        extract::walked_children(t, k, c).bindings == c.bindings,
    decreases t, t.children.len() + 1 - k,
{
    if k < t.children.len() {
        assert(binds_nothing(t.children[k]));
        lemma_binds_nothing(t.children[k], c);
        lemma_binds_nothing_in(t, k + 1, extract::walked(t.children[k], c));
    }
}

/// The tree opens a function.
pub open spec fn opens_function(t: TreeView) -> bool {
    t.kind == "Function"@ || t.kind == "Method"@ || t.kind == "Closure"@ || t.kind == "ArrowFunction"@
}

/// `t` stands in `p`, at most `n` layers below its children.
pub open spec fn stands_in(t: TreeView, p: TreeView, n: nat) -> bool
    decreases n,
{
    exists|k: int|
        0 <= k < p.children.len() && (#[trigger] p.children[k] == t || (n > 0 && stands_in(
            t,
            p.children[k],
            (n - 1) as nat,
        )))
}

/// `t` stands in the body of `p`, at most `n` layers below its children, with no other
/// declaration round it.
pub open spec fn stands_in_body(t: TreeView, p: TreeView, n: nat) -> bool
    decreases n,
{
    exists|k: int|
        0 <= k < p.children.len() && (#[trigger] p.children[k] == t || (n > 0 && !opens_scope(p.children[k])
            && stands_in_body(t, p.children[k], (n - 1) as nat)))
}

/// A state of the walk in which `t` is walked on the way from `c` to `d`: what is found
/// then stays found.
pub open spec fn is_walked_from(t: TreeView, c: CtxView, s: CtxView, d: CtxView) -> bool {
    s.rel == c.rel && s.source == c.source && s.full == c.full && extract::grows(extract::walked(t, s), d)
}

proof fn lemma_rel(t: TreeView, c: CtxView)
    ensures
        extract::entered(t, c).rel == c.rel,
        extract::entered(t, c).source == c.source,
        extract::entered(t, c).full == c.full,
        extract::grows(
            extract::walked_children(t, 0, extract::entered(t, c)),
            extract::walked(t, c),
        ),
{
}

/// Every part of a tree is walked, in the same file: whatever it gives is among what the
/// tree gives.
pub proof fn every_part_is_walked(t: TreeView, p: TreeView, n: nat, c: CtxView)
    requires
        stands_in(t, p, n),
    ensures
        exists|s: CtxView| #[trigger] is_walked_from(t, c, s, extract::walked(p, c)),
    decreases n,
{
    let inside = extract::entered(p, c);
    let k = choose|k: int|
        0 <= k < p.children.len() && (#[trigger] p.children[k] == t || (n > 0 && stands_in(
            t,
            p.children[k],
            (n - 1) as nat,
        )));
    let q = p.children[k];
    let at = state_at(p, 0, k, inside);
    lemma_rel(p, c);
    lemma_state_at(p, 0, k, inside);
    if q == t {
        lemma_grows_on(extract::walked(t, at), extract::walked_children(p, 0, inside), extract::walked(p, c));
        assert(is_walked_from(t, c, at, extract::walked(p, c)));
    } else {
        every_part_is_walked(t, q, (n - 1) as nat, at);
        let s = choose|s: CtxView| #[trigger] is_walked_from(t, at, s, extract::walked(q, at));
        lemma_grows_on(extract::walked(t, s), extract::walked(q, at), extract::walked_children(p, 0, inside));
        lemma_grows_on(extract::walked(t, s), extract::walked_children(p, 0, inside), extract::walked(p, c));
        assert(is_walked_from(t, c, s, extract::walked(p, c)));
    }
}

/// A state in the body of `p`, which was entered in the state `inside`: the same scopes
/// are open there.
pub open spec fn is_body_state(t: TreeView, inside: CtxView, s: CtxView, d: CtxView) -> bool {
    extract::same_scopes(inside, s) && extract::grows(inside, s) && extract::grows(extract::walked(t, s), d)
}

proof fn lemma_plain_entered(t: TreeView, c: CtxView)
    requires
        !opens_scope(t),
    ensures
        extract::same_scopes(c, extract::entered(t, c)),
        t.kind != "Assignment"@ ==> extract::entered(t, c).bindings == c.bindings,
        extract::walked(t, c) == extract::walked_children(t, 0, extract::entered(t, c)),
{
    lemma_kinds();
    assert(extract::entered(t, c).bindings.len() == c.bindings.len());
}

/// What stands in the body of `p` is walked with the scopes open that are open inside of
/// `p`; without an assignment in `p`, the variables have the classes that they have when
/// it is entered.
proof fn lemma_body(t: TreeView, p: TreeView, n: nat, inside: CtxView) -> (s: CtxView)
    requires
        stands_in_body(t, p, n),
    ensures
        is_body_state(t, inside, s, extract::walked_children(p, 0, inside)),
        (forall|m: int| 0 <= m < p.children.len() ==> binds_nothing(#[trigger] p.children[m])) ==> s.bindings
            == inside.bindings,
    decreases n,
{
    let k = choose|k: int|
        0 <= k < p.children.len() && (#[trigger] p.children[k] == t || (n > 0 && !opens_scope(p.children[k])
            && stands_in_body(t, p.children[k], (n - 1) as nat)));
    let q = p.children[k];
    let at = state_at(p, 0, k, inside);
    lemma_state_at(p, 0, k, inside);
    if q == t {
        at
    } else {
        let within = extract::entered(q, at);
        lemma_plain_entered(q, at);
        extract::lemma_entered_grows(q, at);
        let s = lemma_body(t, q, (n - 1) as nat, within);
        lemma_grows_on(inside, at, within);
        lemma_grows_on(inside, within, s);
        lemma_grows_on(extract::walked(t, s), extract::walked(q, at), extract::walked_children(p, 0, inside));
        if forall|m: int| 0 <= m < p.children.len() ==> binds_nothing(#[trigger] p.children[m]) {
            assert(binds_nothing(p.children[k]));
        }
        s
    }
}

proof fn lemma_contains(c: CtxView, d: CtxView, k: int, es: Seq<EdgeView>)
    requires
        told_at(c, k, es),
        extract::grows(c, d),
    ensures
        forall|j: int| 0 <= j < es.len() ==> d.edges.contains(#[trigger] es[j]),
{
    assert forall|j: int| 0 <= j < es.len() implies d.edges.contains(#[trigger] es[j]) by {
        assert(c.edges.subrange(k, k + es.len())[j] == c.edges[k + j]);
        assert(d.edges[k + j] == es[j]);
    }
}

/// Every trait that is used in the body of a class is implemented by that class.
pub proof fn the_traits_of_a_class_are_implemented(
    p: TreeView,
    t: TreeView,
    n: nat,
    c: CtxView,
    name: TreeView,
    k: int,
)
    requires
        p.kind == "Class"@ || p.kind == "Trait"@ || p.kind == "Enum"@,
        p.child("LocalIdentifier"@) == Some(name),
        !c.taken.contains(c.rel + "#"@ + name.text),
        t.kind == "TraitUse"@,
        stands_in_body(t, p, n),
        0 <= k < t.all("Identifier"@).len(),
    ensures
        extract::walked(p, c).edges.contains(
            model::named_edge(
                c.rel + "#"@ + name.text,
                "implements"@,
                ast::bare_name(t.all("Identifier"@)[k]),
            ),
        ),
{
    let id = c.rel + "#"@ + name.text;
    let inside = extract::entered(p, c);
    let d = extract::walked(p, c);
    lemma_kinds();
    lemma_rel(p, c);
    let s = lemma_body(t, p, n, inside);
    assert(inside.scope.last() == id);
    used_traits_are_recorded(t, s);
    lemma_grows_on(extract::walked(t, s), extract::walked_children(p, 0, inside), d);
    let es = edges_to(id, "implements"@, t.all("Identifier"@));
    lemma_contains(extract::walked(t, s), d, s.edges.len() as int, es);
    assert(d.edges.contains(es[k]));
}

/// Every method in the body of a class is a symbol of that class.
pub proof fn the_methods_of_a_class_are_its_symbols(
    p: TreeView,
    t: TreeView,
    n: nat,
    c: CtxView,
    class: TreeView,
    name: TreeView,
)
    requires
        p.kind == "Class"@ || p.kind == "Interface"@ || p.kind == "Trait"@ || p.kind == "Enum"@,
        p.child("LocalIdentifier"@) == Some(class),
        t.kind == "Method"@,
        t.child("LocalIdentifier"@) == Some(name),
        stands_in_body(t, p, n),
    ensures
        exists|i: int|
            0 <= i < extract::walked(p, c).nodes.len() && (#[trigger] extract::walked(p, c).nodes[i]).kind
                == "method"@ && extract::walked(p, c).nodes[i].name == name.text && extract::walked(
                p,
                c,
            ).nodes[i].path == c.rel && extract::walked(p, c).nodes[i].start == t.start && extract::walked(
                p,
                c,
            ).nodes[i].end == t.end,
{
    let inside = extract::entered(p, c);
    let d = extract::walked(p, c);
    lemma_kinds();
    lemma_rel(p, c);
    let s = lemma_body(t, p, n, inside);
    lemma_stays(t, s);
    lemma_grows_on(extract::walked(t, s), extract::walked_children(p, 0, inside), d);
    let at = s.nodes.len() as int;
    assert(extract::entered(t, s).nodes[at].kind == "method"@);
    assert(extract::walked(t, s).nodes[at] == extract::entered(t, s).nodes[at]);
    assert(d.nodes[at].kind == "method"@ && d.nodes[at].name == name.text && d.nodes[at].path == c.rel);
}

/// `$this->m()` in a method is a call on the class in whose body the method stands.
pub proof fn this_is_the_class_of_the_method(
    p: TreeView,
    f: TreeView,
    t: TreeView,
    n: nat,
    k: nat,
    c: CtxView,
    class: TreeView,
    e: TreeView,
    m: Seq<char>,
)
    requires
        p.kind == "Class"@ || p.kind == "Trait"@ || p.kind == "Enum"@,
        p.child("LocalIdentifier"@) == Some(class),
        f.kind == "Method"@,
        stands_in_body(f, p, n),
        stands_in_body(t, f, k),
        calls_member(t, c, e, m),
        is_variable(e, "$this"@),
        !model::is_relation(m),
    ensures
        exists|source: Seq<char>|
            extract::walked(p, c).edges.contains(
                #[trigger] model::call_edge(source, m, true, Some(class.text)),
            ),
{
    let inside = extract::entered(p, c);
    let d = extract::walked(p, c);
    lemma_kinds();
    lemma_rel(p, c);
    let s = lemma_body(f, p, n, inside);
    let within = extract::entered(f, s);
    let u = lemma_body(t, f, k, within);
    lemma_rel(f, s);
    assert(inside.classes.last().name == class.text);
    assert(within.classes == s.classes);
    this_is_the_innermost_class(t, u, e, m);
    let edge = model::call_edge(place(u), m, true, Some(class.text));
    lemma_grows_on(extract::walked(t, u), extract::walked_children(f, 0, within), extract::walked(f, s));
    lemma_grows_on(extract::walked(t, u), extract::walked(f, s), extract::walked_children(p, 0, inside));
    lemma_grows_on(extract::walked(t, u), extract::walked_children(p, 0, inside), d);
    lemma_contains(extract::walked(t, u), d, u.edges.len() as int, seq![edge]);
    assert(d.edges.contains(seq![edge][0]));
}

// ---------------------------------------------------------------------------
// The classes of variables

/// The parameters of a function.
pub open spec fn parameters_of(t: TreeView) -> Seq<TreeView> {
    match t.child("FunctionLikeParameterList"@) {
        Some(l) => l.all("FunctionLikeParameter"@),
        None => Seq::empty(),
    }
}

/// The parameter or property declares the variable `v`, with its `$`.
pub open spec fn declares_variable(p: TreeView, v: Seq<char>) -> bool {
    p.child("DirectVariable"@) matches Some(d) && d.text == v
}

/// The parameter or property is hinted to be of the class.
pub open spec fn is_hinted(p: TreeView, class: Seq<char>) -> bool {
    p.child("Hint"@) matches Some(h) && hints_at(h, class)
}

proof fn lemma_parameters(ps: Seq<TreeView>, n: int, k: int, v: Seq<char>, class: Seq<char>)
    requires
        0 <= k < n <= ps.len(),
        declares_variable(ps[k], v),
        is_hinted(ps[k], class),
        forall|j: int| k < j < n ==> !declares_variable(#[trigger] ps[j], v),
        forall|j: int| 0 <= j < n ==> (#[trigger] ps[j]).child("DirectVariable"@) is Some,
    ensures
        extract::parameter_types(ps, n).contains_key(v),
        extract::parameter_types(ps, n)[v] == class,
    decreases n,
{
    if n - 1 == k {
        a_hint_names_its_class(ps[k].child("Hint"@)->0, class);
        assert(ps[k].child("DirectVariable"@) is Some);
    } else {
        lemma_parameters(ps, n - 1, k, v, class);
        assert(!declares_variable(ps[n - 1], v));
        assert(ps[n - 1].child("DirectVariable"@) is Some);
    }
}

proof fn lemma_documented(m: Map<Seq<char>, Seq<char>>, docs: Seq<(Seq<char>, Seq<char>)>, n: int, v: Seq<char>)
    requires
        m.contains_key(v),
    ensures
        extract::with_documented(m, docs, n).contains_key(v),
        extract::with_documented(m, docs, n)[v] == m[v],
    decreases n,
{
    if n > 0 {
        lemma_documented(m, docs, n - 1, v);
    }
}

/// A parameter that is hinted to be of a class is of that class in the body of its
/// function: `$v->m()` is a call on it.
pub proof fn a_typed_parameter_is_of_its_class(
    f: TreeView,
    t: TreeView,
    n: nat,
    c: CtxView,
    k: int,
    v: Seq<char>,
    class: Seq<char>,
    e: TreeView,
    m: Seq<char>,
)
    requires
        opens_function(f),
        0 <= k < parameters_of(f).len(),
        declares_variable(parameters_of(f)[k], v),
        is_hinted(parameters_of(f)[k], class),
        forall|j: int| k < j < parameters_of(f).len() ==> !declares_variable(#[trigger] parameters_of(f)[j], v),
        forall|j: int|
            0 <= j < parameters_of(f).len() ==> (#[trigger] parameters_of(f)[j]).child("DirectVariable"@) is Some,
        v != "$this"@,
        stands_in_body(t, f, n),
        calls_member(t, c, e, m),
        is_variable(e, v),
        forall|j: int| 0 <= j < f.children.len() ==> binds_nothing(#[trigger] f.children[j]),
    ensures
        exists|source: Seq<char>|
            extract::walked(f, c).edges.contains(#[trigger] model::call_edge(source, m, true, Some(class))),
{
    let inside = extract::entered(f, c);
    let d = extract::walked(f, c);
    let ps = parameters_of(f);
    lemma_kinds();
    lemma_rel(f, c);
    lemma_parameters(ps, ps.len() as int, k, v, class);
    if c.full {
        if let Some(doc) = php::comment_before(c.source, f.start as int) {
            let docs = php::documented(doc);
            lemma_documented(extract::typed_parameters(f), docs, docs.len() as int, v);
        }
    }
    let last = inside.bindings.len() - 1;
    assert(inside.bindings[last].contains_key(v));
    assert(inside.bindings[last][v] == class);
    let s = lemma_body(t, f, n, inside);
    assert(is_bound(s, v, class)) by {
        assert(s.bindings[last].contains_key(v) && s.bindings[last][v] == class);
    }
    a_variable_is_of_its_class(t, s, e, v, m);
    let edge = model::call_edge(place(s), m, true, Some(class));
    lemma_grows_on(extract::walked(t, s), extract::walked_children(f, 0, inside), d);
    lemma_contains(extract::walked(t, s), d, s.edges.len() as int, seq![edge]);
    assert(d.edges.contains(seq![edge][0]));
}

/// The tree is `$v = new X()`, where the class `X` is the given one.
pub open spec fn assigns_new(t: TreeView, c: CtxView, v: Seq<char>, class: Seq<char>) -> bool {
    &&& t.kind == "Assignment"@
    &&& t.all("Expression"@).len() == 2
    &&& is_variable(t.all("Expression"@)[0], v)
    &&& t.all("Expression"@)[1].child("Instantiation"@) matches Some(inst) && constructs(inst, c, class)
    &&& t.child("AssignmentOperator"@) matches Some(o) && o.text == "="@
}

/// After `$v = new X()` the variable is of that class: a later `$v->m()` in the same
/// function is a call on it.
pub proof fn a_new_object_is_of_its_class(
    a: TreeView,
    t: TreeView,
    c: CtxView,
    v: Seq<char>,
    class: Seq<char>,
    e: TreeView,
    m: Seq<char>,
)
    requires
        c.full,
        c.bindings.len() > 0,
        v != "$this"@,
        assigns_new(a, c, v, class),
        forall|j: int| 0 <= j < a.children.len() ==> binds_nothing(#[trigger] a.children[j]),
        calls_member(t, c, e, m),
        is_variable(e, v),
    ensures
        ({
            let after = extract::walked(a, c);
            told_at(
                extract::walked(t, after),
                after.edges.len() as int,
                seq![model::call_edge(place(c), m, true, Some(class))],
            )
        }),
{
    let inside = extract::entered(a, c);
    let after = extract::walked(a, c);
    lemma_kinds();
    lemma_binds_nothing_in(a, 0, inside);
    extract::scopes_are_left(a, c);
    let last = c.bindings.len() - 1;
    assert(inside.bindings[last].contains_key(v) && inside.bindings[last][v] == class);
    assert(after.bindings == inside.bindings);
    assert(is_bound(after, v, class)) by {
        assert(after.bindings[last].contains_key(v) && after.bindings[last][v] == class);
    }
    a_variable_is_of_its_class(t, after, e, v, m);
}

/// A closure that is assigned to a variable goes by the variable's name.
pub proof fn a_closure_is_named_by_its_variable(t: TreeView, c: CtxView, name: Seq<char>)
    requires
        t.kind == "Assignment"@,
        t.all("Expression"@).len() == 2,
        name.len() > 0 && name[0] != '$',
        is_variable(t.all("Expression"@)[0], seq!['$'] + name),
        t.all("Expression"@)[1].child("Closure"@) is Some || t.all("Expression"@)[1].child("ArrowFunction"@) is Some,
    ensures
        extract::entered(t, c).pending == Some(name),
{
    lemma_kinds();
    lemma_undollared(name);
}

proof fn lemma_undollared(name: Seq<char>)
    requires
        name.len() > 0,
        name[0] != '$',
    ensures
        extract::undollared(seq!['$'] + name) == name,
{
    broadcast use text::lemma_run;

    let v = seq!['$'] + name;
    let r = text::run(v, 0, CharSet::One('$'));
    assert(v[0] == '$' && v[1] == name[0]);
    assert(r == 1) by {
        if r > 1 {
            assert(CharSet::One('$').has(v[1]));
        }
        if r < 1 {
            assert(!CharSet::One('$').has(v[0]));
        }
    }
    assert(v.subrange(1, v.len() as int) =~= name);
}

// ---------------------------------------------------------------------------
// The classes of properties

/// The member declares a property, or is the constructor.
pub open spec fn may_declare_properties(member: TreeView) -> bool {
    ||| member.child("Property"@) is Some
    ||| member.child("Method"@) matches Some(m) && m.child("LocalIdentifier"@) matches Some(n) && n.text
        == "__construct"@
}

/// The member is a property of this form, plain or hooked.
pub open spec fn has_form(member: TreeView, form: TreeView) -> bool {
    member.child("Property"@) matches Some(p) && (p.child("PlainProperty"@) == Some(form) || (p.child(
        "PlainProperty"@,
    ) is None && p.child("HookedProperty"@) == Some(form)))
}

/// The item declares the property variable `v`, with or without a value.
pub open spec fn declares_item(item: TreeView, v: Seq<char>) -> bool {
    ||| item.child("PropertyAbstractItem"@) matches Some(a) && declares_variable(a, v)
    ||| item.child("PropertyAbstractItem"@) is None && has_concrete(item, v)
}

/// The item declares the property variable `v` with a value.
pub open spec fn has_concrete(item: TreeView, v: Seq<char>) -> bool {
    item.child("PropertyConcreteItem"@) matches Some(a) && declares_variable(a, v)
}

proof fn lemma_items(
    before: Map<Seq<char>, Seq<char>>,
    items: Seq<TreeView>,
    n: int,
    k: int,
    name: Seq<char>,
    class: Seq<char>,
)
    requires
        0 <= k < n <= items.len(),
        name.len() > 0 && name[0] != '$',
        declares_item(items[k], seq!['$'] + name),
    ensures
        extract::with_items(before, items, n, class).contains_key(name),
        extract::with_items(before, items, n, class)[name] == class,
    decreases n,
{
    lemma_undollared(name);
    if n - 1 > k {
        lemma_items(before, items, n - 1, k, name, class);
    }
}

proof fn lemma_members(members: Seq<TreeView>, n: int, k: int, name: Seq<char>)
    requires
        0 <= k < n <= members.len(),
        extract::property_types(members, k + 1).contains_key(name),
        forall|j: int| k < j < n ==> !may_declare_properties(#[trigger] members[j]),
    ensures
        extract::property_types(members, n).contains_key(name),
        extract::property_types(members, n)[name] == extract::property_types(members, k + 1)[name],
    decreases n,
{
    if n - 1 > k {
        lemma_members(members, n - 1, k, name);
        assert(!may_declare_properties(members[n - 1]));
        reveal_strlit("__construct");
        assert("__construct"@.len() == 11);
        assert(extract::property_types(members, n) == extract::property_types(members, n - 1));
    }
}

/// A property that is declared with a class is of that class: inside of the class,
/// `$this->name` is known to be of it.
pub proof fn a_typed_property_is_of_its_class(
    p: TreeView,
    c: CtxView,
    k: int,
    form: TreeView,
    i: int,
    name: Seq<char>,
    class: Seq<char>,
)
    requires
        p.kind == "Class"@ || p.kind == "Trait"@ || p.kind == "Enum"@,
        0 <= k < p.all("ClassLikeMember"@).len(),
        has_form(p.all("ClassLikeMember"@)[k], form),
        is_hinted(form, class),
        0 <= i < form.all("PropertyItem"@).len(),
        name.len() > 0 && name[0] != '$',
        declares_item(form.all("PropertyItem"@)[i], seq!['$'] + name),
        forall|j: int|
            k < j < p.all("ClassLikeMember"@).len() ==> !may_declare_properties(
                #[trigger] p.all("ClassLikeMember"@)[j],
            ),
    ensures
        extract::entered(p, c).classes.len() == c.classes.len() + 1,
        extract::entered(p, c).classes.last().props.contains_key(name),
        extract::entered(p, c).classes.last().props[name] == class,
{
    let members = p.all("ClassLikeMember"@);
    let items = form.all("PropertyItem"@);
    lemma_kinds();
    a_hint_names_its_class(form.child("Hint"@)->0, class);
    let before = extract::property_types(members, k);
    lemma_items(before, items, items.len() as int, i, name, class);
    assert(extract::property_types(members, k + 1) == extract::with_items(
        before,
        items,
        items.len() as int,
        class,
    ));
    lemma_members(members, members.len() as int, k, name);
}

proof fn lemma_promoted(
    before: Map<Seq<char>, Seq<char>>,
    ps: Seq<TreeView>,
    n: int,
    k: int,
    name: Seq<char>,
    class: Seq<char>,
)
    requires
        0 <= k < n <= ps.len(),
        name.len() > 0 && name[0] != '$',
        ps[k].child("Modifier"@) is Some,
        declares_variable(ps[k], seq!['$'] + name),
        is_hinted(ps[k], class),
        forall|j: int| k < j < n ==> (#[trigger] ps[j]).child("Modifier"@) is None,
    ensures
        extract::with_promoted(before, ps, n).contains_key(name),
        extract::with_promoted(before, ps, n)[name] == class,
    decreases n,
{
    lemma_undollared(name);
    if n - 1 > k {
        lemma_promoted(before, ps, n - 1, k, name, class);
        assert(ps[n - 1].child("Modifier"@) is None);
    } else {
        a_hint_names_its_class(ps[k].child("Hint"@)->0, class);
    }
}

/// A parameter of the constructor with a modifier is a property of its class, too.
pub proof fn a_promoted_parameter_is_a_property(
    p: TreeView,
    c: CtxView,
    k: int,
    method: TreeView,
    i: int,
    name: Seq<char>,
    class: Seq<char>,
)
    requires
        p.kind == "Class"@ || p.kind == "Trait"@ || p.kind == "Enum"@,
        0 <= k < p.all("ClassLikeMember"@).len(),
        p.all("ClassLikeMember"@)[k].child("Property"@) is None,
        p.all("ClassLikeMember"@)[k].child("Method"@) == Some(method),
        method.child("LocalIdentifier"@) matches Some(n) && n.text == "__construct"@,
        0 <= i < parameters_of(method).len(),
        parameters_of(method)[i].child("Modifier"@) is Some,
        name.len() > 0 && name[0] != '$',
        declares_variable(parameters_of(method)[i], seq!['$'] + name),
        is_hinted(parameters_of(method)[i], class),
        forall|j: int|
            i < j < parameters_of(method).len() ==> (#[trigger] parameters_of(method)[j]).child("Modifier"@) is None,
        forall|j: int|
            k < j < p.all("ClassLikeMember"@).len() ==> !may_declare_properties(
                #[trigger] p.all("ClassLikeMember"@)[j],
            ),
    ensures
        extract::entered(p, c).classes.len() == c.classes.len() + 1,
        extract::entered(p, c).classes.last().props.contains_key(name),
        extract::entered(p, c).classes.last().props[name] == class,
{
    let members = p.all("ClassLikeMember"@);
    let ps = parameters_of(method);
    lemma_kinds();
    let before = extract::property_types(members, k);
    lemma_promoted(before, ps, ps.len() as int, i, name, class);
    assert(extract::property_types(members, k + 1) == extract::with_promoted(before, ps, ps.len() as int));
    lemma_members(members, members.len() as int, k, name);
}

/// Inside of a class, `parent` is the first class that it extends, and the class goes by
/// its name.
pub proof fn a_class_knows_its_base(p: TreeView, c: CtxView, class: TreeView)
    requires
        p.kind == "Class"@,
        p.child("LocalIdentifier"@) == Some(class),
    ensures
        extract::entered(p, c).classes.len() == c.classes.len() + 1,
        extract::entered(p, c).classes.last().name == class.text,
        listed(p, "Extends"@).len() > 0 ==> extract::entered(p, c).classes.last().parent == Some(
            ast::bare_name(listed(p, "Extends"@)[0]),
        ),
        listed(p, "Extends"@).len() == 0 ==> extract::entered(p, c).classes.last().parent is None,
{
    lemma_kinds();
}

// ---------------------------------------------------------------------------
// The whole file

proof fn lemma_of_the_file(
    rel: Seq<char>,
    base: Seq<char>,
    code: Seq<char>,
    tree: TreeView,
    t: TreeView,
    n: nat,
) -> (s: CtxView)
    requires
        stands_in(t, tree, n),
    ensures
        s.rel == rel,
        s.source == code,
        s.full,
        forall|e: EdgeView| #[trigger]
            extract::walked(t, s).edges.contains(e) ==> php::extracted_from(rel, base, code, tree).edges.contains(e),
        forall|e: NodeView| #[trigger]
            extract::walked(t, s).nodes.contains(e) ==> php::extracted_from(rel, base, code, tree).nodes.contains(e),
{
    let start = extract::started(rel, code, true);
    let c = CtxView { nodes: start.nodes.push(model::file_node(rel, base)), ..start };
    let d = extract::walked(tree, c);
    let all = php::extracted_from(rel, base, code, tree);
    every_part_is_walked(t, tree, n, c);
    let s = choose|s: CtxView| #[trigger] is_walked_from(t, c, s, d);
    assert forall|e: EdgeView| #[trigger] extract::walked(t, s).edges.contains(e) implies all.edges.contains(
        e,
    ) by {
        let k = choose|k: int| 0 <= k < extract::walked(t, s).edges.len() && extract::walked(t, s).edges[k] == e;
        assert(d.edges[k] == e);
        assert(all.edges[k] == e);
    }
    assert forall|e: NodeView| #[trigger] extract::walked(t, s).nodes.contains(e) implies all.nodes.contains(
        e,
    ) by {
        let k = choose|k: int| 0 <= k < extract::walked(t, s).nodes.len() && extract::walked(t, s).nodes[k] == e;
        assert(d.nodes[k] == e);
        assert(all.nodes[k] == e);
    }
    s
}

/// Every name that a file imports, anywhere, is an import of that file.
pub proof fn a_file_imports_what_it_uses(
    rel: Seq<char>,
    base: Seq<char>,
    code: Seq<char>,
    tree: TreeView,
    t: TreeView,
    n: nat,
    items: TreeView,
    list: TreeView,
    k: int,
)
    requires
        stands_in(t, tree, n),
        t.kind == "Use"@,
        t.child("UseItems"@) == Some(items),
        items.child("UseItemSequence"@) == Some(list),
        forall|j: int|
            0 <= j < list.all("UseItem"@).len() ==> (#[trigger] list.all("UseItem"@)[j]).child("Identifier"@) is Some,
        0 <= k < list.all("UseItem"@).len(),
    ensures
        php::extracted_from(rel, base, code, tree).edges.contains(
            model::named_edge(
                rel,
                "imports"@,
                ast::full_name(list.all("UseItem"@)[k].child("Identifier"@)->0),
            ),
        ),
{
    let s = lemma_of_the_file(rel, base, code, tree, t, n);
    let all = list.all("UseItem"@);
    let es = Seq::new(
        all.len(),
        |j: int| model::named_edge(rel, "imports"@, ast::full_name(all[j].child("Identifier"@)->0)),
    );
    imports_are_recorded(t, s, items, list);
    lemma_contains(extract::walked(t, s), extract::walked(t, s), s.edges.len() as int, es);
    assert(extract::walked(t, s).edges.contains(es[k]));
}

/// Every class, interface, trait, enum and function of a file is one of its symbols.
pub proof fn a_file_holds_what_it_declares(
    rel: Seq<char>,
    base: Seq<char>,
    code: Seq<char>,
    tree: TreeView,
    t: TreeView,
    n: nat,
    kind: Seq<char>,
    name: TreeView,
)
    requires
        stands_in(t, tree, n),
        declares(t, kind),
        t.child("LocalIdentifier"@) == Some(name),
    ensures
        exists|i: int|
            0 <= i < php::extracted_from(rel, base, code, tree).nodes.len() && is_symbol(
                #[trigger] php::extracted_from(rel, base, code, tree).nodes[i],
                kind,
                name.text,
                rel,
                t,
            ),
{
    let s = lemma_of_the_file(rel, base, code, tree, t, n);
    let w = extract::walked(t, s);
    let at = s.nodes.len() as int;
    lemma_kinds();
    lemma_stays(t, s);
    assert(extract::entered(t, s).nodes[at].kind == kind);
    assert(w.nodes[at] == extract::entered(t, s).nodes[at]);
    assert(w.nodes.contains(w.nodes[at]));
    let all = php::extracted_from(rel, base, code, tree).nodes;
    let i = choose|i: int| 0 <= i < all.len() && all[i] == w.nodes[at];
    assert(is_symbol(all[i], kind, name.text, rel, t));
}

/// The node is a symbol of this kind and name in the file, with the span of the tree.
pub open spec fn is_symbol(n: NodeView, kind: Seq<char>, name: Seq<char>, path: Seq<char>, t: TreeView) -> bool {
    n.kind == kind && n.name == name && n.path == path && n.start == t.start && n.end == t.end
}

/// Every call of a function by its name, anywhere in a file, is among its calls.
pub proof fn a_file_calls_what_it_calls(
    rel: Seq<char>,
    base: Seq<char>,
    code: Seq<char>,
    tree: TreeView,
    t: TreeView,
    n: nat,
    e: TreeView,
    name: Seq<char>,
)
    requires
        stands_in(t, tree, n),
        t.kind == "FunctionCall"@ || t.kind == "FunctionPartialApplication"@,
        t.child("Expression"@) == Some(e),
        is_name(e, name),
    ensures
        exists|source: Seq<char>|
            php::extracted_from(rel, base, code, tree).edges.contains(
                #[trigger] model::call_edge(source, name, false, None),
            ),
{
    let s = lemma_of_the_file(rel, base, code, tree, t, n);
    calls_are_recorded(t, s, e, name);
    let edge = model::call_edge(place(s), name, false, None);
    lemma_contains(extract::walked(t, s), extract::walked(t, s), s.edges.len() as int, seq![edge]);
    assert(extract::walked(t, s).edges.contains(seq![edge][0]));
}

/// Every construction of a class, anywhere in a file, instantiates it.
pub proof fn a_file_instantiates_what_it_constructs(
    rel: Seq<char>,
    base: Seq<char>,
    code: Seq<char>,
    tree: TreeView,
    t: TreeView,
    n: nat,
    e: TreeView,
    class: Seq<char>,
)
    requires
        stands_in(t, tree, n),
        t.kind == "Instantiation"@,
        t.child("Expression"@) == Some(e),
        is_name(e, class),
    ensures
        exists|source: Seq<char>|
            php::extracted_from(rel, base, code, tree).edges.contains(
                #[trigger] model::named_edge(source, "instantiates"@, class),
            ),
{
    let s = lemma_of_the_file(rel, base, code, tree, t, n);
    instantiations_are_recorded(t, s, class);
    let es = seq![
        model::named_edge(place(s), "instantiates"@, class),
        model::call_edge(place(s), "__construct"@, true, Some(class)),
    ];
    lemma_contains(extract::walked(t, s), extract::walked(t, s), s.edges.len() as int, es);
    assert(extract::walked(t, s).edges.contains(es[0]));
}

/// The documentation of a function gives a parameter the class that it names, where
/// the parameter declares none.
pub proof fn a_documented_parameter_is_of_its_class(
    t: TreeView,
    c: CtxView,
    doc: Seq<char>,
    v: Seq<char>,
    class: Seq<char>,
)
    requires
        c.full,
        php::comment_before(c.source, t.start as int) == Some(doc),
        php::documented(doc).contains((v, class)),
        forall|k: int|
            0 <= k < php::documented(doc).len() && (#[trigger] php::documented(doc)[k]).0 == v ==> php::documented(
                doc,
            )[k].1 == class,
    ensures
        extract::typed_parameters(t).contains_key(v) ==> extract::entry_types(c, t)[v] == extract::typed_parameters(
            t,
        )[v],
        !extract::typed_parameters(t).contains_key(v) ==> extract::entry_types(c, t).contains_key(v)
            && extract::entry_types(c, t)[v] == class,
{
    let docs = php::documented(doc);
    let i = choose|i: int| 0 <= i < docs.len() && docs[i] == (v, class);
    lemma_documented_class(extract::typed_parameters(t), docs, docs.len() as int, v, class, i);
}

proof fn lemma_documented_class(
    m: Map<Seq<char>, Seq<char>>,
    docs: Seq<(Seq<char>, Seq<char>)>,
    k: int,
    v: Seq<char>,
    class: Seq<char>,
    i: int,
)
    requires
        0 <= k <= docs.len(),
        0 <= i < docs.len(),
        docs[i] == (v, class),
        forall|j: int| 0 <= j < docs.len() && (#[trigger] docs[j]).0 == v ==> docs[j].1 == class,
    ensures
        ({
            let d = extract::with_documented(m, docs, k);
            &&& m.contains_key(v) ==> d.contains_key(v) && d[v] == m[v]
            &&& !m.contains_key(v) && d.contains_key(v) ==> d[v] == class
            &&& !m.contains_key(v) && i < k ==> d.contains_key(v)
        }),
    decreases k,
{
    if k > 0 {
        lemma_documented_class(m, docs, k - 1, v, class, i);
        assert(docs[k - 1].0 == v ==> docs[k - 1].1 == class);
    }
}

} // verus!
