//! What the walk over a JS/TS file records: of each construct, the nodes and edges that
//! it gives, wherever in the file it stands.

use vstd::prelude::*;

use crate::js;
use crate::js::JsView;
use crate::json::JsonView;
use crate::lang;
use crate::model;
use crate::model::{EdgeView, NodeView};
use crate::reading;
use crate::reading::reads;
use crate::seqs;
use crate::text::CharSet;
use crate::types;

verus! {

// ---------------------------------------------------------------------------
// Reading the tree

/// The value is a node of this type.
pub open spec fn is_a(j: JsonView, ty: Seq<char>) -> bool {
    j.at("type"@) == JsonView::Str(ty)
}

/// The node is the identifier `n`.
pub open spec fn is_identifier(j: JsonView, n: Seq<char>) -> bool {
    is_a(j, "Identifier"@) && j.at("name"@) == JsonView::Str(n)
}

/// The node is `object.n`.
pub open spec fn is_member_of(j: JsonView, object: JsonView, n: Seq<char>) -> bool {
    is_a(j, "MemberExpression"@) && j.at("computed"@) == JsonView::Bool(false) && is_identifier(
        j.at("property"@),
        n,
    ) && j.at("object"@) == object
}

/// The node is a layer that leaves the value of an expression as it is: parentheses, a
/// cast, a check of its type, or that it is not null.
pub open spec fn is_layer(j: JsonView) -> bool {
    is_a(j, "ParenthesizedExpression"@) || is_a(j, "TSAsExpression"@) || is_a(j, "TSSatisfiesExpression"@) || is_a(
        j,
        "TSNonNullExpression"@,
    )
}

/// The node is `e`, which is no such layer, under at most `n` of them.
pub open spec fn is_under(j: JsonView, e: JsonView, n: nat) -> bool
    decreases n,
{
    (j == e && !is_layer(e)) || (n > 0 && is_layer(j) && !(j.at("expression"@) is Null) && is_under(
        j.at("expression"@),
        e,
        (n - 1) as nat,
    ))
}

/// Layers that leave the value as it is do not matter.
pub proof fn layers_do_not_matter(j: JsonView, e: JsonView, n: nat)
    requires
        is_under(j, e, n),
    ensures
        js::peeled(j) == e,
    decreases n,
{
    lemma_types();
    if !(j == e && !is_layer(e)) {
        layers_do_not_matter(j.at("expression"@), e, (n - 1) as nat);
    }
}

/// The expression names `n`, as an identifier or as a member.
pub open spec fn names(j: JsonView, n: Seq<char>) -> bool {
    is_identifier(j, n) || exists|o: JsonView| is_member_of(j, o, n)
}

/// A reference goes by its own name, or by that of the member that it selects.
pub proof fn a_reference_goes_by_its_name(j: JsonView, e: JsonView, k: nat, n: Seq<char>)
    requires
        is_under(j, e, k),
        names(e, n),
    ensures
        js::reference_name(j) == Some(n),
{
    lemma_types();
    layers_do_not_matter(j, e, k);
}

/// The type is a reference to the class `n`, however it is qualified.
pub open spec fn is_type_named(t: JsonView, n: Seq<char>) -> bool {
    &&& is_a(t, "TSTypeReference"@)
    &&& is_identifier(t.at("typeName"@), n) || (is_a(t.at("typeName"@), "TSQualifiedName"@) && t.at("typeName"@).at(
        "right"@,
    ).at("name"@) == JsonView::Str(n))
}

/// The node carries an annotation that it is of the class `n`.
pub open spec fn is_annotated(j: JsonView, n: Seq<char>) -> bool {
    is_type_named(j.at("typeAnnotation"@).at("typeAnnotation"@), n)
}

/// An annotation that refers to a class names it; any other type names none.
pub proof fn an_annotation_names_its_class(j: JsonView, n: Seq<char>)
    ensures
        is_annotated(j, n) ==> js::annotated(j.at("typeAnnotation"@)) == Some(n),
        !is_a(j.at("typeAnnotation"@).at("typeAnnotation"@), "TSTypeReference"@) ==> js::annotated(
            j.at("typeAnnotation"@),
        ) is None,
{
    lemma_types();
}

#[verifier::opaque]
spec fn tag(s: Seq<char>) -> int {
    s.len() * 100000 + s[0] as int * 300 + s[2] as int
}

proof fn lemma_types()
    ensures
        tag("ClassDeclaration"@) == 1620197,
        tag("ClassExpression"@) == 1520197,
        tag("FunctionDeclaration"@) == 1921110,
        tag("FunctionExpression"@) == 1821110,
        tag("TSDeclareFunction"@) == 1725268,
        tag("TSEmptyBodyFunctionExpression"@) == 2925269,
        tag("MethodDefinition"@) == 1623216,
        tag("TSAbstractMethodDefinition"@) == 2625265,
        tag("TSInterfaceDeclaration"@) == 2225273,
        tag("TSEnumDeclaration"@) == 1725269,
        tag("ImportDeclaration"@) == 1722012,
        tag("VariableDeclarator"@) == 1825914,
        tag("CallExpression"@) == 1420208,
        tag("Identifier"@) == 1022001,
        tag("MemberExpression"@) == 1623209,
        tag("ThisExpression"@) == 1425305,
        tag("NewExpression"@) == 1323519,
        tag("ParenthesizedExpression"@) == 2324114,
        tag("TSAsExpression"@) == 1425265,
        tag("TSSatisfiesExpression"@) == 2125283,
        tag("TSNonNullExpression"@) == 1925278,
        tag("TSTypeReference"@) == 1525284,
        tag("TSQualifiedName"@) == 1525281,
        tag("PrivateIdentifier"@) == 1724105,
{
    reveal(tag);
    reveal_strlit("ClassDeclaration");
    reveal_strlit("ClassExpression");
    reveal_strlit("FunctionDeclaration");
    reveal_strlit("FunctionExpression");
    reveal_strlit("TSDeclareFunction");
    reveal_strlit("TSEmptyBodyFunctionExpression");
    reveal_strlit("MethodDefinition");
    reveal_strlit("TSAbstractMethodDefinition");
    reveal_strlit("TSInterfaceDeclaration");
    reveal_strlit("TSEnumDeclaration");
    reveal_strlit("ImportDeclaration");
    reveal_strlit("VariableDeclarator");
    reveal_strlit("CallExpression");
    reveal_strlit("Identifier");
    reveal_strlit("MemberExpression");
    reveal_strlit("ThisExpression");
    reveal_strlit("NewExpression");
    reveal_strlit("ParenthesizedExpression");
    reveal_strlit("TSAsExpression");
    reveal_strlit("TSSatisfiesExpression");
    reveal_strlit("TSNonNullExpression");
    reveal_strlit("TSTypeReference");
    reveal_strlit("TSQualifiedName");
    reveal_strlit("PrivateIdentifier");
}

/// The id of the innermost scope, or the file outside of all.
pub open spec fn place(c: JsView) -> Seq<char> {
    if c.scope.len() > 0 {
        c.scope[c.scope.len() - 1]
    } else {
        c.rel
    }
}

proof fn lemma_stays(j: JsonView, c: JsView)
    requires
        j is Obj,
    ensures
        js::grows(js::entered(j, c), js::walked(j, c)),
        js::grows(c, js::entered(j, c)),
{
    js::lemma_entered_grows(j, c);
    js::lemma_members_grow(j, j->Obj_0, j->Obj_0.len() as int, js::entered(j, c));
}

/// The edges of a state from index `k` on start with `es`.
pub open spec fn told_at(c: JsView, k: int, es: Seq<EdgeView>) -> bool {
    0 <= k && k + es.len() <= c.edges.len() && c.edges.subrange(k, k + es.len()) == es
}

proof fn lemma_told(j: JsonView, c: JsView, k: int, es: Seq<EdgeView>)
    requires
        j is Obj,
        told_at(js::entered(j, c), k, es),
    ensures
        told_at(js::walked(j, c), k, es),
{
    let d = js::walked(j, c);
    let e = js::entered(j, c);
    lemma_stays(j, c);
    assert forall|i: int| 0 <= i < es.len() implies d.edges[k + i] == es[i] by {
        assert(e.edges.subrange(k, k + es.len())[i] == e.edges[k + i]);
        assert(d.edges[k + i] == e.edges[k + i]);
    }
    assert(d.edges.subrange(k, k + es.len()) =~= es);
}

proof fn lemma_pushed(j: JsonView, c: JsView, edge: EdgeView)
    requires
        j is Obj,
        js::entered(j, c).edges == c.edges.push(edge),
    ensures
        told_at(js::walked(j, c), c.edges.len() as int, seq![edge]),
{
    let n = c.edges.len() as int;
    assert(js::entered(j, c).edges.subrange(n, n + 1) =~= seq![edge]);
    lemma_told(j, c, n, seq![edge]);
}

/// The span of a node.
pub open spec fn spans(j: JsonView, start: u32, end: u32) -> bool {
    j.at("start"@) == JsonView::Int(start as u64) && j.at("end"@) == JsonView::Int(end as u64)
}

// ---------------------------------------------------------------------------
// Declarations

/// The node declares a symbol of this kind.
pub open spec fn declares(j: JsonView, kind: Seq<char>) -> bool {
    ||| (is_a(j, "FunctionDeclaration"@) || is_a(j, "TSDeclareFunction"@)) && kind == "function"@
    ||| is_a(j, "TSInterfaceDeclaration"@) && kind == "interface"@
    ||| is_a(j, "TSEnumDeclaration"@) && kind == "enum"@
    ||| (is_a(j, "ClassDeclaration"@) || is_a(j, "ClassExpression"@)) && kind == (if is_decorated(
        j,
        "Component"@,
    ) {
        "component"@
    } else {
        "class"@
    })
}

/// The decorator applies `n`, by its name or by a call of it.
pub open spec fn applies(d: JsonView, n: Seq<char>) -> bool {
    js::decoration(d) == Some(n)
}

/// A decorator goes by the name of what it applies: `@N` and `@N(...)` by `N`.
pub proof fn a_decorator_goes_by_its_name(d: JsonView, e: JsonView, k: nat, n: Seq<char>)
    requires
        is_under(d.at("expression"@), e, k),
        names(e, n) || (is_a(e, "CallExpression"@) && names(e.at("callee"@), n)),
    ensures
        applies(d, n),
{
    lemma_types();
    layers_do_not_matter(d.at("expression"@), e, k);
    if is_a(e, "CallExpression"@) && names(e.at("callee"@), n) {
        assert(is_under(e.at("callee"@), e.at("callee"@), 0));
        a_reference_goes_by_its_name(e.at("callee"@), e.at("callee"@), 0, n);
    } else {
        assert(is_under(e, e, 0));
        a_reference_goes_by_its_name(e, e, 0, n);
    }
}

/// The class is decorated by `n`.
pub open spec fn is_decorated(j: JsonView, n: Seq<char>) -> bool {
    j.at("decorators"@) matches JsonView::Arr(ds) && exists|i: int| 0 <= i < ds.len() && applies(#[trigger] ds[i], n)
}

/// A function, class, interface or enum gives a symbol under its name, with its span,
/// which the innermost scope contains; an Angular component is one by its decorator.
pub proof fn a_declaration_gives_a_symbol(
    j: JsonView,
    c: JsView,
    kind: Seq<char>,
    name: Seq<char>,
    start: u32,
    end: u32,
)
    requires
        declares(j, kind),
        j.at("id"@).at("name"@) == JsonView::Str(name),
        spans(j, start, end),
        c.pending is None,
        !c.taken.contains(c.rel + "#"@ + name),
    ensures
        ({
            let d = js::walked(j, c);
            let id = c.rel + "#"@ + name;
            &&& c.nodes.len() < d.nodes.len()
            &&& d.nodes[c.nodes.len() as int] == NodeView { id, name, kind, path: c.rel, start, end }
            &&& told_at(d, c.edges.len() as int, seq![model::contains_edge(place(c), id)])
        }),
{
    let id = c.rel + "#"@ + name;
    let e = js::entered(j, c);
    let n = c.edges.len() as int;
    lemma_types();
    lemma_stays(j, c);
    lemma_component(j);
    assert(e.nodes[c.nodes.len() as int] == NodeView { id, name, kind, path: c.rel, start, end });
    assert(e.edges[n] == model::contains_edge(place(c), id));
    assert(e.edges.subrange(n, n + 1) =~= seq![model::contains_edge(place(c), id)]);
    lemma_told(j, c, n, seq![model::contains_edge(place(c), id)]);
}

proof fn lemma_component(j: JsonView)
    ensures
        js::is_component(j) == is_decorated(j, "Component"@),
{
}

/// A method gives a symbol of the innermost class, under its name.
pub proof fn a_method_gives_a_symbol_of_its_class(
    j: JsonView,
    f: JsonView,
    c: JsView,
    name: Seq<char>,
    start: u32,
    end: u32,
)
    requires
        is_a(j, "MethodDefinition"@) || is_a(j, "TSAbstractMethodDefinition"@),
        (is_identifier(j.at("key"@), name) && j.at("computed"@) == JsonView::Bool(false)) || (is_a(
            j.at("key"@),
            "PrivateIdentifier"@,
        ) && j.at("key"@).at("name"@) == JsonView::Str(name)),
        is_a(f, "FunctionExpression"@) || is_a(f, "TSEmptyBodyFunctionExpression"@),
        spans(f, start, end),
        c.classes.len() > 0,
        !c.taken.contains(c.rel + "#"@ + (c.classes.last() + "."@ + name)),
    ensures
        ({
            let m = js::entered(j, c);
            let d = js::walked(f, m);
            let id = c.rel + "#"@ + (c.classes.last() + "."@ + name);
            &&& c.nodes.len() < d.nodes.len()
            &&& d.nodes[c.nodes.len() as int] == NodeView { id, name, kind: "method"@, path: c.rel, start, end }
            &&& told_at(d, c.edges.len() as int, seq![model::contains_edge(place(c), id)])
        }),
{
    let m = js::entered(j, c);
    let id = c.rel + "#"@ + (c.classes.last() + "."@ + name);
    let e = js::entered(f, m);
    let n = c.edges.len() as int;
    lemma_types();
    lemma_stays(f, m);
    assert(e.nodes[c.nodes.len() as int] == NodeView { id, name, kind: "method"@, path: c.rel, start, end });
    assert(e.edges.subrange(n, n + 1) =~= seq![model::contains_edge(place(c), id)]);
    lemma_told(f, m, n, seq![model::contains_edge(place(c), id)]);
}

/// A class that extends another says so, and one that implements others says so of each.
pub proof fn heritage_is_recorded(
    j: JsonView,
    c: JsView,
    name: Seq<char>,
    base: JsonView,
    k: nat,
    up: Seq<char>,
)
    requires
        is_a(j, "ClassDeclaration"@) || is_a(j, "ClassExpression"@),
        j.at("id"@).at("name"@) == JsonView::Str(name),
        is_under(j.at("superClass"@), base, k),
        names(base, up),
    ensures
        js::walked(j, c).edges.contains(model::named_edge(c.rel + "#"@ + name, "extends"@, up)),
{
    let e = js::entered(j, c);
    let d = js::walked(j, c);
    let id = c.rel + "#"@ + name;
    lemma_types();
    lemma_stays(j, c);
    a_reference_goes_by_its_name(j.at("superClass"@), base, k, up);
    let edge = model::named_edge(id, "extends"@, up);
    let es = js::clause_edges(id, "implements"@, j.at("implements"@));
    let at = e.edges.len() - es.len() - 1;
    assert(e.edges[at] == edge);
    assert(d.edges[at] == edge);
}

/// The entry of a clause names the type `n`.
pub open spec fn is_entry(t: JsonView, n: Seq<char>) -> bool {
    ||| names(t.at("expression"@), n)
    ||| is_a(t.at("expression"@), "TSQualifiedName"@) && t.at("expression"@).at("right"@).at("name"@)
        == JsonView::Str(n)
}

/// Each type that a class implements, and each that an interface extends, is recorded.
pub proof fn clauses_are_recorded(
    j: JsonView,
    c: JsView,
    name: Seq<char>,
    clause: Seq<JsonView>,
    k: int,
    n: Seq<char>,
    relation: Seq<char>,
)
    requires
        ({
            ||| (is_a(j, "ClassDeclaration"@) || is_a(j, "ClassExpression"@)) && relation == "implements"@ && j.at(
                "implements"@,
            ) == JsonView::Arr(clause)
            ||| is_a(j, "TSInterfaceDeclaration"@) && relation == "extends"@ && j.at("extends"@) == JsonView::Arr(
                clause,
            )
        }),
        j.at("id"@).at("name"@) == JsonView::Str(name),
        0 <= k < clause.len(),
        is_entry(clause[k], n),
    ensures
        js::walked(j, c).edges.contains(model::named_edge(c.rel + "#"@ + name, relation, n)),
{
    let e = js::entered(j, c);
    let d = js::walked(j, c);
    let id = c.rel + "#"@ + name;
    let f = js::clause_edge(id, relation);
    let edge = model::named_edge(id, relation, n);
    let es = seqs::each(clause, f);
    lemma_types();
    lemma_stays(j, c);
    assert(f(clause[k]) == seq![edge]);
    assert(f(clause[k])[0] == edge);
    seqs::lemma_each(clause, 0, f, edge);
    let m = choose|m: int| 0 <= m < es.len() && es[m] == edge;
    let at = e.edges.len() - es.len() + m;
    assert(e.edges[at] == edge);
    assert(d.edges[at] == edge);
}

/// The class is decorated by `@n({ key: 'value' })`.
pub open spec fn has_option(j: JsonView, n: Seq<char>, key: Seq<char>, value: Seq<char>) -> bool {
    js::class_option(j, n, key) == Some(value)
}

/// An Angular component is a symbol under its selector, too.
pub proof fn a_component_goes_by_its_selector(j: JsonView, c: JsView, name: Seq<char>, selector: Seq<char>)
    requires
        is_a(j, "ClassDeclaration"@) || is_a(j, "ClassExpression"@),
        j.at("id"@).at("name"@) == JsonView::Str(name),
        is_decorated(j, "Component"@),
        has_option(j, "Component"@, "selector"@, selector),
        name != selector,
        !c.taken.contains(c.rel + "#"@ + selector),
    ensures
        exists|i: int|
            0 <= i < js::walked(j, c).nodes.len() && (#[trigger] js::walked(j, c).nodes[i]).name == selector
                && js::walked(j, c).nodes[i].kind == "component"@ && js::walked(j, c).nodes[i].id == c.rel + "#"@
                + selector,
{
    let e = js::entered(j, c);
    let d = js::walked(j, c);
    lemma_types();
    lemma_stays(j, c);
    lemma_component(j);
    let id = c.rel + "#"@ + selector;
    assert(c.symbol_id(name) != id) by {
        let a = c.symbol_id(name);
        let k = (c.rel + "#"@).len() as int;
        if a == id {
            assert(a.subrange(k, a.len() as int) =~= name);
            assert(id.subrange(k, id.len() as int) =~= selector);
        }
    }
    let own = c.with_symbol(
        c.symbol_id(name),
        name,
        "component"@,
        js::offset(j, "start"@),
        js::offset(j, "end"@),
    );
    let at = own.nodes.len() as int;
    assert(e.nodes[at].name == selector);
    assert(d.nodes[at] == e.nodes[at]);
}

/// A class that registers a pipe says so, and the pipe is a node that is shared with
/// its users.
pub proof fn a_pipe_is_registered(j: JsonView, c: JsView, name: Seq<char>, pipe: Seq<char>)
    requires
        is_a(j, "ClassDeclaration"@) || is_a(j, "ClassExpression"@),
        j.at("id"@).at("name"@) == JsonView::Str(name),
        has_option(j, "Pipe"@, "name"@, pipe),
        js::reference_name(j.at("superClass"@)) is None,
        j.at("implements"@) is Null || j.at("implements"@) == JsonView::Arr(Seq::empty()),
    ensures
        js::walked(j, c).edges.contains(model::named_edge(c.rel + "#"@ + name, "defines-pipe"@, pipe)),
{
    let e = js::entered(j, c);
    let d = js::walked(j, c);
    let edge = model::named_edge(c.rel + "#"@ + name, "defines-pipe"@, pipe);
    lemma_types();
    lemma_stays(j, c);
    let at = e.edges.len() - 1;
    assert(e.edges[at] == edge);
    assert(d.edges[at] == edge);
}

// ---------------------------------------------------------------------------
// References

/// An import leads from the file to what it imports, as it is written.
pub proof fn imports_are_recorded(j: JsonView, c: JsView, spec: Seq<char>)
    requires
        is_a(j, "ImportDeclaration"@),
        j.at("source"@).at("value"@) == JsonView::Str(spec),
    ensures
        told_at(
            js::walked(j, c),
            c.edges.len() as int,
            seq![model::named_edge(c.rel, "imports"@, spec)],
        ),
{
    lemma_types();
    lemma_pushed(j, c, model::named_edge(c.rel, "imports"@, spec));
}

/// A call of a function by its name is recorded where it stands.
pub proof fn calls_are_recorded(j: JsonView, c: JsView, callee: JsonView, k: nat, name: Seq<char>)
    requires
        is_a(j, "CallExpression"@),
        is_under(j.at("callee"@), callee, k),
        is_identifier(callee, name),
    ensures
        told_at(
            js::walked(j, c),
            c.edges.len() as int,
            seq![model::call_edge(place(c), name, false, None)],
        ),
{
    lemma_types();
    layers_do_not_matter(j.at("callee"@), callee, k);
    lemma_pushed(j, c, model::call_edge(place(c), name, false, None));
}

/// The node is the call `object.m()`.
pub open spec fn calls_member(j: JsonView, object: JsonView, m: Seq<char>, k: nat) -> bool {
    is_a(j, "CallExpression"@) && exists|callee: JsonView, o: JsonView|
        #![trigger is_member_of(callee, o, m), is_under(o, object, k)]
        is_under(j.at("callee"@), callee, k) && is_member_of(callee, o, m) && is_under(o, object, k)
}

proof fn lemma_member_call(j: JsonView, c: JsView, object: JsonView, m: Seq<char>, k: nat) -> (o: JsonView)
    requires
        calls_member(j, object, m, k),
    ensures
        js::peeled(o) == object,
        told_at(
            js::walked(j, c),
            c.edges.len() as int,
            seq![model::call_edge(place(c), m, true, js::receiver(o, c))],
        ),
{
    let (callee, o) = choose|callee: JsonView, o: JsonView|
        #![trigger is_member_of(callee, o, m), is_under(o, object, k)]
        is_under(j.at("callee"@), callee, k) && is_member_of(callee, o, m) && is_under(o, object, k);
    lemma_types();
    layers_do_not_matter(j.at("callee"@), callee, k);
    layers_do_not_matter(o, object, k);
    lemma_pushed(j, c, model::call_edge(place(c), m, true, js::receiver(o, c)));
    o
}

/// `this.m()` is a call on the innermost class.
pub proof fn this_is_the_innermost_class(j: JsonView, c: JsView, object: JsonView, m: Seq<char>, k: nat)
    requires
        calls_member(j, object, m, k),
        is_a(object, "ThisExpression"@),
        c.classes.len() > 0,
    ensures
        told_at(
            js::walked(j, c),
            c.edges.len() as int,
            seq![model::call_edge(place(c), m, true, Some(c.classes.last()))],
        ),
{
    lemma_types();
    let o = lemma_member_call(j, c, object, m, k);
}

/// The innermost scope that knows the class of the variable says `class`.
pub open spec fn is_bound(c: JsView, v: Seq<char>, class: Seq<char>) -> bool {
    exists|k: int|
        0 <= k < c.bindings.len() && (#[trigger] c.bindings[k]).contains_key(v) && c.bindings[k][v] == class
            && forall|j: int| k < j < c.bindings.len() ==> !(#[trigger] c.bindings[j]).contains_key(v)
}

proof fn lemma_bound(frames: Seq<Map<Seq<char>, Seq<char>>>, n: int, k: int, v: Seq<char>)
    requires
        0 <= k < n <= frames.len(),
        frames[k].contains_key(v),
        forall|j: int| k < j < n ==> !(#[trigger] frames[j]).contains_key(v),
    ensures
        types::innermost(frames, n, v) == Some(frames[k][v]),
    decreases n,
{
    if n - 1 > k {
        lemma_bound(frames, n - 1, k, v);
    }
}

proof fn lemma_unbound(frames: Seq<Map<Seq<char>, Seq<char>>>, n: int, v: Seq<char>)
    requires
        0 <= n <= frames.len(),
        forall|j: int| 0 <= j < n ==> !(#[trigger] frames[j]).contains_key(v),
    ensures
        types::innermost(frames, n, v) is None,
    decreases n,
{
    if n > 0 {
        lemma_unbound(frames, n - 1, v);
    }
}

/// `v.m()` is a call on the class that is known of the variable; where none is, the
/// class of the receiver is left open.
pub proof fn a_variable_is_of_its_class(j: JsonView, c: JsView, object: JsonView, v: Seq<char>, m: Seq<char>, k: nat)
    requires
        calls_member(j, object, m, k),
        is_identifier(object, v),
    ensures
        forall|class: Seq<char>| #[trigger]
            is_bound(c, v, class) ==> told_at(
                js::walked(j, c),
                c.edges.len() as int,
                seq![model::call_edge(place(c), m, true, Some(class))],
            ),
        (forall|i: int| 0 <= i < c.bindings.len() ==> !(#[trigger] c.bindings[i]).contains_key(v)) ==> told_at(
            js::walked(j, c),
            c.edges.len() as int,
            seq![model::call_edge(place(c), m, true, None)],
        ),
{
    lemma_types();
    let o = lemma_member_call(j, c, object, m, k);
    assert forall|class: Seq<char>| #[trigger] is_bound(c, v, class) implies told_at(
        js::walked(j, c),
        c.edges.len() as int,
        seq![model::call_edge(place(c), m, true, Some(class))],
    ) by {
        let i = choose|k: int|
            0 <= k < c.bindings.len() && (#[trigger] c.bindings[k]).contains_key(v) && c.bindings[k][v] == class
                && forall|j: int| k < j < c.bindings.len() ==> !(#[trigger] c.bindings[j]).contains_key(v);
        lemma_bound(c.bindings, c.bindings.len() as int, i, v);
    }
    if forall|i: int| 0 <= i < c.bindings.len() ==> !(#[trigger] c.bindings[i]).contains_key(v) {
        lemma_unbound(c.bindings, c.bindings.len() as int, v);
    }
}

// ---------------------------------------------------------------------------
// The classes of variables

/// No variable is declared in the tree.
pub open spec fn binds_nothing(j: JsonView) -> bool
    decreases j,
{
    match j {
        JsonView::Arr(s) => forall|i: int| 0 <= i < s.len() ==> binds_nothing(#[trigger] s[i]),
        JsonView::Obj(s) => !is_a(j, "VariableDeclarator"@) && forall|i: int|
            0 <= i < s.len() ==> binds_nothing((#[trigger] s[i]).1),
        _ => true,
    }
}

proof fn lemma_binds_nothing(j: JsonView, c: JsView)
    requires
        binds_nothing(j),
    ensures
        js::walked(j, c).bindings == c.bindings,
    decreases j, js::breadth(j) + 1,
{
    match j {
        JsonView::Arr(s) => {
            lemma_items_bind_nothing(j, s, s.len() as int, c);
        },
        JsonView::Obj(s) => {
            let inside = js::entered(j, c);
            lemma_types();
            lemma_members_bind_nothing(j, s, s.len() as int, inside);
            let d = js::walked_members(j, s, s.len() as int, inside);
            if inside.bindings.len() == c.bindings.len() + 1 {
                assert(inside.bindings.drop_last() =~= c.bindings);
            }
            assert(js::walked(j, c).bindings =~= c.bindings);
        },
        _ => {},
    }
}

proof fn lemma_items_bind_nothing(j: JsonView, s: Seq<JsonView>, k: int, c: JsView)
    requires
        forall|i: int| 0 <= i < s.len() ==> binds_nothing(#[trigger] s[i]),
    ensures
        js::walked_items(j, s, k, c).bindings == c.bindings,
    decreases j, k,
{
    if 0 < k <= s.len() && j == JsonView::Arr(s) {
        assert(decreases_to!(j => j->Arr_0));
        assert(decreases_to!(s => s[k - 1]));
        lemma_items_bind_nothing(j, s, k - 1, c);
        assert(binds_nothing(s[k - 1]));
        lemma_binds_nothing(s[k - 1], js::walked_items(j, s, k - 1, c));
    }
}

proof fn lemma_members_bind_nothing(j: JsonView, s: Seq<(Seq<char>, JsonView)>, k: int, c: JsView)
    requires
        forall|i: int| 0 <= i < s.len() ==> binds_nothing((#[trigger] s[i]).1),
    ensures
        js::walked_members(j, s, k, c).bindings == c.bindings,
    decreases j, k,
{
    if 0 < k <= s.len() && j == JsonView::Obj(s) {
        assert(decreases_to!(j => j->Obj_0));
        assert(decreases_to!(s => s[k - 1]));
        assert(decreases_to!(s[k - 1] => s[k - 1].1));
        lemma_members_bind_nothing(j, s, k - 1, c);
        assert(binds_nothing(s[k - 1].1));
        lemma_binds_nothing(s[k - 1].1, js::walked_members(j, s, k - 1, c));
    }
}

/// The node declares the variable `v` to be of the class: by an annotation, whatever
/// its value is, or without one by a value `new X()`.
pub open spec fn declares_variable(j: JsonView, v: Seq<char>, class: Seq<char>) -> bool {
    &&& is_a(j, "VariableDeclarator"@)
    &&& is_identifier(j.at("id"@), v)
    &&& {
        ||| is_annotated(j.at("id"@), class)
        ||| js::annotated(j.at("id"@).at("typeAnnotation"@)) is None && is_new(j.at("init"@), class)
    }
}

/// The value is `new X()`, where `X` goes by the name of the class.
pub open spec fn is_new(init: JsonView, class: Seq<char>) -> bool {
    exists|e: JsonView, b: JsonView, n: nat|
        #![trigger is_under(init, e, n), names(b, class)]
        is_under(init, e, n) && is_a(e, "NewExpression"@) && is_under(e.at("callee"@), b, n) && names(b, class)
}

proof fn lemma_declared(j: JsonView, v: Seq<char>, class: Seq<char>)
    requires
        declares_variable(j, v, class),
    ensures
        js::inferred(j) == Some(class),
{
    lemma_types();
    an_annotation_names_its_class(j.at("id"@), class);
    if !is_annotated(j.at("id"@), class) {
        let (e, b, n) = choose|e: JsonView, b: JsonView, n: nat|
            #![trigger is_under(j.at("init"@), e, n), names(b, class)]
            is_under(j.at("init"@), e, n) && is_a(e, "NewExpression"@) && is_under(e.at("callee"@), b, n) && names(
                b,
                class,
            );
        layers_do_not_matter(j.at("init"@), e, n);
        a_reference_goes_by_its_name(e.at("callee"@), b, n, class);
    }
}

/// A variable that is declared to be of a class is of it from then on: a later `v.m()`
/// in the same scope is a call on that class.
pub proof fn a_declared_variable_is_of_its_class(
    d: JsonView,
    j: JsonView,
    c: JsView,
    v: Seq<char>,
    class: Seq<char>,
    object: JsonView,
    m: Seq<char>,
    k: nat,
)
    requires
        c.bindings.len() > 0,
        declares_variable(d, v, class),
        forall|i: int| 0 <= i < d->Obj_0.len() ==> binds_nothing((#[trigger] d->Obj_0[i]).1),
        calls_member(j, object, m, k),
        is_identifier(object, v),
    ensures
        ({
            let after = js::walked(d, c);
            told_at(
                js::walked(j, after),
                after.edges.len() as int,
                seq![model::call_edge(place(c), m, true, Some(class))],
            )
        }),
{
    let inside = js::entered(d, c);
    let after = js::walked(d, c);
    let s = d->Obj_0;
    lemma_types();
    lemma_declared(d, v, class);
    assert(d == JsonView::Obj(s));
    lemma_members_bind_nothing(d, s, s.len() as int, inside);
    js::scopes_are_left(d, c);
    let last = c.bindings.len() - 1;
    assert(inside.bindings[last].contains_key(v) && inside.bindings[last][v] == class);
    assert(after.bindings == inside.bindings);
    assert(is_bound(after, v, class)) by {
        assert(after.bindings[last].contains_key(v) && after.bindings[last][v] == class);
    }
    a_variable_is_of_its_class(j, after, object, v, m, k);
}

/// The parameter is the variable `v` of the class: by itself, as a property that it
/// declares, or with a default.
pub open spec fn is_parameter(p: JsonView, v: Seq<char>, class: Seq<char>) -> bool {
    let q = if is_a(p, "TSParameterProperty"@) { p.at("parameter"@) } else { p };
    let r = if is_a(q, "AssignmentPattern"@) { q.at("left"@) } else { q };
    is_identifier(r, v) && is_annotated(r, class)
}

/// The parameter is not the variable `v`.
pub open spec fn is_other(p: JsonView, v: Seq<char>) -> bool {
    let q = if is_a(p, "TSParameterProperty"@) { p.at("parameter"@) } else { p };
    let r = if is_a(q, "AssignmentPattern"@) { q.at("left"@) } else { q };
    r.at("name"@) != JsonView::Str(v)
}

proof fn lemma_parameters(ps: Seq<JsonView>, n: int, k: int, v: Seq<char>, class: Seq<char>)
    requires
        0 <= k < n <= ps.len(),
        is_parameter(ps[k], v, class),
        forall|j: int| k < j < n ==> is_other(#[trigger] ps[j], v),
    ensures
        js::parameter_types(ps, n).contains_key(v),
        js::parameter_types(ps, n)[v] == class,
    decreases n,
{
    lemma_types();
    if n - 1 == k {
        an_annotation_names_its_class(js::bare_parameter(ps[k]), class);
    } else {
        lemma_parameters(ps, n - 1, k, v, class);
        assert(is_other(ps[n - 1], v));
    }
}

/// A parameter that is annotated with a class is of it when its function is entered.
pub proof fn a_typed_parameter_is_of_its_class(
    f: JsonView,
    c: JsView,
    name: Seq<char>,
    ps: Seq<JsonView>,
    k: int,
    v: Seq<char>,
    class: Seq<char>,
)
    requires
        is_a(f, "FunctionDeclaration"@) || is_a(f, "FunctionExpression"@),
        f.at("id"@).at("name"@) == JsonView::Str(name) || c.pending is Some,
        f.at("params"@) == JsonView::Arr(ps),
        0 <= k < ps.len(),
        is_parameter(ps[k], v, class),
        forall|j: int| k < j < ps.len() ==> is_other(#[trigger] ps[j], v),
    ensures
        is_bound(js::entered(f, c), v, class),
{
    let inside = js::entered(f, c);
    lemma_types();
    lemma_parameters(ps, ps.len() as int, k, v, class);
    let last = inside.bindings.len() - 1;
    assert(inside.bindings[last].contains_key(v) && inside.bindings[last][v] == class);
}

/// The decorator is `@n({ key: 'value' })`.
pub open spec fn gives_option(d: JsonView, n: Seq<char>, key: Seq<char>, value: Seq<char>) -> bool {
    exists|e: JsonView, b: JsonView, k: nat, args: Seq<JsonView>, ps: Seq<JsonView>, i: int|
        #![trigger is_under(d.at("expression"@), e, k), names(b, n), is_option(ps, i, key, value), is_call_with(e, args, ps)]
        is_under(d.at("expression"@), e, k) && is_under(e.at("callee"@), b, k) && names(b, n) && is_call_with(
            e,
            args,
            ps,
        ) && is_option(ps, i, key, value)
}

/// The node is a call whose first argument is an object of these properties.
pub open spec fn is_call_with(e: JsonView, args: Seq<JsonView>, ps: Seq<JsonView>) -> bool {
    is_a(e, "CallExpression"@) && e.at("arguments"@) == JsonView::Arr(args) && args.len() > 0 && is_a(
        args[0],
        "ObjectExpression"@,
    ) && args[0].at("properties"@) == JsonView::Arr(ps)
}

/// Property `i` is `key: 'value'`, and none before it has that key.
pub open spec fn is_option(ps: Seq<JsonView>, i: int, key: Seq<char>, value: Seq<char>) -> bool {
    &&& 0 <= i < ps.len()
    &&& is_a(ps[i], "Property"@)
    &&& ps[i].at("computed"@) == JsonView::Bool(false)
    &&& is_identifier(ps[i].at("key"@), key)
    &&& is_a(ps[i].at("value"@), "Literal"@)
    &&& ps[i].at("value"@).at("value"@) == JsonView::Str(value)
    &&& forall|m: int| 0 <= m < i ==> !is_identifier((#[trigger] ps[m]).at("key"@), key)
}

proof fn lemma_first_at(ps: Seq<JsonView>, k: int, i: int, f: spec_fn(JsonView) -> Option<Seq<char>>)
    requires
        0 <= k <= i < ps.len(),
        f(ps[i]) is Some,
        forall|m: int| k <= m < i ==> f(#[trigger] ps[m]) is None,
    ensures
        seqs::first_from(ps, k, f) == f(ps[i]),
    decreases i - k,
{
    if k < i {
        lemma_first_at(ps, k + 1, i, f);
    }
}

/// A decorator gives its class the options that it is called with: the class has the
/// option that its first decorator of that name gives it.
pub proof fn a_decorator_gives_its_options(
    j: JsonView,
    ds: Seq<JsonView>,
    i: int,
    n: Seq<char>,
    key: Seq<char>,
    value: Seq<char>,
)
    requires
        j.at("decorators"@) == JsonView::Arr(ds),
        0 <= i < ds.len(),
        gives_option(ds[i], n, key, value),
        forall|m: int| 0 <= m < i ==> !applies(#[trigger] ds[m], n),
    ensures
        has_option(j, n, key, value),
{
    let f = js::decorator_option(n, key);
    let d = ds[i];
    let (e, b, k, args, ps, at) = choose|
        e: JsonView,
        b: JsonView,
        k: nat,
        args: Seq<JsonView>,
        ps: Seq<JsonView>,
        at: int,
    |
        #![trigger is_under(d.at("expression"@), e, k), names(b, n), is_option(ps, at, key, value), is_call_with(e, args, ps)]
        is_under(d.at("expression"@), e, k) && is_under(e.at("callee"@), b, k) && names(b, n) && is_call_with(
            e,
            args,
            ps,
        ) && is_option(ps, at, key, value);
    lemma_types();
    layers_do_not_matter(d.at("expression"@), e, k);
    a_reference_goes_by_its_name(e.at("callee"@), b, k, n);
    let g = js::string_of_property(key);
    let v = ps[at].at("value"@);
    assert(!is_layer(v)) by {
        lemma_literal();
    }
    assert(is_under(v, v, 0));
    layers_do_not_matter(v, v, 0);
    assert(g(ps[at]) == Some(value));
    assert forall|m: int| 0 <= m < at implies g(#[trigger] ps[m]) is None by {
        assert(!is_identifier(ps[m].at("key"@), key));
    }
    lemma_first_at(ps, 0, at, g);
    assert(f(d) == Some(value));
    assert forall|m: int| 0 <= m < i implies f(#[trigger] ds[m]) is None by {
        assert(!applies(ds[m], n));
    }
    lemma_first_at(ds, 0, i, f);
}

proof fn lemma_literal()
    ensures
        "Literal"@ != "ParenthesizedExpression"@,
        "Literal"@ != "TSAsExpression"@,
        "Literal"@ != "TSSatisfiesExpression"@,
        "Literal"@ != "TSNonNullExpression"@,
{
    reveal_strlit("Literal");
    reveal_strlit("ParenthesizedExpression");
    reveal_strlit("TSAsExpression");
    reveal_strlit("TSSatisfiesExpression");
    reveal_strlit("TSNonNullExpression");
    assert("Literal"@.len() == 7);
}

// ---------------------------------------------------------------------------
// Where a construct stands

/// `t` is an element or a member of `p`.
pub open spec fn is_part(t: JsonView, p: JsonView) -> bool {
    match p {
        JsonView::Arr(s) => s.contains(t),
        JsonView::Obj(s) => exists|i: int| 0 <= i < s.len() && (#[trigger] s[i]).1 == t,
        _ => false,
    }
}

/// `t` stands in `p`, at most `n` layers below its parts.
pub open spec fn stands_in(t: JsonView, p: JsonView, n: nat) -> bool
    decreases n,
{
    is_part(t, p) || (n > 0 && exists|q: JsonView| #[trigger] is_part(q, p) && stands_in(t, q, (n - 1) as nat))
}

/// A state of the walk in which `t` is walked on the way to `d`: what is found then
/// stays found.
pub open spec fn is_walked_from(t: JsonView, rel: Seq<char>, s: JsView, d: JsView) -> bool {
    s.rel == rel && js::grows(js::walked(t, s), d)
}

proof fn lemma_grows_on(a: JsView, b: JsView, c: JsView)
    requires
        js::grows(a, b),
        js::grows(b, c),
    ensures
        js::grows(a, c),
{
    assert forall|i: int| 0 <= i < a.nodes.len() implies #[trigger] c.nodes[i] == a.nodes[i] by {
        assert(b.nodes[i] == a.nodes[i]);
    }
    assert forall|i: int| 0 <= i < a.edges.len() implies #[trigger] c.edges[i] == a.edges[i] by {
        assert(b.edges[i] == a.edges[i]);
    }
}

proof fn lemma_item(j: JsonView, s: Seq<JsonView>, k: int, i: int, c: JsView)
    requires
        j == JsonView::Arr(s),
        0 <= i < k <= s.len(),
    ensures
        js::grows(js::walked(s[i], js::walked_items(j, s, i, c)), js::walked_items(j, s, k, c)),
    decreases k,
{
    if i < k - 1 {
        lemma_item(j, s, k - 1, i, c);
        js::walks_only_add(s[k - 1], js::walked_items(j, s, k - 1, c));
        lemma_grows_on(
            js::walked(s[i], js::walked_items(j, s, i, c)),
            js::walked_items(j, s, k - 1, c),
            js::walked_items(j, s, k, c),
        );
    }
}

proof fn lemma_member(j: JsonView, s: Seq<(Seq<char>, JsonView)>, k: int, i: int, c: JsView)
    requires
        j == JsonView::Obj(s),
        0 <= i < k <= s.len(),
    ensures
        js::grows(js::walked(s[i].1, js::walked_members(j, s, i, c)), js::walked_members(j, s, k, c)),
    decreases k,
{
    if i < k - 1 {
        lemma_member(j, s, k - 1, i, c);
        js::walks_only_add(s[k - 1].1, js::walked_members(j, s, k - 1, c));
        lemma_grows_on(
            js::walked(s[i].1, js::walked_members(j, s, i, c)),
            js::walked_members(j, s, k - 1, c),
            js::walked_members(j, s, k, c),
        );
    }
}

proof fn lemma_part(t: JsonView, p: JsonView, c: JsView) -> (s: JsView)
    requires
        is_part(t, p),
    ensures
        is_walked_from(t, c.rel, s, js::walked(p, c)),
{
    match p {
        JsonView::Arr(items) => {
            let i = choose|i: int| 0 <= i < items.len() && items[i] == t;
            let s = js::walked_items(p, items, i, c);
            js::lemma_items_scopes(p, items, i, c);
            lemma_item(p, items, items.len() as int, i, c);
            s
        },
        JsonView::Obj(members) => {
            let i = choose|i: int| 0 <= i < members.len() && (#[trigger] members[i]).1 == t;
            let inside = js::entered(p, c);
            let s = js::walked_members(p, members, i, inside);
            let n = members.len() as int;
            js::lemma_members_scopes(p, members, i, inside);
            lemma_member(p, members, n, i, inside);
            lemma_grows_on(
                js::walked(t, s),
                js::walked_members(p, members, n, inside),
                js::walked(p, c),
            );
            s
        },
        _ => c,
    }
}

/// Every part of a tree is walked, in the same file: whatever it gives is among what the
/// tree gives.
pub proof fn every_part_is_walked(t: JsonView, p: JsonView, n: nat, c: JsView)
    requires
        stands_in(t, p, n),
    ensures
        exists|s: JsView| #[trigger] is_walked_from(t, c.rel, s, js::walked(p, c)),
    decreases n,
{
    if is_part(t, p) {
        let s = lemma_part(t, p, c);
        assert(is_walked_from(t, c.rel, s, js::walked(p, c)));
    } else {
        let q = choose|q: JsonView| #[trigger] is_part(q, p) && stands_in(t, q, (n - 1) as nat);
        let at = lemma_part(q, p, c);
        every_part_is_walked(t, q, (n - 1) as nat, at);
        let s = choose|s: JsView| #[trigger] is_walked_from(t, at.rel, s, js::walked(q, at));
        lemma_grows_on(js::walked(t, s), js::walked(q, at), js::walked(p, c));
        assert(is_walked_from(t, c.rel, s, js::walked(p, c)));
    }
}

proof fn lemma_of_the_file(
    rel: Seq<char>,
    base: Seq<char>,
    code: Seq<char>,
    tree: JsonView,
    t: JsonView,
    n: nat,
) -> (s: JsView)
    requires
        stands_in(t, tree, n),
    ensures
        s.rel == rel,
        forall|e: EdgeView| #[trigger]
            js::walked(t, s).edges.contains(e) ==> js::extracted_from(rel, base, code, tree).edges.contains(e),
        forall|e: NodeView| #[trigger]
            js::walked(t, s).nodes.contains(e) ==> js::extracted_from(rel, base, code, tree).nodes.contains(e),
{
    let c = js::started(rel, base);
    let d = js::walked(tree, c);
    let all = js::extracted_from(rel, base, code, tree);
    every_part_is_walked(t, tree, n, c);
    let s = choose|s: JsView| #[trigger] is_walked_from(t, c.rel, s, d);
    assert forall|e: EdgeView| #[trigger] js::walked(t, s).edges.contains(e) implies all.edges.contains(e) by {
        let k = choose|k: int| 0 <= k < js::walked(t, s).edges.len() && js::walked(t, s).edges[k] == e;
        assert(d.edges[k] == e);
        assert(all.edges[k] == e);
    }
    assert forall|e: NodeView| #[trigger] js::walked(t, s).nodes.contains(e) implies all.nodes.contains(e) by {
        let k = choose|k: int| 0 <= k < js::walked(t, s).nodes.len() && js::walked(t, s).nodes[k] == e;
        assert(d.nodes[k] == e);
    }
    s
}

proof fn lemma_told_contains(c: JsView, k: int, es: Seq<EdgeView>, i: int)
    requires
        told_at(c, k, es),
        0 <= i < es.len(),
    ensures
        c.edges.contains(es[i]),
{
    assert(c.edges.subrange(k, k + es.len())[i] == c.edges[k + i]);
}

/// Every import of a file, wherever it stands, is recorded.
pub proof fn a_file_imports_what_it_imports(
    rel: Seq<char>,
    base: Seq<char>,
    code: Seq<char>,
    tree: JsonView,
    t: JsonView,
    n: nat,
    spec: Seq<char>,
)
    requires
        stands_in(t, tree, n),
        is_a(t, "ImportDeclaration"@),
        t.at("source"@).at("value"@) == JsonView::Str(spec),
    ensures
        js::extracted_from(rel, base, code, tree).edges.contains(model::named_edge(rel, "imports"@, spec)),
{
    let s = lemma_of_the_file(rel, base, code, tree, t, n);
    imports_are_recorded(t, s, spec);
    lemma_told_contains(
        js::walked(t, s),
        s.edges.len() as int,
        seq![model::named_edge(rel, "imports"@, spec)],
        0,
    );
}

/// Every call of a function by its name, wherever it stands in a file, is recorded.
pub proof fn a_file_calls_what_it_calls(
    rel: Seq<char>,
    base: Seq<char>,
    code: Seq<char>,
    tree: JsonView,
    t: JsonView,
    n: nat,
    callee: JsonView,
    k: nat,
    name: Seq<char>,
)
    requires
        stands_in(t, tree, n),
        is_a(t, "CallExpression"@),
        is_under(t.at("callee"@), callee, k),
        is_identifier(callee, name),
    ensures
        exists|source: Seq<char>|
            js::extracted_from(rel, base, code, tree).edges.contains(
                #[trigger] model::call_edge(source, name, false, None),
            ),
{
    let s = lemma_of_the_file(rel, base, code, tree, t, n);
    calls_are_recorded(t, s, callee, k, name);
    let edge = model::call_edge(place(s), name, false, None);
    lemma_told_contains(js::walked(t, s), s.edges.len() as int, seq![edge], 0);
    assert(js::extracted_from(rel, base, code, tree).edges.contains(edge));
}

/// Every class, interface and enum of a file is contained in one of its scopes, under
/// its name.
pub proof fn a_file_holds_what_it_declares(
    rel: Seq<char>,
    base: Seq<char>,
    code: Seq<char>,
    tree: JsonView,
    t: JsonView,
    n: nat,
    name: Seq<char>,
)
    requires
        stands_in(t, tree, n),
        is_a(t, "ClassDeclaration"@) || is_a(t, "TSInterfaceDeclaration"@) || is_a(t, "TSEnumDeclaration"@),
        t.at("id"@).at("name"@) == JsonView::Str(name),
    ensures
        exists|scope: Seq<char>|
            js::extracted_from(rel, base, code, tree).edges.contains(
                #[trigger] model::contains_edge(scope, rel + "#"@ + name),
            ),
{
    let s = lemma_of_the_file(rel, base, code, tree, t, n);
    let e = js::entered(t, s);
    let w = js::walked(t, s);
    let edge = model::contains_edge(place(s), rel + "#"@ + name);
    lemma_types();
    lemma_stays(t, s);
    let at = s.edges.len() as int;
    assert(e.edges[at] == edge);
    assert(w.edges[at] == edge);
    assert(w.edges.contains(edge));
    assert(js::extracted_from(rel, base, code, tree).edges.contains(edge));
}

// ---------------------------------------------------------------------------
// Vue components

/// The script of a component is what stands between its tags.
pub proof fn the_script_of_a_component_is_between_its_tags(
    s: Seq<char>,
    open: int,
    start: int,
    end: int,
    script: Seq<char>,
)
    requires
        0 <= open < start,
        reads(s, open, "<script"@),
        start > 0 && s[start - 1] == '>',
        end == start + script.len(),
        reads(s, start, script),
        reads(s, end, "</script>"@),
        forall|k: int| 0 <= k < open ==> !#[trigger] reads(s, k, "<script"@),
        forall|k: int| open <= k < start - 1 ==> #[trigger] s[k] != '>',
        forall|k: int| start <= k < end ==> !#[trigger] reads(s, k, "</script>"@),
        forall|k: int| end + 9 <= k ==> !#[trigger] reads(s, k, "<script"@),
    ensures
        js::scripts_from(s, 0) == script + "\n"@,
{
    reveal_strlit("<script");
    reveal_strlit("</script>");
    reading::lemma_find_at(s, "<script"@, 0, open);
    reading::lemma_seek_to(s, open, start - 1, CharSet::One('>'));
    reading::lemma_find_at(s, "</script>"@, start, end);
    reading::lemma_reads(s, start, script);
    let z = end + 9;
    reading::lemma_find_none(s, "<script"@, z);
    reading::lemma_seek_to(s, s.len() as int, s.len() as int, CharSet::One('>'));
    assert(js::scripts_from(s, z) =~= Seq::<char>::empty());
    assert(js::scripts_from(s, 0) =~= script + "\n"@ + js::scripts_from(s, z));
}

/// A component is a symbol of its file, under the name that it gives itself or else
/// that of the file.
pub proof fn a_component_goes_by_its_file(rel: Seq<char>, stem: Seq<char>, code: Seq<char>, tree: JsonView)
    requires
        tree is Obj,
    ensures
        ({
            let base = stem + ".vue"@;
            let found = js::vue_extracted_from(rel, base, code, tree);
            let name = match js::component_name(tree) {
                Some(n) => n,
                None => stem,
            };
            &&& found.edges.contains(model::contains_edge(rel, rel + "#"@ + name))
            &&& exists|n: NodeView| #[trigger]
                found.nodes.contains(n) && n.id == rel + "#"@ + name && n.name == name && n.kind == "component"@
                    && n.path == rel
        }),
{
    reveal_strlit(".vue");
    reveal_strlit("#");
    let base = stem + ".vue"@;
    let found = js::vue_extracted_from(rel, base, code, tree);
    assert(base.subrange(base.len() - 4, base.len() as int) =~= ".vue"@);
    assert(base.take(base.len() - 4) =~= stem);
    assert(js::stem(base) == stem);
    let name = match js::component_name(tree) {
        Some(n) => n,
        None => stem,
    };
    let start = js::started(rel, base);
    let id = rel + "#"@ + name;
    assert(id.len() > rel.len());
    let inside = start.with_symbol(
        id,
        name,
        "component"@,
        0,
        js::byte_size(js::scripts_from(code, 0)),
    );
    let c = JsView { scope: inside.scope.push(id), ..inside };
    let end = js::walked(tree, c);
    lemma_stays(tree, c);
    let e = js::entered(tree, c);
    assert(c.nodes[1].id == id);
    assert(e.nodes[1] == c.nodes[1]);
    assert(end.nodes[1] == e.nodes[1]);
    assert(found.nodes.contains(end.nodes[1]));
    let edge = model::contains_edge(rel, id);
    assert(c.edges[0] == edge);
    assert(e.edges[0] == c.edges[0]);
    assert(end.edges[0] == e.edges[0]);
    assert(end.edges.contains(edge));
    reading::lemma_behind(end.edges, lang::lang_edges(rel, code), edge);
}

/// A script or a component uses the keys that its text uses.
pub proof fn a_script_uses_its_keys(
    rel: Seq<char>,
    base: Seq<char>,
    code: Seq<char>,
    tree: JsonView,
    key: Seq<char>,
)
    requires
        lang::lang_edges(rel, code).contains(model::named_edge(rel, "uses-lang"@, key)),
    ensures
        js::extracted_from(rel, base, code, tree).edges.contains(model::named_edge(rel, "uses-lang"@, key)),
        js::vue_extracted_from(rel, base, code, tree).edges.contains(model::named_edge(rel, "uses-lang"@, key)),
{
    let e = model::named_edge(rel, "uses-lang"@, key);
    let l = lang::lang_edges(rel, code);
    let k = choose|k: int| 0 <= k < l.len() && l[k] == e;
    let a = js::extracted_from(rel, base, code, tree).edges;
    let b = js::vue_extracted_from(rel, base, code, tree).edges;
    assert(a[a.len() - l.len() + k] == e);
    assert(b[b.len() - l.len() + k] == e);
}

/// The statement exports an object with these members by default.
pub open spec fn exports_object(j: JsonView, ps: Seq<JsonView>) -> bool {
    &&& is_a(j, "ExportDefaultDeclaration"@)
    &&& is_a(j.at("declaration"@), "ObjectExpression"@)
    &&& j.at("declaration"@).at("properties"@) == JsonView::Arr(ps)
}

/// A component goes by the name that the object that it exports gives itself.
pub proof fn a_component_goes_by_its_name(
    tree: JsonView,
    body: Seq<JsonView>,
    i: int,
    ps: Seq<JsonView>,
    at: int,
    name: Seq<char>,
)
    requires
        tree.at("body"@) == JsonView::Arr(body),
        0 <= i < body.len(),
        exports_object(body[i], ps),
        is_option(ps, at, "name"@, name),
        forall|m: int| 0 <= m < i ==> is_a(#[trigger] body[m], "ImportDeclaration"@),
    ensures
        js::component_name(tree) == Some(name),
{
    let g = js::string_of_property("name"@);
    let v = ps[at].at("value"@);
    lemma_types();
    assert(!is_layer(v)) by {
        lemma_literal();
    }
    assert(is_under(v, v, 0));
    layers_do_not_matter(v, v, 0);
    assert(g(ps[at]) == Some(name));
    assert forall|m: int| 0 <= m < at implies g(#[trigger] ps[m]) is None by {
        assert(!is_identifier(ps[m].at("key"@), "name"@));
    }
    lemma_first_at(ps, 0, at, g);
    let f = js::statement_name();
    assert(f(body[i]) == Some(name));
    assert forall|m: int| 0 <= m < i implies f(#[trigger] body[m]) is None by {
        reveal_strlit("ImportDeclaration");
        reveal_strlit("ExportDefaultDeclaration");
        reveal_strlit("ExpressionStatement");
        assert("ImportDeclaration"@.len() == 17);
    }
    lemma_first_at(body, 0, i, f);
}

} // verus!
