//! The walk over the syntax tree of a PHP file: turns it into nodes + raw edges,
//! tracking scope, class stack, and `$var -> class` bindings for receiver-typed
//! call resolution.

use vstd::prelude::*;

use crate::ast;
use crate::ast::{callee_name, hint_class, ident_full, ident_name, selector_name, var_name};
use crate::laravel;
use crate::model;
use crate::model::{EdgeView, Minter, Node, NodeView, RawEdge};
use crate::php;
use crate::seqs;
use crate::syntax;
use crate::syntax::{Tree, TreeView};
use crate::text;
use crate::text::{chars_of, is_text, join2, join3, string_of, CharSet};
use crate::types;
use crate::types::Types;

verus! {

broadcast use {crate::seqs::group_text, syntax::lemma_children};

// ---------------------------------------------------------------------------
// The state of the walk

/// A class scope.
pub struct ClassFrame {
    /// The bare name of the class.
    pub name: String,
    /// The id of its node.
    pub id: String,
    /// Its base class (for `parent::`).
    pub parent: Option<String>,
    /// The classes of its typed instance properties, so a `$this->prop->method()`
    /// receiver resolves to the property's type.
    pub props: Types,
}

/// What a [`ClassFrame`] says.
pub struct ClassView {
    pub name: Seq<char>,
    pub id: Seq<char>,
    pub parent: Option<Seq<char>>,
    pub props: Map<Seq<char>, Seq<char>>,
}

impl View for ClassFrame {
    type V = ClassView;

    open spec fn view(&self) -> ClassView {
        ClassView {
            name: self.name@,
            id: self.id@,
            parent: seqs::opt_view(self.parent),
            props: self.props@,
        }
    }
}

/// Accumulator threaded through the walk (the walker itself is stateless).
pub struct Ctx {
    pub rel: String,
    pub nodes: Vec<Node>,
    pub edges: Vec<RawEdge>,
    /// The code, where the walk reads more of it than names.
    pub source: String,
    /// Whether the walk records more than containment, heritage, imports and calls.
    pub full: bool,
    pub scope: Vec<String>,
    pub classes: Vec<ClassFrame>,
    pub minted: Minter,
    /// The classes of variables, one map for each function scope.
    pub bindings: Vec<Types>,
    /// The name that the next closure gets from the variable it is assigned to.
    pub pending: Option<String>,
    /// Whether a file-scope `return` has already been marked (a config/manifest
    /// file `<?php return [...];`), so the marker edge is pushed at most once.
    pub returned: bool,
}

/// What a [`Ctx`] says.
#[verifier::ext_equal]
pub struct CtxView {
    pub rel: Seq<char>,
    pub nodes: Seq<NodeView>,
    pub edges: Seq<EdgeView>,
    pub source: Seq<char>,
    pub full: bool,
    pub scope: Seq<Seq<char>>,
    pub classes: Seq<ClassView>,
    pub taken: Set<Seq<char>>,
    pub bindings: Seq<Map<Seq<char>, Seq<char>>>,
    pub pending: Option<Seq<char>>,
    pub returned: bool,
}

impl View for Ctx {
    type V = CtxView;

    open spec fn view(&self) -> CtxView {
        CtxView {
            rel: self.rel@,
            nodes: seqs::views(self.nodes@),
            edges: seqs::views(self.edges@),
            source: self.source@,
            full: self.full,
            scope: seqs::views(self.scope@),
            classes: seqs::views(self.classes@),
            taken: self.minted@,
            bindings: seqs::views(self.bindings@),
            pending: seqs::opt_view(self.pending),
            returned: self.returned,
        }
    }
}

/// A stack without its top.
pub open spec fn popped<A>(s: Seq<A>) -> Seq<A> {
    if s.len() == 0 {
        s
    } else {
        s.drop_last()
    }
}

impl CtxView {
    /// The id of the innermost scope: the file itself outside of all.
    pub open spec fn cur(self) -> Seq<char> {
        if self.scope.len() > 0 {
            self.scope.last()
        } else {
            self.rel
        }
    }

    /// The name of the innermost class.
    pub open spec fn class(self) -> Option<Seq<char>> {
        if self.classes.len() > 0 {
            Some(self.classes.last().name)
        } else {
            None
        }
    }

    /// The base of the innermost class.
    pub open spec fn parent(self) -> Option<Seq<char>> {
        if self.classes.len() > 0 {
            self.classes.last().parent
        } else {
            None
        }
    }

    /// The id that a new node gets.
    pub open spec fn new_id(self, base: Seq<char>) -> Seq<char> {
        model::minted_id(self.taken, base)
    }

    /// With one more edge.
    pub open spec fn with_edge(self, e: EdgeView) -> Self {
        CtxView { edges: self.edges.push(e), ..self }
    }

    /// With more edges.
    pub open spec fn with_edges(self, es: Seq<EdgeView>) -> Self {
        CtxView { edges: self.edges + es, ..self }
    }

    /// With a node for the tree `t`, which the innermost scope contains.
    pub open spec fn with_node(self, base: Seq<char>, name: Seq<char>, kind: Seq<char>, t: TreeView) -> Self {
        let id = self.new_id(base);
        CtxView {
            taken: self.taken.insert(id),
            edges: self.edges.push(model::contains_edge(self.cur(), id)),
            nodes: self.nodes.push(
                NodeView { id, name, kind, path: self.rel, start: t.start, end: t.end },
            ),
            ..self
        }
    }

    /// With an edge from `id` to each of the classes that identifiers name.
    pub open spec fn with_heritage(self, id: Seq<char>, types: Seq<TreeView>, relation: Seq<char>) -> Self {
        self.with_edges(
            types.map_values(|t: TreeView| model::named_edge(id, relation, ast::bare_name(t))),
        )
    }

    /// With the shared node of a table, and a link to it from `id`.
    pub open spec fn with_table(self, id: Seq<char>, table: Seq<char>) -> Self {
        let node = model::table_node(self.rel, table);
        CtxView {
            nodes: if self.taken.contains(node.id) {
                self.nodes
            } else {
                self.nodes.push(node)
            },
            taken: self.taken.insert(node.id),
            edges: self.edges.push(model::named_edge(id, "table"@, table)),
            ..self
        }
    }

    /// With the class of a variable of the innermost function.
    pub open spec fn with_binding(self, var: Seq<char>, class: Seq<char>) -> Self {
        if self.bindings.len() == 0 {
            self
        } else {
            CtxView {
                bindings: popped(self.bindings).push(self.bindings.last().insert(var, class)),
                ..self
            }
        }
    }

    /// Inside of a class.
    pub open spec fn in_class(self, class: ClassView) -> Self {
        CtxView { scope: self.scope.push(class.id), classes: self.classes.push(class), ..self }
    }

    /// Out of a class again.
    pub open spec fn out_of_class(self) -> Self {
        CtxView { scope: popped(self.scope), classes: popped(self.classes), ..self }
    }

    /// Inside of a function whose parameters have the given classes.
    pub open spec fn in_function(self, id: Seq<char>, params: Map<Seq<char>, Seq<char>>) -> Self {
        CtxView { scope: self.scope.push(id), bindings: self.bindings.push(params), ..self }
    }

    /// Out of a function again.
    pub open spec fn out_of_function(self) -> Self {
        CtxView { scope: popped(self.scope), bindings: popped(self.bindings), ..self }
    }
}

impl Ctx {
    /// The state before the walk over a file that records containment, heritage,
    /// imports and calls.
    pub fn new(rel: String) -> (r: Self)
        ensures
            r@ == started(rel@, Seq::empty(), false),
    {
        Ctx::start(rel, String::new(), false)
    }

    /// The state before the walk over a file.
    pub fn start(rel: String, source: String, full: bool) -> (r: Self)
        ensures
            r@ == started(rel@, source@, full),
    {
        let mut minted = Minter::new();
        minted.take(rel.clone());
        let r = Ctx {
            rel,
            nodes: Vec::new(),
            edges: Vec::new(),
            source,
            full,
            scope: Vec::new(),
            classes: Vec::new(),
            minted,
            bindings: Vec::new(),
            pending: None,
            returned: false,
        };
        assert(r@ =~= started(rel@, source@, full));
        r
    }

    /// Seed the file node before walking (file body is read wholesale, so its
    /// span is left at 0..0).
    pub fn push_file(&mut self, name: String)
        ensures
            final(self)@ == (CtxView {
                nodes: old(self)@.nodes.push(model::file_node(old(self)@.rel, name@)),
                ..old(self)@
            }),
    {
        let node = model::make_file(&self.rel, &name);
        self.nodes.push(node);
    }

    fn cur(&self) -> (r: String)
        ensures
            r@ == self@.cur(),
    {
        let n = self.scope.len();
        assert(self@.scope.len() == n);
        if n > 0 {
            assert(self@.scope[n - 1] == self.scope@[n - 1]@);
            self.scope[n - 1].clone()
        } else {
            self.rel.clone()
        }
    }

    fn class(&self) -> (r: Option<String>)
        ensures
            seqs::opt_view(r) == self@.class(),
    {
        let n = self.classes.len();
        assert(self@.classes.len() == n);
        if n > 0 {
            assert(self@.classes[n - 1] == self.classes@[n - 1]@);
            Some(self.classes[n - 1].name.clone())
        } else {
            None
        }
    }

    fn parent(&self) -> (r: Option<String>)
        ensures
            seqs::opt_view(r) == self@.parent(),
    {
        let n = self.classes.len();
        assert(self@.classes.len() == n);
        if n > 0 {
            assert(self@.classes[n - 1] == self.classes@[n - 1]@);
            match &self.classes[n - 1].parent {
                Some(p) => Some(p.clone()),
                None => None,
            }
        } else {
            None
        }
    }

    fn push_edge(&mut self, e: RawEdge)
        ensures
            final(self)@ == old(self)@.with_edge(e@),
    {
        self.edges.push(e);
    }

    fn push_node(&mut self, base: String, name: String, kind: &'static str, t: &Tree) -> (r: String)
        requires
            old(self)@.taken.finite(),
        ensures
            r@ == old(self)@.new_id(base@),
            final(self)@ == old(self)@.with_node(base@, name@, kind@, t@),
            final(self)@.taken.finite(),
    {
        let id = self.minted.mint(base);
        let parent = self.cur();
        self.edges.push(RawEdge::contains(parent, id.clone()));
        self.nodes.push(
            Node { id: id.clone(), name, kind, path: self.rel.clone(), start: t.start, end: t.end },
        );
        id
    }

    fn heritage(&mut self, id: &str, types: &[&Tree], relation: &'static str)
        ensures
            final(self)@ == old(self)@.with_heritage(id@, seqs::views(types@), relation@),
    {
        let ghost before = self@;
        let ghost want = seqs::views(types@).map_values(
            |t: TreeView| model::named_edge(id@, relation@, ast::bare_name(t)),
        );
        assert(self@.edges =~= before.edges + want.take(0));
        let mut k: usize = 0;
        while k < types.len()
            invariant
                k <= types@.len(),
                want == seqs::views(types@).map_values(
                    |t: TreeView| model::named_edge(id@, relation@, ast::bare_name(t)),
                ),
                self@ == (CtxView { edges: before.edges + want.take(k as int), ..before }),
            decreases types@.len() - k,
        {
            assert(want.take(k + 1) =~= want.take(k as int).push(want[k as int]));
            let name = ident_name(types[k]);
            self.edges.push(RawEdge::named(id.to_string(), relation, name));
            k += 1;
        }
        assert(want.take(k as int) =~= want);
    }

    fn link_table(&mut self, id: &str, table: &str)
        requires
            old(self)@.taken.finite(),
        ensures
            final(self)@ == old(self)@.with_table(id@, table@),
            final(self)@.taken.finite(),
    {
        let node_id = join2("table:", table);
        if self.minted.take(node_id) {
            let node = model::make_join("table:", "table", &self.rel, table);
            self.nodes.push(node);
        }
        self.edges.push(RawEdge::named(id.to_string(), "table", table.to_string()));
    }

    fn bind(&mut self, var: String, class: String)
        ensures
            final(self)@ == old(self)@.with_binding(var@, class@),
    {
        let ghost before = self@;
        assert(self@.bindings.len() == self.bindings@.len());
        if let Some(frame) = self.bindings.pop() {
            let mut frame = frame;
            assert(frame@ == before.bindings.last());
            frame.insert(var, class);
            assert(seqs::views(self.bindings@) =~= before.bindings.drop_last());
            self.bindings.push(frame);
        }
    }

    fn enter_class(&mut self, class: ClassFrame)
        ensures
            final(self)@ == old(self)@.in_class(class@),
    {
        self.scope.push(class.id.clone());
        self.classes.push(class);
    }

    fn leave_class(&mut self)
        ensures
            final(self)@ == old(self)@.out_of_class(),
    {
        let ghost before = self@;
        assert(self@.scope.len() == self.scope@.len());
        assert(self@.classes.len() == self.classes@.len());
        self.scope.pop();
        self.classes.pop();
        assert(self@.scope =~= popped(before.scope));
        assert(self@.classes =~= popped(before.classes));
    }

    fn enter_function(&mut self, id: String, params: Types)
        ensures
            final(self)@ == old(self)@.in_function(id@, params@),
    {
        self.scope.push(id);
        self.bindings.push(params);
    }

    fn leave_function(&mut self)
        ensures
            final(self)@ == old(self)@.out_of_function(),
    {
        let ghost before = self@;
        assert(self@.scope.len() == self.scope@.len());
        assert(self@.bindings.len() == self.bindings@.len());
        self.scope.pop();
        self.bindings.pop();
        assert(self@.scope =~= popped(before.scope));
        assert(self@.bindings =~= popped(before.bindings));
    }
}

/// The state before a walk: nothing found, and only the id of the file taken.
pub open spec fn started(rel: Seq<char>, source: Seq<char>, full: bool) -> CtxView {
    CtxView {
        rel,
        nodes: Seq::empty(),
        edges: Seq::empty(),
        source,
        full,
        scope: Seq::empty(),
        classes: Seq::empty(),
        taken: Set::empty().insert(rel),
        bindings: Seq::empty(),
        pending: None,
        returned: false,
    }
}

// ---------------------------------------------------------------------------
// Declarations

/// The name that a declaration declares.
pub open spec fn declared(t: TreeView) -> Seq<char> {
    match t.child("LocalIdentifier"@) {
        Some(id) => id.text,
        None => Seq::empty(),
    }
}

fn declared_name(t: &Tree) -> (r: String)
    ensures
        r@ == declared(t@),
{
    match t.child("LocalIdentifier") {
        Some(id) => id.text.clone(),
        None => String::new(),
    }
}

/// The identifiers that a clause (`extends`, `implements`) of a declaration lists.
pub open spec fn clause(t: TreeView, kind: Seq<char>) -> Seq<TreeView> {
    match t.child(kind) {
        Some(c) => c.all("Identifier"@),
        None => Seq::empty(),
    }
}

fn clause_types<'a>(t: &'a Tree, kind: &str) -> (r: Vec<&'a Tree>)
    ensures
        seqs::views(r@) == clause(t@, kind@),
{
    match t.child(kind) {
        Some(c) => c.all("Identifier"),
        None => Vec::new(),
    }
}

/// The bare names of identifiers.
pub open spec fn bare_names(types: Seq<TreeView>) -> Seq<Seq<char>> {
    types.map_values(|t: TreeView| ast::bare_name(t))
}

fn names_of(types: &[&Tree]) -> (r: Vec<String>)
    ensures
        seqs::views(r@) == bare_names(seqs::views(types@)),
{
    let ghost want = bare_names(seqs::views(types@));
    let mut out: Vec<String> = Vec::new();
    let mut k: usize = 0;
    while k < types.len()
        invariant
            k <= types@.len(),
            want == bare_names(seqs::views(types@)),
            seqs::views(out@) == want.take(k as int),
        decreases types@.len() - k,
    {
        assert(want.take(k + 1) =~= want.take(k as int).push(want[k as int]));
        out.push(ident_name(types[k]));
        k += 1;
    }
    assert(want.take(k as int) =~= want);
    out
}

/// The class that the type hint of a parameter or a property names.
pub open spec fn hint_of(t: TreeView) -> Option<Seq<char>> {
    match t.child("Hint"@) {
        Some(h) => ast::hinted(h),
        None => None,
    }
}

fn class_hint(t: &Tree) -> (r: Option<String>)
    ensures
        seqs::opt_view(r) == hint_of(t@),
{
    match t.child("Hint") {
        Some(h) => hint_class(h),
        None => None,
    }
}

/// The variable that a parameter or a property item declares, with its `$`.
pub open spec fn declared_variable(t: TreeView) -> Seq<char> {
    match t.child("DirectVariable"@) {
        Some(v) => v.text,
        None => Seq::empty(),
    }
}

fn variable_of(t: &Tree) -> (r: String)
    ensures
        r@ == declared_variable(t@),
{
    match t.child("DirectVariable") {
        Some(v) => v.text.clone(),
        None => String::new(),
    }
}

/// A variable without its `$`.
pub open spec fn undollared(v: Seq<char>) -> Seq<char> {
    text::trimmed_start(v, CharSet::One('$'))
}

fn without_dollar(v: &str) -> (r: String)
    ensures
        r@ == undollared(v@),
{
    string_of(text::trim_start(&chars_of(v), CharSet::One('$')))
}

/// The parameters of a function.
pub open spec fn parameters(t: TreeView) -> Seq<TreeView> {
    match t.child("FunctionLikeParameterList"@) {
        Some(l) => l.all("FunctionLikeParameter"@),
        None => Seq::empty(),
    }
}

fn parameters_of<'a>(t: &'a Tree) -> (r: Vec<&'a Tree>)
    ensures
        seqs::views(r@) == parameters(t@),
{
    match t.child("FunctionLikeParameterList") {
        Some(l) => l.all("FunctionLikeParameter"),
        None => Vec::new(),
    }
}

/// The classes of the first `k` parameters, under the variables' names.
pub open spec fn parameter_types(ps: Seq<TreeView>, k: int) -> Map<Seq<char>, Seq<char>>
    decreases k,
{
    if k <= 0 {
        Map::empty()
    } else {
        let before = parameter_types(ps, k - 1);
        match hint_of(ps[k - 1]) {
            Some(class) => before.insert(declared_variable(ps[k - 1]), class),
            None => before,
        }
    }
}

/// The classes of the parameters of a function.
pub open spec fn typed_parameters(t: TreeView) -> Map<Seq<char>, Seq<char>> {
    parameter_types(parameters(t), parameters(t).len() as int)
}

fn bind_params(t: &Tree) -> (r: Types)
    ensures
        r@ == typed_parameters(t@),
{
    let ps = parameters_of(t);
    let ghost all = parameters(t@);
    assert(all.len() == ps@.len());
    let mut out = Types::new();
    let mut k: usize = 0;
    while k < ps.len()
        invariant
            k <= ps@.len(),
            all == seqs::views(ps@),
            out@ == parameter_types(all, k as int),
        decreases ps@.len() - k,
    {
        assert(all[k as int] == ps@[k as int]@);
        if let Some(class) = class_hint(ps[k]) {
            out.insert(variable_of(ps[k]), class);
        }
        k += 1;
    }
    out
}

/// `m` with the classes of the first `k` documented variables that it does not know
/// yet.
pub open spec fn with_documented(
    m: Map<Seq<char>, Seq<char>>,
    docs: Seq<(Seq<char>, Seq<char>)>,
    k: int,
) -> Map<Seq<char>, Seq<char>>
    decreases k,
{
    if k <= 0 {
        m
    } else {
        types::or_insert(with_documented(m, docs, k - 1), docs[k - 1].0, docs[k - 1].1)
    }
}

/// The classes of the variables of a function when it is entered: those of its
/// parameters, and those that the comment before it documents.
pub open spec fn entry_types(c: CtxView, t: TreeView) -> Map<Seq<char>, Seq<char>> {
    let native = typed_parameters(t);
    if c.full {
        match php::comment_before(c.source, t.start as int) {
            Some(doc) => with_documented(native, php::documented(doc), php::documented(doc).len() as int),
            None => native,
        }
    } else {
        native
    }
}

/// The member variable that a property item declares.
pub open spec fn item_variable(item: TreeView) -> Seq<char> {
    match item.child("PropertyAbstractItem"@) {
        Some(a) => declared_variable(a),
        None => match item.child("PropertyConcreteItem"@) {
            Some(c) => declared_variable(c),
            None => Seq::empty(),
        },
    }
}

fn variable_of_item(item: &Tree) -> (r: String)
    ensures
        r@ == item_variable(item@),
{
    match item.child("PropertyAbstractItem") {
        Some(a) => variable_of(a),
        None => match item.child("PropertyConcreteItem") {
            Some(c) => variable_of(c),
            None => String::new(),
        },
    }
}

/// `m` with the class of the first `k` property items.
pub open spec fn with_items(
    m: Map<Seq<char>, Seq<char>>,
    items: Seq<TreeView>,
    k: int,
    class: Seq<char>,
) -> Map<Seq<char>, Seq<char>>
    decreases k,
{
    if k <= 0 {
        m
    } else {
        with_items(m, items, k - 1, class).insert(undollared(item_variable(items[k - 1])), class)
    }
}

/// A property without the layer that tells its form.
pub open spec fn property_form(p: TreeView) -> Option<TreeView> {
    match p.child("PlainProperty"@) {
        Some(f) => Some(f),
        None => p.child("HookedProperty"@),
    }
}

/// `m` with the classes of the properties that a declaration declares.
pub open spec fn with_property(m: Map<Seq<char>, Seq<char>>, p: TreeView) -> Map<Seq<char>, Seq<char>> {
    match property_form(p) {
        Some(f) => match hint_of(f) {
            Some(class) => with_items(m, f.all("PropertyItem"@), f.all("PropertyItem"@).len() as int, class),
            None => m,
        },
        None => m,
    }
}

/// `m` with the classes of the properties that the first `k` parameters of a
/// constructor promote: those with a modifier.
pub open spec fn with_promoted(m: Map<Seq<char>, Seq<char>>, ps: Seq<TreeView>, k: int) -> Map<
    Seq<char>,
    Seq<char>,
>
    decreases k,
{
    if k <= 0 {
        m
    } else {
        let before = with_promoted(m, ps, k - 1);
        match (ps[k - 1].child("Modifier"@), hint_of(ps[k - 1])) {
            (Some(_), Some(class)) => before.insert(undollared(declared_variable(ps[k - 1])), class),
            _ => before,
        }
    }
}

/// The classes of the properties that the first `k` members of a class declare,
/// under the properties' bare names.
pub open spec fn property_types(members: Seq<TreeView>, k: int) -> Map<Seq<char>, Seq<char>>
    decreases k,
{
    if k <= 0 {
        Map::empty()
    } else {
        let before = property_types(members, k - 1);
        let member = members[k - 1];
        match (member.child("Property"@), member.child("Method"@)) {
            (Some(p), _) => with_property(before, p),
            (None, Some(m)) => if declared(m) == "__construct"@ {
                with_promoted(before, parameters(m), parameters(m).len() as int)
            } else {
                before
            },
            (None, None) => before,
        }
    }
}

/// The classes of the typed instance properties of a class.
pub open spec fn typed_properties(t: TreeView) -> Map<Seq<char>, Seq<char>> {
    let members = t.all("ClassLikeMember"@);
    property_types(members, members.len() as int)
}

fn add_items(out: &mut Types, items: &[&Tree], class: &str)
    ensures
        final(out)@ == with_items(
            old(out)@,
            seqs::views(items@),
            items@.len() as int,
            class@,
        ),
{
    let ghost before = out@;
    let ghost all = seqs::views(items@);
    let mut k: usize = 0;
    while k < items.len()
        invariant
            k <= items@.len(),
            all == seqs::views(items@),
            out@ == with_items(before, all, k as int, class@),
        decreases items@.len() - k,
    {
        assert(all[k as int] == items@[k as int]@);
        let var = variable_of_item(items[k]);
        out.insert(without_dollar(&var), class.to_string());
        k += 1;
    }
}

fn add_property(out: &mut Types, p: &Tree)
    ensures
        final(out)@ == with_property(old(out)@, p@),
{
    let form = match p.child("PlainProperty") {
        Some(f) => Some(f),
        None => p.child("HookedProperty"),
    };
    if let Some(f) = form {
        if let Some(class) = class_hint(f) {
            let items = f.all("PropertyItem");
            assert(seqs::views(items@).len() == items@.len());
            add_items(out, &items, &class);
        }
    }
}

fn add_promoted(out: &mut Types, m: &Tree)
    ensures
        final(out)@ == with_promoted(old(out)@, parameters(m@), parameters(m@).len() as int),
{
    let ghost before = out@;
    let ps = parameters_of(m);
    let ghost all = parameters(m@);
    assert(all.len() == ps@.len());
    let mut k: usize = 0;
    while k < ps.len()
        invariant
            k <= ps@.len(),
            all == seqs::views(ps@),
            out@ == with_promoted(before, all, k as int),
        decreases ps@.len() - k,
    {
        assert(all[k as int] == ps@[k as int]@);
        if ps[k].child("Modifier").is_some() {
            if let Some(class) = class_hint(ps[k]) {
                let var = variable_of(ps[k]);
                out.insert(without_dollar(&var), class);
            }
        }
        k += 1;
    }
}

/// Collect the declared class types of a class-like's typed instance properties,
/// keyed by bare property name (`prop` for `public Foo $prop;`), including
/// constructor-promoted params (`__construct(private Foo $prop)`). Untyped or
/// non-class-typed properties are skipped -- they carry no receiver we can wire.
pub fn collect_prop_types(t: &Tree) -> (r: Types)
    ensures
        r@ == typed_properties(t@),
{
    let members = t.all("ClassLikeMember");
    let ghost all = t@.all("ClassLikeMember"@);
    assert(all.len() == members@.len());
    let mut out = Types::new();
    let mut k: usize = 0;
    while k < members.len()
        invariant
            k <= members@.len(),
            all == seqs::views(members@),
            out@ == property_types(all, k as int),
        decreases members@.len() - k,
    {
        assert(all[k as int] == members@[k as int]@);
        if let Some(p) = members[k].child("Property") {
            add_property(&mut out, p);
        } else if let Some(m) = members[k].child("Method") {
            if is_text(&chars_of(&declared_name(m)), "__construct") {
                add_promoted(&mut out, m);
            }
        }
        k += 1;
    }
    out
}

// ---------------------------------------------------------------------------
// Entering the constructs

/// The first of some identifiers names the base class.
pub open spec fn first_name(types: Seq<TreeView>) -> Option<Seq<char>> {
    if types.len() > 0 {
        Some(ast::bare_name(types[0]))
    } else {
        None
    }
}

/// A class: its node, its heritage, and the table it maps to where it is a model.
pub open spec fn class_entered(t: TreeView, c: CtxView) -> CtxView {
    let name = declared(t);
    let base = c.rel + "#"@ + name;
    let id = c.new_id(base);
    let bases = clause(t, "Extends"@);
    let told = c.with_node(base, name, "class"@, t).with_heritage(id, bases, "extends"@).with_heritage(
        id,
        clause(t, "Implements"@),
        "implements"@,
    );
    let linked = match laravel::mapped_table(
        name,
        bare_names(bases),
        ast::spanned(c.source, t.start as int, t.end as int),
    ) {
        Some(table) => if c.full {
            told.with_table(id, table)
        } else {
            told
        },
        None => told,
    };
    linked.in_class(ClassView { name, id, parent: first_name(bases), props: typed_properties(t) })
}

/// An interface: its node and what it extends.
pub open spec fn interface_entered(t: TreeView, c: CtxView) -> CtxView {
    let name = declared(t);
    let base = c.rel + "#"@ + name;
    let id = c.new_id(base);
    c.with_node(base, name, "interface"@, t).with_heritage(
        id,
        clause(t, "Extends"@),
        "extends"@,
    ).in_class(ClassView { name, id, parent: None, props: Map::empty() })
}

/// A trait: its node.
pub open spec fn trait_entered(t: TreeView, c: CtxView) -> CtxView {
    let name = declared(t);
    let base = c.rel + "#"@ + name;
    let id = c.new_id(base);
    c.with_node(base, name, "trait"@, t).in_class(
        ClassView { name, id, parent: None, props: typed_properties(t) },
    )
}

/// An enum: its node and what it implements.
pub open spec fn enum_entered(t: TreeView, c: CtxView) -> CtxView {
    let name = declared(t);
    let base = c.rel + "#"@ + name;
    let id = c.new_id(base);
    c.with_node(base, name, "enum"@, t).with_heritage(
        id,
        clause(t, "Implements"@),
        "implements"@,
    ).in_class(ClassView { name, id, parent: None, props: typed_properties(t) })
}

/// A function: its node, and the classes of its parameters.
pub open spec fn function_entered(t: TreeView, c: CtxView) -> CtxView {
    let name = declared(t);
    let base = c.rel + "#"@ + name;
    c.with_node(base, name, "function"@, t).in_function(c.new_id(base), entry_types(c, t))
}

/// A method: its node under its class, and the classes of its parameters.
pub open spec fn method_entered(t: TreeView, c: CtxView) -> CtxView {
    let name = declared(t);
    let class = match c.class() {
        Some(n) => n,
        None => Seq::empty(),
    };
    let base = c.rel + "#"@ + (class + "."@ + name);
    c.with_node(base, name, "method"@, t).in_function(c.new_id(base), entry_types(c, t))
}

/// A closure: its node under the innermost scope, named by the variable that it is
/// assigned to.
pub open spec fn closure_entered(t: TreeView, c: CtxView) -> CtxView {
    let name = match c.pending {
        Some(n) => n,
        None => "{closure}"@,
    };
    let base = c.cur() + "."@ + name;
    (CtxView { pending: None, ..c }).with_node(base, name, "function"@, t).in_function(
        c.new_id(base),
        typed_parameters(t),
    )
}

/// The keyword that an expression is, in lower case.
pub open spec fn keyword(e: TreeView) -> Option<Seq<char>> {
    match e.child("Keyword"@) {
        Some(k) => Some(text::lower(k.text)),
        None => None,
    }
}

/// The class named by a `new X()` target expression: a plain identifier, or the
/// current class for `new self()`/`new static()`.
pub open spec fn constructed(inst: TreeView, c: CtxView) -> Option<Seq<char>> {
    match inst.child("Expression"@) {
        Some(e) => if ast::called(e) is Some {
            ast::called(e)
        } else if keyword(e) == Some("self"@) || keyword(e) == Some("static"@) {
            c.class()
        } else {
            None
        },
        None => None,
    }
}

/// An assignment: a closure is named by the variable, and a variable that is
/// assigned a new object is of its class.
pub open spec fn assignment_entered(t: TreeView, c: CtxView) -> CtxView {
    let sides = t.all("Expression"@);
    if sides.len() != 2 {
        c
    } else {
        match ast::variable(sides[0]) {
            Some(v) => {
                let named = if sides[1].child("Closure"@) is Some || sides[1].child("ArrowFunction"@) is Some {
                    CtxView { pending: Some(undollared(v)), ..c }
                } else {
                    c
                };
                let plain = match t.child("AssignmentOperator"@) {
                    Some(o) => o.text == "="@,
                    None => false,
                };
                match sides[1].child("Instantiation"@) {
                    Some(inst) => match constructed(inst, c) {
                        Some(class) => if c.full && plain {
                            named.with_binding(v, class)
                        } else {
                            named
                        },
                        None => named,
                    },
                    None => named,
                }
            },
            None => c,
        }
    }
}

/// The names that a `use` statement imports, one by one.
pub open spec fn imported_items(t: TreeView) -> Seq<TreeView> {
    match t.child("UseItems"@) {
        Some(items) => match items.child("UseItemSequence"@) {
            Some(s) => s.all("UseItem"@),
            None => Seq::empty(),
        },
        None => Seq::empty(),
    }
}

pub open spec fn import_edge(rel: Seq<char>) -> spec_fn(TreeView) -> Seq<EdgeView> {
    |item: TreeView|
        match item.child("Identifier"@) {
            Some(id) => seq![model::named_edge(rel, "imports"@, ast::full_name(id))],
            None => Seq::empty(),
        }
}

/// A `use` statement: an import of each name.
pub open spec fn use_entered(t: TreeView, c: CtxView) -> CtxView {
    c.with_edges(seqs::each(imported_items(t), import_edge(c.rel)))
}

/// A `use` of traits in a class: heritage.
pub open spec fn trait_use_entered(t: TreeView, c: CtxView) -> CtxView {
    if c.scope.len() > 0 {
        c.with_heritage(c.scope.last(), t.all("Identifier"@), "implements"@)
    } else {
        c
    }
}

/// A call of a function by name.
pub open spec fn call_entered(t: TreeView, c: CtxView) -> CtxView {
    match t.child("Expression"@) {
        Some(e) => match ast::called(e) {
            Some(n) => c.with_edge(model::call_edge(c.cur(), n, false, None)),
            None => c,
        },
        None => c,
    }
}

/// The property name of a `$this->prop` access (handles `?->` too).
pub open spec fn this_property(e: TreeView) -> Option<Seq<char>> {
    match e.child("Access"@) {
        Some(a) => {
            let form = match a.child("PropertyAccess"@) {
                Some(f) => Some(f),
                None => a.child("NullSafePropertyAccess"@),
            };
            match form {
                Some(f) => match (f.child("Expression"@), f.child("ClassLikeMemberSelector"@)) {
                    (Some(o), Some(s)) => if ast::variable(o) == Some("$this"@) {
                        ast::selected(s)
                    } else {
                        None
                    },
                    _ => None,
                },
                None => None,
            }
        },
        None => None,
    }
}

/// The class of the object that a member is called on: the current class for
/// `$this`, what is known of a variable, or the declared type of `$this->prop`.
pub open spec fn receiver(e: TreeView, c: CtxView) -> Option<Seq<char>> {
    match ast::variable(e) {
        Some(v) => if v == "$this"@ {
            c.class()
        } else {
            types::innermost(c.bindings, c.bindings.len() as int, v)
        },
        None => match this_property(e) {
            Some(p) => if c.full && c.classes.len() > 0 {
                types::known(c.classes.last().props, p)
            } else {
                None
            },
            None => None,
        },
    }
}

/// The related model of an Eloquent relation that a model class declares by a call
/// on itself.
pub open spec fn relation_target(t: TreeView, e: TreeView, m: Seq<char>, c: CtxView) -> Option<Seq<char>> {
    if c.full && ast::variable(e) == Some("$this"@) && model::is_relation(m) && c.classes.len() > 0 {
        laravel::related(ast::spanned(c.source, t.start as int, t.end as int))
    } else {
        None
    }
}

/// A call of a member: an Eloquent relation, or a call on a receiver whose class may
/// be known.
pub open spec fn method_call_entered(t: TreeView, c: CtxView) -> CtxView {
    match (t.child("Expression"@), t.child("ClassLikeMemberSelector"@)) {
        (Some(e), Some(s)) => match ast::selected(s) {
            Some(m) => match relation_target(t, e, m, c) {
                Some(related) => c.with_edge(
                    model::named_edge(c.classes.last().id, m, related),
                ),
                None => c.with_edge(model::call_edge(c.cur(), m, true, receiver(e, c))),
            },
            None => c,
        },
        _ => c,
    }
}

/// A reference to a member as a first-class callable.
pub open spec fn method_reference_entered(t: TreeView, c: CtxView) -> CtxView {
    match (t.child("Expression"@), t.child("ClassLikeMemberSelector"@)) {
        (Some(e), Some(s)) => match ast::selected(s) {
            Some(m) => c.with_edge(model::call_edge(c.cur(), m, true, receiver(e, c))),
            None => c,
        },
        _ => c,
    }
}

/// The class before a `::`: the named class, the current one for `self`/`static`,
/// and for `parent` the base class, since resolving it against the current class
/// would find the overriding method itself. A walk that is not full takes the
/// current class there.
pub open spec fn static_class(e: TreeView, c: CtxView) -> Option<Seq<char>> {
    if ast::called(e) is Some {
        ast::called(e)
    } else if keyword(e) == Some("self"@) || keyword(e) == Some("static"@) {
        c.class()
    } else if keyword(e) == Some("parent"@) {
        if c.full {
            c.parent()
        } else {
            c.class()
        }
    } else {
        None
    }
}

/// A call of, or a reference to, a static member.
pub open spec fn static_call_entered(t: TreeView, c: CtxView) -> CtxView {
    match (t.child("Expression"@), t.child("ClassLikeMemberSelector"@)) {
        (Some(e), Some(s)) => match ast::selected(s) {
            Some(m) => c.with_edge(model::call_edge(c.cur(), m, true, static_class(e, c))),
            None => c,
        },
        _ => c,
    }
}

/// `Class::CONST` / `Enum::Case` / `Class::class`: a use of the class. `self::` and
/// `static::` (a self-reference) and a dynamic class are skipped.
pub open spec fn constant_entered(t: TreeView, c: CtxView) -> CtxView {
    match t.child("Expression"@) {
        Some(e) => {
            let class = if ast::called(e) is Some {
                ast::called(e)
            } else if keyword(e) == Some("parent"@) {
                c.parent()
            } else {
                None
            };
            match class {
                Some(n) => c.with_edge(model::named_edge(c.cur(), "uses-const"@, n)),
                None => c,
            }
        },
        None => c,
    }
}

/// `new X(...)`: the class is instantiated and its constructor called.
pub open spec fn instantiation_entered(t: TreeView, c: CtxView) -> CtxView {
    match constructed(t, c) {
        Some(n) => c.with_edge(model::named_edge(c.cur(), "instantiates"@, n)).with_edge(
            model::call_edge(c.cur(), "__construct"@, true, Some(n)),
        ),
        None => c,
    }
}

/// A `require`/`include` construct: a file dependency.
pub open spec fn require_entered(t: TreeView, c: CtxView) -> CtxView {
    match t.child("Expression"@) {
        Some(e) => match php::required(ast::spanned(c.source, e.start as int, e.end as int)) {
            Some(spec) => c.with_edge(model::named_edge(c.rel, "requires"@, spec)),
            None => c,
        },
        None => c,
    }
}

/// A `return`: outside of all scopes it marks a file that is there for its value,
/// once.
pub open spec fn return_entered(c: CtxView) -> CtxView {
    if c.scope.len() == 0 && !c.returned {
        (CtxView { returned: true, ..c }).with_edge(model::named_edge(c.rel, "returns"@, c.rel))
    } else {
        c
    }
}

/// What only a full walk records.
pub open spec fn extra_entered(t: TreeView, c: CtxView) -> CtxView {
    if !c.full {
        c
    } else if t.kind == "FunctionPartialApplication"@ {
        call_entered(t, c)
    } else if t.kind == "MethodPartialApplication"@ {
        method_reference_entered(t, c)
    } else if t.kind == "StaticMethodPartialApplication"@ {
        static_call_entered(t, c)
    } else if t.kind == "ClassConstantAccess"@ {
        constant_entered(t, c)
    } else if t.kind == "Instantiation"@ {
        instantiation_entered(t, c)
    } else if t.kind == "RequireConstruct"@ || t.kind == "RequireOnceConstruct"@ || t.kind
        == "IncludeConstruct"@ || t.kind == "IncludeOnceConstruct"@ {
        require_entered(t, c)
    } else if t.kind == "Return"@ {
        return_entered(c)
    } else {
        c
    }
}

/// The state when a tree is entered.
pub open spec fn entered(t: TreeView, c: CtxView) -> CtxView {
    if t.kind == "Class"@ {
        class_entered(t, c)
    } else if t.kind == "Interface"@ {
        interface_entered(t, c)
    } else if t.kind == "Trait"@ {
        trait_entered(t, c)
    } else if t.kind == "Enum"@ {
        enum_entered(t, c)
    } else if t.kind == "Function"@ {
        function_entered(t, c)
    } else if t.kind == "Method"@ {
        method_entered(t, c)
    } else if t.kind == "Closure"@ || t.kind == "ArrowFunction"@ {
        closure_entered(t, c)
    } else if t.kind == "Assignment"@ {
        assignment_entered(t, c)
    } else if t.kind == "Use"@ {
        use_entered(t, c)
    } else if t.kind == "TraitUse"@ {
        trait_use_entered(t, c)
    } else if t.kind == "FunctionCall"@ {
        call_entered(t, c)
    } else if t.kind == "MethodCall"@ {
        method_call_entered(t, c)
    } else if t.kind == "StaticMethodCall"@ {
        static_call_entered(t, c)
    } else {
        extra_entered(t, c)
    }
}

/// The state when a tree is left.
pub open spec fn left(t: TreeView, c: CtxView) -> CtxView {
    if t.kind == "Class"@ || t.kind == "Interface"@ || t.kind == "Trait"@ || t.kind == "Enum"@ {
        c.out_of_class()
    } else if t.kind == "Function"@ || t.kind == "Method"@ || t.kind == "Closure"@ || t.kind
        == "ArrowFunction"@ {
        c.out_of_function()
    } else {
        c
    }
}

/// The state after the walk over a tree: it is entered, its subtrees are walked in
/// their order, and it is left.
pub open spec fn walked(t: TreeView, c: CtxView) -> CtxView
    decreases t, t.children.len() + 2,
{
    left(t, walked_children(t, 0, entered(t, c)))
}

/// The state after the walk over the subtrees of a tree from index `k` on.
pub open spec fn walked_children(t: TreeView, k: int, c: CtxView) -> CtxView
    decreases t, t.children.len() + 1 - k,
{
    if k < 0 || k >= t.children.len() {
        c
    } else {
        walked_children(t, k + 1, walked(t.children[k], c))
    }
}

// ---------------------------------------------------------------------------
// The walk

fn scoped(rel: &str, name: &str) -> (r: String)
    ensures
        r@ == rel@ + "#"@ + name@,
{
    join3(rel, "#", name)
}

fn lowered_keyword(e: &Tree) -> (r: Option<Vec<char>>)
    ensures
        seqs::opt_view(r) == keyword(e@),
{
    match e.child("Keyword") {
        Some(k) => Some(text::to_lower(&chars_of(&k.text))),
        None => None,
    }
}

fn is_keyword(e: &Tree, word: &str) -> (r: bool)
    ensures
        r == (keyword(e@) == Some(word@)),
{
    match lowered_keyword(e) {
        Some(k) => is_text(&k, word),
        None => false,
    }
}

fn is_variable(e: &Tree, name: &str) -> (r: bool)
    ensures
        r == (ast::variable(e@) == Some(name@)),
{
    match var_name(e) {
        Some(v) => is_text(&chars_of(&v), name),
        None => false,
    }
}

fn this_prop_name(e: &Tree) -> (r: Option<String>)
    ensures
        seqs::opt_view(r) == this_property(e@),
{
    let a = e.child("Access")?;
    let form = match a.child("PropertyAccess") {
        Some(f) => Some(f),
        None => a.child("NullSafePropertyAccess"),
    };
    let f = form?;
    let object = f.child("Expression")?;
    let selector = f.child("ClassLikeMemberSelector")?;
    if is_variable(object, "$this") {
        selector_name(selector)
    } else {
        None
    }
}

impl Ctx {
    fn class_in(&mut self, t: &Tree)
        requires
            old(self)@.taken.finite(),
        ensures
            final(self)@ == class_entered(t@, old(self)@),
            final(self)@.taken.finite(),
    {
        let name = declared_name(t);
        let base = scoped(&self.rel, &name);
        let id = self.push_node(base, name.clone(), "class", t);
        let bases = clause_types(t, "Extends");
        self.heritage(&id, &bases, "extends");
        let interfaces = clause_types(t, "Implements");
        self.heritage(&id, &interfaces, "implements");
        let names = names_of(&bases);
        if self.full {
            let table = laravel::model_table(&name, &names, ast::span(&self.source, t.start, t.end));
            if let Some(table) = table {
                self.link_table(&id, &table);
            }
        }
        let ghost all = clause(t@, "Extends"@);
        assert(bare_names(all).len() == all.len());
        assert(seqs::views(names@).len() == names@.len());
        let parent = if names.len() > 0 {
            assert(names@[0]@ == bare_names(all)[0]);
            Some(names[0].clone())
        } else {
            None
        };
        let props = collect_prop_types(t);
        self.enter_class(ClassFrame { name, id, parent, props });
    }

    fn interface_in(&mut self, t: &Tree)
        requires
            old(self)@.taken.finite(),
        ensures
            final(self)@ == interface_entered(t@, old(self)@),
            final(self)@.taken.finite(),
    {
        let name = declared_name(t);
        let base = scoped(&self.rel, &name);
        let id = self.push_node(base, name.clone(), "interface", t);
        let bases = clause_types(t, "Extends");
        self.heritage(&id, &bases, "extends");
        self.enter_class(ClassFrame { name, id, parent: None, props: Types::new() });
    }

    fn trait_in(&mut self, t: &Tree)
        requires
            old(self)@.taken.finite(),
        ensures
            final(self)@ == trait_entered(t@, old(self)@),
            final(self)@.taken.finite(),
    {
        let name = declared_name(t);
        let base = scoped(&self.rel, &name);
        let id = self.push_node(base, name.clone(), "trait", t);
        let props = collect_prop_types(t);
        self.enter_class(ClassFrame { name, id, parent: None, props });
    }

    fn enum_in(&mut self, t: &Tree)
        requires
            old(self)@.taken.finite(),
        ensures
            final(self)@ == enum_entered(t@, old(self)@),
            final(self)@.taken.finite(),
    {
        let name = declared_name(t);
        let base = scoped(&self.rel, &name);
        let id = self.push_node(base, name.clone(), "enum", t);
        let interfaces = clause_types(t, "Implements");
        self.heritage(&id, &interfaces, "implements");
        let props = collect_prop_types(t);
        self.enter_class(ClassFrame { name, id, parent: None, props });
    }

    /// The classes of a function's parameters, and those that the phpdoc block
    /// before it documents. Many older Dolibarr signatures document a receiver's
    /// class this way without a native hint; a native hint must win.
    fn bind_doc_types(&self, t: &Tree) -> (r: Types)
        ensures
            r@ == entry_types(self@, t@),
    {
        let mut out = bind_params(t);
        if !self.full {
            return out;
        }
        let doc = match php::doc_before(&self.source, t.start as usize) {
            Some(doc) => doc,
            None => {
                return out;
            },
        };
        let docs = php::phpdoc_bindings(&doc);
        let ghost native = out@;
        let ghost all = php::documented(doc@);
        assert(all.len() == docs@.len());
        for (var, class) in it: docs
            invariant
                it.seq() == docs@,
                all == seqs::views(docs@),
                out@ == with_documented(native, all, it.index() as int),
        {
            assert(all[it.index() as int] == (var@, class@));
            out.insert_new(var, class);
        }
        out
    }

    fn function_in(&mut self, t: &Tree)
        requires
            old(self)@.taken.finite(),
        ensures
            final(self)@ == function_entered(t@, old(self)@),
            final(self)@.taken.finite(),
    {
        let params = self.bind_doc_types(t);
        let name = declared_name(t);
        let base = scoped(&self.rel, &name);
        let id = self.push_node(base, name, "function", t);
        self.enter_function(id, params);
    }

    fn method_in(&mut self, t: &Tree)
        requires
            old(self)@.taken.finite(),
        ensures
            final(self)@ == method_entered(t@, old(self)@),
            final(self)@.taken.finite(),
    {
        let params = self.bind_doc_types(t);
        let name = declared_name(t);
        let class = match self.class() {
            Some(n) => n,
            None => String::new(),
        };
        let member = join3(&class, ".", &name);
        let base = scoped(&self.rel, &member);
        let id = self.push_node(base, name, "method", t);
        self.enter_function(id, params);
    }

    fn closure_in(&mut self, t: &Tree)
        requires
            old(self)@.taken.finite(),
        ensures
            final(self)@ == closure_entered(t@, old(self)@),
            final(self)@.taken.finite(),
    {
        let ghost before = self@;
        let name = match self.pending.take() {
            Some(n) => n,
            None => "{closure}".to_string(),
        };
        assert(self@ =~= (CtxView { pending: None, ..before }));
        let parent = self.cur();
        let base = join3(&parent, ".", &name);
        let id = self.push_node(base, name, "function", t);
        self.enter_function(id, bind_params(t));
    }

    fn new_class(&self, inst: &Tree) -> (r: Option<String>)
        ensures
            seqs::opt_view(r) == constructed(inst@, self@),
    {
        let e = inst.child("Expression")?;
        let name = callee_name(e);
        if name.is_some() {
            return name;
        }
        if is_keyword(e, "self") || is_keyword(e, "static") {
            self.class()
        } else {
            None
        }
    }

    fn assignment_in(&mut self, t: &Tree)
        ensures
            final(self)@ == assignment_entered(t@, old(self)@),
    {
        let ghost before = self@;
        let sides = t.all("Expression");
        assert(seqs::views(sides@).len() == sides@.len());
        if sides.len() != 2 {
            return;
        }
        assert(seqs::views(sides@)[0] == sides@[0]@);
        assert(seqs::views(sides@)[1] == sides@[1]@);
        let v = match var_name(sides[0]) {
            Some(v) => v,
            None => {
                return;
            },
        };
        let class = match sides[1].child("Instantiation") {
            Some(inst) => self.new_class(inst),
            None => None,
        };
        if sides[1].child("Closure").is_some() || sides[1].child("ArrowFunction").is_some() {
            self.pending = Some(without_dollar(&v));
            assert(self@ =~= (CtxView { pending: Some(undollared(v@)), ..before }));
        }
        let plain = match t.child("AssignmentOperator") {
            Some(o) => is_text(&chars_of(&o.text), "="),
            None => false,
        };
        if self.full && plain {
            if let Some(class) = class {
                self.bind(v, class);
            }
        }
    }

    fn use_in(&mut self, t: &Tree)
        ensures
            final(self)@ == use_entered(t@, old(self)@),
    {
        let ghost before = self@;
        let ghost all = imported_items(t@);
        let ghost f = import_edge(before.rel);
        let items = match t.child("UseItems") {
            Some(items) => match items.child("UseItemSequence") {
                Some(s) => s.all("UseItem"),
                None => Vec::new(),
            },
            None => Vec::new(),
        };
        assert(seqs::views(items@) =~= all);
        let mut k: usize = 0;
        while k < items.len()
            invariant
                k <= items@.len(),
                all == seqs::views(items@),
                f == import_edge(before.rel),
                self@.edges + seqs::each_from(all, k as int, f) == before.edges + seqs::each(all, f),
                self@ == (CtxView { edges: self@.edges, ..before }),
            decreases items@.len() - k,
        {
            assert(all[k as int] == items@[k as int]@);
            if let Some(id) = items[k].child("Identifier") {
                let name = ident_full(id);
                let rel = self.rel.clone();
                self.edges.push(RawEdge::named(rel, "imports", name));
            }
            k += 1;
        }
    }

    fn trait_use_in(&mut self, t: &Tree)
        ensures
            final(self)@ == trait_use_entered(t@, old(self)@),
    {
        let n = self.scope.len();
        assert(self@.scope.len() == n);
        if n > 0 {
            assert(self@.scope[n - 1] == self.scope@[n - 1]@);
            let id = self.scope[n - 1].clone();
            let traits = t.all("Identifier");
            self.heritage(&id, &traits, "implements");
        }
    }

    fn call_in(&mut self, t: &Tree)
        ensures
            final(self)@ == call_entered(t@, old(self)@),
    {
        if let Some(e) = t.child("Expression") {
            if let Some(name) = callee_name(e) {
                let source = self.cur();
                self.push_edge(RawEdge::call(source, name, false, None));
            }
        }
    }

    fn receiver_of(&self, e: &Tree) -> (r: Option<String>)
        ensures
            seqs::opt_view(r) == receiver(e@, self@),
    {
        match var_name(e) {
            Some(v) => if is_text(&chars_of(&v), "$this") {
                self.class()
            } else {
                types::look_up(&self.bindings, &v)
            },
            None => match this_prop_name(e) {
                Some(p) => {
                    let n = self.classes.len();
                    assert(self@.classes.len() == n);
                    if self.full && n > 0 {
                        assert(self@.classes[n - 1] == self.classes@[n - 1]@);
                        self.classes[n - 1].props.get(&p)
                    } else {
                        None
                    }
                },
                None => None,
            },
        }
    }

    fn method_reference_in(&mut self, t: &Tree)
        ensures
            final(self)@ == method_reference_entered(t@, old(self)@),
    {
        if let Some(e) = t.child("Expression") {
            if let Some(s) = t.child("ClassLikeMemberSelector") {
                if let Some(m) = selector_name(s) {
                    let recv = self.receiver_of(e);
                    let source = self.cur();
                    self.push_edge(RawEdge::call(source, m, true, recv));
                }
            }
        }
    }

    fn related_to(&self, t: &Tree, e: &Tree, m: &str) -> (r: Option<String>)
        ensures
            seqs::opt_view(r) == relation_target(t@, e@, m@, self@),
    {
        let n = self.classes.len();
        assert(self@.classes.len() == n);
        if self.full && is_variable(e, "$this") && n > 0 {
            if model::relation_kind(m).is_some() {
                return laravel::related_model(ast::span(&self.source, t.start, t.end));
            }
        }
        None
    }

    fn method_call_in(&mut self, t: &Tree)
        ensures
            final(self)@ == method_call_entered(t@, old(self)@),
    {
        if let Some(e) = t.child("Expression") {
            if let Some(s) = t.child("ClassLikeMemberSelector") {
                if let Some(m) = selector_name(s) {
                    if let Some(related) = self.related_to(t, e, &m) {
                        let n = self.classes.len();
                        assert(self@.classes.len() == n);
                        assert(self@.classes[n - 1] == self.classes@[n - 1]@);
                        if let Some(kind) = model::relation_kind(&m) {
                            let id = self.classes[n - 1].id.clone();
                            self.push_edge(RawEdge::named(id, kind, related));
                        }
                    } else {
                        let recv = self.receiver_of(e);
                        let source = self.cur();
                        self.push_edge(RawEdge::call(source, m, true, recv));
                    }
                }
            }
        }
    }

    fn class_before(&self, e: &Tree) -> (r: Option<String>)
        ensures
            seqs::opt_view(r) == static_class(e@, self@),
    {
        let name = callee_name(e);
        if name.is_some() {
            return name;
        }
        if is_keyword(e, "self") || is_keyword(e, "static") {
            self.class()
        } else if is_keyword(e, "parent") {
            if self.full {
                self.parent()
            } else {
                self.class()
            }
        } else {
            None
        }
    }

    fn static_call_in(&mut self, t: &Tree)
        ensures
            final(self)@ == static_call_entered(t@, old(self)@),
    {
        if let Some(e) = t.child("Expression") {
            if let Some(s) = t.child("ClassLikeMemberSelector") {
                if let Some(m) = selector_name(s) {
                    let recv = self.class_before(e);
                    let source = self.cur();
                    self.push_edge(RawEdge::call(source, m, true, recv));
                }
            }
        }
    }

    fn constant_in(&mut self, t: &Tree)
        ensures
            final(self)@ == constant_entered(t@, old(self)@),
    {
        if let Some(e) = t.child("Expression") {
            let name = callee_name(e);
            let class = if name.is_some() {
                name
            } else if is_keyword(e, "parent") {
                self.parent()
            } else {
                None
            };
            if let Some(class) = class {
                let source = self.cur();
                self.push_edge(RawEdge::named(source, "uses-const", class));
            }
        }
    }

    fn instantiation_in(&mut self, t: &Tree)
        ensures
            final(self)@ == instantiation_entered(t@, old(self)@),
    {
        if let Some(class) = self.new_class(t) {
            let source = self.cur();
            self.push_edge(RawEdge::named(source.clone(), "instantiates", class.clone()));
            self.push_edge(RawEdge::call(source, "__construct".to_string(), true, Some(class)));
        }
    }

    fn require_in(&mut self, t: &Tree)
        ensures
            final(self)@ == require_entered(t@, old(self)@),
    {
        if let Some(e) = t.child("Expression") {
            if let Some(spec) = php::require_spec(ast::span(&self.source, e.start, e.end)) {
                let rel = self.rel.clone();
                self.push_edge(RawEdge::named(rel, "requires", spec));
            }
        }
    }

    fn return_in(&mut self)
        ensures
            final(self)@ == return_entered(old(self)@),
    {
        assert(self@.scope.len() == self.scope@.len());
        if self.scope.len() == 0 && !self.returned {
            self.returned = true;
            let rel = self.rel.clone();
            self.push_edge(RawEdge::named(rel.clone(), "returns", rel));
        }
    }

    fn extra_in(&mut self, t: &Tree, kind: &[char])
        requires
            kind@ == t@.kind,
            old(self)@.taken.finite(),
        ensures
            final(self)@ == extra_entered(t@, old(self)@),
            final(self)@.taken.finite(),
    {
        if !self.full {
            return;
        }
        if is_text(kind, "FunctionPartialApplication") {
            self.call_in(t);
        } else if is_text(kind, "MethodPartialApplication") {
            self.method_reference_in(t);
        } else if is_text(kind, "StaticMethodPartialApplication") {
            self.static_call_in(t);
        } else if is_text(kind, "ClassConstantAccess") {
            self.constant_in(t);
        } else if is_text(kind, "Instantiation") {
            self.instantiation_in(t);
        } else if is_text(kind, "RequireConstruct") || is_text(kind, "RequireOnceConstruct")
            || is_text(kind, "IncludeConstruct") || is_text(kind, "IncludeOnceConstruct") {
            self.require_in(t);
        } else if is_text(kind, "Return") {
            self.return_in();
        }
    }

    fn enter(&mut self, t: &Tree)
        requires
            old(self)@.taken.finite(),
        ensures
            final(self)@ == entered(t@, old(self)@),
            final(self)@.taken.finite(),
    {
        let kind = chars_of(&t.kind);
        if is_text(&kind, "Class") {
            self.class_in(t);
        } else if is_text(&kind, "Interface") {
            self.interface_in(t);
        } else if is_text(&kind, "Trait") {
            self.trait_in(t);
        } else if is_text(&kind, "Enum") {
            self.enum_in(t);
        } else if is_text(&kind, "Function") {
            self.function_in(t);
        } else if is_text(&kind, "Method") {
            self.method_in(t);
        } else if is_text(&kind, "Closure") || is_text(&kind, "ArrowFunction") {
            self.closure_in(t);
        } else if is_text(&kind, "Assignment") {
            self.assignment_in(t);
        } else if is_text(&kind, "Use") {
            self.use_in(t);
        } else if is_text(&kind, "TraitUse") {
            self.trait_use_in(t);
        } else if is_text(&kind, "FunctionCall") {
            self.call_in(t);
        } else if is_text(&kind, "MethodCall") {
            self.method_call_in(t);
        } else if is_text(&kind, "StaticMethodCall") {
            self.static_call_in(t);
        } else {
            self.extra_in(t, &kind);
        }
    }

    fn leave(&mut self, t: &Tree)
        requires
            old(self)@.taken.finite(),
        ensures
            final(self)@ == left(t@, old(self)@),
            final(self)@.taken.finite(),
    {
        let kind = chars_of(&t.kind);
        if is_text(&kind, "Class") || is_text(&kind, "Interface") || is_text(&kind, "Trait")
            || is_text(&kind, "Enum") {
            self.leave_class();
        } else if is_text(&kind, "Function") || is_text(&kind, "Method") || is_text(&kind, "Closure")
            || is_text(&kind, "ArrowFunction") {
            self.leave_function();
        }
    }
}

fn walk(t: &Tree, ctx: &mut Ctx)
    requires
        old(ctx)@.taken.finite(),
    ensures
        final(ctx)@ == walked(t@, old(ctx)@),
        final(ctx)@.taken.finite(),
    decreases t,
{
    let ghost before = ctx@;
    ctx.enter(t);
    let ghost inside = ctx@;
    let mut k: usize = 0;
    while k < t.children.len()
        invariant
            k <= t.children@.len(),
            t@.children == seqs::views(t.children@),
            ctx@.taken.finite(),
            walked_children(t@, k as int, ctx@) == walked_children(t@, 0, inside),
        decreases t.children@.len() - k,
    {
        assert(t@.children[k as int] == t.children@[k as int]@);
        walk(&t.children[k], ctx);
        k += 1;
    }
    assert(t@.children.len() == t.children@.len());
    ctx.leave(t);
}

/// The stateless walker; all state lives in [`Ctx`].
pub struct Ext;

impl Ext {
    /// Walk a syntax tree, filling `ctx`.
    pub fn run(program: &Tree, ctx: &mut Ctx)
        requires
            old(ctx)@.taken.finite(),
        ensures
            final(ctx)@ == walked(program@, old(ctx)@),
            final(ctx)@.taken.finite(),
    {
        walk(program, ctx);
    }
}

// ---------------------------------------------------------------------------
// Laws

/// Some scope contains the node with this id.
pub open spec fn is_contained(edges: Seq<EdgeView>, id: Seq<char>) -> bool {
    exists|k: int|
        0 <= k < edges.len() && (#[trigger] edges[k]).relation == "contains"@ && edges[k].target_id == Some(id)
}

/// What holds of the state at every point of a walk: no two nodes carry the same
/// id; the open scopes and classes are nodes; every edge starts at a node, and a
/// `contains` edge ends at one; and every symbol is contained in a scope.
pub open spec fn is_sound(c: CtxView) -> bool {
    &&& c.taken.finite()
    &&& model::is_id(c.nodes, c.rel)
    &&& forall|i: int| 0 <= i < c.nodes.len() ==> c.taken.contains((#[trigger] c.nodes[i]).id)
    &&& model::ids_are_distinct(c.nodes)
    &&& forall|k: int| 0 <= k < c.scope.len() ==> model::is_id(c.nodes, #[trigger] c.scope[k])
    &&& forall|k: int| 0 <= k < c.classes.len() ==> model::is_id(c.nodes, (#[trigger] c.classes[k]).id)
    &&& forall|k: int| 0 <= k < c.edges.len() ==> model::is_id(c.nodes, (#[trigger] c.edges[k]).source)
    &&& forall|k: int|
        0 <= k < c.edges.len() && (#[trigger] c.edges[k]).target_id is Some ==> model::is_id(
            c.nodes,
            c.edges[k].target_id->0,
        )
    &&& forall|i: int|
        0 <= i < c.nodes.len() && (#[trigger] c.nodes[i]).kind != "file"@ && c.nodes[i].kind != "table"@
            ==> is_contained(c.edges, c.nodes[i].id)
}

pub proof fn lemma_containment_grows(edges: Seq<EdgeView>, es: Seq<EdgeView>)
    ensures
        forall|id: Seq<char>| #[trigger] is_contained(edges, id) ==> is_contained(edges + es, id),
{
    let more = edges + es;
    assert forall|id: Seq<char>| #[trigger] is_contained(edges, id) implies is_contained(more, id) by {
        let k = choose|k: int|
            0 <= k < edges.len() && (#[trigger] edges[k]).relation == "contains"@ && edges[k].target_id == Some(
                id,
            );
        assert(more[k] == edges[k]);
    }
}

/// An edge that starts at a node and ends at a name.
pub open spec fn starts_in(nodes: Seq<NodeView>, e: EdgeView) -> bool {
    model::is_id(nodes, e.source) && e.target_id is None
}

proof fn lemma_more_edges(c: CtxView, es: Seq<EdgeView>)
    requires
        is_sound(c),
        forall|k: int| 0 <= k < es.len() ==> starts_in(c.nodes, #[trigger] es[k]),
    ensures
        is_sound(c.with_edges(es)),
{
    let d = c.with_edges(es);
    lemma_containment_grows(c.edges, es);
    assert forall|k: int| 0 <= k < d.edges.len() implies model::is_id(d.nodes, (#[trigger] d.edges[k]).source) && (
    d.edges[k].target_id is Some ==> model::is_id(d.nodes, d.edges[k].target_id->0)) by {
        if k < c.edges.len() {
            assert(d.edges[k] == c.edges[k]);
        } else {
            assert(d.edges[k] == es[k - c.edges.len()]);
            assert(starts_in(c.nodes, es[k - c.edges.len()]));
        }
    }
}

proof fn lemma_more_edge(c: CtxView, e: EdgeView)
    requires
        is_sound(c),
        starts_in(c.nodes, e),
    ensures
        is_sound(c.with_edge(e)),
{
    lemma_more_edges(c, seq![e]);
    assert(c.edges + seq![e] =~= c.edges.push(e));
}

proof fn lemma_cur(c: CtxView)
    requires
        is_sound(c),
    ensures
        model::is_id(c.nodes, c.cur()),
{
    if c.scope.len() > 0 {
        assert(c.cur() == c.scope[c.scope.len() - 1]);
    }
}

proof fn lemma_more_nodes(c: CtxView, n: NodeView)
    requires
        is_sound(c),
        !c.taken.contains(n.id),
        n.kind == "file"@ || n.kind == "table"@ || is_contained(c.edges, n.id),
    ensures
        is_sound(CtxView { nodes: c.nodes.push(n), taken: c.taken.insert(n.id), ..c }),
{
    let d = CtxView { nodes: c.nodes.push(n), taken: c.taken.insert(n.id), ..c };
    model::lemma_ids_grow(c.nodes, n);
    assert forall|i: int| 0 <= i < d.nodes.len() implies d.taken.contains((#[trigger] d.nodes[i]).id) by {
        if i < c.nodes.len() {
            assert(d.nodes[i] == c.nodes[i]);
        }
    }
    assert forall|i: int, j: int| 0 <= i < j < d.nodes.len() implies (#[trigger] d.nodes[i]).id != (
    #[trigger] d.nodes[j]).id by {
        assert(d.nodes[i] == c.nodes[i]);
        if j < c.nodes.len() {
            assert(d.nodes[j] == c.nodes[j]);
        }
    }
    assert forall|i: int|
        0 <= i < d.nodes.len() && (#[trigger] d.nodes[i]).kind != "file"@ && d.nodes[i].kind
            != "table"@ implies is_contained(d.edges, d.nodes[i].id) by {
        if i < c.nodes.len() {
            assert(d.nodes[i] == c.nodes[i]);
        }
    }
}

proof fn lemma_new_node(c: CtxView, base: Seq<char>, name: Seq<char>, kind: Seq<char>, t: TreeView)
    requires
        is_sound(c),
    ensures
        is_sound(c.with_node(base, name, kind, t)),
        model::is_id(c.with_node(base, name, kind, t).nodes, c.new_id(base)),
{
    let id = c.new_id(base);
    let n = NodeView { id, name, kind, path: c.rel, start: t.start, end: t.end };
    let e = model::contains_edge(c.cur(), id);
    let d = c.with_node(base, name, kind, t);
    model::minted_ids_are_free(c.taken, base);
    lemma_cur(c);
    model::lemma_ids_grow(c.nodes, n);
    lemma_containment_grows(c.edges, seq![e]);
    assert(c.edges + seq![e] =~= d.edges);
    assert(d.edges[c.edges.len() as int] == e);
    assert(is_contained(d.edges, id));
    assert forall|k: int| 0 <= k < d.edges.len() implies model::is_id(d.nodes, (#[trigger] d.edges[k]).source) && (
    d.edges[k].target_id is Some ==> model::is_id(d.nodes, d.edges[k].target_id->0)) by {
        if k < c.edges.len() {
            assert(d.edges[k] == c.edges[k]);
        }
    }
    assert forall|i: int| 0 <= i < d.nodes.len() implies d.taken.contains((#[trigger] d.nodes[i]).id) by {
        if i < c.nodes.len() {
            assert(d.nodes[i] == c.nodes[i]);
        }
    }
    assert forall|i: int, j: int| 0 <= i < j < d.nodes.len() implies (#[trigger] d.nodes[i]).id != (
    #[trigger] d.nodes[j]).id by {
        assert(d.nodes[i] == c.nodes[i]);
        if j < c.nodes.len() {
            assert(d.nodes[j] == c.nodes[j]);
        }
    }
    assert forall|i: int|
        0 <= i < d.nodes.len() && (#[trigger] d.nodes[i]).kind != "file"@ && d.nodes[i].kind
            != "table"@ implies is_contained(d.edges, d.nodes[i].id) by {
        if i < c.nodes.len() {
            assert(d.nodes[i] == c.nodes[i]);
        }
    }
}

proof fn lemma_heritage(c: CtxView, id: Seq<char>, types: Seq<TreeView>, relation: Seq<char>)
    requires
        is_sound(c),
        model::is_id(c.nodes, id),
    ensures
        is_sound(c.with_heritage(id, types, relation)),
{
    lemma_more_edges(
        c,
        types.map_values(|t: TreeView| model::named_edge(id, relation, ast::bare_name(t))),
    );
}

proof fn lemma_table(c: CtxView, id: Seq<char>, table: Seq<char>)
    requires
        is_sound(c),
        model::is_id(c.nodes, id),
    ensures
        is_sound(c.with_table(id, table)),
        forall|x: Seq<char>| #[trigger]
            model::is_id(c.nodes, x) ==> model::is_id(c.with_table(id, table).nodes, x),
{
    let node = model::table_node(c.rel, table);
    let e = model::named_edge(id, "table"@, table);
    let d = c.with_table(id, table);
    lemma_more_edge(c, e);
    model::lemma_ids_grow(c.nodes, node);
    if c.taken.contains(node.id) {
        assert(c.taken.insert(node.id) =~= c.taken);
        assert(d =~= c.with_edge(e));
    } else {
        let m = c.with_edge(e);
        lemma_more_nodes(m, node);
        assert(d =~= CtxView { nodes: m.nodes.push(node), taken: m.taken.insert(node.id), ..m });
    }
}

proof fn lemma_in_class(c: CtxView, class: ClassView)
    requires
        is_sound(c),
        model::is_id(c.nodes, class.id),
    ensures
        is_sound(c.in_class(class)),
{
    let d = c.in_class(class);
    assert forall|k: int| 0 <= k < d.scope.len() implies model::is_id(d.nodes, #[trigger] d.scope[k]) by {
        if k < c.scope.len() {
            assert(d.scope[k] == c.scope[k]);
        }
    }
    assert forall|k: int| 0 <= k < d.classes.len() implies model::is_id(d.nodes, (#[trigger] d.classes[k]).id) by {
        if k < c.classes.len() {
            assert(d.classes[k] == c.classes[k]);
        }
    }
}

proof fn lemma_in_function(c: CtxView, id: Seq<char>, params: Map<Seq<char>, Seq<char>>)
    requires
        is_sound(c),
        model::is_id(c.nodes, id),
    ensures
        is_sound(c.in_function(id, params)),
{
    let d = c.in_function(id, params);
    assert forall|k: int| 0 <= k < d.scope.len() implies model::is_id(d.nodes, #[trigger] d.scope[k]) by {
        if k < c.scope.len() {
            assert(d.scope[k] == c.scope[k]);
        }
    }
}

proof fn lemma_class_entered(t: TreeView, c: CtxView)
    requires
        is_sound(c),
    ensures
        is_sound(class_entered(t, c)),
{
    let name = declared(t);
    let base = c.rel + "#"@ + name;
    let id = c.new_id(base);
    let bases = clause(t, "Extends"@);
    let a = c.with_node(base, name, "class"@, t);
    let b = a.with_heritage(id, bases, "extends"@);
    let told = b.with_heritage(id, clause(t, "Implements"@), "implements"@);
    let class = ClassView { name, id, parent: first_name(bases), props: typed_properties(t) };
    lemma_new_node(c, base, name, "class"@, t);
    lemma_heritage(a, id, bases, "extends"@);
    lemma_heritage(b, id, clause(t, "Implements"@), "implements"@);
    match laravel::mapped_table(
        name,
        bare_names(bases),
        ast::spanned(c.source, t.start as int, t.end as int),
    ) {
        Some(table) => {
            lemma_table(told, id, table);
            lemma_in_class(told.with_table(id, table), class);
        },
        None => {},
    }
    lemma_in_class(told, class);
}

proof fn lemma_declaration_entered(t: TreeView, c: CtxView)
    requires
        is_sound(c),
    ensures
        is_sound(interface_entered(t, c)),
        is_sound(trait_entered(t, c)),
        is_sound(enum_entered(t, c)),
{
    let name = declared(t);
    let base = c.rel + "#"@ + name;
    let id = c.new_id(base);
    let a = c.with_node(base, name, "interface"@, t);
    lemma_new_node(c, base, name, "interface"@, t);
    lemma_heritage(a, id, clause(t, "Extends"@), "extends"@);
    lemma_in_class(
        a.with_heritage(id, clause(t, "Extends"@), "extends"@),
        ClassView { name, id, parent: None, props: Map::empty() },
    );
    let own = ClassView { name, id, parent: None, props: typed_properties(t) };
    lemma_new_node(c, base, name, "trait"@, t);
    lemma_in_class(c.with_node(base, name, "trait"@, t), own);
    let b = c.with_node(base, name, "enum"@, t);
    lemma_new_node(c, base, name, "enum"@, t);
    lemma_heritage(b, id, clause(t, "Implements"@), "implements"@);
    lemma_in_class(b.with_heritage(id, clause(t, "Implements"@), "implements"@), own);
}

proof fn lemma_function_entered(t: TreeView, c: CtxView)
    requires
        is_sound(c),
    ensures
        is_sound(function_entered(t, c)),
        is_sound(method_entered(t, c)),
        is_sound(closure_entered(t, c)),
{
    let name = declared(t);
    let base = c.rel + "#"@ + name;
    lemma_new_node(c, base, name, "function"@, t);
    lemma_in_function(c.with_node(base, name, "function"@, t), c.new_id(base), entry_types(c, t));
    let class = match c.class() {
        Some(n) => n,
        None => Seq::empty(),
    };
    let method = c.rel + "#"@ + (class + "."@ + name);
    lemma_new_node(c, method, name, "method"@, t);
    lemma_in_function(c.with_node(method, name, "method"@, t), c.new_id(method), entry_types(c, t));
    let given = match c.pending {
        Some(n) => n,
        None => "{closure}"@,
    };
    let free = CtxView { pending: None, ..c };
    let closure = c.cur() + "."@ + given;
    lemma_new_node(free, closure, given, "function"@, t);
    lemma_in_function(
        free.with_node(closure, given, "function"@, t),
        c.new_id(closure),
        typed_parameters(t),
    );
}

proof fn lemma_import_edges(nodes: Seq<NodeView>, items: Seq<TreeView>, k: int, rel: Seq<char>)
    requires
        model::is_id(nodes, rel),
        k >= 0,
    ensures
        forall|m: int|
            0 <= m < seqs::each_from(items, k, import_edge(rel)).len() ==> starts_in(
                nodes,
                #[trigger] seqs::each_from(items, k, import_edge(rel))[m],
            ),
    decreases items.len() - k,
{
    let f = import_edge(rel);
    if k < items.len() {
        lemma_import_edges(nodes, items, k + 1, rel);
        let head = f(items[k]);
        let rest = seqs::each_from(items, k + 1, f);
        let all = seqs::each_from(items, k, f);
        assert(all == head + rest);
        assert forall|m: int| 0 <= m < all.len() implies starts_in(nodes, #[trigger] all[m]) by {
            if m < head.len() {
                assert(all[m] == head[m]);
            } else {
                assert(all[m] == rest[m - head.len()]);
            }
        }
    }
}

/// Two states have the same open scopes.
pub open spec fn same_scopes(c: CtxView, d: CtxView) -> bool {
    &&& d.rel == c.rel
    &&& d.source == c.source
    &&& d.full == c.full
    &&& d.scope == c.scope
    &&& d.classes == c.classes
    &&& d.bindings.len() == c.bindings.len()
}

/// A tree opens a class scope.
pub open spec fn opens_class(t: TreeView) -> bool {
    t.kind == "Class"@ || t.kind == "Interface"@ || t.kind == "Trait"@ || t.kind == "Enum"@
}

/// A tree opens a function scope.
pub open spec fn opens_function(t: TreeView) -> bool {
    t.kind == "Function"@ || t.kind == "Method"@ || t.kind == "Closure"@ || t.kind == "ArrowFunction"@
}

proof fn lemma_extra_entered(t: TreeView, c: CtxView)
    requires
        is_sound(c),
    ensures
        is_sound(call_entered(t, c)),
        is_sound(method_call_entered(t, c)),
        is_sound(static_call_entered(t, c)),
        is_sound(extra_entered(t, c)),
{
    lemma_cur(c);
    let cur = c.cur();
    if let Some(e) = t.child("Expression"@) {
        if let Some(n) = ast::called(e) {
            lemma_more_edge(c, model::call_edge(cur, n, false, None));
            lemma_more_edge(c, model::named_edge(cur, "uses-const"@, n));
        }
        if let Some(n) = c.parent() {
            lemma_more_edge(c, model::named_edge(cur, "uses-const"@, n));
        }
        if let Some(spec) = php::required(ast::spanned(c.source, e.start as int, e.end as int)) {
            lemma_more_edge(c, model::named_edge(c.rel, "requires"@, spec));
        }
        if let Some(s) = t.child("ClassLikeMemberSelector"@) {
            if let Some(m) = ast::selected(s) {
                lemma_more_edge(c, model::call_edge(cur, m, true, receiver(e, c)));
                lemma_more_edge(c, model::call_edge(cur, m, true, static_class(e, c)));
                if let Some(related) = relation_target(t, e, m, c) {
                    assert(c.classes.last() == c.classes[c.classes.len() - 1]);
                    lemma_more_edge(c, model::named_edge(c.classes.last().id, m, related));
                }
            }
        }
    }
    if let Some(n) = constructed(t, c) {
        let a = c.with_edge(model::named_edge(cur, "instantiates"@, n));
        lemma_more_edge(c, model::named_edge(cur, "instantiates"@, n));
        lemma_more_edge(a, model::call_edge(cur, "__construct"@, true, Some(n)));
    }
    let marked = CtxView { returned: true, ..c };
    lemma_more_edge(marked, model::named_edge(c.rel, "returns"@, c.rel));
}

proof fn lemma_entered(t: TreeView, c: CtxView)
    requires
        is_sound(c),
    ensures
        is_sound(entered(t, c)),
{
    if opens_class(t) {
        lemma_class_entered(t, c);
        lemma_declaration_entered(t, c);
    } else if opens_function(t) {
        lemma_function_entered(t, c);
    } else {
        lemma_extra_entered(t, c);
        lemma_import_edges(c.nodes, imported_items(t), 0, c.rel);
        lemma_more_edges(c, seqs::each(imported_items(t), import_edge(c.rel)));
        if c.scope.len() > 0 {
            lemma_cur(c);
            lemma_heritage(c, c.scope.last(), t.all("Identifier"@), "implements"@);
        }
    }
}

proof fn lemma_left(t: TreeView, c: CtxView)
    requires
        is_sound(c),
    ensures
        is_sound(left(t, c)),
{
    let d = left(t, c);
    assert forall|k: int| 0 <= k < d.scope.len() implies model::is_id(d.nodes, #[trigger] d.scope[k]) by {
        assert(d.scope[k] == c.scope[k]);
    }
    assert forall|k: int| 0 <= k < d.classes.len() implies model::is_id(d.nodes, (#[trigger] d.classes[k]).id) by {
        assert(d.classes[k] == c.classes[k]);
    }
}

proof fn lemma_scopes(t: TreeView, c: CtxView, d: CtxView)
    requires
        same_scopes(entered(t, c), d),
    ensures
        same_scopes(c, left(t, d)),
{
    let e = entered(t, c);
    if opens_class(t) {
        assert(e.scope.drop_last() =~= c.scope);
        assert(e.classes.drop_last() =~= c.classes);
    } else if opens_function(t) {
        assert(e.scope.drop_last() =~= c.scope);
        assert(e.bindings.drop_last() =~= c.bindings);
    }
}

/// A walk leaves every scope that it enters.
pub proof fn scopes_are_left(t: TreeView, c: CtxView)
    ensures
        same_scopes(c, walked(t, c)),
    decreases t, t.children.len() + 2,
{
    let inside = entered(t, c);
    lemma_children_scopes(t, 0, inside);
    lemma_scopes(t, c, walked_children(t, 0, inside));
}

pub proof fn lemma_children_scopes(t: TreeView, k: int, c: CtxView)
    ensures
        same_scopes(c, walked_children(t, k, c)),
    decreases t, t.children.len() + 1 - k,
{
    if 0 <= k < t.children.len() {
        scopes_are_left(t.children[k], c);
        lemma_children_scopes(t, k + 1, walked(t.children[k], c));
    }
}

/// The second state holds all that the first one holds, in the same places.
pub open spec fn grows(c: CtxView, d: CtxView) -> bool {
    &&& c.nodes.len() <= d.nodes.len()
    &&& c.edges.len() <= d.edges.len()
    &&& forall|i: int| 0 <= i < c.nodes.len() ==> #[trigger] d.nodes[i] == c.nodes[i]
    &&& forall|i: int| 0 <= i < c.edges.len() ==> #[trigger] d.edges[i] == c.edges[i]
}

proof fn lemma_table_grows(c: CtxView, id: Seq<char>, table: Seq<char>)
    ensures
        grows(c, c.with_table(id, table)),
{
}

proof fn lemma_class_grows(t: TreeView, c: CtxView)
    ensures
        grows(c, class_entered(t, c)),
{
    let name = declared(t);
    let base = c.rel + "#"@ + name;
    let id = c.new_id(base);
    let bases = clause(t, "Extends"@);
    let told = c.with_node(base, name, "class"@, t).with_heritage(id, bases, "extends"@).with_heritage(
        id,
        clause(t, "Implements"@),
        "implements"@,
    );
    assert(grows(c, told));
    if let Some(table) = laravel::mapped_table(
        name,
        bare_names(bases),
        ast::spanned(c.source, t.start as int, t.end as int),
    ) {
        lemma_table_grows(told, id, table);
    }
}

proof fn lemma_declaration_grows(t: TreeView, c: CtxView)
    ensures
        grows(c, interface_entered(t, c)),
        grows(c, trait_entered(t, c)),
        grows(c, enum_entered(t, c)),
{
}

proof fn lemma_function_grows(t: TreeView, c: CtxView)
    ensures
        grows(c, function_entered(t, c)),
        grows(c, method_entered(t, c)),
        grows(c, closure_entered(t, c)),
{
}

proof fn lemma_reference_grows(t: TreeView, c: CtxView)
    ensures
        grows(c, assignment_entered(t, c)),
        grows(c, use_entered(t, c)),
        grows(c, trait_use_entered(t, c)),
        grows(c, call_entered(t, c)),
        grows(c, method_call_entered(t, c)),
        grows(c, static_call_entered(t, c)),
{
}

proof fn lemma_extra_grows(t: TreeView, c: CtxView)
    ensures
        grows(c, extra_entered(t, c)),
{
}

pub proof fn lemma_entered_grows(t: TreeView, c: CtxView)
    ensures
        grows(c, entered(t, c)),
{
    if t.kind == "Class"@ {
        lemma_class_grows(t, c);
    } else if opens_class(t) {
        lemma_declaration_grows(t, c);
    } else if opens_function(t) {
        lemma_function_grows(t, c);
    } else {
        lemma_reference_grows(t, c);
        lemma_extra_grows(t, c);
    }
}

/// A walk only adds: what was found before stays where it was.
pub proof fn walks_only_add(t: TreeView, c: CtxView)
    ensures
        grows(c, walked(t, c)),
    decreases t, t.children.len() + 2,
{
    lemma_entered_grows(t, c);
    lemma_children_grow(t, 0, entered(t, c));
}

pub proof fn lemma_children_grow(t: TreeView, k: int, c: CtxView)
    ensures
        grows(c, walked_children(t, k, c)),
    decreases t, t.children.len() + 1 - k,
{
    if 0 <= k < t.children.len() {
        walks_only_add(t.children[k], c);
        lemma_children_grow(t, k + 1, walked(t.children[k], c));
    }
}

/// A walk keeps the state sound: whatever the tree, no two nodes get the same id,
/// every edge starts at a node of the file, and every symbol is contained in a
/// scope.
pub proof fn walks_are_sound(t: TreeView, c: CtxView)
    requires
        is_sound(c),
    ensures
        is_sound(walked(t, c)),
    decreases t, t.children.len() + 2,
{
    lemma_entered(t, c);
    lemma_children_sound(t, 0, entered(t, c));
    lemma_left(t, walked_children(t, 0, entered(t, c)));
}

proof fn lemma_children_sound(t: TreeView, k: int, c: CtxView)
    requires
        is_sound(c),
    ensures
        is_sound(walked_children(t, k, c)),
    decreases t, t.children.len() + 1 - k,
{
    if 0 <= k < t.children.len() {
        walks_are_sound(t.children[k], c);
        lemma_children_sound(t, k + 1, walked(t.children[k], c));
    }
}

} // verus!
