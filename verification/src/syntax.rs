//! The syntax trees of PHP files.

use std::borrow::Cow;

use mago_span::HasSpan;
use vstd::prelude::*;

use crate::ast;
use crate::seqs;
use crate::text::{chars_of, is_text};

verus! {

broadcast use crate::seqs::group_text;

/// A node of a syntax tree, in a list of nodes in which the children of a node
/// stand before it.
#[derive(Debug)]
pub struct Item {
    /// What the node is.
    pub kind: String,
    /// The byte offset of its first character.
    pub start: u32,
    /// The byte offset behind its last character.
    pub end: u32,
    /// The number of its children.
    pub size: usize,
}

/// What an [`Item`] says.
pub struct ItemView {
    pub kind: Seq<char>,
    pub start: u32,
    pub end: u32,
    pub size: usize,
}

impl View for Item {
    type V = ItemView;

    open spec fn view(&self) -> ItemView {
        ItemView { kind: self.kind@, start: self.start, end: self.end, size: self.size }
    }
}

/// The nodes of the syntax tree of PHP code, each behind its children.
pub uninterp spec fn php_items(code: Seq<char>) -> Seq<ItemView>;

/// `mago_syntax::parser::parse_file`, and `mago_syntax::ast::Node::filter_map` on
/// the program that it gives: every node of the syntax tree of PHP code, each
/// behind its children, as its kind (`Node::kind`), its span and the number of
/// its children (`Node::children`). The parser recovers from errors, so there is
/// a tree for every code.
#[verifier::external_body]
pub(crate) fn parse_php(code: &str) -> (r: Vec<Item>)
    ensures
        seqs::views(r@) == php_items(code@),
{
    let arena = bumpalo::Bump::new();
    let file = mago_database::file::File::ephemeral(Cow::Borrowed(""), Cow::Owned(code.to_string()));
    let program = mago_syntax::parser::parse_file(&arena, &file);
    mago_syntax::ast::Node::Program(program).filter_map(|n| Some(Item {
        kind: n.kind().to_string(),
        start: n.start_offset(),
        end: n.end_offset(),
        size: n.children().len(),
    }))
}

/// A syntax tree.
#[derive(Debug)]
pub struct Tree {
    /// What the root is.
    pub kind: String,
    /// The source text of a root without children.
    pub text: String,
    /// The byte offset of its first character.
    pub start: u32,
    /// The byte offset behind its last character.
    pub end: u32,
    /// The subtrees, in the order of the source.
    pub children: Vec<Tree>,
}

/// What a [`Tree`] says.
pub struct TreeView {
    pub kind: Seq<char>,
    pub text: Seq<char>,
    pub start: u32,
    pub end: u32,
    pub children: Seq<TreeView>,
}

/// What a tree says.
pub open spec fn tree_view(t: Tree) -> TreeView
    decreases t,
{
    TreeView {
        kind: t.kind@,
        text: t.text@,
        start: t.start,
        end: t.end,
        children: Seq::new(
            t.children@.len(),
            |i: int|
                if 0 <= i < t.children@.len() {
                    tree_view(t.children@[i])
                } else {
                    arbitrary()
                },
        ),
    }
}

impl View for Tree {
    type V = TreeView;

    open spec fn view(&self) -> TreeView {
        tree_view(*self)
    }
}

/// The children of a tree are what its subtrees say.
pub broadcast proof fn lemma_children(t: Tree)
    ensures
        (#[trigger] t@).children == seqs::views(t.children@),
{
    assert(t@.children =~= seqs::views(t.children@));
}

/// A node over its children.
pub open spec fn planted(code: Seq<char>, item: ItemView, children: Seq<TreeView>) -> TreeView {
    TreeView {
        kind: item.kind,
        text: if children.len() == 0 {
            ast::spanned(code, item.start as int, item.end as int)
        } else {
            Seq::empty()
        },
        start: item.start,
        end: item.end,
        children,
    }
}

/// The trees that the first `k` nodes make: each node takes as many of the last
/// trees for its children as it has.
pub open spec fn forest(code: Seq<char>, items: Seq<ItemView>, k: int) -> Seq<TreeView>
    decreases k,
{
    if k <= 0 {
        Seq::empty()
    } else {
        let before = forest(code, items, k - 1);
        let item = items[k - 1];
        let n = if item.size < before.len() { before.len() - item.size } else { 0 };
        before.take(n).push(planted(code, item, before.skip(n)))
    }
}

/// The tree of a list of nodes, each behind its children: the last tree that they
/// make.
pub open spec fn grown(code: Seq<char>, items: Seq<ItemView>) -> TreeView {
    let all = forest(code, items, items.len() as int);
    if all.len() == 0 {
        TreeView { kind: "Program"@, text: Seq::empty(), start: 0, end: 0, children: Seq::empty() }
    } else {
        all.last()
    }
}

/// Makes a tree of a list of nodes, each behind its children.
pub fn grow(code: &str, items: Vec<Item>) -> (r: Tree)
    ensures
        r@ == grown(code@, seqs::views(items@)),
{
    broadcast use lemma_children;

    let ghost all = seqs::views(items@);
    let mut trees: Vec<Tree> = Vec::new();
    for item in it: items
        invariant
            it.seq() == items@,
            all == seqs::views(items@),
            seqs::views(trees@) == forest(code@, all, it.index() as int),
    {
        let ghost before = trees@;
        assert(all[it.index() as int] == item@);
        assert(seqs::views(before).len() == before.len());
        let n: usize = if item.size < trees.len() { trees.len() - item.size } else { 0 };
        let children = trees.split_off(n);
        let text = if children.len() == 0 {
            ast::span(code, item.start, item.end).to_string()
        } else {
            String::new()
        };
        assert(seqs::views(children@) =~= seqs::views(before).skip(n as int));
        assert(seqs::views(trees@) =~= seqs::views(before).take(n as int));
        let tree = Tree { kind: item.kind, text, start: item.start, end: item.end, children };
        let ghost want = planted(code@, item@, seqs::views(before).skip(n as int));
        assert(seqs::views(children@).len() == children@.len());
        assert(tree@.text =~= want.text);
        assert(tree@.children =~= want.children);
        assert(tree@ == want);
        trees.push(tree);
    }
    assert(seqs::views(trees@).len() == trees@.len());
    match trees.pop() {
        Some(root) => {
            root
        },
        None => {
            let root = Tree {
                kind: "Program".to_string(),
                text: String::new(),
                start: 0,
                end: 0,
                children: Vec::new(),
            };
            assert(root@.children =~= Seq::empty());
            root
        },
    }
}

/// The syntax tree of PHP code.
pub open spec fn php_tree(code: Seq<char>) -> TreeView {
    grown(code, php_items(code))
}

/// The syntax tree of PHP code.
pub fn parse(code: &str) -> (r: Tree)
    ensures
        r@ == php_tree(code@),
{
    grow(code, parse_php(code))
}

impl TreeView {
    /// The first child of a kind.
    pub open spec fn child(self, kind: Seq<char>) -> Option<TreeView> {
        seqs::first_some(self.children, of_kind(kind))
    }

    /// The children of a kind.
    pub open spec fn all(self, kind: Seq<char>) -> Seq<TreeView> {
        seqs::kept(self.children, is_kind(kind))
    }
}

/// A tree of a kind, if it is one.
pub open spec fn of_kind(kind: Seq<char>) -> spec_fn(TreeView) -> Option<TreeView> {
    |t: TreeView|
        if t.kind == kind {
            Some(t)
        } else {
            None
        }
}

/// A tree is of a kind.
pub open spec fn is_kind(kind: Seq<char>) -> spec_fn(TreeView) -> bool {
    |t: TreeView| t.kind == kind
}

/// A child is smaller than its tree.
pub broadcast proof fn lemma_child_smaller(t: TreeView, kind: Seq<char>)
    ensures
        (#[trigger] t.child(kind)) matches Some(c) ==> decreases_to!(t => c),
{
    lemma_first_smaller(t, 0, kind);
}

proof fn lemma_first_smaller(t: TreeView, k: int, kind: Seq<char>)
    requires
        k >= 0,
    ensures
        seqs::first_from(t.children, k, of_kind(kind)) matches Some(c) ==> decreases_to!(t => c),
    decreases t.children.len() - k,
{
    if k < t.children.len() {
        lemma_first_smaller(t, k + 1, kind);
        assert(decreases_to!(t => t.children[k]));
    }
}

impl Tree {
    /// Whether the tree is of a kind.
    pub fn is(&self, kind: &str) -> (r: bool)
        ensures
            r == (self@.kind == kind@),
    {
        is_text(&chars_of(&self.kind), kind)
    }

    /// The first child of a kind.
    pub fn child<'a>(&'a self, kind: &str) -> (r: Option<&'a Tree>)
        ensures
            seqs::opt_view(r) == self@.child(kind@),
            r matches Some(c) ==> decreases_to!(self => c),
    {
        broadcast use lemma_children;

        let ghost all = self@.children;
        let mut k: usize = 0;
        while k < self.children.len()
            invariant
                k <= self.children@.len(),
                all == seqs::views(self.children@),
                all == self@.children,
                seqs::first_some(all, of_kind(kind@)) == seqs::first_from(all, k as int, of_kind(kind@)),
            decreases self.children@.len() - k,
        {
            assert(all[k as int] == self.children@[k as int]@);
            if self.children[k].is(kind) {
                assert(decreases_to!(self => self.children@[k as int]));
                return Some(&self.children[k]);
            }
            k += 1;
        }
        None
    }

    /// The children of a kind.
    pub fn all<'a>(&'a self, kind: &str) -> (r: Vec<&'a Tree>)
        ensures
            seqs::views(r@) == self@.all(kind@),
    {
        broadcast use lemma_children;

        let ghost all = self@.children;
        let ghost f = seqs::keep(is_kind(kind@));
        let mut out: Vec<&'a Tree> = Vec::new();
        let mut k: usize = 0;
        while k < self.children.len()
            invariant
                k <= self.children@.len(),
                all == seqs::views(self.children@),
                f == seqs::keep(is_kind(kind@)),
                seqs::views(out@) + seqs::each_from(all, k as int, f) == seqs::each(all, f),
            decreases self.children@.len() - k,
        {
            assert(all[k as int] == self.children@[k as int]@);
            if self.children[k].is(kind) {
                out.push(&self.children[k]);
            }
            k += 1;
        }
        out
    }
}

} // verus!
