//! PHP format: parse with Mago, walk the syntax tree into the node/edge model, and
//! scan the source for what the tree does not show.

use vstd::prelude::*;
use vstd::slice::slice_subrange;
use vstd::utf8;

use crate::ast;
use crate::dolibarr;
use crate::extract;
use crate::extract::{Ctx, CtxView, Ext};
use crate::lang;
use crate::laravel;
use crate::model;
use crate::model::{link_all, EdgeView, FoundView, Node, RawEdge};
use crate::paths;
use crate::scan;
use crate::seqs;
use crate::syntax;
use crate::syntax::{Tree, TreeView};
use crate::text;
use crate::text::{chars_of, join2, string_of, CharSet};

verus! {

broadcast use {crate::seqs::group_text, text::lemma_run, text::lemma_seek};

/// The PHP format: routes every `*.php` that is not a Blade template.
pub struct Php;

/// The trailing segment of a `\`-qualified name (`App\Models\User` -> `User`).
pub fn dequalify(name: &str) -> (r: String)
    ensures
        r@ == scan::last_part(name@, '\\'),
{
    ast::dequalify(name)
}

// ---------------------------------------------------------------------------
// Documented types

/// The block comment that ends right before the byte offset `start`, but for white
/// space.
pub open spec fn comment_before(src: Seq<char>, start: int) -> Option<Seq<char>> {
    let n = utf8::encode_utf8(src).len() as int;
    match ast::sliced(src, 0, if start < n { start } else { n }) {
        Some(head) => {
            let t = text::trimmed_end(head, CharSet::Space);
            let o = text::find_back(t, "/*"@, t.len() - 1);
            if text::ends(t, "*/"@) && o < t.len() {
                Some(t.subrange(o, t.len() as int))
            } else {
                None
            }
        },
        None => None,
    }
}

/// The `/* ... */` block comment immediately preceding byte offset `start`
/// (skipping intervening whitespace), or `None` if the code there isn't preceded
/// by one. Used to read a function/method's phpdoc block for `@param`/`@var`
/// types that older Dolibarr code documents but does not declare natively.
pub fn doc_before(src: &str, start: usize) -> (r: Option<String>)
    ensures
        seqs::opt_view(r) == comment_before(src@, start as int),
{
    let n = src.as_bytes().len();
    let end: usize = if start < n { start } else { n };
    let head = match ast::slice(src, 0, end) {
        Some(head) => chars_of(head),
        None => {
            return None;
        },
    };
    let t = text::trim_end(&head, CharSet::Space);
    if !text::ends_with(t, "*/") {
        return None;
    }
    let open = text::search_last(t, "/*");
    if open >= t.len() {
        return None;
    }
    Some(string_of(slice_subrange(t, open, t.len())))
}

/// The class that a documented type names.
pub open spec fn documented_class(ty: Seq<char>) -> Option<Seq<char>> {
    let t = text::trimmed_start(text::trimmed_start(ty, CharSet::One('?')), CharSet::One('\\'));
    let bare = scan::last_part(t, '\\');
    if t.len() == 0 || text::some_in(t, CharSet::Compound) || bare.len() == 0 || !text::is_upper(
        bare[0],
    ) {
        None
    } else {
        Some(bare)
    }
}

/// The class named by a phpdoc type token, or `None` for a primitive / union /
/// generic / array (`int`, `?Foo`, `Foo|Bar`, `Foo[]`, `array<...>`). Classes are
/// `PascalCase`; scalars and pseudo-types are lowercase, so the leading case
/// discriminates them. The name is de-qualified (`\App\User` -> `User`).
pub fn phpdoc_class(ty: &[char]) -> (r: Option<String>)
    ensures
        seqs::opt_view(r) == documented_class(ty@),
{
    let t = text::trim_start(text::trim_start(ty, CharSet::One('?')), CharSet::One('\\'));
    if t.len() == 0 || text::has_any(t, CharSet::Compound) {
        return None;
    }
    let bare = scan::behind_last(t, '\\');
    if bare.len() == 0 || !CharSet::Upper.test(bare[0]) {
        return None;
    }
    Some(string_of(bare))
}

/// A documentation line without its margin.
pub open spec fn doc_line(line: Seq<char>) -> Seq<char> {
    text::trimmed_start(
        text::trimmed_start(text::trimmed_start(line, CharSet::Space), CharSet::One('*')),
        CharSet::Space,
    )
}

/// What stands behind the `@param` or `@var` of a documentation line.
pub open spec fn tag_text(line: Seq<char>) -> Option<Seq<char>> {
    let l = doc_line(line);
    if text::starts(l, "@param "@) {
        Some(l.skip("@param "@.len() as int))
    } else if text::starts(l, "@var "@) {
        Some(l.skip("@var "@.len() as int))
    } else {
        None
    }
}

/// A word that begins with `$`.
pub open spec fn variable_word() -> spec_fn(Seq<char>) -> Option<Seq<char>> {
    |w: Seq<char>|
        if scan::at(w, 0, CharSet::One('$')) {
            Some(w)
        } else {
            None
        }
}

/// The variable that a documentation line names, and its class.
pub open spec fn doc_binding() -> spec_fn(Seq<char>) -> Seq<(Seq<char>, Seq<char>)> {
    |line: Seq<char>|
        match tag_text(line) {
            Some(rest) => {
                let words = text::words(rest);
                if words.len() == 0 {
                    Seq::empty()
                } else {
                    match (documented_class(words[0]), seqs::first_from(words, 1, variable_word())) {
                        (Some(class), Some(var)) => {
                            let n = text::run(var, 0, CharSet::Variable);
                            if n > 1 {
                                seq![(var.take(n), class)]
                            } else {
                                Seq::empty()
                            }
                        },
                        _ => Seq::empty(),
                    }
                }
            },
            None => Seq::empty(),
        }
}

/// The variables that a documentation block names, each with its class.
pub open spec fn documented(doc: Seq<char>) -> Seq<(Seq<char>, Seq<char>)> {
    seqs::each(text::lines(doc), doc_binding())
}

fn tag_rest<'a>(line: &'a [char]) -> (r: Option<&'a [char]>)
    ensures
        seqs::opt_view(r) == tag_text(line@),
{
    let l = text::trim_start(
        text::trim_start(text::trim_start(line, CharSet::Space), CharSet::One('*')),
        CharSet::Space,
    );
    let n = if text::starts_with(l, "@param ") {
        text::length_of("@param ")
    } else if text::starts_with(l, "@var ") {
        text::length_of("@var ")
    } else {
        return None;
    };
    let rest = slice_subrange(l, n, l.len());
    assert(rest@ =~= l@.skip(n as int));
    Some(rest)
}

fn line_binding(line: &[char]) -> (r: Option<(String, String)>)
    ensures
        doc_binding()(line@) == (match r {
            Some(b) => seq![(b.0@, b.1@)],
            None => Seq::empty(),
        }),
{
    let rest = tag_rest(line)?;
    let words = text::split_words(rest);
    let ghost all = seqs::views(words@);
    assert(all.len() == words@.len());
    if words.len() == 0 {
        return None;
    }
    assert(all[0] == words@[0]@);
    let class = phpdoc_class(words[0])?;
    let mut k: usize = 1;
    while k < words.len() && !scan::is_at(words[k], 0, CharSet::One('$'))
        invariant
            1 <= k <= words@.len(),
            all == seqs::views(words@),
            seqs::first_from(all, 1, variable_word()) == seqs::first_from(
                all,
                k as int,
                variable_word(),
            ),
        decreases words@.len() - k,
    {
        assert(all[k as int] == words@[k as int]@);
        k += 1;
    }
    if k >= words.len() {
        return None;
    }
    assert(all[k as int] == words@[k as int]@);
    let var = words[k];
    let n = text::skip(var, 0, CharSet::Variable);
    if n <= 1 {
        return None;
    }
    let name = slice_subrange(var, 0, n);
    assert(name@ =~= var@.take(n as int));
    Some((string_of(name), class))
}

/// Parse a phpdoc block for `@param <Class> $x` / `@var <Class> $x` lines and
/// return each `($x, Class)` pair (variable keyed with its leading `$`, matching
/// the walker's binding map). Lines whose type is not a class are skipped.
pub fn phpdoc_bindings(doc: &str) -> (r: Vec<(String, String)>)
    ensures
        seqs::views(r@) == documented(doc@),
{
    let chars = chars_of(doc);
    let lines = text::split_lines(&chars);
    let ghost all = seqs::views(lines@);
    let mut out: Vec<(String, String)> = Vec::new();
    let mut k: usize = 0;
    while k < lines.len()
        invariant
            k <= lines@.len(),
            all == seqs::views(lines@),
            seqs::views(out@) + seqs::each_from(all, k as int, doc_binding()) == seqs::each(
                all,
                doc_binding(),
            ),
        decreases lines@.len() - k,
    {
        assert(all[k as int] == lines@[k as int]@);
        if let Some(binding) = line_binding(lines[k]) {
            out.push(binding);
        }
        k += 1;
    }
    out
}

// ---------------------------------------------------------------------------
// Includes

/// The relative specifier that the path expression of a `require`/`include` points
/// at; none for a dynamic (`$var`) or absolute-filesystem path, or for what is no
/// PHP file.
pub open spec fn required(stmt: Seq<char>) -> Option<Seq<char>> {
    if text::some_in(stmt, CharSet::One('$')) {
        None
    } else {
        match scan::literal(stmt, CharSet::Quote) {
            Some(s) => {
                let anchored = text::includes(stmt, "__DIR__"@) || text::includes(stmt, "__FILE__"@)
                    || text::includes(stmt, "dirname"@);
                let rooted = scan::at(s, 0, CharSet::One('/'));
                let spec = if rooted {
                    "./"@ + s.skip(1)
                } else if scan::at(s, 0, CharSet::One('.')) {
                    s
                } else {
                    "./"@ + s
                };
                if (rooted && !anchored) || !paths::has_extension(spec, "php"@) {
                    None
                } else {
                    Some(spec)
                }
            },
            None => None,
        }
    }
}

/// The relative specifier a `require`/`include` statement points at, or `None`
/// for a dynamic (`$var`) or absolute-filesystem path.
pub fn require_spec(stmt: &str) -> (r: Option<String>)
    ensures
        seqs::opt_view(r) == required(stmt@),
{
    let chars = chars_of(stmt);
    if text::has_any(&chars, CharSet::One('$')) {
        return None;
    }
    let s = scan::first_literal(&chars, CharSet::Quote)?;
    let anchored = text::has_text(&chars, "__DIR__") || text::has_text(&chars, "__FILE__")
        || text::has_text(&chars, "dirname");
    let spec = if scan::is_at(s, 0, CharSet::One('/')) {
        if !anchored {
            return None;
        }
        let rest = slice_subrange(s, 1, s.len());
        assert(rest@ =~= s@.skip(1));
        join2("./", &string_of(rest))
    } else if scan::is_at(s, 0, CharSet::One('.')) {
        string_of(s)
    } else {
        join2("./", &string_of(s))
    };
    if paths::is_extension(&spec, "php") {
        Some(spec)
    } else {
        None
    }
}

// ---------------------------------------------------------------------------
// Coverage

/// A syntactically valid, possibly namespaced class name.
pub open spec fn is_name(s: Seq<char>) -> bool {
    s.len() > 0 && text::all_in(s, CharSet::Qualified)
}

/// A syntactically valid (possibly namespaced) PHP class name -- no code
/// punctuation. Used to reject fragments a loose attribute scan can pick up.
pub fn is_class_name(s: &str) -> (r: bool)
    ensures
        r == is_name(s@),
{
    let chars = chars_of(s);
    chars.len() > 0 && text::is_all(&chars, CharSet::Qualified)
}

/// How many bytes of an attribute are read.
pub const ATTRIBUTE: usize = 256;

/// The class or function that the coverage attribute at an index names.
pub open spec fn attribute_target(s: Seq<char>, at: int) -> Option<Seq<char>> {
    let window = s.subrange(at, text::fit(s, at, ATTRIBUTE as int));
    let end = text::seek(window, 0, CharSet::One(')'));
    if end < window.len() {
        match laravel::related(window.take(end)) {
            Some(t) => if is_name(t) {
                Some(t)
            } else {
                None
            },
            None => None,
        }
    } else {
        None
    }
}

pub open spec fn attribute_edge(rel: Seq<char>, s: Seq<char>) -> spec_fn(int) -> Seq<EdgeView> {
    |at: int|
        match attribute_target(s, at) {
            Some(t) => seq![model::named_edge(rel, "covers"@, t)],
            None => Seq::empty(),
        }
}

/// A `covers` edge for each of the coverage attributes of one kind.
pub open spec fn attribute_edges(rel: Seq<char>, s: Seq<char>, tag: Seq<char>) -> Seq<EdgeView> {
    seqs::each(text::hits(s, tag, 0), attribute_edge(rel, s))
}

/// The class that a docblock tag, whose text begins at an index, names.
pub open spec fn docblock_target(s: Seq<char>, at: int) -> Seq<char> {
    let token = s.subrange(at, text::run(s, at, CharSet::Coverage));
    let class = token.take(text::find(token, "::"@, 0));
    scan::last_part(text::trimmed_start(class, CharSet::One('\\')), '\\')
}

pub open spec fn docblock_edge(rel: Seq<char>, s: Seq<char>, n: int) -> spec_fn(int) -> Seq<EdgeView> {
    |at: int|
        if docblock_target(s, at + n).len() > 0 {
            seq![model::named_edge(rel, "covers"@, docblock_target(s, at + n))]
        } else {
            Seq::empty()
        }
}

/// A `covers` edge for each of the docblock tags of one kind.
pub open spec fn docblock_edges(rel: Seq<char>, s: Seq<char>, tag: Seq<char>) -> Seq<EdgeView> {
    seqs::each(text::hits(s, tag, 0), docblock_edge(rel, s, tag.len() as int))
}

/// The `covers` edges of a test file.
pub open spec fn coverage(rel: Seq<char>, s: Seq<char>) -> Seq<EdgeView> {
    attribute_edges(rel, s, "#[CoversClass"@) + (attribute_edges(rel, s, "#[CoversFunction"@) + (
    attribute_edges(rel, s, "#[CoversMethod"@) + (docblock_edges(rel, s, "@covers "@)
        + docblock_edges(rel, s, "@coversDefaultClass "@))))
}

fn covered_by_attribute(s: &[char], at: usize) -> (r: Option<String>)
    requires
        at <= s@.len(),
    ensures
        seqs::opt_view(r) == attribute_target(s@, at as int),
{
    let window = slice_subrange(s, at, text::fit_bytes(s, at, ATTRIBUTE));
    let end = text::look(window, 0, CharSet::One(')'));
    if end >= window.len() {
        return None;
    }
    let head = slice_subrange(window, 0, end);
    assert(head@ =~= window@.take(end as int));
    let target = laravel::related_model(&string_of(head))?;
    if is_class_name(&target) {
        Some(target)
    } else {
        None
    }
}

fn covers_by_attribute(rel: &str, s: &[char], tag: &str) -> (r: Vec<RawEdge>)
    requires
        tag@.len() > 0,
    ensures
        seqs::views(r@) == attribute_edges(rel@, s@, tag@),
{
    let places = text::occurrences(s, tag);
    let ghost ks = text::hits(s@, tag@, 0);
    let mut out: Vec<RawEdge> = Vec::new();
    let mut k: usize = 0;
    while k < places.len()
        invariant
            k <= places@.len(),
            ks == text::hits(s@, tag@, 0),
            text::are_hits(s@, tag@, places@),
            seqs::views(out@) + seqs::each_from(ks, k as int, attribute_edge(rel@, s@)) == seqs::each(
                ks,
                attribute_edge(rel@, s@),
            ),
        decreases places@.len() - k,
    {
        assert(ks[k as int] == places@[k as int]);
        if let Some(target) = covered_by_attribute(s, places[k]) {
            out.push(RawEdge::named(rel.to_string(), "covers", target));
        }
        k += 1;
    }
    out
}

fn covered_by_docblock(s: &[char], at: usize) -> (r: String)
    requires
        at <= s@.len(),
    ensures
        r@ == docblock_target(s@, at as int),
{
    let token = slice_subrange(s, at, text::skip(s, at, CharSet::Coverage));
    let cut = text::search(token, "::", 0);
    let class = slice_subrange(token, 0, cut);
    assert(class@ =~= token@.take(cut as int));
    string_of(scan::behind_last(text::trim_start(class, CharSet::One('\\')), '\\'))
}

fn covers_by_docblock(rel: &str, s: &[char], tag: &str) -> (r: Vec<RawEdge>)
    requires
        tag@.len() > 0,
    ensures
        seqs::views(r@) == docblock_edges(rel@, s@, tag@),
{
    let places = text::occurrences(s, tag);
    let n = text::length_of(tag);
    let ghost ks = text::hits(s@, tag@, 0);
    let ghost f = docblock_edge(rel@, s@, tag@.len() as int);
    let mut out: Vec<RawEdge> = Vec::new();
    let mut k: usize = 0;
    while k < places.len()
        invariant
            k <= places@.len(),
            n == tag@.len(),
            ks == text::hits(s@, tag@, 0),
            f == docblock_edge(rel@, s@, tag@.len() as int),
            text::are_hits(s@, tag@, places@),
            seqs::views(out@) + seqs::each_from(ks, k as int, f) == seqs::each(ks, f),
        decreases places@.len() - k,
    {
        assert(ks[k as int] == places@[k as int]);
        let name = covered_by_docblock(s, places[k] + n);
        if text::length_of(&name) > 0 {
            out.push(RawEdge::named(rel.to_string(), "covers", name));
        }
        k += 1;
    }
    out
}

/// Scan `PHPUnit` coverage declarations and emit a `covers` edge from the test
/// file to each covered class/function (resolved by unique name). Both the
/// modern attributes (`#[CoversClass(X::class)]`, `#[CoversFunction('fn')]`,
/// `#[CoversMethod(X::class, 'm')]`) and legacy docblocks (`@covers X`,
/// `@coversDefaultClass X`) are recognised -- so `callers X` lists its tests.
pub fn scan_covers(rel: &str, code: &str, edges: &mut Vec<RawEdge>)
    ensures
        seqs::views(final(edges)@) == seqs::views(old(edges)@) + coverage(rel@, code@),
{
    let s = chars_of(code);
    proof {
        reveal_strlit("#[CoversClass");
        reveal_strlit("#[CoversFunction");
        reveal_strlit("#[CoversMethod");
        reveal_strlit("@covers ");
        reveal_strlit("@coversDefaultClass ");
    }
    let mut classes = covers_by_attribute(rel, &s, "#[CoversClass");
    let mut functions = covers_by_attribute(rel, &s, "#[CoversFunction");
    let mut methods = covers_by_attribute(rel, &s, "#[CoversMethod");
    let mut tags = covers_by_docblock(rel, &s, "@covers ");
    let mut defaults = covers_by_docblock(rel, &s, "@coversDefaultClass ");
    edges.append(&mut classes);
    edges.append(&mut functions);
    edges.append(&mut methods);
    edges.append(&mut tags);
    edges.append(&mut defaults);
}

// ---------------------------------------------------------------------------
// Twig functions

/// How many bytes of a registration are read.
pub const REGISTRATION: usize = 120;

/// The first string literal near the start of the arguments of a registration.
pub open spec fn registered(s: Seq<char>, n: int) -> spec_fn(int) -> Seq<Seq<char>> {
    |at: int|
        seqs::opt_seq(
            scan::literal(
                s.subrange(at + n, text::fit(s, at + n, REGISTRATION as int)),
                CharSet::Quote,
            ),
        )
}

/// The names that the registrations of one form give.
pub open spec fn registrations(s: Seq<char>, needle: Seq<char>) -> Seq<Seq<char>> {
    seqs::each(text::hits(s, needle, 0), registered(s, needle.len() as int))
}

/// The names of the custom Twig functions and filters that code registers.
pub open spec fn twig_names(s: Seq<char>) -> Seq<Seq<char>> {
    registrations(s, "TwigFunction("@) + (registrations(s, "TwigFilter("@) + (registrations(
        s,
        "addFunction("@,
    ) + registrations(s, "addFilter("@)))
}

fn registered_names(s: &[char], needle: &str) -> (r: Vec<String>)
    requires
        needle@.len() > 0,
    ensures
        seqs::views(r@) == registrations(s@, needle@),
{
    let places = text::occurrences(s, needle);
    let n = text::length_of(needle);
    let ghost ks = text::hits(s@, needle@, 0);
    let ghost f = registered(s@, needle@.len() as int);
    let mut out: Vec<String> = Vec::new();
    let mut k: usize = 0;
    while k < places.len()
        invariant
            k <= places@.len(),
            n == needle@.len(),
            ks == text::hits(s@, needle@, 0),
            f == registered(s@, needle@.len() as int),
            text::are_hits(s@, needle@, places@),
            seqs::views(out@) + seqs::each_from(ks, k as int, f) == seqs::each(ks, f),
        decreases places@.len() - k,
    {
        assert(ks[k as int] == places@[k as int]);
        let at = places[k] + n;
        let window = slice_subrange(s, at, text::fit_bytes(s, at, REGISTRATION));
        if let Some(name) = scan::first_literal(window, CharSet::Quote) {
            out.push(string_of(name));
        }
        k += 1;
    }
    out
}

/// Scan custom Twig function/filter registrations (`new TwigFunction('name',
/// ...)`, `new TwigFilter('name', ...)`, `->addFunction('name', ...)`,
/// `->addFilter('name', ...)`) and emit a `twigfn:<name>` node + a `defines-fn`
/// edge from the file. A `.twig` template's `{{ name(...) }}` call resolves to
/// this node, so `callers twigfn:foo` lists the templates that use it and the
/// file that registers it.
pub fn scan_twig_functions(rel: &str, code: &str, nodes: &mut Vec<Node>, edges: &mut Vec<RawEdge>)
    ensures
        model::appended(
            old(nodes)@,
            old(edges)@,
            final(nodes)@,
            final(edges)@,
            model::linked(
                "twigfn:"@,
                "twig-function"@,
                rel@,
                "defines-fn"@,
                twig_names(code@),
            ).deduped(),
        ),
{
    let s = chars_of(code);
    proof {
        reveal_strlit("TwigFunction(");
        reveal_strlit("TwigFilter(");
        reveal_strlit("addFunction(");
        reveal_strlit("addFilter(");
    }
    let mut names = registered_names(&s, "TwigFunction(");
    let mut filters = registered_names(&s, "TwigFilter(");
    let mut added = registered_names(&s, "addFunction(");
    let mut added_filters = registered_names(&s, "addFilter(");
    names.append(&mut filters);
    names.append(&mut added);
    names.append(&mut added_filters);
    link_all("twigfn:", "twig-function", rel, "defines-fn", &names).emit(nodes, edges);
}

// ---------------------------------------------------------------------------
// The file

/// What the syntax tree of a file shows.
pub open spec fn tree_found(rel: Seq<char>, base: Seq<char>, code: Seq<char>, tree: TreeView) -> FoundView {
    let start = extract::started(rel, code, true);
    let end = extract::walked(
        tree,
        CtxView { nodes: start.nodes.push(model::file_node(rel, base)), ..start },
    );
    FoundView { nodes: end.nodes, edges: end.edges }
}

/// What the text of a file shows: table references, queries, data migrations, routes, coverage declarations,
/// Twig functions, the extension points of Dolibarr, and translation keys.
#[verifier::opaque]
pub open spec fn text_found(rel: Seq<char>, base: Seq<char>, code: Seq<char>) -> FoundView {
    laravel::tables(rel, code).deduped().plus(laravel::sql_tables(rel, code).deduped()).plus(
        FoundView { nodes: Seq::empty(), edges: laravel::filled_tables(rel, code) },
    ).plus(laravel::routes(rel, code).deduped()).plus(
        laravel::attribute_routes(rel, code).deduped(),
    ).plus(FoundView { nodes: Seq::empty(), edges: coverage(rel, code) }).plus(
        model::linked(
            "twigfn:"@,
            "twig-function"@,
            rel,
            "defines-fn"@,
            twig_names(code),
        ).deduped(),
    ).plus(dolibarr::links(rel, base, code)).plus(
        FoundView { nodes: Seq::empty(), edges: lang::lang_edges(rel, code) },
    )
}

/// Everything that a PHP file with the given syntax tree holds.
pub open spec fn extracted_from(rel: Seq<char>, base: Seq<char>, code: Seq<char>, tree: TreeView) -> FoundView {
    tree_found(rel, base, code, tree).plus(text_found(rel, base, code))
}

/// Everything that a PHP file holds.
pub open spec fn extracted(rel: Seq<char>, base: Seq<char>, code: Seq<char>) -> FoundView {
    extracted_from(rel, base, code, syntax::php_tree(code))
}

/// The nodes + raw edges of one PHP file, given its syntax tree.
pub fn extract_tree(rel: &str, base: &str, code: &str, tree: &Tree) -> (r: (Vec<Node>, Vec<RawEdge>))
    ensures
        seqs::views(r.0@) == extracted_from(rel@, base@, code@, tree@).nodes,
        seqs::views(r.1@) == extracted_from(rel@, base@, code@, tree@).edges,
{
    reveal(text_found);
    let mut ctx = Ctx::start(rel.to_string(), code.to_string(), true);
    ctx.push_file(base.to_string());
    Ext::run(tree, &mut ctx);
    let mut nodes = ctx.nodes;
    let mut edges = ctx.edges;
    // Laravel table references (`Schema::create('x')`, `DB::table('x')`), scanned
    // from the raw source; join to model `table` edges via the shared `table:` node.
    laravel::scan_tables(rel, code, &mut nodes, &mut edges);
    // Raw-SQL table usages (`FROM`/`JOIN`/`INTO`/`UPDATE <table>`) -> `uses-table`
    // edges, so a hand-written query joins the model/migration at `table:<name>`.
    laravel::scan_raw_sql_tables(rel, code, &mut nodes, &mut edges);
    // Data migrations write rows via an Eloquent model (not Schema/DB::table);
    // link them to the model's table so `callers table:x` sees the seeders.
    laravel::scan_data_migrations(rel, code, &mut edges);
    // Laravel route files (`routes/web.php`, ...) wire controllers via `Route::`
    // calls; link the file to each controller and mint a `route:<path>` node.
    laravel::scan_routes(rel, code, &mut nodes, &mut edges);
    // Attribute routing (`#[Route('/x', ...)]`, `#[Get('/x')]`, ... on a
    // controller): emit a `route:<path>` node + a `serves` edge to the class.
    laravel::scan_route_attributes(rel, code, &mut nodes, &mut edges);
    scan_covers(rel, code, &mut edges);
    // `require`/`include` edges are emitted from the tree during the walk above --
    // a keyword in a comment or string is not a construct, so it can never
    // masquerade as a real include.
    scan_twig_functions(rel, code, &mut nodes, &mut edges);
    // Dolibarr extension points: module descriptors, permissions, triggers,
    // hooks, and CommonObject -> table links.
    dolibarr::scan(rel, base, code, &mut nodes, &mut edges);
    let mut keys = lang::scan(rel, code);
    edges.append(&mut keys);
    (nodes, edges)
}

/// Parse one PHP file with Mago and return its nodes + raw edges (plus
/// translation-key usages from the shared scanner).
pub fn extract(rel: &str, base: &str, code: &str) -> (r: (Vec<Node>, Vec<RawEdge>))
    ensures
        seqs::views(r.0@) == extracted(rel@, base@, code@).nodes,
        seqs::views(r.1@) == extracted(rel@, base@, code@).edges,
{
    extract_tree(rel, base, code, &syntax::parse(code))
}

/// Whatever the syntax tree of a file, the nodes that it shows have distinct ids,
/// every edge starts at one of them, and each is the file, a table, or a symbol that
/// a scope of the file contains.
pub proof fn the_symbols_of_a_file_are_sound(rel: Seq<char>, base: Seq<char>, code: Seq<char>, tree: TreeView)
    ensures
        ({
            let found = tree_found(rel, base, code, tree);
            &&& model::ids_are_distinct(found.nodes)
            &&& forall|k: int|
                0 <= k < found.edges.len() ==> model::is_id(found.nodes, (#[trigger] found.edges[k]).source)
            &&& forall|i: int|
                0 <= i < found.nodes.len() && (#[trigger] found.nodes[i]).kind != "file"@ && found.nodes[i].kind
                    != "table"@ ==> extract::is_contained(found.edges, found.nodes[i].id)
        }),
{
    let start = extract::started(rel, code, true);
    let c = CtxView { nodes: start.nodes.push(model::file_node(rel, base)), ..start };
    assert(c.nodes[0].id == rel);
    extract::walks_are_sound(tree, c);
}

} // verus!
