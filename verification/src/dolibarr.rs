//! Dolibarr ERP integration -- recognise the framework's extension points so the
//! graph reasons about a Dolibarr module the way `laravel` does a Laravel app.
//!
//! All of it reads PHP source as text:
//! - **module descriptors** (`mod<Name> extends DolibarrModules`) -> a
//!   `module:<rights_class>` node the rest of the graph keys to;
//! - **permissions** (`$user->hasRight('module','l1'[,'l2'])`) -> `right:` nodes
//!   and `checks-permission` edges;
//! - **triggers** (`call_trigger('X')` raise, `DolibarrTriggers::runTrigger`
//!   `switch ($action)` handle) -> `trigger:` nodes and `raises`/`handles` edges
//!   (Dolibarr's model events);
//! - **hooks** (`$hookmanager->executeHooks('X')` fire, an `actions_<module>`
//!   class method handle) -> `hook:` nodes and `fires`/`handles` edges;
//! - **objects** (`extends CommonObject` with `$table_element`) -> a `table:`
//!   link, joining the object to its migration/SQL and to raw-SQL usages.

use vstd::prelude::*;
use vstd::slice::slice_subrange;

use crate::model;
use crate::model::{link_all, make_join, Found, FoundView, EdgeView, Node, NodeView, RawEdge};
use crate::scan;
use crate::scan::Nesting;
use crate::seqs;
use crate::text;
use crate::text::{chars_of, is_text, join2, string_of, CharSet};

verus! {

broadcast use {
    crate::seqs::group_text,
    text::lemma_run,
    text::lemma_seek,
    text::lemma_run_back,
    text::lemma_seek_back,
    scan::lemma_closing,
    scan::lemma_matching,
};

// ---------------------------------------------------------------------------
// Calls and their arguments

/// Parentheses and square brackets nest; single and double quotes delimit.
pub open spec fn nesting() -> Nesting {
    Nesting { braces: false, quotes: CharSet::Quote }
}

/// The argument list of the call of a `needle` that ends at index `i`: the
/// index of its opening and of its closing parenthesis.
pub open spec fn call_span(s: Seq<char>, i: int) -> Option<(int, int)> {
    let o = text::run(s, i, CharSet::AsciiSpace);
    if scan::at(s, o, CharSet::One('(')) && scan::partner(s, o, '(', ')', CharSet::Quote) < s.len() {
        Some((o, scan::partner(s, o, '(', ')', CharSet::Quote)))
    } else {
        None
    }
}

/// The argument lists of the `needle(...)` calls from index `i` on. The search
/// goes on behind each list.
pub open spec fn calls_from(s: Seq<char>, needle: Seq<char>, i: int) -> Seq<Seq<char>>
    decreases s.len() - i,
{
    if i < 0 || i >= s.len() {
        Seq::empty()
    } else if needle.len() == 0 || !text::occurs(s, i, needle) {
        calls_from(s, needle, i + 1)
    } else if scan::preceded(s, i, CharSet::Word) {
        calls_from(s, needle, i + needle.len())
    } else {
        match call_span(s, i + needle.len()) {
            Some((o, c)) => {
                proof {
                    text::lemma_run(s, i + needle.len(), CharSet::AsciiSpace);
                    scan::lemma_matching(s, o + 1, 1, '(', ')', CharSet::Quote);
                }
                seq![s.subrange(o + 1, c)] + calls_from(s, needle, c)
            },
            None => calls_from(s, needle, i + needle.len()),
        }
    }
}

/// The argument list of every `needle(...)` call whose name is not the tail of
/// a longer one.
pub open spec fn calls(s: Seq<char>, needle: Seq<char>) -> Seq<Seq<char>> {
    calls_from(s, needle, 0)
}

/// The argument lists of the `needle(...)` calls.
fn call_arguments<'a>(s: &'a [char], needle: &str) -> (r: Vec<&'a [char]>)
    ensures
        seqs::views(r@) == calls(s@, needle@),
{
    let n = text::length_of(needle);
    let mut out: Vec<&'a [char]> = Vec::new();
    let mut i: usize = 0;
    while i < s.len()
        invariant
            n == needle@.len(),
            i <= s@.len(),
            seqs::views(out@) + calls_from(s@, needle@, i as int) == calls(s@, needle@),
        decreases s@.len() - i,
    {
        if n == 0 || !text::stands(s, i, needle) {
            i += 1;
        } else if scan::is_preceded(s, i, CharSet::Word) {
            i += n;
        } else {
            let o = text::skip(s, i + n, CharSet::AsciiSpace);
            if !scan::is_at(s, o, CharSet::One('(')) {
                i += n;
            } else {
                let c = scan::close_bracket(s, o, '(', ')', CharSet::Quote);
                if c >= s.len() {
                    i += n;
                } else {
                    out.push(slice_subrange(s, o + 1, c));
                    i = c;
                }
            }
        }
    }
    out
}

/// The arguments of a call, each without the white space around it.
pub open spec fn args_of(args: Seq<char>) -> Seq<Seq<char>> {
    scan::arguments(args, nesting()).map_values(|a: Seq<char>| text::trimmed(a, CharSet::Space))
}

/// The arguments of a call.
fn split_args<'a>(args: &'a [char]) -> (r: Vec<&'a [char]>)
    ensures
        seqs::views(r@) == args_of(args@),
        r@.len() > 0,
{
    let parts = scan::split_arguments(args, Nesting { braces: false, quotes: CharSet::Quote });
    let ghost all = seqs::views(parts@);
    let mut out: Vec<&'a [char]> = Vec::new();
    let mut k: usize = 0;
    while k < parts.len()
        invariant
            k <= parts@.len(),
            all == seqs::views(parts@),
            out@.len() == k,
            all == scan::arguments(args@, nesting()),
            seqs::views(out@) == args_of(args@).take(k as int),
        decreases parts@.len() - k,
    {
        out.push(text::trim(parts[k], CharSet::Space));
        k += 1;
        assert(args_of(args@).take(k as int) =~= args_of(args@).take(k - 1).push(args_of(args@)[k - 1]));
    }
    assert(args_of(args@).take(k as int) =~= args_of(args@));
    out
}

/// The first argument of a call, where it is one literal.
pub open spec fn first_arg(args: Seq<char>) -> Option<Seq<char>> {
    scan::lone_literal(args_of(args)[0])
}

/// The first argument of a call, where it is one literal.
fn first_argument(args: &[char]) -> (r: Option<String>)
    ensures
        seqs::opt_view(r) == first_arg(args@),
{
    let parts = split_args(args);
    assert(seqs::views(parts@)[0] == parts@[0]@);
    scan::string_literal(parts[0])
}

// ---------------------------------------------------------------------------
// REST API routes

/// A routed method: its name, its parameter list, and where that list ends.
pub struct MethodView {
    pub name: Seq<char>,
    pub params: Seq<char>,
    pub end: int,
}

/// A routed method.
struct Method<'a> {
    name: &'a [char],
    params: &'a [char],
    end: usize,
}

/// One of the modifiers right before index `i` is `private` or `protected`.
pub open spec fn is_hidden(s: Seq<char>, i: int) -> bool
    decreases i,
{
    let h = text::run_back(s, i, CharSet::Space);
    let a = text::run_back(s, h, CharSet::Word);
    let w = s.subrange(a, h);
    if 0 <= a < h <= i && is_modifier(w) {
        w == "private"@ || w == "protected"@ || is_hidden(s, a)
    } else {
        false
    }
}

/// Tests the modifiers right before index `i`.
fn has_hidden_modifier(s: &[char], i: usize) -> (r: bool)
    requires
        i <= s@.len(),
    ensures
        r == is_hidden(s@, i as int),
    decreases i,
{
    let h = text::skip_back(s, i, CharSet::Space);
    let a = text::skip_back(s, h, CharSet::Word);
    let w = slice_subrange(s, a, h);
    if a == h {
        false
    } else if is_text(w, "private") || is_text(w, "protected") {
        true
    } else if is_text(w, "public") || is_text(w, "static") || is_text(w, "final") || is_text(w, "abstract") {
        has_hidden_modifier(s, a)
    } else {
        false
    }
}

/// The method that the `function` keyword at index `i` declares, where it can
/// be a route: it is public (none of its modifiers says otherwise), and its name
/// does not start with `_`.
pub open spec fn method_at(s: Seq<char>, i: int) -> Option<MethodView> {
    let a = text::run(s, i + "function"@.len(), CharSet::AsciiSpace);
    let b = text::run(s, a, CharSet::Word);
    if scan::preceded(s, i, CharSet::Word) || is_hidden(s, i) || a == b || s[a] == '_' {
        None
    } else {
        match call_span(s, b) {
            Some((o, c)) => Some(
                MethodView { name: s.subrange(a, b), params: s.subrange(o + 1, c), end: c },
            ),
            None => None,
        }
    }
}

/// Reads the method that the `function` keyword at index `i` declares.
fn read_method<'a>(s: &'a [char], i: usize) -> (r: Option<Method<'a>>)
    requires
        text::occurs(s@, i as int, "function"@),
    ensures
        r is Some <==> method_at(s@, i as int) is Some,
        r matches Some(m) ==> {
            let v = method_at(s@, i as int)->0;
            m.name@ == v.name && m.params@ == v.params && m.end == v.end && i + "function"@.len() <= m.end
                < s@.len()
        },
{
    if scan::is_preceded(s, i, CharSet::Word) {
        return None;
    }
    if has_hidden_modifier(s, i) {
        return None;
    }
    let size = s.len();
    let a = text::skip(s, i + text::length_of("function"), CharSet::AsciiSpace);
    let b = text::skip(s, a, CharSet::Word);
    if a == b || s[a] == '_' {
        return None;
    }
    let o = text::skip(s, b, CharSet::AsciiSpace);
    if !scan::is_at(s, o, CharSet::One('(')) {
        return None;
    }
    let c = scan::close_bracket(s, o, '(', ')', CharSet::Quote);
    if c >= size {
        return None;
    }
    Some(Method { name: slice_subrange(s, a, b), params: slice_subrange(s, o + 1, c), end: c })
}

/// A word that may stand between a documentation block and its function.
pub open spec fn is_modifier(w: Seq<char>) -> bool {
    ||| w == "public"@
    ||| w == "protected"@
    ||| w == "private"@
    ||| w == "static"@
    ||| w == "final"@
    ||| w == "abstract"@
}

/// The `/** ... */` block right before the `function` at index `i` (only white
/// space and modifiers between), or nothing.
pub open spec fn docblock(s: Seq<char>, i: int) -> Seq<char> {
    let head = text::trimmed_end(s.subrange(0, i), CharSet::Space);
    let end = text::find_back(head, "*/"@, head.len() - 1);
    if end >= head.len() {
        Seq::empty()
    } else {
        let gap = text::words(s.subrange(end + 2, i));
        let start = text::find_back(head.subrange(0, end), "/**"@, end - 1);
        if start < end && (forall|k: int| 0 <= k < gap.len() ==> is_modifier(#[trigger] gap[k])) {
            s.subrange(start, end + 2)
        } else {
            Seq::empty()
        }
    }
}

/// Reads the documentation block of the `function` at index `i`.
fn preceding_docblock<'a>(s: &'a [char], i: usize) -> (r: &'a [char])
    requires
        i <= s@.len(),
    ensures
        r@ == docblock(s@, i as int),
{
    proof {
        reveal_strlit("*/");
        reveal_strlit("/**");
    }
    let none = slice_subrange(s, 0, 0);
    assert(none@ =~= Seq::<char>::empty());
    let head = text::trim_end(slice_subrange(s, 0, i), CharSet::Space);
    let end = text::search_last(head, "*/");
    if end >= head.len() {
        return none;
    }
    let gap = text::split_words(slice_subrange(s, end + 2, i));
    let ghost words = seqs::views(gap@);
    let mut k: usize = 0;
    while k < gap.len()
        invariant
            k <= gap@.len(),
            words == seqs::views(gap@),
            words == text::words(s@.subrange(end + 2, i as int)),
            forall|j: int| 0 <= j < k ==> is_modifier(#[trigger] words[j]),
            end < head@.len(),
            head@ == text::trimmed_end(s@.subrange(0, i as int), CharSet::Space),
            end == text::find_back(head@, "*/"@, head@.len() - 1),
            none@ == Seq::<char>::empty(),
        decreases gap@.len() - k,
    {
        let w = gap[k];
        let ok = is_text(w, "public") || is_text(w, "protected") || is_text(w, "private") || is_text(
            w,
            "static",
        ) || is_text(w, "final") || is_text(w, "abstract");
        assert(words[k as int] == w@);
        if !ok {
            return none;
        }
        k += 1;
    }
    let before = slice_subrange(head, 0, end);
    let start = text::search_last(before, "/**");
    if start < end {
        slice_subrange(s, start, end + 2)
    } else {
        none
    }
}

/// An HTTP verb as a documentation tag spells it.
pub open spec fn is_verb(v: Seq<char>) -> bool {
    ||| v == "GET"@
    ||| v == "POST"@
    ||| v == "PUT"@
    ||| v == "PATCH"@
    ||| v == "DELETE"@
    ||| v == "HEAD"@
    ||| v == "OPTIONS"@
}

/// Whether `v` is an HTTP verb.
fn is_http_verb(v: &[char]) -> (r: bool)
    ensures
        r == is_verb(v@),
{
    is_text(v, "GET") || is_text(v, "POST") || is_text(v, "PUT") || is_text(v, "PATCH") || is_text(
        v,
        "DELETE",
    ) || is_text(v, "HEAD") || is_text(v, "OPTIONS")
}

/// The path of the `@url <VERB> <path>` tag at index `i`, leading `/` dropped.
pub open spec fn url_tag(doc: Seq<char>, i: int) -> Option<Seq<char>> {
    let a = text::run(doc, i + "@url"@.len(), CharSet::Space);
    let b = text::seek(doc, a, CharSet::Space);
    let c = text::run(doc, b, CharSet::Space);
    let d = text::seek(doc, c, CharSet::Space);
    if is_verb(doc.subrange(a, b)) {
        Some(text::trimmed_start(doc.subrange(c, d), CharSet::One('/')))
    } else {
        None
    }
}

pub open spec fn url_tag_of(doc: Seq<char>) -> spec_fn(int) -> Seq<Seq<char>> {
    |i: int| seqs::opt_seq(url_tag(doc, i))
}

/// The paths of the `@url <VERB> <path>` tags of a documentation block.
pub open spec fn url_paths(doc: Seq<char>) -> Seq<Seq<char>> {
    seqs::each(text::hits(doc, "@url"@, 0), url_tag_of(doc))
}

/// The paths of the `@url <VERB> <path>` tags of a documentation block.
fn url_tags(doc: &[char]) -> (r: Vec<String>)
    ensures
        seqs::views(r@) == url_paths(doc@),
{
    let places = text::occurrences(doc, "@url");
    let n = text::length_of("@url");
    let ghost ks = text::hits(doc@, "@url"@, 0);
    let mut out: Vec<String> = Vec::new();
    let mut k: usize = 0;
    while k < places.len()
        invariant
            n == "@url"@.len(),
            k <= places@.len(),
            ks == text::hits(doc@, "@url"@, 0),
            text::are_hits(doc@, "@url"@, places@),
            seqs::views(out@) + seqs::each_from(ks, k as int, url_tag_of(doc@)) == url_paths(doc@),
        decreases places@.len() - k,
    {
        let i = places[k];
        assert(ks[k as int] == i);
        let a = text::skip(doc, i + n, CharSet::Space);
        let b = text::look(doc, a, CharSet::Space);
        if is_http_verb(slice_subrange(doc, a, b)) {
            let c = text::skip(doc, b, CharSet::Space);
            let d = text::look(doc, c, CharSet::Space);
            out.push(string_of(text::trim_start(slice_subrange(doc, c, d), CharSet::One('/'))));
        }
        k += 1;
    }
    out
}

/// A method name that is routed without a tag: an HTTP verb, or `index`.
pub open spec fn is_auto_routed(name: Seq<char>) -> bool {
    ||| name == "get"@
    ||| name == "index"@
    ||| name == "post"@
    ||| name == "put"@
    ||| name == "patch"@
    ||| name == "delete"@
    ||| name == "head"@
    ||| name == "options"@
}

/// Whether a method of this name is routed without a tag.
fn auto_routes(name: &[char]) -> (r: bool)
    ensures
        r == is_auto_routed(name@),
{
    is_text(name, "get") || is_text(name, "index") || is_text(name, "post") || is_text(name, "put")
        || is_text(name, "patch") || is_text(name, "delete") || is_text(name, "head") || is_text(
        name,
        "options",
    )
}

/// The name of a parameter that has no default value.
pub open spec fn required_name(p: Seq<char>) -> Option<Seq<char>> {
    let d = text::seek(p, 0, CharSet::One('$'));
    let e = text::run(p, d + 1, CharSet::Word);
    if text::some_in(p, CharSet::One('=')) || d >= p.len() || e == d + 1 {
        None
    } else {
        Some(p.subrange(d + 1, e))
    }
}

pub open spec fn segment_of() -> spec_fn(Seq<char>) -> Seq<char> {
    |p: Seq<char>|
        match required_name(p) {
            Some(n) => "/{"@ + n + "}"@,
            None => Seq::empty(),
        }
}

/// A `/{param}` path segment for each required parameter of a list, in order.
pub open spec fn param_path(params: Seq<char>) -> Seq<char> {
    seqs::each(args_of(params), segment_of())
}

/// The `/{param}` path segments of a parameter list.
fn required_params(params: &[char]) -> (r: String)
    ensures
        r@ == param_path(params@),
{
    let parts = split_args(params);
    let ghost all = seqs::views(parts@);
    let mut out = String::new();
    let mut k: usize = 0;
    while k < parts.len()
        invariant
            k <= parts@.len(),
            all == seqs::views(parts@),
            all == args_of(params@),
            out@ + seqs::each_from(all, k as int, segment_of()) == param_path(params@),
        decreases parts@.len() - k,
    {
        let p = parts[k];
        assert(all[k as int] == p@);
        let d = text::look(p, 0, CharSet::One('$'));
        if !text::has_any(p, CharSet::One('=')) && d < p.len() {
            let e = text::skip(p, d + 1, CharSet::Word);
            if e > d + 1 {
                let name = string_of(slice_subrange(p, d + 1, e));
                let segment = text::join3("/{", &name, "}");
                out.append(&segment);
            }
        }
        k += 1;
    }
    out
}

/// A path with a single leading slash and no trailing slash.
pub open spec fn normal_route(path: Seq<char>) -> Seq<char> {
    "/"@ + text::trimmed(path, CharSet::One('/'))
}

/// A path with a single leading slash and no trailing slash.
fn normalize_route(path: &str) -> (r: String)
    ensures
        r@ == normal_route(path@),
{
    let p = chars_of(path);
    join2("/", &string_of(text::trim(&p, CharSet::One('/'))))
}

/// The route paths of a method declared at index `i`: one for each `@url` tag
/// of its documentation, else the conventional one for its name.
pub open spec fn method_routes(base_path: Seq<char>, s: Seq<char>, i: int, m: MethodView) -> Seq<Seq<char>> {
    let urls = url_paths(docblock(s, i));
    if urls.len() > 0 {
        urls.map_values(|p: Seq<char>| normal_route(base_path + "/"@ + p))
    } else if is_auto_routed(m.name) {
        seq![normal_route(base_path + param_path(m.params))]
    } else {
        Seq::empty()
    }
}

/// A route served by a method: the route's node, and the edge to the method.
pub open spec fn served(rel: Seq<char>, target: Seq<char>, routes: Seq<Seq<char>>) -> FoundView {
    FoundView {
        nodes: routes.map_values(|p: Seq<char>| model::route_node(rel, p)),
        edges: routes.map_values(|p: Seq<char>| model::named_edge("route:"@ + p, "serves"@, target)),
    }
}

/// The routes of the methods declared from index `i` on. The search goes on
/// behind each routed method's parameter list.
pub open spec fn routes_from(rel: Seq<char>, class: Seq<char>, s: Seq<char>, i: int) -> FoundView
    decreases s.len() - i,
{
    if i < 0 || i >= s.len() {
        FoundView::none()
    } else if !text::occurs(s, i, "function"@) {
        routes_from(rel, class, s, i + 1)
    } else {
        proof {
            reveal_strlit("function");
            let a = text::run(s, i + "function"@.len(), CharSet::AsciiSpace);
            text::lemma_run(s, i + "function"@.len(), CharSet::AsciiSpace);
            text::lemma_run(s, a, CharSet::Word);
            let b = text::run(s, a, CharSet::Word);
            text::lemma_run(s, b, CharSet::AsciiSpace);
            let o = text::run(s, b, CharSet::AsciiSpace);
            if o < s.len() {
                scan::lemma_matching(s, o + 1, 1, '(', ')', CharSet::Quote);
            }
        }
        match method_at(s, i) {
            Some(m) => served(
                rel,
                rel + "#"@ + class + "."@ + m.name,
                method_routes(text::lower(class), s, i, m),
            ).plus(routes_from(rel, class, s, m.end)),
            None => routes_from(rel, class, s, i + "function"@.len()),
        }
    }
}

/// A `serves` edge and a route node for each of the routes.
fn serve_all(rel: &str, target: &str, routes: &[String]) -> (r: Found)
    ensures
        r@ == served(rel@, target@, seqs::views(routes@)),
{
    let mut out = Found::none();
    let ghost all = seqs::views(routes@);
    let ghost want = served(rel@, target@, all);
    let mut k: usize = 0;
    while k < routes.len()
        invariant
            k <= routes@.len(),
            all == seqs::views(routes@),
            want == served(rel@, target@, all),
            out@.nodes == want.nodes.take(k as int),
            out@.edges == want.edges.take(k as int),
        decreases routes@.len() - k,
    {
        let route = routes[k].as_str();
        out.nodes.push(make_join("route:", "route", rel, route));
        out.edges.push(RawEdge::named(join2("route:", route), "serves", target.to_string()));
        assert(want.nodes.take(k + 1) =~= want.nodes.take(k as int).push(want.nodes[k as int]));
        assert(want.edges.take(k + 1) =~= want.edges.take(k as int).push(want.edges[k as int]));
        k += 1;
    }
    assert(want.nodes.take(k as int) =~= want.nodes);
    assert(want.edges.take(k as int) =~= want.edges);
    out
}

/// The route paths of the method `m` declared at index `i`.
fn routes_of(base_path: &str, s: &[char], i: usize, m: &Method) -> (r: Vec<String>)
    requires
        i <= s@.len(),
    ensures
        seqs::views(r@) == method_routes(
            base_path@,
            s@,
            i as int,
            (MethodView { name: m.name@, params: m.params@, end: m.end as int }),
        ),
{
    let urls = url_tags(preceding_docblock(s, i));
    let ghost all = seqs::views(urls@);
    let ghost v = MethodView { name: m.name@, params: m.params@, end: m.end as int };
    let mut out: Vec<String> = Vec::new();
    if urls.len() > 0 {
        let ghost want = method_routes(base_path@, s@, i as int, v);
        let mut k: usize = 0;
        while k < urls.len()
            invariant
                k <= urls@.len(),
                all == seqs::views(urls@),
                all.len() > 0,
                all == url_paths(docblock(s@, i as int)),
                want == method_routes(base_path@, s@, i as int, v),
                seqs::views(out@) == want.take(k as int),
            decreases urls@.len() - k,
        {
            let path = text::join3(base_path, "/", urls[k].as_str());
            assert(all[k as int] == urls@[k as int]@);
            out.push(normalize_route(&path));
            assert(want.take(k + 1) =~= want.take(k as int).push(want[k as int]));
            k += 1;
        }
        assert(want.take(k as int) =~= want);
    } else if auto_routes(m.name) {
        out.push(normalize_route(&join2(base_path, &required_params(m.params))));
        assert(seqs::views(out@) =~= method_routes(base_path@, s@, i as int, v));
    }
    out
}

/// The class name in `class <Name> extends DolibarrApi`.
pub open spec fn api_class(s: Seq<char>) -> Option<Seq<char>> {
    let i = text::find(s, "extends DolibarrApi"@, 0);
    let head = text::trimmed_end(s.subrange(0, i), CharSet::Space);
    let a = text::run_back(head, head.len() as int, CharSet::Word);
    if i >= s.len() || a >= head.len() {
        None
    } else {
        Some(head.subrange(a, head.len() as int))
    }
}

/// The class name in `class <Name> extends DolibarrApi`.
fn api_class_name<'a>(s: &'a [char]) -> (r: Option<&'a [char]>)
    ensures
        seqs::opt_view(r) == api_class(s@),
{
    let i = text::search(s, "extends DolibarrApi", 0);
    if i >= s.len() {
        return None;
    }
    let head = text::trim_end(slice_subrange(s, 0, i), CharSet::Space);
    let a = text::skip_back(head, head.len(), CharSet::Word);
    if a >= head.len() {
        return None;
    }
    Some(slice_subrange(head, a, head.len()))
}

pub open spec fn role_of() -> spec_fn(Seq<char>) -> Seq<Seq<char>> {
    |p: Seq<char>|
        if text::trimmed(p, CharSet::Space).len() > 0 {
            seq![text::trimmed(p, CharSet::Space)]
        } else {
            Seq::empty()
        }
}

/// The roles in a `@class DolibarrApiAccess {@requires user,external}` class tag.
pub open spec fn required_roles(s: Seq<char>) -> Seq<Seq<char>> {
    let i = text::find(s, "DolibarrApiAccess"@, 0);
    let a = text::find(s, "{@requires"@, i);
    let b = a + "{@requires"@.len();
    let e = text::seek(s, b, CharSet::One('}'));
    if i >= s.len() || a >= s.len() {
        Seq::empty()
    } else {
        seqs::each(text::pieces(s.subrange(b, e), CharSet::One(',')), role_of())
    }
}

/// The roles that the class tag requires.
fn api_required_roles(s: &[char]) -> (r: Vec<String>)
    ensures
        seqs::views(r@) == required_roles(s@),
{
    let i = text::search(s, "DolibarrApiAccess", 0);
    let mut out: Vec<String> = Vec::new();
    if i >= s.len() {
        return out;
    }
    let a = text::search(s, "{@requires", i);
    if a >= s.len() {
        return out;
    }
    let b = a + text::length_of("{@requires");
    let e = text::look(s, b, CharSet::One('}'));
    let parts = text::split(slice_subrange(s, b, e), CharSet::One(','));
    let ghost all = seqs::views(parts@);
    let mut k: usize = 0;
    while k < parts.len()
        invariant
            k <= parts@.len(),
            all == seqs::views(parts@),
            all == text::pieces(s@.subrange(b as int, e as int), CharSet::One(',')),
            seqs::views(out@) + seqs::each_from(all, k as int, role_of()) == seqs::each(all, role_of()),
        decreases parts@.len() - k,
    {
        let role = text::trim(parts[k], CharSet::Space);
        assert(all[k as int] == parts@[k as int]@);
        if role.len() > 0 {
            out.push(string_of(role));
        }
        k += 1;
    }
    out
}

/// The REST routes of an `api_<name>.class.php` class that extends `DolibarrApi`.
/// The route base path is the class name in lower case. A public method is routed
/// either explicitly, from a `@url <VERB> <path>` documentation tag (one route per
/// tag), or by convention when it has none: a method named exactly after an HTTP
/// verb (`get`/`post`/`put`/`delete`/...) or `index` maps to that verb at the
/// resource root, with each required parameter appended as a `/{param}` segment.
pub open spec fn api_routes(rel: Seq<char>, base: Seq<char>, s: Seq<char>) -> FoundView {
    if !text::starts(base, "api_"@) || !text::includes(s, "extends DolibarrApi"@) {
        FoundView::none()
    } else {
        match api_class(s) {
            Some(class) => model::linked("role:"@, "role"@, rel, "requires-role"@, required_roles(s)).plus(
                routes_from(rel, class, s, 0),
            ),
            None => FoundView::none(),
        }
    }
}

/// Finds the REST routes of a Dolibarr API class.
fn scan_api_routes(rel: &str, base: &[char], s: &[char]) -> (r: Found)
    ensures
        r@ == api_routes(rel@, base@, s@),
{
    let mut out = Found::none();
    if !text::starts_with(base, "api_") || !text::has_text(s, "extends DolibarrApi") {
        return out;
    }
    let class = match api_class_name(s) {
        Some(c) => c,
        None => {
            return out;
        },
    };
    let base_path = string_of(&text::to_lower(class));
    let class_name = string_of(class);
    out = link_all("role:", "role", rel, "requires-role", &api_required_roles(s));
    let n = text::length_of("function");
    let mut i: usize = 0;
    while i < s.len()
        invariant
            n == "function"@.len(),
            i <= s@.len(),
            base_path@ == text::lower(class@),
            class_name@ == class@,
            api_class(s@) == Some(class@),
            text::starts(base@, "api_"@) && text::includes(s@, "extends DolibarrApi"@),
            out@.plus(routes_from(rel@, class@, s@, i as int)) == api_routes(rel@, base@, s@),
        decreases s@.len() - i,
    {
        proof {
            reveal_strlit("function");
        }
        if !text::stands(s, i, "function") {
            i += 1;
        } else {
            match read_method(s, i) {
                Some(m) => {
                    // A route serves the specific implementing method, so the endpoint
                    // is not read as dead and `callers route:<path>` names the handler.
                    let name = string_of(m.name);
                    let owner = text::join3(rel, "#", &class_name);
                    let target = text::join3(&owner, ".", &name);
                    let routes = routes_of(&base_path, s, i, &m);
                    let found = serve_all(rel, &target, &routes);
                    let ghost before = out@;
                    proof {
                        let v = method_at(s@, i as int)->0;
                        assert(v == MethodView { name: m.name@, params: m.params@, end: m.end as int });
                        assert(target@ == rel@ + "#"@ + class@ + "."@ + v.name);
                    }
                    out.add_all(found);
                    i = m.end;
                },
                None => {
                    i += n;
                },
            }
        }
    }
    out
}

// ---------------------------------------------------------------------------
// Assigned values

/// The property name `prop` stands at index `i`, and is not part of a longer name.
pub open spec fn whole_name(s: Seq<char>, prop: Seq<char>, i: int) -> bool {
    !scan::preceded(s, i, CharSet::Word) && !scan::at(s, i + prop.len(), CharSet::Word)
}

/// What is assigned by the statement that goes on at index `i`: the text from
/// the next `=` to the `;` behind it.
pub open spec fn assigned_text(s: Seq<char>, i: int) -> Option<Seq<char>> {
    let e = text::seek(s, i, CharSet::One('='));
    if e >= s.len() {
        None
    } else {
        Some(s.subrange(e, text::seek(s, e, CharSet::One(';'))))
    }
}

/// The text assigned to the property `prop` named at index `i`.
pub open spec fn assignment_at(s: Seq<char>, prop: Seq<char>, i: int) -> Option<Seq<char>> {
    if whole_name(s, prop, i) {
        assigned_text(s, i + prop.len())
    } else {
        None
    }
}

/// The text assigned to the property `prop` named at index `i`.
fn read_assignment<'a>(s: &'a [char], prop: &str, i: usize) -> (r: Option<&'a [char]>)
    requires
        text::occurs(s@, i as int, prop@),
        s@.len() <= usize::MAX,
    ensures
        seqs::opt_view(r) == assignment_at(s@, prop@, i as int),
{
    let j = i + text::length_of(prop);
    if scan::is_preceded(s, i, CharSet::Word) || scan::is_at(s, j, CharSet::Word) {
        return None;
    }
    let e = text::look(s, j, CharSet::One('='));
    if e >= s.len() {
        return None;
    }
    Some(slice_subrange(s, e, text::look(s, e, CharSet::One(';'))))
}

pub open spec fn string_at(s: Seq<char>, prop: Seq<char>) -> spec_fn(int) -> Option<Seq<char>> {
    |i: int|
        match assignment_at(s, prop, i) {
            Some(v) => scan::quoted(v),
            None => None,
        }
}

/// The string value assigned to property `prop` (`$this->prop = '...'` or
/// `public $prop = '...'`), if any.
pub open spec fn string_value(s: Seq<char>, prop: Seq<char>) -> Option<Seq<char>> {
    seqs::first_some(text::hits(s, prop, 0), string_at(s, prop))
}

/// The string value assigned to property `prop`, if any.
fn assigned_string(s: &[char], prop: &str) -> (r: Option<String>)
    ensures
        seqs::opt_view(r) == string_value(s@, prop@),
{
    let places = text::occurrences(s, prop);
    let ghost ks = text::hits(s@, prop@, 0);
    let mut k: usize = 0;
    while k < places.len()
        invariant
            k <= places@.len(),
            ks == text::hits(s@, prop@, 0),
            text::are_hits(s@, prop@, places@),
            seqs::first_from(ks, k as int, string_at(s@, prop@)) == string_value(s@, prop@),
        decreases places@.len() - k,
    {
        assert(ks[k as int] == places@[k as int]);
        if let Some(v) = read_assignment(s, prop, places[k]) {
            let found = scan::first_quoted(v);
            if found.is_some() {
                return found;
            }
        }
        k += 1;
    }
    None
}

pub open spec fn strings_at(s: Seq<char>, prop: Seq<char>) -> spec_fn(int) -> Option<Seq<Seq<char>>> {
    |i: int|
        match assignment_at(s, prop, i) {
            Some(v) => if scan::literals(v).len() > 0 {
                Some(scan::literals(v))
            } else {
                None
            },
            None => None,
        }
}

/// The strings in the array assigned to property `prop`
/// (`$this->prop = array('a', 'b')` / `= ['a', 'b']`).
pub open spec fn string_values(s: Seq<char>, prop: Seq<char>) -> Seq<Seq<char>> {
    match seqs::first_some(text::hits(s, prop, 0), strings_at(s, prop)) {
        Some(v) => v,
        None => Seq::empty(),
    }
}

/// The given texts as strings.
fn strings_of(parts: &[&[char]]) -> (r: Vec<String>)
    ensures
        seqs::views(r@) == seqs::views(parts@),
{
    let mut out: Vec<String> = Vec::new();
    let mut k: usize = 0;
    while k < parts.len()
        invariant
            k <= parts@.len(),
            seqs::views(out@) == seqs::views(parts@).take(k as int),
        decreases parts@.len() - k,
    {
        out.push(string_of(parts[k]));
        k += 1;
        assert(seqs::views(parts@).take(k as int) =~= seqs::views(parts@).take(k - 1).push(
            seqs::views(parts@)[k - 1],
        ));
    }
    assert(seqs::views(parts@).take(k as int) =~= seqs::views(parts@));
    out
}

/// The strings in the array assigned to property `prop`.
fn assigned_array_strings(s: &[char], prop: &str) -> (r: Vec<String>)
    ensures
        seqs::views(r@) == string_values(s@, prop@),
{
    let places = text::occurrences(s, prop);
    let ghost ks = text::hits(s@, prop@, 0);
    let mut k: usize = 0;
    while k < places.len()
        invariant
            k <= places@.len(),
            ks == text::hits(s@, prop@, 0),
            text::are_hits(s@, prop@, places@),
            seqs::first_from(ks, k as int, strings_at(s@, prop@)) == seqs::first_some(
                ks,
                strings_at(s@, prop@),
            ),
        decreases places@.len() - k,
    {
        assert(ks[k as int] == places@[k as int]);
        if let Some(v) = read_assignment(s, prop, places[k]) {
            let found = scan::all_literals(v);
            if found.len() > 0 {
                return strings_of(&found);
            }
        }
        k += 1;
    }
    Vec::new()
}

/// The string value of a `<key> => '<value>'` array entry whose key ends at
/// index `i`: the arrow follows within four bytes of the key, and the value
/// starts and ends within eighty bytes of the arrow.
pub open spec fn entry_value(s: Seq<char>, i: int) -> Option<Seq<char>> {
    let a = text::find(s, "=>"@, i);
    if a >= s.len() || a > text::fit(s, i, 4) {
        None
    } else {
        scan::quoted(s.subrange(a + 2, text::fit(s, a + 2, 80)))
    }
}

pub open spec fn entry_at(s: Seq<char>, key: Seq<char>) -> spec_fn(int) -> Seq<Seq<char>> {
    |i: int| seqs::opt_seq(entry_value(s, i + key.len()))
}

/// The string values of the `'<key>' => '<value>'` array entries.
pub open spec fn entry_values(s: Seq<char>, key: Seq<char>) -> Seq<Seq<char>> {
    seqs::each(text::hits(s, key, 0), entry_at(s, key))
}

/// The string values of the `'<key>' => '<value>'` array entries. Used to pull
/// `objectname` targets out of a descriptor's `cronjobs` array.
fn array_key_values(s: &[char], key: &str) -> (r: Vec<String>)
    ensures
        seqs::views(r@) == entry_values(s@, key@),
{
    let places = text::occurrences(s, key);
    let n = text::length_of(key);
    let ghost ks = text::hits(s@, key@, 0);
    let mut out: Vec<String> = Vec::new();
    let mut k: usize = 0;
    while k < places.len()
        invariant
            n == key@.len(),
            k <= places@.len(),
            ks == text::hits(s@, key@, 0),
            text::are_hits(s@, key@, places@),
            seqs::views(out@) + seqs::each_from(ks, k as int, entry_at(s@, key@)) == entry_values(s@, key@),
        decreases places@.len() - k,
    {
        proof {
            reveal_strlit("=>");
        }
        let i = places[k] + n;
        assert(ks[k as int] == places@[k as int]);
        let a = text::search(s, "=>", i);
        if a < s.len() && a <= text::fit_bytes(s, i, 4) {
            let e = text::fit_bytes(s, a + 2, 80);
            if let Some(v) = scan::first_quoted(slice_subrange(s, a + 2, e)) {
                out.push(v);
            }
        }
        k += 1;
    }
    out
}

// ---------------------------------------------------------------------------
// Module descriptors

/// An edge from the file `rel` to each of the names.
pub open spec fn edges_to(rel: Seq<char>, relation: Seq<char>, names: Seq<Seq<char>>) -> FoundView {
    FoundView {
        nodes: Seq::empty(),
        edges: names.map_values(|n: Seq<char>| model::named_edge(rel, relation, n)),
    }
}

/// An edge from the file `rel` to each of the names.
fn edge_all(rel: &str, relation: &'static str, names: &[String]) -> (r: Found)
    ensures
        r@ == edges_to(rel@, relation@, seqs::views(names@)),
{
    let mut out = Found::none();
    let ghost want = edges_to(rel@, relation@, seqs::views(names@));
    let mut k: usize = 0;
    while k < names.len()
        invariant
            k <= names@.len(),
            want == edges_to(rel@, relation@, seqs::views(names@)),
            out@.nodes.len() == 0,
            out@.edges == want.edges.take(k as int),
        decreases names@.len() - k,
    {
        out.edges.push(RawEdge::named(rel.to_string(), relation, names[k].clone()));
        assert(want.edges.take(k + 1) =~= want.edges.take(k as int).push(want.edges[k as int]));
        k += 1;
    }
    assert(want.edges.take(k as int) =~= want.edges);
    assert(out@.nodes =~= want.nodes);
    out
}

/// A `DolibarrModules` descriptor: a `module:<rights_class>` node that the file
/// declares, the modules it depends on, and the classes its cron jobs run.
pub open spec fn module_links(rel: Seq<char>, s: Seq<char>) -> FoundView {
    if !text::includes(s, "DolibarrModules"@) {
        FoundView::none()
    } else {
        match string_value(s, "rights_class"@) {
            Some(module) => model::linked("module:"@, "module"@, rel, "declares-module"@, seq![module]).plus(
                edges_to(rel, "depends-on"@, string_values(s, "depends"@)),
            ).plus(edges_to(rel, "schedules"@, entry_values(s, "objectname"@))),
            None => FoundView::none(),
        }
    }
}

/// Finds what a module descriptor declares.
fn scan_module(rel: &str, s: &[char]) -> (r: Found)
    ensures
        r@ == module_links(rel@, s@),
{
    if !text::has_text(s, "DolibarrModules") {
        return Found::none();
    }
    match assigned_string(s, "rights_class") {
        Some(module) => {
            let mut names: Vec<String> = Vec::new();
            names.push(module);
            assert(seqs::views(names@) =~= seq![module@]);
            let mut out = link_all("module:", "module", rel, "declares-module", &names);
            out.add_all(edge_all(rel, "depends-on", &assigned_array_strings(s, "depends")));
            out.add_all(edge_all(rel, "schedules", &array_key_values(s, "objectname")));
            out
        },
        None => Found::none(),
    }
}

// ---------------------------------------------------------------------------
// Permissions

/// The permission that a `hasRight('module', 'level1'[, 'level2'])` call checks;
/// nothing where the module or the first level is not a literal.
pub open spec fn right_name(args: Seq<char>) -> Option<Seq<char>> {
    let p = args_of(args);
    if p.len() >= 2 && scan::lone_literal(p[0]) is Some && scan::lone_literal(p[1]) is Some {
        let name = scan::lone_literal(p[0])->0 + "."@ + scan::lone_literal(p[1])->0;
        if p.len() >= 3 && scan::lone_literal(p[2]) is Some {
            Some(name + "."@ + scan::lone_literal(p[2])->0)
        } else {
            Some(name)
        }
    } else {
        None
    }
}

/// The permission that a `hasRight` call checks.
fn called_right(args: &[char]) -> (r: Option<String>)
    ensures
        seqs::opt_view(r) == right_name(args@),
{
    let p = split_args(args);
    let ghost all = seqs::views(p@);
    if p.len() < 2 {
        return None;
    }
    assert(all[0] == p@[0]@ && all[1] == p@[1]@);
    if let (Some(module), Some(first)) = (scan::string_literal(p[0]), scan::string_literal(p[1])) {
        let name = text::join3(&module, ".", &first);
        if p.len() >= 3 {
            assert(all[2] == p@[2]@);
            if let Some(second) = scan::string_literal(p[2]) {
                return Some(text::join3(&name, ".", &second));
            }
        }
        return Some(name);
    }
    None
}

/// The names of an `a->b->c` property chain that starts at index `i`, at most
/// `max` of them.
pub open spec fn chain(s: Seq<char>, i: int, max: nat) -> Seq<Seq<char>>
    decreases max,
{
    let e = text::run(s, i, CharSet::Word);
    if max == 0 || e == i {
        Seq::empty()
    } else if text::occurs(s, e, "->"@) {
        seq![s.subrange(i, e)] + chain(s, e + 2, (max - 1) as nat)
    } else {
        seq![s.subrange(i, e)]
    }
}

/// The names of the property chain that starts at index `i`.
fn property_chain<'a>(s: &'a [char], i: usize, max: usize) -> (r: Vec<&'a [char]>)
    requires
        i <= s@.len(),
    ensures
        seqs::views(r@) == chain(s@, i as int, max as nat),
{
    let mut out: Vec<&'a [char]> = Vec::new();
    let size = s.len();
    let mut left: usize = max;
    let mut j: usize = i;
    while left > 0
        invariant
            j <= size == s@.len(),
            seqs::views(out@) + chain(s@, j as int, left as nat) == chain(s@, i as int, max as nat),
        decreases left,
    {
        proof {
            reveal_strlit("->");
        }
        let e = text::skip(s, j, CharSet::Word);
        if e == j {
            return out;
        }
        out.push(slice_subrange(s, j, e));
        if !text::stands(s, e, "->") {
            return out;
        }
        j = e + 2;
        left -= 1;
    }
    out
}

/// The permission that a legacy `$user->rights->module->level1[->level2]`
/// property access at index `i` (of `rights->`) checks.
pub open spec fn property_right(s: Seq<char>, i: int) -> Option<Seq<char>> {
    let names = chain(s, i + "rights->"@.len(), 3);
    if text::occurs(s, i - 2, "->"@) && names.len() >= 2 {
        Some(text::joined(names, "."@))
    } else {
        None
    }
}

pub open spec fn property_right_at(s: Seq<char>) -> spec_fn(int) -> Seq<Seq<char>> {
    |i: int| seqs::opt_seq(property_right(s, i))
}

pub open spec fn right_in() -> spec_fn(Seq<char>) -> Seq<Seq<char>> {
    |args: Seq<char>| seqs::opt_seq(right_name(args))
}

/// The permissions that a file checks, both forms Dolibarr uses.
pub open spec fn rights(s: Seq<char>) -> Seq<Seq<char>> {
    seqs::each(calls(s, "hasRight"@), right_in()) + seqs::each(
        text::hits(s, "rights->"@, 0),
        property_right_at(s),
    )
}

/// The permissions that a file checks.
fn checked_rights(s: &[char]) -> (r: Vec<String>)
    ensures
        seqs::views(r@) == rights(s@),
{
    let found = call_arguments(s, "hasRight");
    let ghost all = seqs::views(found@);
    let mut out: Vec<String> = Vec::new();
    let mut k: usize = 0;
    while k < found.len()
        invariant
            k <= found@.len(),
            all == seqs::views(found@),
            seqs::views(out@) + seqs::each_from(all, k as int, right_in()) == seqs::each(all, right_in()),
        decreases found@.len() - k,
    {
        assert(all[k as int] == found@[k as int]@);
        if let Some(name) = called_right(found[k]) {
            out.push(name);
        }
        k += 1;
    }
    let ghost modern = seqs::views(out@);
    let places = text::occurrences(s, "rights->");
    let n = text::length_of("rights->");
    let ghost ks = text::hits(s@, "rights->"@, 0);
    let mut k: usize = 0;
    while k < places.len()
        invariant
            n == "rights->"@.len(),
            k <= places@.len(),
            ks == text::hits(s@, "rights->"@, 0),
            text::are_hits(s@, "rights->"@, places@),
            seqs::views(out@) + seqs::each_from(ks, k as int, property_right_at(s@)) == modern + seqs::each(
                ks,
                property_right_at(s@),
            ),
        decreases places@.len() - k,
    {
        let i = places[k];
        assert(ks[k as int] == i);
        if i >= 2 && text::stands(s, i - 2, "->") {
            let names = property_chain(s, i + n, 3);
            if names.len() >= 2 {
                out.push(text::join_all(&names, "."));
            }
        }
        k += 1;
    }
    out
}

/// A `right:` node and a `checks-permission` edge for each permission checked.
pub open spec fn permission_links(rel: Seq<char>, s: Seq<char>) -> FoundView {
    model::linked("right:"@, "permission"@, rel, "checks-permission"@, rights(s))
}

/// Finds the permissions that a file checks. The modern
/// `$user->hasRight('module','level1'[,'level2'])` (a string-literal module is
/// required; a dynamic `hasRight($m, ...)` is skipped) and the legacy
/// `$user->rights->module->level1[->level2]` property access.
fn scan_permissions(rel: &str, s: &[char]) -> (r: Found)
    ensures
        r@ == permission_links(rel@, s@),
{
    link_all("right:", "permission", rel, "checks-permission", &checked_rights(s))
}

// ---------------------------------------------------------------------------
// Triggers and hooks

pub open spec fn first_arg_of() -> spec_fn(Seq<char>) -> Seq<Seq<char>> {
    |args: Seq<char>| seqs::opt_seq(first_arg(args))
}

/// The literal first arguments of the `needle(...)` calls of a file.
pub open spec fn call_names(s: Seq<char>, needle: Seq<char>) -> Seq<Seq<char>> {
    seqs::each(calls(s, needle), first_arg_of())
}

/// The literal first arguments of the `needle(...)` calls of a file.
fn called_names(s: &[char], needle: &str) -> (r: Vec<String>)
    ensures
        seqs::views(r@) == call_names(s@, needle@),
{
    let found = call_arguments(s, needle);
    let ghost all = seqs::views(found@);
    let mut out: Vec<String> = Vec::new();
    let mut k: usize = 0;
    while k < found.len()
        invariant
            k <= found@.len(),
            all == seqs::views(found@),
            seqs::views(out@) + seqs::each_from(all, k as int, first_arg_of()) == seqs::each(
                all,
                first_arg_of(),
            ),
        decreases found@.len() - k,
    {
        assert(all[k as int] == found@[k as int]@);
        if let Some(name) = first_argument(found[k]) {
            out.push(name);
        }
        k += 1;
    }
    out
}

/// A trigger action name: `ALL_CAPS_WITH_UNDERSCORES` (e.g. `BILL_VALIDATE`),
/// which distinguishes it from a lower-case `$object->element` switch value.
pub open spec fn is_action(s: Seq<char>) -> bool {
    s.len() > 0 && text::is_upper(s[0]) && text::all_in(s, CharSet::Action)
}

/// A Dolibarr hook that a handler class implements: a known hook name, or a
/// member of a hook family -- `pdf_*` document hooks, `dashboard*` widgets,
/// `printField*` list-column hooks, or the login hooks.
pub open spec fn is_hook(name: Seq<char>) -> bool {
    ||| name == "doActions"@
    ||| name == "doMassActions"@
    ||| name == "addMoreMassActions"@
    ||| name == "addMoreActionsButtons"@
    ||| name == "formObjectOptions"@
    ||| name == "formConfirm"@
    ||| name == "formAddObjectLine"@
    ||| name == "printObjectLine"@
    ||| name == "printOriginObjectLine"@
    ||| name == "printFieldPreListTitle"@
    ||| name == "printCommonFooter"@
    ||| name == "printLeftBlock"@
    ||| name == "defineColumnField"@
    ||| name == "insertExtraFields"@
    ||| name == "insertExtraHeader"@
    ||| name == "insertExtraFooter"@
    ||| name == "addHtmlHeader"@
    ||| name == "showInputField"@
    ||| name == "showOutputField"@
    ||| name == "getNomUrl"@
    ||| name == "formBuilddocOptions"@
    ||| name == "restrictedArea"@
    ||| text::starts(name, "pdf_"@)
    ||| text::starts(name, "dashboard"@)
    ||| text::starts(name, "printField"@)
    ||| name == "afterLogin"@
    ||| name == "afterLoginFailed"@
    ||| name == "beforeLoginAuthentication"@
    ||| name == "beforePDFCreation"@
    ||| name == "afterPDFCreation"@
    ||| name == "createFrom"@
    ||| name == "formButtonsList"@
    ||| name == "getnomurltooltip"@
}

/// Whether `name` is a Dolibarr hook that a handler class implements.
fn is_hook_method(name: &[char]) -> (r: bool)
    ensures
        r == is_hook(name@),
{
    let action = is_text(name, "doActions") || is_text(name, "doMassActions") || is_text(
        name,
        "addMoreMassActions",
    ) || is_text(name, "addMoreActionsButtons") || is_text(name, "restrictedArea");
    let form = is_text(name, "formObjectOptions") || is_text(name, "formConfirm") || is_text(
        name,
        "formAddObjectLine",
    ) || is_text(name, "formBuilddocOptions") || is_text(name, "formButtonsList");
    let print = is_text(name, "printObjectLine") || is_text(name, "printOriginObjectLine") || is_text(
        name,
        "printFieldPreListTitle",
    ) || is_text(name, "printCommonFooter") || is_text(name, "printLeftBlock");
    let extra = is_text(name, "defineColumnField") || is_text(name, "insertExtraFields") || is_text(
        name,
        "insertExtraHeader",
    ) || is_text(name, "insertExtraFooter") || is_text(name, "addHtmlHeader");
    let show = is_text(name, "showInputField") || is_text(name, "showOutputField") || is_text(
        name,
        "getNomUrl",
    ) || is_text(name, "getnomurltooltip");
    let family = text::starts_with(name, "pdf_") || text::starts_with(name, "dashboard")
        || text::starts_with(name, "printField");
    let core = is_text(name, "afterLogin") || is_text(name, "afterLoginFailed") || is_text(
        name,
        "beforeLoginAuthentication",
    ) || is_text(name, "beforePDFCreation") || is_text(name, "afterPDFCreation") || is_text(
        name,
        "createFrom",
    );
    action || form || print || extra || show || family || core
}

/// A rule that a scanned name has to meet.
#[derive(Clone, Copy)]
enum Rule {
    Action,
    Hook,
}

impl Rule {
    spec fn allows(self, name: Seq<char>) -> bool {
        match self {
            Rule::Action => is_action(name),
            Rule::Hook => is_hook(name),
        }
    }

    fn test(self, name: &[char]) -> (r: bool)
        ensures
            r == self.allows(name@),
    {
        match self {
            Rule::Action => name.len() > 0 && CharSet::Upper.test(name[0]) && text::is_all(
                name,
                CharSet::Action,
            ),
            Rule::Hook => is_hook_method(name),
        }
    }
}

/// The actions among the names.
pub open spec fn actions(names: Seq<Seq<char>>) -> Seq<Seq<char>> {
    names.filter(|n: Seq<char>| is_action(n))
}

/// The hooks among the names.
pub open spec fn hooks(names: Seq<Seq<char>>) -> Seq<Seq<char>> {
    names.filter(|n: Seq<char>| is_hook(n))
}

/// Keeps the names that meet a rule.
fn keep(names: Vec<String>, rule: Rule) -> (r: Vec<String>)
    ensures
        seqs::views(r@) == (match rule {
            Rule::Action => actions(seqs::views(names@)),
            Rule::Hook => hooks(seqs::views(names@)),
        }),
{
    let ghost all = seqs::views(names@);
    let mut out: Vec<String> = Vec::new();
    for n in it: names
        invariant
            it.seq() == names@,
            all == seqs::views(names@),
            rule is Action ==> seqs::views(out@) == actions(all.take(it.index() as int)),
            rule is Hook ==> seqs::views(out@) == hooks(all.take(it.index() as int)),
    {
        proof {
            let k = it.index() as int;
            assert(all[k] == n@);
            assert(all.take(k + 1).drop_last() =~= all.take(k));
            reveal(Seq::filter);
        }
        let c = chars_of(&n);
        if rule.test(&c) {
            out.push(n);
        }
    }
    assert(all.take(all.len() as int) =~= all);
    out
}

/// The literal of a `case '...'` label at index `i`.
pub open spec fn case_at(s: Seq<char>, i: int) -> Option<Seq<char>> {
    let a = text::run(s, i + 4, CharSet::AsciiSpace);
    if scan::preceded(s, i, CharSet::Word) || a == i + 4 || !scan::at(s, a, CharSet::Quote) || scan::closing(
        s,
        a + 1,
        s[a],
    ) >= s.len() {
        None
    } else {
        Some(scan::unescaped(s.subrange(a + 1, scan::closing(s, a + 1, s[a]))))
    }
}

pub open spec fn case_of(s: Seq<char>) -> spec_fn(int) -> Seq<Seq<char>> {
    |i: int| seqs::opt_seq(case_at(s, i))
}

/// The literals of the `case '...':` / `case "...":` labels of a file.
pub open spec fn case_names(s: Seq<char>) -> Seq<Seq<char>> {
    seqs::each(text::hits(s, "case"@, 0), case_of(s))
}

/// The literals of the `case` labels of a file.
fn switch_case_strings(s: &[char]) -> (r: Vec<String>)
    ensures
        seqs::views(r@) == case_names(s@),
{
    let places = text::occurrences(s, "case");
    let ghost ks = text::hits(s@, "case"@, 0);
    let mut out: Vec<String> = Vec::new();
    let mut k: usize = 0;
    while k < places.len()
        invariant
            k <= places@.len(),
            ks == text::hits(s@, "case"@, 0),
            text::are_hits(s@, "case"@, places@),
            seqs::views(out@) + seqs::each_from(ks, k as int, case_of(s@)) == case_names(s@),
        decreases places@.len() - k,
    {
        proof {
            reveal_strlit("case");
        }
        let i = places[k];
        assert(ks[k as int] == i);
        let a = text::skip(s, i + 4, CharSet::AsciiSpace);
        if !scan::is_preceded(s, i, CharSet::Word) && a > i + 4 && scan::is_at(s, a, CharSet::Quote) {
            let e = scan::close_quote(s, a + 1, s[a]);
            if e < s.len() {
                out.push(scan::unescape(slice_subrange(s, a + 1, e)));
            }
        }
        k += 1;
    }
    out
}

/// The name that the `function` keyword at index `i` declares.
pub open spec fn function_at(s: Seq<char>, i: int) -> Option<Seq<char>> {
    let a = text::run(s, i + "function"@.len(), CharSet::AsciiSpace);
    let b = text::run(s, a, CharSet::Word);
    if scan::preceded(s, i, CharSet::Word) || a == b {
        None
    } else {
        Some(s.subrange(a, b))
    }
}

pub open spec fn function_of(s: Seq<char>) -> spec_fn(int) -> Seq<Seq<char>> {
    |i: int| seqs::opt_seq(function_at(s, i))
}

/// The names of the functions and methods that a file declares.
pub open spec fn function_names(s: Seq<char>) -> Seq<Seq<char>> {
    seqs::each(text::hits(s, "function"@, 0), function_of(s))
}

/// The names of the functions and methods that a file declares.
fn defined_methods(s: &[char]) -> (r: Vec<String>)
    ensures
        seqs::views(r@) == function_names(s@),
{
    let places = text::occurrences(s, "function");
    let n = text::length_of("function");
    let ghost ks = text::hits(s@, "function"@, 0);
    let mut out: Vec<String> = Vec::new();
    let mut k: usize = 0;
    while k < places.len()
        invariant
            n == "function"@.len(),
            k <= places@.len(),
            ks == text::hits(s@, "function"@, 0),
            text::are_hits(s@, "function"@, places@),
            seqs::views(out@) + seqs::each_from(ks, k as int, function_of(s@)) == function_names(s@),
        decreases places@.len() - k,
    {
        let i = places[k];
        assert(ks[k as int] == i);
        let a = text::skip(s, i + n, CharSet::AsciiSpace);
        let b = text::skip(s, a, CharSet::Word);
        if !scan::is_preceded(s, i, CharSet::Word) && b > a {
            out.push(string_of(slice_subrange(s, a, b)));
        }
        k += 1;
    }
    out
}

/// The model events that a file raises, and those that a `DolibarrTriggers`
/// subclass handles by its `switch ($action)`.
pub open spec fn trigger_links(rel: Seq<char>, s: Seq<char>) -> FoundView {
    let raised = model::linked(
        "trigger:"@,
        "trigger"@,
        rel,
        "raises-trigger"@,
        actions(call_names(s, "call_trigger"@)),
    );
    if text::includes(s, "DolibarrTriggers"@) {
        raised.plus(
            model::linked("trigger:"@, "trigger"@, rel, "handles-trigger"@, actions(case_names(s))),
        )
    } else {
        raised
    }
}

/// Finds the triggers that a file raises and handles.
fn scan_triggers(rel: &str, s: &[char]) -> (r: Found)
    ensures
        r@ == trigger_links(rel@, s@),
{
    let raised = keep(called_names(s, "call_trigger"), Rule::Action);
    let mut out = link_all("trigger:", "trigger", rel, "raises-trigger", &raised);
    if text::has_text(s, "DolibarrTriggers") {
        let handled = keep(switch_case_strings(s), Rule::Action);
        out.add_all(link_all("trigger:", "trigger", rel, "handles-trigger", &handled));
    }
    out
}

/// The hooks that a file fires, and those that a hook handler class -- at
/// `actions_<module>.class.php`, or a `CommonHookActions` subclass -- handles by
/// the methods it declares.
pub open spec fn hook_links(rel: Seq<char>, base: Seq<char>, s: Seq<char>) -> FoundView {
    let fired = model::linked("hook:"@, "hook"@, rel, "fires-hook"@, call_names(s, "executeHooks"@));
    if text::starts(base, "actions_"@) || text::includes(s, "CommonHookActions"@) {
        fired.plus(model::linked("hook:"@, "hook"@, rel, "handles-hook"@, hooks(function_names(s))))
    } else {
        fired
    }
}

/// Finds the hooks that a file fires and handles.
fn scan_hooks(rel: &str, base: &[char], s: &[char]) -> (r: Found)
    ensures
        r@ == hook_links(rel@, base@, s@),
{
    let mut out = link_all("hook:", "hook", rel, "fires-hook", &called_names(s, "executeHooks"));
    if text::starts_with(base, "actions_") || text::has_text(s, "CommonHookActions") {
        let handled = keep(defined_methods(s), Rule::Hook);
        out.add_all(link_all("hook:", "hook", rel, "handles-hook", &handled));
    }
    out
}

// ---------------------------------------------------------------------------
// Objects

/// A `CommonObject` (or `CommonObjectLine`) subclass with `$table_element = 'x'`
/// is linked to the table, which joins it to the table's definition and uses.
pub open spec fn object_links(rel: Seq<char>, s: Seq<char>) -> FoundView {
    if !text::includes(s, "extends CommonObject"@) {
        FoundView::none()
    } else {
        model::linked(
            "table:"@,
            "table"@,
            rel,
            "table"@,
            seqs::opt_seq(string_value(s, "table_element"@)),
        )
    }
}

/// Links a `CommonObject` subclass to its table.
fn scan_common_object(rel: &str, s: &[char]) -> (r: Found)
    ensures
        r@ == object_links(rel@, s@),
{
    if !text::has_text(s, "extends CommonObject") {
        return Found::none();
    }
    let mut names: Vec<String> = Vec::new();
    if let Some(table) = assigned_string(s, "table_element") {
        names.push(table);
    }
    assert(seqs::views(names@) =~= seqs::opt_seq(string_value(s@, "table_element"@)));
    link_all("table:", "table", rel, "table", &names)
}

/// What a field type names.
pub enum FieldView {
    Class(Seq<char>),
    Table(Seq<char>),
    Plain,
}

/// What a field type names.
enum Field {
    Class(String),
    Table(String),
    Plain,
}

impl View for Field {
    type V = FieldView;

    closed spec fn view(&self) -> FieldView {
        match self {
            Field::Class(c) => FieldView::Class(c@),
            Field::Table(t) => FieldView::Table(t@),
            Field::Plain => FieldView::Plain,
        }
    }
}

/// A class name as a field type spells it: an upper-case initial, word characters.
pub open spec fn is_field_class(s: Seq<char>) -> bool {
    s.len() > 0 && text::is_upper(s[0]) && text::all_in(s, CharSet::Word)
}

/// A table name without the installation prefix `llx_`.
pub open spec fn bare_table(s: Seq<char>) -> Seq<char> {
    if text::starts(s, "llx_"@) {
        s.subrange(4, s.len() as int)
    } else {
        s
    }
}

/// A table name without the installation prefix.
fn strip_table<'a>(s: &'a [char]) -> (r: &'a [char])
    ensures
        r@ == bare_table(s@),
{
    proof {
        reveal_strlit("llx_");
    }
    if text::starts_with(s, "llx_") {
        slice_subrange(s, 4, s.len())
    } else {
        s
    }
}

/// What a field type names: `integer:Class:path/to.php[:...]` a class that the
/// object belongs to, `sellist:Table` / `chkbxlst:Table` a dictionary table.
pub open spec fn field_type(lit: Seq<char>) -> FieldView {
    let p = text::pieces(lit, CharSet::One(':'));
    if p.len() < 2 {
        FieldView::Plain
    } else if p[0] == "integer"@ {
        if is_field_class(scan::last_part(p[1], '\\')) {
            FieldView::Class(scan::last_part(p[1], '\\'))
        } else {
            FieldView::Plain
        }
    } else if p[0] == "sellist"@ || p[0] == "chkbxlst"@ {
        if bare_table(p[1]).len() > 0 {
            FieldView::Table(bare_table(p[1]))
        } else {
            FieldView::Plain
        }
    } else {
        FieldView::Plain
    }
}

/// What a field type names.
fn read_field(lit: &[char]) -> (r: Field)
    ensures
        r@ == field_type(lit@),
{
    let p = text::split(lit, CharSet::One(':'));
    let ghost all = seqs::views(p@);
    if p.len() < 2 {
        return Field::Plain;
    }
    assert(all[0] == p@[0]@ && all[1] == p@[1]@);
    if is_text(p[0], "integer") {
        let class = scan::behind_last(p[1], '\\');
        if class.len() > 0 && CharSet::Upper.test(class[0]) && text::is_all(class, CharSet::Word) {
            return Field::Class(string_of(class));
        }
    } else if is_text(p[0], "sellist") || is_text(p[0], "chkbxlst") {
        let table = strip_table(p[1]);
        if table.len() > 0 {
            return Field::Table(string_of(table));
        }
    }
    Field::Plain
}

pub open spec fn field_edge(rel: Seq<char>) -> spec_fn(Seq<char>) -> Seq<EdgeView> {
    |lit: Seq<char>|
        match field_type(lit) {
            FieldView::Class(c) => seq![model::named_edge(rel, "relates-to"@, c)],
            FieldView::Table(t) => seq![model::named_edge(rel, "uses-table"@, t)],
            FieldView::Plain => Seq::empty(),
        }
}

pub open spec fn field_node(rel: Seq<char>) -> spec_fn(Seq<char>) -> Seq<NodeView> {
    |lit: Seq<char>|
        match field_type(lit) {
            FieldView::Table(t) => seq![model::table_node(rel, t)],
            _ => Seq::empty(),
        }
}

/// The classes and dictionary tables that the `$fields` of an object name.
pub open spec fn field_links(rel: Seq<char>, s: Seq<char>) -> FoundView {
    if !text::includes(s, "$fields"@) {
        FoundView::none()
    } else {
        FoundView {
            nodes: seqs::each(scan::literals(s), field_node(rel)),
            edges: seqs::each(scan::literals(s), field_edge(rel)),
        }
    }
}

/// Finds what the `$fields` of an object name.
fn scan_object_fields(rel: &str, s: &[char]) -> (r: Found)
    ensures
        r@ == field_links(rel@, s@),
{
    let mut out = Found::none();
    if !text::has_text(s, "$fields") {
        return out;
    }
    let lits = scan::all_literals(s);
    let ghost all = seqs::views(lits@);
    let mut k: usize = 0;
    while k < lits.len()
        invariant
            k <= lits@.len(),
            all == seqs::views(lits@),
            out@.nodes + seqs::each_from(all, k as int, field_node(rel@)) == seqs::each(all, field_node(rel@)),
            out@.edges + seqs::each_from(all, k as int, field_edge(rel@)) == seqs::each(all, field_edge(rel@)),
        decreases lits@.len() - k,
    {
        assert(all[k as int] == lits@[k as int]@);
        match read_field(lits[k]) {
            Field::Class(class) => {
                out.edges.push(RawEdge::named(rel.to_string(), "relates-to", class));
            },
            Field::Table(table) => {
                out.nodes.push(make_join("table:", "table", rel, &table));
                out.edges.push(RawEdge::named(rel.to_string(), "uses-table", table));
            },
            Field::Plain => {},
        }
        k += 1;
    }
    out
}

// ---------------------------------------------------------------------------
// The whole file

/// The `dol_include_once('/module/class/x.class.php')` dependencies of a file.
pub open spec fn dependency_links(rel: Seq<char>, s: Seq<char>) -> FoundView {
    edges_to(rel, "dol-requires"@, call_names(s, "dol_include_once"@))
}

/// Finds the files that a file pulls in; a dynamic path is skipped.
fn scan_includes(rel: &str, s: &[char]) -> (r: Found)
    ensures
        r@ == dependency_links(rel@, s@),
{
    edge_all(rel, "dol-requires", &called_names(s, "dol_include_once"))
}

/// Everything Dolibarr that one PHP file holds.
pub open spec fn links(rel: Seq<char>, base: Seq<char>, s: Seq<char>) -> FoundView {
    module_links(rel, s).deduped().plus(permission_links(rel, s).deduped()).plus(
        trigger_links(rel, s).deduped(),
    ).plus(hook_links(rel, base, s).deduped()).plus(object_links(rel, s).deduped()).plus(
        field_links(rel, s).deduped(),
    ).plus(api_routes(rel, base, s).deduped()).plus(dependency_links(rel, s).deduped())
}

/// Run every Dolibarr scanner over one PHP file, appending to `nodes`/`edges`.
pub fn scan(rel: &str, base: &str, code: &str, nodes: &mut Vec<Node>, edges: &mut Vec<RawEdge>)
    ensures
        model::appended(
            old(nodes)@,
            old(edges)@,
            final(nodes)@,
            final(edges)@,
            links(rel@, base@, code@),
        ),
{
    let s = chars_of(code);
    let b = chars_of(base);
    scan_module(rel, &s).emit(nodes, edges);
    scan_permissions(rel, &s).emit(nodes, edges);
    scan_triggers(rel, &s).emit(nodes, edges);
    scan_hooks(rel, &b, &s).emit(nodes, edges);
    scan_common_object(rel, &s).emit(nodes, edges);
    scan_object_fields(rel, &s).emit(nodes, edges);
    scan_api_routes(rel, &b, &s).emit(nodes, edges);
    scan_includes(rel, &s).emit(nodes, edges);
}

// ---------------------------------------------------------------------------
// SQL and language files

/// The bare SQL table name at the start of `s`, its `llx_` prefix dropped;
/// nothing for a quoted or dynamic name.
pub open spec fn sql_name(s: Seq<char>, i: int) -> Option<Seq<char>> {
    let name = bare_table(s.subrange(i, text::run(s, i, CharSet::Word)));
    if (scan::at(s, i, CharSet::Alpha) || scan::at(s, i, CharSet::One('_'))) && name.len() > 0 {
        Some(name)
    } else {
        None
    }
}

/// The bare SQL table name at index `i`.
pub(crate) fn read_table_name(s: &[char], i: usize) -> (r: Option<String>)
    ensures
        seqs::opt_view(r) == sql_name(s@, i as int),
{
    if scan::is_at(s, i, CharSet::Alpha) || scan::is_at(s, i, CharSet::One('_')) {
        let name = strip_table(slice_subrange(s, i, text::skip(s, i, CharSet::Word)));
        if name.len() > 0 {
            return Some(string_of(name));
        }
    }
    None
}

/// The table that the SQL statement whose verb ends at index `i` defines.
pub open spec fn ddl_table(s: Seq<char>, i: int) -> Option<Seq<char>> {
    let a = text::run(s, i, CharSet::AsciiSpace);
    if text::occurs(text::lower(s), a, "if not exists"@) {
        sql_name(s, text::run(s, a + "if not exists"@.len(), CharSet::AsciiSpace))
    } else {
        sql_name(s, a)
    }
}

pub open spec fn ddl_at(s: Seq<char>, verb: Seq<char>) -> spec_fn(int) -> Seq<Seq<char>> {
    |i: int| seqs::opt_seq(ddl_table(s, i + verb.len()))
}

/// The tables that the statements with the given verb define, in any letter case.
pub open spec fn ddl_tables(s: Seq<char>, verb: Seq<char>) -> Seq<Seq<char>> {
    seqs::each(text::hits(text::lower(s), verb, 0), ddl_at(s, verb))
}

/// The tables that the statements with the given verb define.
fn defined_tables(s: &[char], low: &[char], verb: &str) -> (r: Vec<String>)
    requires
        low@ == text::lower(s@),
    ensures
        seqs::views(r@) == ddl_tables(s@, verb@),
{
    let places = text::occurrences(low, verb);
    let n = text::length_of(verb);
    let ghost ks = text::hits(low@, verb@, 0);
    let mut out: Vec<String> = Vec::new();
    let mut k: usize = 0;
    while k < places.len()
        invariant
            n == verb@.len(),
            k <= places@.len(),
            low@ == text::lower(s@),
            ks == text::hits(low@, verb@, 0),
            text::are_hits(low@, verb@, places@),
            seqs::views(out@) + seqs::each_from(ks, k as int, ddl_at(s@, verb@)) == ddl_tables(s@, verb@),
        decreases places@.len() - k,
    {
        assert(ks[k as int] == places@[k as int]);
        let mut a: usize = text::skip(s, places[k] + n, CharSet::AsciiSpace);
        if text::stands(low, a, "if not exists") {
            a = text::skip(s, a + text::length_of("if not exists"), CharSet::AsciiSpace);
        }
        if let Some(name) = read_table_name(s, a) {
            out.push(name);
        }
        k += 1;
    }
    out
}

/// The tables that a Dolibarr SQL install file creates and alters.
pub open spec fn ddl_links(rel: Seq<char>, s: Seq<char>) -> FoundView {
    model::linked("table:"@, "table"@, rel, "migrates"@, ddl_tables(s, "create table"@)).plus(
        model::linked("table:"@, "table"@, rel, "migrates"@, ddl_tables(s, "alter table"@)),
    )
}

/// Dolibarr SQL install files (`sql/llx_*.sql`, `.key.sql`): a `CREATE TABLE` or
/// `ALTER TABLE llx_<name>` (case-insensitive) mints/links the shared
/// `table:<name>` node via a `migrates` edge, joining the DDL to the object and
/// raw-SQL usages -- the Dolibarr analog of a Laravel migration. The `llx_`
/// prefix is stripped; a dynamic/quoted name is skipped.
pub fn scan_sql_ddl(rel: &str, code: &str, nodes: &mut Vec<Node>, edges: &mut Vec<RawEdge>)
    ensures
        model::appended(
            old(nodes)@,
            old(edges)@,
            final(nodes)@,
            final(edges)@,
            ddl_links(rel@, code@).deduped(),
        ),
{
    let s = chars_of(code);
    let low = text::to_lower(&s);
    let created = defined_tables(&s, &low, "create table");
    let altered = defined_tables(&s, &low, "alter table");
    let mut out = link_all("table:", "table", rel, "migrates", &created);
    out.add_all(link_all("table:", "table", rel, "migrates", &altered));
    out.emit(nodes, edges);
}

/// The translation key that a line of a language file defines.
pub open spec fn lang_key(line: Seq<char>) -> Option<Seq<char>> {
    let l = text::trimmed(line, CharSet::Space);
    let e = text::seek(l, 0, CharSet::One('='));
    let key = text::trimmed(l.subrange(0, e), CharSet::Space);
    if l.len() == 0 || l[0] == '#' || e >= l.len() || key.len() == 0 || !text::all_in(key, CharSet::Dotted) {
        None
    } else {
        Some(key)
    }
}

pub open spec fn lang_edge(rel: Seq<char>) -> spec_fn(Seq<char>) -> Seq<EdgeView> {
    |line: Seq<char>|
        match lang_key(line) {
            Some(k) => seq![model::named_edge(rel, "uses-lang"@, k)],
            None => Seq::empty(),
        }
}

/// A Dolibarr `langs/<locale>/<domain>.lang` file: each `Key = Value` line
/// defines a translation key. Emitted as `uses-lang` edges so the key index
/// (`lang.json`, read by the `uses` verb) records where a key is defined, next
/// to where it is used. `#`-comment and blank lines are ignored.
pub fn scan_lang_file(rel: &str, code: &str) -> (r: Vec<RawEdge>)
    ensures
        seqs::views(r@) == seqs::each(text::lines(code@), lang_edge(rel@)),
{
    let s = chars_of(code);
    let lines = text::split_lines(&s);
    let ghost all = seqs::views(lines@);
    let mut out: Vec<RawEdge> = Vec::new();
    let mut k: usize = 0;
    while k < lines.len()
        invariant
            k <= lines@.len(),
            all == seqs::views(lines@),
            seqs::views(out@) + seqs::each_from(all, k as int, lang_edge(rel@)) == seqs::each(
                all,
                lang_edge(rel@),
            ),
        decreases lines@.len() - k,
    {
        assert(all[k as int] == lines@[k as int]@);
        let l = text::trim(lines[k], CharSet::Space);
        if l.len() > 0 && l[0] != '#' {
            let e = text::look(l, 0, CharSet::One('='));
            if e < l.len() {
                let key = text::trim(slice_subrange(l, 0, e), CharSet::Space);
                if key.len() > 0 && text::is_all(key, CharSet::Dotted) {
                    out.push(RawEdge::named(rel.to_string(), "uses-lang", string_of(key)));
                }
            }
        }
        k += 1;
    }
    out
}

} // verus!
