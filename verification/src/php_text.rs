//! What the text of a PHP file says of tables, routes, tests and templates.

use vstd::prelude::*;

use crate::dolibarr;
use crate::laravel;
use crate::model;
use crate::model::{EdgeView, FoundView};
use crate::paths;
use crate::php;
use crate::reading;
use crate::reading::{begins_word, ends_word, in_word, is_plain, quotes, reads};
use crate::scan;
use crate::seqs;
use crate::syntax::TreeView;
use crate::text;
use crate::text::CharSet;

verus! {

proof fn lemma_text(rel: Seq<char>, base: Seq<char>, code: Seq<char>, tree: TreeView, e: EdgeView)
    requires
        laravel::tables(rel, code).edges.contains(e) || laravel::sql_tables(rel, code).edges.contains(e)
            || laravel::filled_tables(rel, code).contains(e) || laravel::routes(rel, code).edges.contains(e)
            || laravel::attribute_routes(rel, code).edges.contains(e) || php::coverage(rel, code).contains(e)
            || model::linked(
            "twigfn:"@,
            "twig-function"@,
            rel,
            "defines-fn"@,
            php::twig_names(code),
        ).edges.contains(e),
    ensures
        php::extracted_from(rel, base, code, tree).edges.contains(e),
{
    reveal(php::text_found);
    let none = Seq::<model::NodeView>::empty();
    let a = laravel::tables(rel, code).deduped();
    let b = a.plus(laravel::sql_tables(rel, code).deduped());
    let c = b.plus((FoundView { nodes: none, edges: laravel::filled_tables(rel, code) }));
    let d = c.plus(laravel::routes(rel, code).deduped());
    let f = d.plus(laravel::attribute_routes(rel, code).deduped());
    let g = f.plus((FoundView { nodes: none, edges: php::coverage(rel, code) }));
    let twig = model::linked("twigfn:"@, "twig-function"@, rel, "defines-fn"@, php::twig_names(code)).deduped();
    let h = g.plus(twig);
    let k = h.plus(dolibarr::links(rel, base, code));
    if a.edges.contains(e) || laravel::sql_tables(rel, code).edges.contains(e) {
        reading::lemma_behind(a.edges, laravel::sql_tables(rel, code).edges, e);
    }
    if b.edges.contains(e) || laravel::filled_tables(rel, code).contains(e) {
        reading::lemma_behind(b.edges, laravel::filled_tables(rel, code), e);
    }
    if c.edges.contains(e) || laravel::routes(rel, code).edges.contains(e) {
        reading::lemma_behind(c.edges, laravel::routes(rel, code).edges, e);
    }
    if d.edges.contains(e) || laravel::attribute_routes(rel, code).edges.contains(e) {
        reading::lemma_behind(d.edges, laravel::attribute_routes(rel, code).edges, e);
    }
    if f.edges.contains(e) || php::coverage(rel, code).contains(e) {
        reading::lemma_behind(f.edges, php::coverage(rel, code), e);
    }
    reading::lemma_behind(g.edges, twig.edges, e);
    reading::lemma_behind(h.edges, dolibarr::links(rel, base, code).edges, e);
    reading::lemma_behind(k.edges, crate::lang::lang_edges(rel, code), e);
    reading::lemma_behind(
        php::tree_found(rel, base, code, tree).edges,
        php::text_found(rel, base, code).edges,
        e,
    );
}

/// A call that takes the name of a table, and the relation of its file to the table.
pub open spec fn is_table_call(call: Seq<char>, relation: Seq<char>) -> bool {
    ||| call == "Schema::create"@ && relation == "migrates"@
    ||| call == "Schema::table"@ && relation == "migrates"@
    ||| call == "Schema::rename"@ && relation == "migrates"@
    ||| call == "Schema::drop"@ && relation == "migrates"@
    ||| call == "Schema::dropIfExists"@ && relation == "migrates"@
    ||| call == "DB::table"@ && relation == "uses-table"@
}

proof fn lemma_table_calls(call: Seq<char>, relation: Seq<char>)
    requires
        is_table_call(call, relation),
    ensures
        reading::begins_once(call),
{
    reveal_strlit("Schema::create");
    reveal_strlit("Schema::table");
    reveal_strlit("Schema::rename");
    reveal_strlit("Schema::drop");
    reveal_strlit("Schema::dropIfExists");
    reveal_strlit("DB::table");
}

/// A file that hands the name of a table to one of the schema's calls migrates the
/// table; one that hands it to the query builder uses the table.
pub proof fn a_table_call_links_its_table(
    rel: Seq<char>,
    base: Seq<char>,
    code: Seq<char>,
    tree: TreeView,
    i: int,
    call: Seq<char>,
    relation: Seq<char>,
    name: Seq<char>,
)
    requires
        is_table_call(call, relation),
        begins_word(code, i),
        reads(code, i, call),
        reads(code, i + call.len(), "("@),
        quotes(code, i + call.len() + 1, name),
    ensures
        php::extracted_from(rel, base, code, tree).edges.contains(model::named_edge(rel, relation, name)),
{
    lemma_table_calls(call, relation);
    reveal_strlit("(");
    reading::every_occurrence_is_hit(code, call, 0, i);
    let o = i + call.len();
    assert("("@[0] == '(');
    assert(code[o + 0] == '(');
    reading::lemma_quoted(code, o + 1, name);
    reading::lemma_run_to(code, o, o, CharSet::AsciiSpace);
    reading::lemma_run_to(code, o + 1, o + 1, CharSet::AsciiSpace);
    assert(laravel::table_argument(code, o) == Some(name));
    let one = laravel::table_call(code, call)(i);
    assert(one == seqs::opt_seq(Some(name)));
    assert(one[0] == name);
    reading::lemma_given(text::hits(code, call, 0), laravel::table_call(code, call), i, name);
    let e = model::named_edge(rel, relation, name);
    reading::lemma_linked("table:"@, "table"@, rel, relation, laravel::table_refs(code, call), name);
    assert(laravel::table_links(rel, code, call, relation).edges.contains(e));
    let a = laravel::table_links(rel, code, "Schema::create"@, "migrates"@);
    let b = laravel::table_links(rel, code, "Schema::table"@, "migrates"@);
    let c = laravel::table_links(rel, code, "Schema::rename"@, "migrates"@);
    let d = laravel::table_links(rel, code, "Schema::drop"@, "migrates"@);
    let f = laravel::table_links(rel, code, "Schema::dropIfExists"@, "migrates"@);
    let g = laravel::table_links(rel, code, "DB::table"@, "uses-table"@);
    let ab = a.plus(b);
    let abc = ab.plus(c);
    let abcd = abc.plus(d);
    let abcdf = abcd.plus(f);
    if a.edges.contains(e) || b.edges.contains(e) {
        reading::lemma_behind(a.edges, b.edges, e);
    }
    if ab.edges.contains(e) || c.edges.contains(e) {
        reading::lemma_behind(ab.edges, c.edges, e);
    }
    if abc.edges.contains(e) || d.edges.contains(e) {
        reading::lemma_behind(abc.edges, d.edges, e);
    }
    if abcd.edges.contains(e) || f.edges.contains(e) {
        reading::lemma_behind(abcd.edges, f.edges, e);
    }
    reading::lemma_behind(abcdf.edges, g.edges, e);
    lemma_text(rel, base, code, tree, e);
}

/// A keyword of a query that the name of a table follows.
pub open spec fn is_query_word(verb: Seq<char>) -> bool {
    verb == "FROM"@ || verb == "JOIN"@ || verb == "INTO"@ || verb == "UPDATE"@
}

/// A file uses each table that a query in it names behind `FROM`, `JOIN`, `INTO`, or
/// a leading `UPDATE`.
pub proof fn a_query_uses_its_tables(
    rel: Seq<char>,
    base: Seq<char>,
    code: Seq<char>,
    tree: TreeView,
    i: int,
    verb: Seq<char>,
    name: Seq<char>,
)
    requires
        is_query_word(verb),
        begins_word(code, i),
        verb == "UPDATE"@ ==> i == 0 || code[i - 1] == '"',
        reads(code, i, verb),
        reads(code, i + verb.len(), " "@),
        reads(code, i + verb.len() + 1, name),
        ends_word(code, i + verb.len() + 1 + name.len()),
        is_plain(name),
        !('0' <= name[0] && name[0] <= '9'),
        !reads(name, 0, "llx_"@),
    ensures
        php::extracted_from(rel, base, code, tree).edges.contains(model::named_edge(rel, "uses-table"@, name)),
{
    reveal_strlit("FROM");
    reveal_strlit("JOIN");
    reveal_strlit("INTO");
    reveal_strlit("UPDATE");
    reveal_strlit("KEY");
    reveal_strlit("ON");
    reveal_strlit(" ");
    reading::every_occurrence_is_hit(code, verb, 0, i);
    let o = i + verb.len();
    let a = o + 1;
    let z = a + name.len();
    assert(" "@[0] == ' ');
    assert(code[o + 0] == ' ');
    assert(code[a + 0] == name[0]);
    reading::lemma_run_to(code, o, a, CharSet::AsciiSpace);
    assert(laravel::past_prefix(code, a) == a);
    assert forall|m: int| a <= m < z implies CharSet::Word.has(#[trigger] code[m]) by {
        assert(code[a + (m - a)] == name[m - a]);
        assert(in_word(name[m - a]));
    }
    reading::lemma_run_to(code, a, z, CharSet::Word);
    reading::lemma_reads(code, a, name);
    reading::lemma_reads(name, 0, "llx_"@);
    assert(dolibarr::bare_table(name) == name);
    assert(dolibarr::sql_name(code, a) == Some(name)) by {
        assert(in_word(name[0]));
    }
    if verb == "UPDATE"@ {
        reading::lemma_run_from(code, i, i, CharSet::AsciiSpace);
        reading::lemma_run_from(code, i, i, CharSet::Word);
        assert(laravel::keyword_before(code, i).len() == 0);
    }
    assert(laravel::sql_table(code, verb, i) == Some(name));
    let one = laravel::sql_table_of(code, verb)(i);
    assert(one[0] == name);
    reading::lemma_given(text::hits(code, verb, 0), laravel::sql_table_of(code, verb), i, name);
    let f = laravel::sql_refs(code, "FROM"@);
    let j = laravel::sql_refs(code, "JOIN"@);
    let n = laravel::sql_refs(code, "INTO"@);
    let u = laravel::sql_refs(code, "UPDATE"@);
    if n.contains(name) || u.contains(name) {
        reading::lemma_behind(n, u, name);
    }
    if j.contains(name) || (n + u).contains(name) {
        reading::lemma_behind(j, n + u, name);
    }
    reading::lemma_behind(f, j + (n + u), name);
    reading::lemma_linked("table:"@, "table"@, rel, "uses-table"@, f + (j + (n + u)), name);
    lemma_text(rel, base, code, tree, model::named_edge(rel, "uses-table"@, name));
}

/// A method of the router that wires a single controller.
pub open spec fn is_verb(m: Seq<char>) -> bool {
    ||| m == "get"@
    ||| m == "post"@
    ||| m == "put"@
    ||| m == "patch"@
    ||| m == "delete"@
    ||| m == "any"@
    ||| m == "options"@
    ||| m == "match"@
    ||| m == "controller"@
}

/// A method of the router that wires a controller to all actions of a resource.
pub open spec fn is_resource(m: Seq<char>) -> bool {
    ||| m == "resource"@
    ||| m == "apiResource"@
    ||| m == "resources"@
    ||| m == "apiResources"@
    ||| m == "singleton"@
    ||| m == "apiSingleton"@
}

proof fn lemma_router_methods(m: Seq<char>)
    requires
        is_verb(m) || is_resource(m),
    ensures
        is_plain(m),
        is_verb(m) ==> laravel::is_route_method(m) && !laravel::is_resource_method(m),
        is_resource(m) ==> laravel::is_resource_method(m),
{
    reveal_strlit("get");
    reveal_strlit("post");
    reveal_strlit("put");
    reveal_strlit("patch");
    reveal_strlit("delete");
    reveal_strlit("any");
    reveal_strlit("options");
    reveal_strlit("match");
    reveal_strlit("controller");
    reveal_strlit("resource");
    reveal_strlit("apiResource");
    reveal_strlit("resources");
    reveal_strlit("apiResources");
    reveal_strlit("singleton");
    reveal_strlit("apiSingleton");
    if is_verb(m) {
        assert(m.len() <= 7 || m == "controller"@);
        assert(m == "controller"@ ==> m.len() == 10 && m[0] == 'c');
        assert(laravel::is_resource_method(m) ==> m.len() >= 8 && (m[0] == 'r' || m[0] == 'a' || m[0] == 's'));
    }
}

/// Nothing in `s` marks a string or nests.
pub open spec fn is_flat(s: Seq<char>) -> bool {
    forall|k: int|
        0 <= k < s.len() ==> #[trigger] s[k] != '(' && s[k] != ')' && s[k] != '\'' && s[k] != '"'
}

/// The arguments of a route: its path in quotes, a comma, and a class constant, with
/// flat text before it and behind.
pub open spec fn binds(args: Seq<char>, path: Seq<char>, lead: Seq<char>, class: Seq<char>, rest: Seq<char>) -> bool {
    let a: int = path.len() as int + 2;
    let b: int = a + lead.len();
    let c: int = b + class.len();
    let d: int = c + 7;
    &&& args.len() == d + rest.len()
    &&& quotes(args, 0, path)
    &&& reads(args, a, lead)
    &&& reads(args, b, class)
    &&& reads(args, c, "::class"@)
    &&& reads(args, d, rest)
    &&& lead.len() > 0 && lead[0] == ',' && !in_word(lead.last()) && lead.last() != '\\'
    &&& is_flat(lead)
    &&& is_flat(rest)
    &&& is_plain(class)
    &&& class != "Controller"@
    &&& forall|k: int| 0 <= k < path.len() ==> #[trigger] path[k] != ':'
    &&& forall|k: int| 0 <= k < lead.len() ==> #[trigger] lead[k] != ':'
    &&& forall|k: int| 0 <= k < rest.len() ==> #[trigger] rest[k] != ':'
}

proof fn lemma_binds(args: Seq<char>, path: Seq<char>, lead: Seq<char>, class: Seq<char>, rest: Seq<char>)
    requires
        binds(args, path, lead, class, rest),
    ensures
        ({
            let c = path.len() as int + 2 + lead.len() + class.len();
            &&& forall|m: int| path.len() + 2 <= m < args.len() ==> #[trigger] args[m] != '(' && args[m] != ')'
                && args[m] != '\'' && args[m] != '"'
            &&& forall|m: int| 0 <= m < args.len() && #[trigger] args[m] == ':' ==> m == c || m == c + 1
            &&& reads(args, c, "::class"@)
        }),
        laravel::leading_literal(args) == Some(path),
        laravel::first_class(args) == Some(class),
        laravel::class_consts(args) == seq![class],
{
    reveal_strlit("::class");
    let word = "::class"@;
    assert(word[0] == ':' && word[1] == ':' && word[2] == 'c' && word[3] == 'l' && word[4] == 'a' && word[5]
        == 's' && word[6] == 's');
    let a: int = path.len() as int + 2;
    let b: int = a + lead.len();
    let c: int = b + class.len();
    let d: int = c + 7;
    assert forall|m: int| a <= m < args.len() implies #[trigger] args[m] != '(' && args[m] != ')' && args[m]
        != '\'' && args[m] != '"' by {
        if m < b {
            assert(args[a + (m - a)] == lead[m - a]);
        } else if m < c {
            assert(args[b + (m - b)] == class[m - b]);
            assert(in_word(class[m - b]));
        } else if m < d {
            assert(args[c + (m - c)] == word[m - c]);
        } else {
            assert(args[d + (m - d)] == rest[m - d]);
        }
    }
    assert forall|m: int| 0 <= m < args.len() && #[trigger] args[m] == ':' implies m == c || m == c + 1 by {
        if m == 0 || m == a - 1 {
        } else if m < a {
            assert(args[1 + (m - 1)] == path[m - 1]);
        } else if m < b {
            assert(args[a + (m - a)] == lead[m - a]);
        } else if m < c {
            assert(args[b + (m - b)] == class[m - b]);
            assert(in_word(class[m - b]));
        } else if m < d {
            assert(args[c + (m - c)] == word[m - c]);
        } else {
            assert(args[d + (m - d)] == rest[m - d]);
        }
    }
    assert(args[a + 0] == lead[0]);
    reading::lemma_quoted(args, 0, path);
    reading::lemma_run_to(args, 0, 0, CharSet::Space);
    reading::lemma_run_to(args, a, a, CharSet::Space);
    assert(args.subrange(1, 1 + path.len() as int) == path);
    assert forall|j: int| 0 <= j && j != c implies !#[trigger] reads(args, j, word) by {
        if reads(args, j, word) {
            assert(args[j + 0] == word[0]);
            assert(args[j + 1] == word[1]);
        }
    }
    reading::lemma_first_hit(args, word, 0, c);
    reading::lemma_reads(args, c, word);
    text::lemma_find(args, word, 0);
    let at = text::find(args, word, 0);
    assert(at == c) by {
        reading::lemma_reads(args, at, word);
    }
    assert(args[b - 1] == lead.last()) by {
        assert(args[a + (lead.len() - 1)] == lead[lead.len() - 1]);
    }
    assert forall|m: int| b <= m < c implies CharSet::Qualified.has(#[trigger] args[m]) by {
        assert(args[b + (m - b)] == class[m - b]);
        assert(in_word(class[m - b]));
    }
    reading::lemma_run_from(args, b, c, CharSet::Qualified);
    reading::lemma_reads(args, b, class);
    lemma_bare(class);
    assert(laravel::class_const(args, c) == Some(class));
    lemma_one_hit(args, word, 0, c);
    let f = laravel::class_const_of(args);
    assert(f(c) =~= seq![class]);
    assert(text::hits(args, word, 0) =~= seq![c]);
    assert(seqs::each_from(seq![c], 1, f) =~= Seq::<Seq<char>>::empty());
    assert(seqs::each_from(seq![c], 0, f) =~= f(c) + seqs::each_from(seq![c], 1, f));
}

proof fn lemma_unmarked(s: Seq<char>, j: int, c: char)
    requires
        0 <= j <= s.len(),
        forall|m: int| 0 <= m < j ==> !CharSet::One(c).has(#[trigger] s[m]),
    ensures
        text::seek_back(s, j, CharSet::One(c)) == 0,
    decreases j,
{
    if j > 0 {
        lemma_unmarked(s, j - 1, c);
    }
}

proof fn lemma_one_hit(s: Seq<char>, p: Seq<char>, from: int, i: int)
    requires
        0 <= from <= i,
        p.len() > 0,
        reads(s, i, p),
        forall|j: int| 0 <= j && j != i ==> !#[trigger] reads(s, j, p),
    ensures
        text::hits(s, p, from) == seq![i],
    decreases i - from,
{
    reading::lemma_reads(s, from, p);
    if from < i {
        assert(!reads(s, from, p));
        lemma_one_hit(s, p, from + 1, i);
    } else {
        reading::lemma_no_hit(s, p, i + p.len() as int);
        assert(seq![i] + text::hits(s, p, i + p.len()) =~= seq![i]);
    }
}

/// What a route of `path` to `class` in the file `rel` records: that the class serves
/// the route, and that the file routes to the class.
pub open spec fn is_served(found: FoundView, rel: Seq<char>, path: Seq<char>, class: Seq<char>) -> bool {
    let at = if path.len() > 0 && path[0] == '/' {
        path
    } else {
        "/"@ + path
    };
    &&& found.edges.contains(model::named_edge("route:"@ + at, "serves"@, class))
    &&& found.edges.contains(model::named_edge(rel, "routes-to"@, class))
}

/// A route of a route file: its controller serves it, and the file routes to the
/// controller.
pub proof fn a_route_is_served_by_its_controller(
    rel: Seq<char>,
    base: Seq<char>,
    code: Seq<char>,
    tree: TreeView,
    i: int,
    method: Seq<char>,
    args: Seq<char>,
    path: Seq<char>,
    lead: Seq<char>,
    class: Seq<char>,
    rest: Seq<char>,
)
    requires
        is_verb(method) || is_resource(method),
        binds(args, path, lead, class, rest),
        begins_word(code, i),
        reads(code, i, "Route::"@),
        reads(code, i + 7, method),
        reads(code, i + 7 + method.len(), "("@),
        reads(code, i + 8 + method.len(), args),
        reads(code, i + 8 + method.len() + args.len(), ")"@),
    ensures
        is_served(php::extracted_from(rel, base, code, tree), rel, path, class),
{
    reveal_strlit("Route::");
    reveal_strlit("(");
    reveal_strlit(")");
    lemma_router_methods(method);
    lemma_binds(args, path, lead, class, rest);
    reading::every_occurrence_is_hit(code, "Route::"@, 0, i);
    let a = i + 7;
    let o = a + method.len();
    let b = o + 1;
    let c = b + args.len();
    assert("("@[0] == '(' && ")"@[0] == ')');
    assert(code[o + 0] == '(');
    assert(code[c + 0] == ')');
    assert forall|m: int| a <= m < o implies CharSet::Word.has(#[trigger] code[m]) by {
        assert(code[a + (m - a)] == method[m - a]);
        assert(in_word(method[m - a]));
    }
    reading::lemma_run_to(code, a, o, CharSet::Word);
    reading::lemma_run_to(code, o, o, CharSet::AsciiSpace);
    reading::lemma_reads(code, a, method);
    reading::lemma_reads(code, b, args);
    let p = b + path.len() + 2;
    assert(quotes(code, b, path)) by {
        assert(code[b + 0] == args[0]);
        assert(code[b + (path.len() + 1)] == args[path.len() as int + 1]);
        assert forall|k: int| 0 <= k < path.len() implies code[b + 1 + k] == #[trigger] path[k] by {
            assert(args[1 + k] == path[k]);
            assert(code[b + (1 + k)] == args[1 + k]);
        }
    }
    reading::lemma_over_quoted(code, b, path, 1, '(', ')');
    assert forall|m: int| p <= m < c implies #[trigger] code[m] != '(' && code[m] != ')' && !CharSet::Quote.has(
        code[m],
    ) by {
        assert(code[b + (m - b)] == args[m - b]);
    }
    reading::lemma_over_plain(code, p, c, 1, '(', ')', CharSet::Quote);
    assert(scan::partner(code, o, '(', ')', CharSet::Quote) == c);
    let found = laravel::route_at(rel, code, i);
    assert(found == laravel::route_call(rel, method, args));
    let served = laravel::served(rel, path, class);
    let at = laravel::normal_route(path);
    let e = model::named_edge("route:"@ + at, "serves"@, class);
    let f = model::named_edge(rel, "routes-to"@, class);
    let wire = laravel::controller_edge(rel);
    assert(served.edges[0] == e);
    assert(wire(class).edges[0] == f);
    if is_resource(method) {
        let classes = laravel::class_consts(args);
        assert(classes.skip(0)[0] == class);
        reading::lemma_found_each(classes, 0, wire, class);
        reading::lemma_behind(served.edges, model::found_each(classes, wire).edges, e);
        reading::lemma_behind(served.edges, model::found_each(classes, wire).edges, f);
    } else {
        reading::lemma_behind(served.edges, wire(class).edges, e);
        reading::lemma_behind(served.edges, wire(class).edges, f);
    }
    assert(laravel::route_of(rel, code)(i) == found);
    let all = text::hits(code, "Route::"@, 0);
    assert(all.skip(0) =~= all);
    reading::lemma_found_each(all, 0, laravel::route_of(rel, code), i);
    lemma_text(rel, base, code, tree, e);
    lemma_text(rel, base, code, tree, f);
}

/// The first class of a file: a `class` behind which its name stands, and before
/// which there is none.
pub open spec fn declares_first(code: Seq<char>, j: int, class: Seq<char>) -> bool {
    &&& begins_word(code, j)
    &&& reads(code, j, "class"@)
    &&& reads(code, j + 5, " "@)
    &&& reads(code, j + 6, class)
    &&& is_plain(class)
    &&& ends_word(code, j + 6 + class.len())
    &&& forall|k: int| 0 <= k < j ==> !#[trigger] reads(code, k, "class"@)
}

proof fn lemma_file_class(code: Seq<char>, j: int, class: Seq<char>)
    requires
        declares_first(code, j, class),
    ensures
        laravel::file_class(code) == Some(class),
{
    reveal_strlit("class");
    reveal_strlit(" ");
    reading::lemma_first_hit(code, "class"@, 0, j);
    assert(" "@[0] == ' ');
    assert(code[j + 5 + 0] == ' ');
    assert(code[j + 6 + 0] == class[0]);
    assert(in_word(class[0]));
    reading::lemma_run_to(code, j + 5, j + 6, CharSet::AsciiSpace);
    let z = j + 6 + class.len();
    assert forall|m: int| j + 6 <= m < z implies CharSet::Word.has(#[trigger] code[m]) by {
        assert(code[j + 6 + (m - j - 6)] == class[m - j - 6]);
        assert(in_word(class[m - j - 6]));
    }
    reading::lemma_run_to(code, j + 6, z, CharSet::Word);
    reading::lemma_reads(code, j + 6, class);
    assert(laravel::declared_class(code, j) == Some(class));
    assert(laravel::declared_class_of(code)(j) == Some(class));
}

/// An attribute that takes the path of a route.
pub open spec fn is_route_attribute(a: Seq<char>) -> bool {
    ||| a == "Route"@
    ||| a == "Get"@
    ||| a == "Post"@
    ||| a == "Put"@
    ||| a == "Patch"@
    ||| a == "Delete"@
    ||| a == "Options"@
    ||| a == "Any"@
}

proof fn lemma_route_attributes(a: Seq<char>)
    requires
        is_route_attribute(a),
    ensures
        is_plain(a),
        laravel::is_route_attr(a),
{
    reveal_strlit("Route");
    reveal_strlit("Get");
    reveal_strlit("Post");
    reveal_strlit("Put");
    reveal_strlit("Patch");
    reveal_strlit("Delete");
    reveal_strlit("Options");
    reveal_strlit("Any");
}

/// The class of a file serves the route that an attribute in it names.
pub proof fn a_route_attribute_is_served_by_its_class(
    rel: Seq<char>,
    base: Seq<char>,
    code: Seq<char>,
    tree: TreeView,
    i: int,
    attr: Seq<char>,
    path: Seq<char>,
    j: int,
    class: Seq<char>,
)
    requires
        declares_first(code, j, class),
        is_route_attribute(attr),
        reads(code, i, "#["@),
        reads(code, i + 2, attr),
        reads(code, i + 2 + attr.len(), "("@),
        quotes(code, i + 3 + attr.len(), path),
        reads(code, i + 5 + attr.len() + path.len(), ")"@),
        forall|k: int| 0 <= k < path.len() ==> #[trigger] path[k] != ':',
        path.len() > 0 && path[0] == '/',
    ensures
        php::extracted_from(rel, base, code, tree).edges.contains(
            model::named_edge("route:"@ + path, "serves"@, class),
        ),
{
    reveal_strlit("#[");
    reveal_strlit("(");
    reveal_strlit(")");
    reveal_strlit("path");
    reveal_strlit(":");
    lemma_route_attributes(attr);
    lemma_file_class(code, j, class);
    reading::every_occurrence_is_hit(code, "#["@, 0, i);
    let a = i + 2;
    let o = a + attr.len();
    let b = o + 1;
    let c = b + path.len() + 2;
    assert("("@[0] == '(' && ")"@[0] == ')');
    assert(code[o + 0] == '(');
    assert(code[c + 0] == ')');
    assert(code[a + 0] == attr[0]);
    assert(in_word(attr[0]));
    assert forall|m: int| a <= m < o implies CharSet::Qualified.has(#[trigger] code[m]) by {
        assert(code[a + (m - a)] == attr[m - a]);
        assert(in_word(attr[m - a]));
    }
    reading::lemma_run_to(code, a, o, CharSet::Qualified);
    reading::lemma_run_to(code, o, o, CharSet::AsciiSpace);
    reading::lemma_reads(code, a, attr);
    reading::lemma_over_quoted(code, b, path, 1, '(', ')');
    assert(scan::partner(code, o, '(', ')', CharSet::Quote) == c);
    let args = code.subrange(b, c);
    assert(quotes(args, 0, path)) by {
        assert forall|k: int| 0 <= k < path.len() implies args[1 + k] == #[trigger] path[k] by {
            assert(code[b + 1 + k] == path[k]);
        }
    }
    reading::lemma_quoted(args, 0, path);
    reading::lemma_seek_to(args, 0, 0, CharSet::Quote);
    assert(args.subrange(1, 1 + path.len() as int) == path);
    assert(scan::literal(args, CharSet::Quote) == Some(path));
    let needle = "path"@ + ":"@;
    assert(needle[4] == ':');
    assert forall|k: int| 0 <= k implies !#[trigger] reads(args, k, needle) by {
        if reads(args, k, needle) {
            assert(args[k + 4] == needle[4]);
            assert(args[1 + (k + 3)] == path[k + 3]);
        }
    }
    reading::lemma_no_hit(args, needle, 0);
    assert(laravel::named_argument(args, "path"@) is None);
    assert(!text::some_in(attr, CharSet::One('\\'))) by {
        assert forall|k: int| 0 <= k < attr.len() implies !CharSet::One('\\').has(#[trigger] attr[k]) by {
            assert(in_word(attr[k]));
        }
    }
    assert(laravel::attribute_path(attr, args) == Some(path));
    let found = laravel::attribute_at(rel, class, code, i);
    assert(found == laravel::served(rel, path, class));
    let e = model::named_edge("route:"@ + path, "serves"@, class);
    assert(found.edges[0] == e);
    let f = laravel::attribute_of(rel, class, code);
    assert(f(i) == found);
    let all = text::hits(code, "#["@, 0);
    assert(all.skip(0) =~= all);
    reading::lemma_found_each(all, 0, f, i);
    lemma_text(rel, base, code, tree, e);
}

proof fn lemma_fit(s: Seq<char>, i: int, j: int, n: int)
    requires
        0 <= i <= j <= s.len(),
        j - i <= n,
        forall|m: int| i <= m < j ==> (#[trigger] s[m] as u32) < 0x80,
    ensures
        j <= text::fit(s, i, n) <= s.len(),
    decreases s.len() - i,
{
    if i < j {
        lemma_fit(s, i + 1, j, n - 1);
    } else {
        lemma_fit_within(s, i, n);
    }
}

proof fn lemma_fit_within(s: Seq<char>, i: int, n: int)
    requires
        0 <= i <= s.len(),
    ensures
        i <= text::fit(s, i, n) <= s.len(),
    decreases s.len() - i,
{
    if i < s.len() && text::width(s[i]) <= n {
        lemma_fit_within(s, i + 1, n - text::width(s[i]));
    }
}

/// A call or a constructor by which code registers a function or a filter.
pub open spec fn is_registration(call: Seq<char>) -> bool {
    call == "TwigFunction("@ || call == "TwigFilter("@ || call == "addFunction("@ || call == "addFilter("@
}

/// A file defines each template function or filter whose name it registers.
pub proof fn a_registered_name_is_defined(
    rel: Seq<char>,
    base: Seq<char>,
    code: Seq<char>,
    tree: TreeView,
    i: int,
    call: Seq<char>,
    name: Seq<char>,
)
    requires
        is_registration(call),
        reads(code, i, call),
        quotes(code, i + call.len(), name),
        is_plain(name),
        name.len() <= 100,
    ensures
        php::extracted_from(rel, base, code, tree).edges.contains(model::named_edge(rel, "defines-fn"@, name)),
{
    reveal_strlit("TwigFunction(");
    reveal_strlit("TwigFilter(");
    reveal_strlit("addFunction(");
    reveal_strlit("addFilter(");
    reading::every_occurrence_is_hit(code, call, 0, i);
    let a = i + call.len();
    let z = a + name.len() + 2;
    assert forall|m: int| a <= m < z implies (#[trigger] code[m] as u32) < 0x80 by {
        if a < m < z - 1 {
            assert(code[a + 1 + (m - a - 1)] == name[m - a - 1]);
            assert(in_word(name[m - a - 1]));
        }
    }
    lemma_fit(code, a, z, php::REGISTRATION as int);
    let w = code.subrange(a, text::fit(code, a, php::REGISTRATION as int));
    assert(quotes(w, 0, name)) by {
        assert forall|k: int| 0 <= k < name.len() implies w[1 + k] == #[trigger] name[k] by {
            assert(code[a + 1 + k] == name[k]);
        }
    }
    reading::lemma_quoted(w, 0, name);
    reading::lemma_seek_to(w, 0, 0, CharSet::Quote);
    assert(w.subrange(1, 1 + name.len() as int) == name);
    let f = php::registered(code, call.len() as int);
    assert(f(i) == seqs::opt_seq(Some(name)));
    assert(f(i)[0] == name);
    reading::lemma_given(text::hits(code, call, 0), f, i, name);
    let p = php::registrations(code, "TwigFunction("@);
    let q = php::registrations(code, "TwigFilter("@);
    let r = php::registrations(code, "addFunction("@);
    let t = php::registrations(code, "addFilter("@);
    if r.contains(name) || t.contains(name) {
        reading::lemma_behind(r, t, name);
    }
    if q.contains(name) || (r + t).contains(name) {
        reading::lemma_behind(q, r + t, name);
    }
    reading::lemma_behind(p, q + (r + t), name);
    reading::lemma_linked("twigfn:"@, "twig-function"@, rel, "defines-fn"@, php::twig_names(code), name);
    lemma_text(rel, base, code, tree, model::named_edge(rel, "defines-fn"@, name));
}

/// An attribute by which a test says what it covers.
pub open spec fn is_coverage_attribute(tag: Seq<char>) -> bool {
    tag == "#[CoversClass"@ || tag == "#[CoversFunction"@ || tag == "#[CoversMethod"@
}

/// A test covers the class whose constant a coverage attribute holds.
pub proof fn a_coverage_attribute_names_its_class(
    rel: Seq<char>,
    base: Seq<char>,
    code: Seq<char>,
    tree: TreeView,
    i: int,
    tag: Seq<char>,
    class: Seq<char>,
)
    requires
        is_coverage_attribute(tag),
        reads(code, i, tag),
        reads(code, i + tag.len(), "("@),
        reads(code, i + tag.len() + 1, class),
        reads(code, i + tag.len() + 1 + class.len(), "::class)"@),
        is_plain(class),
        class.len() <= 200,
    ensures
        php::extracted_from(rel, base, code, tree).edges.contains(model::named_edge(rel, "covers"@, class)),
{
    reveal_strlit("#[CoversClass");
    reveal_strlit("#[CoversFunction");
    reveal_strlit("#[CoversMethod");
    reveal_strlit("(");
    reveal_strlit("::class)");
    reveal_strlit("::class");
    reading::every_occurrence_is_hit(code, tag, 0, i);
    let n = tag.len() as int;
    let b = i + n + 1;
    let c = b + class.len();
    let z = c + 8;
    let tail = "::class)"@;
    let word = "::class"@;
    assert("("@[0] == '(');
    assert(code[i + n + 0] == '(');
    assert(tail[0] == ':' && tail[1] == ':' && tail[7] == ')' && word[0] == ':' && word[1] == ':');
    assert forall|m: int| i <= m < z implies (#[trigger] code[m] as u32) < 0x80 && (code[m] == ')' ==> m == z - 1)
        && (code[m] == ':' ==> m == c || m == c + 1) by {
        if m < i + n {
            assert(code[i + (m - i)] == tag[m - i]);
        } else if m < b {
        } else if m < c {
            assert(code[b + (m - b)] == class[m - b]);
            assert(in_word(class[m - b]));
        } else {
            assert(code[c + (m - c)] == tail[m - c]);
        }
    }
    lemma_fit(code, i, z, php::ATTRIBUTE as int);
    let w = code.subrange(i, text::fit(code, i, php::ATTRIBUTE as int));
    let e = z - 1 - i;
    assert(code[c + 7] == tail[7]);
    assert forall|m: int| 0 <= m < e implies !CharSet::One(')').has(#[trigger] w[m]) by {
        assert(w[m] == code[i + m]);
    }
    reading::lemma_seek_to(w, 0, e, CharSet::One(')'));
    let v = w.take(e);
    let k = c - i;
    assert(reads(v, k, word)) by {
        assert forall|m: int| 0 <= m < word.len() implies v[k + m] == #[trigger] word[m] by {
            assert(code[c + m] == tail[m]);
        }
    }
    assert forall|m: int| 0 <= m < k implies !#[trigger] reads(v, m, word) by {
        if reads(v, m, word) {
            assert(v[m + 0] == word[0]);
            assert(v[m] == code[i + m]);
        }
    }
    text::lemma_find(v, word, 0);
    reading::lemma_reads(v, k, word);
    let at = text::find(v, word, 0);
    reading::lemma_reads(v, at, word);
    assert(at == k);
    assert forall|m: int| n + 1 <= m < k implies CharSet::Qualified.has(#[trigger] v[m]) by {
        assert(v[m] == code[i + m]);
        assert(code[b + (m - n - 1)] == class[m - n - 1]);
        assert(in_word(class[m - n - 1]));
    }
    assert(v[n] == code[i + n]);
    reading::lemma_run_from(v, n + 1, k, CharSet::Qualified);
    assert(v.subrange(n + 1, k) =~= class) by {
        assert forall|m: int| 0 <= m < class.len() implies v[n + 1 + m] == class[m] by {
            assert(code[b + m] == class[m]);
        }
    }
    lemma_bare(class);
    assert(laravel::first_class(v) == Some(class));
    assert(php::is_name(class)) by {
        assert forall|m: int| 0 <= m < class.len() implies CharSet::Qualified.has(#[trigger] class[m]) by {
            assert(in_word(class[m]));
        }
    }
    assert(php::attribute_target(code, i) == Some(class));
    let edge = model::named_edge(rel, "covers"@, class);
    let f = php::attribute_edge(rel, code);
    assert(f(i)[0] == edge);
    reading::lemma_given(text::hits(code, tag, 0), f, i, edge);
    let p = php::attribute_edges(rel, code, "#[CoversClass"@);
    let q = php::attribute_edges(rel, code, "#[CoversFunction"@);
    let r = php::attribute_edges(rel, code, "#[CoversMethod"@);
    let d = php::docblock_edges(rel, code, "@covers "@) + php::docblock_edges(rel, code, "@coversDefaultClass "@);
    if r.contains(edge) {
        reading::lemma_behind(r, d, edge);
    }
    if q.contains(edge) || (r + d).contains(edge) {
        reading::lemma_behind(q, r + d, edge);
    }
    reading::lemma_behind(p, q + (r + d), edge);
    lemma_text(rel, base, code, tree, edge);
}

pub proof fn lemma_bare(class: Seq<char>)
    requires
        is_plain(class),
    ensures
        laravel::bare(class) == class,
{
    assert forall|m: int| 0 <= m < class.len() implies !CharSet::One('\\').has(#[trigger] class[m]) by {
        assert(in_word(class[m]));
    }
    lemma_unmarked(class, class.len() as int, '\\');
    assert(class.subrange(0, class.len() as int) =~= class);
}

/// A test covers the class that a docblock's tag names.
pub proof fn a_coverage_tag_names_its_class(
    rel: Seq<char>,
    base: Seq<char>,
    code: Seq<char>,
    tree: TreeView,
    i: int,
    tag: Seq<char>,
    class: Seq<char>,
)
    requires
        tag == "@covers "@ || tag == "@coversDefaultClass "@,
        reads(code, i, tag),
        reads(code, i + tag.len(), class),
        is_plain(class),
        ends_word(code, i + tag.len() + class.len()),
        i + tag.len() + class.len() < code.len() ==> code[i + tag.len() + class.len()] != '\\' && code[i + tag.len()
            + class.len()] != ':',
    ensures
        php::extracted_from(rel, base, code, tree).edges.contains(model::named_edge(rel, "covers"@, class)),
{
    reveal_strlit("@covers ");
    reveal_strlit("@coversDefaultClass ");
    reveal_strlit("::");
    reading::every_occurrence_is_hit(code, tag, 0, i);
    let a = i + tag.len();
    let z = a + class.len();
    assert forall|m: int| a <= m < z implies CharSet::Coverage.has(#[trigger] code[m]) by {
        assert(code[a + (m - a)] == class[m - a]);
        assert(in_word(class[m - a]));
    }
    reading::lemma_run_to(code, a, z, CharSet::Coverage);
    reading::lemma_reads(code, a, class);
    let k = text::find(class, "::"@, 0);
    text::lemma_find(class, "::"@, 0);
    if k < class.len() {
        reading::lemma_reads(class, k, "::"@);
        assert(class[k + 0] == "::"@[0]);
        assert(in_word(class[k]));
    }
    assert(class.take(class.len() as int) =~= class);
    assert(in_word(class[0]));
    reading::lemma_run_to(class, 0, 0, CharSet::One('\\'));
    assert(class.subrange(0, class.len() as int) =~= class);
    lemma_bare(class);
    assert(php::docblock_target(code, a) == class);
    let edge = model::named_edge(rel, "covers"@, class);
    let f = php::docblock_edge(rel, code, tag.len() as int);
    assert(f(i)[0] == edge);
    reading::lemma_given(text::hits(code, tag, 0), f, i, edge);
    let p = php::attribute_edges(rel, code, "#[CoversClass"@);
    let q = php::attribute_edges(rel, code, "#[CoversFunction"@);
    let r = php::attribute_edges(rel, code, "#[CoversMethod"@);
    let d = php::docblock_edges(rel, code, "@covers "@);
    let g = php::docblock_edges(rel, code, "@coversDefaultClass "@);
    reading::lemma_behind(d, g, edge);
    reading::lemma_behind(r, d + g, edge);
    reading::lemma_behind(q, r + (d + g), edge);
    reading::lemma_behind(p, q + (r + (d + g)), edge);
    lemma_text(rel, base, code, tree, edge);
}

/// A line of a documentation block that gives a variable its class.
pub open spec fn documents(line: Seq<char>, tag: Seq<char>, class: Seq<char>, v: Seq<char>) -> bool {
    &&& tag == "@param "@ || tag == "@var "@
    &&& is_plain(class) && 'A' <= class[0] && class[0] <= 'Z'
    &&& v.len() > 1 && v[0] == '$'
    &&& forall|k: int| 0 < k < v.len() ==> text::is_alphanumeric(#[trigger] v[k]) || v[k] == '_'
    &&& forall|k: int| 0 < k < v.len() ==> !text::is_space(#[trigger] v[k])
    &&& line == " * "@ + tag + (class + " "@ + v)
}

/// A documentation block gives each variable that it names the class that stands
/// before it.
pub proof fn a_documented_variable_is_of_its_class(
    doc: Seq<char>,
    line: Seq<char>,
    tag: Seq<char>,
    class: Seq<char>,
    v: Seq<char>,
)
    requires
        text::lines(doc).contains(line),
        documents(line, tag, class, v),
    ensures
        php::documented(doc).contains((v, class)),
{
    reveal_strlit(" * ");
    reveal_strlit("@param ");
    reveal_strlit("@var ");
    reveal_strlit(" ");
    let rest = class + " "@ + v;
    let l = tag + rest;
    let margin = " * "@;
    assert(margin[0] == ' ' && margin[1] == '*' && margin[2] == ' ');
    assert(tag[0] == '@' && tag[1] == (if tag == "@param "@ { 'p' } else { 'v' }));
    assert(line =~= margin + l);
    let n = line.len() as int;
    reading::lemma_run_to(line, 0, 1, CharSet::Space);
    let a = line.subrange(1, n);
    assert(a[0] == '*' && a[1] == ' ' && a[2] == '@');
    reading::lemma_run_to(a, 0, 1, CharSet::One('*'));
    let b = a.subrange(1, a.len() as int);
    assert(b[0] == ' ' && b[1] == '@');
    reading::lemma_run_to(b, 0, 1, CharSet::Space);
    assert(b.subrange(1, b.len() as int) =~= l);
    assert(php::doc_line(line) == l);
    let t = tag.len() as int;
    assert(l.subrange(0, t) =~= tag);
    assert(text::starts(l, tag));
    if tag == "@var "@ {
        assert("@param "@[1] == 'p' && "@var "@[1] == 'v');
        assert(!text::starts(l, "@param "@)) by {
            reading::lemma_reads(l, 0, "@param "@);
            if reads(l, 0, "@param "@) {
                assert(l[0int + 1] == "@param "@[1]);
                assert(l[1] == tag[1]);
            }
        }
    }
    assert(l.skip(t) =~= rest);
    assert(php::tag_text(line) == Some(rest));
    assert forall|k: int| 0 <= k < class.len() implies !text::is_space(#[trigger] class[k]) by {
        assert(in_word(class[k]));
    }
    reading::two_words_are_told_apart(class, v);
    assert(in_word(class[0]));
    reading::lemma_run_to(class, 0, 0, CharSet::One('?'));
    reading::lemma_run_to(class, 0, 0, CharSet::One('\\'));
    assert(class.subrange(0, class.len() as int) =~= class);
    lemma_bare(class);
    assert(!text::some_in(class, CharSet::Compound)) by {
        assert forall|k: int| 0 <= k < class.len() implies !CharSet::Compound.has(#[trigger] class[k]) by {
            assert(in_word(class[k]));
        }
    }
    assert(php::documented_class(class) == Some(class));
    let words = seq![class, v];
    assert(words[1] == v);
    assert(seqs::first_from(words, 1, php::variable_word()) == Some(v));
    reading::lemma_run_to(v, 0, v.len() as int, CharSet::Variable);
    assert(v.take(v.len() as int) =~= v);
    assert(php::doc_binding()(line)[0] == (v, class));
    reading::lemma_given(text::lines(doc), php::doc_binding(), line, (v, class));
}

/// What code requires by a plain path is taken from its own directory; a path from the
/// root counts only where it is anchored there.
pub proof fn a_required_path_is_relative(stmt: Seq<char>, i: int, name: Seq<char>)
    requires
        quotes(stmt, i, name),
        name.len() > 0,
        forall|k: int| 0 <= k < i ==> #[trigger] stmt[k] != '\'' && stmt[k] != '"',
        forall|k: int| 0 <= k < stmt.len() ==> #[trigger] stmt[k] != '$',
    ensures
        name[0] == '.' && paths::has_extension(name, "php"@) ==> php::required(stmt) == Some(name),
        name[0] != '.' && name[0] != '/' && paths::has_extension("./"@ + name, "php"@) ==> php::required(stmt)
            == Some("./"@ + name),
        name[0] == '/' && paths::has_extension("./"@ + name.skip(1), "php"@) && (exists|k: int| #[trigger]
            text::occurs(stmt, k, "__DIR__"@)) ==> php::required(stmt) == Some("./"@ + name.skip(1)),
        name[0] == '/' && !text::includes(stmt, "__DIR__"@) && !text::includes(stmt, "__FILE__"@) && !text::includes(
            stmt,
            "dirname"@,
        ) ==> php::required(stmt) is None,
{
    assert(!text::some_in(stmt, CharSet::One('$')));
    reading::lemma_quoted(stmt, i, name);
    reading::lemma_seek_to(stmt, 0, i, CharSet::Quote);
    assert(scan::literal(stmt, CharSet::Quote) == Some(name));
}

} // verus!
