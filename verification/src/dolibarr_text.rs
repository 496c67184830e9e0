//! What the text of a Dolibarr module says: the files it needs, the triggers and hooks
//! it fires, the permissions it checks, the tables it makes and the keys it defines.

use vstd::prelude::*;

use crate::dolibarr;
use crate::lang;
use crate::model;
use crate::model::EdgeView;
use crate::php;
use crate::reading;
use crate::reading::{begins_word, ends_word, in_word, is_plain, quotes, reads};
use crate::scan;
use crate::seqs;
use crate::syntax::TreeView;
use crate::template_text;
use crate::text;
use crate::text::CharSet;

verus! {

proof fn lemma_links(rel: Seq<char>, base: Seq<char>, code: Seq<char>, tree: TreeView, e: EdgeView)
    requires
        dolibarr::permission_links(rel, code).edges.contains(e) || dolibarr::trigger_links(
            rel,
            code,
        ).edges.contains(e) || dolibarr::hook_links(rel, base, code).edges.contains(e) || dolibarr::object_links(
            rel,
            code,
        ).edges.contains(e) || dolibarr::field_links(rel, code).edges.contains(e) || dolibarr::dependency_links(
            rel,
            code,
        ).edges.contains(e),
    ensures
        php::extracted_from(rel, base, code, tree).edges.contains(e),
{
    let a = dolibarr::module_links(rel, code).edges;
    let b = dolibarr::permission_links(rel, code).edges;
    let c = dolibarr::trigger_links(rel, code).edges;
    let d = dolibarr::hook_links(rel, base, code).edges;
    let f = dolibarr::object_links(rel, code).edges;
    let g = dolibarr::field_links(rel, code).edges;
    let h = dolibarr::api_routes(rel, base, code).edges;
    let k = dolibarr::dependency_links(rel, code).edges;
    if b.contains(e) {
        reading::lemma_behind(a, b, e);
    }
    if (a + b).contains(e) || c.contains(e) {
        reading::lemma_behind(a + b, c, e);
    }
    if (a + b + c).contains(e) || d.contains(e) {
        reading::lemma_behind(a + b + c, d, e);
    }
    if (a + b + c + d).contains(e) || f.contains(e) {
        reading::lemma_behind(a + b + c + d, f, e);
    }
    if (a + b + c + d + f).contains(e) || g.contains(e) {
        reading::lemma_behind(a + b + c + d + f, g, e);
    }
    if (a + b + c + d + f + g).contains(e) {
        reading::lemma_behind(a + b + c + d + f + g, h, e);
    }
    reading::lemma_behind(a + b + c + d + f + g + h, k, e);
    assert(dolibarr::links(rel, base, code).edges == a + b + c + d + f + g + h + k);
    lemma_extracted(rel, base, code, tree, e);
}

proof fn lemma_extracted(rel: Seq<char>, base: Seq<char>, code: Seq<char>, tree: TreeView, e: EdgeView)
    requires
        dolibarr::links(rel, base, code).edges.contains(e) || lang::lang_edges(rel, code).contains(e),
    ensures
        php::extracted_from(rel, base, code, tree).edges.contains(e),
{
    reveal(php::text_found);
    let all = php::text_found(rel, base, code).edges;
    let l = lang::lang_edges(rel, code);
    let d = dolibarr::links(rel, base, code).edges;
    let n: int = all.len() - l.len() - d.len();
    if d.contains(e) {
        let k = choose|k: int| 0 <= k < d.len() && d[k] == e;
        assert(all[n + k] == d[k]);
    } else {
        let k = choose|k: int| 0 <= k < l.len() && l[k] == e;
        assert(all[n + d.len() + k] == l[k]);
    }
    reading::lemma_behind(php::tree_found(rel, base, code, tree).edges, all, e);
}

/// A PHP file uses the keys that its text uses.
pub proof fn a_php_file_uses_its_keys(
    rel: Seq<char>,
    base: Seq<char>,
    code: Seq<char>,
    tree: TreeView,
    key: Seq<char>,
)
    requires
        lang::lang_edges(rel, code).contains(model::named_edge(rel, "uses-lang"@, key)),
    ensures
        php::extracted_from(rel, base, code, tree).edges.contains(model::named_edge(rel, "uses-lang"@, key)),
{
    lemma_extracted(rel, base, code, tree, model::named_edge(rel, "uses-lang"@, key));
}

/// The first call of `f` in a text, with one string for its arguments.
pub open spec fn first_calls(s: Seq<char>, i: int, f: Seq<char>, name: Seq<char>) -> bool {
    &&& begins_word(s, i)
    &&& reads(s, i, f)
    &&& reads(s, i + f.len(), "("@)
    &&& quotes(s, i + f.len() + 1, name)
    &&& reads(s, i + f.len() + 3 + name.len(), ")"@)
    &&& forall|k: int| 0 <= k < i ==> !#[trigger] reads(s, k, f)
}

proof fn lemma_first_call(s: Seq<char>, from: int, i: int, f: Seq<char>, c: int)
    requires
        0 <= from <= i,
        f.len() > 0,
        reads(s, i, f),
        begins_word(s, i),
        forall|k: int| 0 <= k < i ==> !#[trigger] reads(s, k, f),
        dolibarr::call_span(s, i + f.len()) == Some((i + f.len(), c)),
    ensures
        dolibarr::calls_from(s, f, from).contains(s.subrange(i + f.len() + 1, c)),
    decreases i - from,
{
    reading::lemma_reads(s, from, f);
    if from < i {
        assert(!reads(s, from, f));
        lemma_first_call(s, from + 1, i, f, c);
    } else {
        let args = s.subrange(i + f.len() + 1, c);
        assert(seq![args][0] == args);
        reading::lemma_behind(seq![args], dolibarr::calls_from(s, f, c), args);
    }
}

proof fn lemma_lone(args: Seq<char>, name: Seq<char>)
    requires
        quotes(args, 0, name),
        args.len() == name.len() + 2,
    ensures
        scan::lone_literal(args) == Some(name),
        text::trimmed(args, CharSet::Space) == args,
{
    reading::lemma_quoted(args, 0, name);
    template_text::lemma_unescaped(name, 0);
    assert(name.subrange(0, name.len() as int) =~= name);
    assert(args.subrange(1, args.len() - 1) =~= args.subrange(1, 1 + name.len() as int));
    reading::lemma_run_to(args, 0, 0, CharSet::Space);
    assert(args.subrange(0, args.len() as int) =~= args);
    reading::lemma_run_from(args, args.len() as int, args.len() as int, CharSet::Space);
}

proof fn lemma_call_name(s: Seq<char>, i: int, f: Seq<char>, name: Seq<char>)
    requires
        f.len() > 0,
        first_calls(s, i, f, name),
    ensures
        dolibarr::call_names(s, f).contains(name),
{
    reveal_strlit("(");
    reveal_strlit(")");
    assert("("@[0] == '(' && ")"@[0] == ')');
    let o = i + f.len();
    let q = o + 1;
    let c = q + name.len() + 2;
    assert(s[o + 0] == '(' && s[c + 0] == ')');
    reading::lemma_run_to(s, o, o, CharSet::AsciiSpace);
    reading::lemma_over_quoted(s, q, name, 1, '(', ')');
    assert(scan::partner(s, o, '(', ')', CharSet::Quote) == c);
    assert(dolibarr::call_span(s, o) == Some((o, c)));
    lemma_first_call(s, 0, i, f, c);
    let args = s.subrange(q, c);
    assert(quotes(args, 0, name)) by {
        assert forall|k: int| 0 <= k < name.len() implies args[1 + k] == #[trigger] name[k] by {
            assert(s[q + 1 + k] == name[k]);
        }
    }
    lemma_lone(args, name);
    reading::lemma_quoted(args, 0, name);
    let n = dolibarr::nesting();
    assert(scan::top_level(args, 0, 0, ',', n) == args.len()) by {
        reveal_with_fuel(scan::top_level, 2);
    }
    assert(scan::arguments(args, n)[0] =~= args);
    assert(dolibarr::args_of(args)[0] == args);
    assert(dolibarr::first_arg(args) == Some(name));
    let one = seqs::opt_seq(Some(name));
    assert(one[0] == name);
    assert(dolibarr::first_arg_of()(args) == one);
    reading::lemma_given(dolibarr::calls(s, f), dolibarr::first_arg_of(), args, name);
}

proof fn lemma_edge_to(rel: Seq<char>, relation: Seq<char>, names: Seq<Seq<char>>, name: Seq<char>)
    requires
        names.contains(name),
    ensures
        dolibarr::edges_to(rel, relation, names).edges.contains(model::named_edge(rel, relation, name)),
{
    let k = choose|k: int| 0 <= k < names.len() && names[k] == name;
    assert(dolibarr::edges_to(rel, relation, names).edges[k] == model::named_edge(rel, relation, name));
}

/// The name of an action: capital letters and underscores.
pub open spec fn is_action_name(n: Seq<char>) -> bool {
    &&& n.len() > 0
    &&& 'A' <= n[0] && n[0] <= 'Z'
    &&& forall|k: int| 0 <= k < n.len() ==> ('A' <= #[trigger] n[k] && n[k] <= 'Z') || n[k] == '_'
}

/// A call says what a file does with what it names: it needs a file, fires a hook or
/// raises a trigger.
pub proof fn a_dolibarr_call_links_what_it_names(
    rel: Seq<char>,
    base: Seq<char>,
    code: Seq<char>,
    tree: TreeView,
    i: int,
    name: Seq<char>,
)
    ensures
        first_calls(code, i, "dol_include_once"@, name) ==> php::extracted_from(rel, base, code, tree).edges.contains(
            model::named_edge(rel, "dol-requires"@, name),
        ),
        first_calls(code, i, "executeHooks"@, name) ==> php::extracted_from(rel, base, code, tree).edges.contains(
            model::named_edge(rel, "fires-hook"@, name),
        ),
        first_calls(code, i, "call_trigger"@, name) && is_action_name(name) ==> php::extracted_from(
            rel,
            base,
            code,
            tree,
        ).edges.contains(model::named_edge(rel, "raises-trigger"@, name)),
{
    reveal_strlit("dol_include_once");
    reveal_strlit("executeHooks");
    reveal_strlit("call_trigger");
    if first_calls(code, i, "dol_include_once"@, name) {
        lemma_call_name(code, i, "dol_include_once"@, name);
        lemma_edge_to(rel, "dol-requires"@, dolibarr::call_names(code, "dol_include_once"@), name);
        lemma_links(rel, base, code, tree, model::named_edge(rel, "dol-requires"@, name));
    }
    if first_calls(code, i, "executeHooks"@, name) {
        let e = model::named_edge(rel, "fires-hook"@, name);
        let names = dolibarr::call_names(code, "executeHooks"@);
        lemma_call_name(code, i, "executeHooks"@, name);
        reading::lemma_linked("hook:"@, "hook"@, rel, "fires-hook"@, names, name);
        let fired = model::linked("hook:"@, "hook"@, rel, "fires-hook"@, names);
        let handled = model::linked(
            "hook:"@,
            "hook"@,
            rel,
            "handles-hook"@,
            dolibarr::hooks(dolibarr::function_names(code)),
        );
        reading::lemma_behind(fired.edges, handled.edges, e);
        lemma_links(rel, base, code, tree, e);
    }
    if first_calls(code, i, "call_trigger"@, name) && is_action_name(name) {
        let e = model::named_edge(rel, "raises-trigger"@, name);
        let names = dolibarr::call_names(code, "call_trigger"@);
        lemma_call_name(code, i, "call_trigger"@, name);
        assert(dolibarr::is_action(name)) by {
            assert forall|k: int| 0 <= k < name.len() implies CharSet::Action.has(#[trigger] name[k]) by {}
        }
        lemma_kept_action(names, name);
        reading::lemma_linked("trigger:"@, "trigger"@, rel, "raises-trigger"@, dolibarr::actions(names), name);
        let raised = model::linked("trigger:"@, "trigger"@, rel, "raises-trigger"@, dolibarr::actions(names));
        let handled = model::linked(
            "trigger:"@,
            "trigger"@,
            rel,
            "handles-trigger"@,
            dolibarr::actions(dolibarr::case_names(code)),
        );
        reading::lemma_behind(raised.edges, handled.edges, e);
        lemma_links(rel, base, code, tree, e);
    }
}

proof fn lemma_kept_action(names: Seq<Seq<char>>, name: Seq<char>)
    requires
        names.contains(name),
        dolibarr::is_action(name),
    ensures
        dolibarr::actions(names).contains(name),
{
    broadcast use vstd::seq_lib::group_filter_ensures;

    let k = choose|k: int| 0 <= k < names.len() && names[k] == name;
    let p = |n: Seq<char>| dolibarr::is_action(n);
    assert(p(names[k]));
    assert(names.filter(p).contains(names[k]));
}

/// A statement that makes or changes a table migrates it.
pub proof fn a_statement_migrates_its_table(
    rel: Seq<char>,
    s: Seq<char>,
    i: int,
    verb: Seq<char>,
    name: Seq<char>,
)
    requires
        verb == "create table"@ || verb == "alter table"@,
        reads(text::lower(s), i, verb),
        reads(s, i + verb.len(), " "@),
        reads(s, i + verb.len() + 1, name),
        is_plain(name),
        ends_word(s, i + verb.len() + 1 + name.len()),
        !('0' <= name[0] && name[0] <= '9'),
        name[0] != 'i' && name[0] != 'I',
        forall|k: int| 0 <= k < i ==> !#[trigger] reads(text::lower(s), k, verb),
    ensures
        reads(name, 0, "llx_"@) && name.len() > 4 ==> dolibarr::ddl_links(rel, s).edges.contains(
            model::named_edge(rel, "migrates"@, name.skip(4)),
        ),
        !reads(name, 0, "llx_"@) ==> dolibarr::ddl_links(rel, s).edges.contains(
            model::named_edge(rel, "migrates"@, name),
        ),
{
    reveal_strlit("create table");
    reveal_strlit("alter table");
    reveal_strlit(" ");
    reveal_strlit("llx_");
    reveal_strlit("if not exists");
    let low = text::lower(s);
    reading::lemma_first_hit(low, verb, 0, i);
    let hits = text::hits(low, verb, 0);
    assert(hits.contains(i));
    let o = i + verb.len();
    let a = o + 1;
    let z = a + name.len();
    assert(" "@[0] == ' ');
    assert(s[o + 0] == ' ');
    assert(s[a + 0] == name[0]);
    assert(in_word(name[0]));
    reading::lemma_run_to(s, o, a, CharSet::AsciiSpace);
    assert(!text::occurs(low, a, "if not exists"@)) by {
        reading::lemma_reads(low, a, "if not exists"@);
        if reads(low, a, "if not exists"@) {
            assert("if not exists"@[0] == 'i');
            assert(low[a + 0] == "if not exists"@[0]);
            assert(low[a] == text::lower_char(name[0]));
        }
    }
    assert forall|m: int| a <= m < z implies CharSet::Word.has(#[trigger] s[m]) by {
        assert(s[a + (m - a)] == name[m - a]);
        assert(in_word(name[m - a]));
    }
    reading::lemma_run_to(s, a, z, CharSet::Word);
    reading::lemma_reads(s, a, name);
    reading::lemma_reads(name, 0, "llx_"@);
    let bare = dolibarr::bare_table(name);
    assert(reads(name, 0, "llx_"@) ==> bare =~= name.skip(4));
    if bare.len() > 0 {
        let one = seqs::opt_seq(Some(bare));
        assert(one[0] == bare);
        assert(dolibarr::ddl_at(s, verb)(i) == one);
        reading::lemma_given(hits, dolibarr::ddl_at(s, verb), i, bare);
        let e = model::named_edge(rel, "migrates"@, bare);
        reading::lemma_linked("table:"@, "table"@, rel, "migrates"@, dolibarr::ddl_tables(s, verb), bare);
        let c = model::linked("table:"@, "table"@, rel, "migrates"@, dolibarr::ddl_tables(s, "create table"@));
        let d = model::linked("table:"@, "table"@, rel, "migrates"@, dolibarr::ddl_tables(s, "alter table"@));
        reading::lemma_behind(c.edges, d.edges, e);
    }
}

/// A line of a language file defines the key before its first equals sign.
pub proof fn a_line_defines_its_key(rel: Seq<char>, lines: Seq<Seq<char>>, key: Seq<char>, value: Seq<char>)
    requires
        is_plain(key),
        value.len() > 0 && !text::is_space(value.last()),
        lines.contains(key + "="@ + value),
    ensures
        seqs::each(lines, dolibarr::lang_edge(rel)).contains(model::named_edge(rel, "uses-lang"@, key)),
{
    reveal_strlit("=");
    let line = key + "="@ + value;
    let n = line.len() as int;
    let e = key.len() as int;
    assert(line[0] == key[0]);
    assert(in_word(key[0]) && in_word(key.last()));
    assert(line[n - 1] == value.last());
    reading::lemma_run_to(line, 0, 0, CharSet::Space);
    assert(line.subrange(0, n) =~= line);
    reading::lemma_run_from(line, n, n, CharSet::Space);
    assert("="@[0] == '=');
    assert(line[e] == '=');
    assert forall|m: int| 0 <= m < e implies !CharSet::One('=').has(#[trigger] line[m]) by {
        assert(line[m] == key[m]);
        assert(in_word(key[m]));
    }
    reading::lemma_seek_to(line, 0, e, CharSet::One('='));
    assert(line.subrange(0, e) =~= key);
    reading::lemma_run_to(key, 0, 0, CharSet::Space);
    assert(key.subrange(0, e) =~= key);
    reading::lemma_run_from(key, e, e, CharSet::Space);
    assert(text::all_in(key, CharSet::Dotted)) by {
        assert forall|m: int| 0 <= m < e implies CharSet::Dotted.has(#[trigger] key[m]) by {
            assert(in_word(key[m]));
        }
    }
    assert(dolibarr::lang_key(line) == Some(key));
    let edge = model::named_edge(rel, "uses-lang"@, key);
    assert(dolibarr::lang_edge(rel)(line)[0] == edge);
    reading::lemma_given(lines, dolibarr::lang_edge(rel), line, edge);
}

/// The first check of a permission, by the module and the right of it.
pub open spec fn first_checks(s: Seq<char>, i: int, module: Seq<char>, right: Seq<char>) -> bool {
    let b: int = i + 9;
    let c: int = b + module.len() + 2;
    let d: int = c + 2;
    &&& begins_word(s, i)
    &&& reads(s, i, "hasRight("@)
    &&& quotes(s, b, module)
    &&& reads(s, c, ", "@)
    &&& quotes(s, d, right)
    &&& reads(s, d + right.len() + 2, ")"@)
    &&& forall|k: int| 0 <= k < i ==> !#[trigger] reads(s, k, "hasRight"@)
}

proof fn lemma_right(args: Seq<char>, module: Seq<char>, right: Seq<char>)
    requires
        quotes(args, 0, module),
        reads(args, module.len() as int + 2, ", "@),
        quotes(args, module.len() as int + 4, right),
        args.len() == module.len() + right.len() + 6,
    ensures
        dolibarr::right_name(args) == Some(module + "."@ + right),
{
    reveal_strlit(", ");
    let gap = ", "@;
    let c: int = module.len() as int + 2;
    let d: int = c + 2;
    let z = args.len() as int;
    assert(gap[0] == ',' && gap[1] == ' ');
    assert(args[c + 0] == ',' && args[c + 1] == ' ');
    reading::lemma_quoted(args, 0, module);
    reading::lemma_quoted(args, d, right);
    let n = dolibarr::nesting();
    assert(n.quotes.has(args[0]) && n.quotes.has(args[d]));
    assert(scan::top_level(args, c, 0, ',', n) == c);
    assert(scan::top_level(args, 0, 0, ',', n) == c);
    assert(scan::top_level(args, z, 0, ',', n) == z);
    assert(scan::top_level(args, d, 0, ',', n) == z);
    assert(scan::top_level(args, c + 1, 0, ',', n) == z);
    let first = args.subrange(0, c);
    let second = args.subrange(c + 1, z);
    assert(scan::args_from(args, c + 1, n) =~= seq![second]);
    assert(scan::arguments(args, n) =~= seq![first] + seq![second]);
    let all = scan::arguments(args, n);
    assert(all[0] == first && all[1] == second && all.len() == 2);
    assert(quotes(first, 0, module)) by {
        assert forall|k: int| 0 <= k < module.len() implies first[1 + k] == #[trigger] module[k] by {
            assert(args[0 + 1 + k] == module[k]);
        }
    }
    lemma_lone(first, module);
    let tail = args.subrange(d, z);
    assert(quotes(tail, 0, right)) by {
        assert forall|k: int| 0 <= k < right.len() implies tail[1 + k] == #[trigger] right[k] by {
            assert(args[d + 1 + k] == right[k]);
        }
    }
    lemma_lone(tail, right);
    let m = tail.len() as int;
    reading::lemma_run_to(second, 0, 1, CharSet::Space);
    assert(second.subrange(1, m + 1) =~= tail);
    reading::lemma_run_from(tail, m, m, CharSet::Space);
    assert(tail.subrange(0, m) =~= tail);
    assert(text::trimmed(second, CharSet::Space) == tail);
    let p = dolibarr::args_of(args);
    assert(p[0] == first && p[1] == tail && p.len() == 2);
}

/// A file checks the permission that it asks for.
pub proof fn a_check_names_its_permission(
    rel: Seq<char>,
    base: Seq<char>,
    code: Seq<char>,
    tree: TreeView,
    i: int,
    module: Seq<char>,
    right: Seq<char>,
)
    requires
        first_checks(code, i, module, right),
    ensures
        php::extracted_from(rel, base, code, tree).edges.contains(
            model::named_edge(rel, "checks-permission"@, module + "."@ + right),
        ),
{
    reveal_strlit("hasRight(");
    reveal_strlit("hasRight");
    reveal_strlit(", ");
    reveal_strlit(")");
    let word = "hasRight"@;
    let call = "hasRight("@;
    let o = i + 8;
    let b = i + 9;
    let c: int = b + module.len() + 2;
    let d: int = c + 2;
    let z: int = d + right.len() + 2;
    assert(reads(code, i, word)) by {
        assert forall|k: int| 0 <= k < word.len() implies code[i + k] == #[trigger] word[k] by {
            assert(code[i + k] == call[k]);
        }
    }
    assert(call[8] == '(' && ")"@[0] == ')' && ", "@[0] == ',' && ", "@[1] == ' ');
    assert(code[i + 8] == '(' && code[z + 0] == ')' && code[c + 0] == ',' && code[c + 1] == ' ');
    reading::lemma_run_to(code, o, o, CharSet::AsciiSpace);
    reading::lemma_over_quoted(code, b, module, 1, '(', ')');
    reading::lemma_over_plain(code, c, d, 1, '(', ')', CharSet::Quote);
    reading::lemma_over_quoted(code, d, right, 1, '(', ')');
    assert(scan::partner(code, o, '(', ')', CharSet::Quote) == z);
    assert(dolibarr::call_span(code, o) == Some((o, z)));
    lemma_first_call(code, 0, i, word, z);
    let args = code.subrange(b, z);
    assert(quotes(args, 0, module)) by {
        assert forall|k: int| 0 <= k < module.len() implies args[1 + k] == #[trigger] module[k] by {
            assert(code[b + 1 + k] == module[k]);
        }
    }
    assert(quotes(args, d - b, right)) by {
        assert forall|k: int| 0 <= k < right.len() implies args[d - b + 1 + k] == #[trigger] right[k] by {
            assert(code[d + 1 + k] == right[k]);
        }
    }
    assert(reads(args, c - b, ", "@)) by {
        assert(args[c - b] == ',' && args[c - b + 1] == ' ');
    }
    lemma_right(args, module, right);
    let name = module + "."@ + right;
    let one = seqs::opt_seq(Some(name));
    assert(one[0] == name);
    assert(dolibarr::right_in()(args) == one);
    reading::lemma_given(dolibarr::calls(code, word), dolibarr::right_in(), args, name);
    reading::lemma_behind(
        seqs::each(dolibarr::calls(code, word), dolibarr::right_in()),
        seqs::each(text::hits(code, "rights->"@, 0), dolibarr::property_right_at(code)),
        name,
    );
    reading::lemma_linked("right:"@, "permission"@, rel, "checks-permission"@, dolibarr::rights(code), name);
    lemma_links(rel, base, code, tree, model::named_edge(rel, "checks-permission"@, name));
}

/// A file of triggers handles each action that a case of it names.
pub proof fn a_case_handles_its_trigger(
    rel: Seq<char>,
    base: Seq<char>,
    code: Seq<char>,
    tree: TreeView,
    at: int,
    i: int,
    name: Seq<char>,
)
    requires
        reads(code, at, "DolibarrTriggers"@),
        begins_word(code, i),
        reads(code, i, "case "@),
        quotes(code, i + 5, name),
        is_action_name(name),
    ensures
        php::extracted_from(rel, base, code, tree).edges.contains(
            model::named_edge(rel, "handles-trigger"@, name),
        ),
{
    reveal_strlit("case ");
    reveal_strlit("case");
    let word = "case"@;
    let head = "case "@;
    assert(reads(code, i, word)) by {
        assert forall|k: int| 0 <= k < word.len() implies code[i + k] == #[trigger] word[k] by {
            assert(code[i + k] == head[k]);
        }
    }
    assert(head[4] == ' ');
    assert(code[i + 4] == ' ');
    reading::every_occurrence_is_hit(code, word, 0, i);
    reading::lemma_quoted(code, i + 5, name);
    reading::lemma_run_to(code, i + 4, i + 5, CharSet::AsciiSpace);
    template_text::lemma_unescaped(name, 0);
    assert(name.subrange(0, name.len() as int) =~= name);
    assert(dolibarr::case_at(code, i) == Some(name));
    let one = seqs::opt_seq(Some(name));
    assert(one[0] == name);
    assert(dolibarr::case_of(code)(i) == one);
    reading::lemma_given(text::hits(code, word, 0), dolibarr::case_of(code), i, name);
    assert(dolibarr::is_action(name)) by {
        assert forall|k: int| 0 <= k < name.len() implies CharSet::Action.has(#[trigger] name[k]) by {}
    }
    lemma_kept_action(dolibarr::case_names(code), name);
    reading::lemma_reads(code, at, "DolibarrTriggers"@);
    let acts = dolibarr::actions(dolibarr::case_names(code));
    reading::lemma_linked("trigger:"@, "trigger"@, rel, "handles-trigger"@, acts, name);
    let raised = model::linked(
        "trigger:"@,
        "trigger"@,
        rel,
        "raises-trigger"@,
        dolibarr::actions(dolibarr::call_names(code, "call_trigger"@)),
    );
    let handled = model::linked("trigger:"@, "trigger"@, rel, "handles-trigger"@, acts);
    let e = model::named_edge(rel, "handles-trigger"@, name);
    reading::lemma_behind(raised.edges, handled.edges, e);
    lemma_links(rel, base, code, tree, e);
}

/// A type of a field that ties it to a class or to a table.
pub proof fn a_field_is_tied_by_its_type(kind: Seq<char>, name: Seq<char>)
    requires
        is_plain(name),
        kind == "integer"@ || kind == "sellist"@ || kind == "chkbxlst"@,
    ensures
        kind == "integer"@ && 'A' <= name[0] && name[0] <= 'Z' ==> dolibarr::field_type(kind + ":"@ + name)
            == dolibarr::FieldView::Class(name),
        kind != "integer"@ && !reads(name, 0, "llx_"@) ==> dolibarr::field_type(kind + ":"@ + name)
            == dolibarr::FieldView::Table(name),
{
    reveal_strlit("integer");
    reveal_strlit("sellist");
    reveal_strlit("chkbxlst");
    reveal_strlit(":");
    let lit = kind + ":"@ + name;
    assert(":"@[0] == ':');
    assert("integer"@[0] == 'i' && "sellist"@[0] == 's' && "chkbxlst"@[0] == 'c');
    assert(!kind.contains(':')) by {
        if kind.contains(':') {
            let k = choose|k: int| 0 <= k < kind.len() && kind[k] == ':';
            assert(kind[k] == ':');
        }
    }
    let n = kind.len() as int;
    let z = lit.len() as int;
    let mark = CharSet::One(':');
    assert forall|m: int| 0 <= m < n implies !mark.has(#[trigger] lit[m]) by {
        assert(lit[m] == kind[m]);
        assert(kind.contains(kind[m]));
    }
    assert(lit[n] == ':');
    reading::lemma_seek_to(lit, 0, n, mark);
    assert forall|m: int| n + 1 <= m < z implies !mark.has(#[trigger] lit[m]) by {
        assert(lit[m] == name[m - n - 1]);
        assert(in_word(name[m - n - 1]));
    }
    reading::lemma_seek_to(lit, n + 1, z, mark);
    assert(lit.subrange(0, n) =~= kind);
    assert(lit.subrange(n + 1, z) =~= name);
    reveal_with_fuel(text::pieces_from, 3);
    let p = text::pieces(lit, mark);
    assert(p.len() == 2 && p[0] == kind && p[1] == name);
    crate::php_text::lemma_bare(name);
    assert(text::all_in(name, CharSet::Word)) by {
        assert forall|m: int| 0 <= m < name.len() implies CharSet::Word.has(#[trigger] name[m]) by {
            assert(in_word(name[m]));
        }
    }
    reading::lemma_reads(name, 0, "llx_"@);
    assert(kind == "integer"@ ==> kind != "sellist"@ && kind != "chkbxlst"@);
}

} // verus!
