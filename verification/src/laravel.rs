//! Laravel-specific extraction over PHP. All Laravel/Eloquent knowledge lives
//! here; the generic PHP walker calls into it. Covers:
//!
//! * **Eloquent relations** -- `$this->belongsTo(Related::class)` and friends,
//!   labelled by kind (the method name).
//! * **Model <-> table <-> migration** -- a shared `table:<name>` node joins a
//!   model (explicit `$table` or the snake-case-plural convention), a migration
//!   (`Schema::create/table('x')`), query-builder usage (`DB::table('x')`), a
//!   hand-written query (`FROM x`), and a data migration or seeder of the model.
//! * **Routes** -- a route file, or a route attribute, and the controller it wires.

use vstd::prelude::*;
use vstd::slice::slice_subrange;

use crate::dolibarr;
use crate::model;
use crate::model::{link_all, make_join, EdgeView, Found, FoundView, Node, RawEdge};
use crate::scan;
use crate::seqs;
use crate::text;
use crate::text::{chars_of, is_text, join2, string_of, CharSet};

verus! {

broadcast use {
    crate::seqs::group_text,
    text::lemma_run,
    text::lemma_seek,
    text::lemma_run_back,
    text::lemma_seek_back,
    scan::lemma_closing,
    scan::lemma_matching,
};

/// The `&'static` relation label for an Eloquent relation method, if it is one.
pub fn relation_kind(method: &str) -> (r: Option<&'static str>)
    ensures
        r is Some <==> model::is_relation(method@),
        r matches Some(label) ==> label@ == method@,
{
    model::relation_kind(method)
}

// ---------------------------------------------------------------------------
// Class names

/// The bare name of a possibly qualified class name.
pub open spec fn bare(name: Seq<char>) -> Seq<char> {
    scan::last_part(name, '\\')
}

/// The bare class name before the `::class` at index `i`.
pub open spec fn class_const(s: Seq<char>, i: int) -> Option<Seq<char>> {
    let a = text::run_back(s, i, CharSet::Qualified);
    if a == i {
        None
    } else {
        Some(bare(s.subrange(a, i)))
    }
}

/// The bare class name before the `::class` at index `i`.
fn class_before(s: &[char], i: usize) -> (r: Option<String>)
    requires
        i <= s@.len(),
    ensures
        seqs::opt_view(r) == class_const(s@, i as int),
{
    let a = text::skip_back(s, i, CharSet::Qualified);
    if a == i {
        return None;
    }
    Some(string_of(scan::behind_last(slice_subrange(s, a, i), '\\')))
}

/// The bare name of the first `X::class` of a text.
pub open spec fn first_class(s: Seq<char>) -> Option<Seq<char>> {
    let i = text::find(s, "::class"@, 0);
    if i < s.len() {
        class_const(s, i)
    } else {
        None
    }
}

/// The bare name of the first `X::class` of a text.
fn first_class_const(s: &[char]) -> (r: Option<String>)
    ensures
        seqs::opt_view(r) == first_class(s@),
{
    let i = text::search(s, "::class", 0);
    if i < s.len() {
        class_before(s, i)
    } else {
        None
    }
}

/// The related model named by a relation call: the `X` of the first `X::class`,
/// else a quoted class-string first argument.
pub open spec fn related(call: Seq<char>) -> Option<Seq<char>> {
    if first_class(call) is Some {
        first_class(call)
    } else {
        match scan::literal(call, CharSet::Quote) {
            Some(l) => Some(bare(l)),
            None => None,
        }
    }
}

/// The related model named by a relation call: the `X` of the first `X::class`,
/// else a quoted class-string first argument. De-qualified to the bare name.
pub fn related_model(call_src: &str) -> (r: Option<String>)
    ensures
        seqs::opt_view(r) == related(call_src@),
{
    let s = chars_of(call_src);
    let class = first_class_const(&s);
    if class.is_some() {
        return class;
    }
    match scan::first_literal(&s, CharSet::Quote) {
        Some(l) => Some(string_of(scan::behind_last(l, '\\'))),
        None => None,
    }
}

// ---------------------------------------------------------------------------
// Tables

/// A class name from which an Eloquent model derives: `Model`,
/// `Authenticatable`, `Pivot`, `MorphPivot`, or a `*Model` base class.
pub open spec fn is_model_base(name: Seq<char>) -> bool {
    ||| name == "Model"@
    ||| name == "Authenticatable"@
    ||| name == "Pivot"@
    ||| name == "MorphPivot"@
    ||| text::ends(name, "Model"@)
}

/// Some of the names is an Eloquent base.
pub open spec fn has_model_base(extends: Seq<Seq<char>>) -> bool {
    exists|i: int| 0 <= i < extends.len() && is_model_base(#[trigger] extends[i])
}

/// Does the class extend an Eloquent base?
fn is_model_extends(extends: &[String]) -> (r: bool)
    ensures
        r == has_model_base(seqs::views(extends@)),
{
    let ghost all = seqs::views(extends@);
    let mut k: usize = 0;
    while k < extends.len()
        invariant
            k <= extends@.len(),
            all == seqs::views(extends@),
            forall|j: int| 0 <= j < k ==> !is_model_base(#[trigger] all[j]),
        decreases extends@.len() - k,
    {
        let e = chars_of(&extends[k]);
        assert(all[k as int] == e@);
        if is_text(&e, "Model") || is_text(&e, "Authenticatable") || is_text(&e, "Pivot") || is_text(
            &e,
            "MorphPivot",
        ) || text::ends_with(&e, "Model") {
            return true;
        }
        k += 1;
    }
    false
}

/// The literal that the `$table` at index `i` is assigned.
pub open spec fn table_at(s: Seq<char>, i: int) -> Option<Seq<char>> {
    let a = text::run(s, i + "$table"@.len(), CharSet::Space);
    let b = text::run(s, a + 1, CharSet::Space);
    if scan::at(s, a, CharSet::One('=')) && scan::at(s, b, CharSet::Quote) {
        Some(s.subrange(b + 1, scan::closing(s, b + 1, s[b])))
    } else {
        None
    }
}

pub open spec fn table_of(s: Seq<char>) -> spec_fn(int) -> Option<Seq<char>> {
    |i: int| table_at(s, i)
}

/// An explicit `$table = '...'` property value in a class body.
pub open spec fn explicit_table(body: Seq<char>) -> Option<Seq<char>> {
    seqs::first_some(text::hits(body, "$table"@, 0), table_of(body))
}

/// An explicit `$table = '...'` property value in the class body, if any.
fn table_from_body(s: &[char]) -> (r: Option<String>)
    ensures
        seqs::opt_view(r) == explicit_table(s@),
{
    let places = text::occurrences(s, "$table");
    let n = text::length_of("$table");
    let ghost ks = text::hits(s@, "$table"@, 0);
    let mut k: usize = 0;
    while k < places.len()
        invariant
            n == "$table"@.len(),
            k <= places@.len(),
            ks == text::hits(s@, "$table"@, 0),
            text::are_hits(s@, "$table"@, places@),
            seqs::first_from(ks, k as int, table_of(s@)) == explicit_table(s@),
        decreases places@.len() - k,
    {
        assert(ks[k as int] == places@[k as int]);
        let a = text::skip(s, places[k] + n, CharSet::Space);
        if scan::is_at(s, a, CharSet::One('=')) {
            let b = text::skip(s, a + 1, CharSet::Space);
            if scan::is_at(s, b, CharSet::Quote) {
                let e = scan::close_quote(s, b + 1, s[b]);
                return Some(string_of(slice_subrange(s, b + 1, e)));
            }
        }
        k += 1;
    }
    None
}

/// English pluralization covering the common cases (`Company` -> `Companies`,
/// `Address` -> `Addresses`, `InvoiceLine` -> `InvoiceLines`, and the Latin
/// `-is` -> `-es`: `Axis` -> `Axes`, `Analysis` -> `Analyses`).
pub open spec fn plural(word: Seq<char>) -> Seq<char> {
    let l = text::lower(word);
    let n = word.len() as int;
    if text::ends(l, "is"@) && n > 2 {
        word.subrange(0, n - 2) + "es"@
    } else if text::ends(l, "s"@) || text::ends(l, "x"@) || text::ends(l, "z"@) || text::ends(l, "ch"@)
        || text::ends(l, "sh"@) {
        word + "es"@
    } else if text::ends(l, "y"@) && !(n >= 2 && is_vowel(word[n - 2])) {
        word.subrange(0, n - 1) + "ies"@
    } else {
        word + "s"@
    }
}

pub open spec fn is_vowel(c: char) -> bool {
    c == 'a' || c == 'e' || c == 'i' || c == 'o' || c == 'u'
}

/// English pluralization covering the common cases.
fn pluralize(word: &[char]) -> (r: String)
    ensures
        r@ == plural(word@),
{
    proof {
        reveal_strlit("is");
        reveal_strlit("y");
    }
    let l = text::to_lower(word);
    let n = word.len();
    if text::ends_with(&l, "is") && n > 2 {
        return join2(&string_of(slice_subrange(word, 0, n - 2)), "es");
    }
    if text::ends_with(&l, "s") || text::ends_with(&l, "x") || text::ends_with(&l, "z") || text::ends_with(
        &l,
        "ch",
    ) || text::ends_with(&l, "sh") {
        return join2(&string_of(word), "es");
    }
    if text::ends_with(&l, "y") {
        let vowel = n >= 2 && (word[n - 2] == 'a' || word[n - 2] == 'e' || word[n - 2] == 'i' || word[n - 2]
            == 'o' || word[n - 2] == 'u');
        if !vowel {
            return join2(&string_of(slice_subrange(word, 0, n - 1)), "ies");
        }
    }
    join2(&string_of(word), "s")
}

/// `PascalCase`/`camelCase` -> `snake_case` (`InvoiceLine` -> `invoice_line`),
/// from index `i` on.
pub open spec fn snake_from(s: Seq<char>, i: int) -> Seq<char>
    decreases s.len() - i,
{
    if i < 0 || i >= s.len() {
        Seq::empty()
    } else if text::is_upper(s[i]) && i > 0 {
        seq!['_', text::lower_char(s[i])] + snake_from(s, i + 1)
    } else {
        seq![text::lower_char(s[i])] + snake_from(s, i + 1)
    }
}

/// `PascalCase`/`camelCase` -> `snake_case`.
fn snake_case(s: &[char]) -> (r: String)
    ensures
        r@ == snake_from(s@, 0),
{
    let mut out = String::new();
    let mut i: usize = 0;
    while i < s.len()
        invariant
            i <= s@.len(),
            out@ + snake_from(s@, i as int) == snake_from(s@, 0),
        decreases s@.len() - i,
    {
        let ghost before = out@;
        if CharSet::Upper.test(s[i]) && i > 0 {
            out.push('_');
            out.push(text::to_lower_char(s[i]));
            assert(out@ =~= before + seq!['_', text::lower_char(s@[i as int])]);
        } else {
            out.push(text::to_lower_char(s[i]));
        }
        i += 1;
    }
    out
}

/// The Laravel table name for a model class: `snake_case(pluralize(ClassName))`.
pub open spec fn conventional_table(class: Seq<char>) -> Seq<char> {
    snake_from(plural(class), 0)
}

/// The Laravel table name for a model class: `snake_case(pluralize(ClassName))`.
pub fn convention_table(class: &str) -> (r: String)
    ensures
        r@ == conventional_table(class@),
{
    snake_case(&chars_of(&pluralize(&chars_of(class))))
}

/// The table an Eloquent model maps to: an explicit `$table = '...'`, else the
/// Laravel convention for a class that looks like a model.
pub open spec fn mapped_table(name: Seq<char>, extends: Seq<Seq<char>>, body: Seq<char>) -> Option<Seq<char>> {
    if explicit_table(body) is Some {
        explicit_table(body)
    } else if has_model_base(extends) {
        Some(conventional_table(name))
    } else {
        None
    }
}

/// The table an Eloquent model maps to: an explicit `$table = '...'`, else the
/// Laravel convention for a class that looks like a model, else `None`.
pub fn model_table(name: &str, extends: &[String], body: &str) -> (r: Option<String>)
    ensures
        seqs::opt_view(r) == mapped_table(name@, seqs::views(extends@), body@),
{
    let explicit = table_from_body(&chars_of(body));
    if explicit.is_some() {
        return explicit;
    }
    if is_model_extends(extends) {
        Some(convention_table(name))
    } else {
        None
    }
}

/// The table that the call of a `needle` that ends at index `i` names by a
/// literal first argument.
pub open spec fn table_argument(s: Seq<char>, i: int) -> Option<Seq<char>> {
    let o = text::run(s, i, CharSet::AsciiSpace);
    let a = text::run(s, o + 1, CharSet::AsciiSpace);
    if scan::at(s, o, CharSet::One('(')) && scan::at(s, a, CharSet::Quote) {
        Some(s.subrange(a + 1, scan::closing(s, a + 1, s[a])))
    } else {
        None
    }
}

pub open spec fn table_call(s: Seq<char>, needle: Seq<char>) -> spec_fn(int) -> Seq<Seq<char>> {
    |i: int|
        if scan::preceded(s, i, CharSet::Word) {
            Seq::empty()
        } else {
            seqs::opt_seq(table_argument(s, i + needle.len()))
        }
}

/// The tables that the `needle(<string>, ...)` calls of a file name.
pub open spec fn table_refs(s: Seq<char>, needle: Seq<char>) -> Seq<Seq<char>> {
    seqs::each(text::hits(s, needle, 0), table_call(s, needle))
}

/// The tables that the `needle(<string>, ...)` calls of a file name. Only fires
/// when the first argument is a string literal (a dynamic `DB::table($x)` is
/// skipped).
fn static_string_args(s: &[char], needle: &str) -> (r: Vec<String>)
    ensures
        seqs::views(r@) == table_refs(s@, needle@),
{
    let places = text::occurrences(s, needle);
    let n = text::length_of(needle);
    let ghost ks = text::hits(s@, needle@, 0);
    let mut out: Vec<String> = Vec::new();
    let mut k: usize = 0;
    while k < places.len()
        invariant
            n == needle@.len(),
            k <= places@.len(),
            ks == text::hits(s@, needle@, 0),
            text::are_hits(s@, needle@, places@),
            seqs::views(out@) + seqs::each_from(ks, k as int, table_call(s@, needle@)) == table_refs(s@, needle@),
        decreases places@.len() - k,
    {
        let i = places[k];
        assert(ks[k as int] == i);
        if !scan::is_preceded(s, i, CharSet::Word) {
            let o = text::skip(s, i + n, CharSet::AsciiSpace);
            if scan::is_at(s, o, CharSet::One('(')) {
                let a = text::skip(s, o + 1, CharSet::AsciiSpace);
                if scan::is_at(s, a, CharSet::Quote) {
                    let e = scan::close_quote(s, a + 1, s[a]);
                    out.push(string_of(slice_subrange(s, a + 1, e)));
                }
            }
        }
        k += 1;
    }
    out
}

/// The tables that the `needle` calls of a file touch, by `relation`.
pub open spec fn table_links(rel: Seq<char>, s: Seq<char>, needle: Seq<char>, relation: Seq<char>) -> FoundView {
    model::linked("table:"@, "table"@, rel, relation, table_refs(s, needle))
}

/// Every table that a file defines by a migration or uses by the query builder.
pub open spec fn tables(rel: Seq<char>, s: Seq<char>) -> FoundView {
    table_links(rel, s, "Schema::create"@, "migrates"@).plus(
        table_links(rel, s, "Schema::table"@, "migrates"@),
    ).plus(table_links(rel, s, "Schema::rename"@, "migrates"@)).plus(
        table_links(rel, s, "Schema::drop"@, "migrates"@),
    ).plus(table_links(rel, s, "Schema::dropIfExists"@, "migrates"@)).plus(
        table_links(rel, s, "DB::table"@, "uses-table"@),
    )
}

/// Links the file to the tables that its `needle` calls name.
fn scan_static_string_arg(rel: &str, s: &[char], needle: &str, relation: &'static str) -> (r: Found)
    ensures
        r@ == table_links(rel@, s@, needle@, relation@),
{
    link_all("table:", "table", rel, relation, &static_string_args(s, needle))
}

/// Scan a file for table references and emit file -> `table:<name>` edges (plus
/// the shared table node): `Schema::create/table/...('x')` (a migration defining
/// a table, relation `migrates`) and `DB::table('x')` (query-builder usage,
/// relation `uses-table`). Both join to the model of the same table.
pub fn scan_tables(rel: &str, code: &str, nodes: &mut Vec<Node>, edges: &mut Vec<RawEdge>)
    ensures
        model::appended(
            old(nodes)@,
            old(edges)@,
            final(nodes)@,
            final(edges)@,
            tables(rel@, code@).deduped(),
        ),
{
    let s = chars_of(code);
    let mut out = scan_static_string_arg(rel, &s, "Schema::create", "migrates");
    out.add_all(scan_static_string_arg(rel, &s, "Schema::table", "migrates"));
    out.add_all(scan_static_string_arg(rel, &s, "Schema::rename", "migrates"));
    out.add_all(scan_static_string_arg(rel, &s, "Schema::drop", "migrates"));
    out.add_all(scan_static_string_arg(rel, &s, "Schema::dropIfExists", "migrates"));
    out.add_all(scan_static_string_arg(rel, &s, "DB::table", "uses-table"));
    out.emit(nodes, edges);
}

// ---------------------------------------------------------------------------
// Hand-written SQL

/// Where a table name goes on that stands at index `i`, behind the prefix that is
/// concatenated in before it (`" . MAIN_DB_PREFIX . "`), if there is one.
pub open spec fn past_prefix(s: Seq<char>, i: int) -> int {
    let e = text::seek(s, i + 1, CharSet::Quote);
    let glue = text::trimmed(s.subrange(i + 1, e), CharSet::Space);
    if scan::at(s, i, CharSet::Quote) && e < s.len() && s[e] == s[i] && glue.len() >= 2 && glue[0] == '.'
        && glue.last() == '.' && !text::some_in(glue, CharSet::One(';')) {
        e + 1
    } else {
        i
    }
}

fn skip_prefix(s: &[char], i: usize) -> (r: usize)
    requires
        i <= s@.len(),
    ensures
        r == past_prefix(s@, i as int),
        r <= s@.len(),
{
    if !scan::is_at(s, i, CharSet::Quote) {
        return i;
    }
    let e = text::look(s, i + 1, CharSet::Quote);
    if e >= s.len() || s[e] != s[i] {
        return i;
    }
    let glue = text::trim(slice_subrange(s, i + 1, e), CharSet::Space);
    let n = glue.len();
    if n < 2 || glue[0] != '.' || glue[n - 1] != '.' {
        return i;
    }
    if text::look(glue, 0, CharSet::One(';')) < n {
        return i;
    }
    e + 1
}

/// The word before index `i`, white space aside.
pub open spec fn keyword_before(s: Seq<char>, i: int) -> Seq<char> {
    let h = text::run_back(s, i, CharSet::AsciiSpace);
    s.subrange(text::run_back(s, h, CharSet::Word), h)
}

/// The table that the SQL keyword `verb` at index `i` is followed by: a plain name,
/// which may stand in back quotes or behind a prefix that is concatenated in. The
/// `UPDATE` of an `ON DUPLICATE KEY UPDATE` is followed by a column, and that of an
/// `ON UPDATE` by what to do.
pub open spec fn sql_table(s: Seq<char>, verb: Seq<char>, i: int) -> Option<Seq<char>> {
    let a = text::run(s, i + verb.len(), CharSet::AsciiSpace);
    let b = past_prefix(s, a);
    let c = if scan::at(s, b, CharSet::One('`')) { b + 1 } else { b };
    let before = keyword_before(s, i);
    if scan::preceded(s, i, CharSet::Word) || a == i + verb.len() || (verb == "UPDATE"@ && (before == "KEY"@
        || before == "ON"@)) {
        None
    } else {
        dolibarr::sql_name(s, c)
    }
}

pub open spec fn sql_table_of(s: Seq<char>, verb: Seq<char>) -> spec_fn(int) -> Seq<Seq<char>> {
    |i: int| seqs::opt_seq(sql_table(s, verb, i))
}

/// The tables that the SQL keyword `verb` is followed by.
pub open spec fn sql_refs(s: Seq<char>, verb: Seq<char>) -> Seq<Seq<char>> {
    seqs::each(text::hits(s, verb, 0), sql_table_of(s, verb))
}

/// The tables that the queries of a file name, as they are written in upper case:
/// `FROM <table>`, `JOIN <table>`, `INTO <table>` and `UPDATE <table>`.
pub open spec fn sql_tables(rel: Seq<char>, s: Seq<char>) -> FoundView {
    model::linked(
        "table:"@,
        "table"@,
        rel,
        "uses-table"@,
        sql_refs(s, "FROM"@) + (sql_refs(s, "JOIN"@) + (sql_refs(s, "INTO"@) + sql_refs(s, "UPDATE"@))),
    )
}

fn tables_behind(s: &[char], verb: &str) -> (r: Vec<String>)
    ensures
        seqs::views(r@) == sql_refs(s@, verb@),
{
    let places = text::occurrences(s, verb);
    let n = text::length_of(verb);
    let updates = is_text(&chars_of(verb), "UPDATE");
    let ghost ks = text::hits(s@, verb@, 0);
    let ghost f = sql_table_of(s@, verb@);
    let mut out: Vec<String> = Vec::new();
    let mut k: usize = 0;
    while k < places.len()
        invariant
            n == verb@.len(),
            updates == (verb@ == "UPDATE"@),
            k <= places@.len(),
            ks == text::hits(s@, verb@, 0),
            f == sql_table_of(s@, verb@),
            text::are_hits(s@, verb@, places@),
            seqs::views(out@) + seqs::each_from(ks, k as int, f) == sql_refs(s@, verb@),
        decreases places@.len() - k,
    {
        let i = places[k];
        assert(ks[k as int] == i);
        let a = text::skip(s, i + n, CharSet::AsciiSpace);
        let h = text::skip_back(s, i, CharSet::AsciiSpace);
        let before = slice_subrange(s, text::skip_back(s, h, CharSet::Word), h);
        let clause = updates && (is_text(before, "KEY") || is_text(before, "ON"));
        if !scan::is_preceded(s, i, CharSet::Word) && a > i + n && !clause {
            let b = skip_prefix(s, a);
            let c: usize = if scan::is_at(s, b, CharSet::One('`')) {
                b + 1
            } else {
                b
            };
            if let Some(name) = dolibarr::read_table_name(s, c) {
                out.push(name);
            }
        }
        k += 1;
    }
    out
}

/// Raw-SQL table usages (`FROM`/`JOIN`/`INTO`/`UPDATE <table>`) -> `uses-table`
/// edges, so a hand-written query joins the model/migration at `table:<name>`.
pub fn scan_raw_sql_tables(rel: &str, code: &str, nodes: &mut Vec<Node>, edges: &mut Vec<RawEdge>)
    ensures
        model::appended(
            old(nodes)@,
            old(edges)@,
            final(nodes)@,
            final(edges)@,
            sql_tables(rel@, code@).deduped(),
        ),
{
    let s = chars_of(code);
    let mut names = tables_behind(&s, "FROM");
    let mut joined = tables_behind(&s, "JOIN");
    let mut filled = tables_behind(&s, "INTO");
    let mut updated = tables_behind(&s, "UPDATE");
    names.append(&mut joined);
    names.append(&mut filled);
    names.append(&mut updated);
    link_all("table:", "table", rel, "uses-table", &names).emit(nodes, edges);
}

// ---------------------------------------------------------------------------
// Data migrations

/// A file that fills tables: a migration or a seeder.
pub open spec fn fills_tables(rel: Seq<char>) -> bool {
    text::includes(rel, "migrations/"@) || text::includes(rel, "seeders/"@) || text::includes(rel, "seeds/"@)
}

/// The class that the `use` at index `i` imports from a `Models` namespace.
pub open spec fn imported_model(s: Seq<char>, i: int) -> Option<Seq<char>> {
    let a = text::run(s, i + "use"@.len(), CharSet::AsciiSpace);
    let name = s.subrange(a, text::run(s, a, CharSet::Qualified));
    if scan::preceded(s, i, CharSet::Word) || a == i + "use"@.len() || !text::includes(name, "Models\\"@)
        || bare(name).len() == 0 {
        None
    } else {
        Some(bare(name))
    }
}

/// A static method of the class is called by the `class::` at index `i`.
pub open spec fn is_static_call(s: Seq<char>, class: Seq<char>, i: int) -> bool {
    let a = i + class.len() + 2;
    let b = text::run(s, a, CharSet::Word);
    !scan::preceded(s, i, CharSet::Word) && a < b && scan::at(s, b, CharSet::One('('))
}

/// A static method of the class is called somewhere.
pub open spec fn is_called_on(s: Seq<char>, class: Seq<char>) -> bool {
    let ks = text::hits(s, class + "::"@, 0);
    exists|k: int| 0 <= k < ks.len() && is_static_call(s, class, #[trigger] ks[k])
}

pub open spec fn filled_table(rel: Seq<char>, s: Seq<char>) -> spec_fn(int) -> Seq<EdgeView> {
    |i: int|
        match imported_model(s, i) {
            Some(class) => if is_called_on(s, class) {
                seq![model::named_edge(rel, "migrates"@, conventional_table(class))]
            } else {
                Seq::empty()
            },
            None => Seq::empty(),
        }
}

/// A `migrates` edge to the conventional table of each imported model that a
/// migration or seeder calls.
pub open spec fn filled_tables(rel: Seq<char>, s: Seq<char>) -> Seq<EdgeView> {
    if fills_tables(rel) {
        seqs::each(text::hits(s, "use"@, 0), filled_table(rel, s))
    } else {
        Seq::empty()
    }
}

fn read_imported_model(s: &[char], i: usize) -> (r: Option<String>)
    requires
        text::occurs(s@, i as int, "use"@),
        s@.len() <= usize::MAX,
    ensures
        seqs::opt_view(r) == imported_model(s@, i as int),
{
    let n = text::length_of("use");
    let a = text::skip(s, i + n, CharSet::AsciiSpace);
    let name = slice_subrange(s, a, text::skip(s, a, CharSet::Qualified));
    if scan::is_preceded(s, i, CharSet::Word) || a == i + n || !text::has_text(name, "Models\\") {
        return None;
    }
    let class = scan::behind_last(name, '\\');
    if class.len() == 0 {
        None
    } else {
        Some(string_of(class))
    }
}

fn has_static_call(s: &[char], class: &str) -> (r: bool)
    ensures
        r == is_called_on(s@, class@),
{
    proof {
        reveal_strlit("::");
    }
    let needle = join2(class, "::");
    let places = text::occurrences(s, &needle);
    let n = text::length_of(&needle);
    let ghost ks = text::hits(s@, needle@, 0);
    assert(ks.len() == places@.len());
    let mut k: usize = 0;
    while k < places.len()
        invariant
            n == needle@.len() == class@.len() + 2,
            k <= places@.len() == ks.len(),
            needle@ == class@ + "::"@,
            ks == text::hits(s@, needle@, 0),
            text::are_hits(s@, needle@, places@),
            forall|j: int| 0 <= j < k ==> !is_static_call(s@, class@, #[trigger] ks[j]),
        decreases places@.len() - k,
    {
        let i = places[k];
        assert(ks[k as int] == i);
        let b = text::skip(s, i + n, CharSet::Word);
        if !scan::is_preceded(s, i, CharSet::Word) && i + n < b && scan::is_at(s, b, CharSet::One('(')) {
            assert(is_static_call(s@, class@, ks[k as int]));
            return true;
        }
        k += 1;
    }
    false
}

/// Data migrations write rows via an Eloquent model (not `Schema`/`DB::table`): link
/// a migration or seeder to the table of each model that it imports and calls, so
/// `callers table:x` sees the seeders. The model's own file mints the table's node;
/// the table is the one that the convention gives, since a `$table` of the model
/// stands in that file.
pub fn scan_data_migrations(rel: &str, code: &str, edges: &mut Vec<RawEdge>)
    ensures
        seqs::views(final(edges)@) == seqs::views(old(edges)@) + filled_tables(rel@, code@),
{
    let r = chars_of(rel);
    let ghost first = seqs::views(edges@);
    if !text::has_text(&r, "migrations/") && !text::has_text(&r, "seeders/") && !text::has_text(&r, "seeds/") {
        return;
    }
    let s = chars_of(code);
    let places = text::occurrences(&s, "use");
    let ghost ks = text::hits(s@, "use"@, 0);
    let ghost f = filled_table(rel@, s@);
    let mut k: usize = 0;
    while k < places.len()
        invariant
            k <= places@.len(),
            s@ == code@,
            ks == text::hits(s@, "use"@, 0),
            f == filled_table(rel@, s@),
            text::are_hits(s@, "use"@, places@),
            seqs::views(edges@) + seqs::each_from(ks, k as int, f) == first + seqs::each(ks, f),
        decreases places@.len() - k,
    {
        assert(ks[k as int] == places@[k as int]);
        if let Some(class) = read_imported_model(&s, places[k]) {
            if has_static_call(&s, &class) {
                edges.push(RawEdge::named(rel.to_string(), "migrates", convention_table(&class)));
            }
        }
        k += 1;
    }
}

// ---------------------------------------------------------------------------
// Route files

/// The resource-family `Route::<x>(...)` methods, whose argument list may bind
/// several controllers at once.
pub open spec fn is_resource_method(m: Seq<char>) -> bool {
    ||| m == "resource"@
    ||| m == "apiResource"@
    ||| m == "resources"@
    ||| m == "apiResources"@
    ||| m == "singleton"@
    ||| m == "apiSingleton"@
}

/// The `Route::<x>(...)` methods that wire a single controller: the HTTP verbs
/// (an action second argument), and `controller(...)` (a group's controller).
pub open spec fn is_route_method(m: Seq<char>) -> bool {
    ||| m == "get"@
    ||| m == "post"@
    ||| m == "put"@
    ||| m == "patch"@
    ||| m == "delete"@
    ||| m == "any"@
    ||| m == "options"@
    ||| m == "match"@
    ||| m == "controller"@
}

/// Whether `m` is a resource-family route method.
fn is_resource(m: &[char]) -> (r: bool)
    ensures
        r == is_resource_method(m@),
{
    is_text(m, "resource") || is_text(m, "apiResource") || is_text(m, "resources") || is_text(
        m,
        "apiResources",
    ) || is_text(m, "singleton") || is_text(m, "apiSingleton")
}

/// Whether `m` is a route method that wires a single controller.
fn is_route(m: &[char]) -> (r: bool)
    ensures
        r == is_route_method(m@),
{
    is_text(m, "get") || is_text(m, "post") || is_text(m, "put") || is_text(m, "patch") || is_text(
        m,
        "delete",
    ) || is_text(m, "any") || is_text(m, "options") || is_text(m, "match") || is_text(m, "controller")
}

pub open spec fn class_const_of(s: Seq<char>) -> spec_fn(int) -> Seq<Seq<char>> {
    |i: int| seqs::opt_seq(class_const(s, i))
}

/// Every `X::class` of an argument list, as the bare name, in source order.
pub open spec fn class_consts(args: Seq<char>) -> Seq<Seq<char>> {
    seqs::each(text::hits(args, "::class"@, 0), class_const_of(args))
}

/// Every `X::class` in an argument slice, de-qualified to the bare name, in
/// source order. Used for the resource family, where one call can bind several
/// controllers (`Route::apiResources(['a' => A::class, 'b' => B::class])`).
fn every_class_const(args: &[char]) -> (r: Vec<String>)
    ensures
        seqs::views(r@) == class_consts(args@),
{
    let places = text::occurrences(args, "::class");
    let ghost ks = text::hits(args@, "::class"@, 0);
    let mut out: Vec<String> = Vec::new();
    let mut k: usize = 0;
    while k < places.len()
        invariant
            k <= places@.len(),
            ks == text::hits(args@, "::class"@, 0),
            text::are_hits(args@, "::class"@, places@),
            seqs::views(out@) + seqs::each_from(ks, k as int, class_const_of(args@)) == class_consts(args@),
        decreases places@.len() - k,
    {
        assert(ks[k as int] == places@[k as int]);
        if let Some(name) = class_before(args, places[k]) {
            out.push(name);
        }
        k += 1;
    }
    out
}

/// The class of a `Class@method` action; nothing for any other text.
pub open spec fn action_class(s: Seq<char>) -> Option<Seq<char>> {
    let i = text::seek(s, 0, CharSet::One('@'));
    if 0 < i < s.len() - 1 && text::all_in(s.subrange(0, i), CharSet::Qualified) && text::all_in(
        s.subrange(i + 1, s.len() as int),
        CharSet::Word,
    ) {
        Some(bare(s.subrange(0, i)))
    } else {
        None
    }
}

/// The class of the first literal, from index `i` on, that is a `Class@method`
/// action.
pub open spec fn string_action(s: Seq<char>, i: int) -> Option<Seq<char>>
    decreases s.len() - i,
{
    if i < 0 || i >= s.len() {
        None
    } else if CharSet::Quote.has(s[i]) {
        let e = scan::closing(s, i + 1, s[i]);
        proof {
            scan::lemma_closing(s, i + 1, s[i]);
        }
        if action_class(s.subrange(i + 1, e)) is Some {
            action_class(s.subrange(i + 1, e))
        } else if e < s.len() {
            string_action(s, e + 1)
        } else {
            None
        }
    } else {
        string_action(s, i + 1)
    }
}

/// The class of a `Class@method` action.
fn read_action(s: &[char]) -> (r: Option<String>)
    ensures
        seqs::opt_view(r) == action_class(s@),
{
    let i = text::look(s, 0, CharSet::One('@'));
    if i == 0 || i >= s.len() || i + 1 == s.len() {
        return None;
    }
    let class = slice_subrange(s, 0, i);
    let method = slice_subrange(s, i + 1, s.len());
    if text::is_all(class, CharSet::Qualified) && text::is_all(method, CharSet::Word) {
        Some(string_of(scan::behind_last(class, '\\')))
    } else {
        None
    }
}

/// The class part of the first `'Class@method'` string action in `args`, if any.
/// Both parts must be well-formed (class chars `[A-Za-z0-9_\\]`, method chars
/// `[A-Za-z0-9_]`) so non-action strings (a path, an email) are not mistaken
/// for one.
fn controller_from_string_action(s: &[char]) -> (r: Option<String>)
    ensures
        seqs::opt_view(r) == string_action(s@, 0),
{
    let mut i: usize = 0;
    while i < s.len()
        invariant
            i <= s@.len(),
            string_action(s@, i as int) == string_action(s@, 0),
        decreases s@.len() - i,
    {
        if CharSet::Quote.test(s[i]) {
            let e = scan::close_quote(s, i + 1, s[i]);
            let found = read_action(slice_subrange(s, i + 1, e));
            if found.is_some() {
                return found;
            }
            if e >= s.len() {
                return None;
            }
            i = e + 1;
        } else {
            i += 1;
        }
    }
    None
}

/// The controller class referenced in a route call's argument list: the
/// identifier before the first `X::class`, else the class part of the first
/// `'Class@method'` string action.
pub open spec fn controller(args: Seq<char>) -> Option<Seq<char>> {
    if first_class(args) is Some {
        first_class(args)
    } else {
        string_action(args, 0)
    }
}

/// The controller class referenced in a route call's argument list.
fn controller_ref(args: &[char]) -> (r: Option<String>)
    ensures
        seqs::opt_view(r) == controller(args@),
{
    let class = first_class_const(args);
    if class.is_some() {
        return class;
    }
    controller_from_string_action(args)
}

/// A route path with a leading `/` (an empty path becomes `/`).
pub open spec fn normal_route(path: Seq<char>) -> Seq<char> {
    if path.len() > 0 && path[0] == '/' {
        path
    } else {
        "/"@ + path
    }
}

/// Normalise a route path to a leading `/` (an empty path becomes `/`), matching
/// the `route:<path>` node id convention the router/e2e scanners use.
pub fn normalize_route(path: &[char]) -> (r: String)
    ensures
        r@ == normal_route(path@),
{
    if path.len() > 0 && path[0] == '/' {
        string_of(path)
    } else {
        join2("/", &string_of(path))
    }
}

/// A route and what serves it: the route's node, and the edge to the controller.
pub open spec fn served(rel: Seq<char>, path: Seq<char>, target: Seq<char>) -> FoundView {
    FoundView {
        nodes: seq![model::route_node(rel, normal_route(path))],
        edges: seq![model::named_edge("route:"@ + normal_route(path), "serves"@, target)],
    }
}

/// A route and what serves it.
fn serve(rel: &str, path: &[char], target: &str) -> (r: Found)
    ensures
        r@ == served(rel@, path@, target@),
{
    let route = normalize_route(path);
    let mut out = Found::none();
    out.edges.push(RawEdge::named(join2("route:", &route), "serves", target.to_string()));
    out.nodes.push(make_join("route:", "route", rel, &route));
    assert(out@ =~= served(rel@, path@, target@));
    out
}

/// The first argument of a call, where it is a string literal.
pub open spec fn leading_literal(args: Seq<char>) -> Option<Seq<char>> {
    let a = text::run(args, 0, CharSet::Space);
    let e = scan::closing(args, a + 1, args[a]);
    let b = text::run(args, e + 1, CharSet::Space);
    if scan::at(args, a, CharSet::Quote) && e < args.len() && (b >= args.len() || args[b] == ',') {
        Some(args.subrange(a + 1, e))
    } else {
        None
    }
}

fn read_leading_literal<'a>(args: &'a [char]) -> (r: Option<&'a [char]>)
    ensures
        seqs::opt_view(r) == leading_literal(args@),
{
    let a = text::skip(args, 0, CharSet::Space);
    if !scan::is_at(args, a, CharSet::Quote) {
        return None;
    }
    let e = scan::close_quote(args, a + 1, args[a]);
    if e >= args.len() {
        return None;
    }
    let b = text::skip(args, e + 1, CharSet::Space);
    if b < args.len() && args[b] != ',' {
        return None;
    }
    Some(slice_subrange(args, a + 1, e))
}

/// The route of a file-based definition, from its first string argument
/// (`Route::get('/x', ...)` -> `route:/x`), and the controller that serves it.
/// Nothing when the controller is the base `Controller`, or the first argument is
/// not a string literal (a variable path).
pub open spec fn file_route(rel: Seq<char>, args: Seq<char>, class: Seq<char>) -> FoundView {
    if class == "Controller"@ {
        FoundView::none()
    } else {
        match leading_literal(args) {
            Some(path) => served(rel, path, class),
            None => FoundView::none(),
        }
    }
}

/// The route of a file-based definition.
fn mint_route(rel: &str, args: &[char], class: &str) -> (r: Found)
    ensures
        r@ == file_route(rel@, args@, class@),
{
    if text::same(class, "Controller") {
        return Found::none();
    }
    match read_leading_literal(args) {
        Some(path) => serve(rel, path, class),
        None => Found::none(),
    }
}

pub open spec fn controller_edge(rel: Seq<char>) -> spec_fn(Seq<char>) -> FoundView {
    |class: Seq<char>|
        if class == "Controller"@ {
            FoundView::none()
        } else {
            FoundView {
                nodes: Seq::empty(),
                edges: seq![model::named_edge(rel, "routes-to"@, class)],
            }
        }
}

/// Emit a `routes-to` edge for a wired controller, skipping the base
/// `Controller` (`app/Http/Controllers/Controller.php`): a `Controller::class`
/// reference or a group's base is not a route action, so it is not a target.
fn push_controller_edge(rel: &str, class: &str, out: &mut Found)
    ensures
        final(out)@ == old(out)@.plus(controller_edge(rel@)(class@)),
{
    if !text::same(class, "Controller") {
        out.edges.push(RawEdge::named(rel.to_string(), "routes-to", class.to_string()));
    }
    assert(out@ =~= old(out)@.plus(controller_edge(rel@)(class@)));
}

/// What a route call with this method and these arguments wires.
pub open spec fn route_call(rel: Seq<char>, method: Seq<char>, args: Seq<char>) -> FoundView {
    if is_resource_method(method) {
        let classes = class_consts(args);
        let minted = if classes.len() == 1 {
            file_route(rel, args, classes[0])
        } else {
            FoundView::none()
        };
        minted.plus(model::found_each(classes, controller_edge(rel)))
    } else if is_route_method(method) {
        match controller(args) {
            Some(class) => file_route(rel, args, class).plus(controller_edge(rel)(class)),
            None => FoundView::none(),
        }
    } else {
        FoundView::none()
    }
}

/// What a route call with this method and these arguments wires.
fn read_route_call(rel: &str, method: &[char], args: &[char]) -> (r: Found)
    ensures
        r@ == route_call(rel@, method@, args@),
{
    let mut out = Found::none();
    // The resource family may bind many controllers in one call (the plural
    // array form especially); every other verb names a single controller.
    if is_resource(method) {
        let classes = every_class_const(args);
        let ghost all = seqs::views(classes@);
        // A single-controller resource gets one base `route:<name>` node; the
        // plural array form binds several controllers to distinct paths, so
        // that path is ambiguous -- keep the controller edges only.
        if classes.len() == 1 {
            assert(all[0] == classes@[0]@);
            out = mint_route(rel, args, &classes[0]);
        }
        let ghost first = out@;
        let mut k: usize = 0;
        while k < classes.len()
            invariant
                k <= classes@.len(),
                all == seqs::views(classes@),
                out@.plus(model::found_from(all, k as int, controller_edge(rel@))) == first.plus(
                    model::found_each(all, controller_edge(rel@)),
                ),
            decreases classes@.len() - k,
        {
            assert(all[k as int] == classes@[k as int]@);
            push_controller_edge(rel, &classes[k], &mut out);
            k += 1;
        }
        assert(out@ =~= first.plus(model::found_each(all, controller_edge(rel@))));
    } else if is_route(method) {
        if let Some(class) = controller_ref(args) {
            out = mint_route(rel, args, &class);
            push_controller_edge(rel, &class, &mut out);
        }
    }
    out
}

/// What the `Route::` at index `i` wires.
pub open spec fn route_at(rel: Seq<char>, s: Seq<char>, i: int) -> FoundView {
    let a = i + "Route::"@.len();
    let b = text::run(s, a, CharSet::Word);
    let o = text::run(s, b, CharSet::AsciiSpace);
    let c = scan::partner(s, o, '(', ')', CharSet::Quote);
    if scan::preceded(s, i, CharSet::Word) || !scan::at(s, o, CharSet::One('(')) || c >= s.len() {
        FoundView::none()
    } else {
        route_call(rel, s.subrange(a, b), s.subrange(o + 1, c))
    }
}

pub open spec fn route_of(rel: Seq<char>, s: Seq<char>) -> spec_fn(int) -> FoundView {
    |i: int| route_at(rel, s, i)
}

/// Everything that the route calls of a file wire.
pub open spec fn routes(rel: Seq<char>, s: Seq<char>) -> FoundView {
    model::found_each(text::hits(s, "Route::"@, 0), route_of(rel, s))
}

/// Scan a Laravel route file for controller references and emit a `routes-to`
/// edge from the file to each wired controller class (de-qualified bare name).
/// Every controller reference in a route definition takes one of two shapes,
/// both captured from the argument list of a recognised `Route::<x>(...)` call:
///
/// * a `Controller::class` constant -- in an action array `[C::class, 'method']`,
///   a lone invokable `[C::class]`, a `Route::resource('n', C::class)` /
///   `apiResource` / `singleton` / `apiSingleton` binding, or a
///   `Route::controller(C::class)` group.
/// * a string action `'C@method'` / `'App\Http\Controllers\C@method'`.
///
/// Only literal references are captured; a closure/arrow action or a dynamic
/// (`$var`) reference yields nothing. The class is the target (the specific
/// method is not resolved), later resolved by unique class name like heritage.
pub fn scan_routes(rel: &str, code: &str, nodes: &mut Vec<Node>, edges: &mut Vec<RawEdge>)
    ensures
        model::appended(
            old(nodes)@,
            old(edges)@,
            final(nodes)@,
            final(edges)@,
            routes(rel@, code@).deduped(),
        ),
{
    let s = chars_of(code);
    let places = text::occurrences(&s, "Route::");
    let n = text::length_of("Route::");
    let ghost ks = text::hits(s@, "Route::"@, 0);
    let mut out = Found::none();
    let mut k: usize = 0;
    while k < places.len()
        invariant
            n == "Route::"@.len(),
            k <= places@.len(),
            ks == text::hits(s@, "Route::"@, 0),
            text::are_hits(s@, "Route::"@, places@),
            out@.plus(model::found_from(ks, k as int, route_of(rel@, s@))) == routes(rel@, s@),
        decreases places@.len() - k,
    {
        let i = places[k];
        assert(ks[k as int] == i);
        let b = text::skip(&s, i + n, CharSet::Word);
        let o = text::skip(&s, b, CharSet::AsciiSpace);
        if !scan::is_preceded(&s, i, CharSet::Word) && scan::is_at(&s, o, CharSet::One('(')) {
            let c = scan::close_bracket(&s, o, '(', ')', CharSet::Quote);
            if c < s.len() {
                out.add_all(
                    read_route_call(rel, slice_subrange(&s, i + n, b), slice_subrange(&s, o + 1, c)),
                );
            }
        }
        k += 1;
    }
    assert(out@ =~= routes(rel@, s@));
    out.emit(nodes, edges);
}

// ---------------------------------------------------------------------------
// Route attributes

/// A bare route-defining PHP 8 attribute: `Route` with an explicit path, or a
/// verb that carries the path as its first argument.
pub open spec fn is_route_attr(a: Seq<char>) -> bool {
    ||| a == "Route"@
    ||| a == "Get"@
    ||| a == "Post"@
    ||| a == "Put"@
    ||| a == "Patch"@
    ||| a == "Delete"@
    ||| a == "Options"@
    ||| a == "Any"@
}

/// The last segment of a namespaced OpenAPI operation attribute.
pub open spec fn is_openapi_verb(a: Seq<char>) -> bool {
    ||| a == "Get"@
    ||| a == "Post"@
    ||| a == "Put"@
    ||| a == "Patch"@
    ||| a == "Delete"@
    ||| a == "Head"@
    ||| a == "Options"@
}

pub open spec fn argument_at(args: Seq<char>, needle: Seq<char>) -> spec_fn(int) -> Option<Option<Seq<char>>> {
    |i: int|
        if scan::preceded(args, i, CharSet::Word) {
            None
        } else {
            Some(
                scan::literal(
                    args.subrange(i + needle.len(), args.len() as int),
                    CharSet::Quote,
                ),
            )
        }
}

/// The string literal value of a `name:` named argument, where the name is not
/// the tail of a longer one (`xpath:` is not `path:`).
pub open spec fn named_argument(args: Seq<char>, name: Seq<char>) -> Option<Seq<char>> {
    let needle = name + ":"@;
    match seqs::first_some(text::hits(args, needle, 0), argument_at(args, needle)) {
        Some(v) => v,
        None => None,
    }
}

/// The string literal value of a `name:` named argument.
fn named_arg_string(args: &[char], name: &str) -> (r: Option<String>)
    ensures
        seqs::opt_view(r) == named_argument(args@, name@),
{
    let needle = join2(name, ":");
    let places = text::occurrences(args, &needle);
    let n = text::length_of(&needle);
    let ghost ks = text::hits(args@, needle@, 0);
    let mut k: usize = 0;
    while k < places.len()
        invariant
            n == needle@.len(),
            needle@ == name@ + ":"@,
            k <= places@.len(),
            ks == text::hits(args@, needle@, 0),
            text::are_hits(args@, needle@, places@),
            seqs::first_from(ks, k as int, argument_at(args@, needle@)) == seqs::first_some(
                ks,
                argument_at(args@, needle@),
            ),
        decreases places@.len() - k,
    {
        assert(ks[k as int] == places@[k as int]);
        if !scan::is_preceded(args, places[k], CharSet::Word) {
            return match scan::first_literal(slice_subrange(args, places[k] + n, args.len()), CharSet::Quote) {
                Some(l) => Some(string_of(l)),
                None => None,
            };
        }
        k += 1;
    }
    None
}

/// The path that an attribute of this name and with these arguments defines.
pub open spec fn attribute_path(attr: Seq<char>, args: Seq<char>) -> Option<Seq<char>> {
    if text::some_in(attr, CharSet::One('\\')) {
        if is_openapi_verb(bare(attr)) {
            named_argument(args, "path"@)
        } else {
            None
        }
    } else if is_route_attr(attr) {
        if named_argument(args, "path"@) is Some {
            named_argument(args, "path"@)
        } else {
            scan::literal(args, CharSet::Quote)
        }
    } else {
        None
    }
}

/// The path that an attribute defines. A bare routing attribute (`#[Route('/x')]`,
/// `#[Get('/x')]`) takes its path positionally or as `path:`. A namespaced OpenAPI
/// operation attribute (`#[OA\Post(path: '/x')]`) names the same route via `path:`.
/// Anything else (`#[OA\Schema]`, a plain annotation) is not a route.
fn read_attribute_path(attr: &[char], args: &[char]) -> (r: Option<String>)
    ensures
        seqs::opt_view(r) == attribute_path(attr@, args@),
{
    if text::has_any(attr, CharSet::One('\\')) {
        let verb = scan::behind_last(attr, '\\');
        if is_text(verb, "Get") || is_text(verb, "Post") || is_text(verb, "Put") || is_text(verb, "Patch")
            || is_text(verb, "Delete") || is_text(verb, "Head") || is_text(verb, "Options") {
            return named_arg_string(args, "path");
        }
        None
    } else if is_text(attr, "Route") || is_text(attr, "Get") || is_text(attr, "Post") || is_text(attr, "Put")
        || is_text(attr, "Patch") || is_text(attr, "Delete") || is_text(attr, "Options") || is_text(
        attr,
        "Any",
    ) {
        let named = named_arg_string(args, "path");
        if named.is_some() {
            return named;
        }
        match scan::first_literal(args, CharSet::Quote) {
            Some(l) => Some(string_of(l)),
            None => None,
        }
    } else {
        None
    }
}

/// The class that the `class` keyword at index `i` declares.
pub open spec fn declared_class(s: Seq<char>, i: int) -> Option<Seq<char>> {
    let a = text::run(s, i + "class"@.len(), CharSet::AsciiSpace);
    let b = text::run(s, a, CharSet::Word);
    if scan::preceded(s, i, CharSet::Word) || a == i + "class"@.len() || a == b {
        None
    } else {
        Some(s.subrange(a, b))
    }
}

pub open spec fn declared_class_of(s: Seq<char>) -> spec_fn(int) -> Option<Seq<char>> {
    |i: int| declared_class(s, i)
}

/// The name of the first class that a file declares.
pub open spec fn file_class(s: Seq<char>) -> Option<Seq<char>> {
    seqs::first_some(text::hits(s, "class"@, 0), declared_class_of(s))
}

/// The name of the file's class (its route-attribute target). The first `class`
/// keyword followed by an identifier; `Route::class` and the like are ignored
/// (a `::class` constant is not the `class Name {` declaration).
fn file_class_name(s: &[char]) -> (r: Option<String>)
    ensures
        seqs::opt_view(r) == file_class(s@),
{
    let places = text::occurrences(s, "class");
    let n = text::length_of("class");
    let ghost ks = text::hits(s@, "class"@, 0);
    let mut k: usize = 0;
    while k < places.len()
        invariant
            n == "class"@.len(),
            k <= places@.len(),
            ks == text::hits(s@, "class"@, 0),
            text::are_hits(s@, "class"@, places@),
            seqs::first_from(ks, k as int, declared_class_of(s@)) == file_class(s@),
        decreases places@.len() - k,
    {
        let i = places[k];
        assert(ks[k as int] == i);
        let a = text::skip(s, i + n, CharSet::AsciiSpace);
        let b = text::skip(s, a, CharSet::Word);
        if !scan::is_preceded(s, i, CharSet::Word) && a > i + n && b > a {
            return Some(string_of(slice_subrange(s, a, b)));
        }
        k += 1;
    }
    None
}

/// The route that the attribute opened by the `#[` at index `i` defines.
pub open spec fn attribute_at(rel: Seq<char>, target: Seq<char>, s: Seq<char>, i: int) -> FoundView {
    let a = if scan::at(s, i + 2, CharSet::One('\\')) {
        i + 3
    } else {
        i + 2
    };
    let b = text::run(s, a, CharSet::Qualified);
    let o = text::run(s, b, CharSet::AsciiSpace);
    let c = scan::partner(s, o, '(', ')', CharSet::Quote);
    if a == b || !scan::at(s, o, CharSet::One('(')) || c >= s.len() {
        FoundView::none()
    } else {
        match attribute_path(s.subrange(a, b), s.subrange(o + 1, c)) {
            Some(path) => served(rel, path, target),
            None => FoundView::none(),
        }
    }
}

pub open spec fn attribute_of(rel: Seq<char>, target: Seq<char>, s: Seq<char>) -> spec_fn(int) -> FoundView {
    |i: int| attribute_at(rel, target, s, i)
}

/// The routes that the attributes of a file define, served by the file's class,
/// or by the file itself where it declares none.
pub open spec fn attribute_routes(rel: Seq<char>, s: Seq<char>) -> FoundView {
    let target = match file_class(s) {
        Some(c) => c,
        None => rel,
    };
    model::found_each(text::hits(s, "#["@, 0), attribute_of(rel, target, s))
}

/// Scan a controller file for route-defining PHP attributes and, for each, emit
/// a `route:<path>` node (kind `route`, id `route:<path>` -- the same join node
/// the e2e/router scanners emit, so `callers route:/x` reaches every surface
/// that touches the path) plus a `serves` edge from that node to the enclosing
/// controller. The controller is the file's class (resolved to its node by
/// unique name), else the file itself. `route:` nodes are de-duplicated per file.
pub fn scan_route_attributes(rel: &str, code: &str, nodes: &mut Vec<Node>, edges: &mut Vec<RawEdge>)
    ensures
        model::appended(
            old(nodes)@,
            old(edges)@,
            final(nodes)@,
            final(edges)@,
            attribute_routes(rel@, code@).deduped(),
        ),
{
    proof {
        reveal_strlit("#[");
    }
    let s = chars_of(code);
    let target = match file_class_name(&s) {
        Some(c) => c,
        None => rel.to_string(),
    };
    let places = text::occurrences(&s, "#[");
    let ghost ks = text::hits(s@, "#["@, 0);
    let mut out = Found::none();
    let mut k: usize = 0;
    while k < places.len()
        invariant
            "#["@.len() == 2,
            k <= places@.len(),
            ks == text::hits(s@, "#["@, 0),
            text::are_hits(s@, "#["@, places@),
            out@.plus(model::found_from(ks, k as int, attribute_of(rel@, target@, s@))) == model::found_each(
                ks,
                attribute_of(rel@, target@, s@),
            ),
        decreases places@.len() - k,
    {
        assert(ks[k as int] == places@[k as int]);
        let mut a: usize = places[k] + 2;
        if scan::is_at(&s, a, CharSet::One('\\')) {
            a += 1;
        }
        let b = text::skip(&s, a, CharSet::Qualified);
        let o = text::skip(&s, b, CharSet::AsciiSpace);
        if b > a && scan::is_at(&s, o, CharSet::One('(')) {
            let c = scan::close_bracket(&s, o, '(', ')', CharSet::Quote);
            if c < s.len() {
                let path = read_attribute_path(slice_subrange(&s, a, b), slice_subrange(&s, o + 1, c));
                if let Some(p) = path {
                    out.add_all(serve(rel, &chars_of(&p), &target));
                }
            }
        }
        k += 1;
    }
    assert(out@ =~= attribute_routes(rel@, s@));
    out.emit(nodes, edges);
}

} // verus!
