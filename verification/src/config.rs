//! `phpcs.xml` / `phpstan.neon` -> the "standard files" they activate.
//!
//! A linter config is an entry point: it turns on sniff/rule classes that no
//! application code ever calls, so `missing` would flag them as dead. Scanning
//! the config links it to each in-repo file/class it references via `configures`
//! edges, so `callers <Sniff>` shows the config that enables it and the class
//! stops reading as unreferenced.

use vstd::prelude::*;
use vstd::slice::slice_subrange;

use crate::laravel;
use crate::model;
use crate::model::{EdgeView, RawEdge};
use crate::paths;
use crate::reading;
use crate::scan;
use crate::seqs;
use crate::text;
use crate::text::{chars_of, is_text, string_of, CharSet};

verus! {

broadcast use {crate::seqs::group_text, text::lemma_run, text::lemma_seek};

/// A linter config.
#[derive(Clone, Copy)]
pub enum Linter {
    Phpcs,
    Phpstan,
}

/// The linter that a file of this name configures.
pub open spec fn linter(name: Seq<char>) -> Option<Linter> {
    if name == "phpcs.xml"@ || name == "phpcs.xml.dist"@ {
        Some(Linter::Phpcs)
    } else if name == "phpstan.neon"@ || name == "phpstan.neon.dist"@ {
        Some(Linter::Phpstan)
    } else {
        None
    }
}

/// The linter that a file of this name configures, if any.
pub fn linter_of(name: &str) -> (r: Option<Linter>)
    ensures
        r == linter(name@),
{
    let n = chars_of(name);
    if is_text(&n, "phpcs.xml") || is_text(&n, "phpcs.xml.dist") {
        Some(Linter::Phpcs)
    } else if is_text(&n, "phpstan.neon") || is_text(&n, "phpstan.neon.dist") {
        Some(Linter::Phpstan)
    } else {
        None
    }
}

/// The `ref="..."` / `ref='...'` attribute values of an XML text from index `i` on.
pub open spec fn refs_from(s: Seq<char>, i: int) -> Seq<Seq<char>>
    decreases s.len() - i,
{
    let a = text::find(s, "ref="@, i);
    let b = a + "ref="@.len();
    if i < 0 || i > s.len() || a >= s.len() {
        Seq::empty()
    } else {
        let e = text::seek(s, b + 1, CharSet::One(s[b]));
        proof {
            reveal_strlit("ref=");
            text::lemma_find(s, "ref="@, i);
            if b < s.len() {
                text::lemma_seek(s, b + 1, CharSet::One(s[b]));
            }
        }
        if scan::at(s, b, CharSet::Quote) && e < s.len() {
            seq![s.subrange(b + 1, e)] + refs_from(s, e)
        } else {
            refs_from(s, b)
        }
    }
}

/// Every `ref="..."` / `ref='...'` attribute value in an XML text.
pub fn ref_values(text: &str) -> (r: Vec<String>)
    ensures
        seqs::views(r@) == refs_from(text@, 0),
{
    let s = chars_of(text);
    let n = text::length_of("ref=");
    let mut out: Vec<String> = Vec::new();
    let mut i: usize = 0;
    loop
        invariant
            n == "ref="@.len(),
            i <= s@.len(),
            s@ == text@,
            seqs::views(out@) + refs_from(s@, i as int) == refs_from(s@, 0),
        decreases s@.len() - i,
    {
        proof {
            reveal_strlit("ref=");
        }
        let a = text::search(&s, "ref=", i);
        if a >= s.len() {
            return out;
        }
        let b = a + n;
        i = b;
        if scan::is_at(&s, b, CharSet::Quote) {
            let e = text::look(&s, b + 1, CharSet::One(s[b]));
            if e < s.len() {
                out.push(string_of(slice_subrange(&s, b + 1, e)));
                i = e;
            }
        }
    }
}

/// Resolve a `./x`/`../x` config-relative path against the config file's dir.
pub fn join_relative(dir: &str, spec: &str) -> (r: String)
    ensures
        r@ == paths::joined_in(dir@, spec@),
{
    paths::join_in(&chars_of(dir), spec)
}

pub open spec fn sniff_edge(source: Seq<char>, dir: Seq<char>) -> spec_fn(Seq<char>) -> Seq<EdgeView> {
    |value: Seq<char>|
        if paths::has_extension(value, "php"@) {
            seq![model::named_edge(source, "configures"@, paths::joined_in(dir, value))]
        } else {
            Seq::empty()
        }
}

/// A `configures` edge to each sniff file that a phpcs ruleset refers to.
pub open spec fn sniff_edges(source: Seq<char>, dir: Seq<char>, s: Seq<char>) -> Seq<EdgeView> {
    seqs::each(refs_from(s, 0), sniff_edge(source, dir))
}

/// phpcs `<rule ref="./path/to/Sniff.php"/>`: a `.php` ref is an in-repo sniff
/// file -- resolve it against the config's dir and emit a `configures` edge. A
/// dotted `Generic.Files.LineLength` ref is an external standard, and is skipped.
pub fn scan_phpcs(source: &str, dir: &str, text: &str, edges: &mut Vec<RawEdge>)
    ensures
        seqs::views(final(edges)@) == seqs::views(old(edges)@) + sniff_edges(source@, dir@, text@),
{
    let values = ref_values(text);
    let ghost all = seqs::views(values@);
    let ghost first = seqs::views(edges@);
    let mut k: usize = 0;
    while k < values.len()
        invariant
            k <= values@.len(),
            all == seqs::views(values@),
            seqs::views(edges@) + seqs::each_from(all, k as int, sniff_edge(source@, dir@)) == first
                + seqs::each(all, sniff_edge(source@, dir@)),
        decreases values@.len() - k,
    {
        assert(all[k as int] == values@[k as int]@);
        if paths::is_extension(&values[k], "php") {
            edges.push(RawEdge::named(source.to_string(), "configures", join_relative(dir, &values[k])));
        }
        k += 1;
    }
}

pub open spec fn neon_edge(source: Seq<char>, dir: Seq<char>) -> spec_fn(Seq<char>) -> Seq<EdgeView> {
    |line: Seq<char>|
        {
            let l = text::trimmed(line, CharSet::Space);
            let item = text::trimmed(l.subrange(2, l.len() as int), CharSet::Space);
            let value = text::trimmed(item, CharSet::Quote);
            if !text::starts(l, "- "@) {
                Seq::empty()
            } else if text::some_in(value, CharSet::One('\\')) {
                seq![model::named_edge(source, "configures"@, laravel::bare(value))]
            } else if paths::has_extension(value, "neon"@) {
                seq![model::named_edge(source, "configures"@, paths::joined_in(dir, value))]
            } else {
                Seq::empty()
            }
        }
}

/// A `configures` edge to each class and neon file that a phpstan config lists.
pub open spec fn neon_edges(source: Seq<char>, dir: Seq<char>, s: Seq<char>) -> Seq<EdgeView> {
    seqs::each(text::lines(s), neon_edge(source, dir))
}

/// phpstan neon list items: a `- Vendor\...\FooRule` FQCN (a `rules:` or
/// `services:` entry) links to its class by bare name; a `- x.neon` entry links
/// to that neon file. Indentation is irrelevant to the linkage, so a flat line
/// scan suffices.
pub fn scan_phpstan(source: &str, dir: &str, text: &str, edges: &mut Vec<RawEdge>)
    ensures
        seqs::views(final(edges)@) == seqs::views(old(edges)@) + neon_edges(source@, dir@, text@),
{
    let s = chars_of(text);
    let lines = text::split_lines(&s);
    let ghost all = seqs::views(lines@);
    let ghost first = seqs::views(edges@);
    let mut k: usize = 0;
    while k < lines.len()
        invariant
            k <= lines@.len(),
            all == seqs::views(lines@),
            seqs::views(edges@) + seqs::each_from(all, k as int, neon_edge(source@, dir@)) == first
                + seqs::each(all, neon_edge(source@, dir@)),
        decreases lines@.len() - k,
    {
        proof {
            reveal_strlit("- ");
        }
        assert(all[k as int] == lines@[k as int]@);
        let l = text::trim(lines[k], CharSet::Space);
        if text::starts_with(l, "- ") {
            let item = text::trim(slice_subrange(l, 2, l.len()), CharSet::Space);
            let value = text::trim(item, CharSet::Quote);
            if text::has_any(value, CharSet::One('\\')) {
                let class = string_of(scan::behind_last(value, '\\'));
                edges.push(RawEdge::named(source.to_string(), "configures", class));
            } else {
                let path = string_of(value);
                if paths::is_extension(&path, "neon") {
                    edges.push(RawEdge::named(source.to_string(), "configures", join_relative(dir, &path)));
                }
            }
        }
        k += 1;
    }
}

/// The edges of the linter config `rel`.
pub open spec fn config_edges(kind: Linter, rel: Seq<char>, s: Seq<char>) -> Seq<EdgeView> {
    match kind {
        Linter::Phpcs => sniff_edges(rel, scan::dir_part(rel), s),
        Linter::Phpstan => neon_edges(rel, scan::dir_part(rel), s),
    }
}

/// Emits `configures` edges from the config file `rel` to the sniff files (phpcs
/// `<rule ref="./X.php">`) and rule/service classes (phpstan `- Vendor\...\FooRule`)
/// it activates.
pub fn scan_config(kind: Linter, rel: &str, text: &str, edges: &mut Vec<RawEdge>)
    ensures
        seqs::views(final(edges)@) == seqs::views(old(edges)@) + config_edges(kind, rel@, text@),
{
    let path = chars_of(rel);
    let dir = string_of(scan::directory(&path));
    match kind {
        Linter::Phpcs => scan_phpcs(rel, &dir, text, edges),
        Linter::Phpstan => scan_phpstan(rel, &dir, text, edges),
    }
}

/// The files that configure a linter.
pub proof fn linters_go_by_these_files(name: Seq<char>)
    ensures
        linter(name) == Some(Linter::Phpcs) <==> name == "phpcs.xml"@ || name == "phpcs.xml.dist"@,
        linter(name) == Some(Linter::Phpstan) <==> name == "phpstan.neon"@ || name == "phpstan.neon.dist"@,
{
    reveal_strlit("phpcs.xml");
    reveal_strlit("phpcs.xml.dist");
    reveal_strlit("phpstan.neon");
    reveal_strlit("phpstan.neon.dist");
    assert("phpcs.xml"@.len() == 9 && "phpcs.xml.dist"@.len() == 14);
    assert("phpstan.neon"@.len() == 12 && "phpstan.neon.dist"@.len() == 17);
}

/// An entry of a list configures the class that it names, or the file, which stands
/// below the directory of the list.
pub proof fn an_entry_configures_what_it_names(rel: Seq<char>, s: Seq<char>, line: Seq<char>, value: Seq<char>)
    requires
        text::lines(s).contains(line),
        value.len() > 0,
        reading::in_word(value[0]) && reading::in_word(value.last()),
        line == "- "@ + value,
    ensures
        value.contains('\\') ==> config_edges(Linter::Phpstan, rel, s).contains(
            model::named_edge(rel, "configures"@, scan::last_part(value, '\\')),
        ),
        !value.contains('\\') && paths::has_extension(value, "neon"@) ==> config_edges(
            Linter::Phpstan,
            rel,
            s,
        ).contains(model::named_edge(rel, "configures"@, paths::joined_in(scan::dir_part(rel), value))),
{
    reveal_strlit("- ");
    let head = "- "@;
    assert(head[0] == '-' && head[1] == ' ');
    let n = line.len() as int;
    let z = value.len() as int;
    assert(line[0] == '-' && line[n - 1] == value.last());
    reading::lemma_run_to(line, 0, 0, CharSet::Space);
    assert(line.subrange(0, n) =~= line);
    reading::lemma_run_from(line, n, n, CharSet::Space);
    assert(text::trimmed(line, CharSet::Space) == line);
    assert(line.subrange(0, 2) =~= head);
    assert(line.subrange(2, n) =~= value);
    reading::lemma_run_to(value, 0, 0, CharSet::Space);
    reading::lemma_run_to(value, 0, 0, CharSet::Quote);
    assert(value.subrange(0, z) =~= value);
    reading::lemma_run_from(value, z, z, CharSet::Space);
    reading::lemma_run_from(value, z, z, CharSet::Quote);
    assert(text::trimmed(value, CharSet::Space) == value);
    assert(text::trimmed(value, CharSet::Quote) == value);
    let dir = scan::dir_part(rel);
    let f = neon_edge(rel, dir);
    if value.contains('\\') {
        let k = choose|k: int| 0 <= k < value.len() && value[k] == '\\';
        assert(CharSet::One('\\').has(value[k]));
        let e = model::named_edge(rel, "configures"@, scan::last_part(value, '\\'));
        assert(f(line)[0] == e);
        reading::lemma_given(text::lines(s), f, line, e);
    } else if paths::has_extension(value, "neon"@) {
        assert(!text::some_in(value, CharSet::One('\\'))) by {
            if text::some_in(value, CharSet::One('\\')) {
                let k = choose|k: int| 0 <= k < value.len() && CharSet::One('\\').has(#[trigger] value[k]);
                assert(value.contains(value[k]));
            }
        }
        let e = model::named_edge(rel, "configures"@, paths::joined_in(dir, value));
        assert(f(line)[0] == e);
        reading::lemma_given(text::lines(s), f, line, e);
    }
}

} // verus!
