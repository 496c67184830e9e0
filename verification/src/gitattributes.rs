//! `.gitattributes` `export-ignore` mapping.
//!
//! `git archive` (the GitHub "source tarball") drops every path marked
//! `export-ignore`, but that list rots as files are renamed or removed and
//! nobody updates the attribute file. Scanning `.gitattributes` links each
//! `export-ignore` pattern to the file or folder it currently names, so
//! `callers <path>` shows what ignores it and `missing` reports a pattern whose
//! target no longer exists -- a stale entry that silently ships junk in (or
//! omits wanted files from) the tarball.

use vstd::prelude::*;

use crate::model;
use crate::model::{plain_node, EdgeView, Node, NodeView, RawEdge};
use crate::reading;
use crate::scan;
use crate::seqs;
use crate::text;
use crate::text::{chars_of, is_text, string_of, CharSet};

verus! {

broadcast use {crate::seqs::group_text, text::lemma_run, text::lemma_seek};

/// A path that an `export-ignore` line names.
#[derive(Debug)]
pub struct Ignored {
    /// The repo-relative path.
    pub path: String,
    /// Whether the pattern is a glob, which names no single path.
    pub glob: bool,
}

/// What an [`Ignored`] says.
pub struct IgnoredView {
    pub path: Seq<char>,
    pub glob: bool,
}

impl View for Ignored {
    type V = IgnoredView;

    open spec fn view(&self) -> IgnoredView {
        IgnoredView { path: self.path@, glob: self.glob }
    }
}

/// The repo-relative path of a pattern: without surrounding quotes, the leading
/// `/` (anchor) and the trailing `/` (directory marker), below the directory of
/// the `.gitattributes` file. An empty, negated (`!`), or up-tree (`..`) pattern
/// names no path.
pub open spec fn pattern_path(dir: Seq<char>, pattern: Seq<char>) -> Option<Seq<char>> {
    let unquoted = text::replaced(text::trimmed(pattern, CharSet::One('"')), '\\', '/');
    let path = text::trimmed_end(text::trimmed_start(unquoted, CharSet::One('/')), CharSet::One('/'));
    if text::starts(pattern, "!"@) || path.len() == 0 || text::starts(path, ".."@) {
        None
    } else if dir.len() == 0 {
        Some(path)
    } else {
        Some(dir + "/"@ + path)
    }
}

/// The repo-relative path of a pattern.
fn read_pattern(dir: &str, pattern: &[char]) -> (r: Option<String>)
    ensures
        seqs::opt_view(r) == pattern_path(dir@, pattern@),
{
    if text::starts_with(pattern, "!") {
        return None;
    }
    let unquoted = text::replace_char(text::trim(pattern, CharSet::One('"')), '\\', '/');
    let path = text::trim_end(text::trim_start(&unquoted, CharSet::One('/')), CharSet::One('/'));
    if path.len() == 0 || text::starts_with(path, "..") {
        return None;
    }
    let path = string_of(path);
    if dir.is_empty() {
        Some(path)
    } else {
        Some(text::join3(dir, "/", &path))
    }
}

/// The words of a line from the second on set `export-ignore`.
pub open spec fn sets_export_ignore(words: Seq<Seq<char>>) -> bool {
    exists|i: int| 1 <= i < words.len() && #[trigger] words[i] == "export-ignore"@
}

/// The path that a line of a `.gitattributes` file marks `export-ignore`. An
/// unset (`-export-ignore`) attribute is no mapping.
pub open spec fn ignored_line(dir: Seq<char>) -> spec_fn(Seq<char>) -> Seq<IgnoredView> {
    |line: Seq<char>|
        {
            let l = text::trimmed(line, CharSet::Space);
            let words = text::words(l);
            if l.len() == 0 || l[0] == '#' || words.len() == 0 || !sets_export_ignore(words) {
                Seq::empty()
            } else {
                match pattern_path(dir, words[0]) {
                    Some(path) => seq![
                        IgnoredView { path, glob: text::some_in(words[0], CharSet::Glob) },
                    ],
                    None => Seq::empty(),
                }
            }
        }
}

/// The paths that a `.gitattributes` file in the directory `dir` marks
/// `export-ignore`.
pub open spec fn ignored(dir: Seq<char>, s: Seq<char>) -> Seq<IgnoredView> {
    seqs::each(text::lines(s), ignored_line(dir))
}

/// Whether the words of a line from the second on set `export-ignore`.
fn is_set(words: &[&[char]]) -> (r: bool)
    ensures
        r == sets_export_ignore(seqs::views(words@)),
{
    let ghost all = seqs::views(words@);
    let mut k: usize = 1;
    while k < words.len()
        invariant
            1 <= k,
            all == seqs::views(words@),
            forall|i: int| 1 <= i < k && i < all.len() ==> #[trigger] all[i] != "export-ignore"@,
        decreases words@.len() - k,
    {
        assert(all[k as int] == words@[k as int]@);
        if is_text(words[k], "export-ignore") {
            return true;
        }
        k += 1;
    }
    false
}

/// The paths that a `.gitattributes` file in the directory `dir` marks
/// `export-ignore`.
pub fn patterns(dir: &str, text: &str) -> (r: Vec<Ignored>)
    ensures
        seqs::views(r@) == ignored(dir@, text@),
{
    let s = chars_of(text);
    let lines = text::split_lines(&s);
    let ghost all = seqs::views(lines@);
    let mut out: Vec<Ignored> = Vec::new();
    let mut k: usize = 0;
    while k < lines.len()
        invariant
            k <= lines@.len(),
            all == seqs::views(lines@),
            seqs::views(out@) + seqs::each_from(all, k as int, ignored_line(dir@)) == seqs::each(
                all,
                ignored_line(dir@),
            ),
        decreases lines@.len() - k,
    {
        assert(all[k as int] == lines@[k as int]@);
        let l = text::trim(lines[k], CharSet::Space);
        if l.len() > 0 && l[0] != '#' {
            let words = text::split_words(l);
            if words.len() > 0 && is_set(&words) {
                assert(seqs::views(words@)[0] == words@[0]@);
                if let Some(path) = read_pattern(dir, words[0]) {
                    out.push(Ignored { path, glob: text::has_any(words[0], CharSet::Glob) });
                }
            }
        }
        k += 1;
    }
    out
}

/// The node of a path that exists, or that a glob stands for.
pub open spec fn path_node(path: Seq<char>) -> NodeView {
    model::unspanned(path, scan::last_part(path, '/'), "path"@, path)
}

/// An `export-ignores` edge from `source` to each of the paths.
pub open spec fn ignore_edges(source: Seq<char>, items: Seq<IgnoredView>) -> Seq<EdgeView> {
    items.map_values(|i: IgnoredView| model::named_edge(source, "export-ignores"@, i.path))
}

/// A node for each path, from index `k` on, that exists on disk or is a glob.
pub open spec fn ignore_nodes(items: Seq<IgnoredView>, exists: Seq<bool>, k: int) -> Seq<NodeView>
    decreases items.len() - k,
{
    if k < 0 || k >= items.len() {
        Seq::empty()
    } else if items[k].glob || exists[k] {
        seq![path_node(items[k].path)] + ignore_nodes(items, exists, k + 1)
    } else {
        ignore_nodes(items, exists, k + 1)
    }
}

/// Links the `.gitattributes` file `source` to the paths it marks. `exists` says
/// of each whether it is on disk; only then, or for a glob (whose existence
/// cannot be checked), the path gets a lightweight `path` node so the edge
/// resolves (and `callers` can list it). A pattern whose target is gone emits
/// only the edge -- it stays unresolved, and `missing` surfaces it as stale.
pub fn link(source: &str, items: &[Ignored], exists: &[bool], nodes: &mut Vec<Node>, edges: &mut Vec<RawEdge>)
    requires
        exists@.len() == items@.len(),
    ensures
        seqs::views(final(nodes)@) == seqs::views(old(nodes)@) + ignore_nodes(
            seqs::views(items@),
            exists@,
            0,
        ),
        seqs::views(final(edges)@) == seqs::views(old(edges)@) + ignore_edges(source@, seqs::views(items@)),
{
    let ghost all = seqs::views(items@);
    let ghost want = ignore_edges(source@, all);
    let ghost first_nodes = seqs::views(nodes@);
    let ghost first_edges = seqs::views(edges@);
    let mut k: usize = 0;
    while k < items.len()
        invariant
            k <= items@.len(),
            exists@.len() == items@.len(),
            all == seqs::views(items@),
            want == ignore_edges(source@, all),
            seqs::views(nodes@) + ignore_nodes(all, exists@, k as int) == first_nodes + ignore_nodes(
                all,
                exists@,
                0,
            ),
            seqs::views(edges@) == first_edges + want.take(k as int),
        decreases items@.len() - k,
    {
        let item = &items[k];
        assert(all[k as int] == item@);
        if item.glob || exists[k] {
            let path = chars_of(&item.path);
            let name = string_of(scan::behind_last(&path, '/'));
            nodes.push(plain_node(item.path.clone(), name, "path", &item.path));
        }
        edges.push(RawEdge::named(source.to_string(), "export-ignores", item.path.clone()));
        assert(want.take(k + 1) =~= want.take(k as int).push(want[k as int]));
        k += 1;
    }
    assert(want.take(k as int) =~= want);
}

/// A plain path: it begins and ends with a character of a name, and has no mark of a
/// pattern or of a quotation.
pub open spec fn is_plain_path(p: Seq<char>) -> bool {
    &&& p.len() > 0
    &&& reading::in_word(p[0]) && reading::in_word(p.last())
    &&& forall|k: int|
        0 <= k < p.len() ==> reading::in_word(#[trigger] p[k]) || p[k] == '/' || p[k] == '.' || p[k] == '-'
}

/// A line that leaves a path out of an export leaves out that path below the directory
/// of its file, whether or not the path is written from the root.
pub proof fn a_line_leaves_its_path_out(
    dir: Seq<char>,
    s: Seq<char>,
    line: Seq<char>,
    path: Seq<char>,
    rooted: bool,
)
    requires
        text::lines(s).contains(line),
        line.len() > 0 && !text::is_space(line[0]) && !text::is_space(line.last()) && line[0] != '#',
        text::words(line) == seq![(if rooted { "/"@ + path } else { path }), "export-ignore"@],
        is_plain_path(path),
    ensures
        dir.len() == 0 ==> ignored(dir, s).contains((IgnoredView { path, glob: false })),
        dir.len() > 0 ==> ignored(dir, s).contains((IgnoredView { path: dir + "/"@ + path, glob: false })),
{
    reveal_strlit("/");
    reveal_strlit("!");
    reveal_strlit("..");
    assert("/"@[0] == '/' && "!"@[0] == '!' && ".."@[0] == '.');
    let word = if rooted { "/"@ + path } else { path };
    let words = text::words(line);
    assert(words[0] == word && words[1] == "export-ignore"@);
    reading::lemma_run_to(line, 0, 0, CharSet::Space);
    assert(line.subrange(0, line.len() as int) =~= line);
    reading::lemma_run_from(line, line.len() as int, line.len() as int, CharSet::Space);
    assert(text::trimmed(line, CharSet::Space) == line);
    let n = word.len() as int;
    assert(word.last() == path.last());
    assert(word[0] == '/' || word[0] == path[0]);
    reading::lemma_run_to(word, 0, 0, CharSet::One('"'));
    assert(word.subrange(0, n) =~= word);
    reading::lemma_run_from(word, n, n, CharSet::One('"'));
    assert(text::trimmed(word, CharSet::One('"')) == word);
    assert(text::replaced(word, '\\', '/') =~= word) by {
        assert forall|k: int| 0 <= k < n implies #[trigger] word[k] != '\\' by {
            assert(rooted && k > 0 ==> word[k] == path[k - 1]);
        }
    }
    if rooted {
        assert(word[1] == path[0]);
        reading::lemma_run_to(word, 0, 1, CharSet::One('/'));
        assert(word.subrange(1, n) =~= path);
    } else {
        reading::lemma_run_to(word, 0, 0, CharSet::One('/'));
    }
    assert(text::trimmed_start(word, CharSet::One('/')) == path);
    let m = path.len() as int;
    reading::lemma_run_from(path, m, m, CharSet::One('/'));
    assert(path.subrange(0, m) =~= path);
    assert(!text::starts(word, "!"@)) by {
        reading::lemma_reads(word, 0, "!"@);
        if reading::reads(word, 0, "!"@) {
            assert(word[0int + 0] == "!"@[0]);
        }
    }
    assert(!text::starts(path, ".."@)) by {
        reading::lemma_reads(path, 0, ".."@);
        if reading::reads(path, 0, ".."@) {
            assert(path[0int + 0] == ".."@[0]);
        }
    }
    assert(!text::some_in(word, CharSet::Glob)) by {
        assert forall|k: int| 0 <= k < n implies !CharSet::Glob.has(#[trigger] word[k]) by {
            assert(rooted && k > 0 ==> word[k] == path[k - 1]);
        }
    }
    let item = IgnoredView {
        path: if dir.len() == 0 {
            path
        } else {
            dir + "/"@ + path
        },
        glob: false,
    };
    assert(ignored_line(dir)(line)[0] == item);
    reading::lemma_given(text::lines(s), ignored_line(dir), line, item);
}

} // verus!
