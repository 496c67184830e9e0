//! Which file of the tree a path, a specifier, or a view name means.

use vstd::hash_set::StringHashSet;
use vstd::prelude::*;
use vstd::slice::slice_subrange;

use crate::scan;
use crate::seqs;
use crate::text;
use crate::text::{chars_of, is_text, join2, string_of, CharSet};

verus! {

/// A path after the segments from index `k` on: `.` and empty segments stay
/// where they are, `..` goes up, any other goes down.
pub open spec fn walked(parts: Seq<Seq<char>>, segs: Seq<Seq<char>>, k: int) -> Seq<Seq<char>>
    decreases segs.len() - k,
{
    if k < 0 || k >= segs.len() {
        parts
    } else if segs[k].len() == 0 || segs[k] == "."@ {
        walked(parts, segs, k + 1)
    } else if segs[k] == ".."@ {
        walked(if parts.len() > 0 { parts.drop_last() } else { parts }, segs, k + 1)
    } else {
        walked(parts.push(segs[k]), segs, k + 1)
    }
}

/// The path that `spec` means in the directory `dir`.
pub open spec fn joined_in(dir: Seq<char>, spec: Seq<char>) -> Seq<char> {
    let start = if dir.len() == 0 {
        Seq::empty()
    } else {
        text::pieces(dir, CharSet::One('/'))
    };
    text::joined(walked(start, text::pieces(spec, CharSet::One('/')), 0), "/"@)
}

/// The path that the specifier `spec` means in the directory of `importer`.
pub open spec fn joined_path(importer: Seq<char>, spec: Seq<char>) -> Seq<char> {
    joined_in(scan::dir_part(importer), spec)
}

/// The path that `spec` means in the directory `dir`.
pub fn join_in(dir: &[char], spec: &str) -> (r: String)
    ensures
        r@ == joined_in(dir@, spec@),
{
    let to = chars_of(spec);
    let mut parts: Vec<&[char]> = Vec::new();
    if dir.len() > 0 {
        parts = text::split(dir, CharSet::One('/'));
    }
    let ghost start = seqs::views(parts@);
    assert(dir@.len() == 0 ==> start =~= Seq::<Seq<char>>::empty());
    let segs = text::split(&to, CharSet::One('/'));
    let ghost all = seqs::views(segs@);
    let mut k: usize = 0;
    while k < segs.len()
        invariant
            k <= segs@.len(),
            all == seqs::views(segs@),
            walked(seqs::views(parts@), all, k as int) == walked(start, all, 0),
        decreases segs@.len() - k,
    {
        let seg = segs[k];
        assert(all[k as int] == seg@);
        if seg.len() == 0 || is_text(seg, ".") {
        } else if is_text(seg, "..") {
            let ghost before = parts@;
            let _ = parts.pop();
            proof {
                if before.len() > 0 {
                    assert(seqs::views(parts@) =~= seqs::views(before).drop_last());
                } else {
                    assert(seqs::views(parts@) =~= seqs::views(before));
                }
            }
        } else {
            let ghost before = seqs::views(parts@);
            parts.push(seg);
            assert(seqs::views(parts@) =~= before.push(seg@));
        }
        k += 1;
    }
    text::join_all(&parts, "/")
}

/// The path that `spec` means in the directory of `importer`.
pub fn join_path(importer: &str, spec: &str) -> (r: String)
    ensures
        r@ == joined_path(importer@, spec@),
{
    join_in(scan::directory(&chars_of(importer)), spec)
}

/// The position of the last of the first `k` path segments that names something:
/// empty and `.` segments do not; -1 where there is none.
pub open spec fn last_named(segs: Seq<Seq<char>>, k: int) -> int
    decreases k,
{
    if k <= 0 || k > segs.len() {
        -1
    } else if segs[k - 1].len() == 0 || segs[k - 1] == "."@ {
        last_named(segs, k - 1)
    } else {
        k - 1
    }
}

/// The extension of the file that a path names: what stands behind the last `.`
/// of its name, where that is not the first character. A path that ends in `..`
/// names no file.
pub open spec fn extension(path: Seq<char>) -> Option<Seq<char>> {
    let segs = text::pieces(path, CharSet::One('/'));
    let i = last_named(segs, segs.len() as int);
    let name = segs[i];
    let d = text::seek_back(name, name.len() as int, CharSet::One('.'));
    if i < 0 || name == ".."@ || d <= 1 {
        None
    } else {
        Some(name.subrange(d, name.len() as int))
    }
}

/// The extension of the file that a path names.
pub fn extension_of(path: &str) -> (r: Option<Vec<char>>)
    ensures
        seqs::opt_view(r) == extension(path@),
{
    let chars = chars_of(path);
    let segs = text::split(&chars, CharSet::One('/'));
    let ghost all = seqs::views(segs@);
    let mut k: usize = segs.len();
    while k > 0
        invariant
            k <= segs@.len(),
            all == seqs::views(segs@),
            all == text::pieces(path@, CharSet::One('/')),
            last_named(all, k as int) == last_named(all, all.len() as int),
        decreases k,
    {
        let name = segs[k - 1];
        assert(all[k - 1] == name@);
        if name.len() == 0 || is_text(name, ".") {
            k -= 1;
        } else {
            let d = text::look_back(name, name.len(), CharSet::One('.'));
            if is_text(name, "..") || d <= 1 {
                return None;
            }
            return Some(chars_of(&string_of(slice_subrange(name, d, name.len()))));
        }
    }
    None
}

/// The path names a file with the extension `ext`, in any letter case.
pub open spec fn has_extension(path: Seq<char>, ext: Seq<char>) -> bool {
    match extension(path) {
        Some(e) => text::lower(e) == ext,
        None => false,
    }
}

/// Whether the path names a file with the lower-case extension `ext`, in any
/// letter case.
pub fn is_extension(path: &str, ext: &str) -> (r: bool)
    ensures
        r == has_extension(path@, ext@),
{
    match extension_of(path) {
        Some(e) => is_text(&text::to_lower(&e), ext),
        None => false,
    }
}

/// Each of the endings behind `base`.
pub open spec fn with_endings(base: Seq<char>, endings: Seq<Seq<char>>) -> Seq<Seq<char>> {
    endings.map_values(|e: Seq<char>| base + e)
}

/// The first of the candidates that is a file.
pub open spec fn first_file(cands: Seq<Seq<char>>, k: int, files: Set<Seq<char>>) -> Option<Seq<char>>
    decreases cands.len() - k,
{
    if k < 0 || k >= cands.len() {
        None
    } else if files.contains(cands[k]) {
        Some(cands[k])
    } else {
        first_file(cands, k + 1, files)
    }
}

/// The extensions that a module specifier may leave out.
pub open spec fn module_endings() -> Seq<Seq<char>> {
    seq![
        ""@,
        ".ts"@,
        ".tsx"@,
        ".js"@,
        ".jsx"@,
        ".vue"@,
        ".mts"@,
        ".cts"@,
        ".mjs"@,
        ".cjs"@,
    ]
}

/// The extensions that a module specifier writes for the emitted script.
pub open spec fn script_endings() -> Seq<Seq<char>> {
    seq![".js"@, ".jsx"@, ".mjs"@, ".cjs"@]
}

/// The extensions of the source that a script was emitted from.
pub open spec fn twin_endings() -> Seq<Seq<char>> {
    seq![".ts"@, ".tsx"@, ".mts"@, ".cts"@, ".vue"@]
}

/// The files that stand for a directory.
pub open spec fn index_endings() -> Seq<Seq<char>> {
    seq!["/index.ts"@, "/index.tsx"@, "/index.js"@, "/index.vue"@, "/index.mjs"@]
}

/// The extensions that a page-component path may leave out.
pub open spec fn component_endings() -> Seq<Seq<char>> {
    seq![".ts"@, ".tsx"@, ".js"@, ".jsx"@, ".vue"@, ".mts"@]
}

pub open spec fn twins_of(path: Seq<char>) -> spec_fn(Seq<char>) -> Seq<Seq<char>> {
    |js: Seq<char>|
        if text::ends(path, js) {
            with_endings(path.subrange(0, path.len() - js.len()), twin_endings())
        } else {
            Seq::empty()
        }
}

/// The files that a relative module specifier may mean, by its joined path: with
/// the usual extensions, with the extension of the source that the written script
/// was emitted from (`./x.js` refers to `x.ts`), or as a directory's index.
pub open spec fn module_files(path: Seq<char>) -> Seq<Seq<char>> {
    with_endings(path, module_endings()) + seqs::each(script_endings(), twins_of(path)) + with_endings(
        path,
        index_endings(),
    )
}

/// The file that the relative specifier `spec` means in the file `importer`.
pub open spec fn relative_file(importer: Seq<char>, spec: Seq<char>, files: Set<Seq<char>>) -> Option<Seq<char>> {
    first_file(module_files(joined_path(importer, spec)), 0, files)
}

/// Appends each of the endings behind `base`.
fn push_endings(base: &str, endings: &[&str], out: &mut Vec<String>)
    ensures
        seqs::views(final(out)@) == seqs::views(old(out)@) + with_endings(base@, seqs::views(endings@)),
{
    broadcast use seqs::lemma_views_push;

    let ghost before = seqs::views(out@);
    let ghost want = with_endings(base@, seqs::views(endings@));
    let mut k: usize = 0;
    assert(before + want.take(0) =~= before);
    while k < endings.len()
        invariant
            k <= endings@.len(),
            want == with_endings(base@, seqs::views(endings@)),
            seqs::views(out@) == before + want.take(k as int),
        decreases endings@.len() - k,
    {
        out.push(join2(base, endings[k]));
        assert(before + want.take(k + 1) =~= (before + want.take(k as int)).push(want[k as int]));
        k += 1;
    }
    assert(want.take(k as int) =~= want);
}

/// The first of the candidates that is a file.
fn pick_file(cands: &[String], files: &StringHashSet) -> (r: Option<String>)
    ensures
        seqs::opt_view(r) == first_file(seqs::views(cands@), 0, files@),
{
    let ghost all = seqs::views(cands@);
    let mut k: usize = 0;
    while k < cands.len()
        invariant
            k <= cands@.len(),
            all == seqs::views(cands@),
            first_file(all, k as int, files@) == first_file(all, 0, files@),
        decreases cands@.len() - k,
    {
        assert(all[k as int] == cands@[k as int]@);
        if files.contains(&cands[k]) {
            return Some(cands[k].clone());
        }
        k += 1;
    }
    None
}

/// Resolve a relative JS/TS import specifier (`./x`, `../y/z`) against the
/// importing file's directory to a known file, trying the usual extension and
/// `index.*` candidates.
pub fn resolve_relative(importer: &str, spec: &str, files: &StringHashSet) -> (r: Option<String>)
    ensures
        seqs::opt_view(r) == relative_file(importer@, spec@, files@),
{
    let path = join_path(importer, spec);
    let mut cands: Vec<String> = Vec::new();
    let exts: [&str; 10] = ["", ".ts", ".tsx", ".js", ".jsx", ".vue", ".mts", ".cts", ".mjs", ".cjs"];
    assert(seqs::views(exts@) =~= module_endings());
    push_endings(&path, &exts, &mut cands);
    push_twins(&path, &mut cands);
    let indexes: [&str; 5] = ["/index.ts", "/index.tsx", "/index.js", "/index.vue", "/index.mjs"];
    assert(seqs::views(indexes@) =~= index_endings());
    push_endings(&path, &indexes, &mut cands);
    assert(seqs::views(cands@) =~= module_files(path@));
    pick_file(&cands, files)
}

/// Appends the sources that a written script path may have been emitted from.
fn push_twins(path: &str, cands: &mut Vec<String>)
    ensures
        seqs::views(final(cands)@) == seqs::views(old(cands)@) + seqs::each(script_endings(), twins_of(path@)),
{
    broadcast use {seqs::lemma_add_assoc, seqs::lemma_add_empty};

    let chars = chars_of(path);
    let scripts: [&str; 4] = [".js", ".jsx", ".mjs", ".cjs"];
    let twins: [&str; 5] = [".ts", ".tsx", ".mts", ".cts", ".vue"];
    assert(seqs::views(twins@) =~= twin_endings());
    assert(seqs::views(scripts@) =~= script_endings());
    let ghost before = seqs::views(cands@);
    let ghost js = script_endings();
    let mut k: usize = 0;
    while k < 4
        invariant
            k <= 4,
            js == seqs::views(scripts@),
            js.len() == 4,
            chars@ == path@,
            seqs::views(twins@) == twin_endings(),
            seqs::views(cands@) + seqs::each_from(js, k as int, twins_of(path@)) == before + seqs::each(
                js,
                twins_of(path@),
            ),
        decreases 4 - k,
    {
        assert(js[k as int] == scripts@[k as int]@);
        if text::ends_with(&chars, scripts[k]) {
            let stem = string_of(slice_subrange(&chars, 0, chars.len() - text::length_of(scripts[k])));
            push_endings(&stem, &twins, cands);
        }
        k += 1;
    }
}

/// The file that an already-joined page-component path means: itself, or the
/// first that its extension left out gives.
pub open spec fn component_file(path: Seq<char>, files: Set<Seq<char>>) -> Option<Seq<char>> {
    first_file(seq![path] + with_endings(path, component_endings()), 0, files)
}

/// Match an already-joined component path to a file node, inferring the
/// extension (`src/app/home/home.component` -> `...home.component.ts`). An exact
/// path (a spec that already carried `.vue`) matches directly.
pub fn match_component_file(base: &str, files: &StringHashSet) -> (r: Option<String>)
    ensures
        seqs::opt_view(r) == component_file(base@, files@),
{
    let mut cands: Vec<String> = Vec::new();
    cands.push(base.to_string());
    let exts: [&str; 6] = [".ts", ".tsx", ".js", ".jsx", ".vue", ".mts"];
    assert(seqs::views(exts@) =~= component_endings());
    assert(seqs::views(cands@) =~= seq![base@]);
    push_endings(base, &exts, &mut cands);
    assert(seqs::views(cands@) =~= seq![base@] + with_endings(base@, component_endings()));
    pick_file(&cands, files)
}

/// `f` is the only file whose path ends with `tail`.
pub open spec fn is_only_file(files: Set<Seq<char>>, tail: Seq<char>, f: Seq<char>) -> bool {
    &&& files.contains(f) && text::ends(f, tail)
    &&& forall|g: Seq<char>| #[trigger] files.contains(g) && text::ends(g, tail) ==> g == f
}

/// The template file that a view name means under one extension: the path
/// itself, else the only file whose path ends with it.
pub open spec fn view_file_as(base: Seq<char>, ext: Seq<char>, files: Set<Seq<char>>) -> Option<Seq<char>> {
    if files.contains(base + ext) {
        Some(base + ext)
    } else if exists|f: Seq<char>| is_only_file(files, "/"@ + (base + ext), f) {
        Some(choose|f: Seq<char>| is_only_file(files, "/"@ + (base + ext), f))
    } else {
        None
    }
}

/// The template file that a view name means: Blade dotted `layouts.app` ->
/// `.../layouts/app.blade.php`, or Twig slashed `database/row` ->
/// `.../database/row.twig`.
pub open spec fn view_file(name: Seq<char>, files: Set<Seq<char>>) -> Option<Seq<char>> {
    let base = text::replaced(name, '.', '/');
    if view_file_as(base, ".blade.php"@, files) is Some {
        view_file_as(base, ".blade.php"@, files)
    } else {
        view_file_as(base, ".twig"@, files)
    }
}

/// The template file that a view name means under one extension.
fn view_as(base: &str, ext: &str, files: &StringHashSet, paths: &[Vec<char>]) -> (r: Option<String>)
    requires
        files@ == seqs::views(paths@).to_set(),
    ensures
        seqs::opt_view(r) == view_file_as(base@, ext@, files@),
{
    let suffix = join2(base, ext);
    if files.contains(&suffix) {
        return Some(suffix);
    }
    let tail = join2("/", &suffix);
    let ghost all = seqs::views(paths@);
    let mut hit: Option<usize> = None;
    let mut k: usize = 0;
    while k < paths.len()
        invariant
            k <= paths@.len(),
            all == seqs::views(paths@),
            hit is None ==> forall|j: int| 0 <= j < k ==> !text::ends(#[trigger] all[j], tail@),
            hit matches Some(i) ==> i < k && text::ends(all[i as int], tail@) && forall|j: int|
                0 <= j < k && text::ends(#[trigger] all[j], tail@) ==> all[j] == all[i as int],
            files@ == all.to_set(),
            !files@.contains(base@ + ext@),
            tail@ == "/"@ + (base@ + ext@),
        decreases paths@.len() - k,
    {
        let p = &paths[k];
        assert(all[k as int] == p@);
        if text::ends_with(p, &tail) {
            match hit {
                None => {
                    hit = Some(k);
                },
                Some(i) => {
                    assert(all[i as int] == paths@[i as int]@);
                    let other = string_of(&paths[i]);
                    if !is_text(p, &other) {
                        proof {
                            assert(all.contains(all[k as int]) && all.contains(all[i as int]));
                            assert(files@.contains(all[k as int]) && files@.contains(all[i as int]));
                            assert forall|f: Seq<char>| !is_only_file(files@, tail@, f) by {}
                        }
                        return None;
                    }
                },
            }
        }
        k += 1;
    }
    match hit {
        Some(i) => {
            proof {
                let f = all[i as int];
                assert(all.contains(f));
                assert forall|g: Seq<char>| #[trigger] files@.contains(g) && text::ends(g, tail@) implies g
                    == f by {
                    assert(all.contains(g));
                    let j = choose|j: int| 0 <= j < all.len() && all[j] == g;
                    assert(text::ends(all[j], tail@));
                }
                assert(is_only_file(files@, tail@, f));
                let g = choose|g: Seq<char>| is_only_file(files@, tail@, g);
                assert(files@.contains(f) && text::ends(f, tail@));
                assert(g == f);
            }
            Some(string_of(&paths[i]))
        },
        None => {
            proof {
                assert forall|f: Seq<char>| !is_only_file(files@, tail@, f) by {
                    if files@.contains(f) && text::ends(f, tail@) {
                        assert(all.contains(f));
                        let j = choose|j: int| 0 <= j < all.len() && all[j] == f;
                        assert(!text::ends(all[j], tail@));
                    }
                }
            }
            None
        },
    }
}

/// Resolve a view name to a template file node by unique path-suffix match.
/// Nothing when it is ambiguous or unknown -- e.g. namespaced/kebab component
/// tags (`mail::message`, `input-group`).
pub fn resolve_view(name: &str, files: &StringHashSet, paths: &[Vec<char>]) -> (r: Option<String>)
    requires
        files@ == seqs::views(paths@).to_set(),
    ensures
        seqs::opt_view(r) == view_file(name@, files@),
{
    let base = string_of(&text::replace_char(&chars_of(name), '.', '/'));
    let blade = view_as(&base, ".blade.php", files, paths);
    if blade.is_some() {
        return blade;
    }
    view_as(&base, ".twig", files, paths)
}

/// The file that a `dol_include_once('/module/path.php')` means. The path is
/// doc-root-absolute: it is tried as it stands (leading `/` dropped), then with
/// the leading module-directory segment removed; else the name is kept.
pub open spec fn dol_file(name: Seq<char>, files: Set<Seq<char>>) -> Seq<char> {
    let path = text::trimmed_start(name, CharSet::One('/'));
    let i = text::seek(path, 0, CharSet::One('/'));
    let rest = path.subrange(i + 1, path.len() as int);
    if files.contains(path) {
        path
    } else if i < path.len() && files.contains(rest) {
        rest
    } else {
        name
    }
}

/// The file that a `dol_include_once` path means.
pub fn resolve_dol_path(name: &str, files: &StringHashSet) -> (r: String)
    ensures
        r@ == dol_file(name@, files@),
{
    let c = chars_of(name);
    let path = text::trim_start(&c, CharSet::One('/'));
    let whole = string_of(path);
    if files.contains(&whole) {
        return whole;
    }
    let i = text::look(path, 0, CharSet::One('/'));
    if i < path.len() {
        let rest = string_of(slice_subrange(path, i + 1, path.len()));
        if files.contains(&rest) {
            return rest;
        }
    }
    name.to_string()
}

// ---------------------------------------------------------------------------
// Laws

proof fn lemma_first_file(cands: Seq<Seq<char>>, k: int, files: Set<Seq<char>>)
    requires
        k >= 0,
    ensures
        first_file(cands, k, files) matches Some(f) ==> files.contains(f) && cands.contains(f),
    decreases cands.len() - k,
{
    if k < cands.len() {
        lemma_first_file(cands, k + 1, files);
    }
}

/// What a relative specifier, a page component, or a view name resolves to is a
/// known file.
pub proof fn resolved_paths_are_files(importer: Seq<char>, name: Seq<char>, files: Set<Seq<char>>)
    ensures
        relative_file(importer, name, files) matches Some(f) ==> files.contains(f),
        component_file(name, files) matches Some(f) ==> files.contains(f),
        view_file(name, files) matches Some(f) ==> files.contains(f),
{
    lemma_first_file(module_files(joined_path(importer, name)), 0, files);
    lemma_first_file(seq![name] + with_endings(name, component_endings()), 0, files);
}

// ---------------------------------------------------------------------------
// What a path means

/// The segment names something: it is neither empty, nor `.`, nor `..`.
pub open spec fn is_plain(seg: Seq<char>) -> bool {
    seg.len() > 0 && !seg.contains('/') && seg != "."@ && seg != ".."@
}

proof fn lemma_walked_plain(parts: Seq<Seq<char>>, seg: Seq<char>, rest: Seq<Seq<char>>)
    requires
        is_plain(seg),
    ensures
        walked(parts, seq![seg] + rest, 0) == walked(parts.push(seg), rest, 0),
{
    lemma_walked_shift(parts.push(seg), seq![seg], rest, 0);
    assert((seq![seg] + rest)[0] == seg);
}

proof fn lemma_walked_shift(parts: Seq<Seq<char>>, a: Seq<Seq<char>>, b: Seq<Seq<char>>, j: int)
    requires
        0 <= j,
    ensures
        walked(parts, a + b, a.len() + j) == walked(parts, b, j),
    decreases b.len() - j,
{
    if j < b.len() {
        assert((a + b)[a.len() + j] == b[j]);
        let next = if b[j].len() == 0 || b[j] == "."@ {
            parts
        } else if b[j] == ".."@ {
            if parts.len() > 0 { parts.drop_last() } else { parts }
        } else {
            parts.push(b[j])
        };
        lemma_walked_shift(next, a, b, j + 1);
    }
}

proof fn lemma_spec_pieces(seg: Seq<char>, rest: Seq<char>)
    requires
        !seg.contains('/'),
    ensures
        text::pieces(seg + seq!['/'] + rest, CharSet::One('/')) == seq![seg] + text::pieces(
            rest,
            CharSet::One('/'),
        ),
        text::pieces(seg, CharSet::One('/')) == seq![seg],
{
    text::a_text_is_cut_at_each_mark(seg, '/', rest);
}

proof fn lemma_dots()
    ensures
        !"."@.contains('/'),
        !".."@.contains('/'),
        "."@ != ".."@,
        ".."@.len() > 0,
        "/"@ == seq!['/'],
{
    reveal_strlit(".");
    reveal_strlit("..");
    reveal_strlit("/");
    assert("/"@ =~= seq!['/']);
    assert(".."@.len() == 2);
    assert("."@.len() == 1);
}

/// `./x` is `x`, and `../x` is `x` one directory up.
pub proof fn dots_stay_and_go_up(dir: Seq<char>, down: Seq<char>, rest: Seq<char>)
    requires
        dir.len() > 0,
        !down.contains('/'),
    ensures
        joined_in(dir, "."@ + seq!['/'] + rest) == joined_in(dir, rest),
        joined_in(dir + seq!['/'] + down, ".."@ + seq!['/'] + rest) == joined_in(dir, rest),
{
    let k = CharSet::One('/');
    let start = text::pieces(dir, k);
    let rs = text::pieces(rest, k);
    lemma_dots();
    lemma_spec_pieces("."@, rest);
    lemma_spec_pieces(".."@, rest);
    text::a_text_is_cut_at_each_mark(dir, '/', down);
    lemma_spec_pieces(down, rest);
    assert(text::pieces(dir + seq!['/'] + down, k) == start + seq![down]);
    lemma_walked_shift(start, seq!["."@], rs, 0);
    assert((seq!["."@] + rs)[0] == "."@);
    assert(walked(start, seq!["."@] + rs, 0) == walked(start, seq!["."@] + rs, 1));
    lemma_walked_shift(start, seq![".."@], rs, 0);
    assert((seq![".."@] + rs)[0] == ".."@);
    assert((start + seq![down]).drop_last() =~= start);
    assert(walked(start + seq![down], seq![".."@] + rs, 0) == walked(start, seq![".."@] + rs, 1));
}

/// The parts of a specifier are gone down one by one.
pub proof fn plain_parts_go_down(dir: Seq<char>, down: Seq<char>, rest: Seq<char>)
    requires
        dir.len() > 0,
        is_plain(down),
    ensures
        joined_in(dir, down + seq!['/'] + rest) == joined_in(dir + seq!['/'] + down, rest),
        joined_in(Seq::empty(), down + seq!['/'] + rest) == joined_in(down, rest),
{
    let k = CharSet::One('/');
    let start = text::pieces(dir, k);
    let rs = text::pieces(rest, k);
    lemma_spec_pieces(down, rest);
    text::a_text_is_cut_at_each_mark(dir, '/', down);
    assert(text::pieces(dir + seq!['/'] + down, k) =~= start.push(down));
    lemma_walked_plain(start, down, rs);
    lemma_walked_plain(Seq::empty(), down, rs);
    assert(Seq::<Seq<char>>::empty().push(down) =~= seq![down]);
}

/// The last part of a specifier names what stands in the directory.
pub proof fn the_last_part_names_the_file(dir: Seq<char>, down: Seq<char>)
    requires
        dir.len() > 0,
        is_plain(down),
    ensures
        joined_in(dir, down) == dir + seq!['/'] + down,
        joined_in(Seq::empty(), down) == down,
{
    let k = CharSet::One('/');
    let start = text::pieces(dir, k);
    lemma_dots();
    lemma_spec_pieces(down, down);
    lemma_walked_plain(start, down, Seq::empty());
    lemma_walked_plain(Seq::empty(), down, Seq::empty());
    assert(seq![down] + Seq::<Seq<char>>::empty() =~= seq![down]);
    assert(Seq::<Seq<char>>::empty().push(down) =~= seq![down]);
    text::what_is_cut_is_joined_again(dir, '/');
    text::texts_are_joined_by_the_separator(start, seq![down], seq!['/']);
    text::texts_are_joined_by_the_separator(seq![down], seq![down], seq!['/']);
    assert(start + seq![down] =~= start.push(down));
    assert(walked(start, seq![down], 0) == start.push(down));
    assert(walked(Seq::<Seq<char>>::empty(), seq![down], 0) == seq![down]);
}

/// A relative specifier is walked from the directory of the file that imports it.
pub proof fn a_specifier_is_relative_to_its_file(dir: Seq<char>, file: Seq<char>, spec: Seq<char>)
    requires
        !file.contains('/'),
    ensures
        joined_path(dir + seq!['/'] + file, spec) == joined_in(dir, spec),
        joined_path(file, spec) == joined_in(Seq::empty(), spec),
{
    crate::resolve::the_directory_is_before_the_last_slash(dir, file);
}

proof fn lemma_only_file(cands: Seq<Seq<char>>, k: int, i: int, files: Set<Seq<char>>)
    requires
        0 <= k <= i < cands.len(),
        files.contains(cands[i]),
        forall|j: int| k <= j < cands.len() && files.contains(#[trigger] cands[j]) ==> cands[j] == cands[i],
    ensures
        first_file(cands, k, files) == Some(cands[i]),
    decreases i - k,
{
    if k < i && !files.contains(cands[k]) {
        lemma_only_file(cands, k + 1, i, files);
    }
}

proof fn lemma_no_file(cands: Seq<Seq<char>>, k: int, files: Set<Seq<char>>)
    requires
        0 <= k,
        forall|j: int| k <= j < cands.len() ==> !files.contains(#[trigger] cands[j]),
    ensures
        first_file(cands, k, files) is None,
    decreases cands.len() - k,
{
    if k < cands.len() {
        lemma_no_file(cands, k + 1, files);
    }
}

/// The ending is one that a module specifier may leave out, or that of a directory's
/// index.
pub open spec fn may_be_left_out(ending: Seq<char>) -> bool {
    ||| ending == ""@
    ||| ending == ".ts"@
    ||| ending == ".tsx"@
    ||| ending == ".js"@
    ||| ending == ".jsx"@
    ||| ending == ".vue"@
    ||| ending == ".mts"@
    ||| ending == ".cts"@
    ||| ending == ".mjs"@
    ||| ending == ".cjs"@
    ||| ending == "/index.ts"@
    ||| ending == "/index.tsx"@
    ||| ending == "/index.js"@
    ||| ending == "/index.vue"@
    ||| ending == "/index.mjs"@
}

proof fn lemma_candidate(path: Seq<char>, ending: Seq<char>)
    requires
        may_be_left_out(ending),
    ensures
        module_files(path).contains(path + ending),
{
    let a = with_endings(path, module_endings());
    let b = seqs::each(script_endings(), twins_of(path));
    let c = with_endings(path, index_endings());
    let all = module_files(path);
    let m = module_endings();
    let x = index_endings();
    assert(m.len() == 10 && x.len() == 5);
    assert(m[0] == ""@ && m[1] == ".ts"@ && m[2] == ".tsx"@ && m[3] == ".js"@ && m[4] == ".jsx"@);
    assert(m[5] == ".vue"@ && m[6] == ".mts"@ && m[7] == ".cts"@ && m[8] == ".mjs"@ && m[9] == ".cjs"@);
    assert(x[0] == "/index.ts"@ && x[1] == "/index.tsx"@ && x[2] == "/index.js"@ && x[3] == "/index.vue"@ && x[4]
        == "/index.mjs"@);
    if m.contains(ending) {
        let i = choose|i: int| 0 <= i < m.len() && m[i] == ending;
        assert(a[i] == path + ending);
        assert(all[i] == path + ending);
    } else {
        assert(x.contains(ending));
        let i = choose|i: int| 0 <= i < x.len() && x[i] == ending;
        assert(c[i] == path + ending);
        assert(all[a.len() + b.len() + i] == path + ending);
    }
}

proof fn lemma_candidates(path: Seq<char>, stem: Seq<char>, j: int)
    requires
        0 <= j < module_files(path).len(),
        text::starts(path, stem),
        forall|js: Seq<char>|
            script_endings().contains(js) && #[trigger] text::ends(path, js) ==> stem.len() <= path.len() - js.len(),
    ensures
        text::starts(module_files(path)[j], stem),
{
    let a = with_endings(path, module_endings());
    let b = seqs::each(script_endings(), twins_of(path));
    let c = with_endings(path, index_endings());
    let all = module_files(path);
    let f = all[j];
    assert(path.subrange(0, stem.len() as int) == stem);
    if j < a.len() {
        assert(f == path + module_endings()[j]);
        assert(f.subrange(0, stem.len() as int) =~= stem);
    } else if j < a.len() + b.len() {
        assert(b.contains(b[j - a.len()]));
        seqs::lemma_each(script_endings(), 0, twins_of(path), f);
        let i = choose|i: int| 0 <= i < script_endings().len() && twins_of(path)(#[trigger] script_endings()[i]).contains(f);
        let js = script_endings()[i];
        assert(script_endings().contains(js));
        assert(text::ends(path, js));
        let cut = path.subrange(0, path.len() - js.len());
        let ws = with_endings(cut, twin_endings());
        let m = choose|m: int| 0 <= m < ws.len() && ws[m] == f;
        assert(f == cut + twin_endings()[m]);
        assert(f.subrange(0, stem.len() as int) =~= stem);
    } else {
        assert(f == path + index_endings()[j - a.len() - b.len()]);
        assert(f.subrange(0, stem.len() as int) =~= stem);
    }
}

/// The path does not end in the extension of a script.
pub open spec fn is_no_script(path: Seq<char>) -> bool {
    !text::ends(path, ".js"@) && !text::ends(path, ".jsx"@) && !text::ends(path, ".mjs"@) && !text::ends(
        path,
        ".cjs"@,
    )
}

proof fn lemma_scripts(path: Seq<char>)
    requires
        is_no_script(path),
    ensures
        forall|js: Seq<char>| script_endings().contains(js) ==> !#[trigger] text::ends(path, js),
{
    let all = script_endings();
    assert(all.len() == 4);
    assert(all[0] == ".js"@ && all[1] == ".jsx"@ && all[2] == ".mjs"@ && all[3] == ".cjs"@);
    assert forall|js: Seq<char>| all.contains(js) implies !#[trigger] text::ends(path, js) by {
        let k = choose|k: int| 0 <= k < all.len() && all[k] == js;
        assert(all[k] == js);
    }
}

/// A relative specifier means the only file that its path, with an ending that may be
/// left out, names; where no file starts with the path, it means none.
pub proof fn a_specifier_means_the_file_of_its_path(
    importer: Seq<char>,
    spec: Seq<char>,
    files: Set<Seq<char>>,
    ending: Seq<char>,
)
    requires
        is_no_script(joined_path(importer, spec)),
        may_be_left_out(ending),
    ensures
        ({
            let path = joined_path(importer, spec);
            &&& files.contains(path + ending) && (forall|g: Seq<char>| #[trigger]
                files.contains(g) && text::starts(g, path) ==> g == path + ending) ==> relative_file(
                importer,
                spec,
                files,
            ) == Some(path + ending)
            &&& (forall|g: Seq<char>| #[trigger] files.contains(g) ==> !text::starts(g, path)) ==> relative_file(
                importer,
                spec,
                files,
            ) is None
        }),
{
    let path = joined_path(importer, spec);
    let all = module_files(path);
    lemma_candidate(path, ending);
    lemma_scripts(path);
    let i = choose|i: int| 0 <= i < all.len() && all[i] == path + ending;
    assert(path.subrange(0, path.len() as int) =~= path);
    assert forall|j: int| 0 <= j < all.len() implies text::starts(#[trigger] all[j], path) by {
        lemma_candidates(path, path, j);
    }
    if files.contains(path + ending) && (forall|g: Seq<char>| #[trigger]
        files.contains(g) && text::starts(g, path) ==> g == path + ending) {
        lemma_only_file(all, 0, i, files);
    }
    if forall|g: Seq<char>| #[trigger] files.contains(g) ==> !text::starts(g, path) {
        lemma_no_file(all, 0, files);
    }
}

/// A specifier of a script means the only source that the script may have been emitted
/// from: `./x.js` is `x.ts`.
pub proof fn a_script_means_its_source(
    importer: Seq<char>,
    spec: Seq<char>,
    files: Set<Seq<char>>,
    stem: Seq<char>,
    script: Seq<char>,
    source: Seq<char>,
)
    requires
        joined_path(importer, spec) == stem + script,
        script == ".js"@ || script == ".jsx"@ || script == ".mjs"@ || script == ".cjs"@,
        source == ".ts"@ || source == ".tsx"@ || source == ".mts"@ || source == ".cts"@ || source == ".vue"@,
        files.contains(stem + source),
        forall|g: Seq<char>| #[trigger] files.contains(g) && text::starts(g, stem) ==> g == stem + source,
    ensures
        relative_file(importer, spec, files) == Some(stem + source),
{
    let path = stem + script;
    let all = module_files(path);
    let a = with_endings(path, module_endings());
    let b = seqs::each(script_endings(), twins_of(path));
    let ss = script_endings();
    let ts = twin_endings();
    let f = stem + source;
    reveal_strlit(".js");
    reveal_strlit(".jsx");
    reveal_strlit(".mjs");
    reveal_strlit(".cjs");
    assert(ss.len() == 4 && ts.len() == 5);
    assert(ss[0] == ".js"@ && ss[1] == ".jsx"@ && ss[2] == ".mjs"@ && ss[3] == ".cjs"@);
    assert(ts[0] == ".ts"@ && ts[1] == ".tsx"@ && ts[2] == ".mts"@ && ts[3] == ".cts"@ && ts[4] == ".vue"@);
    assert(text::ends(path, script)) by {
        assert(path.subrange(stem.len() as int, path.len() as int) =~= script);
    }
    let cut = path.subrange(0, path.len() - script.len());
    assert(cut =~= stem);
    let i = choose|i: int| 0 <= i < ss.len() && ss[i] == script;
    assert(ss.contains(script));
    let m = choose|m: int| 0 <= m < ts.len() && ts[m] == source;
    assert(ts.contains(source));
    assert(with_endings(cut, ts)[m] == f);
    assert(twins_of(path)(ss[i]).contains(f));
    seqs::lemma_each(ss, 0, twins_of(path), f);
    let n = choose|n: int| 0 <= n < b.len() && b[n] == f;
    assert(all[a.len() + n] == f);
    assert(path.subrange(0, stem.len() as int) =~= stem);
    assert forall|js: Seq<char>| ss.contains(js) && #[trigger] text::ends(path, js) implies stem.len()
        <= path.len() - js.len() by {
        let k = choose|k: int| 0 <= k < ss.len() && ss[k] == js;
        assert(path.subrange(path.len() - js.len(), path.len() as int) == js);
        if js.len() > script.len() {
            assert(js.len() == 4 && script.len() == 3);
            assert(path[path.len() - 1] == 's');
            assert(js[3] == path[path.len() - 1]);
            assert(js[2] == path[path.len() - 2]);
            assert(path[path.len() - 2] == 'j');
            assert(js[1] == path[path.len() - 3]);
            assert(path[path.len() - 3] == '.');
        }
    }
    assert forall|j: int| 0 <= j < all.len() && files.contains(#[trigger] all[j]) implies all[j] == f by {
        lemma_candidates(path, stem, j);
    }
    lemma_only_file(all, 0, a.len() + n, files);
}

/// A page component means the file of its path, or the only one with an ending that it
/// may leave out.
pub proof fn a_component_means_its_file(path: Seq<char>, files: Set<Seq<char>>, ending: Seq<char>)
    requires
        ending == ".ts"@ || ending == ".tsx"@ || ending == ".js"@ || ending == ".jsx"@ || ending == ".vue"@ || ending
            == ".mts"@,
    ensures
        files.contains(path) ==> component_file(path, files) == Some(path),
        files.contains(path + ending) && (forall|g: Seq<char>| #[trigger]
            files.contains(g) && text::starts(g, path) ==> g == path + ending) ==> component_file(path, files)
            == Some(path + ending),
        (forall|g: Seq<char>| #[trigger] files.contains(g) ==> !text::starts(g, path)) ==> component_file(path, files) is None,
{
    let ws = with_endings(path, component_endings());
    let all = seq![path] + ws;
    let es = component_endings();
    assert(es.len() == 6);
    assert(es[0] == ".ts"@ && es[1] == ".tsx"@ && es[2] == ".js"@ && es[3] == ".jsx"@ && es[4] == ".vue"@ && es[5]
        == ".mts"@);
    assert(es.contains(ending));
    let i = choose|i: int| 0 <= i < es.len() && es[i] == ending;
    assert(ws[i] == path + ending);
    assert(all[0] == path);
    assert(all[i + 1] == path + ending);
    assert forall|j: int| 0 <= j < all.len() implies text::starts(#[trigger] all[j], path) by {
        if j > 0 {
            assert(all[j] == path + es[j - 1]);
        }
        assert(all[j].subrange(0, path.len() as int) =~= path);
    }
    if files.contains(path + ending) && (forall|g: Seq<char>| #[trigger]
        files.contains(g) && text::starts(g, path) ==> g == path + ending) {
        lemma_only_file(all, 0, i + 1, files);
    }
    if forall|g: Seq<char>| #[trigger] files.contains(g) ==> !text::starts(g, path) {
        lemma_no_file(all, 0, files);
    }
}

/// A view name means the Blade template of its path, the dots of the name read as
/// slashes: under the root, or as the only file whose path ends so. Where there is no
/// such template, it means the Twig template that is found in the same way.
pub proof fn a_view_means_its_template(name: Seq<char>, files: Set<Seq<char>>, f: Seq<char>, twig: bool)
    requires
        ({
            let path = Seq::new(name.len(), |c: int| if name[c] == '.' { '/' } else { name[c] });
            let blade = path + ".blade.php"@;
            let other = path + ".twig"@;
            if twig {
                &&& forall|g: Seq<char>| #[trigger] files.contains(g) ==> !text::ends(g, blade)
                &&& files.contains(f)
                &&& f == other || (!files.contains(other) && is_only_file(files, "/"@ + other, f))
            } else {
                &&& files.contains(f)
                &&& f == blade || (!files.contains(blade) && is_only_file(files, "/"@ + blade, f))
            }
        }),
    ensures
        view_file(name, files) == Some(f),
{
    let path = Seq::new(name.len(), |c: int| if name[c] == '.' { '/' } else { name[c] });
    assert(text::replaced(name, '.', '/') =~= path);
    let blade = path + ".blade.php"@;
    let other = path + ".twig"@;
    if twig {
        assert(!files.contains(blade)) by {
            assert(blade.subrange(0, blade.len() as int) =~= blade);
            assert(text::ends(blade, blade));
        }
        assert forall|g: Seq<char>| !is_only_file(files, "/"@ + blade, g) by {
            if is_only_file(files, "/"@ + blade, g) {
                let tail = "/"@ + blade;
                let whole = g.subrange(g.len() - tail.len(), g.len() as int);
                assert(whole == tail);
                assert(g.subrange(g.len() - blade.len(), g.len() as int) =~= tail.subrange(
                    tail.len() - blade.len(),
                    tail.len() as int,
                ));
                assert(tail.subrange(tail.len() - blade.len(), tail.len() as int) =~= blade);
                assert(text::ends(g, blade));
            }
        }
        lemma_only_view(path, ".twig"@, files, f);
    } else {
        lemma_only_view(path, ".blade.php"@, files, f);
    }
}

proof fn lemma_only_view(base: Seq<char>, ext: Seq<char>, files: Set<Seq<char>>, f: Seq<char>)
    requires
        files.contains(f),
        f == base + ext || (!files.contains(base + ext) && is_only_file(files, "/"@ + (base + ext), f)),
    ensures
        view_file_as(base, ext, files) == Some(f),
{
    let tail = "/"@ + (base + ext);
    if f != base + ext {
        let g = choose|g: Seq<char>| is_only_file(files, tail, g);
        assert(is_only_file(files, tail, g));
        assert(files.contains(f) && text::ends(f, tail));
    }
}

/// A Dolibarr path means the file that it names from the root, or the one that it names
/// without its first directory; a path that names none is kept.
pub proof fn a_dolibarr_path_means_its_file(module: Seq<char>, rest: Seq<char>, files: Set<Seq<char>>)
    requires
        module.len() > 0,
        !module.contains('/'),
    ensures
        ({
            let path = module + seq!['/'] + rest;
            let name = seq!['/'] + path;
            &&& files.contains(path) ==> dol_file(name, files) == path
            &&& !files.contains(path) && files.contains(rest) ==> dol_file(name, files) == rest
            &&& !files.contains(path) && !files.contains(rest) ==> dol_file(name, files) == name
        }),
{
    broadcast use {text::lemma_run, text::lemma_seek};

    let k = CharSet::One('/');
    let path = module + seq!['/'] + rest;
    let name = seq!['/'] + path;
    let r = text::run(name, 0, k);
    assert(name[0] == '/');
    assert(name[1] == module[0]);
    assert(module[0] != '/');
    assert(r == 1) by {
        if r > 1 {
            assert(k.has(name[1]));
        }
    }
    assert(name.subrange(1, name.len() as int) =~= path);
    let i = text::seek(path, 0, k);
    assert(path[module.len() as int] == '/');
    assert(i == module.len()) by {
        if i < module.len() {
            assert(path[i] == module[i]);
        }
        if i > module.len() {
            assert(!k.has(path[module.len() as int]));
        }
    }
    assert(path.subrange(i + 1, path.len() as int) =~= rest);
}

/// The extension of `dir/stem.ext` is `ext`, and so is that of `stem.ext`; a name
/// without a dot, or with none but its first character, has none.
pub proof fn an_extension_stands_behind_the_last_dot(dir: Seq<char>, stem: Seq<char>, ext: Seq<char>)
    requires
        stem.len() > 0,
        !stem.contains('/'),
        !ext.contains('/'),
        !ext.contains('.'),
        ext.len() > 0,
    ensures
        extension(dir + seq!['/'] + (stem + seq!['.'] + ext)) == Some(ext),
        extension(stem + seq!['.'] + ext) == Some(ext),
{
    broadcast use text::lemma_seek_back;

    let k = CharSet::One('/');
    let name = stem + seq!['.'] + ext;
    assert(!name.contains('/')) by {
        if name.contains('/') {
            let j = choose|j: int| 0 <= j < name.len() && name[j] == '/';
            if j < stem.len() {
                assert(stem[j] == '/');
            } else if j > stem.len() {
                assert(ext[j - stem.len() - 1] == '/');
            }
        }
    }
    text::a_text_is_cut_at_each_mark(dir, '/', name);
    text::a_text_is_cut_at_each_mark(name, '/', name);
    reveal_strlit(".");
    reveal_strlit("..");
    let d = text::seek_back(name, name.len() as int, CharSet::One('.'));
    assert(name[stem.len() as int] == '.');
    assert forall|j: int| stem.len() < j < name.len() implies name[j] != '.' by {
        assert(name[j] == ext[j - stem.len() - 1]);
    }
    assert(d == stem.len() + 1) by {
        if d <= stem.len() {
            assert(!CharSet::One('.').has(name[stem.len() as int]));
        }
        if d > stem.len() + 1 {
            assert(CharSet::One('.').has(name[d - 1]));
        }
    }
    assert(name.subrange(d, name.len() as int) =~= ext);
    assert(name.last() != '.');
    assert(name != "."@ && name != ".."@);
    let one = text::pieces(name, k);
    assert(one == seq![name]);
    assert(last_named(one, 1) == 0);
    let many = text::pieces(dir + seq!['/'] + name, k);
    assert(many[many.len() - 1] == name);
    assert(last_named(many, many.len() as int) == many.len() - 1);
}

} // verus!
