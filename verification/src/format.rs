//! The format abstraction. Each source format is one module (`php`, `js`,
//! `blade`, `html`, ...) exposing a unit struct that implements [`Format`];
//! [`extract`] routes a file to the first format that matches. Cross-format
//! concerns (translation-key scanning in `lang`, DB schema in `schema`) are not
//! formats.

use vstd::prelude::*;

use crate::bbscript;
use crate::bbscript::BbScript;
use crate::blade;
use crate::blade::Blade;
use crate::dolibarr;
use crate::extract;
use crate::extract::CtxView;
use crate::html;
use crate::html::Html;
use crate::js;
use crate::js::{Js, JsView};
use crate::model;
use crate::model::{FoundView, Node, RawEdge};
use crate::paths;
use crate::php;
use crate::php::Php;
use crate::reading;
use crate::router;
use crate::seqs;
use crate::syntax;
use crate::text;
use crate::text::{chars_of, string_of};
use crate::twig;
use crate::twig::Twig;

verus! {

broadcast use crate::seqs::group_text;

/// A source format that can be extracted into the node/edge model.
pub trait Format {
    /// This format handles a file named `base` with the extension `ext`.
    spec fn handles(&self, base: Seq<char>, ext: Seq<char>) -> bool;

    /// What this format finds in a file.
    spec fn finds(&self, rel: Seq<char>, base: Seq<char>, code: Seq<char>) -> FoundView;

    /// Does this format handle a file named `base` with lowercased `ext`?
    fn matches(&self, base: &str, ext: &str) -> (r: bool)
        ensures
            r == self.handles(base@, ext@),
    ;

    /// Extract already-read `code` (`rel` = repo-relative path, `base` = file
    /// name) into nodes + raw edges.
    fn extract(&self, rel: &str, base: &str, code: &str) -> (r: (Vec<Node>, Vec<RawEdge>))
        ensures
            seqs::views(r.0@) == self.finds(rel@, base@, code@).nodes,
            seqs::views(r.1@) == self.finds(rel@, base@, code@).edges,
    ;
}

impl Format for Blade {
    open spec fn handles(&self, base: Seq<char>, ext: Seq<char>) -> bool {
        text::ends(base, ".blade.php"@)
    }

    open spec fn finds(&self, rel: Seq<char>, base: Seq<char>, code: Seq<char>) -> FoundView {
        blade::extracted(rel, base, code)
    }

    fn matches(&self, base: &str, ext: &str) -> (r: bool) {
        text::ends_with(&chars_of(base), ".blade.php")
    }

    fn extract(&self, rel: &str, base: &str, code: &str) -> (r: (Vec<Node>, Vec<RawEdge>)) {
        blade::extract(rel, base, code)
    }
}

impl Format for Php {
    // Blade precedes PHP in the order of the formats, so a `*.blade.php` never
    // reaches here.
    open spec fn handles(&self, base: Seq<char>, ext: Seq<char>) -> bool {
        ext == "php"@
    }

    open spec fn finds(&self, rel: Seq<char>, base: Seq<char>, code: Seq<char>) -> FoundView {
        php::extracted(rel, base, code)
    }

    fn matches(&self, base: &str, ext: &str) -> (r: bool) {
        text::same(ext, "php")
    }

    fn extract(&self, rel: &str, base: &str, code: &str) -> (r: (Vec<Node>, Vec<RawEdge>)) {
        php::extract(rel, base, code)
    }
}

/// The extensions of JS and TS sources.
pub open spec fn script_exts() -> Seq<Seq<char>> {
    seq!["ts"@, "tsx"@, "mts"@, "cts"@, "js"@, "jsx"@, "mjs"@, "cjs"@]
}

fn is_script_ext(ext: &str) -> (r: bool)
    ensures
        r == script_exts().contains(ext@),
{
    let names: [&str; 8] = ["ts", "tsx", "mts", "cts", "js", "jsx", "mjs", "cjs"];
    assert(seqs::views(names@) =~= script_exts());
    text::is_among(&chars_of(ext), names.as_slice())
}

/// The extension of a file, nothing where it has none.
pub open spec fn extension_or_none(base: Seq<char>) -> Seq<char> {
    match paths::extension(base) {
        Some(e) => e,
        None => Seq::empty(),
    }
}

impl Format for Js {
    open spec fn handles(&self, base: Seq<char>, ext: Seq<char>) -> bool {
        ext == "vue"@ || script_exts().contains(ext)
    }

    open spec fn finds(&self, rel: Seq<char>, base: Seq<char>, code: Seq<char>) -> FoundView {
        if extension_or_none(base) == "vue"@ {
            js::vue_extracted(rel, base, code)
        } else {
            js::extracted(rel, base, code, extension_or_none(base)).plus(router::routes(rel, code))
        }
    }

    fn matches(&self, base: &str, ext: &str) -> (r: bool) {
        text::same(ext, "vue") || is_script_ext(ext)
    }

    fn extract(&self, rel: &str, base: &str, code: &str) -> (r: (Vec<Node>, Vec<RawEdge>)) {
        let ext = match paths::extension_of(base) {
            Some(e) => string_of(&e),
            None => String::new(),
        };
        if text::same(&ext, "vue") {
            return js::extract_vue(rel, base, code);
        }
        let (mut nodes, mut edges) = js::extract(rel, base, code, &ext);
        let (mut routes, mut renders) = router::scan(rel, code);
        nodes.append(&mut routes);
        edges.append(&mut renders);
        (nodes, edges)
    }
}

impl Format for Html {
    open spec fn handles(&self, base: Seq<char>, ext: Seq<char>) -> bool {
        ext == "html"@
    }

    open spec fn finds(&self, rel: Seq<char>, base: Seq<char>, code: Seq<char>) -> FoundView {
        html::extracted(rel, base, code)
    }

    fn matches(&self, base: &str, ext: &str) -> (r: bool) {
        text::same(ext, "html")
    }

    fn extract(&self, rel: &str, base: &str, code: &str) -> (r: (Vec<Node>, Vec<RawEdge>)) {
        html::extract(rel, base, code)
    }
}

impl Format for Twig {
    open spec fn handles(&self, base: Seq<char>, ext: Seq<char>) -> bool {
        ext == "twig"@
    }

    open spec fn finds(&self, rel: Seq<char>, base: Seq<char>, code: Seq<char>) -> FoundView {
        twig::extracted(rel, base, code)
    }

    fn matches(&self, base: &str, ext: &str) -> (r: bool) {
        text::same(ext, "twig")
    }

    fn extract(&self, rel: &str, base: &str, code: &str) -> (r: (Vec<Node>, Vec<RawEdge>)) {
        twig::extract(rel, base, code)
    }
}

impl Format for BbScript {
    open spec fn handles(&self, base: Seq<char>, ext: Seq<char>) -> bool {
        ext == "bbscript"@
    }

    open spec fn finds(&self, rel: Seq<char>, base: Seq<char>, code: Seq<char>) -> FoundView {
        bbscript::extracted(rel, base, code)
    }

    fn matches(&self, base: &str, ext: &str) -> (r: bool) {
        text::same(ext, "bbscript")
    }

    fn extract(&self, rel: &str, base: &str, code: &str) -> (r: (Vec<Node>, Vec<RawEdge>)) {
        bbscript::extract(rel, base, code)
    }
}

/// The SQL format: the DDL files of a Dolibarr module.
pub struct Sql;

impl Format for Sql {
    open spec fn handles(&self, base: Seq<char>, ext: Seq<char>) -> bool {
        ext == "sql"@
    }

    open spec fn finds(&self, rel: Seq<char>, base: Seq<char>, code: Seq<char>) -> FoundView {
        (FoundView { nodes: seq![model::file_node(rel, base)], edges: Seq::empty() }).plus(
            dolibarr::ddl_links(rel, code).deduped(),
        )
    }

    fn matches(&self, base: &str, ext: &str) -> (r: bool) {
        text::same(ext, "sql")
    }

    fn extract(&self, rel: &str, base: &str, code: &str) -> (r: (Vec<Node>, Vec<RawEdge>)) {
        let mut nodes: Vec<Node> = Vec::new();
        let mut edges: Vec<RawEdge> = Vec::new();
        nodes.push(model::make_file(rel, base));
        assert(seqs::views(nodes@) =~= seq![model::file_node(rel@, base@)]);
        dolibarr::scan_sql_ddl(rel, code, &mut nodes, &mut edges);
        (nodes, edges)
    }
}

/// The format of Dolibarr's translation files.
pub struct LangFile;

impl Format for LangFile {
    open spec fn handles(&self, base: Seq<char>, ext: Seq<char>) -> bool {
        ext == "lang"@
    }

    open spec fn finds(&self, rel: Seq<char>, base: Seq<char>, code: Seq<char>) -> FoundView {
        FoundView {
            nodes: seq![model::file_node(rel, base)],
            edges: seqs::each(text::lines(code), dolibarr::lang_edge(rel)),
        }
    }

    fn matches(&self, base: &str, ext: &str) -> (r: bool) {
        text::same(ext, "lang")
    }

    fn extract(&self, rel: &str, base: &str, code: &str) -> (r: (Vec<Node>, Vec<RawEdge>)) {
        let mut nodes: Vec<Node> = Vec::new();
        nodes.push(model::make_file(rel, base));
        assert(seqs::views(nodes@) =~= seq![model::file_node(rel@, base@)]);
        (nodes, dolibarr::scan_lang_file(rel, code))
    }
}

/// What the first format that matches finds in a file; nothing where none does.
/// Blade precedes PHP because a `*.blade.php` file has the extension `php` but must
/// not go to Mago.
pub open spec fn routed(rel: Seq<char>, base: Seq<char>, ext: Seq<char>, code: Seq<char>) -> FoundView {
    if Blade.handles(base, ext) {
        Blade.finds(rel, base, code)
    } else if Php.handles(base, ext) {
        Php.finds(rel, base, code)
    } else if Js.handles(base, ext) {
        Js.finds(rel, base, code)
    } else if Html.handles(base, ext) {
        Html.finds(rel, base, code)
    } else if Twig.handles(base, ext) {
        Twig.finds(rel, base, code)
    } else if BbScript.handles(base, ext) {
        BbScript.finds(rel, base, code)
    } else if Sql.handles(base, ext) {
        Sql.finds(rel, base, code)
    } else if LangFile.handles(base, ext) {
        LangFile.finds(rel, base, code)
    } else {
        FoundView::none()
    }
}

/// Route one file that was read to the first matching format. Returns empty when
/// no format matches.
pub fn extract(rel: &str, base: &str, ext: &str, code: &str) -> (r: (Vec<Node>, Vec<RawEdge>))
    ensures
        seqs::views(r.0@) == routed(rel@, base@, ext@, code@).nodes,
        seqs::views(r.1@) == routed(rel@, base@, ext@, code@).edges,
{
    if Blade.matches(base, ext) {
        Blade.extract(rel, base, code)
    } else if Php.matches(base, ext) {
        Php.extract(rel, base, code)
    } else if Js.matches(base, ext) {
        Js.extract(rel, base, code)
    } else if Html.matches(base, ext) {
        Html.extract(rel, base, code)
    } else if Twig.matches(base, ext) {
        Twig.extract(rel, base, code)
    } else if BbScript.matches(base, ext) {
        BbScript.extract(rel, base, code)
    } else if Sql.matches(base, ext) {
        Sql.extract(rel, base, code)
    } else if LangFile.matches(base, ext) {
        LangFile.extract(rel, base, code)
    } else {
        (Vec::new(), Vec::new())
    }
}

/// The extensions of the files that are extracted: the union across the formats.
pub open spec fn source_exts() -> Seq<Seq<char>> {
    seq![
        "php"@,
        "ts"@,
        "tsx"@,
        "mts"@,
        "cts"@,
        "js"@,
        "jsx"@,
        "mjs"@,
        "cjs"@,
        "vue"@,
        "html"@,
        "twig"@,
        "bbscript"@,
        "sql"@,
        "lang"@,
    ]
}

/// Whether files with this extension are extracted, used as the directory-walk
/// filter.
pub fn is_source_ext(ext: &str) -> (r: bool)
    ensures
        r == source_exts().contains(ext@),
{
    let names: [&str; 15] = [
        "php",
        "ts",
        "tsx",
        "mts",
        "cts",
        "js",
        "jsx",
        "mjs",
        "cjs",
        "vue",
        "html",
        "twig",
        "bbscript",
        "sql",
        "lang",
    ];
    assert(seqs::views(names@) =~= source_exts());
    text::is_among(&chars_of(ext), names.as_slice())
}

// ---------------------------------------------------------------------------
// Laws

/// What was found starts with the node of the file.
pub open spec fn starts_with_its_file(rel: Seq<char>, base: Seq<char>, found: FoundView) -> bool {
    found.nodes.len() > 0 && found.nodes[0] == model::file_node(rel, base)
}

proof fn lemma_php_file(rel: Seq<char>, base: Seq<char>, code: Seq<char>)
    ensures
        starts_with_its_file(rel, base, Php.finds(rel, base, code)),
{
    let tree = syntax::php_tree(code);
    let start = extract::started(rel, code, true);
    let c = CtxView { nodes: start.nodes.push(model::file_node(rel, base)), ..start };
    extract::walks_only_add(tree, c);
    assert(c.nodes[0] == model::file_node(rel, base));
    assert(php::tree_found(rel, base, code, tree).nodes[0] == c.nodes[0]);
}

proof fn lemma_js_file(rel: Seq<char>, base: Seq<char>, code: Seq<char>)
    ensures
        starts_with_its_file(rel, base, Js.finds(rel, base, code)),
{
    let start = js::started(rel, base);
    assert(start.nodes[0] == model::file_node(rel, base));
    if extension_or_none(base) == "vue"@ {
        let tree = js::js_tree(js::scripts_from(code, 0), "tsx"@);
        let name = match js::component_name(tree) {
            Some(n) => n,
            None => js::stem(base),
        };
        let id = start.symbol_id(name);
        let inside = start.with_symbol(
            id,
            name,
            "component"@,
            0,
            js::byte_size(js::scripts_from(code, 0)),
        );
        assert(inside.nodes[0] == start.nodes[0]);
        js::walks_only_add(tree, JsView { scope: inside.scope.push(id), ..inside });
    } else {
        let tree = js::js_tree(code, extension_or_none(base));
        js::walks_only_add(tree, start);
        let found = js::extracted(rel, base, code, extension_or_none(base));
        assert(found.nodes[0] == start.nodes[0]);
        assert(Js.finds(rel, base, code).nodes[0] == found.nodes[0]);
    }
}

proof fn lemma_bbscript_file(rel: Seq<char>, base: Seq<char>, lines: Seq<Seq<char>>, k: int)
    ensures
        bbscript::story(rel, base, lines, k).nodes.len() > 0,
        bbscript::story(rel, base, lines, k).nodes[0] == model::file_node(rel, base),
    decreases k,
{
    if 0 < k <= lines.len() {
        lemma_bbscript_file(rel, base, lines, k - 1);
    }
}

proof fn lemma_some_format(base: Seq<char>, ext: Seq<char>)
    requires
        source_exts().contains(ext),
    ensures
        Php.handles(base, ext) || Js.handles(base, ext) || Html.handles(base, ext) || Twig.handles(base, ext)
            || BbScript.handles(base, ext) || Sql.handles(base, ext) || LangFile.handles(base, ext),
{
    let k = choose|k: int| 0 <= k < source_exts().len() && source_exts()[k] == ext;
    assert(source_exts().len() == 15);
    if 1 <= k <= 8 {
        assert(script_exts()[k - 1] == ext);
    }
}

proof fn lemma_template_file(rel: Seq<char>, base: Seq<char>, code: Seq<char>)
    ensures
        starts_with_its_file(rel, base, Blade.finds(rel, base, code)),
        starts_with_its_file(rel, base, Html.finds(rel, base, code)),
        starts_with_its_file(rel, base, Twig.finds(rel, base, code)),
{
}

proof fn lemma_data_file(rel: Seq<char>, base: Seq<char>, code: Seq<char>)
    ensures
        starts_with_its_file(rel, base, BbScript.finds(rel, base, code)),
        starts_with_its_file(rel, base, Sql.finds(rel, base, code)),
        starts_with_its_file(rel, base, LangFile.finds(rel, base, code)),
{
    let lines = text::lines(code);
    lemma_bbscript_file(rel, base, lines, lines.len() as int);
}

/// Every source file has a format, and its node comes first in what that format
/// finds, whatever the file says.
pub proof fn every_source_file_has_its_node(rel: Seq<char>, base: Seq<char>, ext: Seq<char>, code: Seq<char>)
    requires
        source_exts().contains(ext),
    ensures
        starts_with_its_file(rel, base, routed(rel, base, ext, code)),
{
    lemma_some_format(base, ext);
    lemma_php_file(rel, base, code);
    lemma_js_file(rel, base, code);
    lemma_template_file(rel, base, code);
    lemma_data_file(rel, base, code);
}

/// A file is read by what its name and its extension say that it is: a Blade view by
/// its double extension, and any other file by its last one.
pub proof fn a_file_is_read_by_its_kind(rel: Seq<char>, base: Seq<char>, ext: Seq<char>, code: Seq<char>)
    ensures
        reading::reads(base, base.len() - 10, ".blade.php"@) ==> routed(rel, base, ext, code) == blade::extracted(
            rel,
            base,
            code,
        ),
        !reading::reads(base, base.len() - 10, ".blade.php"@) ==> {
            &&& ext == "php"@ ==> routed(rel, base, ext, code) == php::extracted(rel, base, code)
            &&& ext == "html"@ ==> routed(rel, base, ext, code) == html::extracted(rel, base, code)
            &&& ext == "twig"@ ==> routed(rel, base, ext, code) == twig::extracted(rel, base, code)
            &&& ext == "bbscript"@ ==> routed(rel, base, ext, code) == bbscript::extracted(rel, base, code)
            &&& ext == "vue"@ && extension_or_none(base) == "vue"@ ==> routed(rel, base, ext, code)
                == js::vue_extracted(rel, base, code)
            &&& is_script(ext) && extension_or_none(base) == ext ==> routed(rel, base, ext, code)
                == js::extracted(rel, base, code, ext).plus(router::routes(rel, code))
            &&& ext == "sql"@ ==> routed(rel, base, ext, code).edges == dolibarr::ddl_links(rel, code).edges
            &&& ext == "lang"@ ==> routed(rel, base, ext, code).edges == seqs::each(
                text::lines(code),
                dolibarr::lang_edge(rel),
            )
        },
{
    reveal_strlit(".blade.php");
    reading::lemma_reads(base, base.len() - 10, ".blade.php"@);
    reveal_strlit("php");
    reveal_strlit("html");
    reveal_strlit("twig");
    reveal_strlit("bbscript");
    reveal_strlit("vue");
    reveal_strlit("sql");
    reveal_strlit("lang");
    lemma_scripts(ext);
    assert("php"@[0] == 'p' && "vue"@[0] == 'v' && "sql"@[0] == 's' && "html"@[0] == 'h' && "twig"@[0] == 't'
        && "lang"@[0] == 'l');
    assert("html"@.len() == 4 && "twig"@.len() == 4 && "lang"@.len() == 4 && "bbscript"@.len() == 8);
    if ext == "sql"@ {
        let links = dolibarr::ddl_links(rel, code);
        assert(Seq::<model::EdgeView>::empty() + links.edges =~= links.edges);
    }
}

/// An extension of scripts.
pub open spec fn is_script(ext: Seq<char>) -> bool {
    ||| ext == "ts"@
    ||| ext == "tsx"@
    ||| ext == "mts"@
    ||| ext == "cts"@
    ||| ext == "js"@
    ||| ext == "jsx"@
    ||| ext == "mjs"@
    ||| ext == "cjs"@
}

proof fn lemma_scripts(ext: Seq<char>)
    ensures
        is_script(ext) <==> script_exts().contains(ext),
        is_script(ext) ==> ext.len() <= 3 && (ext[0] == 't' || ext[0] == 'm' || ext[0] == 'c' || ext[0] == 'j'),
{
    let all = script_exts();
    if all.contains(ext) {
        let i = choose|i: int| 0 <= i < all.len() && all[i] == ext;
        assert(0 <= i < 8);
    }
    assert(all[0] == "ts"@);
    assert(all[1] == "tsx"@);
    assert(all[2] == "mts"@);
    assert(all[3] == "cts"@);
    assert(all[4] == "js"@);
    assert(all[5] == "jsx"@);
    assert(all[6] == "mjs"@);
    assert(all[7] == "cjs"@);
    reveal_strlit("ts");
    reveal_strlit("tsx");
    reveal_strlit("mts");
    reveal_strlit("cts");
    reveal_strlit("js");
    reveal_strlit("jsx");
    reveal_strlit("mjs");
    reveal_strlit("cjs");
}

} // verus!
