//! The relations and kinds that the queries tell apart.

use vstd::prelude::*;

use crate::model;
use crate::seqs;
use crate::text;
use crate::text::chars_of;

verus! {

/// The relations, besides the Eloquent ones, by which one thing refers to another.
pub open spec fn reference_names() -> Seq<Seq<char>> {
    seq![
        "calls"@,
        "imports"@,
        "extends"@,
        "implements"@,
        "includes"@,
        "covers"@,
        "table"@,
        "migrates"@,
        "uses-table"@,
        "visits"@,
        "renders"@,
        "requires"@,
        "defines-fn"@,
        "uses-fn"@,
        "defines-pipe"@,
        "uses-pipe"@,
        "routes-to"@,
        "serves"@,
        "export-ignores"@,
        "configures"@,
        "checks-permission"@,
        "raises-trigger"@,
        "handles-trigger"@,
        "fires-hook"@,
        "handles-hook"@,
        "declares-module"@,
        "relates-to"@,
        "depends-on"@,
        "requires-role"@,
        "dol-requires"@,
        "instantiates"@,
        "uses-const"@,
        "schedules"@,
    ]
}

/// A call, import, heritage, Blade include, Eloquent relation, or a
/// model/migration table link: what counts as a reference to a symbol.
pub open spec fn refers(relation: Seq<char>) -> bool {
    reference_names().contains(relation) || model::is_relation(relation)
}

/// A "reference" edge for `callers`/`missing`: a call, import, heritage, Blade
/// include, Eloquent relation, or a model/migration table link.
pub fn is_reference(relation: &str) -> (r: bool)
    ensures
        r == refers(relation@),
{
    let names: [&str; 33] = [
        "calls",
        "imports",
        "extends",
        "implements",
        "includes",
        "covers",
        "table",
        "migrates",
        "uses-table",
        "visits",
        "renders",
        "requires",
        "defines-fn",
        "uses-fn",
        "defines-pipe",
        "uses-pipe",
        "routes-to",
        "serves",
        "export-ignores",
        "configures",
        "checks-permission",
        "raises-trigger",
        "handles-trigger",
        "fires-hook",
        "handles-hook",
        "declares-module",
        "relates-to",
        "depends-on",
        "requires-role",
        "dol-requires",
        "instantiates",
        "uses-const",
        "schedules",
    ];
    assert(seqs::views(names@) =~= reference_names());
    text::is_among(&chars_of(relation), names.as_slice()) || model::relation_kind(relation).is_some()
}

/// The kinds of which a node is not dead for want of references: whole units,
/// and join nodes, which point out to what they join.
pub open spec fn hub_kinds() -> Seq<Seq<char>> {
    seq![
        "file"@,
        "component"@,
        "route"@,
        "module"@,
        "permission"@,
        "trigger"@,
        "hook"@,
        "role"@,
    ]
}

/// Whether a node of this kind is not dead for want of references.
pub fn is_hub(kind: &str) -> (r: bool)
    ensures
        r == hub_kinds().contains(kind@),
{
    let names: [&str; 8] = [
        "file",
        "component",
        "route",
        "module",
        "permission",
        "trigger",
        "hook",
        "role",
    ];
    assert(seqs::views(names@) =~= hub_kinds());
    text::is_among(&chars_of(kind), names.as_slice())
}

/// The relations to things that usually stand outside the indexed tree: base and
/// related classes, classes that are constructed, read or scheduled, module
/// dependencies, files of another module.
pub open spec fn outward_names() -> Seq<Seq<char>> {
    seq![
        "extends"@,
        "implements"@,
        "relates-to"@,
        "depends-on"@,
        "dol-requires"@,
        "instantiates"@,
        "uses-const"@,
        "schedules"@,
    ]
}

/// Whether edges of this relation usually point outside the indexed tree.
pub fn is_outward(relation: &str) -> (r: bool)
    ensures
        r == outward_names().contains(relation@),
{
    let names: [&str; 8] = [
        "extends",
        "implements",
        "relates-to",
        "depends-on",
        "dol-requires",
        "instantiates",
        "uses-const",
        "schedules",
    ];
    assert(seqs::views(names@) =~= outward_names());
    text::is_among(&chars_of(relation), names.as_slice())
}

/// File extensions whose nodes legitimately hold no code symbols, so an empty
/// one is not a gap: templates and non-code assets.
pub open spec fn no_symbol_exts() -> Seq<Seq<char>> {
    seq!["html"@, "json"@, "css"@, "scss"@, "sass"@, "svg"@]
}

/// Whether files with this lower-case extension hold no code symbols.
pub fn is_no_symbol_ext(ext: &[char]) -> (r: bool)
    ensures
        r == no_symbol_exts().contains(ext@),
{
    let names: [&str; 6] = ["html", "json", "css", "scss", "sass", "svg"];
    assert(seqs::views(names@) =~= no_symbol_exts());
    text::is_among(ext, names.as_slice())
}

} // verus!
