//! Translation-key usage scan: a uniform textual pass over any source (PHP,
//! JS/TS/Vue, Blade) that captures translation-function calls carrying a
//! string-literal key, emitting `uses-lang` edges from the file. Text rather
//! than AST on purpose -- it covers Vue `<template>` `$t(...)` and phpMyAdmin
//! gettext that the language parsers never see, with one code path for every
//! surface. The target of a `uses-lang` edge is the raw key (never resolved to
//! a node, like an external call name); the `uses` query verb reads them back.

use serde_json::Value;
use vstd::prelude::*;
use vstd::slice::slice_subrange;

use crate::buckets;
use crate::buckets::Buckets;
use crate::json;
use crate::json::JsonView;
use crate::model;
use crate::model::{EdgeView, RawEdge};
use crate::scan;
use crate::seqs;
use crate::sorting;
use crate::text;
use crate::text::{chars_of, is_text, CharSet};

verus! {

broadcast use {crate::seqs::group_text, text::lemma_run, text::lemma_seek, scan::lemma_closing};

/// The argument that holds the key of a translation function, if `f` is one:
/// the first (Laravel `__`/`trans`/`trans_choice`, Vue `t`/`$t`/`tc`/`te`,
/// gettext `_gettext`/`_ngettext`, Angular ngx-translate `.instant(...)`), or the
/// second for `_pgettext(context, message)`.
pub open spec fn key_index(f: Seq<char>) -> Option<nat> {
    if f == "__"@ || f == "trans"@ || f == "trans_choice"@ || f == "_gettext"@ || f == "_ngettext"@ || f == "t"@
        || f == "tc"@ || f == "te"@ || f == "$t"@ || f == "$tc"@ || f == "$te"@ || f == "instant"@ {
        Some(0)
    } else if f == "_pgettext"@ {
        Some(1)
    } else {
        None
    }
}

/// The argument that holds the key of a translation function.
fn key_position(f: &[char]) -> (r: Option<usize>)
    ensures
        r matches Some(n) ==> key_index(f@) == Some(n as nat),
        r is None ==> key_index(f@) is None,
{
    if is_text(f, "__") || is_text(f, "trans") || is_text(f, "trans_choice") || is_text(f, "_gettext")
        || is_text(f, "_ngettext") || is_text(f, "t") || is_text(f, "tc") || is_text(f, "te") || is_text(
        f,
        "$t",
    ) || is_text(f, "$tc") || is_text(f, "$te") || is_text(f, "instant") {
        Some(0)
    } else if is_text(f, "_pgettext") {
        Some(1)
    } else {
        None
    }
}

/// A pipe or filter whose left operand is a translation key: Angular
/// ngx-translate's `'KEY' | translate`, transloco's `'KEY' | transloco`, and
/// Twig's `'KEY'|trans`.
pub open spec fn is_translation_pipe(p: Seq<char>) -> bool {
    p == "translate"@ || p == "transloco"@ || p == "trans"@
}

/// A closed literal starts at index `i`.
pub open spec fn literal_at(s: Seq<char>, i: int) -> bool {
    scan::at(s, i, CharSet::Quote) && scan::closing(s, i + 1, s[i]) < s.len()
}

/// Whether a closed literal starts at index `i`, and the index of its end quote.
fn read_string(s: &[char], i: usize) -> (r: Option<usize>)
    ensures
        r is Some <==> literal_at(s@, i as int),
        r matches Some(e) ==> e == scan::closing(s@, i + 1, s@[i as int]) && i < e < s@.len() <= usize::MAX,
{
    if !scan::is_at(s, i, CharSet::Quote) {
        return None;
    }
    let e = scan::close_quote(s, i + 1, s[i]);
    if e < s.len() {
        Some(e)
    } else {
        None
    }
}

/// The string literal at argument `index`, where the list goes on at index `i`.
/// Every argument up to and including the target must be a string literal.
pub open spec fn key_argument(s: Seq<char>, i: int, index: nat) -> Option<Seq<char>>
    decreases index,
{
    let a = text::run(s, i, CharSet::AsciiSpace);
    let e = scan::closing(s, a + 1, s[a]);
    let b = text::run(s, e + 1, CharSet::AsciiSpace);
    if !literal_at(s, a) {
        None
    } else if index == 0 {
        Some(scan::unescaped(s.subrange(a + 1, e)))
    } else if scan::at(s, b, CharSet::One(',')) {
        key_argument(s, b + 1, (index - 1) as nat)
    } else {
        None
    }
}

/// The string literal at argument `index`.
fn key_arg(s: &[char], i: usize, index: usize) -> (r: Option<String>)
    requires
        i <= s@.len(),
    ensures
        seqs::opt_view(r) == key_argument(s@, i as int, index as nat),
    decreases index,
{
    let a = text::skip(s, i, CharSet::AsciiSpace);
    match read_string(s, a) {
        None => None,
        Some(e) => {
            if index == 0 {
                return Some(scan::unescape(slice_subrange(s, a + 1, e)));
            }
            let b = text::skip(s, e + 1, CharSet::AsciiSpace);
            if scan::is_at(s, b, CharSet::One(',')) {
                key_arg(s, b + 1, index - 1)
            } else {
                None
            }
        },
    }
}

/// The key that the call of the function named between `i` and `e` carries.
pub open spec fn call_key(s: Seq<char>, i: int, e: int) -> Option<Seq<char>> {
    let o = text::run(s, e, CharSet::AsciiSpace);
    match key_index(s.subrange(i, e)) {
        Some(n) => if scan::at(s, o, CharSet::One('(')) {
            key_argument(s, o + 1, n)
        } else {
            None
        },
        None => None,
    }
}

/// The keys of the calls `name('KEY', ...)` from index `i` on. Whole-identifier
/// matching keeps `__` from firing on `__construct` and `trans` on
/// `trans_choice`.
pub open spec fn call_keys_from(s: Seq<char>, i: int) -> Seq<Seq<char>>
    decreases s.len() - i,
{
    if i < 0 || i >= s.len() {
        Seq::empty()
    } else if CharSet::WordDollar.has(s[i]) {
        let e = text::run(s, i, CharSet::WordDollar);
        proof {
            text::lemma_run(s, i, CharSet::WordDollar);
        }
        seqs::opt_seq(call_key(s, i, e)) + call_keys_from(s, e)
    } else {
        call_keys_from(s, i + 1)
    }
}

/// Collects the keys of the translation calls.
fn scan_calls(s: &[char]) -> (r: Vec<String>)
    ensures
        seqs::views(r@) == call_keys_from(s@, 0),
{
    let mut out: Vec<String> = Vec::new();
    let mut i: usize = 0;
    while i < s.len()
        invariant
            i <= s@.len(),
            seqs::views(out@) + call_keys_from(s@, i as int) == call_keys_from(s@, 0),
        decreases s@.len() - i,
    {
        if CharSet::WordDollar.test(s[i]) {
            let e = text::skip(s, i, CharSet::WordDollar);
            if let Some(n) = key_position(slice_subrange(s, i, e)) {
                let o = text::skip(s, e, CharSet::AsciiSpace);
                if scan::is_at(s, o, CharSet::One('(')) {
                    if let Some(key) = key_arg(s, o + 1, n) {
                        out.push(key);
                    }
                }
            }
            i = e;
        } else {
            i += 1;
        }
    }
    out
}

/// A translation pipe follows at index `i`: one `|`, not two, and its name.
pub open spec fn pipe_follows(s: Seq<char>, i: int) -> bool {
    let j = text::run(s, i, CharSet::AsciiSpace);
    let a = text::run(s, j + 1, CharSet::AsciiSpace);
    &&& scan::at(s, j, CharSet::One('|'))
    &&& !scan::at(s, j + 1, CharSet::One('|'))
    &&& is_translation_pipe(s.subrange(a, text::run(s, a, CharSet::WordDollar)))
}

/// Whether a translation pipe follows at index `i`.
fn has_pipe(s: &[char], i: usize) -> (r: bool)
    requires
        i <= s@.len(),
    ensures
        r == pipe_follows(s@, i as int),
{
    let j = text::skip(s, i, CharSet::AsciiSpace);
    if !scan::is_at(s, j, CharSet::One('|')) || scan::is_at(s, j + 1, CharSet::One('|')) {
        return false;
    }
    let a = text::skip(s, j + 1, CharSet::AsciiSpace);
    let p = slice_subrange(s, a, text::skip(s, a, CharSet::WordDollar));
    is_text(p, "translate") || is_text(p, "transloco") || is_text(p, "trans")
}

/// The keys of the literals, from index `i` on, that a translation pipe follows.
/// The content of each literal is searched too: an HTML attribute binding
/// `[x]="'KEY' | translate"` nests the key inside a double-quoted string.
pub open spec fn pipe_keys_from(s: Seq<char>, i: int) -> Seq<Seq<char>>
    decreases s.len(), s.len() - i,
{
    if i < 0 || i >= s.len() {
        Seq::empty()
    } else if literal_at(s, i) {
        let e = scan::closing(s, i + 1, s[i]);
        let content = s.subrange(i + 1, e);
        proof {
            scan::lemma_closing(s, i + 1, s[i]);
        }
        pipe_keys_from(content, 0) + (if pipe_follows(s, e + 1) {
            seq![scan::unescaped(content)]
        } else {
            Seq::empty()
        }) + pipe_keys_from(s, e + 1)
    } else {
        pipe_keys_from(s, i + 1)
    }
}

/// Collects the keys of the literals that a translation pipe follows.
fn scan_pipe(s: &[char], out: &mut Vec<String>)
    ensures
        seqs::views(final(out)@) == seqs::views(old(out)@) + pipe_keys_from(s@, 0),
    decreases s@.len(),
{
    let ghost first = seqs::views(out@);
    let mut i: usize = 0;
    while i < s.len()
        invariant
            i <= s@.len(),
            seqs::views(out@) + pipe_keys_from(s@, i as int) == first + pipe_keys_from(s@, 0),
        decreases s@.len() - i,
    {
        match read_string(s, i) {
            None => {
                i += 1;
            },
            Some(e) => {
                let content = slice_subrange(s, i + 1, e);
                scan_pipe(content, out);
                if has_pipe(s, e + 1) {
                    out.push(scan::unescape(content));
                }
                i = e + 1;
            },
        }
    }
}

/// The translation keys that a text uses: those of the calls, then those of the
/// pipes.
pub open spec fn keys(s: Seq<char>) -> Seq<Seq<char>> {
    call_keys_from(s, 0) + pipe_keys_from(s, 0)
}

/// A `uses-lang` edge from `source` for each key that the text uses.
pub open spec fn lang_edges(source: Seq<char>, s: Seq<char>) -> Seq<EdgeView> {
    keys(s).map_values(|k: Seq<char>| model::named_edge(source, "uses-lang"@, k))
}

/// Scan `code` for translation-key usages, emitting a `uses-lang` edge from
/// `source_id` (the file id) per captured key. Two forms: the call syntax
/// `name('KEY', ...)` and the template pipe `'KEY' | translate`.
pub fn scan(source_id: &str, code: &str) -> (r: Vec<RawEdge>)
    ensures
        seqs::views(r@) == lang_edges(source_id@, code@),
{
    let s = chars_of(code);
    let mut found = scan_calls(&s);
    scan_pipe(&s, &mut found);
    let ghost want = lang_edges(source_id@, code@);
    let mut out: Vec<RawEdge> = Vec::new();
    for key in it: found
        invariant
            it.seq() == found@,
            seqs::views(found@) == keys(code@),
            want == lang_edges(source_id@, code@),
            seqs::views(out@) == want.take(it.index() as int),
    {
        assert(seqs::views(found@)[it.index() as int] == key@);
        out.push(RawEdge::named(source_id.to_string(), "uses-lang", key));
        assert(want.take(it.index() + 1) =~= want.take(it.index() as int).push(want[it.index() as int]));
    }
    assert(want.take(want.len() as int) =~= want);
    out
}

// ---------------------------------------------------------------------------
// The index of usages

/// What `(file, key)` usages say.
pub open spec fn usage_views(u: Seq<(String, String)>) -> Seq<(Seq<char>, Seq<char>)> {
    u.map_values(|e: (String, String)| (e.0@, e.1@))
}

/// The keys that are used.
pub open spec fn used_keys(u: Seq<(Seq<char>, Seq<char>)>) -> Seq<Seq<char>> {
    u.map_values(|e: (Seq<char>, Seq<char>)| e.1)
}

/// The positions of the usages of a key.
pub open spec fn usage_places(u: Seq<(Seq<char>, Seq<char>)>, key: Seq<char>) -> Seq<int> {
    buckets::bucket(u.map_values(|e: (Seq<char>, Seq<char>)| Some(e.1)), key)
}

/// The files that use a key.
pub open spec fn using_files(u: Seq<(Seq<char>, Seq<char>)>, key: Seq<char>) -> Seq<Seq<char>> {
    usage_places(u, key).map_values(|i: int| u[i].0)
}

/// The entry of a key: the sorted files that use it.
pub open spec fn index_entry(u: Seq<(Seq<char>, Seq<char>)>, key: Seq<char>) -> (Seq<char>, JsonView) {
    (key, JsonView::Arr(sorting::sorted_set(using_files(u, key)).map_values(|f: Seq<char>| JsonView::Str(f))))
}

/// The index of usages: each key, in order, with the files that use it, in order.
pub open spec fn index_of(u: Seq<(Seq<char>, Seq<char>)>) -> JsonView {
    JsonView::Obj(
        sorting::sorted_set(used_keys(u)).map_values(|k: Seq<char>| index_entry(u, k)),
    )
}

fn text_list(texts: &[String]) -> (r: Value)
    ensures
        json::held(r) == JsonView::Arr(
            seqs::views(texts@).map_values(|f: Seq<char>| JsonView::Str(f)),
        ),
{
    let ghost want = seqs::views(texts@).map_values(|f: Seq<char>| JsonView::Str(f));
    let mut items: Vec<Value> = Vec::new();
    assert(json::held_all(items@) =~= want.take(0));
    let mut k: usize = 0;
    while k < texts.len()
        invariant
            k <= texts@.len(),
            want == seqs::views(texts@).map_values(|f: Seq<char>| JsonView::Str(f)),
            json::held_all(items@) == want.take(k as int),
        decreases texts@.len() - k,
    {
        let ghost so_far = items@;
        let item = json::text_value(&texts[k]);
        items.push(item);
        assert(json::held_all(items@) =~= json::held_all(so_far).push(json::held(item)));
        assert(want.take(k + 1) =~= want.take(k as int).push(want[k as int]));
        k += 1;
    }
    assert(want.take(k as int) =~= want);
    json::list_value(items)
}

fn files_under(usages: &[(String, String)], places: &[usize]) -> (r: Vec<String>)
    requires
        forall|j: int| 0 <= j < places@.len() ==> (#[trigger] places@[j]) < usages@.len(),
    ensures
        seqs::views(r@) == text::ints(places@).map_values(|i: int| usage_views(usages@)[i].0),
{
    let ghost u = usage_views(usages@);
    let ghost want = text::ints(places@).map_values(|i: int| u[i].0);
    let mut out: Vec<String> = Vec::new();
    let mut k: usize = 0;
    while k < places.len()
        invariant
            k <= places@.len(),
            u == usage_views(usages@),
            want == text::ints(places@).map_values(|i: int| u[i].0),
            forall|j: int| 0 <= j < places@.len() ==> (#[trigger] places@[j]) < usages@.len(),
            seqs::views(out@) == want.take(k as int),
        decreases places@.len() - k,
    {
        assert(want[k as int] == usages@[places@[k as int] as int].0@);
        assert(want.take(k + 1) =~= want.take(k as int).push(want[k as int]));
        out.push(usages[places[k]].0.clone());
        k += 1;
    }
    assert(want.take(k as int) =~= want);
    out
}

/// The index of usages as a JSON value, and its number of keys.
pub fn index(usages: &[(String, String)]) -> (r: (Value, usize))
    ensures
        json::held(r.0) == index_of(usage_views(usages@)),
        r.1 == sorting::sorted_set(used_keys(usage_views(usages@))).len(),
        json::held(r.0).is_plain(json::DEPTH as nat),
{
    let ghost u = usage_views(usages@);
    let ghost marks = u.map_values(|e: (Seq<char>, Seq<char>)| Some(e.1));
    let mut places = Buckets::new();
    let mut keys: Vec<String> = Vec::new();
    let mut k: usize = 0;
    assert(marks.take(0) =~= Seq::empty());
    assert(used_keys(u).take(0) =~= Seq::empty());
    while k < usages.len()
        invariant
            k <= usages@.len(),
            u == usage_views(usages@),
            marks == u.map_values(|e: (Seq<char>, Seq<char>)| Some(e.1)),
            places.wf(),
            places@ == marks.take(k as int),
            seqs::views(keys@) == used_keys(u).take(k as int),
        decreases usages@.len() - k,
    {
        assert(u[k as int].1 == usages@[k as int].1@);
        assert(marks.take(k + 1) =~= marks.take(k as int).push(marks[k as int]));
        assert(used_keys(u).take(k + 1) =~= used_keys(u).take(k as int).push(u[k as int].1));
        places.push(Some(usages[k].1.clone()));
        keys.push(usages[k].1.clone());
        k += 1;
    }
    assert(marks.take(k as int) =~= marks);
    assert(used_keys(u).take(k as int) =~= used_keys(u));
    let keys = sorting::sort_unique(keys);
    let ghost names = seqs::views(keys@);
    let ghost want = names.map_values(|n: Seq<char>| index_entry(u, n));
    let mut entries: Vec<(String, Value)> = Vec::new();
    assert(json::held_pairs(entries@) =~= want.take(0));
    let mut k: usize = 0;
    while k < keys.len()
        invariant
            k <= keys@.len(),
            u == usage_views(usages@),
            marks == u.map_values(|e: (Seq<char>, Seq<char>)| Some(e.1)),
            places.wf(),
            places@ == marks,
            names == seqs::views(keys@),
            want == names.map_values(|n: Seq<char>| index_entry(u, n)),
            json::held_pairs(entries@) == want.take(k as int),
        decreases keys@.len() - k,
    {
        let at = places.get(&keys[k]);
        let files = files_under(usages, &at);
        assert(seqs::views(files@) == using_files(u, names[k as int]));
        let list = text_list(&sorting::sort_unique(files));
        let ghost so_far = entries@;
        let entry = (keys[k].clone(), list);
        assert((entry.0@, json::held(entry.1)) == want[k as int]);
        entries.push(entry);
        assert(json::held_pairs(entries@) =~= json::held_pairs(so_far).push(want[k as int]));
        assert(want.take(k + 1) =~= want.take(k as int).push(want[k as int]));
        k += 1;
    }
    assert(want.take(k as int) =~= want);
    proof {
        assert forall|i: int, j: int| 0 <= i < j < want.len() implies (#[trigger] want[i]).0 != (
        #[trigger] want[j]).0 by {
            sorting::less_is_a_strict_total_order(names[i], names[j], names[j]);
        }
        assert forall|i: int| 0 <= i < want.len() implies (#[trigger] want[i]).1.is_plain(
            (json::DEPTH - 1) as nat,
        ) by {
            let files = want[i].1->Arr_0;
            assert forall|j: int| 0 <= j < files.len() implies (#[trigger] files[j]).is_plain(
                (json::DEPTH - 2) as nat,
            ) by {
                assert(files[j] is Str);
            }
        }
    }
    (json::object_value(entries), keys.len())
}

/// The text of the translation-key index, and its number of keys.
pub fn write_index(usages: &[(String, String)]) -> (r: (String, usize))
    ensures
        r.0@ == json::rendered(index_of(usage_views(usages@))),
        json::reads(r.0@, index_of(usage_views(usages@))),
        r.1 == sorting::sorted_set(used_keys(usage_views(usages@))).len(),
{
    let (value, count) = index(usages);
    (json::render(&value), count)
}

} // verus!
