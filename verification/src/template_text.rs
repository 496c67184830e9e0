//! What the text of a template says: the templates it refers to, the names it calls
//! and the translation keys it uses.

use vstd::prelude::*;

use crate::blade;
use crate::html;
use crate::lang;
use crate::model;
use crate::model::EdgeView;
use crate::reading;
use crate::reading::{in_word, is_plain, quotes, reads};
use crate::scan;
use crate::seqs;
use crate::text;
use crate::text::CharSet;
use crate::twig;

verus! {

// ---------------------------------------------------------------------------
// Translation keys

/// A function that takes a translation key first.
pub open spec fn is_translator(f: Seq<char>) -> bool {
    ||| f == "__"@
    ||| f == "trans"@
    ||| f == "trans_choice"@
    ||| f == "_gettext"@
    ||| f == "_ngettext"@
    ||| f == "t"@
    ||| f == "tc"@
    ||| f == "te"@
    ||| f == "$t"@
    ||| f == "$tc"@
    ||| f == "$te"@
    ||| f == "instant"@
}

/// A character of a name of a script.
pub open spec fn in_name(c: char) -> bool {
    in_word(c) || c == '$'
}

proof fn lemma_translators(f: Seq<char>)
    requires
        is_translator(f) || f == "_pgettext"@,
    ensures
        f.len() > 0,
        forall|k: int| 0 <= k < f.len() ==> in_name(#[trigger] f[k]),
        is_translator(f) ==> lang::key_index(f) == Some(0nat),
        f == "_pgettext"@ ==> lang::key_index(f) == Some(1nat),
{
    reveal_strlit("__");
    reveal_strlit("trans");
    reveal_strlit("trans_choice");
    reveal_strlit("_gettext");
    reveal_strlit("_ngettext");
    reveal_strlit("t");
    reveal_strlit("tc");
    reveal_strlit("te");
    reveal_strlit("$t");
    reveal_strlit("$tc");
    reveal_strlit("$te");
    reveal_strlit("instant");
    reveal_strlit("_pgettext");
    if f == "_pgettext"@ {
        assert(f.len() == 9 && f[1] == 'p');
        assert("_ngettext"@[1] == 'n');
    }
}

pub proof fn lemma_unescaped(s: Seq<char>, i: int)
    requires
        0 <= i <= s.len(),
        forall|k: int| 0 <= k < s.len() ==> #[trigger] s[k] != '\\',
    ensures
        scan::unescaped_from(s, i) == s.subrange(i, s.len() as int),
    decreases s.len() - i,
{
    if i < s.len() {
        lemma_unescaped(s, i + 1);
        assert(seq![s[i]] + s.subrange(i + 1, s.len() as int) =~= s.subrange(i, s.len() as int));
    } else {
        assert(s.subrange(i, s.len() as int) =~= Seq::<char>::empty());
    }
}

proof fn lemma_key(s: Seq<char>, i: int, key: Seq<char>)
    requires
        quotes(s, i, key),
    ensures
        lang::key_argument(s, i, 0) == Some(key),
        lang::literal_at(s, i),
        text::run(s, i, CharSet::AsciiSpace) == i,
        scan::closing(s, i + 1, s[i]) == i + 1 + key.len(),
{
    reading::lemma_quoted(s, i, key);
    reading::lemma_run_to(s, i, i, CharSet::AsciiSpace);
    lemma_unescaped(key, 0);
    assert(key.subrange(0, key.len() as int) =~= key);
}

proof fn lemma_call_visited(s: Seq<char>, from: int, i: int, e: int, key: Seq<char>)
    requires
        0 <= from <= i < e <= s.len(),
        i == from || !in_name(s[i - 1]),
        forall|m: int| i <= m < e ==> in_name(#[trigger] s[m]),
        e < s.len() ==> !in_name(s[e]),
        lang::call_key(s, i, e) == Some(key),
    ensures
        lang::call_keys_from(s, from).contains(key),
    decreases i - from,
{
    if from == i {
        reading::lemma_run_to(s, i, e, CharSet::WordDollar);
        let one = seqs::opt_seq(Some(key));
        assert(one[0] == key);
        reading::lemma_behind(one, lang::call_keys_from(s, e), key);
    } else if CharSet::WordDollar.has(s[from]) {
        let z = text::run(s, from, CharSet::WordDollar);
        text::lemma_run(s, from, CharSet::WordDollar);
        assert(z <= i) by {
            if z > i {
                assert(CharSet::WordDollar.has(s[i - 1]));
            }
        }
        lemma_call_visited(s, z, i, e, key);
        reading::lemma_behind(seqs::opt_seq(lang::call_key(s, from, z)), lang::call_keys_from(s, z), key);
    } else {
        lemma_call_visited(s, from + 1, i, e, key);
    }
}

proof fn lemma_lang_edge(rel: Seq<char>, s: Seq<char>, key: Seq<char>)
    requires
        lang::call_keys_from(s, 0).contains(key) || lang::pipe_keys_from(s, 0).contains(key),
    ensures
        lang::lang_edges(rel, s).contains(model::named_edge(rel, "uses-lang"@, key)),
{
    let all = lang::keys(s);
    reading::lemma_behind(lang::call_keys_from(s, 0), lang::pipe_keys_from(s, 0), key);
    let k = choose|k: int| 0 <= k < all.len() && all[k] == key;
    assert(lang::lang_edges(rel, s)[k] == model::named_edge(rel, "uses-lang"@, key));
}

/// A file uses each key that it hands to a function that translates.
pub proof fn a_translated_key_is_used(rel: Seq<char>, s: Seq<char>, i: int, f: Seq<char>, key: Seq<char>)
    requires
        is_translator(f),
        i == 0 || !in_name(s[i - 1]),
        reads(s, i, f),
        reads(s, i + f.len(), "("@),
        quotes(s, i + f.len() + 1, key),
    ensures
        lang::lang_edges(rel, s).contains(model::named_edge(rel, "uses-lang"@, key)),
{
    reveal_strlit("(");
    lemma_translators(f);
    let e = i + f.len();
    assert("("@[0] == '(');
    assert(s[e + 0] == '(');
    assert forall|m: int| i <= m < e implies in_name(#[trigger] s[m]) by {
        assert(s[i + (m - i)] == f[m - i]);
    }
    reading::lemma_reads(s, i, f);
    reading::lemma_run_to(s, e, e, CharSet::AsciiSpace);
    lemma_key(s, e + 1, key);
    assert(lang::call_key(s, i, e) == Some(key));
    lemma_call_visited(s, 0, i, e, key);
    lemma_lang_edge(rel, s, key);
}

/// A key that goes with a context stands second.
pub proof fn a_key_of_a_context_is_used(rel: Seq<char>, s: Seq<char>, i: int, context: Seq<char>, key: Seq<char>)
    requires
        i == 0 || !in_name(s[i - 1]),
        reads(s, i, "_pgettext"@),
        reads(s, i + 9, "("@),
        quotes(s, i + 10, context),
        reads(s, i + 12 + context.len(), ","@),
        quotes(s, i + 13 + context.len(), key),
    ensures
        lang::lang_edges(rel, s).contains(model::named_edge(rel, "uses-lang"@, key)),
{
    reveal_strlit("(");
    reveal_strlit(",");
    reveal_strlit("_pgettext");
    let f = "_pgettext"@;
    lemma_translators(f);
    let e = i + 9;
    let b = i + 12 + context.len();
    assert("("@[0] == '(' && ","@[0] == ',');
    assert(s[e + 0] == '(');
    assert(s[b + 0] == ',');
    assert forall|m: int| i <= m < e implies in_name(#[trigger] s[m]) by {
        assert(s[i + (m - i)] == f[m - i]);
    }
    reading::lemma_reads(s, i, f);
    reading::lemma_run_to(s, e, e, CharSet::AsciiSpace);
    lemma_key(s, e + 1, context);
    lemma_key(s, b + 1, key);
    reading::lemma_run_to(s, b, b, CharSet::AsciiSpace);
    assert(lang::key_argument(s, e + 1, 1) == lang::key_argument(s, b + 1, 0));
    assert(lang::call_key(s, i, e) == Some(key));
    lemma_call_visited(s, 0, i, e, key);
    lemma_lang_edge(rel, s, key);
}

/// A pipe that translates what it is handed.
pub open spec fn is_translating_pipe(p: Seq<char>) -> bool {
    p == "translate"@ || p == "transloco"@ || p == "trans"@
}

proof fn lemma_pipe_visited(s: Seq<char>, from: int, i: int, key: Seq<char>)
    requires
        0 <= from <= i,
        quotes(s, i, key),
        forall|m: int| from <= m < i ==> #[trigger] s[m] != '\'' && s[m] != '"',
        lang::pipe_follows(s, i + 2 + key.len()),
    ensures
        lang::pipe_keys_from(s, from).contains(key),
    decreases i - from,
{
    if from == i {
        lemma_key(s, i, key);
        reading::lemma_quoted(s, i, key);
        lemma_unescaped(key, 0);
        assert(key.subrange(0, key.len() as int) =~= key);
        let inner = lang::pipe_keys_from(key, 0);
        assert(seq![key][0] == key);
        reading::lemma_behind(inner, seq![key], key);
        reading::lemma_behind(inner + seq![key], lang::pipe_keys_from(s, i + 2 + key.len()), key);
    } else {
        lemma_pipe_visited(s, from + 1, i, key);
    }
}

/// A file uses a key that it hands to a pipe that translates.
pub proof fn a_piped_key_is_used(rel: Seq<char>, s: Seq<char>, i: int, key: Seq<char>, pipe: Seq<char>)
    requires
        is_translating_pipe(pipe),
        quotes(s, i, key),
        forall|m: int| 0 <= m < i ==> #[trigger] s[m] != '\'' && s[m] != '"',
        reads(s, i + 2 + key.len(), " | "@),
        reads(s, i + 5 + key.len(), pipe),
        i + 5 + key.len() + pipe.len() < s.len() ==> !in_name(s[i + 5 + key.len() + pipe.len()]),
    ensures
        lang::lang_edges(rel, s).contains(model::named_edge(rel, "uses-lang"@, key)),
{
    reveal_strlit(" | ");
    reveal_strlit("translate");
    reveal_strlit("transloco");
    reveal_strlit("trans");
    let a = i + 2 + key.len();
    let b = a + 3;
    let z = b + pipe.len();
    let bar = " | "@;
    assert(bar[0] == ' ' && bar[1] == '|' && bar[2] == ' ');
    assert(s[a + 0] == ' ' && s[a + 1] == '|' && s[a + 2] == ' ');
    assert(s[b + 0] == pipe[0]);
    reading::lemma_run_to(s, a, a + 1, CharSet::AsciiSpace);
    reading::lemma_run_to(s, a + 2, b, CharSet::AsciiSpace);
    assert forall|m: int| b <= m < z implies CharSet::WordDollar.has(#[trigger] s[m]) by {
        assert(s[b + (m - b)] == pipe[m - b]);
    }
    reading::lemma_run_to(s, b, z, CharSet::WordDollar);
    reading::lemma_reads(s, b, pipe);
    assert(lang::pipe_follows(s, a));
    lemma_pipe_visited(s, 0, i, key);
    lemma_lang_edge(rel, s, key);
}

// ---------------------------------------------------------------------------
// Angular templates

proof fn lemma_bar_visited(s: Seq<char>, from: int, i: int, name: Seq<char>)
    requires
        0 <= from <= i,
        html::lone_bar(s, i),
        reads(s, i + 1, " "@),
        reads(s, i + 2, name),
        is_plain(name),
        i + 2 + name.len() < s.len() ==> !in_word(s[i + 2 + name.len()]),
    ensures
        html::pipes_from(s, from).contains(name),
    decreases i - from,
{
    reveal_strlit(" ");
    if from == i {
        let a = i + 2;
        let z = a + name.len();
        assert(" "@[0] == ' ');
        assert(s[i + 1 + 0] == ' ');
        assert(s[a + 0] == name[0]);
        assert(in_word(name[0]));
        reading::lemma_run_to(s, i + 1, a, CharSet::AsciiSpace);
        assert forall|m: int| a <= m < z implies CharSet::Word.has(#[trigger] s[m]) by {
            assert(s[a + (m - a)] == name[m - a]);
            assert(in_word(name[m - a]));
        }
        reading::lemma_run_to(s, a, z, CharSet::Word);
        reading::lemma_reads(s, a, name);
        assert(seq![name][0] == name);
        reading::lemma_behind(seq![name], html::pipes_from(s, z), name);
    } else if html::lone_bar(s, from) {
        let a = text::run(s, from + 1, CharSet::AsciiSpace);
        text::lemma_run(s, from + 1, CharSet::AsciiSpace);
        let b = text::run(s, a, CharSet::Word);
        text::lemma_run(s, a, CharSet::Word);
        assert(b <= i) by {
            if i < a {
                assert(CharSet::AsciiSpace.has(s[i]));
            } else if i < b {
                assert(CharSet::Word.has(s[i]));
            }
        }
        lemma_bar_visited(s, b, i, name);
        let head = if a < b {
            seq![s.subrange(a, b)]
        } else {
            Seq::empty()
        };
        reading::lemma_behind(head, html::pipes_from(s, b), name);
    } else {
        lemma_bar_visited(s, from + 1, i, name);
    }
}

/// A template uses each pipe that it names behind a single bar.
pub proof fn a_template_uses_its_pipes(rel: Seq<char>, base: Seq<char>, s: Seq<char>, i: int, name: Seq<char>)
    requires
        reads(s, i, "| "@),
        i == 0 || s[i - 1] != '|',
        reads(s, i + 2, name),
        is_plain(name),
        i + 2 + name.len() < s.len() ==> !in_word(s[i + 2 + name.len()]),
    ensures
        html::extracted(rel, base, s).edges.contains(model::named_edge(rel, "uses-pipe"@, name)),
{
    reveal_strlit("| ");
    reveal_strlit(" ");
    let bar = "| "@;
    assert(bar[0] == '|' && bar[1] == ' ' && " "@[0] == ' ');
    assert(s[i + 0] == '|' && s[i + 1] == ' ');
    lemma_bar_visited(s, 0, i, name);
    let all = html::pipes_from(s, 0);
    let k = choose|k: int| 0 <= k < all.len() && all[k] == name;
    let e = model::named_edge(rel, "uses-pipe"@, name);
    assert(html::pipe_edges(rel, s)[k] == e);
    reading::lemma_behind(lang::lang_edges(rel, s), html::pipe_edges(rel, s), e);
}

/// An Angular or a Twig template uses the keys that its text uses.
pub proof fn templates_use_their_keys(rel: Seq<char>, base: Seq<char>, s: Seq<char>, key: Seq<char>)
    requires
        lang::lang_edges(rel, s).contains(model::named_edge(rel, "uses-lang"@, key)),
    ensures
        html::extracted(rel, base, s).edges.contains(model::named_edge(rel, "uses-lang"@, key)),
        twig::extracted(rel, base, s).edges.contains(model::named_edge(rel, "uses-lang"@, key)),
{
    let e = model::named_edge(rel, "uses-lang"@, key);
    reading::lemma_behind(lang::lang_edges(rel, s), html::pipe_edges(rel, s), e);
    lemma_twig(rel, base, s, e);
}

// ---------------------------------------------------------------------------
// Twig

/// A tag that refers to another template.
pub open spec fn is_referring_tag(w: Seq<char>) -> bool {
    ||| w == "extends"@
    ||| w == "include"@
    ||| w == "embed"@
    ||| w == "import"@
    ||| w == "from"@
    ||| w == "use"@
}

proof fn lemma_referring_tags(w: Seq<char>)
    requires
        is_referring_tag(w),
    ensures
        is_plain(w),
        twig::is_reference_tag(w),
{
    reveal_strlit("extends");
    reveal_strlit("include");
    reveal_strlit("embed");
    reveal_strlit("import");
    reveal_strlit("from");
    reveal_strlit("use");
}

proof fn lemma_trimmed(s: Seq<char>, a: int, z: int, k: CharSet)
    requires
        0 <= a < z <= s.len(),
        forall|m: int| 0 <= m < a ==> k.has(#[trigger] s[m]),
        !k.has(s[a]),
        forall|m: int| z <= m < s.len() ==> k.has(#[trigger] s[m]),
        !k.has(s[z - 1]),
    ensures
        text::trimmed(s, k) == s.subrange(a, z),
{
    reading::lemma_run_to(s, 0, a, k);
    let t = text::trimmed_start(s, k);
    assert(t =~= s.subrange(a, s.len() as int));
    let n = t.len() as int;
    assert forall|m: int| z - a <= m < n implies k.has(#[trigger] t[m]) by {
        assert(t[m] == s[a + m]);
    }
    reading::lemma_run_from(t, z - a, n, k);
    reading::lemma_run_to(s, 0, a, k);
    lemma_trim_both(s, a, z, k);
}

proof fn lemma_trim_both(s: Seq<char>, a: int, z: int, k: CharSet)
    requires
        0 <= a < z <= s.len(),
        text::run(s, 0, k) == a,
        forall|m: int| z <= m < s.len() ==> k.has(#[trigger] s[m]),
        !k.has(s[z - 1]),
    ensures
        text::trimmed(s, k) == s.subrange(a, z),
{
    reading::lemma_run_from(s, z, s.len() as int, k);
    let t = s.subrange(a, s.len() as int);
    let n = t.len() as int;
    assert forall|m: int| z - a <= m < n implies k.has(#[trigger] t[m]) by {
        assert(t[m] == s[a + m]);
    }
    assert(t[z - a - 1] == s[z - 1]);
    reading::lemma_run_from(t, z - a, n, k);
    assert(t.subrange(0, z - a) =~= s.subrange(a, z));
}

proof fn lemma_twig(rel: Seq<char>, base: Seq<char>, s: Seq<char>, e: EdgeView)
    requires
        twig::tag_edges(rel, s).contains(e) || twig::block_edges(rel, s).contains(e) || lang::lang_edges(
            rel,
            s,
        ).contains(e) || twig::call_edges(rel, s).contains(e),
    ensures
        twig::extracted(rel, base, s).edges.contains(e),
{
    let t = twig::tag_edges(rel, s);
    let b = twig::block_edges(rel, s);
    let l = lang::lang_edges(rel, s);
    let c = twig::call_edges(rel, s);
    if t.contains(e) || b.contains(e) {
        reading::lemma_behind(t, b, e);
    }
    if (t + b).contains(e) || l.contains(e) {
        reading::lemma_behind(t + b, l, e);
    }
    reading::lemma_behind(t + b + l, c, e);
    reveal(twig::template_edges);
    assert(twig::extracted(rel, base, s).edges == twig::template_edges(rel, s));
}

proof fn lemma_tag(s: Seq<char>, i: int, e: int, word: Seq<char>, name: Seq<char>)
    requires
        0 <= i,
        e < s.len(),
        is_plain(word),
        s[i + 2] == ' ',
        reads(s, i + 3, word),
        s[i + 3 + word.len()] == ' ',
        quotes(s, i + 4 + word.len(), name),
        e == i + 7 + word.len() + name.len(),
        s[e - 1] == ' ',
        text::find(s, "%}"@, i + 2) == e,
    ensures
        twig::tag_at(s, i) == Some(s.subrange(i + 3, e - 1)),
        twig::first_word(s.subrange(i + 3, e - 1)) == word,
        scan::literal(s.subrange(i + 3, e - 1), CharSet::Quote) == Some(name),
{
    let a = i + 3;
    let q = a + word.len() + 1;
    let raw = s.subrange(i + 2, e);
    let n = raw.len() as int;
    assert(s[a + 0] == word[0]);
    assert(in_word(word[0]));
    lemma_trimmed(raw, 1, n - 1, CharSet::Space);
    let tag = raw.subrange(1, n - 1);
    assert(tag =~= s.subrange(a, e - 1));
    reading::lemma_run_to(tag, 0, 0, CharSet::One('-'));
    assert(tag.subrange(0, tag.len() as int) =~= tag);
    lemma_trimmed(tag, 0, tag.len() as int, CharSet::Space);
    assert(twig::tag_at(s, i) == Some(tag));
    reading::lemma_run_to(tag, 0, 0, CharSet::Space);
    assert forall|m: int| 0 <= m < word.len() implies !CharSet::Space.has(#[trigger] tag[m]) && tag[m] == word[m]
        && tag[m] != '\'' && tag[m] != '"' by {
        assert(tag[m] == s[a + m]);
        assert(in_word(word[m]));
    }
    reading::lemma_seek_to(tag, 0, word.len() as int, CharSet::Space);
    assert(twig::first_word(tag) =~= word);
    let w = word.len() as int + 1;
    assert(quotes(tag, w, name)) by {
        assert forall|k: int| 0 <= k < name.len() implies tag[w + 1 + k] == #[trigger] name[k] by {
            assert(s[q + 1 + k] == name[k]);
        }
    }
    reading::lemma_quoted(tag, w, name);
    assert forall|m: int| 0 <= m < w implies !CharSet::Quote.has(#[trigger] tag[m]) by {
        if m < word.len() {
            assert(tag[m] == word[m]);
        }
    }
    reading::lemma_seek_to(tag, 0, w, CharSet::Quote);
    assert(scan::literal(tag, CharSet::Quote) == Some(name));
}

/// A tag that refers to a template makes the file depend on the template it names.
pub proof fn a_tag_refers_to_its_template(
    rel: Seq<char>,
    base: Seq<char>,
    s: Seq<char>,
    i: int,
    word: Seq<char>,
    name: Seq<char>,
)
    requires
        is_referring_tag(word),
        reads(s, i, "{% "@),
        reads(s, i + 3, word),
        reads(s, i + 3 + word.len(), " "@),
        quotes(s, i + 4 + word.len(), name),
        reads(s, i + 6 + word.len() + name.len(), " %}"@),
        forall|k: int| 0 <= k < name.len() ==> #[trigger] name[k] != '%',
    ensures
        twig::extracted(rel, base, s).edges.contains(model::named_edge(rel, "includes"@, name)),
{
    reveal_strlit("{% ");
    reveal_strlit("{%");
    reveal_strlit("%}");
    reveal_strlit(" ");
    reveal_strlit(" %}");
    lemma_referring_tags(word);
    let a = i + 3;
    let b = a + word.len();
    let q = b + 1;
    let e = q + name.len() + 3;
    let open = "{% "@;
    let end = " %}"@;
    assert(open[0] == '{' && open[1] == '%' && open[2] == ' ' && end[0] == ' ' && end[1] == '%' && end[2] == '}');
    assert(s[i + 0] == '{' && s[i + 1] == '%' && s[i + 2] == ' ');
    assert(" "@[0] == ' ');
    assert(s[b + 0] == ' ');
    assert(s[e - 1 + 0] == ' ' && s[e - 1 + 1] == '%' && s[e - 1 + 2] == '}');
    assert(reads(s, i, "{%"@));
    reading::every_occurrence_is_hit(s, "{%"@, 0, i);
    let close = "%}"@;
    assert(close[0] == '%' && close[1] == '}');
    assert(reads(s, e, close));
    reading::lemma_reads(s, e, close);
    assert forall|m: int| i + 2 <= m < e implies #[trigger] s[m] != '%' by {
        if m == i + 2 {
        } else if m < b {
            assert(s[a + (m - a)] == word[m - a]);
            assert(in_word(word[m - a]));
        } else if m == b || m == q || m >= e - 2 {
        } else {
            assert(s[q + 1 + (m - q - 1)] == name[m - q - 1]);
        }
    }
    text::lemma_find(s, close, i + 2);
    let f = text::find(s, close, i + 2);
    reading::lemma_reads(s, f, close);
    assert(f == e) by {
        if f < e {
            assert(s[f + 0] == close[0]);
        }
    }
    lemma_tag(s, i, e, word, name);
    let edge = model::named_edge(rel, "includes"@, name);
    let g = twig::tag_edge(rel, s);
    assert(g(i)[0] == edge);
    reading::lemma_given(text::hits(s, "{%"@, 0), g, i, edge);
    lemma_twig(rel, base, s, edge);
}

proof fn lemma_call_at(t: Seq<char>, from: int, i: int, name: Seq<char>)
    requires
        0 <= from <= i,
        forall|m: int| from <= m < i ==> #[trigger] t[m] == ' ',
        i == 0 || t[i - 1] == ' ',
        reads(t, i, name),
        is_plain(name),
        !('0' <= name[0] && name[0] <= '9'),
        i + name.len() < t.len(),
        t[i + name.len()] == '(',
    ensures
        twig::calls_from(t, from).contains(name),
    decreases i - from,
{
    if from < i {
        assert(t[from] == ' ');
        lemma_call_at(t, from + 1, i, name);
    } else {
        let z = i + name.len();
        assert forall|m: int| i <= m < z implies CharSet::Word.has(#[trigger] t[m]) by {
            assert(t[i + (m - i)] == name[m - i]);
            assert(in_word(name[m - i]));
        }
        assert(t[i + 0] == name[0]);
        reading::lemma_run_to(t, i, z, CharSet::Word);
        reading::lemma_run_to(t, z, z, CharSet::AsciiSpace);
        reading::lemma_reads(t, i, name);
        assert(seq![name][0] == name);
        reading::lemma_behind(seq![name], twig::calls_from(t, z), name);
    }
}

/// A template uses the function that it calls first in what it prints.
pub proof fn a_template_uses_the_functions_it_calls(
    rel: Seq<char>,
    base: Seq<char>,
    s: Seq<char>,
    i: int,
    name: Seq<char>,
    e: int,
)
    requires
        i == 0 || s[i - 1] != '{',
        reads(s, i, "{{ "@),
        reads(s, i + 3, name),
        is_plain(name),
        !('0' <= name[0] && name[0] <= '9'),
        reads(s, i + 3 + name.len(), "("@),
        i + 4 + name.len() <= e,
        reads(s, e, "}}"@),
        forall|k: int| 0 <= k < i ==> #[trigger] s[k] != '{',
        forall|k: int| i + 2 <= k < e ==> #[trigger] s[k] != '}',
    ensures
        twig::extracted(rel, base, s).edges.contains(model::named_edge(rel, "uses-fn"@, name)),
{
    reveal_strlit("{{ ");
    reveal_strlit("{{");
    reveal_strlit("}}");
    reveal_strlit("(");
    let open = "{{ "@;
    assert(open[0] == '{' && open[1] == '{' && open[2] == ' ' && "("@[0] == '(');
    assert(s[i + 0] == '{' && s[i + 1] == '{' && s[i + 2] == ' ');
    let a = i + 3;
    let b = a + name.len();
    assert(s[b + 0] == '(');
    assert("{{"@[0] == '{' && "{{"@[1] == '{');
    assert(reads(s, i, "{{"@));
    assert forall|k: int| 0 <= k < i implies !#[trigger] reads(s, k, "{{"@) by {
        if reads(s, k, "{{"@) {
            assert(s[k + 0] == "{{"@[0]);
        }
    }
    reading::lemma_first_hit(s, "{{"@, 0, i);
    let all = text::hits(s, "{{"@, 0);
    assert(all.contains(i));
    let close = "}}"@;
    assert(close[0] == '}');
    reading::lemma_reads(s, e, close);
    text::lemma_find(s, close, i + 2);
    let f = text::find(s, close, i + 2);
    reading::lemma_reads(s, f, close);
    assert(f == e) by {
        if f < e {
            assert(s[f + 0] == close[0]);
        }
    }
    let t = s.subrange(i + 2, e);
    assert(reads(t, 1, name)) by {
        assert forall|k: int| 0 <= k < name.len() implies t[1 + k] == #[trigger] name[k] by {
            assert(s[a + k] == name[k]);
        }
    }
    lemma_call_at(t, 0, 1, name);
    let g = twig::region_calls(s, close);
    assert(g(i) == twig::calls_from(t, 0));
    reading::lemma_given(all, g, i, name);
    reading::lemma_behind(
        twig::calls_between(s, "{{"@, "}}"@),
        twig::calls_between(s, "{%"@, "%}"@),
        name,
    );
    let names = twig::called(s);
    let k = choose|k: int| 0 <= k < names.len() && names[k] == name;
    let edge = model::named_edge(rel, "uses-fn"@, name);
    assert(twig::call_edges(rel, s)[k] == edge);
    lemma_twig(rel, base, s, edge);
}

// ---------------------------------------------------------------------------
// Blade

/// A directive that takes the name of a view first.
pub open spec fn is_view_word(d: Seq<char>) -> bool {
    ||| d == "include"@
    ||| d == "includeIf"@
    ||| d == "extends"@
    ||| d == "component"@
    ||| d == "each"@
    ||| d == "livewire"@
}

/// A directive that takes a translation key first.
pub open spec fn is_key_word(d: Seq<char>) -> bool {
    d == "lang"@ || d == "choice"@
}

proof fn lemma_directive_words(d: Seq<char>)
    requires
        is_view_word(d) || is_key_word(d),
    ensures
        d.len() > 0,
        forall|k: int| 0 <= k < d.len() ==> text::is_alpha(#[trigger] d[k]),
        is_view_word(d) ==> blade::is_view_directive(d),
{
    reveal_strlit("include");
    reveal_strlit("includeIf");
    reveal_strlit("extends");
    reveal_strlit("component");
    reveal_strlit("each");
    reveal_strlit("livewire");
    reveal_strlit("lang");
    reveal_strlit("choice");
}

/// What a directive with a quoted name says.
pub open spec fn says(rel: Seq<char>, d: Seq<char>, name: Seq<char>) -> EdgeView {
    model::named_edge(
        rel,
        if is_view_word(d) {
            "includes"@
        } else {
            "uses-lang"@
        },
        name,
    )
}

proof fn lemma_directive(rel: Seq<char>, d: Seq<char>, args: Seq<char>, name: Seq<char>)
    requires
        is_view_word(d) || is_key_word(d),
        quotes(args, 0, name),
    ensures
        blade::directive_edges(rel, d, args).contains(says(rel, d, name)),
{
    lemma_directive_words(d);
    reading::lemma_quoted(args, 0, name);
    reading::lemma_seek_to(args, 0, 0, CharSet::Quote);
    assert(blade::first_string(args) == Some(name));
    let one = seqs::opt_seq(Some(name));
    assert(one[0] == name);
    let v = blade::edges_to(rel, "includes"@, blade::directive_views(d, args));
    let k = blade::edges_to(rel, "uses-lang"@, blade::directive_keys(d, args));
    if is_view_word(d) {
        assert(v[0] == says(rel, d, name));
    } else {
        assert(k[0] == says(rel, d, name));
    }
    reading::lemma_behind(v, k, says(rel, d, name));
}

proof fn lemma_directive_visited(rel: Seq<char>, s: Seq<char>, from: int, i: int, d: Seq<char>, name: Seq<char>)
    requires
        0 <= from <= i,
        is_view_word(d) || is_key_word(d),
        forall|m: int| from <= m < i ==> #[trigger] s[m] != '@',
        i == 0 || s[i - 1] != '@',
        reads(s, i, "@"@),
        reads(s, i + 1, d),
        reads(s, i + 1 + d.len(), "("@),
        quotes(s, i + 2 + d.len(), name),
        reads(s, i + 4 + d.len() + name.len(), ")"@),
    ensures
        blade::directives_from(rel, s, from).contains(says(rel, d, name)),
    decreases i - from,
{
    reveal_strlit("@");
    reveal_strlit("(");
    reveal_strlit(")");
    assert("@"@[0] == '@' && "("@[0] == '(' && ")"@[0] == ')');
    assert(s[i + 0] == '@');
    if from < i {
        assert(s[from] != '@');
        lemma_directive_visited(rel, s, from + 1, i, d, name);
    } else {
        lemma_directive_words(d);
        let o = i + 1 + d.len();
        let q = o + 1;
        let c = q + name.len() + 2;
        assert(s[o + 0] == '(' && s[c + 0] == ')');
        assert forall|m: int| i + 1 <= m < o implies CharSet::Alpha.has(#[trigger] s[m]) by {
            assert(s[i + 1 + (m - i - 1)] == d[m - i - 1]);
        }
        reading::lemma_run_to(s, i + 1, o, CharSet::Alpha);
        reading::lemma_run_to(s, o, o, CharSet::Blank);
        reading::lemma_over_quoted(s, q, name, 1, '(', ')');
        assert(scan::partner(s, o, '(', ')', CharSet::Quote) == c);
        reading::lemma_reads(s, i + 1, d);
        let args = s.subrange(q, c);
        assert(quotes(args, 0, name)) by {
            assert forall|k: int| 0 <= k < name.len() implies args[1 + k] == #[trigger] name[k] by {
                assert(s[q + 1 + k] == name[k]);
            }
        }
        lemma_directive(rel, d, args, name);
        reading::lemma_behind(
            blade::directive_edges(rel, d, args),
            blade::directives_from(rel, s, c + 1),
            says(rel, d, name),
        );
    }
}

proof fn lemma_blade(rel: Seq<char>, s: Seq<char>, e: EdgeView)
    requires
        blade::directives_from(rel, s, 0).contains(e) || blade::edges_to(
            rel,
            "includes"@,
            blade::component_names(s),
        ).contains(e) || blade::edges_to(rel, "uses-lang"@, blade::helper_keys(s, "trans_choice"@)).contains(e)
            || blade::edges_to(rel, "uses-lang"@, blade::helper_keys(s, "trans"@)).contains(e) || blade::edges_to(
            rel,
            "uses-lang"@,
            blade::helper_keys(s, "__"@),
        ).contains(e),
    ensures
        blade::template_edges(rel, s).contains(e),
{
    let a = blade::directives_from(rel, s, 0);
    let b = blade::edges_to(rel, "includes"@, blade::component_names(s));
    let c = blade::edges_to(rel, "uses-lang"@, blade::helper_keys(s, "trans_choice"@));
    let d = blade::edges_to(rel, "uses-lang"@, blade::helper_keys(s, "trans"@));
    let f = blade::edges_to(rel, "uses-lang"@, blade::helper_keys(s, "__"@));
    if a.contains(e) || b.contains(e) {
        reading::lemma_behind(a, b, e);
    }
    if (a + b).contains(e) || c.contains(e) {
        reading::lemma_behind(a + b, c, e);
    }
    if (a + b + c).contains(e) || d.contains(e) {
        reading::lemma_behind(a + b + c, d, e);
    }
    reading::lemma_behind(a + b + c + d, f, e);
}

proof fn lemma_all_live(s: Seq<char>)
    requires
        forall|k: int| 0 <= k ==> !#[trigger] reads(s, k, "{{--"@),
        forall|k: int| 0 <= k ==> !#[trigger] reads(s, k, "@verbatim"@),
    ensures
        blade::live(s) == s,
{
    reveal_strlit("{{--");
    reveal_strlit("@verbatim");
    lemma_not_found(s, "{{--"@);
    lemma_not_found(s, "@verbatim"@);
    assert(s.subrange(0, s.len() as int) =~= s);
    assert(blade::stripped(s, "{{--"@, "--}}"@) == s);
}

proof fn lemma_not_found(s: Seq<char>, p: Seq<char>)
    requires
        forall|k: int| 0 <= k ==> !#[trigger] reads(s, k, p),
    ensures
        text::find(s, p, 0) == s.len(),
{
    text::lemma_find(s, p, 0);
    let k = text::find(s, p, 0);
    reading::lemma_reads(s, k, p);
}

/// A view depends on each view that its first directive names, and uses the key
/// that it translates, as long as nothing in the view is commented out.
pub proof fn a_directive_names_its_view_or_key(
    rel: Seq<char>,
    base: Seq<char>,
    s: Seq<char>,
    i: int,
    d: Seq<char>,
    name: Seq<char>,
)
    requires
        is_view_word(d) || is_key_word(d),
        forall|m: int| 0 <= m < i ==> #[trigger] s[m] != '@',
        reads(s, i, "@"@),
        reads(s, i + 1, d),
        reads(s, i + 1 + d.len(), "("@),
        quotes(s, i + 2 + d.len(), name),
        reads(s, i + 4 + d.len() + name.len(), ")"@),
        forall|k: int| 0 <= k ==> !#[trigger] reads(s, k, "{{--"@),
        forall|k: int| 0 <= k ==> !#[trigger] reads(s, k, "@verbatim"@),
    ensures
        is_view_word(d) ==> blade::extracted(rel, base, s).edges.contains(
            model::named_edge(rel, "includes"@, name),
        ),
        is_key_word(d) ==> blade::extracted(rel, base, s).edges.contains(
            model::named_edge(rel, "uses-lang"@, name),
        ),
{
    lemma_all_live(s);
    lemma_directive_visited(rel, s, 0, i, d, name);
    lemma_blade(rel, s, says(rel, d, name));
    assert(!(is_view_word(d) && is_key_word(d))) by {
        reveal_strlit("include");
        reveal_strlit("includeIf");
        reveal_strlit("extends");
        reveal_strlit("component");
        reveal_strlit("each");
        reveal_strlit("livewire");
        reveal_strlit("lang");
        reveal_strlit("choice");
        if is_key_word(d) {
            assert(d.len() == 4 || d.len() == 6);
            assert("lang"@[0] == 'l' && "each"@[0] == 'e');
        }
    }
}

/// A view depends on each component that it has a tag of.
pub proof fn a_component_tag_names_its_view(
    rel: Seq<char>,
    base: Seq<char>,
    s: Seq<char>,
    i: int,
    tag: Seq<char>,
    name: Seq<char>,
)
    requires
        tag == "<x-"@ || tag == "<livewire:"@,
        reads(s, i, tag),
        reads(s, i + tag.len(), name),
        is_plain(name),
        name != "slot"@,
        i + tag.len() + name.len() < s.len() ==> !in_word(s[i + tag.len() + name.len()]) && s[i + tag.len()
            + name.len()] != '.' && s[i + tag.len() + name.len()] != '-' && s[i + tag.len() + name.len()] != ':',
        forall|k: int| 0 <= k ==> !#[trigger] reads(s, k, "{{--"@),
        forall|k: int| 0 <= k ==> !#[trigger] reads(s, k, "@verbatim"@),
    ensures
        blade::extracted(rel, base, s).edges.contains(model::named_edge(rel, "includes"@, name)),
{
    lemma_all_live(s);
    reveal_strlit("<x-");
    reveal_strlit("<livewire:");
    reveal_strlit("slot:");
    reveal_strlit("dynamic-component");
    reading::every_occurrence_is_hit(s, tag, 0, i);
    let a = i + tag.len();
    let z = a + name.len();
    assert forall|m: int| a <= m < z implies CharSet::Tag.has(#[trigger] s[m]) && CharSet::Dotted.has(s[m]) by {
        assert(s[a + (m - a)] == name[m - a]);
        assert(in_word(name[m - a]));
    }
    reading::lemma_run_to(s, a, z, CharSet::Tag);
    reading::lemma_run_to(s, a, z, CharSet::Dotted);
    reading::lemma_reads(s, a, name);
    assert(!text::starts(name, "slot:"@)) by {
        reading::lemma_reads(name, 0, "slot:"@);
        if reads(name, 0, "slot:"@) {
            assert("slot:"@[4] == ':');
            assert(name[0int + 4] == "slot:"@[4]);
            assert(in_word(name[4]));
        }
    }
    assert(name != "dynamic-component"@) by {
        assert("dynamic-component"@[7] == '-');
        assert(name.len() > 7 ==> in_word(name[7]));
    }
    let cs = seqs::each(text::hits(s, "<x-"@, 0), blade::component_of(s));
    let ls = seqs::each(text::hits(s, "<livewire:"@, 0), blade::livewire_of(s));
    assert(seq![name][0] == name);
    if tag == "<x-"@ {
        assert(blade::component_of(s)(i) == seq![name]);
        reading::lemma_given(text::hits(s, tag, 0), blade::component_of(s), i, name);
    } else {
        assert(blade::livewire_of(s)(i) == seq![name]);
        reading::lemma_given(text::hits(s, tag, 0), blade::livewire_of(s), i, name);
    }
    reading::lemma_behind(cs, ls, name);
    let names = blade::component_names(s);
    let k = choose|k: int| 0 <= k < names.len() && names[k] == name;
    let e = model::named_edge(rel, "includes"@, name);
    assert(blade::edges_to(rel, "includes"@, names)[k] == e);
    lemma_blade(rel, s, e);
}

/// A view uses each key that it hands to a helper that translates.
pub proof fn a_helper_names_its_key(
    rel: Seq<char>,
    base: Seq<char>,
    s: Seq<char>,
    i: int,
    f: Seq<char>,
    key: Seq<char>,
)
    requires
        f == "trans_choice"@ || f == "trans"@ || f == "__"@,
        i == 0 || (!in_word(s[i - 1]) && s[i - 1] != '$' && s[i - 1] != '\\'),
        f == "trans"@ ==> (forall|k: int| 0 <= k < i ==> #[trigger] s[k] != 't'),
        f == "trans_choice"@ ==> (forall|k: int| 0 <= k < i ==> #[trigger] s[k] != 't'),
        reads(s, i, f),
        reads(s, i + f.len(), "("@),
        quotes(s, i + f.len() + 1, key),
        reads(s, i + f.len() + 3 + key.len(), ")"@),
        forall|k: int| 0 <= k ==> !#[trigger] reads(s, k, "{{--"@),
        forall|k: int| 0 <= k ==> !#[trigger] reads(s, k, "@verbatim"@),
        f == "__"@ ==> (forall|k: int| 0 <= k < i ==> #[trigger] s[k] != '_'),
    ensures
        blade::extracted(rel, base, s).edges.contains(model::named_edge(rel, "uses-lang"@, key)),
{
    lemma_all_live(s);
    reveal_strlit("trans_choice");
    reveal_strlit("trans");
    reveal_strlit("__");
    reveal_strlit("(");
    reveal_strlit(")");
    assert("("@[0] == '(' && ")"@[0] == ')');
    assert("trans"@[0] == 't' && "trans_choice"@[0] == 't' && "__"@[0] == '_');
    assert forall|k: int| 0 <= k < i implies !#[trigger] reads(s, k, f) by {
        if reads(s, k, f) {
            assert(s[k + 0] == f[0]);
        }
    }
    reading::lemma_first_hit(s, f, 0, i);
    let all = text::hits(s, f, 0);
    assert(all.contains(i));
    let o = i + f.len();
    let q = o + 1;
    let c = q + key.len() + 2;
    assert(s[o + 0] == '(' && s[c + 0] == ')');
    reading::lemma_run_to(s, o, o, CharSet::Blank);
    reading::lemma_over_quoted(s, q, key, 1, '(', ')');
    assert(scan::partner(s, o, '(', ')', CharSet::Quote) == c);
    let args = s.subrange(q, c);
    assert(quotes(args, 0, key)) by {
        assert forall|k: int| 0 <= k < key.len() implies args[1 + k] == #[trigger] key[k] by {
            assert(s[q + 1 + k] == key[k]);
        }
    }
    reading::lemma_quoted(args, 0, key);
    reading::lemma_seek_to(args, 0, 0, CharSet::Quote);
    assert(blade::helper_key(s, f, i) == Some(key));
    let one = seqs::opt_seq(Some(key));
    assert(one[0] == key);
    assert(blade::helper_key_of(s, f)(i) == one);
    reading::lemma_given(all, blade::helper_key_of(s, f), i, key);
    let keys = blade::helper_keys(s, f);
    let k = choose|k: int| 0 <= k < keys.len() && keys[k] == key;
    let e = model::named_edge(rel, "uses-lang"@, key);
    assert(blade::edges_to(rel, "uses-lang"@, keys)[k] == e);
    lemma_blade(rel, s, e);
}

} // verus!
