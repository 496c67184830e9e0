//! Models, the tables they map to, and the models they relate to.

use vstd::prelude::*;

use crate::laravel;
use crate::model;
use crate::php_text;
use crate::reading;
use crate::reading::{in_word, is_plain, quotes, reads};
use crate::scan;
use crate::text;
use crate::text::CharSet;

verus! {

/// The relations that a model declares are those of these methods.
pub proof fn relations_are_declared_by_these_methods(m: Seq<char>)
    ensures
        model::is_relation(m) <==> (m == "belongsTo"@ || m == "hasMany"@ || m == "hasOne"@ || m
            == "belongsToMany"@ || m == "morphTo"@ || m == "morphMany"@ || m == "morphOne"@ || m
            == "morphToMany"@ || m == "morphedByMany"@ || m == "hasManyThrough"@ || m == "hasOneThrough"@),
{
    let names = model::relation_names();
    if model::is_relation(m) {
        let i = choose|i: int| 0 <= i < names.len() && names[i] == m;
        assert(0 <= i < 11);
    }
    assert(names[0] == "belongsTo"@);
    assert(names[1] == "hasMany"@);
    assert(names[2] == "hasOne"@);
    assert(names[3] == "belongsToMany"@);
    assert(names[4] == "morphTo"@);
    assert(names[5] == "morphMany"@);
    assert(names[6] == "morphOne"@);
    assert(names[7] == "morphToMany"@);
    assert(names[8] == "morphedByMany"@);
    assert(names[9] == "hasManyThrough"@);
    assert(names[10] == "hasOneThrough"@);
}

/// A relation leads to the class whose constant comes first in its call.
pub proof fn a_relation_names_the_first_class(call: Seq<char>, i: int, class: Seq<char>)
    requires
        i > 0,
        !in_word(call[i - 1]) && call[i - 1] != '\\',
        reads(call, i, class),
        is_plain(class),
        reads(call, i + class.len(), "::class"@),
        forall|k: int| 0 <= k < i + class.len() ==> !#[trigger] reads(call, k, "::class"@),
    ensures
        laravel::related(call) == Some(class),
        laravel::first_class(call) == Some(class),
{
    let word = "::class"@;
    let c = i + class.len();
    text::lemma_find(call, word, 0);
    reading::lemma_reads(call, c, word);
    let at = text::find(call, word, 0);
    reading::lemma_reads(call, at, word);
    reveal_strlit("::class");
    assert(at == c);
    assert forall|m: int| i <= m < c implies CharSet::Qualified.has(#[trigger] call[m]) by {
        assert(call[i + (m - i)] == class[m - i]);
        assert(in_word(class[m - i]));
    }
    reading::lemma_run_from(call, i, c, CharSet::Qualified);
    reading::lemma_reads(call, i, class);
    php_text::lemma_bare(class);
}

/// A relation that holds no class constant leads to the class that its first string
/// names, its namespace aside.
pub proof fn a_relation_names_a_class_by_its_string(call: Seq<char>, i: int, class: Seq<char>)
    requires
        quotes(call, i, class),
        is_plain(class),
        forall|k: int| 0 <= k < i ==> #[trigger] call[k] != '\'' && call[k] != '"',
        forall|k: int| 0 <= k ==> !#[trigger] reads(call, k, "::class"@),
    ensures
        laravel::related(call) == Some(class),
{
    let word = "::class"@;
    text::lemma_find(call, word, 0);
    let at = text::find(call, word, 0);
    reading::lemma_reads(call, at, word);
    assert(at == call.len());
    reading::lemma_quoted(call, i, class);
    reading::lemma_seek_to(call, 0, i, CharSet::Quote);
    php_text::lemma_bare(class);
    assert(scan::literal(call, CharSet::Quote) == Some(class));
}

/// A base by which a class is a model.
pub open spec fn is_base_of_models(name: Seq<char>) -> bool {
    ||| name == "Model"@
    ||| name == "Authenticatable"@
    ||| name == "Pivot"@
    ||| name == "MorphPivot"@
    ||| (name.len() >= 5 && reads(name, name.len() - 5, "Model"@))
}

proof fn lemma_base(name: Seq<char>)
    ensures
        is_base_of_models(name) <==> laravel::is_model_base(name),
{
    reveal_strlit("Model");
    reading::lemma_reads(name, name.len() - 5, "Model"@);
}

/// The text of a class sets its table: a property of that name, and no other before.
pub open spec fn sets_table(body: Seq<char>, i: int, table: Seq<char>) -> bool {
    &&& reads(body, i, "$table"@)
    &&& reads(body, i + 6, " = "@)
    &&& quotes(body, i + 9, table)
    &&& forall|k: int| 0 <= k < i ==> !#[trigger] reads(body, k, "$table"@)
}

/// A class maps to the table that it sets, whatever it extends.
pub proof fn a_class_maps_to_the_table_it_sets(
    name: Seq<char>,
    bases: Seq<Seq<char>>,
    body: Seq<char>,
    i: int,
    table: Seq<char>,
)
    requires
        sets_table(body, i, table),
    ensures
        laravel::mapped_table(name, bases, body) == Some(table),
{
    reveal_strlit("$table");
    reveal_strlit(" = ");
    let gap = " = "@;
    assert(gap[0] == ' ' && gap[1] == '=' && gap[2] == ' ');
    assert(body[i + 6 + 0] == ' ');
    assert(body[i + 6 + 1] == '=');
    assert(body[i + 6 + 2] == ' ');
    reading::lemma_first_hit(body, "$table"@, 0, i);
    reading::lemma_quoted(body, i + 9, table);
    reading::lemma_run_to(body, i + 6, i + 7, CharSet::Space);
    reading::lemma_run_to(body, i + 8, i + 9, CharSet::Space);
    assert(laravel::table_at(body, i) == Some(table));
    assert(laravel::table_of(body)(i) == Some(table));
}

/// A class that sets no table maps to the conventional one where one of its bases is
/// that of models, and to none elsewhere.
pub proof fn a_model_maps_to_the_conventional_table(name: Seq<char>, bases: Seq<Seq<char>>, body: Seq<char>)
    requires
        forall|k: int| 0 <= k ==> !#[trigger] reads(body, k, "$table"@),
    ensures
        (exists|k: int| 0 <= k < bases.len() && is_base_of_models(#[trigger] bases[k])) ==> laravel::mapped_table(
            name,
            bases,
            body,
        ) == Some(laravel::conventional_table(name)),
        (forall|k: int| 0 <= k < bases.len() ==> !is_base_of_models(#[trigger] bases[k]))
            ==> laravel::mapped_table(name, bases, body) is None,
{
    reading::lemma_no_hit(body, "$table"@, 0);
    assert(laravel::explicit_table(body) is None);
    assert forall|k: int| 0 <= k < bases.len() implies is_base_of_models(#[trigger] bases[k])
        == laravel::is_model_base(bases[k]) by {
        lemma_base(bases[k]);
    }
}

/// A capitalised word: one capital letter and then small ones.
pub open spec fn is_capitalised(w: Seq<char>) -> bool {
    &&& w.len() > 0
    &&& 'A' <= w[0] && w[0] <= 'Z'
    &&& forall|k: int| 0 < k < w.len() ==> 'a' <= #[trigger] w[k] && w[k] <= 'z'
}

/// The small letter of a capital one.
pub open spec fn small(c: char) -> char {
    ((c as u8) + 32) as char
}

proof fn lemma_lower(c: char)
    ensures
        'A' <= c && c <= 'Z' ==> text::lower_char(c) == small(c),
        'a' <= c && c <= 'z' ==> text::lower_char(c) == c,
        c == '_' ==> text::lower_char(c) == c,
{
}

proof fn lemma_snake(s: Seq<char>, i: int, j: int)
    requires
        0 < i <= j <= s.len(),
        forall|k: int| i <= k < j ==> 'a' <= #[trigger] s[k] && s[k] <= 'z',
    ensures
        laravel::snake_from(s, i) == s.subrange(i, j) + laravel::snake_from(s, j),
    decreases j - i,
{
    if i < j {
        lemma_snake(s, i + 1, j);
        lemma_lower(s[i]);
        assert(seq![s[i]] + (s.subrange(i + 1, j) + laravel::snake_from(s, j)) =~= s.subrange(i, j)
            + laravel::snake_from(s, j));
    } else {
        assert(s.subrange(i, j) + laravel::snake_from(s, j) =~= laravel::snake_from(s, j));
    }
}

/// The last letter of a word, before which a plain `s` makes the plural.
pub open spec fn takes_s(c: char) -> bool {
    'a' <= c && c <= 'z' && c != 's' && c != 'x' && c != 'z' && c != 'h' && c != 'y'
}

proof fn lemma_plural_s(w: Seq<char>)
    requires
        w.len() > 0,
        takes_s(w.last()),
    ensures
        laravel::plural(w) == w + "s"@,
{
    reveal_strlit("is");
    reveal_strlit("s");
    reveal_strlit("x");
    reveal_strlit("z");
    reveal_strlit("ch");
    reveal_strlit("sh");
    reveal_strlit("y");
    let l = text::lower(w);
    let n = l.len() as int;
    lemma_lower(w.last());
    assert(l[n - 1] == w.last());
    lemma_end(l, "is"@);
    lemma_end(l, "s"@);
    lemma_end(l, "x"@);
    lemma_end(l, "z"@);
    lemma_end(l, "ch"@);
    lemma_end(l, "sh"@);
    lemma_end(l, "y"@);
    assert("is"@.last() == 's' && "s"@.last() == 's' && "x"@.last() == 'x' && "z"@.last() == 'z' && "ch"@.last()
        == 'h' && "sh"@.last() == 'h' && "y"@.last() == 'y');
}

proof fn lemma_end(l: Seq<char>, p: Seq<char>)
    requires
        p.len() > 0,
    ensures
        text::ends(l, p) ==> l.len() >= p.len() && l.last() == p.last(),
        p.len() == 1 && l.len() > 0 && l.last() == p.last() ==> text::ends(l, p),
{
    if text::ends(l, p) {
        assert(l.subrange(l.len() - p.len(), l.len() as int)[p.len() - 1] == l.last());
    }
    if p.len() == 1 && l.len() > 0 && l.last() == p.last() {
        assert(l.subrange(l.len() - 1, l.len() as int) =~= p);
    }
}

/// The table of a model of one word is its plural in small letters.
pub proof fn the_table_of_a_word_is_its_plural(w: Seq<char>)
    requires
        is_capitalised(w),
        w.len() > 1,
        takes_s(w.last()),
    ensures
        laravel::conventional_table(w) == seq![small(w[0])] + w.skip(1) + "s"@,
{
    lemma_plural_s(w);
    reveal_strlit("s");
    let p = w + "s"@;
    lemma_lower(p[0]);
    assert("s"@[0] == 's');
    assert forall|k: int| 1 <= k < p.len() implies 'a' <= #[trigger] p[k] && p[k] <= 'z' by {
        if k < w.len() {
            assert(p[k] == w[k]);
        }
    }
    lemma_snake(p, 1, p.len() as int);
    assert(seq![small(w[0])] + (p.subrange(1, p.len() as int) + laravel::snake_from(p, p.len() as int))
        =~= seq![small(w[0])] + w.skip(1) + "s"@);
}

/// The words of the name of a model are parted by underscores in the name of its table.
pub proof fn the_words_of_a_table_are_parted(v: Seq<char>, w: Seq<char>)
    requires
        is_capitalised(v),
        is_capitalised(w),
        w.len() > 1,
        takes_s(w.last()),
    ensures
        laravel::conventional_table(v + w) == seq![small(v[0])] + v.skip(1) + "_"@ + seq![small(w[0])] + w.skip(1)
            + "s"@,
{
    let n = v + w;
    lemma_plural_s(n);
    reveal_strlit("s");
    reveal_strlit("_");
    let p = n + "s"@;
    let a = v.len() as int;
    let z = p.len() as int;
    lemma_lower(p[0]);
    assert("s"@[0] == 's');
    assert forall|k: int| 1 <= k < a implies 'a' <= #[trigger] p[k] && p[k] <= 'z' by {
        assert(p[k] == v[k]);
    }
    assert forall|k: int| a + 1 <= k < z implies 'a' <= #[trigger] p[k] && p[k] <= 'z' by {
        if k < n.len() {
            assert(p[k] == w[k - a]);
        }
    }
    assert(p[0] == v[0]);
    assert(p[a] == w[0]);
    lemma_snake(p, 1, a);
    lemma_snake(p, a + 1, z);
    lemma_lower(p[a]);
    let end = laravel::snake_from(p, z);
    assert(end.len() == 0);
    assert(seq![small(v[0])] + (p.subrange(1, a) + (seq!['_', small(w[0])] + (p.subrange(a + 1, z) + end)))
        =~= seq![small(v[0])] + v.skip(1) + "_"@ + seq![small(w[0])] + w.skip(1) + "s"@);
}

/// The plural of a word by its ending: `-y` behind no vowel turns into `-ies`, `-is`
/// into `-es`, and `-s`, `-x`, `-z`, `-ch` and `-sh` take `-es`.
pub proof fn plurals_go_by_the_ending(stem: Seq<char>)
    requires
        stem.len() > 0,
    ensures
        !(stem.last() == 'a' || stem.last() == 'e' || stem.last() == 'i' || stem.last() == 'o' || stem.last()
            == 'u') ==> laravel::plural(stem + "y"@) == stem + "ies"@,
        (stem.last() == 'a' || stem.last() == 'e' || stem.last() == 'i' || stem.last() == 'o' || stem.last()
            == 'u') ==> laravel::plural(stem + "y"@) == stem + "y"@ + "s"@,
        laravel::plural(stem + "x"@) == stem + "x"@ + "es"@,
        laravel::plural(stem + "z"@) == stem + "z"@ + "es"@,
        laravel::plural(stem + "is"@) == stem + "es"@,
        laravel::plural(stem + "ch"@) == stem + "ch"@ + "es"@,
        laravel::plural(stem + "sh"@) == stem + "sh"@ + "es"@,
        laravel::plural(stem + "ss"@) == stem + "ss"@ + "es"@,
{
    reveal_strlit("is");
    reveal_strlit("s");
    reveal_strlit("ss");
    reveal_strlit("x");
    reveal_strlit("z");
    reveal_strlit("ch");
    reveal_strlit("sh");
    reveal_strlit("y");
    lemma_ending(stem, "y"@);
    lemma_ending(stem, "x"@);
    lemma_ending(stem, "z"@);
    lemma_ending(stem, "is"@);
    lemma_ending(stem, "ch"@);
    lemma_ending(stem, "sh"@);
    lemma_ending(stem, "ss"@);
    assert("is"@.last() == 's' && "s"@.last() == 's' && "x"@.last() == 'x' && "z"@.last() == 'z' && "ch"@.last()
        == 'h' && "sh"@.last() == 'h' && "y"@.last() == 'y' && "ss"@.last() == 's');
    assert((stem + "y"@).subrange(0, stem.len() as int) =~= stem);
    assert((stem + "y"@)[stem.len() - 1] == stem.last());
    assert((stem + "is"@).subrange(0, stem.len() as int) =~= stem);
    let l = text::lower(stem + "ss"@);
    assert(!text::ends(l, "is"@)) by {
        if text::ends(l, "is"@) {
            assert(l.subrange(l.len() - 2, l.len() as int)[0] == l[l.len() - 2]);
            assert("is"@[0] == 'i' && "ss"@[0] == 's');
        }
    }
}

proof fn lemma_ending(stem: Seq<char>, p: Seq<char>)
    requires
        p.len() > 0,
        forall|k: int| 0 <= k < p.len() ==> 'a' <= #[trigger] p[k] && p[k] <= 'z',
    ensures
        ({
            let l = text::lower(stem + p);
            &&& l.len() == stem.len() + p.len()
            &&& text::ends(l, p)
            &&& l.last() == p.last()
            &&& forall|k: int| 0 <= k < p.len() ==> l[stem.len() + k] == #[trigger] p[k]
            &&& forall|q: Seq<char>| q.len() == 1 ==> (#[trigger] text::ends(l, q) <==> q[0] == p.last())
            &&& forall|q: Seq<char>| q.len() > 0 && #[trigger] text::ends(l, q) ==> q.last() == p.last()
        }),
{
    let l = text::lower(stem + p);
    assert forall|k: int| 0 <= k < p.len() implies l[stem.len() + k] == #[trigger] p[k] by {
        lemma_lower(p[k]);
        assert((stem + p)[stem.len() + k] == p[k]);
    }
    assert(l.last() == l[stem.len() + (p.len() - 1)]);
    assert(l.last() == p[p.len() - 1]);
    assert(l.subrange(l.len() - p.len(), l.len() as int) =~= p);
    assert forall|q: Seq<char>| q.len() > 0 && #[trigger] text::ends(l, q) implies q.last() == p.last() by {
        lemma_end(l, q);
    }
    assert forall|q: Seq<char>| q.len() == 1 implies (#[trigger] text::ends(l, q) <==> q[0] == p.last()) by {
        lemma_end(l, q);
    }
}

} // verus!
