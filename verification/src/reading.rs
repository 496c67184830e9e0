//! What a text reads at a place, and what a scan makes of it there.

use vstd::prelude::*;

use crate::model;
use crate::model::{EdgeView, FoundView, NodeView};
use crate::scan;
use crate::seqs;
use crate::text;
use crate::text::CharSet;

verus! {

/// The text `s` reads `p` from index `i` on.
pub open spec fn reads(s: Seq<char>, i: int, p: Seq<char>) -> bool {
    &&& 0 <= i
    &&& i + p.len() <= s.len()
    &&& forall|k: int| 0 <= k < p.len() ==> s[i + k] == #[trigger] p[k]
}

/// A character of a plain name: a letter, a digit or an underscore.
pub open spec fn in_word(c: char) -> bool {
    ||| ('a' <= c && c <= 'z')
    ||| ('A' <= c && c <= 'Z')
    ||| ('0' <= c && c <= '9')
    ||| c == '_'
}

/// A plain name.
pub open spec fn is_plain(s: Seq<char>) -> bool {
    s.len() > 0 && forall|k: int| 0 <= k < s.len() ==> in_word(#[trigger] s[k])
}

/// What stands at index `i` is not the tail of a longer name.
pub open spec fn begins_word(s: Seq<char>, i: int) -> bool {
    i <= 0 || !in_word(s[i - 1])
}

/// What stands before index `i` does not go on there.
pub open spec fn ends_word(s: Seq<char>, i: int) -> bool {
    i >= s.len() || !in_word(s[i])
}

/// The text `s` reads `name` in quotes at index `i`: the same mark on both sides,
/// and neither it nor a backslash in between.
pub open spec fn quotes(s: Seq<char>, i: int, name: Seq<char>) -> bool {
    &&& 0 <= i
    &&& i + name.len() + 1 < s.len()
    &&& s[i] == '\'' || s[i] == '"'
    &&& s[i + name.len() + 1] == s[i]
    &&& reads(s, i + 1, name)
    &&& forall|k: int| 0 <= k < name.len() ==> #[trigger] name[k] != s[i] && name[k] != '\\'
}

/// No text begins again inside itself: its first character comes once.
pub open spec fn begins_once(p: Seq<char>) -> bool {
    p.len() > 0 && forall|k: int| 0 < k < p.len() ==> #[trigger] p[k] != p[0]
}

pub proof fn lemma_reads(s: Seq<char>, i: int, p: Seq<char>)
    ensures
        reads(s, i, p) <==> text::occurs(s, i, p),
{
    if reads(s, i, p) {
        assert(s.subrange(i, i + p.len()) =~= p);
    }
    if text::occurs(s, i, p) {
        let t = s.subrange(i, i + p.len());
        assert forall|k: int| 0 <= k < p.len() implies s[i + k] == #[trigger] p[k] by {
            assert(t[k] == p[k]);
        }
    }
}

/// Every place at which a text reads `p` is among its hits.
pub proof fn every_occurrence_is_hit(s: Seq<char>, p: Seq<char>, from: int, i: int)
    requires
        0 <= from <= i,
        begins_once(p),
        reads(s, i, p),
    ensures
        text::hits(s, p, from).contains(i),
    decreases i - from,
{
    lemma_reads(s, from, p);
    if from == i {
        let t = seq![i] + text::hits(s, p, i + p.len());
        assert(t[0] == i);
    } else if text::occurs(s, from, p) {
        if i < from + p.len() {
            assert(s[from + (i - from)] == p[i - from]);
            assert(s[i + 0] == p[0]);
            assert(false);
        }
        every_occurrence_is_hit(s, p, from + p.len() as int, i);
        lemma_behind(seq![from], text::hits(s, p, from + p.len()), i);
    } else {
        every_occurrence_is_hit(s, p, from + 1, i);
    }
}

/// A hit is a place at which the text reads `p`.
pub proof fn every_hit_is_an_occurrence(s: Seq<char>, p: Seq<char>, from: int, i: int)
    requires
        0 <= from,
        text::hits(s, p, from).contains(i),
    ensures
        from <= i,
        reads(s, i, p),
    decreases s.len() - from,
{
    if from < s.len() {
        if p.len() > 0 && text::occurs(s, from, p) {
            let rest = text::hits(s, p, from + p.len());
            let k = choose|k: int| 0 <= k < (seq![from] + rest).len() && (seq![from] + rest)[k] == i;
            if k == 0 {
                lemma_reads(s, from, p);
            } else {
                assert(rest[k - 1] == i);
                every_hit_is_an_occurrence(s, p, from + p.len() as int, i);
            }
        } else {
            every_hit_is_an_occurrence(s, p, from + 1, i);
        }
    }
}

/// The first of the hits is the first place at which the text reads `p`.
pub proof fn lemma_first_hit(s: Seq<char>, p: Seq<char>, from: int, i: int)
    requires
        0 <= from <= i,
        p.len() > 0,
        reads(s, i, p),
        forall|j: int| from <= j < i ==> !#[trigger] reads(s, j, p),
    ensures
        text::hits(s, p, from).len() > 0,
        text::hits(s, p, from)[0] == i,
    decreases i - from,
{
    lemma_reads(s, from, p);
    if from < i {
        assert(!reads(s, from, p));
        lemma_first_hit(s, p, from + 1, i);
    }
}

/// A text that nowhere reads `p` has no hits.
pub proof fn lemma_no_hit(s: Seq<char>, p: Seq<char>, from: int)
    requires
        0 <= from,
        forall|j: int| from <= j ==> !#[trigger] reads(s, j, p),
    ensures
        text::hits(s, p, from).len() == 0,
    decreases s.len() - from,
{
    if from < s.len() {
        lemma_reads(s, from, p);
        assert(!reads(s, from, p));
        lemma_no_hit(s, p, from + 1);
    }
}

pub proof fn lemma_behind<A>(a: Seq<A>, b: Seq<A>, x: A)
    requires
        a.contains(x) || b.contains(x),
    ensures
        (a + b).contains(x),
{
    if a.contains(x) {
        let k = choose|k: int| 0 <= k < a.len() && a[k] == x;
        assert((a + b)[k] == x);
    } else {
        let k = choose|k: int| 0 <= k < b.len() && b[k] == x;
        assert((a + b)[a.len() + k] == x);
    }
}

/// A run of `k` characters ends where the next one is of another kind.
pub proof fn lemma_run_to(s: Seq<char>, i: int, j: int, k: CharSet)
    requires
        0 <= i <= j <= s.len(),
        forall|m: int| i <= m < j ==> k.has(#[trigger] s[m]),
        j < s.len() ==> !k.has(s[j]),
    ensures
        text::run(s, i, k) == j,
    decreases j - i,
{
    if i < j {
        lemma_run_to(s, i + 1, j, k);
    }
}

/// A run of `k` characters begins where the one before is of another kind.
pub proof fn lemma_run_from(s: Seq<char>, i: int, j: int, k: CharSet)
    requires
        0 <= i <= j <= s.len(),
        forall|m: int| i <= m < j ==> k.has(#[trigger] s[m]),
        i > 0 ==> !k.has(s[i - 1]),
    ensures
        text::run_back(s, j, k) == i,
    decreases j - i,
{
    if i < j {
        lemma_run_from(s, i, j - 1, k);
    }
}

/// The first `k` character from `i` on stands where all before are of another kind.
pub proof fn lemma_seek_to(s: Seq<char>, i: int, j: int, k: CharSet)
    requires
        0 <= i <= j <= s.len(),
        forall|m: int| i <= m < j ==> !k.has(#[trigger] s[m]),
        j < s.len() ==> k.has(s[j]),
    ensures
        text::seek(s, i, k) == j,
    decreases j - i,
{
    if i < j {
        lemma_seek_to(s, i + 1, j, k);
    }
}

proof fn lemma_closing_to(s: Seq<char>, i: int, j: int, q: char)
    requires
        0 <= i <= j < s.len(),
        s[j] == q,
        forall|m: int| i <= m < j ==> #[trigger] s[m] != q && s[m] != '\\',
    ensures
        scan::closing(s, i, q) == j,
    decreases j - i,
{
    if i < j {
        lemma_closing_to(s, i + 1, j, q);
    }
}

/// What is read of a quoted name is the name.
pub proof fn lemma_quoted(s: Seq<char>, i: int, name: Seq<char>)
    requires
        quotes(s, i, name),
    ensures
        CharSet::Quote.has(s[i]),
        scan::closing(s, i + 1, s[i]) == i + 1 + name.len(),
        s.subrange(i + 1, i + 1 + name.len()) == name,
{
    assert forall|m: int| i + 1 <= m < i + 1 + name.len() implies #[trigger] s[m] != s[i] && s[m] != '\\' by {
        assert(s[i + 1 + (m - i - 1)] == name[m - i - 1]);
    }
    lemma_closing_to(s, i + 1, i + 1 + name.len(), s[i]);
    lemma_reads(s, i + 1, name);
}

/// A quoted name nests nothing.
pub proof fn lemma_over_quoted(s: Seq<char>, i: int, name: Seq<char>, depth: int, open: char, close: char)
    requires
        quotes(s, i, name),
        open != '\'' && open != '"' && close != '\'' && close != '"',
    ensures
        scan::matching(s, i, depth, open, close, CharSet::Quote) == scan::matching(
            s,
            i + 2 + name.len(),
            depth,
            open,
            close,
            CharSet::Quote,
        ),
{
    lemma_quoted(s, i, name);
}

/// Plain characters nest nothing.
pub proof fn lemma_over_plain(s: Seq<char>, i: int, j: int, depth: int, open: char, close: char, quotes: CharSet)
    requires
        0 <= i <= j <= s.len(),
        forall|m: int| i <= m < j ==> #[trigger] s[m] != open && s[m] != close && !quotes.has(s[m]),
    ensures
        scan::matching(s, i, depth, open, close, quotes) == scan::matching(s, j, depth, open, close, quotes),
    decreases j - i,
{
    if i < j {
        lemma_over_plain(s, i + 1, j, depth, open, close, quotes);
    }
}

/// What `f` finds at an element is found.
pub proof fn lemma_found_each<A>(s: Seq<A>, k: int, f: spec_fn(A) -> FoundView, x: A)
    requires
        0 <= k,
        s.skip(k).contains(x),
        k <= s.len(),
    ensures
        forall|n: NodeView| f(x).nodes.contains(n) ==> #[trigger] model::found_from(s, k, f).nodes.contains(n),
        forall|e: EdgeView| f(x).edges.contains(e) ==> #[trigger] model::found_from(s, k, f).edges.contains(e),
    decreases s.len() - k,
{
    let j = choose|j: int| 0 <= j < s.skip(k).len() && s.skip(k)[j] == x;
    let head = f(s[k]);
    let rest = model::found_from(s, k + 1, f);
    if j > 0 {
        assert(s.skip(k + 1)[j - 1] == x);
        lemma_found_each(s, k + 1, f, x);
    }
    assert forall|n: NodeView| f(x).nodes.contains(n) implies #[trigger] model::found_from(
        s,
        k,
        f,
    ).nodes.contains(n) by {
        lemma_behind(head.nodes, rest.nodes, n);
    }
    assert forall|e: EdgeView| f(x).edges.contains(e) implies #[trigger] model::found_from(
        s,
        k,
        f,
    ).edges.contains(e) by {
        lemma_behind(head.edges, rest.edges, e);
    }
}

/// What `f` gives for an element is given.
pub proof fn lemma_given<A, B>(s: Seq<A>, f: spec_fn(A) -> Seq<B>, x: A, y: B)
    requires
        s.contains(x),
        f(x).contains(y),
    ensures
        seqs::each(s, f).contains(y),
{
    let i = choose|i: int| 0 <= i < s.len() && s[i] == x;
    assert(f(s[i]).contains(y));
    seqs::lemma_each(s, 0, f, y);
}

/// A name among the linked ones has its edge and its node.
pub proof fn lemma_linked(
    prefix: Seq<char>,
    kind: Seq<char>,
    rel: Seq<char>,
    relation: Seq<char>,
    names: Seq<Seq<char>>,
    name: Seq<char>,
)
    requires
        names.contains(name),
    ensures
        model::linked(prefix, kind, rel, relation, names).edges.contains(model::named_edge(rel, relation, name)),
        model::linked(prefix, kind, rel, relation, names).nodes.contains(
            model::join_node(prefix, kind, rel, name),
        ),
{
    let k = choose|k: int| 0 <= k < names.len() && names[k] == name;
    let l = model::linked(prefix, kind, rel, relation, names);
    assert(l.edges[k] == model::named_edge(rel, relation, name));
    assert(l.nodes[k] == model::join_node(prefix, kind, rel, name));
}

/// The first place from `from` on at which a text reads `p` is the one before which
/// it does not.
pub proof fn lemma_find_at(s: Seq<char>, p: Seq<char>, from: int, k: int)
    requires
        0 <= from <= k < s.len(),
        reads(s, k, p),
        forall|j: int| from <= j < k ==> !#[trigger] reads(s, j, p),
    ensures
        text::find(s, p, from) == k,
{
    text::lemma_find(s, p, from);
    let f = text::find(s, p, from);
    lemma_reads(s, k, p);
    lemma_reads(s, f, p);
    if f < k {
        assert(!reads(s, f, p));
    }
}

/// A text that does not read `p` from `from` on is searched to its end.
pub proof fn lemma_find_none(s: Seq<char>, p: Seq<char>, from: int)
    requires
        0 <= from <= s.len(),
        forall|j: int| from <= j ==> !#[trigger] reads(s, j, p),
    ensures
        text::find(s, p, from) == s.len(),
{
    text::lemma_find(s, p, from);
    let f = text::find(s, p, from);
    lemma_reads(s, f, p);
}

/// Two words with a blank between them are the words of their text.
pub proof fn two_words_are_told_apart(a: Seq<char>, b: Seq<char>)
    requires
        a.len() > 0,
        b.len() > 0,
        forall|k: int| 0 <= k < a.len() ==> !text::is_space(#[trigger] a[k]),
        forall|k: int| 0 <= k < b.len() ==> !text::is_space(#[trigger] b[k]),
    ensures
        text::words(a + " "@ + b) == seq![a, b],
{
    reveal_strlit(" ");
    assert(" "@[0] == ' ');
    let s = a + " "@ + b;
    let k = CharSet::Space;
    let n = a.len() as int;
    let z = s.len() as int;
    assert(s[0] == a[0]);
    assert(s[n] == ' ');
    assert(s[n + 1] == b[0]);
    lemma_run_to(s, 0, 0, k);
    assert forall|m: int| 0 <= m < n implies !k.has(#[trigger] s[m]) by {
        assert(s[m] == a[m]);
    }
    lemma_seek_to(s, 0, n, k);
    lemma_run_to(s, n, n + 1, k);
    assert forall|m: int| n + 1 <= m < z implies !k.has(#[trigger] s[m]) by {
        assert(s[m] == b[m - n - 1]);
    }
    lemma_seek_to(s, n + 1, z, k);
    assert(s.subrange(0, n) =~= a);
    assert(s.subrange(n + 1, z) =~= b);
    assert(text::runs_from(s, z, k) =~= Seq::<Seq<char>>::empty());
    assert(text::runs_from(s, n, k) =~= seq![b] + text::runs_from(s, z, k));
    assert(text::runs_from(s, 0, k) =~= seq![a] + text::runs_from(s, n, k));
    assert(seq![a] + (seq![b] + Seq::<Seq<char>>::empty()) =~= seq![a, b]);
}

/// A quoted name nests nothing, whatever marks begin a string, as long as its own does.
pub proof fn lemma_over_string(s: Seq<char>, i: int, name: Seq<char>, depth: int, open: char, close: char, marks: CharSet)
    requires
        quotes(s, i, name),
        marks.has(s[i]),
        open != '\'' && open != '"' && close != '\'' && close != '"',
    ensures
        scan::matching(s, i, depth, open, close, marks) == scan::matching(
            s,
            i + 2 + name.len(),
            depth,
            open,
            close,
            marks,
        ),
{
    lemma_quoted(s, i, name);
}

} // verus!
