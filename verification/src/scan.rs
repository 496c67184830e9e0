//! Scanning source text without parsing it: string literals, bracketed spans,
//! argument lists, and calls by name.

use vstd::prelude::*;
use vstd::slice::slice_subrange;

use crate::seqs;
use crate::text;
use crate::text::CharSet;

verus! {

broadcast use {crate::seqs::group_text, text::lemma_run, text::lemma_seek};

// ---------------------------------------------------------------------------
// String literals

/// The index of the first unescaped `q` at or after `i`, or the length.
pub open spec fn closing(s: Seq<char>, i: int, q: char) -> int
    decreases s.len() + 1 - i,
{
    if i < 0 || i >= s.len() {
        s.len() as int
    } else if s[i] == q {
        i
    } else if s[i] == '\\' {
        closing(s, i + 2, q)
    } else {
        closing(s, i + 1, q)
    }
}

pub broadcast proof fn lemma_closing(s: Seq<char>, i: int, q: char)
    requires
        0 <= i <= s.len(),
    ensures
        i <= #[trigger] closing(s, i, q) <= s.len(),
        closing(s, i, q) < s.len() ==> s[closing(s, i, q)] == q,
    decreases s.len() - i,
{
    if i < s.len() && s[i] != q {
        if s[i] == '\\' {
            if i + 2 <= s.len() {
                lemma_closing(s, i + 2, q);
            } else {
                assert(closing(s, i + 2, q) == s.len());
            }
        } else {
            lemma_closing(s, i + 1, q);
        }
    }
}

/// Finds the quote `q` that ends a literal whose content starts at `i`.
pub fn close_quote(s: &[char], i: usize, q: char) -> (r: usize)
    requires
        i <= s@.len(),
    ensures
        r == closing(s@, i as int, q),
        i <= r <= s@.len(),
        r < s@.len() ==> s@[r as int] == q,
{
    let mut j: usize = i;
    while j < s.len() && s[j] != q
        invariant
            i <= j <= s@.len(),
            closing(s@, i as int, q) == closing(s@, j as int, q),
        decreases s@.len() - j,
    {
        if s[j] == '\\' {
            if j + 1 >= s.len() {
                assert(closing(s@, j + 2, q) == s@.len());
                return s.len();
            }
            j += 2;
        } else {
            j += 1;
        }
    }
    j
}

/// The content of the first literal of `s` quoted by a `k` character; a literal
/// that is never closed runs to the end of the text.
pub open spec fn literal(s: Seq<char>, k: CharSet) -> Option<Seq<char>> {
    let i = text::seek(s, 0, k);
    if i >= s.len() {
        None
    } else {
        Some(s.subrange(i + 1, closing(s, i + 1, s[i])))
    }
}

/// The content of the first literal of `s` quoted by a `k` character, the text
/// up to the end where it is not closed.
pub fn first_literal<'a>(s: &'a [char], k: CharSet) -> (r: Option<&'a [char]>)
    ensures
        seqs::opt_view(r) == literal(s@, k),
{
    let i = text::look(s, 0, k);
    if i >= s.len() {
        return None;
    }
    let e = close_quote(s, i + 1, s[i]);
    Some(slice_subrange(s, i + 1, e))
}

/// A literal's content with each backslash dropped in favour of the character
/// that follows it, from index `i` on.
pub open spec fn unescaped_from(s: Seq<char>, i: int) -> Seq<char>
    decreases s.len() - i,
{
    if i < 0 || i >= s.len() {
        Seq::empty()
    } else if s[i] == '\\' {
        if i + 1 < s.len() {
            seq![s[i + 1]] + unescaped_from(s, i + 2)
        } else {
            Seq::empty()
        }
    } else {
        seq![s[i]] + unescaped_from(s, i + 1)
    }
}

/// A literal's content with each backslash dropped in favour of the character
/// that follows it.
pub open spec fn unescaped(s: Seq<char>) -> Seq<char> {
    unescaped_from(s, 0)
}

/// Drops the backslash escapes of a literal's content.
pub fn unescape(s: &[char]) -> (r: String)
    ensures
        r@ == unescaped(s@),
{
    let mut out = String::new();
    let mut i: usize = 0;
    while i < s.len()
        invariant
            i <= s@.len(),
            out@ + unescaped_from(s@, i as int) == unescaped(s@),
        decreases s@.len() - i,
    {
        if s[i] == '\\' {
            if i + 1 >= s.len() {
                return out;
            }
            out.push(s[i + 1]);
            i += 2;
        } else {
            out.push(s[i]);
            i += 1;
        }
    }
    out
}

/// The content of the first closed literal in single or double quotes, its
/// escapes dropped; nothing when the first quote is never closed.
pub open spec fn quoted(s: Seq<char>) -> Option<Seq<char>> {
    let i = text::seek(s, 0, CharSet::Quote);
    if i >= s.len() || closing(s, i + 1, s[i]) >= s.len() {
        None
    } else {
        Some(unescaped(s.subrange(i + 1, closing(s, i + 1, s[i]))))
    }
}

/// The content of the first literal of `s`, where it is closed.
pub fn first_quoted(s: &[char]) -> (r: Option<String>)
    ensures
        seqs::opt_view(r) == quoted(s@),
{
    let i = text::look(s, 0, CharSet::Quote);
    if i >= s.len() {
        return None;
    }
    let e = close_quote(s, i + 1, s[i]);
    if e >= s.len() {
        return None;
    }
    Some(unescape(slice_subrange(s, i + 1, e)))
}

/// The contents of the closed literals of `s` from index `i` on, up to the
/// first one that is not closed.
pub open spec fn literals_from(s: Seq<char>, i: int) -> Seq<Seq<char>>
    decreases s.len() - i,
{
    if i < 0 || i >= s.len() {
        Seq::empty()
    } else if CharSet::Quote.has(s[i]) {
        let e = closing(s, i + 1, s[i]);
        proof {
            lemma_closing(s, i + 1, s[i]);
        }
        if e >= s.len() {
            Seq::empty()
        } else {
            seq![s.subrange(i + 1, e)] + literals_from(s, e + 1)
        }
    } else {
        literals_from(s, i + 1)
    }
}

/// The contents of the closed literals of `s`, up to the first one that is not.
pub open spec fn literals(s: Seq<char>) -> Seq<Seq<char>> {
    literals_from(s, 0)
}

/// The contents of the closed literals of `s`.
pub fn all_literals<'a>(s: &'a [char]) -> (r: Vec<&'a [char]>)
    ensures
        seqs::views(r@) == literals(s@),
{
    let mut out: Vec<&'a [char]> = Vec::new();
    let mut i: usize = 0;
    while i < s.len()
        invariant
            i <= s@.len(),
            seqs::views(out@) + literals_from(s@, i as int) == literals(s@),
        decreases s@.len() - i,
    {
        if CharSet::Quote.test(s[i]) {
            let e = close_quote(s, i + 1, s[i]);
            if e >= s.len() {
                return out;
            }
            out.push(slice_subrange(s, i + 1, e));
            i = e + 1;
        } else {
            i += 1;
        }
    }
    out
}

/// The value of an argument that is one closed literal and nothing more.
pub open spec fn lone_literal(s: Seq<char>) -> Option<Seq<char>> {
    if s.len() > 0 && CharSet::Quote.has(s[0]) && closing(s, 1, s[0]) == s.len() - 1 {
        Some(unescaped(s.subrange(1, s.len() - 1)))
    } else {
        None
    }
}

/// The value of `s` if it is one literal and nothing more.
pub fn string_literal(s: &[char]) -> (r: Option<String>)
    ensures
        seqs::opt_view(r) == lone_literal(s@),
{
    if s.len() == 0 || !CharSet::Quote.test(s[0]) {
        return None;
    }
    if close_quote(s, 1, s[0]) != s.len() - 1 {
        return None;
    }
    Some(unescape(slice_subrange(s, 1, s.len() - 1)))
}

// ---------------------------------------------------------------------------
// Brackets

/// The index of the `close` that balances `depth` open brackets, from `i` on,
/// skipping what stands in `quotes`; the length where there is none.
pub open spec fn matching(s: Seq<char>, i: int, depth: int, open: char, close: char, quotes: CharSet) -> int
    decreases s.len() + 1 - i,
{
    if i < 0 || i >= s.len() {
        s.len() as int
    } else if s[i] == open {
        matching(s, i + 1, depth + 1, open, close, quotes)
    } else if s[i] == close {
        if depth <= 1 {
            i
        } else {
            matching(s, i + 1, depth - 1, open, close, quotes)
        }
    } else if quotes.has(s[i]) {
        proof {
            lemma_closing(s, i + 1, s[i]);
        }
        matching(s, closing(s, i + 1, s[i]) + 1, depth, open, close, quotes)
    } else {
        matching(s, i + 1, depth, open, close, quotes)
    }
}

pub broadcast proof fn lemma_matching(s: Seq<char>, i: int, depth: int, open: char, close: char, quotes: CharSet)
    requires
        0 <= i <= s.len(),
    ensures
        i <= #[trigger] matching(s, i, depth, open, close, quotes) <= s.len(),
        matching(s, i, depth, open, close, quotes) < s.len() ==> s[matching(
            s,
            i,
            depth,
            open,
            close,
            quotes,
        )] == close,
    decreases s.len() - i,
{
    if i < s.len() {
        if s[i] == open {
            lemma_matching(s, i + 1, depth + 1, open, close, quotes);
        } else if s[i] == close {
            if depth > 1 {
                lemma_matching(s, i + 1, depth - 1, open, close, quotes);
            }
        } else if quotes.has(s[i]) {
            lemma_closing(s, i + 1, s[i]);
            let e = closing(s, i + 1, s[i]);
            if e < s.len() {
                lemma_matching(s, e + 1, depth, open, close, quotes);
            } else {
                assert(matching(s, e + 1, depth, open, close, quotes) == s.len());
            }
        } else {
            lemma_matching(s, i + 1, depth, open, close, quotes);
        }
    }
}

/// The index of the bracket that closes the `open` bracket at index `i`.
pub open spec fn partner(s: Seq<char>, i: int, open: char, close: char, quotes: CharSet) -> int {
    matching(s, i + 1, 1, open, close, quotes)
}

/// Finds the bracket that closes the `open` bracket at index `i`.
pub fn close_bracket(s: &[char], i: usize, open: char, close: char, quotes: CharSet) -> (r: usize)
    requires
        i < s@.len(),
    ensures
        r == partner(s@, i as int, open, close, quotes),
        i < r <= s@.len(),
        r < s@.len() ==> s@[r as int] == close,
{
    let n = s.len();
    let mut depth: usize = 1;
    let mut j: usize = i + 1;
    while j < n
        invariant
            n == s@.len(),
            i < j <= s@.len(),
            1 <= depth <= j - i,
            matching(s@, i + 1, 1, open, close, quotes) == matching(
                s@,
                j as int,
                depth as int,
                open,
                close,
                quotes,
            ),
        decreases s@.len() - j,
    {
        let c = s[j];
        if c == open {
            depth += 1;
            j += 1;
        } else if c == close {
            if depth <= 1 {
                return j;
            }
            depth -= 1;
            j += 1;
        } else if quotes.test(c) {
            let e = close_quote(s, j + 1, c);
            if e >= s.len() {
                assert(matching(s@, e + 1, depth as int, open, close, quotes) == s@.len());
                return s.len();
            }
            j = e + 1;
        } else {
            j += 1;
        }
    }
    j
}

/// The brackets that nest in an argument list.
#[derive(Clone, Copy)]
pub struct Nesting {
    /// Whether braces nest, beside parentheses and square brackets.
    pub braces: bool,
    /// What opens and closes a literal.
    pub quotes: CharSet,
}

impl Nesting {
    pub open spec fn opens(self, c: char) -> bool {
        c == '(' || c == '[' || (self.braces && c == '{')
    }

    pub open spec fn closes(self, c: char) -> bool {
        c == ')' || c == ']' || (self.braces && c == '}')
    }
}

/// The index of the first `stop` character outside all brackets and literals,
/// from `i` on; the length where there is none.
pub open spec fn top_level(s: Seq<char>, i: int, depth: int, stop: char, k: Nesting) -> int
    decreases s.len() + 1 - i,
{
    if i < 0 || i >= s.len() {
        s.len() as int
    } else if k.opens(s[i]) {
        top_level(s, i + 1, depth + 1, stop, k)
    } else if k.closes(s[i]) {
        top_level(s, i + 1, depth - 1, stop, k)
    } else if k.quotes.has(s[i]) {
        proof {
            lemma_closing(s, i + 1, s[i]);
        }
        top_level(s, closing(s, i + 1, s[i]) + 1, depth, stop, k)
    } else if s[i] == stop && depth == 0 {
        i
    } else {
        top_level(s, i + 1, depth, stop, k)
    }
}

pub broadcast proof fn lemma_top_level(s: Seq<char>, i: int, depth: int, stop: char, k: Nesting)
    requires
        0 <= i <= s.len(),
    ensures
        i <= #[trigger] top_level(s, i, depth, stop, k) <= s.len(),
    decreases s.len() - i,
{
    if i < s.len() {
        if k.opens(s[i]) {
            lemma_top_level(s, i + 1, depth + 1, stop, k);
        } else if k.closes(s[i]) {
            lemma_top_level(s, i + 1, depth - 1, stop, k);
        } else if k.quotes.has(s[i]) {
            lemma_closing(s, i + 1, s[i]);
            let e = closing(s, i + 1, s[i]);
            if e < s.len() {
                lemma_top_level(s, e + 1, depth, stop, k);
            } else {
                assert(top_level(s, e + 1, depth, stop, k) == s.len());
            }
        } else if !(s[i] == stop && depth == 0) {
            lemma_top_level(s, i + 1, depth, stop, k);
        }
    }
}

/// Finds the first `stop` character outside all brackets and literals.
pub fn find_top_level(s: &[char], i: usize, stop: char, k: Nesting) -> (r: usize)
    requires
        i <= s@.len(),
    ensures
        r == top_level(s@, i as int, 0, stop, k),
        i <= r <= s@.len(),
{
    let mut depth: i128 = 0;
    let mut j: usize = i;
    while j < s.len()
        invariant
            i <= j <= s@.len(),
            -(j - i) <= depth <= j - i,
            top_level(s@, i as int, 0, stop, k) == top_level(s@, j as int, depth as int, stop, k),
        decreases s@.len() - j,
    {
        let c = s[j];
        if c == '(' || c == '[' || (k.braces && c == '{') {
            depth += 1;
            j += 1;
        } else if c == ')' || c == ']' || (k.braces && c == '}') {
            depth -= 1;
            j += 1;
        } else if k.quotes.test(c) {
            let e = close_quote(s, j + 1, c);
            if e >= s.len() {
                assert(top_level(s@, e + 1, depth as int, stop, k) == s@.len());
                return s.len();
            }
            j = e + 1;
        } else if c == stop && depth == 0 {
            return j;
        } else {
            j += 1;
        }
    }
    j
}

/// The arguments of a list, from the one that starts at `i`.
pub open spec fn args_from(s: Seq<char>, i: int, k: Nesting) -> Seq<Seq<char>>
    decreases s.len() - i,
{
    if i < 0 || i > s.len() {
        Seq::empty()
    } else {
        let e = top_level(s, i, 0, ',', k);
        proof {
            lemma_top_level(s, i, 0, ',', k);
        }
        if e >= s.len() {
            seq![s.subrange(i, s.len() as int)]
        } else {
            seq![s.subrange(i, e)] + args_from(s, e + 1, k)
        }
    }
}

/// The arguments of a list: its parts between top-level commas.
pub open spec fn arguments(s: Seq<char>, k: Nesting) -> Seq<Seq<char>> {
    args_from(s, 0, k)
}

/// The arguments of the list `s`.
pub fn split_arguments<'a>(s: &'a [char], k: Nesting) -> (r: Vec<&'a [char]>)
    ensures
        seqs::views(r@) == arguments(s@, k),
        r@.len() > 0,
{
    let mut out: Vec<&'a [char]> = Vec::new();
    let mut i: usize = 0;
    loop
        invariant
            i <= s@.len(),
            seqs::views(out@) + args_from(s@, i as int, k) == arguments(s@, k),
        decreases s@.len() - i,
    {
        let e = find_top_level(s, i, ',', k);
        if e >= s.len() {
            out.push(slice_subrange(s, i, s.len()));
            return out;
        }
        out.push(slice_subrange(s, i, e));
        i = e + 1;
    }
}

// ---------------------------------------------------------------------------
// Names

/// The character before index `i` belongs to `k`.
pub open spec fn preceded(s: Seq<char>, i: int, k: CharSet) -> bool {
    0 < i <= s.len() && k.has(s[i - 1])
}

/// Whether the character before index `i` belongs to `k`.
pub fn is_preceded(s: &[char], i: usize, k: CharSet) -> (r: bool)
    requires
        i <= s@.len(),
    ensures
        r == preceded(s@, i as int, k),
{
    i > 0 && k.test(s[i - 1])
}

/// The character at index `i` belongs to `k`.
pub open spec fn at(s: Seq<char>, i: int, k: CharSet) -> bool {
    0 <= i < s.len() && k.has(s[i])
}

/// Whether the character at index `i` belongs to `k`.
pub fn is_at(s: &[char], i: usize, k: CharSet) -> (r: bool)
    ensures
        r == at(s@, i as int, k),
        r ==> i < s@.len() <= usize::MAX,
{
    i < s.len() && k.test(s[i])
}

/// The part of a text behind its last `c`; the text itself where it has none.
pub open spec fn last_part(s: Seq<char>, c: char) -> Seq<char> {
    s.subrange(text::seek_back(s, s.len() as int, CharSet::One(c)), s.len() as int)
}

/// The part of `s` behind its last `c`.
pub fn behind_last<'a>(s: &'a [char], c: char) -> (r: &'a [char])
    ensures
        r@ == last_part(s@, c),
{
    slice_subrange(s, text::look_back(s, s.len(), CharSet::One(c)), s.len())
}

/// The part of a text before its first `c`; the text itself where it has none.
pub open spec fn first_part(s: Seq<char>, c: char) -> Seq<char> {
    s.subrange(0, text::seek(s, 0, CharSet::One(c)))
}

/// The part of `s` before its first `c`.
pub fn before_first<'a>(s: &'a [char], c: char) -> (r: &'a [char])
    ensures
        r@ == first_part(s@, c),
{
    slice_subrange(s, 0, text::look(s, 0, CharSet::One(c)))
}

/// The part of a path before its last `/`; nothing where it has none.
pub open spec fn dir_part(s: Seq<char>) -> Seq<char> {
    let i = text::seek_back(s, s.len() as int, CharSet::One('/'));
    if i > 0 {
        s.subrange(0, i - 1)
    } else {
        Seq::empty()
    }
}

/// The directory of the path `s`.
pub fn directory<'a>(s: &'a [char]) -> (r: &'a [char])
    ensures
        r@ == dir_part(s@),
{
    broadcast use text::lemma_seek_back;

    let i = text::look_back(s, s.len(), CharSet::One('/'));
    if i > 0 {
        slice_subrange(s, 0, i - 1)
    } else {
        let none = slice_subrange(s, 0, 0);
        assert(none@ =~= Seq::<char>::empty());
        none
    }
}

} // verus!
