//! Text as a sequence of characters: the vocabulary every scanner is stated in.
//!
//! Source text is handled as `&[char]`, so an index is a character index and a
//! slice of a text is always a text.

use vstd::prelude::*;
use vstd::slice::slice_subrange;

use crate::seqs;

verus! {

/// Appending a character to a string (`String::push`) makes it one character longer.
pub assume_specification[ String::push ](s: &mut String, ch: char)
    ensures
        final(s)@ == old(s)@.push(ch),
;

broadcast use crate::seqs::group_text;

// ---------------------------------------------------------------------------
// Between strings and character sequences

/// The characters of a string.
pub fn chars_of(s: &str) -> (r: Vec<char>)
    ensures
        r@ == s@,
{
    let mut out: Vec<char> = Vec::new();
    for c in it: s.chars()
        invariant
            it.seq() == s@,
            out@ == s@.take(it.index() as int),
    {
        out.push(c);
    }
    assert(s@.take(s@.len() as int) =~= s@);
    out
}

/// The string made of the given characters.
pub fn string_of(s: &[char]) -> (r: String)
    ensures
        r@ == s@,
{
    let mut out = String::new();
    let mut i: usize = 0;
    while i < s.len()
        invariant
            i <= s@.len(),
            out@ == s@.take(i as int),
        decreases s@.len() - i,
    {
        out.push(s[i]);
        i += 1;
        assert(s@.take(i as int) =~= s@.take(i - 1).push(s@[i - 1]));
    }
    assert(s@.take(s@.len() as int) =~= s@);
    out
}

/// The concatenation of two strings.
pub fn join2(a: &str, b: &str) -> (r: String)
    ensures
        r@ == a@ + b@,
{
    let mut out = a.to_string();
    out.append(b);
    out
}

/// The concatenation of three strings.
pub fn join3(a: &str, b: &str, c: &str) -> (r: String)
    ensures
        r@ == a@ + b@ + c@,
{
    let mut out = a.to_string();
    out.append(b);
    out.append(c);
    out
}

/// Whether a text is exactly the string `p`.
pub fn is_text(s: &[char], p: &str) -> (r: bool)
    ensures
        r == (s@ == p@),
{
    let n = s.len();
    let mut i: usize = 0;
    for c in it: p.chars()
        invariant
            it.seq() == p@,
            n == s@.len(),
            i == it.index(),
            i <= n,
            s@.take(i as int) =~= p@.take(i as int),
    {
        if i >= n || s[i] != c {
            assert(p@[i as int] == c);
            return false;
        }
        i += 1;
        assert(s@.take(i as int) =~= s@.take(i - 1).push(s@[i - 1]));
        assert(p@.take(i as int) =~= p@.take(i - 1).push(p@[i - 1]));
    }
    assert(p@.take(p@.len() as int) =~= p@);
    if i == n {
        assert(s@.take(n as int) =~= s@);
    }
    i == n
}

// ---------------------------------------------------------------------------
// Sets of characters

/// A set of characters that a scanner skips, trims, or looks for.
#[derive(Clone, Copy)]
pub enum CharSet {
    /// Exactly this character.
    One(char),
    /// Exactly these two characters.
    Two(char, char),
    /// ASCII letters.
    Alpha,
    /// ASCII upper-case letters.
    Upper,
    /// ASCII digits.
    Digit,
    /// ASCII letters and digits, and `_`.
    Word,
    /// Word characters and `$`.
    WordDollar,
    /// Word characters and `\\`: a possibly qualified PHP name.
    Qualified,
    /// Word characters, `\\` and `:`.
    Coverage,
    /// Word characters, `$` and `\\`.
    Callee,
    /// Word characters, `.` and `-`.
    Dotted,
    /// Word characters, `.`, `-` and `:`.
    Tag,
    /// ASCII upper-case letters, digits, and `_`.
    Action,
    /// Space, tab, line feed, form feed, and carriage return.
    AsciiSpace,
    /// Space, tab, line feed, and carriage return.
    Blank,
    /// Unicode white space.
    Space,
    /// Single and double quotes.
    Quote,
    /// Single, double, and back quotes.
    JsQuote,
    /// What a route path never holds: `$`, `^`, `[`, `]`.
    Pattern,
    /// What makes a path a glob: `*`, `?`, `[`.
    Glob,
    /// What makes a documented type more than one class name.
    Compound,
    /// Unicode letters and digits, `_` and `$`.
    Variable,
}

/// The characters that Unicode counts as letters or numbers.
pub uninterp spec fn is_alphanumeric(c: char) -> bool;

/// `char::is_alphanumeric`: whether Unicode counts a character as a letter or a
/// number; among ASCII characters, the letters and the digits.
pub assume_specification[ char::is_alphanumeric ](c: char) -> (r: bool)
    ensures
        r == is_alphanumeric(c),
        (c as u32) < 0x80 ==> r == (is_alpha(c) || is_digit(c)),
;

pub open spec fn is_digit(c: char) -> bool {
    '0' <= c && c <= '9'
}

pub open spec fn is_upper(c: char) -> bool {
    'A' <= c && c <= 'Z'
}

pub open spec fn is_alpha(c: char) -> bool {
    ('a' <= c && c <= 'z') || is_upper(c)
}

pub open spec fn is_word(c: char) -> bool {
    is_alpha(c) || is_digit(c) || c == '_'
}

pub open spec fn is_ascii_space(c: char) -> bool {
    c == ' ' || c == '\t' || c == '\n' || c == '\x0C' || c == '\r'
}

/// The characters with the Unicode property `White_Space`.
pub open spec fn is_space(c: char) -> bool {
    ||| ('\t' <= c && c <= '\r')
    ||| c == ' '
    ||| c == '\u{85}'
    ||| c == '\u{a0}'
    ||| c == '\u{1680}'
    ||| ('\u{2000}' <= c && c <= '\u{200a}')
    ||| c == '\u{2028}'
    ||| c == '\u{2029}'
    ||| c == '\u{202f}'
    ||| c == '\u{205f}'
    ||| c == '\u{3000}'
}

impl CharSet {
    pub open spec fn has(self, c: char) -> bool {
        match self {
            CharSet::One(a) => c == a,
            CharSet::Two(a, b) => c == a || c == b,
            CharSet::Alpha => is_alpha(c),
            CharSet::Upper => is_upper(c),
            CharSet::Digit => is_digit(c),
            CharSet::Word => is_word(c),
            CharSet::WordDollar => is_word(c) || c == '$',
            CharSet::Qualified => is_word(c) || c == '\\',
            CharSet::Coverage => is_word(c) || c == '\\' || c == ':',
            CharSet::Callee => is_word(c) || c == '$' || c == '\\',
            CharSet::Dotted => is_word(c) || c == '.' || c == '-',
            CharSet::Tag => is_word(c) || c == '.' || c == '-' || c == ':',
            CharSet::Action => is_upper(c) || is_digit(c) || c == '_',
            CharSet::AsciiSpace => is_ascii_space(c),
            CharSet::Blank => c == ' ' || c == '\t' || c == '\n' || c == '\r',
            CharSet::Space => is_space(c),
            CharSet::Quote => c == '\'' || c == '"',
            CharSet::JsQuote => c == '\'' || c == '"' || c == '`',
            CharSet::Pattern => c == '$' || c == '^' || c == '[' || c == ']',
            CharSet::Glob => c == '*' || c == '?' || c == '[',
            CharSet::Compound => c == '|' || c == '&' || c == '<' || c == '[' || c == ']' || c == '('
                || c == '{',
            CharSet::Variable => is_alphanumeric(c) || c == '_' || c == '$',
        }
    }

    /// Whether `c` belongs to the set.
    pub fn test(self, c: char) -> (r: bool)
        ensures
            r == self.has(c),
    {
        let digit = '0' <= c && c <= '9';
        let upper = 'A' <= c && c <= 'Z';
        let alpha = ('a' <= c && c <= 'z') || upper;
        let word = alpha || digit || c == '_';
        match self {
            CharSet::One(a) => c == a,
            CharSet::Two(a, b) => c == a || c == b,
            CharSet::Alpha => alpha,
            CharSet::Upper => upper,
            CharSet::Digit => digit,
            CharSet::Word => word,
            CharSet::WordDollar => word || c == '$',
            CharSet::Qualified => word || c == '\\',
            CharSet::Coverage => word || c == '\\' || c == ':',
            CharSet::Callee => word || c == '$' || c == '\\',
            CharSet::Dotted => word || c == '.' || c == '-',
            CharSet::Tag => word || c == '.' || c == '-' || c == ':',
            CharSet::Action => upper || digit || c == '_',
            CharSet::AsciiSpace => c == ' ' || c == '\t' || c == '\n' || c == '\x0C' || c == '\r',
            CharSet::Blank => c == ' ' || c == '\t' || c == '\n' || c == '\r',
            CharSet::Space => ('\t' <= c && c <= '\r') || c == ' ' || c == '\u{85}' || c == '\u{a0}'
                || c == '\u{1680}' || ('\u{2000}' <= c && c <= '\u{200a}') || c == '\u{2028}' || c
                == '\u{2029}' || c == '\u{202f}' || c == '\u{205f}' || c == '\u{3000}',
            CharSet::Quote => c == '\'' || c == '"',
            CharSet::JsQuote => c == '\'' || c == '"' || c == '`',
            CharSet::Pattern => c == '$' || c == '^' || c == '[' || c == ']',
            CharSet::Glob => c == '*' || c == '?' || c == '[',
            CharSet::Compound => c == '|' || c == '&' || c == '<' || c == '[' || c == ']' || c == '('
                || c == '{',
            CharSet::Variable => c.is_alphanumeric() || c == '_' || c == '$',
        }
    }
}

/// The end of the run of `k` characters that starts at `i`: the first index at
/// or after `i` whose character is not in `k`, or the length.
pub open spec fn run(s: Seq<char>, i: int, k: CharSet) -> int
    decreases s.len() - i,
{
    if 0 <= i < s.len() && k.has(s[i]) {
        run(s, i + 1, k)
    } else {
        i
    }
}

/// The first index at or after `i` whose character is in `k`, or the length.
pub open spec fn seek(s: Seq<char>, i: int, k: CharSet) -> int
    decreases s.len() - i,
{
    if 0 <= i < s.len() && !k.has(s[i]) {
        seek(s, i + 1, k)
    } else {
        i
    }
}

/// The start of the run of `k` characters that ends just before `j`.
pub open spec fn run_back(s: Seq<char>, j: int, k: CharSet) -> int
    decreases j,
{
    if 0 < j <= s.len() && k.has(s[j - 1]) {
        run_back(s, j - 1, k)
    } else {
        j
    }
}

/// The start of the run of characters outside `k` that ends just before `j`.
pub open spec fn seek_back(s: Seq<char>, j: int, k: CharSet) -> int
    decreases j,
{
    if 0 < j <= s.len() && !k.has(s[j - 1]) {
        seek_back(s, j - 1, k)
    } else {
        j
    }
}

pub broadcast proof fn lemma_run(s: Seq<char>, i: int, k: CharSet)
    requires
        0 <= i <= s.len(),
    ensures
        i <= #[trigger] run(s, i, k) <= s.len(),
        forall|j: int| i <= j < run(s, i, k) ==> k.has(#[trigger] s[j]),
        run(s, i, k) < s.len() ==> !k.has(s[run(s, i, k)]),
        i < s.len() && k.has(s[i]) ==> run(s, i, k) > i,
    decreases s.len() - i,
{
    if i < s.len() && k.has(s[i]) {
        lemma_run(s, i + 1, k);
    }
}

pub broadcast proof fn lemma_seek(s: Seq<char>, i: int, k: CharSet)
    requires
        0 <= i <= s.len(),
    ensures
        i <= #[trigger] seek(s, i, k) <= s.len(),
        forall|j: int| i <= j < seek(s, i, k) ==> !k.has(#[trigger] s[j]),
        seek(s, i, k) < s.len() ==> k.has(s[seek(s, i, k)]),
        i < s.len() && !k.has(s[i]) ==> seek(s, i, k) > i,
    decreases s.len() - i,
{
    if i < s.len() && !k.has(s[i]) {
        lemma_seek(s, i + 1, k);
    }
}

pub broadcast proof fn lemma_run_back(s: Seq<char>, j: int, k: CharSet)
    requires
        0 <= j <= s.len(),
    ensures
        0 <= #[trigger] run_back(s, j, k) <= j,
        forall|i: int| run_back(s, j, k) <= i < j ==> k.has(#[trigger] s[i]),
        run_back(s, j, k) > 0 ==> !k.has(s[run_back(s, j, k) - 1]),
    decreases j,
{
    if 0 < j && k.has(s[j - 1]) {
        lemma_run_back(s, j - 1, k);
    }
}

pub broadcast proof fn lemma_seek_back(s: Seq<char>, j: int, k: CharSet)
    requires
        0 <= j <= s.len(),
    ensures
        0 <= #[trigger] seek_back(s, j, k) <= j,
        forall|i: int| seek_back(s, j, k) <= i < j ==> !k.has(#[trigger] s[i]),
        seek_back(s, j, k) > 0 ==> k.has(s[seek_back(s, j, k) - 1]),
    decreases j,
{
    if 0 < j && !k.has(s[j - 1]) {
        lemma_seek_back(s, j - 1, k);
    }
}

/// Skips a run of `k` characters from `i` on.
pub fn skip(s: &[char], i: usize, k: CharSet) -> (r: usize)
    requires
        i <= s@.len(),
    ensures
        r == run(s@, i as int, k),
        i <= r <= s@.len(),
{
    let mut j: usize = i;
    while j < s.len() && k.test(s[j])
        invariant
            i <= j <= s@.len(),
            run(s@, i as int, k) == run(s@, j as int, k),
        decreases s@.len() - j,
    {
        j += 1;
    }
    j
}

/// Looks for a `k` character from `i` on.
pub fn look(s: &[char], i: usize, k: CharSet) -> (r: usize)
    requires
        i <= s@.len(),
    ensures
        r == seek(s@, i as int, k),
        i <= r <= s@.len(),
{
    let mut j: usize = i;
    while j < s.len() && !k.test(s[j])
        invariant
            i <= j <= s@.len(),
            seek(s@, i as int, k) == seek(s@, j as int, k),
        decreases s@.len() - j,
    {
        j += 1;
    }
    j
}

/// Skips back over a run of `k` characters that ends just before `j`.
pub fn skip_back(s: &[char], j: usize, k: CharSet) -> (r: usize)
    requires
        j <= s@.len(),
    ensures
        r == run_back(s@, j as int, k),
        r <= j,
{
    let mut i: usize = j;
    while i > 0 && k.test(s[i - 1])
        invariant
            i <= j <= s@.len(),
            run_back(s@, j as int, k) == run_back(s@, i as int, k),
        decreases i,
    {
        i -= 1;
    }
    i
}

/// Skips back to just behind the last `k` character before `j`.
pub fn look_back(s: &[char], j: usize, k: CharSet) -> (r: usize)
    requires
        j <= s@.len(),
    ensures
        r == seek_back(s@, j as int, k),
        r <= j,
{
    let mut i: usize = j;
    while i > 0 && !k.test(s[i - 1])
        invariant
            i <= j <= s@.len(),
            seek_back(s@, j as int, k) == seek_back(s@, i as int, k),
        decreases i,
    {
        i -= 1;
    }
    i
}

/// Whether every character of a text is in `k`.
pub open spec fn all_in(s: Seq<char>, k: CharSet) -> bool {
    forall|i: int| 0 <= i < s.len() ==> k.has(#[trigger] s[i])
}

/// Whether some character of a text is in `k`.
pub open spec fn some_in(s: Seq<char>, k: CharSet) -> bool {
    exists|i: int| 0 <= i < s.len() && k.has(#[trigger] s[i])
}

/// Whether every character of `s` is in `k`.
pub fn is_all(s: &[char], k: CharSet) -> (r: bool)
    ensures
        r == all_in(s@, k),
{
    broadcast use lemma_run;

    let e = skip(s, 0, k);
    if e < s.len() {
        assert(!k.has(s@[e as int]));
    }
    e == s.len()
}

/// Whether some character of `s` is in `k`.
pub fn has_any(s: &[char], k: CharSet) -> (r: bool)
    ensures
        r == some_in(s@, k),
{
    broadcast use lemma_seek;

    let e = look(s, 0, k);
    if e < s.len() {
        assert(k.has(s@[e as int]));
    }
    e < s.len()
}

// ---------------------------------------------------------------------------
// Trimming

/// `s` without the `k` characters it starts with.
pub open spec fn trimmed_start(s: Seq<char>, k: CharSet) -> Seq<char> {
    s.subrange(run(s, 0, k), s.len() as int)
}

/// `s` without the `k` characters it ends with.
pub open spec fn trimmed_end(s: Seq<char>, k: CharSet) -> Seq<char> {
    s.subrange(0, run_back(s, s.len() as int, k))
}

/// `s` without the `k` characters at either end.
pub open spec fn trimmed(s: Seq<char>, k: CharSet) -> Seq<char> {
    trimmed_end(trimmed_start(s, k), k)
}

/// Drops the `k` characters that `s` starts with.
pub fn trim_start<'a>(s: &'a [char], k: CharSet) -> (r: &'a [char])
    ensures
        r@ == trimmed_start(s@, k),
{
    slice_subrange(s, skip(s, 0, k), s.len())
}

/// Drops the `k` characters that `s` ends with.
pub fn trim_end<'a>(s: &'a [char], k: CharSet) -> (r: &'a [char])
    ensures
        r@ == trimmed_end(s@, k),
{
    slice_subrange(s, 0, skip_back(s, s.len(), k))
}

/// Drops the `k` characters at either end of `s`.
pub fn trim<'a>(s: &'a [char], k: CharSet) -> (r: &'a [char])
    ensures
        r@ == trimmed(s@, k),
{
    trim_end(trim_start(s, k), k)
}

// ---------------------------------------------------------------------------
// Searching

/// `p` stands in `s` at index `i`.
pub open spec fn occurs(s: Seq<char>, i: int, p: Seq<char>) -> bool {
    0 <= i && i + p.len() <= s.len() && s.subrange(i, i + p.len()) == p
}

pub open spec fn starts(s: Seq<char>, p: Seq<char>) -> bool {
    occurs(s, 0, p)
}

pub open spec fn ends(s: Seq<char>, p: Seq<char>) -> bool {
    occurs(s, s.len() - p.len(), p)
}

/// `p` stands somewhere in `s`.
pub open spec fn includes(s: Seq<char>, p: Seq<char>) -> bool {
    exists|i: int| #[trigger] occurs(s, i, p)
}

/// The first index at or after `from` at which `p` stands, or the length.
pub open spec fn find(s: Seq<char>, p: Seq<char>, from: int) -> int
    decreases s.len() - from,
{
    if from < 0 || from >= s.len() {
        s.len() as int
    } else if occurs(s, from, p) {
        from
    } else {
        find(s, p, from + 1)
    }
}

/// The last index at or before `from` at which `p` stands, or the length.
pub open spec fn find_back(s: Seq<char>, p: Seq<char>, from: int) -> int
    decreases from + 1,
{
    if from < 0 {
        s.len() as int
    } else if occurs(s, from, p) {
        from
    } else {
        find_back(s, p, from - 1)
    }
}

/// [`find`] gives the least index at which the pattern stands.
pub proof fn lemma_find(s: Seq<char>, p: Seq<char>, from: int)
    requires
        0 <= from <= s.len(),
    ensures
        from <= find(s, p, from) <= s.len(),
        find(s, p, from) < s.len() ==> occurs(s, find(s, p, from), p),
        forall|j: int| from <= j < find(s, p, from) ==> !#[trigger] occurs(s, j, p),
    decreases s.len() - from,
{
    if from < s.len() && !occurs(s, from, p) {
        lemma_find(s, p, from + 1);
    }
}

/// [`find_back`] gives the greatest index at which the pattern stands.
pub proof fn lemma_find_back(s: Seq<char>, p: Seq<char>, from: int)
    requires
        from < s.len(),
    ensures
        find_back(s, p, from) <= s.len(),
        find_back(s, p, from) < s.len() ==> 0 <= find_back(s, p, from) <= from && occurs(
            s,
            find_back(s, p, from),
            p,
        ),
        find_back(s, p, from) < s.len() ==> forall|j: int|
            find_back(s, p, from) < j <= from ==> !#[trigger] occurs(s, j, p),
        find_back(s, p, from) == s.len() ==> forall|j: int|
            0 <= j <= from ==> !#[trigger] occurs(s, j, p),
    decreases from + 1,
{
    if from >= 0 && !occurs(s, from, p) {
        lemma_find_back(s, p, from - 1);
    }
}

/// Whether `p` stands in `s` at index `i`.
pub fn stands(s: &[char], i: usize, p: &str) -> (r: bool)
    ensures
        r == occurs(s@, i as int, p@),
{
    let n = s.len();
    if i > n {
        return false;
    }
    let mut k: usize = 0;
    for c in it: p.chars()
        invariant
            it.seq() == p@,
            i <= n == s@.len(),
            k == it.index(),
            k <= n - i,
            forall|j: int| 0 <= j < k ==> s@[i + j] == #[trigger] p@[j],
    {
        if k >= n - i || s[i + k] != c {
            assert(p@[k as int] == c);
            proof {
                if occurs(s@, i as int, p@) {
                    assert(s@.subrange(i as int, i + p@.len())[k as int] == s@[i + k]);
                }
            }
            return false;
        }
        k += 1;
    }
    assert(s@.subrange(i as int, i + p@.len()) =~= p@);
    true
}

/// Whether `s` starts with `p`.
pub fn starts_with(s: &[char], p: &str) -> (r: bool)
    ensures
        r == starts(s@, p@),
{
    stands(s, 0, p)
}

/// The number of characters of a string.
pub fn length_of(p: &str) -> (r: usize)
    ensures
        r == p@.len(),
{
    p.unicode_len()
}

/// Whether `s` ends with `p`.
pub fn ends_with(s: &[char], p: &str) -> (r: bool)
    ensures
        r == ends(s@, p@),
{
    let n = length_of(p);
    n <= s.len() && stands(s, s.len() - n, p)
}

/// Looks for `p` in `s` from `from` on.
pub fn search(s: &[char], p: &str, from: usize) -> (r: usize)
    requires
        from <= s@.len(),
    ensures
        r == find(s@, p@, from as int),
        from <= r <= s@.len(),
        r < s@.len() ==> r + p@.len() <= s@.len(),
{
    let mut i: usize = from;
    while i < s.len()
        invariant
            from <= i <= s@.len(),
            find(s@, p@, from as int) == find(s@, p@, i as int),
        decreases s@.len() - i,
    {
        if stands(s, i, p) {
            return i;
        }
        i += 1;
    }
    i
}

/// Looks for the last place in `s` at which `p` stands.
pub fn search_last(s: &[char], p: &str) -> (r: usize)
    ensures
        r == find_back(s@, p@, s@.len() - 1),
        r <= s@.len(),
        r < s@.len() ==> r + p@.len() <= s@.len(),
{
    let mut i: usize = s.len();
    while i > 0
        invariant
            i <= s@.len(),
            find_back(s@, p@, s@.len() - 1) == find_back(s@, p@, i - 1),
        decreases i,
    {
        if stands(s, i - 1, p) {
            return i - 1;
        }
        i -= 1;
    }
    s.len()
}

/// Whether `p` stands somewhere in `s`.
pub fn has_text(s: &[char], p: &str) -> (r: bool)
    ensures
        r == includes(s@, p@),
{
    if length_of(p) == 0 {
        assert(s@.subrange(0, 0) =~= p@);
        assert(occurs(s@, 0, p@));
        return true;
    }
    let i = search(s, p, 0);
    proof {
        lemma_find(s@, p@, 0);
        assert forall|j: int| !(i < s@.len()) implies !#[trigger] occurs(s@, j, p@) by {}
    }
    i < s.len()
}

// ---------------------------------------------------------------------------
// Occurrences

/// The places at which `p` stands in `s` from index `i` on, left to right and
/// without overlap.
pub open spec fn hits(s: Seq<char>, p: Seq<char>, i: int) -> Seq<int>
    decreases s.len() - i,
{
    if i < 0 || i >= s.len() {
        Seq::empty()
    } else if p.len() > 0 && occurs(s, i, p) {
        seq![i] + hits(s, p, i + p.len())
    } else {
        hits(s, p, i + 1)
    }
}

/// The indices that the elements of a vector stand for.
pub open spec fn ints(v: Seq<usize>) -> Seq<int> {
    v.map_values(|x: usize| x as int)
}

proof fn lemma_ints_push(v: Seq<usize>, x: usize)
    ensures
        ints(v.push(x)) == ints(v).push(x as int),
{
    assert(ints(v.push(x)) =~= ints(v).push(x as int));
}

/// `v` holds the places at which `p` stands in `s`.
pub open spec fn are_hits(s: Seq<char>, p: Seq<char>, v: Seq<usize>) -> bool {
    &&& ints(v) == hits(s, p, 0)
    &&& s.len() <= usize::MAX
    &&& forall|k: int| 0 <= k < v.len() ==> occurs(s, (#[trigger] v[k]) as int, p)
}

/// Every place at which `p` stands in `s`, without overlap.
pub fn occurrences(s: &[char], p: &str) -> (r: Vec<usize>)
    ensures
        are_hits(s@, p@, r@),
{
    let n = length_of(p);
    let mut out: Vec<usize> = Vec::new();
    let mut i: usize = 0;
    assert(ints(out@) =~= Seq::<int>::empty());
    while i < s.len()
        invariant
            n == p@.len(),
            i <= s@.len(),
            ints(out@) + hits(s@, p@, i as int) == hits(s@, p@, 0),
            forall|k: int| 0 <= k < out@.len() ==> occurs(s@, (#[trigger] out@[k]) as int, p@),
        decreases s@.len() - i,
    {
        if n > 0 && stands(s, i, p) {
            proof {
                lemma_ints_push(out@, i);
            }
            out.push(i);
            i += n;
        } else {
            i += 1;
        }
    }
    out
}

// ---------------------------------------------------------------------------
// Splitting

/// The pieces of `s` between the `k` characters from index `i` on, the first
/// of them starting at `i`.
pub open spec fn pieces_from(s: Seq<char>, i: int, k: CharSet) -> Seq<Seq<char>>
    decreases s.len() - i,
{
    if i < 0 || i > s.len() {
        Seq::empty()
    } else {
        let e = seek(s, i, k);
        proof {
            lemma_seek(s, i, k);
        }
        if e >= s.len() {
            seq![s.subrange(i, s.len() as int)]
        } else {
            seq![s.subrange(i, e)] + pieces_from(s, e + 1, k)
        }
    }
}

/// The pieces of `s` between its `k` characters.
pub open spec fn pieces(s: Seq<char>, k: CharSet) -> Seq<Seq<char>> {
    pieces_from(s, 0, k)
}

/// The pieces of `s` between its `k` characters.
pub fn split<'a>(s: &'a [char], k: CharSet) -> (r: Vec<&'a [char]>)
    ensures
        seqs::views(r@) == pieces(s@, k),
        r@.len() > 0,
{
    let mut out: Vec<&'a [char]> = Vec::new();
    let mut i: usize = 0;
    loop
        invariant
            i <= s@.len(),
            seqs::views(out@) + pieces_from(s@, i as int, k) == pieces(s@, k),
        decreases s@.len() - i,
    {
        let e = look(s, i, k);
        if e >= s.len() {
            out.push(slice_subrange(s, i, s.len()));
            return out;
        }
        out.push(slice_subrange(s, i, e));
        i = e + 1;
    }
}

/// The maximal runs of characters outside `k`, from index `i` on.
pub open spec fn runs_from(s: Seq<char>, i: int, k: CharSet) -> Seq<Seq<char>>
    decreases s.len() - i,
{
    if i < 0 || i >= s.len() {
        Seq::empty()
    } else {
        let a = run(s, i, k);
        let b = seek(s, a, k);
        proof {
            lemma_run(s, i, k);
            lemma_seek(s, a, k);
        }
        if a >= s.len() {
            Seq::empty()
        } else {
            seq![s.subrange(a, b)] + runs_from(s, b, k)
        }
    }
}

/// The words of `s`: its maximal runs of characters other than white space.
pub open spec fn words(s: Seq<char>) -> Seq<Seq<char>> {
    runs_from(s, 0, CharSet::Space)
}

/// The words of `s`.
pub fn split_words<'a>(s: &'a [char]) -> (r: Vec<&'a [char]>)
    ensures
        seqs::views(r@) == words(s@),
{
    broadcast use lemma_run, lemma_seek;

    let mut out: Vec<&'a [char]> = Vec::new();
    let mut i: usize = 0;
    while i < s.len()
        invariant
            i <= s@.len(),
            seqs::views(out@) + runs_from(s@, i as int, CharSet::Space) == words(s@),
        decreases s@.len() - i,
    {
        let a = skip(s, i, CharSet::Space);
        if a >= s.len() {
            return out;
        }
        let b = look(s, a, CharSet::Space);
        out.push(slice_subrange(s, a, b));
        i = b;
    }
    out
}

/// One line of text without the carriage return that may end it.
pub open spec fn chomped(s: Seq<char>) -> Seq<char> {
    if s.len() > 0 && s.last() == '\r' {
        s.drop_last()
    } else {
        s
    }
}

/// The lines of `s` from index `i` on.
pub open spec fn lines_from(s: Seq<char>, i: int) -> Seq<Seq<char>>
    decreases s.len() - i,
{
    if i < 0 || i >= s.len() {
        Seq::empty()
    } else {
        let e = seek(s, i, CharSet::One('\n'));
        proof {
            lemma_seek(s, i, CharSet::One('\n'));
        }
        if e >= s.len() {
            seq![s.subrange(i, e)]
        } else {
            seq![chomped(s.subrange(i, e))] + lines_from(s, e + 1)
        }
    }
}

/// The lines of `s`: each ends at a line feed, which a carriage return may
/// precede, or at the end of the text.
pub open spec fn lines(s: Seq<char>) -> Seq<Seq<char>> {
    lines_from(s, 0)
}

/// The lines of `s`.
pub fn split_lines<'a>(s: &'a [char]) -> (r: Vec<&'a [char]>)
    ensures
        seqs::views(r@) == lines(s@),
{
    broadcast use lemma_seek;

    let mut out: Vec<&'a [char]> = Vec::new();
    let mut i: usize = 0;
    while i < s.len()
        invariant
            i <= s@.len(),
            seqs::views(out@) + lines_from(s@, i as int) == lines(s@),
        decreases s@.len() - i,
    {
        let e = look(s, i, CharSet::One('\n'));
        if e >= s.len() {
            out.push(slice_subrange(s, i, e));
            return out;
        }
        let line = slice_subrange(s, i, e);
        if line.len() > 0 && line[line.len() - 1] == '\r' {
            let cut = slice_subrange(line, 0, line.len() - 1);
            assert(cut@ =~= chomped(line@));
            out.push(cut);
        } else {
            out.push(line);
        }
        i = e + 1;
    }
    out
}

// ---------------------------------------------------------------------------
// Letter case

/// The ASCII lower-case form of a character.
pub open spec fn lower_char(c: char) -> char {
    if is_upper(c) {
        ((c as u8) + 32) as char
    } else {
        c
    }
}

/// A text with its ASCII letters in lower case.
pub open spec fn lower(s: Seq<char>) -> Seq<char> {
    s.map_values(|c: char| lower_char(c))
}

/// The ASCII lower-case form of `c`.
pub fn to_lower_char(c: char) -> (r: char)
    ensures
        r == lower_char(c),
{
    if 'A' <= c && c <= 'Z' {
        ((c as u8) + 32) as char
    } else {
        c
    }
}

/// `s` with its ASCII letters in lower case.
pub fn to_lower(s: &[char]) -> (r: Vec<char>)
    ensures
        r@ == lower(s@),
{
    let mut out: Vec<char> = Vec::new();
    let mut i: usize = 0;
    while i < s.len()
        invariant
            i <= s@.len(),
            out@ == lower(s@.take(i as int)),
        decreases s@.len() - i,
    {
        out.push(to_lower_char(s[i]));
        i += 1;
        assert(out@ =~= lower(s@.take(i as int)));
    }
    assert(s@.take(s@.len() as int) =~= s@);
    out
}

/// The ASCII upper-case form of a character.
pub open spec fn upper_char(c: char) -> char {
    if 'a' <= c && c <= 'z' {
        ((c as u8) - 32) as char
    } else {
        c
    }
}

/// The ASCII upper-case form of `c`.
pub fn to_upper_char(c: char) -> (r: char)
    ensures
        r == upper_char(c),
{
    if 'a' <= c && c <= 'z' {
        ((c as u8) - 32) as char
    } else {
        c
    }
}

/// Every character of a text is an ASCII character.
pub open spec fn is_ascii(s: Seq<char>) -> bool {
    forall|i: int| 0 <= i < s.len() ==> (#[trigger] s[i] as u32) < 0x80
}

/// The Unicode lower-case form of a text, as `str::to_lowercase` gives it.
pub uninterp spec fn lowercase(s: Seq<char>) -> Seq<char>;

/// `str::to_lowercase` is a function of the text alone. On a text of ASCII
/// characters it turns the letters `A` to `Z` into `a` to `z`.
pub assume_specification[ str::to_lowercase ](s: &str) -> (r: String)
    ensures
        r@ == lowercase(s@),
        is_ascii(s@) ==> r@ == lower(s@),
;

/// A text with every `a` turned into `b`.
pub open spec fn replaced(s: Seq<char>, a: char, b: char) -> Seq<char> {
    s.map_values(|c: char| if c == a { b } else { c })
}

/// `s` with every `a` turned into `b`.
pub fn replace_char(s: &[char], a: char, b: char) -> (r: Vec<char>)
    ensures
        r@ == replaced(s@, a, b),
{
    let mut out: Vec<char> = Vec::new();
    let mut i: usize = 0;
    while i < s.len()
        invariant
            i <= s@.len(),
            out@ == replaced(s@.take(i as int), a, b),
        decreases s@.len() - i,
    {
        out.push(if s[i] == a { b } else { s[i] });
        i += 1;
        assert(out@ =~= replaced(s@.take(i as int), a, b));
    }
    assert(s@.take(s@.len() as int) =~= s@);
    out
}

/// Whether two strings hold the same text.
pub fn same(a: &str, b: &str) -> (r: bool)
    ensures
        r == (a@ == b@),
{
    is_text(&chars_of(a), b)
}

/// Whether a text is one of the given strings.
pub fn is_among(s: &[char], names: &[&str]) -> (r: bool)
    ensures
        r == seqs::views(names@).contains(s@),
{
    let ghost all = seqs::views(names@);
    let mut k: usize = 0;
    while k < names.len()
        invariant
            k <= names@.len(),
            all == seqs::views(names@),
            forall|j: int| 0 <= j < k ==> #[trigger] all[j] != s@,
        decreases names@.len() - k,
    {
        if is_text(s, names[k]) {
            assert(all[k as int] == s@);
            return true;
        }
        k += 1;
    }
    false
}

// ---------------------------------------------------------------------------
// Joining

/// The texts from index `k` on, `sep` between each two.
pub open spec fn joined_from(parts: Seq<Seq<char>>, k: int, sep: Seq<char>) -> Seq<char>
    decreases parts.len() - k,
{
    if k < 0 || k >= parts.len() {
        Seq::empty()
    } else if k + 1 == parts.len() {
        parts[k]
    } else {
        parts[k] + sep + joined_from(parts, k + 1, sep)
    }
}

/// The given texts with `sep` between each two.
pub open spec fn joined(parts: Seq<Seq<char>>, sep: Seq<char>) -> Seq<char> {
    joined_from(parts, 0, sep)
}

/// The given texts with `sep` between each two.
pub fn join_all(parts: &[&[char]], sep: &str) -> (r: String)
    ensures
        r@ == joined(seqs::views(parts@), sep@),
{
    let mut out = String::new();
    let mut k: usize = 0;
    let ghost all = seqs::views(parts@);
    while k < parts.len()
        invariant
            k <= parts@.len(),
            all == seqs::views(parts@),
            out@ + joined_from(all, k as int, sep@) == joined(all, sep@),
        decreases parts@.len() - k,
    {
        let piece = string_of(parts[k]);
        out.append(&piece);
        if k + 1 < parts.len() {
            out.append(sep);
        }
        k += 1;
    }
    out
}

/// The given strings with `sep` between each two.
pub fn join_strings(parts: &[String], sep: &str) -> (r: String)
    ensures
        r@ == joined(seqs::views(parts@), sep@),
{
    let mut out = String::new();
    let mut k: usize = 0;
    let ghost all = seqs::views(parts@);
    while k < parts.len()
        invariant
            k <= parts@.len(),
            all == seqs::views(parts@),
            out@ + joined_from(all, k as int, sep@) == joined(all, sep@),
        decreases parts@.len() - k,
    {
        out.append(&parts[k]);
        if k + 1 < parts.len() {
            out.append(sep);
        }
        k += 1;
    }
    out
}

// ---------------------------------------------------------------------------
// Lengths in UTF-8

/// The number of bytes of a character in UTF-8.
pub open spec fn width(c: char) -> int {
    if (c as u32) < 0x80 {
        1
    } else if (c as u32) < 0x800 {
        2
    } else if (c as u32) < 0x10000 {
        3
    } else {
        4
    }
}

/// The number of bytes of `c` in UTF-8.
pub fn char_width(c: char) -> (r: usize)
    ensures
        r == width(c),
{
    let n = c as u32;
    if n < 0x80 {
        1
    } else if n < 0x800 {
        2
    } else if n < 0x10000 {
        3
    } else {
        4
    }
}

/// The end of the longest stretch of `s` from `i` on that takes at most `n`
/// bytes in UTF-8.
pub open spec fn fit(s: Seq<char>, i: int, n: int) -> int
    decreases s.len() - i,
{
    if 0 <= i < s.len() && width(s[i]) <= n {
        fit(s, i + 1, n - width(s[i]))
    } else {
        i
    }
}

/// Finds the end of the longest stretch of `s` from `i` on that takes at most
/// `n` bytes in UTF-8.
pub fn fit_bytes(s: &[char], i: usize, n: usize) -> (r: usize)
    requires
        i <= s@.len(),
    ensures
        r == fit(s@, i as int, n as int),
        i <= r <= s@.len(),
{
    let mut left: usize = n;
    let mut j: usize = i;
    while j < s.len() && char_width(s[j]) <= left
        invariant
            i <= j <= s@.len(),
            fit(s@, i as int, n as int) == fit(s@, j as int, left as int),
        decreases s@.len() - j,
    {
        left -= char_width(s[j]);
        j += 1;
    }
    j
}

// ---------------------------------------------------------------------------
// Numbers

/// The character of a decimal digit.
pub open spec fn digit(d: nat) -> char {
    ((48 + d) as u8) as char
}

/// A number in decimal.
pub open spec fn decimal(n: nat) -> Seq<char>
    decreases n,
{
    if n < 10 {
        seq![digit(n)]
    } else {
        decimal(n / 10).push(digit(n % 10))
    }
}

/// Different numbers look different in decimal.
pub proof fn decimal_is_injective(a: nat, b: nat)
    requires
        decimal(a) == decimal(b),
    ensures
        a == b,
    decreases a,
{
    let x = decimal(a);
    let y = decimal(b);
    lemma_decimal_len(a);
    lemma_decimal_len(b);
    assert(x.last() == y.last());
    assert(x.drop_last() == y.drop_last());
    if a >= 10 {
        lemma_decimal_len(a / 10);
        assert(x.drop_last() =~= decimal(a / 10));
        if b >= 10 {
            assert(y.drop_last() =~= decimal(b / 10));
            decimal_is_injective(a / 10, b / 10);
        } else {
            assert(y.drop_last().len() == 0);
        }
    } else if b >= 10 {
        lemma_decimal_len(b / 10);
        assert(y.drop_last() =~= decimal(b / 10));
        assert(x.drop_last().len() == 0);
    }
}

proof fn lemma_decimal_len(n: nat)
    ensures
        decimal(n).len() > 0,
{
}

/// A number in decimal.
pub fn to_decimal(n: u128) -> (r: String)
    ensures
        r@ == decimal(n as nat),
    decreases n,
{
    let c = (48 + (n % 10) as u8) as char;
    let mut out = if n < 10 {
        String::new()
    } else {
        to_decimal(n / 10)
    };
    out.push(c);
    assert(c == digit((n % 10) as nat));
    if n < 10 {
        assert(out@ =~= seq![digit(n as nat)]);
    }
    out
}

/// An integer in decimal, a minus sign before a negative one.
pub open spec fn signed(n: int) -> Seq<char> {
    if n < 0 {
        "-"@ + decimal((0 - n) as nat)
    } else {
        decimal(n as nat)
    }
}

/// An integer in decimal.
pub fn to_signed(n: i64) -> (r: String)
    ensures
        r@ == signed(n as int),
{
    if n < 0 {
        let number = to_decimal((-(n as i128)) as u128);
        join2("-", &number)
    } else {
        to_decimal(n as u128)
    }
}

/// The value of a decimal digit.
pub open spec fn digit_value(c: char) -> nat {
    (c as nat - 48) as nat
}

/// The number that the first `n` characters, all digits, write.
pub open spec fn number_of(s: Seq<char>, n: int) -> nat
    decreases n,
{
    if n <= 0 {
        0
    } else {
        number_of(s, n - 1) * 10 + digit_value(s[n - 1])
    }
}

/// The integer that a text writes: digits, behind a sign or not.
pub open spec fn integer_of(s: Seq<char>) -> Option<int> {
    let is_signed = s.len() > 0 && (s[0] == '-' || s[0] == '+');
    let digits = if is_signed { s.skip(1) } else { s };
    if digits.len() == 0 || !all_in(digits, CharSet::Digit) {
        None
    } else if s[0] == '-' {
        Some(0 - number_of(digits, digits.len() as int))
    } else {
        Some(number_of(digits, digits.len() as int) as int)
    }
}

fn small_number(s: &[char]) -> (r: i64)
    requires
        s@.len() <= 4,
        all_in(s@, CharSet::Digit),
    ensures
        r == number_of(s@, s@.len() as int),
        0 <= r < 10000,
        s@.len() <= 1 ==> r < 10,
{
    let n = s.len();
    let mut total: i64 = 0;
    let mut i: usize = 0;
    while i < n
        invariant
            i <= n <= 4,
            n == s@.len(),
            all_in(s@, CharSet::Digit),
            total == number_of(s@, i as int),
            0 <= total,
            i == 0 ==> total == 0,
            i == 1 ==> total < 10,
            i == 2 ==> total < 100,
            i == 3 ==> total < 1000,
            i == 4 ==> total < 10000,
        decreases n - i,
    {
        assert(CharSet::Digit.has(s@[i as int]));
        total = total * 10 + (s[i] as u32 - 48) as i64;
        i += 1;
    }
    total
}

/// Reads an integer of at most four characters.
pub fn read_integer(s: &[char]) -> (r: Option<i64>)
    requires
        s@.len() <= 4,
    ensures
        r is Some <==> integer_of(s@) is Some,
        r matches Some(v) ==> integer_of(s@) == Some(v as int) && -10000 < v < 10000 && (s@.len() <= 2
            ==> v >= -9),
{
    let is_signed = s.len() > 0 && (s[0] == '-' || s[0] == '+');
    let digits = if is_signed {
        slice_subrange(s, 1, s.len())
    } else {
        s
    };
    assert(is_signed ==> digits@ =~= s@.skip(1));
    if digits.len() == 0 || !is_all(digits, CharSet::Digit) {
        return None;
    }
    let value = small_number(digits);
    if s[0] == '-' {
        Some(-value)
    } else {
        Some(value)
    }
}

// ---------------------------------------------------------------------------
// Cutting and joining

proof fn lemma_seek_shift(a: Seq<char>, b: Seq<char>, j: int, k: CharSet)
    requires
        0 <= j <= b.len(),
    ensures
        seek(a + b, a.len() + j, k) == a.len() + seek(b, j, k),
    decreases b.len() - j,
{
    let s = a + b;
    if j < b.len() {
        assert(s[a.len() + j] == b[j]);
        if !k.has(b[j]) {
            lemma_seek_shift(a, b, j + 1, k);
        }
    }
}

proof fn lemma_pieces_shift(a: Seq<char>, b: Seq<char>, j: int, k: CharSet)
    requires
        0 <= j <= b.len(),
    ensures
        pieces_from(a + b, a.len() + j, k) == pieces_from(b, j, k),
    decreases b.len() - j,
{
    let s = a + b;
    let e = seek(b, j, k);
    lemma_seek_shift(a, b, j, k);
    lemma_seek(b, j, k);
    if e >= b.len() {
        assert(s.subrange(a.len() + j, s.len() as int) =~= b.subrange(j, b.len() as int));
    } else {
        lemma_pieces_shift(a, b, e + 1, k);
        assert(s.subrange(a.len() + j, a.len() + e) =~= b.subrange(j, e));
    }
}

proof fn lemma_first_piece(a: Seq<char>, c: char, b: Seq<char>)
    requires
        !a.contains(c),
    ensures
        pieces(a + seq![c] + b, CharSet::One(c)) == seq![a] + pieces(b, CharSet::One(c)),
        pieces(a, CharSet::One(c)) == seq![a],
{
    let k = CharSet::One(c);
    let s = a + seq![c] + b;
    let e = seek(s, 0, k);
    let m = seek(a, 0, k);
    lemma_seek(s, 0, k);
    lemma_seek(a, 0, k);
    assert(s[a.len() as int] == c);
    if e < a.len() {
        assert(s[e] == a[e]);
    }
    if e > a.len() {
        assert(!k.has(s[a.len() as int]));
    }
    assert(s.subrange(0, e) =~= a);
    lemma_pieces_shift(a + seq![c], b, 0, k);
    assert((a + seq![c]) + b =~= s);
    if m < a.len() {
        assert(k.has(a[m]));
    }
    assert(a.subrange(0, a.len() as int) =~= a);
}

/// A text that is cut at every `c` is cut at each `c` on its own: the pieces of `a c b`
/// are those of `a` and then those of `b`. A text without a `c` is one piece.
pub proof fn a_text_is_cut_at_each_mark(a: Seq<char>, c: char, b: Seq<char>)
    ensures
        pieces(a + seq![c] + b, CharSet::One(c)) == pieces(a, CharSet::One(c)) + pieces(b, CharSet::One(c)),
        !a.contains(c) ==> pieces(a, CharSet::One(c)) == seq![a],
    decreases a.len(),
{
    let k = CharSet::One(c);
    if !a.contains(c) {
        lemma_first_piece(a, c, b);
    } else {
        let e = seek(a, 0, k);
        lemma_seek(a, 0, k);
        let i = choose|i: int| 0 <= i < a.len() && a[i] == c;
        if e >= a.len() {
            assert(!k.has(a[i]));
        }
        let x = a.subrange(0, e);
        let y = a.subrange(e + 1, a.len() as int);
        assert(!x.contains(c)) by {
            if x.contains(c) {
                let j = choose|j: int| 0 <= j < x.len() && x[j] == c;
                assert(!k.has(a[j]));
            }
        }
        assert(a =~= x + seq![c] + y);
        lemma_first_piece(x, c, y);
        lemma_first_piece(x, c, y + seq![c] + b);
        assert(a + seq![c] + b =~= x + seq![c] + (y + seq![c] + b));
        a_text_is_cut_at_each_mark(y, c, b);
        assert(seq![x] + (pieces(y, k) + pieces(b, k)) =~= (seq![x] + pieces(y, k)) + pieces(b, k));
    }
}

/// Texts are joined by what stands between them: the parts of `p` and then those of `q`
/// give what `p` gives, the separator, and what `q` gives. One part is itself.
pub proof fn texts_are_joined_by_the_separator(p: Seq<Seq<char>>, q: Seq<Seq<char>>, sep: Seq<char>)
    requires
        p.len() > 0,
        q.len() > 0,
    ensures
        joined(p + q, sep) == joined(p, sep) + sep + joined(q, sep),
        p.len() == 1 ==> joined(p, sep) == p[0],
{
    lemma_joined(p, q, 0, sep);
}

proof fn lemma_joined_shift(p: Seq<Seq<char>>, q: Seq<Seq<char>>, j: int, sep: Seq<char>)
    requires
        0 <= j,
    ensures
        joined_from(p + q, p.len() + j, sep) == joined_from(q, j, sep),
    decreases q.len() - j,
{
    if j < q.len() {
        assert((p + q)[p.len() + j] == q[j]);
        if j + 1 < q.len() {
            lemma_joined_shift(p, q, j + 1, sep);
        }
    }
}

proof fn lemma_joined(p: Seq<Seq<char>>, q: Seq<Seq<char>>, k: int, sep: Seq<char>)
    requires
        0 <= k < p.len(),
        q.len() > 0,
    ensures
        joined_from(p + q, k, sep) == joined_from(p, k, sep) + sep + joined(q, sep),
    decreases p.len() - k,
{
    let all = p + q;
    assert(all[k] == p[k]);
    if k + 1 == p.len() {
        lemma_joined_shift(p, q, 0, sep);
        assert(joined_from(all, k, sep) == all[k] + sep + joined_from(all, k + 1, sep));
    } else {
        lemma_joined(p, q, k + 1, sep);
        assert(joined_from(all, k, sep) == all[k] + sep + joined_from(all, k + 1, sep));
        assert(joined_from(all, k, sep) =~= (p[k] + sep + joined_from(p, k + 1, sep)) + sep + joined(q, sep));
    }
}

/// What was cut is joined again by the mark at which it was cut.
pub proof fn what_is_cut_is_joined_again(s: Seq<char>, c: char)
    ensures
        pieces(s, CharSet::One(c)).len() > 0,
        joined(pieces(s, CharSet::One(c)), seq![c]) == s,
    decreases s.len(),
{
    let k = CharSet::One(c);
    if !s.contains(c) {
        lemma_first_piece(s, c, Seq::empty());
    } else {
        let e = seek(s, 0, k);
        lemma_seek(s, 0, k);
        let i = choose|i: int| 0 <= i < s.len() && s[i] == c;
        if e >= s.len() {
            assert(!k.has(s[i]));
        }
        let x = s.subrange(0, e);
        let y = s.subrange(e + 1, s.len() as int);
        assert(!x.contains(c)) by {
            if x.contains(c) {
                let j = choose|j: int| 0 <= j < x.len() && x[j] == c;
                assert(!k.has(s[j]));
            }
        }
        assert(s =~= x + seq![c] + y);
        lemma_first_piece(x, c, y);
        what_is_cut_is_joined_again(y, c);
        texts_are_joined_by_the_separator(seq![x], pieces(y, k), seq![c]);
    }
}

} // verus!
