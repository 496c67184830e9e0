//! Names and spans of source text.

use vstd::prelude::*;
use vstd::string::*;
use vstd::utf8;

use crate::scan;
use crate::seqs;
use crate::syntax;
use crate::syntax::{Tree, TreeView};
use crate::text;
use crate::text::{chars_of, string_of, CharSet};

verus! {

/// The trailing segment of a `\`-qualified name (`App\Models\User` -> `User`).
pub fn dequalify(name: &str) -> (r: String)
    ensures
        r@ == scan::last_part(name@, '\\'),
{
    string_of(scan::behind_last(&chars_of(name), '\\'))
}

/// What is read from bytes that are meant as UTF-8.
pub uninterp spec fn lossy(b: Seq<u8>) -> Seq<char>;

/// `String::from_utf8_lossy`: bytes as text. Where they are valid UTF-8 it is the
/// text that they encode; elsewhere the replacement characters that stand in for
/// the invalid sequences are left to the name.
#[verifier::external_body]
pub fn bytes(v: &[u8]) -> (r: String)
    ensures
        r@ == lossy(v@),
        utf8::valid_utf8(v@) ==> r@ == utf8::decode_utf8(v@),
{
    String::from_utf8_lossy(v).into_owned()
}

/// The text between the byte offsets `a` and `b`, where both are offsets of
/// characters, or of the end.
pub open spec fn sliced(s: Seq<char>, a: int, b: int) -> Option<Seq<char>> {
    let all = utf8::encode_utf8(s);
    if 0 <= a <= b <= all.len() && utf8::is_char_boundary(all, a) && utf8::is_char_boundary(all, b) {
        Some(utf8::decode_utf8(all.subrange(a, b)))
    } else {
        None
    }
}

/// A text takes at least a byte for each of its characters.
pub proof fn lemma_bytes_of_chars(s: Seq<char>)
    ensures
        utf8::encode_utf8(s).len() >= s.len(),
    decreases s.len(),
{
    if s.len() > 0 {
        lemma_bytes_of_chars(s.drop_first());
    }
}

/// The text between two byte offsets; nothing where one of them lies outside the
/// text or inside a character.
pub fn slice<'a>(s: &'a str, a: usize, b: usize) -> (r: Option<&'a str>)
    ensures
        seqs::opt_view(r) == sliced(s@, a as int, b as int),
        r matches Some(t) ==> t@.len() <= b - a,
{
    let ghost all = utf8::encode_utf8(s@);
    let n = s.as_bytes().len();
    if a > b || b > n || !s.is_char_boundary(a) || !s.is_char_boundary(b) {
        return None;
    }
    let (_, tail) = s.split_at(a);
    proof {
        utf8::encode_utf8_valid_utf8(s@);
        utf8::encode_utf8_valid_utf8(tail@);
        assert(utf8::encode_utf8(tail@) =~= all.subrange(a as int, n as int));
        if b < n {
            utf8::is_char_boundary_iff_not_is_continuation_byte(all, b as int);
            utf8::is_char_boundary_iff_not_is_continuation_byte(utf8::encode_utf8(tail@), b - a);
            assert(utf8::encode_utf8(tail@)[b - a] == all[b as int]);
        } else {
            utf8::is_char_boundary_start_end_of_seq(utf8::encode_utf8(tail@));
        }
    }
    let (found, _) = tail.split_at(b - a);
    proof {
        assert(utf8::encode_utf8(found@) =~= all.subrange(a as int, b as int));
        utf8::encode_utf8_decode_utf8(found@);
        lemma_bytes_of_chars(found@);
    }
    Some(found)
}

/// The bytes between the offsets of two characters are valid UTF-8.
pub proof fn lemma_valid_slice(b: Seq<u8>, x: int, y: int)
    requires
        utf8::valid_utf8(b),
        0 <= x <= y <= b.len(),
        utf8::is_char_boundary(b, x),
        utf8::is_char_boundary(b, y),
    ensures
        utf8::valid_utf8(b.subrange(x, y)),
{
    let tail = b.subrange(x, b.len() as int);
    utf8::valid_utf8_split(b, x);
    if y < b.len() {
        utf8::is_char_boundary_iff_not_is_continuation_byte(b, y);
        utf8::is_char_boundary_iff_not_is_continuation_byte(tail, y - x);
        assert(tail[y - x] == b[y]);
    } else {
        utf8::is_char_boundary_start_end_of_seq(tail);
    }
    utf8::valid_utf8_split(tail, y - x);
    assert(tail.subrange(0, y - x) =~= b.subrange(x, y));
}

/// The text of a span of byte offsets, which is cut at the end of the text; empty
/// where it splits a character.
pub open spec fn spanned(s: Seq<char>, start: int, end: int) -> Seq<char> {
    let n = utf8::encode_utf8(s).len() as int;
    let a = if start < n { start } else { n };
    let e = if end < a { a } else { end };
    let b = if e < n { e } else { n };
    match sliced(s, a, b) {
        Some(t) => t,
        None => Seq::empty(),
    }
}

/// A byte range of `src` as a `&str`, clamped to valid bounds.
pub fn span<'a>(src: &'a str, start: u32, end: u32) -> (r: &'a str)
    ensures
        r@ == spanned(src@, start as int, end as int),
{
    let n = src.as_bytes().len();
    let start = start as usize;
    let end = end as usize;
    let a: usize = if start < n { start } else { n };
    let e: usize = if end < a { a } else { end };
    let b: usize = if e < n { e } else { n };
    match slice(src, a, b) {
        Some(t) => t,
        None => {
            proof {
                reveal_strlit("");
            }
            ""
        },
    }
}

// ---------------------------------------------------------------------------
// Names in the syntax tree

/// The text of an identifier node.
pub open spec fn ident_text(t: TreeView) -> Seq<char> {
    if t.children.len() > 0 {
        t.children[0].text
    } else {
        t.text
    }
}

/// The full (leading-`\`-trimmed) text of an identifier.
pub open spec fn full_name(t: TreeView) -> Seq<char> {
    text::trimmed_start(ident_text(t), CharSet::One('\\'))
}

/// The bare (de-qualified) name of an identifier.
pub open spec fn bare_name(t: TreeView) -> Seq<char> {
    scan::last_part(full_name(t), '\\')
}

/// The full (leading-`\`-trimmed) text of an identifier.
pub fn ident_full(id: &Tree) -> (r: String)
    ensures
        r@ == full_name(id@),
{
    broadcast use syntax::lemma_children;

    let raw = if id.children.len() > 0 {
        assert(id@.children[0] == id.children@[0]@);
        chars_of(&id.children[0].text)
    } else {
        assert(id@.children.len() == 0);
        chars_of(&id.text)
    };
    string_of(text::trim_start(&raw, CharSet::One('\\')))
}

/// The bare (de-qualified) name of an identifier.
pub fn ident_name(id: &Tree) -> (r: String)
    ensures
        r@ == bare_name(id@),
{
    dequalify(&ident_full(id))
}

/// The single class named by a type hint: unwraps `?T` and `(T)`; none for unions,
/// primitives, `array`, `void`, ...
pub open spec fn hinted(h: TreeView) -> Option<Seq<char>>
    decreases h,
{
    if h.child("Identifier"@) is Some {
        Some(bare_name(h.child("Identifier"@)->0))
    } else if h.child("NullableHint"@) is Some {
        let inner = h.child("NullableHint"@)->0;
        if inner.child("Hint"@) is Some {
            proof {
                syntax::lemma_child_smaller(h, "NullableHint"@);
                syntax::lemma_child_smaller(inner, "Hint"@);
            }
            hinted(inner.child("Hint"@)->0)
        } else {
            None
        }
    } else if h.child("ParenthesizedHint"@) is Some {
        let inner = h.child("ParenthesizedHint"@)->0;
        if inner.child("Hint"@) is Some {
            proof {
                syntax::lemma_child_smaller(h, "ParenthesizedHint"@);
                syntax::lemma_child_smaller(inner, "Hint"@);
            }
            hinted(inner.child("Hint"@)->0)
        } else {
            None
        }
    } else {
        None
    }
}

/// The single class named by a type hint, if any (unwraps `?T`/`(T)`; `None`
/// for unions, primitives, `array`, `void`, ...).
pub fn hint_class(h: &Tree) -> (r: Option<String>)
    ensures
        seqs::opt_view(r) == hinted(h@),
    decreases h,
{
    if let Some(id) = h.child("Identifier") {
        return Some(ident_name(id));
    }
    if let Some(inner) = h.child("NullableHint") {
        return match inner.child("Hint") {
            Some(hint) => hint_class(hint),
            None => None,
        };
    }
    if let Some(inner) = h.child("ParenthesizedHint") {
        return match inner.child("Hint") {
            Some(hint) => hint_class(hint),
            None => None,
        };
    }
    None
}

/// The member name of a `->m`/`::m` selector, when it's a plain identifier.
pub open spec fn selected(sel: TreeView) -> Option<Seq<char>> {
    match sel.child("LocalIdentifier"@) {
        Some(id) => Some(id.text),
        None => None,
    }
}

/// The member name of a `->m`/`::m` selector, when it's a plain identifier.
pub fn selector_name(sel: &Tree) -> (r: Option<String>)
    ensures
        seqs::opt_view(r) == selected(sel@),
{
    match sel.child("LocalIdentifier") {
        Some(id) => Some(id.text.clone()),
        None => None,
    }
}

/// The bare name that an expression is, when it's a plain identifier.
pub open spec fn called(expr: TreeView) -> Option<Seq<char>> {
    match expr.child("Identifier"@) {
        Some(id) => Some(bare_name(id)),
        None => None,
    }
}

/// The callee name of a `foo()` call, when it's a plain identifier.
pub fn callee_name(expr: &Tree) -> (r: Option<String>)
    ensures
        seqs::opt_view(r) == called(expr@),
{
    match expr.child("Identifier") {
        Some(id) => Some(ident_name(id)),
        None => None,
    }
}

/// The `$var` text of a direct-variable expression.
pub open spec fn variable(expr: TreeView) -> Option<Seq<char>> {
    match expr.child("Variable"@) {
        Some(v) => match v.child("DirectVariable"@) {
            Some(d) => Some(d.text),
            None => None,
        },
        None => None,
    }
}

/// The `$var` text of a direct-variable expression (e.g. the `->` receiver).
pub fn var_name(expr: &Tree) -> (r: Option<String>)
    ensures
        seqs::opt_view(r) == variable(expr@),
{
    match expr.child("Variable") {
        Some(v) => match v.child("DirectVariable") {
            Some(d) => Some(d.text.clone()),
            None => None,
        },
        None => None,
    }
}

} // verus!
