//! JSON values, as `serde_json` holds, reads and writes them.

use serde_json::Value;
use vstd::prelude::*;

use crate::seqs;
use crate::text::chars_of;

verus! {

broadcast use crate::seqs::group_text;

/// A JSON value of `serde_json`, opaque but for what it holds.
#[verifier::external_type_specification]
#[verifier::external_body]
pub struct ExValue(serde_json::Value);

/// What a JSON value holds. The entries of an object stand in the order of the
/// object; a number that is no `u64` is not told apart from another such number.
pub enum JsonView {
    Null,
    Bool(bool),
    Int(u64),
    Number,
    Str(Seq<char>),
    Arr(Seq<JsonView>),
    Obj(Seq<(Seq<char>, JsonView)>),
}

/// What a `serde_json::Value` holds.
pub uninterp spec fn held(v: Value) -> JsonView;

/// What the elements of a list hold.
pub open spec fn held_all(s: Seq<Value>) -> Seq<JsonView> {
    s.map_values(|v: Value| held(v))
}

/// What the entries of an object hold.
pub open spec fn held_pairs(s: Seq<(String, Value)>) -> Seq<(Seq<char>, JsonView)> {
    s.map_values(|e: (String, Value)| (e.0@, held(e.1)))
}

/// What the borrowed entries of an object hold.
pub open spec fn held_entries(s: Seq<(&String, &Value)>) -> Seq<(Seq<char>, JsonView)> {
    s.map_values(|e: (&String, &Value)| (e.0@, held(*e.1)))
}

impl JsonView {
    /// The text of a string.
    pub open spec fn text(self) -> Option<Seq<char>> {
        match self {
            JsonView::Str(s) => Some(s),
            _ => None,
        }
    }

    /// The value of a number that is a `u64`.
    pub open spec fn number(self) -> Option<u64> {
        match self {
            JsonView::Int(n) => Some(n),
            _ => None,
        }
    }

    /// A truth value.
    pub open spec fn truth(self) -> Option<bool> {
        match self {
            JsonView::Bool(b) => Some(b),
            _ => None,
        }
    }

    /// The elements of an array.
    pub open spec fn items(self) -> Option<Seq<JsonView>> {
        match self {
            JsonView::Arr(s) => Some(s),
            _ => None,
        }
    }

    /// The entries of an object.
    pub open spec fn entries(self) -> Option<Seq<(Seq<char>, JsonView)>> {
        match self {
            JsonView::Obj(s) => Some(s),
            _ => None,
        }
    }

    /// The member `key` of an object; null where there is none.
    pub open spec fn at(self, key: Seq<char>) -> JsonView {
        match self {
            JsonView::Obj(s) => first_entry(s, 0, key),
            _ => JsonView::Null,
        }
    }

    /// Nested at most `n` levels deep, with `u64` numbers only and with distinct
    /// keys in each object.
    pub open spec fn is_plain(self, n: nat) -> bool
        decreases n,
    {
        match self {
            JsonView::Number => false,
            JsonView::Arr(s) => n > 0 && forall|i: int|
                0 <= i < s.len() ==> (#[trigger] s[i]).is_plain((n - 1) as nat),
            JsonView::Obj(s) => {
                &&& n > 0
                &&& distinct_keys(s)
                &&& forall|i: int| 0 <= i < s.len() ==> (#[trigger] s[i]).1.is_plain((n - 1) as nat)
            },
            _ => true,
        }
    }
}

/// The value of the first entry for `key` from index `k` on; null where there
/// is none.
pub open spec fn first_entry(s: Seq<(Seq<char>, JsonView)>, k: int, key: Seq<char>) -> JsonView
    decreases s.len() - k,
{
    if k < 0 || k >= s.len() {
        JsonView::Null
    } else if s[k].0 == key {
        s[k].1
    } else {
        first_entry(s, k + 1, key)
    }
}

/// A member of an object is smaller than the object.
pub proof fn lemma_member_smaller(j: JsonView, key: Seq<char>)
    ensures
        j.at(key) is Null || decreases_to!(j => j.at(key)),
{
    if let JsonView::Obj(s) = j {
        lemma_entry_smaller(j, s, 0, key);
    }
}

proof fn lemma_entry_smaller(j: JsonView, s: Seq<(Seq<char>, JsonView)>, k: int, key: Seq<char>)
    requires
        j == JsonView::Obj(s),
        k >= 0,
    ensures
        first_entry(s, k, key) is Null || decreases_to!(j => first_entry(s, k, key)),
    decreases s.len() - k,
{
    if k < s.len() {
        lemma_entry_smaller(j, s, k + 1, key);
        assert(decreases_to!(j => j->Obj_0));
        assert(decreases_to!(s => s[k]));
        assert(decreases_to!(s[k] => s[k].1));
    }
}

/// No two entries have the same key.
pub open spec fn distinct_keys(s: Seq<(Seq<char>, JsonView)>) -> bool {
    forall|i: int, j: int| 0 <= i < j < s.len() ==> (#[trigger] s[i]).0 != (#[trigger] s[j]).0
}

/// `serde_json::Value::as_str`: the text of a string, nothing for another value.
pub assume_specification[ Value::as_str ](v: &Value) -> (r: Option<&str>)
    ensures
        seqs::opt_view(r) == held(*v).text(),
;

/// `serde_json::Value::as_u64`: the value of a number that is a `u64`.
pub assume_specification[ Value::as_u64 ](v: &Value) -> (r: Option<u64>)
    ensures
        r == held(*v).number(),
;

/// `serde_json::Value::as_bool`: the truth value, nothing for another value.
pub assume_specification[ Value::as_bool ](v: &Value) -> (r: Option<bool>)
    ensures
        r == held(*v).truth(),
;

/// `serde_json::Value::is_null`: whether the value is null.
pub assume_specification[ Value::is_null ](v: &Value) -> (r: bool)
    ensures
        r == (held(*v) is Null),
;

/// `serde_json::Value::as_array`: the elements of an array, nothing for another
/// value.
pub assume_specification[ Value::as_array ](v: &Value) -> (r: Option<&Vec<Value>>)
    ensures
        r is Some <==> held(*v) is Arr,
        r matches Some(a) ==> held(*v) == JsonView::Arr(held_all(a@)),
;

/// Indexing a `serde_json::Value` by a string: the member of that name, or null
/// where the value is no object or has no such member.
#[verifier::external_body]
pub(crate) fn field<'a>(v: &'a Value, key: &str) -> (r: &'a Value)
    ensures
        held(*r) == held(*v).at(key@),
{
    &v[key]
}

/// `serde_json::Value::as_object` and `serde_json::Map::iter`: the entries of an
/// object in its order, each key once; nothing for another value.
#[verifier::external_body]
pub(crate) fn members<'a>(v: &'a Value) -> (r: Option<Vec<(&'a String, &'a Value)>>)
    ensures
        r is Some <==> held(*v) is Obj,
        r matches Some(s) ==> held(*v) == JsonView::Obj(held_entries(s@)) && distinct_keys(
            held_entries(s@),
        ),
{
    v.as_object().map(|m| m.iter().collect())
}

/// What `serde_json` reads from a text: the value, or what it complains of.
pub uninterp spec fn parsed(text: Seq<char>) -> Result<JsonView, Seq<char>>;

/// `text` is read as the value `j`.
pub open spec fn reads(text: Seq<char>, j: JsonView) -> bool {
    parsed(text) == Ok::<JsonView, Seq<char>>(j)
}

/// `serde_json::from_str`: the value that a text writes, or the message of the
/// error that it meets.
#[verifier::external_body]
pub(crate) fn parse(text: &str) -> (r: Result<Value, String>)
    ensures
        match r {
            Ok(v) => reads(text@, held(v)),
            Err(m) => parsed(text@) == Err::<JsonView, Seq<char>>(m@),
        },
{
    serde_json::from_str(text).map_err(|e| e.to_string())
}

/// How many brackets may stand open at once in a text that [`parse_deep`] reads: the
/// reader calls itself at each of them, and a thread of two megabytes has room for
/// this many calls.
pub const DEEPEST: usize = 2000;

/// From index `i` on, inside a string literal or not, with `depth` brackets open, no
/// more than [`DEEPEST`] brackets are open at once.
pub open spec fn is_shallow_from(s: Seq<char>, i: int, inside: bool, depth: int) -> bool
    decreases s.len() + 1 - i,
{
    if i < 0 || i >= s.len() {
        true
    } else if inside {
        if s[i] == '\\' {
            is_shallow_from(s, i + 2, true, depth)
        } else {
            is_shallow_from(s, i + 1, s[i] != '"', depth)
        }
    } else if s[i] == '[' || s[i] == '{' {
        depth < DEEPEST && is_shallow_from(s, i + 1, false, depth + 1)
    } else if s[i] == ']' || s[i] == '}' {
        is_shallow_from(s, i + 1, false, if depth > 0 { depth - 1 } else { 0 })
    } else {
        is_shallow_from(s, i + 1, s[i] == '"', depth)
    }
}

/// No more than [`DEEPEST`] brackets of a JSON text are open at once.
pub open spec fn is_shallow(text: Seq<char>) -> bool {
    is_shallow_from(text, 0, false, 0)
}

fn test_shallow(text: &str) -> (r: bool)
    ensures
        r == is_shallow(text@),
{
    let s = chars_of(text);
    let mut i: usize = 0;
    let mut inside: bool = false;
    let mut depth: usize = 0;
    while i < s.len()
        invariant
            s@ == text@,
            depth <= DEEPEST,
            is_shallow_from(s@, i as int, inside, depth as int) == is_shallow(text@),
        decreases s@.len() - i,
    {
        let c = s[i];
        if inside {
            if c == '\\' {
                if i + 1 >= s.len() {
                    assert(is_shallow_from(s@, i + 2, true, depth as int));
                    return true;
                }
                i += 1;
            } else {
                inside = c != '"';
            }
        } else if c == '[' || c == '{' {
            if depth >= DEEPEST {
                return false;
            }
            depth += 1;
        } else if c == ']' || c == '}' {
            if depth > 0 {
                depth -= 1;
            }
        } else {
            inside = c == '"';
        }
        i += 1;
    }
    true
}

/// What `serde_json` reads from the start of a text, with no limit of its own on how
/// deeply it is nested.
pub uninterp spec fn parsed_deep(text: Seq<char>) -> Option<JsonView>;

/// `serde_json::Deserializer` with `disable_recursion_limit`: the first value that a
/// text writes. Without that limit the reader uses up the stack on a text that is
/// nested too deeply, so the text is not.
#[verifier::external_body]
fn parse_deep(text: &str) -> (r: Option<Value>)
    requires
        is_shallow(text@),
    ensures
        (match r {
            Some(v) => Some(held(v)),
            None => None,
        }) == parsed_deep(text@),
{
    let mut reader = serde_json::Deserializer::from_str(text);
    reader.disable_recursion_limit();
    reader.into_iter::<Value>().next().and_then(|v| v.ok())
}

/// The value at the start of a text: nothing where it is nested too deeply.
pub open spec fn parsed_nested(text: Seq<char>) -> Option<JsonView> {
    if is_shallow(text) {
        parsed_deep(text)
    } else {
        None
    }
}

/// Reads the value at the start of a text that is not nested too deeply.
pub fn parse_nested(text: &str) -> (r: Option<Value>)
    ensures
        (match r {
            Some(v) => Some(held(v)),
            None => None,
        }) == parsed_nested(text@),
{
    if test_shallow(text) {
        parse_deep(text)
    } else {
        None
    }
}

/// `serde_json::Value::Null`.
#[verifier::external_body]
pub(crate) fn null_value() -> (r: Value)
    ensures
        held(r) == JsonView::Null,
{
    Value::Null
}

/// `serde_json::Value::String`.
#[verifier::external_body]
pub(crate) fn text_value(s: &str) -> (r: Value)
    ensures
        held(r) == JsonView::Str(s@),
{
    Value::String(s.to_string())
}

/// `serde_json::Value::from` on a `u64`.
#[verifier::external_body]
pub(crate) fn number_value(n: u64) -> (r: Value)
    ensures
        held(r) == JsonView::Int(n),
{
    Value::from(n)
}

/// `serde_json::Value::Bool`.
#[verifier::external_body]
pub(crate) fn bool_value(b: bool) -> (r: Value)
    ensures
        held(r) == JsonView::Bool(b),
{
    Value::Bool(b)
}

/// `serde_json::Value::Array`.
#[verifier::external_body]
pub(crate) fn list_value(items: Vec<Value>) -> (r: Value)
    ensures
        held(r) == JsonView::Arr(held_all(items@)),
{
    Value::Array(items)
}

/// `serde_json::Value::Object` of a `serde_json::Map` collected from entries with
/// distinct keys, which keeps their order.
#[verifier::external_body]
pub(crate) fn object_value(entries: Vec<(String, Value)>) -> (r: Value)
    requires
        distinct_keys(held_pairs(entries@)),
    ensures
        held(r) == JsonView::Obj(held_pairs(entries@)),
{
    Value::Object(entries.into_iter().collect())
}

/// How `serde_json` writes a value.
pub uninterp spec fn rendered(j: JsonView) -> Seq<char>;

/// How deeply nested a written value may be to be read back.
pub const DEPTH: u64 = 100;

/// `serde_json::Value::to_string`: the compact text of a value. Where the value is
/// not nested too deeply and holds no number but `u64`s, the text is a function of
/// what the value holds, and reading it gives the value back. Nothing is said of the
/// text of another value.
#[verifier::external_body]
pub(crate) fn render(v: &Value) -> (r: String)
    ensures
        held(*v).is_plain(DEPTH as nat) ==> r@ == rendered(held(*v)),
        held(*v).is_plain(DEPTH as nat) ==> reads(r@, held(*v)),
{
    v.to_string()
}

} // verus!
