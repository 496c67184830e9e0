//! JavaScript and TypeScript sources, and the scripts of Vue components.

use serde_json::Value;
use vstd::prelude::*;
use vstd::slice::slice_subrange;
use vstd::string::*;
use vstd::utf8;

use crate::extract;
use crate::json;
use crate::json::JsonView;
use crate::lang;
use crate::model;
use crate::model::{EdgeView, FoundView, Minter, Node, NodeView, RawEdge};
use crate::query;
use crate::seqs;
use crate::text;
use crate::text::{chars_of, join3, string_of, CharSet};
use crate::types;
use crate::types::Types;

verus! {

broadcast use {crate::seqs::group_text, text::lemma_run, text::lemma_seek};

/// The JS/TS format: scripts, and the `<script>` blocks of Vue components.
pub struct Js;

// ---------------------------------------------------------------------------
// Vue single-file components

/// The bodies of the `<script>` blocks from index `i` on, a newline behind each.
pub open spec fn scripts_from(s: Seq<char>, i: int) -> Seq<char>
    decreases s.len() - i,
{
    let open = text::find(s, "<script"@, i);
    let gt = text::seek(s, open, CharSet::One('>'));
    let close = text::find(s, "</script>"@, gt + 1);
    if i < 0 || i > s.len() || gt >= s.len() || close >= s.len() {
        Seq::empty()
    } else {
        proof {
            text::lemma_find(s, "<script"@, i);
            text::lemma_seek(s, open, CharSet::One('>'));
            text::lemma_find(s, "</script>"@, gt + 1);
        }
        s.subrange(gt + 1, close) + "\n"@ + scripts_from(s, close + "</script>"@.len())
    }
}

/// Extract the concatenated `<script>` / `<script setup>` bodies of a Vue SFC,
/// so the TS/JS inside a single-file component is parsed like any other module.
pub fn vue_script(code: &str) -> (r: String)
    ensures
        r@ == scripts_from(code@, 0),
{
    let s = chars_of(code);
    let n = text::length_of("</script>");
    let mut out = String::new();
    let mut i: usize = 0;
    loop
        invariant
            s@ == code@,
            n == "</script>"@.len(),
            i <= s@.len(),
            out@ + scripts_from(s@, i as int) == scripts_from(s@, 0),
        decreases s@.len() - i,
    {
        let open = text::search(&s, "<script", i);
        let gt = text::look(&s, open, CharSet::One('>'));
        if gt >= s.len() {
            return out;
        }
        let close = text::search(&s, "</script>", gt + 1);
        if close >= s.len() {
            return out;
        }
        let body = string_of(slice_subrange(&s, gt + 1, close));
        out.append(&body);
        out.append("\n");
        i = close + n;
    }
}

/// The name of a `.vue` file without its ending.
pub open spec fn stem(base: Seq<char>) -> Seq<char> {
    if text::ends(base, ".vue"@) {
        base.take(base.len() - ".vue"@.len())
    } else {
        base
    }
}

/// The component name a `.vue` file implies from its name (`Foo.vue` -> `Foo`).
pub fn component_stem(base: &str) -> (r: String)
    ensures
        r@ == stem(base@),
{
    let s = chars_of(base);
    if text::ends_with(&s, ".vue") {
        let n = s.len() - text::length_of(".vue");
        assert(s@.subrange(0, n as int) =~= s@.take(n as int));
        string_of(slice_subrange(&s, 0, n))
    } else {
        base.to_string()
    }
}

// ---------------------------------------------------------------------------
// The syntax tree

/// How `oxc` writes the syntax tree of a source down, as ESTree JSON with the
/// fields of TypeScript.
pub uninterp spec fn estree(code: Seq<char>, ext: Seq<char>) -> Seq<char>;

/// `oxc::parser::Parser::parse` with the source type of a file extension
/// (`oxc::span::SourceType::from_extension`, the default one for an unknown
/// extension), and `oxc::ast::ast::Program::to_estree_json` on the program that it
/// gives: the syntax tree as ESTree JSON with the fields of TypeScript. The parser
/// recovers from errors, or gives an empty program, so there is a tree for every
/// code. Nothing is said of the stack that the two use, which grows with how deeply
/// the code is nested.
#[verifier::external_body]
pub(crate) fn parse_js(code: &str, ext: &str) -> (r: String)
    ensures
        r@ == estree(code@, ext@),
{
    let allocator = oxc::allocator::Allocator::default();
    let kind = oxc::span::SourceType::from_extension(ext).unwrap_or_default();
    let parsed = oxc::parser::Parser::new(&allocator, code, kind).parse();
    parsed.program.to_estree_json(true, false)
}

/// The escape of half of a surrogate pair stands at `i`: `\ud8..` to `\udf..`.
pub open spec fn is_half_pair(s: Seq<char>, i: int) -> bool {
    &&& i + 6 <= s.len()
    &&& s[i] == '\\'
    &&& s[i + 1] == 'u'
    &&& s[i + 2] == 'd'
    &&& (s[i + 3] == '8' || s[i + 3] == '9' || ('a' <= s[i + 3] && s[i + 3] <= 'f'))
}

/// ESTree JSON from index `i` on, inside of a string or not, in which what JSON
/// readers of other languages than JavaScript refuse is mended: the escape of half
/// of a surrogate pair becomes a replacement character and the digits of the
/// escape, and an infinite number becomes 0.
pub open spec fn mended_from(s: Seq<char>, i: int, inside: bool) -> Seq<char>
    decreases s.len() - i,
{
    if i < 0 || i >= s.len() {
        Seq::empty()
    } else if inside {
        if is_half_pair(s, i) {
            "\\ufffd"@ + s.subrange(i + 2, i + 6) + mended_from(s, i + 6, true)
        } else if s[i] == '\\' && i + 1 < s.len() {
            seq![s[i], s[i + 1]] + mended_from(s, i + 2, true)
        } else {
            seq![s[i]] + mended_from(s, i + 1, s[i] != '"')
        }
    } else if text::occurs(s, i, "1e+400"@) {
        proof {
            reveal_strlit("1e+400");
        }
        seq!['0'] + mended_from(s, i + "1e+400"@.len(), false)
    } else {
        seq![s[i]] + mended_from(s, i + 1, s[i] == '"')
    }
}

/// ESTree JSON that every reader of JSON reads.
pub open spec fn mended(s: Seq<char>) -> Seq<char> {
    mended_from(s, 0, false)
}

/// Mends what JSON readers of other languages than JavaScript refuse in ESTree JSON.
pub fn mend(json: &str) -> (r: String)
    ensures
        r@ == mended(json@),
{
    let s = chars_of(json);
    let n = text::length_of("1e+400");
    let mut out = String::new();
    let mut inside = false;
    let mut i: usize = 0;
    while i < s.len()
        invariant
            s@ == json@,
            i <= s@.len(),
            n == "1e+400"@.len(),
            out@ + mended_from(s@, i as int, inside) == mended(s@),
        decreases s@.len() - i,
    {
        let ghost before = out@;
        let size = s.len();
        if inside {
            if size - i >= 6 && s[i] == '\\' && s[i + 1] == 'u' && s[i + 2] == 'd' && (s[i + 3] == '8'
                || s[i + 3] == '9' || ('a' <= s[i + 3] && s[i + 3] <= 'f')) {
                let digits = string_of(slice_subrange(&s, i + 2, i + 6));
                out.append("\\ufffd");
                out.append(&digits);
                i += 6;
            } else if s[i] == '\\' && size - i > 1 {
                out.push(s[i]);
                out.push(s[i + 1]);
                assert(out@ =~= before + seq![s@[i as int], s@[i + 1]]);
                i += 2;
            } else {
                inside = s[i] != '"';
                out.push(s[i]);
                i += 1;
            }
        } else if text::stands(&s, i, "1e+400") {
            proof {
                reveal_strlit("1e+400");
            }
            out.push('0');
            i += n;
        } else {
            inside = s[i] == '"';
            out.push(s[i]);
            i += 1;
        }
    }
    out
}

/// The syntax tree of a source; nothing where it cannot be read, or is nested too
/// deeply.
pub open spec fn js_tree(code: Seq<char>, ext: Seq<char>) -> JsonView {
    match json::parsed_nested(mended(estree(code, ext))) {
        Some(j) => j,
        None => JsonView::Null,
    }
}

// ---------------------------------------------------------------------------
// Names in the syntax tree

/// A node of the syntax tree is of a type.
pub open spec fn is_type(j: JsonView, ty: Seq<char>) -> bool {
    j.at("type"@).text() == Some(ty)
}

fn is_node(v: &Value, ty: &str) -> (r: bool)
    ensures
        r == is_type(json::held(*v), ty@),
{
    match json::field(v, "type").as_str() {
        Some(t) => text::same(t, ty),
        None => false,
    }
}

/// A node is a wrapper that does not change the value: parentheses, or what
/// TypeScript says of it.
pub open spec fn is_wrapper(j: JsonView) -> bool {
    is_type(j, "ParenthesizedExpression"@) || is_type(j, "TSAsExpression"@) || is_type(
        j,
        "TSSatisfiesExpression"@,
    ) || is_type(j, "TSNonNullExpression"@)
}

/// The value under parenthesized / TS wrapper expressions.
pub open spec fn peeled(j: JsonView) -> JsonView
    decreases j,
{
    if is_wrapper(j) && !(j.at("expression"@) is Null) {
        proof {
            json::lemma_member_smaller(j, "expression"@);
        }
        peeled(j.at("expression"@))
    } else {
        j
    }
}

/// Peel parenthesized / TS wrapper expressions to the underlying value.
pub fn peel<'a>(v: &'a Value) -> (r: &'a Value)
    ensures
        json::held(*r) == peeled(json::held(*v)),
    decreases json::held(*v),
{
    let inner = json::field(v, "expression");
    if (is_node(v, "ParenthesizedExpression") || is_node(v, "TSAsExpression") || is_node(
        v,
        "TSSatisfiesExpression",
    ) || is_node(v, "TSNonNullExpression")) && !inner.is_null() {
        proof {
            json::lemma_member_smaller(json::held(*v), "expression"@);
        }
        peel(inner)
    } else {
        v
    }
}

/// The name of an identifier node.
pub open spec fn name_of(j: JsonView) -> Option<Seq<char>> {
    j.at("name"@).text()
}

fn name(v: &Value) -> (r: Option<String>)
    ensures
        seqs::opt_view(r) == name_of(json::held(*v)),
{
    match json::field(v, "name").as_str() {
        Some(s) => Some(s.to_string()),
        None => None,
    }
}

/// A member access by a plain name (`a.b`, neither `a[b]` nor `a.#b`).
pub open spec fn is_static_member(j: JsonView) -> bool {
    &&& is_type(j, "MemberExpression"@)
    &&& j.at("computed"@).truth() == Some(false)
    &&& is_type(j.at("property"@), "Identifier"@)
}

fn is_dot_access(v: &Value) -> (r: bool)
    ensures
        r == is_static_member(json::held(*v)),
{
    is_node(v, "MemberExpression") && (match json::field(v, "computed").as_bool() {
        Some(b) => !b,
        None => false,
    }) && is_node(json::field(v, "property"), "Identifier")
}

/// The bare identifier a callee/heritage expression names, if any.
pub open spec fn reference_name(e: JsonView) -> Option<Seq<char>> {
    let j = peeled(e);
    if is_type(j, "Identifier"@) {
        name_of(j)
    } else if is_static_member(j) {
        name_of(j.at("property"@))
    } else {
        None
    }
}

/// The bare identifier a callee/heritage expression names, if any.
pub fn callee_name(e: &Value) -> (r: Option<String>)
    ensures
        seqs::opt_view(r) == reference_name(json::held(*e)),
{
    let v = peel(e);
    if is_node(v, "Identifier") {
        name(v)
    } else if is_dot_access(v) {
        name(json::field(v, "property"))
    } else {
        None
    }
}

/// The trailing name of a TS type reference (`A.B.C` -> `C`).
pub open spec fn type_reference(n: JsonView) -> Option<Seq<char>> {
    if is_type(n, "Identifier"@) {
        name_of(n)
    } else if is_type(n, "TSQualifiedName"@) {
        name_of(n.at("right"@))
    } else if is_static_member(n) {
        name_of(n.at("property"@))
    } else {
        None
    }
}

/// The trailing name of a TS type reference (`A.B.C` -> `C`).
pub fn named_type(n: &Value) -> (r: Option<String>)
    ensures
        seqs::opt_view(r) == type_reference(json::held(*n)),
{
    if is_node(n, "Identifier") {
        name(n)
    } else if is_node(n, "TSQualifiedName") {
        name(json::field(n, "right"))
    } else if is_dot_access(n) {
        name(json::field(n, "property"))
    } else {
        None
    }
}

/// The referenced type of a `: T` annotation, when `T` is a plain reference.
pub open spec fn annotated(a: JsonView) -> Option<Seq<char>> {
    let t = a.at("typeAnnotation"@);
    if is_type(t, "TSTypeReference"@) {
        type_reference(t.at("typeName"@))
    } else {
        None
    }
}

/// The referenced type of a `: T` annotation, when `T` is a plain reference.
pub fn annotation_type(a: &Value) -> (r: Option<String>)
    ensures
        seqs::opt_view(r) == annotated(json::held(*a)),
{
    let t = json::field(a, "typeAnnotation");
    if is_node(t, "TSTypeReference") {
        named_type(json::field(t, "typeName"))
    } else {
        None
    }
}

/// A declarator's inferred type: its annotation, else `new X()`'s class.
pub open spec fn inferred(d: JsonView) -> Option<Seq<char>> {
    let ann = annotated(d.at("id"@).at("typeAnnotation"@));
    let init = peeled(d.at("init"@));
    if ann is Some {
        ann
    } else if is_type(init, "NewExpression"@) {
        reference_name(init.at("callee"@))
    } else {
        None
    }
}

/// A declarator's inferred type: its annotation, else `new X()`'s class.
pub fn declarator_type(d: &Value) -> (r: Option<String>)
    ensures
        seqs::opt_view(r) == inferred(json::held(*d)),
{
    let ann = annotation_type(json::field(json::field(d, "id"), "typeAnnotation"));
    if ann.is_some() {
        return ann;
    }
    let init = peel(json::field(d, "init"));
    if is_node(init, "NewExpression") {
        callee_name(json::field(init, "callee"))
    } else {
        None
    }
}

/// A member or a property is named by a plain identifier, not by an expression.
pub open spec fn has_plain_key(p: JsonView) -> bool {
    is_type(p.at("key"@), "Identifier"@) && p.at("computed"@).truth() == Some(false)
}

fn is_plain_key(p: &Value) -> (r: bool)
    ensures
        r == has_plain_key(json::held(*p)),
{
    is_node(json::field(p, "key"), "Identifier") && match json::field(p, "computed").as_bool() {
        Some(b) => !b,
        None => false,
    }
}

/// The plain name of a method (identifier or private field).
pub open spec fn method_name(md: JsonView) -> Option<Seq<char>> {
    if has_plain_key(md) || is_type(md.at("key"@), "PrivateIdentifier"@) {
        name_of(md.at("key"@))
    } else {
        None
    }
}

/// The plain name of a method key (identifier or private field).
pub fn property_key(md: &Value) -> (r: Option<String>)
    ensures
        seqs::opt_view(r) == method_name(json::held(*md)),
{
    let key = json::field(md, "key");
    if is_plain_key(md) || is_node(key, "PrivateIdentifier") {
        name(key)
    } else {
        None
    }
}

/// The value of a property of a plain name, when it is a string literal.
pub open spec fn string_of_property(key: Seq<char>) -> spec_fn(JsonView) -> Option<Seq<char>> {
    |p: JsonView|
        {
            let v = peeled(p.at("value"@));
            if is_type(p, "Property"@) && has_plain_key(p) && name_of(p.at("key"@)) == Some(key)
                && is_type(v, "Literal"@) {
                v.at("value"@).text()
            } else {
                None
            }
        }
}

/// The value of a `<key>: "..."` string property in an object literal.
pub open spec fn property_text(o: JsonView, key: Seq<char>) -> Option<Seq<char>> {
    seqs::first_some(query::items_of(o.at("properties"@)), string_of_property(key))
}

fn property_string(p: &Value, key: &str) -> (r: Option<String>)
    ensures
        seqs::opt_view(r) == string_of_property(key@)(json::held(*p)),
{
    if !is_node(p, "Property") || !is_plain_key(p) {
        return None;
    }
    match json::field(json::field(p, "key"), "name").as_str() {
        Some(k) => if !text::same(k, key) {
            return None;
        },
        None => {
            return None;
        },
    }
    let v = peel(json::field(p, "value"));
    if !is_node(v, "Literal") {
        return None;
    }
    match json::field(v, "value").as_str() {
        Some(s) => Some(s.to_string()),
        None => None,
    }
}

/// The value of a `<key>: "..."` string property in an object literal.
pub fn string_property(o: &Value, key: &str) -> (r: Option<String>)
    ensures
        seqs::opt_view(r) == property_text(json::held(*o), key@),
{
    let items = match json::field(o, "properties").as_array() {
        Some(items) => items,
        None => {
            return None;
        },
    };
    let ghost all = json::held_all(items@);
    let ghost f = string_of_property(key@);
    let mut k: usize = 0;
    while k < items.len()
        invariant
            k <= items@.len(),
            all == json::held_all(items@),
            all == query::items_of(json::held(*o).at("properties"@)),
            f == string_of_property(key@),
            seqs::first_some(all, f) == seqs::first_from(all, k as int, f),
        decreases items@.len() - k,
    {
        assert(all[k as int] == json::held(items@[k as int]));
        let found = property_string(&items[k], key);
        if found.is_some() {
            return found;
        }
        k += 1;
    }
    None
}

/// The first argument of a call, when it is an object literal.
pub open spec fn options_of(c: JsonView) -> Option<JsonView> {
    let args = query::items_of(c.at("arguments"@));
    if args.len() > 0 && is_type(args[0], "ObjectExpression"@) {
        Some(args[0])
    } else {
        None
    }
}

fn first_options<'a>(c: &'a Value) -> (r: Option<&'a Value>)
    ensures
        r is Some <==> options_of(json::held(*c)) is Some,
        r matches Some(o) ==> options_of(json::held(*c)) == Some(json::held(*o)),
{
    let items = json::field(c, "arguments").as_array()?;
    assert(json::held_all(items@).len() == items@.len());
    if items.len() == 0 {
        return None;
    }
    assert(json::held_all(items@)[0] == json::held(items@[0]));
    if is_node(&items[0], "ObjectExpression") {
        Some(&items[0])
    } else {
        None
    }
}

// ---------------------------------------------------------------------------
// The name of a component

/// A call of one of the macros that declare a Vue component.
pub open spec fn is_component_macro(c: JsonView) -> bool {
    let callee = peeled(c.at("callee"@));
    is_type(callee, "Identifier"@) && (name_of(callee) == Some("defineComponent"@) || name_of(callee)
        == Some("defineOptions"@) || name_of(callee) == Some("defineNuxtComponent"@))
}

/// A `name` string from a `define*({...})` call's first object argument.
pub open spec fn macro_name(c: JsonView) -> Option<Seq<char>> {
    match options_of(c) {
        Some(o) => if is_component_macro(c) {
            property_text(o, "name"@)
        } else {
            None
        },
        None => None,
    }
}

/// A `name` string from a `define*({...})` call's first object argument.
pub fn name_from_call(c: &Value) -> (r: Option<String>)
    ensures
        seqs::opt_view(r) == macro_name(json::held(*c)),
{
    let callee = peel(json::field(c, "callee"));
    let is_macro = is_node(callee, "Identifier") && match json::field(callee, "name").as_str() {
        Some(n) => text::same(n, "defineComponent") || text::same(n, "defineOptions") || text::same(
            n,
            "defineNuxtComponent",
        ),
        None => false,
    };
    if !is_macro {
        return None;
    }
    match first_options(c) {
        Some(o) => string_property(o, "name"),
        None => None,
    }
}

/// The name that a statement gives the component: `export default { name }`,
/// `export default defineComponent({ name })`, or a `defineOptions({ name })` on its
/// own.
pub open spec fn statement_name() -> spec_fn(JsonView) -> Option<Seq<char>> {
    |s: JsonView|
        {
            let d = s.at("declaration"@);
            let e = peeled(s.at("expression"@));
            if is_type(s, "ExportDefaultDeclaration"@) {
                if is_type(d, "ObjectExpression"@) {
                    property_text(d, "name"@)
                } else if is_type(d, "CallExpression"@) {
                    macro_name(d)
                } else {
                    None
                }
            } else if is_type(s, "ExpressionStatement"@) && is_type(e, "CallExpression"@) {
                macro_name(e)
            } else {
                None
            }
        }
}

fn name_from_statement(s: &Value) -> (r: Option<String>)
    ensures
        seqs::opt_view(r) == statement_name()(json::held(*s)),
{
    if is_node(s, "ExportDefaultDeclaration") {
        let d = json::field(s, "declaration");
        if is_node(d, "ObjectExpression") {
            string_property(d, "name")
        } else if is_node(d, "CallExpression") {
            name_from_call(d)
        } else {
            None
        }
    } else if is_node(s, "ExpressionStatement") {
        let e = peel(json::field(s, "expression"));
        if is_node(e, "CallExpression") {
            name_from_call(e)
        } else {
            None
        }
    } else {
        None
    }
}

/// The component name a Vue SFC declares explicitly, if any.
pub open spec fn component_name(program: JsonView) -> Option<Seq<char>> {
    seqs::first_some(query::items_of(program.at("body"@)), statement_name())
}

/// The component name a Vue SFC declares explicitly, if any.
pub fn detect_component_name(program: &Value) -> (r: Option<String>)
    ensures
        seqs::opt_view(r) == component_name(json::held(*program)),
{
    let items = match json::field(program, "body").as_array() {
        Some(items) => items,
        None => {
            return None;
        },
    };
    let ghost all = json::held_all(items@);
    let mut k: usize = 0;
    while k < items.len()
        invariant
            k <= items@.len(),
            all == json::held_all(items@),
            all == query::items_of(json::held(*program).at("body"@)),
            seqs::first_some(all, statement_name()) == seqs::first_from(all, k as int, statement_name()),
        decreases items@.len() - k,
    {
        assert(all[k as int] == json::held(items@[k as int]));
        let found = name_from_statement(&items[k]);
        if found.is_some() {
            return found;
        }
        k += 1;
    }
    None
}

/// The name a class decorator applies, e.g. `@Component({...})` -> `Component`,
/// `@Injectable()` -> `Injectable`.
pub open spec fn decoration(d: JsonView) -> Option<Seq<char>> {
    let e = peeled(d.at("expression"@));
    if is_type(e, "CallExpression"@) {
        reference_name(e.at("callee"@))
    } else {
        reference_name(e)
    }
}

/// The name a class decorator applies.
pub fn decorator_name(d: &Value) -> (r: Option<String>)
    ensures
        seqs::opt_view(r) == decoration(json::held(*d)),
{
    let e = peel(json::field(d, "expression"));
    if is_node(e, "CallExpression") {
        callee_name(json::field(e, "callee"))
    } else {
        callee_name(e)
    }
}

/// One of the decorators of a class makes it an Angular component.
pub open spec fn is_component(c: JsonView) -> bool {
    let ds = query::items_of(c.at("decorators"@));
    exists|i: int| 0 <= i < ds.len() && decoration(#[trigger] ds[i]) == Some("Component"@)
}

fn has_component_decorator(c: &Value) -> (r: bool)
    ensures
        r == is_component(json::held(*c)),
{
    let items = match json::field(c, "decorators").as_array() {
        Some(items) => items,
        None => {
            return false;
        },
    };
    let ghost ds = json::held_all(items@);
    let mut k: usize = 0;
    while k < items.len()
        invariant
            k <= items@.len(),
            ds == json::held_all(items@),
            ds == query::items_of(json::held(*c).at("decorators"@)),
            forall|i: int| 0 <= i < k ==> decoration(#[trigger] ds[i]) != Some("Component"@),
        decreases items@.len() - k,
    {
        assert(ds[k as int] == json::held(items@[k as int]));
        if let Some(n) = decorator_name(&items[k]) {
            if text::same(&n, "Component") {
                return true;
            }
        }
        k += 1;
    }
    false
}

/// The string option `key` of the decorator `@name({ key: '...' })`.
pub open spec fn decorator_option(name: Seq<char>, key: Seq<char>) -> spec_fn(JsonView) -> Option<Seq<char>> {
    |d: JsonView|
        {
            let e = peeled(d.at("expression"@));
            if is_type(e, "CallExpression"@) && reference_name(e.at("callee"@)) == Some(name) {
                match options_of(e) {
                    Some(o) => property_text(o, key),
                    None => None,
                }
            } else {
                None
            }
        }
}

/// The string option `key` that the decorators `@name({...})` give a class.
pub open spec fn class_option(c: JsonView, name: Seq<char>, key: Seq<char>) -> Option<Seq<char>> {
    seqs::first_some(query::items_of(c.at("decorators"@)), decorator_option(name, key))
}

/// The `selector: '...'` of an Angular component class.
pub open spec fn selector_of(c: JsonView) -> Option<Seq<char>> {
    class_option(c, "Component"@, "selector"@)
}

/// The `name: '...'` of an Angular pipe class.
pub open spec fn pipe_of(c: JsonView) -> Option<Seq<char>> {
    class_option(c, "Pipe"@, "name"@)
}

fn read_decorator(d: &Value, name: &str, key: &str) -> (r: Option<String>)
    ensures
        seqs::opt_view(r) == decorator_option(name@, key@)(json::held(*d)),
{
    let e = peel(json::field(d, "expression"));
    if !is_node(e, "CallExpression") {
        return None;
    }
    match callee_name(json::field(e, "callee")) {
        Some(n) => if !text::same(&n, name) {
            return None;
        },
        None => {
            return None;
        },
    }
    match first_options(e) {
        Some(o) => string_property(o, key),
        None => None,
    }
}

fn read_class_option(c: &Value, name: &str, key: &str) -> (r: Option<String>)
    ensures
        seqs::opt_view(r) == class_option(json::held(*c), name@, key@),
{
    let items = match json::field(c, "decorators").as_array() {
        Some(items) => items,
        None => {
            return None;
        },
    };
    let ghost all = json::held_all(items@);
    let ghost f = decorator_option(name@, key@);
    let mut k: usize = 0;
    while k < items.len()
        invariant
            k <= items@.len(),
            all == json::held_all(items@),
            all == query::items_of(json::held(*c).at("decorators"@)),
            f == decorator_option(name@, key@),
            seqs::first_some(all, f) == seqs::first_from(all, k as int, f),
        decreases items@.len() - k,
    {
        assert(all[k as int] == json::held(items@[k as int]));
        let found = read_decorator(&items[k], name, key);
        if found.is_some() {
            return found;
        }
        k += 1;
    }
    None
}

/// The `selector: '...'` of an Angular `@Component({...})` decorator, if present.
pub fn component_selector(c: &Value) -> (r: Option<String>)
    ensures
        seqs::opt_view(r) == selector_of(json::held(*c)),
{
    read_class_option(c, "Component", "selector")
}

// ---------------------------------------------------------------------------
// The state of the walk

/// Walker state: owned buffers plus the scope / class / binding stacks.
pub struct JsExt {
    pub rel: String,
    pub nodes: Vec<Node>,
    pub edges: Vec<RawEdge>,
    pub minted: Minter,
    pub scope: Vec<String>,
    pub classes: Vec<String>,
    pub bindings: Vec<Types>,
    /// The name of the method whose function comes next.
    pub pending: Option<String>,
}

/// What a [`JsExt`] says.
#[verifier::ext_equal]
pub struct JsView {
    pub rel: Seq<char>,
    pub nodes: Seq<NodeView>,
    pub edges: Seq<EdgeView>,
    pub taken: Set<Seq<char>>,
    pub scope: Seq<Seq<char>>,
    pub classes: Seq<Seq<char>>,
    pub bindings: Seq<Map<Seq<char>, Seq<char>>>,
    pub pending: Option<Seq<char>>,
}

impl View for JsExt {
    type V = JsView;

    open spec fn view(&self) -> JsView {
        JsView {
            rel: self.rel@,
            nodes: seqs::views(self.nodes@),
            edges: seqs::views(self.edges@),
            taken: self.minted@,
            scope: seqs::views(self.scope@),
            classes: seqs::views(self.classes@),
            bindings: seqs::views(self.bindings@),
            pending: seqs::opt_view(self.pending),
        }
    }
}

/// The offset that a node of the syntax tree gives.
pub open spec fn offset(j: JsonView, key: Seq<char>) -> u32 {
    match j.at(key).number() {
        Some(n) => if n <= u32::MAX {
            n as u32
        } else {
            0
        },
        None => 0,
    }
}

fn offset_at(v: &Value, key: &str) -> (r: u32)
    ensures
        r == offset(json::held(*v), key@),
{
    match json::field(v, key).as_u64() {
        Some(n) => if n <= u32::MAX as u64 {
            n as u32
        } else {
            0
        },
        None => 0,
    }
}

impl JsView {
    /// The id of the innermost scope: the file itself outside of all.
    pub open spec fn cur(self) -> Seq<char> {
        if self.scope.len() > 0 {
            self.scope.last()
        } else {
            self.rel
        }
    }

    /// The name of the innermost class.
    pub open spec fn class(self) -> Option<Seq<char>> {
        if self.classes.len() > 0 {
            Some(self.classes.last())
        } else {
            None
        }
    }

    /// The id of a symbol of the file.
    pub open spec fn symbol_id(self, name: Seq<char>) -> Seq<char> {
        self.rel + "#"@ + name
    }

    /// With one more edge.
    pub open spec fn with_edge(self, e: EdgeView) -> Self {
        JsView { edges: self.edges.push(e), ..self }
    }

    /// With a symbol, which the innermost scope contains. Where its id is taken, the
    /// node that took it stands for it.
    pub open spec fn with_symbol(
        self,
        id: Seq<char>,
        name: Seq<char>,
        kind: Seq<char>,
        start: u32,
        end: u32,
    ) -> Self {
        JsView {
            taken: self.taken.insert(id),
            nodes: if self.taken.contains(id) {
                self.nodes
            } else {
                self.nodes.push(NodeView { id, name, kind, path: self.rel, start, end })
            },
            edges: self.edges.push(model::contains_edge(self.cur(), id)),
            ..self
        }
    }

    /// With the pipe that the class `id` registers: the shared node of the pipe, and
    /// the edge that says so.
    pub open spec fn with_pipe(self, id: Seq<char>, name: Seq<char>) -> Self {
        let n = model::join_node("pipe:"@, "pipe"@, self.rel, name);
        JsView {
            taken: self.taken.insert(n.id),
            nodes: if self.taken.contains(n.id) {
                self.nodes
            } else {
                self.nodes.push(n)
            },
            edges: self.edges.push(model::named_edge(id, "defines-pipe"@, name)),
            ..self
        }
    }

    /// With the class of a variable of the innermost scope.
    pub open spec fn with_binding(self, var: Seq<char>, class: Seq<char>) -> Self {
        if self.bindings.len() == 0 {
            self
        } else {
            JsView {
                bindings: extract::popped(self.bindings).push(
                    self.bindings.last().insert(var, class),
                ),
                ..self
            }
        }
    }

    /// Inside of a class.
    pub open spec fn in_class(self, id: Seq<char>, name: Seq<char>) -> Self {
        JsView {
            scope: self.scope.push(id),
            classes: self.classes.push(name),
            bindings: self.bindings.push(Map::empty()),
            ..self
        }
    }

    /// Out of a class again.
    pub open spec fn out_of_class(self) -> Self {
        JsView {
            scope: extract::popped(self.scope),
            classes: extract::popped(self.classes),
            bindings: extract::popped(self.bindings),
            ..self
        }
    }

    /// Inside of a function whose parameters have the given classes.
    pub open spec fn in_function(self, id: Seq<char>, params: Map<Seq<char>, Seq<char>>) -> Self {
        JsView { scope: self.scope.push(id), bindings: self.bindings.push(params), ..self }
    }

    /// Out of a function again.
    pub open spec fn out_of_function(self) -> Self {
        JsView {
            scope: extract::popped(self.scope),
            bindings: extract::popped(self.bindings),
            ..self
        }
    }
}

/// The state before the walk over a file.
pub open spec fn started(rel: Seq<char>, base: Seq<char>) -> JsView {
    JsView {
        rel,
        nodes: seq![model::file_node(rel, base)],
        edges: Seq::empty(),
        taken: Set::empty().insert(rel),
        scope: seq![rel],
        classes: Seq::empty(),
        bindings: seq![Map::empty()],
        pending: None,
    }
}

impl JsExt {
    /// The state before the walk over a file.
    pub fn start(rel: &str, base: &str) -> (r: Self)
        ensures
            r@ == started(rel@, base@),
    {
        let mut minted = Minter::new();
        minted.take(rel.to_string());
        let mut r = JsExt {
            rel: rel.to_string(),
            nodes: Vec::new(),
            edges: Vec::new(),
            minted,
            scope: Vec::new(),
            classes: Vec::new(),
            bindings: Vec::new(),
            pending: None,
        };
        r.nodes.push(model::make_file(rel, base));
        r.scope.push(rel.to_string());
        r.bindings.push(Types::new());
        assert(r@.nodes =~= seq![model::file_node(rel@, base@)]);
        assert(r@.scope =~= seq![rel@]);
        assert(r@.bindings =~= seq![Map::<Seq<char>, Seq<char>>::empty()]);
        assert(r@ =~= started(rel@, base@));
        r
    }

    fn cur(&self) -> (r: String)
        ensures
            r@ == self@.cur(),
    {
        let n = self.scope.len();
        assert(self@.scope.len() == n);
        if n > 0 {
            assert(self@.scope[n - 1] == self.scope@[n - 1]@);
            self.scope[n - 1].clone()
        } else {
            self.rel.clone()
        }
    }

    fn class(&self) -> (r: Option<String>)
        ensures
            seqs::opt_view(r) == self@.class(),
    {
        let n = self.classes.len();
        assert(self@.classes.len() == n);
        if n > 0 {
            assert(self@.classes[n - 1] == self.classes@[n - 1]@);
            Some(self.classes[n - 1].clone())
        } else {
            None
        }
    }

    fn symbol_id(&self, name: &str) -> (r: String)
        ensures
            r@ == self@.symbol_id(name@),
    {
        join3(&self.rel, "#", name)
    }

    fn push_edge(&mut self, e: RawEdge)
        ensures
            final(self)@ == old(self)@.with_edge(e@),
    {
        self.edges.push(e);
    }

    fn mint(&mut self, id: &str, name: &str, kind: &'static str, start: u32, end: u32)
        ensures
            final(self)@ == old(self)@.with_symbol(id@, name@, kind@, start, end),
    {
        let parent = self.cur();
        if self.minted.take(id.to_string()) {
            self.nodes.push(
                Node {
                    id: id.to_string(),
                    name: name.to_string(),
                    kind,
                    path: self.rel.clone(),
                    start,
                    end,
                },
            );
        }
        self.edges.push(RawEdge::contains(parent, id.to_string()));
    }

    fn bind(&mut self, var: String, class: String)
        ensures
            final(self)@ == old(self)@.with_binding(var@, class@),
    {
        let ghost before = self@;
        assert(self@.bindings.len() == self.bindings@.len());
        if let Some(frame) = self.bindings.pop() {
            let mut frame = frame;
            assert(frame@ == before.bindings.last());
            frame.insert(var, class);
            assert(seqs::views(self.bindings@) =~= before.bindings.drop_last());
            self.bindings.push(frame);
        }
    }

    fn open_class(&mut self, id: String, name: String)
        ensures
            final(self)@ == old(self)@.in_class(id@, name@),
    {
        self.scope.push(id);
        self.classes.push(name);
        self.bindings.push(Types::new());
    }

    fn close_class(&mut self)
        ensures
            final(self)@ == old(self)@.out_of_class(),
    {
        let ghost before = self@;
        assert(self@.scope.len() == self.scope@.len());
        assert(self@.classes.len() == self.classes@.len());
        assert(self@.bindings.len() == self.bindings@.len());
        self.scope.pop();
        self.classes.pop();
        self.bindings.pop();
        assert(self@.scope =~= extract::popped(before.scope));
        assert(self@.classes =~= extract::popped(before.classes));
        assert(self@.bindings =~= extract::popped(before.bindings));
    }

    fn open_function(&mut self, id: String, params: Types)
        ensures
            final(self)@ == old(self)@.in_function(id@, params@),
    {
        self.scope.push(id);
        self.bindings.push(params);
    }

    fn close_function(&mut self)
        ensures
            final(self)@ == old(self)@.out_of_function(),
    {
        let ghost before = self@;
        assert(self@.scope.len() == self.scope@.len());
        assert(self@.bindings.len() == self.bindings@.len());
        self.scope.pop();
        self.bindings.pop();
        assert(self@.scope =~= extract::popped(before.scope));
        assert(self@.bindings =~= extract::popped(before.bindings));
    }
}

// ---------------------------------------------------------------------------
// Entering the constructs

/// The name that a declaration declares, if it declares one.
pub open spec fn declared(j: JsonView) -> Option<Seq<char>> {
    name_of(j.at("id"@))
}

/// An edge from `id` to each of the types that a clause lists.
pub open spec fn clause_edge(id: Seq<char>, relation: Seq<char>) -> spec_fn(JsonView) -> Seq<EdgeView> {
    |t: JsonView|
        match type_reference(t.at("expression"@)) {
            Some(n) => seq![model::named_edge(id, relation, n)],
            None => Seq::empty(),
        }
}

/// An edge from `id` to each of the types that a clause lists.
pub open spec fn clause_edges(id: Seq<char>, relation: Seq<char>, clause: JsonView) -> Seq<EdgeView> {
    seqs::each(query::items_of(clause), clause_edge(id, relation))
}

/// A class: its node (an Angular component has one under its selector, too), the
/// pipe that it registers, and its heritage.
pub open spec fn class_entered(j: JsonView, c: JsView) -> JsView {
    match declared(j) {
        Some(name) => {
            let id = c.symbol_id(name);
            let start = offset(j, "start"@);
            let end = offset(j, "end"@);
            let kind = if is_component(j) { "component"@ } else { "class"@ };
            let own = c.with_symbol(id, name, kind, start, end);
            let told = match selector_of(j) {
                Some(s) => if is_component(j) {
                    own.with_symbol(c.symbol_id(s), s, "component"@, start, end)
                } else {
                    own
                },
                None => own,
            };
            let piped = match pipe_of(j) {
                Some(p) => told.with_pipe(id, p),
                None => told,
            };
            let based = match reference_name(j.at("superClass"@)) {
                Some(b) => piped.with_edge(model::named_edge(id, "extends"@, b)),
                None => piped,
            };
            (JsView {
                edges: based.edges + clause_edges(id, "implements"@, j.at("implements"@)),
                ..based
            }).in_class(id, name)
        },
        None => c,
    }
}

/// A parameter without its visibility and its default.
pub open spec fn bare_parameter(p: JsonView) -> JsonView {
    let q = if is_type(p, "TSParameterProperty"@) {
        p.at("parameter"@)
    } else {
        p
    };
    if is_type(q, "AssignmentPattern"@) {
        q.at("left"@)
    } else {
        q
    }
}

/// The classes of the first `k` parameters that are plain typed names.
pub open spec fn parameter_types(ps: Seq<JsonView>, k: int) -> Map<Seq<char>, Seq<char>>
    decreases k,
{
    if k <= 0 {
        Map::empty()
    } else {
        let before = parameter_types(ps, k - 1);
        let p = bare_parameter(ps[k - 1]);
        match (name_of(p), annotated(p.at("typeAnnotation"@))) {
            (Some(n), Some(class)) => if is_type(p, "Identifier"@) {
                before.insert(n, class)
            } else {
                before
            },
            _ => before,
        }
    }
}

/// The classes of the parameters of a function.
pub open spec fn typed_parameters(f: JsonView) -> Map<Seq<char>, Seq<char>> {
    let ps = query::items_of(f.at("params"@));
    parameter_types(ps, ps.len() as int)
}

/// A function: a method under its class, or a function with a name; one without a
/// name is no scope.
pub open spec fn function_entered(j: JsonView, c: JsView) -> JsView {
    let start = offset(j, "start"@);
    let end = offset(j, "end"@);
    let free = JsView { pending: None, ..c };
    match c.pending {
        Some(m) => {
            let class = match c.class() {
                Some(n) => n,
                None => Seq::empty(),
            };
            let id = c.symbol_id(class + "."@ + m);
            free.with_symbol(id, m, "method"@, start, end).in_function(id, typed_parameters(j))
        },
        None => match declared(j) {
            Some(name) => {
                let id = c.symbol_id(name);
                free.with_symbol(id, name, "function"@, start, end).in_function(id, typed_parameters(j))
            },
            None => c,
        },
    }
}

/// An interface: its node and what it extends.
pub open spec fn interface_entered(j: JsonView, c: JsView) -> JsView {
    match declared(j) {
        Some(name) => {
            let id = c.symbol_id(name);
            let own = c.with_symbol(id, name, "interface"@, offset(j, "start"@), offset(j, "end"@));
            JsView { edges: own.edges + clause_edges(id, "extends"@, j.at("extends"@)), ..own }
        },
        None => c,
    }
}

/// An enum: its node.
pub open spec fn enum_entered(j: JsonView, c: JsView) -> JsView {
    match declared(j) {
        Some(name) => c.with_symbol(
            c.symbol_id(name),
            name,
            "enum"@,
            offset(j, "start"@),
            offset(j, "end"@),
        ),
        None => c,
    }
}

/// An import: an edge from the file to the specifier.
pub open spec fn import_entered(j: JsonView, c: JsView) -> JsView {
    match j.at("source"@).at("value"@).text() {
        Some(s) => c.with_edge(model::named_edge(c.rel, "imports"@, s)),
        None => c,
    }
}

/// A declared variable: its class, where it is known.
pub open spec fn declarator_entered(j: JsonView, c: JsView) -> JsView {
    match (name_of(j.at("id"@)), inferred(j)) {
        (Some(n), Some(class)) => if is_type(j.at("id"@), "Identifier"@) {
            c.with_binding(n, class)
        } else {
            c
        },
        _ => c,
    }
}

/// The class of the object that a member is called on.
pub open spec fn receiver(o: JsonView, c: JsView) -> Option<Seq<char>> {
    let j = peeled(o);
    if is_type(j, "ThisExpression"@) {
        c.class()
    } else if is_type(j, "Identifier"@) {
        match name_of(j) {
            Some(n) => types::innermost(c.bindings, c.bindings.len() as int, n),
            None => None,
        }
    } else {
        None
    }
}

/// A call: of a name, or of a member of an object whose class may be known.
pub open spec fn call_entered(j: JsonView, c: JsView) -> JsView {
    let callee = peeled(j.at("callee"@));
    if is_type(callee, "Identifier"@) {
        match name_of(callee) {
            Some(n) => c.with_edge(model::call_edge(c.cur(), n, false, None)),
            None => c,
        }
    } else if is_static_member(callee) {
        match name_of(callee.at("property"@)) {
            Some(n) => c.with_edge(
                model::call_edge(c.cur(), n, true, receiver(callee.at("object"@), c)),
            ),
            None => c,
        }
    } else {
        c
    }
}

/// A node of the syntax tree is a class.
pub open spec fn is_class(j: JsonView) -> bool {
    is_type(j, "ClassDeclaration"@) || is_type(j, "ClassExpression"@)
}

/// A node of the syntax tree is a function.
pub open spec fn is_function(j: JsonView) -> bool {
    is_type(j, "FunctionDeclaration"@) || is_type(j, "FunctionExpression"@) || is_type(
        j,
        "TSDeclareFunction"@,
    ) || is_type(j, "TSEmptyBodyFunctionExpression"@)
}

/// A node of the syntax tree is a method.
pub open spec fn is_method(j: JsonView) -> bool {
    is_type(j, "MethodDefinition"@) || is_type(j, "TSAbstractMethodDefinition"@)
}

/// The state when a node is entered.
pub open spec fn entered(j: JsonView, c: JsView) -> JsView {
    if is_class(j) {
        class_entered(j, c)
    } else if is_function(j) {
        function_entered(j, c)
    } else if is_method(j) {
        JsView { pending: method_name(j), ..c }
    } else if is_type(j, "TSInterfaceDeclaration"@) {
        interface_entered(j, c)
    } else if is_type(j, "TSEnumDeclaration"@) {
        enum_entered(j, c)
    } else if is_type(j, "ImportDeclaration"@) {
        import_entered(j, c)
    } else if is_type(j, "VariableDeclarator"@) {
        declarator_entered(j, c)
    } else if is_type(j, "CallExpression"@) {
        call_entered(j, c)
    } else {
        c
    }
}

/// The state when a node is left that was entered in the state `before`.
pub open spec fn left(j: JsonView, before: JsView, c: JsView) -> JsView {
    if is_class(j) && declared(j) is Some {
        c.out_of_class()
    } else if is_function(j) && (before.pending is Some || declared(j) is Some) {
        c.out_of_function()
    } else {
        c
    }
}

/// The number of elements or members of a value.
pub open spec fn breadth(j: JsonView) -> int {
    match j {
        JsonView::Arr(s) => s.len() as int,
        JsonView::Obj(s) => s.len() as int,
        _ => 0,
    }
}

/// The state after the walk over a tree: a node is entered, its members are walked
/// in their order, and it is left.
pub open spec fn walked(j: JsonView, c: JsView) -> JsView
    decreases j, breadth(j) + 1,
{
    match j {
        JsonView::Arr(s) => walked_items(j, s, s.len() as int, c),
        JsonView::Obj(s) => left(j, c, walked_members(j, s, s.len() as int, entered(j, c))),
        _ => c,
    }
}

/// The state after the walk over the first `k` elements of an array.
pub open spec fn walked_items(j: JsonView, s: Seq<JsonView>, k: int, c: JsView) -> JsView
    decreases j, k,
{
    if k <= 0 || k > s.len() || j != JsonView::Arr(s) {
        c
    } else {
        proof {
            assert(decreases_to!(j => j->Arr_0));
            assert(decreases_to!(s => s[k - 1]));
        }
        walked(s[k - 1], walked_items(j, s, k - 1, c))
    }
}

/// The state after the walk over the first `k` members of a node.
pub open spec fn walked_members(j: JsonView, s: Seq<(Seq<char>, JsonView)>, k: int, c: JsView) -> JsView
    decreases j, k,
{
    if k <= 0 || k > s.len() || j != JsonView::Obj(s) {
        c
    } else {
        proof {
            assert(decreases_to!(j => j->Obj_0));
            assert(decreases_to!(s => s[k - 1]));
            assert(decreases_to!(s[k - 1] => s[k - 1].1));
        }
        walked(s[k - 1].1, walked_members(j, s, k - 1, c))
    }
}

// ---------------------------------------------------------------------------
// The walk

fn clause_types(id: &str, relation: &'static str, clause: &Value) -> (r: Vec<RawEdge>)
    ensures
        seqs::views(r@) == clause_edges(id@, relation@, json::held(*clause)),
{
    let mut out: Vec<RawEdge> = Vec::new();
    let items = match clause.as_array() {
        Some(items) => items,
        None => {
            return out;
        },
    };
    let ghost all = json::held_all(items@);
    let ghost f = clause_edge(id@, relation@);
    let mut k: usize = 0;
    while k < items.len()
        invariant
            k <= items@.len(),
            all == json::held_all(items@),
            f == clause_edge(id@, relation@),
            seqs::views(out@) + seqs::each_from(all, k as int, f) == seqs::each(all, f),
        decreases items@.len() - k,
    {
        assert(all[k as int] == json::held(items@[k as int]));
        if let Some(n) = named_type(json::field(&items[k], "expression")) {
            out.push(RawEdge::named(id.to_string(), relation, n));
        }
        k += 1;
    }
    out
}

fn inner_parameter<'a>(p: &'a Value) -> (r: &'a Value)
    ensures
        json::held(*r) == bare_parameter(json::held(*p)),
{
    let q = if is_node(p, "TSParameterProperty") {
        json::field(p, "parameter")
    } else {
        p
    };
    if is_node(q, "AssignmentPattern") {
        json::field(q, "left")
    } else {
        q
    }
}

/// Seed a binding frame with typed parameters (`(x: Foo)` -> `x: Foo`).
fn seed_params(f: &Value) -> (r: Types)
    ensures
        r@ == typed_parameters(json::held(*f)),
{
    let mut out = Types::new();
    let items = match json::field(f, "params").as_array() {
        Some(items) => items,
        None => {
            return out;
        },
    };
    let ghost all = json::held_all(items@);
    let mut k: usize = 0;
    while k < items.len()
        invariant
            k <= items@.len(),
            all == json::held_all(items@),
            out@ == parameter_types(all, k as int),
        decreases items@.len() - k,
    {
        assert(all[k as int] == json::held(items@[k as int]));
        let p = inner_parameter(&items[k]);
        if is_node(p, "Identifier") {
            if let Some(n) = name(p) {
                if let Some(class) = annotation_type(json::field(p, "typeAnnotation")) {
                    out.insert(n, class);
                }
            }
        }
        k += 1;
    }
    out
}

fn declared_name(v: &Value) -> (r: Option<String>)
    ensures
        seqs::opt_view(r) == declared(json::held(*v)),
{
    name(json::field(v, "id"))
}

impl JsExt {
    fn register_pipe(&mut self, id: &str, name: &str)
        ensures
            final(self)@ == old(self)@.with_pipe(id@, name@),
    {
        let node = model::make_join("pipe:", "pipe", &self.rel, name);
        if self.minted.take(node.id.clone()) {
            self.nodes.push(node);
        }
        self.edges.push(RawEdge::named(id.to_string(), "defines-pipe", name.to_string()));
    }

    fn enter_class(&mut self, v: &Value)
        ensures
            final(self)@ == class_entered(json::held(*v), old(self)@),
    {
        let name = match declared_name(v) {
            Some(name) => name,
            None => {
                return;
            },
        };
        let id = self.symbol_id(&name);
        let start = offset_at(v, "start");
        let end = offset_at(v, "end");
        // Angular: a class decorated with `@Component({...})` is a component, not
        // a plain class. Emit it as `component` and, when the decorator carries a
        // `selector: '...'`, an extra `component` node named by the selector so
        // `find app-foo` locates it too.
        let decorated = has_component_decorator(v);
        let kind: &'static str = if decorated {
            "component"
        } else {
            "class"
        };
        self.mint(&id, &name, kind, start, end);
        if decorated {
            if let Some(selector) = component_selector(v) {
                let other = self.symbol_id(&selector);
                self.mint(&other, &selector, "component", start, end);
            }
        }
        // Angular: a class decorated with `@Pipe({ name: '...' })` registers a pipe,
        // which a template's `| name` use resolves to.
        if let Some(pipe) = read_class_option(v, "Pipe", "name") {
            self.register_pipe(&id, &pipe);
        }
        if let Some(base) = callee_name(json::field(v, "superClass")) {
            self.push_edge(RawEdge::named(id.clone(), "extends", base));
        }
        let mut interfaces = clause_types(&id, "implements", json::field(v, "implements"));
        self.edges.append(&mut interfaces);
        self.open_class(id, name);
    }

    fn enter_function(&mut self, v: &Value)
        ensures
            final(self)@ == function_entered(json::held(*v), old(self)@),
    {
        let ghost before = self@;
        let start = offset_at(v, "start");
        let end = offset_at(v, "end");
        let pending = self.pending.take();
        assert(self@ =~= (JsView { pending: None, ..before }));
        if let Some(method) = pending {
            let class = match self.class() {
                Some(n) => n,
                None => String::new(),
            };
            let member = join3(&class, ".", &method);
            let id = self.symbol_id(&member);
            self.mint(&id, &method, "method", start, end);
            self.open_function(id, seed_params(v));
        } else if let Some(name) = declared_name(v) {
            let id = self.symbol_id(&name);
            self.mint(&id, &name, "function", start, end);
            self.open_function(id, seed_params(v));
        }
    }

    fn enter_interface(&mut self, v: &Value)
        ensures
            final(self)@ == interface_entered(json::held(*v), old(self)@),
    {
        if let Some(name) = declared_name(v) {
            let id = self.symbol_id(&name);
            self.mint(&id, &name, "interface", offset_at(v, "start"), offset_at(v, "end"));
            let mut bases = clause_types(&id, "extends", json::field(v, "extends"));
            self.edges.append(&mut bases);
        }
    }

    fn enter_enum(&mut self, v: &Value)
        ensures
            final(self)@ == enum_entered(json::held(*v), old(self)@),
    {
        if let Some(name) = declared_name(v) {
            let id = self.symbol_id(&name);
            self.mint(&id, &name, "enum", offset_at(v, "start"), offset_at(v, "end"));
        }
    }

    fn record_import(&mut self, v: &Value)
        ensures
            final(self)@ == import_entered(json::held(*v), old(self)@),
    {
        if let Some(s) = json::field(json::field(v, "source"), "value").as_str() {
            let rel = self.rel.clone();
            self.push_edge(RawEdge::named(rel, "imports", s.to_string()));
        }
    }

    fn capture_declarator(&mut self, v: &Value)
        ensures
            final(self)@ == declarator_entered(json::held(*v), old(self)@),
    {
        let id = json::field(v, "id");
        if is_node(id, "Identifier") {
            if let Some(n) = name(id) {
                if let Some(class) = declarator_type(v) {
                    self.bind(n, class);
                }
            }
        }
    }

    fn recv_type(&self, object: &Value) -> (r: Option<String>)
        ensures
            seqs::opt_view(r) == receiver(json::held(*object), self@),
    {
        let v = peel(object);
        if is_node(v, "ThisExpression") {
            self.class()
        } else if is_node(v, "Identifier") {
            match name(v) {
                Some(n) => types::look_up(&self.bindings, &n),
                None => None,
            }
        } else {
            None
        }
    }

    fn record_call(&mut self, v: &Value)
        ensures
            final(self)@ == call_entered(json::held(*v), old(self)@),
    {
        let callee = peel(json::field(v, "callee"));
        if is_node(callee, "Identifier") {
            if let Some(n) = name(callee) {
                let source = self.cur();
                self.push_edge(RawEdge::call(source, n, false, None));
            }
        } else if is_dot_access(callee) {
            if let Some(n) = name(json::field(callee, "property")) {
                let recv = self.recv_type(json::field(callee, "object"));
                let source = self.cur();
                self.push_edge(RawEdge::call(source, n, true, recv));
            }
        }
    }

    fn enter(&mut self, v: &Value)
        ensures
            final(self)@ == entered(json::held(*v), old(self)@),
    {
        let ghost before = self@;
        if is_node(v, "ClassDeclaration") || is_node(v, "ClassExpression") {
            self.enter_class(v);
        } else if is_function_node(v) {
            self.enter_function(v);
        } else if is_node(v, "MethodDefinition") || is_node(v, "TSAbstractMethodDefinition") {
            self.pending = property_key(v);
            assert(self@ =~= (JsView { pending: method_name(json::held(*v)), ..before }));
        } else if is_node(v, "TSInterfaceDeclaration") {
            self.enter_interface(v);
        } else if is_node(v, "TSEnumDeclaration") {
            self.enter_enum(v);
        } else if is_node(v, "ImportDeclaration") {
            self.record_import(v);
        } else if is_node(v, "VariableDeclarator") {
            self.capture_declarator(v);
        } else if is_node(v, "CallExpression") {
            self.record_call(v);
        }
    }
}

fn is_function_node(v: &Value) -> (r: bool)
    ensures
        r == is_function(json::held(*v)),
{
    is_node(v, "FunctionDeclaration") || is_node(v, "FunctionExpression") || is_node(
        v,
        "TSDeclareFunction",
    ) || is_node(v, "TSEmptyBodyFunctionExpression")
}

/// Walk a syntax tree, filling `ext`.
pub fn visit(v: &Value, ext: &mut JsExt)
    ensures
        final(ext)@ == walked(json::held(*v), old(ext)@),
    decreases json::held(*v),
{
    let ghost j = json::held(*v);
    let ghost before = ext@;
    if let Some(items) = v.as_array() {
        let ghost s = json::held_all(items@);
        let mut k: usize = 0;
        while k < items.len()
            invariant
                k <= items@.len(),
                s == json::held_all(items@),
                j == JsonView::Arr(s),
                j == json::held(*v),
                ext@ == walked_items(j, s, k as int, before),
            decreases items@.len() - k,
        {
            assert(s[k as int] == json::held(items@[k as int]));
            proof {
                assert(decreases_to!(j => j->Arr_0));
                assert(decreases_to!(s => s[k as int]));
            }
            visit(&items[k], ext);
            k += 1;
        }
        return;
    }
    if let Some(members) = json::members(v) {
        let ghost s = json::held_entries(members@);
        let is_class = is_node(v, "ClassDeclaration") || is_node(v, "ClassExpression");
        let is_named = declared_name(v).is_some();
        let opens = is_function_node(v) && (ext.pending.is_some() || is_named);
        ext.enter(v);
        let ghost inside = ext@;
        let mut k: usize = 0;
        while k < members.len()
            invariant
                k <= members@.len(),
                s == json::held_entries(members@),
                j == JsonView::Obj(s),
                j == json::held(*v),
                ext@ == walked_members(j, s, k as int, inside),
            decreases members@.len() - k,
        {
            assert(s[k as int] == (members@[k as int].0@, json::held(*members@[k as int].1)));
            proof {
                assert(decreases_to!(j => j->Obj_0));
                assert(decreases_to!(s => s[k as int]));
                assert(decreases_to!(s[k as int] => s[k as int].1));
            }
            let (_, member) = members[k];
            visit(member, ext);
            k += 1;
        }
        if is_class && is_named {
            ext.close_class();
        } else if opens {
            ext.close_function();
        }
    }
}

// ---------------------------------------------------------------------------
// The file

/// What a JS/TS source with the given syntax tree holds.
pub open spec fn extracted_from(rel: Seq<char>, base: Seq<char>, code: Seq<char>, tree: JsonView) -> FoundView {
    let end = walked(tree, started(rel, base));
    FoundView { nodes: end.nodes, edges: end.edges + lang::lang_edges(rel, code) }
}

/// What a JS/TS source holds.
pub open spec fn extracted(rel: Seq<char>, base: Seq<char>, code: Seq<char>, ext: Seq<char>) -> FoundView {
    extracted_from(rel, base, code, js_tree(code, ext))
}

/// The nodes + raw edges of one JS/TS source, given its syntax tree.
pub fn extract_tree(rel: &str, base: &str, code: &str, tree: Option<&Value>) -> (r: (
    Vec<Node>,
    Vec<RawEdge>,
))
    ensures
        seqs::views(r.0@) == extracted_from(rel@, base@, code@, held_or_null(tree)).nodes,
        seqs::views(r.1@) == extracted_from(rel@, base@, code@, held_or_null(tree)).edges,
{
    let mut ext = JsExt::start(rel, base);
    if let Some(tree) = tree {
        visit(tree, &mut ext);
    }
    let mut edges = ext.edges;
    let mut keys = lang::scan(rel, code);
    edges.append(&mut keys);
    (ext.nodes, edges)
}

/// What a value that may be missing holds.
pub open spec fn held_or_null(v: Option<&Value>) -> JsonView {
    match v {
        Some(v) => json::held(*v),
        None => JsonView::Null,
    }
}

fn parse(code: &str, ext: &str) -> (r: Option<Value>)
    ensures
        js_tree(code@, ext@) == (match r {
            Some(v) => json::held(v),
            None => JsonView::Null,
        }),
{
    json::parse_nested(&mend(&parse_js(code, ext)))
}

/// Parse one JS/TS source and return its nodes + raw edges. `rel` is the
/// repo-relative path, `base` the file name, and `ext` the extension that says
/// what the source is written in.
pub fn extract(rel: &str, base: &str, code: &str, ext: &str) -> (r: (Vec<Node>, Vec<RawEdge>))
    ensures
        seqs::views(r.0@) == extracted(rel@, base@, code@, ext@).nodes,
        seqs::views(r.1@) == extracted(rel@, base@, code@, ext@).edges,
{
    let tree = parse(code, ext);
    extract_tree(rel, base, code, tree.as_ref())
}

/// The length of a text in bytes, as an offset.
pub open spec fn byte_size(s: Seq<char>) -> u32 {
    let n = utf8::encode_utf8(s).len();
    if n <= u32::MAX {
        n as u32
    } else {
        u32::MAX
    }
}

/// What a Vue component with the given syntax tree of its script holds: a
/// `component` node that contains the symbols of the script.
pub open spec fn vue_extracted_from(
    rel: Seq<char>,
    base: Seq<char>,
    code: Seq<char>,
    tree: JsonView,
) -> FoundView {
    let name = match component_name(tree) {
        Some(n) => n,
        None => stem(base),
    };
    let start = started(rel, base);
    let id = start.symbol_id(name);
    let inside = start.with_symbol(id, name, "component"@, 0, byte_size(scripts_from(code, 0)));
    let end = walked(tree, JsView { scope: inside.scope.push(id), ..inside });
    FoundView { nodes: end.nodes, edges: end.edges + lang::lang_edges(rel, code) }
}

/// What a Vue component holds.
pub open spec fn vue_extracted(rel: Seq<char>, base: Seq<char>, code: Seq<char>) -> FoundView {
    vue_extracted_from(rel, base, code, js_tree(scripts_from(code, 0), "tsx"@))
}

/// The nodes + raw edges of a Vue SFC, given the syntax tree of its script.
pub fn extract_vue_tree(rel: &str, base: &str, code: &str, tree: Option<&Value>) -> (r: (
    Vec<Node>,
    Vec<RawEdge>,
))
    ensures
        seqs::views(r.0@) == vue_extracted_from(rel@, base@, code@, held_or_null(tree)).nodes,
        seqs::views(r.1@) == vue_extracted_from(rel@, base@, code@, held_or_null(tree)).edges,
{
    let script = vue_script(code);
    let size = script.as_str().as_bytes().len();
    let end: u32 = if size <= u32::MAX as usize {
        size as u32
    } else {
        u32::MAX
    };
    let declared = match tree {
        Some(tree) => detect_component_name(tree),
        None => {
            reveal_with_fuel(seqs::first_from, 2);
            assert(component_name(JsonView::Null) is None);
            None
        },
    };
    let name = match declared {
        Some(name) => name,
        None => component_stem(base),
    };
    let mut ext = JsExt::start(rel, base);
    let id = ext.symbol_id(&name);
    ext.mint(&id, &name, "component", 0, end);
    ext.scope.push(id);
    if let Some(tree) = tree {
        visit(tree, &mut ext);
    }
    let mut edges = ext.edges;
    // The FULL SFC (not just the extracted <script>), so template `$t(...)`
    // usages are captured too.
    let mut keys = lang::scan(rel, code);
    edges.append(&mut keys);
    (ext.nodes, edges)
}

/// Parse a Vue SFC: emit a `component` node (named by `defineOptions` /
/// `defineComponent` / `export default { name }`, else the file stem) that
/// contains the `<script>` setup symbols, then extract the script like a module.
pub fn extract_vue(rel: &str, base: &str, code: &str) -> (r: (Vec<Node>, Vec<RawEdge>))
    ensures
        seqs::views(r.0@) == vue_extracted(rel@, base@, code@).nodes,
        seqs::views(r.1@) == vue_extracted(rel@, base@, code@).edges,
{
    let tree = parse(&vue_script(code), "tsx");
    extract_vue_tree(rel, base, code, tree.as_ref())
}

// ---------------------------------------------------------------------------
// Laws

/// What holds of the state at every point of a walk: no two nodes carry the same
/// id; the open scopes are nodes; every edge starts at a node, and a `contains` edge
/// ends at one; and every symbol is contained in a scope (a pipe is no symbol of the
/// file, but shared with those that use it).
pub open spec fn is_sound(c: JsView) -> bool {
    &&& model::is_id(c.nodes, c.rel)
    &&& forall|x: Seq<char>| #[trigger] c.taken.contains(x) <==> model::is_id(c.nodes, x)
    &&& model::ids_are_distinct(c.nodes)
    &&& forall|k: int| 0 <= k < c.scope.len() ==> model::is_id(c.nodes, #[trigger] c.scope[k])
    &&& forall|k: int| 0 <= k < c.edges.len() ==> model::is_id(c.nodes, (#[trigger] c.edges[k]).source)
    &&& forall|k: int|
        0 <= k < c.edges.len() && (#[trigger] c.edges[k]).target_id is Some ==> model::is_id(
            c.nodes,
            c.edges[k].target_id->0,
        )
    &&& forall|i: int|
        0 <= i < c.nodes.len() && is_symbol(#[trigger] c.nodes[i]) ==> extract::is_contained(
            c.edges,
            c.nodes[i].id,
        )
}

/// The node is a symbol of the file: neither the file itself nor a pipe.
pub open spec fn is_symbol(n: NodeView) -> bool {
    n.kind != "file"@ && n.kind != "pipe"@
}

proof fn lemma_more_edges(c: JsView, es: Seq<EdgeView>)
    requires
        is_sound(c),
        forall|k: int| 0 <= k < es.len() ==> extract::starts_in(c.nodes, #[trigger] es[k]),
    ensures
        is_sound(JsView { edges: c.edges + es, ..c }),
{
    let d = JsView { edges: c.edges + es, ..c };
    extract::lemma_containment_grows(c.edges, es);
    assert forall|k: int| 0 <= k < d.edges.len() implies model::is_id(d.nodes, (#[trigger] d.edges[k]).source) && (
    d.edges[k].target_id is Some ==> model::is_id(d.nodes, d.edges[k].target_id->0)) by {
        if k < c.edges.len() {
            assert(d.edges[k] == c.edges[k]);
        } else {
            assert(d.edges[k] == es[k - c.edges.len()]);
            assert(extract::starts_in(c.nodes, es[k - c.edges.len()]));
        }
    }
}

proof fn lemma_more_edge(c: JsView, e: EdgeView)
    requires
        is_sound(c),
        extract::starts_in(c.nodes, e),
    ensures
        is_sound(c.with_edge(e)),
{
    lemma_more_edges(c, seq![e]);
    assert(c.edges + seq![e] =~= c.edges.push(e));
}

proof fn lemma_cur(c: JsView)
    requires
        is_sound(c),
    ensures
        model::is_id(c.nodes, c.cur()),
{
    if c.scope.len() > 0 {
        assert(c.cur() == c.scope[c.scope.len() - 1]);
    }
}

proof fn lemma_symbol(c: JsView, id: Seq<char>, name: Seq<char>, kind: Seq<char>, start: u32, end: u32)
    requires
        is_sound(c),
    ensures
        is_sound(c.with_symbol(id, name, kind, start, end)),
        model::is_id(c.with_symbol(id, name, kind, start, end).nodes, id),
        forall|x: Seq<char>| #[trigger]
            model::is_id(c.nodes, x) ==> model::is_id(c.with_symbol(id, name, kind, start, end).nodes, x),
{
    let n = NodeView { id, name, kind, path: c.rel, start, end };
    let e = model::contains_edge(c.cur(), id);
    let d = c.with_symbol(id, name, kind, start, end);
    lemma_cur(c);
    model::lemma_ids_grow(c.nodes, n);
    extract::lemma_containment_grows(c.edges, seq![e]);
    assert(c.edges + seq![e] =~= d.edges);
    assert(d.edges[c.edges.len() as int] == e);
    assert(extract::is_contained(d.edges, id));
    assert(c.taken.contains(id) == model::is_id(c.nodes, id));
    assert forall|x: Seq<char>| #[trigger] d.taken.contains(x) <==> model::is_id(d.nodes, x) by {
        assert(c.taken.contains(x) == model::is_id(c.nodes, x));
        if model::is_id(d.nodes, x) && x != id {
            let i = choose|i: int| 0 <= i < d.nodes.len() && (#[trigger] d.nodes[i]).id == x;
            assert(d.nodes[i] == c.nodes[i]);
            assert(c.nodes[i].id == x);
        }
    }
    assert forall|k: int| 0 <= k < d.edges.len() implies model::is_id(d.nodes, (#[trigger] d.edges[k]).source) && (
    d.edges[k].target_id is Some ==> model::is_id(d.nodes, d.edges[k].target_id->0)) by {
        if k < c.edges.len() {
            assert(d.edges[k] == c.edges[k]);
        }
    }
    assert forall|i: int, j: int| 0 <= i < j < d.nodes.len() implies (#[trigger] d.nodes[i]).id != (
    #[trigger] d.nodes[j]).id by {
        assert(d.nodes[i] == c.nodes[i]);
        if j < c.nodes.len() {
            assert(d.nodes[j] == c.nodes[j]);
        } else {
            assert(model::is_id(c.nodes, c.nodes[i].id));
        }
    }
    assert forall|i: int|
        0 <= i < d.nodes.len() && is_symbol(#[trigger] d.nodes[i]) implies extract::is_contained(
        d.edges,
        d.nodes[i].id,
    ) by {
        if i < c.nodes.len() {
            assert(d.nodes[i] == c.nodes[i]);
        }
    }
}

proof fn lemma_pipe(c: JsView, id: Seq<char>, name: Seq<char>)
    requires
        is_sound(c),
        model::is_id(c.nodes, id),
    ensures
        is_sound(c.with_pipe(id, name)),
        model::is_id(c.with_pipe(id, name).nodes, id),
{
    let n = model::join_node("pipe:"@, "pipe"@, c.rel, name);
    let e = model::named_edge(id, "defines-pipe"@, name);
    let d = c.with_pipe(id, name);
    let mid = JsView { nodes: d.nodes, taken: d.taken, ..c };
    model::lemma_ids_grow(c.nodes, n);
    assert(c.taken.contains(n.id) == model::is_id(c.nodes, n.id));
    assert forall|x: Seq<char>| #[trigger] mid.taken.contains(x) <==> model::is_id(mid.nodes, x) by {
        assert(c.taken.contains(x) == model::is_id(c.nodes, x));
        if model::is_id(mid.nodes, x) && x != n.id {
            let i = choose|i: int| 0 <= i < mid.nodes.len() && (#[trigger] mid.nodes[i]).id == x;
            assert(mid.nodes[i] == c.nodes[i]);
            assert(c.nodes[i].id == x);
        }
    }
    assert forall|i: int, j: int| 0 <= i < j < mid.nodes.len() implies (#[trigger] mid.nodes[i]).id != (
    #[trigger] mid.nodes[j]).id by {
        assert(mid.nodes[i] == c.nodes[i]);
        if j < c.nodes.len() {
            assert(mid.nodes[j] == c.nodes[j]);
        } else {
            assert(model::is_id(c.nodes, c.nodes[i].id));
        }
    }
    assert forall|i: int| 0 <= i < mid.nodes.len() && is_symbol(#[trigger] mid.nodes[i]) implies extract::is_contained(
        mid.edges,
        mid.nodes[i].id,
    ) by {
        if i < c.nodes.len() {
            assert(mid.nodes[i] == c.nodes[i]);
        }
    }
    lemma_more_edge(mid, e);
    assert(mid.with_edge(e) =~= d);
}

proof fn lemma_opened(c: JsView, d: JsView, id: Seq<char>)
    requires
        is_sound(c),
        model::is_id(c.nodes, id),
        d.scope == c.scope.push(id),
        d.rel == c.rel,
        d.nodes == c.nodes,
        d.edges == c.edges,
        d.taken == c.taken,
    ensures
        is_sound(d),
{
    assert forall|k: int| 0 <= k < d.scope.len() implies model::is_id(d.nodes, #[trigger] d.scope[k]) by {
        if k < c.scope.len() {
            assert(d.scope[k] == c.scope[k]);
        }
    }
}

proof fn lemma_clause(nodes: Seq<NodeView>, items: Seq<JsonView>, k: int, id: Seq<char>, relation: Seq<char>)
    requires
        model::is_id(nodes, id),
        k >= 0,
    ensures
        forall|m: int|
            0 <= m < seqs::each_from(items, k, clause_edge(id, relation)).len() ==> extract::starts_in(
                nodes,
                #[trigger] seqs::each_from(items, k, clause_edge(id, relation))[m],
            ),
    decreases items.len() - k,
{
    let f = clause_edge(id, relation);
    if k < items.len() {
        lemma_clause(nodes, items, k + 1, id, relation);
        let head = f(items[k]);
        let rest = seqs::each_from(items, k + 1, f);
        let all = seqs::each_from(items, k, f);
        assert(all == head + rest);
        assert forall|m: int| 0 <= m < all.len() implies extract::starts_in(nodes, #[trigger] all[m]) by {
            if m < head.len() {
                assert(all[m] == head[m]);
            } else {
                assert(all[m] == rest[m - head.len()]);
            }
        }
    }
}

proof fn lemma_class_entered(j: JsonView, c: JsView)
    requires
        is_sound(c),
    ensures
        is_sound(class_entered(j, c)),
{
    if let Some(name) = declared(j) {
        let id = c.symbol_id(name);
        let start = offset(j, "start"@);
        let end = offset(j, "end"@);
        let kind = if is_component(j) { "component"@ } else { "class"@ };
        let own = c.with_symbol(id, name, kind, start, end);
        lemma_symbol(c, id, name, kind, start, end);
        let told = match selector_of(j) {
            Some(s) => if is_component(j) {
                own.with_symbol(c.symbol_id(s), s, "component"@, start, end)
            } else {
                own
            },
            None => own,
        };
        if let Some(s) = selector_of(j) {
            lemma_symbol(own, c.symbol_id(s), s, "component"@, start, end);
        }
        let piped = match pipe_of(j) {
            Some(p) => told.with_pipe(id, p),
            None => told,
        };
        if let Some(p) = pipe_of(j) {
            lemma_pipe(told, id, p);
        }
        let based = match reference_name(j.at("superClass"@)) {
            Some(b) => piped.with_edge(model::named_edge(id, "extends"@, b)),
            None => piped,
        };
        if let Some(b) = reference_name(j.at("superClass"@)) {
            lemma_more_edge(piped, model::named_edge(id, "extends"@, b));
        }
        let clause = query::items_of(j.at("implements"@));
        lemma_clause(based.nodes, clause, 0, id, "implements"@);
        let es = clause_edges(id, "implements"@, j.at("implements"@));
        lemma_more_edges(based, es);
        lemma_opened(JsView { edges: based.edges + es, ..based }, class_entered(j, c), id);
    }
}

proof fn lemma_function_entered(j: JsonView, c: JsView)
    requires
        is_sound(c),
    ensures
        is_sound(function_entered(j, c)),
{
    let start = offset(j, "start"@);
    let end = offset(j, "end"@);
    let free = JsView { pending: None, ..c };
    match c.pending {
        Some(m) => {
            let class = match c.class() {
                Some(n) => n,
                None => Seq::empty(),
            };
            let id = c.symbol_id(class + "."@ + m);
            lemma_symbol(free, id, m, "method"@, start, end);
            lemma_opened(
                free.with_symbol(id, m, "method"@, start, end),
                function_entered(j, c),
                id,
            );
        },
        None => {
            if let Some(name) = declared(j) {
                let id = c.symbol_id(name);
                lemma_symbol(free, id, name, "function"@, start, end);
                lemma_opened(
                    free.with_symbol(id, name, "function"@, start, end),
                    function_entered(j, c),
                    id,
                );
            }
        },
    }
}

proof fn lemma_entered(j: JsonView, c: JsView)
    requires
        is_sound(c),
    ensures
        is_sound(entered(j, c)),
{
    lemma_cur(c);
    if is_class(j) {
        lemma_class_entered(j, c);
    } else if is_function(j) {
        lemma_function_entered(j, c);
    } else {
        let start = offset(j, "start"@);
        let end = offset(j, "end"@);
        if let Some(name) = declared(j) {
            let id = c.symbol_id(name);
            let own = c.with_symbol(id, name, "interface"@, start, end);
            lemma_symbol(c, id, name, "enum"@, start, end);
            lemma_symbol(c, id, name, "interface"@, start, end);
            lemma_clause(own.nodes, query::items_of(j.at("extends"@)), 0, id, "extends"@);
            lemma_more_edges(own, clause_edges(id, "extends"@, j.at("extends"@)));
        }
        if let Some(s) = j.at("source"@).at("value"@).text() {
            lemma_more_edge(c, model::named_edge(c.rel, "imports"@, s));
        }
        let callee = peeled(j.at("callee"@));
        if let Some(n) = name_of(callee) {
            lemma_more_edge(c, model::call_edge(c.cur(), n, false, None));
        }
        if let Some(n) = name_of(callee.at("property"@)) {
            lemma_more_edge(
                c,
                model::call_edge(c.cur(), n, true, receiver(callee.at("object"@), c)),
            );
        }
    }
}

proof fn lemma_left(j: JsonView, before: JsView, c: JsView)
    requires
        is_sound(c),
    ensures
        is_sound(left(j, before, c)),
{
    let d = left(j, before, c);
    assert forall|k: int| 0 <= k < d.scope.len() implies model::is_id(d.nodes, #[trigger] d.scope[k]) by {
        assert(d.scope[k] == c.scope[k]);
    }
}

/// Two states have the same open scopes.
pub open spec fn same_scopes(c: JsView, d: JsView) -> bool {
    &&& d.rel == c.rel
    &&& d.scope == c.scope
    &&& d.classes == c.classes
    &&& d.bindings.len() == c.bindings.len()
}

proof fn lemma_class_or_function(j: JsonView)
    ensures
        !is_class(j) || !is_function(j),
{
    reveal_strlit("ClassDeclaration");
    reveal_strlit("ClassExpression");
    reveal_strlit("FunctionDeclaration");
    reveal_strlit("FunctionExpression");
    reveal_strlit("TSDeclareFunction");
    reveal_strlit("TSEmptyBodyFunctionExpression");
    let ty = j.at("type"@).text();
    if is_class(j) {
        assert(ty->0.len() == 16 || ty->0.len() == 15);
    }
    if is_function(j) {
        assert(ty->0.len() >= 17);
    }
}

pub proof fn lemma_scopes(j: JsonView, c: JsView, d: JsView)
    requires
        same_scopes(entered(j, c), d),
    ensures
        same_scopes(c, left(j, c, d)),
{
    let e = entered(j, c);
    if is_class(j) && declared(j) is Some {
        assert(e.scope.drop_last() =~= c.scope);
        assert(e.classes.drop_last() =~= c.classes);
        assert(e.bindings.drop_last() =~= c.bindings);
    } else if is_function(j) && (c.pending is Some || declared(j) is Some) {
        lemma_class_or_function(j);
        assert(e.scope.drop_last() =~= c.scope);
        assert(e.bindings.drop_last() =~= c.bindings);
    }
}

/// A walk leaves every scope that it enters.
pub proof fn scopes_are_left(j: JsonView, c: JsView)
    ensures
        same_scopes(c, walked(j, c)),
    decreases j, breadth(j) + 1,
{
    match j {
        JsonView::Arr(s) => {
            lemma_items_scopes(j, s, s.len() as int, c);
        },
        JsonView::Obj(s) => {
            let inside = entered(j, c);
            lemma_members_scopes(j, s, s.len() as int, inside);
            lemma_scopes(j, c, walked_members(j, s, s.len() as int, inside));
        },
        _ => {},
    }
}

pub proof fn lemma_items_scopes(j: JsonView, s: Seq<JsonView>, k: int, c: JsView)
    ensures
        same_scopes(c, walked_items(j, s, k, c)),
    decreases j, k,
{
    if 0 < k <= s.len() && j == JsonView::Arr(s) {
        assert(decreases_to!(j => j->Arr_0));
        assert(decreases_to!(s => s[k - 1]));
        lemma_items_scopes(j, s, k - 1, c);
        scopes_are_left(s[k - 1], walked_items(j, s, k - 1, c));
    }
}

pub proof fn lemma_members_scopes(j: JsonView, s: Seq<(Seq<char>, JsonView)>, k: int, c: JsView)
    ensures
        same_scopes(c, walked_members(j, s, k, c)),
    decreases j, k,
{
    if 0 < k <= s.len() && j == JsonView::Obj(s) {
        assert(decreases_to!(j => j->Obj_0));
        assert(decreases_to!(s => s[k - 1]));
        assert(decreases_to!(s[k - 1] => s[k - 1].1));
        lemma_members_scopes(j, s, k - 1, c);
        scopes_are_left(s[k - 1].1, walked_members(j, s, k - 1, c));
    }
}

/// The second state holds all that the first one holds, in the same places.
pub open spec fn grows(c: JsView, d: JsView) -> bool {
    &&& c.nodes.len() <= d.nodes.len()
    &&& c.edges.len() <= d.edges.len()
    &&& forall|i: int| 0 <= i < c.nodes.len() ==> #[trigger] d.nodes[i] == c.nodes[i]
    &&& forall|i: int| 0 <= i < c.edges.len() ==> #[trigger] d.edges[i] == c.edges[i]
}

pub proof fn lemma_entered_grows(j: JsonView, c: JsView)
    ensures
        grows(c, entered(j, c)),
{
}

/// A walk only adds: what was found before stays where it was.
pub proof fn walks_only_add(j: JsonView, c: JsView)
    ensures
        grows(c, walked(j, c)),
    decreases j, breadth(j) + 1,
{
    match j {
        JsonView::Arr(s) => {
            lemma_items_grow(j, s, s.len() as int, c);
        },
        JsonView::Obj(s) => {
            lemma_entered_grows(j, c);
            lemma_members_grow(j, s, s.len() as int, entered(j, c));
        },
        _ => {},
    }
}

pub proof fn lemma_items_grow(j: JsonView, s: Seq<JsonView>, k: int, c: JsView)
    ensures
        grows(c, walked_items(j, s, k, c)),
    decreases j, k,
{
    if 0 < k <= s.len() && j == JsonView::Arr(s) {
        assert(decreases_to!(j => j->Arr_0));
        assert(decreases_to!(s => s[k - 1]));
        lemma_items_grow(j, s, k - 1, c);
        walks_only_add(s[k - 1], walked_items(j, s, k - 1, c));
    }
}

pub proof fn lemma_members_grow(j: JsonView, s: Seq<(Seq<char>, JsonView)>, k: int, c: JsView)
    ensures
        grows(c, walked_members(j, s, k, c)),
    decreases j, k,
{
    if 0 < k <= s.len() && j == JsonView::Obj(s) {
        assert(decreases_to!(j => j->Obj_0));
        assert(decreases_to!(s => s[k - 1]));
        assert(decreases_to!(s[k - 1] => s[k - 1].1));
        lemma_members_grow(j, s, k - 1, c);
        walks_only_add(s[k - 1].1, walked_members(j, s, k - 1, c));
    }
}

/// A walk keeps the state sound: whatever the tree, no two nodes get the same id,
/// every edge starts at a node of the file, and every symbol is contained in a
/// scope.
pub proof fn walks_are_sound(j: JsonView, c: JsView)
    requires
        is_sound(c),
    ensures
        is_sound(walked(j, c)),
    decreases j, breadth(j) + 1,
{
    match j {
        JsonView::Arr(s) => {
            lemma_items_sound(j, s, s.len() as int, c);
        },
        JsonView::Obj(s) => {
            lemma_entered(j, c);
            lemma_members_sound(j, s, s.len() as int, entered(j, c));
            lemma_left(j, c, walked_members(j, s, s.len() as int, entered(j, c)));
        },
        _ => {},
    }
}

proof fn lemma_items_sound(j: JsonView, s: Seq<JsonView>, k: int, c: JsView)
    requires
        is_sound(c),
    ensures
        is_sound(walked_items(j, s, k, c)),
    decreases j, k,
{
    if 0 < k <= s.len() && j == JsonView::Arr(s) {
        assert(decreases_to!(j => j->Arr_0));
        assert(decreases_to!(s => s[k - 1]));
        lemma_items_sound(j, s, k - 1, c);
        walks_are_sound(s[k - 1], walked_items(j, s, k - 1, c));
    }
}

proof fn lemma_members_sound(j: JsonView, s: Seq<(Seq<char>, JsonView)>, k: int, c: JsView)
    requires
        is_sound(c),
    ensures
        is_sound(walked_members(j, s, k, c)),
    decreases j, k,
{
    if 0 < k <= s.len() && j == JsonView::Obj(s) {
        assert(decreases_to!(j => j->Obj_0));
        assert(decreases_to!(s => s[k - 1]));
        assert(decreases_to!(s[k - 1] => s[k - 1].1));
        lemma_members_sound(j, s, k - 1, c);
        walks_are_sound(s[k - 1].1, walked_members(j, s, k - 1, c));
    }
}

/// The nodes have distinct ids, every edge starts at one of them, and each is the
/// file, a pipe that it registers, or a symbol that a scope of the file contains.
pub open spec fn is_sound_file(found: FoundView) -> bool {
    &&& model::ids_are_distinct(found.nodes)
    &&& forall|k: int|
        0 <= k < found.edges.len() ==> model::is_id(found.nodes, (#[trigger] found.edges[k]).source)
    &&& forall|i: int|
        0 <= i < found.nodes.len() && is_symbol(#[trigger] found.nodes[i]) ==> extract::is_contained(
            found.edges,
            found.nodes[i].id,
        )
}

proof fn lemma_file(rel: Seq<char>, code: Seq<char>, end: JsView)
    requires
        is_sound(end),
        end.rel == rel,
    ensures
        is_sound_file(FoundView { nodes: end.nodes, edges: end.edges + lang::lang_edges(rel, code) }),
{
    let es = lang::lang_edges(rel, code);
    assert forall|k: int| 0 <= k < es.len() implies extract::starts_in(end.nodes, #[trigger] es[k]) by {}
    lemma_more_edges(end, es);
}

proof fn lemma_started(rel: Seq<char>, base: Seq<char>)
    ensures
        is_sound(started(rel, base)),
{
    let c = started(rel, base);
    assert(c.nodes[0].id == rel);
    assert(c.scope[0] == rel);
}

/// Whatever the syntax tree of a JS/TS source, what it holds is sound.
pub proof fn the_symbols_of_a_file_are_sound(rel: Seq<char>, base: Seq<char>, code: Seq<char>, tree: JsonView)
    ensures
        is_sound_file(extracted_from(rel, base, code, tree)),
{
    lemma_started(rel, base);
    walks_are_sound(tree, started(rel, base));
    scopes_are_left(tree, started(rel, base));
    lemma_file(rel, code, walked(tree, started(rel, base)));
}

/// Whatever the syntax tree of the script of a Vue component, what it holds is sound.
pub proof fn the_symbols_of_a_component_are_sound(
    rel: Seq<char>,
    base: Seq<char>,
    code: Seq<char>,
    tree: JsonView,
)
    ensures
        is_sound_file(vue_extracted_from(rel, base, code, tree)),
{
    let name = match component_name(tree) {
        Some(n) => n,
        None => stem(base),
    };
    let start = started(rel, base);
    let id = start.symbol_id(name);
    let size = byte_size(scripts_from(code, 0));
    let inside = start.with_symbol(id, name, "component"@, 0, size);
    let open = JsView { scope: inside.scope.push(id), ..inside };
    lemma_started(rel, base);
    lemma_symbol(start, id, name, "component"@, 0, size);
    lemma_opened(inside, open, id);
    walks_are_sound(tree, open);
    scopes_are_left(tree, open);
    lemma_file(rel, code, walked(tree, open));
}

} // verus!
