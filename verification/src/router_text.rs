//! What the text of a router says: the component that each of its routes renders.

use vstd::prelude::*;

use crate::model;
use crate::model::EdgeView;
use crate::paths;
use crate::reading;
use crate::reading::{quotes, reads};
use crate::router;
use crate::router::AliasView;
use crate::scan;
use crate::text;
use crate::text::CharSet;

verus! {

/// The text of a route: its path, and the file of its component, which is loaded when
/// it is needed.
pub open spec fn is_route(obj: Seq<char>, path: Seq<char>, spec: Seq<char>) -> bool {
    let b: int = path.len() as int + 8;
    let c: int = b + 26;
    let d: int = c + spec.len() + 2;
    &&& obj.len() == d + 1
    &&& reads(obj, 0, "path: "@)
    &&& quotes(obj, 6, path)
    &&& reads(obj, b, ", component: () => import("@)
    &&& quotes(obj, c, spec)
    &&& reads(obj, d, ")"@)
    &&& path.len() > 0 && path[0] == '/'
    &&& spec.len() > 0
    &&& forall|k: int|
        0 <= k < path.len() ==> reading::in_word(#[trigger] path[k]) || path[k] == '/' || path[k] == '-' || path[k]
            == ':'
    &&& forall|k: int| 0 <= k < spec.len() ==> #[trigger] spec[k] != '{' && spec[k] != '}'
    &&& forall|k: int| 0 <= k < b + 2 ==> !#[trigger] reads(obj, k, "component"@)
}

proof fn lemma_middle(obj: Seq<char>, b: int)
    requires
        reads(obj, b, ", component: () => import("@),
    ensures
        b + 26 <= obj.len(),
        obj[b] == ',' && obj[b + 1] == ' ' && obj[b + 11] == ':' && obj[b + 12] == ' ' && obj[b + 13] == '(' && obj[b
            + 14] == ')' && obj[b + 15] == ' ' && obj[b + 16] == '=' && obj[b + 17] == '>' && obj[b + 18] == ' ',
        obj[b + 19] == 'i' && obj[b + 20] == 'm' && obj[b + 21] == 'p' && obj[b + 22] == 'o' && obj[b + 23] == 'r'
            && obj[b + 24] == 't' && obj[b + 25] == '(',
        reads(obj, b + 2, "component"@),
        forall|m: int| b <= m < b + 26 ==> #[trigger] obj[m] != '{' && obj[m] != '}' && obj[m] != '\'' && obj[m] != '"'
            && obj[m] != '`',
{
    reveal_strlit(", component: () => import(");
    reveal_strlit("component");
    let t = ", component: () => import("@;
    let w = "component"@;
    assert forall|m: int| b <= m < b + 26 implies #[trigger] obj[m] == t[m - b] by {
        assert(obj[b + (m - b)] == t[m - b]);
    }
    assert forall|k: int| 0 <= k < w.len() implies obj[b + 2 + k] == #[trigger] w[k] by {
        assert(t[2 + k] == w[k]);
        assert(obj[b + 2 + k] == t[2 + k]);
    }
}

proof fn lemma_path(obj: Seq<char>, path: Seq<char>, spec: Seq<char>)
    requires
        is_route(obj, path, spec),
    ensures
        router::path_of(obj) == Some(path),
{
    reveal_strlit("path: ");
    reveal_strlit("path");
    let t = "path: "@;
    let b: int = path.len() as int + 8;
    lemma_middle(obj, b);
    assert(t[0] == 'p' && t[1] == 'a' && t[2] == 't' && t[3] == 'h' && t[4] == ':' && t[5] == ' ');
    assert(obj[0int + 0] == 'p' && obj[0int + 1] == 'a' && obj[0int + 2] == 't' && obj[0int + 3] == 'h' && obj[0int
        + 4] == ':' && obj[0int + 5] == ' ');
    assert(reads(obj, 0, "path"@));
    reading::lemma_first_hit(obj, "path"@, 0, 0);
    reading::lemma_run_to(obj, 4, 4, CharSet::AsciiSpace);
    reading::lemma_quoted(obj, 6, path);
    let n = router::nesting();
    assert(n.quotes.has(obj[6]));
    assert(scan::top_level(obj, b, 0, ',', n) == b);
    assert(scan::top_level(obj, 6, 0, ',', n) == b);
    assert(scan::top_level(obj, 5, 0, ',', n) == b);
    let raw = obj.subrange(5, b);
    let z = raw.len() as int;
    let value = obj.subrange(6, b);
    reading::lemma_run_to(raw, 0, 1, CharSet::Space);
    assert(raw.subrange(1, z) =~= value);
    assert(obj[b - 1] == obj[6]);
    reading::lemma_run_from(value, z - 1, z - 1, CharSet::Space);
    assert(value.subrange(0, z - 1) =~= value);
    assert(text::trimmed(raw, CharSet::Space) == value);
    assert(router::value_at(obj, "path"@)(0) == Some(value));
    assert(router::property(obj, "path"@) == Some(value));
    assert(quotes(value, 0, path)) by {
        assert forall|k: int| 0 <= k < path.len() implies value[1 + k] == #[trigger] path[k] by {
            assert(obj[6 + 1 + k] == path[k]);
        }
    }
    reading::lemma_quoted(value, 0, path);
    reading::lemma_seek_to(value, 0, 0, CharSet::JsQuote);
    assert(value.subrange(1, 1 + path.len() as int) == path);
}

proof fn lemma_page(obj: Seq<char>, path: Seq<char>, spec: Seq<char>, all: Seq<AliasView>)
    requires
        is_route(obj, path, spec),
    ensures
        router::page_of(obj, all) == Some(spec),
{
    reveal_strlit("component");
    reveal_strlit("import(");
    reveal_strlit(")");
    let b: int = path.len() as int + 8;
    let c: int = b + 26;
    let d: int = c + spec.len() + 2;
    lemma_middle(obj, b);
    assert(")"@[0] == ')');
    assert(obj[d + 0] == ')');
    reading::lemma_first_hit(obj, "component"@, 0, b + 2);
    reading::lemma_run_to(obj, b + 11, b + 11, CharSet::AsciiSpace);
    reading::lemma_quoted(obj, c, spec);
    let n = router::nesting();
    assert(n.quotes.has(obj[c]));
    assert(scan::top_level(obj, d + 1, 0, ',', n) == d + 1);
    assert(scan::top_level(obj, d, 1, ',', n) == d + 1);
    assert(scan::top_level(obj, c, 1, ',', n) == d + 1);
    assert(scan::top_level(obj, c - 1, 0, ',', n) == d + 1);
    assert(scan::top_level(obj, c - 2, 0, ',', n) == d + 1);
    assert(scan::top_level(obj, c - 3, 0, ',', n) == d + 1);
    assert(scan::top_level(obj, c - 4, 0, ',', n) == d + 1);
    assert(scan::top_level(obj, c - 5, 0, ',', n) == d + 1);
    assert(scan::top_level(obj, c - 6, 0, ',', n) == d + 1);
    assert(scan::top_level(obj, c - 7, 0, ',', n) == d + 1);
    assert(scan::top_level(obj, c - 8, 0, ',', n) == d + 1);
    assert(scan::top_level(obj, c - 9, 0, ',', n) == d + 1);
    assert(scan::top_level(obj, c - 10, 0, ',', n) == d + 1);
    assert(scan::top_level(obj, c - 11, 0, ',', n) == d + 1);
    assert(scan::top_level(obj, c - 12, 1, ',', n) == d + 1);
    assert(scan::top_level(obj, c - 13, 0, ',', n) == d + 1);
    assert(scan::top_level(obj, c - 14, 0, ',', n) == d + 1);
    let raw = obj.subrange(b + 12, d + 1);
    let z = raw.len() as int;
    let value = obj.subrange(b + 13, d + 1);
    reading::lemma_run_to(raw, 0, 1, CharSet::Space);
    assert(raw.subrange(1, z) =~= value);
    reading::lemma_run_from(value, z - 1, z - 1, CharSet::Space);
    assert(value.subrange(0, z - 1) =~= value);
    assert(text::trimmed(raw, CharSet::Space) == value);
    assert(router::value_at(obj, "component"@)(b + 2) == Some(value));
    assert(router::property(obj, "component"@) == Some(value));
    let word = "import("@;
    assert(word[0] == 'i');
    assert(reads(value, 6, word)) by {
        assert forall|k: int| 0 <= k < word.len() implies value[6 + k] == #[trigger] word[k] by {
            assert(value[6 + k] == obj[b + 19 + k]);
        }
    }
    assert forall|k: int| 0 <= k < 6 implies !#[trigger] reads(value, k, word) by {
        if reads(value, k, word) {
            assert(value[k + 0] == word[0]);
            assert(value[k] == obj[b + 13 + k]);
        }
    }
    reading::lemma_find_at(value, word, 0, 6);
    let rest = value.subrange(13, value.len() as int);
    assert(quotes(rest, 0, spec)) by {
        assert(rest[0] == obj[c]);
        assert(rest[spec.len() as int + 1] == obj[c + spec.len() + 1]);
        assert forall|k: int| 0 <= k < spec.len() implies rest[1 + k] == #[trigger] spec[k] by {
            assert(obj[c + 1 + k] == spec[k]);
            assert(rest[1 + k] == obj[c + 1 + k]);
        }
    }
    reading::lemma_quoted(rest, 0, spec);
    reading::lemma_seek_to(rest, 0, 0, CharSet::JsQuote);
    assert(rest.subrange(1, 1 + spec.len() as int) == spec);
    assert(router::import_spec(value) == Some(spec));
}

proof fn lemma_entry(rel: Seq<char>, s: Seq<char>, from: int, i: int, e: int, all: Seq<AliasView>, edge: EdgeView)
    requires
        0 <= from <= i < e < s.len(),
        forall|m: int| from <= m < i ==> #[trigger] s[m] != '{',
        s[i] == '{',
        scan::partner(s, i, '{', '}', CharSet::JsQuote) == e,
        router::entry(rel, s.subrange(i + 1, e), all).edges.contains(edge),
    ensures
        router::entries_from(rel, s, all, from).edges.contains(edge),
    decreases i - from,
{
    if from < i {
        assert(s[from] != '{');
        lemma_entry(rel, s, from + 1, i, e, all, edge);
    } else {
        reading::lemma_behind(
            router::entry(rel, s.subrange(i + 1, e), all).edges,
            router::entries_from(rel, s, all, i + 1).edges,
            edge,
        );
    }
}

/// The first route of a router renders the file of its component, relative to the file
/// of the router where it is written so.
pub proof fn a_route_renders_its_component(
    rel: Seq<char>,
    s: Seq<char>,
    i: int,
    obj: Seq<char>,
    path: Seq<char>,
    spec: Seq<char>,
)
    requires
        0 <= i,
        is_route(obj, path, spec),
        forall|m: int| 0 <= m < i ==> #[trigger] s[m] != '{',
        reads(s, i, "{"@),
        reads(s, i + 1, obj),
        reads(s, i + 1 + obj.len(), "}"@),
    ensures
        spec[0] != '.' ==> router::routes(rel, s).edges.contains(model::named_edge("route:"@ + path, "renders"@, spec)),
        spec[0] == '.' ==> router::routes(rel, s).edges.contains(
            model::named_edge("route:"@ + path, "renders"@, paths::joined_path(rel, spec)),
        ),
{
    reveal_strlit("{");
    reveal_strlit("}");
    reveal_strlit("path:");
    reveal_strlit("path: ");
    reveal_strlit(".");
    reveal_strlit(")");
    assert("{"@[0] == '{' && "}"@[0] == '}' && ")"@[0] == ')');
    let a = i + 1;
    let e = a + obj.len();
    assert(s[i + 0] == '{' && s[e + 0] == '}');
    let b: int = path.len() as int + 8;
    let c: int = b + 26;
    let d: int = c + spec.len() + 2;
    lemma_middle(obj, b);
    assert(obj[d + 0] == ')');
    assert forall|m: int| a <= m < e implies #[trigger] s[m] == obj[m - a] by {
        assert(s[a + (m - a)] == obj[m - a]);
    }
    let t = "path: "@;
    assert forall|m: int| 0 <= m < 6 implies #[trigger] obj[m] == t[m] by {
        assert(obj[0int + m] == t[m]);
    }
    assert(quotes(s, a + 6, path)) by {
        assert forall|k: int| 0 <= k < path.len() implies s[a + 6 + 1 + k] == #[trigger] path[k] by {
            assert(obj[6 + 1 + k] == path[k]);
        }
    }
    assert(quotes(s, a + c, spec)) by {
        assert forall|k: int| 0 <= k < spec.len() implies s[a + c + 1 + k] == #[trigger] spec[k] by {
            assert(obj[c + 1 + k] == spec[k]);
        }
    }
    let q = CharSet::JsQuote;
    reading::lemma_over_plain(s, a, a + 6, 1, '{', '}', q);
    reading::lemma_over_string(s, a + 6, path, 1, '{', '}', q);
    reading::lemma_over_plain(s, a + b, a + c, 1, '{', '}', q);
    reading::lemma_over_string(s, a + c, spec, 1, '{', '}', q);
    reading::lemma_over_plain(s, a + d, e, 1, '{', '}', q);
    assert(scan::partner(s, i, '{', '}', q) == e);
    assert(s.subrange(a, e) =~= obj);
    let all = router::aliases(s);
    lemma_path(obj, path, spec);
    lemma_page(obj, path, spec, all);
    assert(!text::some_in(path, CharSet::Pattern)) by {
        assert forall|k: int| 0 <= k < path.len() implies !CharSet::Pattern.has(#[trigger] path[k]) by {}
    }
    assert(text::starts(spec, "."@) <==> spec[0] == '.') by {
        if spec[0] == '.' {
            assert(spec.subrange(0, 1) =~= "."@);
        } else if text::starts(spec, "."@) {
            assert(spec.subrange(0, 1)[0] == "."@[0]);
        }
    }
    let edge = model::named_edge("route:"@ + path, "renders"@, router::page_path(rel, spec));
    assert(router::entry(rel, obj, all).edges[0] == edge);
    lemma_entry(rel, s, 0, i, e, all, edge);
    assert(router::is_router_config(s)) by {
        assert(reads(s, a, "path:"@));
        reading::lemma_reads(s, a, "path:"@);
        let w = "component"@;
        assert(reads(s, a + b + 2, w)) by {
            assert forall|k: int| 0 <= k < w.len() implies s[a + b + 2 + k] == #[trigger] w[k] by {
                assert(obj[b + 2 + k] == w[k]);
            }
        }
        reading::lemma_reads(s, a + b + 2, w);
    }
}

} // verus!
