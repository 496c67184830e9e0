//! The status line of an agent session:
//!
//! ```text
//! plouf <n>n/<e>e [<age> ago] | <model> | <dir> | ctx <k>k
//! ```
//!
//! `[<age> ago]` is how long since `plouf-rs` was last queried (from the
//! transcript); a stale value -- or `[unused]` -- is a visible cue that the
//! agent has stopped reaching for the graph.

use serde_json::Value;
use vstd::prelude::*;

use crate::ast;
use crate::json;
use crate::json::JsonView;
use crate::query;
use crate::scan;
use crate::seqs;
use crate::text;
use crate::text::{chars_of, join2, join3, string_of};

verus! {

broadcast use crate::seqs::group_text;

// ---------------------------------------------------------------------------
// Time

/// The year of a month where years begin in March: January and February belong to
/// the year before.
pub open spec fn march_year(y: int, m: int) -> int {
    if m <= 2 {
        y - 1
    } else {
        y
    }
}

/// The months since March.
pub open spec fn march_month(m: int) -> int {
    if m > 2 {
        m - 3
    } else {
        m + 9
    }
}

/// The days from the first of March to the first of a month, by months of 153 days
/// to five, rounded toward zero.
pub open spec fn month_offset(m: int) -> int {
    let fifths = 153 * march_month(m) + 2;
    if fifths >= 0 {
        fifths / 5
    } else {
        -(-fifths / 5)
    }
}

/// Days from 1970-01-01 to `y-m-d`, counted in years that begin in March: 365
/// days each, a leap day every fourth year but not every hundredth unless it is a
/// four-hundredth.
pub open spec fn civil_days(y: int, m: int, d: int) -> int {
    let years = march_year(y, m);
    years * 365 + years / 4 - years / 100 + years / 400 + month_offset(m) + d - 1 - 719468
}

/// Days from 1970-01-01 to `y-m-d` (Howard Hinnant's algorithm) -- no chrono dep.
pub fn days_from_civil(y: i64, m: i64, d: i64) -> (r: i64)
    requires
        i64::MIN <= civil_days(y as int, m as int, d as int) <= i64::MAX,
    ensures
        r == civil_days(y as int, m as int, d as int),
{
    let y: i128 = if m <= 2 { y as i128 - 1 } else { y as i128 };
    let era: i128 = if y >= 0 { y / 400 } else { -((399 - y) / 400) };
    let yoe: i128 = y - era * 400;
    assert(era == (y as int) / 400);
    let fifths: i128 = 153 * (if m > 2 { m as i128 - 3 } else { m as i128 + 9 }) + 2;
    let offset: i128 = if fifths >= 0 { fifths / 5 } else { -((-fifths) / 5) };
    let doy: i128 = offset + d as i128 - 1;
    let doe: i128 = yoe * 365 + yoe / 4 - yoe / 100 + doy;
    proof {
        let whole = y as int;
        assert(whole / 4 == era * 100 + (yoe as int) / 4);
        assert(whole / 100 == era * 4 + (yoe as int) / 100);
    }
    (era * 146_097 + doe - 719_468) as i64
}

/// A leap year of the Gregorian calendar.
pub open spec fn is_leap(y: int) -> bool {
    y % 4 == 0 && (y % 100 != 0 || y % 400 == 0)
}

/// The length of a month of the Gregorian calendar.
pub open spec fn month_length(y: int, m: int) -> int {
    if m == 2 {
        if is_leap(y) {
            29
        } else {
            28
        }
    } else if m == 4 || m == 6 || m == 9 || m == 11 {
        30
    } else {
        31
    }
}

proof fn lemma_leap_day(y: int)
    ensures
        y / 4 - y / 100 + y / 400 == (y - 1) / 4 - (y - 1) / 100 + (y - 1) / 400 + if is_leap(y) {
            1int
        } else {
            0
        },
{
    assert(y / 4 == (y - 1) / 4 + if y % 4 == 0 { 1int } else { 0 });
    assert(y / 100 == (y - 1) / 100 + if y % 100 == 0 { 1int } else { 0 });
    assert(y / 400 == (y - 1) / 400 + if y % 400 == 0 { 1int } else { 0 });
}

proof fn lemma_month_offsets()
    ensures
        month_offset(3) == 0,
        month_offset(4) == 31,
        month_offset(5) == 61,
        month_offset(6) == 92,
        month_offset(7) == 122,
        month_offset(8) == 153,
        month_offset(9) == 184,
        month_offset(10) == 214,
        month_offset(11) == 245,
        month_offset(12) == 275,
        month_offset(1) == 306,
        month_offset(2) == 337,
{
}

proof fn lemma_next_month(y: int, m: int)
    requires
        1 <= m < 12,
    ensures
        civil_days(y, m + 1, 1) == civil_days(y, m, 1) + month_length(y, m),
{
    lemma_month_offsets();
    if m == 2 {
        lemma_leap_day(y);
    }
}

/// The count of days follows the Gregorian calendar: it is 0 on 1970-01-01, each
/// day is one more, and the first of a month comes a month's length after the
/// first of the month before it.
pub proof fn civil_days_follow_the_calendar(y: int, m: int, d: int)
    requires
        1 <= m <= 12,
    ensures
        civil_days(1970, 1, 1) == 0,
        civil_days(y, m, d + 1) == civil_days(y, m, d) + 1,
        m < 12 ==> civil_days(y, m + 1, 1) == civil_days(y, m, 1) + month_length(y, m),
        civil_days(y + 1, 1, 1) == civil_days(y, 12, 1) + month_length(y, 12),
{
    lemma_month_offsets();
    if m < 12 {
        lemma_next_month(y, m);
    }
}

/// The number that a timestamp writes between two byte offsets.
pub open spec fn time_field(s: Seq<char>, a: int, z: int) -> Option<int> {
    match ast::sliced(s, a, z) {
        Some(t) => text::integer_of(t),
        None => None,
    }
}

/// The seconds since 1970 of a `YYYY-MM-DDThh:mm:ss` timestamp; what stands
/// between and behind the numbers is ignored.
pub open spec fn epoch_of(s: Seq<char>) -> Option<int> {
    match (
        time_field(s, 0, 4),
        time_field(s, 5, 7),
        time_field(s, 8, 10),
        time_field(s, 11, 13),
        time_field(s, 14, 16),
        time_field(s, 17, 19),
    ) {
        (Some(y), Some(mo), Some(d), Some(h), Some(mi), Some(se)) => Some(
            civil_days(y, mo, d) * 86400 + h * 3600 + mi * 60 + se,
        ),
        _ => None,
    }
}

fn read_field(s: &str, a: usize, z: usize) -> (r: Option<i64>)
    requires
        a <= z <= a + 4,
    ensures
        r is Some <==> time_field(s@, a as int, z as int) is Some,
        r matches Some(v) ==> time_field(s@, a as int, z as int) == Some(v as int) && -10000 < v < 10000
            && (z <= a + 2 ==> v >= -9),
{
    match ast::slice(s, a, z) {
        Some(t) => text::read_integer(&chars_of(t)),
        None => None,
    }
}

/// Parse a UTC ISO-8601 timestamp (`2026-08-24T10:19:02.221Z`) to epoch seconds,
/// ignoring the fractional part and the trailing `Z`.
pub fn parse_iso_epoch(s: &str) -> (r: Option<i64>)
    ensures
        r is Some <==> epoch_of(s@) is Some,
        r matches Some(v) ==> epoch_of(s@) == Some(v as int),
{
    let y = read_field(s, 0, 4)?;
    let mo = read_field(s, 5, 7)?;
    let d = read_field(s, 8, 10)?;
    let h = read_field(s, 11, 13)?;
    let mi = read_field(s, 14, 16)?;
    let se = read_field(s, 17, 19)?;
    let days = days_from_civil(y, mo, d);
    assert(-10_000_000 < days < 10_000_000);
    Some(days * 86400 + h * 3600 + mi * 60 + se)
}

/// A compact age: seconds, minutes, hours or days.
pub open spec fn age(secs: int) -> Seq<char> {
    if secs < 60 {
        text::signed(secs) + "s ago"@
    } else if secs < 3600 {
        text::signed(secs / 60) + "m ago"@
    } else if secs < 86400 {
        text::signed(secs / 3600) + "h ago"@
    } else {
        text::signed(secs / 86400) + "d ago"@
    }
}

/// A compact age: `45s ago` / `3m ago` / `2h ago` / `5d ago`.
pub fn format_age(secs: i64) -> (r: String)
    ensures
        r@ == age(secs as int),
{
    if secs < 60 {
        join2(&text::to_signed(secs), "s ago")
    } else if secs < 3600 {
        join2(&text::to_signed(secs / 60), "m ago")
    } else if secs < 86400 {
        join2(&text::to_signed(secs / 3600), "h ago")
    } else {
        join2(&text::to_signed(secs / 86400), "d ago")
    }
}

/// The seconds from `then` to `now`, within the range of an `i64`.
pub open spec fn elapsed(now: i64, then: int) -> int {
    let secs = now - then;
    if secs > i64::MAX {
        i64::MAX as int
    } else if secs < i64::MIN {
        i64::MIN as int
    } else {
        secs
    }
}

fn seconds_since(now: i64, then: i64) -> (r: i64)
    ensures
        r == elapsed(now, then as int),
{
    let secs: i128 = now as i128 - then as i128;
    if secs > i64::MAX as i128 {
        i64::MAX
    } else if secs < i64::MIN as i128 {
        i64::MIN
    } else {
        secs as i64
    }
}

// ---------------------------------------------------------------------------
// The transcript

/// A number, 0 where there is none.
pub open spec fn or_zero(n: Option<u64>) -> nat {
    match n {
        Some(n) => n as nat,
        None => 0,
    }
}

fn number_at(v: &Value, key: &str) -> (r: u128)
    ensures
        r == or_zero(json::held(*v).at(key@).number()),
        r <= u64::MAX,
{
    match json::field(v, key).as_u64() {
        Some(n) => n as u128,
        None => 0,
    }
}

/// Total input tokens (fresh + cached) of a message's `usage`, if present.
pub open spec fn tokens_of(j: JsonView) -> Option<nat> {
    let u = j.at("message"@).at("usage"@);
    let t = or_zero(u.at("input_tokens"@).number()) + or_zero(
        u.at("cache_read_input_tokens"@).number(),
    ) + or_zero(u.at("cache_creation_input_tokens"@).number());
    if t > 0 {
        Some(t)
    } else {
        None
    }
}

/// Total input tokens (fresh + cached) of a message's `usage`, if present.
pub fn usage_tokens(v: &Value) -> (r: Option<u128>)
    ensures
        r is Some <==> tokens_of(json::held(*v)) is Some,
        r matches Some(t) ==> tokens_of(json::held(*v)) == Some(t as nat),
{
    let u = json::field(json::field(v, "message"), "usage");
    let t: u128 = number_at(u, "input_tokens") + number_at(u, "cache_read_input_tokens") + number_at(
        u,
        "cache_creation_input_tokens",
    );
    if t > 0 {
        Some(t)
    } else {
        None
    }
}

/// A JSON value is the given string.
pub open spec fn is_string(j: JsonView, s: Seq<char>) -> bool {
    j.text() == Some(s)
}

fn equals(v: &Value, s: &str) -> (r: bool)
    ensures
        r == is_string(json::held(*v), s@),
{
    match v.as_str() {
        Some(t) => text::same(t, s),
        None => false,
    }
}

/// A `Bash` tool call whose command mentions `plouf-rs`.
pub open spec fn runs_plouf(c: JsonView) -> bool {
    &&& is_string(c.at("type"@), "tool_use"@)
    &&& is_string(c.at("name"@), "Bash"@)
    &&& match c.at("input"@).at("command"@).text() {
        Some(cmd) => text::includes(cmd, "plouf-rs"@),
        None => false,
    }
}

fn is_plouf_call(c: &Value) -> (r: bool)
    ensures
        r == runs_plouf(json::held(*c)),
{
    equals(json::field(c, "type"), "tool_use") && equals(json::field(c, "name"), "Bash")
        && match json::field(json::field(c, "input"), "command").as_str() {
        Some(cmd) => text::has_text(&chars_of(cmd), "plouf-rs"),
        None => false,
    }
}

/// A part of the message's content is a `Bash` tool call that runs `plouf-rs`.
pub open spec fn queries_plouf(j: JsonView) -> bool {
    let parts = query::items_of(j.at("message"@).at("content"@));
    exists|i: int| 0 <= i < parts.len() && runs_plouf(#[trigger] parts[i])
}

/// Is this entry an assistant `Bash` tool call that runs `plouf-rs`?
pub fn is_plouf_query(v: &Value) -> (r: bool)
    ensures
        r == queries_plouf(json::held(*v)),
{
    let content = json::field(json::field(v, "message"), "content");
    let items = match content.as_array() {
        Some(items) => items,
        None => {
            return false;
        },
    };
    let ghost parts = query::items_of(json::held(*content));
    let mut k: usize = 0;
    while k < items.len()
        invariant
            k <= items@.len(),
            parts == json::held_all(items@),
            parts == query::items_of(json::held(*v).at("message"@).at("content"@)),
            forall|i: int| 0 <= i < k ==> !runs_plouf(#[trigger] parts[i]),
        decreases items@.len() - k,
    {
        assert(parts[k as int] == json::held(items@[k as int]));
        if is_plouf_call(&items[k]) {
            return true;
        }
        k += 1;
    }
    false
}

/// When an entry of the transcript queried the graph, if it did.
pub open spec fn query_time(line: Seq<char>) -> Option<int> {
    match json::parsed(line) {
        Ok(j) => if queries_plouf(j) {
            match j.at("timestamp"@).text() {
                Some(t) => epoch_of(t),
                None => None,
            }
        } else {
            None
        },
        Err(_) => None,
    }
}

/// The token usage of an entry of the transcript, if it has one, in thousands.
pub open spec fn line_tokens(line: Seq<char>) -> Option<nat> {
    match json::parsed(line) {
        Ok(j) => match tokens_of(j) {
            Some(t) => Some(t / 1000),
            None => None,
        },
        Err(_) => None,
    }
}

/// The time of the newest of the first `k` entries that queried the graph.
pub open spec fn last_query(lines: Seq<Seq<char>>, k: int) -> Option<int>
    decreases k,
{
    if k <= 0 {
        None
    } else if query_time(lines[k - 1]) is Some {
        query_time(lines[k - 1])
    } else {
        last_query(lines, k - 1)
    }
}

/// The token usage of the newest of the first `k` entries that has one.
pub open spec fn last_tokens(lines: Seq<Seq<char>>, k: int) -> Option<nat>
    decreases k,
{
    if k <= 0 {
        None
    } else if line_tokens(lines[k - 1]) is Some {
        line_tokens(lines[k - 1])
    } else {
        last_tokens(lines, k - 1)
    }
}

/// How long ago the graph was last queried.
pub open spec fn recency(tail: Option<Seq<char>>, now: i64) -> Seq<char> {
    match tail {
        Some(t) => match last_query(text::lines(t), text::lines(t).len() as int) {
            Some(ts) => age(elapsed(now, ts)),
            None => "unused"@,
        },
        None => "unused"@,
    }
}

/// The most recent token usage, in thousands.
pub open spec fn context(tail: Option<Seq<char>>) -> Option<nat> {
    match tail {
        Some(t) => last_tokens(text::lines(t), text::lines(t).len() as int),
        None => None,
    }
}

/// A count, as a natural number.
pub open spec fn counted(n: Option<u128>) -> Option<nat> {
    match n {
        Some(n) => Some(n as nat),
        None => None,
    }
}

/// `(recency, ctx-thousands)` from the transcript tail: the age of the newest
/// `plouf-rs` query, and the most recent message's token usage.
pub fn transcript_stats(tail: Option<&str>, now: i64) -> (r: (String, Option<u128>))
    ensures
        r.0@ == recency(seqs::opt_view(tail), now),
        counted(r.1) == context(seqs::opt_view(tail)),
{
    let tail = match tail {
        Some(tail) => tail,
        None => {
            return ("unused".to_string(), None);
        },
    };
    let chars = chars_of(tail);
    let lines = text::split_lines(&chars);
    let ghost all = seqs::views(lines@);
    let mut last: Option<i64> = None;
    let mut tokens: Option<u128> = None;
    let mut k: usize = 0;
    while k < lines.len()
        invariant
            k <= lines@.len(),
            all == seqs::views(lines@),
            last is Some <==> last_query(all, k as int) is Some,
            last matches Some(ts) ==> last_query(all, k as int) == Some(ts as int),
            counted(tokens) == last_tokens(all, k as int),
        decreases lines@.len() - k,
    {
        assert(all[k as int] == lines@[k as int]@);
        let line = string_of(lines[k]);
        if let Ok(v) = json::parse(&line) {
            if let Some(t) = usage_tokens(&v) {
                tokens = Some(t / 1000);
            }
            if is_plouf_query(&v) {
                if let Some(stamp) = json::field(&v, "timestamp").as_str() {
                    if let Some(ts) = parse_iso_epoch(stamp) {
                        last = Some(ts);
                    }
                }
            }
        }
        k += 1;
    }
    let since = match last {
        Some(ts) => format_age(seconds_since(now, ts)),
        None => "unused".to_string(),
    };
    (since, tokens)
}

// ---------------------------------------------------------------------------
// The line

/// What a text reads as, null where it is no JSON.
pub open spec fn read_or_null(text: Seq<char>) -> JsonView {
    match json::parsed(text) {
        Ok(j) => j,
        Err(_) => JsonView::Null,
    }
}

/// The context that a text writes, null where it is no JSON.
pub fn read_context(input: &str) -> (r: Value)
    ensures
        json::held(r) == read_or_null(input@),
{
    match json::parse(input) {
        Ok(v) => v,
        Err(_) => json::null_value(),
    }
}

/// Node/edge counts from the text of the `stats.json` sidecar.
pub open spec fn size_line(stats: Option<Seq<char>>) -> Seq<char> {
    match stats {
        Some(t) => {
            let j = read_or_null(t);
            "plouf "@ + text::decimal(or_zero(j.at("nodes"@).number())) + ("n/"@ + text::decimal(
                or_zero(j.at("edges"@).number()),
            ) + "e"@)
        },
        None => "plouf (no index)"@,
    }
}

/// Node/edge counts from the text of the `stats.json` sidecar that indexing
/// writes; a terse "(no index)" when it is absent.
pub fn graph_size(stats: Option<&str>) -> (r: String)
    ensures
        r@ == size_line(seqs::opt_view(stats)),
{
    let stats = match stats {
        Some(stats) => stats,
        None => {
            return "plouf (no index)".to_string();
        },
    };
    let (nodes, edges): (u128, u128) = match json::parse(stats) {
        Ok(v) => (number_at(&v, "nodes"), number_at(&v, "edges")),
        Err(_) => (0, 0),
    };
    let tail = join3("n/", &text::to_decimal(edges), "e");
    join3("plouf ", &text::to_decimal(nodes), &tail)
}

/// The first of two strings that is there, or the given text.
pub open spec fn either(a: JsonView, b: JsonView, otherwise: Seq<char>) -> Seq<char> {
    match a.text() {
        Some(s) => s,
        None => match b.text() {
            Some(s) => s,
            None => otherwise,
        },
    }
}

fn first_of<'a>(a: &'a Value, b: &'a Value, otherwise: &'a str) -> (r: &'a str)
    ensures
        r@ == either(json::held(*a), json::held(*b), otherwise@),
{
    match a.as_str() {
        Some(s) => s,
        None => match b.as_str() {
            Some(s) => s,
            None => otherwise,
        },
    }
}

/// The path of the `stats.json` sidecar of the project that a context names.
pub open spec fn stats_path_of(ctx: JsonView) -> Seq<char> {
    either(ctx.at("workspace"@).at("project_dir"@), ctx.at("cwd"@), "."@)
        + "/build/plouf-rs-out/.graph/stats.json"@
}

/// The path of the `stats.json` sidecar of the project that a context names.
pub fn stats_path(ctx: &Value) -> (r: String)
    ensures
        r@ == stats_path_of(json::held(*ctx)),
{
    let proj = first_of(
        json::field(json::field(ctx, "workspace"), "project_dir"),
        json::field(ctx, "cwd"),
        ".",
    );
    join2(proj, "/build/plouf-rs-out/.graph/stats.json")
}

/// The path of the transcript that a context names, empty where it names none.
pub fn transcript_path(ctx: &Value) -> (r: String)
    ensures
        r@ == (match json::held(*ctx).at("transcript_path"@).text() {
            Some(s) => s,
            None => ""@,
        }),
{
    match json::field(ctx, "transcript_path").as_str() {
        Some(s) => s.to_string(),
        None => "".to_string(),
    }
}

/// The status line for a context, the text of its project's `stats.json`, the
/// tail of its transcript, and the time.
pub open spec fn status(
    ctx: JsonView,
    stats: Option<Seq<char>>,
    tail: Option<Seq<char>>,
    now: i64,
) -> Seq<char> {
    let dir = either(ctx.at("workspace"@).at("current_dir"@), ctx.at("cwd"@), "."@);
    let model = either(ctx.at("model"@).at("display_name"@), ctx.at("model"@).at("id"@), "?"@);
    let segment = match context(tail) {
        Some(k) => " | ctx "@ + text::decimal(k) + "k"@,
        None => ""@,
    };
    size_line(stats) + " ["@ + (recency(tail, now) + "] | "@ + (model + " | "@ + (scan::last_part(
        dir,
        '/',
    ) + segment)))
}

/// Build the status line from an already-parsed context, the text of its
/// project's `stats.json`, the tail of its transcript, and the time.
pub fn render(ctx: &Value, stats: Option<&str>, tail: Option<&str>, now: i64) -> (r: String)
    ensures
        r@ == status(json::held(*ctx), seqs::opt_view(stats), seqs::opt_view(tail), now),
{
    let dir = first_of(
        json::field(json::field(ctx, "workspace"), "current_dir"),
        json::field(ctx, "cwd"),
        ".",
    );
    let model = first_of(
        json::field(json::field(ctx, "model"), "display_name"),
        json::field(json::field(ctx, "model"), "id"),
        "?",
    );
    let (since, ctx_k) = transcript_stats(tail, now);
    let segment = match ctx_k {
        Some(k) => join3(" | ctx ", &text::to_decimal(k), "k"),
        None => "".to_string(),
    };
    let dir = chars_of(dir);
    let base = string_of(scan::behind_last(&dir, '/'));
    let line = join2(&base, &segment);
    let line = join3(model, " | ", &line);
    let line = join3(&since, "] | ", &line);
    join3(&graph_size(stats), " [", &line)
}

/// How long ago something was is told in the largest unit of which it holds one: a
/// minute, an hour or a day, and in seconds below.
pub proof fn ages_are_told_in_the_largest_unit(n: int, rest: int)
    requires
        n > 0,
    ensures
        0 <= rest < 60 ==> age(rest) == text::signed(rest) + "s ago"@,
        0 <= rest < 60 && n < 60 ==> age(n * 60 + rest) == text::signed(n) + "m ago"@,
        0 <= rest < 3600 && n < 24 ==> age(n * 3600 + rest) == text::signed(n) + "h ago"@,
        0 <= rest < 86400 ==> age(n * 86400 + rest) == text::signed(n) + "d ago"@,
{
}

proof fn lemma_last_query(lines: Seq<Seq<char>>, k: int, i: int)
    requires
        0 <= i < k <= lines.len(),
        query_time(lines[i]) is Some,
        forall|j: int| i < j < k ==> query_time(#[trigger] lines[j]) is None,
    ensures
        last_query(lines, k) == query_time(lines[i]),
    decreases k,
{
    if i < k - 1 {
        assert(query_time(lines[k - 1]) is None);
        lemma_last_query(lines, k - 1, i);
    }
}

proof fn lemma_no_query(lines: Seq<Seq<char>>, k: int)
    requires
        0 <= k <= lines.len(),
        forall|j: int| 0 <= j < k ==> query_time(#[trigger] lines[j]) is None,
    ensures
        last_query(lines, k) is None,
    decreases k,
{
    if k > 0 {
        lemma_no_query(lines, k - 1);
    }
}

/// The age is that of the last line that queries the graph, and there is none where
/// no line does.
pub proof fn the_last_query_counts(tail: Seq<char>, now: i64, i: int)
    requires
        0 <= i < text::lines(tail).len(),
        query_time(text::lines(tail)[i]) is Some,
        forall|j: int| i < j < text::lines(tail).len() ==> query_time(#[trigger] text::lines(tail)[j]) is None,
        i64::MIN <= now - query_time(text::lines(tail)[i])->0 <= i64::MAX,
    ensures
        recency(Some(tail), now) == age(now - query_time(text::lines(tail)[i])->0),
{
    lemma_last_query(text::lines(tail), text::lines(tail).len() as int, i);
}

/// A session that never queried the graph has not used it.
pub proof fn no_query_is_no_use(tail: Seq<char>, now: i64)
    requires
        forall|j: int| 0 <= j < text::lines(tail).len() ==> query_time(#[trigger] text::lines(tail)[j]) is None,
    ensures
        recency(Some(tail), now) == "unused"@,
        recency(None, now) == "unused"@,
{
    lemma_no_query(text::lines(tail), text::lines(tail).len() as int);
}

proof fn lemma_last_tokens(lines: Seq<Seq<char>>, k: int, i: int)
    requires
        0 <= i < k <= lines.len(),
        line_tokens(lines[i]) is Some,
        forall|j: int| i < j < k ==> line_tokens(#[trigger] lines[j]) is None,
    ensures
        last_tokens(lines, k) == line_tokens(lines[i]),
    decreases k,
{
    if i < k - 1 {
        assert(line_tokens(lines[k - 1]) is None);
        lemma_last_tokens(lines, k - 1, i);
    }
}

/// The context is that of the last message that tells its size: all that was put in,
/// read from the cache and written to it, in thousands of tokens.
pub proof fn the_last_message_tells_the_context(
    tail: Seq<char>,
    i: int,
    j: JsonView,
    put: u64,
    read: u64,
    made: u64,
)
    requires
        0 <= i < text::lines(tail).len(),
        json::reads(text::lines(tail)[i], j),
        j.at("message"@).at("usage"@).at("input_tokens"@).number() == Some(put),
        j.at("message"@).at("usage"@).at("cache_read_input_tokens"@).number() == Some(read),
        j.at("message"@).at("usage"@).at("cache_creation_input_tokens"@).number() == Some(made),
        put + read + made > 0,
        forall|k: int| i < k < text::lines(tail).len() ==> line_tokens(#[trigger] text::lines(tail)[k]) is None,
    ensures
        context(Some(tail)) == Some(((put + read + made) / 1000) as nat),
{
    assert(line_tokens(text::lines(tail)[i]) == Some(((put + read + made) / 1000) as nat));
    lemma_last_tokens(text::lines(tail), text::lines(tail).len() as int, i);
}

/// A query of the graph is a shell command that names the tool.
pub proof fn a_query_is_a_command_of_the_tool(j: JsonView, k: int, command: Seq<char>)
    requires
        0 <= k < query::items_of(j.at("message"@).at("content"@)).len(),
        query::items_of(j.at("message"@).at("content"@))[k].at("type"@).text() == Some("tool_use"@),
        query::items_of(j.at("message"@).at("content"@))[k].at("name"@).text() == Some("Bash"@),
        query::items_of(j.at("message"@).at("content"@))[k].at("input"@).at("command"@).text() == Some(command),
    ensures
        (exists|i: int| #[trigger] text::occurs(command, i, "plouf-rs"@)) ==> queries_plouf(j),
{
    let parts = query::items_of(j.at("message"@).at("content"@));
    if exists|i: int| #[trigger] text::occurs(command, i, "plouf-rs"@) {
        assert(runs_plouf(parts[k]));
    }
}

} // verus!
