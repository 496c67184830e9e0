//! The status line.

use plouf_rs::statusline::{
    days_from_civil, format_age, graph_size, is_plouf_query, parse_iso_epoch, read_context, render, stats_path, transcript_path,
    transcript_stats, usage_tokens,
};
use serde_json::Value;

fn json(text: &str) -> Value {
    serde_json::from_str(text).unwrap()
}

#[test]
fn epoch_and_civil_days_are_correct() {
    assert_eq!(days_from_civil(1970, 1, 1), 0);
    assert_eq!(parse_iso_epoch("1970-01-01T00:00:00Z"), Some(0));
    assert_eq!(parse_iso_epoch("2000-01-01T00:00:00Z"), Some(946_684_800));
    assert_eq!(parse_iso_epoch("2026-08-24T10:19:02.221Z"), Some(1_787_566_742));
    assert_eq!(parse_iso_epoch("nonsense"), None);
}

#[test]
fn age_formatting_buckets() {
    assert_eq!(format_age(45), "45s ago");
    assert_eq!(format_age(120), "2m ago");
    assert_eq!(format_age(7200), "2h ago");
    assert_eq!(format_age(172_800), "2d ago");
}

#[test]
fn detects_a_plouf_bash_call_and_usage() {
    let plouf = json(
        r#"{"message": {"content": [
        {"type": "text", "text": "hi"},
        {"type": "tool_use", "name": "Bash", "input": {"command": "plouf-rs callers X"}}
    ]}}"#,
    );
    let other = json(
        r#"{"message": {"content": [
        {"type": "tool_use", "name": "Bash", "input": {"command": "grep -r X app/"}}
    ]}}"#,
    );
    assert!(is_plouf_query(&plouf));
    assert!(!is_plouf_query(&other));
    assert!(!is_plouf_query(&json(r#"{"type": "user", "message": {"content": "plouf-rs is great"}}"#)));

    let usage = json(
        r#"{"message": {"usage": {"input_tokens": 10, "cache_read_input_tokens": 5, "cache_creation_input_tokens": 2}}}"#,
    );
    assert_eq!(usage_tokens(&usage), Some(17));
    assert_eq!(usage_tokens(&json(r#"{"message": {}}"#)), None);
}

#[test]
fn graph_size_reads_stats_or_reports_no_index() {
    assert_eq!(graph_size(Some(r#"{"nodes":10,"edges":20}"#)), "plouf 10n/20e");
    // A project with no index sidecar reports a terse marker.
    assert_eq!(graph_size(None), "plouf (no index)");
}

#[test]
fn transcript_stats_reports_recency_and_context_tokens() {
    let plouf_call = r#"{"timestamp": "2020-01-02T03:04:05.000Z", "message": {"content": [
        {"type": "tool_use", "name": "Bash", "input": {"command": "plouf-rs find X"}}]}}"#
        .replace('\n', " ");
    let usage = r#"{"message": {"usage": {"input_tokens": 40000, "cache_read_input_tokens": 5000}}}"#;
    let tail = format!("{plouf_call}\n{usage}\n");
    let (recency, ctx_k) = transcript_stats(Some(&tail), 1_787_566_742);
    // A 2020 query is years in the past -> an "Nd ago" recency, never "unused".
    assert!(recency.ends_with("ago") && recency != "unused", "recency: {recency}");
    assert_eq!(recency, "2426d ago");
    assert_eq!(ctx_k, Some(45)); // (40000 + 5000) / 1000
    // No transcript -> unused, no tokens.
    assert_eq!(transcript_stats(None, 1_787_566_742), ("unused".to_string(), None));
}

#[test]
fn render_builds_the_status_line_with_fallbacks() {
    // No index, no transcript: falls back to "(no index)" / "[unused]", and
    // the cwd is shown by its basename with no ctx segment.
    let ctx = json(
        r#"{
        "workspace": {"project_dir": "/no/such/plouf/proj", "current_dir": "/srv/apps/myrepo"},
        "model": {"display_name": "Opus 4.8"},
        "transcript_path": ""
    }"#,
    );
    assert_eq!(render(&ctx, None, None, 0), "plouf (no index) [unused] | Opus 4.8 | myrepo");
    assert_eq!(stats_path(&ctx), "/no/such/plouf/proj/build/plouf-rs-out/.graph/stats.json");
    assert_eq!(transcript_path(&ctx), "");

    // Model id is the fallback when there is no display name; `.` when the
    // workspace is absent entirely.
    let bare = json(r#"{"model": {"id": "model-x"}}"#);
    assert_eq!(render(&bare, None, None, 0), "plouf (no index) [unused] | model-x | .");
    assert_eq!(stats_path(&bare), "./build/plouf-rs-out/.graph/stats.json");
}

#[test]
fn the_calendar_is_followed() {
    assert_eq!(days_from_civil(1969, 12, 31), -1);
    assert_eq!(days_from_civil(2000, 2, 29) + 1, days_from_civil(2000, 3, 1));
    assert_eq!(days_from_civil(1900, 2, 28) + 1, days_from_civil(1900, 3, 1));
    assert_eq!(days_from_civil(2023, 12, 31) + 1, days_from_civil(2024, 1, 1));
    // A month out of range is counted on, rounded toward zero.
    assert_eq!(days_from_civil(2000, 13, 1), days_from_civil(2001, 1, 1));
    assert_eq!(days_from_civil(2000, -20, 1), 10_315);
}

#[test]
fn an_age_changes_its_unit_at_its_bounds() {
    assert_eq!(format_age(0), "0s ago");
    assert_eq!(format_age(59), "59s ago");
    assert_eq!(format_age(60), "1m ago");
    assert_eq!(format_age(3599), "59m ago");
    assert_eq!(format_age(3600), "1h ago");
    assert_eq!(format_age(86_399), "23h ago");
    assert_eq!(format_age(86_400), "1d ago");
}

#[test]
fn the_context_of_a_session_is_read() {
    let ctx = read_context(r#"{"transcript_path": "/tmp/t.jsonl"}"#);
    assert_eq!(transcript_path(&ctx), "/tmp/t.jsonl");
    // What is no JSON is no context.
    assert!(read_context("{nope").is_null());
    assert!(read_context("").is_null());
}
