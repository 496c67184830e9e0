//! HTML templates.

use plouf_rs::html::extract;

#[test]
fn captures_pipe_usages_and_skips_logical_or() {
    let code = "<p>{{ createdAt | timeAgo }}</p>\n<b>{{ n | number:'1.0-2' }}</b>\n<i *ngIf=\"a || b\">x</i>";
    let (_, edges) = extract("src/app/x.html", "x.html", code);
    assert!(edges.iter().any(|e| e.relation == "uses-pipe" && e.name.as_deref() == Some("timeAgo")));
    assert!(edges.iter().any(|e| e.relation == "uses-pipe" && e.name.as_deref() == Some("number")));
    assert!(!edges.iter().any(|e| e.relation == "uses-pipe" && e.name.as_deref() == Some("b")));
}
