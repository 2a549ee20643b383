use vllm_top::scrape::{metrics_url, sanitize_for_terminal, MAX_ERROR_CHARS};

#[test]
fn sanitize_escapes_control_characters_into_visible_notation() {
    // terminal escape sequences, the delete byte, carriage returns,
    // and an unescaped newline all become notation: the output
    // carries no raw control byte
    let safe = sanitize_for_terminal("m:h{mode=\"\u{1b}[2J\u{7f}\r\nx\"} too large");
    assert!(!safe.chars().any(char::is_control), "message was: {safe:?}");
    for notation in ["\\x1b", "\\x7f", "\\r", "\\n"] {
        assert!(safe.contains(notation), "missing {notation}: {safe:?}");
    }
}

#[test]
fn sanitize_truncates_overlong_messages_with_a_marker() {
    let safe = sanitize_for_terminal(&"x".repeat(400));
    assert_eq!(safe.chars().count(), MAX_ERROR_CHARS);
    assert!(safe.ends_with('\u{2026}'), "message was: {safe:?}");
    // a hostile payload cannot smuggle controls past the cut either
    let hostile = sanitize_for_terminal(&format!("{}\u{1b}", "x".repeat(400)));
    assert!(!hostile.chars().any(char::is_control));
    assert!(hostile.ends_with('\u{2026}'));
}

#[test]
fn sanitize_leaves_benign_messages_unchanged() {
    let msg = "endpoint too large: m:h{mode=\"decode\"} has 257 buckets (cap 256)";
    assert_eq!(sanitize_for_terminal(msg), msg);
}

#[test]
fn url_normalization() {
    assert_eq!(
        metrics_url("http://localhost:30000"),
        "http://localhost:30000/metrics"
    );
    assert_eq!(
        metrics_url("http://localhost:30000/"),
        "http://localhost:30000/metrics"
    );
    assert_eq!(
        metrics_url("https://example.org/metrics"),
        "https://example.org/metrics"
    );
}
