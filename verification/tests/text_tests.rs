use notefile::text::{display_short, display_tags, display_ts, truncate};

#[test]
fn truncate_returns_short_text_unchanged() {
    assert_eq!(truncate("hello".to_string(), 20), "hello");
    assert_eq!(truncate("hello".to_string(), 5), "hello");
}

#[test]
fn truncate_cuts_and_marks_long_text() {
    assert_eq!(truncate("hello world".to_string(), 8), "hello...");
}

#[test]
fn truncate_trims_blanks_at_the_cut() {
    assert_eq!(truncate("ab   cdefghij".to_string(), 6), "ab...");
}

#[test]
fn display_short_cuts_at_twenty() {
    assert_eq!(display_short(&"a short title".to_string()), "a short title");
    assert_eq!(
        display_short(&"a very long title that keeps going".to_string()),
        "a very long title...",
    );
}

#[test]
fn display_tags_joins_with_comma() {
    assert_eq!(display_tags(&vec![]), "");
    assert_eq!(display_tags(&vec!["a".to_string()]), "a");
    assert_eq!(display_tags(&vec!["a".to_string(), "b".to_string()]), "a, b");
}

#[test]
fn display_ts_zero_is_never() {
    assert_eq!(display_ts(0, 12345), "Never");
}

#[test]
fn display_ts_past_is_ago() {
    assert_eq!(display_ts(100, 200), "1m 40s ago");
}

#[test]
fn display_ts_future_is_in() {
    assert_eq!(display_ts(200, 100), "in 1m 40s");
}
