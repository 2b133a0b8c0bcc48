use factory_planner::perf_log::{truncate, utc_stamp};

#[test]
fn column_truncation() {
    assert_eq!(truncate("hello", 10), "hello");
    assert_eq!(truncate("hello", 5), "hello");
    assert_eq!(truncate("hello world", 6), "hello…");
    assert_eq!(truncate("abcd", 1), "…");
    assert_eq!(truncate("abcd", 0), "…");
    // "héllo" is six bytes; four leave "hé" (three bytes) and the ellipsis
    assert_eq!(truncate("héllo", 4), "hé…");
    assert_eq!(truncate("", 0), "");
}

#[test]
fn session_stamp() {
    assert_eq!(utc_stamp(0), "unix=0");
    assert_eq!(utc_stamp(1_700_000_000), "unix=1700000000");
}
