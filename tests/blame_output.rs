use azkaban_monitor::blame::{extract_latest_author, resolve_owner};

#[test]
fn latest_author_wins() {
    let out = "^1a2b3c4 (alice 2024-01-02 10:00:00 +0800 217) - name: a\n\
               5d6e7f80 (bob   2024-03-05 09:00:00 +0800 218)   type: command\n\
               9a8b7c6d (carol 2023-12-31 23:59:59 +0800 219)   command: x\n";
    assert_eq!(extract_latest_author(out), "bob");
}

#[test]
fn equal_times_keep_first_seen() {
    let out = "x (alice 2024-01-02 10:00:00 +0800 1) a\ny (bob 2024-01-02 10:00:00 +0800 2) b\n";
    assert_eq!(extract_latest_author(out), "alice");
}

#[test]
fn invalid_dates_are_skipped() {
    let out = "x (alice 2024-02-30 10:00:00 +0800 1) a\ny (bob 2020-02-29 10:00:00 +0800 2) b\nz (carol 2024-01-01 24:00:00 +0800 3) c\n";
    assert_eq!(extract_latest_author(out), "bob");
}

#[test]
fn leap_second_is_a_valid_time() {
    let out = "x (alice 2016-12-31 23:59:59 +0000 1) a\ny (bob 2016-12-31 23:59:60 +0000 2) b\n";
    assert_eq!(extract_latest_author(out), "bob");
}

#[test]
fn only_first_mention_of_a_line_counts() {
    let out = "x (alice 2024-13-01 10:00:00 (bob 2025-01-01 10:00:00\ny (carol 2020-01-01 10:00:00 +0800 2) b\n";
    assert_eq!(extract_latest_author(out), "carol");
}

#[test]
fn no_recognizable_output_gives_empty_owner() {
    assert_eq!(extract_latest_author(""), "");
    assert_eq!(extract_latest_author("fatal: no such path 'x' in HEAD\n"), "");
    assert_eq!(extract_latest_author("x (alice 2024/01/02 10:00:00) a\n"), "");
    assert_eq!(resolve_owner(true, "garbage\nmore garbage\n"), "");
}

#[test]
fn failed_blame_gives_empty_owner() {
    let out = "x (alice 2024-01-02 10:00:00 +0800 1) a\n";
    assert_eq!(resolve_owner(false, out), "");
    assert_eq!(resolve_owner(true, out), "alice");
}
