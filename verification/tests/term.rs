use crok::term::{compute_rule_string, rule_dashes, rule_room, shorten, show_escapes, term_width};

#[test]
fn test_compute_rule_string() {
    assert_eq!(compute_rule_string("Hello, world!", 10), "Hello…rld!");
    assert_eq!(compute_rule_string("Hello, world!", 11), "Hello…orld!");
    assert_eq!(compute_rule_string("Hello, world!", 12), "Hello,…orld!");
    assert_eq!(compute_rule_string("Hello, world!", 13), "Hello, world!");
    assert_eq!(compute_rule_string("Hello, world!", 14), "Hello, world!");
}

#[test]
fn wide_text_and_clusters_are_kept_whole() {
    assert_eq!(compute_rule_string("日本語日本語", 6), "日…語");
    assert_eq!(compute_rule_string("e\u{301}e\u{301}e\u{301}e\u{301}", 3), "e\u{301}…e\u{301}");
    assert_eq!(compute_rule_string("abc", 0), "…");
}

#[test]
fn both_ends_are_kept() {
    let clusters: Vec<String> = "abcdef".chars().map(|c| c.to_string()).collect();
    assert_eq!(shorten(&clusters, 4), "ab…f");
    assert_eq!(shorten(&clusters, 1), "…");
}

#[test]
fn the_width_is_estimated() {
    assert_eq!(term_width(Some(80)), 79);
    assert_eq!(term_width(None), 79);
    assert_eq!(term_width(Some(1)), 0);
}

#[test]
fn escapes_are_shown() {
    assert_eq!(show_escapes("a\x1b[1mb"), "a\u{241b}[1mb");
}

#[test]
fn rules_are_laid_out() {
    assert_eq!(rule_room(79), Some(70));
    assert_eq!(rule_room(10), Some(1));
    assert_eq!(rule_room(9), None);
    assert_eq!(rule_dashes(10, "日本"), Some(6));
    assert_eq!(rule_dashes(4, "日本"), Some(0));
    assert_eq!(rule_dashes(3, "日本"), None);
}
