use tingfm_radio::matcher::{glob_matches, is_url_matched, pattern_to_regex};

#[test]
fn test_glob_match() {
    assert!(is_url_matched("https://example.com/path", &["https://example.com/*".to_string()]));
    assert!(!is_url_matched("https://other.com/", &["https://example.com/*".to_string()]));
}

#[test]
fn test_regex_match() {
    assert!(is_url_matched(
        "https://example.com/abc",
        &["regex:https://example\\.com/.*".to_string()]
    ));
    assert!(!is_url_matched(
        "https://other.com/",
        &["regex:https://example\\.com/.*".to_string()]
    ));
}

#[test]
fn test_empty_patterns() {
    assert!(!is_url_matched("https://example.com/", &[]));
}

#[test]
fn glob_is_rewritten_into_an_anchored_expression() {
    assert_eq!(pattern_to_regex("https://a.com/*?x+(y)"), "^https://a\\.com/.*.x\\+\\(y\\)$");
    assert_eq!(pattern_to_regex(""), "^$");
    assert_eq!(pattern_to_regex("[a]{b}^$|\\"), "^\\[a\\]\\{b\\}\\^\\$\\|\\\\$");
}

#[test]
fn glob_question_mark_stands_for_one_character() {
    assert!(glob_matches("https://a.com/x", "https://a.com/?"));
    assert!(!glob_matches("https://a.com/xy", "https://a.com/?"));
    assert!(!glob_matches("https://aXcom/x", "https://a.com/?"));
}

#[test]
fn glob_is_anchored_at_both_ends() {
    assert!(!glob_matches("xhttps://a.com/", "https://a.com/*"));
    assert!(glob_matches("https://a.com/", "https://a.com/*"));
}

#[test]
fn invalid_regex_pattern_accepts_nothing() {
    assert!(!is_url_matched("https://a.com/", &["regex:(".to_string()]));
}

#[test]
fn any_pattern_of_the_list_may_accept() {
    let ps = vec!["https://b.com/*".to_string(), "regex:^https://a".to_string()];
    assert!(is_url_matched("https://a.com/x", &ps));
    assert!(!is_url_matched("http://a.com/x", &ps));
}
