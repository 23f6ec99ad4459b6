use ghsync::glob::{glob_match, glob_match_bytes};

#[test]
fn star_matches_everything() {
    assert!(glob_match("*", ""));
    assert!(glob_match("*", "a"));
    assert!(glob_match("*", "anything"));
    assert!(glob_match("*", "MiXeD-Case_123"));
}

#[test]
fn question_mark_matches_exactly_one() {
    assert!(glob_match("a?c", "abc"));
    assert!(!glob_match("a?c", "ac"));
    assert!(!glob_match("a?c", "abbc"));
    assert!(!glob_match("?", ""));
    assert!(glob_match("?", "x"));
}

#[test]
fn matching_is_case_insensitive() {
    assert!(glob_match("A*", "apple"));
    assert!(glob_match("a*", "APPLE"));
    assert!(glob_match("AbC", "aBc"));
    assert!(glob_match("TDA-*", "tda-tools"));
}

#[test]
fn literals_match_themselves() {
    assert!(glob_match("", ""));
    assert!(!glob_match("", "x"));
    assert!(!glob_match("x", ""));
    assert!(glob_match("abc", "abc"));
    assert!(!glob_match("abc", "abd"));
}

#[test]
fn star_backtracks_over_both_branches() {
    assert!(glob_match("a*b*c", "aXbYc"));
    assert!(!glob_match("a*b*c", "aXbY"));
    assert!(glob_match("*a*b", "xayb"));
    assert!(glob_match("**", "ab"));
    assert!(glob_match("a*", "a"));
    assert!(!glob_match("a*", "ba"));
}

#[test]
fn byte_level_matcher_is_case_sensitive() {
    assert!(glob_match_bytes("a*".as_bytes(), "abc".as_bytes()));
    assert!(!glob_match_bytes("A*".as_bytes(), "abc".as_bytes()));
    assert!(glob_match_bytes("".as_bytes(), "".as_bytes()));
    assert!(glob_match_bytes("*".as_bytes(), "".as_bytes()));
}
