use reconcile_engine::glob::glob_match;

#[test]
fn glob_basics() {
    assert!(glob_match("*", "anything"));
    assert!(glob_match("user:*", "user:1"));
    assert!(!glob_match("user:*", "cfg:1"));
    assert!(glob_match("a*c", "abc"));
    assert!(glob_match("a*c", "ac"));
    assert!(!glob_match("a*c", "ab"));
}

#[test]
fn star_matches_the_empty_text() {
    assert!(glob_match("*", ""));
    assert!(glob_match("**", ""));
    assert!(!glob_match("", "x"));
    assert!(glob_match("", ""));
}

#[test]
fn literal_patterns_match_only_themselves() {
    assert!(glob_match("changes:people", "changes:people"));
    assert!(!glob_match("changes:people", "changes:peoples"));
    assert!(!glob_match("changes:people", "changes:peopl"));
}

#[test]
fn stars_in_the_middle_backtrack() {
    assert!(glob_match("a*b*c", "axxbyyc"));
    assert!(glob_match("*:*", "entry:x"));
    assert!(!glob_match("a*b*c", "axxbyy"));
    assert!(glob_match("é*", "élan"));
}
