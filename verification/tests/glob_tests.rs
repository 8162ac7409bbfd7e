use cntryl_stress::glob::{contains_substring, matches_glob};

#[test]
fn glob_matches_substring() {
    assert!(matches_glob("foo_bar_baz", "bar"));
    assert!(!matches_glob("foo_bar_baz", "qux"));
}

#[test]
fn glob_matches_wildcard() {
    assert!(matches_glob("foo_bar_baz", "foo*baz"));
    assert!(matches_glob("foo_bar_baz", "*bar*"));
    assert!(matches_glob("foo_bar_baz", "foo*"));
    assert!(matches_glob("foo_bar_baz", "*baz"));
    assert!(!matches_glob("foo_bar_baz", "qux*"));
}

#[test]
fn glob_is_case_insensitive() {
    assert!(matches_glob("FooBar", "foobar"));
    assert!(matches_glob("foobar", "FOO*"));
}

#[test]
fn glob_matches_compact_name() {
    assert!(matches_glob("foobaz", "foo*baz"));
    assert!(!matches_glob("xfoobaz", "foo*baz"));
    assert!(!matches_glob("foobazx", "foo*baz"));
}

#[test]
fn glob_multiple_wildcards_in_order() {
    assert!(matches_glob("a_b_c", "a*b*c"));
    assert!(!matches_glob("a_c_b", "a*b*c"));
    assert!(matches_glob("anything", "*"));
}

#[test]
fn substring_search_is_case_sensitive() {
    assert!(contains_substring("foo_bar", "bar"));
    assert!(!contains_substring("foo_bar", "BAR"));
    assert!(contains_substring("foo_bar", ""));
}
