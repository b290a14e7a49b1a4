use uzumibi::scaffold::{replace_all, strip_prefix_str, substitute_project_name};

#[test]
fn project_name_is_filled_in() {
    let text = "name = \"$$PROJECT_NAME$$\"\nuse $$PROJECT_NAME_UNDERSCORE$$::*;\n";
    assert_eq!(
        substitute_project_name(text, "my-edge-app"),
        "name = \"my-edge-app\"\nuse my_edge_app::*;\n"
    );
}

#[test]
fn text_without_placeholders_stays() {
    assert_eq!(substitute_project_name("", "x"), "");
    assert_eq!(substitute_project_name("$PROJECT_NAME$ \u{65e5}\u{672c}", "x"), "$PROJECT_NAME$ \u{65e5}\u{672c}");
    assert_eq!(substitute_project_name("$$PROJECT_NAME$", "x"), "$$PROJECT_NAME$");
}

#[test]
fn a_name_that_holds_a_placeholder_is_filled_in_again() {
    assert_eq!(
        substitute_project_name("$$PROJECT_NAME$$", "$$PROJECT_NAME_UNDERSCORE$$"),
        "$$PROJECT_NAME_UNDERSCORE$$"
    );
    assert_eq!(
        substitute_project_name("<$$PROJECT_NAME$$>", "a-$$PROJECT_NAME_UNDERSCORE$$"),
        "<a-a_$$PROJECT_NAME_UNDERSCORE$$>"
    );
}

#[test]
fn replace_all_takes_occurrences_from_the_left() {
    assert_eq!(replace_all("aaa", "aa", "b"), "ba");
    assert_eq!(replace_all("a-b--c", "-", "_"), "a_b__c");
    assert_eq!(replace_all("abab", "ab", ""), "");
    assert_eq!(replace_all("\u{e9}x\u{e9}", "x", "\u{65e5}"), "\u{e9}\u{65e5}\u{e9}");
    assert_eq!(replace_all("abc", "abcd", "x"), "abc");
}

#[test]
fn strip_prefix_str_removes_a_leading_pattern() {
    assert_eq!(strip_prefix_str("hello", "he"), Some("llo"));
    assert_eq!(strip_prefix_str("hello", ""), Some("hello"));
    assert_eq!(strip_prefix_str("hello", "hello"), Some(""));
    assert_eq!(strip_prefix_str("hello", "hex"), None);
    assert_eq!(strip_prefix_str("he", "hel"), None);
    assert_eq!(strip_prefix_str("\u{e9}a", "a"), None);
}
