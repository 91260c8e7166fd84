use rinkaku::git_quote::{split_quoted_token, unquote_git_path};
use rinkaku::repo_path::is_repo_relative;
use std::borrow::Cow;

fn decoded(input: &str) -> Option<String> {
    unquote_git_path(input).map(|p| p.into_owned())
}

#[test]
fn should_pass_an_unquoted_path_through() {
    assert_eq!(Some("src/lib.rs".to_string()), decoded("src/lib.rs"));
}

#[test]
fn should_pass_an_unquoted_path_with_a_space_through() {
    assert_eq!(Some("src/a b.rs".to_string()), decoded("src/a b.rs"));
}

#[test]
fn should_decode_octal_escaped_utf8() {
    assert_eq!(
        Some("src/日本語.rs".to_string()),
        decoded("\"src/\\346\\227\\245\\346\\234\\254\\350\\252\\236.rs\"")
    );
}

#[test]
fn should_decode_an_escaped_quote() {
    assert_eq!(Some("src/a\"b.rs".to_string()), decoded("\"src/a\\\"b.rs\""));
}

#[test]
fn should_decode_an_escaped_backslash() {
    assert_eq!(Some("src/a\\b.rs".to_string()), decoded("\"src/a\\\\b.rs\""));
}

#[test]
fn should_decode_a_named_control_escape() {
    assert_eq!(Some("src/a\tb.rs".to_string()), decoded("\"src/a\\tb.rs\""));
}

#[test]
fn should_decode_a_newline_escape() {
    assert_eq!(Some("src/a\nb.rs".to_string()), decoded("\"src/a\\nb.rs\""));
}

#[test]
fn should_decode_an_octal_control_escape() {
    assert_eq!(Some("src/a\u{1b}b.rs".to_string()), decoded("\"src/a\\033b.rs\""));
}

#[test]
fn should_decode_an_empty_quoted_path() {
    assert_eq!(Some(String::new()), decoded("\"\""));
}

#[test]
fn should_reject_an_unterminated_quote() {
    assert_eq!(None, decoded("\"src/lib.rs"));
}

#[test]
fn should_reject_an_escape_at_end_of_input() {
    assert_eq!(None, decoded("\"src/lib.rs\\\""));
}

#[test]
fn should_reject_a_truncated_octal_escape() {
    assert_eq!(None, decoded("\"src/\\34\""));
}

#[test]
fn should_reject_a_non_octal_digit_in_escape() {
    assert_eq!(None, decoded("\"src/\\389\""));
}

#[test]
fn should_reject_an_unknown_escape_letter() {
    assert_eq!(None, decoded("\"src/\\q.rs\""));
}

#[test]
fn should_reject_an_octal_escape_that_is_not_utf8() {
    assert_eq!(None, decoded("\"src/\\377.rs\""));
}

#[test]
fn should_reject_a_bare_quote_inside_the_token() {
    assert_eq!(None, decoded("\"src/a\"b.rs\""));
}

#[test]
fn should_reject_a_lone_quote() {
    assert_eq!(None, decoded("\""));
}

#[test]
fn should_reject_an_octal_escape_above_one_byte() {
    assert_eq!(None, decoded("\"src/\\400\""));
}

#[test]
fn should_decode_a_parent_escape_rather_than_hiding_it() {
    let expected = "a/../etc/passwd";
    assert_eq!(Some(expected.to_string()), decoded("\"a/\\056\\056/etc/passwd\""));
    assert_eq!(false, is_repo_relative(expected));
}

#[test]
fn should_decode_an_absolute_path_rather_than_hiding_it() {
    let expected = "/etc/shadow";
    assert_eq!(Some(expected.to_string()), decoded("\"\\057etc\\057shadow\""));
    assert_eq!(false, is_repo_relative(expected));
}

#[test]
fn should_borrow_without_allocating_when_the_path_is_unquoted() {
    let actual = unquote_git_path("src/lib.rs");

    assert_eq!(true, matches!(actual, Some(Cow::Borrowed(_))));
}

#[test]
fn should_split_a_plain_token() {
    assert_eq!(
        Some(("\"a/x.rs\"", " \"b/x.rs\"")),
        split_quoted_token("\"a/x.rs\" \"b/x.rs\"")
    );
}

#[test]
fn should_split_a_token_containing_an_escaped_quote() {
    assert_eq!(
        Some(("\"a/x\\\"y.rs\"", " rest")),
        split_quoted_token("\"a/x\\\"y.rs\" rest")
    );
}

#[test]
fn should_split_a_token_containing_an_escaped_backslash() {
    assert_eq!(
        Some(("\"a/x\\\\.rs\"", " rest")),
        split_quoted_token("\"a/x\\\\.rs\" rest")
    );
}

#[test]
fn should_split_a_token_containing_a_space() {
    assert_eq!(
        Some(("\"a/x y.rs\"", " rest")),
        split_quoted_token("\"a/x y.rs\" rest")
    );
}

#[test]
fn should_split_a_token_with_nothing_after_it() {
    assert_eq!(Some(("\"a/x.rs\"", "")), split_quoted_token("\"a/x.rs\""));
}

#[test]
fn should_split_a_token_followed_by_multibyte_text() {
    assert_eq!(Some(("\"a\"", "日本")), split_quoted_token("\"a\"日本"));
}

#[test]
fn should_not_split_an_unquoted_token() {
    assert_eq!(None, split_quoted_token("a/x.rs b/x.rs"));
}

#[test]
fn should_not_split_an_unterminated_token() {
    assert_eq!(None, split_quoted_token("\"a/x.rs"));
}

#[test]
fn should_not_split_when_the_closing_quote_is_escaped_away() {
    assert_eq!(None, split_quoted_token("\"a/x.rs\\\""));
}

#[test]
fn should_hand_back_a_decoded_quoted_path_owned_and_a_plain_one_borrowed() {
    assert!(matches!(unquote_git_path("\"a\\tb.rs\""), Some(Cow::Owned(ref p)) if p == "a\tb.rs"));
    assert!(matches!(unquote_git_path("\"src/\\346\\227\\245.rs\""), Some(Cow::Owned(ref p)) if p == "src/日.rs"));
    assert!(matches!(unquote_git_path("src/plain.rs"), Some(Cow::Borrowed("src/plain.rs"))));
}
