use rinkaku::escape::escape_control_chars;
use std::borrow::Cow;

fn escaped(input: &str) -> String {
    escape_control_chars(input).into_owned()
}

#[test]
fn should_keep_plain_text() {
    assert_eq!("src/lib.rs", escaped("src/lib.rs"));
}

#[test]
fn should_keep_newlines_and_tabs() {
    assert_eq!("## Definitions\n\tfn foo()\n", escaped("## Definitions\n\tfn foo()\n"));
}

#[test]
fn should_keep_multibyte_text() {
    assert_eq!("fn 輪郭() {}", escaped("fn 輪郭() {}"));
}

#[test]
fn should_escape_an_ansi_color_sequence() {
    assert_eq!(
        "src/\\u{1b}[31mPWNED\\u{1b}[0m.rs",
        escaped("src/\u{1b}[31mPWNED\u{1b}[0m.rs")
    );
}

#[test]
fn should_escape_an_osc_window_title_sequence() {
    assert_eq!("src/\\u{1b}]0;hijack\\u{7}x.rs", escaped("src/\u{1b}]0;hijack\u{7}x.rs"));
}

#[test]
fn should_escape_a_carriage_return_used_to_overwrite_a_line() {
    assert_eq!("harmless line\\u{d}PWNED", escaped("harmless line\rPWNED"));
}

#[test]
fn should_escape_delete() {
    assert_eq!("before\\u{7f}after", escaped("before\u{7f}after"));
}

#[test]
fn should_escape_a_c1_control() {
    assert_eq!("before\\u{9b}31m", escaped("before\u{9b}31m"));
}

#[test]
fn should_escape_a_nul() {
    assert_eq!("a\\u{0}b", escaped("a\u{0}b"));
}

#[test]
fn should_borrow_without_allocating_when_there_is_nothing_to_escape() {
    let actual = escape_control_chars("## Definitions\n\nfn foo()\n");

    assert_eq!(true, matches!(actual, Cow::Borrowed(_)));
}

#[test]
fn should_leave_escaped_output_unchanged_when_escaped_again() {
    let once = escaped("x\u{1b}y\u{9f}");

    assert_eq!(once, escaped(&once));
}

#[test]
fn should_leave_escaped_text_unchanged_when_escaped_again() {
    let once = escaped("a\u{1b}[31mb\u{9b}c\u{7f}");

    assert_eq!(once, escaped(&once));
    assert!(!once.chars().any(|c| c.is_control() && c != '\n' && c != '\t'));
}

#[test]
fn should_hand_back_escaped_text_owned() {
    assert!(matches!(escape_control_chars("a\u{1b}b"), Cow::Owned(ref s) if s == "a\\u{1b}b"));
}
