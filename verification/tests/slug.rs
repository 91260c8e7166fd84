use rinkaku::slug::{is_valid_repo_segment, MAX_SEGMENT_LEN};

#[test]
fn should_accept_segment_when_it_looks_like_a_github_name() {
    for segment in ["octocat", "hello-world", "rinkaku.rs", "hello_world", "2024", "Hello-World", ".github"] {
        assert_eq!(true, is_valid_repo_segment(segment), "{segment}");
    }
}

#[test]
fn should_reject_segment_when_it_could_not_be_a_github_name() {
    for segment in [
        "",
        ".",
        "..",
        "-filter=blob:none",
        "octocat/hello-world",
        "octocat\\hello-world",
        "hello world",
        "hello\u{1b}world",
        "こんにちは",
    ] {
        assert_eq!(false, is_valid_repo_segment(segment), "{segment}");
    }
}

#[test]
fn should_reject_segment_when_it_is_longer_than_the_length_bound() {
    let actual = is_valid_repo_segment(&"a".repeat(MAX_SEGMENT_LEN + 1));

    assert_eq!(false, actual);
    assert!(is_valid_repo_segment(&"a".repeat(MAX_SEGMENT_LEN)));
}
