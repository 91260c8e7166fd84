use rinkaku::repo_path::is_repo_relative;

#[test]
fn should_accept_a_plain_relative_path() {
    assert_eq!(true, is_repo_relative("src/lib.rs"));
}

#[test]
fn should_accept_a_bare_file_name() {
    assert_eq!(true, is_repo_relative("README.md"));
}

#[test]
fn should_accept_a_dot_slash_prefix() {
    assert_eq!(true, is_repo_relative("./src/lib.rs"));
}

#[test]
fn should_accept_an_interior_dot_component() {
    assert_eq!(true, is_repo_relative("src/./lib.rs"));
}

#[test]
fn should_accept_a_name_merely_starting_with_two_dots() {
    assert_eq!(true, is_repo_relative("src/..hidden.rs"));
}

#[test]
fn should_accept_a_name_merely_ending_with_two_dots() {
    assert_eq!(true, is_repo_relative("src/hidden...rs"));
}

#[test]
fn should_reject_empty() {
    assert_eq!(false, is_repo_relative(""));
}

#[test]
fn should_reject_whitespace_only() {
    assert_eq!(false, is_repo_relative("   "));
}

#[test]
fn should_reject_unicode_whitespace_only() {
    assert_eq!(false, is_repo_relative("\u{3000}\t\u{a0}"));
}

#[test]
fn should_reject_posix_absolute() {
    assert_eq!(false, is_repo_relative("/etc/passwd"));
}

#[test]
fn should_reject_double_slash_absolute() {
    assert_eq!(false, is_repo_relative("//etc/passwd"));
}

#[test]
fn should_reject_parent_escape() {
    assert_eq!(false, is_repo_relative("../secret/creds.py"));
}

#[test]
fn should_reject_interior_parent_escape() {
    assert_eq!(false, is_repo_relative("src/../../secret/creds.py"));
}

#[test]
fn should_reject_trailing_parent_component() {
    assert_eq!(false, is_repo_relative("src/.."));
}

#[test]
fn should_reject_backslash_parent_escape() {
    assert_eq!(false, is_repo_relative("..\\secret\\creds.py"));
}

#[test]
fn should_reject_windows_drive_absolute() {
    assert_eq!(false, is_repo_relative("C:\\Users\\victim\\.ssh\\id_rsa"));
}

#[test]
fn should_reject_windows_drive_with_forward_slashes() {
    assert_eq!(false, is_repo_relative("c:/Users/victim/.ssh/id_rsa"));
}

#[test]
fn should_reject_unc_path() {
    assert_eq!(false, is_repo_relative("\\\\server\\share\\secret"));
}
