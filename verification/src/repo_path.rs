//! Containment check for the paths a unified diff carries.
//!
//! Every path in a report is meant to be repository-root-relative; the
//! diff that supplies them may come from anyone, so this predicate is what
//! turns "meant to be" into a checked property.

use crate::text::{all_whitespace, spec_all_whitespace, spec_is_ascii_alphabetic, str_chars};
use vstd::prelude::*;

verus! {

/// A path separator under either convention.
pub open spec fn is_separator(c: char) -> bool {
    c == '/' || c == '\\'
}

/// Whether `s` has a `..` component, components being split at `/` or `\`.
pub open spec fn has_parent_component(s: Seq<char>) -> bool {
    exists|i: int|
        0 <= i && i + 2 <= s.len() && #[trigger] s[i] == '.' && s[i + 1] == '.' && (i == 0
            || is_separator(s[i - 1])) && (i + 2 == s.len() || is_separator(s[i + 2]))
}

/// Whether `s` starts with a Windows drive letter (`C:`).
pub open spec fn spec_has_windows_drive_prefix(s: Seq<char>) -> bool {
    s.len() >= 2 && spec_is_ascii_alphabetic(s[0]) && s[1] == ':'
}

/// A plain repository-root-relative path: not blank, not absolute under
/// POSIX or Windows conventions, and with no `..` component.
pub open spec fn spec_is_repo_relative(s: Seq<char>) -> bool {
    &&& !spec_all_whitespace(s)
    &&& !(s.len() > 0 && is_separator(s[0]))
    &&& !spec_has_windows_drive_prefix(s)
    &&& !has_parent_component(s)
}

/// Whether `path` is a plain repository-root-relative path — no absolute
/// root, no parent-directory escape, no empty or blank string.
///
/// A leading `./` and interior `.` components are accepted: they are noise
/// rather than an escape.
pub fn is_repo_relative(path: &str) -> (r: bool)
    ensures
        r == spec_is_repo_relative(path@),
{
    let chars = str_chars(path);
    if all_whitespace(&chars) {
        return false;
    }
    if chars[0] == '/' || chars[0] == '\\' {
        return false;
    }
    if has_windows_drive_prefix(&chars) {
        return false;
    }
    !has_parent_dir_component(&chars)
}

/// Whether `path` starts with a Windows drive letter (`C:`, `c:/…`).
fn has_windows_drive_prefix(path: &[char]) -> (r: bool)
    ensures
        r == spec_has_windows_drive_prefix(path@),
{
    if path.len() < 2 {
        return false;
    }
    let first = path[0];
    (('a' <= first && first <= 'z') || ('A' <= first && first <= 'Z')) && path[1] == ':'
}

/// Whether some `/`- or `\`-separated component of `path` is `..`.
fn has_parent_dir_component(path: &[char]) -> (r: bool)
    ensures
        r == has_parent_component(path@),
{
    let n = path.len();
    let mut i: usize = 0;
    while i < n
        invariant
            n == path@.len(),
            i <= n,
            forall|j: int|
                0 <= j < i ==> !(j + 2 <= path@.len() && #[trigger] path@[j] == '.' && path@[j
                    + 1] == '.' && (j == 0 || is_separator(path@[j - 1])) && (j + 2
                    == path@.len() || is_separator(path@[j + 2]))),
        decreases n - i,
    {
        if 2 <= n - i && path[i] == '.' && path[i + 1] == '.' && (i == 0 || path[i - 1] == '/'
            || path[i - 1] == '\\') && (i + 2 == n || path[i + 2] == '/' || path[i + 2] == '\\') {
            return true;
        }
        i = i + 1;
    }
    false
}

} // verus!
