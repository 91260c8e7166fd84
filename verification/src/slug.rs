//! Validation of the `<owner>/<repo>` segments taken from a pull-request
//! URL or a clone's remote.
//!
//! Both segments end up in a cache directory path, a command argument and
//! an API route, so `..`, a path separator or a leading `-` must never get
//! through.

use crate::text::{chars_are, spec_is_ascii_alphanumeric, str_chars};
use vstd::prelude::*;
use vstd::string::StringSliceAdditionalSpecFns;

verus! {

/// The longest segment accepted, in bytes.
pub const MAX_SEGMENT_LEN: usize = 100;

/// A character a GitHub owner or repository name may hold.
pub open spec fn is_segment_char(c: char) -> bool {
    spec_is_ascii_alphanumeric(c) || c == '-' || c == '_' || c == '.'
}

/// Whether `segment` is a plausible GitHub owner or repository name:
/// non-empty, at most [`MAX_SEGMENT_LEN`] bytes, made only of ASCII
/// letters, digits, `-`, `_` and `.`, not `.` or `..`, and not starting
/// with `-`.
pub open spec fn spec_is_valid_repo_segment(segment: &str) -> bool {
    let s = segment@;
    &&& s.len() > 0
    &&& segment.spec_bytes().len() <= MAX_SEGMENT_LEN
    &&& s != "."@
    &&& s != ".."@
    &&& s[0] != '-'
    &&& forall|i: int| 0 <= i < s.len() ==> is_segment_char(#[trigger] s[i])
}

/// Whether `segment` is a plausible GitHub owner or repository name (see
/// [`spec_is_valid_repo_segment`]).
pub fn is_valid_repo_segment(segment: &str) -> (r: bool)
    ensures
        r == spec_is_valid_repo_segment(segment),
{
    if segment.is_empty() || segment.as_bytes().len() > MAX_SEGMENT_LEN {
        return false;
    }
    let chars = str_chars(segment);
    if chars_are(chars.as_slice(), ".") || chars_are(chars.as_slice(), "..") {
        return false;
    }
    if chars[0] == '-' {
        return false;
    }
    let mut i: usize = 0;
    while i < chars.len()
        invariant
            chars@ == segment@,
            segment@.len() > 0,
            segment.spec_bytes().len() <= MAX_SEGMENT_LEN,
            segment@ != "."@,
            segment@ != ".."@,
            segment@[0] != '-',
            i <= chars@.len(),
            forall|j: int| 0 <= j < i ==> is_segment_char(#[trigger] chars@[j]),
        decreases chars@.len() - i,
    {
        let c = chars[i];
        if !(('a' <= c && c <= 'z') || ('A' <= c && c <= 'Z') || ('0' <= c && c <= '9') || c == '-' || c == '_'
            || c == '.') {
            return false;
        }
        i = i + 1;
    }
    true
}

} // verus!
