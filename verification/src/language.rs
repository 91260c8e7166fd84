//! Per-language knowledge that is not grammar: test-file conventions,
//! which files feed the dependency index, and how a file's text is
//! prepared before it is parsed.

pub mod markdown;
pub mod php;
pub mod svelte;
pub mod typescript;
pub mod vue;

use crate::path_proximity::{lemma_split_on_nonempty, split_on, split_slash};
use crate::text::{chars_are, ends_with_chars, spec_ends_with, str_chars};
use vstd::prelude::*;

verus! {

/// The last `/`-separated segment of `path` (the whole path when it has no
/// `/`).
pub open spec fn file_name_of(path: Seq<char>) -> Seq<char> {
    split_on(path, '/').last()
}

/// Whether some `/`-separated segment of `path` is exactly `name`.
pub open spec fn has_segment(path: Seq<char>, name: Seq<char>) -> bool {
    exists|i: int| 0 <= i < split_on(path, '/').len() && #[trigger] split_on(path, '/')[i] == name
}

/// Whether `path` has a segment spelled `name`.
pub fn has_segment_named(path: &str, name: &str) -> (r: bool)
    ensures
        r == has_segment(path@, name@),
{
    let chars = str_chars(path);
    let segments = split_slash(chars.as_slice());
    let mut i: usize = 0;
    while i < segments.len()
        invariant
            chars@ == path@,
            segments@.len() == split_on(path@, '/').len(),
            forall|j: int| 0 <= j < segments@.len() ==> #[trigger] segments@[j]@ == split_on(path@, '/')[j],
            i <= segments@.len(),
            forall|j: int| 0 <= j < i ==> split_on(path@, '/')[j] != name@,
        decreases segments@.len() - i,
    {
        if chars_are(segments[i].as_slice(), name) {
            assert(split_on(path@, '/')[i as int] == name@);
            return true;
        }
        i = i + 1;
    }
    false
}

/// Whether the file name of `path` ends with `suffix`.
pub fn file_name_ends_with(path: &str, suffix: &str) -> (r: bool)
    ensures
        r == spec_ends_with(file_name_of(path@), suffix@),
{
    let chars = str_chars(path);
    let segments = split_slash(chars.as_slice());
    proof {
        lemma_split_on_nonempty(path@, '/');
    }
    let last = segments.len() - 1;
    let wanted = str_chars(suffix);
    ends_with_chars(segments[last].as_slice(), wanted.as_slice())
}

} // verus!
