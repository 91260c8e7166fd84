//! Markdown documents, whose definitions are their sections.

use crate::language::{has_segment, has_segment_named};
use crate::path_proximity::split_on;
use std::borrow::Cow;
use crate::syntax::Grammar;
use vstd::prelude::*;

verus! {

/// Every `section` (the heading-rooted subtree of the block grammar) and
/// every `setext_heading`, which the grammar does not root a section at.
pub const DEFINITION_QUERY: &'static str = "[(section) (setext_heading)] @definition";

/// Markdown declares nothing another file can call: a query with no
/// patterns.
pub const REFERENCE_QUERY: &'static str = "";

/// Support for Markdown.
pub struct MarkdownSupport;

/// Whether some directory of `path` is a test directory: `tests`, `Tests`,
/// `test`, `__tests__` or `testdata`. Markdown has no test-file naming
/// convention, so only the directory decides.
pub open spec fn spec_markdown_test_path(path: Seq<char>) -> bool {
    has_segment(path, "tests"@) || has_segment(path, "Tests"@) || has_segment(path, "test"@)
        || has_segment(path, "__tests__"@) || has_segment(path, "testdata"@)
}

impl MarkdownSupport {
    /// The language's name.
    pub fn name(&self) -> (r: &'static str)
        ensures
            r@ == "markdown"@,
    {
        "markdown"
    }

    /// The grammar the language is parsed with.
    pub fn grammar(&self) -> (r: Grammar)
        ensures
            r == Grammar::Markdown,
    {
        Grammar::Markdown
    }

    /// The query that captures the document's sections.
    pub fn definition_query(&self) -> (r: &'static str)
        ensures
            r@ == DEFINITION_QUERY@,
    {
        DEFINITION_QUERY
    }

    /// The query that captures references: empty.
    pub fn reference_query(&self) -> (r: &'static str)
        ensures
            r@ == REFERENCE_QUERY@,
    {
        REFERENCE_QUERY
    }

    /// Whether `path` lies under a test directory.
    pub fn is_test_path(&self, path: &str) -> (r: bool)
        ensures
            r == spec_markdown_test_path(path@),
    {
        has_segment_named(path, "tests") || has_segment_named(path, "Tests") || has_segment_named(
            path,
            "test",
        ) || has_segment_named(path, "__tests__") || has_segment_named(path, "testdata")
    }

    /// Never: heading text is prose, and prose collides with code names far
    /// too readily for name-only resolution.
    pub fn contributes_to_dependency_index(&self, path: &str) -> (r: bool)
        ensures
            !r,
    {
        false
    }

    /// Documents have no markup component references.
    pub fn component_markup_references(&self, source: &str) -> (r: Option<Vec<String>>)
        ensures
            r is None,
    {
        None
    }

    /// The text handed to the parser: the document itself.
    pub fn source_for_parse<'a>(&self, source: &'a str) -> (r: Cow<'a, str>)
        ensures
            r == Cow::<'a, str>::Borrowed(source),
    {
        Cow::Borrowed(source)
    }
}

/// A Markdown file is a test file exactly when one of its directories (any
/// `/`-separated component) is named `tests`, `Tests`, `test`, `__tests__`
/// or `testdata`.
pub proof fn lemma_markdown_test_directories(path: Seq<char>)
    ensures
        spec_markdown_test_path(path) <==> exists|i: int|
            0 <= i < split_on(path, '/').len() && {
                let seg = #[trigger] split_on(path, '/')[i];
                seg == "tests"@ || seg == "Tests"@ || seg == "test"@ || seg == "__tests__"@ || seg == "testdata"@
            },
        has_segment(path, "test"@) ==> spec_markdown_test_path(path),
{
    if spec_markdown_test_path(path) {
        if has_segment(path, "tests"@) {
            let i = choose|i: int| 0 <= i < split_on(path, '/').len() && #[trigger] split_on(path, '/')[i] == "tests"@;
        } else if has_segment(path, "Tests"@) {
            let i = choose|i: int| 0 <= i < split_on(path, '/').len() && #[trigger] split_on(path, '/')[i] == "Tests"@;
        } else if has_segment(path, "test"@) {
            let i = choose|i: int| 0 <= i < split_on(path, '/').len() && #[trigger] split_on(path, '/')[i] == "test"@;
        } else if has_segment(path, "__tests__"@) {
            let i = choose|i: int| 0 <= i < split_on(path, '/').len() && #[trigger] split_on(path, '/')[i] == "__tests__"@;
        } else {
            let i = choose|i: int| 0 <= i < split_on(path, '/').len() && #[trigger] split_on(path, '/')[i] == "testdata"@;
        }
    }
}

} // verus!
