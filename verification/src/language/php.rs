//! PHP, parsed with the grammar that understands `<?php ... ?>` tags
//! interleaved with HTML text.

use crate::language::{file_name_ends_with, file_name_of, has_segment, has_segment_named};
use crate::text::{ends_with_chars, spec_ends_with, str_chars};
use std::borrow::Cow;
use crate::syntax::Grammar;
use vstd::prelude::*;

verus! {

/// Free functions, class/interface/trait/enum methods, classes,
/// interfaces, traits and enums.
pub const DEFINITION_QUERY: &'static str = "\
[
  (function_definition) @definition.function
  (method_declaration) @definition.function
  (class_declaration) @definition.class
  (interface_declaration) @definition.interface
  (trait_declaration) @definition.trait
  (enum_declaration) @definition.enum
] @definition";

/// Identifiers referenced from inside a definition: free calls,
/// instantiations, type references, the class half of static calls,
/// receiver method calls and trait uses.
pub const REFERENCE_QUERY: &'static str = "\
[
  (function_call_expression function: (name) @reference.call)
  (object_creation_expression (name) @reference.call)
  (named_type (name) @reference.type)
  (scoped_call_expression scope: (name) @reference.type)
  (member_call_expression name: (name) @reference.method)
  (use_declaration (name) @reference.type)
]";

/// Support for PHP.
pub struct PhpSupport;

/// Whether `path` follows PHPUnit's conventions: a `Test.php` file name,
/// or a `tests`/`Tests` directory anywhere in the path.
pub open spec fn spec_php_test_path(path: Seq<char>) -> bool {
    spec_ends_with(file_name_of(path), "Test.php"@) || has_segment(path, "tests"@) || has_segment(
        path,
        "Tests"@,
    )
}

impl PhpSupport {
    /// The language's name.
    pub fn name(&self) -> (r: &'static str)
        ensures
            r@ == "php"@,
    {
        "php"
    }

    /// The grammar the language is parsed with.
    pub fn grammar(&self) -> (r: Grammar)
        ensures
            r == Grammar::Php,
    {
        Grammar::Php
    }

    /// The query that captures the file's definitions.
    pub fn definition_query(&self) -> (r: &'static str)
        ensures
            r@ == DEFINITION_QUERY@,
    {
        DEFINITION_QUERY
    }

    /// The query that captures the names a definition references.
    pub fn reference_query(&self) -> (r: &'static str)
        ensures
            r@ == REFERENCE_QUERY@,
    {
        REFERENCE_QUERY
    }

    /// Blade templates parse under this grammar but stay out of the
    /// dependency index.
    pub fn contributes_to_dependency_index(&self, path: &str) -> (r: bool)
        ensures
            r == !spec_ends_with(path@, ".blade.php"@),
    {
        let chars = str_chars(path);
        let blade = str_chars(".blade.php");
        !ends_with_chars(chars.as_slice(), blade.as_slice())
    }

    /// Whether `path` is a test file by its name or directory.
    pub fn is_test_path(&self, path: &str) -> (r: bool)
        ensures
            r == spec_php_test_path(path@),
    {
        file_name_ends_with(path, "Test.php") || has_segment_named(path, "tests") || has_segment_named(
            path,
            "Tests",
        )
    }

    /// PHP has no markup component references.
    pub fn component_markup_references(&self, source: &str) -> (r: Option<Vec<String>>)
        ensures
            r is None,
    {
        None
    }

    /// The text handed to the parser: the file itself.
    pub fn source_for_parse<'a>(&self, source: &'a str) -> (r: Cow<'a, str>)
        ensures
            r == Cow::<'a, str>::Borrowed(source),
    {
        Cow::Borrowed(source)
    }
}

} // verus!
