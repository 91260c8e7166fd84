//! Svelte components (`.svelte`).
//!
//! A Svelte component has the shape of a Vue one: markup plus `<script>`
//! block(s), of which only the scripts carry symbols. It shares Vue's
//! masking and markup scan and the TypeScript grammar.

use crate::language::vue::{
    component_tags, mask_non_script, spec_component_tags, spec_mask_non_script, strings_view,
};
use crate::language::{file_name_ends_with, file_name_of, has_segment, has_segment_named};
use crate::text::spec_ends_with;
use std::borrow::Cow;
use crate::syntax::Grammar;
use vstd::prelude::*;

verus! {

/// The TypeScript definition patterns plus Svelte's prop declarations:
/// Svelte 4's `export let` and Svelte 5's `$props()` rune.
pub const DEFINITION_QUERY: &'static str = "\
[
  (function_declaration) @definition.function
  (method_definition) @definition.function
  (abstract_method_signature) @definition.function
  (variable_declarator value: (arrow_function)) @definition.function
  (class_declaration) @definition.class
  (abstract_class_declaration) @definition.class
  (interface_declaration) @definition.interface
  (type_alias_declaration) @definition.type_alias
  (enum_declaration) @definition.enum
  (export_statement declaration: (lexical_declaration)) @definition.component_api
  (variable_declarator
    value: (call_expression function: (identifier) @_rune
      (#eq? @_rune \"$props\"))) @definition.component_api
  (program) @definition.component
] @definition";

/// Support for Svelte components.
pub struct SvelteSupport;

/// Whether `path` follows Vitest's conventions for a test of a component:
/// a `.test.svelte`/`.spec.svelte` file name or a `__tests__` directory
/// anywhere in the path.
pub open spec fn spec_svelte_test_path(path: Seq<char>) -> bool {
    spec_ends_with(file_name_of(path), ".test.svelte"@) || spec_ends_with(
        file_name_of(path),
        ".spec.svelte"@,
    ) || has_segment(path, "__tests__"@)
}

impl SvelteSupport {
    /// The language's name.
    pub fn name(&self) -> (r: &'static str)
        ensures
            r@ == "svelte"@,
    {
        "svelte"
    }

    /// The grammar the language is parsed with.
    pub fn grammar(&self) -> (r: Grammar)
        ensures
            r == Grammar::TypeScript,
    {
        Grammar::TypeScript
    }

    /// The query that captures the file's definitions.
    pub fn definition_query(&self) -> (r: &'static str)
        ensures
            r@ == DEFINITION_QUERY@,
    {
        DEFINITION_QUERY
    }

    /// Whether `path` is a test file by its name or directory.
    pub fn is_test_path(&self, path: &str) -> (r: bool)
        ensures
            r == spec_svelte_test_path(path@),
    {
        file_name_ends_with(path, ".test.svelte") || file_name_ends_with(path, ".spec.svelte")
            || has_segment_named(path, "__tests__")
    }

    /// Components feed the dependency index like any other source file.
    pub fn contributes_to_dependency_index(&self, path: &str) -> (r: bool)
        ensures
            r,
    {
        true
    }

    /// The child components the markup renders.
    pub fn component_markup_references(&self, source: &str) -> (r: Option<Vec<String>>)
        ensures
            r matches Some(v) && strings_view(v@) == spec_component_tags(source@),
    {
        Some(component_tags(source))
    }

    /// The text handed to the parser: the file with everything outside its
    /// scripts masked.
    pub fn source_for_parse<'a>(&self, source: &'a str) -> (r: Cow<'a, str>)
        ensures
            r@ == spec_mask_non_script(source@),
            r is Owned,
    {
        Cow::Owned(mask_non_script(source))
    }
}

} // verus!
