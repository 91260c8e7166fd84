//! Vue single-file components (`.vue`).
//!
//! Only the `<script>`/`<script setup>` blocks of a component carry the
//! symbols extracted from it; they are parsed with the TypeScript grammar
//! after everything outside them has been masked to whitespace, byte for
//! byte, so that every position in the parsed text is the same as in the
//! file. The markup outside the scripts is scanned for the child
//! components it renders.

use crate::language::{file_name_of, file_name_ends_with, has_segment, has_segment_named};
use crate::text::{
    byte_len, chars_are, chars_between, lemma_byte_len_concat, spec_to_uppercase, utf8_len, utf8_width, string_from_chars, to_uppercase, contains_chars, find_chars_from, find_from, is_whitespace, push_char, spec_contains,
    spec_ends_with, spec_is_ascii_alphanumeric, spec_is_ascii_uppercase, spec_is_whitespace,
    spec_starts_with, starts_with_chars, str_chars,
};
use std::borrow::Cow;
use crate::syntax::Grammar;
use vstd::prelude::*;
use vstd::string::StringExecFns;

verus! {

/// The TypeScript definition patterns plus the component-API declarations
/// a parent component is coupled to: the `define*` macros of
/// `<script setup>` and the `props:`/`emits:` options.
pub const DEFINITION_QUERY: &'static str = "\
[
  (function_declaration) @definition.function
  (method_definition) @definition.function
  (abstract_method_signature) @definition.function
  (variable_declarator value: (arrow_function)) @definition.function
  (class_declaration) @definition.class
  (abstract_class_declaration) @definition.class
  (interface_declaration) @definition.interface
  (type_alias_declaration) @definition.type_alias
  (enum_declaration) @definition.enum
  (call_expression
    function: (identifier) @_macro
    (#match? @_macro \"^(defineProps|defineEmits|defineModel|defineSlots|defineExpose)$\")) @definition.component_api
  (pair key: (property_identifier) @_option
    (#match? @_option \"^(props|emits)$\")) @definition.component_api
  (program) @definition.component
] @definition";

/// Support for Vue single-file components.
pub struct VueSupport;

/// `<script`, the opening of a script block.
pub open spec fn script_open() -> Seq<char> {
    seq!['<', 's', 'c', 'r', 'i', 'p', 't']
}

/// `</script`, the closing of a script block.
pub open spec fn script_close() -> Seq<char> {
    seq!['<', '/', 's', 'c', 'r', 'i', 'p', 't']
}

/// The script-content ranges of `s` (character indices, end exclusive)
/// found scanning from `cursor`: each `<script` followed by `>` or white
/// space opens a block whose content starts after the next `>` and ends at
/// the next `</script`, or at the end of the text when there is none.
pub open spec fn script_regions_from(s: Seq<char>, cursor: int) -> Seq<(int, int)>
    decreases if 0 <= cursor <= s.len() {
        s.len() + 1 - cursor
    } else {
        0
    },
{
    if cursor < 0 || cursor > s.len() {
        Seq::empty()
    } else {
        match find_from(s, script_open(), cursor) {
            None => Seq::empty(),
            Some(k) => {
                let after = cursor + k + 7;
                if !(after < s.len() && (s[after] == '>' || spec_is_whitespace(s[after]))) {
                    script_regions_from(s, after)
                } else {
                    match find_from(s, seq!['>'], after) {
                        None => Seq::empty(),
                        Some(g) => {
                            let start = after + g + 1;
                            match find_from(s, script_close(), start) {
                                Some(e) => seq![(start, start + e)] + script_regions_from(s, start + e),
                                None => seq![(start, s.len() as int)],
                            }
                        },
                    }
                }
            },
        }
    }
}

/// The script-content ranges of `s`.
pub open spec fn spec_script_regions(s: Seq<char>) -> Seq<(int, int)> {
    script_regions_from(s, 0)
}

/// Whether index `i` lies inside one of `regions`.
pub open spec fn in_regions(regions: Seq<(int, int)>, i: int) -> bool {
    exists|k: int| 0 <= k < regions.len() && (#[trigger] regions[k]).0 <= i < regions[k].1
}

/// What a character outside the scripts becomes: a newline stays, anything
/// else becomes one space per byte.
pub open spec fn blanked(c: char) -> Seq<char> {
    if c == '\n' {
        seq!['\n']
    } else {
        Seq::new(utf8_len(c), |_i: int| ' ')
    }
}

/// The masked text of the first `n` characters of `s`.
pub open spec fn masked_prefix(s: Seq<char>, regions: Seq<(int, int)>, n: int) -> Seq<char>
    decreases n,
{
    if n <= 0 {
        Seq::empty()
    } else {
        masked_prefix(s, regions, n - 1) + if in_regions(regions, n - 1) {
            seq![s[n - 1]]
        } else {
            blanked(s[n - 1])
        }
    }
}

/// `s` with everything outside its script blocks masked.
pub open spec fn spec_mask_non_script(s: Seq<char>) -> Seq<char> {
    masked_prefix(s, spec_script_regions(s), s.len() as int)
}

/// The ranges as plain integers.
pub open spec fn regions_view(r: Seq<(usize, usize)>) -> Seq<(int, int)> {
    r.map_values(|p: (usize, usize)| (p.0 as int, p.1 as int))
}

/// The script-content ranges of `chars`, in order; shared by
/// [`mask_non_script`] and [`component_tags`] so the two always agree on
/// where the script is.
fn script_regions(chars: &[char]) -> (r: Vec<(usize, usize)>)
    ensures
        regions_view(r@) == spec_script_regions(chars@),
        forall|k: int| 0 <= k < r@.len() ==> (#[trigger] r@[k]).0 <= r@[k].1 <= chars@.len(),
{
    let open = str_chars("<script");
    let close = str_chars("</script");
    let gt = str_chars(">");
    proof {
        reveal_strlit("<script");
        reveal_strlit("</script");
        reveal_strlit(">");
        assert(open@ =~= script_open());
        assert(close@ =~= script_close());
        assert(gt@ =~= seq!['>']);
    }
    let mut regions: Vec<(usize, usize)> = Vec::new();
    let mut cursor: usize = 0;
    loop
        invariant
            open@ == script_open(),
            close@ == script_close(),
            gt@ == seq!['>'],
            cursor <= chars@.len(),
            spec_script_regions(chars@) == regions_view(regions@) + script_regions_from(chars@, cursor as int),
            forall|k: int| 0 <= k < regions@.len() ==> (#[trigger] regions@[k]).0 <= regions@[k].1 <= chars@.len(),
        decreases chars@.len() - cursor,
    {
        let ghost before = regions_view(regions@);
        let open_at = match find_chars_from(chars, open.as_slice(), cursor) {
            None => {
                assert(regions_view(regions@) + Seq::<(int, int)>::empty() =~= regions_view(regions@));
                return regions;
            },
            Some(at) => at,
        };
        assert(open@.len() == 7);
        let n = chars.len();
        assert(open_at + 7 <= n);
        let after = open_at + 7;
        let boundary = after < chars.len() && (chars[after] == '>' || is_whitespace(chars[after]));
        if !boundary {
            if after > chars.len() {
                assert(regions_view(regions@) + Seq::<(int, int)>::empty() =~= regions_view(regions@));
                return regions;
            }
            cursor = after;
            continue;
        }
        let tag_end = match find_chars_from(chars, gt.as_slice(), after) {
            None => {
                assert(regions_view(regions@) + Seq::<(int, int)>::empty() =~= regions_view(regions@));
                return regions;
            },
            Some(at) => at,
        };
        let start = tag_end + 1;
        match find_chars_from(chars, close.as_slice(), start) {
            Some(end) => {
                regions.push((start, end));
                assert(regions_view(regions@) =~= before + seq![(start as int, end as int)]);
                cursor = end;
            },
            None => {
                regions.push((start, chars.len()));
                assert(regions_view(regions@) =~= before + seq![(start as int, chars@.len() as int)]);
                return regions;
            },
        }
    }
}

fn in_any_region(regions: &Vec<(usize, usize)>, i: usize) -> (r: bool)
    ensures
        r == in_regions(regions_view(regions@), i as int),
{
    let ghost view = regions_view(regions@);
    let mut k: usize = 0;
    while k < regions.len()
        invariant
            k <= regions@.len(),
            view == regions_view(regions@),
            forall|j: int| 0 <= j < k ==> !((#[trigger] view[j]).0 <= i < view[j].1),
        decreases regions@.len() - k,
    {
        let (start, end) = regions[k];
        if start <= i && i < end {
            assert(view[k as int].0 <= i < view[k as int].1);
            return true;
        }
        k = k + 1;
    }
    false
}

/// Replaces every byte outside the component's `<script ...>...</script>`
/// block(s) with a space (newlines kept), so that the script content stays
/// at its original lines and byte offsets. Tags are matched lower-case; a
/// `<script>` with no closing tag keeps everything after it; several
/// script blocks are all kept.
pub fn mask_non_script(source: &str) -> (r: String)
    ensures
        r@ == spec_mask_non_script(source@),
{
    let chars = str_chars(source);
    let regions = script_regions(chars.as_slice());
    let ghost view = regions_view(regions@);
    let mut masked = String::new();
    let mut i: usize = 0;
    while i < chars.len()
        invariant
            chars@ == source@,
            view == regions_view(regions@),
            view == spec_script_regions(chars@),
            i <= chars@.len(),
            masked@ == masked_prefix(chars@, view, i as int),
        decreases chars@.len() - i,
    {
        let c = chars[i];
        let ghost base = masked@;
        if in_any_region(&regions, i) {
            push_char(&mut masked, c);
        } else if c == '\n' {
            push_char(&mut masked, '\n');
        } else {
            let width = utf8_width(c);
            let mut j: usize = 0;
            while j < width
                invariant
                    j <= width,
                    width == utf8_len(c),
                    masked@ == base + Seq::new(j as nat, |_i: int| ' '),
                decreases width - j,
            {
                push_char(&mut masked, ' ');
                assert(base + Seq::new((j + 1) as nat, |_i: int| ' ') =~= (base + Seq::new(j as nat, |_i: int| ' ')).push(' '));
                j = j + 1;
            }
        }
        assert(masked@ =~= masked_prefix(chars@, view, i + 1));
        i = i + 1;
    }
    masked
}

/// A character that can be part of a tag name.
pub open spec fn spec_is_tag_name_char(c: char) -> bool {
    spec_is_ascii_alphanumeric(c) || c == '-' || c == '_' || c == '.'
}

/// The end of the run of tag-name characters of `s` starting at `from`.
pub open spec fn tag_name_end(s: Seq<char>, from: int) -> int
    decreases s.len() - from,
{
    if from < 0 || from >= s.len() || !spec_is_tag_name_char(s[from]) {
        from
    } else {
        tag_name_end(s, from + 1)
    }
}

/// The separators between the words of a tag name.
pub open spec fn is_case_separator(c: char) -> bool {
    c == '-' || c == '_'
}

/// What character `i` of `s` contributes to its PascalCase form: nothing
/// for a separator, its upper-case mapping when it starts a word, itself
/// otherwise.
pub open spec fn pascal_piece(s: Seq<char>, i: int) -> Seq<char> {
    if is_case_separator(s[i]) {
        Seq::empty()
    } else if i == 0 || is_case_separator(s[i - 1]) {
        spec_to_uppercase(s[i])
    } else {
        seq![s[i]]
    }
}

/// The PascalCase form of the first `n` characters of `s`.
pub open spec fn pascal_prefix(s: Seq<char>, n: int) -> Seq<char>
    decreases n,
{
    if n <= 0 {
        Seq::empty()
    } else {
        pascal_prefix(s, n - 1) + pascal_piece(s, n - 1)
    }
}

/// `base-button` / `BaseButton` / `base_button` as `BaseButton`.
pub open spec fn spec_pascal_case(s: Seq<char>) -> Seq<char> {
    pascal_prefix(s, s.len() as int)
}

/// The lower-case form of an ASCII capital.
pub open spec fn ascii_lower(c: char) -> char {
    ((c as u32) + 32) as char
}

/// What character `i` of `s` contributes to its kebab-case form: `_`
/// becomes `-`; a capital becomes lower-case, after a `-` unless it starts
/// the name or follows a separator; anything else stays.
pub open spec fn kebab_piece(s: Seq<char>, i: int) -> Seq<char> {
    if s[i] == '_' {
        seq!['-']
    } else if spec_is_ascii_uppercase(s[i]) {
        if i > 0 && !is_case_separator(s[i - 1]) {
            seq!['-', ascii_lower(s[i])]
        } else {
            seq![ascii_lower(s[i])]
        }
    } else {
        seq![s[i]]
    }
}

/// The kebab-case form of the first `n` characters of `s`.
pub open spec fn kebab_prefix(s: Seq<char>, n: int) -> Seq<char>
    decreases n,
{
    if n <= 0 {
        Seq::empty()
    } else {
        kebab_prefix(s, n - 1) + kebab_piece(s, n - 1)
    }
}

/// `BaseButton` / `base-button` / `base_button` as `base-button`.
pub open spec fn spec_kebab_case(s: Seq<char>) -> Seq<char> {
    kebab_prefix(s, s.len() as int)
}

/// The framework built-ins, which are never components of a repository.
pub open spec fn is_framework_builtin(name: Seq<char>) -> bool {
    name == "Transition"@ || name == "TransitionGroup"@ || name == "KeepAlive"@ || name == "Teleport"@
        || name == "Suspense"@ || name == "Component"@ || name == "Slot"@ || name == "Template"@
}

/// Whether `tag` names a component rather than a plain element: PascalCase
/// or hyphenated, not namespaced with `:`, not a `svelte` special element,
/// and not a framework built-in.
pub open spec fn spec_is_component_tag(tag: Seq<char>) -> bool {
    &&& tag.len() > 0
    &&& spec_is_ascii_uppercase(tag[0]) || spec_contains(tag, "-"@)
    &&& !spec_contains(tag, ":"@)
    &&& !spec_starts_with(tag, "svelte"@)
    &&& !is_framework_builtin(spec_pascal_case(tag))
}

/// `list` with `x` appended unless already present.
pub open spec fn with_new(list: Seq<Seq<char>>, x: Seq<char>) -> Seq<Seq<char>> {
    if list.contains(x) {
        list
    } else {
        list.push(x)
    }
}

/// The tag named right after the `<` at index `i` of `s`.
pub open spec fn tag_at(s: Seq<char>, i: int) -> Seq<char> {
    s.subrange(i + 1, tag_name_end(s, i + 1))
}

/// The component names found among the first `n` characters of `s`, each
/// component tag adding itself, its PascalCase and its kebab-case form,
/// each name once, in order of first appearance.
pub open spec fn tags_prefix(s: Seq<char>, regions: Seq<(int, int)>, n: int) -> Seq<Seq<char>>
    decreases n,
{
    if n <= 0 {
        Seq::empty()
    } else {
        let prev = tags_prefix(s, regions, n - 1);
        let i = n - 1;
        if s[i] == '<' && !in_regions(regions, i) && spec_is_component_tag(tag_at(s, i)) {
            let tag = tag_at(s, i);
            with_new(with_new(with_new(prev, tag), spec_pascal_case(tag)), spec_kebab_case(tag))
        } else {
            prev
        }
    }
}

/// Every child-component name the markup outside the scripts of `s`
/// renders.
pub open spec fn spec_component_tags(s: Seq<char>) -> Seq<Seq<char>> {
    tags_prefix(s, spec_script_regions(s), s.len() as int)
}

/// The strings as character sequences.
pub open spec fn strings_view(v: Seq<String>) -> Seq<Seq<char>> {
    v.map_values(|x: String| x@)
}

fn is_tag_name_byte(c: char) -> (r: bool)
    ensures
        r == spec_is_tag_name_char(c),
{
    ('a' <= c && c <= 'z') || ('A' <= c && c <= 'Z') || ('0' <= c && c <= '9') || c == '-' || c == '_'
        || c == '.'
}

/// `BaseButton` / `base-button` / `base_button` as `base-button`.
pub fn kebab_case(tag: &str) -> (r: String)
    ensures
        r@ == spec_kebab_case(tag@),
{
    let chars = str_chars(tag);
    let mut kebab = String::new();
    let mut i: usize = 0;
    while i < chars.len()
        invariant
            chars@ == tag@,
            i <= chars@.len(),
            kebab@ == kebab_prefix(chars@, i as int),
            i > 0 ==> kebab@.len() > 0 && (kebab@.last() == '-' <==> is_case_separator(chars@[i - 1])),
        decreases chars@.len() - i,
    {
        let c = chars[i];
        if c == '_' {
            push_char(&mut kebab, '-');
        } else if 'A' <= c && c <= 'Z' {
            let ends_with_hyphen = i > 0 && kebab_ends_with_hyphen(&kebab, chars.as_slice(), i);
            if i > 0 && !ends_with_hyphen {
                push_char(&mut kebab, '-');
            }
            let lower: u8 = (c as u32 + 32) as u8;
            push_char(&mut kebab, lower as char);
        } else {
            push_char(&mut kebab, c);
        }
        assert(kebab@ =~= kebab_prefix(chars@, i + 1));
        i = i + 1;
    }
    kebab
}

/// Whether the kebab-case text built so far ends with `-`, which it does
/// exactly when the character before `i` was a separator.
fn kebab_ends_with_hyphen(kebab: &String, chars: &[char], i: usize) -> (r: bool)
    requires
        0 < i <= chars@.len(),
        kebab@.len() > 0,
        kebab@.last() == '-' <==> is_case_separator(chars@[i - 1]),
    ensures
        r == (kebab@.last() == '-'),
{
    let previous = chars[i - 1];
    previous == '-' || previous == '_'
}

/// `base-button` / `BaseButton` / `base_button` as `BaseButton`.
pub fn pascal_case(tag: &str) -> (r: String)
    ensures
        r@ == spec_pascal_case(tag@),
{
    let chars = str_chars(tag);
    let mut pascal = String::new();
    let mut i: usize = 0;
    while i < chars.len()
        invariant
            chars@ == tag@,
            i <= chars@.len(),
            pascal@ == pascal_prefix(chars@, i as int),
        decreases chars@.len() - i,
    {
        let c = chars[i];
        if c == '-' || c == '_' {
        } else if i == 0 || chars[i - 1] == '-' || chars[i - 1] == '_' {
            let upper = to_uppercase(c);
            pascal.append(upper.as_str());
        } else {
            push_char(&mut pascal, c);
        }
        assert(pascal@ =~= pascal_prefix(chars@, i + 1));
        i = i + 1;
    }
    pascal
}

/// Whether `tag` names a component rather than a plain element.
fn is_component_tag(tag: &str) -> (r: bool)
    ensures
        r == spec_is_component_tag(tag@),
{
    let chars = str_chars(tag);
    if chars.len() == 0 {
        return false;
    }
    let first = chars[0];
    let hyphen = str_chars("-");
    if !('A' <= first && first <= 'Z') && !contains_chars(chars.as_slice(), hyphen.as_slice()) {
        return false;
    }
    let colon = str_chars(":");
    let svelte = str_chars("svelte");
    if contains_chars(chars.as_slice(), colon.as_slice()) || starts_with_chars(chars.as_slice(), svelte.as_slice()) {
        return false;
    }
    let pascal = str_chars(pascal_case(tag).as_str());
    let p = pascal.as_slice();
    !(chars_are(p, "Transition") || chars_are(p, "TransitionGroup") || chars_are(p, "KeepAlive")
        || chars_are(p, "Teleport") || chars_are(p, "Suspense") || chars_are(p, "Component")
        || chars_are(p, "Slot") || chars_are(p, "Template"))
}

fn push_new(found: &mut Vec<String>, name: String)
    ensures
        strings_view(final(found)@) == with_new(strings_view(old(found)@), name@),
{
    let ghost before = strings_view(found@);
    let mut i: usize = 0;
    while i < found.len()
        invariant
            before == strings_view(found@),
            i <= found@.len(),
            forall|j: int| 0 <= j < i ==> before[j] != name@,
        decreases found@.len() - i,
    {
        if found[i] == name {
            assert(before[i as int] == name@);
            return;
        }
        i = i + 1;
    }
    assert(!before.contains(name@));
    found.push(name);
    assert(strings_view(found@) =~= before.push(name@));
}

/// Every child-component tag rendered by the markup outside the script
/// block(s) of `source`, each reported as written, in PascalCase and in
/// kebab-case (the spelling the markup uses says nothing about the one
/// the file names use), each name once, in order of first appearance.
///
/// A tag counts as a component when it is PascalCase or hyphenated;
/// namespaced elements, `svelte` special elements and framework built-ins
/// are left out.
pub fn component_tags(source: &str) -> (r: Vec<String>)
    ensures
        strings_view(r@) == spec_component_tags(source@),
{
    let chars = str_chars(source);
    let regions = script_regions(chars.as_slice());
    let ghost view = regions_view(regions@);
    let mut found: Vec<String> = Vec::new();
    let mut i: usize = 0;
    while i < chars.len()
        invariant
            chars@ == source@,
            view == regions_view(regions@),
            view == spec_script_regions(chars@),
            i <= chars@.len(),
            strings_view(found@) == tags_prefix(chars@, view, i as int),
        decreases chars@.len() - i,
    {
        if chars[i] == '<' && !in_any_region(&regions, i) {
            let name_start = i + 1;
            let mut name_end = name_start;
            while name_end < chars.len() && is_tag_name_byte(chars[name_end])
                invariant
                    name_start <= name_end <= chars@.len(),
                    tag_name_end(chars@, name_end as int) == tag_name_end(chars@, name_start as int),
                decreases chars@.len() - name_end,
            {
                name_end = name_end + 1;
            }
            let tag = string_from_chars(chars_between(chars.as_slice(), name_start, name_end).as_slice());
            assert(tag@ == tag_at(chars@, i as int));
            if is_component_tag(tag.as_str()) {
                let pascal = pascal_case(tag.as_str());
                let kebab = kebab_case(tag.as_str());
                push_new(&mut found, tag);
                push_new(&mut found, pascal);
                push_new(&mut found, kebab);
            }
        }
        i = i + 1;
    }
    found
}

/// Whether `path` follows the Vitest/Jest conventions for a test of a
/// component: a `.test.vue`/`.spec.vue` file name or a `__tests__`
/// directory anywhere in the path.
pub open spec fn spec_vue_test_path(path: Seq<char>) -> bool {
    spec_ends_with(file_name_of(path), ".test.vue"@) || spec_ends_with(file_name_of(path), ".spec.vue"@)
        || has_segment(path, "__tests__"@)
}

impl VueSupport {
    /// The language's name.
    pub fn name(&self) -> (r: &'static str)
        ensures
            r@ == "vue"@,
    {
        "vue"
    }

    /// The grammar the language is parsed with.
    pub fn grammar(&self) -> (r: Grammar)
        ensures
            r == Grammar::TypeScript,
    {
        Grammar::TypeScript
    }

    /// The query that captures the file's definitions.
    pub fn definition_query(&self) -> (r: &'static str)
        ensures
            r@ == DEFINITION_QUERY@,
    {
        DEFINITION_QUERY
    }

    /// Whether `path` is a test file by its name or directory.
    pub fn is_test_path(&self, path: &str) -> (r: bool)
        ensures
            r == spec_vue_test_path(path@),
    {
        file_name_ends_with(path, ".test.vue") || file_name_ends_with(path, ".spec.vue") || has_segment_named(
            path,
            "__tests__",
        )
    }

    /// Components feed the dependency index like any other source file.
    pub fn contributes_to_dependency_index(&self, path: &str) -> (r: bool)
        ensures
            r,
    {
        true
    }

    /// The child components the markup renders.
    pub fn component_markup_references(&self, source: &str) -> (r: Option<Vec<String>>)
        ensures
            r matches Some(v) && strings_view(v@) == spec_component_tags(source@),
    {
        Some(component_tags(source))
    }

    /// The text handed to the parser: the file with everything outside its
    /// scripts masked.
    pub fn source_for_parse<'a>(&self, source: &'a str) -> (r: Cow<'a, str>)
        ensures
            r@ == spec_mask_non_script(source@),
            r is Owned,
    {
        Cow::Owned(mask_non_script(source))
    }
}

proof fn lemma_blanked_bytes(c: char)
    ensures
        byte_len(blanked(c)) == utf8_len(c),
{
    if c == '\n' {
        lemma_single_bytes(c);
    } else {
        let n = utf8_len(c);
        let sp = Seq::new(n, |_i: int| ' ');
        lemma_spaces_bytes(n);
    }
}

proof fn lemma_single_bytes(c: char)
    ensures
        byte_len(seq![c]) == utf8_len(c),
{
    assert(seq![c].drop_last() =~= Seq::<char>::empty());
    assert(seq![c].last() == c);
    assert(byte_len(Seq::<char>::empty()) == 0);
    assert(byte_len(seq![c]) == byte_len(seq![c].drop_last()) + utf8_len(seq![c].last()));
}

proof fn lemma_spaces_bytes(n: nat)
    ensures
        byte_len(Seq::new(n, |_i: int| ' ')) == n,
    decreases n,
{
    if n > 0 {
        lemma_spaces_bytes((n - 1) as nat);
        assert(Seq::new(n, |_i: int| ' ').drop_last() =~= Seq::new((n - 1) as nat, |_i: int| ' '));
    }
}

/// Masking keeps every byte offset: the masked form of the first `n`
/// characters takes exactly as many UTF-8 bytes as they do, so every
/// script character and every newline stays at its offset in the file.
pub proof fn masking_keeps_byte_offsets(s: Seq<char>, regions: Seq<(int, int)>, n: int)
    requires
        0 <= n <= s.len(),
    ensures
        byte_len(masked_prefix(s, regions, n)) == byte_len(s.take(n)),
    decreases n,
{
    if n > 0 {
        masking_keeps_byte_offsets(s, regions, n - 1);
        let piece = if in_regions(regions, n - 1) {
            seq![s[n - 1]]
        } else {
            blanked(s[n - 1])
        };
        lemma_byte_len_concat(masked_prefix(s, regions, n - 1), piece);
        lemma_blanked_bytes(s[n - 1]);
        lemma_single_bytes(s[n - 1]);
        assert(byte_len(piece) == utf8_len(s[n - 1]));
        assert(masked_prefix(s, regions, n) == masked_prefix(s, regions, n - 1) + piece);
        assert(s.take(n).drop_last() =~= s.take(n - 1));
        assert(s.take(n).last() == s[n - 1]);
    } else {
        assert(s.take(0) =~= Seq::<char>::empty());
    }
}

/// What masking does to character `i`: a script character and a newline
/// are kept, anything else becomes one space per UTF-8 byte.
pub proof fn masking_keeps_script_and_newlines(s: Seq<char>, regions: Seq<(int, int)>, i: int)
    requires
        0 <= i < s.len(),
    ensures
        masked_prefix(s, regions, i + 1) == masked_prefix(s, regions, i) + if in_regions(regions, i) || s[i] == '\n' {
            seq![s[i]]
        } else {
            Seq::new(utf8_len(s[i]), |_k: int| ' ')
        },
{
}

/// Whether no name occurs twice in `names`.
pub open spec fn names_distinct(names: Seq<Seq<char>>) -> bool {
    forall|i: int, j: int| 0 <= i < j < names.len() ==> names[i] != names[j]
}

proof fn lemma_with_new_distinct(list: Seq<Seq<char>>, x: Seq<char>)
    requires
        names_distinct(list),
    ensures
        names_distinct(with_new(list, x)),
{
    if !list.contains(x) {
        let l = list.push(x);
        assert forall|i: int, j: int| 0 <= i < j < l.len() implies l[i] != l[j] by {
            if j == list.len() {
                assert(l[i] == list[i]);
            }
        }
    }
}

/// Each component name is reported once, however many times the markup
/// renders it or in whichever spelling.
pub proof fn component_names_are_distinct(s: Seq<char>, regions: Seq<(int, int)>, n: int)
    ensures
        names_distinct(tags_prefix(s, regions, n)),
    decreases n,
{
    if n > 0 {
        component_names_are_distinct(s, regions, n - 1);
        let prev = tags_prefix(s, regions, n - 1);
        let i = n - 1;
        if s[i] == '<' && !in_regions(regions, i) && spec_is_component_tag(tag_at(s, i)) {
            let tag = tag_at(s, i);
            lemma_with_new_distinct(prev, tag);
            lemma_with_new_distinct(with_new(prev, tag), spec_pascal_case(tag));
            lemma_with_new_distinct(with_new(with_new(prev, tag), spec_pascal_case(tag)), spec_kebab_case(tag));
        }
    }
}

/// Whether `name` is one of the framework's built-in components:
/// `Transition`, `TransitionGroup`, `KeepAlive`, `Teleport`, `Suspense`,
/// `Component`, `Slot` or `Template`.
pub open spec fn is_named_builtin(name: Seq<char>) -> bool {
    name == "Transition"@ || name == "TransitionGroup"@ || name == "KeepAlive"@ || name == "Teleport"@ || name
        == "Suspense"@ || name == "Component"@ || name == "Slot"@ || name == "Template"@
}

/// A tag whose PascalCase form names a framework built-in is never a
/// component tag, and rendering one adds no name to the markup's
/// components: wherever such a tag opens, the component names found so
/// far stay as they are.
pub proof fn lemma_builtins_are_not_components(s: Seq<char>, regions: Seq<(int, int)>, i: int)
    ensures
        is_named_builtin(spec_pascal_case(tag_at(s, i))) ==> !spec_is_component_tag(tag_at(s, i)),
        0 <= i < s.len() && is_named_builtin(spec_pascal_case(tag_at(s, i))) ==> tags_prefix(s, regions, i + 1)
            == tags_prefix(s, regions, i),
        is_framework_builtin(spec_pascal_case(tag_at(s, i))) <==> is_named_builtin(spec_pascal_case(tag_at(s, i))),
{
}

} // verus!
