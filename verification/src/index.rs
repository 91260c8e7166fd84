//! The repository-wide definition index: every file that could define a
//! name a change references is parsed, and its symbols indexed under their
//! names.
//!
//! A file is read for the index only when its language is known, the
//! language feeds the index, the file is admitted (tests and generated
//! files only on request) and its white-space-normalized content passes
//! the language's prefilter: PHP files must hold a declaration-shaped
//! pattern (`function helper`), other files the bare name.

use crate::deps::{
    file_index, IndexEntry,
    bare_name_patterns, build_php_prefilter, build_prefilter, entries_index, matcher_builds, matcher_patterns, texts_bytes,
    php_declaration_patterns, should_index_file, some_pattern_occurs, spec_admits_for_indexing, spec_normalize_whitespace,
    TagsResolver,
};
use crate::deps_cache::entry_of;
use crate::extract::ExtractedSymbol;
use crate::language::markdown::{spec_markdown_test_path, MarkdownSupport};
use crate::language::php::{spec_php_test_path, PhpSupport};
use crate::language::svelte::{spec_svelte_test_path, SvelteSupport};
use crate::language::vue::{spec_vue_test_path, VueSupport};
use crate::symbols::{
    extract_all_symbols, extraction, is_fresh, language_component, language_definition_query, language_grammar, language_parse_text,
    language_reference_query, symbol_views, LanguageKind,
};
use crate::syntax::{node_rows, parsed_nodes, SyntaxNode};
use crate::text::{ends_with_chars, spec_contains, spec_ends_with, str_chars};
use vstd::prelude::*;
use vstd::utf8::encode_utf8;

verus! {

/// The language of a file by its name's ending: `.php`, `.vue`,
/// `.svelte` or `.md`.
pub open spec fn spec_language_for_path(path: Seq<char>) -> Option<LanguageKind> {
    if spec_ends_with(path, ".php"@) {
        Some(LanguageKind::Php)
    } else if spec_ends_with(path, ".vue"@) {
        Some(LanguageKind::Vue)
    } else if spec_ends_with(path, ".svelte"@) {
        Some(LanguageKind::Svelte)
    } else if spec_ends_with(path, ".md"@) {
        Some(LanguageKind::Markdown)
    } else {
        None
    }
}

/// The language of a file (see [`spec_language_for_path`]).
pub fn language_for_path(path: &str) -> (r: Option<LanguageKind>)
    ensures
        r == spec_language_for_path(path@),
{
    let chars = str_chars(path);
    let php = str_chars(".php");
    let vue = str_chars(".vue");
    let svelte = str_chars(".svelte");
    let md = str_chars(".md");
    proof {
        reveal_strlit(".php");
        reveal_strlit(".vue");
        reveal_strlit(".svelte");
        reveal_strlit(".md");
    }
    if ends_with_chars(chars.as_slice(), php.as_slice()) {
        Some(LanguageKind::Php)
    } else if ends_with_chars(chars.as_slice(), vue.as_slice()) {
        Some(LanguageKind::Vue)
    } else if ends_with_chars(chars.as_slice(), svelte.as_slice()) {
        Some(LanguageKind::Svelte)
    } else if ends_with_chars(chars.as_slice(), md.as_slice()) {
        Some(LanguageKind::Markdown)
    } else {
        None
    }
}

/// Whether a file of `language` feeds the index: Markdown never does, a
/// Blade template (`.blade.php`) does not either.
pub open spec fn spec_contributes(language: LanguageKind, path: Seq<char>) -> bool {
    match language {
        LanguageKind::Markdown => false,
        LanguageKind::Php => !spec_ends_with(path, ".blade.php"@),
        _ => true,
    }
}

/// Whether `path` is a test file by `language`'s conventions.
pub open spec fn spec_language_test_path(language: LanguageKind, path: Seq<char>) -> bool {
    match language {
        LanguageKind::Markdown => spec_markdown_test_path(path),
        LanguageKind::Php => spec_php_test_path(path),
        LanguageKind::Vue => spec_vue_test_path(path),
        LanguageKind::Svelte => spec_svelte_test_path(path),
    }
}

/// A language's prefilter patterns for the referenced names.
pub open spec fn language_patterns(language: LanguageKind, names: Seq<String>) -> Seq<Seq<char>> {
    match language {
        LanguageKind::Php => php_declaration_patterns(bare_name_patterns(names)),
        _ => bare_name_patterns(names),
    }
}

/// Whether one of `patterns` occurs in `haystack`'s bytes.
pub open spec fn some_text_occurs(patterns: Seq<Seq<char>>, haystack: Seq<u8>) -> bool {
    exists|i: int| 0 <= i < patterns.len() && spec_contains(haystack, encode_utf8(#[trigger] patterns[i]))
}

/// Whether file `path` with `content` is parsed for the index (see the
/// module's documentation).
pub open spec fn file_passes(
    path: Seq<char>,
    content: Seq<char>,
    names: Seq<String>,
    include_tests: bool,
    generated_paths: Seq<String>,
    include_generated: bool,
) -> bool {
    match spec_language_for_path(path) {
        Some(l) => {
            &&& spec_contributes(l, path)
            &&& spec_admits_for_indexing(path, content, spec_language_test_path(l, path), include_tests, generated_paths, include_generated)
            &&& some_text_occurs(language_patterns(l, names), encode_utf8(spec_normalize_whitespace(content)))
        },
        None => false,
    }
}

/// Whether `symbols` are what extraction gives for every definition of a
/// `language` file with `content`.
pub open spec fn symbols_of(language: LanguageKind, path: Seq<char>, content: Seq<char>, symbols: Seq<ExtractedSymbol>) -> bool {
    exists|nodes: Seq<SyntaxNode>|
        #![trigger node_rows(nodes)]
        node_rows(nodes) == parsed_nodes(language_grammar(language), language_parse_text(language, content))
            && extraction(
            language_grammar(language),
            language_definition_query(language),
            language_reference_query(language),
            nodes,
            language_parse_text(language, content),
            language_component(language, path, content),
            None,
        ) == Some(symbol_views(symbols)) && forall|k: int| 0 <= k < symbols.len() ==> is_fresh(#[trigger] symbols[k])
}

/// Whether extraction from a `language` file with `content` fails (a query
/// does not compile, or a span or signature would leave the text).
pub open spec fn extraction_fails(language: LanguageKind, path: Seq<char>, content: Seq<char>) -> bool {
    exists|nodes: Seq<SyntaxNode>|
        #![trigger node_rows(nodes)]
        node_rows(nodes) == parsed_nodes(language_grammar(language), language_parse_text(language, content))
            && extraction(
            language_grammar(language),
            language_definition_query(language),
            language_reference_query(language),
            nodes,
            language_parse_text(language, content),
            language_component(language, path, content),
            None,
        ) is None
}

/// Whether `kept` is what indexing keeps of `files`, in order: each file
/// that passes (see [`file_passes`]) and whose extraction succeeds, with
/// its symbols.
pub open spec fn indexed_as(
    files: Seq<(String, String)>,
    kept: Seq<(String, Seq<ExtractedSymbol>)>,
    names: Seq<String>,
    include_tests: bool,
    generated_paths: Seq<String>,
    include_generated: bool,
) -> bool
    decreases files.len(),
{
    if files.len() == 0 {
        kept.len() == 0
    } else {
        let f = files.last();
        let passes = file_passes(f.0@, f.1@, names, include_tests, generated_paths, include_generated);
        ||| {
            &&& kept.len() > 0
            &&& kept.last().0 == f.0
            &&& passes
            &&& symbols_of(spec_language_for_path(f.0@)->0, f.0@, f.1@, kept.last().1)
            &&& indexed_as(files.drop_last(), kept.drop_last(), names, include_tests, generated_paths, include_generated)
        }
        ||| {
            &&& (!passes || extraction_fails(spec_language_for_path(f.0@)->0, f.0@, f.1@))
            &&& indexed_as(files.drop_last(), kept, names, include_tests, generated_paths, include_generated)
        }
    }
}

proof fn lemma_occurs_by_texts(wanted: Seq<Seq<char>>, haystack: Seq<u8>)
    ensures
        some_pattern_occurs(texts_bytes(wanted), haystack) == some_text_occurs(wanted, haystack),
{
    if some_pattern_occurs(texts_bytes(wanted), haystack) {
        let i = choose|i: int| 0 <= i < texts_bytes(wanted).len() && spec_contains(haystack, #[trigger] texts_bytes(wanted)[i]);
        assert(texts_bytes(wanted)[i] == encode_utf8(wanted[i]));
    }
    if some_text_occurs(wanted, haystack) {
        let i = choose|i: int| 0 <= i < wanted.len() && spec_contains(haystack, encode_utf8(#[trigger] wanted[i]));
        assert(texts_bytes(wanted)[i] == encode_utf8(wanted[i]));
    }
}


/// What passing for the index means of a file: its language is known, it
/// is not a test file unless tests are included, it is neither listed nor
/// marked as generated unless generated files are included, and some name
/// was referenced at all.
pub proof fn lemma_passing_files_are_admitted(
    path: Seq<char>,
    content: Seq<char>,
    names: Seq<String>,
    include_tests: bool,
    generated_paths: Seq<String>,
    include_generated: bool,
)
    requires
        file_passes(path, content, names, include_tests, generated_paths, include_generated),
    ensures
        spec_language_for_path(path) is Some,
        include_tests || !spec_language_test_path(spec_language_for_path(path)->0, path),
        include_generated || !crate::str_map::key_listed(generated_paths, path),
        include_generated || !crate::deps::spec_is_generated_content(content),
        names.len() > 0,
{
    if names.len() == 0 {
        assert(bare_name_patterns(names) =~= Seq::<Seq<char>>::empty());
        assert(php_declaration_patterns(bare_name_patterns(names)) =~= Seq::<Seq<char>>::empty());
    }
}

proof fn lemma_kept_from_passing_files(
    files: Seq<(String, String)>,
    kept: Seq<(String, Seq<ExtractedSymbol>)>,
    names: Seq<String>,
    include_tests: bool,
    generated_paths: Seq<String>,
    include_generated: bool,
)
    requires
        indexed_as(files, kept, names, include_tests, generated_paths, include_generated),
    ensures
        forall|k: int|
            0 <= k < kept.len() ==> exists|j: int|
                0 <= j < files.len() && files[j].0 == (#[trigger] kept[k]).0 && file_passes(
                    files[j].0@,
                    files[j].1@,
                    names,
                    include_tests,
                    generated_paths,
                    include_generated,
                ),
    decreases files.len(),
{
    if files.len() > 0 {
        let f = files.last();
        let passes = file_passes(f.0@, f.1@, names, include_tests, generated_paths, include_generated);
        let first = kept.len() > 0 && kept.last().0 == f.0 && passes && symbols_of(
            spec_language_for_path(f.0@)->0,
            f.0@,
            f.1@,
            kept.last().1,
        ) && indexed_as(files.drop_last(), kept.drop_last(), names, include_tests, generated_paths, include_generated);
        if first {
            lemma_kept_from_passing_files(files.drop_last(), kept.drop_last(), names, include_tests, generated_paths, include_generated);
            assert forall|k: int| 0 <= k < kept.len() implies exists|j: int|
                0 <= j < files.len() && files[j].0 == (#[trigger] kept[k]).0 && file_passes(
                    files[j].0@,
                    files[j].1@,
                    names,
                    include_tests,
                    generated_paths,
                    include_generated,
                ) by {
                if k < kept.len() - 1 {
                    assert(kept[k] == kept.drop_last()[k]);
                    let j = choose|j: int|
                        0 <= j < files.drop_last().len() && files.drop_last()[j].0 == kept.drop_last()[k].0 && file_passes(
                            files.drop_last()[j].0@,
                            files.drop_last()[j].1@,
                            names,
                            include_tests,
                            generated_paths,
                            include_generated,
                        );
                    assert(files[j] == files.drop_last()[j]);
                } else {
                    assert(files[files.len() - 1] == f);
                }
            }
        } else {
            lemma_kept_from_passing_files(files.drop_last(), kept, names, include_tests, generated_paths, include_generated);
            assert forall|k: int| 0 <= k < kept.len() implies exists|j: int|
                0 <= j < files.len() && files[j].0 == (#[trigger] kept[k]).0 && file_passes(
                    files[j].0@,
                    files[j].1@,
                    names,
                    include_tests,
                    generated_paths,
                    include_generated,
                ) by {
                let j = choose|j: int|
                    0 <= j < files.drop_last().len() && files.drop_last()[j].0 == kept[k].0 && file_passes(
                        files.drop_last()[j].0@,
                        files.drop_last()[j].1@,
                        names,
                        include_tests,
                        generated_paths,
                        include_generated,
                    );
                assert(files[j] == files.drop_last()[j]);
            }
        }
    }
}

proof fn lemma_entries_paths(files: Seq<(String, Seq<IndexEntry>)>, include_tests: bool)
    ensures
        forall|i: int|
            0 <= i < entries_index(files, include_tests).len() ==> exists|k: int|
                0 <= k < files.len() && files[k].0 == (#[trigger] entries_index(files, include_tests)[i]).1.path,
    decreases files.len(),
{
    if files.len() > 0 {
        lemma_entries_paths(files.drop_last(), include_tests);
        lemma_file_index_paths(files.last().0, files.last().1, include_tests);
        let prev = entries_index(files.drop_last(), include_tests);
        let cur = entries_index(files, include_tests);
        assert forall|i: int| 0 <= i < cur.len() implies exists|k: int|
            0 <= k < files.len() && files[k].0 == (#[trigger] cur[i]).1.path by {
            if i < prev.len() {
                assert(cur[i] == prev[i]);
                let k = choose|k: int| 0 <= k < files.drop_last().len() && files.drop_last()[k].0 == prev[i].1.path;
                assert(files[k] == files.drop_last()[k]);
            } else {
                let fi = file_index(files.last().0, files.last().1, include_tests);
                assert(cur[i] == fi[i - prev.len()]);
                assert(files[files.len() - 1] == files.last());
            }
        }
    }
}

proof fn lemma_file_index_paths(path: String, entries: Seq<IndexEntry>, include_tests: bool)
    ensures
        forall|i: int|
            0 <= i < file_index(path, entries, include_tests).len() ==> (#[trigger] file_index(path, entries, include_tests)[i]).1.path
                == path,
    decreases entries.len(),
{
    if entries.len() > 0 {
        lemma_file_index_paths(path, entries.drop_last(), include_tests);
        let prev = file_index(path, entries.drop_last(), include_tests);
        let cur = file_index(path, entries, include_tests);
        assert forall|i: int| 0 <= i < cur.len() implies (#[trigger] cur[i]).1.path == path by {
            if i < prev.len() {
                assert(cur[i] == prev[i]);
            }
        }
    }
}


/// Whether one of `patterns` occurs in `haystack` whenever one of `sub`
/// does: every pattern of `sub` is among `patterns`.
proof fn lemma_occurs_in_superset(sub: Seq<Seq<char>>, patterns: Seq<Seq<char>>, haystack: Seq<u8>)
    requires
        forall|i: int| 0 <= i < sub.len() ==> patterns.contains(#[trigger] sub[i]),
        some_text_occurs(sub, haystack),
    ensures
        some_text_occurs(patterns, haystack),
{
    let i = choose|i: int| 0 <= i < sub.len() && spec_contains(haystack, encode_utf8(#[trigger] sub[i]));
    assert(patterns.contains(sub[i]));
    let k = choose|k: int| 0 <= k < patterns.len() && patterns[k] == sub[i];
    assert(spec_contains(haystack, encode_utf8(patterns[k])));
}

proof fn lemma_bare_patterns_of_one(names: Seq<String>, n: int)
    requires
        0 <= n < names.len(),
    ensures
        forall|i: int|
            0 <= i < bare_name_patterns(seq![names[n]]).len() ==> bare_name_patterns(names).contains(
                #[trigger] bare_name_patterns(seq![names[n]])[i],
            ),
    decreases names.len(),
{
    let one = seq![names[n]];
    assert(one.drop_last() =~= Seq::<String>::empty());
    assert(bare_name_patterns(one.drop_last()) =~= Seq::<Seq<char>>::empty());
    assert(one.last() == names[n]);
    let block = bare_name_patterns(one);
    if n == names.len() - 1 {
        let prev = bare_name_patterns(names.drop_last());
        assert(names.last() == names[n]);
        assert(bare_name_patterns(names) =~= prev + block);
        assert forall|i: int| 0 <= i < block.len() implies bare_name_patterns(names).contains(#[trigger] block[i]) by {
            assert(bare_name_patterns(names)[prev.len() + i] == block[i]);
        }
    } else {
        lemma_bare_patterns_of_one(names.drop_last(), n);
        assert(names.drop_last()[n] == names[n]);
        let prev = bare_name_patterns(names.drop_last());
        let last_block = bare_name_patterns(names) .subrange(prev.len() as int, bare_name_patterns(names).len() as int);
        assert(bare_name_patterns(names) =~= prev + last_block);
        assert forall|i: int| 0 <= i < block.len() implies bare_name_patterns(names).contains(#[trigger] block[i]) by {
            assert(prev.contains(block[i]));
            let k = choose|k: int| 0 <= k < prev.len() && prev[k] == block[i];
            assert(bare_name_patterns(names)[k] == block[i]);
        }
    }
}

/// The five declaration patterns of PHP for bare pattern `p`.
pub open spec fn php_keyword_forms(p: Seq<char>) -> Seq<Seq<char>> {
    seq!["function "@ + p, "class "@ + p, "interface "@ + p, "trait "@ + p, "enum "@ + p]
}

proof fn lemma_php_patterns_members(bare: Seq<Seq<char>>)
    ensures
        forall|i: int|
            0 <= i < php_declaration_patterns(bare).len() ==> exists|k: int, f: int|
                0 <= k < bare.len() && 0 <= f < 5 && #[trigger] php_declaration_patterns(bare)[i] == php_keyword_forms(
                    bare[k],
                )[f],
        forall|k: int, f: int|
            0 <= k < bare.len() && 0 <= f < 5 ==> php_declaration_patterns(bare).contains(
                #[trigger] php_keyword_forms(bare[k])[f],
            ),
    decreases bare.len(),
{
    if bare.len() > 0 {
        lemma_php_patterns_members(bare.drop_last());
        let prev = php_declaration_patterns(bare.drop_last());
        let cur = php_declaration_patterns(bare);
        let forms = php_keyword_forms(bare.last());
        assert(cur =~= prev + forms);
        assert forall|i: int| 0 <= i < cur.len() implies exists|k: int, f: int|
            0 <= k < bare.len() && 0 <= f < 5 && #[trigger] cur[i] == php_keyword_forms(bare[k])[f] by {
            if i < prev.len() {
                assert(cur[i] == prev[i]);
                let (k, f) = choose|k: int, f: int|
                    0 <= k < bare.drop_last().len() && 0 <= f < 5 && prev[i] == php_keyword_forms(bare.drop_last()[k])[f];
                assert(bare[k] == bare.drop_last()[k]);
            } else {
                assert(cur[i] == forms[i - prev.len()]);
                assert(bare[bare.len() - 1] == bare.last());
            }
        }
        assert forall|k: int, f: int| 0 <= k < bare.len() && 0 <= f < 5 implies cur.contains(
            #[trigger] php_keyword_forms(bare[k])[f],
        ) by {
            if k < bare.len() - 1 {
                assert(bare.drop_last()[k] == bare[k]);
                let m = choose|m: int| 0 <= m < prev.len() && prev[m] == php_keyword_forms(bare.drop_last()[k])[f];
                assert(cur[m] == prev[m]);
            } else {
                assert(cur[prev.len() + f] == forms[f]);
            }
        }
    }
}

/// A name's own patterns are among the patterns of every list of names
/// that holds it.
proof fn lemma_language_patterns_of_one(language: LanguageKind, names: Seq<String>, n: int)
    requires
        0 <= n < names.len(),
    ensures
        forall|i: int|
            0 <= i < language_patterns(language, seq![names[n]]).len() ==> language_patterns(language, names).contains(
                #[trigger] language_patterns(language, seq![names[n]])[i],
            ),
{
    lemma_bare_patterns_of_one(names, n);
    if language == LanguageKind::Php {
        let b1 = bare_name_patterns(seq![names[n]]);
        let b2 = bare_name_patterns(names);
        lemma_php_patterns_members(b1);
        lemma_php_patterns_members(b2);
        assert forall|i: int| 0 <= i < php_declaration_patterns(b1).len() implies php_declaration_patterns(b2).contains(
            #[trigger] php_declaration_patterns(b1)[i],
        ) by {
            let (k, f) = choose|k: int, f: int|
                0 <= k < b1.len() && 0 <= f < 5 && php_declaration_patterns(b1)[i] == php_keyword_forms(b1[k])[f];
            assert(b2.contains(b1[k]));
            let m = choose|m: int| 0 <= m < b2.len() && b2[m] == b1[k];
            assert(php_declaration_patterns(b2).contains(php_keyword_forms(b2[m])[f]));
        }
    }
}

/// Whether a file's language's patterns do their part for it: for every
/// symbol it defines under a referenced name, one of the language's
/// patterns for that name occurs in its white-space-normalized content.
pub open spec fn patterns_cover_definitions(
    language: LanguageKind,
    names: Seq<String>,
    content: Seq<char>,
    symbols: Seq<ExtractedSymbol>,
) -> bool {
    forall|s: int, n: int|
        0 <= s < symbols.len() && 0 <= n < names.len() && #[trigger] symbols[s].name@ == #[trigger] names[n]@
            ==> some_text_occurs(language_patterns(language, seq![names[n]]), encode_utf8(spec_normalize_whitespace(content)))
}

/// The prefilter never loses a definition: a file that its language
/// indexes and admits, which defines a referenced name, and whose
/// language's patterns do their part for it, is indexed with the symbols
/// its extraction gives (unless its extraction fails, when no index has
/// it).
pub proof fn lemma_prefilter_keeps_defining_files(
    files: Seq<(String, String)>,
    kept: Seq<(String, Seq<ExtractedSymbol>)>,
    names: Seq<String>,
    include_tests: bool,
    generated_paths: Seq<String>,
    include_generated: bool,
    j: int,
    symbols: Seq<ExtractedSymbol>,
    s: int,
    n: int,
)
    requires
        indexed_as(files, kept, names, include_tests, generated_paths, include_generated),
        0 <= j < files.len(),
        spec_language_for_path(files[j].0@) is Some,
        spec_contributes(spec_language_for_path(files[j].0@)->0, files[j].0@),
        spec_admits_for_indexing(
            files[j].0@,
            files[j].1@,
            spec_language_test_path(spec_language_for_path(files[j].0@)->0, files[j].0@),
            include_tests,
            generated_paths,
            include_generated,
        ),
        symbols_of(spec_language_for_path(files[j].0@)->0, files[j].0@, files[j].1@, symbols),
        0 <= s < symbols.len(),
        0 <= n < names.len(),
        symbols[s].name@ == names[n]@,
        patterns_cover_definitions(spec_language_for_path(files[j].0@)->0, names, files[j].1@, symbols),
    ensures
        (exists|k: int|
            0 <= k < kept.len() && kept[k].0 == files[j].0 && symbols_of(
                spec_language_for_path(files[j].0@)->0,
                files[j].0@,
                files[j].1@,
                kept[k].1,
            )) || extraction_fails(spec_language_for_path(files[j].0@)->0, files[j].0@, files[j].1@),
    decreases files.len(),
{
    let l = spec_language_for_path(files[j].0@)->0;
    let h = encode_utf8(spec_normalize_whitespace(files[j].1@));
    assert(symbols[s].name@ == names[n]@);
    assert(some_text_occurs(language_patterns(l, seq![names[n]]), h));
    lemma_language_patterns_of_one(l, names, n);
    lemma_occurs_in_superset(language_patterns(l, seq![names[n]]), language_patterns(l, names), h);
    assert(file_passes(files[j].0@, files[j].1@, names, include_tests, generated_paths, include_generated));
    let f = files.last();
    if j == files.len() - 1 {
        assert(f == files[j]);
    } else {
        assert(files.drop_last()[j] == files[j]);
        let passes = file_passes(f.0@, f.1@, names, include_tests, generated_paths, include_generated);
        if kept.len() > 0 && kept.last().0 == f.0 && passes && symbols_of(spec_language_for_path(f.0@)->0, f.0@, f.1@, kept.last().1)
            && indexed_as(files.drop_last(), kept.drop_last(), names, include_tests, generated_paths, include_generated) {
            lemma_prefilter_keeps_defining_files(
                files.drop_last(),
                kept.drop_last(),
                names,
                include_tests,
                generated_paths,
                include_generated,
                j,
                symbols,
                s,
                n,
            );
            if exists|k: int|
                0 <= k < kept.drop_last().len() && kept.drop_last()[k].0 == files[j].0 && symbols_of(
                    l,
                    files[j].0@,
                    files[j].1@,
                    kept.drop_last()[k].1,
                ) {
                let k = choose|k: int|
                    0 <= k < kept.drop_last().len() && kept.drop_last()[k].0 == files[j].0 && symbols_of(
                        l,
                        files[j].0@,
                        files[j].1@,
                        kept.drop_last()[k].1,
                    );
                assert(kept[k] == kept.drop_last()[k]);
            }
        } else {
            lemma_prefilter_keeps_defining_files(
                files.drop_last(),
                kept,
                names,
                include_tests,
                generated_paths,
                include_generated,
                j,
                symbols,
                s,
                n,
            );
        }
    }
}

/// The symbols of one file for the index; `None` when the file is not
/// parsed for it or its extraction fails.
fn index_file(
    path: &String,
    content: &String,
    names: &[String],
    include_tests: bool,
    generated_paths: &[String],
    include_generated: bool,
    bare: &aho_corasick::AhoCorasick,
    php: &aho_corasick::AhoCorasick,
) -> (r: Option<Vec<ExtractedSymbol>>)
    requires
        matcher_patterns(*bare) == texts_bytes(bare_name_patterns(names@)),
        matcher_patterns(*php) == texts_bytes(php_declaration_patterns(bare_name_patterns(names@))),
    ensures
        !file_passes(path@, content@, names@, include_tests, generated_paths@, include_generated) ==> r is None,
        file_passes(path@, content@, names@, include_tests, generated_paths@, include_generated) ==> match r {
            Some(v) => symbols_of(spec_language_for_path(path@)->0, path@, content@, v@),
            None => extraction_fails(spec_language_for_path(path@)->0, path@, content@),
        },
{
    let language = match language_for_path(path.as_str()) {
        Some(l) => l,
        None => {
            return None;
        },
    };
    let (contributes, is_test) = match language {
        LanguageKind::Markdown => (MarkdownSupport.contributes_to_dependency_index(path.as_str()), MarkdownSupport.is_test_path(path.as_str())),
        LanguageKind::Php => (PhpSupport.contributes_to_dependency_index(path.as_str()), PhpSupport.is_test_path(path.as_str())),
        LanguageKind::Vue => (VueSupport.contributes_to_dependency_index(path.as_str()), VueSupport.is_test_path(path.as_str())),
        LanguageKind::Svelte => (SvelteSupport.contributes_to_dependency_index(path.as_str()), SvelteSupport.is_test_path(path.as_str())),
    };
    proof {
        reveal_strlit(".blade.php");
    }
    if !contributes {
        return None;
    }
    let matcher = match language {
        LanguageKind::Php => php,
        _ => bare,
    };
    proof {
        let normalized = encode_utf8(spec_normalize_whitespace(content@));
        lemma_occurs_by_texts(language_patterns(language, names@), normalized);
    }
    if !should_index_file(path.as_str(), content.as_str(), is_test, include_tests, generated_paths, include_generated, matcher) {
        return None;
    }
    extract_all_symbols(path.as_str(), content.as_str(), language)
}

impl TagsResolver {
    /// Builds the index from the repository's files: each file that could
    /// define a referenced name (see [`file_passes`]) is parsed, and every
    /// symbol extracted from it indexed under its name, files in the order
    /// given; test symbols are dropped unless `include_tests`. `None`
    /// exactly when a prefilter cannot be built (see [`matcher_builds`]).
    pub fn new_from_files(
        files: Vec<(String, String)>,
        reference_names: &[String],
        include_tests: bool,
        generated_paths: &[String],
        include_generated: bool,
    ) -> (r: Option<TagsResolver>)
        ensures
            r is Some <==> (matcher_builds(texts_bytes(bare_name_patterns(reference_names@))) && matcher_builds(
                texts_bytes(php_declaration_patterns(bare_name_patterns(reference_names@))),
            )),
            r matches Some(t) ==> forall|i: int|
                0 <= i < t@.len() ==> exists|j: int|
                    0 <= j < files@.len() && files@[j].0 == (#[trigger] t@[i]).1.path && file_passes(
                        files@[j].0@,
                        files@[j].1@,
                        reference_names@,
                        include_tests,
                        generated_paths@,
                        include_generated,
                    ),
            r matches Some(t) ==> (reference_names@.len() == 0 ==> t@.len() == 0),
            r matches Some(t) ==> exists|kept: Seq<(String, Seq<ExtractedSymbol>)>|
                indexed_as(files@, kept, reference_names@, include_tests, generated_paths@, include_generated) && t@
                    == entries_index(
                    kept.map_values(
                        |f: (String, Seq<ExtractedSymbol>)| (f.0, f.1.map_values(|s: ExtractedSymbol| entry_of(s))),
                    ),
                    include_tests,
                ),
    {
        let bare = match build_prefilter(reference_names) {
            Some(m) => m,
            None => {
                return None;
            },
        };
        let php = match build_php_prefilter(reference_names) {
            Some(m) => m,
            None => {
                return None;
            },
        };
        let mut collected: Vec<(String, Vec<ExtractedSymbol>)> = Vec::new();
        let mut i: usize = 0;
        while i < files.len()
            invariant
                i <= files@.len(),
                matcher_patterns(bare) == texts_bytes(bare_name_patterns(reference_names@)),
                matcher_patterns(php) == texts_bytes(php_declaration_patterns(bare_name_patterns(reference_names@))),
                indexed_as(
                    files@.take(i as int),
                    collected@.map_values(|f: (String, Vec<ExtractedSymbol>)| (f.0, f.1@)),
                    reference_names@,
                    include_tests,
                    generated_paths@,
                    include_generated,
                ),
            decreases files@.len() - i,
        {
            let ghost before = collected@.map_values(|f: (String, Vec<ExtractedSymbol>)| (f.0, f.1@));
            assert(files@.take(i + 1).drop_last() =~= files@.take(i as int));
            assert(files@.take(i + 1).last() == files@[i as int]);
            let path = &files[i].0;
            let content = &files[i].1;
            match index_file(path, content, reference_names, include_tests, generated_paths, include_generated, &bare, &php) {
                Some(symbols) => {
                    collected.push((path.clone(), symbols));
                    assert(collected@.map_values(|f: (String, Vec<ExtractedSymbol>)| (f.0, f.1@)).drop_last() =~= before);
                },
                None => {},
            }
            i = i + 1;
        }
        assert(files@.take(i as int) =~= files@);
        let ghost kept = collected@.map_values(|f: (String, Vec<ExtractedSymbol>)| (f.0, f.1@));
        let resolver = TagsResolver::from_extracted(collected, include_tests);
        let ghost entries = kept.map_values(
            |f: (String, Seq<ExtractedSymbol>)| (f.0, f.1.map_values(|s: ExtractedSymbol| entry_of(s))),
        );
        assert(entries =~= collected@.map_values(
            |f: (String, Vec<ExtractedSymbol>)| (f.0, f.1@.map_values(|s: ExtractedSymbol| entry_of(s))),
        ));
        proof {
            lemma_kept_from_passing_files(files@, kept, reference_names@, include_tests, generated_paths@, include_generated);
            lemma_entries_paths(entries, include_tests);
            assert forall|i: int| 0 <= i < resolver@.len() implies exists|j: int|
                0 <= j < files@.len() && files@[j].0 == (#[trigger] resolver@[i]).1.path && file_passes(
                    files@[j].0@,
                    files@[j].1@,
                    reference_names@,
                    include_tests,
                    generated_paths@,
                    include_generated,
                ) by {
                let k = choose|k: int| 0 <= k < entries.len() && entries[k].0 == resolver@[i].1.path;
                assert(entries[k].0 == kept[k].0);
            }
            if reference_names@.len() == 0 && resolver@.len() > 0 {
                let j = choose|j: int|
                    0 <= j < files@.len() && files@[j].0 == resolver@[0].1.path && file_passes(
                        files@[j].0@,
                        files@[j].1@,
                        reference_names@,
                        include_tests,
                        generated_paths@,
                        include_generated,
                    );
                lemma_passing_files_are_admitted(
                    files@[j].0@,
                    files@[j].1@,
                    reference_names@,
                    include_tests,
                    generated_paths@,
                    include_generated,
                );
            }
        }
        Some(resolver)
    }
}

} // verus!
