use rinkaku::language::markdown::MarkdownSupport;
use rinkaku::language::php::PhpSupport;
use rinkaku::language::svelte::SvelteSupport;
use rinkaku::language::vue::{component_tags, kebab_case, mask_non_script, pascal_case, VueSupport};
use rinkaku::syntax::{Grammar, SyntaxTree};
use std::borrow::Cow;

#[test]
fn should_keep_script_content_at_its_original_lines_when_masking() {
    let source = "<template>\n  <div>{{ msg }}</div>\n</template>\n\n<script setup lang=\"ts\">\nfunction greet(name: string): string {\n  return name;\n}\n</script>\n";

    let actual = mask_non_script(source);

    assert_eq!(source.len(), actual.len());
    let expected_lines: Vec<String> = source
        .lines()
        .enumerate()
        .map(|(index, line)| {
            if (5..=7).contains(&index) {
                line.to_string()
            } else {
                " ".repeat(line.len())
            }
        })
        .collect();
    assert_eq!(expected_lines, actual.lines().collect::<Vec<_>>());
}

#[test]
fn should_keep_both_blocks_when_sfc_has_script_and_script_setup() {
    let source = "<script>\nconst a = () => 1;\n</script>\n<script setup>\nconst b = () => 2;\n</script>\n";

    let actual = mask_non_script(source);

    assert!(actual.contains("const a = () => 1;"));
    assert!(actual.contains("const b = () => 2;"));
    assert!(!actual.contains("<script"));
}

#[test]
fn should_mask_everything_when_sfc_has_no_script_block() {
    let source = "<template>\n  <div />\n</template>\n";

    let actual = mask_non_script(source);

    assert_eq!("          \n         \n           \n", actual);
}

#[test]
fn should_mask_a_multibyte_character_to_one_space_per_byte() {
    let source = "<p>輪</p>\n<script>\nlet x = 1;\n</script>";

    let actual = mask_non_script(source);

    assert_eq!(source.len(), actual.len());
    assert_eq!("          \n        \nlet x = 1;\n         ", actual);
}

#[test]
fn should_keep_everything_after_an_unclosed_script() {
    let source = "<div/>\n<script lang=\"ts\">\nconst a = 1;\n";

    let actual = mask_non_script(source);

    assert_eq!("      \n                  \nconst a = 1;\n", actual);
}

#[test]
fn should_not_open_a_block_at_a_longer_tag_name() {
    let source = "<scripting>x</scripting>";

    let actual = mask_non_script(source);

    assert_eq!(" ".repeat(source.len()), actual);
}

#[test]
fn should_find_component_tags_in_both_spellings_when_markup_renders_children() {
    let source = "<template>\n  <BaseButton />\n  <base-button />\n  <div class=\"plain\" />\n  <button>go</button>\n</template>\n\n<script setup lang=\"ts\">\nconst n = 1;\n</script>\n";

    let actual = component_tags(source);

    assert_eq!(vec!["BaseButton".to_string(), "base-button".to_string()], actual);
}

#[test]
fn should_report_a_pascal_case_tag_in_kebab_case_too() {
    let source = "<template>\n  <BaseButton />\n</template>\n";

    let actual = component_tags(source);

    assert_eq!(vec!["BaseButton".to_string(), "base-button".to_string()], actual);
}

#[test]
fn should_skip_framework_builtins_and_namespaced_elements() {
    let source = "<template>\n  <Transition><KeepAlive><Teleport to=\"#x\" /></KeepAlive></Transition>\n  <svelte:component this={C} />\n  <RealChild />\n</template>\n";

    let actual = component_tags(source);

    assert_eq!(vec!["RealChild".to_string(), "real-child".to_string()], actual);
}

#[test]
fn should_ignore_tags_inside_the_script_block() {
    let source = "<script setup lang=\"ts\">\nconst items: Array<Item> = [];\nconst node = h(\"div\");\n</script>\n\n<template>\n  <RealChild />\n</template>\n";

    let actual = component_tags(source);

    assert_eq!(vec!["RealChild".to_string(), "real-child".to_string()], actual);
}

#[test]
fn should_return_no_tags_when_markup_renders_only_plain_elements() {
    let source = "<template>\n  <div><span>hi</span></div>\n</template>\n";

    let actual = component_tags(source);

    assert_eq!(Vec::<String>::new(), actual);
}

#[test]
fn should_report_an_underscored_tag_in_three_spellings() {
    let actual = component_tags("<My_widget/>");

    assert_eq!(
        vec!["My_widget".to_string(), "MyWidget".to_string(), "my-widget".to_string()],
        actual
    );
}

#[test]
fn should_convert_between_kebab_and_pascal_case() {
    assert_eq!("base-button", kebab_case("BaseButton"));
    assert_eq!("base-button", kebab_case("base_button"));
    assert_eq!("base-button", kebab_case("base-button"));
    assert_eq!("base-button", kebab_case("Base-Button"));
    assert_eq!("BaseButton", pascal_case("base-button"));
    assert_eq!("BaseButton", pascal_case("base_button"));
    assert_eq!("BaseButton", pascal_case("BaseButton"));
    assert_eq!("AB", pascal_case("-a--b-"));
}

#[test]
fn vue_should_treat_tests_dir_as_test_path() {
    assert!(VueSupport.is_test_path("src/__tests__/Button.vue"));
}

#[test]
fn vue_should_treat_spec_suffix_as_test_path() {
    assert!(VueSupport.is_test_path("src/Button.spec.vue"));
}

#[test]
fn vue_should_treat_test_suffix_as_test_path() {
    assert!(VueSupport.is_test_path("src/Button.test.vue"));
}

#[test]
fn vue_should_not_treat_component_as_test_path() {
    assert!(!VueSupport.is_test_path("src/components/Button.vue"));
}

#[test]
fn vue_should_report_components_and_mask_for_parse() {
    let source = "<Child/><script>let a;</script>";
    let support = VueSupport;

    assert_eq!("vue", support.name());
    assert!(support.contributes_to_dependency_index("src/App.vue"));
    assert_eq!(
        Some(vec!["Child".to_string(), "child".to_string()]),
        support.component_markup_references(source)
    );
    assert_eq!("                let a;         ", support.source_for_parse(source));
    assert!(support.definition_query().contains("defineProps"));
}

#[test]
fn should_keep_both_blocks_when_component_has_module_and_instance_scripts() {
    let source = "<script context=\"module\">\nexport function preload(): void {}\n</script>\n\n<script>\nfunction bump(): void {}\n</script>\n\n<button on:click={bump}>go</button>\n";

    let actual = mask_non_script(source);

    assert!(actual.contains("export function preload(): void {}"));
    assert!(actual.contains("function bump(): void {}"));
    assert!(!actual.contains("<button"));
}

#[test]
fn svelte_should_treat_tests_dir_as_test_path() {
    assert!(SvelteSupport.is_test_path("src/__tests__/Button.svelte"));
}

#[test]
fn svelte_should_treat_spec_suffix_as_test_path() {
    assert!(SvelteSupport.is_test_path("src/Button.spec.svelte"));
}

#[test]
fn svelte_should_treat_test_suffix_as_test_path() {
    assert!(SvelteSupport.is_test_path("src/Button.test.svelte"));
}

#[test]
fn svelte_should_not_treat_component_as_test_path() {
    assert!(!SvelteSupport.is_test_path("src/lib/Button.svelte"));
}

#[test]
fn svelte_should_report_name_and_prop_query() {
    assert_eq!("svelte", SvelteSupport.name());
    assert!(SvelteSupport.definition_query().contains("$props"));
}

#[test]
fn should_exclude_blade_template_from_index() {
    assert!(!PhpSupport.contributes_to_dependency_index("resources/views/page.blade.php"));
}

#[test]
fn should_include_plain_php_in_index() {
    assert!(PhpSupport.contributes_to_dependency_index("app/Service.php"));
}

#[test]
fn php_should_treat_tests_dir_as_test_path() {
    assert!(PhpSupport.is_test_path("tests/AppTest.php"));
}

#[test]
fn php_should_treat_capitalized_tests_dir_as_test_path() {
    assert!(PhpSupport.is_test_path("Tests/Unit/FooTest.php"));
}

#[test]
fn php_should_treat_nested_tests_dir_as_test_path() {
    assert!(PhpSupport.is_test_path("app/tests/helper.php"));
}

#[test]
fn php_should_treat_test_suffix_file_as_test_path() {
    assert!(PhpSupport.is_test_path("src/FooTest.php"));
}

#[test]
fn php_should_not_treat_production_file_as_test_path() {
    assert!(!PhpSupport.is_test_path("src/Foo.php"));
}

#[test]
fn php_should_not_treat_tests_substring_segment_as_test_path() {
    assert!(!PhpSupport.is_test_path("contests/Entry.php"));
}

#[test]
fn php_should_parse_the_source_as_is() {
    let source = "<?php function f() {}";

    assert!(matches!(PhpSupport.source_for_parse(source), Cow::Borrowed(s) if s == source));
    assert_eq!(None, PhpSupport.component_markup_references(source));
    assert_eq!("php", PhpSupport.name());
    assert!(PhpSupport.reference_query().contains("member_call_expression"));
}

#[test]
fn should_report_markdown_as_name() {
    let support = MarkdownSupport;

    assert_eq!("markdown", support.name());
}

#[test]
fn should_return_false_when_path_is_a_plain_document() {
    assert!(!MarkdownSupport.is_test_path("docs/adr/0096-markdown.md"));
}

#[test]
fn should_return_false_when_a_name_merely_mentions_testing() {
    assert!(!MarkdownSupport.is_test_path("docs/testing.md"));
}

#[test]
fn should_return_false_when_a_file_name_looks_like_a_test() {
    assert!(!MarkdownSupport.is_test_path("docs/parser_test.md"));
}

#[test]
fn should_return_true_when_path_is_under_tests() {
    assert!(MarkdownSupport.is_test_path("tests/README.md"));
}

#[test]
fn should_return_true_when_path_is_under_capitalized_tests() {
    assert!(MarkdownSupport.is_test_path("Tests/Feature/README.md"));
}

#[test]
fn should_return_true_when_path_is_under_testdata() {
    assert!(MarkdownSupport.is_test_path("internal/testdata/notes.md"));
}

#[test]
fn should_not_contribute_to_dependency_index() {
    let support = MarkdownSupport;

    assert!(!support.contributes_to_dependency_index("README.md"));
}

#[test]
fn markdown_should_have_an_empty_reference_query() {
    assert_eq!("", MarkdownSupport.reference_query());
    assert_eq!("[(section) (setext_heading)] @definition", MarkdownSupport.definition_query());
    assert_eq!(None, MarkdownSupport.component_markup_references("# A"));
}

#[test]
fn should_report_each_component_name_once() {
    let actual = component_tags("<Foo/><foo-bar/><Foo></Foo><FooBar/>");

    assert_eq!(
        vec!["Foo".to_string(), "foo".to_string(), "foo-bar".to_string(), "FooBar".to_string()],
        actual
    );
}

#[test]
fn markdown_should_produce_a_grammar_that_parses_without_errors() {
    let support = MarkdownSupport;

    let tree = SyntaxTree::parse("# Title\n\nBody text.\n\n## Section\n", support.grammar()).expect("parse should produce a tree");

    assert!(!tree.nodes[0].has_error);
}

#[test]
fn should_compile_definition_query_against_its_own_grammar() {
    let support = MarkdownSupport;

    assert!(SyntaxTree::compiles_query(support.grammar(), support.definition_query()));
}

#[test]
fn should_compile_reference_query_against_its_own_grammar() {
    let support = MarkdownSupport;

    assert!(SyntaxTree::compiles_query(support.grammar(), support.reference_query()));
}

#[test]
fn php_should_produce_a_grammar_that_parses_without_errors() {
    let source = "<?php\nfunction helper(int $x): int {\n    return $x;\n}\n";

    let tree = SyntaxTree::parse(source, PhpSupport.grammar()).expect("parse must succeed");

    assert!(!tree.nodes[0].has_error);
}

#[test]
fn should_compile_every_language_query_against_its_grammar() {
    assert!(SyntaxTree::compiles_query(PhpSupport.grammar(), PhpSupport.definition_query()));
    assert!(SyntaxTree::compiles_query(PhpSupport.grammar(), PhpSupport.reference_query()));
    assert!(SyntaxTree::compiles_query(VueSupport.grammar(), VueSupport.definition_query()));
    assert!(SyntaxTree::compiles_query(SvelteSupport.grammar(), SvelteSupport.definition_query()));
    assert!(!SyntaxTree::compiles_query(Grammar::Markdown, "(no_such_node) @x"));
}

#[test]
fn should_flag_a_syntax_error_in_the_parsed_tree() {
    let tree = SyntaxTree::parse("<?php\nfunction (", Grammar::Php).expect("parse");

    assert!(tree.nodes[0].has_error);
}
