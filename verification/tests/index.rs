use rinkaku::deps::{build_php_prefilter, normalize_whitespace, should_parse_file, ResolvedSymbol, Resolver, TagsResolver};
use rinkaku::index::language_for_path;
use rinkaku::symbols::LanguageKind;

fn resolve_single_file(path: &str, content: &str, name: &str) -> Vec<ResolvedSymbol> {
    let files = vec![(path.to_string(), content.to_string())];
    let reference_names = vec![name.to_string()];

    let resolver = TagsResolver::new_from_files(files, &reference_names, true, &[], true).expect("prefilter builds");

    resolver.resolve(name)
}

fn should_parse_with_php_patterns(name: &str, content: &str) -> bool {
    let matcher = build_php_prefilter(&[name.to_string()]).expect("matcher builds");
    should_parse_file(&matcher, &normalize_whitespace(content))
}

#[test]
fn should_index_php_free_function_when_referenced() {
    let content = "<?php\nfunction helper(int $x): int {\n    return $x;\n}\n";

    let actual = resolve_single_file("src/helpers.php", content, "helper");

    assert_eq!(1, actual.len());
}

#[test]
fn should_index_php_class_method_when_referenced() {
    let content = "<?php\nclass Foo {\n    public function helper(): int {\n        return 1;\n    }\n}\n";

    let actual = resolve_single_file("src/Foo.php", content, "helper");

    assert_eq!(1, actual.len());
    assert_eq!("src/Foo.php", actual[0].path);
    assert_eq!(Some("class Foo".to_string()), actual[0].container);
}

#[test]
fn should_index_php_free_function_when_keyword_and_name_have_irregular_whitespace() {
    let content = "<?php\nfunction\n   helper(int $x): int {\n    return $x;\n}\n";

    let actual = resolve_single_file("src/helpers.php", content, "helper");

    assert_eq!(1, actual.len());
}

#[test]
fn should_reject_php_file_that_only_calls_format_price() {
    assert!(!should_parse_with_php_patterns("format_price", "<?php\necho format_price($total);\n"));
}

#[test]
fn should_accept_php_file_that_defines_format_price() {
    assert!(should_parse_with_php_patterns(
        "format_price",
        "<?php\nfunction format_price(int $cents): string {\n    return (string) $cents;\n}\n",
    ));
}

#[test]
fn should_not_index_a_php_file_that_only_calls_the_name() {
    let actual = resolve_single_file("src/page.php", "<?php\nfunction page() { return helper(1); }\n", "helper");

    assert!(actual.is_empty());
}

#[test]
fn should_skip_blade_templates_and_unknown_languages() {
    let content = "<?php\nfunction helper(int $x): int {\n    return $x;\n}\n";

    assert!(resolve_single_file("resources/views/page.blade.php", content, "helper").is_empty());
    assert!(resolve_single_file("src/helpers.txt", content, "helper").is_empty());
}

#[test]
fn should_index_only_referenced_files_in_order() {
    let files = vec![
        ("a.php".to_string(), "<?php\nfunction helper() {}\n".to_string()),
        ("b.php".to_string(), "<?php\nfunction other() {}\n".to_string()),
        ("c.vue".to_string(), "<script setup lang=\"ts\">\nfunction helper(): void {}\n</script>\n".to_string()),
    ];

    let resolver = TagsResolver::new_from_files(files, &["helper".to_string()], true, &[], true).expect("prefilter builds");

    let paths: Vec<String> = resolver.resolve("helper").into_iter().map(|s| s.path).collect();
    assert_eq!(vec!["a.php".to_string(), "c.vue".to_string()], paths);
    assert!(resolver.resolve("other").is_empty());
}

#[test]
fn should_resolve_languages_by_file_name() {
    assert_eq!(Some(LanguageKind::Php), language_for_path("app/Service.php"));
    assert_eq!(Some(LanguageKind::Vue), language_for_path("resources/js/Page.vue"));
    assert_eq!(Some(LanguageKind::Svelte), language_for_path("src/App.svelte"));
    assert_eq!(Some(LanguageKind::Markdown), language_for_path("docs/guide.md"));
    assert_eq!(None, language_for_path("Cargo.toml"));
}

#[test]
fn should_build_no_resolver_entries_when_nothing_is_referenced() {
    let files = vec![("a.php".to_string(), "<?php\nfunction helper() {}\n".to_string())];

    let resolver = TagsResolver::new_from_files(files, &[], true, &[], true).expect("prefilter builds");

    assert!(resolver.resolve("helper").is_empty());
}

#[test]
fn should_leave_test_and_generated_files_out_of_the_index() {
    let content = "<?php\nfunction helper() {}\n".to_string();
    let files = vec![
        ("tests/HelperTest.php".to_string(), content.clone()),
        ("app/generated.php".to_string(), content.clone()),
        ("app/helpers.php".to_string(), content),
    ];
    let generated = vec!["app/generated.php".to_string()];

    let resolver =
        TagsResolver::new_from_files(files, &["helper".to_string()], false, &generated, false).expect("prefilter builds");

    let paths: Vec<String> = resolver.resolve("helper").into_iter().map(|s| s.path).collect();
    assert_eq!(vec!["app/helpers.php".to_string()], paths);
}
