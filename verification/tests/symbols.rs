use rinkaku::signature_slice::normalize_for_comparison;
use rinkaku::extract::{ExtractedSymbol, LineRange, SymbolKind};
use rinkaku::symbols::{extract_all_symbols, extract_changed_symbols, LanguageKind};

const COMPONENT_PATH: &str = "src/components/Counter.vue";

fn document_source() -> &'static str {
    "# rinkaku\n\nIntro prose.\n\n## Architecture\n\nProse about layers.\n\n### Ports\n\nTrait talk.\n\n## Toolchain\n\nSetext Style\n------------\n\nMake targets.\n"
}

fn fresh(name: &str, kind: SymbolKind, signature: &str, range: LineRange, container: Option<&str>, refs: Vec<&str>) -> ExtractedSymbol {
    ExtractedSymbol {
        id: String::new(),
        name: name.to_string(),
        kind,
        signature: signature.to_string(),
        range,
        container: container.map(|c| c.to_string()),
        referenced_names: refs.into_iter().map(|r| r.to_string()).collect(),
        referenced_method_names: vec![],
        dependencies: vec![],
        omitted_dependency_matches: 0,
        is_test: false,
        classification: None,
        previous_signature: None,
    }
}

#[test]
fn should_extract_function_signature_when_body_line_changed() {
    let source = "<?php\nfunction format_name(string $name): string {\n    return trim($name);\n}\n";
    let changed_ranges = vec![LineRange { start: 3, end: 3 }];

    let expected = vec![fresh(
        "format_name",
        SymbolKind::Function,
        "function format_name(string $name): string",
        LineRange { start: 2, end: 4 },
        None,
        vec!["trim"],
    )];
    let actual = extract_changed_symbols("app/sample.php", source, LanguageKind::Php, &changed_ranges).expect("extraction");

    assert_eq!(expected, actual);
}

#[test]
fn should_report_enclosing_class_as_container_when_method_body_changed() {
    let source = "<?php\nclass UserService\n{\n    public function findUser(int $id): ?User\n    {\n        return $this->repository->find($id);\n    }\n}\n";
    let changed_ranges = vec![LineRange { start: 6, end: 6 }];

    let actual = extract_changed_symbols("app/sample.php", source, LanguageKind::Php, &changed_ranges).expect("extraction");

    assert_eq!(1, actual.len());
    assert_eq!("findUser", actual[0].name);
    assert_eq!(SymbolKind::Function, actual[0].kind);
    assert_eq!("public function findUser(int $id): ?User", actual[0].signature);
    assert_eq!(LineRange { start: 4, end: 7 }, actual[0].range);
    assert_eq!(Some("class UserService".to_string()), actual[0].container);
    assert_eq!(vec!["User".to_string()], actual[0].referenced_names);
}

#[test]
fn should_strip_method_bodies_from_class_signature() {
    let source = "<?php\nclass Greeter\n{\n    use LoggingTrait;\n\n    public function greet(string $name): string\n    {\n        return \"hi $name\";\n    }\n}\n";

    let symbols = extract_all_symbols("app/sample.php", source, LanguageKind::Php).expect("extraction");

    let class_symbol = symbols.iter().find(|s| s.name == "Greeter").expect("class symbol extracted");
    assert_eq!(SymbolKind::Class, class_symbol.kind);
    assert_eq!(
        "class Greeter\n{\n    use LoggingTrait;\n\n    public function greet(string $name): string\n\n}",
        class_symbol.signature
    );
    assert_eq!(vec!["LoggingTrait".to_string()], class_symbol.referenced_names);
}

#[test]
fn should_report_trait_and_interface_and_enum_containers() {
    let source = "<?php\ninterface Greeter\n{\n    public function greet(string $name): string;\n}\n\ntrait LoggingTrait\n{\n    public function log(mixed $value): void\n    {\n        error_log(print_r($value, true));\n    }\n}\n\nenum Status: string\n{\n    case Active = 'active';\n\n    public function label(): string\n    {\n        return ucfirst($this->value);\n    }\n}\n";

    let symbols = extract_all_symbols("app/sample.php", source, LanguageKind::Php).expect("extraction");

    let containers: Vec<(String, Option<String>, SymbolKind)> =
        symbols.iter().map(|s| (s.name.clone(), s.container.clone(), s.kind)).collect();
    let expected = vec![
        ("Greeter".to_string(), None, SymbolKind::Interface),
        ("greet".to_string(), Some("interface Greeter".to_string()), SymbolKind::Function),
        ("LoggingTrait".to_string(), None, SymbolKind::Trait),
        ("log".to_string(), Some("trait LoggingTrait".to_string()), SymbolKind::Function),
        ("Status".to_string(), None, SymbolKind::Enum),
        ("label".to_string(), Some("enum Status".to_string()), SymbolKind::Function),
    ];
    assert_eq!(expected, containers);
}

#[test]
fn should_suppress_the_enclosing_class_when_a_method_line_changed() {
    let source = "<?php\nclass Box\n{\n    public function open(): void\n    {\n        shut();\n    }\n}\n";
    let changed_ranges = vec![LineRange { start: 2, end: 6 }];

    let actual = extract_changed_symbols("app/sample.php", source, LanguageKind::Php, &changed_ranges).expect("extraction");

    let names: Vec<&str> = actual.iter().map(|s| s.name.as_str()).collect();
    assert_eq!(vec!["open"], names);
    assert_eq!(vec!["shut".to_string()], actual[0].referenced_names);
}

#[test]
fn should_return_nothing_when_no_range_changed() {
    let actual = extract_changed_symbols("app/a.php", "<?php\nfunction a() {}\n", LanguageKind::Php, &[]).expect("extraction");
    assert!(actual.is_empty());
}

#[test]
fn should_extract_every_heading_as_a_section() {
    let symbols = extract_all_symbols("README.md", document_source(), LanguageKind::Markdown).expect("extraction");

    let shapes: Vec<(String, String, LineRange, Option<String>)> =
        symbols.iter().map(|s| (s.name.clone(), s.signature.clone(), s.range, s.container.clone())).collect();
    let expected = vec![
        ("rinkaku".to_string(), "# rinkaku".to_string(), LineRange { start: 1, end: 18 }, None),
        (
            "Architecture".to_string(),
            "## Architecture".to_string(),
            LineRange { start: 5, end: 12 },
            Some("section rinkaku".to_string()),
        ),
        ("Ports".to_string(), "### Ports".to_string(), LineRange { start: 9, end: 12 }, Some("section Architecture".to_string())),
        ("Toolchain".to_string(), "## Toolchain".to_string(), LineRange { start: 13, end: 18 }, Some("section rinkaku".to_string())),
        (
            "Setext Style".to_string(),
            "Setext Style\n------------".to_string(),
            LineRange { start: 15, end: 16 },
            Some("section Toolchain".to_string()),
        ),
    ];
    assert_eq!(expected, shapes);
    assert!(symbols.iter().all(|s| s.kind == SymbolKind::Section));
}

#[test]
fn should_report_only_the_edited_section_when_a_sibling_heading_line_changed() {
    let changed_ranges = vec![LineRange { start: 13, end: 13 }];

    let actual = extract_changed_symbols("README.md", document_source(), LanguageKind::Markdown, &changed_ranges).expect("extraction");

    let names: Vec<&str> = actual.iter().map(|s| s.name.as_str()).collect();
    assert_eq!(vec!["Toolchain"], names);
}

#[test]
fn should_report_the_innermost_section_when_prose_inside_a_subsection_changed() {
    let changed_ranges = vec![LineRange { start: 11, end: 11 }];

    let actual = extract_changed_symbols("README.md", document_source(), LanguageKind::Markdown, &changed_ranges).expect("extraction");

    let expected = vec![fresh(
        "Ports",
        SymbolKind::Section,
        "### Ports",
        LineRange { start: 9, end: 12 },
        Some("section Architecture"),
        vec![],
    )];
    assert_eq!(expected, actual);
}

#[test]
fn should_extract_no_symbols_when_the_document_has_no_heading() {
    let source = "Just prose, no heading at all.\n\nA second paragraph.\n";

    let actual = extract_all_symbols("docs/guide.md", source, LanguageKind::Markdown).expect("extraction");

    assert_eq!(Vec::<ExtractedSymbol>::new(), actual);
}

#[test]
fn should_extract_no_symbols_when_the_change_is_above_the_first_heading() {
    let source = "Preamble prose.\n\n# Title\n\nBody.\n";
    let changed_ranges = vec![LineRange { start: 1, end: 1 }];

    let actual = extract_changed_symbols("docs/guide.md", source, LanguageKind::Markdown, &changed_ranges).expect("extraction");

    assert_eq!(Vec::<ExtractedSymbol>::new(), actual);
}

#[test]
fn should_extract_a_vue_script_function_at_its_original_line() {
    let source = "<template>\n  <div>{{ label }}</div>\n</template>\n<script setup lang=\"ts\">\nfunction greet(name: string): string {\n  return name;\n}\n</script>\n";

    let symbols = extract_all_symbols(COMPONENT_PATH, source, LanguageKind::Vue).expect("extraction");

    let greet = symbols.iter().find(|s| s.name == "greet").expect("function extracted");
    assert_eq!(SymbolKind::Function, greet.kind);
    assert_eq!("function greet(name: string): string", greet.signature);
    assert_eq!(LineRange { start: 5, end: 7 }, greet.range);
}

#[test]
fn should_extract_a_single_section_with_no_container() {
    let source = "## Install\n\nRun the new command.\n";
    let changed_ranges = vec![LineRange { start: 3, end: 3 }];

    let expected = vec![fresh("Install", SymbolKind::Section, "## Install", LineRange { start: 1, end: 3 }, None, vec![])];
    let actual = extract_changed_symbols("docs/guide.md", source, LanguageKind::Markdown, &changed_ranges).expect("extraction");

    assert_eq!(expected, actual);
}

#[test]
fn should_normalize_reflowed_signatures_alike_and_stay_put() {
    let reflowed = normalize_for_comparison("fn foo(a: i32,\n    b: i32)");
    let compact = normalize_for_comparison("fn foo(a:i32, b:i32)");

    assert_eq!("fn foo(a:i32,b:i32)", reflowed);
    assert_eq!(reflowed, compact);
    assert_eq!(reflowed, normalize_for_comparison(&reflowed));
}

fn script_setup_source() -> &'static str {
    "<template>\n  <button @click=\"go\">{{ label }}</button>\n</template>\n\n<script setup lang=\"ts\">\nconst props = defineProps<{ start: number }>();\nconst emit = defineEmits<{ (e: 'changed', value: number): void }>();\n\nfunction go(): void {\n  emit('changed', props.start);\n}\n</script>\n"
}

#[test]
fn should_extract_define_props_and_define_emits_as_component_api_symbols() {
    let symbols = extract_all_symbols(COMPONENT_PATH, script_setup_source(), LanguageKind::Vue).expect("extraction");

    let shapes: Vec<(String, SymbolKind, String)> =
        symbols.iter().map(|s| (s.name.clone(), s.kind, s.signature.clone())).collect();
    let expected = vec![
        ("Counter".to_string(), SymbolKind::Component, "<Counter />".to_string()),
        ("props".to_string(), SymbolKind::ComponentApi, "defineProps<{ start: number }>()".to_string()),
        (
            "emits".to_string(),
            SymbolKind::ComponentApi,
            "defineEmits<{ (e: 'changed', value: number): void }>()".to_string(),
        ),
        ("go".to_string(), SymbolKind::Function, "function go(): void".to_string()),
    ];
    assert_eq!(expected, shapes);
}

#[test]
fn should_report_the_props_symbol_when_only_the_props_declaration_changed() {
    let changed_ranges = vec![LineRange { start: 6, end: 6 }];

    let actual = extract_changed_symbols(COMPONENT_PATH, script_setup_source(), LanguageKind::Vue, &changed_ranges).expect("extraction");

    assert_eq!(1, actual.len());
    assert_eq!("props", actual[0].name);
    assert_eq!(SymbolKind::ComponentApi, actual[0].kind);
    assert_eq!("defineProps<{ start: number }>()", actual[0].signature);
}

#[test]
fn should_extract_options_api_props_and_emits_options_as_component_api_symbols() {
    let source = "<template><div /></template>\n\n<script lang=\"ts\">\nexport default {\n  props: { title: { type: String, required: true } },\n  emits: ['close'],\n};\n</script>\n";

    let symbols = extract_all_symbols(COMPONENT_PATH, source, LanguageKind::Vue).expect("extraction");

    let shapes: Vec<(String, SymbolKind)> = symbols.iter().map(|s| (s.name.clone(), s.kind)).collect();
    let expected = vec![
        ("Counter".to_string(), SymbolKind::Component),
        ("props".to_string(), SymbolKind::ComponentApi),
        ("emits".to_string(), SymbolKind::ComponentApi),
    ];
    assert_eq!(expected, shapes);
}

#[test]
fn should_extract_props_rune_destructuring_as_a_component_api_symbol() {
    let source = "<script lang=\"ts\">\nlet { start = 0, max = 10 }: { start?: number; max?: number } = $props();\n\nlet count = $state(start);\nlet doubled = $derived(count * 2);\n\nfunction bump(): void {\n  count += 1;\n}\n</script>\n\n<button onclick={bump}>{doubled}</button>\n";

    let symbols = extract_all_symbols("", source, LanguageKind::Svelte).expect("extraction");

    let shapes: Vec<(String, SymbolKind)> = symbols.iter().map(|s| (s.name.clone(), s.kind)).collect();
    let expected = vec![("props".to_string(), SymbolKind::ComponentApi), ("bump".to_string(), SymbolKind::Function)];
    assert_eq!(expected, shapes);
}

#[test]
fn should_report_the_prop_symbol_when_only_the_export_let_line_changed() {
    let source = "<script context=\"module\">\nexport function preload(id: number): Promise<Data> {\n  return fetchData(id);\n}\n</script>\n\n<script lang=\"ts\">\nexport let count = 0;\n\nfunction bump(): void {\n  count += 1;\n}\n</script>\n\n<button on:click={bump}>{count}</button>\n";
    let changed_ranges = vec![LineRange { start: 8, end: 8 }];

    let actual = extract_changed_symbols("", source, LanguageKind::Svelte, &changed_ranges).expect("extraction");

    assert_eq!(1, actual.len());
    assert_eq!("count", actual[0].name);
    assert_eq!(SymbolKind::ComponentApi, actual[0].kind);
    assert_eq!("export let count = 0;", actual[0].signature);
}

#[test]
fn should_prefer_the_function_when_an_exported_prop_is_an_arrow_function() {
    let source = "<script lang=\"ts\">\nexport let onPick: (id: string) => void = () => {\n  return;\n};\n</script>\n";
    let changed_ranges = vec![LineRange { start: 3, end: 3 }];

    let actual = extract_changed_symbols("", source, LanguageKind::Svelte, &changed_ranges).expect("extraction");

    assert_eq!(1, actual.len());
    assert_eq!("onPick", actual[0].name);
    assert_eq!(SymbolKind::Function, actual[0].kind);
}

fn sfc_source() -> &'static str {
    "<template>\n  <button @click=\"increment\">{{ count }}</button>\n</template>\n\n<script setup lang=\"ts\">\nimport { ref } from 'vue';\n\nconst count = ref(0);\n\nfunction increment(): void {\n  count.value += 1;\n}\n\nfunction useCounter(start: number): Counter {\n  return new Counter(start);\n}\n</script>\n\n<style scoped>\nbutton { color: red; }\n</style>\n"
}

#[test]
fn should_report_only_the_component_when_template_lines_changed() {
    let changed_ranges = vec![LineRange { start: 2, end: 2 }];

    let actual = extract_changed_symbols(COMPONENT_PATH, sfc_source(), LanguageKind::Vue, &changed_ranges).expect("extraction");

    assert_eq!(1, actual.len());
    assert_eq!("Counter", actual[0].name);
    assert_eq!(SymbolKind::Component, actual[0].kind);
    assert_eq!(LineRange { start: 1, end: 21 }, actual[0].range);
}

#[test]
fn should_suppress_the_component_when_a_definition_inside_it_changed() {
    let changed_ranges = vec![LineRange { start: 11, end: 11 }];

    let actual = extract_changed_symbols(COMPONENT_PATH, sfc_source(), LanguageKind::Vue, &changed_ranges).expect("extraction");

    assert_eq!(1, actual.len());
    assert_eq!("increment", actual[0].name);
    assert_eq!("function increment(): void", actual[0].signature);
}

#[test]
fn should_carry_markup_children_as_the_components_own_references() {
    let source = "<template>\n  <BaseButton @click=\"go\" />\n  <div />\n</template>\n\n<script setup lang=\"ts\">\nfunction go(): void {}\n</script>\n";

    let symbols = extract_all_symbols(COMPONENT_PATH, source, LanguageKind::Vue).expect("extraction");

    let component = symbols.iter().find(|s| s.kind == SymbolKind::Component).expect("component symbol extracted");
    assert_eq!("Counter", component.name);
    assert_eq!(vec!["BaseButton".to_string(), "base-button".to_string()], component.referenced_names);
}

#[test]
fn should_extract_define_model_and_define_expose_as_component_api_symbols() {
    let source = "<script setup lang=\"ts\">\nconst value = defineModel<string>();\ndefineExpose({ focus });\n</script>\n";

    let symbols = extract_all_symbols(COMPONENT_PATH, source, LanguageKind::Vue).expect("extraction");

    let names: Vec<&str> = symbols.iter().map(|s| s.name.as_str()).collect();
    assert_eq!(vec!["Counter", "model", "expose"], names);
}

#[test]
fn should_extract_symbols_from_both_svelte_script_blocks_at_original_lines() {
    let source = "<script context=\"module\">\nexport function preload(id: number): Promise<Data> {\n  return fetchData(id);\n}\n</script>\n\n<script lang=\"ts\">\nexport let count = 0;\n\nfunction bump(): void {\n  count += 1;\n}\n</script>\n\n<button on:click={bump}>{count}</button>\n";

    let symbols = extract_all_symbols("", source, LanguageKind::Svelte).expect("extraction");

    let shapes: Vec<(String, String, LineRange)> = symbols.iter().map(|s| (s.name.clone(), s.signature.clone(), s.range)).collect();
    let expected = vec![
        ("preload".to_string(), "function preload(id: number): Promise<Data>".to_string(), LineRange { start: 2, end: 4 }),
        ("count".to_string(), "export let count = 0;".to_string(), LineRange { start: 8, end: 8 }),
        ("bump".to_string(), "function bump(): void".to_string(), LineRange { start: 10, end: 12 }),
    ];
    assert_eq!(expected, shapes);
}

#[test]
fn should_capture_type_references_from_the_script_block() {
    let symbols = extract_all_symbols(COMPONENT_PATH, sfc_source(), LanguageKind::Vue).expect("extraction");

    let use_counter = symbols.iter().find(|s| s.name == "useCounter").expect("useCounter extracted");
    assert_eq!(vec!["Counter".to_string()], use_counter.referenced_names);
}

#[test]
fn should_extract_changed_symbol_when_script_body_line_changed() {
    let changed_ranges = vec![LineRange { start: 11, end: 11 }];

    let actual = extract_changed_symbols(COMPONENT_PATH, sfc_source(), LanguageKind::Vue, &changed_ranges).expect("extraction");

    assert_eq!(1, actual.len());
    assert_eq!("increment", actual[0].name);
    assert_eq!("function increment(): void", actual[0].signature);
}

#[test]
fn should_not_carry_the_scripts_own_references_on_the_component() {
    let source = "<script setup lang=\"ts\">\nimport { helper } from './helper';\nfunction go(): Widget {\n  return helper();\n}\n</script>\n";

    let symbols = extract_all_symbols(COMPONENT_PATH, source, LanguageKind::Vue).expect("extraction");

    let component = symbols.iter().find(|s| s.kind == SymbolKind::Component).expect("component symbol extracted");
    assert_eq!(Vec::<String>::new(), component.referenced_names);
    let go = symbols.iter().find(|s| s.name == "go").expect("function extracted");
    assert_eq!(vec!["Widget".to_string(), "helper".to_string()], go.referenced_names);
}

#[test]
fn should_find_every_changed_symbol_among_the_files_symbols() {
    let source = "<?php\nclass Box\n{\n    public function open(): void\n    {\n        shut();\n    }\n\n    public function close(): void {}\n}\n";
    let changed_ranges = vec![LineRange { start: 6, end: 6 }, LineRange { start: 9, end: 9 }];

    let changed = extract_changed_symbols("app/Box.php", source, LanguageKind::Php, &changed_ranges).expect("extraction");
    let all = extract_all_symbols("app/Box.php", source, LanguageKind::Php).expect("extraction");

    assert_eq!(vec!["open", "close"], changed.iter().map(|s| s.name.as_str()).collect::<Vec<_>>());
    assert!(changed.iter().all(|s| all.contains(s)));
}
