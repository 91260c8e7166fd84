use rinkaku::deps::{
    admits_for_indexing, is_generated_content, is_generated_lockfile_path, normalize_whitespace,
    resolve_dependencies, IndexEntry, ResolvedSymbol, Resolver, TagsResolver,
};
use rinkaku::extract::{ExtractedSymbol, LineRange, SymbolKind};
use rinkaku::render::FileReport;

#[test]
fn should_collapse_multiple_spaces_to_one() {
    let actual = normalize_whitespace("function   helper");

    assert_eq!("function helper", actual);
}

#[test]
fn should_collapse_mixed_whitespace_run_to_one_space() {
    let actual = normalize_whitespace("function\n\t  helper");

    assert_eq!("function helper", actual);
}

#[test]
fn should_leave_single_spaces_unchanged() {
    let actual = normalize_whitespace("function helper(x)");

    assert_eq!("function helper(x)", actual);
}

#[test]
fn should_leave_content_with_no_whitespace_unchanged() {
    let actual = normalize_whitespace("function(x){}");

    assert_eq!("function(x){}", actual);
}

#[test]
fn should_return_empty_string_when_input_is_empty() {
    let actual = normalize_whitespace("");

    assert_eq!("", actual);
}

#[test]
fn should_collapse_leading_and_trailing_whitespace_runs() {
    let actual = normalize_whitespace("  \n function helper \t\n");

    assert_eq!(" function helper ", actual);
}

#[test]
fn should_collapse_unicode_white_space_too() {
    assert_eq!("a b", normalize_whitespace("a\u{3000}\u{a0}b"));
}

#[test]
fn should_detect_generated_markers_in_the_first_five_lines() {
    assert!(is_generated_content("// @generated by tool\nfn a() {}\n"));
    assert!(is_generated_content("package x\n\n// Code generated by protoc. DO NOT EDIT.\n"));
    assert!(is_generated_content("1\n2\n3\n4\n# @generated\n"));
    assert!(!is_generated_content("1\n2\n3\n4\n5\n// @generated\n"));
    assert!(!is_generated_content("// Code generated by hand\n// DO NOT EDIT\n"));
    assert!(!is_generated_content("// @Generated\n"));
    assert!(!is_generated_content(""));
}

#[test]
fn should_recognize_the_terraform_lock_file_by_exact_name() {
    assert!(is_generated_lockfile_path(".terraform.lock.hcl"));
    assert!(is_generated_lockfile_path("infra/.terraform.lock.hcl"));
    assert!(!is_generated_lockfile_path("infra/x.terraform.lock.hcl"));
    assert!(!is_generated_lockfile_path("main.tf"));
}

#[test]
fn should_admit_files_for_indexing_by_test_and_generated_rules() {
    let generated = vec!["gen.rs".to_string()];

    assert!(admits_for_indexing("a.rs", "fn a() {}", false, false, &generated, false));
    assert!(!admits_for_indexing("tests/a.rs", "fn a() {}", true, false, &generated, false));
    assert!(admits_for_indexing("tests/a.rs", "fn a() {}", true, true, &generated, false));
    assert!(!admits_for_indexing("gen.rs", "fn a() {}", false, true, &generated, false));
    assert!(!admits_for_indexing("b.rs", "// @generated\n", false, true, &generated, false));
    assert!(admits_for_indexing("gen.rs", "// @generated\n", false, true, &generated, true));
}

fn entry(name: &str, signature: &str, container: Option<&str>) -> IndexEntry {
    IndexEntry {
        name: name.to_string(),
        signature: signature.to_string(),
        container: container.map(str::to_string),
        is_test: false,
    }
}

fn symbol(name: &str, container: Option<&str>, references: &[&str], methods: &[&str]) -> ExtractedSymbol {
    ExtractedSymbol {
        id: String::new(),
        name: name.to_string(),
        kind: SymbolKind::Function,
        signature: format!("fn {name}()"),
        range: LineRange { start: 1, end: 3 },
        container: container.map(str::to_string),
        referenced_names: references.iter().map(|s| s.to_string()).collect(),
        referenced_method_names: methods.iter().map(|s| s.to_string()).collect(),
        dependencies: vec![],
        omitted_dependency_matches: 0,
        is_test: false,
        classification: None,
        previous_signature: None,
    }
}

fn paths(deps: &[ResolvedSymbol]) -> Vec<String> {
    deps.iter().map(|d| d.path.clone()).collect()
}

#[test]
fn should_rank_candidates_by_proximity_and_cap_them_at_three() {
    let resolver = TagsResolver::from_entries(
        vec![
            ("z/far.rs".to_string(), vec![entry("helper", "fn helper() -> i32", None)]),
            ("src/pkg/other/deep.rs".to_string(), vec![entry("helper", "fn helper() -> u8", None)]),
            ("src/pkg/sibling.rs".to_string(), vec![entry("helper", "fn helper() -> u16", None)]),
            ("src/top.rs".to_string(), vec![entry("helper", "fn helper() -> u32", None)]),
            ("src/pkg/second.rs".to_string(), vec![entry("helper", "fn helper() -> u64", None)]),
        ],
        true,
    );
    let files = vec![FileReport {
        path: "src/pkg/main.rs".to_string(),
        symbols: vec![symbol("run", None, &["helper"], &[])],
    }];

    let actual = resolve_dependencies(files, &resolver);

    let run = &actual[0].symbols[0];
    assert_eq!(
        vec!["src/pkg/sibling.rs".to_string(), "src/pkg/second.rs".to_string(), "src/pkg/other/deep.rs".to_string()],
        paths(&run.dependencies)
    );
    assert_eq!(2, run.omitted_dependency_matches);
}

#[test]
fn should_leave_out_the_symbol_itself_and_symbols_of_the_change() {
    let resolver = TagsResolver::from_entries(
        vec![
            ("src/a.rs".to_string(), vec![entry("run", "fn run()", None), entry("helper", "fn helper()", None)]),
            ("src/b.rs".to_string(), vec![entry("helper", "fn helper(x: i32)", None), entry("util", "fn util()", None)]),
        ],
        true,
    );
    let files = vec![
        FileReport { path: "src/a.rs".to_string(), symbols: vec![symbol("run", None, &["run", "helper", "util"], &[])] },
        FileReport { path: "src/b.rs".to_string(), symbols: vec![symbol("helper", None, &[], &[])] },
    ];

    let actual = resolve_dependencies(files, &resolver);

    let run = &actual[0].symbols[0];
    assert_eq!(vec!["src/a.rs".to_string(), "src/b.rs".to_string()], paths(&run.dependencies));
    assert_eq!("fn helper()", run.dependencies[0].signature);
    assert_eq!("fn util()", run.dependencies[1].signature);
    assert!(actual[1].symbols[0].dependencies.is_empty());
}

#[test]
fn should_restrict_bare_references_to_top_level_and_own_container() {
    let resolver = TagsResolver::from_entries(
        vec![(
            "src/lib.rs".to_string(),
            vec![
                entry("save", "fn save()", None),
                entry("save", "fn save(&self)", Some("impl Repo")),
                entry("save", "fn save(&mut self)", Some("impl Cache")),
            ],
        )],
        true,
    );
    let files = vec![FileReport {
        path: "src/main.rs".to_string(),
        symbols: vec![
            symbol("store", Some("impl Repo"), &["save"], &[]),
            symbol("flush", None, &[], &["save"]),
        ],
    }];

    let actual = resolve_dependencies(files, &resolver);

    let bare: Vec<String> = actual[0].symbols[0].dependencies.iter().map(|d| d.signature.clone()).collect();
    assert_eq!(vec!["fn save()".to_string(), "fn save(&self)".to_string()], bare);
    assert_eq!(3, actual[0].symbols[1].dependencies.len());
    assert_eq!(0, actual[0].symbols[1].omitted_dependency_matches);
}

#[test]
fn should_build_the_index_from_extracted_symbols() {
    let resolver = TagsResolver::from_extracted(
        vec![("src/a.rs".to_string(), vec![symbol("helper", Some("impl A"), &[], &[])])],
        false,
    );

    assert_eq!(
        vec![ResolvedSymbol {
            signature: "fn helper()".to_string(),
            path: "src/a.rs".to_string(),
            container: Some("impl A".to_string()),
        }],
        resolver.resolve("helper")
    );
}

#[test]
fn should_collapse_to_single_spaces_only() {
    let actual = normalize_whitespace("a \t\n b\r\n\u{2028}c  ");

    assert_eq!("a b c ", actual);
    assert!(!actual.contains("  "));
}

#[test]
fn should_build_bare_name_prefilter_patterns_with_dotted_components() {
    let names = vec!["helper".to_string(), "var.region".to_string()];

    assert_eq!(
        vec!["helper".to_string(), "var.region".to_string(), "var".to_string(), "region".to_string()],
        rinkaku::deps::prefilter_patterns(&names)
    );
}

#[test]
fn should_pass_only_files_holding_a_referenced_name() {
    let names = vec!["helper".to_string(), "var.region".to_string()];
    let matcher = rinkaku::deps::build_prefilter(&names).expect("matcher");

    assert!(rinkaku::deps::should_parse_file(&matcher, "fn helper() {}"));
    assert!(rinkaku::deps::should_parse_file(&matcher, "variable \"region\" {}"));
    assert!(!rinkaku::deps::should_parse_file(&matcher, "fn unrelated() {}"));
}

#[test]
fn should_index_a_file_only_when_admitted_and_passing_the_prefilter() {
    let matcher = rinkaku::deps::build_prefilter(&["function helper".to_string()]).expect("matcher");
    let generated = vec!["gen.php".to_string()];

    assert!(rinkaku::deps::should_index_file("a.php", "<?php function\n   helper() {}", false, true, &generated, false, &matcher));
    assert!(!rinkaku::deps::should_index_file("a.php", "<?php helper();", false, true, &generated, false, &matcher));
    assert!(!rinkaku::deps::should_index_file("gen.php", "<?php function helper() {}", false, true, &generated, false, &matcher));
}
