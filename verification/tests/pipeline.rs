use rinkaku::deps::TagsResolver;
use rinkaku::pipeline::resolve_with;
use rinkaku::render::FileReport;
use rinkaku::cli::{Cli, DepsScope};
use rinkaku::pipeline::{
    dependency_scan_roots, diff_is_empty, keeps_for_index, prefetched_content, resolves_dependencies, uses_deps_cache,
};
use rinkaku::str_map::StrMap;

fn strings(items: &[&str]) -> Vec<String> {
    items.iter().map(|s| s.to_string()).collect()
}

#[test]
fn should_treat_a_white_space_only_diff_as_empty() {
    assert!(diff_is_empty(""));
    assert!(diff_is_empty("  \n\t\n"));
    assert!(!diff_is_empty("diff --git a/x b/x\n"));
}

#[test]
fn should_skip_resolution_and_the_cache_by_flags() {
    let cli = Cli::parse_from(&["rinkaku"]);
    assert!(resolves_dependencies(&cli));
    assert!(uses_deps_cache(&cli, Some("abc123")));
    assert!(!uses_deps_cache(&cli, None));

    let no_deps = Cli::parse_from(&["rinkaku", "--deps", "0", "--no-deps-cache"]);
    assert!(!resolves_dependencies(&no_deps));
    assert!(!uses_deps_cache(&no_deps, Some("abc123")));
}

#[test]
fn should_scope_the_dependency_scan_to_the_changed_projects() {
    let listed = strings(&["apps/a/composer.json", "apps/a/src/x.php", "apps/b/package.json", "apps/b/y.js"]);
    let changed = strings(&["apps/a/src/x.php"]);

    let scoped = Cli::parse_from(&["rinkaku"]);
    assert_eq!(Some(strings(&["apps/a"])), dependency_scan_roots(&scoped, &changed, &listed));

    let whole_repo = Cli::parse_from(&["rinkaku", "--deps-scope", "repo"]);
    assert_eq!(DepsScope::Repo, whole_repo.deps_scope);
    assert_eq!(None, dependency_scan_roots(&whole_repo, &changed, &listed));
}

#[test]
fn should_keep_only_indexable_paths_inside_the_roots() {
    let roots = strings(&["apps/a"]);

    assert!(keeps_for_index("apps/a/src/x.php", Some(&roots), Some((true, false)), false));
    assert!(!keeps_for_index("apps/b/y.js", Some(&roots), Some((true, false)), false));
    assert!(keeps_for_index("apps/b/y.js", None, Some((true, false)), false));
    assert!(!keeps_for_index("apps/a/logo.png", Some(&roots), None, false));
    assert!(!keeps_for_index("apps/a/view.blade.php", Some(&roots), Some((false, false)), false));
    assert!(!keeps_for_index("apps/a/tests/XTest.php", Some(&roots), Some((true, true)), true));
    assert!(keeps_for_index("apps/a/tests/XTest.php", Some(&roots), Some((true, true)), false));
}

#[test]
fn should_serve_prefetched_content_when_present() {
    let mut prefetched: StrMap<String> = StrMap::new();
    prefetched.insert("a.rs".to_string(), "fn a() {}".to_string());

    assert_eq!(Some("fn a() {}".to_string()), prefetched_content(&prefetched, "a.rs"));
    assert_eq!(None, prefetched_content(&prefetched, "b.rs"));
}

#[test]
fn should_leave_files_untouched_without_a_resolver() {
    let files = vec![FileReport { path: "a.rs".to_string(), symbols: vec![] }];

    assert_eq!(files.clone(), resolve_with::<TagsResolver>(files.clone(), None));
    let resolver = TagsResolver::from_entries(vec![], true);
    assert_eq!(files.clone(), resolve_with(files, Some(&resolver)));
}
