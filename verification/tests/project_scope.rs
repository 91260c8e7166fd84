use rinkaku::project_scope::{changed_project_roots, is_within_project_roots};

fn paths(list: &[&str]) -> Vec<String> {
    list.iter().map(|s| s.to_string()).collect()
}

#[test]
fn should_scope_to_the_one_project_containing_every_changed_path() {
    let listed = paths(&[
        "apps/shop/composer.json",
        "apps/shop/app/Service.php",
        "apps/admin/composer.json",
        "apps/admin/app/Panel.php",
    ]);
    let changed = paths(&["apps/shop/app/Service.php"]);

    let actual = changed_project_roots(&changed, &listed);

    assert_eq!(Some(vec!["apps/shop".to_string()]), actual);
}

#[test]
fn should_union_roots_when_changes_span_two_projects() {
    let listed = paths(&[
        "apps/shop/composer.json",
        "apps/admin/composer.json",
        "apps/shop/a.php",
        "apps/admin/b.php",
    ]);
    let changed = paths(&["apps/shop/a.php", "apps/admin/b.php"]);

    let actual = changed_project_roots(&changed, &listed);

    assert_eq!(
        Some(vec!["apps/admin".to_string(), "apps/shop".to_string()]),
        actual
    );
}

#[test]
fn should_pick_the_nearest_manifest_when_projects_nest() {
    let listed = paths(&[
        "apps/shop/composer.json",
        "apps/shop/frontend/package.json",
        "apps/shop/frontend/src/App.vue",
    ]);
    let changed = paths(&["apps/shop/frontend/src/App.vue"]);

    let actual = changed_project_roots(&changed, &listed);

    assert_eq!(Some(vec!["apps/shop/frontend".to_string()]), actual);
}

#[test]
fn should_not_scope_when_nearest_manifest_is_the_repo_root() {
    let actual = changed_project_roots(
        &paths(&["app/Service.php"]),
        &paths(&["composer.json", "app/Service.php"]),
    );
    assert_eq!(None, actual);
}

#[test]
fn should_not_scope_when_no_manifest_exists_anywhere() {
    let actual = changed_project_roots(&paths(&["src/lib.rs"]), &paths(&["src/lib.rs"]));
    assert_eq!(None, actual);
}

#[test]
fn should_not_scope_when_a_changed_path_sits_outside_every_project() {
    let actual = changed_project_roots(
        &paths(&["tools/script.py"]),
        &paths(&["apps/shop/composer.json", "tools/script.py"]),
    );
    assert_eq!(None, actual);
}

#[test]
fn should_return_none_when_changed_paths_is_empty() {
    let listed = paths(&["apps/shop/composer.json"]);

    let actual = changed_project_roots(&[], &listed);

    assert_eq!(None, actual);
}

#[test]
fn should_list_a_shared_root_once_when_two_changes_fall_in_one_project() {
    let listed = paths(&["apps/shop/composer.json"]);
    let changed = paths(&["apps/shop/a.php", "apps/shop/b/c.php"]);

    let actual = changed_project_roots(&changed, &listed);

    assert_eq!(Some(vec!["apps/shop".to_string()]), actual);
}

#[test]
fn should_match_path_under_root() {
    assert_eq!(true, is_within_project_roots("apps/shop/app/Service.php", &["apps/shop".to_string()]));
}

#[test]
fn should_not_match_sibling_sharing_a_prefix() {
    assert_eq!(false, is_within_project_roots("apps/shopfront/x.php", &["apps/shop".to_string()]));
}

#[test]
fn should_not_match_the_root_manifest_dir_itself_as_file() {
    assert_eq!(false, is_within_project_roots("apps/shop", &["apps/shop".to_string()]));
}

#[test]
fn should_not_match_unrelated_path() {
    assert_eq!(false, is_within_project_roots("packages/lib/x.php", &["apps/shop".to_string()]));
}
