use rinkaku::deps::IndexEntry;
use rinkaku::deps_cache::{
    collect_indexed_files, look_up_cached, record_read_file, should_exclude_as_generated, DepsCache,
    FORMAT_VERSION,
};
use rinkaku::str_map::StrMap;

fn entry(name: &str) -> IndexEntry {
    IndexEntry { name: name.to_string(), signature: format!("fn {name}()"), container: None, is_test: false }
}

#[test]
fn should_exclude_when_content_marker_is_set_and_generated_not_included() {
    let actual = should_exclude_as_generated("a.rs", true, &[], false);
    assert!(actual);
}

#[test]
fn should_exclude_when_path_is_attribute_generated_and_generated_not_included() {
    let generated_paths: Vec<String> = vec!["a.rs".to_string()];
    let actual = should_exclude_as_generated("a.rs", false, &generated_paths, false);
    assert!(actual);
}

#[test]
fn should_not_exclude_when_include_generated_is_true() {
    let generated_paths: Vec<String> = vec!["a.rs".to_string()];
    let actual = should_exclude_as_generated("a.rs", true, &generated_paths, true);
    assert!(!actual);
}

#[test]
fn should_not_exclude_when_neither_signal_is_set() {
    let actual = should_exclude_as_generated("a.rs", false, &[], false);
    assert_eq!(false, actual);
}

#[test]
fn should_return_none_when_cached_oid_does_not_match() {
    let mut cache = DepsCache::empty();
    cache.insert("src/lib.rs".to_string(), "abc123".to_string(), false, vec![entry("helper")]);

    let actual = cache.get("src/lib.rs", "different-oid");

    assert!(actual.is_none());
    assert_eq!(vec![entry("helper")], cache.get("src/lib.rs", "abc123").unwrap().entries);
}

#[test]
fn should_prune_paths_not_in_candidate_set() {
    let mut cache = DepsCache::empty();
    cache.insert("src/lib.rs".to_string(), "abc123".to_string(), false, vec![entry("helper")]);
    cache.insert("src/removed.rs".to_string(), "def456".to_string(), false, vec![entry("gone")]);

    cache.prune(&["src/lib.rs".to_string()]);

    assert!(cache.get("src/lib.rs", "abc123").is_some());
    assert!(cache.get("src/removed.rs", "def456").is_none());
}

#[test]
fn should_replace_an_entry_inserted_again() {
    let mut cache = DepsCache::empty();
    cache.insert("src/lib.rs".to_string(), "abc123".to_string(), false, vec![entry("old")]);
    cache.insert("src/lib.rs".to_string(), "abc124".to_string(), true, vec![entry("new")]);

    assert!(cache.get("src/lib.rs", "abc123").is_none());
    let cached = cache.get("src/lib.rs", "abc124").unwrap();
    assert!(cached.is_generated);
    assert_eq!(vec![entry("new")], cached.entries);
}

#[test]
fn should_treat_a_cache_of_another_format_or_build_as_empty() {
    let mut stale = DepsCache::empty();
    stale.format_version = FORMAT_VERSION + 1;
    stale.insert("src/lib.rs".to_string(), "abc123".to_string(), false, vec![entry("helper")]);
    let accepted = DepsCache::accept_loaded(Some(stale));
    assert!(accepted.get("src/lib.rs", "abc123").is_none());
    assert_eq!(FORMAT_VERSION, accepted.format_version);

    let mut other_build = DepsCache::empty();
    other_build.rinkaku_version = "0.0.0-does-not-exist".to_string();
    other_build.insert("src/lib.rs".to_string(), "abc123".to_string(), false, vec![entry("helper")]);
    assert!(DepsCache::accept_loaded(Some(other_build)).get("src/lib.rs", "abc123").is_none());

    let mut current = DepsCache::empty();
    current.insert("src/lib.rs".to_string(), "abc123".to_string(), false, vec![entry("helper")]);
    assert!(DepsCache::accept_loaded(Some(current)).get("src/lib.rs", "abc123").is_some());
    assert!(DepsCache::accept_loaded(None).get("src/lib.rs", "abc123").is_none());
}

#[test]
fn should_split_candidates_into_hits_and_misses() {
    let mut cache = DepsCache::empty();
    cache.insert("a.rs".to_string(), "1".to_string(), false, vec![entry("a")]);
    cache.insert("b.rs".to_string(), "2".to_string(), false, vec![entry("b")]);
    cache.insert("gen.rs".to_string(), "3".to_string(), true, vec![entry("g")]);
    let mut oids: StrMap<String> = StrMap::new();
    oids.insert("a.rs".to_string(), "1".to_string());
    oids.insert("b.rs".to_string(), "changed".to_string());
    oids.insert("gen.rs".to_string(), "3".to_string());
    let paths = vec!["a.rs".to_string(), "b.rs".to_string(), "gen.rs".to_string(), "new.rs".to_string()];

    let (hits, misses) = look_up_cached(&paths, &oids, &cache, &[], false);

    assert_eq!(vec!["b.rs".to_string(), "new.rs".to_string()], misses);
    assert_eq!(Some(&vec![entry("a")]), hits.get("a.rs"));
    assert_eq!(Some(&Vec::new()), hits.get("gen.rs"));
    assert_eq!(None, hits.get("b.rs"));
}

#[test]
fn should_record_read_files_and_hand_out_entries_in_path_order() {
    let mut cache = DepsCache::empty();
    let mut oids: StrMap<String> = StrMap::new();
    oids.insert("b.rs".to_string(), "9".to_string());
    let mut file_entries: StrMap<Vec<IndexEntry>> = StrMap::new();
    file_entries.insert("a.rs".to_string(), vec![entry("a")]);

    record_read_file(&mut cache, &oids, &mut file_entries, "b.rs".to_string(), false, vec![entry("b")]);
    record_read_file(&mut cache, &oids, &mut file_entries, "c.rs".to_string(), false, vec![entry("c")]);

    assert_eq!(vec![entry("b")], cache.get("b.rs", "9").unwrap().entries);
    assert!(cache.get("c.rs", "9").is_none());
    let paths = vec!["c.rs".to_string(), "a.rs".to_string(), "b.rs".to_string(), "a.rs".to_string(), "d.rs".to_string()];
    let actual = collect_indexed_files(paths, file_entries);
    assert_eq!(
        vec![
            ("c.rs".to_string(), vec![entry("c")]),
            ("a.rs".to_string(), vec![entry("a")]),
            ("b.rs".to_string(), vec![entry("b")]),
            ("a.rs".to_string(), vec![]),
            ("d.rs".to_string(), vec![]),
        ],
        actual
    );
}

#[test]
fn should_give_the_fresh_entries_again_from_the_cache_on_the_next_run() {
    let mut cache = DepsCache::empty();
    let mut oids: StrMap<String> = StrMap::new();
    oids.insert("a.rs".to_string(), "7".to_string());
    let mut fresh: StrMap<Vec<IndexEntry>> = StrMap::new();
    record_read_file(&mut cache, &oids, &mut fresh, "a.rs".to_string(), false, vec![entry("a")]);

    let paths = vec!["a.rs".to_string()];
    let (hits, misses) = look_up_cached(&paths, &oids, &cache, &[], false);

    assert!(misses.is_empty());
    assert_eq!(fresh.get("a.rs"), hits.get("a.rs"));
}
