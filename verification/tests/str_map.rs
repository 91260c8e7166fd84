use rinkaku::str_map::StrMap;

#[test]
fn should_give_back_what_was_inserted_and_replace_on_reinsert() {
    let mut map: StrMap<u32> = StrMap::new();
    map.insert("a".to_string(), 1);
    map.insert("b".to_string(), 2);
    map.insert("a".to_string(), 3);

    assert_eq!(Some(&3), map.get("a"));
    assert_eq!(Some(&2), map.get("b"));
    assert_eq!(None, map.get("c"));
    assert_eq!(2, map.into_pairs().len());
}

#[test]
fn should_take_a_value_out_once() {
    let mut map: StrMap<u32> = StrMap::new();
    map.insert("a".to_string(), 1);

    assert_eq!(Some(1), map.remove("a"));
    assert_eq!(None, map.remove("a"));
    assert_eq!(None, map.get("a"));
}

#[test]
fn should_keep_only_listed_keys() {
    let mut map: StrMap<u32> = StrMap::new();
    map.insert("a".to_string(), 1);
    map.insert("b".to_string(), 2);
    map.insert("c".to_string(), 3);

    map.retain_keys(&["c".to_string(), "a".to_string(), "z".to_string()]);

    assert_eq!(Some(&1), map.get("a"));
    assert_eq!(None, map.get("b"));
    assert_eq!(Some(&3), map.get("c"));
}

#[test]
fn should_keep_the_last_value_given_for_a_key() {
    let map = StrMap::from_pairs(vec![("k".to_string(), 1), ("j".to_string(), 2), ("k".to_string(), 3)]);

    assert_eq!(Some(&3), map.get("k"));
    assert_eq!(Some(&2), map.get("j"));
}
