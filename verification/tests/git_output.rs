use rinkaku::git_output::{parse_blob_oids, parse_ls_files};

#[test]
fn should_read_one_path_per_line() {
    assert_eq!(vec!["a.rs".to_string(), "src/b.rs".to_string()], parse_ls_files("a.rs\nsrc/b.rs\n"));
    assert_eq!(vec!["a.rs".to_string(), "b.rs".to_string()], parse_ls_files("a.rs\r\nb.rs"));
    assert_eq!(Vec::<String>::new(), parse_ls_files(""));
    assert_eq!(vec!["".to_string(), "x".to_string()], parse_ls_files("\nx\n"));
}

#[test]
fn should_read_blob_ids_keyed_by_path() {
    let oids = parse_blob_oids("abc\tsrc/a.rs\0def\tdir/with\ttab.rs\0\0junk\0");

    assert_eq!(Some(&"abc".to_string()), oids.get("src/a.rs"));
    assert_eq!(Some(&"def".to_string()), oids.get("dir/with\ttab.rs"));
    assert_eq!(None, oids.get("junk"));
}

#[test]
fn should_keep_the_last_id_of_a_path_listed_twice() {
    let oids = parse_blob_oids("111\ta.rs\0222\ta.rs\0");

    assert_eq!(Some(&"222".to_string()), oids.get("a.rs"));
}
