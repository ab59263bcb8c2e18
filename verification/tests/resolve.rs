use peripherio::resolve::{paths, resolve, search_dirs};

#[test]
fn search_dirs_split_on_semicolons() {
    assert_eq!(search_dirs(Some("/a;/b/c;;d")), vec!["/a", "/b/c", "", "d"]);
    assert_eq!(search_dirs(Some("")), vec![""]);
    assert_eq!(search_dirs(Some("/only")), vec!["/only"]);
    assert_eq!(search_dirs(Some("/a;")), vec!["/a", ""]);
    assert!(search_dirs(None).is_empty());
}

#[test]
fn split_and_join_give_back_the_path() {
    for v in ["/a;/b", ";;", "x", "", "a;b;c;"] {
        assert_eq!(search_dirs(Some(v)).join(";"), v);
    }
}

#[test]
fn paths_keep_entries_with_the_file() {
    let entries = vec!["/p/a".to_string(), "/p/b".to_string(), "/p/c".to_string()];
    assert_eq!(paths(&entries, &vec![false, true, true]), vec!["/p/b".to_string(), "/p/c".to_string()]);
    assert!(paths(&entries, &vec![false, false, false]).is_empty());
}

#[test]
fn resolve_takes_the_first_match() {
    let found = vec!["/p/b".to_string(), "/p/c".to_string()];
    assert_eq!(resolve("gyro", &found).unwrap(), "/p/b");
    let e = resolve("gyro", &Vec::new()).unwrap_err();
    assert_eq!(e.name, "gyro");
    assert_eq!(e.message(), "Cannot resolve name gyro");
}
