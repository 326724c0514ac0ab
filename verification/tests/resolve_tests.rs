use entangle::resolve::{parent_prefixes, split_path, FolderCache};

#[test]
fn paths_split_into_components() {
    let empty: Vec<String> = vec![];
    assert_eq!(split_path(""), empty);
    assert_eq!(split_path("a.txt"), vec!["a.txt".to_string()]);
    assert_eq!(
        split_path("a/b/c.txt"),
        vec!["a".to_string(), "b".to_string(), "c.txt".to_string()]
    );
    assert_eq!(split_path("/a//b/"), vec!["a".to_string(), "b".to_string()]);
}

#[test]
fn parent_prefixes_come_nearest_the_root_first() {
    let comps = split_path("a/b/c.txt");
    assert_eq!(parent_prefixes(&comps), vec!["a".to_string(), "a/b".to_string()]);
    let flat = split_path("c.txt");
    let empty: Vec<String> = vec![];
    assert_eq!(parent_prefixes(&flat), empty);
    let none: Vec<String> = vec![];
    assert_eq!(parent_prefixes(&none), empty);
}

#[test]
fn the_cache_remembers_resolved_folders() {
    let mut cache = FolderCache::new();
    assert!(cache.lookup(&"a".to_string()).is_none());
    cache.record("a".to_string(), "id-a".to_string());
    cache.record("a/b".to_string(), "id-ab".to_string());
    assert_eq!(cache.lookup(&"a".to_string()), Some(&"id-a".to_string()));
    assert_eq!(cache.lookup(&"a/b".to_string()), Some(&"id-ab".to_string()));
    assert!(cache.lookup(&"b".to_string()).is_none());
}

#[test]
fn the_first_record_for_a_folder_keeps_precedence() {
    let mut cache = FolderCache::new();
    cache.record("a".to_string(), "first".to_string());
    cache.record("a".to_string(), "second".to_string());
    assert_eq!(cache.lookup(&"a".to_string()), Some(&"first".to_string()));
}
