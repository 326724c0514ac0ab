use entangle::scan::{build_manifest, is_excluded_name, ScanItem};

fn file_item(name: &str, path: &str, fp: &str) -> ScanItem {
    ScanItem {
        name: name.to_string(),
        path: path.to_string(),
        fingerprint: fp.to_string(),
        is_dir: false,
    }
}

fn dir_item(name: &str, path: &str) -> ScanItem {
    ScanItem {
        name: name.to_string(),
        path: path.to_string(),
        fingerprint: String::new(),
        is_dir: true,
    }
}

fn build(items: Vec<ScanItem>) -> entangle::manifest::Manifest {
    build_manifest(&items, &"proj.sync".to_string(), &"proj.rmsync".to_string())
}

#[test]
fn housekeeping_names_are_excluded() {
    let sync = "proj.sync".to_string();
    let rmsync = "proj.rmsync".to_string();
    assert!(is_excluded_name(&"proj.sync".to_string(), &sync, &rmsync));
    assert!(is_excluded_name(&"proj.rmsync".to_string(), &sync, &rmsync));
    assert!(is_excluded_name(&".DS_Store".to_string(), &sync, &rmsync));
    assert!(!is_excluded_name(&"a.txt".to_string(), &sync, &rmsync));
    assert!(!is_excluded_name(&"other.sync".to_string(), &sync, &rmsync));
}

#[test]
fn scan_records_files_and_folders_and_drops_housekeeping() {
    let m = build(vec![
        file_item("a.txt", "a.txt", "aa"),
        file_item("proj.sync", "proj.sync", "ee"),
        file_item(".DS_Store", ".DS_Store", "dd"),
        file_item("proj.rmsync", "proj.rmsync", "cc"),
        dir_item("sub", "sub"),
        file_item("b.txt", "sub/b.txt", "bb"),
    ]);
    let paths: Vec<&str> = m.files.iter().map(|e| e.path.as_str()).collect();
    assert_eq!(paths, vec!["a.txt", "sub/b.txt"]);
    assert_eq!(m.files[0].sha256, "aa");
    assert_eq!(m.files[1].name, "b.txt");
    let folders: Vec<&str> = m.folders.iter().map(|s| s.as_str()).collect();
    assert_eq!(folders, vec!["sub"]);
    assert!(m.msg.is_empty());
    assert!(m.author.is_empty());
}

#[test]
fn scan_is_order_independent() {
    let forward = build(vec![
        file_item("a.txt", "a.txt", "aa"),
        dir_item("sub", "sub"),
        file_item("b.txt", "sub/b.txt", "bb"),
        file_item("c.txt", "c.txt", "cc"),
    ]);
    let backward = build(vec![
        file_item("c.txt", "c.txt", "cc"),
        file_item("b.txt", "sub/b.txt", "bb"),
        dir_item("sub", "sub"),
        file_item("a.txt", "a.txt", "aa"),
    ]);
    assert_eq!(forward.files.len(), backward.files.len());
    for (x, y) in forward.files.iter().zip(backward.files.iter()) {
        assert_eq!(x.name, y.name);
        assert_eq!(x.path, y.path);
        assert_eq!(x.sha256, y.sha256);
    }
    assert_eq!(forward.folders, backward.folders);
}

#[test]
fn scanning_the_same_items_twice_gives_identical_manifests() {
    let items = || {
        vec![
            file_item("b.txt", "b.txt", "bb"),
            file_item("a.txt", "a.txt", "aa"),
            dir_item("d", "d"),
        ]
    };
    let once = build(items());
    let twice = build(items());
    assert_eq!(
        entangle::codec::render_manifest(&once),
        entangle::codec::render_manifest(&twice)
    );
}

#[test]
fn duplicate_paths_keep_the_first_kept_occurrence() {
    let m = build(vec![
        file_item("a.txt", "a.txt", "first"),
        file_item("a.txt", "a.txt", "second"),
        dir_item("d", "d"),
        dir_item("d", "d"),
    ]);
    assert_eq!(m.files.len(), 1);
    assert_eq!(m.files[0].sha256, "first");
    assert_eq!(m.folders.len(), 1);
}

#[test]
fn entries_come_out_sorted_by_path() {
    let m = build(vec![
        file_item("z", "z", "zz"),
        file_item("m", "m", "mm"),
        file_item("a", "a", "aa"),
        dir_item("q", "q"),
        dir_item("b", "b"),
    ]);
    let paths: Vec<&str> = m.files.iter().map(|e| e.path.as_str()).collect();
    assert_eq!(paths, vec!["a", "m", "z"]);
    let folders: Vec<&str> = m.folders.iter().map(|s| s.as_str()).collect();
    assert_eq!(folders, vec!["b", "q"]);
}
