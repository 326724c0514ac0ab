use entangle::classify::{classify, classify_presence_triple, classify_triple, Status, StatusRecord};
use entangle::manifest::{FileEntry, Manifest};

fn entry(name: &str, path: &str, sha: &str) -> FileEntry {
    FileEntry::new(name.to_string(), path.to_string(), sha.to_string())
}

fn manifest_with(files: Vec<FileEntry>, folders: Vec<&str>) -> Manifest {
    Manifest {
        files,
        folders: folders.into_iter().map(|s| s.to_string()).collect(),
        msg: String::new(),
        author: String::new(),
    }
}

fn code_of(s: Status) -> Option<u8> {
    s.code()
}

#[test]
fn triple_all_equal_is_code_0() {
    let a = "a".to_string();
    let s = classify_triple(Some(&a), Some(&a), Some(&a));
    assert_eq!(s, Status::Synced);
    assert_eq!(code_of(s), Some(0));
}

#[test]
fn triple_local_differs_is_code_1() {
    let a = "a".to_string();
    let b = "b".to_string();
    let s = classify_triple(Some(&b), Some(&a), Some(&a));
    assert_eq!(s, Status::LocalEdited);
    assert_eq!(code_of(s), Some(1));
}

#[test]
fn triple_remote_differs_is_code_2() {
    let a = "a".to_string();
    let b = "b".to_string();
    let s = classify_triple(Some(&a), Some(&a), Some(&b));
    assert_eq!(s, Status::RemoteChanged);
    assert_eq!(code_of(s), Some(2));
}

#[test]
fn triple_baseline_differs_is_code_3() {
    let a = "a".to_string();
    let b = "b".to_string();
    let s = classify_triple(Some(&a), Some(&b), Some(&a));
    assert_eq!(s, Status::BaselineStale);
    assert_eq!(code_of(s), Some(3));
}

#[test]
fn triple_all_differ_is_code_4() {
    let a = "a".to_string();
    let b = "b".to_string();
    let c = "c".to_string();
    let s = classify_triple(Some(&a), Some(&b), Some(&c));
    assert_eq!(s, Status::Conflict);
    assert_eq!(code_of(s), Some(4));
}

#[test]
fn triple_remote_only_is_code_5() {
    let a = "a".to_string();
    let s = classify_triple(None, None, Some(&a));
    assert_eq!(s, Status::RemoteOnly);
    assert_eq!(code_of(s), Some(5));
}

#[test]
fn triple_deleted_locally_is_code_6() {
    let a = "a".to_string();
    let s = classify_triple(None, Some(&a), Some(&a));
    assert_eq!(s, Status::DeletedLocal);
    assert_eq!(code_of(s), Some(6));
}

#[test]
fn triple_deleted_on_remote_is_code_7() {
    let a = "a".to_string();
    let s = classify_triple(Some(&a), Some(&a), None);
    assert_eq!(s, Status::DeletedRemote);
    assert_eq!(code_of(s), Some(7));
}

#[test]
fn triple_local_only_is_code_8() {
    let a = "a".to_string();
    let s = classify_triple(Some(&a), None, None);
    assert_eq!(s, Status::LocalOnly);
    assert_eq!(code_of(s), Some(8));
}

#[test]
fn off_table_triples_are_anomalies() {
    let a = "a".to_string();
    assert_eq!(classify_triple(Some(&a), None, Some(&a)), Status::Anomaly);
    assert_eq!(classify_triple(None, Some(&a), None), Status::Anomaly);
    assert_eq!(classify_triple(None, None, None), Status::Anomaly);
    assert_eq!(classify_triple(Some(&a), None, Some(&a)).code(), None);
}

#[test]
fn presence_triples_follow_the_table() {
    assert_eq!(classify_presence_triple(true, true, true), Status::Synced);
    assert_eq!(classify_presence_triple(false, false, true), Status::RemoteOnly);
    assert_eq!(classify_presence_triple(false, true, true), Status::DeletedLocal);
    assert_eq!(classify_presence_triple(true, true, false), Status::DeletedRemote);
    assert_eq!(classify_presence_triple(true, false, false), Status::LocalOnly);
    assert_eq!(classify_presence_triple(true, false, true), Status::Anomaly);
    assert_eq!(classify_presence_triple(false, true, false), Status::DeletedLocal);
}

fn find<'a>(records: &'a [StatusRecord], path: &str) -> &'a StatusRecord {
    records.iter().find(|r| r.path == path).expect("path classified")
}

#[test]
fn scenario_local_edit_then_back_in_sync() {
    // Local has a.txt with the digest of "hi" everywhere: fully synchronized.
    let digest_hi = entangle::hashing::fingerprint(b"hi");
    assert_eq!(
        digest_hi,
        "8f434346648f6b96df89dda901c5176b10a6d83961dd3c1ac88b59b2dc327aa4"
    );
    let local = manifest_with(vec![entry("a.txt", "a.txt", &digest_hi)], vec![]);
    let baseline = manifest_with(vec![entry("a.txt", "a.txt", &digest_hi)], vec![]);
    let remote = manifest_with(vec![entry("a.txt", "a.txt", &digest_hi)], vec![]);
    let records = classify(&local, &baseline, &remote);
    assert_eq!(records.len(), 1);
    let r = find(&records, "a.txt");
    assert_eq!(r.status, Status::Synced);
    assert_eq!(r.status.code(), Some(0));
    assert!(r.selected);
    assert!(!r.is_dir);

    // The local file changes to "hi!": locally edited.
    let digest_hi2 = entangle::hashing::fingerprint(b"hi!");
    assert_ne!(digest_hi, digest_hi2);
    let local2 = manifest_with(vec![entry("a.txt", "a.txt", &digest_hi2)], vec![]);
    let records2 = classify(&local2, &baseline, &remote);
    let r2 = find(&records2, "a.txt");
    assert_eq!(r2.status, Status::LocalEdited);
    assert_eq!(r2.status.code(), Some(1));

    // After a commit the baseline and the remote carry the new digest:
    // synchronized again.
    let baseline3 = manifest_with(vec![entry("a.txt", "a.txt", &digest_hi2)], vec![]);
    let remote3 = manifest_with(vec![entry("a.txt", "a.txt", &digest_hi2)], vec![]);
    let records3 = classify(&local2, &baseline3, &remote3);
    let r3 = find(&records3, "a.txt");
    assert_eq!(r3.status, Status::Synced);
    assert_eq!(r3.status.code(), Some(0));
}

#[test]
fn scenario_remote_only_then_pulled() {
    // A path exists only on the remote: code 5.
    let digest = entangle::hashing::fingerprint(b"remote bytes");
    let local = manifest_with(vec![], vec![]);
    let baseline = manifest_with(vec![], vec![]);
    let remote = manifest_with(vec![entry("new.txt", "new.txt", &digest)], vec![]);
    let records = classify(&local, &baseline, &remote);
    assert_eq!(records.len(), 1);
    let r = find(&records, "new.txt");
    assert_eq!(r.status, Status::RemoteOnly);
    assert_eq!(r.status.code(), Some(5));

    // After the pull the local copy holds the remote bytes and the
    // baseline records them: the fingerprints agree and the status is 0.
    let local2 = manifest_with(vec![entry("new.txt", "new.txt", &digest)], vec![]);
    let baseline2 = manifest_with(vec![entry("new.txt", "new.txt", &digest)], vec![]);
    let records2 = classify(&local2, &baseline2, &remote);
    let r2 = find(&records2, "new.txt");
    assert_eq!(r2.status, Status::Synced);
}

#[test]
fn scenario_folder_deleted_locally() {
    // The baseline knows the folder `old/`; a fresh local scan and the
    // remote do not: a directory record, deleted locally, unselected —
    // distinct from the file-level reading of the same triple, which is
    // an anomaly.
    let local = manifest_with(vec![], vec![]);
    let baseline = manifest_with(vec![], vec!["old"]);
    let remote = manifest_with(vec![], vec![]);
    let records = classify(&local, &baseline, &remote);
    assert_eq!(records.len(), 1);
    let r = find(&records, "old");
    assert!(r.is_dir);
    assert_eq!(r.status, Status::DeletedLocal);
    assert_eq!(r.status.code(), Some(6));
    assert!(!r.selected);
    let fp = "aa".to_string();
    assert_eq!(classify_triple(None, Some(&fp), None), Status::Anomaly);
}

#[test]
fn folder_known_to_one_view_only_is_a_directory_record() {
    // Known only to the baseline: still a directory record, never
    // dropped.
    let local = manifest_with(vec![], vec![]);
    let baseline = manifest_with(vec![], vec!["ghost"]);
    let remote = manifest_with(vec![], vec![]);
    // The record above exists; a folder deleted locally but still remote
    // classifies as deleted-local instead.
    let records = classify(&local, &baseline, &remote);
    assert_eq!(records.len(), 1);
    assert!(records[0].is_dir);

    let baseline2 = manifest_with(vec![], vec!["old"]);
    let remote2 = manifest_with(vec![], vec!["old"]);
    let records2 = classify(&local, &baseline2, &remote2);
    let r = find(&records2, "old");
    assert!(r.is_dir);
    assert_eq!(r.status, Status::DeletedLocal);
    assert_eq!(r.status.code(), Some(6));
    assert!(!r.selected);
}

#[test]
fn path_both_file_and_folder_is_an_anomaly() {
    let digest = entangle::hashing::fingerprint(b"x");
    let local = manifest_with(vec![entry("x", "x", &digest)], vec![]);
    let baseline = manifest_with(vec![], vec!["x"]);
    let remote = manifest_with(vec![], vec![]);
    let records = classify(&local, &baseline, &remote);
    assert_eq!(records.len(), 1);
    assert_eq!(records[0].status, Status::Anomaly);
    assert!(!records[0].selected);
}

#[test]
fn records_come_sorted_by_path_with_one_per_path() {
    let d = entangle::hashing::fingerprint(b"d");
    let local = manifest_with(
        vec![entry("b", "b", &d), entry("a", "a", &d)],
        vec!["z", "m"],
    );
    let baseline = manifest_with(vec![entry("a", "a", &d)], vec![]);
    let remote = manifest_with(vec![entry("c", "c", &d)], vec!["m"]);
    let records = classify(&local, &baseline, &remote);
    let paths: Vec<&str> = records.iter().map(|r| r.path.as_str()).collect();
    assert_eq!(paths, vec!["a", "b", "c", "m", "z"]);
}

#[test]
fn classification_is_order_independent() {
    let d1 = entangle::hashing::fingerprint(b"1");
    let d2 = entangle::hashing::fingerprint(b"2");
    let local_a = manifest_with(vec![entry("a", "a", &d1), entry("b", "b", &d2)], vec![]);
    let local_b = manifest_with(vec![entry("b", "b", &d2), entry("a", "a", &d1)], vec![]);
    let baseline = manifest_with(vec![entry("a", "a", &d1)], vec![]);
    let remote = manifest_with(vec![entry("a", "a", &d1)], vec![]);
    let r1 = classify(&local_a, &baseline, &remote);
    let r2 = classify(&local_b, &baseline, &remote);
    assert_eq!(r1.len(), r2.len());
    for (x, y) in r1.iter().zip(r2.iter()) {
        assert_eq!(x.path, y.path);
        assert_eq!(x.status, y.status);
        assert_eq!(x.selected, y.selected);
        assert_eq!(x.is_dir, y.is_dir);
    }
}
