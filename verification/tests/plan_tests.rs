use entangle::classify::{classify, Status, StatusRecord};
use entangle::manifest::{FileEntry, Manifest};
use entangle::plan::{action_for, apply_paths, plan_commit, plan_pull, Action};

fn entry(path: &str, sha: &str) -> FileEntry {
    FileEntry::new(path.to_string(), path.to_string(), sha.to_string())
}

fn manifest_with(files: Vec<FileEntry>, folders: Vec<&str>) -> Manifest {
    Manifest {
        files,
        folders: folders.into_iter().map(|s| s.to_string()).collect(),
        msg: String::new(),
        author: String::new(),
    }
}

fn record(path: &str, selected: bool, is_dir: bool, status: Status) -> StatusRecord {
    StatusRecord {
        name: path.to_string(),
        path: path.to_string(),
        selected,
        is_dir,
        status,
    }
}

#[test]
fn statuses_imply_the_documented_actions() {
    assert_eq!(action_for(Status::Synced), Action::Keep);
    assert_eq!(action_for(Status::BaselineStale), Action::Keep);
    assert_eq!(action_for(Status::LocalEdited), Action::Upload);
    assert_eq!(action_for(Status::LocalOnly), Action::Upload);
    assert_eq!(action_for(Status::RemoteChanged), Action::Download);
    assert_eq!(action_for(Status::RemoteOnly), Action::Download);
    assert_eq!(action_for(Status::DeletedLocal), Action::DeleteRemote);
    assert_eq!(action_for(Status::DeletedRemote), Action::DeleteLocal);
    assert_eq!(action_for(Status::Conflict), Action::Manual);
    assert_eq!(action_for(Status::Anomaly), Action::Manual);
}

#[test]
fn commit_plans_uploads_folder_creates_and_deletes() {
    let records = vec![
        record("edited", true, false, Status::LocalEdited),
        record("new", true, false, Status::LocalOnly),
        record("unselected", false, false, Status::LocalEdited),
        record("synced", true, false, Status::Synced),
        record("stale", true, false, Status::BaselineStale),
        record("conflict", true, false, Status::Conflict),
        record("gone", true, false, Status::DeletedLocal),
        record("newdir", true, true, Status::LocalOnly),
        record("pullme", true, false, Status::RemoteOnly),
    ];
    let plan = plan_commit(&records);
    let uploads: Vec<&str> = plan.uploads.iter().map(|r| r.path.as_str()).collect();
    assert_eq!(uploads, vec!["edited", "new"]);
    let folders: Vec<&str> = plan.folder_creates.iter().map(|r| r.path.as_str()).collect();
    assert_eq!(folders, vec!["newdir"]);
    let deletes: Vec<&str> = plan.remote_deletes.iter().map(|r| r.path.as_str()).collect();
    assert_eq!(deletes, vec!["gone"]);
}

#[test]
fn pull_plans_downloads_folder_creates_and_deletes() {
    let records = vec![
        record("changed", true, false, Status::RemoteChanged),
        record("fresh", true, false, Status::RemoteOnly),
        record("unselected", false, false, Status::RemoteOnly),
        record("synced", true, false, Status::Synced),
        record("stale", true, false, Status::BaselineStale),
        record("removed", true, false, Status::DeletedRemote),
        record("freshdir", true, true, Status::RemoteOnly),
        record("pushme", true, false, Status::LocalOnly),
    ];
    let plan = plan_pull(&records);
    let downloads: Vec<&str> = plan.downloads.iter().map(|r| r.path.as_str()).collect();
    assert_eq!(downloads, vec!["changed", "fresh"]);
    let folders: Vec<&str> = plan.folder_creates.iter().map(|r| r.path.as_str()).collect();
    assert_eq!(folders, vec!["freshdir"]);
    let deletes: Vec<&str> = plan.local_deletes.iter().map(|r| r.path.as_str()).collect();
    assert_eq!(deletes, vec!["removed"]);
}

#[test]
fn conflicts_are_never_planned() {
    let records = vec![record("conflict", true, false, Status::Conflict)];
    let commit = plan_commit(&records);
    assert!(commit.uploads.is_empty());
    assert!(commit.folder_creates.is_empty());
    assert!(commit.remote_deletes.is_empty());
    let pull = plan_pull(&records);
    assert!(pull.downloads.is_empty());
    assert!(pull.folder_creates.is_empty());
    assert!(pull.local_deletes.is_empty());
}

#[test]
fn apply_paths_moves_only_the_listed_paths() {
    let baseline = manifest_with(vec![entry("a", "olda"), entry("b", "oldb")], vec!["keepdir"]);
    let local = manifest_with(vec![entry("a", "newa"), entry("c", "newc")], vec!["newdir"]);
    let moved = vec!["a".to_string(), "c".to_string(), "newdir".to_string()];
    let updated = apply_paths(
        &baseline,
        &local,
        &moved,
        "after commit".to_string(),
        "me".to_string(),
    );
    let lookup = |m: &Manifest, p: &str| -> Option<String> {
        m.files.iter().find(|e| e.path == p).map(|e| e.sha256.clone())
    };
    // a moved: takes local's fingerprint; b did not move: keeps the old
    // one; c moved: appears with local's fingerprint.
    assert_eq!(lookup(&updated, "a"), Some("newa".to_string()));
    assert_eq!(lookup(&updated, "b"), Some("oldb".to_string()));
    assert_eq!(lookup(&updated, "c"), Some("newc".to_string()));
    assert!(updated.folders.contains(&"keepdir".to_string()));
    assert!(updated.folders.contains(&"newdir".to_string()));
    assert_eq!(updated.msg, "after commit");
    assert_eq!(updated.author, "me");
}

#[test]
fn a_failed_path_keeps_the_old_record_and_stays_unsynchronized() {
    let digest_old = entangle::hashing::fingerprint(b"old");
    let digest_new = entangle::hashing::fingerprint(b"new");
    let local = manifest_with(vec![entry("a", &digest_new), entry("b", &digest_new)], vec![]);
    let baseline = manifest_with(vec![entry("a", &digest_old), entry("b", &digest_old)], vec![]);
    let remote = manifest_with(vec![entry("a", &digest_old), entry("b", &digest_old)], vec![]);
    // Both classified as locally edited; only `a`'s upload succeeded.
    let succeeded = vec!["a".to_string()];
    let baseline2 = apply_paths(&baseline, &local, &succeeded, String::new(), String::new());
    let remote2 = apply_paths(&remote, &local, &succeeded, String::new(), String::new());
    let records = classify(&local, &baseline2, &remote2);
    let a = records.iter().find(|r| r.path == "a").unwrap();
    let b = records.iter().find(|r| r.path == "b").unwrap();
    assert_eq!(a.status, Status::Synced);
    assert_eq!(b.status, Status::LocalEdited);
}

#[test]
fn commit_of_all_selected_items_restores_code_0() {
    let d1 = entangle::hashing::fingerprint(b"one");
    let d2 = entangle::hashing::fingerprint(b"two");
    let local = manifest_with(vec![entry("edited", &d2), entry("new", &d1)], vec![]);
    let baseline = manifest_with(vec![entry("edited", &d1)], vec![]);
    let remote = manifest_with(vec![entry("edited", &d1)], vec![]);
    let records = classify(&local, &baseline, &remote);
    let plan = plan_commit(&records);
    let moved: Vec<String> = plan
        .uploads
        .iter()
        .chain(plan.remote_deletes.iter())
        .map(|r| r.path.clone())
        .collect();
    let remote2 = apply_paths(&remote, &local, &moved, String::new(), String::new());
    let baseline2 = apply_paths(&baseline, &local, &moved, "done".to_string(), String::new());
    let after = classify(&local, &baseline2, &remote2);
    for r in &after {
        assert_eq!(r.status, Status::Synced, "path {} not synchronized", r.path);
    }
}

#[test]
fn pull_of_all_selected_items_restores_code_0() {
    let d1 = entangle::hashing::fingerprint(b"one");
    let d2 = entangle::hashing::fingerprint(b"two");
    let local = manifest_with(vec![entry("changed", &d1), entry("gone", &d1)], vec![]);
    let baseline = manifest_with(vec![entry("changed", &d1), entry("gone", &d1)], vec![]);
    let remote = manifest_with(vec![entry("changed", &d2), entry("fresh", &d1)], vec![]);
    let records = classify(&local, &baseline, &remote);
    let plan = plan_pull(&records);
    let moved: Vec<String> = plan
        .downloads
        .iter()
        .chain(plan.local_deletes.iter())
        .map(|r| r.path.clone())
        .collect();
    // The pull writes remote bytes locally and re-scans: the local view
    // takes the remote entries for the moved paths, and so does the fresh
    // baseline.
    let local2 = apply_paths(&local, &remote, &moved, String::new(), String::new());
    let baseline2 = apply_paths(&baseline, &remote, &moved, String::new(), String::new());
    let after = classify(&local2, &baseline2, &remote);
    for r in &after {
        assert_eq!(r.status, Status::Synced, "path {} not synchronized", r.path);
    }
}

#[test]
fn pulled_bytes_fingerprint_like_the_remote_record() {
    // The remote records the fingerprint of its bytes; after a pull the
    // local file holds those very bytes, so a fresh local scan computes
    // the same fingerprint and the path classifies as synchronized.
    let remote_bytes = b"the remote contents";
    let remote_fp = entangle::hashing::fingerprint(remote_bytes);
    let pulled_bytes = remote_bytes.to_vec();
    let local_fp = entangle::hashing::fingerprint(&pulled_bytes);
    assert_eq!(local_fp, remote_fp);
    let local = manifest_with(vec![entry("f", &local_fp)], vec![]);
    let baseline = manifest_with(vec![entry("f", &remote_fp)], vec![]);
    let remote = manifest_with(vec![entry("f", &remote_fp)], vec![]);
    let records = classify(&local, &baseline, &remote);
    assert_eq!(records[0].status, Status::Synced);
}
