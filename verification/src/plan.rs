//! Transfer planning and manifest bookkeeping.
//!
//! A classification tells, per path, how the three views relate; this
//! module turns the records a caller selected into the actions a commit
//! (push local to remote) or a pull (bring remote to local) has to take,
//! and computes the manifests that record the outcome.  The transfers
//! themselves are input/output and happen outside this crate; after a
//! batch, only the paths that actually succeeded may move the baseline,
//! so a failed transfer leaves its path classified as unsynchronized and
//! the next run retries exactly the paths that failed.

use vstd::prelude::*;
use crate::classify::{
    is_folder_path, record_is_dir, record_status, record_views, status_code, RecordV, Status,
    StatusRecord,
};
use crate::manifest::{
    entry_views, lemma_lookup_push, lookup_entry, lookup_fp, EntryV, FileEntry, Manifest,
    ManifestV,
};
use crate::order::{
    contains_str, lemma_contains_str_push, lemma_str_views_contains, seq_contains_str,
};

verus! {

/// What the status of a path asks a synchronization to do.
#[derive(Clone, Copy, PartialEq, Eq, Structural, Debug)]
pub enum Action {
    /// Nothing to transfer (fully synchronized, or only the baseline is
    /// stale).
    Keep,
    /// Push the local contents to the remote.
    Upload,
    /// Bring the remote contents to the working directory.
    Download,
    /// Delete the path on the remote.
    DeleteRemote,
    /// Delete the path in the working directory.
    DeleteLocal,
    /// Never acted on automatically: a conflict or an anomaly, for a
    /// human to resolve.
    Manual,
}

/// The action the status table implies for each status.
pub open spec fn action_of(s: Status) -> Action {
    match s {
        Status::Synced => Action::Keep,
        Status::BaselineStale => Action::Keep,
        Status::LocalEdited => Action::Upload,
        Status::LocalOnly => Action::Upload,
        Status::RemoteChanged => Action::Download,
        Status::RemoteOnly => Action::Download,
        Status::DeletedLocal => Action::DeleteRemote,
        Status::DeletedRemote => Action::DeleteLocal,
        Status::Conflict => Action::Manual,
        Status::Anomaly => Action::Manual,
    }
}

/// The action implied by a status.
pub fn action_for(s: Status) -> (a: Action)
    ensures
        a == action_of(s),
{
    match s {
        Status::Synced => Action::Keep,
        Status::BaselineStale => Action::Keep,
        Status::LocalEdited => Action::Upload,
        Status::LocalOnly => Action::Upload,
        Status::RemoteChanged => Action::Download,
        Status::RemoteOnly => Action::Download,
        Status::DeletedLocal => Action::DeleteRemote,
        Status::DeletedRemote => Action::DeleteLocal,
        Status::Conflict => Action::Manual,
        Status::Anomaly => Action::Manual,
    }
}

/// A selected file record a commit uploads.
pub open spec fn commit_uploads(r: RecordV) -> bool {
    r.selected && action_of(r.status) == Action::Upload && !r.is_dir
}

/// A selected directory record a commit creates on the remote.
pub open spec fn commit_creates_folder(r: RecordV) -> bool {
    r.selected && action_of(r.status) == Action::Upload && r.is_dir
}

/// A selected record a commit deletes on the remote.
pub open spec fn commit_deletes(r: RecordV) -> bool {
    r.selected && action_of(r.status) == Action::DeleteRemote
}

/// A selected file record a pull downloads.
pub open spec fn pull_downloads(r: RecordV) -> bool {
    r.selected && action_of(r.status) == Action::Download && !r.is_dir
}

/// A selected directory record a pull creates locally.
pub open spec fn pull_creates_folder(r: RecordV) -> bool {
    r.selected && action_of(r.status) == Action::Download && r.is_dir
}

/// A selected record a pull deletes locally.
pub open spec fn pull_deletes(r: RecordV) -> bool {
    r.selected && action_of(r.status) == Action::DeleteLocal
}

/// What a commit has to do: uploads, remote folder creations, and remote
/// deletions, in classification order.
pub struct CommitPlan {
    pub uploads: Vec<StatusRecord>,
    pub folder_creates: Vec<StatusRecord>,
    pub remote_deletes: Vec<StatusRecord>,
}

/// What a pull has to do: downloads, local folder creations, and local
/// deletions, in classification order.
pub struct PullPlan {
    pub downloads: Vec<StatusRecord>,
    pub folder_creates: Vec<StatusRecord>,
    pub local_deletes: Vec<StatusRecord>,
}

/// The records of a commit over the selected records: status codes 1 and
/// 8 push local to remote, code 6 deletes on the remote; codes 0 and 3
/// need nothing; codes 4 and the anomalies are never planned.
pub fn plan_commit(records: &Vec<StatusRecord>) -> (plan: CommitPlan)
    ensures
        record_views(plan.uploads@) == record_views(records@).filter(
            |r: RecordV| commit_uploads(r),
        ),
        record_views(plan.folder_creates@) == record_views(records@).filter(
            |r: RecordV| commit_creates_folder(r),
        ),
        record_views(plan.remote_deletes@) == record_views(records@).filter(
            |r: RecordV| commit_deletes(r),
        ),
{
    let ghost rsv = record_views(records@);
    let n = records.len();
    let mut uploads: Vec<StatusRecord> = Vec::new();
    let mut folder_creates: Vec<StatusRecord> = Vec::new();
    let mut remote_deletes: Vec<StatusRecord> = Vec::new();
    let mut k: usize = 0;
    proof {
        reveal(Seq::filter);
        assert(rsv.take(0) =~= Seq::<RecordV>::empty());
    }
    while k < n
        invariant
            k <= n,
            n == records.len(),
            rsv == record_views(records@),
            rsv.len() == n,
            record_views(uploads@) =~= rsv.take(k as int).filter(|r: RecordV| commit_uploads(r)),
            record_views(folder_creates@) =~= rsv.take(k as int).filter(
                |r: RecordV| commit_creates_folder(r),
            ),
            record_views(remote_deletes@) =~= rsv.take(k as int).filter(
                |r: RecordV| commit_deletes(r),
            ),
        decreases n - k,
    {
        proof {
            reveal(Seq::filter);
            assert(rsv[k as int] == records@[k as int]@);
            assert(rsv.take(k + 1).drop_last() =~= rsv.take(k as int));
            assert(rsv.take(k + 1).last() == rsv[k as int]);
        }
        let r = &records[k];
        if r.selected {
            let a = action_for(r.status);
            if !r.is_dir {
                match a {
                    Action::Upload => uploads.push(r.duplicate()),
                    Action::DeleteRemote => remote_deletes.push(r.duplicate()),
                    _ => (),
                }
            } else {
                match a {
                    Action::Upload => folder_creates.push(r.duplicate()),
                    Action::DeleteRemote => remote_deletes.push(r.duplicate()),
                    _ => (),
                }
            }
        }
        k = k + 1;
    }
    proof {
        assert(rsv.take(n as int) =~= rsv);
    }
    CommitPlan { uploads, folder_creates, remote_deletes }
}

/// The records of a pull over the selected records: status codes 2 and 5
/// bring remote to local, code 7 deletes locally; codes 0 and 3 need
/// nothing; codes 4 and the anomalies are never planned.
pub fn plan_pull(records: &Vec<StatusRecord>) -> (plan: PullPlan)
    ensures
        record_views(plan.downloads@) == record_views(records@).filter(
            |r: RecordV| pull_downloads(r),
        ),
        record_views(plan.folder_creates@) == record_views(records@).filter(
            |r: RecordV| pull_creates_folder(r),
        ),
        record_views(plan.local_deletes@) == record_views(records@).filter(
            |r: RecordV| pull_deletes(r),
        ),
{
    let ghost rsv = record_views(records@);
    let n = records.len();
    let mut downloads: Vec<StatusRecord> = Vec::new();
    let mut folder_creates: Vec<StatusRecord> = Vec::new();
    let mut local_deletes: Vec<StatusRecord> = Vec::new();
    let mut k: usize = 0;
    proof {
        reveal(Seq::filter);
        assert(rsv.take(0) =~= Seq::<RecordV>::empty());
    }
    while k < n
        invariant
            k <= n,
            n == records.len(),
            rsv == record_views(records@),
            rsv.len() == n,
            record_views(downloads@) =~= rsv.take(k as int).filter(
                |r: RecordV| pull_downloads(r),
            ),
            record_views(folder_creates@) =~= rsv.take(k as int).filter(
                |r: RecordV| pull_creates_folder(r),
            ),
            record_views(local_deletes@) =~= rsv.take(k as int).filter(
                |r: RecordV| pull_deletes(r),
            ),
        decreases n - k,
    {
        proof {
            reveal(Seq::filter);
            assert(rsv[k as int] == records@[k as int]@);
            assert(rsv.take(k + 1).drop_last() =~= rsv.take(k as int));
            assert(rsv.take(k + 1).last() == rsv[k as int]);
        }
        let r = &records[k];
        if r.selected {
            let a = action_for(r.status);
            if !r.is_dir {
                match a {
                    Action::Download => downloads.push(r.duplicate()),
                    Action::DeleteLocal => local_deletes.push(r.duplicate()),
                    _ => (),
                }
            } else {
                match a {
                    Action::Download => folder_creates.push(r.duplicate()),
                    Action::DeleteLocal => local_deletes.push(r.duplicate()),
                    _ => (),
                }
            }
        }
        k = k + 1;
    }
    proof {
        assert(rsv.take(n as int) =~= rsv);
    }
    PullPlan { downloads, folder_creates, local_deletes }
}

/// Filtering records with pairwise distinct paths keeps every kept
/// record a record of the input and keeps the paths pairwise distinct.
proof fn lemma_filter_keeps_unique_paths(rs: Seq<RecordV>, pred: spec_fn(RecordV) -> bool)
    requires
        forall|i: int, j: int| 0 <= i < j < rs.len() ==> rs[i].path != rs[j].path,
    ensures
        forall|i: int| 0 <= i < rs.filter(pred).len() ==> rs.contains(
            #[trigger] rs.filter(pred)[i],
        ),
        forall|i: int| 0 <= i < rs.filter(pred).len() ==> pred(#[trigger] rs.filter(pred)[i]),
        forall|i: int, j: int| 0 <= i < j < rs.filter(pred).len() ==> rs.filter(pred)[i].path
            != rs.filter(pred)[j].path,
    decreases rs.len(),
{
    reveal(Seq::filter);
    if rs.len() > 0 {
        let dl = rs.drop_last();
        lemma_filter_keeps_unique_paths(dl, pred);
        let f = rs.filter(pred);
        let fd = dl.filter(pred);
        assert forall|i: int| 0 <= i < f.len() implies pred(#[trigger] f[i]) by {
            if i < fd.len() {
                assert(f[i] == fd[i]);
            } else {
                assert(f[i] == rs.last());
            }
        }
        assert forall|i: int| 0 <= i < f.len() implies rs.contains(#[trigger] f[i]) by {
            if i < fd.len() {
                assert(f[i] == fd[i]);
                assert(dl.contains(fd[i]));
                let k = choose|k: int| 0 <= k < dl.len() && dl[k] == fd[i];
                assert(rs[k] == fd[i]);
            } else {
                assert(f[i] == rs.last());
                assert(rs[rs.len() - 1] == rs.last());
            }
        }
        assert forall|i: int, j: int| 0 <= i < j < f.len() implies f[i].path != f[j].path by {
            if j < fd.len() {
                assert(f[i] == fd[i] && f[j] == fd[j]);
            } else {
                assert(f[j] == rs.last());
                assert(f[i] == fd[i]);
                assert(dl.contains(fd[i]));
                let k = choose|k: int| 0 <= k < dl.len() && dl[k] == fd[i];
                assert(rs[k].path != rs[rs.len() - 1].path);
            }
        }
    }
}

/// Pairwise distinct paths within one record list.
pub open spec fn paths_distinct(rs: Seq<RecordV>) -> bool {
    forall|i: int, j: int| 0 <= i < j < rs.len() ==> rs[i].path != rs[j].path
}

/// No path in common between two record lists.
pub open spec fn paths_disjoint(a: Seq<RecordV>, b: Seq<RecordV>) -> bool {
    forall|i: int, j: int| 0 <= i < a.len() && 0 <= j < b.len() ==> a[i].path != b[j].path
}

/// Classification output, sorted strictly by path, has pairwise
/// distinct paths; its plans therefore touch each path at most once.
pub proof fn lemma_sorted_records_paths_distinct(rs: Seq<RecordV>)
    requires
        forall|i: int, j: int| 0 <= i < j < rs.len() ==> crate::order::lex_lt(
            rs[i].path,
            rs[j].path,
        ),
    ensures
        paths_distinct(rs),
{
    assert forall|i: int, j: int| 0 <= i < j < rs.len() implies rs[i].path != rs[j].path by {
        assert(crate::order::lex_lt(rs[i].path, rs[j].path));
    }
}

/// One batch touches each path at most once.  Over records with pairwise
/// distinct paths — as the classifier produces them — each list of a
/// commit plan holds at most one record per path and no path is both
/// uploaded and deleted; likewise for a pull.
pub proof fn lemma_plans_touch_each_path_once(records: Seq<RecordV>)
    requires
        paths_distinct(records),
    ensures
        paths_distinct(records.filter(|r: RecordV| commit_uploads(r))),
        paths_distinct(records.filter(|r: RecordV| commit_creates_folder(r))),
        paths_distinct(records.filter(|r: RecordV| commit_deletes(r))),
        paths_distinct(records.filter(|r: RecordV| pull_downloads(r))),
        paths_distinct(records.filter(|r: RecordV| pull_creates_folder(r))),
        paths_distinct(records.filter(|r: RecordV| pull_deletes(r))),
        paths_disjoint(
            records.filter(|r: RecordV| commit_uploads(r)),
            records.filter(|r: RecordV| commit_deletes(r)),
        ),
        paths_disjoint(
            records.filter(|r: RecordV| pull_downloads(r)),
            records.filter(|r: RecordV| pull_deletes(r)),
        ),
{
    lemma_filter_keeps_unique_paths(records, |r: RecordV| commit_uploads(r));
    lemma_filter_keeps_unique_paths(records, |r: RecordV| commit_creates_folder(r));
    lemma_filter_keeps_unique_paths(records, |r: RecordV| commit_deletes(r));
    lemma_filter_keeps_unique_paths(records, |r: RecordV| pull_downloads(r));
    lemma_filter_keeps_unique_paths(records, |r: RecordV| pull_creates_folder(r));
    lemma_filter_keeps_unique_paths(records, |r: RecordV| pull_deletes(r));
    let ups = records.filter(|r: RecordV| commit_uploads(r));
    let dels = records.filter(|r: RecordV| commit_deletes(r));
    assert forall|i: int, j: int|
        0 <= i < ups.len() && 0 <= j < dels.len() implies ups[i].path != dels[j].path by {
        assert(records.contains(ups[i]) && commit_uploads(ups[i]));
        assert(records.contains(dels[j]) && commit_deletes(dels[j]));
        lemma_distinct_actions_distinct_paths(records, ups[i], dels[j]);
    }
    let downs = records.filter(|r: RecordV| pull_downloads(r));
    let ldels = records.filter(|r: RecordV| pull_deletes(r));
    assert forall|i: int, j: int|
        0 <= i < downs.len() && 0 <= j < ldels.len() implies downs[i].path != ldels[j].path by {
        assert(records.contains(downs[i]) && pull_downloads(downs[i]));
        assert(records.contains(ldels[j]) && pull_deletes(ldels[j]));
        lemma_distinct_actions_distinct_paths(records, downs[i], ldels[j]);
    }
}

/// Two records of one classification whose statuses ask for different
/// actions are about different paths.
proof fn lemma_distinct_actions_distinct_paths(rs: Seq<RecordV>, x: RecordV, y: RecordV)
    requires
        paths_distinct(rs),
        rs.contains(x),
        rs.contains(y),
        action_of(x.status) != action_of(y.status),
    ensures
        x.path != y.path,
{
    let a = choose|a: int| 0 <= a < rs.len() && rs[a] == x;
    let b = choose|b: int| 0 <= b < rs.len() && rs[b] == y;
    if x.path == y.path {
        if a < b {
            assert(rs[a].path != rs[b].path);
        } else if b < a {
            assert(rs[b].path != rs[a].path);
        } else {
            assert(x == y);
        }
        assert(false);
    }
}

/// The manifest after a batch moved the listed paths from `base`'s state
/// to `target`'s state.
///
/// For every path in `paths` the result answers as `target` does — a path
/// `target` lacks disappears, one it carries takes `target`'s entry — and
/// every other path keeps `base`'s answer.  Called with the paths whose
/// transfers succeeded, this is the only way a synchronization moves the
/// baseline: a failed path keeps its old record and classifies as
/// unsynchronized again, so the next run retries exactly the failures.
pub fn apply_paths(
    base: &Manifest,
    target: &Manifest,
    paths: &Vec<String>,
    msg: String,
    author: String,
) -> (m: Manifest)
    ensures
        forall|p: Seq<char>| #[trigger] lookup_entry(m@.files, p) == (
        if seq_contains_str(paths@, p) {
            lookup_entry(target@.files, p)
        } else {
            lookup_entry(base@.files, p)
        }),
        forall|f: Seq<char>| #[trigger] m@.folders.contains(f) == (if seq_contains_str(
            paths@,
            f,
        ) {
            target@.folders.contains(f)
        } else {
            base@.folders.contains(f)
        }),
        m@.msg == msg@,
        m@.author == author@,
{
    let ghost bv = entry_views(base.files@);
    let ghost tv = entry_views(target.files@);
    let mut files: Vec<FileEntry> = Vec::new();
    proof {
        assert(entry_views(files@) =~= Seq::<EntryV>::empty());
        assert(bv.take(0) =~= Seq::<EntryV>::empty());
    }
    let nb = base.files.len();
    let mut i: usize = 0;
    while i < nb
        invariant
            i <= nb,
            nb == base.files.len(),
            bv == entry_views(base.files@),
            bv.len() == nb,
            forall|p: Seq<char>| #[trigger] lookup_entry(entry_views(files@), p) == (
            if seq_contains_str(paths@, p) {
                None::<EntryV>
            } else {
                lookup_entry(bv.take(i as int), p)
            }),
        decreases nb - i,
    {
        let ghost oldfv = entry_views(files@);
        proof {
            assert(bv[i as int] == base.files@[i as int]@);
            assert(bv.take(i + 1).drop_last() =~= bv.take(i as int));
            assert(bv.take(i + 1) =~= bv.take(i as int).push(bv[i as int]));
        }
        let e = &base.files[i];
        let skip = contains_str(paths, &e.path);
        if !skip {
            files.push(e.duplicate());
            proof {
                assert(entry_views(files@) =~= oldfv.push(e@));
            }
        }
        proof {
            assert forall|p: Seq<char>| #[trigger] lookup_entry(entry_views(files@), p) == (
            if seq_contains_str(paths@, p) {
                None::<EntryV>
            } else {
                lookup_entry(bv.take(i + 1), p)
            }) by {
                lemma_lookup_push(bv.take(i as int), bv[i as int], p);
                if !skip {
                    lemma_lookup_push(oldfv, e@, p);
                }
            }
        }
        i = i + 1;
    }
    proof {
        assert(bv.take(nb as int) =~= bv);
        assert(tv.take(0) =~= Seq::<EntryV>::empty());
    }
    let nt = target.files.len();
    let mut j: usize = 0;
    while j < nt
        invariant
            j <= nt,
            nt == target.files.len(),
            bv == entry_views(base.files@),
            tv == entry_views(target.files@),
            tv.len() == nt,
            forall|p: Seq<char>| #[trigger] lookup_entry(entry_views(files@), p) == (
            if seq_contains_str(paths@, p) {
                lookup_entry(tv.take(j as int), p)
            } else {
                lookup_entry(bv, p)
            }),
        decreases nt - j,
    {
        let ghost oldfv = entry_views(files@);
        proof {
            assert(tv[j as int] == target.files@[j as int]@);
            assert(tv.take(j + 1) =~= tv.take(j as int).push(tv[j as int]));
        }
        let e = &target.files[j];
        let take = contains_str(paths, &e.path);
        if take {
            files.push(e.duplicate());
            proof {
                assert(entry_views(files@) =~= oldfv.push(e@));
            }
        }
        proof {
            assert forall|p: Seq<char>| #[trigger] lookup_entry(entry_views(files@), p) == (
            if seq_contains_str(paths@, p) {
                lookup_entry(tv.take(j + 1), p)
            } else {
                lookup_entry(bv, p)
            }) by {
                lemma_lookup_push(tv.take(j as int), tv[j as int], p);
                if take {
                    lemma_lookup_push(oldfv, e@, p);
                }
            }
        }
        j = j + 1;
    }
    proof {
        assert(tv.take(nt as int) =~= tv);
    }
    let mut folders: Vec<String> = Vec::new();
    let nbf = base.folders.len();
    let mut i2: usize = 0;
    while i2 < nbf
        invariant
            i2 <= nbf,
            nbf == base.folders.len(),
            forall|f: Seq<char>| #[trigger] seq_contains_str(folders@, f) == (
            if seq_contains_str(paths@, f) {
                false
            } else {
                seq_contains_str(base.folders@.take(i2 as int), f)
            }),
        decreases nbf - i2,
    {
        let ghost oldfo = folders@;
        proof {
            assert(base.folders@.take(i2 + 1) =~= base.folders@.take(i2 as int).push(
                base.folders@[i2 as int],
            ));
        }
        let f = &base.folders[i2];
        let skip = contains_str(paths, f);
        if !skip {
            folders.push(f.clone());
        }
        proof {
            assert forall|q: Seq<char>| #[trigger] seq_contains_str(folders@, q) == (
            if seq_contains_str(paths@, q) {
                false
            } else {
                seq_contains_str(base.folders@.take(i2 + 1), q)
            }) by {
                lemma_contains_str_push(
                    base.folders@.take(i2 as int),
                    base.folders[i2 as int],
                    q,
                );
                if !skip {
                    lemma_contains_str_push(oldfo, *f, q);
                }
            }
        }
        i2 = i2 + 1;
    }
    proof {
        assert(base.folders@.take(nbf as int) =~= base.folders@);
    }
    let ntf = target.folders.len();
    let mut j2: usize = 0;
    while j2 < ntf
        invariant
            j2 <= ntf,
            ntf == target.folders.len(),
            forall|f: Seq<char>| #[trigger] seq_contains_str(folders@, f) == (
            if seq_contains_str(paths@, f) {
                seq_contains_str(target.folders@.take(j2 as int), f)
            } else {
                seq_contains_str(base.folders@, f)
            }),
        decreases ntf - j2,
    {
        let ghost oldfo = folders@;
        proof {
            assert(target.folders@.take(j2 + 1) =~= target.folders@.take(j2 as int).push(
                target.folders@[j2 as int],
            ));
        }
        let f = &target.folders[j2];
        let take = contains_str(paths, f);
        if take {
            folders.push(f.clone());
        }
        proof {
            assert forall|q: Seq<char>| #[trigger] seq_contains_str(folders@, q) == (
            if seq_contains_str(paths@, q) {
                seq_contains_str(target.folders@.take(j2 + 1), q)
            } else {
                seq_contains_str(base.folders@, q)
            }) by {
                lemma_contains_str_push(
                    target.folders@.take(j2 as int),
                    target.folders[j2 as int],
                    q,
                );
                if take {
                    lemma_contains_str_push(oldfo, *f, q);
                }
            }
        }
        j2 = j2 + 1;
    }
    proof {
        assert(target.folders@.take(ntf as int) =~= target.folders@);
    }
    let m = Manifest { files, folders, msg, author };
    proof {
        assert forall|f: Seq<char>| #[trigger] m@.folders.contains(f) == (if seq_contains_str(
            paths@,
            f,
        ) {
            target@.folders.contains(f)
        } else {
            base@.folders.contains(f)
        }) by {
            lemma_str_views_contains(m.folders@, f);
            lemma_str_views_contains(target.folders@, f);
            lemma_str_views_contains(base.folders@, f);
        }
    }
    m
}

/// After a commit whose transfer of file path `p` succeeded — the remote
/// took the local entry and the fresh baseline recorded it likewise — a
/// path that was locally edited (code 1) or new locally (code 8)
/// classifies as fully synchronized (code 0).
pub proof fn lemma_commit_restores_sync(
    local: ManifestV,
    baseline: ManifestV,
    remote: ManifestV,
    baseline2: ManifestV,
    remote2: ManifestV,
    p: Seq<char>,
)
    requires
        !record_is_dir(local, baseline, remote, p),
        record_status(local, baseline, remote, p) == Status::LocalEdited || record_status(
            local,
            baseline,
            remote,
            p,
        ) == Status::LocalOnly,
        lookup_entry(baseline2.files, p) == lookup_entry(local.files, p),
        lookup_entry(remote2.files, p) == lookup_entry(local.files, p),
        !is_folder_path(baseline2, p),
        !is_folder_path(remote2, p),
    ensures
        record_status(local, baseline2, remote2, p) == Status::Synced,
        status_code(record_status(local, baseline2, remote2, p)) == Some(0u8),
{
    assert(lookup_fp(local.files, p) is Some);
}

/// After a pull whose transfer of file path `p` succeeded — the working
/// copy took the remote entry and the fresh baseline recorded it likewise
/// — a path that had changed on the remote (code 2) or existed only there
/// (code 5) classifies as fully synchronized (code 0).
pub proof fn lemma_pull_restores_sync(
    local: ManifestV,
    baseline: ManifestV,
    remote: ManifestV,
    local2: ManifestV,
    baseline2: ManifestV,
    p: Seq<char>,
)
    requires
        !record_is_dir(local, baseline, remote, p),
        record_status(local, baseline, remote, p) == Status::RemoteChanged || record_status(
            local,
            baseline,
            remote,
            p,
        ) == Status::RemoteOnly,
        lookup_entry(local2.files, p) == lookup_entry(remote.files, p),
        lookup_entry(baseline2.files, p) == lookup_entry(remote.files, p),
        !is_folder_path(local2, p),
        !is_folder_path(baseline2, p),
    ensures
        record_status(local2, baseline2, remote, p) == Status::Synced,
        status_code(record_status(local2, baseline2, remote, p)) == Some(0u8),
{
    assert(lookup_fp(remote.files, p) is Some);
}

} // verus!
