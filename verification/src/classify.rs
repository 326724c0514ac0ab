//! Three-way reconciliation classifier.
//!
//! For every path known to any of the three manifests — the fresh local
//! scan, the persisted baseline, and the remote snapshot — the classifier
//! derives a status from the triple of fingerprints (or, for directories,
//! the triple of presence flags).  The status table is the single source
//! of truth for what a synchronization has to do with each path.

use vstd::prelude::*;
use crate::manifest::{lookup_entry, lookup_fp, EntryV, Manifest, ManifestV};
use crate::order::{insert_sorted_unique, lex_lt, seq_contains_str, strs_sorted};

verus! {

/// How one path relates across local, baseline, and remote.
#[derive(Clone, Copy, PartialEq, Eq, Structural, Debug)]
pub enum Status {
    /// Present everywhere with one fingerprint: fully synchronized.
    Synced,
    /// Baseline and remote agree, local differs: edited locally since the
    /// last synchronization.
    LocalEdited,
    /// Local and baseline agree, remote differs: changed on the remote.
    RemoteChanged,
    /// Local and remote agree, baseline differs: the baseline is stale.
    BaselineStale,
    /// All three fingerprints differ: a conflict for a human to resolve.
    Conflict,
    /// Present only on the remote.
    RemoteOnly,
    /// Absent locally but known to baseline and remote: deleted locally.
    DeletedLocal,
    /// Present locally and in the baseline but gone from the remote.
    DeletedRemote,
    /// Present only locally: never synchronized.
    LocalOnly,
    /// A combination the status table does not cover (a path both file and
    /// folder, or present in a shape no synchronization produces): it is
    /// surfaced rather than dropped, and never acted on automatically.
    Anomaly,
}

/// The numeric code of a classified status; anomalies carry no code.
pub open spec fn status_code(s: Status) -> Option<u8> {
    match s {
        Status::Synced => Some(0u8),
        Status::LocalEdited => Some(1u8),
        Status::RemoteChanged => Some(2u8),
        Status::BaselineStale => Some(3u8),
        Status::Conflict => Some(4u8),
        Status::RemoteOnly => Some(5u8),
        Status::DeletedLocal => Some(6u8),
        Status::DeletedRemote => Some(7u8),
        Status::LocalOnly => Some(8u8),
        Status::Anomaly => None,
    }
}

impl Status {
    /// The numeric status code, if the status is one of the table's rows.
    pub fn code(&self) -> (c: Option<u8>)
        ensures
            c == status_code(*self),
    {
        match self {
            Status::Synced => Some(0u8),
            Status::LocalEdited => Some(1u8),
            Status::RemoteChanged => Some(2u8),
            Status::BaselineStale => Some(3u8),
            Status::Conflict => Some(4u8),
            Status::RemoteOnly => Some(5u8),
            Status::DeletedLocal => Some(6u8),
            Status::DeletedRemote => Some(7u8),
            Status::LocalOnly => Some(8u8),
            Status::Anomaly => None,
        }
    }
}

/// The classification of one fingerprint triple; `None` stands for a path
/// absent from that manifest.
pub open spec fn classify_fps(
    l: Option<Seq<char>>,
    b: Option<Seq<char>>,
    r: Option<Seq<char>>,
) -> Status {
    match (l, b, r) {
        (Some(lf), Some(bf), Some(rf)) => if lf == bf && bf == rf {
            Status::Synced
        } else if bf == rf {
            Status::LocalEdited
        } else if lf == bf {
            Status::RemoteChanged
        } else if lf == rf {
            Status::BaselineStale
        } else {
            Status::Conflict
        },
        (None, None, Some(_)) => Status::RemoteOnly,
        (None, Some(_), Some(_)) => Status::DeletedLocal,
        (Some(_), Some(_), None) => Status::DeletedRemote,
        (Some(_), None, None) => Status::LocalOnly,
        _ => Status::Anomaly,
    }
}

/// The classification of one presence triple, used for directories, which
/// have no fingerprint dimension.  A folder the baseline alone still
/// knows was deleted locally (whether or not the remote ever had it);
/// one present locally and remotely yet unknown to the baseline has no
/// boundary reading and is surfaced as an anomaly.
pub open spec fn classify_presence(l: bool, b: bool, r: bool) -> Status {
    match (l, b, r) {
        (true, true, true) => Status::Synced,
        (false, false, true) => Status::RemoteOnly,
        (false, true, true) => Status::DeletedLocal,
        (false, true, false) => Status::DeletedLocal,
        (true, true, false) => Status::DeletedRemote,
        (true, false, false) => Status::LocalOnly,
        _ => Status::Anomaly,
    }
}

/// Whether a fingerprint triple matches the status table's row `c`.
pub open spec fn matches_row(
    c: u8,
    l: Option<Seq<char>>,
    b: Option<Seq<char>>,
    r: Option<Seq<char>>,
) -> bool {
    if c == 0 {
        l is Some && b is Some && r is Some && l->Some_0 == b->Some_0 && b->Some_0 == r->Some_0
    } else if c == 1 {
        l is Some && b is Some && r is Some && b->Some_0 == r->Some_0 && l->Some_0 != b->Some_0
    } else if c == 2 {
        l is Some && b is Some && r is Some && l->Some_0 == b->Some_0 && r->Some_0 != b->Some_0
    } else if c == 3 {
        l is Some && b is Some && r is Some && l->Some_0 == r->Some_0 && b->Some_0 != l->Some_0
    } else if c == 4 {
        l is Some && b is Some && r is Some && l->Some_0 != b->Some_0 && b->Some_0 != r->Some_0
            && l->Some_0 != r->Some_0
    } else if c == 5 {
        l is None && b is None && r is Some
    } else if c == 6 {
        l is None && b is Some && r is Some
    } else if c == 7 {
        l is Some && b is Some && r is None
    } else if c == 8 {
        l is Some && b is None && r is None
    } else {
        false
    }
}

/// The status table is sound and complete: every fingerprint triple
/// matches at most one row; the classifier answers exactly the matching
/// row's code; and the triples no row covers — present only in the
/// baseline, present locally and remotely but unknown to the baseline, or
/// absent everywhere — are exactly those classified as an anomaly.
pub proof fn lemma_classifier_matches_table(
    l: Option<Seq<char>>,
    b: Option<Seq<char>>,
    r: Option<Seq<char>>,
)
    ensures
        forall|c1: u8, c2: u8|
            matches_row(c1, l, b, r) && matches_row(c2, l, b, r) ==> c1 == c2,
        forall|c: u8| #[trigger] matches_row(c, l, b, r) <==> status_code(classify_fps(l, b, r))
            == Some(c),
        classify_fps(l, b, r) == Status::Anomaly <==> ((l is Some && b is None && r is Some) || (
        l is None && b is Some && r is None) || (l is None && b is None && r is None)),
{
}

/// The view of an optional borrowed fingerprint.
pub open spec fn view_opt(o: Option<&String>) -> Option<Seq<char>> {
    match o {
        Some(s) => Some(s@),
        None => None,
    }
}

/// Classify one presence triple (used for directories).
pub fn classify_presence_triple(l: bool, b: bool, r: bool) -> (s: Status)
    ensures
        s == classify_presence(l, b, r),
{
    match (l, b, r) {
        (true, true, true) => Status::Synced,
        (false, false, true) => Status::RemoteOnly,
        (false, true, true) => Status::DeletedLocal,
        (false, true, false) => Status::DeletedLocal,
        (true, true, false) => Status::DeletedRemote,
        (true, false, false) => Status::LocalOnly,
        _ => Status::Anomaly,
    }
}

/// Classify one path from its three optional fingerprints.
pub fn classify_triple(l: Option<&String>, b: Option<&String>, r: Option<&String>) -> (s: Status)
    ensures
        s == classify_fps(view_opt(l), view_opt(b), view_opt(r)),
{
    match (l, b, r) {
        (Some(lf), Some(bf), Some(rf)) => {
            let lb = *lf == *bf;
            let br = *bf == *rf;
            let lr = *lf == *rf;
            if lb && br {
                Status::Synced
            } else if br {
                Status::LocalEdited
            } else if lb {
                Status::RemoteChanged
            } else if lr {
                Status::BaselineStale
            } else {
                Status::Conflict
            }
        },
        (None, None, Some(_)) => Status::RemoteOnly,
        (None, Some(_), Some(_)) => Status::DeletedLocal,
        (Some(_), Some(_), None) => Status::DeletedRemote,
        (Some(_), None, None) => Status::LocalOnly,
        _ => Status::Anomaly,
    }
}

/// One classified path: display name, relative path, whether it is acted
/// on by default, whether it is a directory, and its status.
pub struct StatusRecord {
    pub name: String,
    pub path: String,
    pub selected: bool,
    pub is_dir: bool,
    pub status: Status,
}

/// The mathematical value of a [`StatusRecord`].
pub struct RecordV {
    pub name: Seq<char>,
    pub path: Seq<char>,
    pub selected: bool,
    pub is_dir: bool,
    pub status: Status,
}

impl View for StatusRecord {
    type V = RecordV;

    open spec fn view(&self) -> RecordV {
        RecordV {
            name: self.name@,
            path: self.path@,
            selected: self.selected,
            is_dir: self.is_dir,
            status: self.status,
        }
    }
}

/// The views of a sequence of status records.
pub open spec fn record_views(rs: Seq<StatusRecord>) -> Seq<RecordV> {
    rs.map_values(|r: StatusRecord| r@)
}

impl StatusRecord {
    /// A copy of the record, field for field.
    pub fn duplicate(&self) -> (r: StatusRecord)
        ensures
            r@ == self@,
    {
        StatusRecord {
            name: self.name.clone(),
            path: self.path.clone(),
            selected: self.selected,
            is_dir: self.is_dir,
            status: self.status,
        }
    }
}

/// Whether `p` is a file path known to the manifest.
pub open spec fn is_file_path(m: ManifestV, p: Seq<char>) -> bool {
    lookup_entry(m.files, p) is Some
}

/// Whether `p` is a folder path known to the manifest.
pub open spec fn is_folder_path(m: ManifestV, p: Seq<char>) -> bool {
    m.folders.contains(p)
}

/// Whether any of the three manifests knows `p`, as a file or a folder.
pub open spec fn in_union(l: ManifestV, b: ManifestV, r: ManifestV, p: Seq<char>) -> bool {
    ||| is_file_path(l, p)
    ||| is_file_path(b, p)
    ||| is_file_path(r, p)
    ||| is_folder_path(l, p)
    ||| is_folder_path(b, p)
    ||| is_folder_path(r, p)
}

/// A path counts as a directory when any manifest lists it as a folder.
pub open spec fn record_is_dir(l: ManifestV, b: ManifestV, r: ManifestV, p: Seq<char>) -> bool {
    is_folder_path(l, p) || is_folder_path(b, p) || is_folder_path(r, p)
}

/// The status of one path across the three manifests: a path that is both
/// a file and a folder is an anomaly; a file path is classified by its
/// fingerprint triple; a folder path by its presence triple.
pub open spec fn record_status(l: ManifestV, b: ManifestV, r: ManifestV, p: Seq<char>) -> Status {
    let in_file = is_file_path(l, p) || is_file_path(b, p) || is_file_path(r, p);
    if record_is_dir(l, b, r, p) {
        if in_file {
            Status::Anomaly
        } else {
            classify_presence(is_folder_path(l, p), is_folder_path(b, p), is_folder_path(r, p))
        }
    } else {
        classify_fps(lookup_fp(l.files, p), lookup_fp(b.files, p), lookup_fp(r.files, p))
    }
}

/// The display name of one path: the name recorded by the local scan, the
/// baseline, or the remote, in that order; a path known only as a folder
/// is displayed by its path.
pub open spec fn record_name(l: ManifestV, b: ManifestV, r: ManifestV, p: Seq<char>) -> Seq<
    char,
> {
    if lookup_entry(l.files, p) is Some {
        lookup_entry(l.files, p)->Some_0.name
    } else if lookup_entry(b.files, p) is Some {
        lookup_entry(b.files, p)->Some_0.name
    } else if lookup_entry(r.files, p) is Some {
        lookup_entry(r.files, p)->Some_0.name
    } else {
        p
    }
}

/// File records are selected by default; directory records and anomalies
/// are not.
pub open spec fn record_selected(l: ManifestV, b: ManifestV, r: ManifestV, p: Seq<char>) -> bool {
    !record_is_dir(l, b, r, p) && record_status(l, b, r, p) != Status::Anomaly
}

/// The record the classifier owes for path `p`.
pub open spec fn spec_record(l: ManifestV, b: ManifestV, r: ManifestV, p: Seq<char>) -> RecordV {
    RecordV {
        name: record_name(l, b, r, p),
        path: p,
        selected: record_selected(l, b, r, p),
        is_dir: record_is_dir(l, b, r, p),
        status: record_status(l, b, r, p),
    }
}

/// Add every file path of the manifest to the sorted union vector.
fn add_file_paths(v: &mut Vec<String>, m: &Manifest)
    requires
        strs_sorted(old(v)@),
    ensures
        strs_sorted(final(v)@),
        forall|q: Seq<char>| #[trigger] seq_contains_str(final(v)@, q) <==> (seq_contains_str(
            old(v)@,
            q,
        ) || is_file_path(m@, q)),
{
    let n = m.files.len();
    let mut i: usize = 0;
    while i < n
        invariant
            i <= n,
            n == m.files.len(),
            strs_sorted(v@),
            forall|q: Seq<char>| #[trigger] seq_contains_str(v@, q) <==> (seq_contains_str(
                old(v)@,
                q,
            ) || exists|j: int| 0 <= j < i && m@.files[j].path == q),
        decreases n - i,
    {
        insert_sorted_unique(v, &m.files[i].path);
        proof {
            assert(m@.files[i as int].path == m.files@[i as int]@.path);
        }
        i = i + 1;
    }
    proof {
        assert(m@.files.len() == n);
        assert forall|q: Seq<char>| #[trigger] seq_contains_str(v@, q) <==> (seq_contains_str(
            old(v)@,
            q,
        ) || is_file_path(m@, q)) by {
            crate::manifest::lemma_lookup_exists(m@.files, q);
        }
    }
}

/// Add every folder path of the manifest to the sorted union vector.
fn add_folder_paths(v: &mut Vec<String>, m: &Manifest)
    requires
        strs_sorted(old(v)@),
    ensures
        strs_sorted(final(v)@),
        forall|q: Seq<char>| #[trigger] seq_contains_str(final(v)@, q) <==> (seq_contains_str(
            old(v)@,
            q,
        ) || is_folder_path(m@, q)),
{
    let n = m.folders.len();
    let mut i: usize = 0;
    while i < n
        invariant
            i <= n,
            n == m.folders.len(),
            strs_sorted(v@),
            forall|q: Seq<char>| #[trigger] seq_contains_str(v@, q) <==> (seq_contains_str(
                old(v)@,
                q,
            ) || exists|j: int| 0 <= j < i && m@.folders[j] == q),
        decreases n - i,
    {
        insert_sorted_unique(v, &m.folders[i]);
        proof {
            assert(m@.folders[i as int] == m.folders@[i as int]@);
        }
        i = i + 1;
    }
}

/// Classify every path known to any of the three manifests.
///
/// The result holds exactly one record per such path, in strictly
/// ascending path order, each record exactly as the status table demands.
pub fn classify(local: &Manifest, baseline: &Manifest, remote: &Manifest) -> (out: Vec<
    StatusRecord,
>)
    ensures
        forall|i: int, j: int| 0 <= i < j < out.len() ==> lex_lt(out[i]@.path, out[j]@.path),
        forall|i: int| 0 <= i < out.len() ==> out[i]@ == spec_record(
            local@,
            baseline@,
            remote@,
            out[i]@.path,
        ),
        forall|p: Seq<char>| #[trigger] in_union(local@, baseline@, remote@, p) <==> exists|i: int|
            0 <= i < out.len() && out[i]@.path == p,
{
    let mut paths: Vec<String> = Vec::new();
    proof {
        assert(!seq_contains_str(paths@, Seq::<char>::empty())) by {
            assert(paths@.len() == 0);
        }
    }
    add_file_paths(&mut paths, local);
    add_file_paths(&mut paths, baseline);
    add_file_paths(&mut paths, remote);
    add_folder_paths(&mut paths, local);
    add_folder_paths(&mut paths, baseline);
    add_folder_paths(&mut paths, remote);
    let n = paths.len();
    let mut out: Vec<StatusRecord> = Vec::new();
    let mut k: usize = 0;
    while k < n
        invariant
            k <= n,
            n == paths.len(),
            out.len() == k,
            strs_sorted(paths@),
            forall|q: Seq<char>| #[trigger] seq_contains_str(paths@, q) <==> in_union(
                local@,
                baseline@,
                remote@,
                q,
            ),
            forall|i: int| 0 <= i < k ==> out[i]@ == spec_record(
                local@,
                baseline@,
                remote@,
                paths@[i]@,
            ),
        decreases n - k,
    {
        let p = &paths[k];
        let lf = local.lookup(p);
        let bf = baseline.lookup(p);
        let rf = remote.lookup(p);
        let in_file = lf.is_some() || bf.is_some() || rf.is_some();
        let ld = local.has_folder(p);
        let bd = baseline.has_folder(p);
        let rd = remote.has_folder(p);
        let in_dir = ld || bd || rd;
        let status = if in_dir {
            if in_file {
                Status::Anomaly
            } else {
                classify_presence_triple(ld, bd, rd)
            }
        } else {
            let lfp = match lf {
                Some(e) => Some(&e.sha256),
                None => None,
            };
            let bfp = match bf {
                Some(e) => Some(&e.sha256),
                None => None,
            };
            let rfp = match rf {
                Some(e) => Some(&e.sha256),
                None => None,
            };
            classify_triple(lfp, bfp, rfp)
        };
        let name = match lf {
            Some(e) => e.name.clone(),
            None => match bf {
                Some(e) => e.name.clone(),
                None => match rf {
                    Some(e) => e.name.clone(),
                    None => p.clone(),
                },
            },
        };
        let is_anomaly = match status {
            Status::Anomaly => true,
            _ => false,
        };
        let selected = !in_dir && !is_anomaly;
        let rec = StatusRecord { name, path: p.clone(), selected, is_dir: in_dir, status };
        proof {
            assert(rec@ == spec_record(local@, baseline@, remote@, paths@[k as int]@));
        }
        out.push(rec);
        k = k + 1;
    }
    proof {
        assert forall|i: int, j: int| 0 <= i < j < out.len() implies lex_lt(
            out[i]@.path,
            out[j]@.path,
        ) by {
            assert(out[i]@.path == paths@[i]@ && out[j]@.path == paths@[j]@);
        }
        assert forall|p: Seq<char>| #[trigger] in_union(local@, baseline@, remote@, p)
            <==> exists|i: int| 0 <= i < out.len() && out[i]@.path == p by {
            if in_union(local@, baseline@, remote@, p) {
                assert(seq_contains_str(paths@, p));
                let i = choose|i: int| 0 <= i < paths@.len() && paths@[i]@ == p;
                assert(out[i]@ == spec_record(local@, baseline@, remote@, paths@[i]@));
                assert(out[i]@.path == p);
            }
            if exists|i: int| 0 <= i < out.len() && out[i]@.path == p {
                let i = choose|i: int| 0 <= i < out.len() && out[i]@.path == p;
                assert(out[i]@ == spec_record(local@, baseline@, remote@, paths@[i]@));
                assert(paths@[i]@ == p);
                assert(seq_contains_str(paths@, p));
            }
        }
    }
    out
}

} // verus!
