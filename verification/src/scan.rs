//! Tree scanner: from a directory walk to a manifest.
//!
//! The walk itself is input/output and happens outside this crate; what
//! arrives here is the list of items the walk reported, each with its
//! display name, relative path, content fingerprint, and whether it is a
//! directory.  This module turns that list into a manifest: it drops the
//! housekeeping files (the manifest file itself, the remote-shadow
//! manifest, and the platform marker file), removes duplicate paths, and
//! sorts everything, so that a fixed tree always yields one manifest no
//! matter in which order the walk visited it.

use vstd::prelude::*;
use crate::manifest::{
    entries_sorted, entry_views, folders_sorted, EntryV, FileEntry, Manifest, ManifestV,
};
use crate::order::{
    insert_sorted_unique, lex_lt, seq_contains_str, str_eq, strs_sorted,
    lemma_lex_le_reflexive, lemma_lex_lt_transitive, lemma_lex_trichotomy,
};

verus! {

/// One item reported by a directory walk.
pub struct ScanItem {
    pub name: String,
    pub path: String,
    pub fingerprint: String,
    pub is_dir: bool,
}

/// The mathematical value of a [`ScanItem`].
pub struct ItemV {
    pub name: Seq<char>,
    pub path: Seq<char>,
    pub fingerprint: Seq<char>,
    pub is_dir: bool,
}

impl View for ScanItem {
    type V = ItemV;

    open spec fn view(&self) -> ItemV {
        ItemV {
            name: self.name@,
            path: self.path@,
            fingerprint: self.fingerprint@,
            is_dir: self.is_dir,
        }
    }
}

/// The views of a sequence of scan items.
pub open spec fn item_views(items: Seq<ScanItem>) -> Seq<ItemV> {
    items.map_values(|it: ScanItem| it@)
}

/// Housekeeping names the scanner never records: the manifest file, the
/// remote-shadow manifest, and the platform marker file.
pub open spec fn excluded_name(name: Seq<char>, sync_name: Seq<char>, rmsync_name: Seq<
    char,
>) -> bool {
    name == sync_name || name == rmsync_name || name == ".DS_Store"@
}

/// Whether a walk item becomes a file entry of the manifest.
pub open spec fn keep_file(it: ItemV, sync_name: Seq<char>, rmsync_name: Seq<char>) -> bool {
    !it.is_dir && !excluded_name(it.name, sync_name, rmsync_name)
}

/// The manifest entry a kept walk item turns into.
pub open spec fn item_entry(it: ItemV) -> EntryV {
    EntryV { name: it.name, path: it.path, sha256: it.fingerprint }
}

/// Whether item `i` is the first kept occurrence of its path and turns
/// into entry `e`.
pub open spec fn kept_at(
    items: Seq<ItemV>,
    sync_name: Seq<char>,
    rmsync_name: Seq<char>,
    e: EntryV,
    i: int,
) -> bool {
    &&& 0 <= i < items.len()
    &&& keep_file(items[i], sync_name, rmsync_name)
    &&& item_entry(items[i]) == e
    &&& forall|j: int|
        0 <= j < i ==> !(keep_file(#[trigger] items[j], sync_name, rmsync_name) && items[j].path
            == e.path)
}

/// Whether entry `e` is recorded for the walk: it is the first kept
/// occurrence of its path.
pub open spec fn kept_first(
    items: Seq<ItemV>,
    sync_name: Seq<char>,
    rmsync_name: Seq<char>,
    e: EntryV,
) -> bool {
    exists|i: int| kept_at(items, sync_name, rmsync_name, e, i)
}

/// Whether the walk reported a directory with path `f`.
pub open spec fn folder_listed(items: Seq<ItemV>, f: Seq<char>) -> bool {
    exists|i: int| 0 <= i < items.len() && (#[trigger] items[i]).is_dir && items[i].path == f
}

/// What a built manifest promises about the walk it came from.
pub open spec fn scan_result(
    items: Seq<ItemV>,
    sync_name: Seq<char>,
    rmsync_name: Seq<char>,
    m: ManifestV,
) -> bool {
    &&& entries_sorted(m.files)
    &&& folders_sorted(m.folders)
    &&& forall|e: EntryV| #[trigger] m.files.contains(e) <==> kept_first(
        items,
        sync_name,
        rmsync_name,
        e,
    )
    &&& forall|f: Seq<char>| #[trigger] m.folders.contains(f) <==> folder_listed(items, f)
    &&& m.msg.len() == 0
    &&& m.author.len() == 0
}

/// Whether the scanner would leave this name out of the manifest.
pub fn is_excluded_name(name: &String, sync_name: &String, rmsync_name: &String) -> (r: bool)
    ensures
        r == excluded_name(name@, sync_name@, rmsync_name@),
{
    if *name == *sync_name {
        return true;
    }
    if *name == *rmsync_name {
        return true;
    }
    str_eq(name.as_str(), ".DS_Store")
}

/// Whether some entry carries path `p`.
pub open spec fn seq_has_path(files: Seq<EntryV>, p: Seq<char>) -> bool {
    exists|i: int| 0 <= i < files.len() && files[i].path == p
}

/// Insert an entry into a path-sorted vector; an entry whose path is
/// already present is dropped.
fn insert_entry_sorted(files: &mut Vec<FileEntry>, e: FileEntry)
    requires
        entries_sorted(entry_views(old(files)@)),
    ensures
        entries_sorted(entry_views(final(files)@)),
        seq_has_path(entry_views(old(files)@), e@.path) ==> entry_views(final(files)@)
            == entry_views(old(files)@),
        !seq_has_path(entry_views(old(files)@), e@.path) ==> forall|x: EntryV|
            #[trigger] entry_views(final(files)@).contains(x) <==> (entry_views(
            old(files)@,
        ).contains(x) || x == e@),
{
    let n = files.len();
    let mut j: usize = 0;
    loop
        invariant
            j <= n,
            n == files.len(),
            entries_sorted(entry_views(files@)),
            forall|k: int| 0 <= k < j ==> lex_lt(entry_views(files@)[k].path, e@.path),
        ensures
            j <= n,
            n == files.len(),
            entries_sorted(entry_views(files@)),
            forall|k: int| 0 <= k < j ==> lex_lt(entry_views(files@)[k].path, e@.path),
            j < n ==> !crate::order::lex_le(entry_views(files@)[j as int].path, e@.path),
            j < n ==> entry_views(files@)[j as int].path != e@.path,
        decreases n - j,
    {
        if j >= n {
            break ;
        }
        let le = crate::order::str_le(files[j].path.as_str(), e.path.as_str());
        let eq = files[j].path == e.path;
        proof {
            assert(entry_views(files@)[j as int] == files@[j as int]@);
        }
        if !le {
            proof {
                if entry_views(files@)[j as int].path == e@.path {
                    lemma_lex_le_reflexive(e@.path);
                }
            }
            break ;
        }
        if eq {
            proof {
                let fv = entry_views(files@);
                assert(fv[j as int].path == e@.path);
                assert(seq_has_path(fv, e@.path));
                assert(fv == entry_views(old(files)@));
            }
            return ;
        }
        proof {
            assert(lex_lt(entry_views(files@)[j as int].path, e@.path));
        }
        j = j + 1;
    }
    proof {
        let fv = entry_views(files@);
        if j < n {
            lemma_lex_trichotomy(fv[j as int].path, e@.path);
            assert(lex_lt(e@.path, fv[j as int].path));
        }
        if seq_has_path(fv, e@.path) {
            let i = choose|i: int| 0 <= i < fv.len() && fv[i].path == e@.path;
            if i < j {
                assert(lex_lt(fv[i].path, e@.path));
                lemma_lex_le_reflexive(e@.path);
            } else if i > j {
                assert(lex_lt(fv[j as int].path, fv[i].path));
                lemma_lex_lt_transitive(e@.path, fv[j as int].path, fv[i].path);
                lemma_lex_le_reflexive(e@.path);
            }
            assert(false);
        }
    }
    let ghost oldv = entry_views(files@);
    let ghost ev = e@;
    files.insert(j, e);
    proof {
        let newv = entry_views(files@);
        assert(newv =~= oldv.insert(j as int, ev)) by {
            assert(files@ =~= old(files)@.insert(j as int, e));
            assert forall|i: int| 0 <= i < newv.len() implies newv[i] == oldv.insert(
                j as int,
                ev,
            )[i] by {
                assert(newv[i] == files@[i]@);
            }
        }
        assert forall|i: int, k: int| 0 <= i < k < newv.len() implies lex_lt(
            newv[i].path,
            newv[k].path,
        ) by {
            if i < j && k == j {
            } else if i == j && k > j {
                if k - 1 > j as int {
                    lemma_lex_lt_transitive(ev.path, oldv[j as int].path, oldv[k - 1].path);
                }
            } else if i < j && k > j {
            }
        }
        assert forall|x: EntryV| #[trigger] newv.contains(x) implies (oldv.contains(x) || x
            == ev) by {
            let i = choose|i: int| 0 <= i < newv.len() && newv[i] == x;
            if i < j {
                assert(oldv[i] == x);
            } else if i > j {
                assert(oldv[i - 1] == x);
            }
        }
        assert forall|x: EntryV| (oldv.contains(x) || x == ev) implies #[trigger] newv.contains(
            x,
        ) by {
            if x == ev {
                assert(newv[j as int] == x);
            } else {
                let i = choose|i: int| 0 <= i < oldv.len() && oldv[i] == x;
                if i < j {
                    assert(newv[i] == x);
                } else {
                    assert(newv[i + 1] == x);
                }
            }
        }
    }
}

/// Among the items before `j`, some first kept occurrence of the path of
/// kept item `j` is recorded.
proof fn lemma_first_kept_exists(
    items: Seq<ItemV>,
    sync_name: Seq<char>,
    rmsync_name: Seq<char>,
    j: int,
)
    requires
        0 <= j < items.len(),
        keep_file(items[j], sync_name, rmsync_name),
    ensures
        exists|e: EntryV| #[trigger] kept_first(items, sync_name, rmsync_name, e) && e.path
            == items[j].path,
    decreases j,
{
    if exists|j2: int|
        0 <= j2 < j && keep_file(#[trigger] items[j2], sync_name, rmsync_name) && items[j2].path
            == items[j].path {
        let j2 = choose|j2: int|
            0 <= j2 < j && keep_file(#[trigger] items[j2], sync_name, rmsync_name)
                && items[j2].path == items[j].path;
        lemma_first_kept_exists(items, sync_name, rmsync_name, j2);
    } else {
        let e = item_entry(items[j]);
        assert(kept_at(items, sync_name, rmsync_name, e, j));
        assert(kept_first(items, sync_name, rmsync_name, e));
    }
}

/// Two sequences whose keys ascend strictly and whose members coincide
/// are equal.
proof fn lemma_sorted_unique_by_key<T>(x: Seq<T>, y: Seq<T>, key: spec_fn(T) -> Seq<char>)
    requires
        forall|i: int, j: int| 0 <= i < j < x.len() ==> lex_lt(key(x[i]), key(x[j])),
        forall|i: int, j: int| 0 <= i < j < y.len() ==> lex_lt(key(y[i]), key(y[j])),
        forall|t: T| x.contains(t) <==> y.contains(t),
    ensures
        x =~= y,
    decreases x.len(),
{
    if x.len() == 0 {
        if y.len() > 0 {
            assert(y.contains(y[0]));
            assert(x.contains(y[0]));
            assert(false);
        }
    } else {
        assert(x.contains(x[0]));
        assert(y.contains(x[0]));
        let j = choose|j: int| 0 <= j < y.len() && y[j] == x[0];
        assert(y.contains(y[0]));
        assert(x.contains(y[0]));
        let i = choose|i: int| 0 <= i < x.len() && x[i] == y[0];
        if i > 0 && j > 0 {
            assert(lex_lt(key(x[0]), key(x[i])));
            assert(lex_lt(key(y[0]), key(y[j])));
            lemma_lex_lt_transitive(key(x[0]), key(y[0]), key(x[0]));
            assert(false);
        }
        assert(x[0] == y[0]);
        let xs = x.drop_first();
        let ys = y.drop_first();
        assert forall|t: T| xs.contains(t) <==> ys.contains(t) by {
            if xs.contains(t) {
                let m = choose|m: int| 0 <= m < xs.len() && xs[m] == t;
                assert(x[m + 1] == t);
                assert(x.contains(t));
                assert(y.contains(t));
                let w = choose|w: int| 0 <= w < y.len() && y[w] == t;
                if w == 0 {
                    assert(x[0] == t);
                    assert(lex_lt(key(x[0]), key(x[m + 1])));
                    assert(false);
                }
                assert(ys[w - 1] == t);
            }
            if ys.contains(t) {
                let m = choose|m: int| 0 <= m < ys.len() && ys[m] == t;
                assert(y[m + 1] == t);
                assert(y.contains(t));
                assert(x.contains(t));
                let w = choose|w: int| 0 <= w < x.len() && x[w] == t;
                if w == 0 {
                    assert(y[0] == t);
                    assert(lex_lt(key(y[0]), key(y[m + 1])));
                    assert(false);
                }
                assert(xs[w - 1] == t);
            }
        }
        assert forall|i2: int, j2: int| 0 <= i2 < j2 < xs.len() implies lex_lt(
            key(xs[i2]),
            key(xs[j2]),
        ) by {
            assert(xs[i2] == x[i2 + 1] && xs[j2] == x[j2 + 1]);
        }
        assert forall|i2: int, j2: int| 0 <= i2 < j2 < ys.len() implies lex_lt(
            key(ys[i2]),
            key(ys[j2]),
        ) by {
            assert(ys[i2] == y[i2 + 1] && ys[j2] == y[j2 + 1]);
        }
        lemma_sorted_unique_by_key(xs, ys, key);
        assert forall|m: int| 0 <= m < x.len() implies x[m] == y[m] by {
            if m > 0 {
                assert(xs[m - 1] == ys[m - 1]);
            }
        }
    }
}

/// No two kept items of the walk share a path (true of any walk of a real
/// tree: a path names one file).
pub open spec fn kept_paths_unique(
    items: Seq<ItemV>,
    sync_name: Seq<char>,
    rmsync_name: Seq<char>,
) -> bool {
    forall|i: int, j: int|
        0 <= i < j < items.len() && keep_file(#[trigger] items[i], sync_name, rmsync_name)
            && keep_file(#[trigger] items[j], sync_name, rmsync_name) ==> items[i].path
            != items[j].path
}

/// Scanning is deterministic and order-independent: two walks of one
/// unchanged tree — reporting the same items in any order — build
/// identical manifests: same entries, same fingerprints, same order.
pub proof fn lemma_scan_order_independent(
    items1: Seq<ItemV>,
    items2: Seq<ItemV>,
    sync_name: Seq<char>,
    rmsync_name: Seq<char>,
    m1: ManifestV,
    m2: ManifestV,
)
    requires
        scan_result(items1, sync_name, rmsync_name, m1),
        scan_result(items2, sync_name, rmsync_name, m2),
        forall|t: ItemV| items1.contains(t) <==> items2.contains(t),
        kept_paths_unique(items1, sync_name, rmsync_name),
        kept_paths_unique(items2, sync_name, rmsync_name),
    ensures
        m1.files =~= m2.files,
        m1.folders =~= m2.folders,
{
    assert forall|e: EntryV| kept_first(items1, sync_name, rmsync_name, e) <==> kept_first(
        items2,
        sync_name,
        rmsync_name,
        e,
    ) by {
        lemma_kept_first_from_membership(items1, items2, sync_name, rmsync_name, e);
        lemma_kept_first_from_membership(items2, items1, sync_name, rmsync_name, e);
    }
    assert forall|e: EntryV| m1.files.contains(e) <==> m2.files.contains(e) by {
        assert(m1.files.contains(e) <==> kept_first(items1, sync_name, rmsync_name, e));
        assert(m2.files.contains(e) <==> kept_first(items2, sync_name, rmsync_name, e));
    }
    assert forall|i: int, j: int| 0 <= i < j < m1.files.len() implies lex_lt(
        m1.files[i].path,
        m1.files[j].path,
    ) by {}
    lemma_sorted_unique_by_key(m1.files, m2.files, |e: EntryV| e.path);
    assert forall|f: Seq<char>| m1.folders.contains(f) <==> m2.folders.contains(f) by {
        if folder_listed(items1, f) {
            let i = choose|i: int|
                0 <= i < items1.len() && (#[trigger] items1[i]).is_dir && items1[i].path == f;
            assert(items1.contains(items1[i]));
            assert(items2.contains(items1[i]));
            let j = choose|j: int| 0 <= j < items2.len() && items2[j] == items1[i];
            assert(folder_listed(items2, f));
        }
        if folder_listed(items2, f) {
            let i = choose|i: int|
                0 <= i < items2.len() && (#[trigger] items2[i]).is_dir && items2[i].path == f;
            assert(items2.contains(items2[i]));
            assert(items1.contains(items2[i]));
            let j = choose|j: int| 0 <= j < items1.len() && items1[j] == items2[i];
            assert(folder_listed(items1, f));
        }
    }
    lemma_sorted_unique_by_key(m1.folders, m2.folders, |f: Seq<char>| f);
}

/// Two walks of one unchanged tree yield byte-identical manifest
/// documents: same entries, same fingerprints, same order, same text.
pub proof fn lemma_scan_documents_identical(
    items1: Seq<ItemV>,
    items2: Seq<ItemV>,
    sync_name: Seq<char>,
    rmsync_name: Seq<char>,
    m1: ManifestV,
    m2: ManifestV,
)
    requires
        scan_result(items1, sync_name, rmsync_name, m1),
        scan_result(items2, sync_name, rmsync_name, m2),
        forall|t: ItemV| items1.contains(t) <==> items2.contains(t),
        kept_paths_unique(items1, sync_name, rmsync_name),
        kept_paths_unique(items2, sync_name, rmsync_name),
    ensures
        crate::codec::spec_render_manifest(m1) == crate::codec::spec_render_manifest(m2),
{
    lemma_scan_order_independent(items1, items2, sync_name, rmsync_name, m1, m2);
    assert(m1.msg =~= m2.msg);
    assert(m1.author =~= m2.author);
    assert(m1 == m2);
}

/// If the walks report the same items and kept paths are unique, an entry
/// recorded for the first walk is recorded for the second.
proof fn lemma_kept_first_from_membership(
    items1: Seq<ItemV>,
    items2: Seq<ItemV>,
    sync_name: Seq<char>,
    rmsync_name: Seq<char>,
    e: EntryV,
)
    requires
        forall|t: ItemV| items1.contains(t) <==> items2.contains(t),
        kept_paths_unique(items2, sync_name, rmsync_name),
    ensures
        kept_first(items1, sync_name, rmsync_name, e) ==> kept_first(
            items2,
            sync_name,
            rmsync_name,
            e,
        ),
{
    if kept_first(items1, sync_name, rmsync_name, e) {
        let i = choose|i: int| kept_at(items1, sync_name, rmsync_name, e, i);
        assert(items1.contains(items1[i]));
        assert(items2.contains(items1[i]));
        let j = choose|j: int| 0 <= j < items2.len() && items2[j] == items1[i];
        assert(kept_at(items2, sync_name, rmsync_name, e, j)) by {
            assert forall|j2: int| 0 <= j2 < j implies !(keep_file(
                #[trigger] items2[j2],
                sync_name,
                rmsync_name,
            ) && items2[j2].path == e.path) by {
                if keep_file(items2[j2], sync_name, rmsync_name) && items2[j2].path == e.path {
                    assert(keep_file(items2[j], sync_name, rmsync_name));
                    assert(items2[j].path == e.path);
                }
            }
        }
    }
}

/// Build a manifest from the items a directory walk reported.
///
/// Housekeeping names are left out, a path is recorded at most once (the
/// first kept occurrence decides), entries and folders come out sorted by
/// path, and the metadata is blank.
pub fn build_manifest(items: &Vec<ScanItem>, sync_name: &String, rmsync_name: &String) -> (m:
    Manifest)
    ensures
        scan_result(item_views(items@), sync_name@, rmsync_name@, m@),
        crate::manifest::manifest_wf(m@),
{
    let ghost itemsv = item_views(items@);
    let ghost sync = sync_name@;
    let ghost rm = rmsync_name@;
    let n = items.len();
    let mut files: Vec<FileEntry> = Vec::new();
    let mut folders: Vec<String> = Vec::new();
    let mut k: usize = 0;
    proof {
        assert(entry_views(files@) =~= Seq::<EntryV>::empty());
        assert(itemsv.take(0) =~= Seq::<ItemV>::empty());
    }
    while k < n
        invariant
            k <= n,
            n == items.len(),
            itemsv == item_views(items@),
            sync == sync_name@,
            rm == rmsync_name@,
            itemsv.len() == n,
            entries_sorted(entry_views(files@)),
            strs_sorted(folders@),
            forall|e: EntryV| #[trigger] entry_views(files@).contains(e) <==> kept_first(
                itemsv.take(k as int),
                sync,
                rm,
                e,
            ),
            forall|f: Seq<char>| #[trigger] seq_contains_str(folders@, f) <==> folder_listed(
                itemsv.take(k as int),
                f,
            ),
        decreases n - k,
    {
        let ghost pre = itemsv.take(k as int);
        let ghost post = itemsv.take(k + 1);
        proof {
            assert(itemsv[k as int] == items@[k as int]@);
            assert(post.drop_last() =~= pre);
            assert(post.last() == itemsv[k as int]);
        }
        let it = &items[k];
        if it.is_dir {
            insert_sorted_unique(&mut folders, &it.path);
            proof {
                assert forall|e: EntryV| kept_first(post, sync, rm, e) <==> kept_first(
                    pre,
                    sync,
                    rm,
                    e,
                ) by {
                    if kept_first(post, sync, rm, e) {
                        let i = choose|i: int| kept_at(post, sync, rm, e, i);
                        assert(i < k);
                        assert(kept_at(pre, sync, rm, e, i));
                    }
                    if kept_first(pre, sync, rm, e) {
                        let i = choose|i: int| kept_at(pre, sync, rm, e, i);
                        assert(kept_at(post, sync, rm, e, i));
                    }
                }
                assert forall|f: Seq<char>| #[trigger] seq_contains_str(folders@, f)
                    <==> folder_listed(post, f) by {
                    if seq_contains_str(folders@, f) {
                        if f == it@.path {
                            assert(post[k as int].is_dir && post[k as int].path == f);
                        } else {
                            assert(folder_listed(pre, f));
                            let i = choose|i: int|
                                0 <= i < pre.len() && (#[trigger] pre[i]).is_dir && pre[i].path
                                    == f;
                            assert(post[i].is_dir && post[i].path == f);
                        }
                    }
                    if folder_listed(post, f) {
                        let i = choose|i: int|
                            0 <= i < post.len() && (#[trigger] post[i]).is_dir && post[i].path
                                == f;
                        if i < k {
                            assert(pre[i].is_dir && pre[i].path == f);
                            assert(folder_listed(pre, f));
                        } else {
                            assert(f == it@.path);
                        }
                    }
                }
            }
        } else {
            let excl = is_excluded_name(&it.name, sync_name, rmsync_name);
            if !excl {
                let e = FileEntry::new(it.name.clone(), it.path.clone(), it.fingerprint.clone());
                proof {
                    assert(e@ == item_entry(itemsv[k as int]));
                    assert(keep_file(itemsv[k as int], sync, rm));
                }
                let ghost oldfv = entry_views(files@);
                insert_entry_sorted(&mut files, e);
                proof {
                    let newfv = entry_views(files@);
                    if seq_has_path(oldfv, e@.path) {
                        let w = choose|i: int|
                            0 <= i < oldfv.len() && oldfv[i].path == e@.path;
                        assert(oldfv.contains(oldfv[w]));
                        assert(kept_first(pre, sync, rm, oldfv[w]));
                        let wi = choose|i: int| kept_at(pre, sync, rm, oldfv[w], i);
                        assert forall|x: EntryV| #[trigger] newfv.contains(x) <==> kept_first(
                            post,
                            sync,
                            rm,
                            x,
                        ) by {
                            if newfv.contains(x) {
                                assert(kept_first(pre, sync, rm, x));
                                let i = choose|i: int| kept_at(pre, sync, rm, x, i);
                                assert(kept_at(post, sync, rm, x, i));
                            }
                            if kept_first(post, sync, rm, x) {
                                let i = choose|i: int| kept_at(post, sync, rm, x, i);
                                if i < k {
                                    assert(kept_at(pre, sync, rm, x, i));
                                } else {
                                    assert(i == k);
                                    assert(x.path == e@.path);
                                    assert(keep_file(pre[wi], sync, rm) && pre[wi].path
                                        == x.path);
                                    assert(post[wi] == pre[wi]);
                                    assert(false);
                                }
                            }
                        }
                    } else {
                        assert forall|x: EntryV| #[trigger] newfv.contains(x) <==> kept_first(
                            post,
                            sync,
                            rm,
                            x,
                        ) by {
                            if newfv.contains(x) {
                                if x == e@ {
                                    assert(kept_at(post, sync, rm, x, k as int)) by {
                                        assert forall|j: int| 0 <= j < k implies !(keep_file(
                                            #[trigger] post[j],
                                            sync,
                                            rm,
                                        ) && post[j].path == x.path) by {
                                            if keep_file(post[j], sync, rm) && post[j].path
                                                == x.path {
                                                assert(pre[j] == post[j]);
                                                lemma_first_kept_exists(pre, sync, rm, j);
                                                let e2 = choose|e2: EntryV|
                                                    #[trigger] kept_first(pre, sync, rm, e2)
                                                        && e2.path == pre[j].path;
                                                assert(oldfv.contains(e2));
                                                let i2 = choose|i2: int|
                                                    0 <= i2 < oldfv.len() && oldfv[i2] == e2;
                                                assert(oldfv[i2].path == e@.path);
                                                assert(seq_has_path(oldfv, e@.path));
                                            }
                                        }
                                    }
                                } else {
                                    assert(oldfv.contains(x));
                                    assert(kept_first(pre, sync, rm, x));
                                    let i = choose|i: int| kept_at(pre, sync, rm, x, i);
                                    assert(kept_at(post, sync, rm, x, i));
                                }
                            }
                            if kept_first(post, sync, rm, x) {
                                let i = choose|i: int| kept_at(post, sync, rm, x, i);
                                if i < k {
                                    assert(kept_at(pre, sync, rm, x, i));
                                    assert(oldfv.contains(x));
                                } else {
                                    assert(x == e@);
                                }
                            }
                        }
                    }
                    assert forall|f: Seq<char>| #[trigger] seq_contains_str(folders@, f)
                        <==> folder_listed(post, f) by {
                        if seq_contains_str(folders@, f) {
                            assert(folder_listed(pre, f));
                            let i = choose|i: int|
                                0 <= i < pre.len() && (#[trigger] pre[i]).is_dir && pre[i].path
                                    == f;
                            assert(post[i].is_dir && post[i].path == f);
                        }
                        if folder_listed(post, f) {
                            let i = choose|i: int|
                                0 <= i < post.len() && (#[trigger] post[i]).is_dir
                                    && post[i].path == f;
                            assert(i < k);
                            assert(pre[i].is_dir && pre[i].path == f);
                        }
                    }
                }
            } else {
                proof {
                    assert(!keep_file(itemsv[k as int], sync, rm));
                    assert forall|e: EntryV| #[trigger] entry_views(files@).contains(e)
                        <==> kept_first(post, sync, rm, e) by {
                        if entry_views(files@).contains(e) {
                            let i = choose|i: int| kept_at(pre, sync, rm, e, i);
                            assert(kept_at(post, sync, rm, e, i));
                        }
                        if kept_first(post, sync, rm, e) {
                            let i = choose|i: int| kept_at(post, sync, rm, e, i);
                            assert(i < k);
                            assert(kept_at(pre, sync, rm, e, i));
                        }
                    }
                    assert forall|f: Seq<char>| #[trigger] seq_contains_str(folders@, f)
                        <==> folder_listed(post, f) by {
                        if seq_contains_str(folders@, f) {
                            let i = choose|i: int|
                                0 <= i < pre.len() && (#[trigger] pre[i]).is_dir && pre[i].path
                                    == f;
                            assert(post[i].is_dir && post[i].path == f);
                        }
                        if folder_listed(post, f) {
                            let i = choose|i: int|
                                0 <= i < post.len() && (#[trigger] post[i]).is_dir
                                    && post[i].path == f;
                            assert(i < k);
                            assert(pre[i].is_dir && pre[i].path == f);
                        }
                    }
                }
            }
        }
        k = k + 1;
    }
    proof {
        assert(itemsv.take(n as int) =~= itemsv);
    }
    let m = Manifest { files, folders, msg: String::new(), author: String::new() };
    proof {
        assert forall|f: Seq<char>| #[trigger] m@.folders.contains(f) <==> folder_listed(
            itemsv,
            f,
        ) by {
            if m@.folders.contains(f) {
                let i = choose|i: int| 0 <= i < m@.folders.len() && m@.folders[i] == f;
                assert(m.folders@[i]@ == f);
                assert(seq_contains_str(m.folders@, f));
            }
            if folder_listed(itemsv, f) {
                assert(seq_contains_str(m.folders@, f));
                let i = choose|i: int| 0 <= i < m.folders@.len() && m.folders@[i]@ == f;
                assert(m@.folders[i] == f);
            }
        }
        assert forall|i: int, j: int| 0 <= i < j < m@.folders.len() implies lex_lt(
            m@.folders[i],
            m@.folders[j],
        ) by {
            assert(m@.folders[i] == m.folders@[i]@ && m@.folders[j] == m.folders@[j]@);
        }
        crate::manifest::lemma_sorted_manifest_wf(m@);
    }
    m
}

} // verus!
