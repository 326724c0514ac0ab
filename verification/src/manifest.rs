//! Manifests: snapshots of a file tree.
//!
//! A manifest records, for one view of the project (working directory,
//! persisted baseline, or remote store), the files with their content
//! fingerprints, the known subdirectories, and free-text metadata.  A file
//! is identified by its relative path; a well-formed manifest never holds
//! two entries for the same path.

use vstd::prelude::*;
use crate::order::lex_lt;

verus! {

/// One file known to a manifest: display name, relative path, and the
/// fingerprint of its contents.
pub struct FileEntry {
    pub name: String,
    pub path: String,
    pub sha256: String,
}

/// The mathematical value of a [`FileEntry`]: its three strings as
/// character sequences.
pub struct EntryV {
    pub name: Seq<char>,
    pub path: Seq<char>,
    pub sha256: Seq<char>,
}

impl View for FileEntry {
    type V = EntryV;

    open spec fn view(&self) -> EntryV {
        EntryV { name: self.name@, path: self.path@, sha256: self.sha256@ }
    }
}

impl FileEntry {
    pub fn new(name: String, path: String, sha256: String) -> (e: FileEntry)
        ensures
            e@ == (EntryV { name: name@, path: path@, sha256: sha256@ }),
    {
        FileEntry { name, path, sha256 }
    }

    /// A copy of the entry, field for field.
    pub fn duplicate(&self) -> (e: FileEntry)
        ensures
            e@ == self@,
    {
        FileEntry {
            name: self.name.clone(),
            path: self.path.clone(),
            sha256: self.sha256.clone(),
        }
    }
}

/// A snapshot of a file tree: file entries, known subdirectories, and the
/// free-text message and author recorded at the last synchronization.
pub struct Manifest {
    pub files: Vec<FileEntry>,
    pub folders: Vec<String>,
    pub msg: String,
    pub author: String,
}

/// The mathematical value of a [`Manifest`].
pub struct ManifestV {
    pub files: Seq<EntryV>,
    pub folders: Seq<Seq<char>>,
    pub msg: Seq<char>,
    pub author: Seq<char>,
}

/// The views of a sequence of file entries.
pub open spec fn entry_views(files: Seq<FileEntry>) -> Seq<EntryV> {
    files.map_values(|e: FileEntry| e@)
}

/// The views of a sequence of strings.
pub open spec fn str_views(v: Seq<String>) -> Seq<Seq<char>> {
    v.map_values(|s: String| s@)
}

impl View for Manifest {
    type V = ManifestV;

    open spec fn view(&self) -> ManifestV {
        ManifestV {
            files: entry_views(self.files@),
            folders: str_views(self.folders@),
            msg: self.msg@,
            author: self.author@,
        }
    }
}

/// The entry for path `p`, if any; the first match decides.
pub open spec fn lookup_entry(files: Seq<EntryV>, p: Seq<char>) -> Option<EntryV>
    decreases files.len(),
{
    if files.len() == 0 {
        None
    } else if files.first().path == p {
        Some(files.first())
    } else {
        lookup_entry(files.drop_first(), p)
    }
}

/// The fingerprint recorded for path `p`, if any.
pub open spec fn lookup_fp(files: Seq<EntryV>, p: Seq<char>) -> Option<Seq<char>> {
    match lookup_entry(files, p) {
        Some(e) => Some(e.sha256),
        None => None,
    }
}

/// No two entries share a path.
pub open spec fn paths_unique(files: Seq<EntryV>) -> bool {
    forall|i: int, j: int| 0 <= i < j < files.len() ==> files[i].path != files[j].path
}

/// Entries in strictly ascending path order (which implies unique paths).
pub open spec fn entries_sorted(files: Seq<EntryV>) -> bool {
    forall|i: int, j: int| 0 <= i < j < files.len() ==> lex_lt(files[i].path, files[j].path)
}

/// Folder paths in strictly ascending order.
pub open spec fn folders_sorted(folders: Seq<Seq<char>>) -> bool {
    forall|i: int, j: int| 0 <= i < j < folders.len() ==> lex_lt(folders[i], folders[j])
}

/// A well-formed manifest: unique file paths and unique folder paths.
pub open spec fn manifest_wf(m: ManifestV) -> bool {
    &&& paths_unique(m.files)
    &&& forall|i: int, j: int| 0 <= i < j < m.folders.len() ==> m.folders[i] != m.folders[j]
}

/// Strictly sorted entries and folders make a well-formed manifest.
pub proof fn lemma_sorted_manifest_wf(m: ManifestV)
    requires
        entries_sorted(m.files),
        folders_sorted(m.folders),
    ensures
        manifest_wf(m),
{
    assert forall|i: int, j: int| 0 <= i < j < m.files.len() implies m.files[i].path
        != m.files[j].path by {
        assert(lex_lt(m.files[i].path, m.files[j].path));
    }
    assert forall|i: int, j: int| 0 <= i < j < m.folders.len() implies m.folders[i]
        != m.folders[j] by {
        assert(lex_lt(m.folders[i], m.folders[j]));
    }
}

/// A lookup in a prefix-free region can start anywhere in it.
pub proof fn lemma_lookup_skip(files: Seq<EntryV>, p: Seq<char>, i: int)
    requires
        0 <= i <= files.len(),
        forall|j: int| 0 <= j < i ==> files[j].path != p,
    ensures
        lookup_entry(files, p) == lookup_entry(files.skip(i), p),
    decreases i,
{
    if i == 0 {
        assert(files.skip(0) =~= files);
    } else {
        assert(files.len() > 0);
        assert(files.first().path != p);
        lemma_lookup_skip(files.drop_first(), p, i - 1);
        assert(files.drop_first() =~= files.skip(1));
        assert(files.skip(1).skip(i - 1) =~= files.skip(i));
    }
}

/// A path has an entry exactly when some index carries it.
pub proof fn lemma_lookup_exists(files: Seq<EntryV>, p: Seq<char>)
    ensures
        lookup_entry(files, p) is Some <==> exists|i: int|
            0 <= i < files.len() && files[i].path == p,
        lookup_entry(files, p) is Some ==> files.contains(lookup_entry(files, p)->Some_0)
            && lookup_entry(files, p)->Some_0.path == p,
    decreases files.len(),
{
    if files.len() > 0 {
        lemma_lookup_exists(files.drop_first(), p);
        if files.first().path == p {
            assert(files[0].path == p);
        } else {
            if lookup_entry(files.drop_first(), p) is Some {
                let e = lookup_entry(files.drop_first(), p)->Some_0;
                assert(files.drop_first().contains(e));
                let k = choose|k: int|
                    0 <= k < files.drop_first().len() && files.drop_first()[k] == e;
                assert(files[k + 1] == e);
            }
            if exists|i: int| 0 <= i < files.len() && files[i].path == p {
                let i = choose|i: int| 0 <= i < files.len() && files[i].path == p;
                assert(i > 0);
                assert(files.drop_first()[i - 1].path == p);
            }
        }
    }
}

/// Appending an entry only answers lookups that nothing before it answers.
pub proof fn lemma_lookup_push(files: Seq<EntryV>, e: EntryV, p: Seq<char>)
    ensures
        lookup_entry(files.push(e), p) == (if lookup_entry(files, p) is Some {
            lookup_entry(files, p)
        } else if e.path == p {
            Some(e)
        } else {
            None
        }),
    decreases files.len(),
{
    if files.len() == 0 {
        assert(files.push(e).first() == e);
        assert(files.push(e).drop_first() =~= Seq::<EntryV>::empty());
    } else {
        assert(files.push(e).first() == files.first());
        assert(files.push(e).drop_first() =~= files.drop_first().push(e));
        lemma_lookup_push(files.drop_first(), e, p);
    }
}

impl Manifest {
    /// A fresh manifest with no files, no folders, and blank metadata.
    pub fn empty() -> (m: Manifest)
        ensures
            m@.files.len() == 0,
            m@.folders.len() == 0,
            m@.msg.len() == 0,
            m@.author.len() == 0,
            manifest_wf(m@),
    {
        let m = Manifest { files: Vec::new(), folders: Vec::new(), msg: String::new(), author: String::new() };
        proof {
            assert(m@.files =~= Seq::<EntryV>::empty());
            assert(m@.folders =~= Seq::<Seq<char>>::empty());
        }
        m
    }

    /// Look up the entry recorded for a relative path.
    pub fn lookup(&self, p: &String) -> (r: Option<&FileEntry>)
        ensures
            match r {
                Some(e) => lookup_entry(self@.files, p@) == Some(e@),
                None => lookup_entry(self@.files, p@) is None,
            },
    {
        let n = self.files.len();
        let mut i: usize = 0;
        while i < n
            invariant
                i <= n,
                n == self.files.len(),
                forall|j: int| 0 <= j < i ==> self@.files[j].path != p@,
            decreases n - i,
        {
            if self.files[i].path == *p {
                proof {
                    lemma_lookup_skip(self@.files, p@, i as int);
                    assert(self@.files.skip(i as int).first() == self@.files[i as int]);
                }
                return Some(&self.files[i]);
            }
            i = i + 1;
        }
        proof {
            lemma_lookup_skip(self@.files, p@, n as int);
            assert(self@.files.skip(n as int) =~= Seq::<EntryV>::empty());
        }
        None
    }

    /// Whether the manifest knows a folder with this relative path.
    pub fn has_folder(&self, p: &String) -> (r: bool)
        ensures
            r == self@.folders.contains(p@),
    {
        let n = self.folders.len();
        let mut i: usize = 0;
        while i < n
            invariant
                i <= n,
                n == self.folders.len(),
                forall|j: int| 0 <= j < i ==> self@.folders[j] != p@,
            decreases n - i,
        {
            if self.folders[i] == *p {
                assert(self@.folders[i as int] == p@);
                return true;
            }
            i = i + 1;
        }
        false
    }
}

} // verus!
