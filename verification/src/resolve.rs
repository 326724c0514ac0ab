//! Remote folder resolution.
//!
//! The remote store addresses objects by an identifier and knows only
//! "the object named N under parent P", so placing a file at a relative
//! path means walking its path components and finding or creating one
//! folder per component.  The queries themselves are input/output and
//! happen outside this crate; this module holds the decisions: how a
//! relative path splits into components, which ancestor folders a
//! transfer must ensure exist and in which order, and the memo of
//! already-resolved folders that spares repeated queries for shared
//! parents within one batch.

use vstd::prelude::*;
use crate::order::push_char;
use vstd::string::{StrSliceExecFns, StringExecFns};

verus! {

/// The non-empty pieces of `s` between `/` separators, collected onto the
/// piece read so far.
pub open spec fn split_acc(s: Seq<char>, acc: Seq<char>) -> Seq<Seq<char>>
    decreases s.len(),
{
    if s.len() == 0 {
        if acc.len() == 0 {
            Seq::<Seq<char>>::empty()
        } else {
            seq![acc]
        }
    } else if s.first() == '/' {
        (if acc.len() == 0 {
            Seq::<Seq<char>>::empty()
        } else {
            seq![acc]
        }) + split_acc(s.drop_first(), Seq::<char>::empty())
    } else {
        split_acc(s.drop_first(), acc.push(s.first()))
    }
}

/// The components of a relative path: its non-empty pieces between `/`
/// separators.
pub open spec fn components_of(s: Seq<char>) -> Seq<Seq<char>> {
    split_acc(s, Seq::<char>::empty())
}

/// Split a relative path into its components.
pub fn split_path(path: &str) -> (out: Vec<String>)
    ensures
        crate::manifest::str_views(out@) == components_of(path@),
{
    let n = path.unicode_len();
    let mut out: Vec<String> = Vec::new();
    let mut cur = String::new();
    let mut i: usize = 0;
    proof {
        assert(path@.skip(0) =~= path@);
        assert(crate::manifest::str_views(out@) =~= Seq::<Seq<char>>::empty());
        assert(Seq::<Seq<char>>::empty() + components_of(path@) =~= components_of(path@));
    }
    while i < n
        invariant
            i <= n,
            n == path@.len(),
            components_of(path@) == crate::manifest::str_views(out@) + split_acc(
                path@.skip(i as int),
                cur@,
            ),
        decreases n - i,
    {
        let c = path.get_char(i);
        let ghost s = path@.skip(i as int);
        proof {
            assert(s.first() == path@[i as int]);
            assert(s.drop_first() =~= path@.skip(i + 1));
        }
        if c == '/' {
            let ghost preout = crate::manifest::str_views(out@);
            if !cur.as_str().is_empty() {
                proof {
                    assert(cur@.len() > 0);
                }
                out.push(cur);
                cur = String::new();
                proof {
                    assert(cur@ =~= Seq::<char>::empty());
                    assert(crate::manifest::str_views(out@) =~= preout + seq![
                        out@[out@.len() - 1]@,
                    ]);
                    assert((preout + seq![out@[out@.len() - 1]@]) + split_acc(
                        path@.skip(i + 1),
                        cur@,
                    ) =~= preout + (seq![out@[out@.len() - 1]@] + split_acc(
                        path@.skip(i + 1),
                        cur@,
                    )));
                }
            } else {
                proof {
                    assert(cur@ =~= Seq::<char>::empty());
                    assert(Seq::<Seq<char>>::empty() + split_acc(
                        path@.skip(i + 1),
                        Seq::<char>::empty(),
                    ) =~= split_acc(path@.skip(i + 1), Seq::<char>::empty()));
                }
            }
        } else {
            let ghost precur = cur@;
            push_char(&mut cur, c);
            proof {
                assert(cur@ =~= precur.push(c));
            }
        }
        i = i + 1;
    }
    proof {
        assert(path@.skip(n as int) =~= Seq::<char>::empty());
    }
    if !cur.as_str().is_empty() {
        let ghost preout = crate::manifest::str_views(out@);
        proof {
            assert(cur@.len() > 0);
        }
        out.push(cur);
        proof {
            assert(crate::manifest::str_views(out@) =~= preout + seq![out@[out@.len() - 1]@]);
        }
    } else {
        proof {
            assert(cur@.len() == 0);
            assert(crate::manifest::str_views(out@) + Seq::<Seq<char>>::empty()
                =~= crate::manifest::str_views(out@));
        }
    }
    out
}

/// The components joined with `/` separators.
pub open spec fn joined(cs: Seq<Seq<char>>) -> Seq<char>
    decreases cs.len(),
{
    if cs.len() == 0 {
        Seq::<char>::empty()
    } else if cs.len() == 1 {
        cs[0]
    } else {
        joined(cs.drop_last()) + seq!['/'] + cs.last()
    }
}

/// The ancestor folder paths a file at this relative path needs, nearest
/// the root first: the joins of the proper prefixes of its components.
pub open spec fn spec_parent_prefixes(cs: Seq<Seq<char>>) -> Seq<Seq<char>> {
    if cs.len() == 0 {
        Seq::<Seq<char>>::empty()
    } else {
        Seq::new((cs.len() - 1) as nat, |k: int| joined(cs.take(k + 1)))
    }
}

/// The ancestor folders a transfer of `components` must ensure exist, in
/// the order they have to be created.
pub fn parent_prefixes(components: &Vec<String>) -> (out: Vec<String>)
    ensures
        crate::manifest::str_views(out@) == spec_parent_prefixes(
            crate::manifest::str_views(components@),
        ),
{
    let ghost csv = crate::manifest::str_views(components@);
    let mut out: Vec<String> = Vec::new();
    let n = components.len();
    if n == 0 {
        proof {
            assert(crate::manifest::str_views(out@) =~= spec_parent_prefixes(csv));
        }
        return out;
    }
    let mut running: String = components[0].clone();
    proof {
        assert(csv.take(1) =~= seq![csv[0]]);
        assert(joined(csv.take(1)) == csv[0]);
        assert(running@ == joined(csv.take(1)));
    }
    let mut k: usize = 1;
    while k < n
        invariant
            1 <= k <= n,
            n == components.len(),
            csv == crate::manifest::str_views(components@),
            csv.len() == n,
            running@ == joined(csv.take(k as int)),
            crate::manifest::str_views(out@) =~= spec_parent_prefixes(csv).take(k - 1),
        decreases n - k,
    {
        let ghost preout = crate::manifest::str_views(out@);
        let ghost prerun = running@;
        out.push(running.clone());
        running.append("/");
        running.append(components[k].as_str());
        proof {
            assert(csv[k as int] == components@[k as int]@);
            assert(csv.take(k + 1).drop_last() =~= csv.take(k as int));
            assert(csv.take(k + 1).last() == csv[k as int]);
            assert(running@ =~= prerun + "/"@ + csv[k as int]);
            assert("/"@ =~= seq!['/']) by {
                reveal_strlit("/");
            }
            assert(running@ =~= joined(csv.take(k as int)) + seq!['/'] + csv[k as int]);
            assert(running@ == joined(csv.take(k + 1)));
            assert(crate::manifest::str_views(out@) =~= preout + seq![prerun]);
            assert(crate::manifest::str_views(out@) =~= spec_parent_prefixes(csv).take(
                k as int,
            ));
        }
        k = k + 1;
    }
    proof {
        assert(spec_parent_prefixes(csv).take(n - 1) =~= spec_parent_prefixes(csv));
    }
    out
}

/// The identifier memoized for a resolved folder path; the first record
/// decides.
pub open spec fn spec_cache_lookup(
    keys: Seq<Seq<char>>,
    ids: Seq<Seq<char>>,
    k: Seq<char>,
) -> Option<Seq<char>>
    decreases keys.len(),
{
    if keys.len() == 0 || ids.len() == 0 {
        None
    } else if keys.first() == k {
        Some(ids.first())
    } else {
        spec_cache_lookup(keys.drop_first(), ids.drop_first(), k)
    }
}

/// The memo of already-resolved remote folders: each resolved relative
/// folder path with its remote identifier.  One batch shares one cache,
/// so a parent folder common to many transfers is queried once.
pub struct FolderCache {
    keys: Vec<String>,
    ids: Vec<String>,
}

impl View for FolderCache {
    type V = (Seq<Seq<char>>, Seq<Seq<char>>);

    closed spec fn view(&self) -> (Seq<Seq<char>>, Seq<Seq<char>>) {
        (crate::manifest::str_views(self.keys@), crate::manifest::str_views(self.ids@))
    }
}

proof fn lemma_cache_lookup_skip(
    keys: Seq<Seq<char>>,
    ids: Seq<Seq<char>>,
    k: Seq<char>,
    i: int,
)
    requires
        0 <= i <= keys.len(),
        keys.len() == ids.len(),
        forall|j: int| 0 <= j < i ==> keys[j] != k,
    ensures
        spec_cache_lookup(keys, ids, k) == spec_cache_lookup(keys.skip(i), ids.skip(i), k),
    decreases i,
{
    if i == 0 {
        assert(keys.skip(0) =~= keys);
        assert(ids.skip(0) =~= ids);
    } else {
        lemma_cache_lookup_skip(keys.drop_first(), ids.drop_first(), k, i - 1);
        assert(keys.drop_first().skip(i - 1) =~= keys.skip(i));
        assert(ids.drop_first().skip(i - 1) =~= ids.skip(i));
    }
}

proof fn lemma_cache_lookup_push(
    keys: Seq<Seq<char>>,
    ids: Seq<Seq<char>>,
    key: Seq<char>,
    id: Seq<char>,
    k: Seq<char>,
)
    requires
        keys.len() == ids.len(),
    ensures
        spec_cache_lookup(keys.push(key), ids.push(id), k) == (if spec_cache_lookup(
            keys,
            ids,
            k,
        ) is Some {
            spec_cache_lookup(keys, ids, k)
        } else if key == k {
            Some(id)
        } else {
            None
        }),
    decreases keys.len(),
{
    if keys.len() == 0 {
        assert(keys.push(key).first() == key);
        assert(ids.push(id).first() == id);
        assert(keys.push(key).drop_first() =~= Seq::<Seq<char>>::empty());
        assert(ids.push(id).drop_first() =~= Seq::<Seq<char>>::empty());
        assert(spec_cache_lookup(
            Seq::<Seq<char>>::empty(),
            Seq::<Seq<char>>::empty(),
            k,
        ) is None);
        assert(spec_cache_lookup(keys, ids, k) is None);
        if key == k {
            assert(spec_cache_lookup(keys.push(key), ids.push(id), k) == Some(id));
        } else {
            assert(spec_cache_lookup(keys.push(key), ids.push(id), k) is None);
        }
    } else {
        assert(keys.push(key).first() == keys.first());
        assert(ids.push(id).first() == ids.first());
        assert(keys.push(key).drop_first() =~= keys.drop_first().push(key));
        assert(ids.push(id).drop_first() =~= ids.drop_first().push(id));
        lemma_cache_lookup_push(keys.drop_first(), ids.drop_first(), key, id, k);
    }
}

impl FolderCache {
    /// Whether key and identifier rows line up.
    pub open spec fn wf(&self) -> bool {
        self@.0.len() == self@.1.len()
    }

    /// An empty cache: nothing resolved yet.
    pub fn new() -> (c: FolderCache)
        ensures
            c.wf(),
            forall|k: Seq<char>| spec_cache_lookup(c@.0, c@.1, k) is None,
    {
        let c = FolderCache { keys: Vec::new(), ids: Vec::new() };
        proof {
            assert(c@.0 =~= Seq::<Seq<char>>::empty());
            assert(c@.1 =~= Seq::<Seq<char>>::empty());
        }
        c
    }

    /// The memoized identifier for a folder path, if one was recorded.
    pub fn lookup(&self, key: &String) -> (r: Option<&String>)
        requires
            self.wf(),
        ensures
            match r {
                Some(id) => spec_cache_lookup(self@.0, self@.1, key@) == Some(id@),
                None => spec_cache_lookup(self@.0, self@.1, key@) is None,
            },
    {
        let n = self.keys.len();
        let mut i: usize = 0;
        while i < n
            invariant
                i <= n,
                n == self.keys.len(),
                self.wf(),
                n == self.ids.len(),
                forall|j: int| 0 <= j < i ==> self@.0[j] != key@,
            decreases n - i,
        {
            if self.keys[i] == *key {
                proof {
                    lemma_cache_lookup_skip(self@.0, self@.1, key@, i as int);
                    assert(self@.0.skip(i as int).first() == self@.0[i as int]);
                    assert(self@.1.skip(i as int).first() == self@.1[i as int]);
                }
                return Some(&self.ids[i]);
            }
            i = i + 1;
        }
        proof {
            lemma_cache_lookup_skip(self@.0, self@.1, key@, n as int);
            assert(self@.0.skip(n as int) =~= Seq::<Seq<char>>::empty());
        }
        None
    }

    /// Record a freshly resolved folder.  An earlier record for the same
    /// path keeps precedence: recording never rewrites what is resolved.
    pub fn record(&mut self, key: String, id: String)
        requires
            old(self).wf(),
        ensures
            final(self).wf(),
            forall|k: Seq<char>| #[trigger] spec_cache_lookup(final(self)@.0, final(self)@.1, k)
                == (if spec_cache_lookup(old(self)@.0, old(self)@.1, k) is Some {
                spec_cache_lookup(old(self)@.0, old(self)@.1, k)
            } else if k == key@ {
                Some(id@)
            } else {
                None
            }),
    {
        let ghost okeys = self@.0;
        let ghost oids = self@.1;
        let ghost keyv = key@;
        let ghost idv = id@;
        self.keys.push(key);
        self.ids.push(id);
        proof {
            assert(self@.0 =~= okeys.push(keyv));
            assert(self@.1 =~= oids.push(idv));
            assert forall|k: Seq<char>| #[trigger] spec_cache_lookup(self@.0, self@.1, k) == (
            if spec_cache_lookup(okeys, oids, k) is Some {
                spec_cache_lookup(okeys, oids, k)
            } else if k == keyv {
                Some(idv)
            } else {
                None
            }) by {
                lemma_cache_lookup_push(okeys, oids, keyv, idv, k);
            }
        }
    }
}

} // verus!
