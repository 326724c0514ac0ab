//! Lexicographic ordering of character sequences.
//!
//! Manifests keep their entries sorted by relative path so that a scan of
//! a fixed tree always produces the same manifest no matter in which order
//! the walk visited the files.  This module defines the order, proves that
//! it is total, and gives the executable comparison on `&str`.

use vstd::prelude::*;
use vstd::string::StrSliceExecFns;

verus! {

/// Lexicographic "less or equal" on character sequences, comparing code
/// points from the front; a proper prefix comes first.
pub open spec fn lex_le(a: Seq<char>, b: Seq<char>) -> bool
    decreases a.len(),
{
    if a.len() == 0 {
        true
    } else if b.len() == 0 {
        false
    } else if a.first() as u32 != b.first() as u32 {
        (a.first() as u32) < (b.first() as u32)
    } else {
        lex_le(a.drop_first(), b.drop_first())
    }
}

/// Strict lexicographic order.
pub open spec fn lex_lt(a: Seq<char>, b: Seq<char>) -> bool {
    lex_le(a, b) && a != b
}

pub proof fn lemma_lex_le_reflexive(a: Seq<char>)
    ensures
        lex_le(a, a),
    decreases a.len(),
{
    if a.len() > 0 {
        lemma_lex_le_reflexive(a.drop_first());
    }
}

pub proof fn lemma_lex_le_total(a: Seq<char>, b: Seq<char>)
    ensures
        lex_le(a, b) || lex_le(b, a),
    decreases a.len(),
{
    if a.len() > 0 && b.len() > 0 && a.first() as u32 == b.first() as u32 {
        lemma_lex_le_total(a.drop_first(), b.drop_first());
    }
}

pub proof fn lemma_lex_le_antisymmetric(a: Seq<char>, b: Seq<char>)
    requires
        lex_le(a, b),
        lex_le(b, a),
    ensures
        a == b,
    decreases a.len(),
{
    if a.len() == 0 {
        assert(b.len() == 0);
        assert(a =~= b);
    } else {
        assert(b.len() > 0);
        if a.first() as u32 != b.first() as u32 {
            assert(lex_le(a, b) == ((a.first() as u32) < (b.first() as u32)));
            assert(lex_le(b, a) == ((b.first() as u32) < (a.first() as u32)));
            assert(false);
        }
        vstd::utf8::char_u32_cast(a.first(), a.first() as u32);
        vstd::utf8::char_u32_cast(b.first(), b.first() as u32);
        assert(a.first() == b.first());
        lemma_lex_le_antisymmetric(a.drop_first(), b.drop_first());
        assert(a =~= seq![a.first()] + a.drop_first());
        assert(b =~= seq![b.first()] + b.drop_first());
    }
}

pub proof fn lemma_lex_le_transitive(a: Seq<char>, b: Seq<char>, c: Seq<char>)
    requires
        lex_le(a, b),
        lex_le(b, c),
    ensures
        lex_le(a, c),
    decreases a.len(),
{
    if a.len() > 0 && b.len() > 0 && c.len() > 0 {
        if a.first() as u32 == b.first() as u32 && b.first() as u32 == c.first() as u32 {
            lemma_lex_le_transitive(a.drop_first(), b.drop_first(), c.drop_first());
        }
    }
}

/// Of two distinct sequences, exactly one strictly precedes the other.
pub proof fn lemma_lex_trichotomy(a: Seq<char>, b: Seq<char>)
    ensures
        a == b || (lex_lt(a, b) <==> !lex_lt(b, a)),
{
    lemma_lex_le_total(a, b);
    if lex_le(a, b) && lex_le(b, a) {
        lemma_lex_le_antisymmetric(a, b);
    }
}

pub proof fn lemma_lex_lt_transitive(a: Seq<char>, b: Seq<char>, c: Seq<char>)
    requires
        lex_lt(a, b),
        lex_lt(b, c),
    ensures
        lex_lt(a, c),
{
    lemma_lex_le_transitive(a, b, c);
    if a == c {
        lemma_lex_le_antisymmetric(a, b);
    }
}

/// If the first `i` characters agree, the order is decided by the rest.
proof fn lemma_lex_le_common_prefix(a: Seq<char>, b: Seq<char>, i: int)
    requires
        0 <= i <= a.len(),
        i <= b.len(),
        forall|j: int| 0 <= j < i ==> a[j] == b[j],
    ensures
        lex_le(a, b) == lex_le(a.skip(i), b.skip(i)),
    decreases i,
{
    if i == 0 {
        assert(a.skip(0) =~= a);
        assert(b.skip(0) =~= b);
    } else {
        assert(a.len() > 0 && b.len() > 0);
        assert(a.first() == b.first());
        assert(a.drop_first() =~= a.skip(1));
        assert(b.drop_first() =~= b.skip(1));
        lemma_lex_le_common_prefix(a.skip(1), b.skip(1), i - 1);
        assert(a.skip(1).skip(i - 1) =~= a.skip(i));
        assert(b.skip(1).skip(i - 1) =~= b.skip(i));
    }
}

/// Executable lexicographic comparison of two strings.
pub fn str_le(a: &str, b: &str) -> (r: bool)
    ensures
        r == lex_le(a@, b@),
{
    let alen = a.unicode_len();
    let blen = b.unicode_len();
    let mut i: usize = 0;
    loop
        invariant
            i <= alen,
            i <= blen,
            alen == a@.len(),
            blen == b@.len(),
            forall|j: int| 0 <= j < i ==> a@[j] == b@[j],
        decreases alen - i,
    {
        proof {
            lemma_lex_le_common_prefix(a@, b@, i as int);
        }
        if i >= alen {
            assert(a@.skip(i as int) =~= Seq::<char>::empty());
            return true;
        }
        if i >= blen {
            assert(b@.skip(i as int) =~= Seq::<char>::empty());
            return false;
        }
        let ca = a.get_char(i);
        let cb = b.get_char(i);
        assert(a@.skip(i as int).first() == a@[i as int]);
        assert(b@.skip(i as int).first() == b@[i as int]);
        if (ca as u32) != (cb as u32) {
            return (ca as u32) < (cb as u32);
        }
        assert(a@.skip(i as int).drop_first() =~= a@.skip(i + 1));
        assert(b@.skip(i as int).drop_first() =~= b@.skip(i + 1));
        proof {
            vstd::utf8::char_u32_cast(ca, ca as u32);
            vstd::utf8::char_u32_cast(cb, cb as u32);
        }
        i = i + 1;
    }
}

/// Executable equality of two strings, stated over their views.
pub fn str_eq(a: &str, b: &str) -> (r: bool)
    ensures
        r == (a@ == b@),
{
    let ra = str_le(a, b);
    let rb = str_le(b, a);
    proof {
        if ra && rb {
            lemma_lex_le_antisymmetric(a@, b@);
        }
        if a@ == b@ {
            lemma_lex_le_reflexive(a@);
        }
    }
    ra && rb
}

/// Whether some string in the sequence reads `q`.
pub open spec fn seq_contains_str(v: Seq<String>, q: Seq<char>) -> bool {
    exists|i: int| 0 <= i < v.len() && v[i]@ == q
}

/// Strings in strictly ascending lexicographic order.
pub open spec fn strs_sorted(v: Seq<String>) -> bool {
    forall|i: int, j: int| 0 <= i < j < v.len() ==> lex_lt(v[i]@, v[j]@)
}

/// Appending a string extends the membership by exactly its reading.
pub proof fn lemma_contains_str_push(v: Seq<String>, x: String, q: Seq<char>)
    ensures
        seq_contains_str(v.push(x), q) == (seq_contains_str(v, q) || x@ == q),
{
    if seq_contains_str(v.push(x), q) {
        let i = choose|i: int| 0 <= i < v.push(x).len() && v.push(x)[i]@ == q;
        if i < v.len() {
            assert(v[i]@ == q);
        }
    }
    if seq_contains_str(v, q) {
        let i = choose|i: int| 0 <= i < v.len() && v[i]@ == q;
        assert(v.push(x)[i]@ == q);
    }
    if x@ == q {
        assert(v.push(x)[v.len() as int]@ == q);
    }
}

/// Membership among the views equals membership among the strings.
pub proof fn lemma_str_views_contains(v: Seq<String>, q: Seq<char>)
    ensures
        crate::manifest::str_views(v).contains(q) == seq_contains_str(v, q),
{
    let vs = crate::manifest::str_views(v);
    if vs.contains(q) {
        let i = choose|i: int| 0 <= i < vs.len() && vs[i] == q;
        assert(v[i]@ == q);
    }
    if seq_contains_str(v, q) {
        let i = choose|i: int| 0 <= i < v.len() && v[i]@ == q;
        assert(vs[i] == q);
    }
}

/// Relies on String::push: appends the character to the end of the string.
#[verifier::external_body]
pub fn push_char(s: &mut String, c: char)
    ensures
        final(s)@ == old(s)@ + seq![c],
{
    s.push(c);
}

/// Whether the vector holds a string reading `p`.
pub fn contains_str(v: &Vec<String>, p: &String) -> (r: bool)
    ensures
        r == seq_contains_str(v@, p@),
{
    let n = v.len();
    let mut i: usize = 0;
    while i < n
        invariant
            i <= n,
            n == v.len(),
            forall|j: int| 0 <= j < i ==> v@[j]@ != p@,
        decreases n - i,
    {
        if v[i] == *p {
            assert(v@[i as int]@ == p@);
            return true;
        }
        i = i + 1;
    }
    false
}

/// Insert a path into a sorted vector of distinct paths, keeping it
/// sorted; a path already present is not duplicated.
pub fn insert_sorted_unique(v: &mut Vec<String>, p: &String)
    requires
        strs_sorted(old(v)@),
    ensures
        strs_sorted(final(v)@),
        forall|q: Seq<char>| #[trigger] seq_contains_str(final(v)@, q) <==> (seq_contains_str(
            old(v)@,
            q,
        ) || q == p@),
{
    let n = v.len();
    let mut j: usize = 0;
    loop
        invariant
            j <= n,
            n == v.len(),
            strs_sorted(v@),
            forall|k: int| 0 <= k < j ==> lex_lt(v@[k]@, p@),
        ensures
            j <= n,
            n == v.len(),
            strs_sorted(v@),
            forall|k: int| 0 <= k < j ==> lex_lt(v@[k]@, p@),
            j < n ==> !lex_le(v@[j as int]@, p@),
        decreases n - j,
    {
        if j >= n {
            break ;
        }
        let le = str_le(v[j].as_str(), p.as_str());
        let eq = v[j] == *p;
        if eq {
            proof {
                assert(v@[j as int]@ == p@);
                assert(seq_contains_str(v@, p@));
                assert forall|q: Seq<char>| seq_contains_str(v@, q) <==> (seq_contains_str(
                    v@,
                    q,
                ) || q == p@) by {
                    if q == p@ {
                        assert(v@[j as int]@ == q);
                    }
                }
            }
            return ;
        }
        if !le {
            break ;
        }
        proof {
            assert(lex_lt(v@[j as int]@, p@));
        }
        j = j + 1;
    }
    proof {
        if j < n {
            lemma_lex_le_reflexive(p@);
            assert(v@[j as int]@ != p@);
            lemma_lex_trichotomy(v@[j as int]@, p@);
            assert(lex_lt(p@, v@[j as int]@));
        }
    }
    let ghost oldv = v@;
    v.insert(j, p.clone());
    proof {
        assert(v@ =~= oldv.insert(j as int, *p));
        assert forall|i: int, k: int| 0 <= i < k < v@.len() implies lex_lt(v@[i]@, v@[k]@) by {
            if i < j && k > j {
                assert(v@[i] == oldv[i]);
                assert(v@[k] == oldv[k - 1]);
            } else if i == j {
                assert(v@[i] == *p);
                assert(v@[k] == oldv[k - 1]);
                if k - 1 > j as int {
                    lemma_lex_lt_transitive(p@, oldv[j as int]@, oldv[k - 1]@);
                }
            } else if k == j {
                assert(v@[i] == oldv[i]);
                assert(v@[k] == *p);
            } else if i < j && k < j {
                assert(v@[i] == oldv[i] && v@[k] == oldv[k]);
            } else {
                assert(v@[i] == oldv[i - 1] && v@[k] == oldv[k - 1]);
                if i - 1 < j as int && k - 1 > j as int {
                } else if i - 1 == j as int {
                    lemma_lex_lt_transitive(p@, oldv[j as int]@, oldv[k - 1]@);
                }
            }
        }
        assert forall|q: Seq<char>| #[trigger] seq_contains_str(v@, q) implies (seq_contains_str(
            oldv,
            q,
        ) || q == p@) by {
            let i = choose|i: int| 0 <= i < v@.len() && v@[i]@ == q;
            if i < j {
                assert(oldv[i]@ == q);
            } else if i > j {
                assert(oldv[i - 1]@ == q);
            }
        }
        assert forall|q: Seq<char>| (seq_contains_str(oldv, q) || q == p@)
            implies #[trigger] seq_contains_str(v@, q) by {
            if q == p@ {
                assert(v@[j as int]@ == q);
            } else {
                let i = choose|i: int| 0 <= i < oldv.len() && oldv[i]@ == q;
                if i < j {
                    assert(v@[i]@ == q);
                } else {
                    assert(v@[i + 1]@ == q);
                }
            }
        }
    }
}


} // verus!
