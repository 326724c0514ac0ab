//! Content fingerprints.
//!
//! A file's fingerprint is the lower-case hex encoding of the SHA-256
//! digest of its bytes.  The digest itself comes from the `sha2` crate and
//! is only named here; the hex encoding is computed and proved in this
//! module.  Identical bytes always yield identical fingerprints, which is
//! what the classifier relies on to detect changed files.

use sha2::Digest;
use vstd::prelude::*;
use crate::order::push_char;

verus! {

/// The SHA-256 digest of a byte sequence, named but not stated: the digest
/// is a function of the bytes alone.
pub uninterp spec fn sha256_of(bytes: Seq<u8>) -> Seq<u8>;

/// Relies on sha2::Sha256 (via the Digest trait): the digest is 32 bytes
/// and depends on the input bytes alone.
#[verifier::external_body]
fn sha256_digest(bytes: &[u8]) -> (digest: Vec<u8>)
    ensures
        digest@ == sha256_of(bytes@),
        digest@.len() == 32,
{
    sha2::Sha256::digest(bytes).to_vec()
}

/// The sixteen lower-case hex digits.
pub open spec fn hex_digit(v: u8) -> char
    recommends
        v < 16,
{
    seq!['0', '1', '2', '3', '4', '5', '6', '7', '8', '9', 'a', 'b', 'c', 'd', 'e', 'f'][v as int]
}

/// Lower-case hex encoding of a byte sequence: two digits per byte, high
/// nibble first.
pub open spec fn hex_of(bytes: Seq<u8>) -> Seq<char>
    decreases bytes.len(),
{
    if bytes.len() == 0 {
        Seq::<char>::empty()
    } else {
        seq![hex_digit(bytes.first() / 16), hex_digit(bytes.first() % 16)] + hex_of(
            bytes.drop_first(),
        )
    }
}

/// The fingerprint of a byte sequence: the hex encoding of its SHA-256
/// digest.
pub open spec fn fingerprint_of(bytes: Seq<u8>) -> Seq<char> {
    hex_of(sha256_of(bytes))
}

pub proof fn lemma_hex_of_len(bytes: Seq<u8>)
    ensures
        hex_of(bytes).len() == 2 * bytes.len(),
    decreases bytes.len(),
{
    if bytes.len() > 0 {
        lemma_hex_of_len(bytes.drop_first());
    }
}

pub fn hex_digit_char(v: u8) -> (c: char)
    requires
        v < 16,
    ensures
        c == hex_digit(v),
{
    let digits: [char; 16] = [
        '0',
        '1',
        '2',
        '3',
        '4',
        '5',
        '6',
        '7',
        '8',
        '9',
        'a',
        'b',
        'c',
        'd',
        'e',
        'f',
    ];
    digits[v as usize]
}

/// Hex-encode a byte slice, two lower-case digits per byte.
pub fn to_hex(bytes: &[u8]) -> (out: String)
    ensures
        out@ == hex_of(bytes@),
        out@.len() == 2 * bytes@.len(),
{
    let mut out = String::new();
    let mut i: usize = 0;
    proof {
        assert(bytes@.skip(0) =~= bytes@);
        lemma_hex_of_len(bytes@);
    }
    while i < bytes.len()
        invariant
            i <= bytes@.len(),
            hex_of(bytes@) =~= out@ + hex_of(bytes@.skip(i as int)),
            out@.len() == 2 * i,
        decreases bytes@.len() - i,
    {
        let b = bytes[i];
        let hi = b / 16;
        let lo = b % 16;
        push_char(&mut out, hex_digit_char(hi));
        push_char(&mut out, hex_digit_char(lo));
        proof {
            let rest = bytes@.skip(i as int);
            assert(rest.drop_first() =~= bytes@.skip(i + 1));
            assert(hex_of(rest) =~= seq![hex_digit(b / 16), hex_digit(b % 16)] + hex_of(
                bytes@.skip(i + 1),
            ));
            lemma_hex_of_len(bytes@.skip(i + 1));
        }
        i = i + 1;
    }
    proof {
        assert(bytes@.skip(bytes@.len() as int) =~= Seq::<u8>::empty());
    }
    out
}

/// Fingerprint a file's bytes: the lower-case hex encoding of their
/// SHA-256 digest, 64 characters, a function of the bytes alone.
pub fn fingerprint(bytes: &[u8]) -> (fp: String)
    ensures
        fp@ == fingerprint_of(bytes@),
        fp@.len() == 64,
{
    let digest = sha256_digest(bytes);
    proof {
        lemma_hex_of_len(digest@);
    }
    to_hex(digest.as_slice())
}

} // verus!
