//! The bundle integrity digest protocol: hash the bundle's exact bytes at
//! pack time, store the lowercase hex encoding in a detached digest file, and
//! at install time recompute the hash and compare it with the stored text
//! (after trimming incidental whitespace). A mismatch is fatal: install must
//! abort before any extraction.

use vstd::prelude::*;
use crate::strutil::is_ws;
use crate::strutil::trim_spec;
use crate::strutil::trim_str;
use crate::strutil::lemma_trim_no_ws;

verus! {

/// The lowercase hex encoding of the cryptographic digest of `bytes`: a
/// fixed-length function of the bytes alone.
pub uninterp spec fn sha256_hex_of(bytes: Seq<u8>) -> Seq<char>;

/// A lowercase hexadecimal digit.
pub open spec fn is_hex_char(c: char) -> bool {
    ('0' <= c && c <= '9') || ('a' <= c && c <= 'f')
}

/// Relies on sha2::Sha256::digest, a pure function of the input bytes, and on
/// generic-array's LowerHex formatting, which prints each of the 32 digest
/// bytes as two lowercase hexadecimal digits.
#[verifier::external_body]
fn sha256_hex(bytes: &[u8]) -> (r: String)
    ensures
        r@ == sha256_hex_of(bytes@),
        r@.len() == 64,
        forall|i: int| 0 <= i < r@.len() ==> is_hex_char(#[trigger] r@[i]),
{
    let h = <sha2::Sha256 as sha2::Digest>::digest(bytes);
    format!("{:x}", h)
}

/// Whether the stored digest-file text matches the digest of the bundle's
/// bytes, once incidental whitespace around the stored text is ignored.
pub open spec fn spec_digest_ok(bytes: Seq<u8>, stored: Seq<char>) -> bool {
    trim_spec(sha256_hex_of(bytes)) == trim_spec(stored)
}

/// The digest-file contents for a bundle: the lowercase hex-encoded digest
/// of its exact bytes.
pub fn compute_digest(bundle_bytes: &Vec<u8>) -> (r: String)
    ensures
        r@ == sha256_hex_of(bundle_bytes@),
        r@.len() == 64,
{
    sha256_hex(bundle_bytes.as_slice())
}

/// Whether the bundle's current bytes still match the stored digest-file
/// text. Install proceeds only when this holds.
pub fn check_digest(bundle_bytes: &Vec<u8>, stored: &str) -> (ok: bool)
    ensures
        ok == spec_digest_ok(bundle_bytes@, stored@),
{
    let computed = sha256_hex(bundle_bytes.as_slice());
    let trimmed = trim_str(stored);
    proof {
        assert forall|i: int| 0 <= i < computed@.len() implies !is_ws(computed@[i]) by {
            assert(is_hex_char(computed@[i]));
        }
        lemma_trim_no_ws(computed@);
    }
    computed == trimmed
}

/// Law: a digest file written from a bundle's bytes verifies against
/// byte-identical bundle bytes, so packing then installing on an unchanged
/// bundle recomputes a digest equal to the stored one.
pub proof fn lemma_digest_round_trip(bytes: Seq<u8>)
    ensures
        spec_digest_ok(bytes, sha256_hex_of(bytes)),
{
}

} // verus!
