//! Content fingerprints: the hexadecimal MD5 digest of a file's bytes.

use vstd::prelude::*;

verus! {

/// The lower-case hexadecimal MD5 digest of `content`, as the `md5` crate
/// computes and prints it.
pub uninterp spec fn md5_hex(content: Seq<u8>) -> Seq<char>;

/// The fingerprint of what a read of a path gave: the digest of the bytes, or
/// nothing where the path could not be read as a file.
pub open spec fn fingerprint_of(read: Option<Seq<u8>>) -> Option<Seq<char>> {
    match read {
        Some(content) => Some(md5_hex(content)),
        None => None,
    }
}

/// Calls `md5::compute` on `content` and formats the digest with `{:x}`.
///
/// Trusted: the result is the digest named by [`md5_hex`], a function of the
/// bytes alone.
#[verifier::external_body]
pub(crate) fn digest_hex(content: &[u8]) -> (hex: String)
    ensures
        hex@ == md5_hex(content@),
{
    format!("{:x}", md5::compute(content))
}

/// The fingerprint of a file whose bytes are `content`.
pub fn fingerprint(content: &[u8]) -> (hex: String)
    ensures
        hex@ == md5_hex(content@),
{
    digest_hex(content)
}

/// A fingerprint depends on the bytes alone: two reads that gave the same
/// bytes, or both failed, have the same fingerprint.
pub proof fn lemma_fingerprint_repeats(first: Option<Seq<u8>>, second: Option<Seq<u8>>)
    requires
        first == second,
    ensures
        fingerprint_of(first) == fingerprint_of(second),
{
}

} // verus!
