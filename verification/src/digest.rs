use vstd::prelude::*;

verus! {

/// The length of a SHA-1 digest.
pub const DIGEST_LENGTH: usize = 20;

/// The SHA-1 digest of `data`.
pub uninterp spec fn sha1(data: Seq<u8>) -> Seq<u8>;

/// The SHA-1 digest of `data`, computed by `sha1::Sha1`: a fresh state,
/// one `update` with all of `data`, then `digest().bytes()`, which is an
/// array of 20 bytes.
#[verifier::external_body]
pub(crate) fn sha1_of(data: &[u8]) -> (digest: Vec<u8>)
    ensures
        digest@ == sha1(data@),
        digest@.len() == DIGEST_LENGTH,
{
    let mut m = sha1::Sha1::new();
    m.update(data);
    m.digest().bytes().to_vec()
}

} // verus!
