use vstd::prelude::*;

verus! {

/// The SHA-256 digest of a sequence of bytes.
pub uninterp spec fn sha256(data: Seq<u8>) -> Seq<u8>;

/// Hashes `data` with `anchor_lang::solana_program::hash::hash` and hands
/// out the bytes of the `Hash` it returns. Nothing is proved of that
/// function here: the contract takes it on trust that it computes SHA-256,
/// the same digest for the same bytes wherever it runs.
#[verifier::external_body]
pub(crate) fn sha256_digest(data: &[u8]) -> (digest: [u8; 32])
    ensures
        digest@ == sha256(data@),
{
    anchor_lang::solana_program::hash::hash(data).to_bytes()
}

} // verus!
