use crate::errors::ErrorCode;
use vstd::bytes::{spec_u64_to_le_bytes, u64_to_le_bytes};
use vstd::prelude::*;

verus! {

/// The address that a program derives from a list of seeds, with the bump
/// seed that was found for it; `None` where the search finds no address.
pub uninterp spec fn program_address(seeds: Seq<Seq<u8>>, program_id: Seq<u8>) -> Option<
    (Seq<u8>, u8),
>;

/// Derives an address from three seeds with
/// `Pubkey::try_find_program_address` of `anchor_lang`'s `solana_program`.
/// Nothing is proved of that function here: the contract takes it on trust
/// that what it returns depends on the seeds and the program alone. It
/// returns `None`, and does not panic, where a seed is longer than 32 bytes
/// or no bump seed gives an address.
#[verifier::external_body]
pub(crate) fn try_find_program_address(
    first: &[u8],
    second: &[u8],
    third: &[u8],
    program_id: &[u8; 32],
) -> (found: Option<([u8; 32], u8)>)
    ensures
        program_address(seq![first@, second@, third@], program_id@) == match found {
            Some((address, bump)) => Some((address@, bump)),
            None => None,
        },
{
    let program = anchor_lang::prelude::Pubkey::new_from_array(*program_id);
    match anchor_lang::prelude::Pubkey::try_find_program_address(
        &[first, second, third],
        &program,
    ) {
        Some((address, bump)) => Some((address.to_bytes(), bump)),
        None => None,
    }
}

/// The address of this program.
pub open spec fn spec_id() -> Seq<u8> {
    seq![
        28u8, 116u8, 138u8, 40u8, 138u8, 227u8, 111u8, 65u8, 96u8, 177u8, 155u8, 129u8, 76u8,
        211u8, 194u8, 27u8, 240u8, 46u8, 111u8, 9u8, 202u8, 249u8, 136u8, 225u8, 4u8, 186u8,
        251u8, 250u8, 205u8, 125u8, 117u8, 43u8,
    ]
}

/// The first seed of every trixel address: the bytes of the word `trixel`.
pub open spec fn trixel_seed() -> Seq<u8> {
    seq![116u8, 114u8, 105u8, 120u8, 101u8, 108u8]
}

/// The address under which the store keeps the trixel `trixel_id` of the
/// world at `world`, for the program `program_id`, with its bump seed.
pub open spec fn spec_trixel_address(trixel_id: u64, world: Seq<u8>, program_id: Seq<u8>) -> Option<
    (Seq<u8>, u8),
> {
    program_address(seq![trixel_seed(), world, spec_u64_to_le_bytes(trixel_id)], program_id)
}

/// The address of this program, `2v5V4aVkQnFHojUoY4td6X7E7e5NQ78mKzAjAoA6JBrJ`
/// in base 58.
pub fn id() -> (program_id: [u8; 32])
    ensures
        program_id@ == spec_id(),
{
    [
        28u8, 116u8, 138u8, 40u8, 138u8, 227u8, 111u8, 65u8, 96u8, 177u8, 155u8, 129u8, 76u8,
        211u8, 194u8, 27u8, 240u8, 46u8, 111u8, 9u8, 202u8, 249u8, 136u8, 225u8, 4u8, 186u8,
        251u8, 250u8, 205u8, 125u8, 117u8, 43u8,
    ]
}

/// The address of a trixel of a world under the program `program_id`.
pub fn trixel_address(trixel_id: u64, world: &[u8; 32], program_id: &[u8; 32]) -> (found: Option<
    ([u8; 32], u8),
>)
    ensures
        spec_trixel_address(trixel_id, world@, program_id@) == match found {
            Some((address, bump)) => Some((address@, bump)),
            None => None,
        },
{
    let seed: [u8; 6] = [116u8, 114u8, 105u8, 120u8, 101u8, 108u8];
    let id_bytes = u64_to_le_bytes(trixel_id);
    assert(seed@ =~= trixel_seed());
    try_find_program_address(seed.as_slice(), world.as_slice(), id_bytes.as_slice(), program_id)
}

/// The address of a trixel of a world under this program.
pub fn get_trixel_pda(trixel_id: u64, world: &[u8; 32]) -> (found: Option<([u8; 32], u8)>)
    ensures
        spec_trixel_address(trixel_id, world@, spec_id()) == match found {
            Some((address, bump)) => Some((address@, bump)),
            None => None,
        },
{
    let program_id = id();
    trixel_address(trixel_id, world, &program_id)
}

/// Whether two keys are the same 32 bytes.
pub fn same_key(a: &[u8; 32], b: &[u8; 32]) -> (same: bool)
    ensures
        same <==> a@ == b@,
{
    let mut i: usize = 0;
    while i < 32
        invariant
            i <= 32,
            forall|j: int| 0 <= j < i ==> a@[j] == b@[j],
        decreases 32 - i,
    {
        if a[i] != b[i] {
            return false;
        }
        i = i + 1;
    }
    assert(a@ =~= b@);
    true
}

/// Accepts an account as that of the trixel `trixel_id` of the world at
/// `world` where its key is the address derived for that trixel under this
/// program.
pub fn verify_trixel_account(trixel_account: &[u8; 32], trixel_id: u64, world: &[u8; 32]) -> (r:
    Result<(), ErrorCode>)
    ensures
        r is Ok <==> (spec_trixel_address(trixel_id, world@, spec_id()) matches Some(found)
            && found.0 == trixel_account@),
        r is Err ==> r == Err::<(), ErrorCode>(ErrorCode::InvalidTrixelAccount),
{
    match get_trixel_pda(trixel_id, world) {
        Some((expected, _)) => {
            if same_key(trixel_account, &expected) {
                Ok(())
            } else {
                Err(ErrorCode::InvalidTrixelAccount)
            }
        },
        None => Err(ErrorCode::InvalidTrixelAccount),
    }
}

} // verus!
