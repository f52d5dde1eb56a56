use crate::errors::ErrorCode;
use crate::state::trixel_data::TrixelDataType;
use crate::state::world::{World, WorldView};
use vstd::prelude::*;

verus! {

/// The configuration that a world is created with.
#[derive(Clone, Copy, Debug, PartialEq, Eq)]
pub struct CreateWorldArgs {
    pub canonical_resolution: u8,
    pub data_type: TrixelDataType,
    pub name: [u8; 32],
    pub permissioned_updates: bool,
}

/// The records that the creation of a world works on: the key of its
/// authority and the record that becomes the world.
#[derive(Clone, Copy, Debug, PartialEq, Eq)]
pub struct CreateWorldCtx {
    pub authority: [u8; 32],
    pub world: World,
}

/// What a call of the creation of a world leaves behind: a world of the
/// given authority and configuration with nothing observed, or, where the
/// canonical resolution is outside 1 to 10, everything as it was.
pub open spec fn create_world_leaves(
    before: CreateWorldCtx,
    after: CreateWorldCtx,
    args: CreateWorldArgs,
    r: Result<(), ErrorCode>,
) -> bool {
    match WorldView::spec_init(
        before.authority@,
        args.name@,
        args.canonical_resolution,
        args.permissioned_updates,
        args.data_type,
    ) {
        Ok(world) => r is Ok && after.world@ == world && world.root_is_current()
            && after.authority == before.authority,
        Err(e) => r == Err::<(), ErrorCode>(e) && after == before,
    }
}

/// Creates a world: the record becomes a world of the given authority and
/// configuration with nothing observed. A canonical resolution outside 1 to
/// 10 is turned away, and the record left as it was.
pub fn handle_create_world(ctx: &mut CreateWorldCtx, args: CreateWorldArgs) -> (r: Result<
    (),
    ErrorCode,
>)
    ensures
        create_world_leaves(*old(ctx), *final(ctx), args, r),
        r is Ok <==> 1 <= args.canonical_resolution <= 10,
{
    let authority: [u8; 32] = ctx.authority;
    ctx.world.init(
        authority,
        args.name,
        args.canonical_resolution,
        args.permissioned_updates,
        args.data_type,
    )
}

} // verus!
