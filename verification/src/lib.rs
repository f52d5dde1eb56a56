//! An authenticated aggregate of observations over the Hierarchical
//! Triangular Mesh: trixel identifiers, typed statistics, hashed trixel and
//! world records, and the update that carries one observation from a leaf to
//! the root.

pub mod errors;
pub mod helpers;
pub mod ixns;
pub mod state;
pub mod tree;

use crate::errors::ErrorCode;
use crate::ixns::create_trixel_and_ancestors::{
    create_trixel_and_ancestors_leaves, handle_create_trixel_and_ancestors,
    CreateTrixelAndAncestorsArgs, CreateTrixelAndAncestorsCtx,
};
use crate::ixns::create_world::{
    create_world_leaves, handle_create_world, CreateWorldArgs, CreateWorldCtx,
};
use crate::ixns::update_trixel::{
    handle_update_trixel, update_trixel_leaves, UpdateTrixelArgs, UpdateTrixelCtx,
};
use vstd::prelude::*;

verus! {

/// Creates a world with nothing observed.
pub fn create_world(ctx: &mut CreateWorldCtx, args: CreateWorldArgs) -> (r: Result<(), ErrorCode>)
    ensures
        create_world_leaves(*old(ctx), *final(ctx), args, r),
        r is Ok <==> 1 <= args.canonical_resolution <= 10,
{
    handle_create_world(ctx, args)
}

/// Creates a leaf of a world, with nothing observed, and the ancestors
/// that the leaf lacks.
pub fn create_trixel_and_ancestors(
    ctx: &mut CreateTrixelAndAncestorsCtx,
    args: CreateTrixelAndAncestorsArgs,
    now: i64,
) -> (r: Result<(), ErrorCode>)
    ensures
        create_trixel_and_ancestors_leaves(*old(ctx), *final(ctx), args, now, r),
{
    handle_create_trixel_and_ancestors(ctx, args, now)
}

/// Carries one observation from its leaf to the root.
pub fn update_trixel(ctx: &mut UpdateTrixelCtx, args: UpdateTrixelArgs, now: i64) -> (r: Result<
    (),
    ErrorCode,
>)
    ensures
        update_trixel_leaves(*old(ctx), *final(ctx), args, now, r),
{
    handle_update_trixel(ctx, args, now)
}

} // verus!
