use crate::errors::ErrorCode;
use crate::helpers::htm::{
    get_child_index, get_trixel_ancestors, leading_digit, resolution_from_trixel_id,
    spec_ancestors, spec_child_slot, spec_resolution, valid_trixel_id,
};
use crate::helpers::pda::{same_key, trixel_address};
use crate::ixns::update_trixel::{spec_is_address_of, Outcome, Walk};
use crate::state::trixel::{Trixel, TrixelView};
use crate::state::trixel_data::TrixelDataType;
use crate::state::world::{World, WorldView};
use vstd::prelude::*;

verus! {

/// Which leaf to create.
#[derive(Clone, Copy, Debug, PartialEq, Eq)]
pub struct CreateTrixelAndAncestorsArgs {
    pub id: u64,
}

/// A place in the store where the record of an ancestor is held, or is to
/// be held where there is none yet.
#[derive(Clone, Copy, Debug, PartialEq, Eq)]
pub struct AncestorAccount {
    pub key: [u8; 32],
    pub trixel: Option<Trixel>,
}

/// An ancestor's place as a value of sequences.
pub struct AncestorAccountView {
    pub key: Seq<u8>,
    pub trixel: Option<TrixelView>,
}

impl View for AncestorAccount {
    type V = AncestorAccountView;

    open spec fn view(&self) -> AncestorAccountView {
        AncestorAccountView {
            key: self.key@,
            trixel: match self.trixel {
                Some(record) => Some(record@),
                None => None,
            },
        }
    }
}

/// The views of `accounts`.
pub open spec fn places_view(accounts: Seq<AncestorAccount>) -> Seq<AncestorAccountView> {
    Seq::new(accounts.len(), |i: int| accounts[i]@)
}

/// The records that the creation of a leaf works on: the world with its
/// address, the record that becomes the leaf, the places of the leaf's
/// ancestors from its parent up to its base trixel, and the program that
/// the addresses are derived for.
#[derive(Clone, Debug, PartialEq, Eq)]
pub struct CreateTrixelAndAncestorsCtx {
    pub world_key: [u8; 32],
    pub world: World,
    pub trixel: Trixel,
    pub remaining_accounts: Vec<AncestorAccount>,
    pub program_id: [u8; 32],
}

/// One ancestor of a new leaf: it must be held at the address of the
/// trixel `id`; where there is no record yet, one is made with nothing
/// observed; then it takes the hash from below.
pub open spec fn spec_create_step(
    account: AncestorAccountView,
    id: u64,
    world_key: Seq<u8>,
    program_id: Seq<u8>,
    world_type: TrixelDataType,
    slot: int,
    carry: Seq<u8>,
    now: i64,
) -> Result<TrixelView, ErrorCode> {
    if !spec_is_address_of(account.key, id, world_key, program_id) {
        Err(ErrorCode::InvalidTrixelAccount)
    } else {
        match account.trixel {
            Some(record) => record.spec_update_child_hash(slot, carry, now),
            None => TrixelView::spec_init(
                world_key,
                id,
                spec_resolution(id as nat) as u8,
                world_type,
                now,
            ).spec_update_child_hash(slot, carry, now),
        }
    }
}

/// The walk up the first `count` ancestors of the new leaf `id`, nearest
/// first, starting from `start`.
pub open spec fn spec_create_walk(
    accounts: Seq<AncestorAccountView>,
    id: u64,
    world_key: Seq<u8>,
    program_id: Seq<u8>,
    world_type: TrixelDataType,
    now: i64,
    start: Walk,
    count: nat,
) -> Result<Walk, ErrorCode>
    decreases count,
{
    if count == 0 {
        Ok(start)
    } else {
        let i = (count - 1) as int;
        match spec_create_walk(
            accounts,
            id,
            world_key,
            program_id,
            world_type,
            now,
            start,
            i as nat,
        ) {
            Err(e) => Err(e),
            Ok(before) => match spec_create_step(
                accounts[i],
                spec_ancestors(id)[i],
                world_key,
                program_id,
                world_type,
                before.slot,
                before.carry,
                now,
            ) {
                Err(e) => Err(e),
                Ok(record) => match spec_child_slot(record.id) {
                    Err(e) => Err(e),
                    Ok(slot) => Ok(
                        Walk { done: before.done.push(record), slot, carry: record.hash },
                    ),
                },
            },
        }
    }
}

/// The end of a creation whose ancestors have been walked: the world takes
/// the hash from below.
pub open spec fn spec_create_finish(
    world: WorldView,
    new_leaf: TrixelView,
    walked: Result<Walk, ErrorCode>,
) -> Result<Outcome, ErrorCode> {
    match walked {
        Err(e) => Err(e),
        Ok(walk) => match world.spec_update_child_hash_and_root(walk.slot, walk.carry) {
            Err(e) => Err(e),
            Ok(new_world) => Ok(
                Outcome { world: new_world, trixel: new_leaf, ancestors: walk.done },
            ),
        },
    }
}

/// What the creation of a leaf does, in the order in which it is checked:
/// the leaf must lie at the world's canonical resolution and its identifier
/// be well formed; there must be one place for each ancestor. The leaf is
/// made with nothing observed, whatever the record held; each ancestor in
/// turn, made where it was missing, and at last the world take the hash
/// from below. No observation is applied.
pub open spec fn spec_create_trixel_and_ancestors(
    world_key: Seq<u8>,
    world: WorldView,
    accounts: Seq<AncestorAccountView>,
    program_id: Seq<u8>,
    id: u64,
    now: i64,
) -> Result<Outcome, ErrorCode> {
    let world_type = world.data.spec_data_type();
    let new_leaf = TrixelView::spec_init(
        world_key,
        id,
        spec_resolution(id as nat) as u8,
        world_type,
        now,
    );
    if spec_resolution(id as nat) != world.canonical_resolution {
        Err(ErrorCode::InvalidResolution)
    } else if !valid_trixel_id(id as nat) {
        Err(ErrorCode::InvalidTrixelId)
    } else if accounts.len() != spec_ancestors(id).len() {
        Err(ErrorCode::InvalidArgument)
    } else {
        spec_create_finish(
            world,
            new_leaf,
            spec_create_walk(
                accounts,
                id,
                world_key,
                program_id,
                world_type,
                now,
                Walk {
                    done: Seq::empty(),
                    slot: leading_digit(id as nat) - 1,
                    carry: new_leaf.hash,
                },
                accounts.len(),
            ),
        )
    }
}

/// A walk that has failed stays failed, however far it is taken.
proof fn lemma_create_walk_fails(
    accounts: Seq<AncestorAccountView>,
    id: u64,
    world_key: Seq<u8>,
    program_id: Seq<u8>,
    world_type: TrixelDataType,
    now: i64,
    start: Walk,
    count: nat,
    further: nat,
)
    requires
        count <= further,
        spec_create_walk(accounts, id, world_key, program_id, world_type, now, start, count)
            is Err,
    ensures
        spec_create_walk(accounts, id, world_key, program_id, world_type, now, start, further)
            == spec_create_walk(
            accounts,
            id,
            world_key,
            program_id,
            world_type,
            now,
            start,
            count,
        ),
    decreases further,
{
    if count < further {
        lemma_create_walk_fails(
            accounts,
            id,
            world_key,
            program_id,
            world_type,
            now,
            start,
            count,
            (further - 1) as nat,
        );
    }
}

/// The views of the records held in `accounts`, all of which hold one.
pub open spec fn created_records(accounts: Seq<AncestorAccount>) -> Seq<TrixelView> {
    Seq::new(accounts.len(), |i: int| accounts[i].trixel->Some_0@)
}

/// One ancestor of a new leaf with the hash from below taken in.
fn create_step(
    account: &AncestorAccount,
    id: u64,
    world_key: &[u8; 32],
    program_id: &[u8; 32],
    world_type: TrixelDataType,
    slot: usize,
    carry: [u8; 32],
    now: i64,
) -> (r: Result<Trixel, ErrorCode>)
    ensures
        match spec_create_step(
            account@,
            id,
            world_key@,
            program_id@,
            world_type,
            slot as int,
            carry@,
            now,
        ) {
            Ok(after) => r is Ok && r->Ok_0@ == after && after.hash_is_current(),
            Err(e) => r == Err::<Trixel, ErrorCode>(e),
        },
{
    let resolution = match resolution_from_trixel_id(id) {
        Ok(resolution) => resolution,
        Err(e) => {
            return Err(e);
        },
    };
    match trixel_address(id, world_key, program_id) {
        Some((expected, _)) => {
            if !same_key(&account.key, &expected) {
                return Err(ErrorCode::InvalidTrixelAccount);
            }
        },
        None => {
            return Err(ErrorCode::InvalidTrixelAccount);
        },
    }
    let mut record: Trixel = match account.trixel {
        Some(record) => record,
        None => {
            let mut record = Trixel::new();
            let _ = record.init(*world_key, id, resolution, world_type, now);
            record
        },
    };
    match record.update_child_hash(slot, carry, now) {
        Ok(_) => Ok(record),
        Err(e) => Err(e),
    }
}

/// What a call of the creation leaves behind. Where it is accepted, the
/// leaf, each ancestor and the world are as
/// `spec_create_trixel_and_ancestors` says, each with a hash that is that
/// of what it holds; every place then holds a record, and the addresses
/// and everything else stay. Where it is turned away, with the error that
/// `spec_create_trixel_and_ancestors` names, everything is exactly as it
/// was.
pub open spec fn create_trixel_and_ancestors_leaves(
    before: CreateTrixelAndAncestorsCtx,
    after: CreateTrixelAndAncestorsCtx,
    args: CreateTrixelAndAncestorsArgs,
    now: i64,
    r: Result<(), ErrorCode>,
) -> bool {
    match spec_create_trixel_and_ancestors(
        before.world_key@,
        before.world@,
        places_view(before.remaining_accounts@),
        before.program_id@,
        args.id,
        now,
    ) {
        Ok(outcome) => {
            &&& r is Ok
            &&& after.world@ == outcome.world
            &&& after.trixel@ == outcome.trixel
            &&& created_records(after.remaining_accounts@) == outcome.ancestors
            &&& after.remaining_accounts@.len() == before.remaining_accounts@.len()
            &&& forall|i: int|
                0 <= i < before.remaining_accounts@.len() ==> (
                #[trigger] after.remaining_accounts@[i]).key == before.remaining_accounts@[i].key && after.remaining_accounts@[i].trixel
                    is Some
            &&& after.world_key == before.world_key
            &&& after.program_id == before.program_id
            &&& outcome.world.root_is_current()
            &&& outcome.trixel.hash_is_current()
            &&& forall|i: int|
                0 <= i < outcome.ancestors.len() ==> (
                #[trigger] outcome.ancestors[i]).hash_is_current()
        },
        Err(e) => r == Err::<(), ErrorCode>(e) && after == before,
    }
}

/// Creates a leaf and the ancestors that it lacks. `now` is the time in
/// seconds since the epoch.
pub fn handle_create_trixel_and_ancestors(
    ctx: &mut CreateTrixelAndAncestorsCtx,
    args: CreateTrixelAndAncestorsArgs,
    now: i64,
) -> (r: Result<(), ErrorCode>)
    ensures
        create_trixel_and_ancestors_leaves(*old(ctx), *final(ctx), args, now, r),
{
    let resolution = match resolution_from_trixel_id(args.id) {
        Ok(resolution) => resolution,
        Err(e) => {
            return Err(e);
        },
    };
    if resolution != ctx.world.canonical_resolution {
        return Err(ErrorCode::InvalidResolution);
    }
    let world_type = ctx.world.data.to_data_type();
    let mut leaf: Trixel = ctx.trixel;
    let _ = leaf.init(ctx.world_key, args.id, resolution, world_type, now);
    let ancestors = match get_trixel_ancestors(args.id) {
        Ok(ancestors) => ancestors,
        Err(e) => {
            return Err(e);
        },
    };
    let (first_slot, _) = match get_child_index(args.id) {
        Ok(index) => index,
        Err(e) => {
            return Err(e);
        },
    };
    if ancestors.len() != ctx.remaining_accounts.len() {
        return Err(ErrorCode::InvalidArgument);
    }
    let mut slot: usize = first_slot;
    let mut carry: [u8; 32] = leaf.hash;
    let mut done: Vec<AncestorAccount> = Vec::new();
    let ghost start = Walk {
        done: Seq::empty(),
        slot: leading_digit(args.id as nat) - 1,
        carry: leaf@.hash,
    };
    let count = ctx.remaining_accounts.len();
    let mut i: usize = 0;
    assert(created_records(done@) =~= start.done);
    while i < count
        invariant
            i <= count,
            count == ctx.remaining_accounts@.len(),
            count == ancestors@.len(),
            ancestors@ == spec_ancestors(args.id),
            *ctx == *old(ctx),
            spec_create_trixel_and_ancestors(
                ctx.world_key@,
                ctx.world@,
                places_view(ctx.remaining_accounts@),
                ctx.program_id@,
                args.id,
                now,
            ) == spec_create_finish(
                ctx.world@,
                leaf@,
                spec_create_walk(
                    places_view(ctx.remaining_accounts@),
                    args.id,
                    ctx.world_key@,
                    ctx.program_id@,
                    world_type,
                    now,
                    start,
                    count as nat,
                ),
            ),
            done@.len() == i,
            forall|j: int|
                0 <= j < i ==> (#[trigger] done@[j]).key == ctx.remaining_accounts@[j].key
                    && done@[j].trixel is Some,
            forall|j: int|
                0 <= j < i ==> (#[trigger] done@[j]).trixel->Some_0@.hash_is_current(),
            spec_create_walk(
                places_view(ctx.remaining_accounts@),
                args.id,
                ctx.world_key@,
                ctx.program_id@,
                world_type,
                now,
                start,
                i as nat,
            ) == Ok::<Walk, ErrorCode>(
                Walk { done: created_records(done@), slot: slot as int, carry: carry@ },
            ),
        decreases count - i,
    {
        let account: AncestorAccount = ctx.remaining_accounts[i];
        let ghost before = Walk { done: created_records(done@), slot: slot as int, carry: carry@ };
        let stepped = create_step(
            &account,
            ancestors[i],
            &ctx.world_key,
            &ctx.program_id,
            world_type,
            slot,
            carry,
            now,
        );
        let record = match stepped {
            Ok(record) => record,
            Err(e) => {
                proof {
                    lemma_create_walk_fails(
                        places_view(ctx.remaining_accounts@),
                        args.id,
                        ctx.world_key@,
                        ctx.program_id@,
                        world_type,
                        now,
                        start,
                        (i + 1) as nat,
                        count as nat,
                    );
                }
                return Err(e);
            },
        };
        let next_slot = match get_child_index(record.id) {
            Ok((next_slot, _)) => next_slot,
            Err(e) => {
                proof {
                    lemma_create_walk_fails(
                        places_view(ctx.remaining_accounts@),
                        args.id,
                        ctx.world_key@,
                        ctx.program_id@,
                        world_type,
                        now,
                        start,
                        (i + 1) as nat,
                        count as nat,
                    );
                }
                return Err(e);
            },
        };
        slot = next_slot;
        carry = record.hash;
        done.push(AncestorAccount { key: account.key, trixel: Some(record) });
        assert(created_records(done@) =~= before.done.push(record@));
        i = i + 1;
    }
    let mut world: World = ctx.world;
    match world.update_child_hash_and_root(slot, carry) {
        Ok(()) => {},
        Err(e) => {
            return Err(e);
        },
    }
    ctx.world = world;
    ctx.trixel = leaf;
    ctx.remaining_accounts = done;
    Ok(())
}

} // verus!
