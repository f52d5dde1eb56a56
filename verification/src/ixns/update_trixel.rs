use crate::errors::ErrorCode;
use crate::helpers::htm::{
    get_child_index, get_trixel_ancestors, leading_digit, lemma_leading_digit_range,
    resolution_from_trixel_id,
    spec_ancestors, spec_child_slot, spec_resolution, valid_trixel_id,
};
use crate::helpers::pda::{same_key, spec_trixel_address, trixel_address};
use crate::state::trixel::{Trixel, TrixelView};
use crate::state::trixel_data::{TrixelData, TrixelDataType};
use crate::state::world::{World, WorldView};
use vstd::prelude::*;

verus! {

/// A trixel record together with the address under which the store holds
/// it.
#[derive(Clone, Copy, Debug, PartialEq, Eq)]
pub struct TrixelAccount {
    pub key: [u8; 32],
    pub trixel: Trixel,
}

/// A trixel account as a value of sequences.
pub struct TrixelAccountView {
    pub key: Seq<u8>,
    pub trixel: TrixelView,
}

impl View for TrixelAccount {
    type V = TrixelAccountView;

    open spec fn view(&self) -> TrixelAccountView {
        TrixelAccountView { key: self.key@, trixel: self.trixel@ }
    }
}

/// The views of `accounts`.
pub open spec fn accounts_view(accounts: Seq<TrixelAccount>) -> Seq<TrixelAccountView> {
    Seq::new(accounts.len(), |i: int| accounts[i]@)
}

/// One observation: the leaf it lands on, its value, and, where the
/// observer sent coordinates along, what locating them at the world's
/// canonical resolution gave.
#[derive(Clone, Copy, Debug, PartialEq, Eq)]
pub struct UpdateTrixelArgs {
    pub id: u64,
    pub value: i32,
    pub located: Option<Result<u64, ErrorCode>>,
}

/// The records that an update works on: who sends it, the world with its
/// address, the leaf, the leaf's ancestors from its parent up to its base
/// trixel, and the program that the addresses are derived for.
#[derive(Clone, Debug, PartialEq, Eq)]
pub struct UpdateTrixelCtx {
    pub payer: [u8; 32],
    pub world_key: [u8; 32],
    pub world: World,
    pub trixel: Trixel,
    pub remaining_accounts: Vec<TrixelAccount>,
    pub program_id: [u8; 32],
}

/// The records as an accepted operation leaves them.
pub struct Outcome {
    pub world: WorldView,
    pub trixel: TrixelView,
    pub ancestors: Seq<TrixelView>,
}

/// How far a walk up the ancestors has come: the records done, and what the
/// next one takes in: the hash of the record below it and the slot that it
/// keeps that hash in.
pub struct Walk {
    pub done: Seq<TrixelView>,
    pub slot: int,
    pub carry: Seq<u8>,
}

/// Whether `payer` may update the world: anyone may where updates are not
/// permissioned, else only the world's authority.
pub open spec fn spec_authorized(world: WorldView, payer: Seq<u8>) -> bool {
    world.authority == payer || !world.permissioned_updates
}

/// The leaf once it has taken the observation, with the change to hand up
/// and whether the leaf was activated.
pub open spec fn spec_leaf_step(
    leaf: TrixelView,
    world_type: TrixelDataType,
    value: i32,
    now: i64,
) -> Result<(TrixelView, i64, bool), ErrorCode> {
    match leaf.data.spec_update_leaf(world_type, value) {
        Err(e) => Err(e),
        Ok(update) => if leaf.updates == u64::MAX {
            Err(ErrorCode::ArithmeticOverflow)
        } else {
            Ok(
                (
                    TrixelView {
                        data: update.data,
                        last_update: now,
                        updates: (leaf.updates + 1) as u64,
                        ..leaf
                    }.rehashed(),
                    update.delta,
                    update.activated,
                ),
            )
        },
    }
}

/// Whether `key` is the address of the trixel `id` of the world at
/// `world_key`.
pub open spec fn spec_is_address_of(
    key: Seq<u8>,
    id: u64,
    world_key: Seq<u8>,
    program_id: Seq<u8>,
) -> bool {
    spec_trixel_address(id, world_key, program_id) matches Some(found) && found.0 == key
}

/// One ancestor once it has taken the change in: it must be held at the
/// address of the trixel `id`, belong to the world and keep the world's
/// kind of statistic; it counts two updates, one for its statistic and one
/// for the hash from below.
pub open spec fn spec_ancestor_step(
    account: TrixelAccountView,
    id: u64,
    world_key: Seq<u8>,
    program_id: Seq<u8>,
    world_type: TrixelDataType,
    delta: i64,
    activated: bool,
    slot: int,
    carry: Seq<u8>,
    now: i64,
) -> Result<TrixelView, ErrorCode> {
    let record = account.trixel;
    if !spec_is_address_of(account.key, id, world_key, program_id) {
        Err(ErrorCode::InvalidTrixelAccount)
    } else if record.world != world_key {
        Err(ErrorCode::AccountMismatch)
    } else {
        match record.data.spec_update_inner(world_type, delta, activated) {
            Err(e) => Err(e),
            Ok(data) => if record.updates == u64::MAX {
                Err(ErrorCode::ArithmeticOverflow)
            } else {
                TrixelView {
                    data,
                    last_update: now,
                    updates: (record.updates + 1) as u64,
                    ..record
                }.spec_update_child_hash(slot, carry, now)
            },
        }
    }
}

/// What an ancestor's step leaves of the record: the change taken into its
/// statistic, the hash from below in its slot, two more updates counted,
/// a hash that is current, and the record of the same trixel as before.
pub(crate) proof fn lemma_ancestor_step(
    account: TrixelAccountView,
    id: u64,
    world_key: Seq<u8>,
    program_id: Seq<u8>,
    world_type: TrixelDataType,
    delta: i64,
    activated: bool,
    slot: int,
    carry: Seq<u8>,
    now: i64,
)
    requires
        spec_ancestor_step(
            account,
            id,
            world_key,
            program_id,
            world_type,
            delta,
            activated,
            slot,
            carry,
            now,
        ) is Ok,
    ensures
        ({
            let before = account.trixel;
            let after = spec_ancestor_step(
                account,
                id,
                world_key,
                program_id,
                world_type,
                delta,
                activated,
                slot,
                carry,
                now,
            )->Ok_0;
            &&& spec_is_address_of(account.key, id, world_key, program_id)
            &&& before.world == world_key
            &&& before.data.spec_update_inner(world_type, delta, activated) == Ok::<
                TrixelData,
                ErrorCode,
            >(after.data)
            &&& after.child_hashes == before.child_hashes.update(slot, carry)
            &&& after.hash_is_current()
            &&& after.updates == before.updates + 2
            &&& after.last_update == now
            &&& after.id == before.id
            &&& after.world == before.world
            &&& after.resolution == before.resolution
            &&& slot < 4
        }),
{
}

/// What a walk up the ancestors of a leaf is given: the accounts of the
/// ancestors of the leaf `id`, nearest first, the world they are checked
/// against, the change to take in, and where the walk starts.
pub struct Climb {
    pub accounts: Seq<TrixelAccountView>,
    pub id: u64,
    pub world_key: Seq<u8>,
    pub program_id: Seq<u8>,
    pub world_type: TrixelDataType,
    pub delta: i64,
    pub activated: bool,
    pub now: i64,
    pub start: Walk,
}

impl Climb {
    /// The ancestor at place `i` once it has taken in the change and what
    /// the walk has brought up to it.
    pub open spec fn step(self, i: int, before: Walk) -> Result<TrixelView, ErrorCode> {
        spec_ancestor_step(
            self.accounts[i],
            spec_ancestors(self.id)[i],
            self.world_key,
            self.program_id,
            self.world_type,
            self.delta,
            self.activated,
            before.slot,
            before.carry,
            self.now,
        )
    }

    /// The walk up the first `count` ancestors. Each record takes the hash
    /// of the one below it into the slot of that one's identifier, and
    /// hands its own new hash up.
    pub open spec fn walk(self, count: nat) -> Result<Walk, ErrorCode>
        decreases count,
    {
        if count == 0 {
            Ok(self.start)
        } else {
            let i = (count - 1) as int;
            match self.walk(i as nat) {
                Err(e) => Err(e),
                Ok(before) => match self.step(i, before) {
                    Err(e) => Err(e),
                    Ok(record) => match spec_child_slot(record.id) {
                        Err(e) => Err(e),
                        Ok(slot) => Ok(
                            Walk { done: before.done.push(record), slot, carry: record.hash },
                        ),
                    },
                },
            }
        }
    }

    /// The ancestor at place `i` as a walk that gets there leaves it.
    pub open spec fn taken(self, i: int) -> TrixelView {
        self.step(i, self.walk(i as nat)->Ok_0)->Ok_0
    }

    /// A walk that comes through has come through at every ancestor on the
    /// way, and has left each as its step says.
    pub(crate) proof fn lemma_walk_steps(self, count: nat)
        requires
            self.walk(count) is Ok,
            self.start.done.len() == 0,
        ensures
            self.walk(count)->Ok_0.done.len() == count,
            forall|i: int|
                0 <= i < count ==> {
                    &&& self.walk(i as nat) is Ok
                    &&& self.step(i, self.walk(i as nat)->Ok_0) is Ok
                    &&& spec_child_slot(self.taken(i).id) is Ok
                    &&& (#[trigger] self.walk(count)->Ok_0.done[i]) == self.taken(i)
                    &&& self.walk((i + 1) as nat) == Ok::<Walk, ErrorCode>(
                        Walk {
                            done: self.walk(i as nat)->Ok_0.done.push(self.taken(i)),
                            slot: spec_child_slot(self.taken(i).id)->Ok_0,
                            carry: self.taken(i).hash,
                        },
                    )
                },
        decreases count,
    {
        if count > 0 {
            let shorter = (count - 1) as nat;
            self.lemma_walk_steps(shorter);
            assert forall|i: int| 0 <= i < count implies {
                &&& self.walk(i as nat) is Ok
                &&& self.step(i, self.walk(i as nat)->Ok_0) is Ok
                &&& spec_child_slot(self.taken(i).id) is Ok
                &&& (#[trigger] self.walk(count)->Ok_0.done[i]) == self.taken(i)
                &&& self.walk((i + 1) as nat) == Ok::<Walk, ErrorCode>(
                    Walk {
                        done: self.walk(i as nat)->Ok_0.done.push(self.taken(i)),
                        slot: spec_child_slot(self.taken(i).id)->Ok_0,
                        carry: self.taken(i).hash,
                    },
                )
            } by {
                if i < shorter {
                    assert(self.walk(shorter)->Ok_0.done[i] == self.taken(i));
                }
            }
        }
    }

    /// A second walk over the records that a first walk has left, from
    /// the same start and with no change to take in, leaves each record
    /// with the statistic, the child hashes and the hash that it has, and
    /// brings up what the first has brought up.
    pub(crate) proof fn lemma_walk_again(self, first: Climb, count: nat)
        requires
            first.walk(count) is Ok,
            self.walk(count) is Ok,
            first.start.done.len() == 0,
            first.start.slot >= 0,
            forall|i: int|
                0 <= i < count ==> (#[trigger] first.accounts[i]).trixel.child_hashes.len() == 4,
            self.start == first.start,
            self.id == first.id,
            self.world_type != TrixelDataType::Count,
            self.delta == 0,
            !self.activated,
            forall|i: int| 0 <= i < count ==> (#[trigger] self.accounts[i]).trixel == first.taken(i),
        ensures
            self.walk(count)->Ok_0.slot == first.walk(count)->Ok_0.slot,
            self.walk(count)->Ok_0.slot >= 0,
            self.walk(count)->Ok_0.carry == first.walk(count)->Ok_0.carry,
            forall|i: int|
                0 <= i < count ==> (#[trigger] self.taken(i)).same_content(first.taken(i)),
        decreases count,
    {
        if count > 0 {
            let i = (count - 1) as int;
            first.lemma_walk_steps(count);
            self.lemma_walk_steps(count);
            self.lemma_walk_again(first, i as nat);
            let before = first.walk(i as nat)->Ok_0;
            let again = self.walk(i as nat)->Ok_0;
            lemma_ancestor_step(
                first.accounts[i],
                spec_ancestors(first.id)[i],
                first.world_key,
                first.program_id,
                first.world_type,
                first.delta,
                first.activated,
                before.slot,
                before.carry,
                first.now,
            );
            lemma_ancestor_step(
                self.accounts[i],
                spec_ancestors(self.id)[i],
                self.world_key,
                self.program_id,
                self.world_type,
                self.delta,
                self.activated,
                again.slot,
                again.carry,
                self.now,
            );
            let once = first.taken(i);
            let twice = self.taken(i);
            lemma_leading_digit_range(once.id as nat);
            assert(self.accounts[i].trixel == once);
            assert(first.accounts[i].trixel.child_hashes.len() == 4);
            assert(twice.child_hashes =~= once.child_hashes);
            assert(twice.data == once.data);
        }
    }

    /// A walk that has failed stays failed, however far it is taken.
    proof fn lemma_walk_fails(self, count: nat, further: nat)
        requires
            count <= further,
            self.walk(count) is Err,
        ensures
            self.walk(further) == self.walk(count),
        decreases further,
    {
        if count < further {
            self.lemma_walk_fails(count, (further - 1) as nat);
        }
    }
}

/// The world once it has taken the change in: it counts two updates, one
/// for its statistic and one for the hash from below.
pub open spec fn spec_world_step(
    world: WorldView,
    delta: i64,
    activated: bool,
    slot: int,
    carry: Seq<u8>,
) -> Result<WorldView, ErrorCode> {
    match world.data.spec_update_inner(world.data.spec_data_type(), delta, activated) {
        Err(e) => Err(e),
        Ok(data) => if world.updates == u64::MAX {
            Err(ErrorCode::ArithmeticOverflow)
        } else {
            WorldView {
                data,
                updates: (world.updates + 1) as u64,
                ..world
            }.spec_update_child_hash_and_root(slot, carry)
        },
    }
}

/// What an update does, in the order in which it is checked: the sender
/// must be allowed; the leaf must lie at the world's canonical resolution;
/// coordinates, where sent, must have been located, and in the leaf; the
/// identifier must be well formed; there must be one record for each
/// ancestor. Then the leaf takes the observation, each ancestor in turn and
/// at last the world take the change in and the hash from below.
pub open spec fn spec_update_trixel(
    payer: Seq<u8>,
    world_key: Seq<u8>,
    world: WorldView,
    leaf: TrixelView,
    accounts: Seq<TrixelAccountView>,
    program_id: Seq<u8>,
    args: UpdateTrixelArgs,
    now: i64,
) -> Result<Outcome, ErrorCode> {
    let world_type = world.data.spec_data_type();
    if !spec_authorized(world, payer) {
        Err(ErrorCode::UnauthorizedAction)
    } else if spec_resolution(args.id as nat) != world.canonical_resolution {
        Err(ErrorCode::InvalidResolution)
    } else if args.located is Some && args.located->Some_0 is Err {
        Err(args.located->Some_0->Err_0)
    } else if args.located is Some && args.located->Some_0->Ok_0 != args.id {
        Err(ErrorCode::InvalidTrixelId)
    } else if !valid_trixel_id(args.id as nat) {
        Err(ErrorCode::InvalidTrixelId)
    } else if accounts.len() != spec_ancestors(args.id).len() {
        Err(ErrorCode::InvalidArgument)
    } else {
        match spec_leaf_step(leaf, world_type, args.value, now) {
            Err(e) => Err(e),
            Ok((new_leaf, delta, activated)) => spec_finish(
                world,
                new_leaf,
                delta,
                activated,
                spec_climb(
                    accounts,
                    args.id,
                    world_key,
                    program_id,
                    world_type,
                    delta,
                    activated,
                    now,
                    new_leaf.hash,
                ).walk(accounts.len()),
            ),
        }
    }
}

/// The walk that an update sets out on from its leaf, whose new hash is
/// `leaf_hash`.
pub open spec fn spec_climb(
    accounts: Seq<TrixelAccountView>,
    id: u64,
    world_key: Seq<u8>,
    program_id: Seq<u8>,
    world_type: TrixelDataType,
    delta: i64,
    activated: bool,
    now: i64,
    leaf_hash: Seq<u8>,
) -> Climb {
    Climb {
        accounts,
        id,
        world_key,
        program_id,
        world_type,
        delta,
        activated,
        now,
        start: Walk {
            done: Seq::empty(),
            slot: leading_digit(id as nat) - 1,
            carry: leaf_hash,
        },
    }
}

/// The end of an update whose leaf has been updated and whose ancestors
/// have been walked: the world takes the change in.
pub open spec fn spec_finish(
    world: WorldView,
    new_leaf: TrixelView,
    delta: i64,
    activated: bool,
    walked: Result<Walk, ErrorCode>,
) -> Result<Outcome, ErrorCode> {
    match walked {
        Err(e) => Err(e),
        Ok(walk) => match spec_world_step(world, delta, activated, walk.slot, walk.carry) {
            Err(e) => Err(e),
            Ok(new_world) => Ok(
                Outcome { world: new_world, trixel: new_leaf, ancestors: walk.done },
            ),
        },
    }
}

/// The views of the records of `accounts`.
pub open spec fn records_of(accounts: Seq<TrixelAccount>) -> Seq<TrixelView> {
    Seq::new(accounts.len(), |i: int| accounts[i].trixel@)
}

/// The leaf with the observation taken in.
fn leaf_step(leaf: &Trixel, world_type: TrixelDataType, value: i32, now: i64) -> (r: Result<
    (Trixel, i64, bool),
    ErrorCode,
>)
    ensures
        match spec_leaf_step(leaf@, world_type, value, now) {
            Ok((after, delta, activated)) => r is Ok && r->Ok_0.0@ == after && r->Ok_0.1 == delta
                && r->Ok_0.2 == activated && after.hash_is_current(),
            Err(e) => r == Err::<(Trixel, i64, bool), ErrorCode>(e),
        },
{
    let update = match leaf.data.update_leaf(world_type, value) {
        Ok(update) => update,
        Err(e) => {
            return Err(e);
        },
    };
    if leaf.updates == u64::MAX {
        return Err(ErrorCode::ArithmeticOverflow);
    }
    let mut after: Trixel = *leaf;
    after.data = update.data;
    after.last_update = now;
    after.updates = after.updates + 1;
    let _ = after.refresh_hash();
    Ok((after, update.delta, update.activated))
}

/// One ancestor with the change and the hash from below taken in.
fn ancestor_step(
    account: &TrixelAccount,
    id: u64,
    world_key: &[u8; 32],
    program_id: &[u8; 32],
    world_type: TrixelDataType,
    delta: i64,
    activated: bool,
    slot: usize,
    carry: [u8; 32],
    now: i64,
) -> (r: Result<Trixel, ErrorCode>)
    ensures
        match spec_ancestor_step(
            account@,
            id,
            world_key@,
            program_id@,
            world_type,
            delta,
            activated,
            slot as int,
            carry@,
            now,
        ) {
            Ok(after) => r is Ok && r->Ok_0@ == after && after.hash_is_current(),
            Err(e) => r == Err::<Trixel, ErrorCode>(e),
        },
{
    match trixel_address(id, world_key, program_id) {
        Some((expected, _)) => {
            if !same_key(&account.key, &expected) {
                return Err(ErrorCode::InvalidTrixelAccount);
            }
        },
        None => {
            return Err(ErrorCode::InvalidTrixelAccount);
        },
    }
    let mut record: Trixel = account.trixel;
    if !same_key(&record.world, world_key) {
        return Err(ErrorCode::AccountMismatch);
    }
    let data = match record.data.update_inner(world_type, delta, activated) {
        Ok(data) => data,
        Err(e) => {
            return Err(e);
        },
    };
    if record.updates == u64::MAX {
        return Err(ErrorCode::ArithmeticOverflow);
    }
    record.data = data;
    record.last_update = now;
    record.updates = record.updates + 1;
    match record.update_child_hash(slot, carry, now) {
        Ok(_) => Ok(record),
        Err(e) => Err(e),
    }
}

/// The world with the change and the hash from below taken in.
fn world_step(world: &World, delta: i64, activated: bool, slot: usize, carry: [u8; 32]) -> (r:
    Result<World, ErrorCode>)
    ensures
        match spec_world_step(world@, delta, activated, slot as int, carry@) {
            Ok(after) => r is Ok && r->Ok_0@ == after && after.root_is_current(),
            Err(e) => r == Err::<World, ErrorCode>(e),
        },
{
    let world_type = world.data.to_data_type();
    let data = match world.data.update_inner(world_type, delta, activated) {
        Ok(data) => data,
        Err(e) => {
            return Err(e);
        },
    };
    if world.updates == u64::MAX {
        return Err(ErrorCode::ArithmeticOverflow);
    }
    let mut after: World = *world;
    after.data = data;
    after.updates = after.updates + 1;
    match after.update_child_hash_and_root(slot, carry) {
        Ok(()) => Ok(after),
        Err(e) => Err(e),
    }
}

/// What a call of the update leaves behind. Where the update is accepted,
/// the leaf, each ancestor and the world are as `spec_update_trixel` says,
/// each with a hash that is that of what it holds, and the addresses and
/// everything else stay. Where it is turned away, with the error that
/// `spec_update_trixel` names, everything is exactly as it was.
pub open spec fn update_trixel_leaves(
    before: UpdateTrixelCtx,
    after: UpdateTrixelCtx,
    args: UpdateTrixelArgs,
    now: i64,
    r: Result<(), ErrorCode>,
) -> bool {
    match spec_update_trixel(
        before.payer@,
        before.world_key@,
        before.world@,
        before.trixel@,
        accounts_view(before.remaining_accounts@),
        before.program_id@,
        args,
        now,
    ) {
        Ok(outcome) => {
            &&& r is Ok
            &&& after.world@ == outcome.world
            &&& after.trixel@ == outcome.trixel
            &&& records_of(after.remaining_accounts@) == outcome.ancestors
            &&& after.remaining_accounts@.len() == before.remaining_accounts@.len()
            &&& forall|i: int|
                0 <= i < before.remaining_accounts@.len() ==> (
                #[trigger] after.remaining_accounts@[i]).key == before.remaining_accounts@[i].key
            &&& after.payer == before.payer
            &&& after.world_key == before.world_key
            &&& after.program_id == before.program_id
            &&& outcome.world.root_is_current()
            &&& outcome.trixel.hash_is_current()
            &&& forall|i: int|
                0 <= i < outcome.ancestors.len() ==> (
                #[trigger] outcome.ancestors[i]).hash_is_current()
        },
        Err(e) => r == Err::<(), ErrorCode>(e) && after == before,
    }
}

/// Carries one observation from its leaf to the root. `now` is the time in
/// seconds since the epoch.
pub fn handle_update_trixel(ctx: &mut UpdateTrixelCtx, args: UpdateTrixelArgs, now: i64) -> (r:
    Result<(), ErrorCode>)
    ensures
        update_trixel_leaves(*old(ctx), *final(ctx), args, now, r),
{
    let world_type = ctx.world.data.to_data_type();
    if !(same_key(&ctx.world.authority, &ctx.payer) || !ctx.world.permissioned_updates) {
        return Err(ErrorCode::UnauthorizedAction);
    }
    let resolution = match resolution_from_trixel_id(args.id) {
        Ok(resolution) => resolution,
        Err(e) => {
            return Err(e);
        },
    };
    if resolution != ctx.world.canonical_resolution {
        return Err(ErrorCode::InvalidResolution);
    }
    match args.located {
        Some(Err(e)) => {
            return Err(e);
        },
        Some(Ok(expected)) => {
            if expected != args.id {
                return Err(ErrorCode::InvalidTrixelId);
            }
        },
        None => {},
    }
    let ancestors = match get_trixel_ancestors(args.id) {
        Ok(ancestors) => ancestors,
        Err(e) => {
            return Err(e);
        },
    };
    if ancestors.len() != ctx.remaining_accounts.len() {
        return Err(ErrorCode::InvalidArgument);
    }
    let (leaf, delta, activated) = match leaf_step(&ctx.trixel, world_type, args.value, now) {
        Ok(stepped) => stepped,
        Err(e) => {
            return Err(e);
        },
    };
    let (first_slot, _) = match get_child_index(args.id) {
        Ok(index) => index,
        Err(e) => {
            return Err(e);
        },
    };
    let mut slot: usize = first_slot;
    let mut carry: [u8; 32] = leaf.hash;
    let mut done: Vec<TrixelAccount> = Vec::new();
    let ghost climb = spec_climb(
        accounts_view(ctx.remaining_accounts@),
        args.id,
        ctx.world_key@,
        ctx.program_id@,
        world_type,
        delta,
        activated,
        now,
        leaf@.hash,
    );
    let count = ctx.remaining_accounts.len();
    let mut i: usize = 0;
    assert(records_of(done@) =~= climb.start.done);
    while i < count
        invariant
            i <= count,
            count == ctx.remaining_accounts@.len(),
            count == ancestors@.len(),
            ancestors@ == spec_ancestors(args.id),
            *ctx == *old(ctx),
            spec_update_trixel(
                ctx.payer@,
                ctx.world_key@,
                ctx.world@,
                ctx.trixel@,
                accounts_view(ctx.remaining_accounts@),
                ctx.program_id@,
                args,
                now,
            ) == spec_finish(ctx.world@, leaf@, delta, activated, climb.walk(count as nat)),
            climb.accounts == accounts_view(ctx.remaining_accounts@),
            climb.id == args.id,
            climb.world_key == ctx.world_key@,
            climb.program_id == ctx.program_id@,
            climb.world_type == world_type,
            climb.delta == delta,
            climb.activated == activated,
            climb.now == now,
            done@.len() == i,
            forall|j: int| 0 <= j < i ==> (#[trigger] done@[j]).key == ctx.remaining_accounts@[j].key,
            forall|j: int| 0 <= j < i ==> (#[trigger] done@[j]).trixel@.hash_is_current(),
            climb.walk(i as nat) == Ok::<Walk, ErrorCode>(
                Walk { done: records_of(done@), slot: slot as int, carry: carry@ },
            ),
        decreases count - i,
    {
        let account: TrixelAccount = ctx.remaining_accounts[i];
        let ghost before = Walk { done: records_of(done@), slot: slot as int, carry: carry@ };
        let stepped = ancestor_step(
            &account,
            ancestors[i],
            &ctx.world_key,
            &ctx.program_id,
            world_type,
            delta,
            activated,
            slot,
            carry,
            now,
        );
        let record = match stepped {
            Ok(record) => record,
            Err(e) => {
                proof {
                    climb.lemma_walk_fails((i + 1) as nat, count as nat);
                }
                return Err(e);
            },
        };
        let next_slot = match get_child_index(record.id) {
            Ok((next_slot, _)) => next_slot,
            Err(e) => {
                proof {
                    climb.lemma_walk_fails((i + 1) as nat, count as nat);
                }
                return Err(e);
            },
        };
        slot = next_slot;
        carry = record.hash;
        done.push(TrixelAccount { key: account.key, trixel: record });
        assert(records_of(done@) =~= before.done.push(record@));
        i = i + 1;
    }
    let world = match world_step(&ctx.world, delta, activated, slot, carry) {
        Ok(world) => world,
        Err(e) => {
            return Err(e);
        },
    };
    ctx.world = world;
    ctx.trixel = leaf;
    ctx.remaining_accounts = done;
    Ok(())
}

} // verus!
