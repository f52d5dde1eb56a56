use crate::errors::ErrorCode;
use crate::helpers::sha256::{sha256, sha256_digest};
use crate::state::trixel::{concat, push_hash, zero_hash};
use crate::state::trixel_data::{TrixelData, TrixelDataType};
use vstd::prelude::*;

verus! {

/// The deepest canonical resolution that a world can have.
pub const ABSOLUTE_MAX_RESOLUTION: u8 = 10;

/// The root of one aggregation tree: its configuration, the hashes of the
/// eight base trixels (all zero where one is absent), the root hash over
/// these, and the statistic of the whole sphere.
#[derive(Clone, Copy, Debug, PartialEq, Eq)]
pub struct World {
    pub authority: [u8; 32],
    pub name: [u8; 32],
    pub canonical_resolution: u8,
    pub permissioned_updates: bool,
    pub updates: u64,
    pub root_hash: [u8; 32],
    pub child_hashes: [[u8; 32]; 8],
    pub data: TrixelData,
}

/// A world record as a value of sequences.
pub struct WorldView {
    pub authority: Seq<u8>,
    pub name: Seq<u8>,
    pub canonical_resolution: u8,
    pub permissioned_updates: bool,
    pub updates: u64,
    pub root_hash: Seq<u8>,
    pub child_hashes: Seq<Seq<u8>>,
    pub data: TrixelData,
}

impl WorldView {
    /// What the root hash has to be: the digest of the hashes of the eight
    /// base trixels. The world's statistic has no part in it.
    pub open spec fn spec_root_hash(self) -> Seq<u8> {
        sha256(concat(self.child_hashes))
    }

    /// The root hash is that of the eight hashes held.
    pub open spec fn root_is_current(self) -> bool {
        self.root_hash == self.spec_root_hash()
    }

    /// Two records of the same world that hold the same: what may differ
    /// is how many updates they have counted.
    pub open spec fn same_content(self, other: WorldView) -> bool {
        &&& self.authority == other.authority
        &&& self.name == other.name
        &&& self.canonical_resolution == other.canonical_resolution
        &&& self.permissioned_updates == other.permissioned_updates
        &&& self.data == other.data
        &&& self.child_hashes == other.child_hashes
        &&& self.root_hash == other.root_hash
    }

    /// The record with its root hash computed anew.
    pub open spec fn rehashed(self) -> WorldView {
        WorldView { root_hash: self.spec_root_hash(), ..self }
    }

    /// A new world with nothing observed; its canonical resolution must be
    /// at least 1 and at most 10.
    pub open spec fn spec_init(
        authority: Seq<u8>,
        name: Seq<u8>,
        canonical_resolution: u8,
        permissioned_updates: bool,
        data_type: TrixelDataType,
    ) -> Result<WorldView, ErrorCode> {
        if canonical_resolution > ABSOLUTE_MAX_RESOLUTION || canonical_resolution < 1 {
            Err(ErrorCode::InvalidArgument)
        } else {
            Ok(
                WorldView {
                    authority,
                    name,
                    canonical_resolution,
                    permissioned_updates,
                    updates: 0,
                    root_hash: zero_hash(),
                    child_hashes: Seq::new(8, |i: int| zero_hash()),
                    data: TrixelData::spec_init(data_type),
                }.rehashed(),
            )
        }
    }

    /// The world once the hash of the base trixel in `slot` has become
    /// `hash`.
    pub open spec fn spec_update_child_hash(self, slot: int, hash: Seq<u8>) -> Result<
        WorldView,
        ErrorCode,
    > {
        if slot >= 8 {
            Err(ErrorCode::InvalidArgument)
        } else {
            Ok(WorldView { child_hashes: self.child_hashes.update(slot, hash), ..self }.rehashed())
        }
    }

    /// The same, with the update counted.
    pub open spec fn spec_update_child_hash_and_root(self, slot: int, hash: Seq<u8>) -> Result<
        WorldView,
        ErrorCode,
    > {
        match self.spec_update_child_hash(slot, hash) {
            Err(e) => Err(e),
            Ok(after) => if self.updates == u64::MAX {
                Err(ErrorCode::ArithmeticOverflow)
            } else {
                Ok(WorldView { updates: (self.updates + 1) as u64, ..after })
            },
        }
    }
}

impl View for World {
    type V = WorldView;

    open spec fn view(&self) -> WorldView {
        WorldView {
            authority: self.authority@,
            name: self.name@,
            canonical_resolution: self.canonical_resolution,
            permissioned_updates: self.permissioned_updates,
            updates: self.updates,
            root_hash: self.root_hash@,
            child_hashes: Seq::new(8, |i: int| self.child_hashes@[i]@),
            data: self.data,
        }
    }
}

impl World {
    /// Makes the record a new world with the given configuration: nothing
    /// observed, no base trixels, and the root hash that goes with that. A
    /// canonical resolution outside 1 to 10 is turned away, and the record
    /// left as it was.
    pub fn init(
        &mut self,
        authority: [u8; 32],
        name: [u8; 32],
        canonical_resolution: u8,
        permissioned_updates: bool,
        data_type: TrixelDataType,
    ) -> (r: Result<(), ErrorCode>)
        ensures
            match WorldView::spec_init(
                authority@,
                name@,
                canonical_resolution,
                permissioned_updates,
                data_type,
            ) {
                Ok(after) => r is Ok && final(self)@ == after && after.root_is_current(),
                Err(e) => r == Err::<(), ErrorCode>(e) && *final(self) == *old(self),
            },
            r is Ok <==> 1 <= canonical_resolution <= 10,
    {
        if canonical_resolution > ABSOLUTE_MAX_RESOLUTION {
            return Err(ErrorCode::InvalidArgument);
        }
        if canonical_resolution < 1 {
            return Err(ErrorCode::InvalidArgument);
        }
        self.authority = authority;
        self.name = name;
        self.canonical_resolution = canonical_resolution;
        self.permissioned_updates = permissioned_updates;
        self.child_hashes = [[0u8; 32]; 8];
        assert(self@.child_hashes =~= Seq::new(8, |i: int| zero_hash())) by {
            assert forall|i: int| 0 <= i < 8 implies self.child_hashes@[i]@ =~= zero_hash() by {}
        }
        match self.compute_root_hash() {
            Ok(hash) => {
                self.root_hash = hash;
            },
            Err(_) => {},
        }
        self.updates = 0;
        self.data = TrixelData::init(data_type);
        Ok(())
    }

    /// The digest of the hashes of the eight base trixels.
    pub fn compute_root_hash(&self) -> (r: Result<[u8; 32], ErrorCode>)
        ensures
            r is Ok,
            r->Ok_0@ == self@.spec_root_hash(),
    {
        let mut buffer: Vec<u8> = Vec::new();
        let mut i: usize = 0;
        while i < 8
            invariant
                i <= 8,
                buffer@ == concat(self@.child_hashes.subrange(0, i as int)),
            decreases 8 - i,
        {
            let child: [u8; 32] = self.child_hashes[i];
            push_hash(&mut buffer, &child);
            proof {
                let done = self@.child_hashes.subrange(0, i + 1);
                assert(done.drop_last() =~= self@.child_hashes.subrange(0, i as int));
                assert(done.last() == child@);
            }
            i = i + 1;
        }
        assert(self@.child_hashes.subrange(0, 8) =~= self@.child_hashes);
        Ok(sha256_digest(buffer.as_slice()))
    }

    /// Stores `new_hash` as the hash of the base trixel in slot `child_idx`
    /// and computes the root hash anew. Returns the new root hash. There are
    /// eight slots; for any other the world is left unchanged.
    pub fn update_child_hash(&mut self, child_idx: usize, new_hash: [u8; 32]) -> (r: Result<
        [u8; 32],
        ErrorCode,
    >)
        ensures
            match old(self)@.spec_update_child_hash(child_idx as int, new_hash@) {
                Ok(after) => r is Ok && final(self)@ == after && r->Ok_0@ == after.root_hash
                    && after.root_is_current(),
                Err(e) => r == Err::<[u8; 32], ErrorCode>(e) && *final(self) == *old(self),
            },
    {
        if child_idx >= 8 {
            return Err(ErrorCode::InvalidArgument);
        }
        self.child_hashes[child_idx] = new_hash;
        assert(self@.child_hashes =~= old(self)@.child_hashes.update(child_idx as int, new_hash@));
        match self.compute_root_hash() {
            Ok(hash) => {
                self.root_hash = hash;
                Ok(hash)
            },
            Err(e) => Err(e),
        }
    }

    /// Stores `new_hash` as the hash of the base trixel in slot `child_idx`,
    /// computes the root hash anew and counts the update. A world that has
    /// counted `u64::MAX` updates takes no more. On failure the world is
    /// unchanged.
    pub fn update_child_hash_and_root(&mut self, child_idx: usize, new_hash: [u8; 32]) -> (r:
        Result<(), ErrorCode>)
        ensures
            match old(self)@.spec_update_child_hash_and_root(child_idx as int, new_hash@) {
                Ok(after) => r is Ok && final(self)@ == after && after.root_is_current(),
                Err(e) => r == Err::<(), ErrorCode>(e) && *final(self) == *old(self),
            },
    {
        if child_idx >= 8 {
            return Err(ErrorCode::InvalidArgument);
        }
        if self.updates == u64::MAX {
            return Err(ErrorCode::ArithmeticOverflow);
        }
        match self.update_child_hash(child_idx, new_hash) {
            Ok(_) => {
                self.updates = self.updates + 1;
                Ok(())
            },
            Err(e) => Err(e),
        }
    }
}

impl Default for World {
    fn default() -> (world: World)
        ensures
            world.authority@ == zero_hash(),
            world.name@ == zero_hash(),
            world.root_hash@ == zero_hash(),
            world@.child_hashes == Seq::new(8, |i: int| zero_hash()),
            world.canonical_resolution == 0,
            !world.permissioned_updates,
            world.updates == 0,
            world.data == (TrixelData::Count { count: 0 }),
    {
        let world = World {
            authority: [0u8; 32],
            name: [0u8; 32],
            canonical_resolution: 0,
            permissioned_updates: false,
            updates: 0,
            root_hash: [0u8; 32],
            child_hashes: [[0u8; 32]; 8],
            data: TrixelData::Count { count: 0 },
        };
        assert(world.authority@ =~= zero_hash());
        assert(world.name@ =~= zero_hash());
        assert(world.root_hash@ =~= zero_hash());
        assert(world@.child_hashes =~= Seq::new(8, |i: int| zero_hash())) by {
            assert forall|i: int| 0 <= i < 8 implies world.child_hashes@[i]@ =~= zero_hash() by {}
        }
        world
    }
}

} // verus!
