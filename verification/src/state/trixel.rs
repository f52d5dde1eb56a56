use crate::errors::ErrorCode;
use crate::helpers::sha256::{sha256, sha256_digest};
use crate::state::trixel_data::{TrixelData, TrixelDataType};
use vstd::prelude::*;

verus! {

/// The record of one trixel, inner or leaf: its statistic, the hashes of
/// its four children (all zero where a child is absent, and for a leaf) and
/// its own hash.
#[derive(Clone, Copy, Debug, PartialEq, Eq)]
pub struct Trixel {
    pub world: [u8; 32],
    pub id: u64,
    pub resolution: u8,
    pub updates: u64,
    pub last_update: i64,
    pub hash: [u8; 32],
    pub child_hashes: [[u8; 32]; 4],
    pub data: TrixelData,
}

/// A trixel record as a value of sequences.
pub struct TrixelView {
    pub world: Seq<u8>,
    pub id: u64,
    pub resolution: u8,
    pub updates: u64,
    pub last_update: i64,
    pub hash: Seq<u8>,
    pub child_hashes: Seq<Seq<u8>>,
    pub data: TrixelData,
}

/// All the sequences of `parts`, one after the other.
pub open spec fn concat(parts: Seq<Seq<u8>>) -> Seq<u8>
    decreases parts.len(),
{
    if parts.len() == 0 {
        Seq::empty()
    } else {
        concat(parts.drop_last()) + parts.last()
    }
}

/// The smaller of `sum` and `limit`.
pub open spec fn capped(sum: int, limit: int) -> int {
    if sum > limit {
        limit
    } else {
        sum
    }
}

/// `new_data` taken into `data`: a saturating sum where both are counts,
/// both accumulated aggregates or both accumulated means, else `new_data`.
pub open spec fn spec_merge(data: TrixelData, new_data: TrixelData) -> TrixelData {
    match (data, new_data) {
        (TrixelData::Count { count: a }, TrixelData::Count { count: b }) => TrixelData::Count {
            count: capped(a + b, u32::MAX as int) as u32,
        },
        (
            TrixelData::AggregateAccumulate { metric: a },
            TrixelData::AggregateAccumulate { metric: b },
        ) => TrixelData::AggregateAccumulate { metric: capped(a + b, u64::MAX as int) as u64 },
        (
            TrixelData::MeanAccumulate { numerator: a, denominator: c },
            TrixelData::MeanAccumulate { numerator: b, denominator: d },
        ) => TrixelData::MeanAccumulate {
            numerator: capped(a + b, u64::MAX as int) as u64,
            denominator: capped(c + d, u64::MAX as int) as u64,
        },
        _ => new_data,
    }
}

/// Thirty-two zero bytes: the hash of a child that is not there.
pub open spec fn zero_hash() -> Seq<u8> {
    Seq::new(32, |i: int| 0u8)
}

impl TrixelView {
    /// What the record's hash has to be: the digest of its serialized
    /// statistic followed by the hashes of its four children.
    pub open spec fn spec_hash(self) -> Seq<u8> {
        sha256(self.data.spec_serialize() + concat(self.child_hashes))
    }

    /// The record's hash is that of what it holds.
    pub open spec fn hash_is_current(self) -> bool {
        self.hash == self.spec_hash()
    }

    /// Two records of the same trixel that hold the same: what may differ
    /// is how many updates they have counted and when the last one was.
    pub open spec fn same_content(self, other: TrixelView) -> bool {
        &&& self.world == other.world
        &&& self.id == other.id
        &&& self.resolution == other.resolution
        &&& self.data == other.data
        &&& self.child_hashes == other.child_hashes
        &&& self.hash == other.hash
    }

    /// The record with its hash computed anew.
    pub open spec fn rehashed(self) -> TrixelView {
        TrixelView { hash: self.spec_hash(), ..self }
    }

    /// A new record for a trixel of a world, with nothing observed.
    pub open spec fn spec_init(
        world: Seq<u8>,
        id: u64,
        resolution: u8,
        data_type: TrixelDataType,
        now: i64,
    ) -> TrixelView {
        TrixelView {
            world,
            id,
            resolution,
            updates: 0,
            last_update: now,
            hash: zero_hash(),
            child_hashes: Seq::new(4, |i: int| zero_hash()),
            data: TrixelData::spec_init(data_type),
        }.rehashed()
    }

    /// The record once `new_data` has been taken into its statistic: added
    /// to it, stopping at the largest value, where both are counts, both
    /// accumulated aggregates or both accumulated means; put in its place
    /// otherwise.
    pub open spec fn spec_update_data(self, new_data: TrixelData, now: i64) -> Result<
        TrixelView,
        ErrorCode,
    > {
        if self.updates == u64::MAX {
            Err(ErrorCode::ArithmeticOverflow)
        } else {
            Ok(
                TrixelView {
                    data: spec_merge(self.data, new_data),
                    last_update: now,
                    updates: (self.updates + 1) as u64,
                    ..self
                }.rehashed(),
            )
        }
    }

    /// The record once the hash of the child in `slot` has become `hash`.
    pub open spec fn spec_update_child_hash(self, slot: int, hash: Seq<u8>, now: i64) -> Result<
        TrixelView,
        ErrorCode,
    > {
        if slot >= 4 {
            Err(ErrorCode::InvalidArgument)
        } else if self.updates == u64::MAX {
            Err(ErrorCode::ArithmeticOverflow)
        } else {
            Ok(
                TrixelView {
                    child_hashes: self.child_hashes.update(slot, hash),
                    last_update: now,
                    updates: (self.updates + 1) as u64,
                    ..self
                }.rehashed(),
            )
        }
    }
}

impl View for Trixel {
    type V = TrixelView;

    open spec fn view(&self) -> TrixelView {
        TrixelView {
            world: self.world@,
            id: self.id,
            resolution: self.resolution,
            updates: self.updates,
            last_update: self.last_update,
            hash: self.hash@,
            child_hashes: Seq::new(4, |i: int| self.child_hashes@[i]@),
            data: self.data,
        }
    }
}

/// Puts the 32 bytes of `hash` at the end of `buffer`.
pub(crate) fn push_hash(buffer: &mut Vec<u8>, hash: &[u8; 32])
    ensures
        final(buffer)@ == old(buffer)@ + hash@,
{
    let mut i: usize = 0;
    while i < 32
        invariant
            i <= 32,
            buffer@ == old(buffer)@ + hash@.subrange(0, i as int),
        decreases 32 - i,
    {
        buffer.push(hash[i]);
        i = i + 1;
    }
    assert(hash@.subrange(0, 32) =~= hash@);
}

impl Trixel {
    /// A record with every field zero, and a count of zero for its statistic.
    pub fn new() -> (trixel: Trixel)
        ensures
            trixel.world@ == zero_hash(),
            trixel.hash@ == zero_hash(),
            trixel@.child_hashes == Seq::new(4, |i: int| zero_hash()),
            trixel.id == 0,
            trixel.resolution == 0,
            trixel.updates == 0,
            trixel.last_update == 0,
            trixel.data == (TrixelData::Count { count: 0 }),
    {
        let trixel = Trixel {
            world: [0u8; 32],
            id: 0,
            resolution: 0,
            updates: 0,
            last_update: 0,
            hash: [0u8; 32],
            child_hashes: [[0u8; 32]; 4],
            data: TrixelData::Count { count: 0 },
        };
        assert(trixel.world@ =~= zero_hash());
        assert(trixel.hash@ =~= zero_hash());
        assert(trixel@.child_hashes =~= Seq::new(4, |i: int| zero_hash())) by {
            assert forall|i: int| 0 <= i < 4 implies trixel.child_hashes@[i]@ =~= zero_hash() by {}
        }
        trixel
    }

    /// The digest of the record's serialized statistic followed by the
    /// hashes of its four children.
    pub fn compute_hash(&self) -> (r: Result<[u8; 32], ErrorCode>)
        ensures
            r is Ok,
            r->Ok_0@ == self@.spec_hash(),
    {
        let mut buffer = self.data.serialize();
        let ghost head = buffer@;
        let mut i: usize = 0;
        while i < 4
            invariant
                i <= 4,
                buffer@ == head + concat(self@.child_hashes.subrange(0, i as int)),
            decreases 4 - i,
        {
            let child: [u8; 32] = self.child_hashes[i];
            push_hash(&mut buffer, &child);
            proof {
                let done = self@.child_hashes.subrange(0, i + 1);
                assert(done.drop_last() =~= self@.child_hashes.subrange(0, i as int));
                assert(done.last() == child@);
            }
            i = i + 1;
        }
        assert(self@.child_hashes.subrange(0, 4) =~= self@.child_hashes);
        Ok(sha256_digest(buffer.as_slice()))
    }

    /// Makes the record that of the trixel `id` of the world at `world`, at
    /// depth `resolution`, with nothing observed, no children and the hash
    /// that goes with that. `now` is the time in seconds since the epoch.
    pub fn init(
        &mut self,
        world: [u8; 32],
        id: u64,
        resolution: u8,
        world_data_type: TrixelDataType,
        now: i64,
    ) -> (r: Result<(), ErrorCode>)
        ensures
            r is Ok,
            final(self)@ == TrixelView::spec_init(world@, id, resolution, world_data_type, now),
            final(self)@.hash_is_current(),
    {
        self.world = world;
        self.id = id;
        self.resolution = resolution;
        self.child_hashes = [[0u8; 32]; 4];
        self.last_update = now;
        self.updates = 0;
        self.data = TrixelData::init(world_data_type);
        assert(self@.child_hashes =~= Seq::new(4, |i: int| zero_hash())) by {
            assert forall|i: int| 0 <= i < 4 implies self.child_hashes@[i]@ =~= zero_hash() by {}
        }
        let hash = self.compute_hash();
        match hash {
            Ok(hash) => {
                self.hash = hash;
            },
            Err(_) => {},
        }
        Ok(())
    }

    /// Computes the record's hash anew, stores it and returns it.
    pub fn refresh_hash(&mut self) -> (r: Result<[u8; 32], ErrorCode>)
        ensures
            r is Ok,
            final(self)@ == old(self)@.rehashed(),
            r->Ok_0@ == final(self)@.hash,
            final(self)@.hash_is_current(),
    {
        let hash = self.compute_hash();
        match hash {
            Ok(hash) => {
                self.hash = hash;
                Ok(hash)
            },
            Err(e) => Err(e),
        }
    }

    /// Stores `new_hash` as the hash of the child in slot `child_idx`,
    /// computes the record's own hash anew, and counts the update. Returns
    /// the new hash. There are four slots; a record that has counted
    /// `u64::MAX` updates takes no more. On failure the record is unchanged.
    pub fn update_child_hash(&mut self, child_idx: usize, new_hash: [u8; 32], now: i64) -> (r:
        Result<[u8; 32], ErrorCode>)
        ensures
            match old(self)@.spec_update_child_hash(child_idx as int, new_hash@, now) {
                Ok(after) => r is Ok && final(self)@ == after && r->Ok_0@ == after.hash
                    && after.hash_is_current(),
                Err(e) => r == Err::<[u8; 32], ErrorCode>(e) && *final(self) == *old(self),
            },
    {
        if child_idx >= 4 {
            return Err(ErrorCode::InvalidArgument);
        }
        if self.updates == u64::MAX {
            return Err(ErrorCode::ArithmeticOverflow);
        }
        self.child_hashes[child_idx] = new_hash;
        assert(self@.child_hashes =~= old(self)@.child_hashes.update(child_idx as int, new_hash@));
        self.last_update = now;
        self.updates = self.updates + 1;
        self.refresh_hash()
    }

    /// Takes `new_data` into the record's statistic, computes the record's
    /// hash anew, and counts the update. Returns the new hash. A record that
    /// has counted `u64::MAX` updates takes no more, and is left unchanged.
    pub fn update_data(&mut self, new_data: TrixelData, now: i64) -> (r: Result<
        [u8; 32],
        ErrorCode,
    >)
        ensures
            match old(self)@.spec_update_data(new_data, now) {
                Ok(after) => r is Ok && final(self)@ == after && r->Ok_0@ == after.hash
                    && after.hash_is_current(),
                Err(e) => r == Err::<[u8; 32], ErrorCode>(e) && *final(self) == *old(self),
            },
    {
        if self.updates == u64::MAX {
            return Err(ErrorCode::ArithmeticOverflow);
        }
        self.data = match (self.data, new_data) {
            (TrixelData::Count { count }, TrixelData::Count { count: new_count }) => {
                TrixelData::Count {
                    count: match count.checked_add(new_count) {
                        Some(sum) => sum,
                        None => u32::MAX,
                    },
                }
            },
            (
                TrixelData::AggregateAccumulate { metric },
                TrixelData::AggregateAccumulate { metric: new_metric },
            ) => {
                TrixelData::AggregateAccumulate { metric: saturating_sum(metric, new_metric) }
            },
            (
                TrixelData::MeanAccumulate { numerator, denominator },
                TrixelData::MeanAccumulate {
                    numerator: new_numerator,
                    denominator: new_denominator,
                },
            ) => {
                TrixelData::MeanAccumulate {
                    numerator: saturating_sum(numerator, new_numerator),
                    denominator: saturating_sum(denominator, new_denominator),
                }
            },
            _ => new_data,
        };
        self.last_update = now;
        self.updates = self.updates + 1;
        self.refresh_hash()
    }
}

/// The sum of two numbers, or the largest number where the sum is larger.
fn saturating_sum(a: u64, b: u64) -> (sum: u64)
    ensures
        sum == capped(a + b, u64::MAX as int),
{
    match a.checked_add(b) {
        Some(sum) => sum,
        None => u64::MAX,
    }
}

impl Default for Trixel {
    fn default() -> (trixel: Trixel)
        ensures
            trixel.world@ == zero_hash(),
            trixel.hash@ == zero_hash(),
            trixel@.child_hashes == Seq::new(4, |i: int| zero_hash()),
            trixel.id == 0,
            trixel.resolution == 0,
            trixel.updates == 0,
            trixel.last_update == 0,
            trixel.data == (TrixelData::Count { count: 0 }),
    {
        Trixel::new()
    }
}

} // verus!
