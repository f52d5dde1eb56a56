use crate::errors::ErrorCode;
use vstd::bytes::{spec_u32_to_le_bytes, spec_u64_to_le_bytes, u32_to_le_bytes, u64_to_le_bytes};
use vstd::prelude::*;

verus! {

/// Which statistic a world keeps. It is fixed when the world is created and
/// every record of the world carries it.
#[derive(Clone, Copy, Debug, PartialEq, Eq, Structural)]
pub enum TrixelDataType {
    Count,
    AggregateOverwrite,
    AggregateAccumulate,
    MeanOverwrite,
    MeanAccumulate,
}

/// The statistic held by a trixel or by a world.
#[derive(Clone, Copy, Debug, PartialEq, Eq, Structural)]
pub enum TrixelData {
    Count { count: u32 },
    AggregateOverwrite { metric: u64 },
    AggregateAccumulate { metric: u64 },
    MeanOverwrite { numerator: u64, denominator: u64 },
    MeanAccumulate { numerator: u64, denominator: u64 },
}

/// What an observation did to a leaf: the leaf's new statistic, the change
/// that every trixel above it has to take in, and whether the leaf was
/// observed for the first time.
#[derive(Clone, Copy, Debug, PartialEq, Eq, Structural)]
pub struct LeafUpdate {
    pub data: TrixelData,
    pub delta: i64,
    pub activated: bool,
}

impl TrixelDataType {
    /// The byte that stands for the kind in a serialized statistic.
    pub open spec fn spec_tag(self) -> u8 {
        match self {
            TrixelDataType::Count => 0,
            TrixelDataType::AggregateOverwrite => 1,
            TrixelDataType::AggregateAccumulate => 2,
            TrixelDataType::MeanOverwrite => 3,
            TrixelDataType::MeanAccumulate => 4,
        }
    }

    pub open spec fn is_mean(self) -> bool {
        self == TrixelDataType::MeanOverwrite || self == TrixelDataType::MeanAccumulate
    }
}

impl TrixelData {
    pub open spec fn spec_data_type(self) -> TrixelDataType {
        match self {
            TrixelData::Count { .. } => TrixelDataType::Count,
            TrixelData::AggregateOverwrite { .. } => TrixelDataType::AggregateOverwrite,
            TrixelData::AggregateAccumulate { .. } => TrixelDataType::AggregateAccumulate,
            TrixelData::MeanOverwrite { .. } => TrixelDataType::MeanOverwrite,
            TrixelData::MeanAccumulate { .. } => TrixelDataType::MeanAccumulate,
        }
    }

    /// The statistic of the given kind with nothing observed.
    pub open spec fn spec_init(data_type: TrixelDataType) -> TrixelData {
        match data_type {
            TrixelDataType::Count => TrixelData::Count { count: 0 },
            TrixelDataType::AggregateOverwrite => TrixelData::AggregateOverwrite { metric: 0 },
            TrixelDataType::AggregateAccumulate => TrixelData::AggregateAccumulate { metric: 0 },
            TrixelDataType::MeanOverwrite => TrixelData::MeanOverwrite {
                numerator: 0,
                denominator: 0,
            },
            TrixelDataType::MeanAccumulate => TrixelData::MeanAccumulate {
                numerator: 0,
                denominator: 0,
            },
        }
    }

    /// The count, metric or numerator.
    pub open spec fn total(self) -> int {
        match self {
            TrixelData::Count { count } => count as int,
            TrixelData::AggregateOverwrite { metric } => metric as int,
            TrixelData::AggregateAccumulate { metric } => metric as int,
            TrixelData::MeanOverwrite { numerator, .. } => numerator as int,
            TrixelData::MeanAccumulate { numerator, .. } => numerator as int,
        }
    }

    /// The denominator of a mean; zero for the other kinds.
    pub open spec fn weight(self) -> int {
        match self {
            TrixelData::MeanOverwrite { denominator, .. } => denominator as int,
            TrixelData::MeanAccumulate { denominator, .. } => denominator as int,
            _ => 0,
        }
    }

    /// The fields of the statistic in little-endian order.
    pub open spec fn spec_fields(self) -> Seq<u8> {
        match self {
            TrixelData::Count { count } => spec_u32_to_le_bytes(count),
            TrixelData::AggregateOverwrite { metric } => spec_u64_to_le_bytes(metric),
            TrixelData::AggregateAccumulate { metric } => spec_u64_to_le_bytes(metric),
            TrixelData::MeanOverwrite { numerator, denominator } => spec_u64_to_le_bytes(
                numerator,
            ) + spec_u64_to_le_bytes(denominator),
            TrixelData::MeanAccumulate { numerator, denominator } => spec_u64_to_le_bytes(
                numerator,
            ) + spec_u64_to_le_bytes(denominator),
        }
    }

    /// The bytes that a statistic is hashed as: the tag of its kind, then its
    /// fields in little-endian order.
    pub open spec fn spec_serialize(self) -> Seq<u8> {
        seq![self.spec_data_type().spec_tag()] + self.spec_fields()
    }

    /// What an observation of `value` does to a leaf of a world that keeps
    /// `world_type`.
    ///
    /// A count takes one more, whatever the value. An overwrite takes the
    /// value, which must not be negative, and hands up the difference to what
    /// it held. An accumulation adds the value and hands it up. A mean is
    /// activated by its first observation, and weighs 1 from then on. A
    /// leaf of another kind than the world's does not belong to it; where
    /// the world overwrites, a negative value is turned away before that
    /// is seen.
    pub open spec fn spec_update_leaf(self, world_type: TrixelDataType, value: i32) -> Result<
        LeafUpdate,
        ErrorCode,
    > {
        match world_type {
            TrixelDataType::Count => match self {
                TrixelData::Count { count } => if count == u32::MAX {
                    Err(ErrorCode::ArithmeticOverflow)
                } else {
                    Ok(
                        LeafUpdate {
                            data: TrixelData::Count { count: (count + 1) as u32 },
                            delta: 1,
                            activated: false,
                        },
                    )
                },
                _ => Err(ErrorCode::AccountMismatch),
            },
            TrixelDataType::AggregateOverwrite => if value < 0 {
                Err(ErrorCode::InvalidArgument)
            } else {
                match self {
                    TrixelData::AggregateOverwrite { metric } => if value - metric < i64::MIN {
                        Err(ErrorCode::ArithmeticOverflow)
                    } else {
                        Ok(
                            LeafUpdate {
                                data: TrixelData::AggregateOverwrite { metric: value as u64 },
                                delta: (value - metric) as i64,
                                activated: false,
                            },
                        )
                    },
                    _ => Err(ErrorCode::AccountMismatch),
                }
            },
            TrixelDataType::AggregateAccumulate => match self {
                TrixelData::AggregateAccumulate { metric } => if metric + value < 0 || metric
                    + value > u64::MAX {
                    Err(ErrorCode::ArithmeticOverflow)
                } else {
                    Ok(
                        LeafUpdate {
                            data: TrixelData::AggregateAccumulate {
                                metric: (metric + value) as u64,
                            },
                            delta: value as i64,
                            activated: false,
                        },
                    )
                },
                _ => Err(ErrorCode::AccountMismatch),
            },
            TrixelDataType::MeanOverwrite => if value < 0 {
                Err(ErrorCode::InvalidArgument)
            } else {
                match self {
                    TrixelData::MeanOverwrite { numerator, denominator } => if value - numerator
                        < i64::MIN {
                        Err(ErrorCode::ArithmeticOverflow)
                    } else {
                        Ok(
                            LeafUpdate {
                                data: TrixelData::MeanOverwrite {
                                    numerator: value as u64,
                                    denominator: 1,
                                },
                                delta: (value - numerator) as i64,
                                activated: denominator == 0,
                            },
                        )
                    },
                    _ => Err(ErrorCode::AccountMismatch),
                }
            },
            TrixelDataType::MeanAccumulate => match self {
                TrixelData::MeanAccumulate { numerator, denominator } => if numerator + value < 0
                    || numerator + value > u64::MAX {
                    Err(ErrorCode::ArithmeticOverflow)
                } else {
                    Ok(
                        LeafUpdate {
                            data: TrixelData::MeanAccumulate {
                                numerator: (numerator + value) as u64,
                                denominator: 1,
                            },
                            delta: value as i64,
                            activated: denominator == 0,
                        },
                    )
                },
                _ => Err(ErrorCode::AccountMismatch),
            },
        }
    }

    /// One more where a leaf was activated.
    pub open spec fn grown(denominator: u64, activated: bool) -> int {
        if activated {
            denominator + 1
        } else {
            denominator as int
        }
    }

    /// What the update of a leaf below does to an inner trixel, or to the
    /// world, that keeps `world_type`: a count takes one more, the other
    /// kinds take the change in, and a mean weighs one more where the leaf
    /// was activated. A record of another kind than the world's does not
    /// belong to it.
    pub open spec fn spec_update_inner(
        self,
        world_type: TrixelDataType,
        delta: i64,
        activated: bool,
    ) -> Result<TrixelData, ErrorCode> {
        match (self, world_type) {
            (TrixelData::Count { count }, TrixelDataType::Count) => if count == u32::MAX {
                Err(ErrorCode::ArithmeticOverflow)
            } else {
                Ok(TrixelData::Count { count: (count + 1) as u32 })
            },
            (TrixelData::AggregateOverwrite { metric }, TrixelDataType::AggregateOverwrite) => if metric
                + delta < 0 || metric + delta > u64::MAX {
                Err(ErrorCode::ArithmeticOverflow)
            } else {
                Ok(TrixelData::AggregateOverwrite { metric: (metric + delta) as u64 })
            },
            (
                TrixelData::AggregateAccumulate { metric },
                TrixelDataType::AggregateAccumulate,
            ) => if metric + delta < 0 || metric + delta > u64::MAX {
                Err(ErrorCode::ArithmeticOverflow)
            } else {
                Ok(TrixelData::AggregateAccumulate { metric: (metric + delta) as u64 })
            },
            (
                TrixelData::MeanOverwrite { numerator, denominator },
                TrixelDataType::MeanOverwrite,
            ) => if numerator + delta < 0 || numerator + delta > u64::MAX || Self::grown(
                denominator,
                activated,
            ) > u64::MAX {
                Err(ErrorCode::ArithmeticOverflow)
            } else {
                Ok(
                    TrixelData::MeanOverwrite {
                        numerator: (numerator + delta) as u64,
                        denominator: Self::grown(denominator, activated) as u64,
                    },
                )
            },
            (
                TrixelData::MeanAccumulate { numerator, denominator },
                TrixelDataType::MeanAccumulate,
            ) => if numerator + delta < 0 || numerator + delta > u64::MAX || Self::grown(
                denominator,
                activated,
            ) > u64::MAX {
                Err(ErrorCode::ArithmeticOverflow)
            } else {
                Ok(
                    TrixelData::MeanAccumulate {
                        numerator: (numerator + delta) as u64,
                        denominator: Self::grown(denominator, activated) as u64,
                    },
                )
            },
            _ => Err(ErrorCode::AccountMismatch),
        }
    }

    /// The kind of the statistic.
    pub fn to_data_type(&self) -> (data_type: TrixelDataType)
        ensures
            data_type == self.spec_data_type(),
    {
        match self {
            TrixelData::Count { .. } => TrixelDataType::Count,
            TrixelData::AggregateOverwrite { .. } => TrixelDataType::AggregateOverwrite,
            TrixelData::AggregateAccumulate { .. } => TrixelDataType::AggregateAccumulate,
            TrixelData::MeanOverwrite { .. } => TrixelDataType::MeanOverwrite,
            TrixelData::MeanAccumulate { .. } => TrixelDataType::MeanAccumulate,
        }
    }

    /// The statistic of the given kind with nothing observed.
    pub fn init(data_type: TrixelDataType) -> (data: TrixelData)
        ensures
            data == Self::spec_init(data_type),
            data.spec_data_type() == data_type,
            data.total() == 0,
            data.weight() == 0,
    {
        match data_type {
            TrixelDataType::Count => TrixelData::Count { count: 0 },
            TrixelDataType::AggregateOverwrite => TrixelData::AggregateOverwrite { metric: 0 },
            TrixelDataType::AggregateAccumulate => TrixelData::AggregateAccumulate { metric: 0 },
            TrixelDataType::MeanOverwrite => TrixelData::MeanOverwrite {
                numerator: 0,
                denominator: 0,
            },
            TrixelDataType::MeanAccumulate => TrixelData::MeanAccumulate {
                numerator: 0,
                denominator: 0,
            },
        }
    }

    /// The bytes that the statistic is hashed as.
    pub fn serialize(&self) -> (bytes: Vec<u8>)
        ensures
            bytes@ == self.spec_serialize(),
            bytes@.len() == 5 || bytes@.len() == 9 || bytes@.len() == 17,
    {
        let mut bytes: Vec<u8> = Vec::new();
        match self {
            TrixelData::Count { count } => {
                bytes.push(0u8);
                let mut field = u32_to_le_bytes(*count);
                bytes.append(&mut field);
            },
            TrixelData::AggregateOverwrite { metric } => {
                bytes.push(1u8);
                let mut field = u64_to_le_bytes(*metric);
                bytes.append(&mut field);
            },
            TrixelData::AggregateAccumulate { metric } => {
                bytes.push(2u8);
                let mut field = u64_to_le_bytes(*metric);
                bytes.append(&mut field);
            },
            TrixelData::MeanOverwrite { numerator, denominator } => {
                bytes.push(3u8);
                let mut first = u64_to_le_bytes(*numerator);
                bytes.append(&mut first);
                let mut second = u64_to_le_bytes(*denominator);
                bytes.append(&mut second);
            },
            TrixelData::MeanAccumulate { numerator, denominator } => {
                bytes.push(4u8);
                let mut first = u64_to_le_bytes(*numerator);
                bytes.append(&mut first);
                let mut second = u64_to_le_bytes(*denominator);
                bytes.append(&mut second);
            },
        }
        bytes
    }

    /// Applies an observation of `value` to the statistic of a leaf.
    pub fn update_leaf(&self, world_type: TrixelDataType, value: i32) -> (r: Result<
        LeafUpdate,
        ErrorCode,
    >)
        ensures
            r == self.spec_update_leaf(world_type, value),
    {
        match world_type {
            TrixelDataType::Count => {
                if let TrixelData::Count { count } = self {
                    match count.checked_add(1) {
                        Some(next) => Ok(
                            LeafUpdate {
                                data: TrixelData::Count { count: next },
                                delta: 1,
                                activated: false,
                            },
                        ),
                        None => Err(ErrorCode::ArithmeticOverflow),
                    }
                } else {
                    Err(ErrorCode::AccountMismatch)
                }
            },
            TrixelDataType::AggregateOverwrite => {
                if value < 0 {
                    return Err(ErrorCode::InvalidArgument);
                }
                if let TrixelData::AggregateOverwrite { metric } = self {
                    match overwrite_delta(value, *metric) {
                        Some(delta) => Ok(
                            LeafUpdate {
                                data: TrixelData::AggregateOverwrite { metric: value as u64 },
                                delta,
                                activated: false,
                            },
                        ),
                        None => Err(ErrorCode::ArithmeticOverflow),
                    }
                } else {
                    Err(ErrorCode::AccountMismatch)
                }
            },
            TrixelDataType::AggregateAccumulate => {
                if let TrixelData::AggregateAccumulate { metric } = self {
                    match metric.checked_add_signed(value as i64) {
                        Some(next) => Ok(
                            LeafUpdate {
                                data: TrixelData::AggregateAccumulate { metric: next },
                                delta: value as i64,
                                activated: false,
                            },
                        ),
                        None => Err(ErrorCode::ArithmeticOverflow),
                    }
                } else {
                    Err(ErrorCode::AccountMismatch)
                }
            },
            TrixelDataType::MeanOverwrite => {
                if value < 0 {
                    return Err(ErrorCode::InvalidArgument);
                }
                if let TrixelData::MeanOverwrite { numerator, denominator } = self {
                    match overwrite_delta(value, *numerator) {
                        Some(delta) => Ok(
                            LeafUpdate {
                                data: TrixelData::MeanOverwrite {
                                    numerator: value as u64,
                                    denominator: 1,
                                },
                                delta,
                                activated: *denominator == 0,
                            },
                        ),
                        None => Err(ErrorCode::ArithmeticOverflow),
                    }
                } else {
                    Err(ErrorCode::AccountMismatch)
                }
            },
            TrixelDataType::MeanAccumulate => {
                if let TrixelData::MeanAccumulate { numerator, denominator } = self {
                    match numerator.checked_add_signed(value as i64) {
                        Some(next) => Ok(
                            LeafUpdate {
                                data: TrixelData::MeanAccumulate {
                                    numerator: next,
                                    denominator: 1,
                                },
                                delta: value as i64,
                                activated: *denominator == 0,
                            },
                        ),
                        None => Err(ErrorCode::ArithmeticOverflow),
                    }
                } else {
                    Err(ErrorCode::AccountMismatch)
                }
            },
        }
    }

    /// Takes the update of a leaf below into the statistic of an inner
    /// trixel or of the world.
    pub fn update_inner(&self, world_type: TrixelDataType, delta: i64, activated: bool) -> (r:
        Result<TrixelData, ErrorCode>)
        ensures
            r == self.spec_update_inner(world_type, delta, activated),
    {
        match (self, world_type) {
            (TrixelData::Count { count }, TrixelDataType::Count) => {
                match count.checked_add(1) {
                    Some(next) => Ok(TrixelData::Count { count: next }),
                    None => Err(ErrorCode::ArithmeticOverflow),
                }
            },
            (TrixelData::AggregateOverwrite { metric }, TrixelDataType::AggregateOverwrite) => {
                match metric.checked_add_signed(delta) {
                    Some(next) => Ok(TrixelData::AggregateOverwrite { metric: next }),
                    None => Err(ErrorCode::ArithmeticOverflow),
                }
            },
            (TrixelData::AggregateAccumulate { metric }, TrixelDataType::AggregateAccumulate) => {
                match metric.checked_add_signed(delta) {
                    Some(next) => Ok(TrixelData::AggregateAccumulate { metric: next }),
                    None => Err(ErrorCode::ArithmeticOverflow),
                }
            },
            (
                TrixelData::MeanOverwrite { numerator, denominator },
                TrixelDataType::MeanOverwrite,
            ) => {
                match (numerator.checked_add_signed(delta), grow(*denominator, activated)) {
                    (Some(n), Some(d)) => Ok(
                        TrixelData::MeanOverwrite { numerator: n, denominator: d },
                    ),
                    _ => Err(ErrorCode::ArithmeticOverflow),
                }
            },
            (
                TrixelData::MeanAccumulate { numerator, denominator },
                TrixelDataType::MeanAccumulate,
            ) => {
                match (numerator.checked_add_signed(delta), grow(*denominator, activated)) {
                    (Some(n), Some(d)) => Ok(
                        TrixelData::MeanAccumulate { numerator: n, denominator: d },
                    ),
                    _ => Err(ErrorCode::ArithmeticOverflow),
                }
            },
            _ => Err(ErrorCode::AccountMismatch),
        }
    }
}

/// What an accepted leaf rule does to the total and the weight of the
/// statistic, whatever its kind.
pub proof fn lemma_leaf_update(data: TrixelData, world_type: TrixelDataType, value: i32)
    requires
        data.spec_update_leaf(world_type, value) is Ok,
    ensures
        ({
            let update = data.spec_update_leaf(world_type, value)->Ok_0;
            let overwrites = world_type == TrixelDataType::AggregateOverwrite || world_type
                == TrixelDataType::MeanOverwrite;
            &&& data.spec_data_type() == world_type
            &&& update.data.spec_data_type() == world_type
            &&& update.data.total() == data.total() + update.delta
            &&& update.delta == if world_type == TrixelDataType::Count {
                1
            } else if overwrites {
                value - data.total()
            } else {
                value as int
            }
            &&& update.activated == (world_type.is_mean() && data.weight() == 0)
            &&& update.data.weight() == if world_type.is_mean() {
                1int
            } else {
                0int
            }
        }),
{
}

/// What an accepted inner rule does to the total and the weight of the
/// statistic, whatever its kind.
pub proof fn lemma_inner_update(
    data: TrixelData,
    world_type: TrixelDataType,
    delta: i64,
    activated: bool,
)
    requires
        data.spec_update_inner(world_type, delta, activated) is Ok,
    ensures
        ({
            let after = data.spec_update_inner(world_type, delta, activated)->Ok_0;
            &&& data.spec_data_type() == world_type
            &&& after.spec_data_type() == world_type
            &&& after.total() == data.total() + if world_type == TrixelDataType::Count {
                1
            } else {
                delta as int
            }
            &&& after.weight() == data.weight() + if world_type.is_mean() && activated {
                1int
            } else {
                0int
            }
            &&& world_type != TrixelDataType::Count && delta == 0 && !activated ==> after == data
        }),
{
}

/// The difference between a new value and the one it replaces, where an
/// `i64` can hold it.
fn overwrite_delta(value: i32, old: u64) -> (delta: Option<i64>)
    requires
        value >= 0,
    ensures
        value - old >= i64::MIN ==> delta == Some((value - old) as i64),
        value - old < i64::MIN ==> delta is None,
{
    let difference: i128 = value as i128 - old as i128;
    if difference < i64::MIN as i128 {
        None
    } else {
        Some(difference as i64)
    }
}

/// A denominator, one larger where a leaf was activated.
fn grow(denominator: u64, activated: bool) -> (next: Option<u64>)
    ensures
        next == if TrixelData::grown(denominator, activated) > u64::MAX {
            None
        } else {
            Some(TrixelData::grown(denominator, activated) as u64)
        },
{
    if activated {
        denominator.checked_add(1)
    } else {
        Some(denominator)
    }
}

impl Default for TrixelData {
    fn default() -> (data: TrixelData)
        ensures
            data == (TrixelData::Count { count: 0 }),
    {
        TrixelData::Count { count: 0 }
    }
}

} // verus!
