use anchor_lang::prelude::Pubkey;
use anchor_lang::solana_program::hash::hash;
use geovm::errors::ErrorCode;
use geovm::helpers::pda::{get_trixel_pda, id, trixel_address, verify_trixel_account};
use geovm::state::trixel::Trixel;
use geovm::state::trixel_data::{TrixelData, TrixelDataType};
use geovm::state::world::World;

const ZERO: [u8; 32] = [0; 32];
const ONES: [u8; 32] = [1; 32];

/// SHA-256 of a zero count followed by four zero hashes.
const EMPTY_COUNT_TRIXEL: [u8; 32] = [
    87, 255, 201, 202, 59, 235, 110, 230, 34, 108, 40, 36, 138, 185, 199, 123, 32, 118, 239, 106,
    207, 251, 168, 57, 206, 194, 31, 172, 40, 168, 253, 31,
];

/// SHA-256 of a zero count, two zero hashes, a hash of ones and a zero hash.
const COUNT_TRIXEL_WITH_THIRD_CHILD: [u8; 32] = [
    233, 33, 207, 167, 69, 126, 251, 73, 55, 47, 220, 164, 176, 45, 102, 140, 207, 173, 125, 243,
    104, 9, 71, 243, 6, 52, 111, 162, 184, 204, 166, 210,
];

/// SHA-256 of 256 zero bytes.
const EMPTY_WORLD: [u8; 32] = [
    83, 65, 230, 178, 100, 105, 121, 167, 14, 87, 101, 48, 7, 161, 243, 16, 22, 148, 33, 236, 155,
    221, 159, 26, 86, 72, 247, 90, 222, 0, 90, 241,
];

/// SHA-256 of seven zero hashes and a hash of ones.
const WORLD_WITH_EIGHTH_CHILD: [u8; 32] = [
    209, 149, 132, 37, 245, 48, 21, 66, 118, 117, 97, 100, 241, 77, 252, 158, 23, 255, 157, 211,
    94, 244, 144, 216, 12, 250, 55, 35, 48, 104, 0, 70,
];

fn expected_trixel_hash(trixel: &Trixel) -> [u8; 32] {
    let mut bytes = trixel.data.serialize();
    for child in trixel.child_hashes.iter() {
        bytes.extend_from_slice(child);
    }
    hash(&bytes).to_bytes()
}

fn expected_root_hash(world: &World) -> [u8; 32] {
    let mut bytes = Vec::new();
    for child in world.child_hashes.iter() {
        bytes.extend_from_slice(child);
    }
    hash(&bytes).to_bytes()
}

#[test]
fn new_trixel_is_all_zero() {
    let trixel = Trixel::new();
    assert_eq!(trixel.world, ZERO);
    assert_eq!(trixel.id, 0);
    assert_eq!(trixel.resolution, 0);
    assert_eq!(trixel.updates, 0);
    assert_eq!(trixel.last_update, 0);
    assert_eq!(trixel.hash, ZERO);
    assert_eq!(trixel.child_hashes, [ZERO; 4]);
    assert_eq!(trixel.data, TrixelData::Count { count: 0 });
    assert_eq!(Trixel::default(), trixel);
}

#[test]
fn trixel_init_sets_every_field_and_the_hash() {
    let mut trixel = Trixel::new();
    trixel.updates = 9;
    trixel.child_hashes[1] = ONES;
    assert_eq!(trixel.init([7; 32], 432, 2, TrixelDataType::Count, 1_700_000_000), Ok(()));
    assert_eq!(trixel.world, [7; 32]);
    assert_eq!(trixel.id, 432);
    assert_eq!(trixel.resolution, 2);
    assert_eq!(trixel.updates, 0);
    assert_eq!(trixel.last_update, 1_700_000_000);
    assert_eq!(trixel.child_hashes, [ZERO; 4]);
    assert_eq!(trixel.data, TrixelData::Count { count: 0 });
    assert_eq!(trixel.hash, EMPTY_COUNT_TRIXEL);
    assert_eq!(trixel.hash, expected_trixel_hash(&trixel));
}

#[test]
fn trixel_hash_covers_statistic_and_children() {
    let mut trixel = Trixel::new();
    assert_eq!(trixel.compute_hash(), Ok(EMPTY_COUNT_TRIXEL));
    trixel.data = TrixelData::MeanAccumulate { numerator: 40, denominator: 2 };
    trixel.child_hashes[3] = [9; 32];
    let computed = trixel.compute_hash().unwrap();
    assert_eq!(computed, expected_trixel_hash(&trixel));
    assert_ne!(computed, EMPTY_COUNT_TRIXEL);
    // Nothing but the statistic and the child hashes is hashed.
    trixel.updates = 77;
    trixel.last_update = -5;
    trixel.id = 21;
    trixel.world = ONES;
    assert_eq!(trixel.compute_hash(), Ok(computed));
    assert_eq!(trixel.hash, ZERO);
    assert_eq!(trixel.refresh_hash(), Ok(computed));
    assert_eq!(trixel.hash, computed);
}

#[test]
fn trixel_update_child_hash_writes_rehashes_and_counts() {
    let mut trixel = Trixel::new();
    trixel.init(ZERO, 21, 1, TrixelDataType::Count, 5).unwrap();
    let returned = trixel.update_child_hash(2, ONES, 6).unwrap();
    assert_eq!(returned, COUNT_TRIXEL_WITH_THIRD_CHILD);
    assert_eq!(trixel.hash, COUNT_TRIXEL_WITH_THIRD_CHILD);
    assert_eq!(trixel.child_hashes, [ZERO, ZERO, ONES, ZERO]);
    assert_eq!(trixel.updates, 1);
    assert_eq!(trixel.last_update, 6);
    assert_eq!(trixel.data, TrixelData::Count { count: 0 });
}

#[test]
fn trixel_update_child_hash_failures_change_nothing() {
    let mut trixel = Trixel::new();
    trixel.init(ZERO, 21, 1, TrixelDataType::Count, 5).unwrap();
    let before = trixel;
    assert_eq!(trixel.update_child_hash(4, ONES, 6), Err(ErrorCode::InvalidArgument));
    assert_eq!(trixel.update_child_hash(usize::MAX, ONES, 6), Err(ErrorCode::InvalidArgument));
    assert_eq!(trixel, before);
    trixel.updates = u64::MAX;
    let before = trixel;
    assert_eq!(trixel.update_child_hash(0, ONES, 6), Err(ErrorCode::ArithmeticOverflow));
    assert_eq!(trixel, before);
    // The slot is checked first.
    assert_eq!(trixel.update_child_hash(4, ONES, 6), Err(ErrorCode::InvalidArgument));
}

#[test]
fn trixel_update_data_accumulates_or_replaces() {
    let mut trixel = Trixel::new();
    trixel.data = TrixelData::Count { count: 5 };
    let returned = trixel.update_data(TrixelData::Count { count: 3 }, 11).unwrap();
    assert_eq!(trixel.data, TrixelData::Count { count: 8 });
    assert_eq!(returned, expected_trixel_hash(&trixel));
    assert_eq!(trixel.hash, returned);
    assert_eq!((trixel.updates, trixel.last_update), (1, 11));

    trixel.update_data(TrixelData::Count { count: u32::MAX }, 12).unwrap();
    assert_eq!(trixel.data, TrixelData::Count { count: u32::MAX });

    trixel.data = TrixelData::AggregateAccumulate { metric: u64::MAX - 1 };
    trixel.update_data(TrixelData::AggregateAccumulate { metric: 1 }, 13).unwrap();
    assert_eq!(trixel.data, TrixelData::AggregateAccumulate { metric: u64::MAX });
    trixel.update_data(TrixelData::AggregateAccumulate { metric: 1 }, 13).unwrap();
    assert_eq!(trixel.data, TrixelData::AggregateAccumulate { metric: u64::MAX });

    trixel.data = TrixelData::MeanAccumulate { numerator: 10, denominator: 1 };
    trixel.update_data(TrixelData::MeanAccumulate { numerator: 30, denominator: 1 }, 14).unwrap();
    assert_eq!(trixel.data, TrixelData::MeanAccumulate { numerator: 40, denominator: 2 });

    trixel.data = TrixelData::AggregateOverwrite { metric: 10 };
    trixel.update_data(TrixelData::AggregateOverwrite { metric: 3 }, 15).unwrap();
    assert_eq!(trixel.data, TrixelData::AggregateOverwrite { metric: 3 });
    trixel.update_data(TrixelData::MeanOverwrite { numerator: 1, denominator: 1 }, 16).unwrap();
    assert_eq!(trixel.data, TrixelData::MeanOverwrite { numerator: 1, denominator: 1 });
    trixel.update_data(TrixelData::MeanOverwrite { numerator: 5, denominator: 9 }, 17).unwrap();
    assert_eq!(trixel.data, TrixelData::MeanOverwrite { numerator: 5, denominator: 9 });
    // A statistic of another kind replaces an accumulated one.
    trixel.data = TrixelData::Count { count: 5 };
    trixel.update_data(TrixelData::AggregateAccumulate { metric: 2 }, 18).unwrap();
    assert_eq!(trixel.data, TrixelData::AggregateAccumulate { metric: 2 });
    assert_eq!(trixel.hash, expected_trixel_hash(&trixel));
    assert_eq!((trixel.updates, trixel.last_update), (9, 18));

    trixel.updates = u64::MAX;
    let before = trixel;
    assert_eq!(
        trixel.update_data(TrixelData::Count { count: 1 }, 19),
        Err(ErrorCode::ArithmeticOverflow)
    );
    assert_eq!(trixel, before);
}

#[test]
fn world_init_sets_every_field_and_the_root() {
    let mut world = World::default();
    world.updates = 4;
    world.child_hashes[0] = ONES;
    assert_eq!(world.init([3; 32], [4; 32], 3, true, TrixelDataType::MeanAccumulate), Ok(()));
    assert_eq!(world.authority, [3; 32]);
    assert_eq!(world.name, [4; 32]);
    assert_eq!(world.canonical_resolution, 3);
    assert!(world.permissioned_updates);
    assert_eq!(world.updates, 0);
    assert_eq!(world.child_hashes, [ZERO; 8]);
    assert_eq!(world.root_hash, EMPTY_WORLD);
    assert_eq!(world.data, TrixelData::MeanAccumulate { numerator: 0, denominator: 0 });
}

#[test]
fn world_init_takes_resolutions_one_to_ten() {
    for resolution in 0..=255u8 {
        let mut world = World::default();
        let before = world;
        let result = world.init(ONES, ZERO, resolution, false, TrixelDataType::Count);
        if (1..=10).contains(&resolution) {
            assert_eq!(result, Ok(()));
            assert_eq!(world.canonical_resolution, resolution);
        } else {
            assert_eq!(result, Err(ErrorCode::InvalidArgument));
            assert_eq!(world, before);
        }
    }
}

#[test]
fn world_root_hash_leaves_the_statistic_out() {
    let mut world = World::default();
    world.init(ONES, ZERO, 2, false, TrixelDataType::Count).unwrap();
    assert_eq!(world.compute_root_hash(), Ok(EMPTY_WORLD));
    world.data = TrixelData::Count { count: 99 };
    world.updates = 12;
    assert_eq!(world.compute_root_hash(), Ok(EMPTY_WORLD));
    world.child_hashes[5] = [8; 32];
    assert_eq!(world.compute_root_hash(), Ok(expected_root_hash(&world)));
    assert_ne!(world.compute_root_hash(), Ok(EMPTY_WORLD));
}

#[test]
fn world_update_child_hash_writes_and_rehashes() {
    let mut world = World::default();
    world.init(ONES, ZERO, 2, false, TrixelDataType::Count).unwrap();
    assert_eq!(world.update_child_hash(7, ONES), Ok(WORLD_WITH_EIGHTH_CHILD));
    assert_eq!(world.root_hash, WORLD_WITH_EIGHTH_CHILD);
    assert_eq!(world.child_hashes[7], ONES);
    assert_eq!(world.updates, 0);
    let before = world;
    assert_eq!(world.update_child_hash(8, ONES), Err(ErrorCode::InvalidArgument));
    assert_eq!(world, before);
}

#[test]
fn world_update_child_hash_and_root_counts_the_update() {
    let mut world = World::default();
    world.init(ONES, ZERO, 2, false, TrixelDataType::Count).unwrap();
    assert_eq!(world.update_child_hash_and_root(7, ONES), Ok(()));
    assert_eq!(world.root_hash, WORLD_WITH_EIGHTH_CHILD);
    assert_eq!(world.updates, 1);
    let before = world;
    assert_eq!(world.update_child_hash_and_root(8, [2; 32]), Err(ErrorCode::InvalidArgument));
    assert_eq!(world, before);
    world.updates = u64::MAX;
    let before = world;
    assert_eq!(world.update_child_hash_and_root(0, [2; 32]), Err(ErrorCode::ArithmeticOverflow));
    assert_eq!(world, before);
}

#[test]
fn program_address_is_that_of_the_declared_program() {
    let expected: Pubkey = "2v5V4aVkQnFHojUoY4td6X7E7e5NQ78mKzAjAoA6JBrJ".parse().unwrap();
    assert_eq!(id(), expected.to_bytes());
}

#[test]
fn test_trixel_pda() {
    println!("\nTesting trixel PDA generation:");

    let world = Pubkey::new_unique();
    let test_cases = vec![1, 51, 512, 5123, 51234];

    for trixel_id in test_cases {
        let (pda, bump) = get_trixel_pda(trixel_id, &world.to_bytes()).unwrap();
        println!("Trixel ID: {}", trixel_id);
        println!("PDA: {}", Pubkey::new_from_array(pda));
        println!("Bump: {}", bump);

        // Verify PDA is deterministic
        let (pda2, _) = get_trixel_pda(trixel_id, &world.to_bytes()).unwrap();
        assert_eq!(pda, pda2);
    }
}

#[test]
fn trixel_address_is_derived_from_seed_world_and_identifier() {
    let program = Pubkey::new_from_array(id());
    for world in [Pubkey::new_from_array(ZERO), Pubkey::new_from_array([200; 32]), Pubkey::new_unique()] {
        for trixel_id in [1u64, 21, 432, 74133443312, u64::MAX] {
            let (expected, expected_bump) = Pubkey::find_program_address(
                &[b"trixel", world.as_ref(), &trixel_id.to_le_bytes()],
                &program,
            );
            assert_eq!(
                get_trixel_pda(trixel_id, &world.to_bytes()),
                Some((expected.to_bytes(), expected_bump))
            );
            assert_eq!(
                trixel_address(trixel_id, &world.to_bytes(), &id()),
                Some((expected.to_bytes(), expected_bump))
            );
            assert_ne!(expected.to_bytes(), world.to_bytes());
            assert_eq!(verify_trixel_account(&expected.to_bytes(), trixel_id, &world.to_bytes()), Ok(()));
            assert_eq!(
                verify_trixel_account(&world.to_bytes(), trixel_id, &world.to_bytes()),
                Err(ErrorCode::InvalidTrixelAccount)
            );
            assert_eq!(
                verify_trixel_account(&expected.to_bytes(), trixel_id.wrapping_add(1), &world.to_bytes()),
                Err(ErrorCode::InvalidTrixelAccount)
            );
        }
    }
}

#[test]
fn trixel_address_depends_on_the_program() {
    let other = Pubkey::new_from_array([5; 32]);
    let world = [9u8; 32];
    let (expected, bump) =
        Pubkey::find_program_address(&[b"trixel", &world, &432u64.to_le_bytes()], &other);
    assert_eq!(trixel_address(432, &world, &other.to_bytes()), Some((expected.to_bytes(), bump)));
    assert_ne!(trixel_address(432, &world, &other.to_bytes()), get_trixel_pda(432, &world));
}
