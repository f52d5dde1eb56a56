use geovm::errors::ErrorCode;
use geovm::helpers::htm::{get_child_index, get_trixel_ancestors, resolution_from_trixel_id};

#[test]
fn test_trixel_id_validation() {
    println!("\nTesting trixel ID validation:");

    // Test valid IDs
    let valid_ids = vec![
        1, 2, 3, 4, 5, 6, 7, 8, // Base level
        21, 22, 23, 24, 25, 26, 27, 28, // Level 1
        321, 322, 323, 324, 325, 326, 327, 328, // Level 2
        4321, 4322, 4323, 4324, 4325, 4326, 4327, 4328, // Level 3
        34321, 34322, 34323, 34324, 34325, 34326, 34327, 34328, // Level 4
    ];
    for id in valid_ids {
        let result = get_trixel_ancestors(id);
        println!("Valid ID {}: {:?}", id, result);
        assert!(result.is_ok());
    }

    // Test invalid last digit
    let invalid_last = vec![0, 9, 10, 19, 20, 29];
    for id in invalid_last {
        let result = get_trixel_ancestors(id);
        println!("Invalid last digit {}: {:?}", id, result);
        assert!(result.is_err());
    }

    // Test invalid child digits
    let invalid_child = vec![
        50, 60, 70, 80, // Invalid first digit
    ];
    for id in invalid_child {
        let result = get_trixel_ancestors(id);
        println!("Invalid child digit {}: {:?}", id, result);
        assert!(result.is_err());
    }

    // Test invalid combinations
    let invalid_combinations = vec![
        1230, // Invalid last digit (0)
        1239, // Invalid last digit (9)
        1204, // Invalid middle digit (0)
        1024, // Invalid middle digit (0)
        9123, // Invalid first digit (9)
    ];
    for id in invalid_combinations {
        let result = get_trixel_ancestors(id);
        println!("Invalid combination {}: {:?}", id, result);
        assert!(result.is_err());
    }
}

#[test]
fn test_known_ancestor_chains() {
    println!("\nTesting known ancestor chains:");

    let test_cases = vec![
        // Base level (no ancestors)
        (1, vec![]),
        (8, vec![]),
        // Level 1 ancestors
        (21, vec![1]),
        (22, vec![2]),
        (23, vec![3]),
        (24, vec![4]),
        (25, vec![5]),
        (26, vec![6]),
        (27, vec![7]),
        (28, vec![8]),
        // Level 2 ancestors
        (321, vec![21, 1]),
        (322, vec![22, 2]),
        (323, vec![23, 3]),
        (324, vec![24, 4]),
        (325, vec![25, 5]),
        (326, vec![26, 6]),
        (327, vec![27, 7]),
        (328, vec![28, 8]),
        // Level 3 ancestors
        (4321, vec![321, 21, 1]),
        (4322, vec![322, 22, 2]),
        (4323, vec![323, 23, 3]),
        (4324, vec![324, 24, 4]),
        (4325, vec![325, 25, 5]),
        (4326, vec![326, 26, 6]),
        (4327, vec![327, 27, 7]),
        (4328, vec![328, 28, 8]),
        // Level 4 ancestors
        (34321, vec![4321, 321, 21, 1]),
        (34322, vec![4322, 322, 22, 2]),
        (34323, vec![4323, 323, 23, 3]),
        (34324, vec![4324, 324, 24, 4]),
        (34325, vec![4325, 325, 25, 5]),
        (34326, vec![4326, 326, 26, 6]),
        (34327, vec![4327, 327, 27, 7]),
        (34328, vec![4328, 328, 28, 8]),
    ];

    for (id, expected_ancestors) in test_cases {
        let ancestors = get_trixel_ancestors(id).unwrap();
        println!("\nTrixel ID: {}", id);
        println!("Expected ancestors: {:?}", expected_ancestors);
        println!("Actual ancestors: {:?}", ancestors);

        // Verify the ancestor chain
        assert_eq!(
            ancestors, expected_ancestors,
            "Ancestor chain mismatch for trixel ID {}",
            id
        );
    }
}

#[test]
fn test_resolution_from_trixel_id() {
    println!("\nTesting resolution from trixel ID:");

    let test_cases = vec![
        (1, 0),     // Base level
        (8, 0),     // Base level
        (51, 1),    // Level 1
        (512, 2),   // Level 2
        (5123, 3),  // Level 3
        (51234, 4), // Level 4
    ];

    for (id, expected_resolution) in test_cases {
        let resolution = resolution_from_trixel_id(id).unwrap();
        println!("Trixel ID: {}", id);
        println!("Resolution: {}", resolution);
        assert_eq!(resolution, expected_resolution);
    }
}

#[test]
fn test_ancestor_chain_properties() {
    println!("\nTesting ancestor chain properties:");

    let test_ids = vec![1234, 2341, 3412, 4123, 1231, 2342, 3413, 4124];

    for id in test_ids {
        let ancestors = get_trixel_ancestors(id).unwrap();
        println!("\nTesting trixel ID: {}", id);

        // Property 1: Chain length equals depth
        let depth = resolution_from_trixel_id(id).unwrap();
        assert_eq!(
            ancestors.len(),
            depth as usize,
            "Ancestor chain length should equal depth for ID {}",
            id
        );

        // Property 2: Each ancestor is a proper suffix
        for (i, ancestor) in ancestors.iter().enumerate() {
            let expected_length = depth as usize - i;
            let ancestor_str = ancestor.to_string();
            let id_str = id.to_string();
            assert!(
                id_str.ends_with(&ancestor_str),
                "Ancestor {} should be a suffix of ID {}",
                ancestor,
                id
            );
            assert_eq!(
                ancestor_str.len(),
                expected_length,
                "Ancestor {} should have length {}",
                ancestor,
                expected_length
            );
        }

        // Property 3: Chain is ordered from closest to furthest
        for i in 1..ancestors.len() {
            assert!(
                ancestors[i - 1] > ancestors[i],
                "Ancestors should be in descending order"
            );
        }
    }
}

#[test]
fn test_get_child_index() {
    println!("\nTesting child index extraction:");

    // Test base level (1-8)
    for i in 1..=8 {
        let (idx, res) = get_child_index(i).unwrap();
        println!("Base level ID {} -> index {}, resolution {}", i, idx, res);
        assert_eq!(idx, (i - 1) as usize);
        assert_eq!(res, 0);
    }

    // Test level 1
    let level1_tests = vec![
        (21, 1, 1),
        (22, 1, 1),
        (23, 1, 1),
        (24, 1, 1),
        (25, 1, 1),
        (26, 1, 1),
        (27, 1, 1),
        (28, 1, 1),
    ];
    for (id, expected_idx, expected_res) in level1_tests {
        let (idx, res) = get_child_index(id).unwrap();
        println!("Level 1 ID {} -> index {}, resolution {}", id, idx, res);
        assert_eq!(idx, expected_idx);
        assert_eq!(res, expected_res);
    }

    // Test deeper levels
    let deep_tests = vec![
        (321, 2, 2),
        (322, 2, 2),
        (323, 2, 2),
        (324, 2, 2),
        (4321, 3, 3),
        (4322, 3, 3),
        (4323, 3, 3),
        (4324, 3, 3),
        (54321, 4, 4),
        (54322, 4, 4),
        (54323, 4, 4),
        (54324, 4, 4),
    ];
    for (id, expected_idx, expected_res) in deep_tests {
        let (idx, res) = get_child_index(id).unwrap();
        println!("Deep level ID {} -> index {}, resolution {}", id, idx, res);
        assert_eq!(idx, expected_idx);
        assert_eq!(res, expected_res);
    }

    // Test invalid ID
    let result = get_child_index(0);
    println!("Invalid ID 0 result: {:?}", result);
    assert!(result.is_err());
}

#[test]
fn ancestors_of_the_documented_examples() {
    assert_eq!(get_trixel_ancestors(34328), Ok(vec![4328, 328, 28, 8]));
    assert_eq!(get_trixel_ancestors(1), Ok(vec![]));
    assert_eq!(get_trixel_ancestors(21), Ok(vec![1]));
    assert_eq!(get_trixel_ancestors(432), Ok(vec![32, 2]));
}

#[test]
fn ancestors_turn_away_what_is_not_well_formed() {
    for id in [0u64, 9, 10, 19, 90, 51, 1204, 1024, 9123, 1239, 4329, 4320, 54321, u64::MAX] {
        assert_eq!(get_trixel_ancestors(id), Err(ErrorCode::InvalidTrixelId), "id {}", id);
    }
}

#[test]
fn ancestors_of_the_longest_identifiers() {
    // Nineteen digits is as long as a well-formed identifier in 64 bits gets
    // with a leading digit up to 4; twenty digits start with 1.
    let id: u64 = 4_321_432_143_214_321_438;
    let ancestors = get_trixel_ancestors(id).unwrap();
    assert_eq!(ancestors.len(), 18);
    assert_eq!(ancestors[0], 321_432_143_214_321_438);
    assert_eq!(ancestors[17], 8);
    let id: u64 = 12_341_234_123_412_341_231;
    let ancestors = get_trixel_ancestors(id).unwrap();
    assert_eq!(ancestors.len(), 19);
    assert_eq!(ancestors[0], 2_341_234_123_412_341_231);
    assert_eq!(ancestors[18], 1);
}

#[test]
fn ancestor_chain_law_on_values() {
    for id in [21u64, 432, 34328, 1234123412, 4_321_432_143_214_321_438] {
        let ancestors = get_trixel_ancestors(id).unwrap();
        let depth = resolution_from_trixel_id(id).unwrap() as usize;
        assert_eq!(ancestors.len(), depth);
        let mut place: u64 = 10u64.pow(depth as u32);
        let mut below = id;
        for (i, ancestor) in ancestors.iter().enumerate() {
            assert_eq!(*ancestor, id % place);
            assert!(*ancestor < below);
            assert_eq!(resolution_from_trixel_id(*ancestor).unwrap() as usize, depth - 1 - i);
            assert!(get_trixel_ancestors(*ancestor).is_ok());
            below = *ancestor;
            place /= 10;
        }
    }
}

#[test]
fn resolution_counts_divisions_by_ten() {
    assert_eq!(resolution_from_trixel_id(0), Ok(0));
    assert_eq!(resolution_from_trixel_id(8), Ok(0));
    assert_eq!(resolution_from_trixel_id(9), Ok(1));
    assert_eq!(resolution_from_trixel_id(10), Ok(1));
    assert_eq!(resolution_from_trixel_id(89), Ok(1));
    assert_eq!(resolution_from_trixel_id(90), Ok(2));
    assert_eq!(resolution_from_trixel_id(432), Ok(2));
    assert_eq!(resolution_from_trixel_id(74133443312), Ok(10));
    assert_eq!(resolution_from_trixel_id(u64::MAX), Ok(19));
    assert_eq!(resolution_from_trixel_id(9_999_999_999_999_999_999), Ok(19));
}

#[test]
fn child_index_is_the_leading_digit_less_one() {
    assert_eq!(get_child_index(0), Err(ErrorCode::InvalidTrixelId));
    assert_eq!(get_child_index(1), Ok((0, 0)));
    assert_eq!(get_child_index(8), Ok((7, 0)));
    assert_eq!(get_child_index(432), Ok((3, 2)));
    assert_eq!(get_child_index(32), Ok((2, 1)));
    assert_eq!(get_child_index(2), Ok((1, 0)));
    assert_eq!(get_child_index(10), Ok((0, 1)));
    assert_eq!(get_child_index(9), Ok((8, 1)));
    assert_eq!(get_child_index(95), Ok((8, 2)));
    assert_eq!(get_child_index(u64::MAX), Ok((0, 19)));
}
