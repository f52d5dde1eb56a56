use geovm::errors::ErrorCode;
use geovm::helpers::descent::{select_candidate, HtmDescent, HtmSearch};
use geovm::helpers::htm::{get_trixel_ancestors, resolution_from_trixel_id};
use std::f64::consts::PI;

#[derive(Debug, Clone, Copy)]
struct Vector3D {
    x: f64,
    y: f64,
    z: f64,
}

#[derive(Debug, Clone, Copy)]
struct SphericalCoords {
    ra: f64,
    dec: f64,
}

fn v(x: f64, y: f64, z: f64) -> Vector3D {
    Vector3D { x, y, z }
}

fn v_add(a: Vector3D, b: Vector3D) -> Vector3D {
    v(a.x + b.x, a.y + b.y, a.z + b.z)
}

fn v_dot(a: Vector3D, b: Vector3D) -> f64 {
    a.x * b.x + a.y * b.y + a.z * b.z
}

fn v_cross(a: Vector3D, b: Vector3D) -> Vector3D {
    v(a.y * b.z - a.z * b.y, a.z * b.x - a.x * b.z, a.x * b.y - a.y * b.x)
}

fn v_normalize(a: Vector3D) -> Vector3D {
    let len = (a.x * a.x + a.y * a.y + a.z * a.z).sqrt();
    if len == 0.0 {
        v(0.0, 0.0, 0.0)
    } else {
        v(a.x / len, a.y / len, a.z / len)
    }
}

fn spherical_to_cartesian(coords: SphericalCoords) -> Result<Vector3D, ErrorCode> {
    if coords.ra < 0.0 || coords.ra > 360.0 || coords.dec < -90.0 || coords.dec > 90.0 {
        return Err(ErrorCode::InvalidCoordinates);
    }
    let ra_rad = coords.ra * PI / 180.0;
    let dec_rad = coords.dec * PI / 180.0;
    Ok(v(dec_rad.cos() * ra_rad.cos(), dec_rad.cos() * ra_rad.sin(), dec_rad.sin()))
}

fn is_point_in_triangle(p: Vector3D, t: [Vector3D; 3], epsilon: f64) -> bool {
    v_dot(v_cross(t[0], t[1]), p) >= -epsilon
        && v_dot(v_cross(t[1], t[2]), p) >= -epsilon
        && v_dot(v_cross(t[2], t[0]), p) >= -epsilon
}

fn base_triangles() -> [[Vector3D; 3]; 8] {
    let o = [
        v(0.0, 0.0, 1.0),
        v(1.0, 0.0, 0.0),
        v(0.0, 1.0, 0.0),
        v(-1.0, 0.0, 0.0),
        v(0.0, -1.0, 0.0),
        v(0.0, 0.0, -1.0),
    ];
    [
        [o[1], o[5], o[2]],
        [o[2], o[5], o[3]],
        [o[3], o[5], o[4]],
        [o[4], o[5], o[1]],
        [o[1], o[0], o[4]],
        [o[4], o[0], o[3]],
        [o[3], o[0], o[2]],
        [o[2], o[0], o[1]],
    ]
}

fn children(t: [Vector3D; 3]) -> [[Vector3D; 3]; 4] {
    let [p0, p1, p2] = t;
    let w0 = v_normalize(v_add(p1, p2));
    let w1 = v_normalize(v_add(p0, p2));
    let w2 = v_normalize(v_add(p0, p1));
    [[p0, w2, w1], [p1, w0, w2], [p2, w1, w0], [w0, w1, w2]]
}

/// Runs the descent of the library on the tests of the float kernel above.
fn get_htm_id(coords: SphericalCoords, depth: u32) -> Result<u64, ErrorCode> {
    let search = HtmSearch::begin(depth)?;
    let p = spherical_to_cartesian(coords)?;
    let base = base_triangles();
    let narrow = base.map(|t| is_point_in_triangle(p, t, 1e-9));
    let wide = base.map(|t| is_point_in_triangle(p, t, 1e-7));
    let mut descent: HtmDescent = search.enter_base(&narrow, &wide)?;
    let mut triangle = base[descent.slot()];
    while !descent.is_complete() {
        let next = children(triangle);
        let narrow = next.map(|t| is_point_in_triangle(p, t, 1e-9));
        let wide = next.map(|t| is_point_in_triangle(p, t, 1e-7));
        descent = descent.descend(&narrow, &wide)?;
        triangle = next[descent.slot()];
    }
    Ok(descent.id())
}

fn get_trixel_id(coords: SphericalCoords, resolution: u8) -> Result<u64, ErrorCode> {
    if resolution > 31 {
        return Err(ErrorCode::InvalidResolution);
    }
    get_htm_id(coords, resolution as u32).map_err(|_| ErrorCode::InvalidCoordinates)
}

#[test]
fn test_htm_id_north_pole() {
    let coords = SphericalCoords { ra: 0.0, dec: 89.999 };
    let result = get_htm_id(coords, 5).unwrap();
    assert!(result >= 100000); // Should be at least 5 digits (depth 5)
}

#[test]
fn test_htm_id_equator() {
    let coords = SphericalCoords { ra: 45.0, dec: 0.0 };
    let result = get_htm_id(coords, 5).unwrap();
    assert!(result >= 100000); // Should be at least 5 digits (depth 5)
}

#[test]
fn test_htm_id_deep() {
    let coords = SphericalCoords { ra: 123.0, dec: 45.0 };
    let result = get_htm_id(coords, 10).unwrap();
    assert!(result >= 10000000000); // Should be at least 10 digits (depth 10)
}

#[test]
fn test_htm_id_depth_zero() {
    let coords = SphericalCoords { ra: 10.0, dec: -30.0 };
    let result = get_htm_id(coords, 0).unwrap();
    assert!(result >= 1 && result <= 8); // Should be one of the initial 8 triangles
}

#[test]
fn test_trixel_id_generation() {
    println!("\nTesting trixel ID generation:");

    // Test North Pole
    let north_pole = SphericalCoords { ra: 0.0, dec: 89.999 };
    let north_id = get_trixel_id(north_pole, 5).unwrap();
    println!("North Pole (RA: 0°, Dec: 89.999°): {}", north_id);
    assert!(north_id >= 100000);

    // Test Equator
    let equator = SphericalCoords { ra: 45.0, dec: 0.0 };
    let equator_id = get_trixel_id(equator, 5).unwrap();
    println!("Equator (RA: 45°, Dec: 0°): {}", equator_id);
    assert!(north_id >= 100000);

    // Test Deep Subdivision
    let deep = SphericalCoords { ra: 123.0, dec: 45.0 };
    let deep_id = get_trixel_id(deep, 10).unwrap();
    println!("Deep Subdivision (RA: 123°, Dec: 45°): {}", deep_id);
    assert!(deep_id >= 10000000000);

    // Test Base Level
    let base = SphericalCoords { ra: 10.0, dec: -30.0 };
    let base_id = get_trixel_id(base, 0).unwrap();
    println!("Base Level (RA: 10°, Dec: -30°): {}", base_id);
    assert!(base_id >= 1 && base_id <= 8);
}

#[test]
fn test_invalid_resolution() {
    println!("\nTesting invalid resolution handling:");

    let coords = SphericalCoords { ra: 0.0, dec: 0.0 };
    let result = get_trixel_id(coords, 32);
    println!("Resolution 32 result: {:?}", result);
    assert!(result.is_err());
}

#[test]
fn test_invalid_coordinates() {
    println!("\nTesting invalid coordinates handling:");

    // Test invalid RA
    let invalid_ra = SphericalCoords { ra: 999.0, dec: 0.0 };
    let result = get_trixel_id(invalid_ra, 5);
    println!("Invalid RA result: {:?}", result);
    assert!(result.is_err());

    // Test invalid Dec
    let invalid_dec = SphericalCoords { ra: 0.0, dec: 999.0 };
    let result = get_trixel_id(invalid_dec, 5);
    println!("Invalid Dec result: {:?}", result);
    assert!(result.is_err());

    // Test negative RA
    let negative_ra = SphericalCoords { ra: -1.0, dec: 0.0 };
    let result = get_trixel_id(negative_ra, 5);
    println!("Negative RA result: {:?}", result);
    assert!(result.is_err());

    // Test negative Dec
    let negative_dec = SphericalCoords { ra: 0.0, dec: -91.0 };
    let result = get_trixel_id(negative_dec, 5);
    println!("Negative Dec result: {:?}", result);
    assert!(result.is_err());
}

fn digits(id: u64) -> Vec<u64> {
    id.to_string().bytes().map(|b| (b - b'0') as u64).collect()
}

#[test]
fn north_pole_at_depth_five() {
    let id = get_htm_id(SphericalCoords { ra: 0.0, dec: 89.999 }, 5).unwrap();
    assert_eq!(id, 521111);
    let d = digits(id);
    assert_eq!(d.len(), 6);
    assert!((5..=8).contains(&d[0]));
    assert!(d[1..].iter().all(|c| (1..=4).contains(c)));
}

#[test]
fn equator_at_depth_five() {
    let id = get_htm_id(SphericalCoords { ra: 45.0, dec: 0.0 }, 5).unwrap();
    assert_eq!(id, 113111);
    assert_eq!(digits(id).len(), 6);
}

#[test]
fn base_level_in_the_southern_cap() {
    let id = get_htm_id(SphericalCoords { ra: 10.0, dec: -30.0 }, 0).unwrap();
    assert_eq!(id, 1);
    assert!((1..=4).contains(&id));
}

#[test]
fn located_identifiers_have_the_shape_of_a_descent() {
    let points = [(0.0, 0.0), (123.0, 45.0), (200.0, -10.0), (359.0, -89.0), (360.0, 90.0), (0.0, -90.0)];
    for (ra, dec) in points {
        for depth in [0u32, 1, 2, 7, 18] {
            let id = get_htm_id(SphericalCoords { ra, dec }, depth).unwrap();
            let d = digits(id);
            assert_eq!(d.len() as u32, depth + 1);
            assert!((1..=8).contains(&d[0]));
            assert!(d[1..].iter().all(|c| (1..=4).contains(c)));
            if dec < 0.0 {
                assert!((1..=4).contains(&d[0]));
            }
        }
    }
}

#[test]
fn located_identifiers_on_known_points() {
    assert_eq!(get_htm_id(SphericalCoords { ra: 123.0, dec: 45.0 }, 10), Ok(74133443312));
    assert_eq!(get_htm_id(SphericalCoords { ra: 200.0, dec: -10.0 }, 3), Ok(3142));
    assert_eq!(get_htm_id(SphericalCoords { ra: 359.0, dec: -89.0 }, 4), Ok(42111));
    assert_eq!(get_htm_id(SphericalCoords { ra: 360.0, dec: 90.0 }, 2), Ok(521));
    assert_eq!(get_htm_id(SphericalCoords { ra: 0.0, dec: -90.0 }, 2), Ok(121));
    assert_eq!(get_htm_id(SphericalCoords { ra: 90.0, dec: 0.0 }, 1), Ok(13));
    assert_eq!(get_htm_id(SphericalCoords { ra: 123.0, dec: 45.0 }, 18), Ok(7413344331222321111));
}

#[test]
fn deepest_descent_succeeds_and_wraps() {
    // Beyond level 18 the identifier is cut to 64 bits.
    assert_eq!(get_htm_id(SphericalCoords { ra: 123.0, dec: 45.0 }, 19), Ok(346467017385004647));
    assert_eq!(get_htm_id(SphericalCoords { ra: 123.0, dec: 45.0 }, 31), Ok(3131401035596591559));
    assert!(get_htm_id(SphericalCoords { ra: 0.0, dec: 0.0 }, 31).is_ok());
    assert!(get_trixel_id(SphericalCoords { ra: 300.0, dec: -45.0 }, 31).is_ok());
}

#[test]
fn depth_is_checked_before_coordinates() {
    assert_eq!(get_htm_id(SphericalCoords { ra: 999.0, dec: 0.0 }, 32), Err(ErrorCode::InvalidResolution));
    assert_eq!(get_htm_id(SphericalCoords { ra: 999.0, dec: 0.0 }, 31), Err(ErrorCode::InvalidCoordinates));
    assert_eq!(get_trixel_id(SphericalCoords { ra: 0.0, dec: 91.0 }, 5), Err(ErrorCode::InvalidCoordinates));
    assert_eq!(get_trixel_id(SphericalCoords { ra: 0.0, dec: 0.0 }, 32), Err(ErrorCode::InvalidResolution));
    assert_eq!(get_htm_id(SphericalCoords { ra: 360.0, dec: -90.0 }, 0).map(|id| id <= 8), Ok(true));
}

#[test]
fn search_begins_at_any_depth_up_to_31() {
    assert!(HtmSearch::begin(0).is_ok());
    assert!(HtmSearch::begin(31).is_ok());
    assert!(matches!(HtmSearch::begin(32), Err(ErrorCode::InvalidResolution)));
    assert!(matches!(HtmSearch::begin(u32::MAX), Err(ErrorCode::InvalidResolution)));
}

#[test]
fn candidates_are_picked_narrow_first() {
    assert_eq!(select_candidate(&[false, true, true], &[true, true, true]), Some(1));
    assert_eq!(select_candidate(&[false, false, false], &[false, false, true]), Some(2));
    assert_eq!(select_candidate(&[false, false], &[true, true]), Some(0));
    assert_eq!(select_candidate(&[false, false], &[false, false]), None);
    assert_eq!(select_candidate(&[], &[]), None);
    assert_eq!(select_candidate(&[true], &[false]), Some(0));
}

#[test]
fn descent_spells_the_way_taken() {
    let none8 = [false; 8];
    let none4 = [false; 4];
    let mut base = [false; 8];
    base[6] = true;
    let descent = HtmSearch::begin(3).unwrap().enter_base(&base, &none8).unwrap();
    assert_eq!((descent.id(), descent.slot(), descent.is_complete()), (7, 6, false));
    let mut third = [false; 4];
    third[2] = true;
    let descent = descent.descend(&none4, &third).unwrap();
    assert_eq!((descent.id(), descent.slot(), descent.is_complete()), (73, 2, false));
    let all = [true; 4];
    let descent = descent.descend(&all, &none4).unwrap();
    assert_eq!((descent.id(), descent.slot(), descent.is_complete()), (731, 0, false));
    let mut fourth = [false; 4];
    fourth[3] = true;
    let descent = descent.descend(&fourth, &all).unwrap();
    assert_eq!((descent.id(), descent.slot(), descent.is_complete()), (7314, 3, true));
}

#[test]
fn descent_fails_where_no_candidate_holds_the_point() {
    let none8 = [false; 8];
    let none4 = [false; 4];
    assert!(matches!(
        HtmSearch::begin(2).unwrap().enter_base(&none8, &none8),
        Err(ErrorCode::InvalidCoordinates)
    ));
    let base = [true; 8];
    let descent = HtmSearch::begin(2).unwrap().enter_base(&base, &base).unwrap();
    assert_eq!(descent.id(), 1);
    assert!(matches!(descent.descend(&none4, &none4), Err(ErrorCode::InvalidCoordinates)));
}

#[test]
fn descent_at_depth_zero_is_complete_at_once() {
    let mut base = [false; 8];
    base[7] = true;
    let descent = HtmSearch::begin(0).unwrap().enter_base(&[false; 8], &base).unwrap();
    assert!(descent.is_complete());
    assert_eq!(descent.id(), 8);
}

#[test]
fn located_identifiers_lead_with_the_base_trixel() {
    // A trixel identifier keeps the base trixel in its last digit, so what a
    // descent yields is one only where it starts in a base trixel up to 4.
    let south = get_htm_id(SphericalCoords { ra: 45.0, dec: 0.0 }, 5).unwrap();
    assert_eq!(south, 113111);
    assert_eq!(get_trixel_ancestors(south), Ok(vec![13111, 3111, 111, 11, 1]));
    assert_eq!(resolution_from_trixel_id(south), Ok(5));
    let north = get_htm_id(SphericalCoords { ra: 0.0, dec: 89.999 }, 5).unwrap();
    assert_eq!(north, 521111);
    assert_eq!(get_trixel_ancestors(north), Err(ErrorCode::InvalidTrixelId));
    assert_eq!(resolution_from_trixel_id(north), Ok(5));
    for base in 5..=8u64 {
        assert_eq!(get_trixel_ancestors(base), Ok(vec![]));
        assert_eq!(get_trixel_ancestors(base * 10 + 1), Err(ErrorCode::InvalidTrixelId));
    }
}
