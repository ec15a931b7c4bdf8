use genesis_sim::scalar_field::ScalarField;

#[test]
fn new_field_is_zero() {
    let f = ScalarField::new(4, 0.0f32);
    assert_eq!(f.data.iter().sum::<f32>(), 0.0);
    assert_eq!(f.data.len(), 64); // 4^3
}

#[test]
fn set_get_roundtrip() {
    let mut f = ScalarField::new(4, 0.0f32);
    f.set(1, 2, 3, 42.0);
    assert_eq!(f.get(1, 2, 3), 42.0);
}

#[test]
fn wrapping_coordinates() {
    let mut f = ScalarField::new(4, 0.0f32);
    f.set(0, 0, 0, 7.0);
    // -4 wraps to 0, 4 wraps to 0
    assert_eq!(f.get(-4, 0, 0), 7.0);
    assert_eq!(f.get(4, 0, 0), 7.0);
    assert_eq!(f.get(0, -4, 0), 7.0);
    assert_eq!(f.get(0, 0, 4), 7.0);
}

#[test]
fn layout_is_row_major() {
    let mut f = ScalarField::new(3, 0u32);
    f.set(1, 2, 0, 5);
    assert_eq!(f.data[1 * 9 + 2 * 3], 5);
    f.set(-1, -1, -1, 9);
    assert_eq!(f.data[26], 9);
    assert_eq!(f.get(2, 2, 2), 9);
    assert_eq!(f.data.iter().filter(|v| **v != 0).count(), 2);
}

#[test]
fn wrap_coord_matches_euclidean_remainder() {
    let f = ScalarField::new(10, 0u8);
    assert_eq!(f.wrap_coord(13), 3);
    assert_eq!(f.wrap_coord(-1), 9);
    assert_eq!(f.wrap_coord(-10), 0);
    assert_eq!(f.wrap_coord(-23), 7);
    assert_eq!(f.wrap_coord(i32::MIN), i32::MIN.rem_euclid(10));
}
