use polygon_canvas::Rat;
use polygon_canvas::Round;
use polygon_canvas::RoundToUsize;

#[test]
fn test_round_to_usize_f32() {
    let value = Rat::new(57, 10);
    assert_eq!(value.round_to_usize(), 6);
    assert_eq!(value.ceil_to_usize(), 6);
    assert_eq!(value.floor_to_usize(), 5);
}

#[test]
fn test_round_to_usize_f64() {
    let value = Rat::new(57, 10);
    assert_eq!(value.round_to_usize(), 6);
    assert_eq!(value.ceil_to_usize(), 6);
    assert_eq!(value.floor_to_usize(), 5);
}

#[test]
fn test_round_to_usize_i32() {
    let value: i32 = 42;
    assert_eq!(value.round_to_usize(), 42);
    assert_eq!(value.ceil_to_usize(), 42);
    assert_eq!(value.floor_to_usize(), 42);
}

#[test]
fn test_round_to_usize_i64() {
    let value: i64 = 100;
    assert_eq!(value.round_to_usize(), 100);
    assert_eq!(value.ceil_to_usize(), 100);
    assert_eq!(value.floor_to_usize(), 100);
}

#[test]
fn test_round_to_usize_u32() {
    let value: u32 = 42;
    assert_eq!(value.round_to_usize(), 42);
    assert_eq!(value.ceil_to_usize(), 42);
    assert_eq!(value.floor_to_usize(), 42);
}

#[test]
fn test_round_to_usize_u64() {
    let value: u64 = 100;
    assert_eq!(value.round_to_usize(), 100);
    assert_eq!(value.ceil_to_usize(), 100);
    assert_eq!(value.floor_to_usize(), 100);
}

#[test]
fn test_round_to_self_negative_values() {
    // -5/2 = -2.5: floor -3, ceil -2, round away from zero -3
    let value = Rat::new(-5, 2);
    assert_eq!(value.floor_to_self(), Rat::new(-3, 1));
    assert_eq!(value.ceil_to_self(), Rat::new(-2, 1));
    assert_eq!(value.round_to_self(), Rat::new(-3, 1));
    // -27/5 = -5.4 rounds to -5
    assert_eq!(Rat::new(-27, 5).round_to_self(), Rat::new(-5, 1));
    // halves round up for positive values: 5/2 -> 3
    assert_eq!(Rat::new(5, 2).round_to_self(), Rat::new(3, 1));
}

#[test]
fn test_round_to_usize_saturates_at_zero() {
    let value = Rat::new(-7, 2);
    assert_eq!(value.round_to_usize(), 0);
    assert_eq!(value.ceil_to_usize(), 0);
    assert_eq!(value.floor_to_usize(), 0);
}
