use gacha::chain::{GachaConfig, Row};
use gacha::field::FieldValue;
use gacha::reference::{get_random, INCREMENT, MODULUS, MULTIPLIER};

fn value_u64(v: &Option<FieldValue>) -> u64 {
    let v = v.expect("known value");
    assert!(v.repr[8..].iter().all(|b| *b == 0));
    u64::from_le_bytes(v.repr[..8].try_into().unwrap())
}

#[test]
fn new_accepts_byte_aligned_moduli() {
    let c = GachaConfig::new(15, 3, 16).unwrap();
    assert_eq!((c.multiplier, c.adder, c.modulus_bytes), (15, 3, 2));
    assert_eq!(c.modulus_value(), 65536);
    assert!(GachaConfig::new(15, 3, 12).is_none());
    assert!(GachaConfig::new(15, 3, 64).is_none());
    assert_eq!(GachaConfig::new(15, 3, 56).unwrap().modulus_value(), 1 << 56);
    assert_eq!(GachaConfig::new(15, 3, 0).unwrap().modulus_value(), 1);
}

#[test]
fn default_is_the_standard_generator() {
    let c = GachaConfig::default();
    assert_eq!(c, GachaConfig::new(MULTIPLIER, INCREMENT, 32).unwrap());
    assert_eq!(c.modulus_value(), MODULUS);
}

#[test]
fn next_value_is_affine() {
    let c = GachaConfig::new(15, 3, 16).unwrap();
    assert_eq!(c.next_value(Some(FieldValue::from_u64(7))), Some(FieldValue::from_u64(108)));
    assert_eq!(c.next_value(None), None);
}

#[test]
fn first_row_reduces_the_seed() {
    let c = GachaConfig::new(15, 3, 16).unwrap();
    let row = c.assign_first_row(Some(FieldValue::from_u64(0x1_0005)));
    assert_eq!(value_u64(&row.x), 5);
    assert_eq!(value_u64(&row.remainder), 78);
    assert_eq!(value_u64(&row.quotient), 0);
}

#[test]
fn next_row_copies_the_remainder() {
    let c = GachaConfig::new(15, 3, 16).unwrap();
    let prev = c.assign_first_row(Some(FieldValue::from_u64(54352)));
    let row = c.assign_next_row(&prev);
    assert_eq!(row.x, prev.remainder);
    let x = value_u64(&row.x);
    let raw = 15 * x + 3;
    assert_eq!(value_u64(&row.remainder), raw % 65536);
    assert_eq!(value_u64(&row.quotient), raw / 65536);
}

#[test]
fn unknown_seed_gives_the_same_shape() {
    let c = GachaConfig::default();
    let rows = c.synthesize(None, 100);
    assert_eq!(rows.len(), 100);
    assert!(rows.iter().all(|r| *r == Row { x: None, remainder: None, quotient: None }));
    assert_eq!(c.synthesize(Some(FieldValue::from_u64(1)), 100).len(), 100);
}

#[test]
fn synthesized_rows_follow_the_reference() {
    let c = GachaConfig::default();
    let rows = c.synthesize(Some(FieldValue::from_u64(54352)), 100);
    assert_eq!(rows.len(), 100);
    assert_eq!(value_u64(&rows[0].x), 54352);
    for (i, row) in rows.iter().enumerate() {
        assert_eq!(value_u64(&row.remainder), get_random(54352, MULTIPLIER, INCREMENT, MODULUS, i as u64 + 1));
        let x = value_u64(&row.x) as u128;
        let lhs = x * MULTIPLIER as u128 + INCREMENT as u128;
        let rhs = value_u64(&row.remainder) as u128 + MODULUS as u128 * value_u64(&row.quotient) as u128;
        assert_eq!(lhs, rhs);
        if i > 0 {
            assert_eq!(row.x, rows[i - 1].remainder);
        }
    }
}

#[test]
fn zero_iterations_build_one_row() {
    let c = GachaConfig::new(15, 3, 16).unwrap();
    let rows = c.synthesize(Some(FieldValue::from_u64(54352)), 0);
    assert_eq!(rows.len(), 1);
    // The public cell of a zero-step circuit is the first row's x cell.
    assert_eq!(value_u64(&rows[0].x), get_random(54352, 15, 3, 65536, 0));
    assert_eq!(value_u64(&rows[0].x), 54352 % 65536);
    assert_eq!(value_u64(&rows[0].remainder), get_random(54352, 15, 3, 65536, 1));
}

#[test]
fn scenario_b_rows() {
    let c = GachaConfig::new(15, 3, 16).unwrap();
    for n in 1..30u64 {
        let rows = c.synthesize(Some(FieldValue::from_u64(54352)), n);
        assert_eq!(rows.len() as u64, n);
        assert_eq!(value_u64(&rows[rows.len() - 1].remainder), get_random(54352, 15, 3, 65536, n));
    }
}
