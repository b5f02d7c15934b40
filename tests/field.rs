use gacha::decompose::{quot, rem};
use gacha::field::FieldValue;

fn order_minus_one() -> [u8; 32] {
    let mut b = [0u8; 32];
    let be: [u8; 32] = [
        0x40, 0x00, 0x00, 0x00, 0x00, 0x00, 0x00, 0x00, 0x00, 0x00, 0x00, 0x00, 0x00, 0x00, 0x00,
        0x00, 0x22, 0x46, 0x98, 0xfc, 0x09, 0x4c, 0xf9, 0x1b, 0x99, 0x2d, 0x30, 0xed, 0x00, 0x00,
        0x00, 0x00,
    ];
    for i in 0..32 {
        b[i] = be[31 - i];
    }
    b
}

fn low_u128(v: &FieldValue) -> u128 {
    let mut out = 0u128;
    for i in (0..16).rev() {
        out = (out << 8) | v.repr[i] as u128;
    }
    for i in 16..32 {
        assert_eq!(v.repr[i], 0);
    }
    out
}

#[test]
fn from_u64_is_little_endian() {
    let v = FieldValue::from_u64(0x0102030405060708);
    assert_eq!(&v.repr[..8], &[8, 7, 6, 5, 4, 3, 2, 1]);
    assert!(v.repr[8..].iter().all(|b| *b == 0));
}

#[test]
fn from_repr_accepts_only_canonical() {
    assert!(FieldValue::from_repr([0xff; 32]).is_none());
    let mut p = order_minus_one();
    assert_eq!(FieldValue::from_repr(p).map(|v| v.repr), Some(p));
    p[0] = 1;
    assert!(FieldValue::from_repr(p).is_none());
}

#[test]
fn arithmetic_is_modular() {
    let two = FieldValue::from_u64(2);
    let three = FieldValue::from_u64(3);
    assert_eq!(two.mul(&three), FieldValue::from_u64(6));
    assert_eq!(two.add(&three), FieldValue::from_u64(5));
    let minus_one = FieldValue::from_repr(order_minus_one()).unwrap();
    assert_eq!(minus_one.add(&FieldValue::from_u64(1)), FieldValue::from_u64(0));
    assert_eq!(minus_one.mul(&minus_one), FieldValue::from_u64(1));
}

#[test]
fn remainder_and_quotient_by_two_bytes() {
    let v = FieldValue::from_u64(0x0102030405060708);
    assert_eq!(low_u128(&rem(&v, 2)), 0x0708);
    assert_eq!(low_u128(&quot(&v, 2)), 0x010203040506);
}

#[test]
fn zero_width_modulus() {
    let v = FieldValue::from_u64(987654321);
    assert_eq!(rem(&v, 0), FieldValue::from_u64(0));
    assert_eq!(quot(&v, 0), v);
}

#[test]
fn full_width_modulus() {
    let v = FieldValue::from_repr(order_minus_one()).unwrap();
    assert_eq!(rem(&v, 32), v);
    assert_eq!(quot(&v, 32), FieldValue::from_u64(0));
}

#[test]
fn decomposition_round_trip() {
    for &x in &[0u64, 1, 255, 256, 65535, 65536, 0xdead_beef_cafe_f00d, u64::MAX] {
        let v = FieldValue::from_u64(x);
        for k in 0..9usize {
            let r = low_u128(&rem(&v, k));
            let q = low_u128(&quot(&v, k));
            let m = 1u128 << (8 * k);
            assert!(r < m);
            assert_eq!(r + m * q, x as u128);
        }
    }
}

#[test]
fn high_bytes_shift_down() {
    let mut repr = order_minus_one();
    repr[31] = 0x3f;
    let v = FieldValue::from_repr(repr).unwrap();
    let q = quot(&v, 31);
    assert_eq!(q, FieldValue::from_u64(0x3f));
    let r = rem(&v, 31);
    let mut low = repr;
    low[31] = 0;
    assert_eq!(r.repr, low);
}
