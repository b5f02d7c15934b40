use gacha::reference::{get_random, INCREMENT, MODULUS, MODULUS_EXPONENT, MULTIPLIER};

fn iterate(seed: u64, a: u64, c: u64, m: u64, n: u64) -> u64 {
    let m = m as u128;
    let mut ret = seed as u128 % m;
    for _ in 0..n {
        ret = (ret * a as u128 + c as u128) % m;
    }
    ret as u64
}

#[test]
fn standard_constants() {
    assert_eq!(MODULUS_EXPONENT, 32);
    assert_eq!(MODULUS, 4294967296);
    assert_eq!(MULTIPLIER, 214013);
    assert_eq!(INCREMENT, 2531011);
}

#[test]
fn one_step_exact_value() {
    let expected = ((54352u128 * 214013 + 2531011) % 4294967296) as u64;
    assert_eq!(expected, 3044630995);
    assert_eq!(get_random(54352, MULTIPLIER, INCREMENT, MODULUS, 1), 3044630995);
}

#[test]
fn zero_steps_reduce_the_seed() {
    assert_eq!(get_random(54352, 15, 3, 65536, 0), 54352);
    assert_eq!(get_random(543657876595952, MULTIPLIER, INCREMENT, MODULUS, 0), 543657876595952 % MODULUS);
}

#[test]
fn scenario_a_hundred_steps() {
    let r = get_random(54352, 214013, 2531011, 1 << 32, 100);
    assert_eq!(r, iterate(54352, 214013, 2531011, 1 << 32, 100));
    assert!(r < 1 << 32);
}

#[test]
fn scenario_b_steps_one_to_twenty_nine() {
    for n in 1..30 {
        assert_eq!(get_random(54352, 15, 3, 1 << 16, n), iterate(54352, 15, 3, 1 << 16, n));
    }
    assert_eq!(get_random(54352, 15, 3, 1 << 16, 1), (54352 * 15 + 3) % 65536);
}

#[test]
fn largest_operands_do_not_overflow() {
    let r = get_random(u64::MAX, u64::MAX, u64::MAX, u64::MAX, 3);
    assert_eq!(r, iterate(u64::MAX, u64::MAX, u64::MAX, u64::MAX, 3));
}
