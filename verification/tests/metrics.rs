//! Tests of the exact arithmetic behind the win rates.

use onus::big::Big;
use onus::metrics::nearest;

fn big(v: u128) -> Big {
    let mut b = Big::from((v >> 64) as u64);
    b.mul_small(1 << 32);
    b.mul_small(1 << 32);
    b.add(&Big::from(v as u64));
    b
}

/// Expected values are the correctly rounded quotients.
#[test]
fn nearest_is_correctly_rounded_ties_to_even() {
    let cases: [(u128, u128, f64); 10] = [
        (0, 7, 0.0),
        (5, 5, 1.0),
        (1, 3, 0.3333333333333333),
        (2, 3, 0.6666666666666666),
        (1, 10, 0.1),
        (7, 10, 0.7),
        // Exactly halfway, significand even: rounds down.
        ((1 << 53) + 1, 1 << 54, 0.5),
        // Exactly halfway, significand odd: rounds up.
        ((1 << 53) + 3, 1 << 54, 0.5000000000000002),
        // Just above halfway (sticky bit): rounds down only below halfway.
        ((1 << 60) + 1, 1 << 61, 0.5),
        ((1 << 100) - 1, (1 << 127) + 5, 7.450580596923828e-09),
    ];
    for (n, d, want) in cases {
        assert_eq!(f64::from_bits(nearest(big(n), &big(d)).bits), want, "{n}/{d}");
    }
}

#[test]
fn big_arithmetic_matches_u128() {
    let a: u128 = 0xDEAD_BEEF_1234_5678_9ABC_DEF0_0FED_CBA9;
    let mut x = big(a >> 80);
    x.mul_small(0xFFFF_FFFF_FFF1);
    assert_eq!(x, big((a >> 80) * 0xFFFF_FFFF_FFF1));
    let mut y = big(a >> 2);
    y.add(&big(a >> 2));
    assert_eq!(y, big((a >> 2) * 2));
    y.sub(&big(a >> 3));
    assert_eq!(y, big((a >> 2) * 2 - (a >> 3)));
    let mut z = big(a >> 1);
    z.shl1();
    assert_eq!(z, big((a >> 1) << 1));
    assert_eq!(big(5).cmp(&big(1 << 70)), std::cmp::Ordering::Less);
    assert!(Big::from(0).is_zero());
}

/// What was subtracted away is the zero that was made as zero.
#[test]
fn zero_has_one_form() {
    let a: u128 = 0xDEAD_BEEF_1234_5678_9ABC_DEF0_0FED_CBA9;
    let mut w = big(a);
    w.sub(&big(a));
    assert!(w.is_zero());
    assert_eq!(w, Big::from(0));
}
