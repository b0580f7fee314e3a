//! Tests of the packed-decimal significand primitives.

use tifloat::mantissa::Mantissa;

const PI_BITS: u64 = 0x0031415926535898;
const ONE_BITS: u64 = 0x0010000000000000;
const FIVE_BITS: u64 = 0x0050000000000000;
const E_BITS: u64 = 0x0027182818284590;

#[test]
fn add() {
    let pi = Mantissa::from_unchecked(PI_BITS);
    let e = Mantissa::from_unchecked(E_BITS);
    let sum = Mantissa::from_unchecked(0x0058598744820488);

    assert_eq!(pi.overflowing_add(e).0.hex(), sum.hex());
}

#[test]
fn sub() {
    let pi = Mantissa::from_unchecked(PI_BITS);
    let one = Mantissa::from_unchecked(ONE_BITS);
    let pi_plus_one = Mantissa::from_unchecked(0x0041415926535898);

    assert_eq!(pi_plus_one.overflowing_sub(one).0.hex(), pi.hex());

    let overflowed_sub = pi.overflowing_sub(pi_plus_one);

    assert!(overflowed_sub.1);
    assert_eq!(overflowed_sub.0.hex(), one.hex());
}

#[test]
fn shr() {
    let one = Mantissa::from_unchecked(ONE_BITS);
    let basically_ten = Mantissa::from_unchecked(0x0099999999999999);

    assert_eq!(basically_ten.shr(1).hex(), one.hex());
}

#[test]
fn to_from_dec() {
    let pi = Mantissa::from_unchecked(PI_BITS);

    assert_eq!(Mantissa::from_dec(31415926535898), pi);
    assert_eq!(pi.to_dec(), 31415926535898);
}

#[test]
fn mul() {
    let pi = Mantissa::from_unchecked(PI_BITS);
    let one = Mantissa::from_unchecked(ONE_BITS);
    let five = Mantissa::from_unchecked(FIVE_BITS);

    assert_eq!(pi.overflowing_mul(one), (pi, false));

    assert_eq!(
        five.overflowing_mul(five),
        (Mantissa::from_unchecked(0x0250000000000000), true)
    );

    assert_eq!(
        Mantissa::from_unchecked(0x0014285714285714)
            .overflowing_mul(Mantissa::from_unchecked(0x0070000000000000)),
        (Mantissa::from_unchecked(0x0099999999999998), false)
    );
}

#[test]
fn div() {
    assert_eq!(
        Mantissa::from_unchecked(0x6000000000000000)
            .overflowing_div(Mantissa::from_unchecked(0x7000000000000000)),
        (Mantissa::from_unchecked(0x0085714285714286), false)
    );

    assert_eq!(
        Mantissa::from_unchecked(0x1000000000000000)
            .overflowing_div(Mantissa::from_unchecked(0x3000000000000000)),
        (Mantissa::from_unchecked(0x0033333333333333), false)
    );

    assert_eq!(
        Mantissa::from_unchecked(0x0355000000000000)
            .overflowing_div(Mantissa::from_unchecked(0x1130000000000000)),
        (Mantissa::from_unchecked(0x0031415929203540), false)
    );
}

#[test]
fn digits() {
    assert_eq!(
        Mantissa::from_unchecked(0x0014285714285714).digits(),
        vec![1, 4, 2, 8, 5, 7, 1, 4, 2, 8, 5, 7, 1, 4]
    )
}

#[test]
fn digit_validity() {
    assert!(Mantissa::from(0x000000000000000A).is_none());
    assert!(Mantissa::from(0x00A0000000000000).is_none());
    assert!(Mantissa::from(0x0100000000000000).is_none());
    assert!(Mantissa::from(0xFF00000000000000).is_none());

    let m = Mantissa::from(PI_BITS).unwrap();
    assert_eq!(m.bits(), PI_BITS);
    assert!(m.check());
    assert!(!Mantissa::from_unchecked(0x000000000000000A).check());
}

#[test]
fn shr_rounds_half_up() {
    // The first discarded digit decides: 4 rounds down, 5 rounds up.
    let m = Mantissa::from_dec(12345678901234);
    assert_eq!(m.shr(1).to_dec(), 1234567890123);
    assert_eq!(m.shr(2).to_dec(), 123456789012);
    assert_eq!(m.shr(3).to_dec(), 12345678901);
    assert_eq!(m.shr(4).to_dec(), 1234567890);
    assert_eq!(m.shr(5).to_dec(), 123456789);
    // Shifting everything out saturates to zero.
    assert_eq!(m.shr(15).to_dec(), 0);
    assert_eq!(m.shr(0).to_dec(), 12345678901234);
}

#[test]
fn shl_discards_high_digits() {
    let m = Mantissa::from_dec(12345678901234);
    assert_eq!(m.shl(1).to_dec(), 23456789012340);
    assert_eq!(m.shl(13).to_dec(), 40000000000000);
    assert_eq!(m.shl(14).to_dec(), 0);
}

#[test]
fn tens_complement_of_one() {
    let one = Mantissa::from_unchecked(ONE_BITS);
    assert_eq!(one.tens_complement().bits(), 0x0090000000000000);

    let ulp = Mantissa::from_unchecked(0x0000000000000001);
    assert_eq!(ulp.tens_complement().to_dec(), 99999999999999);
}

#[test]
fn from_dec_normalized_shifts_left() {
    let (m, count) = Mantissa::from_dec_normalized(123);
    assert_eq!(m.bits(), 0x0012300000000000);
    assert_eq!(count, 11);

    let (z, zcount) = Mantissa::from_dec_normalized(0);
    assert!(z.is_zero());
    assert_eq!(zcount, 0);

    let (full, fcount) = Mantissa::from_dec_normalized(99999999999999);
    assert_eq!(full.to_dec(), 99999999999999);
    assert_eq!(fcount, 0);
}

#[test]
fn hex_drops_leading_zeros() {
    assert_eq!(Mantissa::from_unchecked(PI_BITS).hex(), "31415926535898");
    assert_eq!(Mantissa::from_dec(0).hex(), "0");
    assert_eq!(Mantissa::from_dec(42).hex(), "42");
}
