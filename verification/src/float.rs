//! The signed, exponent-scaled decimal floating-point value built on
//! `Mantissa`: a status byte (sign and pass-through markers), a biased
//! exponent byte, and a 14-digit packed-decimal significand.

use vstd::prelude::*;
use vstd::arithmetic::div_mod::{
    lemma_fundamental_div_mod_converse_div, lemma_fundamental_div_mod_converse_mod,
    lemma_mod_multiples_vanish, lemma_small_mod,
};
use core::cmp::Ordering;

use crate::bcd::{bcd_ok, pow10, pow16};
use crate::error::FloatError;
use crate::mantissa::Mantissa;

verus! {

/// The exponent bias: an unbiased exponent of zero is stored as this byte.
pub const EXPONENT_NORM: u8 = 0x80;

/// The largest valid biased exponent (unbiased +99).
pub const EXPONENT_MAX: u8 = 0xE3;

/// The smallest valid biased exponent (unbiased −99).
pub const EXPONENT_MIN: u8 = 0x1D;

/// The status byte, unpacked.  Only the sign takes part in arithmetic; the
/// remaining markers are carried through untouched.
#[derive(Copy, Clone, Debug, PartialEq, Eq, Structural)]
pub struct Flags {
    /// Bit 1: the number is undefined (used for initial sequence values).
    pub undefined: bool,
    /// Bit 2, the low bit of the complex-half marker.
    pub complex_lo: bool,
    /// Bit 3, the high bit of the complex-half marker.
    pub complex_hi: bool,
    /// Bit 6: meaning uncertain; preserved verbatim.
    pub idk: bool,
    /// Bit 7: the number is negative.
    pub negative: bool,
}

impl Flags {
    /// The status byte this set of flags packs to.
    pub open spec fn byte_spec(self) -> int {
        (if self.negative {
            128int
        } else {
            0
        }) + (if self.idk {
            64int
        } else {
            0
        }) + (if self.complex_hi {
            8int
        } else {
            0
        }) + (if self.complex_lo {
            4int
        } else {
            0
        }) + (if self.undefined {
            2int
        } else {
            0
        })
    }

    /// Whether a status byte is recognized: bits 0, 4 and 5 must be clear.
    pub open spec fn byte_valid(b: int) -> bool {
        b % 2 == 0 && (b / 16) % 2 == 0 && (b / 32) % 2 == 0
    }

    /// The flags a recognized status byte unpacks to.
    pub open spec fn of_byte(b: int) -> Flags {
        Flags {
            undefined: (b / 2) % 2 == 1,
            complex_lo: (b / 4) % 2 == 1,
            complex_hi: (b / 8) % 2 == 1,
            idk: (b / 64) % 2 == 1,
            negative: (b / 128) % 2 == 1,
        }
    }

    /// The empty flag set.
    pub fn empty() -> (r: Flags)
        ensures
            r == (Flags {
                undefined: false,
                complex_lo: false,
                complex_hi: false,
                idk: false,
                negative: false,
            }),
    {
        Flags { undefined: false, complex_lo: false, complex_hi: false, idk: false, negative: false }
    }

    /// Packs the flags into their status byte.
    pub fn bits(&self) -> (r: u8)
        ensures
            r as int == self.byte_spec(),
    {
        let mut b: u8 = 0;
        if self.negative {
            b = b + 128;
        }
        if self.idk {
            b = b + 64;
        }
        if self.complex_hi {
            b = b + 8;
        }
        if self.complex_lo {
            b = b + 4;
        }
        if self.undefined {
            b = b + 2;
        }
        b
    }

    /// Unpacks a status byte, rejecting bytes with unrecognized bits set.
    pub fn from_bits(b: u8) -> (r: Option<Flags>)
        ensures
            r is Some <==> Flags::byte_valid(b as int),
            r matches Some(f) ==> f == Flags::of_byte(b as int),
    {
        let mut rem: u8 = b;
        let negative = rem >= 128;
        if negative {
            rem = rem - 128;
        }
        let idk = rem >= 64;
        if idk {
            rem = rem - 64;
        }
        let bit5 = rem >= 32;
        if bit5 {
            rem = rem - 32;
        }
        let bit4 = rem >= 16;
        if bit4 {
            rem = rem - 16;
        }
        let complex_hi = rem >= 8;
        if complex_hi {
            rem = rem - 8;
        }
        let complex_lo = rem >= 4;
        if complex_lo {
            rem = rem - 4;
        }
        let undefined = rem >= 2;
        if undefined {
            rem = rem - 2;
        }
        let bit0 = rem >= 1;
        proof {
            lemma_flags_byte_bits(
                b as int,
                if negative {
                    1
                } else {
                    0
                },
                if idk {
                    1
                } else {
                    0
                },
                if bit5 {
                    1
                } else {
                    0
                },
                if bit4 {
                    1
                } else {
                    0
                },
                if complex_hi {
                    1
                } else {
                    0
                },
                if complex_lo {
                    1
                } else {
                    0
                },
                if undefined {
                    1
                } else {
                    0
                },
                if bit0 {
                    1
                } else {
                    0
                },
            );
        }
        if bit0 || bit4 || bit5 {
            None
        } else {
            Some(Flags { undefined, complex_lo, complex_hi, idk, negative })
        }
    }
}

/// Relates the additive decomposition of a status byte to the quotient-
/// and-remainder formulas the specs use for its individual bits.
proof fn lemma_flags_byte_bits(
    b: int,
    n: int,
    i: int,
    b5: int,
    b4: int,
    h: int,
    l: int,
    u: int,
    z: int,
)
    requires
        0 <= n <= 1,
        0 <= i <= 1,
        0 <= b5 <= 1,
        0 <= b4 <= 1,
        0 <= h <= 1,
        0 <= l <= 1,
        0 <= u <= 1,
        0 <= z <= 1,
        b == 128 * n + 64 * i + 32 * b5 + 16 * b4 + 8 * h + 4 * l + 2 * u + z,
    ensures
        b % 2 == z,
        (b / 2) % 2 == u,
        (b / 4) % 2 == l,
        (b / 8) % 2 == h,
        (b / 16) % 2 == b4,
        (b / 32) % 2 == b5,
        (b / 64) % 2 == i,
        (b / 128) % 2 == n,
{
    lemma_fundamental_div_mod_converse_mod(b, 2, 64 * n + 32 * i + 16 * b5 + 8 * b4 + 4 * h + 2 * l
        + u, z);
    lemma_fundamental_div_mod_converse_div(b, 2, 64 * n + 32 * i + 16 * b5 + 8 * b4 + 4 * h + 2 * l
        + u, z);
    lemma_fundamental_div_mod_converse_div(b, 4, 32 * n + 16 * i + 8 * b5 + 4 * b4 + 2 * h + l, 2
        * u + z);
    lemma_fundamental_div_mod_converse_div(b, 8, 16 * n + 8 * i + 4 * b5 + 2 * b4 + h, 4 * l + 2 * u
        + z);
    lemma_fundamental_div_mod_converse_div(b, 16, 8 * n + 4 * i + 2 * b5 + b4, 8 * h + 4 * l + 2 * u
        + z);
    lemma_fundamental_div_mod_converse_div(b, 32, 4 * n + 2 * i + b5, 16 * b4 + 8 * h + 4 * l + 2
        * u + z);
    lemma_fundamental_div_mod_converse_div(b, 64, 2 * n + i, 32 * b5 + 16 * b4 + 8 * h + 4 * l + 2
        * u + z);
    lemma_fundamental_div_mod_converse_div(b, 128, n, 64 * i + 32 * b5 + 16 * b4 + 8 * h + 4 * l + 2
        * u + z);
    lemma_fundamental_div_mod_converse_mod(b / 2, 2, 32 * n + 16 * i + 8 * b5 + 4 * b4 + 2 * h + l,
        u);
    lemma_fundamental_div_mod_converse_mod(b / 4, 2, 16 * n + 8 * i + 4 * b5 + 2 * b4 + h, l);
    lemma_fundamental_div_mod_converse_mod(b / 8, 2, 8 * n + 4 * i + 2 * b5 + b4, h);
    lemma_fundamental_div_mod_converse_mod(b / 16, 2, 4 * n + 2 * i + b5, b4);
    lemma_fundamental_div_mod_converse_mod(b / 32, 2, 2 * n + i, b5);
    lemma_fundamental_div_mod_converse_mod(b / 64, 2, n, i);
    lemma_fundamental_div_mod_converse_mod(b / 128, 2, 0, n);
}

/// A decimal floating-point value: status flags, biased exponent, and
/// 14-digit significand.
#[derive(Copy, Clone, Debug, PartialEq, Eq, Structural)]
pub struct Float {
    /// The status byte, unpacked.
    pub flags: Flags,
    /// The biased exponent.
    pub exponent: u8,
    /// The significand.
    pub mantissa: Mantissa,
}

impl Float {
    /// The decimal value of the significand.
    pub open spec fn mval(self) -> nat {
        self.mantissa.val()
    }

    /// Well-formed: canonical significand and in-range biased exponent.
    pub open spec fn wf(self) -> bool {
        self.mantissa.is14() && EXPONENT_MIN <= self.exponent <= EXPONENT_MAX
    }

    /// The magnitude part of the comparison key: the biased exponent
    /// major, the raw significand bits minor.
    pub open spec fn magnitude_spec(self) -> int {
        (self.exponent as int) * 0x100000000000000 + self.mantissa.spec_bits() as int
    }

    /// The single unsigned comparison key that drives the total order:
    /// every non-negative value lies above every negative one; among
    /// non-negative values a larger magnitude is greater, and among
    /// negative values the magnitude is inverted, so that the more
    /// negative value compares as the smaller.
    pub open spec fn measure_spec(self) -> int {
        if !self.flags.negative {
            0x80000000000000000000000000000000int + self.magnitude_spec()
        } else {
            0x7FFFFFFFFFFFFFFFFFFFFFFFFFFFFFFFint - self.magnitude_spec()
        }
    }

    fn measure(&self) -> (r: u128)
        ensures
            r as int == self.measure_spec(),
    {
        let magnitude = (self.exponent as u128) * 0x100000000000000u128 + (
        self.mantissa.bits() as u128);
        if !self.is_negative() {
            0x80000000000000000000000000000000u128 + magnitude
        } else {
            0x7FFFFFFFFFFFFFFFFFFFFFFFFFFFFFFFu128 - magnitude
        }
    }

    /// Whether the sign flag is set.
    pub fn is_negative(&self) -> (r: bool)
        ensures
            r == self.flags.negative,
    {
        self.flags.negative
    }

    /// The same value with the sign flag toggled; exponent and significand
    /// are untouched.
    pub open spec fn negated_spec(self) -> Float {
        Float { flags: Flags { negative: !self.flags.negative, ..self.flags }, ..self }
    }

    /// Returns this value with its sign flipped.
    pub fn negated(&self) -> (r: Float)
        ensures
            r == self.negated_spec(),
    {
        Float {
            flags: Flags { negative: !self.flags.negative, ..self.flags },
            exponent: self.exponent,
            mantissa: self.mantissa,
        }
    }

    /// Flips the sign flag in place.
    pub fn negate(&mut self)
        ensures
            *final (self) == old(self).negated_spec(),
    {
        self.flags.negative = !self.flags.negative;
    }

    /// Sets the complex-half marker bits of the status byte; the sign and
    /// the other markers, the exponent and the significand are untouched.
    pub fn mark_complex_half(&mut self)
        ensures
            final (self).flags == (Flags {
                complex_lo: true,
                complex_hi: true,
                ..old(self).flags
            }),
            final (self).exponent == old(self).exponent,
            final (self).mantissa == old(self).mantissa,
    {
        self.flags.complex_lo = true;
        self.flags.complex_hi = true;
    }
}

/// Failure to parse the 9-byte wire form.
#[derive(Debug, Copy, Clone, PartialEq, Eq, Structural)]
pub enum ParseFloatError {
    /// The status byte has unrecognized bits set.
    InvalidFlags,
    /// The exponent byte falls outside the valid biased range.
    InvalidExponent,
    /// A 4-bit digit field of the significand bytes exceeds 9.
    InvalidMantissa,
}

/// The value of the first (at most) 14 entries of a digit sequence, read
/// as the digits of a 14-digit number, most significant first; missing
/// trailing digits count as zero.
pub open spec fn packed_prefix(ds: Seq<u8>, n: nat) -> int
    decreases n,
{
    if n == 0 {
        0
    } else {
        packed_prefix(ds, (n - 1) as nat) + ds[n - 1] * pow10((14 - n) as nat)
    }
}

/// The 14-digit value a digit sequence denotes before rounding.
pub open spec fn digit_seq_value(ds: Seq<u8>) -> int {
    packed_prefix(
        ds,
        if ds.len() < 14 {
            ds.len()
        } else {
            14
        },
    )
}

/// The 14-digit value a digit sequence denotes: if a 15th digit exists and
/// is 5 or more, the retained value is rounded up one unit, wrapping the
/// all-nines case to zero.
pub open spec fn rounded_seq_value(ds: Seq<u8>) -> int {
    let v = digit_seq_value(ds);
    if ds.len() >= 15 && ds[14] >= 5 {
        if v + 1 == pow10(14) {
            0
        } else {
            v + 1
        }
    } else {
        v
    }
}

impl Float {
    /// The float `new_unchecked` builds: sign in a fresh status byte, the
    /// exponent biased, the mantissa bits taken as given.
    pub open spec fn new_unchecked_spec(negative: bool, exponent: i8, mantissa: u64) -> Float {
        Float {
            flags: Flags {
                undefined: false,
                complex_lo: false,
                complex_hi: false,
                idk: false,
                negative,
            },
            exponent: (exponent + 128) as u8,
            mantissa: Mantissa::spec_from_bits(mantissa),
        }
    }

    /// Builds a float from a sign, an unbiased exponent and valid mantissa
    /// bits, without the exponent range check.
    pub fn new_unchecked(negative: bool, exponent: i8, mantissa: u64) -> (r: Float)
        requires
            bcd_ok(mantissa as nat),
            mantissa < pow16(14),
        ensures
            r == Float::new_unchecked_spec(negative, exponent, mantissa),
            r.mantissa.spec_bits() == mantissa,
            r.mantissa.is14(),
    {
        let m = Mantissa::from(mantissa).unwrap();
        let biased = ((exponent as i16) + 128) as u8;
        Float {
            flags: Flags {
                undefined: false,
                complex_lo: false,
                complex_hi: false,
                idk: false,
                negative,
            },
            exponent: biased,
            mantissa: m,
        }
    }

    /// Checks that the biased exponent is within the allowed range.
    pub fn check(self) -> (r: Result<Float, FloatError>)
        ensures
            r is Ok <==> EXPONENT_MIN <= self.exponent <= EXPONENT_MAX,
            r matches Ok(f) ==> f == self,
            r is Err ==> r == Err::<Float, FloatError>(FloatError::Overflow),
    {
        if EXPONENT_MIN <= self.exponent && self.exponent <= EXPONENT_MAX {
            Ok(self)
        } else {
            Err(FloatError::Overflow)
        }
    }

    /// Builds a float from a sign, an unbiased exponent and valid mantissa
    /// bits; an exponent outside [−99, 99] is an overflow.
    pub fn new(negative: bool, exponent: i8, mantissa: u64) -> (r: Result<Float, FloatError>)
        requires
            bcd_ok(mantissa as nat),
            mantissa < pow16(14),
        ensures
            r is Ok <==> -99 <= exponent <= 99,
            r matches Ok(f) ==> f == Float::new_unchecked_spec(negative, exponent, mantissa)
                && f.mantissa.spec_bits() == mantissa && f.wf(),
            r is Err ==> r == Err::<Float, FloatError>(FloatError::Overflow),
    {
        Float::new_unchecked(negative, exponent, mantissa).check()
    }

    /// Packs a sequence of decimal digits (most significant first) into a
    /// 14-digit mantissa word, rounding half-up on the 15th digit.
    pub fn mantissa_from(digits: &[u8]) -> (r: u64)
        requires
            forall|i: int| 0 <= i < digits@.len() ==> digits@[i] <= 9,
        ensures
            r as nat == crate::bcd::bcd_enc(rounded_seq_value(digits@) as nat),
            bcd_ok(r as nat),
            r < pow16(14),
    {
        let n: usize = if digits.len() < 14 {
            digits.len()
        } else {
            14
        };
        let mut acc: u64 = 0;
        let mut p: u64 = 10000000000000;
        let mut i: usize = 0;
        proof {
            crate::bcd::lemma_pow_constants();
        }
        while i < n
            invariant
                i <= n <= 14,
                n <= digits@.len(),
                forall|j: int| 0 <= j < digits@.len() ==> digits@[j] <= 9,
                acc == packed_prefix(digits@, i as nat),
                acc <= pow10(14) - pow10((14 - i) as nat),
                i < 14 ==> p == pow10((13 - i) as nat),
                pow10(14) == 100000000000000,
            decreases n - i,
        {
            let d = digits[i];
            proof {
                assert(pow10((14 - i) as nat) == 10 * pow10((13 - i) as nat));
                assert(d * pow10((13 - i) as nat) <= 9 * pow10((13 - i) as nat))
                    by (nonlinear_arith)
                    requires
                        d <= 9,
                        pow10((13 - i) as nat) >= 0,
                ;
                crate::bcd::lemma_pow_positive((13 - i) as nat);
                if i + 1 < 14 {
                    assert(pow10((13 - i) as nat) == 10 * pow10((12 - i) as nat));
                    assert(p / 10 == pow10((12 - i) as nat)) by (nonlinear_arith)
                        requires
                            p == 10 * pow10((12 - i) as nat),
                            pow10((12 - i) as nat) >= 0,
                    ;
                }
            }
            acc = acc + (d as u64) * p;
            p = p / 10;
            i = i + 1;
        }
        proof {
            assert(digit_seq_value(digits@) == acc);
            crate::bcd::lemma_pow_positive((14 - n) as nat);
        }
        if digits.len() >= 15 {
            if digits[14] >= 5 {
                let rounded = acc + 1;
                if rounded == 100000000000000 {
                    return Mantissa::from_dec(0).bits();
                }
                return Mantissa::from_dec(rounded).bits();
            }
        }
        Mantissa::from_dec(acc).bits()
    }
}

/// The 7-byte big-endian word the significand bytes of the wire form
/// reassemble to.
pub open spec fn word7(b2: u8, b3: u8, b4: u8, b5: u8, b6: u8, b7: u8, b8: u8) -> int {
    b2 * 0x1000000000000 + b3 * 0x10000000000 + b4 * 0x100000000 + b5 * 0x1000000 + b6 * 0x10000
        + b7 * 0x100 + b8
}

/// The 9-byte wire form of a float: the status byte, the biased exponent,
/// then the 14 packed digits as seven big-endian bytes.
pub open spec fn encode_spec(f: Float) -> Seq<u8> {
    let w = f.mantissa.spec_bits() as int;
    seq![
        f.flags.byte_spec() as u8,
        f.exponent,
        ((w / 0x1000000000000) % 256) as u8,
        ((w / 0x10000000000) % 256) as u8,
        ((w / 0x100000000) % 256) as u8,
        ((w / 0x1000000) % 256) as u8,
        ((w / 0x10000) % 256) as u8,
        ((w / 0x100) % 256) as u8,
        (w % 256) as u8,
    ]
}

/// What decoding nine wire bytes yields: each malformed field is reported
/// as its own failure, in the order flags, exponent, mantissa.
pub open spec fn decode_spec(s: Seq<u8>) -> Result<Float, ParseFloatError> {
    if !Flags::byte_valid(s[0] as int) {
        Err(ParseFloatError::InvalidFlags)
    } else if !(EXPONENT_MIN <= s[1] <= EXPONENT_MAX) {
        Err(ParseFloatError::InvalidExponent)
    } else {
        let w = word7(s[2], s[3], s[4], s[5], s[6], s[7], s[8]);
        if !bcd_ok(w as nat) {
            Err(ParseFloatError::InvalidMantissa)
        } else {
            Ok(
                Float {
                    flags: Flags::of_byte(s[0] as int),
                    exponent: s[1],
                    mantissa: Mantissa::spec_from_bits(w as u64),
                },
            )
        }
    }
}

impl Float {
    /// Serializes to the 9-byte wire form.
    pub fn to_raw_bytes(&self) -> (r: [u8; 9])
        ensures
            r@ == encode_spec(*self),
    {
        let w = self.mantissa.bits();
        let r: [u8; 9] = [
            self.flags.bits(),
            self.exponent,
            ((w / 0x1000000000000) % 256) as u8,
            ((w / 0x10000000000) % 256) as u8,
            ((w / 0x100000000) % 256) as u8,
            ((w / 0x1000000) % 256) as u8,
            ((w / 0x10000) % 256) as u8,
            ((w / 0x100) % 256) as u8,
            (w % 256) as u8,
        ];
        proof {
            assert(r@ =~= encode_spec(*self));
        }
        r
    }

    /// Parses the 9-byte wire form, validating the status byte, the
    /// exponent range and every digit field of the significand.
    pub fn from_raw_bytes(bytes: [u8; 9]) -> (r: Result<Float, ParseFloatError>)
        ensures
            r == decode_spec(bytes@),
    {
        let flags = match Flags::from_bits(bytes[0]) {
            Some(f) => f,
            None => {
                return Err(ParseFloatError::InvalidFlags);
            },
        };
        let exponent = bytes[1];
        if exponent < EXPONENT_MIN || exponent > EXPONENT_MAX {
            return Err(ParseFloatError::InvalidExponent);
        }
        let w = (bytes[2] as u64) * 0x1000000000000 + (bytes[3] as u64) * 0x10000000000 + (
        bytes[4] as u64) * 0x100000000 + (bytes[5] as u64) * 0x1000000 + (bytes[6] as u64) * 0x10000
            + (bytes[7] as u64) * 0x100 + (bytes[8] as u64);
        let mantissa = match Mantissa::from(w) {
            Some(m) => m,
            None => {
                proof {
                    crate::bcd::lemma_pow_constants();
                }
                return Err(ParseFloatError::InvalidMantissa);
            },
        };
        Ok(Float { flags, exponent, mantissa })
    }
}

/// The number of decimal left-shifts that bring a nonzero value below
/// 10^13 up into the normalized range [10^13, 10^14).
pub open spec fn norm_shift(v: int) -> nat
    decreases (if pow10(13) - v >= 0 {
        pow10(13) - v
    } else {
        0
    }),
{
    if v < 1 || v >= pow10(13) {
        0
    } else {
        1 + norm_shift(10 * v)
    }
}

impl Float {
    /// What addition yields.  The operand with the smaller exponent is
    /// aligned by a rounding right-shift; equal signs add the mantissas
    /// (a carry shifts right once more and raises the exponent), unequal
    /// signs subtract them (a borrow flips the sign, and the difference
    /// is renormalized leftwards, lowering the exponent).  An exponent
    /// pushed past either end of the valid range is an overflow.  An exact
    /// cancellation short-circuits to a zero mantissa with the sign
    /// cleared, so that the cancellation zero is the same whichever
    /// operand comes first.
    pub open spec fn add_spec(x: Float, y: Float) -> Result<Float, FloatError> {
        let a = if x.exponent < y.exponent {
            y
        } else {
            x
        };
        let b = if x.exponent < y.exponent {
            x
        } else {
            y
        };
        let bv = crate::mantissa::shr_value(b.mval() as int, (a.exponent - b.exponent) as nat);
        if a.flags.negative == b.flags.negative {
            let s = a.mval() + bv;
            if s >= pow10(14) {
                let m = crate::mantissa::shr_value(s - pow10(14), 1) + pow10(13);
                if a.exponent as int + 1 > EXPONENT_MAX as int {
                    Err(FloatError::Overflow)
                } else {
                    Ok(
                        Float {
                            flags: a.flags,
                            exponent: (a.exponent + 1) as u8,
                            mantissa: Mantissa::spec_from_val(m as nat),
                        },
                    )
                }
            } else {
                Ok(
                    Float {
                        flags: a.flags,
                        exponent: a.exponent,
                        mantissa: Mantissa::spec_from_val(s as nat),
                    },
                )
            }
        } else {
            let borrowed = a.mval() < bv;
            let d = if borrowed {
                bv - a.mval()
            } else {
                a.mval() - bv
            };
            let fl = if borrowed {
                Flags { negative: !a.flags.negative, ..a.flags }
            } else {
                a.flags
            };
            if d == 0 {
                Ok(
                    Float {
                        flags: Flags { negative: false, ..fl },
                        exponent: a.exponent,
                        mantissa: Mantissa::spec_from_val(0),
                    },
                )
            } else {
                let k = norm_shift(d);
                if a.exponent as int - k < EXPONENT_MIN as int {
                    Err(FloatError::Overflow)
                } else {
                    Ok(
                        Float {
                            flags: fl,
                            exponent: (a.exponent - k) as u8,
                            mantissa: Mantissa::spec_from_val((d * pow10(k)) as nat),
                        },
                    )
                }
            }
        }
    }

    /// What subtraction yields: addition of the negated subtrahend.
    pub open spec fn sub_spec(x: Float, y: Float) -> Result<Float, FloatError> {
        Float::add_spec(x, y.negated_spec())
    }

    /// What multiplication yields: exponents add (the bias subtracted
    /// once), mantissas multiply to their top 14 digits — one more
    /// rounding right-shift and exponent bump if a 15th digit remains —
    /// and the sign is the exclusive-or of the operand signs.
    pub open spec fn mul_spec(x: Float, y: Float) -> Result<Float, FloatError> {
        let p = (x.mval() * y.mval()) as int / pow10(13);
        let e = x.exponent as int + y.exponent as int - 128;
        let e2 = if p >= pow10(14) {
            e + 1
        } else {
            e
        };
        let m = if p >= pow10(14) {
            crate::mantissa::shr_value(p, 1)
        } else {
            p
        };
        if !(EXPONENT_MIN as int <= e2 <= EXPONENT_MAX as int) {
            Err(FloatError::Overflow)
        } else {
            Ok(
                Float {
                    flags: Flags { negative: x.flags.negative != y.flags.negative, ..x.flags },
                    exponent: e2 as u8,
                    mantissa: Mantissa::spec_from_val(m as nat),
                },
            )
        }
    }

    /// What division yields: a zero divisor is its own error; otherwise
    /// exponents subtract (the bias restored), the quotient is scaled to
    /// 14 digits with round-half-up — shifted right once if a 15th digit
    /// remains, without a further exponent bump — and the sign is the
    /// dividend's alone.
    pub open spec fn div_spec(x: Float, y: Float) -> Result<Float, FloatError> {
        if y.mval() == 0 {
            Err(FloatError::DivideByZero)
        } else {
            let q = ((x.mval() * pow10(14)) as int + y.mval() as int / 2) / (y.mval() as int);
            let m = if q >= pow10(14) {
                crate::mantissa::shr_value(q, 1)
            } else {
                q
            };
            let e = x.exponent as int - y.exponent as int + 128;
            if !(EXPONENT_MIN as int <= e <= EXPONENT_MAX as int) {
                Err(FloatError::Overflow)
            } else {
                Ok(
                    Float {
                        flags: x.flags,
                        exponent: e as u8,
                        mantissa: Mantissa::spec_from_val(m as nat),
                    },
                )
            }
        }
    }

    /// Adds two values, rounding once at operand alignment.
    pub fn try_add(&self, other: &Self) -> (res: Result<Float, FloatError>)
        requires
            self.wf(),
            other.wf(),
        ensures
            res == Float::add_spec(*self, *other),
            res matches Ok(f) ==> f.wf(),
    {
        proof {
            crate::bcd::lemma_pow_constants();
        }
        let (a, b) = if self.exponent < other.exponent {
            (*other, *self)
        } else {
            (*self, *other)
        };
        let b_mantissa = b.mantissa.shr(a.exponent - b.exponent);
        let ghost bv = crate::mantissa::shr_value(
            b.mval() as int,
            (a.exponent - b.exponent) as nat,
        );
        proof {
            crate::bcd::lemma_val_bound(a.mantissa.spec_bits() as nat, 14);
            crate::bcd::lemma_val_bound(b_mantissa.spec_bits() as nat, 14);
        }
        if a.is_negative() == b.is_negative() {
            let (sum, overflow) = a.mantissa.overflowing_add(b_mantissa);
            let ghost s = a.mval() + bv;
            if overflow {
                proof {
                    lemma_mod_multiples_vanish(1, s - pow10(14), pow10(14));
                    lemma_small_mod((s - pow10(14)) as nat, pow10(14) as nat);
                    assert(sum.val() == s - pow10(14));
                }
                let shifted = sum.shr(1);
                let one = Mantissa::from_dec(10000000000000);
                let (m2, _) = shifted.overflowing_add(one);
                proof {
                    assert(shifted.val() == crate::mantissa::shr_value(s - pow10(14), 1));
                    assert(shifted.val() <= pow10(13));
                    lemma_small_mod((shifted.val() + one.val()) as nat, pow10(14) as nat);
                    crate::mantissa::lemma_canonical(m2);
                }
                if a.exponent == EXPONENT_MAX {
                    Err(FloatError::Overflow)
                } else {
                    Ok(Float { flags: a.flags, exponent: a.exponent + 1, mantissa: m2 })
                }
            } else {
                proof {
                    lemma_small_mod(s as nat, pow10(14) as nat);
                    crate::mantissa::lemma_canonical(sum);
                }
                Ok(Float { flags: a.flags, exponent: a.exponent, mantissa: sum })
            }
        } else {
            let (diff, borrowed) = a.mantissa.overflowing_sub(b_mantissa);
            let mut flags = a.flags;
            if borrowed {
                flags.negative = !flags.negative;
            }
            if diff.is_zero() {
                flags.negative = false;
                proof {
                    crate::mantissa::lemma_canonical(diff);
                }
                Ok(Float { flags, exponent: a.exponent, mantissa: diff })
            } else {
                let ghost d0 = diff.val() as int;
                let mut m = diff;
                let mut exponent: u16 = a.exponent as u16;
                let ghost mut j: nat = 0;
                while m.msd() == 0
                    invariant
                        m.is14(),
                        1 <= d0,
                        m.val() as int == d0 * pow10(j),
                        exponent as int == a.exponent - j,
                        j <= 13,
                        EXPONENT_MIN <= a.exponent <= EXPONENT_MAX,
                        norm_shift(d0) == j + norm_shift(m.val() as int),
                        pow10(13) == 10000000000000,
                        pow10(14) == 100000000000000,
                    decreases 14 - j,
                {
                    proof {
                        crate::bcd::lemma_pow_constants();
                        crate::bcd::lemma_pow_positive(j);
                        assert(m.val() >= pow10(j)) by (nonlinear_arith)
                            requires
                                m.val() as int == d0 * pow10(j),
                                d0 >= 1,
                                pow10(j) >= 1,
                        ;
                        if j >= 13 {
                            assert(pow10(j) >= pow10(13)) by {
                                crate::bcd::lemma_pow10_monotone(13, j);
                            }
                            assert(false);
                        }
                        assert(norm_shift(m.val() as int) == 1 + norm_shift(10 * m.val() as int));
                        assert(d0 * pow10(j + 1) == (d0 * pow10(j)) * 10) by (nonlinear_arith)
                            requires
                                pow10(j + 1) == 10 * pow10(j),
                        ;
                        lemma_small_mod((m.val() * 10) as nat, pow10(14) as nat);
                    }
                    m = m.shl(1);
                    exponent = exponent - 1;
                    proof {
                        j = j + 1;
                    }
                }
                proof {
                    assert(norm_shift(d0) == j);
                    crate::mantissa::lemma_canonical(m);
                }
                if exponent < EXPONENT_MIN as u16 {
                    Err(FloatError::Overflow)
                } else {
                    Ok(Float { flags, exponent: exponent as u8, mantissa: m })
                }
            }
        }
    }

    /// Subtracts by adding the negated subtrahend.
    pub fn try_sub(&self, other: &Self) -> (res: Result<Float, FloatError>)
        requires
            self.wf(),
            other.wf(),
        ensures
            res == Float::sub_spec(*self, *other),
            res matches Ok(f) ==> f.wf(),
    {
        self.try_add(&other.negated())
    }

    /// Multiplies two values; the sign is the exclusive-or of the signs.
    pub fn try_mul(&self, other: &Self) -> (res: Result<Float, FloatError>)
        requires
            self.wf(),
            other.wf(),
        ensures
            res == Float::mul_spec(*self, *other),
            res matches Ok(f) ==> f.wf(),
    {
        proof {
            crate::bcd::lemma_pow_constants();
        }
        let (m0, shift) = self.mantissa.overflowing_mul(other.mantissa);
        let mut exponent: i32 = self.exponent as i32 + other.exponent as i32 - 0x80;
        let mut m = m0;
        if shift {
            exponent = exponent + 1;
            m = m.shr(1);
        }
        proof {
            if !shift {
                crate::bcd::lemma_val_bound(m.spec_bits() as nat, 14);
            }
            crate::mantissa::lemma_canonical(m);
        }
        if exponent < EXPONENT_MIN as i32 || exponent > EXPONENT_MAX as i32 {
            Err(FloatError::Overflow)
        } else {
            Ok(
                Float {
                    flags: Flags {
                        negative: self.flags.negative != other.flags.negative,
                        ..self.flags
                    },
                    exponent: exponent as u8,
                    mantissa: m,
                },
            )
        }
    }

    /// Divides two values; the divisor must be zero (reported as its own
    /// error) or normalized.  The sign is the dividend's alone.
    pub fn try_div(&self, other: &Self) -> (res: Result<Float, FloatError>)
        requires
            self.wf(),
            other.wf(),
            other.mval() == 0 || other.mval() >= pow10(13),
        ensures
            res == Float::div_spec(*self, *other),
            res matches Ok(f) ==> f.wf(),
    {
        proof {
            crate::bcd::lemma_pow_constants();
        }
        if other.mantissa.is_zero() {
            return Err(FloatError::DivideByZero);
        }
        let (m0, needs_norm) = self.mantissa.overflowing_div(other.mantissa);
        let mut m = m0;
        if needs_norm {
            m = m.shr(1);
        }
        proof {
            if !needs_norm {
                crate::bcd::lemma_val_bound(m.spec_bits() as nat, 14);
            }
            crate::mantissa::lemma_canonical(m);
        }
        let exponent: i32 = self.exponent as i32 - other.exponent as i32 + 0x80;
        if exponent < EXPONENT_MIN as i32 || exponent > EXPONENT_MAX as i32 {
            Err(FloatError::Overflow)
        } else {
            Ok(Float { flags: self.flags, exponent: exponent as u8, mantissa: m })
        }
    }
}

/// Rebuilding a 7-byte word from its big-endian bytes gives it back.
proof fn lemma_word7_decomp(w: int)
    requires
        0 <= w < 0x100000000000000,
    ensures
        word7(
            ((w / 0x1000000000000) % 256) as u8,
            ((w / 0x10000000000) % 256) as u8,
            ((w / 0x100000000) % 256) as u8,
            ((w / 0x1000000) % 256) as u8,
            ((w / 0x10000) % 256) as u8,
            ((w / 0x100) % 256) as u8,
            (w % 256) as u8,
        ) == w,
{
    let q1 = w / 0x100;
    let q2 = w / 0x10000;
    let q3 = w / 0x1000000;
    let q4 = w / 0x100000000;
    let q5 = w / 0x10000000000;
    let q6 = w / 0x1000000000000;
    vstd::arithmetic::div_mod::lemma_fundamental_div_mod(w, 0x100);
    vstd::arithmetic::div_mod::lemma_div_denominator(w, 0x100, 0x100);
    vstd::arithmetic::div_mod::lemma_fundamental_div_mod(q1, 0x100);
    vstd::arithmetic::div_mod::lemma_div_denominator(w, 0x10000, 0x100);
    vstd::arithmetic::div_mod::lemma_fundamental_div_mod(q2, 0x100);
    vstd::arithmetic::div_mod::lemma_div_denominator(w, 0x1000000, 0x100);
    vstd::arithmetic::div_mod::lemma_fundamental_div_mod(q3, 0x100);
    vstd::arithmetic::div_mod::lemma_div_denominator(w, 0x100000000, 0x100);
    vstd::arithmetic::div_mod::lemma_fundamental_div_mod(q4, 0x100);
    vstd::arithmetic::div_mod::lemma_div_denominator(w, 0x10000000000, 0x100);
    vstd::arithmetic::div_mod::lemma_fundamental_div_mod(q5, 0x100);
    vstd::arithmetic::div_mod::lemma_div_denominator(w, 0x1000000000000, 0x100);
    vstd::arithmetic::div_mod::lemma_fundamental_div_mod(q6, 0x100);
    assert(q6 / 0x100 == w / 0x100000000000000);
    assert(w / 0x100000000000000 == 0) by {
        vstd::arithmetic::div_mod::lemma_basic_div(w, 0x100000000000000);
    }
}

/// Encoding then decoding a well-formed float gives it back, exactly.
pub proof fn lemma_round_trip(f: Float)
    requires
        f.wf(),
    ensures
        decode_spec(encode_spec(f)) == Ok::<Float, ParseFloatError>(f),
{
    let s = encode_spec(f);
    let fl = f.flags;
    lemma_flags_byte_bits(
        fl.byte_spec(),
        if fl.negative {
            1
        } else {
            0
        },
        if fl.idk {
            1
        } else {
            0
        },
        0,
        0,
        if fl.complex_hi {
            1
        } else {
            0
        },
        if fl.complex_lo {
            1
        } else {
            0
        },
        if fl.undefined {
            1
        } else {
            0
        },
        0,
    );
    crate::bcd::lemma_pow_constants();
    let w = f.mantissa.spec_bits() as int;
    lemma_word7_decomp(w);
    crate::mantissa::lemma_spec_from_bits_self(f.mantissa);
}

/// Whether a float carries no pass-through status markers (only the sign
/// bit of its status byte may be set).
pub open spec fn plain_flags(f: Float) -> bool {
    !f.flags.undefined && !f.flags.complex_lo && !f.flags.complex_hi && !f.flags.idk
}

/// Addition is commutative, in values, exponents, signs and errors alike,
/// for operands that carry no pass-through status markers (those of the
/// first operand are copied into the result).
pub proof fn lemma_add_commutes(x: Float, y: Float)
    requires
        plain_flags(x),
        plain_flags(y),
    ensures
        Float::add_spec(x, y) == Float::add_spec(y, x),
{
    if x.exponent == y.exponent {
        if x.flags.negative == y.flags.negative {
            assert(x.flags == y.flags);
        } else {
            if x.mval() == y.mval() {
                assert((Flags {
                    negative: false,
                    ..(if x.mval() < y.mval() {
                        Flags { negative: !x.flags.negative, ..x.flags }
                    } else {
                        x.flags
                    })
                }) == (Flags {
                    negative: false,
                    ..(if y.mval() < x.mval() {
                        Flags { negative: !y.flags.negative, ..y.flags }
                    } else {
                        y.flags
                    })
                }));
            } else if x.mval() > y.mval() {
                assert((if x.mval() < y.mval() {
                    Flags { negative: !x.flags.negative, ..x.flags }
                } else {
                    x.flags
                }) == (if y.mval() < x.mval() {
                    Flags { negative: !y.flags.negative, ..y.flags }
                } else {
                    y.flags
                }));
            } else {
                assert((if x.mval() < y.mval() {
                    Flags { negative: !x.flags.negative, ..x.flags }
                } else {
                    x.flags
                }) == (if y.mval() < x.mval() {
                    Flags { negative: !y.flags.negative, ..y.flags }
                } else {
                    y.flags
                }));
            }
        }
    }
}

/// Multiplication is commutative, in values, exponents, signs and errors
/// alike, for operands that carry no pass-through status markers.
pub proof fn lemma_mul_commutes(x: Float, y: Float)
    requires
        plain_flags(x),
        plain_flags(y),
    ensures
        Float::mul_spec(x, y) == Float::mul_spec(y, x),
{
    assert(x.mval() * y.mval() == y.mval() * x.mval()) by (nonlinear_arith);
    assert((Flags { negative: x.flags.negative != y.flags.negative, ..x.flags }) == (Flags {
        negative: y.flags.negative != x.flags.negative,
        ..y.flags
    }));
}

/// Adding a value to its own negation yields a zero mantissa — with the
/// sign cleared, the first operand's markers and exponent kept — and
/// never an error.
pub proof fn lemma_additive_inverse(a: Float)
    requires
        a.wf(),
    ensures
        Float::add_spec(a, a.negated_spec()) == Ok::<Float, FloatError>(
            Float {
                flags: Flags { negative: false, ..a.flags },
                exponent: a.exponent,
                mantissa: Mantissa::spec_from_val(0),
            },
        ),
        Mantissa::spec_from_val(0).val() == 0,
    {
    crate::bcd::lemma_pow_constants();
    crate::mantissa::lemma_spec_from_val(0);
}

impl PartialOrd for Float {
    fn partial_cmp(&self, other: &Self) -> (r: Option<Ordering>) {
        let a = self.measure();
        let b = other.measure();
        if a < b {
            Some(Ordering::Less)
        } else if a == b {
            Some(Ordering::Equal)
        } else {
            Some(Ordering::Greater)
        }
    }
}

impl vstd::std_specs::cmp::PartialOrdSpecImpl for Float {
    open spec fn obeys_partial_cmp_spec() -> bool {
        true
    }

    open spec fn partial_cmp_spec(&self, other: &Self) -> Option<Ordering> {
        if self.measure_spec() < other.measure_spec() {
            Some(Ordering::Less)
        } else if self.measure_spec() == other.measure_spec() {
            Some(Ordering::Equal)
        } else {
            Some(Ordering::Greater)
        }
    }
}

} // verus!
