//! The packed-decimal significand: 14 decimal digits in the low 14 nibbles
//! of a `u64`.

use vstd::prelude::*;
use vstd::arithmetic::div_mod::{lemma_mod_multiples_vanish, lemma_small_mod};
use vstd::string::StringExecFns;

use crate::bcd::{bcd_enc, bcd_ok, bcd_val, pow10, pow16};
use crate::bcd::{
    lemma_enc_of_val, lemma_enc_unfold, lemma_pow10_adds, lemma_pow_constants,
    lemma_pow_positive, lemma_val_bound, lemma_val_face_bound, lemma_val_of_enc,
    lemma_val_unfold, lemma_val_zero_only_zero,
};

verus! {

/// A packed-decimal significand.  A freshly constructed value holds exactly
/// 14 digits; intermediate results of multiplication and division may carry
/// a transient 15th digit until the caller shifts it out.
#[derive(Copy, Clone, Debug, PartialEq, Eq, Structural)]
pub struct Mantissa {
    data: u64,
}

impl Mantissa {
    /// The raw packed word.
    pub closed spec fn spec_bits(self) -> u64 {
        self.data
    }

    /// The decimal value this mantissa denotes.
    pub open spec fn val(self) -> nat {
        bcd_val(self.spec_bits() as nat)
    }

    /// Well-formed: every nibble is a decimal digit and at most 15 digits
    /// are in use.
    pub open spec fn wf(self) -> bool {
        bcd_ok(self.spec_bits() as nat) && self.spec_bits() < pow16(15)
    }

    /// Canonical 14-digit form: well-formed with the 15th digit clear.
    pub open spec fn is14(self) -> bool {
        self.wf() && self.spec_bits() < pow16(14)
    }

    /// The mantissa holding exactly these bits.
    pub closed spec fn spec_from_bits(bits: u64) -> Mantissa {
        Mantissa { data: bits }
    }

    /// The canonical mantissa denoting the value `v`.
    pub open spec fn spec_from_val(v: nat) -> Mantissa {
        Mantissa::spec_from_bits(bcd_enc(v) as u64)
    }

    /// The raw packed word.
    pub fn bits(&self) -> (r: u64)
        ensures
            r == self.spec_bits(),
    {
        self.data
    }

    /// Whether the mantissa denotes zero.
    pub fn is_zero(&self) -> (r: bool)
        ensures
            r == (self.spec_bits() == 0),
            self.wf() ==> r == (self.val() == 0),
    {
        proof {
            if self.wf() && self.data != 0 {
                lemma_val_zero_only_zero(self.data as nat);
            }
        }
        self.data == 0
    }
}

/// # Validation and construction
impl Mantissa {
    /// Whether `bits` is a valid canonical encoding: 14 decimal digit
    /// fields with the top two nibbles clear.
    fn bits_valid(bits: u64) -> (r: bool)
        ensures
            r == (bcd_ok(bits as nat) && bits < pow16(14)),
    {
        let mut d: u64 = bits;
        let mut i: usize = 0;
        proof {
            lemma_pow_constants();
        }
        while i < 14
            invariant
                i <= 14,
                bcd_ok(bits as nat) <==> bcd_ok(d as nat),
                (d as nat) * pow16(i as nat) <= bits,
                bits < (d as nat + 1) * pow16(i as nat),
            decreases 14 - i,
        {
            if d % 16 > 9 {
                return false;
            }
            proof {
                lemma_pow_positive(i as nat);
                assert((d / 16) as nat * pow16((i + 1) as nat) <= (d as nat) * pow16(i as nat)
                    && (d as nat + 1) * pow16(i as nat) <= ((d / 16) as nat + 1) * pow16(
                    (i + 1) as nat,
                )) by (nonlinear_arith)
                    requires
                        pow16((i + 1) as nat) == 16 * pow16(i as nat),
                        pow16(i as nat) >= 0,
                ;
            }
            d = d / 16;
            i = i + 1;
        }
        proof {
            lemma_pow_constants();
            if d == 0 {
                assert(bits < pow16(14)) by (nonlinear_arith)
                    requires
                        bits < (d as nat + 1) * pow16(14),
                        d == 0,
                ;
            } else {
                assert(bits >= pow16(14)) by (nonlinear_arith)
                    requires
                        (d as nat) * pow16(14) <= bits,
                        d >= 1,
                        pow16(14) >= 0,
                ;
            }
        }
        d == 0
    }

    /// Builds a mantissa from raw bits, rejecting any encoding in which a
    /// 4-bit field exceeds 9 or the top nibbles are in use.
    pub fn from(bits: u64) -> (r: Option<Self>)
        ensures
            r is Some <==> (bcd_ok(bits as nat) && bits < pow16(14)),
            r matches Some(m) ==> m == Mantissa::spec_from_bits(bits) && m.spec_bits() == bits
                && m.is14(),
    {
        if Mantissa::bits_valid(bits) {
            proof {
                lemma_pow_constants();
            }
            Some(Mantissa { data: bits })
        } else {
            None
        }
    }

    /// Builds a mantissa from bits whose validity the caller has already
    /// established.
    pub fn from_unchecked(bits: u64) -> (r: Self)
        requires
            bcd_ok(bits as nat),
            bits < pow16(14),
        ensures
            r == Mantissa::spec_from_bits(bits),
            r.spec_bits() == bits,
            r.is14(),
    {
        proof {
            lemma_pow_constants();
        }
        Mantissa { data: bits }
    }

    /// Whether this mantissa's bits form a valid canonical encoding.
    pub fn check(&self) -> (r: bool)
        ensures
            r == self.is14(),
    {
        proof {
            lemma_pow_constants();
        }
        Mantissa::bits_valid(self.data)
    }

    /// The most significant digit pair: zero exactly when the top decimal
    /// digit (and any transient 15th digit) is zero.
    pub fn msd(&self) -> (r: u8)
        ensures
            r as int == ((self.spec_bits() as int) / pow16(13)) % 256,
            self.wf() ==> ((r == 0) <==> self.val() < pow10(13)),
    {
        proof {
            lemma_pow_constants();
            if self.wf() {
                lemma_val_bound(self.spec_bits() as nat, 13);
                assert((self.spec_bits() as int) / pow16(13) < 256) by (nonlinear_arith)
                    requires
                        (self.spec_bits() as int) < 256 * pow16(13),
                        pow16(13) > 0,
                ;
                lemma_small_mod(((self.spec_bits() as int) / pow16(13)) as nat, 256);
                assert((self.spec_bits() as int) / pow16(13) == 0 <==> (self.spec_bits() as int)
                    < pow16(13)) by (nonlinear_arith)
                    requires
                        pow16(13) > 0,
                ;
            }
        }
        ((self.data / 0x0010000000000000) % 256) as u8
    }
}

/// # Digit conversions
impl Mantissa {
    /// Reads the packed digits off as an ordinary base-10 integer.
    pub fn to_dec(self) -> (r: u64)
        ensures
            r == bcd_val(self.spec_bits() as nat),
    {
        let ghost data: nat = self.data as nat;
        let mut d: u64 = self.data;
        let mut out: u64 = 0;
        let mut p: u64 = 1;
        let mut i: usize = 0;
        proof {
            assert(pow16(16) == 0x10000000000000000 && pow10(16) == 10000000000000000
                && pow10(15) == 1000000000000000) by {
                reveal_with_fuel(pow16, 17);
                reveal_with_fuel(pow10, 17);
            }
            lemma_val_face_bound(data, 16);
        }
        while i < 16
            invariant
                i <= 16,
                p == pow10(i as nat),
                out + p * bcd_val(d as nat) == bcd_val(data),
                (d as nat) * pow16(i as nat) <= data,
                data < pow16(16),
                3 * bcd_val(data) <= 5 * (pow10(16) - 1),
                pow10(16) == 10000000000000000,
                pow10(15) == 1000000000000000,
            decreases 16 - i,
        {
            let nib = d % 16;
            proof {
                lemma_val_unfold(d as nat);
                lemma_pow_positive(i as nat);
                lemma_pow10_increases(i as nat, 15);
                assert(p * (nib + 10 * bcd_val((d / 16) as nat)) == p * nib + (10 * p) * bcd_val(
                    (d / 16) as nat,
                )) by (nonlinear_arith);
                assert(p * nib <= p * bcd_val(d as nat)) by (nonlinear_arith)
                    requires
                        nib <= bcd_val(d as nat),
                        p >= 0,
                ;
                assert((d / 16) as nat * pow16((i + 1) as nat) <= (d as nat) * pow16(i as nat))
                    by (nonlinear_arith)
                    requires
                        pow16((i + 1) as nat) == 16 * pow16(i as nat),
                        pow16(i as nat) >= 0,
                ;
            }
            out = out + nib * p;
            d = d / 16;
            p = p * 10;
            i = i + 1;
        }
        proof {
            assert(d == 0) by (nonlinear_arith)
                requires
                    (d as nat) * pow16(16) <= data,
                    data < pow16(16),
                    pow16(16) > 0,
            ;
            assert(out + p * 0 == out);
        }
        out
    }

    /// The inverse of `to_dec`: packs an ordinary integer of at most 15
    /// digits into packed-decimal form, digit by digit.
    pub fn from_dec(data: u64) -> (r: Self)
        requires
            data < pow10(15),
        ensures
            r.spec_bits() == bcd_enc(data as nat),
            r.wf(),
            r.val() == data,
            data < pow10(14) ==> r.is14(),
    {
        let ghost orig: nat = data as nat;
        let mut d: u64 = data;
        let mut res: u64 = 0;
        let mut q: u64 = 1;
        let mut i: usize = 0;
        proof {
            lemma_pow_constants();
        }
        while i < 15
            invariant
                i <= 15,
                q == pow16(i as nat),
                res + q * bcd_enc(d as nat) == bcd_enc(orig),
                res < q,
                (d as nat) * pow10(i as nat) <= orig,
                orig < pow10(15),
                pow10(15) == 1000000000000000,
                pow16(14) == 0x0100000000000000,
                pow16(15) == 0x1000000000000000,
            decreases 15 - i,
        {
            let dig = d % 10;
            proof {
                lemma_enc_unfold(d as nat);
                lemma_pow_positive(i as nat);
                lemma_pow16_increases(i as nat, 14);
                assert(q * (dig + 16 * bcd_enc((d / 10) as nat)) == q * dig + (16 * q) * bcd_enc(
                    (d / 10) as nat,
                )) by (nonlinear_arith);
                assert(q * dig <= q * 9) by (nonlinear_arith)
                    requires
                        dig <= 9,
                        q >= 0,
                ;
                assert((d / 10) as nat * pow10((i + 1) as nat) <= (d as nat) * pow10(i as nat))
                    by (nonlinear_arith)
                    requires
                        pow10((i + 1) as nat) == 10 * pow10(i as nat),
                        pow10(i as nat) >= 0,
                ;
            }
            res = res + dig * q;
            d = d / 10;
            q = q * 16;
            i = i + 1;
        }
        proof {
            assert(d == 0) by (nonlinear_arith)
                requires
                    (d as nat) * pow10(15) <= orig,
                    orig < pow10(15),
                    pow10(15) > 0,
            ;
            assert(res + q * 0 == res);
            lemma_val_of_enc(orig);
            lemma_val_bound(bcd_enc(orig), 15);
            lemma_val_bound(bcd_enc(orig), 14);
            lemma_pow_constants();
        }
        Mantissa { data: res }
    }
}

/// The value a digit shift to the right produces: drop the low `n` digits,
/// round half-up on the first dropped digit, and wrap the one value that
/// rounds all the way up to 10^14.
pub open spec fn shr_value(v: int, n: nat) -> int {
    if n == 0 {
        v
    } else if n >= 15 {
        0
    } else {
        let q = v / pow10(n);
        let rounded = if (v / pow10((n - 1) as nat)) % 10 >= 5 {
            q + 1
        } else {
            q
        };
        if rounded == pow10(14) {
            0
        } else {
            rounded
        }
    }
}

/// # Core operations
impl Mantissa {
    /// 10^14 − value, the ten's complement of a nonzero mantissa; used to
    /// turn subtraction into addition.
    pub fn tens_complement(&self) -> (r: Self)
        requires
            self.is14(),
            self.val() >= 1,
        ensures
            r.is14(),
            r.val() == pow10(14) - self.val(),
    {
        proof {
            lemma_pow_constants();
            lemma_val_bound(self.spec_bits() as nat, 14);
        }
        let v = self.to_dec();
        Mantissa::from_dec(100000000000000 - v)
    }

    /// Returns the 14-digit decimal sum (mod 10^14) and the carry out of
    /// the 14th digit.
    pub fn overflowing_add(self, rhs: Self) -> (r: (Self, bool))
        requires
            self.is14(),
            rhs.is14(),
        ensures
            r.0.is14(),
            r.0.val() as int == (self.val() + rhs.val()) as int % pow10(14),
            r.1 == (self.val() + rhs.val() >= pow10(14)),
    {
        proof {
            lemma_pow_constants();
            lemma_val_bound(self.spec_bits() as nat, 14);
            lemma_val_bound(rhs.spec_bits() as nat, 14);
        }
        if rhs.is_zero() {
            proof {
                lemma_small_mod(self.val(), pow10(14) as nat);
            }
            return (self, false);
        }
        let s = self.to_dec() + rhs.to_dec();
        if s >= 100000000000000 {
            proof {
                lemma_mod_multiples_vanish(1, s - pow10(14), pow10(14));
                lemma_small_mod((s - pow10(14)) as nat, pow10(14) as nat);
            }
            (Mantissa::from_dec(s - 100000000000000), true)
        } else {
            proof {
                lemma_small_mod(s as nat, pow10(14) as nat);
            }
            (Mantissa::from_dec(s), false)
        }
    }

    /// Returns the absolute decimal difference and whether the subtraction
    /// borrowed (the subtrahend was the larger operand).
    pub fn overflowing_sub(self, rhs: Self) -> (r: (Self, bool))
        requires
            self.is14(),
            rhs.is14(),
        ensures
            r.0.is14(),
            self.val() >= rhs.val() ==> r.0.val() == self.val() - rhs.val(),
            self.val() < rhs.val() ==> r.0.val() == rhs.val() - self.val(),
            r.1 == (self.val() < rhs.val()),
    {
        proof {
            lemma_pow_constants();
            lemma_val_bound(self.spec_bits() as nat, 14);
            lemma_val_bound(rhs.spec_bits() as nat, 14);
        }
        if rhs.is_zero() {
            return (self, false);
        }
        if self.is_zero() {
            return (rhs, true);
        }
        let a = self.to_dec();
        let b = rhs.to_dec();
        if a >= b {
            let (sum, _) = self.overflowing_add(rhs.tens_complement());
            proof {
                lemma_mod_multiples_vanish(1, a - b, pow10(14));
                lemma_small_mod((a - b) as nat, pow10(14) as nat);
            }
            (sum, false)
        } else {
            let (sum, _) = rhs.overflowing_add(self.tens_complement());
            proof {
                lemma_mod_multiples_vanish(1, b - a, pow10(14));
                lemma_small_mod((b - a) as nat, pow10(14) as nat);
            }
            (sum, true)
        }
    }

    /// Returns the top 14 (possibly 15) significant digits of the product,
    /// i.e. the exact product divided by 10^13, and whether the result
    /// still carries a 15th digit and must be shifted right once.
    pub fn overflowing_mul(self, rhs: Self) -> (r: (Self, bool))
        requires
            self.is14(),
            rhs.is14(),
        ensures
            r.0.wf(),
            r.0.val() as int == (self.val() * rhs.val()) as int / pow10(13),
            r.0.val() < pow10(15),
            r.1 == (r.0.val() >= pow10(14)),
    {
        proof {
            lemma_pow_constants();
            lemma_val_bound(self.spec_bits() as nat, 14);
            lemma_val_bound(rhs.spec_bits() as nat, 14);
        }
        proof {
            assert(self.val() * rhs.val() < 10000000000000000000000000000) by (nonlinear_arith)
                requires
                    self.val() < 100000000000000,
                    rhs.val() < 100000000000000,
            ;
        }
        let full = (self.to_dec() as u128) * (rhs.to_dec() as u128);
        proof {
            assert(full / 10000000000000 < 1000000000000000) by (nonlinear_arith)
                requires
                    full < 10000000000000000000000000000,
            ;
        }
        let half = (full / 10000000000000u128) as u64;
        let m = Mantissa::from_dec(half);
        (m, half > 99999999999999)
    }

    /// Returns `(dividend * 10^14 + divisor/2) / divisor` — the quotient
    /// scaled to 14 digits with round-half-up — and whether it carries a
    /// 15th digit and must be shifted right once.  The divisor must be
    /// normalized (leading digit nonzero); a zero divisor is the caller's
    /// error to detect.
    pub fn overflowing_div(self, rhs: Self) -> (r: (Self, bool))
        requires
            self.is14(),
            rhs.is14(),
            rhs.val() >= pow10(13),
        ensures
            r.0.wf(),
            r.0.val() as int == (self.val() as int * pow10(14) + rhs.val() as int / 2) / (
            rhs.val() as int),
            r.0.val() < pow10(15),
            r.1 == (r.0.val() >= pow10(14)),
    {
        proof {
            lemma_pow_constants();
            lemma_val_bound(self.spec_bits() as nat, 14);
            lemma_val_bound(rhs.spec_bits() as nat, 14);
        }
        proof {
            assert(self.val() * 100000000000000 < 10000000000000000000000000000)
                by (nonlinear_arith)
                requires
                    self.val() < 100000000000000,
            ;
        }
        let dividend = (self.to_dec() as u128) * 100000000000000u128;
        let divisor = rhs.to_dec() as u128;
        let q128 = (dividend + divisor / 2) / divisor;
        proof {
            assert(q128 < 1000000000000000) by (nonlinear_arith)
                requires
                    q128 as int == (dividend as int + divisor as int / 2) / (divisor as int),
                    dividend as int == self.val() as int * 100000000000000,
                    self.val() < 100000000000000,
                    divisor == rhs.val(),
                    10000000000000 <= divisor < 100000000000000,
            ;
        }
        let q = q128 as u64;
        (Mantissa::from_dec(q), q > 99999999999999)
    }

    /// Shifts right by `distance` digits, rounding half-up on the first
    /// discarded digit; a shift of 15 or more digits discards everything.
    pub fn shr(self, distance: u8) -> (r: Self)
        requires
            self.wf(),
        ensures
            r.val() == shr_value(self.val() as int, distance as nat),
            distance == 0 ==> r == self,
            distance >= 1 ==> r.is14(),
    {
        proof {
            lemma_pow_constants();
            lemma_val_bound(self.spec_bits() as nat, 15);
        }
        if distance >= 15 {
            return Mantissa { data: 0 };
        }
        if distance == 0 {
            return self;
        }
        let v = self.to_dec();
        let p = pow10_u64(distance);
        let pprev = pow10_u64(distance - 1);
        proof {
            lemma_pow10_bounds(distance as nat);
        }
        let q = v / p;
        proof {
            assert(q < 100000000000000) by (nonlinear_arith)
                requires
                    q == v / p,
                    v < 1000000000000000,
                    p >= 10,
            ;
        }
        let rounded = if (v / pprev) % 10 >= 5 {
            q + 1
        } else {
            q
        };
        if rounded == 100000000000000 {
            Mantissa { data: 0 }
        } else {
            Mantissa::from_dec(rounded)
        }
    }

    /// Shifts left by `distance` digits, discarding digits pushed past the
    /// 14th position.
    pub fn shl(self, distance: u8) -> (r: Self)
        requires
            self.wf(),
        ensures
            r.is14(),
            r.val() == (self.val() * pow10(distance as nat)) % pow10(14),
    {
        proof {
            lemma_pow_constants();
            lemma_val_bound(self.spec_bits() as nat, 15);
        }
        let v = self.to_dec();
        if distance >= 14 {
            proof {
                lemma_pow10_adds(14, (distance - 14) as nat);
                assert(self.val() * (pow10(14) * pow10((distance - 14) as nat)) == (self.val()
                    * pow10((distance - 14) as nat)) * pow10(14)) by (nonlinear_arith);
                vstd::arithmetic::div_mod::lemma_mod_multiples_basic(
                    self.val() * pow10((distance - 14) as nat),
                    pow10(14),
                );
            }
            return Mantissa { data: 0 };
        }
        let plow = pow10_u64(14 - distance);
        let p = pow10_u64(distance);
        proof {
            lemma_pow10_bounds((14 - distance) as nat);
        }
        let low = v % plow;
        proof {
            let hi = self.val() as int / pow10((14 - distance) as nat);
            lemma_pow10_adds((14 - distance) as nat, distance as nat);
            vstd::arithmetic::div_mod::lemma_fundamental_div_mod(
                self.val() as int,
                pow10((14 - distance) as nat),
            );
            assert((pow10((14 - distance) as nat) * hi + low) * pow10(distance as nat) == pow10(14)
                * hi + low * pow10(distance as nat)) by (nonlinear_arith)
                requires
                    pow10((14 - distance) as nat) * pow10(distance as nat) == pow10(14),
            ;
            lemma_mod_multiples_vanish(hi, low * pow10(distance as nat), pow10(14));
            assert(low * pow10(distance as nat) < pow10(14)) by (nonlinear_arith)
                requires
                    low < pow10((14 - distance) as nat),
                    pow10((14 - distance) as nat) * pow10(distance as nat) == pow10(14),
                    pow10(distance as nat) > 0,
            ;
            lemma_small_mod((low * pow10(distance as nat)) as nat, pow10(14) as nat);
            assert(low * p < 100000000000000) by (nonlinear_arith)
                requires
                    low * pow10(distance as nat) < pow10(14),
                    p == pow10(distance as nat),
                    pow10(14) == 100000000000000,
            ;
        }
        Mantissa::from_dec(low * p)
    }
}

/// # Digit access
impl Mantissa {
    /// The 14 digit values, most significant first.
    pub fn digits(&self) -> (r: Vec<u8>)
        ensures
            r@.len() == 14,
            forall|i: int|
                0 <= i < 14 ==> r@[i] as int == ((self.spec_bits() as int) / pow16(
                    (13 - i) as nat,
                )) % 16,
    {
        let mut out: Vec<u8> = Vec::new();
        let mut p: u64 = 0x0010000000000000;
        let mut i: usize = 0;
        proof {
            lemma_pow_constants();
        }
        while i < 14
            invariant
                i <= 14,
                out@.len() == i,
                i < 14 ==> p == pow16((13 - i) as nat),
                forall|j: int|
                    0 <= j < i ==> out@[j] as int == ((self.spec_bits() as int) / pow16(
                        (13 - j) as nat,
                    )) % 16,
            decreases 14 - i,
        {
            proof {
                lemma_pow_positive((13 - i) as nat);
            }
            let nibble = (self.data / p) % 16;
            out.push(nibble as u8);
            proof {
                if i + 1 < 14 {
                    assert(pow16((13 - i) as nat) == 16 * pow16((12 - i) as nat));
                    assert(p / 16 == pow16((12 - i) as nat)) by (nonlinear_arith)
                        requires
                            p == 16 * pow16((12 - i) as nat),
                            pow16((12 - i) as nat) >= 0,
                    ;
                }
            }
            p = p / 16;
            i = i + 1;
        }
        out
    }

    /// Packs an integer of at most 14 digits and left-shifts it so the
    /// leading digit is nonzero (for nonzero input), returning the shift
    /// count alongside.
    pub fn from_dec_normalized(data: u64) -> (r: (Self, u8))
        requires
            data < pow10(14),
        ensures
            r.0.is14(),
            data == 0 ==> r.0.val() == 0 && r.1 == 0,
            data > 0 ==> r.0.val() == data * pow10(r.1 as nat) && pow10(13) <= r.0.val(),
    {
        proof {
            lemma_pow_constants();
        }
        if data == 0 {
            return (Mantissa { data: 0 }, 0);
        }
        let mut v: u64 = data;
        let mut count: u8 = 0;
        while v < 10000000000000
            invariant
                data >= 1,
                count <= 13,
                v as int == data * pow10(count as nat),
                v < pow10(14),
                pow10(13) == 10000000000000,
                pow10(14) == 100000000000000,
            decreases 13 - count,
        {
            proof {
                lemma_pow_positive(count as nat);
                assert(v >= pow10(count as nat)) by (nonlinear_arith)
                    requires
                        v as int == data * pow10(count as nat),
                        data >= 1,
                        pow10(count as nat) >= 1,
                ;
                if count >= 13 {
                    lemma_pow10_increases(13, count as nat);
                    assert(false);
                }
                assert(10 * (data * pow10(count as nat)) == data * (10 * pow10(count as nat)))
                    by (nonlinear_arith);
            }
            v = v * 10;
            count = count + 1;
        }
        (Mantissa::from_dec(v), count)
    }

    /// The decimal digits of the value, as a string — for a canonical
    /// mantissa this is also its hexadecimal digit string, leading zeros
    /// dropped.
    pub fn hex(&self) -> (r: String)
        ensures
            r@ == dec_digit_string(self.val() as int),
    {
        let v = self.to_dec();
        let mut s = String::new();
        if v == 0 {
            s.append("0");
            proof {
                reveal_strlit("0");
            }
        } else {
            push_decimal(v, &mut s);
        }
        s
    }
}

/// The decimal digit string of `v`, with no leading zeros; zero itself
/// reads "0".
pub open spec fn dec_digit_string(v: int) -> Seq<char> {
    if v == 0 {
        seq!['0']
    } else {
        dec_digits(v)
    }
}

/// The digits of a positive number, most significant first (empty for 0).
pub open spec fn dec_digits(v: int) -> Seq<char>
    decreases v,
{
    if v <= 0 {
        seq![]
    } else {
        dec_digits(v / 10).push(digit_char(v % 10))
    }
}

/// The character for one digit value.
pub open spec fn digit_char(d: int) -> char {
    if d == 0 {
        '0'
    } else if d == 1 {
        '1'
    } else if d == 2 {
        '2'
    } else if d == 3 {
        '3'
    } else if d == 4 {
        '4'
    } else if d == 5 {
        '5'
    } else if d == 6 {
        '6'
    } else if d == 7 {
        '7'
    } else if d == 8 {
        '8'
    } else {
        '9'
    }
}

/// Appends the digits of `v` (most significant first) to `out`.
fn push_decimal(v: u64, out: &mut String)
    ensures
        final (out)@ == old(out)@ + dec_digits(v as int),
    decreases v,
{
    if v == 0 {
        proof {
            assert(old(out)@ + dec_digits(0) =~= old(out)@);
        }
        return ;
    }
    push_decimal(v / 10, out);
    let d = v % 10;
    if d == 0 {
        out.append("0");
        proof {
            reveal_strlit("0");
        }
    } else if d == 1 {
        out.append("1");
        proof {
            reveal_strlit("1");
        }
    } else if d == 2 {
        out.append("2");
        proof {
            reveal_strlit("2");
        }
    } else if d == 3 {
        out.append("3");
        proof {
            reveal_strlit("3");
        }
    } else if d == 4 {
        out.append("4");
        proof {
            reveal_strlit("4");
        }
    } else if d == 5 {
        out.append("5");
        proof {
            reveal_strlit("5");
        }
    } else if d == 6 {
        out.append("6");
        proof {
            reveal_strlit("6");
        }
    } else if d == 7 {
        out.append("7");
        proof {
            reveal_strlit("7");
        }
    } else if d == 8 {
        out.append("8");
        proof {
            reveal_strlit("8");
        }
    } else {
        out.append("9");
        proof {
            reveal_strlit("9");
        }
    }
    proof {
        assert(final (out)@ =~= old(out)@ + dec_digits(v as int));
    }
}

/// `spec_from_bits` holds the bits it is given.
pub proof fn lemma_spec_from_bits(bits: u64)
    ensures
        Mantissa::spec_from_bits(bits).spec_bits() == bits,
{
}

/// Rebuilding a mantissa from its own bits gives it back.
pub proof fn lemma_spec_from_bits_self(m: Mantissa)
    ensures
        Mantissa::spec_from_bits(m.spec_bits()) == m,
{
}

/// The canonical mantissa of a value below 10^15 denotes that value and is
/// well-formed; below 10^14 it is canonical 14-digit.
pub proof fn lemma_spec_from_val(v: nat)
    requires
        v < pow10(15),
    ensures
        Mantissa::spec_from_val(v).val() == v,
        Mantissa::spec_from_val(v).wf(),
        v < pow10(14) ==> Mantissa::spec_from_val(v).is14(),
{
    lemma_val_of_enc(v);
    lemma_val_bound(bcd_enc(v), 15);
    lemma_val_bound(bcd_enc(v), 14);
    lemma_pow_constants();
    assert(bcd_enc(v) < pow16(15));
    assert(Mantissa::spec_from_val(v).spec_bits() == bcd_enc(v));
}

/// A well-formed mantissa's value and its raw bits sit on the same side
/// of every digit boundary: zero, the normalization threshold, and the
/// 14-digit limit.
pub proof fn lemma_val_vs_bits(m: Mantissa)
    requires
        m.wf(),
    ensures
        m.val() == 0 <==> m.spec_bits() == 0,
        m.val() >= pow10(13) <==> m.spec_bits() >= pow16(13),
        m.val() < pow10(14) <==> m.spec_bits() < pow16(14),
{
    if m.spec_bits() != 0 {
        lemma_val_zero_only_zero(m.spec_bits() as nat);
    }
    lemma_val_bound(m.spec_bits() as nat, 13);
    lemma_val_bound(m.spec_bits() as nat, 14);
}

/// Every well-formed mantissa is the canonical encoding of its value.
pub proof fn lemma_canonical(m: Mantissa)
    requires
        m.wf(),
    ensures
        m == Mantissa::spec_from_val(m.val()),
{
    lemma_enc_of_val(m.spec_bits() as nat);
}

/// Computes 10^n on the machine.
fn pow10_u64(n: u8) -> (r: u64)
    requires
        n <= 15,
    ensures
        r == pow10(n as nat),
{
    let mut r: u64 = 1;
    let mut i: u8 = 0;
    proof {
        lemma_pow_constants();
    }
    while i < n
        invariant
            i <= n <= 15,
            r == pow10(i as nat),
            pow10(15) == 1000000000000000,
        decreases n - i,
    {
        proof {
            lemma_pow10_increases((i + 1) as nat, 15);
        }
        r = r * 10;
        i = i + 1;
    }
    r
}

/// 10^n is at least 10 for positive n, and positive everywhere.
proof fn lemma_pow10_bounds(n: nat)
    ensures
        n >= 1 ==> pow10(n) >= 10,
        pow10(n) >= 1,
{
    lemma_pow_positive(n);
    if n >= 1 {
        lemma_pow_positive((n - 1) as nat);
    }
}

/// `pow16` is monotone in the exponent.
proof fn lemma_pow16_increases(a: nat, b: nat)
    requires
        a <= b,
    ensures
        pow16(a) <= pow16(b),
    decreases b,
{
    if a < b {
        lemma_pow16_increases(a, (b - 1) as nat);
        lemma_pow_positive((b - 1) as nat);
    }
}

/// `pow10` is monotone in the exponent.
proof fn lemma_pow10_increases(a: nat, b: nat)
    requires
        a <= b,
    ensures
        pow10(a) <= pow10(b),
    decreases b,
{
    if a < b {
        lemma_pow10_increases(a, (b - 1) as nat);
        lemma_pow_positive((b - 1) as nat);
    }
}

} // verus!
