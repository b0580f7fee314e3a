//! The packed binary-coded-decimal numeral system: each decimal digit of a
//! number occupies one 4-bit field (nibble) of a machine word.  This module
//! gives the mathematical model — which words are well-formed BCD, what
//! decimal value a word denotes, and how a value is encoded — together with
//! the lemmas that make the encoding a bijection.

use vstd::prelude::*;

verus! {

/// 10^n.
pub open spec fn pow10(n: nat) -> int
    decreases n,
{
    if n == 0 {
        1
    } else {
        10 * pow10((n - 1) as nat)
    }
}

/// 16^n: the weight of the n-th nibble of a word.
pub open spec fn pow16(n: nat) -> int
    decreases n,
{
    if n == 0 {
        1
    } else {
        16 * pow16((n - 1) as nat)
    }
}

/// A word is well-formed BCD when every nibble holds a decimal digit.
pub open spec fn bcd_ok(b: nat) -> bool
    decreases b,
{
    b == 0 || (b % 16 <= 9 && bcd_ok(b / 16))
}

/// The decimal value a BCD word denotes: nibble i carries weight 10^i.
pub open spec fn bcd_val(b: nat) -> nat
    decreases b,
{
    if b == 0 {
        0
    } else {
        b % 16 + 10 * bcd_val(b / 16)
    }
}

/// The BCD word that encodes a decimal value: digit i lands in nibble i.
pub open spec fn bcd_enc(v: nat) -> nat
    decreases v,
{
    if v == 0 {
        0
    } else {
        v % 10 + 16 * bcd_enc(v / 10)
    }
}

/// The common constants, tied to their spec-level powers.
pub proof fn lemma_pow_constants()
    ensures
        pow10(0) == 1,
        pow10(1) == 10,
        pow10(13) == 10000000000000,
        pow10(14) == 100000000000000,
        pow10(15) == 1000000000000000,
        pow10(16) == 10000000000000000,
        pow16(13) == 0x0010000000000000,
        pow16(14) == 0x0100000000000000,
        pow16(15) == 0x1000000000000000,
{
    reveal_with_fuel(pow10, 17);
    reveal_with_fuel(pow16, 16);
}

/// Decoding inverts encoding: the value written digit by digit reads back as
/// itself, and the written word is well-formed.
pub proof fn lemma_val_of_enc(v: nat)
    ensures
        bcd_ok(bcd_enc(v)),
        bcd_val(bcd_enc(v)) == v,
    decreases v,
{
    if v == 0 {
    } else {
        let d: nat = v % 10;
        let rest: nat = bcd_enc(v / 10);
        lemma_val_of_enc(v / 10);
        assert(d + 16 * rest == bcd_enc(v));
        assert((d + 16 * rest) % 16 == d && (d + 16 * rest) / 16 == rest) by (nonlinear_arith)
            requires
                d < 16,
        ;
        if bcd_enc(v) == 0 {
            assert(d == 0 && rest == 0) by (nonlinear_arith)
                requires
                    d + 16 * rest == 0,
            ;
            assert(v == v / 10 * 10 + v % 10);
        } else {
            assert(bcd_val(bcd_enc(v)) == d + 10 * bcd_val(rest));
            assert(v == v / 10 * 10 + v % 10);
        }
    }
}

/// Encoding inverts decoding on well-formed words.
pub proof fn lemma_enc_of_val(b: nat)
    requires
        bcd_ok(b),
    ensures
        bcd_enc(bcd_val(b)) == b,
    decreases b,
{
    if b == 0 {
    } else {
        let d: nat = b % 16;
        let rest: nat = b / 16;
        lemma_enc_of_val(rest);
        let v: nat = bcd_val(b);
        assert(v == d + 10 * bcd_val(rest));
        assert((d + 10 * bcd_val(rest)) % 10 == d && (d + 10 * bcd_val(rest)) / 10 == bcd_val(rest))
            by (nonlinear_arith)
            requires
                d < 10,
        ;
        if v == 0 {
            assert(d == 0 && bcd_val(rest) == 0) by (nonlinear_arith)
                requires
                    d + 10 * bcd_val(rest) == 0,
            ;
            assert(bcd_enc(0) == 0);
            assert(rest == 0 || bcd_val(rest) != 0) by {
                lemma_val_zero_only_zero(rest);
            }
            assert(b == b / 16 * 16 + b % 16);
        } else {
            assert(bcd_enc(v) == d + 16 * bcd_enc(bcd_val(rest)));
            assert(b == b / 16 * 16 + b % 16);
        }
    }
}

/// A well-formed nonzero word denotes a nonzero value.
pub proof fn lemma_val_zero_only_zero(b: nat)
    requires
        bcd_ok(b),
        b != 0,
    ensures
        bcd_val(b) != 0,
    decreases b,
{
    if b % 16 == 0 {
        assert(b / 16 != 0) by (nonlinear_arith)
            requires
                b != 0,
                b % 16 == 0,
        ;
        lemma_val_zero_only_zero(b / 16);
    }
}

/// A well-formed word below 16^k denotes a value below 10^k, and conversely.
pub proof fn lemma_val_bound(b: nat, k: nat)
    requires
        bcd_ok(b),
    ensures
        b < pow16(k) <==> bcd_val(b) < pow10(k),
    decreases k,
{
    if k == 0 {
        lemma_val_zero_only_zero_converse(b);
    } else {
        if b == 0 {
            lemma_pow_positive(k);
        } else {
            let d: nat = b % 16;
            let rest: nat = b / 16;
            lemma_val_bound(rest, (k - 1) as nat);
            assert(b == rest * 16 + d);
            assert(bcd_val(b) == d + 10 * bcd_val(rest));
            assert(rest * 16 + d < 16 * pow16((k - 1) as nat) <==> rest < pow16((k - 1) as nat))
                by (nonlinear_arith)
                requires
                    d < 16,
            ;
            assert(d + 10 * bcd_val(rest) < 10 * pow10((k - 1) as nat) <==> bcd_val(rest) < pow10(
                (k - 1) as nat,
            )) by (nonlinear_arith)
                requires
                    d < 10,
            ;
        }
    }
}

/// Helper: only zero denotes zero (converse direction is trivial).
proof fn lemma_val_zero_only_zero_converse(b: nat)
    requires
        bcd_ok(b),
    ensures
        b < 1 <==> bcd_val(b) < 1,
{
    if b != 0 {
        lemma_val_zero_only_zero(b);
    }
}

/// The defining equation of `bcd_val`, valid for zero as well.
pub proof fn lemma_val_unfold(b: nat)
    ensures
        bcd_val(b) == b % 16 + 10 * bcd_val(b / 16),
{
}

/// The defining equation of `bcd_enc`, valid for zero as well.
pub proof fn lemma_enc_unfold(v: nat)
    ensures
        bcd_enc(v) == v % 10 + 16 * bcd_enc(v / 10),
{
}

/// Face-value bound: even on an arbitrary word (nibbles up to 15) the
/// denoted value stays well under `u64::MAX`.
pub proof fn lemma_val_face_bound(b: nat, k: nat)
    requires
        b < pow16(k),
    ensures
        3 * bcd_val(b) <= 5 * (pow10(k) - 1),
    decreases k,
{
    if k == 0 {
    } else if b == 0 {
        lemma_pow_positive(k);
    } else {
        let d: nat = b % 16;
        let rest: nat = b / 16;
        assert(rest < pow16((k - 1) as nat)) by (nonlinear_arith)
            requires
                b < 16 * pow16((k - 1) as nat),
                rest == b / 16,
        ;
        lemma_val_face_bound(rest, (k - 1) as nat);
        assert(3 * (d + 10 * bcd_val(rest)) <= 5 * (10 * pow10((k - 1) as nat) - 1))
            by (nonlinear_arith)
            requires
                d < 16,
                3 * bcd_val(rest) <= 5 * (pow10((k - 1) as nat) - 1),
        ;
    }
}

/// Powers of ten multiply by adding exponents.
pub proof fn lemma_pow10_adds(a: nat, b: nat)
    ensures
        pow10(a + b) == pow10(a) * pow10(b),
    decreases a,
{
    if a == 0 {
    } else {
        lemma_pow10_adds((a - 1) as nat, b);
        assert(10 * (pow10((a - 1) as nat) * pow10(b)) == (10 * pow10((a - 1) as nat)) * pow10(b))
            by (nonlinear_arith);
    }
}

/// `pow10` is monotone in the exponent.
pub proof fn lemma_pow10_monotone(a: nat, b: nat)
    requires
        a <= b,
    ensures
        pow10(a) <= pow10(b),
    decreases b,
{
    if a < b {
        lemma_pow10_monotone(a, (b - 1) as nat);
        lemma_pow_positive((b - 1) as nat);
    }
}

/// Powers are positive.
pub proof fn lemma_pow_positive(k: nat)
    ensures
        pow10(k) >= 1,
        pow16(k) >= pow10(k),
    decreases k,
{
    if k > 0 {
        lemma_pow_positive((k - 1) as nat);
    }
}

} // verus!
