//! Exact numeric comparisons between configuration bounds and load values.
//!
//! A load value arrives as the bit pattern of an IEEE-754 single-precision
//! number; a configured bound is an exact decimal. The comparison is done
//! exactly, in integer arithmetic, by cross-multiplying the scaled values:
//! a finite float is `±sig·2^exp` and a bound is `±mant/10^frac`, so their
//! order is decided by comparing `sig·5^frac·2^(exp+frac)` with `mant`.

use vstd::arithmetic::power2::{lemma2_to64, lemma2_to64_rest, lemma_pow2_adds, lemma_pow2_pos, pow2};
use vstd::prelude::*;

verus! {

/// An exact decimal number `(-1)^neg * mant / 10^frac`.
#[derive(Clone, Copy, Debug, PartialEq, Eq, Structural)]
pub struct Dec {
    pub neg: bool,
    pub mant: u64,
    /// Number of fractional digits; at most 18.
    pub frac: u8,
}

impl Dec {
    /// Normalised: a bounded fraction with no trailing zero digits, and no
    /// fraction at all for zero.
    pub open spec fn wf(self) -> bool {
        self.frac <= 18 && (self.frac > 0 ==> self.mant % 10 != 0) && (self.mant == 0
            ==> self.frac == 0)
    }

    pub fn new(neg: bool, mant: u64, frac: u8) -> (r: Option<Dec>)
        ensures
            match r {
                Some(d) => d == (Dec { neg, mant, frac }) && d.wf(),
                None => !(Dec { neg, mant, frac }).wf(),
            },
    {
        let d = Dec { neg, mant, frac };
        if frac <= 18 && (frac == 0 || mant % 10 != 0) && (mant != 0 || frac == 0) {
            Some(d)
        } else {
            None
        }
    }
}

pub open spec fn p5(n: nat) -> int
    decreases n,
{
    if n == 0 {
        1
    } else {
        5 * p5((n - 1) as nat)
    }
}

pub open spec fn p10(n: nat) -> int
    decreases n,
{
    if n == 0 {
        1
    } else {
        10 * p10((n - 1) as nat)
    }
}

proof fn lemma_p5_18()
    ensures
        p5(18) == 3_814_697_265_625,
{
    reveal_with_fuel(p5, 20);
}

/// Sign bit of a float bit pattern.
pub open spec fn f_neg(b: u32) -> bool {
    b >= 0x8000_0000
}

/// The bit pattern with the sign bit cleared.
pub open spec fn f_mag(b: u32) -> u32 {
    if f_neg(b) {
        (b - 0x8000_0000) as u32
    } else {
        b
    }
}

pub open spec fn f_is_nan(b: u32) -> bool {
    f_mag(b) > 0x7F80_0000
}

pub open spec fn f_is_inf(b: u32) -> bool {
    f_mag(b) == 0x7F80_0000
}

pub open spec fn f_is_zero(b: u32) -> bool {
    f_mag(b) == 0
}

/// Integer significand of a finite value: the value is `±f_sig·2^f_exp`.
pub open spec fn f_sig(b: u32) -> nat {
    let m = f_mag(b);
    if m / 0x80_0000 == 0 {
        m as nat
    } else {
        (m % 0x80_0000 + 0x80_0000) as nat
    }
}

pub open spec fn f_exp(b: u32) -> int {
    let ef = f_mag(b) / 0x80_0000;
    if ef == 0 {
        -149
    } else {
        ef - 150
    }
}

/// `m·2^e < n/10^f`, decided exactly: multiply both sides by
/// `10^f = 2^f·5^f` and, if the power of two is negative, move it to the
/// right-hand side.
pub open spec fn sci_lt(m: nat, e: int, n: nat, f: nat) -> bool {
    if e + f >= 0 {
        m * p5(f) * pow2((e + f) as nat) < n
    } else {
        m * p5(f) < n * pow2((-(e + f)) as nat)
    }
}

/// `m·2^e > n/10^f`, decided exactly.
pub open spec fn sci_gt(m: nat, e: int, n: nat, f: nat) -> bool {
    if e + f >= 0 {
        m * p5(f) * pow2((e + f) as nat) > n
    } else {
        m * p5(f) > n * pow2((-(e + f)) as nat)
    }
}

/// The decimal is at most the float value; false when the float is
/// not-a-number.
pub open spec fn dec_le_bits(d: Dec, b: u32) -> bool {
    if f_is_nan(b) {
        false
    } else {
        let bneg = f_neg(b) && !f_is_zero(b);
        let dneg = d.neg && d.mant > 0;
        if d.mant == 0 {
            !bneg
        } else if f_is_zero(b) {
            dneg
        } else if dneg && !bneg {
            true
        } else if !dneg && bneg {
            false
        } else if !dneg && !bneg {
            if f_is_inf(b) {
                true
            } else {
                !sci_lt(f_sig(b), f_exp(b), d.mant as nat, d.frac as nat)
            }
        } else {
            if f_is_inf(b) {
                false
            } else {
                !sci_gt(f_sig(b), f_exp(b), d.mant as nat, d.frac as nat)
            }
        }
    }
}

/// The float value is strictly below the decimal; false when the float is
/// not-a-number.
pub open spec fn bits_lt_dec(b: u32, d: Dec) -> bool {
    if f_is_nan(b) {
        false
    } else {
        let bneg = f_neg(b) && !f_is_zero(b);
        let dneg = d.neg && d.mant > 0;
        if d.mant == 0 {
            bneg
        } else if f_is_zero(b) {
            !dneg
        } else if bneg && !dneg {
            true
        } else if !bneg && dneg {
            false
        } else if !bneg && !dneg {
            if f_is_inf(b) {
                false
            } else {
                sci_lt(f_sig(b), f_exp(b), d.mant as nat, d.frac as nat)
            }
        } else {
            if f_is_inf(b) {
                true
            } else {
                sci_gt(f_sig(b), f_exp(b), d.mant as nat, d.frac as nat)
            }
        }
    }
}

/// For a value that is a number, the two comparisons are exact
/// complements: the decimal is at most the value exactly when the value
/// is not strictly below the decimal.
pub proof fn lemma_dec_le_bits_complement(d: Dec, b: u32)
    requires
        !f_is_nan(b),
    ensures
        dec_le_bits(d, b) == !bits_lt_dec(b, d),
{
}

/// Order of two exact decimals, by sign and cross-multiplication.
pub open spec fn dec_le_dec(a: Dec, b: Dec) -> bool {
    let aneg = a.neg && a.mant > 0;
    let bneg = b.neg && b.mant > 0;
    if aneg && !bneg {
        true
    } else if !aneg && bneg {
        false
    } else if !aneg && !bneg {
        a.mant * p10(b.frac as nat) <= b.mant * p10(a.frac as nat)
    } else {
        b.mant * p10(a.frac as nat) <= a.mant * p10(b.frac as nat)
    }
}

proof fn lemma_p10_pos(n: nat)
    ensures
        p10(n) >= 1,
    decreases n,
{
    if n > 0 {
        lemma_p10_pos((n - 1) as nat);
    }
}

/// Ten to a power is the matching powers of two and five together.
proof fn lemma_p10_split(n: nat)
    ensures
        p10(n) == pow2(n) * p5(n),
    decreases n,
{
    lemma2_to64();
    if n == 0 {
    } else {
        lemma_p10_split((n - 1) as nat);
        lemma_pow2_adds(1, (n - 1) as nat);
        assert(pow2(n) == 2 * pow2((n - 1) as nat));
        assert((2 * pow2((n - 1) as nat)) * (5 * p5((n - 1) as nat)) == 10 * (pow2(
            (n - 1) as nat,
        ) * p5((n - 1) as nat))) by (nonlinear_arith);
    }
}

/// `sci_lt` in one branch-free form: both sides scaled by `2^149·10^f`.
proof fn lemma_sci_lt_scaled(m: nat, e: int, n: nat, f: nat)
    requires
        -149 <= e,
    ensures
        sci_lt(m, e, n, f) == (m * pow2((e + 149) as nat) * p10(f) < n * pow2(149)),
{
    lemma_p10_split(f);
    lemma_pow2_pos(149);
    lemma_pow2_pos((e + 149) as nat);
    if e + f >= 0 {
        lemma_pow2_adds((e + f) as nat, 149);
        lemma_pow2_adds((e + 149) as nat, f);
        assert(m * pow2((e + 149) as nat) * p10(f) == (m * p5(f) * pow2((e + f) as nat)) * pow2(
            149,
        )) by (nonlinear_arith)
            requires
                p10(f) == pow2(f) * p5(f),
                pow2((e + 149) as nat) * pow2(f) == pow2((e + f + 149) as nat),
                pow2((e + f) as nat) * pow2(149) == pow2((e + f + 149) as nat),
        ;
        assert((m * p5(f) * pow2((e + f) as nat)) < n <==> (m * p5(f) * pow2((e + f) as nat))
            * pow2(149) < n * pow2(149)) by (nonlinear_arith)
            requires
                pow2(149) >= 1,
        ;
    } else {
        lemma_pow2_adds((-(e + f)) as nat, (e + f + 149) as nat);
        lemma_pow2_adds((e + 149) as nat, f);
        lemma_pow2_pos((e + f + 149) as nat);
        assert(m * pow2((e + 149) as nat) * p10(f) == (m * p5(f)) * pow2((e + f + 149) as nat))
            by (nonlinear_arith)
            requires
                p10(f) == pow2(f) * p5(f),
                pow2((e + 149) as nat) * pow2(f) == pow2((e + f + 149) as nat),
        ;
        assert(n * pow2(149) == (n * pow2((-(e + f)) as nat)) * pow2((e + f + 149) as nat))
            by (nonlinear_arith)
            requires
                pow2((-(e + f)) as nat) * pow2((e + f + 149) as nat) == pow2(149),
        ;
        assert(m * p5(f) < n * pow2((-(e + f)) as nat) <==> (m * p5(f)) * pow2(
            (e + f + 149) as nat,
        ) < (n * pow2((-(e + f)) as nat)) * pow2((e + f + 149) as nat)) by (nonlinear_arith)
            requires
                pow2((e + f + 149) as nat) >= 1,
        ;
    }
}

/// A value strictly below one decimal is strictly below every decimal at
/// least as large, within one sign class; stated over the scaled form.
proof fn lemma_sci_lt_mono(m: nat, e: int, n1: nat, f1: nat, n2: nat, f2: nat)
    requires
        -149 <= e,
        sci_lt(m, e, n1, f1),
        n1 * p10(f2) <= n2 * p10(f1),
    ensures
        sci_lt(m, e, n2, f2),
{
    lemma_sci_lt_scaled(m, e, n1, f1);
    lemma_sci_lt_scaled(m, e, n2, f2);
    lemma_p10_pos(f1);
    lemma_p10_pos(f2);
    lemma_pow2_pos(149);
    let a = m * pow2((e + 149) as nat);
    let c = pow2(149) as int;
    assert(a * p10(f2) * p10(f1) < n2 * c * p10(f1)) by (nonlinear_arith)
        requires
            a * p10(f1) < n1 * c,
            n1 * p10(f2) <= n2 * p10(f1),
            p10(f1) >= 1,
            p10(f2) >= 1,
            c >= 1,
            a >= 0,
            n1 >= 0,
            n2 >= 0,
    ;
    assert(a * p10(f2) < n2 * c) by (nonlinear_arith)
        requires
            a * p10(f2) * p10(f1) < n2 * c * p10(f1),
            p10(f1) >= 1,
    ;
}

/// The mirror image for strictly-above.
proof fn lemma_sci_gt_mono(m: nat, e: int, n1: nat, f1: nat, n2: nat, f2: nat)
    requires
        -149 <= e,
        sci_gt(m, e, n1, f1),
        n2 * p10(f1) <= n1 * p10(f2),
    ensures
        sci_gt(m, e, n2, f2),
{
    lemma_sci_gt_scaled(m, e, n1, f1);
    lemma_sci_gt_scaled(m, e, n2, f2);
    lemma_p10_pos(f1);
    lemma_p10_pos(f2);
    lemma_pow2_pos(149);
    let a = m * pow2((e + 149) as nat);
    let c = pow2(149) as int;
    assert(a * p10(f2) * p10(f1) > n2 * c * p10(f1)) by (nonlinear_arith)
        requires
            a * p10(f1) > n1 * c,
            n2 * p10(f1) <= n1 * p10(f2),
            p10(f1) >= 1,
            p10(f2) >= 1,
            c >= 1,
            a >= 0,
            n1 >= 0,
            n2 >= 0,
    ;
    assert(a * p10(f2) > n2 * c) by (nonlinear_arith)
        requires
            a * p10(f2) * p10(f1) > n2 * c * p10(f1),
            p10(f1) >= 1,
    ;
}

proof fn lemma_sci_gt_scaled(m: nat, e: int, n: nat, f: nat)
    requires
        -149 <= e,
    ensures
        sci_gt(m, e, n, f) == (m * pow2((e + 149) as nat) * p10(f) > n * pow2(149)),
{
    lemma_p10_split(f);
    lemma_pow2_pos(149);
    lemma_pow2_pos((e + 149) as nat);
    if e + f >= 0 {
        lemma_pow2_adds((e + f) as nat, 149);
        lemma_pow2_adds((e + 149) as nat, f);
        assert(m * pow2((e + 149) as nat) * p10(f) == (m * p5(f) * pow2((e + f) as nat)) * pow2(
            149,
        )) by (nonlinear_arith)
            requires
                p10(f) == pow2(f) * p5(f),
                pow2((e + 149) as nat) * pow2(f) == pow2((e + f + 149) as nat),
                pow2((e + f) as nat) * pow2(149) == pow2((e + f + 149) as nat),
        ;
        assert((m * p5(f) * pow2((e + f) as nat)) > n <==> (m * p5(f) * pow2((e + f) as nat))
            * pow2(149) > n * pow2(149)) by (nonlinear_arith)
            requires
                pow2(149) >= 1,
        ;
    } else {
        lemma_pow2_adds((-(e + f)) as nat, (e + f + 149) as nat);
        lemma_pow2_adds((e + 149) as nat, f);
        lemma_pow2_pos((e + f + 149) as nat);
        assert(m * pow2((e + 149) as nat) * p10(f) == (m * p5(f)) * pow2((e + f + 149) as nat))
            by (nonlinear_arith)
            requires
                p10(f) == pow2(f) * p5(f),
                pow2((e + 149) as nat) * pow2(f) == pow2((e + f + 149) as nat),
        ;
        assert(n * pow2(149) == (n * pow2((-(e + f)) as nat)) * pow2((e + f + 149) as nat))
            by (nonlinear_arith)
            requires
                pow2((-(e + f)) as nat) * pow2((e + f + 149) as nat) == pow2(149),
        ;
        assert(m * p5(f) > n * pow2((-(e + f)) as nat) <==> (m * p5(f)) * pow2(
            (e + f + 149) as nat,
        ) > (n * pow2((-(e + f)) as nat)) * pow2((e + f + 149) as nat)) by (nonlinear_arith)
            requires
                pow2((e + f + 149) as nat) >= 1,
        ;
    }
}

/// A positive decimal is at least as large as another exactly when the
/// cross products say so; going below the smaller means going below the
/// larger too, for every float value.
pub proof fn lemma_bits_lt_dec_mono(v: u32, hi: Dec, lo: Dec)
    requires
        dec_le_dec(hi, lo),
        bits_lt_dec(v, hi),
    ensures
        bits_lt_dec(v, lo),
{
    let bneg = f_neg(v) && !f_is_zero(v);
    let hneg = hi.neg && hi.mant > 0;
    let lneg = lo.neg && lo.mant > 0;
    lemma_p10_pos(hi.frac as nat);
    lemma_p10_pos(lo.frac as nat);
    if f_is_nan(v) {
    } else if hi.mant == 0 {
        // Below zero: the value is negative; anything at least zero works.
        assert(bneg);
        if lo.mant == 0 {
        } else {
            assert(!lneg) by (nonlinear_arith)
                requires
                    lneg ==> lo.mant * p10(hi.frac as nat) <= 0,
                    lo.mant > 0,
                    p10(hi.frac as nat) >= 1,
            ;
        }
    } else if hneg {
        // Below a negative bound.
        if !lneg {
            // The other bound is at least zero: anything negative is below.
        } else {
            // Both bounds negative: the magnitudes reverse.
            if f_is_zero(v) {
            } else if bneg {
                if !f_is_inf(v) {
                    lemma_sci_gt_mono(
                        f_sig(v),
                        f_exp(v),
                        hi.mant as nat,
                        hi.frac as nat,
                        lo.mant as nat,
                        lo.frac as nat,
                    );
                }
            }
        }
    } else {
        // Below a positive bound; the other bound is positive too.
        assert(hi.mant > 0 && !hneg);
        assert(!lneg);
        assert(lo.mant > 0) by (nonlinear_arith)
            requires
                hi.mant * p10(lo.frac as nat) <= lo.mant * p10(hi.frac as nat),
                hi.mant > 0,
                p10(lo.frac as nat) >= 1,
                p10(hi.frac as nat) >= 1,
        ;
        if f_is_zero(v) {
        } else if !bneg {
            if !f_is_inf(v) {
                lemma_sci_lt_mono(
                    f_sig(v),
                    f_exp(v),
                    hi.mant as nat,
                    hi.frac as nat,
                    lo.mant as nat,
                    lo.frac as nat,
                );
            }
        }
    }
}

/// `5^f` for a bounded exponent.
fn pow5(f: u8) -> (r: u128)
    requires
        f <= 18,
    ensures
        r == p5(f as nat),
        r >= 1,
        r <= 3_814_697_265_625,
{
    let mut acc: u128 = 1;
    let mut i: u8 = 0;
    while i < f
        invariant
            i <= f <= 18,
            acc == p5(i as nat),
            1 <= acc,
            acc <= 3_814_697_265_625,
        decreases f - i,
    {
        proof {
            lemma_p5_18();
            lemma_p5_le(i as nat + 1, 18);
        }
        acc = acc * 5;
        i = i + 1;
    }
    acc
}

proof fn lemma_p5_le(a: nat, b: nat)
    requires
        a <= b,
    ensures
        p5(a) <= p5(b),
        p5(a) >= 1,
    decreases b,
{
    if a < b {
        lemma_p5_le(a, (b - 1) as nat);
        assert(p5(b) == 5 * p5((b - 1) as nat));
    } else if b > 0 {
        lemma_p5_le((a - 1) as nat, (b - 1) as nat);
    }
}

proof fn lemma_pow2_le(a: nat, b: nat)
    requires
        a <= b,
    ensures
        pow2(a) <= pow2(b),
        pow2(a) >= 1,
    decreases b,
{
    lemma_pow2_pos(a);
    lemma_pow2_pos(b);
    if a < b {
        vstd::arithmetic::power2::lemma_pow2_strictly_increases(a, b);
    }
}

/// `2^k` for `k` below 127.
fn pow2u128(k: u32) -> (r: u128)
    requires
        k <= 127,
    ensures
        r == pow2(k as nat),
        r >= 1,
{
    proof {
        lemma2_to64();
    }
    let mut acc: u128 = 1;
    let mut i: u32 = 0;
    while i < k
        invariant
            i <= k <= 127,
            acc == pow2(i as nat),
            1 <= acc,
        decreases k - i,
    {
        proof {
            lemma2_to64();
            lemma2_to64_rest();
            lemma_pow2_le(i as nat + 1, 127);
            assert(pow2(127) == pow2(64) * pow2(63)) by {
                lemma_pow2_adds(64, 63);
            }
            assert(pow2((i + 1) as nat) == 2 * pow2(i as nat)) by {
                lemma_pow2_adds(1, i as nat);
                lemma2_to64();
            }
        }
        acc = acc * 2;
        i = i + 1;
    }
    acc
}

/// Exact test for `m·2^e < n/10^f`.
fn sci_lt_exec(m: u32, e: i32, n: u64, f: u8) -> (r: bool)
    requires
        1 <= m < 0x100_0000,
        -149 <= e <= 104,
        n >= 1,
        f <= 18,
    ensures
        r == sci_lt(m as nat, e as int, n as nat, f as nat),
{
    let p5v = pow5(f);
    proof {
        assert(1 <= (m as u128) * p5v < 0x4_0000_0000_0000_0000) by (nonlinear_arith)
            requires
                1 <= m < 0x100_0000,
                1 <= p5v <= 3_814_697_265_625,
        ;
    }
    let x: u128 = (m as u128) * p5v;
    let a: i32 = e + (f as i32);
    if a >= 0 {
        if x > 0xFFFF_FFFF_FFFF_FFFF {
            // lhs = x·2^a ≥ x > n: not below.
            proof {
                lemma_pow2_le(0, a as nat);
                assert(x * pow2(a as nat) >= x) by (nonlinear_arith)
                    requires
                        x >= 0,
                        pow2(a as nat) >= 1,
                ;
            }
            false
        } else if a >= 64 {
            // lhs ≥ 2^64 > n: not below.
            proof {
                lemma_pow2_le(64, a as nat);
                lemma2_to64_rest();
                assert(x * pow2(a as nat) >= pow2(a as nat)) by (nonlinear_arith)
                    requires
                        x >= 1,
                        pow2(a as nat) >= 0,
                ;
            }
            false
        } else {
            let p2v = pow2u128(a as u32);
            proof {
                lemma_pow2_le(a as nat, 63);
                lemma2_to64();
                lemma2_to64_rest();
                assert(x * p2v <= 0xFFFF_FFFF_FFFF_FFFF * 0x8000_0000_0000_0000)
                    by (nonlinear_arith)
                    requires
                        0 <= x <= 0xFFFF_FFFF_FFFF_FFFF,
                        0 <= p2v <= 0x8000_0000_0000_0000,
                ;
            }
            let lhs: u128 = x * p2v;
            lhs < (n as u128)
        }
    } else {
        let k: u32 = (-a) as u32;
        if k >= 67 {
            // rhs = n·2^k ≥ 2^67 > x: below.
            proof {
                lemma_pow2_le(67, k as nat);
                lemma2_to64_rest();
                assert(pow2(67) == pow2(64) * 8) by {
                    lemma_pow2_adds(64, 3);
                    lemma2_to64();
                }
                assert(n * pow2(k as nat) >= pow2(k as nat)) by (nonlinear_arith)
                    requires
                        n >= 1,
                        pow2(k as nat) >= 0,
                ;
            }
            true
        } else {
            let thr: u128 = pow2u128(67 - k);
            if (n as u128) >= thr {
                // rhs ≥ 2^(67−k)·2^k = 2^67 > x: below.
                proof {
                    lemma_pow2_adds((67 - k) as nat, k as nat);
                    lemma2_to64_rest();
                    assert(pow2(67) == pow2(64) * 8) by {
                        lemma_pow2_adds(64, 3);
                        lemma2_to64();
                    }
                    assert(n * pow2(k as nat) >= pow2((67 - k) as nat) * pow2(k as nat))
                        by (nonlinear_arith)
                        requires
                            n >= pow2((67 - k) as nat),
                            pow2(k as nat) >= 0,
                    ;
                }
                true
            } else {
                let p2k = pow2u128(k);
                proof {
                    lemma_pow2_adds((67 - k) as nat, k as nat);
                    lemma_pow2_le(67, 127);
                    assert((n as u128) * p2k < pow2((67 - k) as nat) * pow2(k as nat))
                        by (nonlinear_arith)
                        requires
                            0 <= (n as u128) < pow2((67 - k) as nat),
                            p2k == pow2(k as nat),
                            p2k >= 1,
                    ;
                    assert(pow2(67) == pow2(64) * 8) by {
                        lemma_pow2_adds(64, 3);
                        lemma2_to64();
                    }
                    lemma2_to64_rest();
                }
                let rhs: u128 = (n as u128) * p2k;
                x < rhs
            }
        }
    }
}

/// Exact test for `m·2^e > n/10^f`.
fn sci_gt_exec(m: u32, e: i32, n: u64, f: u8) -> (r: bool)
    requires
        1 <= m < 0x100_0000,
        -149 <= e <= 104,
        n >= 1,
        f <= 18,
    ensures
        r == sci_gt(m as nat, e as int, n as nat, f as nat),
{
    let p5v = pow5(f);
    proof {
        assert(1 <= (m as u128) * p5v < 0x4_0000_0000_0000_0000) by (nonlinear_arith)
            requires
                1 <= m < 0x100_0000,
                1 <= p5v <= 3_814_697_265_625,
        ;
    }
    let x: u128 = (m as u128) * p5v;
    let a: i32 = e + (f as i32);
    if a >= 0 {
        if x > 0xFFFF_FFFF_FFFF_FFFF {
            proof {
                lemma_pow2_le(0, a as nat);
                assert(x * pow2(a as nat) >= x) by (nonlinear_arith)
                    requires
                        x >= 0,
                        pow2(a as nat) >= 1,
                ;
            }
            true
        } else if a >= 64 {
            proof {
                lemma_pow2_le(64, a as nat);
                lemma2_to64_rest();
                assert(x * pow2(a as nat) >= pow2(a as nat)) by (nonlinear_arith)
                    requires
                        x >= 1,
                        pow2(a as nat) >= 0,
                ;
            }
            true
        } else {
            let p2v = pow2u128(a as u32);
            proof {
                lemma_pow2_le(a as nat, 63);
                lemma2_to64();
                lemma2_to64_rest();
                assert(x * p2v <= 0xFFFF_FFFF_FFFF_FFFF * 0x8000_0000_0000_0000)
                    by (nonlinear_arith)
                    requires
                        0 <= x <= 0xFFFF_FFFF_FFFF_FFFF,
                        0 <= p2v <= 0x8000_0000_0000_0000,
                ;
            }
            let lhs: u128 = x * p2v;
            lhs > (n as u128)
        }
    } else {
        let k: u32 = (-a) as u32;
        if k >= 67 {
            proof {
                lemma_pow2_le(67, k as nat);
                lemma2_to64_rest();
                assert(pow2(67) == pow2(64) * 8) by {
                    lemma_pow2_adds(64, 3);
                    lemma2_to64();
                }
                assert(n * pow2(k as nat) >= pow2(k as nat)) by (nonlinear_arith)
                    requires
                        n >= 1,
                        pow2(k as nat) >= 0,
                ;
            }
            false
        } else {
            let thr: u128 = pow2u128(67 - k);
            if (n as u128) >= thr {
                proof {
                    lemma_pow2_adds((67 - k) as nat, k as nat);
                    lemma2_to64_rest();
                    assert(pow2(67) == pow2(64) * 8) by {
                        lemma_pow2_adds(64, 3);
                        lemma2_to64();
                    }
                    assert(n * pow2(k as nat) >= pow2((67 - k) as nat) * pow2(k as nat))
                        by (nonlinear_arith)
                        requires
                            n >= pow2((67 - k) as nat),
                            pow2(k as nat) >= 0,
                    ;
                }
                false
            } else {
                let p2k = pow2u128(k);
                proof {
                    lemma_pow2_adds((67 - k) as nat, k as nat);
                    lemma_pow2_le(67, 127);
                    assert((n as u128) * p2k < pow2((67 - k) as nat) * pow2(k as nat))
                        by (nonlinear_arith)
                        requires
                            0 <= (n as u128) < pow2((67 - k) as nat),
                            p2k == pow2(k as nat),
                            p2k >= 1,
                    ;
                    assert(pow2(67) == pow2(64) * 8) by {
                        lemma_pow2_adds(64, 3);
                        lemma2_to64();
                    }
                    lemma2_to64_rest();
                }
                let rhs: u128 = (n as u128) * p2k;
                x > rhs
            }
        }
    }
}

/// Split a float bit pattern into significand and exponent.
fn decompose(b: u32) -> (r: (u32, i32))
    requires
        !f_is_nan(b),
        !f_is_inf(b),
        !f_is_zero(b),
    ensures
        r.0 == f_sig(b),
        r.1 == f_exp(b),
        1 <= r.0 < 0x100_0000,
        -149 <= r.1 <= 104,
{
    let mag = if b >= 0x8000_0000 {
        b - 0x8000_0000
    } else {
        b
    };
    let ef: u32 = mag / 0x80_0000;
    let mf: u32 = mag % 0x80_0000;
    if ef == 0 {
        (mf, -149)
    } else {
        (mf + 0x80_0000, (ef as i32) - 150)
    }
}

/// Exact comparison `d <= value(b)`; false when `b` is not-a-number.
pub fn dec_le_bits_exec(d: &Dec, b: u32) -> (r: bool)
    requires
        d.wf(),
    ensures
        r == dec_le_bits(*d, b),
{
    let mag = if b >= 0x8000_0000 {
        b - 0x8000_0000
    } else {
        b
    };
    if mag > 0x7F80_0000 {
        return false;
    }
    let bneg = b >= 0x8000_0000 && mag != 0;
    let dneg = d.neg && d.mant > 0;
    if d.mant == 0 {
        !bneg
    } else if mag == 0 {
        dneg
    } else if dneg && !bneg {
        true
    } else if !dneg && bneg {
        false
    } else if !dneg && !bneg {
        if mag == 0x7F80_0000 {
            true
        } else {
            let (m, e) = decompose(b);
            !sci_lt_exec(m, e, d.mant, d.frac)
        }
    } else {
        if mag == 0x7F80_0000 {
            false
        } else {
            let (m, e) = decompose(b);
            !sci_gt_exec(m, e, d.mant, d.frac)
        }
    }
}

/// Exact comparison `value(b) < d`; false when `b` is not-a-number.
pub fn bits_lt_dec_exec(b: u32, d: &Dec) -> (r: bool)
    requires
        d.wf(),
    ensures
        r == bits_lt_dec(b, *d),
{
    let mag = if b >= 0x8000_0000 {
        b - 0x8000_0000
    } else {
        b
    };
    if mag > 0x7F80_0000 {
        return false;
    }
    let bneg = b >= 0x8000_0000 && mag != 0;
    let dneg = d.neg && d.mant > 0;
    if d.mant == 0 {
        bneg
    } else if mag == 0 {
        !dneg
    } else if bneg && !dneg {
        true
    } else if !bneg && dneg {
        false
    } else if !bneg && !dneg {
        if mag == 0x7F80_0000 {
            false
        } else {
            let (m, e) = decompose(b);
            sci_lt_exec(m, e, d.mant, d.frac)
        }
    } else {
        if mag == 0x7F80_0000 {
            true
        } else {
            let (m, e) = decompose(b);
            sci_gt_exec(m, e, d.mant, d.frac)
        }
    }
}

} // verus!
