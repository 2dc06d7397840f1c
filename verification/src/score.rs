//! Relevance scores as exact decimal numbers.
//!
//! A model reports a document's relevance as a decimal number inside its
//! output payload. The library keeps that number exactly, as a sign, a decimal
//! mantissa and a power-of-ten exponent, so the value denoted is
//! `(-1)^neg * mant * 10^exp`. Ordering of scores is defined on the denoted
//! values, not on the representation: `3e-1` and `30e-2` compare equal.

use vstd::arithmetic::power::{
    lemma_pow0, lemma_pow_adds, lemma_pow_increases, lemma_pow_positive, pow,
};
use vstd::prelude::*;

verus! {

/// Exclusive bound on a score's mantissa: mantissas keep at most 19
/// significant decimal digits, strictly more precision than the 64-bit binary
/// floating point format the payload's producers work in.
pub const MANT_LIMIT: u64 = 10_000_000_000_000_000_000;

/// A relevance score: the exact decimal value `(-1)^neg * mant * 10^exp`.
/// Higher values mean more relevant. The representation is not canonical;
/// equality of the denoted values is `score_eqv`, not `==`.
#[derive(Clone, Copy, Debug, PartialEq, Eq, Structural)]
pub struct Score {
    pub neg: bool,
    pub mant: u64,
    pub exp: i32,
}

impl Score {
    /// A well-formed score keeps its mantissa below `MANT_LIMIT`.
    pub open spec fn wf(self) -> bool {
        self.mant < MANT_LIMIT
    }

    /// The mantissa with its sign applied.
    pub open spec fn signed_mant(self) -> int {
        if self.neg {
            -(self.mant as int)
        } else {
            self.mant as int
        }
    }

    /// The denoted value expressed in units of `10^m`, for any `m <= self.exp`.
    pub open spec fn units(self, m: int) -> int
        recommends
            m <= self.exp,
    {
        self.signed_mant() * pow(10, (self.exp - m) as nat)
    }
}

/// The smaller of two integers.
pub open spec fn min2(a: int, b: int) -> int {
    if a <= b {
        a
    } else {
        b
    }
}

/// Strict order on denoted score values: both values are expressed in units of
/// the smaller power of ten, where both are integers, and compared there.
pub open spec fn score_lt(a: Score, b: Score) -> bool {
    a.units(min2(a.exp as int, b.exp as int)) < b.units(min2(a.exp as int, b.exp as int))
}

/// Non-strict order on denoted score values.
pub open spec fn score_le(a: Score, b: Score) -> bool {
    !score_lt(b, a)
}

/// Equality of denoted score values.
pub open spec fn score_eqv(a: Score, b: Score) -> bool {
    a.units(min2(a.exp as int, b.exp as int)) == b.units(min2(a.exp as int, b.exp as int))
}

/// Re-expressing a value in a finer unit multiplies the integer of units by
/// the corresponding power of ten.
proof fn lemma_units_scale(s: Score, m1: int, m2: int)
    requires
        m1 <= m2 <= s.exp,
    ensures
        s.units(m1) == s.units(m2) * pow(10, (m2 - m1) as nat),
{
    lemma_pow_adds(10, (s.exp - m2) as nat, (m2 - m1) as nat);
    assert(pow(10, (s.exp - m1) as nat) == pow(10, (s.exp - m2) as nat) * pow(
        10,
        (m2 - m1) as nat,
    ));
    assert(s.signed_mant() * (pow(10, (s.exp - m2) as nat) * pow(10, (m2 - m1) as nat)) == (
    s.signed_mant() * pow(10, (s.exp - m2) as nat)) * pow(10, (m2 - m1) as nat))
        by (nonlinear_arith);
}

/// The comparison of two scores may be made in any common unit `10^m`, not
/// only the coarsest one: the outcome is the same.
pub proof fn lemma_cmp_common(a: Score, b: Score, m: int)
    requires
        m <= a.exp,
        m <= b.exp,
    ensures
        score_lt(a, b) <==> a.units(m) < b.units(m),
        score_eqv(a, b) <==> a.units(m) == b.units(m),
{
    let m0 = min2(a.exp as int, b.exp as int);
    let p = pow(10, (m0 - m) as nat);
    lemma_pow_positive(10, (m0 - m) as nat);
    lemma_units_scale(a, m, m0);
    lemma_units_scale(b, m, m0);
    assert((a.units(m0) * p < b.units(m0) * p) <==> a.units(m0) < b.units(m0))
        by (nonlinear_arith)
        requires
            p > 0,
    ;
    assert((a.units(m0) * p == b.units(m0) * p) <==> a.units(m0) == b.units(m0))
        by (nonlinear_arith)
        requires
            p > 0,
    ;
}

/// The score order is a total preorder: `score_lt` and `score_le` are
/// transitive, mixed chains stay strict, and any two scores are comparable.
pub proof fn lemma_score_order(a: Score, b: Score, c: Score)
    ensures
        score_lt(a, b) && score_lt(b, c) ==> score_lt(a, c),
        score_le(a, b) && score_le(b, c) ==> score_le(a, c),
        score_le(a, b) && score_lt(b, c) ==> score_lt(a, c),
        score_lt(a, b) && score_le(b, c) ==> score_lt(a, c),
        score_lt(a, b) ==> score_le(a, b),
        score_le(a, b) || score_le(b, a),
        score_eqv(a, b) <==> (score_le(a, b) && score_le(b, a)),
{
    let m = min2(min2(a.exp as int, b.exp as int), c.exp as int);
    lemma_cmp_common(a, b, m);
    lemma_cmp_common(b, c, m);
    lemma_cmp_common(a, c, m);
    lemma_cmp_common(b, a, m);
    lemma_cmp_common(c, b, m);
    lemma_cmp_common(c, a, m);
}

/// Concrete powers of ten used by the executable comparison.
proof fn lemma_pow10_vals()
    ensures
        pow(10, 18) == 1_000_000_000_000_000_000,
        pow(10, 19) == MANT_LIMIT as int,
{
    reveal_with_fuel(pow, 20);
}

/// Multiplies a mantissa by a small power of ten, exactly.
fn scale_mant(xm: u64, d: u32) -> (r: u128)
    requires
        xm < MANT_LIMIT,
        d <= 18,
    ensures
        r == xm as int * pow(10, d as nat),
{
    proof {
        lemma_pow0(10);
    }
    let mut acc: u128 = xm as u128;
    let mut i: u32 = 0;
    while i < d
        invariant
            i <= d <= 18,
            xm < MANT_LIMIT,
            acc == xm as int * pow(10, i as nat),
        decreases d - i,
    {
        proof {
            lemma_pow10_vals();
            lemma_pow_positive(10, i as nat);
            lemma_pow_increases(10, i as nat, 18);
            assert(xm as int * pow(10, i as nat) <= (MANT_LIMIT - 1) as int * pow(10, 18))
                by (nonlinear_arith)
                requires
                    0 <= xm as int <= (MANT_LIMIT - 1) as int,
                    0 <= pow(10, i as nat) <= pow(10, 18),
            ;
            assert((xm as int * pow(10, i as nat)) * 10 == xm as int * (pow(10, i as nat) * 10))
                by (nonlinear_arith);
            assert(pow(10, (i + 1) as nat) == 10 * pow(10, i as nat)) by {
                reveal(pow);
            }
        }
        acc = acc * 10;
        i = i + 1;
    }
    acc
}

/// Compares the magnitudes `am * 10^ae` and `bm * 10^be` of two nonzero
/// scores, without their signs.
fn mag_lt(am: u64, ae: i32, bm: u64, be: i32) -> (r: bool)
    requires
        0 < am < MANT_LIMIT,
        0 < bm < MANT_LIMIT,
    ensures
        r == (am as int * pow(10, (ae - min2(ae as int, be as int)) as nat) < bm as int * pow(
            10,
            (be - min2(ae as int, be as int)) as nat,
        )),
{
    if ae >= be {
        let d: i64 = (ae as i64) - (be as i64);
        proof {
            lemma_pow0(10);
        }
        if d >= 19 {
            proof {
                lemma_pow10_vals();
                lemma_pow_increases(10, 19, (ae - be) as nat);
                assert(am as int * pow(10, (ae - be) as nat) >= 1 * pow(10, (ae - be) as nat))
                    by (nonlinear_arith)
                    requires
                        am as int >= 1,
                        pow(10, (ae - be) as nat) > 0,
                ;
            }
            false
        } else {
            let scaled = scale_mant(am, d as u32);
            scaled < (bm as u128)
        }
    } else {
        let d: i64 = (be as i64) - (ae as i64);
        proof {
            lemma_pow0(10);
        }
        if d >= 19 {
            proof {
                lemma_pow10_vals();
                lemma_pow_increases(10, 19, (be - ae) as nat);
                assert(bm as int * pow(10, (be - ae) as nat) >= 1 * pow(10, (be - ae) as nat))
                    by (nonlinear_arith)
                    requires
                        bm as int >= 1,
                        pow(10, (be - ae) as nat) > 0,
                ;
            }
            true
        } else {
            let scaled = scale_mant(bm, d as u32);
            (am as u128) < scaled
        }
    }
}

impl Score {
    /// Executable strict comparison of denoted values: true when `self`
    /// denotes a strictly smaller value than `other`.
    pub fn lt(&self, other: &Score) -> (r: bool)
        requires
            self.wf(),
            other.wf(),
        ensures
            r == score_lt(*self, *other),
    {
        proof {
            let m = min2(self.exp as int, other.exp as int);
            lemma_pow_positive(10, (self.exp - m) as nat);
            lemma_pow_positive(10, (other.exp - m) as nat);
            assert(self.units(m) == if self.neg {
                -(self.mant as int * pow(10, (self.exp - m) as nat))
            } else {
                self.mant as int * pow(10, (self.exp - m) as nat)
            }) by (nonlinear_arith)
                requires
                    self.signed_mant() == if self.neg {
                        -(self.mant as int)
                    } else {
                        self.mant as int
                    },
                    self.units(m) == self.signed_mant() * pow(10, (self.exp - m) as nat),
            ;
            assert(other.units(m) == if other.neg {
                -(other.mant as int * pow(10, (other.exp - m) as nat))
            } else {
                other.mant as int * pow(10, (other.exp - m) as nat)
            }) by (nonlinear_arith)
                requires
                    other.signed_mant() == if other.neg {
                        -(other.mant as int)
                    } else {
                        other.mant as int
                    },
                    other.units(m) == other.signed_mant() * pow(10, (other.exp - m) as nat),
            ;
            assert(self.mant == 0 ==> self.units(m) == 0) by (nonlinear_arith)
                requires
                    self.units(m) == self.signed_mant() * pow(10, (self.exp - m) as nat),
                    self.mant == 0 ==> self.signed_mant() == 0,
            ;
            assert(other.mant == 0 ==> other.units(m) == 0) by (nonlinear_arith)
                requires
                    other.units(m) == other.signed_mant() * pow(10, (other.exp - m) as nat),
                    other.mant == 0 ==> other.signed_mant() == 0,
            ;
            assert(self.mant > 0 && !self.neg ==> self.units(m) > 0) by (nonlinear_arith)
                requires
                    self.mant > 0 && !self.neg ==> self.signed_mant() >= 1 && pow(
                        10,
                        (self.exp - m) as nat,
                    ) >= 1,
            ;
            assert(self.mant > 0 && self.neg ==> self.units(m) < 0) by (nonlinear_arith)
                requires
                    self.mant > 0 && self.neg ==> self.signed_mant() <= -1 && pow(
                        10,
                        (self.exp - m) as nat,
                    ) >= 1,
            ;
            assert(other.mant > 0 && !other.neg ==> other.units(m) > 0) by (nonlinear_arith)
                requires
                    other.mant > 0 && !other.neg ==> other.signed_mant() >= 1 && pow(
                        10,
                        (other.exp - m) as nat,
                    ) >= 1,
            ;
            assert(other.mant > 0 && other.neg ==> other.units(m) < 0) by (nonlinear_arith)
                requires
                    other.mant > 0 && other.neg ==> other.signed_mant() <= -1 && pow(
                        10,
                        (other.exp - m) as nat,
                    ) >= 1,
            ;
        }
        if self.mant == 0 && other.mant == 0 {
            false
        } else if self.mant == 0 {
            !other.neg
        } else if other.mant == 0 {
            self.neg
        } else if self.neg && !other.neg {
            true
        } else if !self.neg && other.neg {
            false
        } else if !self.neg {
            mag_lt(self.mant, self.exp, other.mant, other.exp)
        } else {
            proof {
                let m = min2(self.exp as int, other.exp as int);
                assert(min2(other.exp as int, self.exp as int) == m);
            }
            mag_lt(other.mant, other.exp, self.mant, self.exp)
        }
    }
}

} // verus!
