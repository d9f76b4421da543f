//! Binary32 numbers held by bit pattern, with their order.
//!
//! The crate never does arithmetic on them: it stores, selects and compares.

use vstd::arithmetic::power2::*;
use vstd::prelude::*;

verus! {

/// A binary32 number, as its IEEE 754 bit pattern.
#[derive(Clone, Copy, Debug, PartialEq, Eq, Structural, Hash)]
pub struct F32 {
    pub bits: u32,
}

/// The pattern without its sign bit.
pub open spec fn magnitude_bits(bits: u32) -> int {
    bits as int % 0x8000_0000
}

/// The magnitude of a pattern in units of two to the minus 149, the smallest
/// positive number of the format. Infinity lies above every finite number.
pub open spec fn scaled_magnitude(mag: int) -> int {
    let exponent = mag / 0x80_0000;
    let fraction = mag % 0x80_0000;
    if exponent <= 0 {
        fraction
    } else {
        (fraction + 0x80_0000) * pow2((exponent - 1) as nat)
    }
}

impl F32 {
    /// Not a number: the largest exponent with a fraction.
    pub open spec fn is_nan_spec(self) -> bool {
        magnitude_bits(self.bits) > 0x7f80_0000
    }

    /// The number in units of two to the minus 149.
    pub open spec fn scaled(self) -> int {
        if self.bits < 0x8000_0000 {
            scaled_magnitude(magnitude_bits(self.bits))
        } else {
            -scaled_magnitude(magnitude_bits(self.bits))
        }
    }

    /// IEEE `self <= other`: false as soon as one side is not a number.
    pub open spec fn le_spec(self, other: F32) -> bool {
        !self.is_nan_spec() && !other.is_nan_spec() && self.scaled() <= other.scaled()
    }

    /// IEEE `self < other`.
    pub open spec fn lt_spec(self, other: F32) -> bool {
        !self.is_nan_spec() && !other.is_nan_spec() && self.scaled() < other.scaled()
    }

    /// IEEE `self == other`: both zeros are equal, nothing equals a NaN.
    pub open spec fn same_spec(self, other: F32) -> bool {
        !self.is_nan_spec() && !other.is_nan_spec() && self.scaled() == other.scaled()
    }

    pub fn is_nan(self) -> (r: bool)
        ensures
            r == self.is_nan_spec(),
    {
        self.bits % 0x8000_0000 > 0x7f80_0000
    }

    /// The position of a pattern in the order of the numbers.
    fn rank(self) -> (r: i64)
        ensures
            self.bits < 0x8000_0000 ==> r == magnitude_bits(self.bits),
            self.bits >= 0x8000_0000 ==> r == -magnitude_bits(self.bits),
    {
        let mag: i64 = (self.bits % 0x8000_0000) as i64;
        if self.bits < 0x8000_0000 {
            mag
        } else {
            -mag
        }
    }

    pub fn le(self, other: F32) -> (r: bool)
        ensures
            r == self.le_spec(other),
    {
        proof {
            lemma_rank_orders(self, other);
            lemma_rank_orders(other, self);
        }
        !self.is_nan() && !other.is_nan() && self.rank() <= other.rank()
    }

    pub fn lt(self, other: F32) -> (r: bool)
        ensures
            r == self.lt_spec(other),
    {
        proof {
            lemma_rank_orders(self, other);
            lemma_rank_orders(other, self);
        }
        !self.is_nan() && !other.is_nan() && self.rank() < other.rank()
    }

    pub fn same(self, other: F32) -> (r: bool)
        ensures
            r == self.same_spec(other),
    {
        proof {
            lemma_rank_orders(self, other);
            lemma_rank_orders(other, self);
        }
        !self.is_nan() && !other.is_nan() && self.rank() == other.rank()
    }

    /// The number moved into `low..=high`; a NaN stays what it is.
    pub fn clamp(self, low: F32, high: F32) -> (r: F32)
        requires
            low.le_spec(high),
        ensures
            r == self.clamp_spec(low, high),
    {
        if self.lt(low) {
            low
        } else if high.lt(self) {
            high
        } else {
            self
        }
    }

    pub open spec fn at_least_spec(self, low: F32) -> F32 {
        if self.is_nan_spec() || self.lt_spec(low) {
            low
        } else {
            self
        }
    }

    /// The number, or `low` where it is smaller or a NaN.
    pub fn at_least(self, low: F32) -> (r: F32)
        ensures
            r == self.at_least_spec(low),
    {
        if self.is_nan() || self.lt(low) {
            low
        } else {
            self
        }
    }

    pub open spec fn clamp_spec(self, low: F32, high: F32) -> F32 {
        if self.lt_spec(low) {
            low
        } else if high.lt_spec(self) {
            high
        } else {
            self
        }
    }
}

/// A larger pattern is a larger magnitude.
proof fn lemma_magnitude_monotone(a: int, b: int)
    requires
        0 <= a < b < 0x8000_0000,
    ensures
        0 <= scaled_magnitude(a) < scaled_magnitude(b),
{
    let ea = a / 0x80_0000;
    let eb = b / 0x80_0000;
    let fa = a % 0x80_0000;
    let fb = b % 0x80_0000;
    if ea > 0 {
        lemma_pow2_pos((ea - 1) as nat);
        let pa = pow2((ea - 1) as nat);
        assert(0 < (fa + 0x80_0000) * pa) by (nonlinear_arith)
            requires
                pa > 0,
                fa >= 0,
        ;
        if ea == eb {
            assert((fa + 0x80_0000) * pa < (fb + 0x80_0000) * pa) by (nonlinear_arith)
                requires
                    pa > 0,
                    fa < fb,
            ;
        } else {
            let pb = pow2((eb - 1) as nat);
            lemma_pow2_unfold(ea as nat);
            if eb - 1 > ea {
                lemma_pow2_strictly_increases(ea as nat, (eb - 1) as nat);
            }
            assert(2 * pa <= pb);
            assert((fa + 0x80_0000) * pa < 0x100_0000 * pa) by (nonlinear_arith)
                requires
                    pa > 0,
                    fa < 0x80_0000,
            ;
            assert(0x100_0000 * pa <= (fb + 0x80_0000) * pb) by (nonlinear_arith)
                requires
                    2 * pa <= pb,
                    pa > 0,
                    fb >= 0,
            ;
        }
    } else if eb > 0 {
        lemma_pow2_pos((eb - 1) as nat);
        let pb = pow2((eb - 1) as nat);
        assert(0x80_0000 <= (fb + 0x80_0000) * pb) by (nonlinear_arith)
            requires
                pb >= 1,
                fb >= 0,
        ;
    }
}

/// Comparing signed patterns compares the numbers.
proof fn lemma_rank_orders(a: F32, b: F32)
    ensures
        ({
            let ra = if a.bits < 0x8000_0000 { magnitude_bits(a.bits) } else { -magnitude_bits(a.bits) };
            let rb = if b.bits < 0x8000_0000 { magnitude_bits(b.bits) } else { -magnitude_bits(b.bits) };
            ra < rb <==> a.scaled() < b.scaled()
        }),
{
    let ma = magnitude_bits(a.bits);
    let mb = magnitude_bits(b.bits);
    if ma < mb {
        lemma_magnitude_monotone(ma, mb);
    } else if mb < ma {
        lemma_magnitude_monotone(mb, ma);
    }
    if ma > 0 {
        lemma_magnitude_monotone(0, ma);
    }
    if mb > 0 {
        lemma_magnitude_monotone(0, mb);
    }
}

/// Of two positive patterns the larger one is the larger number.
pub proof fn lemma_bits_order(a: u32, b: u32)
    requires
        a <= b <= 0x7f80_0000,
    ensures
        (F32 { bits: a }).le_spec(F32 { bits: b }),
        a < b ==> (F32 { bits: a }).lt_spec(F32 { bits: b }),
{
    lemma_rank_orders(F32 { bits: b }, F32 { bits: a });
    lemma_rank_orders(F32 { bits: a }, F32 { bits: b });
}

/// A negative number is at most a positive one.
pub proof fn lemma_signs_order(a: u32, b: u32)
    requires
        0x8000_0000 <= a <= 0xff80_0000,
        b <= 0x7f80_0000,
    ensures
        (F32 { bits: a }).le_spec(F32 { bits: b }),
        a < b ==> (F32 { bits: a }).lt_spec(F32 { bits: b }),
{
    lemma_rank_orders(F32 { bits: b }, F32 { bits: a });
    lemma_rank_orders(F32 { bits: a }, F32 { bits: b });
}

/// Of two negative patterns the larger one is the smaller number.
pub proof fn lemma_negatives_order(a: u32, b: u32)
    requires
        0x8000_0000 <= b <= a <= 0xff80_0000,
    ensures
        (F32 { bits: a }).le_spec(F32 { bits: b }),
        a < b ==> (F32 { bits: a }).lt_spec(F32 { bits: b }),
{
    lemma_rank_orders(F32 { bits: b }, F32 { bits: a });
    lemma_rank_orders(F32 { bits: a }, F32 { bits: b });
}

/// The order of the numbers is total away from NaN: of two numbers one is at
/// most the other.
pub proof fn law_order_is_total(a: F32, b: F32)
    requires
        !a.is_nan_spec(),
        !b.is_nan_spec(),
    ensures
        a.le_spec(b) || b.le_spec(a),
        a.le_spec(b) && b.le_spec(a) <==> a.same_spec(b),
{
}

/// Positive patterns rise with their numbers and negative ones fall, negative
/// numbers lie below positive ones, the two zeros are equal, and nothing is
/// compared with what is no number.
pub proof fn law_patterns_order_numbers(a: u32, b: u32)
    ensures
        a <= 0x7f80_0000 && b <= 0x7f80_0000 ==> (F32 { bits: a }).le_spec(F32 { bits: b }) == (a
            <= b) && (F32 { bits: a }).lt_spec(F32 { bits: b }) == (a < b),
        0x8000_0000 <= a <= 0xff80_0000 && 0x8000_0000 <= b <= 0xff80_0000 ==> (F32 {
            bits: a,
        }).le_spec(F32 { bits: b }) == (b <= a),
        0x8000_0000 <= a <= 0xff80_0000 && b <= 0x7f80_0000 ==> (F32 { bits: a }).le_spec(
            F32 { bits: b },
        ),
        0x8000_0000 < a <= 0xff80_0000 && b <= 0x7f80_0000 ==> (F32 { bits: a }).lt_spec(
            F32 { bits: b },
        ),
        (F32 { bits: 0 }).same_spec(F32 { bits: 0x8000_0000 }),
        0x7f80_0000 < a < 0x8000_0000 || a > 0xff80_0000 ==> !(F32 { bits: a }).le_spec(
            F32 { bits: b },
        ) && !(F32 { bits: b }).le_spec(F32 { bits: a }) && !(F32 { bits: a }).same_spec(
            F32 { bits: a },
        ) && !(F32 { bits: a }).lt_spec(F32 { bits: b }) && !(F32 { bits: b }).lt_spec(
            F32 { bits: a },
        ),
{
    lemma_rank_orders(F32 { bits: a }, F32 { bits: b });
    lemma_rank_orders(F32 { bits: b }, F32 { bits: a });
}

/// A number is moved to the nearer limit where it lies beyond one, and stays
/// where it does not; what is no number stays when limited on both sides, and
/// becomes the least when limited from below.
pub proof fn law_limits_hold(v: F32, low: F32, high: F32)
    requires
        low.le_spec(high),
    ensures
        v.lt_spec(low) ==> v.clamp_spec(low, high) == low && v.at_least_spec(low) == low,
        high.lt_spec(v) ==> v.clamp_spec(low, high) == high,
        low.le_spec(v) ==> v.at_least_spec(low) == v,
        low.le_spec(v) && v.le_spec(high) ==> v.clamp_spec(low, high) == v,
        v.is_nan_spec() ==> v.clamp_spec(low, high) == v && v.at_least_spec(low) == low,
{
}

} // verus!
