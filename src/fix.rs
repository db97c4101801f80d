//! Signed fixed-point numbers: an `i32` scaled by `2^FRAC_BITS`.
use vstd::prelude::*;

verus! {

/// Number of fractional bits of a [`Fix`].
pub const FRAC_BITS: u32 = 23;

/// The raw value of `1.0`, that is `2^FRAC_BITS`.
pub const ONE_RAW: i32 = 8388608;

/// Whether a mathematical integer fits in an `i32`.
pub open spec fn fits_i32(v: int) -> bool {
    i32::MIN <= v <= i32::MAX
}

/// Fixed-point product of two raw values: the exact product scaled back
/// by `2^FRAC_BITS`, rounded toward negative infinity.
pub open spec fn fmul(a: int, b: int) -> int {
    (a * b) / (ONE_RAW as int)
}

/// A fixed-point number; its value is `self.0 / 2^FRAC_BITS`.
#[derive(Clone, Copy, Debug, PartialEq, Eq, Structural, PartialOrd, Ord, Hash)]
pub struct Fix(pub i32);

/// An arithmetic shift right by `FRAC_BITS` is a floor division by `2^FRAC_BITS`.
proof fn lemma_shr_floor(p: i64)
    ensures
        (p >> 23i64) as int == (p as int) / (ONE_RAW as int),
{
    let q = p >> 23i64;
    let r = p & 8388607i64;
    assert(q == p >> 23i64 && r == p & 8388607i64 ==> p == q * 8388608 + r) by (bit_vector);
    assert(r == p & 8388607i64 ==> 0 <= r < 8388608) by (bit_vector);
    vstd::arithmetic::div_mod::lemma_fundamental_div_mod_converse(
        p as int,
        8388608,
        q as int,
        r as int,
    );
}

impl Fix {
    /// Exact sum.
    pub fn add(self, other: Fix) -> (r: Fix)
        requires
            fits_i32(self.0 + other.0),
        ensures
            r.0 == self.0 + other.0,
    {
        Fix(self.0 + other.0)
    }

    /// Exact difference.
    pub fn sub(self, other: Fix) -> (r: Fix)
        requires
            fits_i32(self.0 - other.0),
        ensures
            r.0 == self.0 - other.0,
    {
        Fix(self.0 - other.0)
    }

    /// Product: computed in 64 bits, then shifted right by `FRAC_BITS`.
    pub fn mul(self, other: Fix) -> (r: Fix)
        requires
            fits_i32(fmul(self.0 as int, other.0 as int)),
        ensures
            r.0 == fmul(self.0 as int, other.0 as int),
    {
        proof {
            let (a, b) = (self.0 as int, other.0 as int);
            assert(-0x4000_0000_0000_0000 <= a * b <= 0x4000_0000_0000_0000) by (nonlinear_arith)
                requires
                    i32::MIN <= a <= i32::MAX,
                    i32::MIN <= b <= i32::MAX,
            ;
        }
        let p: i64 = (self.0 as i64) * (other.0 as i64);
        let q: i64 = p >> 23i64;
        proof {
            lemma_shr_floor(p);
        }
        Fix(q as i32)
    }
}

/// Adding then subtracting the same value gives back the first operand.
pub proof fn lemma_add_sub_cancel(a: Fix, b: Fix)
    requires
        fits_i32(a.0 + b.0),
    ensures
        fits_i32((a.0 + b.0) - b.0),
        (a.0 + b.0) - b.0 == a.0,
{
}

/// Multiplying by one leaves a value unchanged.
pub proof fn lemma_mul_one(a: Fix)
    ensures
        fits_i32(fmul(a.0 as int, ONE_RAW as int)),
        fmul(a.0 as int, ONE_RAW as int) == a.0,
{
    vstd::arithmetic::div_mod::lemma_div_multiples_vanish(a.0 as int, ONE_RAW as int);
    vstd::arithmetic::mul::lemma_mul_is_commutative(a.0 as int, ONE_RAW as int);
}

} // verus!
