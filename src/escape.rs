//! Escape-time membership test for the Mandelbrot set, in fixed point.
use vstd::prelude::*;
use crate::fix::{Fix, fmul, fits_i32, ONE_RAW};

verus! {

/// Raw value of `2.0`.
pub const TWO_RAW: i32 = 16777216;

/// Raw value of `4.0`, the escape threshold on `|z|^2`.
pub const FOUR_RAW: i32 = 33554432;

/// Real part of the centre of the disk that approximates the main cardioid (`-0.265625`).
pub const BIG_CENTER_RE: i32 = -2228224;

/// Squared radius of the disk that approximates the main cardioid (`0.25`).
pub const BIG_RADIUS_SQ: i32 = 2097152;

/// Real part of the centre of the period-2 bulb (`-1.0`).
pub const SMALL_CENTER_RE: i32 = -8388608;

/// Squared radius of the disk of the period-2 bulb (`0.0625`).
pub const SMALL_RADIUS_SQ: i32 = 524288;

/// Iteration budget of the escape-time test.
pub const MAX_ITER: u32 = 1000;

/// Largest magnitude of either coordinate of a sample (raw value of `3.0`).
pub const SAMPLE_BOUND: i32 = 25165824;

/// Bound on either coordinate of an orbit that has not escaped (raw value of `11.0`).
pub const ORBIT_BOUND: i32 = 92274688;

/// A sample whose coordinates both lie in `[-3.0, 3.0]`.
pub open spec fn in_sample_range(c_re: int, c_im: int) -> bool {
    -SAMPLE_BOUND <= c_re <= SAMPLE_BOUND && -SAMPLE_BOUND <= c_im <= SAMPLE_BOUND
}

/// The fixed-point squared distance from `(c_re, c_im)` to `(center_re, 0)` is below `radius_sq`.
pub open spec fn in_disk(c_re: int, c_im: int, center_re: int, radius_sq: int) -> bool {
    fmul(c_re - center_re, c_re - center_re) + fmul(c_im, c_im) < radius_sq
}

/// The sample lies in one of the two disks that are accepted without iterating.
pub open spec fn fast_accept(c_re: int, c_im: int) -> bool {
    in_disk(c_re, c_im, BIG_CENTER_RE as int, BIG_RADIUS_SQ as int) || in_disk(
        c_re,
        c_im,
        SMALL_CENTER_RE as int,
        SMALL_RADIUS_SQ as int,
    )
}

/// One step `z <- z^2 + c` in fixed point, in the order of operations used by the evaluator.
pub open spec fn step(z: (int, int), c_re: int, c_im: int) -> (int, int) {
    (
        fmul(z.0, z.0) - fmul(z.1, z.1) + c_re,
        fmul(fmul(TWO_RAW as int, z.0), z.1) + c_im,
    )
}

/// The `k`-th iterate of `z <- z^2 + c` from `z = 0`.
pub open spec fn orbit(c_re: int, c_im: int, k: nat) -> (int, int)
    decreases k,
{
    if k == 0 {
        (0, 0)
    } else {
        step(orbit(c_re, c_im, (k - 1) as nat), c_re, c_im)
    }
}

/// The fixed-point `|z|^2` exceeds `4.0`.
pub open spec fn exceeds(z: (int, int)) -> bool {
    fmul(z.0, z.0) + fmul(z.1, z.1) > FOUR_RAW
}

/// One of the iterates `0 .. n - 1` exceeds the threshold.
pub open spec fn escapes_within(c_re: int, c_im: int, n: nat) -> bool
    decreases n,
{
    n > 0 && (escapes_within(c_re, c_im, (n - 1) as nat) || exceeds(orbit(c_re, c_im, (n - 1) as nat)))
}

/// The sample is classified as a member of the set.
pub open spec fn is_member(c_re: int, c_im: int) -> bool {
    fast_accept(c_re, c_im) || !escapes_within(c_re, c_im, MAX_ITER as nat)
}

/// The fast-path disks are symmetric about the real axis: a sample and its
/// conjugate are both accepted without iterating, or neither is.
pub proof fn lemma_fast_accept_conjugate(c_re: int, c_im: int)
    ensures
        fast_accept(c_re, c_im) == fast_accept(c_re, -c_im),
{
    assert((-c_im) * (-c_im) == c_im * c_im) by (nonlinear_arith);
}

/// The product in the imaginary update of iterate `j` is a whole multiple of
/// `2^FRAC_BITS`, so rescaling it does not round.
pub open spec fn im_step_exact(c_re: int, c_im: int, j: nat) -> bool {
    (fmul(TWO_RAW as int, orbit(c_re, c_im, j).0) * orbit(c_re, c_im, j).1) % (ONE_RAW as int) == 0
}

/// Negating a whole multiple of `d` commutes with dividing by `d`.
proof fn lemma_neg_div_exact(x: int, d: int)
    requires
        0 < d,
        x % d == 0,
    ensures
        (-x) / d == -(x / d),
{
    vstd::arithmetic::div_mod::lemma_fundamental_div_mod(x, d);
    vstd::arithmetic::mul::lemma_mul_unary_negation(d, x / d);
    vstd::arithmetic::div_mod::lemma_fundamental_div_mod_converse(-x, d, -(x / d), 0);
}

/// While no imaginary update rounds, the orbit of the conjugate is the mirrored orbit.
proof fn lemma_orbit_conjugate(c_re: int, c_im: int, k: nat)
    requires
        forall|j: nat| j < k ==> #[trigger] im_step_exact(c_re, c_im, j),
    ensures
        orbit(c_re, -c_im, k) == (orbit(c_re, c_im, k).0, -orbit(c_re, c_im, k).1),
    decreases k,
{
    if k > 0 {
        let j = (k - 1) as nat;
        lemma_orbit_conjugate(c_re, c_im, j);
        assert(im_step_exact(c_re, c_im, j));
        let (a, b) = orbit(c_re, c_im, j);
        let t = fmul(TWO_RAW as int, a);
        assert((-b) * (-b) == b * b) by (nonlinear_arith);
        assert(t * (-b) == -(t * b)) by (nonlinear_arith);
        lemma_neg_div_exact(t * b, ONE_RAW as int);
    }
}

/// While no imaginary update rounds, a sample and its conjugate escape alike.
proof fn lemma_escapes_conjugate(c_re: int, c_im: int, n: nat)
    requires
        forall|j: nat| j < n ==> #[trigger] im_step_exact(c_re, c_im, j),
    ensures
        escapes_within(c_re, c_im, n) == escapes_within(c_re, -c_im, n),
    decreases n,
{
    if n > 0 {
        let j = (n - 1) as nat;
        lemma_escapes_conjugate(c_re, c_im, j);
        lemma_orbit_conjugate(c_re, c_im, j);
        let b = orbit(c_re, c_im, j).1;
        assert((-b) * (-b) == b * b) by (nonlinear_arith);
    }
}

/// A sample and its conjugate are classified alike whenever none of the products of
/// the imaginary update over the iteration budget needs rounding. (With rounding
/// toward negative infinity the two orbits can drift apart otherwise.)
pub proof fn lemma_member_conjugate(c_re: int, c_im: int)
    requires
        forall|j: nat| j < MAX_ITER ==> #[trigger] im_step_exact(c_re, c_im, j),
    ensures
        is_member(c_re, c_im) == is_member(c_re, -c_im),
{
    lemma_fast_accept_conjugate(c_re, c_im);
    lemma_escapes_conjugate(c_re, c_im, MAX_ITER as nat);
}

/// Escaping within `m` iterations implies escaping within any larger budget.
proof fn lemma_escapes_monotone(c_re: int, c_im: int, m: nat, n: nat)
    requires
        m <= n,
        escapes_within(c_re, c_im, m),
    ensures
        escapes_within(c_re, c_im, n),
    decreases n,
{
    if m < n {
        lemma_escapes_monotone(c_re, c_im, m, (n - 1) as nat);
    }
}

/// Bounds on a product from bounds on its factors.
proof fn lemma_mul_abs_bound(a: int, b: int, ma: int, mb: int)
    requires
        -ma <= a <= ma,
        -mb <= b <= mb,
    ensures
        -(ma * mb) <= a * b <= ma * mb,
{
    assert(-(ma * mb) <= a * b <= ma * mb) by (nonlinear_arith)
        requires
            -ma <= a <= ma,
            -mb <= b <= mb,
    ;
}

/// Bounds on a fixed-point product from a bound `k * ONE_RAW^2` on the exact product.
proof fn lemma_fmul_bound(a: int, b: int, k: int)
    requires
        0 <= k,
        -(k * ONE_RAW * ONE_RAW) <= a * b <= k * ONE_RAW * ONE_RAW,
    ensures
        -(k * ONE_RAW) <= fmul(a, b) <= k * ONE_RAW,
{
    let s = ONE_RAW as int;
    assert(k * s * s == (k * s) * s) by (nonlinear_arith);
    assert(-(k * s * s) == (-(k * s)) * s) by (nonlinear_arith);
    vstd::arithmetic::div_mod::lemma_div_multiples_vanish(k * s, s);
    vstd::arithmetic::div_mod::lemma_div_multiples_vanish(-(k * s), s);
    vstd::arithmetic::mul::lemma_mul_is_commutative(k * s, s);
    vstd::arithmetic::mul::lemma_mul_is_commutative(-(k * s), s);
    vstd::arithmetic::div_mod::lemma_div_is_ordered(a * b, k * s * s, s);
    vstd::arithmetic::div_mod::lemma_div_is_ordered(-(k * s * s), a * b, s);
}

/// A fixed-point square is never negative.
proof fn lemma_fmul_square_nonneg(a: int)
    ensures
        fmul(a, a) >= 0,
{
    assert(a * a >= 0) by (nonlinear_arith);
    vstd::arithmetic::div_mod::lemma_div_pos_is_pos(a * a, ONE_RAW as int);
}

/// A coordinate whose fixed-point square is at most `4.0` lies in `[-2.0, 2.0]`.
proof fn lemma_square_small(a: int)
    requires
        fmul(a, a) <= FOUR_RAW,
    ensures
        -2 * ONE_RAW <= a <= 2 * ONE_RAW,
{
    let s = ONE_RAW as int;
    vstd::arithmetic::div_mod::lemma_fundamental_div_mod(a * a, s);
    vstd::arithmetic::div_mod::lemma_mod_bound(a * a, s);
    assert(a * a < 4 * s * s + s) by (nonlinear_arith)
        requires
            a * a == s * ((a * a) / s) + (a * a) % s,
            (a * a) % s < s,
            (a * a) / s <= 4 * s,
            s > 0,
    ;
    if a > 2 * s || a < -2 * s {
        assert(a * a >= (2 * s + 1) * (2 * s + 1)) by (nonlinear_arith)
            requires
                a > 2 * s || a < -2 * s,
                s > 0,
        ;
        assert(false) by (nonlinear_arith)
            requires
                a * a >= (2 * s + 1) * (2 * s + 1),
                a * a < 4 * s * s + s,
                s > 0,
        ;
    }
}

/// Within the orbit bound, every intermediate value of the exceed test fits in an `i32`.
proof fn lemma_exceeds_fits(zr: int, zi: int)
    requires
        -ORBIT_BOUND <= zr <= ORBIT_BOUND,
        -ORBIT_BOUND <= zi <= ORBIT_BOUND,
    ensures
        0 <= fmul(zr, zr) <= 121 * ONE_RAW,
        0 <= fmul(zi, zi) <= 121 * ONE_RAW,
        fits_i32(fmul(zr, zr) + fmul(zi, zi)),
{
    lemma_mul_abs_bound(zr, zr, ORBIT_BOUND as int, ORBIT_BOUND as int);
    lemma_mul_abs_bound(zi, zi, ORBIT_BOUND as int, ORBIT_BOUND as int);
    lemma_fmul_bound(zr, zr, 121);
    lemma_fmul_bound(zi, zi, 121);
    lemma_fmul_square_nonneg(zr);
    lemma_fmul_square_nonneg(zi);
}

/// An iterate that has not exceeded the threshold steps to one within the orbit bound,
/// and every intermediate value of the step fits in an `i32`.
proof fn lemma_step_fits(zr: int, zi: int, c_re: int, c_im: int)
    requires
        in_sample_range(c_re, c_im),
        fmul(zr, zr) + fmul(zi, zi) <= FOUR_RAW,
    ensures
        fits_i32(fmul(zr, zr) - fmul(zi, zi)),
        fits_i32(fmul(TWO_RAW as int, zr)),
        fits_i32(fmul(fmul(TWO_RAW as int, zr), zi)),
        -ORBIT_BOUND <= step((zr, zi), c_re, c_im).0 <= ORBIT_BOUND,
        -ORBIT_BOUND <= step((zr, zi), c_re, c_im).1 <= ORBIT_BOUND,
{
    let s = ONE_RAW as int;
    lemma_fmul_square_nonneg(zr);
    lemma_fmul_square_nonneg(zi);
    lemma_square_small(zr);
    lemma_square_small(zi);
    lemma_mul_abs_bound(TWO_RAW as int, zr, 2 * s, 2 * s);
    lemma_fmul_bound(TWO_RAW as int, zr, 4);
    let t = fmul(TWO_RAW as int, zr);
    lemma_mul_abs_bound(t, zi, 4 * s, 2 * s);
    lemma_fmul_bound(t, zi, 8);
}

/// Whether the sample lies in one of the two disks that are accepted without iterating.
pub fn in_fast_disks(c_re: Fix, c_im: Fix) -> (r: bool)
    requires
        in_sample_range(c_re.0 as int, c_im.0 as int),
    ensures
        r == fast_accept(c_re.0 as int, c_im.0 as int),
{
    let ghost s = ONE_RAW as int;
    let zero = Fix(0);
    let small_center_x = Fix(SMALL_CENTER_RE);
    let small_center_y = zero;
    let small_radius_sq = Fix(SMALL_RADIUS_SQ);
    let big_center_x = Fix(BIG_CENTER_RE);
    let big_center_y = zero;
    let big_radius_sq = Fix(BIG_RADIUS_SQ);

    let dx_small = c_re.sub(small_center_x);
    let dy_small = c_im.sub(small_center_y);
    let dx_big = c_re.sub(big_center_x);
    let dy_big = c_im.sub(big_center_y);
    proof {
        lemma_mul_abs_bound(dx_small.0 as int, dx_small.0 as int, 4 * s, 4 * s);
        lemma_fmul_bound(dx_small.0 as int, dx_small.0 as int, 16);
        lemma_mul_abs_bound(dx_big.0 as int, dx_big.0 as int, 4 * s, 4 * s);
        lemma_fmul_bound(dx_big.0 as int, dx_big.0 as int, 16);
        lemma_mul_abs_bound(c_im.0 as int, c_im.0 as int, 3 * s, 3 * s);
        lemma_fmul_bound(c_im.0 as int, c_im.0 as int, 9);
    }
    let dist_big = dx_big.mul(dx_big).add(dy_big.mul(dy_big));
    if dist_big.0 < big_radius_sq.0 {
        return true;
    }
    let dist_small = dx_small.mul(dx_small).add(dy_small.mul(dy_small));
    dist_small.0 < small_radius_sq.0
}

/// Iterates `z <- z^2 + c` from `z = 0` at most `MAX_ITER` times; false as soon as
/// `|z|^2` exceeds `4.0` (tested before each step), true if it never does.
pub fn orbit_stays_bounded(c_re: Fix, c_im: Fix) -> (r: bool)
    requires
        in_sample_range(c_re.0 as int, c_im.0 as int),
    ensures
        r == !escapes_within(c_re.0 as int, c_im.0 as int, MAX_ITER as nat),
{
    let ghost cr = c_re.0 as int;
    let ghost ci = c_im.0 as int;
    let zero = Fix(0);
    let two = Fix(TWO_RAW);
    let four = Fix(FOUR_RAW);
    let mut z_re = zero;
    let mut z_im = zero;
    let mut i: u32 = 0;
    while i < MAX_ITER
        invariant
            in_sample_range(cr, ci),
            cr == c_re.0,
            ci == c_im.0,
            i <= MAX_ITER,
            two.0 == TWO_RAW,
            four.0 == FOUR_RAW,
            (z_re.0 as int, z_im.0 as int) == orbit(cr, ci, i as nat),
            -ORBIT_BOUND <= z_re.0 <= ORBIT_BOUND,
            -ORBIT_BOUND <= z_im.0 <= ORBIT_BOUND,
            !escapes_within(cr, ci, i as nat),
        decreases MAX_ITER - i,
    {
        proof {
            lemma_exceeds_fits(z_re.0 as int, z_im.0 as int);
        }
        let norm = z_re.mul(z_re).add(z_im.mul(z_im));
        let ghost z = orbit(cr, ci, i as nat);
        assert(norm.0 == fmul(z.0, z.0) + fmul(z.1, z.1));
        if norm.0 > four.0 {
            assert(exceeds(z));
            assert(escapes_within(cr, ci, (i + 1) as nat));
            proof {
                lemma_escapes_monotone(cr, ci, (i + 1) as nat, MAX_ITER as nat);
            }
            return false;
        }
        proof {
            lemma_step_fits(z_re.0 as int, z_im.0 as int, cr, ci);
        }
        let z_re_next = z_re.mul(z_re).sub(z_im.mul(z_im)).add(c_re);
        z_im = two.mul(z_re).mul(z_im).add(c_im);
        z_re = z_re_next;
        assert(!escapes_within(cr, ci, (i + 1) as nat));
        assert(orbit(cr, ci, (i + 1) as nat) == step(z, cr, ci));
        i = i + 1;
    }
    true
}

/// Membership test: the fast-path disks first, then the bounded iteration.
pub fn is_mandelbrot_member(c_re: Fix, c_im: Fix) -> (r: bool)
    requires
        in_sample_range(c_re.0 as int, c_im.0 as int),
    ensures
        r == is_member(c_re.0 as int, c_im.0 as int),
{
    if in_fast_disks(c_re, c_im) {
        return true;
    }
    orbit_stays_bounded(c_re, c_im)
}

} // verus!
