//! Scalars as IEEE-754 binary32 bit patterns.
//!
//! Every scalar of the renderer crosses this library as the `u32` pattern that
//! encodes it. Ordering, classification and exponent tricks are decided here on
//! the pattern; arithmetic is done by the functions that callers hand in.

use vstd::prelude::*;

verus! {

/// The pattern of `0.0`.
pub const ZERO: u32 = 0x0000_0000;

/// The pattern of `1.0`.
pub const ONE: u32 = 0x3F80_0000;

/// The pattern of positive infinity.
pub const INFINITY: u32 = 0x7F80_0000;

/// The sign bit.
pub const SIGN_BIT: u32 = 0x8000_0000;

/// Added to half a pattern, gives the starting point of a square root.
pub const SQRT_BIAS: u32 = 0x1FBB_4F2E;

/// `1.0e-12`: vectors shorter than this have no direction.
pub const MIN_LENGTH: u32 = 0x2B8C_BCCC;

/// Three scalars: a point, a direction or a colour.
#[derive(Clone, Copy, Debug, Default, PartialEq, Eq, Structural)]
pub struct Vec3 {
    pub x: u32,
    pub y: u32,
    pub z: u32,
}

/// The triple of zeros.
pub open spec fn zero3() -> Vec3 {
    Vec3 { x: ZERO, y: ZERO, z: ZERO }
}

/// The pattern without its sign.
pub open spec fn magnitude(x: u32) -> int {
    if x < SIGN_BIT {
        x as int
    } else {
        x - SIGN_BIT
    }
}

/// Whether the pattern encodes no number.
pub open spec fn is_nan(x: u32) -> bool {
    magnitude(x) > INFINITY
}

/// Whether the pattern encodes a finite number.
pub open spec fn finite(x: u32) -> bool {
    magnitude(x) < INFINITY
}

/// The position of the pattern among all numbers, zero being at 0.
pub open spec fn rank(x: u32) -> int {
    if x < SIGN_BIT {
        x as int
    } else {
        SIGN_BIT - x
    }
}

/// `x < y`, false as soon as either is no number.
pub open spec fn lt(x: u32, y: u32) -> bool {
    !is_nan(x) && !is_nan(y) && rank(x) < rank(y)
}

/// `x <= y`, false as soon as either is no number.
pub open spec fn le(x: u32, y: u32) -> bool {
    !is_nan(x) && !is_nan(y) && rank(x) <= rank(y)
}

/// The number that a finite pattern encodes, in units of `2^-149`.
pub open spec fn scaled_value(x: u32) -> int {
    if x < SIGN_BIT {
        scaled_magnitude(magnitude(x))
    } else {
        -scaled_magnitude(magnitude(x))
    }
}

/// The absolute value that a finite magnitude encodes, in units of `2^-149`:
/// the fraction alone in the lowest binade, else the fraction with its hidden
/// bit, shifted by the exponent.
pub open spec fn scaled_magnitude(m: int) -> int {
    if m < 0x80_0000 {
        m
    } else {
        (m % 0x80_0000 + 0x80_0000) * vstd::arithmetic::power2::pow2((m / 0x80_0000 - 1) as nat)
    }
}

proof fn lemma_scaled_magnitude_increases(a: int, b: int)
    requires
        0 <= a < b,
    ensures
        scaled_magnitude(a) < scaled_magnitude(b),
{
    broadcast use vstd::arithmetic::power2::lemma_pow2_pos;

    if b >= 0x80_0000 {
        let eb = (b / 0x80_0000 - 1) as nat;
        let pb = vstd::arithmetic::power2::pow2(eb) as int;
        let fb = b % 0x80_0000 + 0x80_0000;
        assert(pb >= 1);
        if a < 0x80_0000 {
            assert(fb * pb >= 0x80_0000) by (nonlinear_arith)
                requires
                    fb >= 0x80_0000,
                    pb >= 1,
            ;
        } else {
            let ea = (a / 0x80_0000 - 1) as nat;
            let pa = vstd::arithmetic::power2::pow2(ea) as int;
            let fa = a % 0x80_0000 + 0x80_0000;
            assert(pa >= 1);
            if ea == eb {
                assert(fa < fb);
                assert(fa * pa < fb * pb) by (nonlinear_arith)
                    requires
                        fa < fb,
                        pa == pb,
                        pa >= 1,
                ;
            } else {
                assert(ea + 1 <= eb);
                vstd::arithmetic::power2::lemma_pow2_unfold((ea + 1) as nat);
                if ea + 1 < eb {
                    vstd::arithmetic::power2::lemma_pow2_strictly_increases((ea + 1) as nat, eb);
                }
                assert(2 * pa <= pb);
                assert(fa * pa < fb * pb) by (nonlinear_arith)
                    requires
                        0 <= fa < 0x100_0000,
                        fb >= 0x80_0000,
                        pa >= 1,
                        2 * pa <= pb,
                ;
            }
        }
    }
}

/// Comparing patterns compares the numbers they encode: of two finite patterns
/// one is below the other exactly when its number is.
pub proof fn law_order_is_numeric(x: u32, y: u32)
    requires
        finite(x),
        finite(y),
    ensures
        lt(x, y) <==> scaled_value(x) < scaled_value(y),
        le(x, y) <==> scaled_value(x) <= scaled_value(y),
{
    let (a, b) = (magnitude(x), magnitude(y));
    if a < b {
        lemma_scaled_magnitude_increases(a, b);
    }
    if b < a {
        lemma_scaled_magnitude_increases(b, a);
    }
    if 0 < a {
        lemma_scaled_magnitude_increases(0, a);
    }
    if 0 < b {
        lemma_scaled_magnitude_increases(0, b);
    }
}

/// Whether `x` is neither infinite nor NaN.
pub fn is_finite(x: u32) -> (r: bool)
    ensures
        r == finite(x),
{
    abs(x) < INFINITY
}

/// The pattern of `|x|`.
pub fn abs(x: u32) -> (r: u32)
    ensures
        r == magnitude(x),
{
    if x < SIGN_BIT {
        x
    } else {
        x - SIGN_BIT
    }
}

/// `x < y`.
pub fn less(x: u32, y: u32) -> (r: bool)
    ensures
        r == lt(x, y),
{
    if abs(x) > INFINITY || abs(y) > INFINITY {
        return false;
    }
    if x < SIGN_BIT {
        y < SIGN_BIT && x < y
    } else if y < SIGN_BIT {
        x != SIGN_BIT || y != ZERO
    } else {
        y < x
    }
}

/// `x <= y`.
pub fn less_or_equal(x: u32, y: u32) -> (r: bool)
    ensures
        r == le(x, y),
{
    if abs(x) > INFINITY || abs(y) > INFINITY {
        return false;
    }
    !less(y, x)
}

/// Whether `r` comes out of three `refine` steps towards the root of `x`, the
/// first of which starts at half the pattern plus the bias.
pub open spec fn refined_root<F: Fn(u32, u32) -> u32>(refine: F, x: u32, r: u32) -> bool {
    exists|s1: u32, s2: u32|
        refine.ensures(((x / 2 + SQRT_BIAS) as u32, x), s1) && #[trigger] refine.ensures((s1, x), s2)
            && refine.ensures((s2, x), r)
}

/// The square root of `x`: zero for zero and below, else a bit-level estimate
/// improved by three `refine(s, x)` steps (Newton-Raphson in every use).
pub fn sqrt_f32<F: Fn(u32, u32) -> u32>(x: u32, refine: F) -> (r: u32)
    requires
        forall|s: u32| refine.requires((s, x)),
    ensures
        le(x, ZERO) ==> r == ZERO,
        !le(x, ZERO) ==> refined_root(refine, x, r),
{
    if less_or_equal(x, ZERO) {
        return ZERO;
    }
    let start: u32 = x / 2 + SQRT_BIAS;
    let first: u32 = refine(start, x);
    let second: u32 = refine(first, x);
    let third: u32 = refine(second, x);
    assert(refine.ensures((first, x), second));
    third
}

/// The vector `a` of length `l` scaled to unit length, each component by
/// `divide(x, l)`; `short` if it is too short to have a direction.
pub fn normalise3<D: Fn(u32, u32) -> u32>(a: Vec3, l: u32, short: Vec3, divide: D) -> (r: Vec3)
    requires
        forall|x: u32| divide.requires((x, l)),
    ensures
        lt(l, MIN_LENGTH) ==> r == short,
        !lt(l, MIN_LENGTH) ==> divide.ensures((a.x, l), r.x) && divide.ensures((a.y, l), r.y)
            && divide.ensures((a.z, l), r.z),
{
    if less(l, MIN_LENGTH) {
        return short;
    }
    Vec3 { x: divide(a.x, l), y: divide(a.y, l), z: divide(a.z, l) }
}

/// Calls of `less` and `less_or_equal` compare finite numbers by the values that they
/// encode, put every finite number between the infinities, and find no order where
/// there is no number.
pub proof fn law_calls_compare(x: u32, y: u32, l: bool, e: bool)
    requires
        call_ensures(less, (x, y), l),
        call_ensures(less_or_equal, (x, y), e),
    ensures
        finite(x) && finite(y) ==> l == (scaled_value(x) < scaled_value(y)) && e == (scaled_value(x)
            <= scaled_value(y)),
        x % 0x8000_0000 > 0x7F80_0000 || y % 0x8000_0000 > 0x7F80_0000 ==> !l && !e,
        x % 0x8000_0000 < 0x7F80_0000 && y == 0x7F80_0000 ==> l && e,
        x == 0xFF80_0000 && y % 0x8000_0000 < 0x7F80_0000 ==> l && e,
        x == 0xFF80_0000 && y == 0x7F80_0000 ==> l && e,
        x == 0x7F80_0000 && y % 0x8000_0000 <= 0x7F80_0000 ==> !l && (e <==> y == x),
        y == 0xFF80_0000 && x % 0x8000_0000 <= 0x7F80_0000 ==> !l && (e <==> y == x),
{
    if finite(x) && finite(y) {
        law_order_is_numeric(x, y);
    }
}

/// A call of `abs` drops the sign: the value of a finite number becomes its distance
/// from zero.
pub proof fn law_call_abs(x: u32, r: u32)
    requires
        call_ensures(abs, (x,), r),
    ensures
        r == x % 0x8000_0000,
        scaled_value(r) == scaled_value(x) || scaled_value(r) == -scaled_value(x),
        scaled_value(r) >= 0,
{
    if magnitude(x) > 0 {
        lemma_scaled_magnitude_increases(0, magnitude(x));
    }
}

/// A call of `is_finite` looks for an exponent that is not all ones.
pub proof fn law_call_is_finite(x: u32, r: bool)
    requires
        call_ensures(is_finite, (x,), r),
    ensures
        r <==> x / 0x80_0000 % 0x100 != 0xFF,
{
}

/// A call of `sqrt_f32` refines its starting point three times, if there is a root to
/// be found; else it returns zero.
pub proof fn law_call_refines_thrice<F: Fn(u32, u32) -> u32>(
    x: u32,
    refine: F,
    step: spec_fn(u32) -> u32,
    r: u32,
)
    requires
        call_ensures(sqrt_f32::<F>, (x, refine), r),
        forall|s: u32, t: u32| #[trigger] refine.ensures((s, x), t) ==> t == step(s),
    ensures
        !le(x, ZERO) ==> r == step(step(step((x / 2 + 0x1FBB_4F2E) as u32))),
        le(x, ZERO) ==> r == ZERO,
{
}

/// A call of `normalise3` divides every component by the length, unless that is below
/// `1.0e-12`.
pub proof fn law_call_normalises<D: Fn(u32, u32) -> u32>(
    a: Vec3,
    l: u32,
    short: Vec3,
    divide: D,
    quotient: spec_fn(u32) -> u32,
    r: Vec3,
)
    requires
        call_ensures(normalise3::<D>, (a, l, short, divide), r),
        forall|x: u32, q: u32| #[trigger] divide.ensures((x, l), q) ==> q == quotient(x),
    ensures
        !lt(l, MIN_LENGTH) ==> r == (Vec3 {
            x: quotient(a.x),
            y: quotient(a.y),
            z: quotient(a.z),
        }),
        lt(l, MIN_LENGTH) ==> r == short,
{
}

} // verus!
