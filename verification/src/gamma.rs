//! How close the gamma approximation of the render kernel comes to the exact root.

use vstd::arithmetic::power::pow;
use vstd::arithmetic::power2::pow2;
use vstd::prelude::*;

use crate::ieee::{scaled_value, ONE};
use crate::render_kernel::gamma22;

verus! {

// ---------------------------------------------------------------------------
// Arithmetic and geometric mean
// ---------------------------------------------------------------------------

proof fn lemma_pow_nonnegative(b: int, e: nat)
    requires
        b >= 0,
    ensures
        pow(b, e) >= 0,
        b > 0 ==> pow(b, e) > 0,
    decreases e,
{
    reveal(pow);
    if e > 0 {
        lemma_pow_nonnegative(b, (e - 1) as nat);
        let p = pow(b, (e - 1) as nat);
        assert(b * p >= 0 && (b > 0 && p > 0 ==> b * p > 0)) by (nonlinear_arith)
            requires
                b >= 0,
                p >= 0,
        ;
    }
}

/// A power lies above its tangent at `a`.
proof fn lemma_tangent(n: nat, t: int, a: int)
    requires
        t >= 0,
        a >= 0,
    ensures
        pow(t, n + 1) + n * pow(a, n + 1) >= (n + 1) * pow(a, n) * t,
    decreases n,
{
    reveal(pow);
    if n == 0 {
        assert(pow(t, 1) == t * pow(t, 0));
        assert(pow(a, 0) == 1 && pow(t, 0) == 1);
        assert(0 * pow(a, 1) == 0) by (nonlinear_arith);
        assert((0 + 1) * 1 * t == t) by (nonlinear_arith);
        assert(t * 1 == t) by (nonlinear_arith);
    } else {
        let m = (n - 1) as nat;
        lemma_tangent(m, t, a);
        let (p, q) = (pow(t, n), pow(a, m));
        lemma_pow_nonnegative(a, m);
        assert(pow(t, n + 1) == t * p);
        assert(pow(a, n) == a * q);
        assert(pow(a, n + 1) == a * (a * q));
        lemma_tangent_step(n as int, t, a, p, q);
    }
}

proof fn lemma_tangent_step(n: int, t: int, a: int, p: int, q: int)
    requires
        p + (n - 1) * (a * q) >= n * q * t,
        n >= 1,
        t >= 0,
        q >= 0,
    ensures
        t * p + n * (a * (a * q)) >= (n + 1) * (a * q) * t,
{
    let (d, w, z) = (t - a, a * q, n * q);
    assert(t * p >= t * (z * t - (n - 1) * w)) by (nonlinear_arith)
        requires
            p >= z * t - (n - 1) * w,
            t >= 0,
    ;
    assert(z * (d * d) >= 0) by (nonlinear_arith)
        requires
            n >= 1,
            q >= 0,
            z == n * q,
    ;
    assert(n * w == z * a) by (nonlinear_arith)
        requires
            z == n * q,
            w == a * q,
    ;
    assert((n - 1) * w == z * a - w) by (nonlinear_arith)
        requires
            n * w == z * a,
    ;
    assert((n + 1) * w == z * a + w) by (nonlinear_arith)
        requires
            n * w == z * a,
    ;
    assert(n * (a * w) == z * (a * a)) by (nonlinear_arith)
        requires
            n * w == z * a,
    ;
    assert(t * (z * t - (z * a - w)) + z * (a * a) - (z * a + w) * t == z * (d * d))
        by (nonlinear_arith)
        requires
            d == t - a,
    ;
}

/// One more number keeps the geometric mean at or below the arithmetic one: `n`
/// numbers have the sum `s` and the product `p`, and `x` joins them.
proof fn lemma_mean_extended(n: nat, s: int, p: int, x: int)
    requires
        n >= 1,
        s >= 0,
        x >= 0,
        p * pow(n as int, n) <= pow(s, n),
    ensures
        p * x * pow(n as int + 1, n + 1) <= pow(s + x, n + 1),
{
    let (m, k) = (n as int, n as int + 1);
    assert(m * (s + x) >= 0 && k * s >= 0) by (nonlinear_arith)
        requires
            m >= 1,
            k >= 1,
            s >= 0,
            x >= 0,
    ;
    lemma_tangent(n, m * (s + x), k * s);
    vstd::arithmetic::power::lemma_pow_distributes(m, s + x, n + 1);
    vstd::arithmetic::power::lemma_pow_distributes(k, s, n + 1);
    vstd::arithmetic::power::lemma_pow_distributes(k, s, n);
    reveal(pow);
    let (mn, kn, sn, r) = (pow(m, n), pow(k, n), pow(s, n), pow(s + x, n + 1));
    assert(pow(m, n + 1) == m * mn);
    assert(pow(k, n + 1) == k * kn);
    assert(pow(s, n + 1) == s * sn);
    lemma_pow_nonnegative(m, n);
    lemma_pow_nonnegative(k, n);
    assert(mn * r >= k * kn * sn * x) by (nonlinear_arith)
        requires
            (m * mn) * r + m * ((k * kn) * (s * sn)) >= k * (kn * sn) * (m * (s + x)),
            m >= 1,
    {
        let c = k * kn * sn;
        assert(k * (kn * sn) == c) by (nonlinear_arith)
            requires
                c == k * kn * sn,
        ;
        assert((k * kn) * (s * sn) == c * s) by (nonlinear_arith)
            requires
                c == k * kn * sn,
        ;
        assert(c * (m * (s + x)) - m * (c * s) == m * (c * x)) by (nonlinear_arith);
        assert(m * (mn * r) >= m * (k * kn * sn * x)) by (nonlinear_arith)
            requires
                (m * mn) * r >= m * (k * kn * sn * x),
        ;
    }
    assert(p * x * (k * kn) <= r) by (nonlinear_arith)
        requires
            p * mn <= sn,
            mn * r >= k * kn * sn * x,
            mn > 0,
            kn > 0,
            k >= 1,
            x >= 0,
    {
        let y = x * (k * kn);
        assert(y >= 0) by (nonlinear_arith)
            requires
                x >= 0,
                k >= 1,
                kn > 0,
                y == x * (k * kn),
        ;
        assert((p * mn) * y <= sn * y) by (nonlinear_arith)
            requires
                p * mn <= sn,
                y >= 0,
        ;
        assert(sn * y == k * kn * sn * x) by (nonlinear_arith)
            requires
                y == x * (k * kn),
        ;
        assert((p * mn) * y == mn * (p * x * (k * kn))) by (nonlinear_arith)
            requires
                y == x * (k * kn),
        ;
        let z = p * x * (k * kn);
        assert(z <= r) by (nonlinear_arith)
            requires
                mn * z <= mn * r,
                mn > 0,
        ;
    }
}

/// As many more copies of one number as wanted keep the means in order.
proof fn lemma_mean_copies(n: nat, s: int, p: int, x: int, c: nat)
    requires
        n >= 1,
        s >= 0,
        x >= 0,
        p * pow(n as int, n) <= pow(s, n),
    ensures
        p * pow(x, c) * pow((n + c) as int, n + c) <= pow(s + c * x, n + c),
    decreases c,
{
    reveal(pow);
    if c == 0 {
        assert(pow(x, 0) == 1);
        assert(p * 1 == p && 0 * x == 0) by (nonlinear_arith);
    } else {
        let d = (c - 1) as nat;
        lemma_mean_copies(n, s, p, x, d);
        let q = p * pow(x, d);
        assert(s + d * x >= 0) by (nonlinear_arith)
            requires
                s >= 0,
                x >= 0,
                d >= 0,
        ;
        lemma_mean_extended(n + d, s + d * x, q, x);
        assert(s + d * x + x == s + c * x) by (nonlinear_arith)
            requires
                c == d + 1,
        ;
        let y = pow(x, d);
        assert(pow(x, c) == x * y);
        assert(p * y * x == p * (x * y)) by (nonlinear_arith);
    }
}

/// The inequality of the means for five, `j` and `k` copies of three numbers.
proof fn lemma_means(a: int, b: int, j: nat, c: int, k: nat)
    requires
        a >= 0,
        b >= 0,
        c >= 0,
        5 + j + k == 11,
    ensures
        pow(a, 5) * pow(b, j) * pow(c, k) * pow(11, 11) <= pow(5 * a + j * b + k * c, 11),
{
    reveal(pow);
    assert(pow(a, 1) == a * pow(a, 0));
    assert(pow(1, 1) == 1 * pow(1, 0));
    assert(a * 1 == a) by (nonlinear_arith);
    lemma_mean_copies(1, a, a, a, 4);
    assert(a + 4 * a == 5 * a) by (nonlinear_arith);
    assert(a * pow(a, 4) == pow(a, 5));
    lemma_mean_copies(5, 5 * a, pow(a, 5), b, j);
    assert(j * b >= 0) by (nonlinear_arith)
        requires
            b >= 0,
            j >= 0,
    ;
    lemma_mean_copies(5 + j, 5 * a + j * b, pow(a, 5) * pow(b, j), c, k);
}

// ---------------------------------------------------------------------------
// Upper bound
// ---------------------------------------------------------------------------

proof fn lemma_pow_monotone(a: int, b: int, e: nat)
    requires
        0 <= a <= b,
    ensures
        pow(a, e) <= pow(b, e),
    decreases e,
{
    reveal(pow);
    if e > 0 {
        let d = (e - 1) as nat;
        lemma_pow_monotone(a, b, d);
        lemma_pow_nonnegative(a, d);
        let (p, q) = (pow(a, d), pow(b, d));
        assert(a * p <= b * q) by (nonlinear_arith)
            requires
                0 <= a <= b,
                0 <= p <= q,
        ;
    }
}

/// Where `x * u^11` exceeds `y * v^5` but not at an end, `u` is steep against it.
proof fn lemma_steep(x: int, y: int, ue: int, ve: int, u: int, v: int)
    requires
        x > 0,
        y > 0,
        ue > 0,
        ve > 0,
        u > 0,
        v > 0,
        x * pow(ue, 11) <= y * pow(ve, 5),
        x * pow(u, 11) > y * pow(v, 5),
    ensures
        11 * ue * v < u * (5 * ve + 6 * v),
{
    let s = 5 * ve + 6 * v;
    reveal(pow);
    assert(pow(0, 0) == 1);
    lemma_means(ve, v, 6, 0, 0);
    assert(5 * ve + 6 * v + 0 * 0 == s);
    let (a, b, c, d) = (pow(ue, 11), pow(ve, 5), pow(v, 5), pow(v, 6));
    let (e, f, g) = (pow(11, 11), pow(s, 11), pow(u, 11));
    assert(b * d * e <= f) by (nonlinear_arith)
        requires
            b * d * 1 * e <= f,
    ;
    vstd::arithmetic::power::lemma_pow_adds(v, 5, 6);
    vstd::arithmetic::power::lemma_pow_distributes(11, ue, 11);
    vstd::arithmetic::power::lemma_pow_distributes(11 * ue, v, 11);
    vstd::arithmetic::power::lemma_pow_distributes(u, s, 11);
    let (l, r) = (pow(11 * ue * v, 11), pow(u * s, 11));
    assert(l == e * a * (c * d));
    assert(r == g * f);
    lemma_pow_nonnegative(v, 5);
    lemma_pow_nonnegative(v, 6);
    lemma_pow_nonnegative(s, 11);
    lemma_pow_nonnegative(11, 11);
    assert(x * l < x * r) by (nonlinear_arith)
        requires
            l == e * a * (c * d),
            r == g * f,
            x * a <= y * b,
            x * g > y * c,
            b * d * e <= f,
            c > 0,
            d > 0,
            e > 0,
            f > 0,
            y > 0,
    {
        let t = e * (c * d);
        assert(t > 0) by (nonlinear_arith)
            requires
                c > 0,
                d > 0,
                e > 0,
                t == e * (c * d),
        ;
        assert(x * l == (x * a) * t) by (nonlinear_arith)
            requires
                l == e * a * (c * d),
                t == e * (c * d),
        ;
        assert((x * a) * t <= (y * b) * t) by (nonlinear_arith)
            requires
                x * a <= y * b,
                t > 0,
        ;
        assert((y * b) * t == (y * c) * (b * d * e)) by (nonlinear_arith)
            requires
                t == e * (c * d),
        ;
        let z = y * c;
        assert(z > 0) by (nonlinear_arith)
            requires
                y > 0,
                c > 0,
                z == y * c,
        ;
        assert(z * (b * d * e) <= z * f) by (nonlinear_arith)
            requires
                b * d * e <= f,
                z > 0,
        ;
        assert(z * f < (x * g) * f) by (nonlinear_arith)
            requires
                z < x * g,
                f > 0,
        ;
        assert((x * g) * f == x * r) by (nonlinear_arith)
            requires
                r == g * f,
        ;
    }
    assert(l < r) by (nonlinear_arith)
        requires
            x * l < x * r,
            x > 0,
    ;
    if 11 * ue * v >= u * s {
        assert(u * s >= 0) by (nonlinear_arith)
            requires
                u > 0,
                s > 0,
        ;
        lemma_pow_monotone(u * s, 11 * ue * v, 11);
    }
}

/// `x * u^11 <= y * v^5` holds along a line segment if it holds at both ends.
proof fn lemma_between(
    x: int,
    y: int,
    ua: int,
    va: int,
    ub: int,
    vb: int,
    u: int,
    v: int,
)
    requires
        x > 0,
        y > 0,
        ua > 0,
        0 < va < vb,
        ub > 0,
        u > 0,
        va <= v <= vb,
        (vb - va) * u == (vb - v) * ua + (v - va) * ub,
        x * pow(ua, 11) <= y * pow(va, 5),
        x * pow(ub, 11) <= y * pow(vb, 5),
    ensures
        x * pow(u, 11) <= y * pow(v, 5),
{
    if x * pow(u, 11) > y * pow(v, 5) {
        lemma_steep(x, y, ua, va, u, v);
        lemma_steep(x, y, ub, vb, u, v);
        let (p, q, d) = (vb - v, v - va, vb - va);
        assert(p * (11 * ua * v) + q * (11 * ub * v) < p * (u * (5 * va + 6 * v)) + q * (u * (5 * vb
            + 6 * v))) by (nonlinear_arith)
            requires
                p >= 0,
                q >= 0,
                p + q > 0,
                11 * ua * v < u * (5 * va + 6 * v),
                11 * ub * v < u * (5 * vb + 6 * v),
        ;
        assert(p * (11 * ua * v) + q * (11 * ub * v) == 11 * v * (d * u)) by (nonlinear_arith)
            requires
                d * u == p * ua + q * ub,
        ;
        assert(p * va + q * vb == d * v) by (nonlinear_arith)
            requires
                p == vb - v,
                q == v - va,
                d == vb - va,
        ;
        assert(p * (u * (5 * va + 6 * v)) + q * (u * (5 * vb + 6 * v)) == u * (5 * (p * va + q * vb)
            + 6 * v * (p + q))) by (nonlinear_arith);
        assert(p + q == d);
        assert(u * (5 * (d * v) + 6 * v * d) == 11 * v * (d * u)) by (nonlinear_arith);
    }
}

/// `107^11`.
#[verifier::inline]
spec fn p107() -> int {
    21048519522998348950643
}

/// `100^11`.
#[verifier::inline]
spec fn p100() -> int {
    10000000000000000000000
}

/// `97^11`.
#[verifier::inline]
spec fn p97() -> int {
    7153014030880804126753
}

/// `11^11`.
#[verifier::inline]
spec fn p11() -> int {
    285311670611
}

/// Whether the upper bound holds at an end, in units of `2^15`.
#[verifier::inline]
spec fn end_fits(w: int, u: int, v: int) -> bool {
    w * p100() * (u * u * u * u * u * u * u * u * u * u * u) <= p107() * p11() * (v * v * v * v
        * v) * 0x800_0000_0000_0000
}

proof fn lemma_pow11(x: int)
    ensures
        pow(x, 11) == x * x * x * x * x * x * x * x * x * x * x,
        pow(x, 5) == x * x * x * x * x,
{
    reveal(pow);
    reveal_with_fuel(pow, 12);
    assert(pow(x, 5) == x * (x * (x * (x * (x * 1)))));
    assert(x * (x * (x * (x * (x * 1)))) == x * x * x * x * x) by (nonlinear_arith);
    vstd::arithmetic::power::lemma_pow_adds(x, 5, 6);
    vstd::arithmetic::power::lemma_pow_adds(x, 5, 1);
    assert(pow(x, 1) == x * 1);
    assert(x * 1 == x) by (nonlinear_arith);
    let f = x * x * x * x * x;
    assert(pow(x, 11) == f * (f * x));
    assert(f * (f * x) == x * x * x * x * x * x * x * x * x * x * x) by (nonlinear_arith)
        requires
            f == x * x * x * x * x,
    ;
}

proof fn lemma_units()
    ensures
        pow(32768, 5) > 0,
        pow2(149) * pow(32768, 5) == 0x800_0000_0000_0000 * pow(32768, 11),
        pow2(149) == 2048 * pow(0x80_0000, 6),
        pow(107, 11) == p107(),
        pow(100, 11) == p100(),
        pow(97, 11) == p97(),
        pow(11, 11) == p11(),
{
    broadcast use vstd::arithmetic::power2::lemma_pow2;
    broadcast use vstd::arithmetic::power2::lemma_pow2_pos;

    lemma_pow_nonnegative(32768, 5);
    vstd::arithmetic::power2::lemma2_to64();
    vstd::arithmetic::power2::lemma2_to64_rest();
    assert(pow(2, 15) == 32768) by {
        assert(pow2(15) == 32768);
    }
    assert(pow(2, 23) == 0x80_0000) by {
        assert(pow2(23) == 0x80_0000);
    }
    vstd::arithmetic::power::lemma_pow_multiplies(2, 15, 5);
    vstd::arithmetic::power::lemma_pow_multiplies(2, 15, 11);
    vstd::arithmetic::power::lemma_pow_multiplies(2, 23, 6);
    vstd::arithmetic::power2::lemma_pow2_adds(149, 75);
    vstd::arithmetic::power2::lemma_pow2_adds(59, 165);
    vstd::arithmetic::power2::lemma_pow2_adds(11, 138);
    assert(pow2(59) == 0x800_0000_0000_0000);
    assert(pow2(11) == 2048);
    lemma_pow11(107);
    lemma_pow11(100);
    lemma_pow11(97);
    lemma_pow11(11);
    assert(107int * 107 * 107 * 107 * 107 * 107 * 107 * 107 * 107 * 107 * 107 == p107())
        by (nonlinear_arith);
    assert(100int * 100 * 100 * 100 * 100 * 100 * 100 * 100 * 100 * 100 * 100
        == p100()) by (nonlinear_arith);
    assert(97int * 97 * 97 * 97 * 97 * 97 * 97 * 97 * 97 * 97 * 97 == p97())
        by (nonlinear_arith);
    assert(11int * 11 * 11 * 11 * 11 * 11 * 11 * 11 * 11 * 11 * 11 == p11()) by (nonlinear_arith);
}

/// The upper bound inside one binade of root and number, from that at both ends.
proof fn lemma_above(j: int, w: int, va: int, vb: int, n: int, m: int)
    requires
        w > 0,
        0 < va < vb,
        5 * va + 1553 - 256 * j > 0,
        va * 32768 <= m <= vb * 32768,
        n > 0,
        11 * n <= 5 * m + 0x300_0000 + 17 * 32768 - j * 0x80_0000,
        end_fits(w, 5 * va + 1553 - 256 * j, va),
        end_fits(w, 5 * vb + 1553 - 256 * j, vb),
    ensures
        pow(100, 11) * (w * pow(n, 11)) <= pow(107, 11) * (pow(m, 5) * pow2(149)),
{
    broadcast use vstd::arithmetic::power2::lemma_pow2_pos;

    lemma_units();
    let (ua, ub) = (5 * va + 1553 - 256 * j, 5 * vb + 1553 - 256 * j);
    let u = 5 * m + 0x300_0000 + 17 * 32768 - j * 0x80_0000;
    let x = w * pow(100, 11);
    let y = p107() * p11() * pow2(149);
    lemma_end(w, ua, va);
    lemma_end(w, ub, vb);
    assert(x > 0) by (nonlinear_arith)
        requires
            w > 0,
            x == w * p100(),
    ;
    let (l, r) = (vb * 32768 - m, m - va * 32768);
    assert((vb * 32768 - va * 32768) * u == l * (ua * 32768) + r * (ub * 32768))
        by (nonlinear_arith)
        requires
            l == vb * 32768 - m,
            r == m - va * 32768,
            ua == 5 * va + 1553 - 256 * j,
            ub == 5 * vb + 1553 - 256 * j,
            u == 5 * m + 0x300_0000 + 17 * 32768 - j * 0x80_0000,
    ;
    lemma_between(x, y, ua * 32768, va * 32768, ub * 32768, vb * 32768, u, m);
    lemma_pow_monotone(11 * n, u, 11);
    vstd::arithmetic::power::lemma_pow_distributes(11, n, 11);
    let (g, h, e) = (pow(n, 11), pow(m, 5), pow2(149) as int);
    let (big, root) = (pow(u, 11), pow(100, 11));
    assert(root * (w * g) <= p107() * (h * e)) by (nonlinear_arith)
        requires
            p11() * g <= big,
            w * root * big <= p107() * p11() * e * h,
            w * root > 0,
    {
        assert((w * root) * (p11() * g) <= (w * root) * big) by (nonlinear_arith)
            requires
                p11() * g <= big,
                w * root > 0,
        ;
        assert((w * root) * (p11() * g) == p11() * (root * (w * g)))
            by (nonlinear_arith);
        assert(p107() * p11() * e * h == p11() * (p107() * (h * e)))
            by (nonlinear_arith);
    }
}

/// An end of the upper bound, in units of one.
proof fn lemma_end(w: int, u: int, v: int)
    requires
        w > 0,
        u > 0,
        v > 0,
        end_fits(w, u, v),
    ensures
        w * pow(100, 11) * pow(u * 32768, 11) <= p107() * p11() * pow2(149) * pow(
            v * 32768,
            5,
        ),
{
    lemma_units();
    lemma_pow11(u);
    lemma_pow11(v);
    vstd::arithmetic::power::lemma_pow_distributes(u, 32768, 11);
    vstd::arithmetic::power::lemma_pow_distributes(v, 32768, 5);
    lemma_pow_nonnegative(32768, 11);
    let (a, b, c, d) = (pow(u, 11), pow(v, 5), pow(32768, 11), pow(32768, 5));
    let (e, f, g) = (pow2(149) as int, w * pow(100, 11), p107() * p11());
    assert(f * (a * c) <= g * e * (b * d)) by (nonlinear_arith)
        requires
            f * a <= g * b * 0x800_0000_0000_0000,
            e * d == 0x800_0000_0000_0000 * c,
            c > 0,
    {
        assert((f * a) * c <= (g * b * 0x800_0000_0000_0000) * c) by (nonlinear_arith)
            requires
                f * a <= g * b * 0x800_0000_0000_0000,
                c > 0,
        ;
        assert((f * a) * c == f * (a * c)) by (nonlinear_arith);
        assert((g * b * 0x800_0000_0000_0000) * c == (g * b) * (0x800_0000_0000_0000 * c))
            by (nonlinear_arith);
        assert((g * b) * (e * d) == g * e * (b * d)) by (nonlinear_arith);
    }
}

/// The upper bound on the digits of the root `n` of a number with digits `m`.
proof fn lemma_digits_above(j: int, n: int, m: int)
    requires
        0x80_0000 <= n < 0x100_0000,
        0x80_0000 <= m < 0x100_0000,
        0 <= 11 * n - (5 * m + 0x300_0000 - j * 0x80_0000) <= 17 * 32768,
    ensures
        -10 <= j <= 5,
        pow(100, 11) * (pow2((j + 11) as nat) * pow(n, 11)) <= pow(107, 11) * (pow(m, 5) * pow2(149)),
{
    vstd::arithmetic::power2::lemma2_to64();
    if j == -10 {
        assert(end_fits(2, 5393, 256)) by (nonlinear_arith);
        assert(end_fits(2, 5653, 308)) by (nonlinear_arith);
        lemma_above(j, 2, 256, 308, n, m);
    }
    if j == -9 {
        assert(end_fits(4, 5137, 256)) by (nonlinear_arith);
        assert(end_fits(4, 5652, 359)) by (nonlinear_arith);
        lemma_above(j, 4, 256, 359, n, m);
    }
    if j == -8 {
        assert(end_fits(8, 4881, 256)) by (nonlinear_arith);
        assert(end_fits(8, 5651, 410)) by (nonlinear_arith);
        lemma_above(j, 8, 256, 410, n, m);
    }
    if j == -7 {
        assert(end_fits(16, 4625, 256)) by (nonlinear_arith);
        assert(end_fits(16, 5650, 461)) by (nonlinear_arith);
        lemma_above(j, 16, 256, 461, n, m);
    }
    if j == -6 {
        assert(end_fits(32, 4369, 256)) by (nonlinear_arith);
        assert(end_fits(32, 5649, 512)) by (nonlinear_arith);
        lemma_above(j, 32, 256, 512, n, m);
    }
    if j == -5 {
        assert(end_fits(64, 4113, 256)) by (nonlinear_arith);
        assert(end_fits(64, 5393, 512)) by (nonlinear_arith);
        lemma_above(j, 64, 256, 512, n, m);
    }
    if j == -4 {
        assert(end_fits(128, 3857, 256)) by (nonlinear_arith);
        assert(end_fits(128, 5137, 512)) by (nonlinear_arith);
        lemma_above(j, 128, 256, 512, n, m);
    }
    if j == -3 {
        assert(end_fits(256, 3601, 256)) by (nonlinear_arith);
        assert(end_fits(256, 4881, 512)) by (nonlinear_arith);
        lemma_above(j, 256, 256, 512, n, m);
    }
    if j == -2 {
        assert(end_fits(512, 3345, 256)) by (nonlinear_arith);
        assert(end_fits(512, 4625, 512)) by (nonlinear_arith);
        lemma_above(j, 512, 256, 512, n, m);
    }
    if j == -1 {
        assert(end_fits(1024, 3089, 256)) by (nonlinear_arith);
        assert(end_fits(1024, 4369, 512)) by (nonlinear_arith);
        lemma_above(j, 1024, 256, 512, n, m);
    }
    if j == 0 {
        assert(end_fits(2048, 2833, 256)) by (nonlinear_arith);
        assert(end_fits(2048, 4113, 512)) by (nonlinear_arith);
        lemma_above(j, 2048, 256, 512, n, m);
    }
    if j == 1 {
        assert(end_fits(4096, 2812, 303)) by (nonlinear_arith);
        assert(end_fits(4096, 3857, 512)) by (nonlinear_arith);
        lemma_above(j, 4096, 303, 512, n, m);
    }
    if j == 2 {
        assert(end_fits(8192, 2816, 355)) by (nonlinear_arith);
        assert(end_fits(8192, 3601, 512)) by (nonlinear_arith);
        lemma_above(j, 8192, 355, 512, n, m);
    }
    if j == 3 {
        assert(end_fits(16384, 2815, 406)) by (nonlinear_arith);
        assert(end_fits(16384, 3345, 512)) by (nonlinear_arith);
        lemma_above(j, 16384, 406, 512, n, m);
    }
    if j == 4 {
        assert(end_fits(32768, 2814, 457)) by (nonlinear_arith);
        assert(end_fits(32768, 3089, 512)) by (nonlinear_arith);
        lemma_above(j, 32768, 457, 512, n, m);
    }
    if j == 5 {
        assert(end_fits(65536, 2813, 508)) by (nonlinear_arith);
        assert(end_fits(65536, 2833, 512)) by (nonlinear_arith);
        lemma_above(j, 65536, 508, 512, n, m);
    }
}

// ---------------------------------------------------------------------------
// Lower bound
// ---------------------------------------------------------------------------

/// The mean of five `m` and six `v`, compared with a share of `n`.
proof fn lemma_below(c: int, d: int, m: int, v: int, n: int)
    requires
        c > 0,
        d > 0,
        m > 0,
        v > 0,
        n > 0,
        d * (5 * m + 6 * v) <= c * (11 * n),
    ensures
        pow(d, 11) * (pow(m, 5) * pow(v, 6)) <= pow(c, 11) * pow(n, 11),
{
    reveal(pow);
    assert(pow(0, 0) == 1);
    lemma_means(m, v, 6, 0, 0);
    let s = 5 * m + 6 * v;
    assert(5 * m + 6 * v + 0 * 0 == s);
    let p = pow(m, 5) * pow(v, 6);
    let e = pow(11, 11);
    assert(p * e <= pow(s, 11)) by (nonlinear_arith)
        requires
            p * 1 * e <= pow(s, 11),
    ;
    assert(d * s >= 0) by (nonlinear_arith)
        requires
            d > 0,
            s > 0,
    ;
    lemma_pow_monotone(d * s, c * (11 * n), 11);
    vstd::arithmetic::power::lemma_pow_distributes(d, s, 11);
    vstd::arithmetic::power::lemma_pow_distributes(c, 11 * n, 11);
    vstd::arithmetic::power::lemma_pow_distributes(11, n, 11);
    lemma_pow_nonnegative(d, 11);
    lemma_pow_nonnegative(11, 11);
    let (f, g, h, q) = (pow(d, 11), pow(s, 11), pow(c, 11), pow(n, 11));
    assert(f * p <= h * q) by (nonlinear_arith)
        requires
            p * e <= g,
            f * g <= h * (e * q),
            f > 0,
            e > 0,
    {
        assert(f * (p * e) <= f * g) by (nonlinear_arith)
            requires
                p * e <= g,
                f > 0,
        ;
        assert(f * (p * e) == e * (f * p)) by (nonlinear_arith);
        assert(h * (e * q) == e * (h * q)) by (nonlinear_arith);
        assert(f * p <= h * q) by (nonlinear_arith)
            requires
                e * (f * p) <= e * (h * q),
                e > 0,
        ;
    }
}

/// `lemma_below` with `v` a multiple of one fifth of the hidden bit.
proof fn lemma_fifths(c: int, d: int, m: int, n: int)
    requires
        c > 0,
        d > 0,
        m > 0,
        n > 0,
        d * (25 * m + 6 * (c * 0x80_0000)) <= c * (55 * n),
    ensures
        pow(d, 11) * (3125 * (pow(m, 5) * pow(0x80_0000, 6))) <= pow(c, 5) * (pow(5, 11) * pow(n, 11)),
{
    let t: int = 0x80_0000;
    assert(5 * (5 * m) + 6 * (c * t) == 25 * m + 6 * (c * t));
    assert(c * (11 * (5 * n)) == c * (55 * n)) by (nonlinear_arith);
    lemma_below(c, d, 5 * m, c * t, 5 * n);
    vstd::arithmetic::power::lemma_pow_distributes(5, m, 5);
    vstd::arithmetic::power::lemma_pow_distributes(c, t, 6);
    vstd::arithmetic::power::lemma_pow_distributes(5, n, 11);
    vstd::arithmetic::power::lemma_pow_adds(c, 5, 6);
    lemma_pow11(5);
    assert(5int * 5 * 5 * 5 * 5 == 3125) by (nonlinear_arith);
    lemma_pow_nonnegative(c, 6);
    let (f, a, b, x, y) = (pow(d, 11), pow(m, 5), pow(t, 6), pow(c, 5), pow(c, 6));
    let z = pow(5, 11) * pow(n, 11);
    assert(f * (3125 * (a * b)) <= x * z) by (nonlinear_arith)
        requires
            f * (3125 * a * (y * b)) <= x * y * z,
            y > 0,
    {
        assert(f * (3125 * a * (y * b)) == y * (f * (3125 * (a * b)))) by (nonlinear_arith);
        assert(x * y * z == y * (x * z)) by (nonlinear_arith);
        assert(f * (3125 * (a * b)) <= x * z) by (nonlinear_arith)
            requires
                y * (f * (3125 * (a * b))) <= y * (x * z),
                y > 0,
        ;
    }
}

/// Turns a bound by fifths into one by hundredths.
proof fn lemma_hundredths(k: int, w: int, b: int, g: int)
    requires
        b >= 0,
        g >= 0,
        k > 0,
        w > 0,
        3125 * b <= k * g,
        p97() * k <= p100() * (3125 * w),
    ensures
        p97() * b <= p100() * (w * g),
{
    let q: int = p100();
    let r: int = p97();
    assert(3125 * (r * b) <= r * (k * g)) by (nonlinear_arith)
        requires
            3125 * b <= k * g,
            r > 0,
    ;
    assert(r * (k * g) == (r * k) * g) by (nonlinear_arith);
    assert((r * k) * g <= (q * (3125 * w)) * g) by (nonlinear_arith)
        requires
            r * k <= q * (3125 * w),
            g >= 0,
    ;
    assert((q * (3125 * w)) * g == 3125 * (q * (w * g))) by (nonlinear_arith);
}

/// The lower bound where the root leaves its binade at the lower end.
proof fn lemma_low_end(j: int, n: int, m: int)
    requires
        1 <= j <= 5,
        0x80_0000 <= n < 0x100_0000,
        0x80_0000 <= m < 0x100_0000,
        5 * m + 0x300_0000 - j * 0x80_0000 <= 11 * n,
    ensures
        p97() * (pow(m, 5) * pow(0x80_0000, 6)) <= p100() * (pow2(j as nat)
            * pow(n, 11)),
{
    let c = 5 + j;
    let t: int = 0x80_0000;
    assert(5 * (25 * m + 6 * (c * t)) <= c * (55 * n)) by (nonlinear_arith)
        requires
            c == 5 + j,
            1 <= j <= 5,
            t <= n,
            5 * m + 6 * t - j * t <= 11 * n,
    {
        if 5 * m <= c * t {
            assert(c * (55 * t) <= c * (55 * n)) by (nonlinear_arith)
                requires
                    t <= n,
                    c > 0,
            ;
        } else {
            assert(c * (5 * (5 * m + 6 * t - j * t)) <= c * (55 * n)) by (nonlinear_arith)
                requires
                    5 * m + 6 * t - j * t <= 11 * n,
                    c > 0,
            ;
            assert(c * (5 * (5 * m + 6 * t - j * t)) - 5 * (25 * m + 6 * (c * t)) == 5 * (j * (5 * m - c
                * t))) by (nonlinear_arith)
                requires
                    c == 5 + j,
            ;
            assert(j * (5 * m - c * t) >= 0) by (nonlinear_arith)
                requires
                    j >= 1,
                    5 * m > c * t,
            ;
        }
    }
    lemma_fifths(c, 5, m, n);
    lemma_pow_nonnegative(5, 11);
    lemma_pow_nonnegative(m, 5);
    lemma_pow_nonnegative(t, 6);
    lemma_pow_nonnegative(n, 11);
    lemma_pow_nonnegative(c, 5);
    let (f, b, k, g) = (pow(5, 11), pow(m, 5) * pow(t, 6), pow(c, 5), pow(n, 11));
    assert(b >= 0) by (nonlinear_arith)
        requires
            b == pow(m, 5) * pow(t, 6),
            pow(m, 5) > 0,
            pow(t, 6) > 0,
    ;
    assert(3125 * b <= k * g) by (nonlinear_arith)
        requires
            f * (3125 * b) <= k * (f * g),
            f > 0,
    {
        assert(k * (f * g) == f * (k * g)) by (nonlinear_arith);
        assert(3125 * b <= k * g) by (nonlinear_arith)
            requires
                f * (3125 * b) <= f * (k * g),
                f > 0,
        ;
    }
    vstd::arithmetic::power2::lemma2_to64();
    if j == 1 {
        lemma_pow11(6);
        assert(6int * 6 * 6 * 6 * 6 == 7776) by (nonlinear_arith);
        assert(p97() * 7776 <= p100() * (3125 * 2)) by (nonlinear_arith);
    }
    if j == 2 {
        lemma_pow11(7);
        assert(7int * 7 * 7 * 7 * 7 == 16807) by (nonlinear_arith);
        assert(p97() * 16807 <= p100() * (3125 * 4)) by (nonlinear_arith);
    }
    if j == 3 {
        lemma_pow11(8);
        assert(8int * 8 * 8 * 8 * 8 == 32768) by (nonlinear_arith);
        assert(p97() * 32768 <= p100() * (3125 * 8)) by (nonlinear_arith);
    }
    if j == 4 {
        lemma_pow11(9);
        assert(9int * 9 * 9 * 9 * 9 == 59049) by (nonlinear_arith);
        assert(p97() * 59049 <= p100() * (3125 * 16)) by (nonlinear_arith);
    }
    if j == 5 {
        lemma_pow11(10);
        assert(10int * 10 * 10 * 10 * 10 == 100000) by (nonlinear_arith);
        assert(p97() * 100000 <= p100() * (3125 * 32)) by (nonlinear_arith);
    }
    lemma_hundredths(k, pow2(j as nat) as int, b, g);
}

/// The lower bound where the root leaves its binade at the upper end.
proof fn lemma_high_end(j: int, n: int, m: int)
    requires
        -10 <= j <= -7,
        0x80_0000 <= n < 0x100_0000,
        0x80_0000 <= m < 0x100_0000,
        5 * m + 0x300_0000 - j * 0x80_0000 <= 11 * n,
    ensures
        p97() * (2048 * (pow(m, 5) * pow(0x80_0000, 6))) <= p100() * (pow2(
            (j + 11) as nat,
        ) * pow(n, 11)),
{
    let c = 16 + j;
    let t: int = 0x80_0000;
    assert(10 * (25 * m + 6 * (c * t)) <= c * (55 * n)) by (nonlinear_arith)
        requires
            c == 16 + j,
            -10 <= j <= -7,
            n < 2 * t,
            5 * m + 6 * t - j * t <= 11 * n,
    {
        assert(c * (5 * (5 * m + 6 * t - j * t)) <= c * (55 * n)) by (nonlinear_arith)
            requires
                5 * m + 6 * t - j * t <= 11 * n,
                c > 0,
        ;
        assert(c * (5 * (5 * m + 6 * t - j * t)) - 10 * (25 * m + 6 * (c * t)) == 5 * ((10 - c) * (c * t
            - 5 * m))) by (nonlinear_arith)
            requires
                c == 16 + j,
        ;
        assert(c * t == 16 * t + j * t) by (nonlinear_arith)
            requires
                c == 16 + j,
        ;
        assert((10 - c) * (c * t - 5 * m) >= 0) by (nonlinear_arith)
            requires
                c < 10,
                c * t >= 5 * m,
        ;
    }
    lemma_fifths(c, 10, m, n);
    lemma_pow_nonnegative(5, 11);
    lemma_pow_nonnegative(m, 5);
    lemma_pow_nonnegative(t, 6);
    lemma_pow_nonnegative(n, 11);
    lemma_pow_nonnegative(c, 5);
    vstd::arithmetic::power::lemma_pow_distributes(2, 5, 11);
    lemma_pow11(2);
    assert(2int * 2 * 2 * 2 * 2 * 2 * 2 * 2 * 2 * 2 * 2 == 2048) by (nonlinear_arith);
    let (f, p, k, g) = (pow(5, 11), pow(m, 5) * pow(t, 6), pow(c, 5), pow(n, 11));
    let b = 2048 * p;
    assert(b >= 0) by (nonlinear_arith)
        requires
            b == 2048 * (pow(m, 5) * pow(t, 6)),
            pow(m, 5) > 0,
            pow(t, 6) > 0,
    ;
    assert(3125 * b <= k * g) by (nonlinear_arith)
        requires
            2048 * f * (3125 * p) <= k * (f * g),
            b == 2048 * p,
            f > 0,
    {
        assert(2048 * f * (3125 * p) == f * (3125 * (2048 * p))) by (nonlinear_arith);
        assert(k * (f * g) == f * (k * g)) by (nonlinear_arith);
        assert(3125 * b <= k * g) by (nonlinear_arith)
            requires
                f * (3125 * b) <= f * (k * g),
                f > 0,
        ;
    }
    vstd::arithmetic::power2::lemma2_to64();
    if j == -10 {
        lemma_pow11(6);
        assert(6int * 6 * 6 * 6 * 6 == 7776) by (nonlinear_arith);
        assert(p97() * 7776 <= p100() * (3125 * 2)) by (nonlinear_arith);
    }
    if j == -9 {
        lemma_pow11(7);
        assert(7int * 7 * 7 * 7 * 7 == 16807) by (nonlinear_arith);
        assert(p97() * 16807 <= p100() * (3125 * 4)) by (nonlinear_arith);
    }
    if j == -8 {
        lemma_pow11(8);
        assert(8int * 8 * 8 * 8 * 8 == 32768) by (nonlinear_arith);
        assert(p97() * 32768 <= p100() * (3125 * 8)) by (nonlinear_arith);
    }
    if j == -7 {
        lemma_pow11(9);
        assert(9int * 9 * 9 * 9 * 9 == 59049) by (nonlinear_arith);
        assert(p97() * 59049 <= p100() * (3125 * 16)) by (nonlinear_arith);
    }
    lemma_hundredths(k, pow2((j + 11) as nat) as int, b, g);
}

/// The lower bound where the root stays in its binade at both ends.
proof fn lemma_no_end(k: nat, n: int, m: int)
    requires
        k <= 6,
        0 < m,
        0 < n,
        5 * m + 0x300_0000 + k * 0x80_0000 <= 11 * n,
    ensures
        pow2(k) * (pow(m, 5) * pow(0x80_0000, 6)) <= pow(n, 11),
{
    broadcast use vstd::arithmetic::power2::lemma_pow2;

    let t: int = 0x80_0000;
    let i = (6 - k) as nat;
    lemma_means(m, 2 * t, k, t, i);
    assert(5 * m + k * (2 * t) + i * t == 5 * m + 6 * t + k * t) by (nonlinear_arith)
        requires
            i == 6 - k,
    ;
    let s = 5 * m + k * (2 * t) + i * t;
    lemma_pow_monotone(s, 11 * n, 11);
    vstd::arithmetic::power::lemma_pow_distributes(11, n, 11);
    vstd::arithmetic::power::lemma_pow_distributes(2, t, k);
    vstd::arithmetic::power::lemma_pow_adds(t, k, i);
    lemma_pow_nonnegative(11, 11);
    let (a, e, x, y, z, g) = (pow(m, 5), pow(11, 11), pow(2, k), pow(t, k), pow(t, i), pow(n, 11));
    assert(x * (a * (y * z)) <= g) by (nonlinear_arith)
        requires
            a * (x * y) * z * e <= e * g,
            e > 0,
    {
        assert(a * (x * y) * z * e == e * (x * (a * (y * z)))) by (nonlinear_arith);
        assert(x * (a * (y * z)) <= g) by (nonlinear_arith)
            requires
                e * (x * (a * (y * z))) <= e * g,
                e > 0,
        ;
    }
}

/// The lower bound on the digits of the root `n` of a number with digits `m`.
proof fn lemma_digits_below(j: int, n: int, m: int)
    requires
        -10 <= j <= 5,
        0x80_0000 <= n < 0x100_0000,
        0x80_0000 <= m < 0x100_0000,
        5 * m + 0x300_0000 - j * 0x80_0000 <= 11 * n,
    ensures
        pow(97, 11) * (pow(m, 5) * pow2(149)) <= pow(100, 11) * (pow2((j + 11) as nat) * pow(n, 11)),
{
    lemma_units();
    vstd::arithmetic::power2::lemma2_to64();
    let (a, b, g) = (pow(m, 5), pow(0x80_0000, 6), pow(n, 11));
    let p = a * b;
    assert(a * (2048 * b) == 2048 * p) by (nonlinear_arith)
        requires
            p == a * b,
    ;
    if j >= 1 {
        lemma_low_end(j, n, m);
        vstd::arithmetic::power2::lemma_pow2_adds(11, j as nat);
        let v = pow2(j as nat) as int;
        assert(2048 * (v * g) == (2048 * v) * g) by (nonlinear_arith);
    } else if j <= -7 {
        lemma_high_end(j, n, m);
    } else {
        lemma_no_end((-j) as nat, n, m);
        vstd::arithmetic::power2::lemma_pow2_adds((-j) as nat, (j + 11) as nat);
        let (v, w) = (pow2((-j) as nat) as int, pow2((j + 11) as nat) as int);
        lemma_pow_nonnegative(n, 11);
        assert(2048 * p <= w * g) by (nonlinear_arith)
            requires
                v * w == 2048,
                v * p <= g,
                w > 0,
        {
            assert(w * (v * p) <= w * g) by (nonlinear_arith)
                requires
                    v * p <= g,
                    w > 0,
            ;
            assert(w * (v * p) == (v * w) * p) by (nonlinear_arith);
        }
        assert(w * g >= 0) by (nonlinear_arith)
            requires
                w > 0,
                g > 0,
        ;
    }
}

// ---------------------------------------------------------------------------
// The law
// ---------------------------------------------------------------------------

/// A power of `m * 2^e`.
proof fn lemma_scaled_power(m: int, e: nat, k: nat)
    ensures
        pow(m * pow2(e), k) == pow(m, k) * pow2(e * k),
{
    broadcast use vstd::arithmetic::power2::lemma_pow2;

    vstd::arithmetic::power::lemma_pow_distributes(m, pow2(e) as int, k);
    vstd::arithmetic::power::lemma_pow_multiplies(2, e, k);
}

/// The gamma curve stays between 97 and 107 percent of the exact root: with `v`
/// the value of a normal number below one and `r` that of its image,
/// `0.97 v^(5/11) <= r <= 1.07 v^(5/11)`. Both sides are raised to the eleventh
/// power, and values are counted in units of `2^-149`.
pub proof fn law_gamma_error(x: u32)
    requires
        0x80_0000 <= x < ONE,
    ensures
        pow(97, 11) * (pow(scaled_value(x), 5) * pow2(894)) <= pow(100, 11) * pow(
            scaled_value(gamma22(x) as u32),
            11,
        ),
        pow(100, 11) * pow(scaled_value(gamma22(x) as u32), 11) <= pow(107, 11) * (pow(
            scaled_value(x),
            5,
        ) * pow2(894)),
{
    let t: int = 0x80_0000;
    let q = (ONE - x) * 4545 / 10000;
    let y = ONE - q;
    assert(gamma22(x) == y);
    let (m, n) = (x as int % t + t, y % t + t);
    let (ex, ey) = (x as int / t, y / t);
    let d = 5 * (ONE - x) - 11 * q;
    assert(0 <= d <= 17 * 32768);
    let j = 11 * ey - 5 * ex - 762;
    assert(11 * n == 5 * m + 0x300_0000 - j * t + d);
    lemma_digits_above(j, n, m);
    lemma_digits_below(j, n, m);
    let (sx, sy) = ((ex - 1) as nat, (ey - 1) as nat);
    assert(scaled_value(x) == m * pow2(sx));
    assert(scaled_value(y as u32) == n * pow2(sy));
    lemma_scaled_power(m, sx, 5);
    lemma_scaled_power(n, sy, 11);
    let k = (5 * ex + 740) as nat;
    vstd::arithmetic::power2::lemma_pow2_adds((j + 11) as nat, k);
    vstd::arithmetic::power2::lemma_pow2_adds(149, k);
    vstd::arithmetic::power2::lemma_pow2_adds(sx * 5, 894);
    vstd::arithmetic::power2::lemma_pow2_pos(k);
    assert(sy * 11 == (j + 11) + k);
    assert(sx * 5 + 894 == 149 + k);
    let (a, g) = (pow(m, 5), pow(n, 11));
    let (w, c, s) = (pow2((j + 11) as nat) as int, pow2(149) as int, pow2(k) as int);
    let b = pow2(sx * 5) as int;
    let u = pow2(894) as int;
    assert((a * b) * u == (a * c) * s) by (nonlinear_arith)
        requires
            b * u == c * s,
    ;
    assert(g * (w * s) == (w * g) * s) by (nonlinear_arith);
    lemma_shifted(pow(100, 11), w * g, pow(107, 11), a * c, s);
    lemma_shifted(pow(97, 11), a * c, pow(100, 11), w * g, s);
}

/// An inequality of products survives a common positive factor.
proof fn lemma_shifted(a: int, b: int, c: int, d: int, s: int)
    by (nonlinear_arith)
    requires
        a * b <= c * d,
        s > 0,
    ensures
        a * (b * s) <= c * (d * s),
{
    assert(a * (b * s) == (a * b) * s);
    assert(c * (d * s) == (c * d) * s);
}

} // verus!
