//! Rounding of exact rationals to the magnitudes of binary32 numbers.
//!
//! A magnitude is a bit pattern without its sign bit. Numbers are counted in
//! units of the smallest positive binary32 number, two to the power -149.
use vstd::prelude::*;
use vstd::arithmetic::power2::*;
use vstd::arithmetic::mul::*;
use vstd::arithmetic::div_mod::*;

verus! {

/// The magnitude of infinity, the first one past the finite numbers.
pub const INFINITE: u32 = 0x7f80_0000;

/// The integer nearest to `n / d`; of two equally near ones, the even one.
pub open spec fn nearest_even(n: int, d: int) -> int {
    let q = n / d;
    let r = n % d;
    if 2 * r < d || (2 * r == d && q % 2 == 0) {
        q
    } else {
        q + 1
    }
}

/// How far apart two integers lie.
pub open spec fn distance(a: int, b: int) -> int {
    if a < b {
        b - a
    } else {
        a - b
    }
}

/// The least `s` such that `n / d` lies below two to the power `24 + s`, so that
/// 24 bits hold the integer part of `n / d` counted in steps of two to the power `s`.
pub open spec fn binade(n: int, d: int) -> nat
    decreases n - d,
{
    if d <= 0 || n < d * 0x100_0000 {
        0
    } else {
        1 + binade(n, 2 * d)
    }
}

/// The magnitude of the binary32 number nearest to `n / d` units, ties to the
/// even one, and infinity where the nearest one lies past the finite numbers.
#[verifier::opaque]
pub open spec fn rounded(n: int, d: int) -> int {
    let s = binade(n, d);
    let m = nearest_even(n, d * pow2(s)) + s * 0x80_0000;
    if m < INFINITE {
        m
    } else {
        INFINITE as int
    }
}

pub proof fn lemma_binade_is(n: int, d: int, s: nat)
    requires
        n >= 0,
        d > 0,
        n < d * pow2(24 + s),
        s > 0 ==> n >= d * pow2((23 + s) as nat),
    ensures
        binade(n, d) == s,
    decreases s,
{
    lemma2_to64();
    if s > 0 {
        let t = (s - 1) as nat;
        lemma_pow2_unfold(24 + s);
        lemma_pow2_unfold((23 + s) as nat);
        if s > 1 {
            lemma_pow2_strictly_increases(24, (23 + s) as nat);
        }
        assert(d * pow2((23 + s) as nat) >= d * 0x100_0000) by (nonlinear_arith)
            requires
                d > 0,
                pow2((23 + s) as nat) >= 0x100_0000,
        ;
        assert(d * pow2(24 + s) == 2 * d * pow2(24 + t)) by (nonlinear_arith)
            requires
                pow2(24 + s) == 2 * pow2(24 + t),
        ;
        assert(d * pow2((23 + s) as nat) == 2 * d * pow2((23 + t) as nat)) by (nonlinear_arith)
            requires
                pow2((23 + s) as nat) == 2 * pow2((23 + t) as nat),
        ;
        lemma_binade_is(n, 2 * d, t);
    }
}

pub proof fn lemma_binade_bounds(n: int, d: int)
    requires
        n >= 0,
        d > 0,
    ensures
        n < d * pow2(24 + binade(n, d)),
        binade(n, d) > 0 ==> n >= d * pow2((23 + binade(n, d)) as nat),
    decreases n - d,
{
    lemma2_to64();
    let s = binade(n, d);
    if n >= d * 0x100_0000 {
        lemma_binade_bounds(n, 2 * d);
        let t = (s - 1) as nat;
        assert(binade(n, 2 * d) == t);
        lemma_pow2_unfold(24 + s);
        lemma_pow2_unfold((23 + s) as nat);
        assert(d * pow2(24 + s) == 2 * d * pow2(24 + t)) by (nonlinear_arith)
            requires
                pow2(24 + s) == 2 * pow2(24 + t),
        ;
        assert(d * pow2((23 + s) as nat) == 2 * d * pow2((23 + t) as nat)) by (nonlinear_arith)
            requires
                pow2((23 + s) as nat) == 2 * pow2((23 + t) as nat),
        ;
    }
}

proof fn lemma_nearest_even_scales(n: int, d: int, c: int)
    requires
        n >= 0,
        d > 0,
        c > 0,
    ensures
        nearest_even(n * c, d * c) == nearest_even(n, d),
{
    let q = n / d;
    let r = n % d;
    lemma_fundamental_div_mod(n, d);
    assert(n * c == q * (d * c) + r * c) by (nonlinear_arith)
        requires
            n == d * q + r,
    ;
    assert(0 <= r * c < d * c) by (nonlinear_arith)
        requires
            0 <= r < d,
            c > 0,
    ;
    lemma_fundamental_div_mod_converse(n * c, d * c, q, r * c);
    assert((2 * r < d <==> 2 * (r * c) < d * c) && (2 * r == d <==> 2 * (r * c) == d * c))
        by (nonlinear_arith)
        requires
            c > 0,
    ;
}

proof fn lemma_rounded_scales(n: int, d: int, c: int)
    requires
        n >= 0,
        d > 0,
        c > 0,
    ensures
        rounded(n * c, d * c) == rounded(n, d),
{
    reveal(rounded);
    let s = binade(n, d);
    lemma_binade_bounds(n, d);
    let p = pow2(24 + s) as int;
    let o = pow2((23 + s) as nat) as int;
    let w = pow2(s) as int;
    lemma_pow2_pos(s);
    assert(n * c >= 0 && d * c > 0 && n * c < d * c * p) by (nonlinear_arith)
        requires
            n >= 0,
            d > 0,
            c > 0,
            n < d * p,
    ;
    assert(n >= d * o ==> n * c >= d * c * o) by (nonlinear_arith)
        requires
            c > 0,
    ;
    lemma_binade_is(n * c, d * c, s);
    assert(d * w > 0) by (nonlinear_arith)
        requires
            d > 0,
            w > 0,
    ;
    assert(d * c * w == d * w * c) by (nonlinear_arith);
    lemma_nearest_even_scales(n, d * w, c);
}

/// Equal rationals round alike.
pub proof fn lemma_rounded_of_equal(n1: int, d1: int, n2: int, d2: int)
    requires
        n1 >= 0,
        n2 >= 0,
        d1 > 0,
        d2 > 0,
        n1 * d2 == n2 * d1,
    ensures
        rounded(n1, d1) == rounded(n2, d2),
{
    lemma_rounded_scales(n1, d1, d2);
    lemma_rounded_scales(n2, d2, d1);
    assert(d1 * d2 == d2 * d1) by (nonlinear_arith);
}

proof fn lemma_nearest_even_inside(n: int, a: int, w: int, h: int)
    requires
        a >= 0,
        w > 0,
        h > 0,
        a * w < n < (a + 1) * w,
    ensures
        nearest_even(n, 2 * h * w) == if a % (2 * h) < h {
            a / (2 * h)
        } else {
            a / (2 * h) + 1
        },
{
    let q = a / (2 * h);
    let k = a % (2 * h);
    lemma_fundamental_div_mod(a, 2 * h);
    let e = n - a * w;
    let r = k * w + e;
    assert(n == q * (2 * h * w) + r) by (nonlinear_arith)
        requires
            a == 2 * h * q + k,
            n == a * w + (r - k * w),
    ;
    assert(0 < e < w) by (nonlinear_arith)
        requires
            e == n - a * w,
            a * w < n < (a + 1) * w,
    ;
    assert(0 <= r < 2 * h * w) by (nonlinear_arith)
        requires
            0 <= k <= 2 * h - 1,
            0 < e < w,
            r == k * w + e,
            w > 0,
    ;
    lemma_fundamental_div_mod_converse(n, 2 * h * w, q, r);
    if k < h {
        assert(2 * r < 2 * h * w) by (nonlinear_arith)
            requires
                k <= h - 1,
                0 < e < w,
                r == k * w + e,
        ;
    } else {
        assert(2 * r > 2 * h * w) by (nonlinear_arith)
            requires
                k >= h,
                0 < e < w,
                r == k * w + e,
        ;
    }
}

/// Two rationals strictly between the same two neighbouring multiples of `w / d`
/// round alike, as long as half the rounding step is a multiple of `w / d`.
pub proof fn lemma_rounded_between(n1: int, n2: int, d: int, a: int, w: int, h: int)
    requires
        a >= 0,
        d > 0,
        w > 0,
        h > 0,
        a * w < n1 < (a + 1) * w,
        a * w < n2 < (a + 1) * w,
        d * pow2(binade(n1, d)) == 2 * h * w,
    ensures
        rounded(n1, d) == rounded(n2, d),
{
    reveal(rounded);
    let s = binade(n1, d);
    assert(a * w >= 0) by (nonlinear_arith)
        requires
            a >= 0,
            w > 0,
    ;
    lemma_binade_bounds(n1, d);
    lemma2_to64();
    lemma_pow2_adds(24, s);
    lemma_pow2_adds(23, s);
    let p = pow2(s) as int;
    assert(d * pow2(24 + s) == 0x200_0000 * h * w) by (nonlinear_arith)
        requires
            pow2(24 + s) == 0x100_0000 * p,
            d * p == 2 * h * w,
    ;
    assert(d * pow2(23 + s) == 0x100_0000 * h * w) by (nonlinear_arith)
        requires
            pow2(23 + s) == 0x80_0000 * p,
            d * p == 2 * h * w,
    ;
    assert(a < 0x200_0000 * h) by (nonlinear_arith)
        requires
            a * w < 0x200_0000 * h * w,
            w > 0,
    ;
    assert(n2 < 0x200_0000 * h * w) by (nonlinear_arith)
        requires
            a + 1 <= 0x200_0000 * h,
            n2 < (a + 1) * w,
            w > 0,
    ;
    if s > 0 {
        assert(a + 1 > 0x100_0000 * h) by (nonlinear_arith)
            requires
                0x100_0000 * h * w < (a + 1) * w,
                w > 0,
        ;
        assert(n2 >= 0x100_0000 * h * w) by (nonlinear_arith)
            requires
                a >= 0x100_0000 * h,
                a * w < n2,
                w > 0,
        ;
    }
    lemma_binade_is(n2, d, s);
    lemma_nearest_even_inside(n1, a, w, h);
    lemma_nearest_even_inside(n2, a, w, h);
}

proof fn lemma_nearest_even_ordered(n1: int, n2: int, d: int)
    requires
        0 <= n1 <= n2,
        d > 0,
    ensures
        nearest_even(n1, d) <= nearest_even(n2, d),
{
    lemma_div_is_ordered(n1, n2, d);
    lemma_fundamental_div_mod(n1, d);
    lemma_fundamental_div_mod(n2, d);
}

/// The rounded integer lies between the bounds of the binade.
pub proof fn lemma_nearest_even_bounds(n: int, d: int)
    requires
        n >= 0,
        d > 0,
    ensures
        nearest_even(n, d * pow2(binade(n, d))) <= 0x100_0000,
        binade(n, d) > 0 ==> nearest_even(n, d * pow2(binade(n, d))) >= 0x80_0000,
        nearest_even(n, d * pow2(binade(n, d))) >= 0,
{
    let s = binade(n, d);
    let u = pow2(s) as int;
    let e = d * u;
    lemma_binade_bounds(n, d);
    lemma_pow2_adds(24, s);
    lemma_pow2_adds(23, s);
    lemma2_to64();
    lemma_pow2_pos(s);
    assert(d * (0x100_0000 * u) == 0x100_0000 * e && d * (0x80_0000 * u) == 0x80_0000 * e && e > 0)
        by (nonlinear_arith)
        requires
            e == d * u,
            d > 0,
            u > 0,
    ;
    lemma_multiply_divide_lt(n, e, 0x100_0000);
    lemma_div_pos_is_pos(n, e);
    if s > 0 {
        lemma_div_is_ordered(0x80_0000 * e, n, e);
        lemma_div_by_multiple(0x80_0000, e);
    }
}

/// No multiple of `d` lies nearer to `n` than the rounded one.
pub proof fn lemma_nearest_even_is_nearest(n: int, d: int, k: int)
    requires
        n >= 0,
        d > 0,
    ensures
        ({
            let t = nearest_even(n, d);
            &&& -d <= 2 * (n - d * t) <= d
            &&& distance(n, d * t) <= distance(n, d * k)
        }),
{
    let q = n / d;
    let r = n % d;
    let t = nearest_even(n, d);
    lemma_fundamental_div_mod(n, d);
    assert(d * (q + 1) == d * q + d) by (nonlinear_arith);
    if k <= q {
        assert(d * k <= d * q) by (nonlinear_arith)
            requires
                k <= q,
                d > 0,
        ;
    } else {
        assert(d * k >= d * (q + 1)) by (nonlinear_arith)
            requires
                k >= q + 1,
                d > 0,
        ;
    }
}

/// Rounding keeps the order of rationals.
pub proof fn law_rounding_keeps_order(n1: int, d1: int, n2: int, d2: int)
    requires
        n1 >= 0,
        n2 >= 0,
        d1 > 0,
        d2 > 0,
        n1 * d2 <= n2 * d1,
    ensures
        rounded(n1, d1) <= rounded(n2, d2),
{
    reveal(rounded);
    let (a, b) = (n1 * d2, n2 * d1);
    let d = d1 * d2;
    assert(a >= 0 && d > 0 && d == d2 * d1) by (nonlinear_arith)
        requires
            n1 >= 0,
            d1 > 0,
            d2 > 0,
            a == n1 * d2,
            d == d1 * d2,
    ;
    lemma_rounded_scales(n1, d1, d2);
    lemma_rounded_scales(n2, d2, d1);
    let (s, t) = (binade(a, d), binade(b, d));
    lemma_binade_bounds(a, d);
    lemma_binade_bounds(b, d);
    lemma_nearest_even_bounds(a, d);
    lemma_nearest_even_bounds(b, d);
    if t < s {
        lemma_pow2_ordered(24 + t, (23 + s) as nat);
        let (p, q) = (pow2(24 + t) as int, pow2((23 + s) as nat) as int);
        assert(d * p <= d * q) by (nonlinear_arith)
            requires
                d > 0,
                p <= q,
        ;
    } else if s == t {
        lemma_pow2_pos(s);
        let u = pow2(s) as int;
        assert(d * u > 0) by (nonlinear_arith)
            requires
                d > 0,
                u > 0,
        ;
        lemma_nearest_even_ordered(a, b, d * u);
    }
}

/// A number of at most 24 bits, times a power of two, rounds to itself.
pub proof fn lemma_rounded_exact(c: int, e: nat)
    requires
        0 <= c < 0x100_0000,
        e > 0 ==> c >= 0x80_0000,
        e <= 254,
        c + e * 0x80_0000 <= INFINITE,
    ensures
        rounded(c * pow2(e), 1) == c + e * 0x80_0000,
{
    reveal(rounded);
    let p = pow2(e) as int;
    lemma_pow2_pos(e);
    lemma_pow2_adds(24, e);
    lemma_pow2_adds(23, e);
    lemma2_to64();
    assert(0 <= c * p < 0x100_0000 * p && (c >= 0x80_0000 ==> c * p >= 0x80_0000 * p))
        by (nonlinear_arith)
        requires
            0 <= c < 0x100_0000,
            p > 0,
    ;
    lemma_binade_is(c * p, 1, e);
    lemma_fundamental_div_mod_converse(c * p, p, c, 0);
    assert(1 * p == p);
}

/// The magnitude nearest to `n` times two to the power `k` units, for any
/// exponent from -1000 up.
pub open spec fn dyadic(n: int, k: int) -> int {
    rounded(n * pow2((k + 1000) as nat), pow2(1000) as int)
}

pub proof fn lemma_pow2_ordered(a: nat, b: nat)
    requires
        a <= b,
    ensures
        pow2(a) <= pow2(b),
{
    if a < b {
        lemma_pow2_strictly_increases(a, b);
    }
}

proof fn lemma_bit_length(n: u64)
    requires
        n > 0,
    ensures
        0 <= vstd::std_specs::bits::u64_leading_zeros(n) <= 63,
        pow2((63 - vstd::std_specs::bits::u64_leading_zeros(n)) as nat) <= n,
        n < pow2((64 - vstd::std_specs::bits::u64_leading_zeros(n)) as nat),
    decreases n,
{
    reveal(vstd::std_specs::bits::u64_leading_zeros);
    vstd::std_specs::bits::axiom_u64_leading_zeros(n);
    lemma2_to64();
    if n == 1 {
        assert(vstd::std_specs::bits::u64_leading_zeros(0) == 64);
        assert(n / 2 == 0);
    } else {
        lemma_bit_length(n / 2);
        vstd::std_specs::bits::axiom_u64_leading_zeros(n / 2);
        let l = (64 - vstd::std_specs::bits::u64_leading_zeros(n)) as nat;
        lemma_pow2_unfold(l);
        lemma_pow2_unfold((l - 1) as nat);
    }
}

/// What the shift, the kept bits and the rounding decision come to.
proof fn lemma_nearest_even_of_bits(n: int, g: nat, odd: int)
    requires
        n >= 0,
        g >= 1,
        odd == 0 || odd == 1,
    ensures
        ({
            let q = n / pow2(g) as int;
            let r = n % pow2(g) as int;
            let half = pow2((g - 1) as nat) as int;
            nearest_even(2 * n + odd, pow2(g + 1) as int) == if r > half || (r == half && (odd == 1
                || q % 2 == 1)) {
                q + 1
            } else {
                q
            }
        }),
{
    let w = pow2(g) as int;
    let q = n / w;
    let r = n % w;
    lemma_pow2_pos(g);
    lemma_pow2_unfold(g);
    lemma_pow2_unfold(g + 1);
    lemma_fundamental_div_mod(n, w);
    assert(2 * n + odd == q * (2 * w) + (2 * r + odd)) by (nonlinear_arith)
        requires
            n == w * q + r,
    ;
    lemma_fundamental_div_mod_converse(2 * n + odd, 2 * w, q, 2 * r + odd);
}

/// The kept bits of a number whose length is known.
proof fn lemma_dyadic_binade(v: int, len: nat, k: int, s: nat)
    requires
        pow2(len) <= v < pow2(len + 1),
        -900 <= k,
        len + k - 24 <= s,
        s > 0 ==> s == len + k - 24,
    ensures
        binade(v * pow2((k + 999) as nat), pow2(1000) as int) == s,
        s > 0 ==> v * pow2((k + 999) as nat) >= pow2(1000) * pow2(23 + s),
{
    let e = (k + 999) as nat;
    lemma_pow2_pos(1000);
    lemma_pow2_pos(e);
    let p = pow2(e) as int;
    let lo = pow2(len) as int;
    let hi = pow2(len + 1) as int;
    assert(lo * p <= v * p < hi * p) by (nonlinear_arith)
        requires
            lo <= v < hi,
            p > 0,
    ;
    assert(v * p >= 0) by (nonlinear_arith)
        requires
            v >= 0,
            p > 0,
    ;
    lemma_pow2_adds(len, e);
    lemma_pow2_adds(len + 1, e);
    lemma_pow2_adds(1000, 24 + s);
    lemma_pow2_adds(1000, 23 + s);
    lemma_pow2_ordered(len + 1 + e, 1000 + (24 + s));
    if s > 0 {
        assert(len + e == 1000 + (23 + s));
    }
    lemma_binade_is(v * p, pow2(1000) as int, s);
}

/// A dyadic number rounds like the rational that it is equal to.
pub proof fn lemma_dyadic_is(v: int, k: int, n: int, d: int)
    requires
        v >= 0,
        n >= 0,
        d > 0,
        -1000 <= k,
        v * pow2((k + 1000) as nat) * d == n * pow2(1000),
    ensures
        dyadic(v, k) == rounded(n, d),
{
    lemma_pow2_pos(1000);
    lemma_pow2_pos((k + 1000) as nat);
    let p = pow2((k + 1000) as nat) as int;
    assert(v * p >= 0) by (nonlinear_arith)
        requires
            v >= 0,
            p > 0,
    ;
    lemma_rounded_of_equal(v * p, pow2(1000) as int, n, d);
}

/// A rational strictly between `a` and `a + 1` times two to the power `k` units
/// rounds like the number in the middle, where `a` has at least 25 bits.
pub proof fn lemma_sticky(a: int, k: int, n: int, d: int)
    requires
        a >= 0x100_0000,
        n >= 0,
        d > 0,
        -900 <= k,
        a * pow2((k + 1000) as nat) * d < n * pow2(1000),
        n * pow2(1000) < (a + 1) * pow2((k + 1000) as nat) * d,
    ensures
        dyadic(2 * a + 1, k - 1) == rounded(n, d),
{
    let b = pow2(1000) as int;
    let p = pow2((k + 1000) as nat) as int;
    let o = pow2((k + 999) as nat) as int;
    let v = 2 * a + 1;
    lemma_pow2_pos(1000);
    lemma_pow2_pos((k + 999) as nat);
    lemma_pow2_unfold((k + 1000) as nat);
    let w = p * d;
    let n1 = v * o * d;
    let n2 = n * b;
    let e = b * d;
    assert(v * o >= 0 && e > 0 && w > 0) by (nonlinear_arith)
        requires
            v >= 0,
            o > 0,
            p == 2 * o,
            b > 0,
            d > 0,
            e == b * d,
            w == p * d,
    ;
    assert(v * o * e == n1 * b) by (nonlinear_arith)
        requires
            e == b * d,
            n1 == v * o * d,
    ;
    lemma_rounded_of_equal(v * o, b, n1, e);
    assert(n * e == n2 * d) by (nonlinear_arith)
        requires
            e == b * d,
            n2 == n * b,
    ;
    lemma_rounded_of_equal(n, d, n2, e);
    assert(a * w < n1 < (a + 1) * w) by (nonlinear_arith)
        requires
            n1 == (2 * a + 1) * o * d,
            w == 2 * o * d,
            o > 0,
            d > 0,
    ;
    assert(a * w == a * p * d && (a + 1) * w == (a + 1) * p * d) by (nonlinear_arith)
        requires
            w == p * d,
    ;
    let s = binade(n1, e);
    lemma_binade_bounds(n1, e);
    // The rounding step is at least two to the power `k + 1`.
    assert(s >= k + 1) by {
        if s < k + 1 {
            let t = pow2(24 + s) as int;
            lemma_pow2_adds(1000, 24 + s);
            lemma_pow2_adds(24, (k + 1000) as nat);
            lemma_pow2_ordered((1024 + s) as nat, (k + 1024) as nat);
            lemma2_to64();
            assert(0x100_0000 * w <= a * w) by (nonlinear_arith)
                requires
                    a >= 0x100_0000,
                    w > 0,
            ;
            assert(e * t <= 0x100_0000 * w) by (nonlinear_arith)
                requires
                    b * t <= 0x100_0000 * p,
                    e == b * d,
                    w == p * d,
                    d > 0,
            ;
        }
    }
    let h = pow2((s - k - 1) as nat) as int;
    let u = pow2(s) as int;
    lemma_pow2_pos((s - k - 1) as nat);
    lemma_pow2_adds(1000, s);
    lemma_pow2_adds((s - k - 1) as nat, (k + 1000) as nat);
    lemma_pow2_unfold((1000 + s) as nat);
    assert(e * u == 2 * h * w) by (nonlinear_arith)
        requires
            b * u == 2 * (h * p),
            e == b * d,
            w == p * d,
    ;
    lemma_rounded_between(n1, n2, e, a, w, h);
}

/// Rounds `n` times two to the power `k` units to the nearest magnitude, or,
/// where `inexact`, any number strictly between that and `n + 1` times the same.
pub fn round_scaled(n: u64, k: i32, inexact: bool) -> (m: u32)
    requires
        n < 0x4000_0000_0000_0000,
        -500 <= k <= 500,
        inexact ==> n >= 0x100_0000,
    ensures
        m == dyadic(
            if inexact {
                2 * n + 1
            } else {
                2 * n
            },
            k - 1,
        ),
        m <= INFINITE,
{
    proof {
        reveal(rounded);
    }
    let ghost odd: int = if inexact { 1 } else { 0 };
    let ghost v: int = 2 * n + odd;
    let ghost e: nat = (k + 999) as nat;
    let ghost p: int = pow2(e) as int;
    let ghost d: int = pow2(1000) as int;
    if n == 0 {
        proof {
            lemma_pow2_pos(1000);
            lemma_pow2_pos(0);
            assert(0 * p == 0);
            lemma2_to64();
            lemma_div_of0(d * pow2(0));
            assert(d * 1 == d);
            lemma_small_mod(0, d as nat);
        }
        return 0;
    }
    proof {
        lemma_bit_length(n);
        lemma_pow2_pos(1000);
        lemma_pow2_pos(e);
    }
    let len: i32 = 64 - n.leading_zeros() as i32;
    let top: i32 = len + k - 24;
    let s: i32 = if top > 0 { top } else { 0 };
    proof {
        lemma_pow2_unfold(len as nat + 1);
        lemma_pow2_unfold(len as nat);
        lemma_dyadic_binade(v, len as nat, k as int, s as nat);
        lemma_pow2_adds(1000, s as nat);
    }
    let ghost step: int = d * pow2(s as nat);
    if s >= 254 {
        proof {
            lemma_pow2_pos(s as nat);
            lemma_pow2_adds(23, s as nat);
            lemma2_to64();
            let u = pow2(s as nat) as int;
            assert(d * (0x80_0000 * u) == 0x80_0000 * (d * u)) by (nonlinear_arith);
            assert(step > 0) by (nonlinear_arith)
                requires
                    d > 0,
                    u > 0,
                    step == d * u,
            ;
            lemma_div_is_ordered(0x80_0000 * step, v * p, step);
            lemma_div_by_multiple(0x80_0000, step);
        }
        return INFINITE;
    }
    let g: i32 = s - k;
    let t: u64;
    if g <= 0 {
        proof {
            let z = (-g) as nat;
            lemma_pow2_adds(e, 1);
            lemma_pow2_adds(z, (1000 + s) as nat);
            lemma2_to64();
            let y = pow2(z) as int;
            let x = pow2((1000 + s) as nat) as int;
            assert(v * p == n * (y * x)) by (nonlinear_arith)
                requires
                    v == 2 * n,
                    y * x == 2 * p,
            ;
            assert(n * (y * x) == (n * y) * x + 0) by (nonlinear_arith);
            lemma_pow2_pos((1000 + s) as nat);
            lemma_fundamental_div_mod_converse(v * p, x, n * y, 0);
            // The shifted bits still fit in 24.
            lemma_pow2_adds(len as nat, z);
            lemma_pow2_ordered(len as nat + z, 24);
            lemma_pow2_pos(z);
            assert(n * y < pow2(len as nat) * y) by (nonlinear_arith)
                requires
                    n < pow2(len as nat),
                    y > 0,
            ;
            vstd::bits::lemma_u64_shl_is_mul(n, z as u64);
        }
        t = n << ((-g) as u64);
    } else {
        proof {
            lemma_pow2_adds((g + 1) as nat, e);
            lemma_pow2_pos((g + 1) as nat);
            lemma_nearest_even_scales(v, pow2((g + 1) as nat) as int, p);
            lemma_nearest_even_of_bits(n as int, g as nat, odd);
        }
        if g >= 63 {
            proof {
                lemma2_to64();
                lemma2_to64_rest();
                lemma_pow2_ordered(62, (g - 1) as nat);
                lemma_pow2_ordered(63, g as nat);
                lemma_small_mod(n as nat, pow2(g as nat));
                lemma_basic_div(n as int, pow2(g as nat) as int);
            }
            t = 0;
        } else {
            proof {
                vstd::bits::lemma_u64_shr_is_div(n, g as u64);
                lemma_pow2_pos(g as nat);
                lemma_fundamental_div_mod(n as int, pow2(g as nat) as int);
                let q = n as nat / pow2(g as nat);
                lemma_mul_is_commutative(q as int, pow2(g as nat) as int);
                assert(q * pow2(g as nat) <= n) by (nonlinear_arith)
                    requires
                        n == pow2(g as nat) * q + n as int % pow2(g as nat) as int,
                        n as int % pow2(g as nat) as int >= 0,
                ;
                vstd::bits::lemma_u64_shl_is_mul(q as u64, g as u64);
                lemma2_to64();
                lemma2_to64_rest();
                lemma_pow2_ordered((g - 1) as nat, 62);
                vstd::bits::lemma_u64_shl_is_mul(1, (g - 1) as u64);
            }
            let q: u64 = n >> (g as u64);
            let r: u64 = n - (q << (g as u64));
            let half: u64 = 1u64 << ((g - 1) as u64);
            t = if r > half || (r == half && (inexact || q % 2 == 1)) { q + 1 } else { q };
            assert(q == n as int / pow2(g as nat) as int);
            assert(r == n as int % pow2(g as nat) as int);
        }
    }
    assert(t == nearest_even(v * p, step));
    assert(t <= 0x100_0000) by {
        lemma_binade_bounds(v * p, d);
        lemma_pow2_adds(24, s as nat);
        lemma2_to64();
        lemma_pow2_pos(s as nat);
        let u = pow2(s as nat) as int;
        assert(d * (0x100_0000 * u) == 0x100_0000 * (d * u)) by (nonlinear_arith);
        assert(step > 0) by (nonlinear_arith)
            requires
                d > 0,
                u > 0,
                step == d * u,
        ;
        assert(v * p >= 0) by (nonlinear_arith)
            requires
                v >= 0,
                p > 0,
        ;
        lemma_multiply_divide_lt(v * p, step, 0x100_0000);
    }
    let m: u32 = t as u32 + (s as u32) * 0x80_0000;
    if m < INFINITE {
        m
    } else {
        INFINITE
    }
}

pub proof fn lemma_rounded_zero(d: int)
    requires
        d > 0,
    ensures
        rounded(0, d) == 0,
{
    reveal(rounded);
    lemma2_to64();
    assert(d * 1 == d);
    lemma_div_of0(d);
    lemma_small_mod(0, d as nat);
}

/// Twice a number that is no less than the least one of 24 bits rounds to the same
/// bits, one exponent further.
pub proof fn lemma_rounded_doubles(n: int, d: int)
    requires
        d > 0,
        n >= 0x80_0000 * d,
        rounded(2 * n, d) < INFINITE,
    ensures
        rounded(2 * n, d) == rounded(n, d) + 0x80_0000,
{
    reveal(rounded);
    let s = binade(n, d);
    let p = pow2(s) as int;
    lemma2_to64();
    lemma_pow2_pos(s);
    lemma_binade_bounds(n, d);
    lemma_pow2_unfold(25 + s);
    lemma_pow2_unfold(24 + s);
    lemma_pow2_unfold(1 + s);
    let (q, r) = (pow2(24 + s) as int, pow2(23 + s) as int);
    assert(d * (2 * q) == 2 * (d * q) && d * (2 * r) == 2 * (d * r)) by (nonlinear_arith);
    lemma_binade_is(2 * n, d, s + 1);
    assert(d * p > 0 && d * (2 * p) == (d * p) * 2) by (nonlinear_arith)
        requires
            d > 0,
            p > 0,
    ;
    lemma_nearest_even_scales(n, d * p, 2);
}

/// The integer part of a square root.
pub open spec fn integer_root(n: int) -> int {
    choose|a: int| a >= 0 && #[trigger] (a * a) <= n < (a + 1) * (a + 1)
}

/// The magnitude nearest to the square root of `n` in units. A root that is no
/// integer lies strictly between two neighbouring ones, as does their midpoint.
pub open spec fn rounded_root(n: int) -> int {
    let a = integer_root(n);
    if a * a == n {
        rounded(a, 1)
    } else {
        rounded(2 * a + 1, 2)
    }
}

proof fn lemma_integer_root_is(n: int, a: int)
    requires
        a >= 0,
        a * a <= n < (a + 1) * (a + 1),
    ensures
        integer_root(n) == a,
{
    let b = integer_root(n);
    assert(b >= 0 && b * b <= n < (b + 1) * (b + 1));
    assert(a == b) by (nonlinear_arith)
        requires
            a >= 0,
            b >= 0,
            a * a <= n < (b + 1) * (b + 1),
            b * b <= n < (a + 1) * (a + 1),
    ;
}

pub proof fn lemma_integer_root_exists(n: int)
    requires
        n >= 0,
    ensures
        ({
            let a = integer_root(n);
            a >= 0 && a * a <= n < (a + 1) * (a + 1)
        }),
    decreases n,
{
    if n == 0 {
        assert(0int * 0int <= 0);
        lemma_integer_root_is(0, 0);
    } else {
        lemma_integer_root_exists(n - 1);
        let a = integer_root(n - 1);
        if n < (a + 1) * (a + 1) {
            lemma_integer_root_is(n, a);
        } else {
            assert(n < (a + 2) * (a + 2)) by (nonlinear_arith)
                requires
                    n <= (a + 1) * (a + 1),
                    a >= 0,
            ;
            lemma_integer_root_is(n, a + 1);
        }
    }
}

/// The root of a square is rounded as the number it is.
pub proof fn lemma_root_of_square(a: int)
    requires
        a >= 0,
    ensures
        rounded_root(a * a) == rounded(a, 1),
{
    assert(a * a < (a + 1) * (a + 1)) by (nonlinear_arith)
        requires
            a >= 0,
    ;
    lemma_integer_root_is(a * a, a);
}

/// The integer root of `wide` tells how the root of `wide` times a power of four
/// rounds.
pub proof fn lemma_rounded_root(a: int, wide: int, k: nat)
    requires
        a >= 0x100_0000,
        a * a <= wide < (a + 1) * (a + 1),
    ensures
        rounded_root(wide * (pow2(k) * pow2(k))) == dyadic(
            if a * a != wide {
                2 * a + 1
            } else {
                2 * a
            },
            k - 1,
        ),
{
    let p = pow2(k) as int;
    let b = pow2(1000) as int;
    let n = wide * (p * p);
    lemma_pow2_pos(k);
    lemma_pow2_pos(1000);
    lemma_pow2_adds(k, 1000);
    assert(n >= 0) by (nonlinear_arith)
        requires
            wide >= 0,
            p > 0,
            n == wide * (p * p),
    ;
    if a * a == wide {
        let x = a * p;
        assert(x >= 0 && x * x == n && n < (x + 1) * (x + 1)) by (nonlinear_arith)
            requires
                a >= 0,
                p > 0,
                x == a * p,
                n == (a * a) * (p * p),
        ;
        lemma_integer_root_is(n, x);
        let o = pow2((k + 999) as nat) as int;
        lemma_pow2_unfold((k + 1000) as nat);
        assert((2 * a) * o * 1 == x * b) by (nonlinear_arith)
            requires
                2 * o == p * b,
                x == a * p,
        ;
        lemma_dyadic_is(2 * a, k - 1, x, 1);
    } else {
        lemma_integer_root_exists(n);
        let x = integer_root(n);
        let lo = a * p;
        let hi = (a + 1) * p;
        assert(lo * lo < n && n < hi * hi && lo >= 0 && hi >= 0) by (nonlinear_arith)
            requires
                a * a < wide < (a + 1) * (a + 1),
                a >= 0,
                p > 0,
                lo == a * p,
                hi == (a + 1) * p,
                n == wide * (p * p),
        ;
        assert(lo <= x < hi) by (nonlinear_arith)
            requires
                lo * lo < n < hi * hi,
                x * x <= n < (x + 1) * (x + 1),
                x >= 0,
                lo >= 0,
                hi >= 0,
        ;
        let t = pow2((k + 1000) as nat) as int;
        assert(a * t == lo * b && (a + 1) * t == hi * b) by (nonlinear_arith)
            requires
                t == p * b,
                lo == a * p,
                hi == (a + 1) * p,
        ;
        if x * x == n {
            assert(lo < x);
            assert(lo * b < x * b < hi * b) by (nonlinear_arith)
                requires
                    lo < x < hi,
                    b > 0,
            ;
            assert(a * t * 1 == a * t && (a + 1) * t * 1 == (a + 1) * t);
            lemma_sticky(a, k as int, x, 1);
        } else {
            assert(a * t * 2 < (2 * x + 1) * b < (a + 1) * t * 2) by (nonlinear_arith)
                requires
                    a * t == lo * b,
                    (a + 1) * t == hi * b,
                    2 * lo < 2 * x + 1 < 2 * hi,
                    b > 0,
            ;
            lemma_sticky(a, k as int, 2 * x + 1, 2);
        }
    }
}

/// The integer part of a square root.
pub fn floor_root(n: u64) -> (a: u64)
    requires
        n < 0x4000_0000_0000_0000,
    ensures
        a < 0x8000_0000,
        a * a <= n < (a + 1) * (a + 1),
{
    let mut lo: u64 = 0;
    let mut hi: u64 = 0x8000_0000;
    while hi - lo > 1
        invariant
            n < 0x4000_0000_0000_0000,
            lo < hi <= 0x8000_0000,
            lo * lo <= n < hi * hi,
        decreases hi - lo,
    {
        let mid: u64 = lo + (hi - lo) / 2;
        assert(mid * mid < 0x8000_0000 * 0x8000_0000) by (nonlinear_arith)
            requires
                0 <= mid < 0x8000_0000,
        ;
        if mid * mid <= n {
            lo = mid;
        } else {
            hi = mid;
        }
    }
    assert(hi == lo + 1);
    lo
}

} // verus!
