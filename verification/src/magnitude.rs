//! Arithmetic on the magnitudes of binary32 numbers: bit patterns without a sign.
use vstd::prelude::*;
use vstd::arithmetic::power2::*;
use crate::rounding;
use crate::rounding::INFINITE;

verus! {

/// The magnitude of one.
pub const ONE: u32 = 0x3f80_0000;

/// The significand of a magnitude, leading bit included.
pub open spec fn significand(m: int) -> int {
    if m < 0x80_0000 {
        m
    } else {
        0x80_0000 + m % 0x80_0000
    }
}

/// The power of two, in units, that the significand of a magnitude counts.
pub open spec fn exponent(m: int) -> nat {
    if m < 0x80_0000 {
        0
    } else {
        (m / 0x80_0000 - 1) as nat
    }
}

/// A magnitude as a multiple of the smallest positive number. That of infinity
/// comes out as twice the greatest power of two among the finite numbers.
#[verifier::opaque]
pub open spec fn units(m: int) -> int {
    significand(m) * pow2(exponent(m))
}

/// Greater magnitudes stand for greater numbers.
pub proof fn lemma_units_increase(m1: int, m2: int)
    requires
        0 <= m1 < m2 <= INFINITE,
    ensures
        units(m1) < units(m2),
{
    reveal(units);
    let (c1, c2) = (significand(m1), significand(m2));
    let (e1, e2) = (exponent(m1), exponent(m2));
    let (p1, p2) = (pow2(e1) as int, pow2(e2) as int);
    lemma_pow2_pos(e1);
    if e1 == e2 {
        assert(c1 < c2);
        assert(c1 * p1 < c2 * p1) by (nonlinear_arith)
            requires
                c1 < c2,
                p1 > 0,
        ;
    } else {
        assert(e1 < e2);
        lemma_pow2_unfold(e1 + 1);
        rounding::lemma_pow2_ordered(e1 + 1, e2);
        assert(c1 < 0x100_0000 && c2 >= 0x80_0000);
        assert(c1 * p1 < 0x100_0000 * p1 && 0x80_0000 * (2 * p1) <= 0x80_0000 * p2 && 0x80_0000 * p2
            <= c2 * p2) by (nonlinear_arith)
            requires
                c1 < 0x100_0000,
                c2 >= 0x80_0000,
                p1 > 0,
                2 * p1 <= p2,
        ;
    }
}

pub proof fn lemma_units_sign(m: int)
    requires
        0 <= m <= INFINITE,
    ensures
        units(m) >= 0,
        units(m) == 0 <==> m == 0,
{
    reveal(units);
    vstd::arithmetic::mul::lemma_mul_by_zero_is_zero(pow2(exponent(0)) as int);
    if m > 0 {
        lemma_units_increase(0, m);
    }
}

/// A number rounds to itself.
pub proof fn law_rounding_keeps_numbers(m: int)
    requires
        0 <= m <= INFINITE,
    ensures
        rounding::rounded(units(m), 1) == m,
{
    reveal(units);
    rounding::lemma_rounded_exact(significand(m), exponent(m));
}

/// The units of a magnitude given by its kept bits and its exponent.
proof fn lemma_units_of(t: int, s: nat)
    requires
        0 <= t <= 0x100_0000,
        s > 0 ==> t >= 0x80_0000,
    ensures
        units(t + s * 0x80_0000) == t * pow2(s),
{
    reveal(units);
    let m = t + s * 0x80_0000;
    lemma2_to64();
    if t == 0x100_0000 {
        lemma_pow2_unfold(s + 1);
        assert(m == (s + 2) * 0x80_0000);
        assert(significand(m) == 0x80_0000 && exponent(m) == s + 1);
    } else {
        assert(significand(m) == t && exponent(m) == s);
    }
}

/// A magnitude of an exponent at least `s` is a multiple of two to the power `s`,
/// and one of a lesser exponent lies below two to the power `23 + s`.
proof fn lemma_units_grid(m: int, s: nat) -> (k: int)
    requires
        0 <= m,
    ensures
        k >= 0,
        exponent(m) >= s ==> units(m) == k * pow2(s),
        exponent(m) < s ==> units(m) < 0x80_0000 * pow2(s),
{
    reveal(units);
    let (c, e) = (significand(m), exponent(m));
    lemma_pow2_pos(s);
    if e >= s {
        let g = pow2((e - s) as nat) as int;
        let p = pow2(s) as int;
        lemma_pow2_pos((e - s) as nat);
        lemma_pow2_adds((e - s) as nat, s);
        assert(c * (g * p) == (c * g) * p && c * g >= 0) by (nonlinear_arith)
            requires
                c >= 0,
                g > 0,
        ;
        c * g
    } else {
        lemma_pow2_unfold(e + 1);
        lemma_pow2_pos(e);
        rounding::lemma_pow2_ordered(e + 1, s);
        let (p, q) = (pow2(e) as int, pow2(s) as int);
        assert(c * p < 0x80_0000 * q) by (nonlinear_arith)
            requires
                c < 0x100_0000,
                2 * p <= q,
                p > 0,
        ;
        0
    }
}

/// Rounding gives the nearest magnitude: no other, infinity among them at its
/// place past the finite ones, lies nearer to the exact number.
pub proof fn law_rounding_is_to_nearest(n: int, d: int, m: int)
    requires
        n >= 0,
        d > 0,
        0 <= m <= INFINITE,
    ensures
        rounding::distance(n, d * units(rounding::rounded(n, d))) <= rounding::distance(
            n,
            d * units(m),
        ),
{
    reveal(rounding::rounded);
    let s = rounding::binade(n, d);
    let p = pow2(s) as int;
    let step = d * p;
    let t = rounding::nearest_even(n, step);
    lemma_pow2_pos(s);
    lemma2_to64();
    lemma_pow2_adds(23, s);
    rounding::lemma_binade_bounds(n, d);
    rounding::lemma_nearest_even_bounds(n, d);
    assert(step > 0) by (nonlinear_arith)
        requires
            d > 0,
            p > 0,
            step == d * p,
    ;
    lemma_units_of(t, s);
    if t + s * 0x80_0000 > INFINITE {
        // The exact number lies at infinity's place or past it.
        assert(s >= 254);
        lemma_units_of(0x80_0000, 254);
        lemma_pow2_adds(23, 254);
        rounding::lemma_pow2_ordered(277, 23 + s);
        if m < INFINITE {
            lemma_units_increase(m, INFINITE as int);
        }
        let (u, v) = (units(INFINITE as int), units(m));
        let w = pow2(23 + s) as int;
        assert(d * v <= d * u && d * u <= d * w) by (nonlinear_arith)
            requires
                v <= u,
                u <= w,
                d > 0,
        ;
    } else {
        assert(d * (t * p) == step * t) by (nonlinear_arith)
            requires
                step == d * p,
        ;
        let k = lemma_units_grid(m, s);
        if exponent(m) >= s {
            assert(d * (k * p) == step * k) by (nonlinear_arith)
                requires
                    step == d * p,
            ;
            rounding::lemma_nearest_even_is_nearest(n, step, k);
        } else {
            rounding::lemma_nearest_even_is_nearest(n, step, 0x80_0000);
            let u = units(m);
            assert(d * u <= step * 0x80_0000 && d * (0x80_0000 * p) == step * 0x80_0000)
                by (nonlinear_arith)
                requires
                    u < 0x80_0000 * p,
                    step == d * p,
                    d > 0,
            ;
        }
    }
}

/// Rounding to a finite number errs by no more than one part in two to the power 24,
/// or by half the smallest positive number.
pub proof fn law_rounding_is_close(n: int, d: int)
    requires
        n >= 0,
        d > 0,
        rounding::rounded(n, d) < INFINITE,
    ensures
        ({
            let e = rounding::distance(n, d * units(rounding::rounded(n, d)));
            0x100_0000 * e <= n || 2 * e <= d
        }),
{
    reveal(rounding::rounded);
    let s = rounding::binade(n, d);
    let p = pow2(s) as int;
    let step = d * p;
    let t = rounding::nearest_even(n, step);
    lemma_pow2_pos(s);
    lemma2_to64();
    rounding::lemma_binade_bounds(n, d);
    rounding::lemma_nearest_even_bounds(n, d);
    assert(step > 0) by (nonlinear_arith)
        requires
            d > 0,
            p > 0,
            step == d * p,
    ;
    lemma_units_of(t, s);
    assert(d * (t * p) == step * t && step * (n / step + 1) == step * (n / step) + step)
        by (nonlinear_arith)
        requires
            step == d * p,
    ;
    vstd::arithmetic::div_mod::lemma_fundamental_div_mod(n, step);
    if s == 0 {
        assert(d * 1 == d);
    } else {
        lemma_pow2_adds(23, s);
        assert(d * (0x80_0000 * p) == 0x80_0000 * step) by (nonlinear_arith)
            requires
                step == d * p,
        ;
    }
}

pub proof fn lemma_rounded_range(n: int, d: int)
    requires
        n >= 0,
        d > 0,
    ensures
        0 <= rounding::rounded(n, d) <= INFINITE,
{
    reveal(rounding::rounded);
    rounding::lemma_rounded_zero(d);
    assert(0 * d <= n * d) by (nonlinear_arith)
        requires
            n >= 0,
            d > 0,
    ;
    rounding::law_rounding_keeps_order(0, d, n, d);
}

/// Splits the magnitude of a finite number.
fn unpack(m: u32) -> (r: (u64, u32))
    requires
        m < INFINITE,
    ensures
        r.0 == significand(m as int),
        r.1 == exponent(m as int),
        r.0 <= 0xff_ffff,
        r.1 <= 253,
        r.0 < 0x80_0000 ==> r.1 == 0,
{
    if m < 0x80_0000 {
        (m as u64, 0)
    } else {
        (0x80_0000 + (m % 0x80_0000) as u64, m / 0x80_0000 - 1)
    }
}

/// Splits the magnitude of a finite number other than zero, with the significand
/// shifted up to 24 bits.
fn normalized(m: u32) -> (r: (u64, u32, u32))
    requires
        0 < m < INFINITE,
    ensures
        0x80_0000 <= r.0 <= 0xff_ffff,
        r.0 == significand(m as int) * pow2(r.1 as nat),
        r.1 <= 23,
        r.2 == exponent(m as int),
        r.2 <= 253,
{
    let (sig, e) = unpack(m);
    let mut c: u64 = sig;
    let mut lift: u32 = 0;
    proof {
        lemma2_to64();
        assert(sig * 1 == sig);
    }
    while c < 0x80_0000
        invariant
            0 < sig <= c <= 0xff_ffff,
            c == sig * pow2(lift as nat),
            lift <= 23,
        decreases 0x100_0000 - c,
    {
        proof {
            lemma_pow2_unfold(lift as nat + 1);
            lemma2_to64();
            let p = pow2(lift as nat) as int;
            assert(sig * (2 * p) == 2 * (sig * p) && p <= sig * p) by (nonlinear_arith)
                requires
                    sig >= 1,
                    p >= 0,
            ;
            if lift >= 23 {
                rounding::lemma_pow2_ordered(23, lift as nat);
            }
        }
        c = 2 * c;
        lift = lift + 1;
    }
    (c, lift, e)
}

/// The magnitude of the product of two finite magnitudes.
pub fn multiply(m: u32, n: u32) -> (r: u32)
    requires
        m < INFINITE,
        n < INFINITE,
    ensures
        r == rounding::rounded(units(m as int) * units(n as int), pow2(149) as int),
        r <= INFINITE,
{
    let (c, e) = unpack(m);
    let (d, f) = unpack(n);
    proof {
        reveal(units);
        assert(c * d <= 0xff_ffff * 0xff_ffff) by (nonlinear_arith)
            requires
                0 <= c <= 0xff_ffff,
                0 <= d <= 0xff_ffff,
        ;
        lemma_product(c as int, e as nat, d as int, f as nat);
    }
    rounding::round_scaled(c * d, e as i32 + f as i32 - 149, false)
}

proof fn lemma_product(c: int, e: nat, d: int, f: nat)
    requires
        c >= 0,
        d >= 0,
    ensures
        rounding::dyadic(2 * (c * d), e + f - 150) == rounding::rounded(
            (c * pow2(e)) * (d * pow2(f)),
            pow2(149) as int,
        ),
{
    let b = pow2(149) as int;
    let (p, q) = (pow2(e) as int, pow2(f) as int);
    let v = 2 * (c * d);
    let n = (c * p) * (d * q);
    lemma_pow2_pos(149);
    lemma_pow2_pos(e);
    lemma_pow2_pos(f);
    let o = pow2((e + f + 850) as nat) as int;
    lemma_pow2_adds(e, f);
    lemma_pow2_adds(e + f, 1000);
    lemma_pow2_adds((e + f + 850) as nat, 149);
    lemma_pow2_unfold((e + f + 1000) as nat);
    assert(v >= 0 && n >= 0) by (nonlinear_arith)
        requires
            c >= 0,
            d >= 0,
            p > 0,
            q > 0,
            v == 2 * (c * d),
            n == (c * p) * (d * q),
    ;
    assert(v * o * b == n * pow2(1000)) by (nonlinear_arith)
        requires
            v == 2 * (c * d),
            n == (c * p) * (d * q),
            2 * (o * b) == (p * q) * pow2(1000),
    ;
    rounding::lemma_dyadic_is(v, e + f - 150, n, b);
}

/// The magnitude of the sum or the difference of two magnitudes, the greater first.
pub fn combine(m: u32, n: u32, add: bool) -> (r: u32)
    requires
        n <= m < INFINITE,
        m > 0,
        !add ==> n < m,
    ensures
        r == rounding::rounded(
            if add {
                units(m as int) + units(n as int)
            } else {
                units(m as int) - units(n as int)
            },
            1,
        ),
        r <= INFINITE,
{
    proof {
        reveal(units);
    }
    let (c, e) = unpack(m);
    let (d, f) = unpack(n);
    let gap: u32 = e - f;
    if gap <= 38 {
        proof {
            lemma2_to64_rest();
            rounding::lemma_pow2_ordered(gap as nat, 38);
            assert(c * pow2(gap as nat) <= 0xff_ffff * 0x40_0000_0000) by (nonlinear_arith)
                requires
                    0 <= c <= 0xff_ffff,
                    0 <= pow2(gap as nat) <= 0x40_0000_0000,
            ;
            vstd::bits::lemma_u64_shl_is_mul(c, gap as u64);
            if !add {
                lemma_units_increase(n as int, m as int);
                lemma_pow2_adds(gap as nat, f as nat);
                let g = pow2(gap as nat) as int;
                let q = pow2(f as nat) as int;
                let p = pow2(e as nat) as int;
                assert(c * g > d) by (nonlinear_arith)
                    requires
                        c * p > d * q,
                        p == g * q,
                        q >= 0,
                ;
            }
            lemma_near_sum(c as int, e as nat, d as int, f as nat, add);
        }
        let wide: u64 = c << (gap as u64);
        let v: u64 = if add { wide + d } else { wide - d };
        rounding::round_scaled(v, f as i32, false)
    } else if d == 0 {
        proof {
            lemma_near_sum(c as int, e as nat, 0, e as nat, true);
            lemma2_to64();
            vstd::arithmetic::mul::lemma_mul_by_zero_is_zero(pow2(exponent(n as int)) as int);
            vstd::arithmetic::mul::lemma_mul_by_zero_is_zero(pow2(e as nat) as int);
            assert(units(n as int) == 0);
            assert(c * 1 == c);
        }
        rounding::round_scaled(c, e as i32, false)
    } else {
        proof {
            assert(c << 14u64 == c * 0x4000) by (bit_vector)
                requires
                    c <= 0xff_ffff,
            ;
            lemma_far_sum(c as int, e as nat, d as int, f as nat, add);
        }
        let wide: u64 = c << 14u64;
        let a: u64 = if add { wide } else { wide - 1 };
        rounding::round_scaled(a, e as i32 - 14, true)
    }
}

/// Sums whose terms lie close enough to be added as integers.
proof fn lemma_near_sum(c: int, e: nat, d: int, f: nat, add: bool)
    requires
        c >= 0,
        d >= 0,
        f <= e,
        !add ==> c * pow2((e - f) as nat) >= d,
    ensures
        pow2(e) == pow2((e - f) as nat) * pow2(f),
        ({
            let v = if add {
                c * pow2((e - f) as nat) + d
            } else {
                c * pow2((e - f) as nat) - d
            };
            let u = if add {
                c * pow2(e) + d * pow2(f)
            } else {
                c * pow2(e) - d * pow2(f)
            };
            rounding::dyadic(2 * v, f - 1) == rounding::rounded(u, 1)
        }),
{
    let g = pow2((e - f) as nat) as int;
    let q = pow2(f) as int;
    let p = pow2(e) as int;
    let v = if add {
        c * g + d
    } else {
        c * g - d
    };
    let u = if add {
        c * p + d * q
    } else {
        c * p - d * q
    };
    lemma_pow2_adds((e - f) as nat, f);
    lemma_pow2_pos(f);
    lemma_pow2_pos((e - f) as nat);
    assert(c * g >= 0) by (nonlinear_arith)
        requires
            c >= 0,
            g > 0,
    ;
    assert(u == v * q) by (nonlinear_arith)
        requires
            p == g * q,
            v == if add {
                c * g + d
            } else {
                c * g - d
            },
            u == if add {
                c * p + d * q
            } else {
                c * p - d * q
            },
    ;
    assert(u >= 0) by (nonlinear_arith)
        requires
            u == v * q,
            v >= 0,
            q > 0,
    ;
    let o = pow2((f + 999) as nat) as int;
    lemma_pow2_unfold((f + 1000) as nat);
    lemma_pow2_adds(f, 1000);
    assert((2 * v) * o * 1 == u * pow2(1000)) by (nonlinear_arith)
        requires
            u == v * q,
            2 * o == q * pow2(1000),
    ;
    rounding::lemma_dyadic_is(2 * v, f - 1, u, 1);
}

/// Sums in which the lesser term only tells on which side of the greater one
/// the exact result lies.
proof fn lemma_far_sum(c: int, e: nat, d: int, f: nat, add: bool)
    requires
        0x80_0000 <= c <= 0xff_ffff,
        0 < d <= 0xff_ffff,
        f + 38 < e,
    ensures
        ({
            let a = if add {
                c * 0x4000
            } else {
                c * 0x4000 - 1
            };
            let u = if add {
                c * pow2(e) + d * pow2(f)
            } else {
                c * pow2(e) - d * pow2(f)
            };
            rounding::dyadic(2 * a + 1, e - 15) == rounding::rounded(u, 1)
        }),
{
    let p = pow2(e) as int;
    let q = pow2(f) as int;
    let b = pow2(1000) as int;
    let w = pow2((e - 14 + 1000) as nat) as int;
    let a = if add {
        c * 0x4000
    } else {
        c * 0x4000 - 1
    };
    let u = if add {
        c * p + d * q
    } else {
        c * p - d * q
    };
    lemma2_to64();
    lemma_pow2_pos(f);
    lemma_pow2_pos(1000);
    lemma_pow2_adds(14, (e - 14 + 1000) as nat);
    lemma_pow2_adds(e, 1000);
    lemma_pow2_adds(f, 1000);
    lemma_pow2_adds(24, (f + 1000) as nat);
    rounding::lemma_pow2_ordered(24 + (f + 1000) as nat, (e - 14 + 1000) as nat);
    let t = d * (q * b);
    assert(0 < t < w) by (nonlinear_arith)
        requires
            0 < d < 0x100_0000,
            q > 0,
            b > 0,
            0x100_0000 * (q * b) <= w,
            t == d * (q * b),
    ;
    assert(c * p * b == c * 0x4000 * w) by (nonlinear_arith)
        requires
            p * b == 0x4000 * w,
    ;
    assert(u * b == if add {
        c * 0x4000 * w + t
    } else {
        c * 0x4000 * w - t
    }) by (nonlinear_arith)
        requires
            c * p * b == c * 0x4000 * w,
            t == d * (q * b),
            u == if add {
                c * p + d * q
            } else {
                c * p - d * q
            },
    ;
    assert((c * 0x4000 + 1) * w == c * 0x4000 * w + w && (c * 0x4000 - 1) * w == c * 0x4000 * w - w)
        by (nonlinear_arith);
    assert(u >= 0) by (nonlinear_arith)
        requires
            u * b > 0,
            b > 0,
    ;
    rounding::lemma_sticky(a, e - 14, u, 1);
}

/// The magnitude of the quotient of two finite magnitudes, the second not zero.
pub fn divide(m: u32, n: u32) -> (r: u32)
    requires
        m < INFINITE,
        0 < n < INFINITE,
    ensures
        r == rounding::rounded(units(m as int) * pow2(149), units(n as int)),
        r <= INFINITE,
{
    proof {
        reveal(units);
    }
    if m == 0 {
        proof {
            lemma_units_sign(n as int);
            lemma_units_sign(0);
            vstd::arithmetic::mul::lemma_mul_by_zero_is_zero(pow2(149) as int);
            rounding::lemma_rounded_zero(units(n as int));
        }
        return 0;
    }
    let (c, lift, e) = normalized(m);
    let (d, f) = unpack(n);
    assert(c << 38u64 == c * 0x40_0000_0000) by (bit_vector)
        requires
            c <= 0xff_ffff,
    ;
    let wide: u64 = c << 38u64;
    let q: u64 = wide / d;
    let rest: u64 = wide % d;
    let k: i32 = e as i32 - lift as i32 - f as i32 + 111;
    proof {
        lemma_quotient(significand(m as int), lift as nat, e as nat, c as int, d as int, f as nat);
    }
    rounding::round_scaled(q, k, rest != 0)
}

proof fn lemma_quotient(sig: int, lift: nat, e: nat, c: int, d: int, f: nat)
    requires
        sig > 0,
        0x80_0000 <= c <= 0xff_ffff,
        c == sig * pow2(lift),
        lift <= 23,
        e <= 253,
        f <= 253,
        0 < d <= 0xff_ffff,
    ensures
        ({
            let wide = c * 0x40_0000_0000;
            let k = e - lift - f + 111;
            let q = wide / d;
            &&& q >= 0x100_0000
            &&& q < 0x4000_0000_0000_0000
            &&& rounding::dyadic(
                if wide % d != 0 {
                    2 * q + 1
                } else {
                    2 * q
                },
                k - 1,
            ) == rounding::rounded((sig * pow2(e)) * pow2(149), d * pow2(f))
        }),
{
    let wide = c * 0x40_0000_0000;
    let k = e - lift - f + 111;
    let q = wide / d;
    let r = wide % d;
    vstd::arithmetic::div_mod::lemma_fundamental_div_mod(wide, d);
    assert(0x100_0000 <= q < 0x4000_0000_0000_0000) by (nonlinear_arith)
        requires
            wide == d * q + r,
            0 <= r < d,
            0 < d <= 0xff_ffff,
            0x80_0000 * 0x40_0000_0000 <= wide < 0x4000_0000_0000_0000,
    ;
    let (pe, pf, pl) = (pow2(e) as int, pow2(f) as int, pow2(lift) as int);
    let b = pow2(1000) as int;
    let t = pow2((k + 1000) as nat) as int;
    let o = pow2(149) as int;
    lemma_pow2_pos(e);
    lemma_pow2_pos(f);
    lemma_pow2_pos(149);
    lemma_pow2_pos(1000);
    lemma_pow2_pos((k + 1000) as nat);
    lemma2_to64();
    lemma2_to64_rest();
    // Both sides of the scaling have the same power of two.
    lemma_pow2_adds(38, (k + 1000) as nat);
    lemma_pow2_adds(38 + (k + 1000) as nat, f);
    lemma_pow2_adds(38 + (k + 1000) as nat + f, lift);
    lemma_pow2_adds(e, 149);
    lemma_pow2_adds(e + 149, 1000);
    assert(38 + (k + 1000) as nat + f + lift == e + 149 + 1000);
    let n = (sig * pe) * o;
    let den = d * pf;
    assert(n >= 0 && den > 0) by (nonlinear_arith)
        requires
            sig > 0,
            pe > 0,
            o > 0,
            d > 0,
            pf > 0,
            n == (sig * pe) * o,
            den == d * pf,
    ;
    let y = 0x40_0000_0000 * t;
    assert(n * b == (sig * pl) * (y * pf)) by (nonlinear_arith)
        requires
            n == (sig * pe) * o,
            y * pf * pl == pe * o * b,
    ;
    assert(n * b == wide * t * pf) by (nonlinear_arith)
        requires
            n * b == c * (y * pf),
            y == 0x40_0000_0000 * t,
            wide == c * 0x40_0000_0000,
    ;
    assert(n * b == q * t * den + r * t * pf) by (nonlinear_arith)
        requires
            n * b == wide * t * pf,
            wide == d * q + r,
            den == d * pf,
    ;
    if r == 0 {
        let h = pow2((k + 999) as nat) as int;
        lemma_pow2_unfold((k + 1000) as nat);
        assert((2 * q) * h * den == n * b) by (nonlinear_arith)
            requires
                n * b == q * t * den + r * t * pf,
                r == 0,
                t == 2 * h,
        ;
        rounding::lemma_dyadic_is(2 * q, k - 1, n, den);
    } else {
        assert(0 < r * t * pf && r * t * pf < t * den) by (nonlinear_arith)
            requires
                0 < r < d,
                t > 0,
                pf > 0,
                den == d * pf,
        ;
        assert((q + 1) * t * den == q * t * den + t * den) by (nonlinear_arith);
        rounding::lemma_sticky(q, k, n, den);
    }
}

/// The magnitude of the square root of a finite magnitude other than zero.
pub fn square_root(m: u32) -> (r: u32)
    requires
        0 < m < INFINITE,
    ensures
        r == rounding::rounded_root(units(m as int) * pow2(149)),
        r <= INFINITE,
{
    let (c, lift, e) = normalized(m);
    let x: i32 = e as i32 - lift as i32 + 149;
    assert(c << 36u64 == c * 0x10_0000_0000 && c << 37u64 == c * 0x20_0000_0000) by (bit_vector)
        requires
            c <= 0xff_ffff,
    ;
    let j: i32 = if x % 2 == 0 { 36 } else { 37 };
    let wide: u64 = if x % 2 == 0 { c << 36u64 } else { c << 37u64 };
    let a: u64 = rounding::floor_root(wide);
    let k: i32 = (x - j) / 2;
    proof {
        reveal(units);
        assert(a >= 0x100_0000) by (nonlinear_arith)
            requires
                wide >= 0x80_0000 * 0x10_0000_0000,
                wide < (a + 1) * (a + 1),
                a >= 0,
        ;
        lemma_root_scale(
            significand(m as int),
            lift as nat,
            e as nat,
            c as int,
            wide as int,
            k as int,
        );
        rounding::lemma_rounded_root(a as int, wide as int, k as nat);
    }
    rounding::round_scaled(a, k, a * a != wide)
}

proof fn lemma_root_scale(sig: int, lift: nat, e: nat, c: int, wide: int, k: int)
    requires
        sig > 0,
        c == sig * pow2(lift),
        lift <= 23,
        k >= 0,
        (wide == c * 0x10_0000_0000 && e - lift + 149 == 36 + 2 * k) || (wide == c * 0x20_0000_0000
            && e - lift + 149 == 37 + 2 * k),
    ensures
        (sig * pow2(e)) * pow2(149) == wide * (pow2(k as nat) * pow2(k as nat)),
{
    let (pe, pl, pk) = (pow2(e) as int, pow2(lift) as int, pow2(k as nat) as int);
    let o = pow2(149) as int;
    lemma2_to64();
    lemma2_to64_rest();
    lemma_pow2_adds(e, 149);
    lemma_pow2_adds(k as nat, k as nat);
    lemma_pow2_adds(lift, (k + k) as nat);
    if wide == c * 0x10_0000_0000 && e - lift + 149 == 36 + 2 * k {
        lemma_pow2_adds(36, lift + (k + k) as nat);
        assert((sig * pe) * o == wide * (pk * pk)) by (nonlinear_arith)
            requires
                pe * o == 0x10_0000_0000 * (pl * (pk * pk)),
                wide == sig * pl * 0x10_0000_0000,
        ;
    } else {
        lemma_pow2_adds(37, lift + (k + k) as nat);
        assert((sig * pe) * o == wide * (pk * pk)) by (nonlinear_arith)
            requires
                pe * o == 0x20_0000_0000 * (pl * (pk * pk)),
                wide == sig * pl * 0x20_0000_0000,
        ;
    }
}

/// The magnitude nearest to an integer.
pub fn of_integer(n: u32) -> (r: u32)
    ensures
        r == rounding::rounded(n * pow2(149), 1),
        r <= INFINITE,
{
    proof {
        lemma_near_sum(n as int, 149, 0, 149, true);
        lemma2_to64();
        vstd::arithmetic::mul::lemma_mul_by_zero_is_zero(pow2(149) as int);
        assert(n * 1 == n);
    }
    rounding::round_scaled(n as u64, 149, false)
}

/// The integer part of a magnitude, up to 255.
pub fn integer_part(m: u32) -> (r: u8)
    requires
        m <= INFINITE,
    ensures
        r == if units(m as int) / pow2(149) as int >= 255 {
            255
        } else {
            units(m as int) / pow2(149) as int
        },
{
    // Below one the integer part is zero, from 256 up it is past a byte.
    if m < ONE {
        proof {
            lemma_units_increase(m as int, ONE as int);
            lemma_units_sign(m as int);
            lemma_unit_powers();
            vstd::arithmetic::div_mod::lemma_basic_div(units(m as int), pow2(149) as int);
        }
        return 0;
    }
    if m >= 0x4380_0000 {
        proof {
            if m > 0x4380_0000 {
                lemma_units_increase(0x4380_0000, m as int);
            }
            lemma_unit_powers();
            lemma_pow2_pos(149);
            vstd::arithmetic::div_mod::lemma_div_is_ordered(
                256 * pow2(149) as int,
                units(m as int),
                pow2(149) as int,
            );
            vstd::arithmetic::div_mod::lemma_div_by_multiple(256, pow2(149) as int);
        }
        return 255;
    }
    let (c, e) = unpack(m);
    proof {
        reveal(units);
        lemma_integer_part(c as int, e as nat);
        vstd::bits::lemma_u64_shr_is_div(c, (149 - e) as u64);
        lemma2_to64();
        rounding::lemma_pow2_ordered(16, (149 - e) as nat);
        let w = pow2((149 - e) as nat) as int;
        vstd::arithmetic::div_mod::lemma_div_is_ordered_by_denominator(c as int, 0x1_0000, w);
    }
    (c >> ((149 - e) as u64)) as u8
}

/// A magnitude whose number is half as great.
pub proof fn lemma_half_units(m: int)
    requires
        0x100_0000 <= m <= INFINITE,
    ensures
        units(m) == 2 * units(m - 0x80_0000),
{
    reveal(units);
    let (c, e) = (significand(m), exponent(m));
    assert(significand(m - 0x80_0000) == c && exponent(m - 0x80_0000) == e - 1);
    lemma_pow2_unfold(e);
    let p = pow2((e - 1) as nat) as int;
    assert(c * (2 * p) == 2 * (c * p)) by (nonlinear_arith);
}

/// From two to the power 24 on, numbers are even.
proof fn lemma_even_units(m: int)
    requires
        m >= 0x100_0000,
    ensures
        units(m) % 2 == 0,
{
    reveal(units);
    let (c, e) = (significand(m), exponent(m));
    lemma_pow2_unfold(e);
    let p = pow2((e - 1) as nat) as int;
    assert(c * (2 * p) == 2 * (c * p)) by (nonlinear_arith);
}

/// A magnitude that is a power of two.
proof fn lemma_units_of_power(e: nat)
    ensures
        units(0x80_0000int + e * 0x80_0000) == pow2(23 + e),
{
    lemma2_to64();
    lemma_units_of(0x80_0000, e);
    lemma_pow2_adds(23, e);
}

/// The rounded root of a finite number is finite, far from the subnormal numbers, and
/// the exact one lies between the midpoints to its neighbors.
pub proof fn lemma_root_is_nearest(a: int)
    requires
        0 < a < INFINITE,
    ensures
        ({
            let m = rounding::rounded_root(units(a) * pow2(149));
            let low = units(m - 1) + units(m);
            let high = units(m) + units(m + 1);
            &&& 0x1a00_0000 <= m < INFINITE
            &&& low * low <= 4 * (units(a) * pow2(149)) <= high * high
        }),
{
    let unit = pow2(149) as int;
    let n = units(a) * unit;
    let b = rounding::integer_root(n);
    let m = rounding::rounded_root(n);
    let (least, most) = (52 * 0x80_0000int, 191 * 0x80_0000int);
    let (x, y) = (pow2(74) as int, pow2(213) as int);
    lemma_pow2_pos(74);
    lemma_pow2_pos(149);
    lemma_pow2_pos(213);
    lemma_units_sign(a);
    lemma_units_increase(a, INFINITE as int);
    lemma_units_of_power(51);
    lemma_units_of_power(190);
    lemma_units_of_power(254);
    lemma_pow2_adds(74, 74);
    lemma_pow2_unfold(149);
    lemma_pow2_adds(213, 213);
    lemma_pow2_adds(277, 149);
    assert(x * x <= n && n < y * y) by (nonlinear_arith)
        requires
            n == units(a) * unit,
            1 <= units(a) < pow2(277),
            unit == 2 * (x * x),
            x > 0,
            pow2(277) * unit == y * y,
    ;
    rounding::lemma_integer_root_exists(n);
    assert(x <= b < y) by (nonlinear_arith)
        requires
            x * x <= n < y * y,
            b * b <= n < (b + 1) * (b + 1),
            b >= 0,
            x > 0,
            y > 0,
    ;
    law_rounding_keeps_numbers(least);
    law_rounding_keeps_numbers(most);
    // The root, exact or not, rounds as `c / 2`.
    let c = if b * b == n {
        2 * b
    } else {
        2 * b + 1
    };
    if b * b == n {
        rounding::lemma_rounded_of_equal(b, 1, 2 * b, 2);
    }
    assert(m == rounding::rounded(c, 2));
    rounding::law_rounding_keeps_order(x, 1, c, 2);
    rounding::law_rounding_keeps_order(c, 2, y, 1);
    assert(least <= m <= most);
    lemma_even_units(m - 1);
    lemma_even_units(m);
    lemma_even_units(m + 1);
    lemma_units_increase(m - 1, m);
    lemma_units_increase(m, m + 1);
    lemma_units_sign(m - 1);
    law_rounding_is_to_nearest(c, 2, m - 1);
    law_rounding_is_to_nearest(c, 2, m + 1);
    let low = units(m - 1) + units(m);
    let high = units(m) + units(m + 1);
    assert(0 <= low <= 2 * b);
    assert(if b * b == n {
        high >= 2 * b
    } else {
        high >= 2 * b + 2
    });
    assert(low * low <= 4 * n) by (nonlinear_arith)
        requires
            0 <= low <= 2 * b,
            b * b <= n,
    ;
    if b * b == n {
        assert(4 * n <= high * high) by (nonlinear_arith)
            requires
                high >= 2 * b,
                b >= 0,
                b * b == n,
        ;
    } else {
        assert(4 * n <= high * high) by (nonlinear_arith)
            requires
                high >= 2 * b + 2,
                b >= 0,
                n < (b + 1) * (b + 1),
        ;
    }
}

/// Neighboring numbers of 24 bits lie within one part in two to the power 23.
pub proof fn lemma_spacing(m: int)
    requires
        0x80_0000 <= m < INFINITE,
    ensures
        0x80_0000 * (units(m + 1) - units(m)) <= units(m),
{
    let (c, e) = (significand(m), exponent(m));
    let p = pow2(e) as int;
    lemma_pow2_pos(e);
    lemma_units_of(c, e);
    lemma_units_of(c + 1, e);
    assert((c + 1) * p == c * p + p && 0x80_0000 * p <= c * p) by (nonlinear_arith)
        requires
            c >= 0x80_0000,
            p > 0,
    ;
}

/// Two to the power 74, the least root of a positive number, is no small number of units.
pub proof fn lemma_least_root()
    ensures
        units(0x1a00_0000) >= 0x1_0000_0000,
{
    lemma_units_of_power(51);
    lemma2_to64();
    rounding::lemma_pow2_ordered(32, 74);
}

/// One and 256, in units.
pub proof fn lemma_unit_powers()
    ensures
        units(ONE as int) == pow2(149),
        units(0x4380_0000) == 256 * pow2(149),
{
    reveal(units);
    lemma2_to64();
    lemma_pow2_adds(23, 126);
    lemma_pow2_adds(23, 134);
    lemma_pow2_adds(8, 149);
}

proof fn lemma_integer_part(c: int, e: nat)
    requires
        c >= 0,
        e <= 149,
    ensures
        (c * pow2(e)) / pow2(149) as int == c / pow2((149 - e) as nat) as int,
{
    let w = pow2((149 - e) as nat) as int;
    let p = pow2(e) as int;
    lemma_pow2_pos(e);
    lemma_pow2_pos((149 - e) as nat);
    lemma_pow2_adds(e, (149 - e) as nat);
    vstd::arithmetic::div_mod::lemma_div_multiples_vanish_quotient(p, c, w);
    assert(c * p == p * c && w * p == p * w) by (nonlinear_arith);
}

} // verus!
