//! Turning rendered colors into the bytes of an RGBA frame.
use vstd::prelude::*;
use vstd::arithmetic::power2::*;
use crate::magnitude;
use crate::scalar;
use crate::scalar::{ONE, Scalar, ZERO};

verus! {

/// 255, the greatest byte.
pub const FULL: u32 = 0x437f_0000;

/// The byte of a color component: 255 times the component, kept from 0 to 255,
/// without its fraction.
pub open spec fn channel(f: Scalar) -> u8 {
    f.times(Scalar { bits: FULL }).clamped(Scalar { bits: ZERO }, Scalar { bits: FULL }).to_byte()
}

/// The byte at a place of the frame. Every fourth one is the alpha of a pixel,
/// which is opaque.
pub open spec fn frame_byte(place: int, f: Scalar) -> u8 {
    if place % 4 == 3 {
        255
    } else {
        channel(f)
    }
}

/// The byte of a color component.
pub fn channel_byte(f: Scalar) -> (r: u8)
    ensures
        r == channel(f),
{
    f.times(Scalar { bits: FULL }).clamped(Scalar { bits: ZERO }, Scalar { bits: FULL }).to_byte()
}

/// The number of bytes in a frame, as far as 32 bits count them.
pub open spec fn frame_size(width: u32, height: u32) -> Option<int> {
    let bytes = width * height * 4;
    if bytes <= u32::MAX {
        Some(bytes)
    } else {
        None
    }
}

/// Whether a buffer of `len` bytes holds a frame.
pub open spec fn frame_fits(width: u32, height: u32, len: nat) -> bool {
    frame_size(width, height) matches Some(n) ==> n <= len
}

/// The number of bytes in a frame, or nothing where 32 bits do not count them.
pub fn frame_len(width: u32, height: u32) -> (r: Option<usize>)
    ensures
        r is Some <==> frame_size(width, height) is Some,
        r matches Some(n) ==> frame_size(width, height) == Some(n as int),
{
    assert(0 <= width * height <= 0xffff_ffff * 0xffff_ffff) by (nonlinear_arith)
        requires
            0 <= width <= 0xffff_ffff,
            0 <= height <= 0xffff_ffff,
    ;
    let pixels: u64 = width as u64 * height as u64;
    if pixels <= 0x3fff_ffff {
        Some((pixels * 4) as usize)
    } else {
        None
    }
}

/// A frame that is no larger either way has no more bytes.
pub proof fn lemma_size_grows(w1: u32, w2: u32, h1: u32, h2: u32)
    requires
        w1 <= w2,
        h1 <= h2,
    ensures
        frame_size(w2, h2) is Some ==> frame_size(w1, h1) == Some(w1 * h1 * 4),
{
    assert(0 <= w1 * h1 <= w2 * h2) by (nonlinear_arith)
        requires
            0 <= w1 <= w2,
            0 <= h1 <= h2,
    ;
}

/// A frame buffer after the first `n` bytes have been filled from the colors.
pub open spec fn filled(before: Seq<u8>, colors: Seq<Scalar>, n: int) -> Seq<u8> {
    Seq::new(
        before.len(),
        |i: int|
            if i < n {
                frame_byte(i, colors[i])
            } else {
                before[i]
            },
    )
}

/// How many bytes there are colors for.
pub open spec fn covered(colors: Seq<Scalar>, len: int) -> int {
    if colors.len() < len {
        colors.len() as int
    } else {
        len
    }
}

/// Fills the first `len` bytes of a frame buffer, as far as there are colors.
pub fn fill_frame(colors: &[Scalar], len: usize, out: &mut [u8])
    requires
        len <= old(out)@.len(),
    ensures
        final(out)@ == filled(old(out)@, colors@, covered(colors@, len as int)),
{
    let n: usize = if colors.len() < len { colors.len() } else { len };
    let ghost before = out@;
    for i in 0..n
        invariant
            n == covered(colors@, len as int),
            n <= before.len(),
            n <= colors@.len(),
            out@.len() == before.len(),
            out@ == filled(before, colors@, i as int),
    {
        out[i] = if i % 4 == 3 { 255 } else { channel_byte(colors[i]) };
        assert(out@ =~= filled(before, colors@, i + 1));
    }
}

/// 255, in units.
proof fn lemma_full_value()
    ensures
        (Scalar { bits: FULL }).value() == 255 * pow2(149),
        (Scalar { bits: ZERO }).value() == 0,
{
    magnitude::lemma_units_sign(0);
    reveal(magnitude::units);
    lemma2_to64();
    lemma_pow2_adds(16, 133);
    assert(magnitude::significand(FULL as int) == 0xff_0000);
    assert(magnitude::exponent(FULL as int) == 133);
}

/// A component of one or more gives the full byte; one of zero or less, or one
/// that is no number, gives none.
pub proof fn law_channel_limits(f: Scalar)
    ensures
        (Scalar { bits: ONE }).le(f) ==> channel(f) == 255,
        !(Scalar { bits: ZERO }).lt(f) ==> channel(f) == 0,
{
    let full = Scalar { bits: FULL };
    let zero = Scalar { bits: ZERO };
    let one = Scalar { bits: ONE };
    let unit = pow2(149) as int;
    let p = f.times(full);
    scalar::lemma_orders();
    lemma_pow2_pos(149);
    lemma_full_value();
    magnitude::lemma_unit_powers();
    if !f.nan() {
        magnitude::lemma_units_sign(f.magnitude());
    }
    vstd::arithmetic::div_mod::lemma_div_by_multiple(255, unit);
    vstd::arithmetic::div_mod::lemma_div_of0(unit);
    if f.finite() {
        scalar::lemma_times_value(f, full);
        scalar::lemma_nearest_value_exact(full);
        scalar::lemma_nearest_value_exact(zero);
        if one.le(f) {
            assert(full.value() * unit <= (f.value() * full.value()) * 1) by (nonlinear_arith)
                requires
                    f.value() >= unit,
                    full.value() >= 0,
            ;
            scalar::lemma_nearest_value_ordered(full.value(), 1, f.value() * full.value(), unit);
        } else if !zero.lt(f) {
            assert((f.value() * full.value()) * 1 <= 0 * unit) by (nonlinear_arith)
                requires
                    f.value() <= 0,
                    full.value() >= 0,
            ;
            scalar::lemma_nearest_value_ordered(f.value() * full.value(), unit, 0, 1);
        }
    } else {
        reveal(Scalar::spec_times);
        magnitude::lemma_units_increase(FULL as int, crate::rounding::INFINITE as int);
    }
}

/// A greater component never gives a lesser byte.
pub proof fn law_channel_keeps_order(f: Scalar, g: Scalar)
    requires
        f.le(g),
    ensures
        channel(f) <= channel(g),
{
    let full = Scalar { bits: FULL };
    let zero = Scalar { bits: ZERO };
    let unit = pow2(149) as int;
    scalar::lemma_orders();
    lemma_pow2_pos(149);
    lemma_full_value();
    law_channel_limits(f);
    law_channel_limits(g);
    magnitude::lemma_unit_powers();
    if f.finite() && g.finite() {
        scalar::lemma_times_value(f, full);
        scalar::lemma_times_value(g, full);
        let (a, b) = (f.value() * full.value(), g.value() * full.value());
        assert(a * unit <= b * unit) by (nonlinear_arith)
            requires
                f.value() <= g.value(),
                full.value() >= 0,
                unit > 0,
                a == f.value() * full.value(),
                b == g.value() * full.value(),
        ;
        scalar::lemma_nearest_value_ordered(a, unit, b, unit);
        let (p, q) = (
            f.times(full).clamped(zero, full),
            g.times(full).clamped(zero, full),
        );
        assert(p.value() <= q.value());
        vstd::arithmetic::div_mod::lemma_div_is_ordered(p.value(), q.value(), unit);
    } else if g.finite() {
        magnitude::lemma_units_sign(f.magnitude());
        if !f.negative() {
            magnitude::lemma_units_increase(g.magnitude(), f.magnitude());
            magnitude::lemma_units_sign(g.magnitude());
        }
    } else {
        magnitude::lemma_units_increase(magnitude::ONE as int, g.magnitude());
        magnitude::lemma_units_sign(f.magnitude());
        magnitude::lemma_units_sign(g.magnitude());
        if g.negative() && f.finite() {
            magnitude::lemma_units_increase(f.magnitude(), g.magnitude());
        }
    }
}

/// Every pixel that a frame covers is opaque, and what it does not cover is left
/// as it was.
pub proof fn law_covered_pixels_are_opaque(before: Seq<u8>, colors: Seq<Scalar>, len: int)
    requires
        0 <= len <= before.len(),
    ensures
        ({
            let n = covered(colors, len);
            let after = filled(before, colors, n);
            &&& after.len() == before.len()
            &&& forall|i: int| 0 <= i < n && i % 4 == 3 ==> #[trigger] after[i] == 255
            &&& forall|i: int| n <= i < before.len() ==> #[trigger] after[i] == before[i]
        }),
{
}

} // verus!
