//! BT.601 colour conversion as single-precision arithmetic evaluates it.
//!
//! Every quantity is held exactly as an integer count of `2^-27` units.  All
//! coefficients of the transform are single-precision numbers whose binary
//! expansions end at or above `2^-27`, every product of such a coefficient
//! with a byte is again a multiple of `2^-27`, and so is every single-precision
//! rounding of such a value while its magnitude stays below `2^40` units.  So
//! the whole evaluation can be replayed exactly with integers.
use vstd::prelude::*;

verus! {

/// Number of `2^-27` units in one.
pub const UNIT: i64 = 0x800_0000;

/// Values below `2^24` units are exact in single precision (24 significant bits).
pub const EXACT_LIMIT: u64 = 0x100_0000;

/// Magnitude bound (in units) within which the model is used.
pub const MAG_LIMIT: i64 = 0x100_0000_0000;

/// Single-precision `0.299`, in units.
pub const Y_R: i64 = 40131100;
/// Single-precision `0.587`, in units.
pub const Y_G: i64 = 78785808;
/// Single-precision `0.114`, in units.
pub const Y_B: i64 = 15300821;
/// Single-precision `-0.147`, in units.
pub const U_R: i64 = -19730006;
/// Single-precision `0.289`, in units.
pub const U_G: i64 = 38788924;
/// Single-precision `0.436`, in units.
pub const U_B: i64 = 58518928;
/// Single-precision `0.615`, in units.
pub const V_R: i64 = 82543904;
/// Single-precision `0.515`, in units.
pub const V_G: i64 = 69122128;
/// Single-precision `0.100`, in units.
pub const V_B: i64 = 13421773;
/// `128.0`, in units.
pub const CHROMA_OFFSET: i64 = 0x4_0000_0000;

/// Spacing of the single-precision numbers around a magnitude of `a` units:
/// the least power of two `q` with `a < q * 2^24`.
pub open spec fn quantum(a: nat) -> nat
    decreases a,
{
    if a < 0x100_0000 {
        1
    } else {
        2 * quantum(a / 2)
    }
}

/// Magnitude `a` rounded to the nearest single-precision number, ties to even.
pub open spec fn round_mag(a: nat) -> nat {
    let q = quantum(a);
    let k = a / q;
    let r = a % q;
    if 2 * r < q {
        k * q
    } else if 2 * r > q {
        (k + 1) * q
    } else if k % 2 == 0 {
        k * q
    } else {
        (k + 1) * q
    }
}

/// Round-to-nearest-even of a signed value: the magnitude is rounded and the sign kept.
pub open spec fn round_f32(n: int) -> int {
    if n >= 0 {
        round_mag(n as nat) as int
    } else {
        -(round_mag((-n) as nat) as int)
    }
}

/// `clamp(0.0, 255.0) as u8` applied to a value held in units.
pub open spec fn to_byte(t: int) -> u8 {
    if t <= 0 {
        0
    } else if t >= 255 * UNIT {
        255
    } else {
        (t / (UNIT as int)) as u8
    }
}

/// `0.299 * r + 0.587 * g + 0.114 * b`, evaluated left to right in single precision.
pub open spec fn luma_units(r: u8, g: u8, b: u8) -> int {
    round_f32(round_f32(round_f32(Y_R * r) + round_f32(Y_G * g)) + round_f32(Y_B * b))
}

/// `-0.147 * r - 0.289 * g + 0.436 * b + 128.0`, evaluated left to right in single precision.
pub open spec fn chroma_u_units(r: u8, g: u8, b: u8) -> int {
    round_f32(
        round_f32(round_f32(round_f32(U_R * r) - round_f32(U_G * g)) + round_f32(U_B * b))
            + CHROMA_OFFSET,
    )
}

/// `0.615 * r - 0.515 * g - 0.100 * b + 128.0`, evaluated left to right in single precision.
pub open spec fn chroma_v_units(r: u8, g: u8, b: u8) -> int {
    round_f32(
        round_f32(round_f32(round_f32(V_R * r) - round_f32(V_G * g)) - round_f32(V_B * b))
            + CHROMA_OFFSET,
    )
}

/// The luma byte of an RGB pixel.
pub open spec fn spec_luma(r: u8, g: u8, b: u8) -> u8 {
    to_byte(luma_units(r, g, b))
}

/// The blue-difference chroma byte of an RGB pixel.
pub open spec fn spec_chroma_u(r: u8, g: u8, b: u8) -> u8 {
    to_byte(chroma_u_units(r, g, b))
}

/// The red-difference chroma byte of an RGB pixel.
pub open spec fn spec_chroma_v(r: u8, g: u8, b: u8) -> u8 {
    to_byte(chroma_v_units(r, g, b))
}

pub(crate) proof fn lemma_quantum_bounds(a: nat)
    ensures
        quantum(a) >= 1,
        a < quantum(a) * 0x100_0000,
        a >= 0x100_0000 ==> quantum(a) * 0x80_0000 <= a,
    decreases a,
{
    if a >= 0x100_0000 {
        lemma_quantum_bounds(a / 2);
    }
}

/// Rounds a value held in units to single precision.
fn round_units(n: i64) -> (r: i64)
    requires
        -MAG_LIMIT < n < MAG_LIMIT,
    ensures
        r == round_f32(n as int),
        n >= 0 ==> 0 <= r <= 2 * n,
        n < 0 ==> 2 * n <= r <= 0,
{
    let a: u64 = if n < 0 { (0 - n) as u64 } else { n as u64 };
    let mut s: u64 = a;
    let mut q: u64 = 1;
    while s >= EXACT_LIMIT
        invariant
            q >= 1,
            s <= a,
            q * s <= a,
            a < MAG_LIMIT,
            quantum(a as nat) == q * quantum(s as nat),
        decreases s,
    {
        proof {
            assert(quantum(s as nat) == 2 * quantum((s / 2) as nat));
            assert(q * (2 * quantum((s / 2) as nat)) == (2 * q) * quantum((s / 2) as nat))
                by (nonlinear_arith);
            assert(q * s >= q * EXACT_LIMIT) by (nonlinear_arith)
                requires s >= EXACT_LIMIT, q >= 1;
            assert((2 * q) * (s / 2) <= q * s) by (nonlinear_arith);
        }
        s = s / 2;
        q = q * 2;
    }
    proof {
        lemma_quantum_bounds(a as nat);
        assert(quantum(s as nat) == 1);
        assert(q * quantum(s as nat) == q) by (nonlinear_arith)
            requires quantum(s as nat) == 1;
        assert(quantum(a as nat) == q);
    }
    let k: u64 = a / q;
    let rem: u64 = a % q;
    proof {
        assert(k * q + rem == a) by (nonlinear_arith)
            requires k == a / q, rem == a % q, q >= 1;
        assert(rem < q) by (nonlinear_arith)
            requires rem == a % q, q >= 1;
        if a >= EXACT_LIMIT {
            assert(q <= a);
        } else {
            assert(q == 1);
        }
    }
    let m: u64 = if 2 * rem < q {
        k * q
    } else if 2 * rem > q {
        k * q + q
    } else if k % 2 == 0 {
        k * q
    } else {
        k * q + q
    };
    proof {
        assert((k + 1) * q == k * q + q) by (nonlinear_arith);
        assert(m as nat == round_mag(a as nat));
        if a == 0 {
            assert(k == 0) by (nonlinear_arith)
                requires k == a / q, q >= 1, a == 0;
        }
    }
    if n < 0 {
        0 - (m as i64)
    } else {
        m as i64
    }
}

/// `clamp(0.0, 255.0) as u8` of a value held in units.
fn units_to_byte(t: i64) -> (v: u8)
    ensures
        v == to_byte(t as int),
{
    if t <= 0 {
        0
    } else if t >= 255 * UNIT {
        255
    } else {
        let whole: u64 = (t as u64) / (UNIT as u64);
        assert(whole < 255) by (nonlinear_arith)
            requires whole == (t as u64) / (UNIT as u64), t < 255 * UNIT, t > 0;
        whole as u8
    }
}

/// Single-precision product of a coefficient (in units) with a byte.
fn scaled(coefficient: i64, x: u8) -> (p: i64)
    requires
        -0x1000_0000 <= coefficient <= 0x1000_0000,
    ensures
        p == round_f32(coefficient * x),
        -0x2000_0000 * 255 <= p <= 0x2000_0000 * 255,
{
    assert(-0x1000_0000 * 255 <= coefficient * x <= 0x1000_0000 * 255) by (nonlinear_arith)
        requires -0x1000_0000 <= coefficient <= 0x1000_0000, 0 <= x <= 255;
    round_units(coefficient * (x as i64))
}

/// Luma of an RGB pixel: `(0.299 * r + 0.587 * g + 0.114 * b).clamp(0.0, 255.0) as u8`
/// with single-precision arithmetic.
pub fn luma(r: u8, g: u8, b: u8) -> (y: u8)
    ensures
        y == spec_luma(r, g, b),
{
    let p1 = scaled(Y_R, r);
    let p2 = scaled(Y_G, g);
    let s1 = round_units(p1 + p2);
    let p3 = scaled(Y_B, b);
    let s2 = round_units(s1 + p3);
    units_to_byte(s2)
}

/// Blue-difference chroma of an RGB pixel:
/// `(-0.147 * r - 0.289 * g + 0.436 * b + 128.0).clamp(0.0, 255.0) as u8`
/// with single-precision arithmetic.
pub fn chroma_u(r: u8, g: u8, b: u8) -> (u: u8)
    ensures
        u == spec_chroma_u(r, g, b),
{
    let p1 = scaled(U_R, r);
    let p2 = scaled(U_G, g);
    let s1 = round_units(p1 - p2);
    let p3 = scaled(U_B, b);
    let s2 = round_units(s1 + p3);
    let s3 = round_units(s2 + CHROMA_OFFSET);
    units_to_byte(s3)
}

/// Red-difference chroma of an RGB pixel:
/// `(0.615 * r - 0.515 * g - 0.100 * b + 128.0).clamp(0.0, 255.0) as u8`
/// with single-precision arithmetic.
pub fn chroma_v(r: u8, g: u8, b: u8) -> (v: u8)
    ensures
        v == spec_chroma_v(r, g, b),
{
    let p1 = scaled(V_R, r);
    let p2 = scaled(V_G, g);
    let s1 = round_units(p1 - p2);
    let p3 = scaled(V_B, b);
    let s2 = round_units(s1 - p3);
    let s3 = round_units(s2 + CHROMA_OFFSET);
    units_to_byte(s3)
}

} // verus!
