//! The demo window: the grid that the video textures are laid out in, and
//! what a key press does.
use vstd::prelude::*;
use crate::color::{lemma_quantum_bounds, quantum, round_mag};
use vstd::arithmetic::power2::{lemma2_to64, lemma_pow2_pos, lemma_pow2_unfold, pow2};

verus! {

/// Pixels between grid cells and around the grid.
pub const PADDING: i32 = 4;

/// `m` is the least number whose square reaches `n`.
pub open spec fn is_ceil_sqrt(m: int, n: int) -> bool {
    &&& m >= 0
    &&& m * m >= n
    &&& (m == 0 || (m - 1) * (m - 1) < n)
}

/// `a / b` as integer division rounds it: toward zero (the division of
/// specifications is Euclidean, so `a / b` is `a / |b|` with the sign of `b`).
pub open spec fn div_toward_zero(a: int, b: int) -> int {
    if a >= 0 {
        a / b
    } else {
        -((-a) / b)
    }
}

proof fn lemma_div_negative(x: int, b: int)
    requires
        b < 0,
        x >= 0,
    ensures
        x / b == -(x / (-b)),
{
    assert(x / b == -(x / (-b))) by (nonlinear_arith)
        requires b < 0, x >= 0;
}

/// `a / b` for a C `int` divisor of either sign, rounded toward zero; a
/// negative divisor is handled through its (positive) opposite.
fn div_int(a: i32, b: i32) -> (q: i32)
    requires
        b != 0,
        !(a == i32::MIN && b == -1),
    ensures
        q == div_toward_zero(a as int, b as int),
{
    if b > 0 {
        a / b
    } else if b == i32::MIN {
        proof {
            if a >= 0 {
                lemma_div_negative(a as int, b as int);
                assert((a as int) / 0x8000_0000 == 0);
            } else {
                lemma_div_negative((-a) as int, b as int);
            }
        }
        if a == i32::MIN {
            1
        } else {
            0
        }
    } else {
        let p = a / (0 - b);
        proof {
            if a >= 0 {
                lemma_div_negative(a as int, b as int);
            } else {
                lemma_div_negative((-a) as int, b as int);
                assert(p != i32::MIN) by (nonlinear_arith)
                    requires
                        p == -((-(a as int)) / (-(b as int))),
                        b < -1 || a != i32::MIN,
                        b < 0,
                        a < 0,
                        a >= i32::MIN;
            }
        }
        0 - p
    }
}

/// `r` is the integer square root of `x`: the greatest number whose square does not exceed it.
pub open spec fn is_isqrt(r: nat, x: nat) -> bool {
    r * r <= x < (r + 1) * (r + 1)
}

/// The integer square root of `x`.
pub open spec fn isqrt(x: nat) -> nat {
    choose|r: nat| is_isqrt(r, x)
}

/// `sqrt(c)` rounded to the nearest single-precision number (ties to even),
/// held as a count of `2^-23` units; meant for `c >= 1` (and `c == 0`),
/// where single-precision numbers are whole multiples of `2^-23`.
pub open spec fn sqrt_f32_units(c: nat) -> nat {
    let x = c * 0x4000_0000_0000;
    let fl = isqrt(x);
    let q = quantum(fl);
    let k = fl / q;
    let lo = k * q;
    let lhs = 4 * x;
    let mid = (2 * lo + q) * (2 * lo + q);
    if lhs < mid {
        lo
    } else if lhs > mid {
        lo + q
    } else if k % 2 == 0 {
        lo
    } else {
        lo + q
    }
}

/// `(count as f32).sqrt().ceil()`: the count rounded to single precision, its
/// square root rounded to single precision, and that rounded up to a whole number.
pub open spec fn spec_grid_matrix(count: nat) -> nat {
    ((sqrt_f32_units(round_mag(count)) + 0x7f_ffff) / 0x80_0000) as nat
}

proof fn lemma_isqrt_unique(r: nat, x: nat)
    requires
        is_isqrt(r, x),
    ensures
        isqrt(x) == r,
{
    let s = isqrt(x);
    assert(is_isqrt(s, x));
    if s < r {
        assert((s + 1) * (s + 1) <= r * r) by (nonlinear_arith)
            requires s + 1 <= r;
    } else if s > r {
        assert((r + 1) * (r + 1) <= s * s) by (nonlinear_arith)
            requires r + 1 <= s;
    }
}

/// The integer square root, by bisection.
fn isqrt_u128(x: u128) -> (r: u128)
    requires
        x < 0x1_0000_0000_0000_0000_0000_0000_0000,
    ensures
        is_isqrt(r as nat, x as nat),
        r as nat == isqrt(x as nat),
        r < 0x100_0000_0000_0000,
{
    let mut lo: u128 = 0;
    let mut hi: u128 = 0x100_0000_0000_0000;
    assert(hi * hi > x) by (nonlinear_arith)
        requires hi == 0x100_0000_0000_0000, x < 0x1_0000_0000_0000_0000_0000_0000_0000;
    while hi - lo > 1
        invariant
            lo < hi <= 0x100_0000_0000_0000,
            lo * lo <= x,
            x < hi * hi,
        decreases hi - lo,
    {
        let mid = lo + (hi - lo) / 2;
        assert(mid * mid <= 0x100_0000_0000_0000 * 0x100_0000_0000_0000) by (nonlinear_arith)
            requires mid <= 0x100_0000_0000_0000;
        if mid * mid <= x {
            lo = mid;
        } else {
            hi = mid;
        }
    }
    assert(hi == lo + 1);
    proof {
        lemma_isqrt_unique(lo as nat, x as nat);
    }
    lo
}

/// The spacing of single-precision numbers around a magnitude of `a` units.
fn quantum_u128(a: u128) -> (q: u128)
    ensures
        q == quantum(a as nat),
        q >= 1,
        a < quantum(a as nat) * 0x100_0000,
        a >= 0x100_0000 ==> q * 0x80_0000 <= a,
{
    let mut s: u128 = a;
    let mut q: u128 = 1;
    proof {
        lemma_quantum_bounds(a as nat);
    }
    while s >= 0x100_0000
        invariant
            q >= 1,
            q * s <= a,
            quantum(a as nat) == q * quantum(s as nat),
        decreases s,
    {
        proof {
            assert(quantum(s as nat) == 2 * quantum((s / 2) as nat));
            assert(q * (2 * quantum((s / 2) as nat)) == (2 * q) * quantum((s / 2) as nat))
                by (nonlinear_arith);
            assert(q * s >= q * 0x100_0000) by (nonlinear_arith)
                requires s >= 0x100_0000, q >= 1;
            assert((2 * q) * (s / 2) <= q * s) by (nonlinear_arith);
            assert(q * 2 <= q * s) by (nonlinear_arith)
                requires s >= 0x100_0000, q >= 1;
        }
        s = s / 2;
        q = q * 2;
    }
    proof {
        assert(quantum(s as nat) == 1);
        assert(q * quantum(s as nat) == q) by (nonlinear_arith)
            requires quantum(s as nat) == 1;
    }
    q
}

/// `a` rounded to single precision (ties to even), for `a` up to `2^64`.
fn round_count(a: u128) -> (r: u128)
    requires
        a <= 0x1_0000_0000_0000_0000,
    ensures
        r == round_mag(a as nat),
        r <= 2 * a,
        a >= 1 ==> r >= 1,
{
    let q = quantum_u128(a);
    let k = a / q;
    let rem = a % q;
    proof {
        assert(k * q + rem == a) by (nonlinear_arith)
            requires k == a / q, rem == a % q, q >= 1;
        assert(rem < q) by (nonlinear_arith)
            requires rem == a % q, q >= 1;
        if a < 0x100_0000 {
            assert(quantum(a as nat) == 1);
        }
        if a >= 1 {
            assert(q <= a);
            assert(k >= 1) by (nonlinear_arith)
                requires k == a / q, q <= a, q >= 1;
            assert(k * q >= q) by (nonlinear_arith)
                requires k >= 1, q >= 1;
        }
    }
    let m: u128 = if 2 * rem < q {
        k * q
    } else if 2 * rem > q {
        k * q + q
    } else if k % 2 == 0 {
        k * q
    } else {
        k * q + q
    };
    proof {
        assert((k + 1) * q == k * q + q) by (nonlinear_arith);
        assert(m as nat == round_mag(a as nat));
    }
    m
}

proof fn lemma_square_below(a: int, b: int)
    requires
        0 <= a < b,
    ensures
        a * a < b * b,
{
    assert(a * a < b * b) by (nonlinear_arith)
        requires 0 <= a < b;
}

/// `sqrt(c)` rounded to single precision, in `2^-23` units.
fn sqrt_f32_units_exec(c: u128) -> (t: u128)
    requires
        c <= 0x2_0000_0000_0000_0000,
    ensures
        t == sqrt_f32_units(c as nat),
        ({
            let fl = isqrt((c * 0x4000_0000_0000) as nat);
            &&& is_isqrt(fl, (c * 0x4000_0000_0000) as nat)
            &&& fl < 0x100_0000_0000_0000
            &&& t <= 2 * fl + 1
            &&& fl >= 0x80_0000 ==> t >= 0x80_0000
        }),
{
    let x: u128 = c * 0x4000_0000_0000;
    let fl = isqrt_u128(x);
    proof {
        assert(fl < 0x100_0000_0000_0000);
    }
    let q = quantum_u128(fl);
    let k = fl / q;
    proof {
        assert(k * q <= fl) by (nonlinear_arith)
            requires k == fl / q, q >= 1;
        if fl >= 0x100_0000 {
            assert(q <= fl);
        } else {
            assert(quantum(fl as nat) == 1);
        }
        if fl >= 0x80_0000 {
            if fl >= 0x100_0000 {
                assert(k >= 0x80_0000) by (nonlinear_arith)
                    requires k == fl / q, q * 0x80_0000 <= fl, q >= 1;
                assert(k * q >= 0x80_0000) by (nonlinear_arith)
                    requires k >= 0x80_0000, q >= 1;
            } else {
                assert(q == 1);
                assert(k == fl && k * q == fl) by (nonlinear_arith)
                    requires k == fl / q, q == 1;
            }
        }
    }
    let lo = k * q;
    proof {
        assert(q <= fl || q == 1);
    }
    let lhs: u128 = 4 * x;
    let half: u128 = 2 * lo + q;
    proof {
        assert(half < 0x400_0000_0000_0000);
        lemma_square_below(half as int, 0x400_0000_0000_0000);
    }
    let mid: u128 = half * half;
    let t = if lhs < mid {
        lo
    } else if lhs > mid {
        lo + q
    } else if k % 2 == 0 {
        lo
    } else {
        lo + q
    };
    proof {
        assert(x as nat == (c * 0x4000_0000_0000) as nat);
        assert(fl as nat == isqrt((c * 0x4000_0000_0000) as nat));
        assert(t <= 2 * fl + 1);
        assert(fl >= 0x80_0000 ==> t >= 0x80_0000);
    }
    t
}

/// Columns (and rows) of the square grid that holds `count` cells:
/// `(count as f32).sqrt().ceil() as usize`.
pub fn grid_matrix(count: usize) -> (m: usize)
    ensures
        m == spec_grid_matrix(count as nat),
        count > 0 ==> m > 0,
{
    let c = round_count(count as u128);
    let t = sqrt_f32_units_exec(c);
    let m: u128 = (t + 0x7f_ffff) / 0x80_0000;
    proof {
        let x = (c * 0x4000_0000_0000) as nat;
        let fl = isqrt(x);
        assert(is_isqrt(fl, x));
        if m >= 1 {
            assert((m - 1) * 0x80_0000 <= 2 * fl) by (nonlinear_arith)
                requires m == (t + 0x7f_ffff) / 0x80_0000, t <= 2 * fl + 1, m >= 1;
            assert(((m - 1) * 0x80_0000) * ((m - 1) * 0x80_0000) <= (2 * fl) * (2 * fl)) by (nonlinear_arith)
                requires 0 <= (m - 1) * 0x80_0000 <= 2 * fl;
            assert((m - 1) * (m - 1) <= 8 * count) by (nonlinear_arith)
                requires
                    ((m - 1) * 0x80_0000) * ((m - 1) * 0x80_0000) <= (2 * fl) * (2 * fl),
                    fl * fl <= x,
                    x == c * 0x4000_0000_0000,
                    c <= 2 * count;
            if m > count && m > 9 {
                assert((m - 1) * (m - 1) > 8 * count) by (nonlinear_arith)
                    requires m > count, m > 9, count >= 0;
            }
        }
        if count > 0 {
            assert(x >= 0x4000_0000_0000);
            if fl < 0x80_0000 {
                assert((fl + 1) * (fl + 1) <= 0x80_0000 * 0x80_0000) by (nonlinear_arith)
                    requires fl + 1 <= 0x80_0000;
            }
            assert(t >= 0x80_0000);
        }
    }
    m as usize
}

proof fn lemma_round_small(c: nat)
    requires
        c <= 0x100_0000,
    ensures
        round_mag(c) == c,
{
    if c < 0x100_0000 {
        assert(quantum(c) == 1);
    } else {
        assert(quantum(c) == 2 * quantum(c / 2));
        assert(quantum(c / 2) == 1);
    }
}

proof fn lemma_quantum_divides(a: nat, j: nat)
    requires
        a < 0x100_0000 * pow2(j),
    ensures
        quantum(a) <= pow2(j),
        exists|d: nat| #[trigger] (quantum(a) * d) == pow2(j),
    decreases j,
{
    lemma_pow2_pos(j);
    if a < 0x100_0000 {
        assert(quantum(a) == 1);
        assert(quantum(a) * pow2(j) == pow2(j));
    } else {
        if j == 0 {
            lemma2_to64();
            assert(false);
        } else {
            lemma_pow2_unfold(j);
            let p = pow2((j - 1) as nat);
            assert(a / 2 < 0x100_0000 * p) by (nonlinear_arith)
                requires a < 0x100_0000 * (2 * p), p > 0;
            lemma_quantum_divides(a / 2, (j - 1) as nat);
            let d = choose|d: nat| #[trigger] (quantum(a / 2) * d) == p;
            assert(quantum(a) == 2 * quantum(a / 2));
            assert(quantum(a) * d == pow2(j)) by (nonlinear_arith)
                requires quantum(a) == 2 * quantum(a / 2), quantum(a / 2) * d == p, pow2(j) == 2 * p;
        }
    }
}

proof fn lemma_isqrt_exists(x: nat)
    ensures
        is_isqrt(isqrt(x), x),
    decreases x,
{
    if x == 0 {
        assert(0nat * 0nat == 0nat && (0nat + 1) * (0nat + 1) == 1nat) by (nonlinear_arith);
        assert(is_isqrt(0nat, 0nat));
    } else {
        lemma_isqrt_exists((x - 1) as nat);
        let r = isqrt((x - 1) as nat);
        if (r + 1) * (r + 1) <= x {
            assert((r + 2) * (r + 2) > x) by (nonlinear_arith)
                requires (r + 1) * (r + 1) > x - 1, r >= 0;
            assert(is_isqrt(r + 1, x));
        } else {
            assert(is_isqrt(r, x));
        }
    }
}

/// `a < b` for non-negative numbers whose squares are so ordered.
proof fn lemma_lt_of_squares(a: int, b: int)
    requires
        a >= 0,
        b >= 0,
        a * a < b * b,
    ensures
        a < b,
{
    if a >= b {
        assert(a * a >= b * b) by (nonlinear_arith)
            requires a >= b, b >= 0;
    }
}

/// `a <= b` for non-negative numbers whose squares are so ordered.
proof fn lemma_le_of_squares(a: int, b: int)
    requires
        a >= 0,
        b >= 0,
        a * a <= b * b,
    ensures
        a <= b,
{
    if a > b {
        assert(a * a > b * b) by (nonlinear_arith)
            requires a > b, b >= 0;
    }
}

/// For up to `2^24` cells the single-precision computation is exact: the grid
/// has the least number of columns whose square holds every cell.
pub proof fn lemma_grid_matrix_is_ceil_sqrt(count: nat)
    requires
        count <= 0x100_0000,
    ensures
        is_ceil_sqrt(spec_grid_matrix(count) as int, count as int),
{
    lemma_round_small(count);
    let c = count;
    if c == 0 {
        let x: nat = 0;
        lemma_isqrt_exists(x);
        assert(isqrt(x) == 0) by (nonlinear_arith)
            requires isqrt(x) * isqrt(x) <= 0, isqrt(x) >= 0;
        assert(quantum(0) == 1);
        assert(sqrt_f32_units(0) == 0);
        return;
    }
    let x = c * 0x4000_0000_0000;
    lemma_isqrt_exists(x);
    let fl = isqrt(x);
    lemma_isqrt_exists((c - 1) as nat);
    let s = isqrt((c - 1) as nat);
    let n = s + 1;
    // n is the ceiling square root of c
    assert(s * s <= c - 1 < n * n);
    assert(n <= 0x1000) by (nonlinear_arith)
        requires s * s <= c - 1, c <= 0x100_0000, n == s + 1, s >= 0;
    let lo_pt = s * 0x80_0000;
    let hi_pt = n * 0x80_0000;
    assert(lo_pt * lo_pt < x) by (nonlinear_arith)
        requires lo_pt == s * 0x80_0000, s * s <= c - 1, x == c * 0x4000_0000_0000;
    assert(fl * fl <= x < (fl + 1) * (fl + 1));
    lemma_lt_of_squares(lo_pt as int, (fl + 1) as int);
    assert(x <= hi_pt * hi_pt) by (nonlinear_arith)
        requires hi_pt == n * 0x80_0000, c <= n * n, x == c * 0x4000_0000_0000;
    lemma_le_of_squares(fl as int, hi_pt as int);
    assert(fl >= 0x80_0000) by (nonlinear_arith)
        requires (fl + 1) * (fl + 1) > x, x == c * 0x4000_0000_0000, c >= 1, fl >= 0;
    assert(hi_pt <= 0x8_0000_0000);
    // the spacing q divides the unit, so both grid points are multiples of it
    let q = quantum(fl);
    lemma2_to64();
    assert(fl < 0x100_0000 * pow2(12)) by {
        assert(pow2(12) == 0x1000);
    }
    lemma_quantum_divides(fl, 12);
    let d = choose|d: nat| #[trigger] (quantum(fl) * d) == pow2(12);
    assert(q <= 0x1000);
    assert(q >= 1) by {
        lemma_quantum_bounds(fl);
    }
    let k = fl / q;
    let lo = k * q;
    assert(lo <= fl < lo + q) by (nonlinear_arith)
        requires k == fl / q, lo == k * q, q >= 1;
    let unit_d = d * 0x800;
    assert(q * unit_d == 0x80_0000) by (nonlinear_arith)
        requires q * d == 0x1000, unit_d == d * 0x800;
    assert(lo_pt == (s * unit_d) * q) by (nonlinear_arith)
        requires lo_pt == s * 0x80_0000, q * unit_d == 0x80_0000;
    assert(hi_pt == (n * unit_d) * q) by (nonlinear_arith)
        requires hi_pt == n * 0x80_0000, q * unit_d == 0x80_0000;
    // grid points below fl are at most lo; those above lo are at least lo + q
    assert(s * unit_d <= k) by (nonlinear_arith)
        requires (s * unit_d) * q <= fl, k == fl / q, q >= 1, s * unit_d >= 0;
    assert(lo_pt <= lo) by (nonlinear_arith)
        requires s * unit_d <= k, lo == k * q, lo_pt == (s * unit_d) * q, q >= 1;
    assert(k <= n * unit_d) by (nonlinear_arith)
        requires lo <= hi_pt, lo == k * q, hi_pt == (n * unit_d) * q, q >= 1;
    assert(lo == hi_pt || lo + q <= hi_pt) by (nonlinear_arith)
        requires k <= n * unit_d, lo == k * q, hi_pt == (n * unit_d) * q, q >= 1;
    let t = sqrt_f32_units(c);
    let lhs = 4 * x;
    let mid = (2 * lo + q) * (2 * lo + q);
    // the rounded root stays at or below the upper grid point
    if lo == hi_pt {
        assert(fl == hi_pt);
        assert(x == hi_pt * hi_pt) by (nonlinear_arith)
            requires fl * fl <= x, x <= hi_pt * hi_pt, fl == hi_pt;
        assert(lhs < mid) by (nonlinear_arith)
            requires lhs == 4 * x, x == lo * lo, mid == (2 * lo + q) * (2 * lo + q), q >= 1, lo >= 0;
        assert(t == lo);
    }
    assert(t <= hi_pt);
    // and strictly above the lower one
    if lo == lo_pt {
        assert(x >= lo_pt * lo_pt + 0x4000_0000_0000) by (nonlinear_arith)
            requires lo_pt == s * 0x80_0000, s * s <= c - 1, x == c * 0x4000_0000_0000;
        assert(lo_pt <= 0x8_0000_0000 - 0x80_0000) by (nonlinear_arith)
            requires lo_pt == s * 0x80_0000, s <= 0x1000 - 1;
        assert(fl < 0x100_0000 * pow2(11)) by {
            assert(pow2(11) == 0x800);
        }
        lemma_quantum_divides(fl, 11);
        assert(lhs > mid) by (nonlinear_arith)
            requires
                lhs == 4 * x,
                x >= lo * lo + 0x4000_0000_0000,
                mid == (2 * lo + q) * (2 * lo + q),
                1 <= q <= 0x800,
                0 <= lo <= 0x8_0000_0000 - 0x80_0000;
        assert(t == lo + q);
    }
    assert(t > lo_pt);
    let m = spec_grid_matrix(count);
    assert(m == (t + 0x7f_ffff) / 0x80_0000);
    assert(m == n) by (nonlinear_arith)
        requires m == (t + 0x7f_ffff) / 0x80_0000, s * 0x80_0000 < t <= (s + 1) * 0x80_0000, n == s + 1;
}

/// `m` cells of `a / m` units fill `a` units but for less than one more cell.
proof fn lemma_cells_fit(a: int, m: int)
    requires
        m > 0,
    ensures
        a >= 0 ==> m * (a / m) <= a < m * (a / m + 1),
{
    if a >= 0 {
        assert(m * (a / m) <= a < m * (a / m + 1)) by (nonlinear_arith)
            requires m > 0, a >= 0;
    }
}

/// The grid of the demo window for `count` textures in an inner area of
/// `inner_width` x `inner_height` pixels: its column count and the width and
/// height of one cell, `(inner - PADDING) / columns`, with the column count
/// taken as a C `int` (`as i32`) and the division rounded toward zero.  A
/// column count that is zero as an `int` (no textures) has no grid.
pub fn grid_layout(count: usize, inner_width: i32, inner_height: i32) -> (r: (usize, i32, i32))
    requires
        spec_grid_matrix(count as nat) as i32 != 0,
        inner_width - PADDING >= i32::MIN,
        inner_height - PADDING >= i32::MIN,
        !(spec_grid_matrix(count as nat) as i32 == -1 && inner_width - PADDING == i32::MIN),
        !(spec_grid_matrix(count as nat) as i32 == -1 && inner_height - PADDING == i32::MIN),
    ensures
        r.0 == spec_grid_matrix(count as nat),
        r.1 == div_toward_zero(inner_width - PADDING, r.0 as i32 as int),
        r.2 == div_toward_zero(inner_height - PADDING, r.0 as i32 as int),
        r.0 <= i32::MAX && inner_width >= PADDING ==> r.0 * r.1 <= inner_width - PADDING < r.0 * (
        r.1 + 1),
        r.0 <= i32::MAX && inner_height >= PADDING ==> r.0 * r.2 <= inner_height - PADDING < r.0 * (
        r.2 + 1),
{
    let matrix = grid_matrix(count);
    let columns = matrix as i32;
    let cell_width = div_int(inner_width - PADDING, columns);
    let cell_height = div_int(inner_height - PADDING, columns);
    proof {
        if matrix <= i32::MAX {
            assert(columns == matrix);
            lemma_cells_fit(inner_width - PADDING, matrix as int);
            lemma_cells_fit(inner_height - PADDING, matrix as int);
        }
    }
    (matrix, cell_width, cell_height)
}

/// Keys that the demo window reacts to.
#[derive(PartialEq, Eq, Structural, Debug, Clone, Copy)]
pub enum Key {
    Q,
    Escape,
    Space,
    Other,
}

/// What a key press asks of the window.
#[derive(PartialEq, Eq, Structural, Debug, Clone, Copy)]
pub enum KeyAction {
    /// Nothing happens.
    Ignore,
    /// The window closes.
    Exit,
    /// Playback pauses or resumes, and the time of the last operation restarts.
    TogglePause,
}

/// A key press less than a second after the last operation is ignored; then
/// `Q` and `Escape` close the window and `Space` pauses or resumes.
pub fn handle_key_press(elapsed_secs: u64, key: Key) -> (r: KeyAction)
    ensures
        elapsed_secs < 1 ==> r == KeyAction::Ignore,
        elapsed_secs >= 1 ==> r == match key {
            Key::Q => KeyAction::Exit,
            Key::Escape => KeyAction::Exit,
            Key::Space => KeyAction::TogglePause,
            Key::Other => KeyAction::Ignore,
        },
{
    if elapsed_secs < 1 {
        return KeyAction::Ignore;
    }
    match key {
        Key::Q => KeyAction::Exit,
        Key::Escape => KeyAction::Exit,
        Key::Space => KeyAction::TogglePause,
        Key::Other => KeyAction::Ignore,
    }
}

/// Cell `i` of a grid with `columns` columns opens a new row (the first row
/// needs no break).
pub fn starts_new_row(i: usize, columns: usize) -> (r: bool)
    requires
        columns > 0,
    ensures
        r == (i > 0 && i % columns == 0),
{
    i > 0 && i % columns == 0
}

/// The file-name stem of the demo videos of each demo kind (`media/<stem><n>.mp4`);
/// an unknown kind has the empty stem.
pub open spec fn spec_demo_video_stem(kind: i32) -> Seq<char> {
    if kind == 0 {
        "video"@
    } else if kind == 1 {
        "video_hevc"@
    } else if kind == 2 {
        "sample"@
    } else if kind == 3 {
        "sample_idx"@
    } else if kind == 4 {
        "test2/screen_"@
    } else if kind == 5 {
        "test03/screen_"@
    } else if kind == 6 {
        "test04_nvenc_hevc_long/fh_screen_"@
    } else if kind == 7 {
        "test05_nvenc_hevc_scale/fh_screen_"@
    } else if kind == 8 {
        "video_short"@
    } else {
        ""@
    }
}

/// The file-name stem of the videos that the demo window of `kind` plays.
pub fn demo_video_stem(kind: i32) -> (r: &'static str)
    ensures
        r@ == spec_demo_video_stem(kind),
{
    match kind {
        0 => "video",
        1 => "video_hevc",
        2 => "sample",
        3 => "sample_idx",
        4 => "test2/screen_",
        5 => "test03/screen_",
        6 => "test04_nvenc_hevc_long/fh_screen_",
        7 => "test05_nvenc_hevc_scale/fh_screen_",
        8 => "video_short",
        _ => "",
    }
}

/// Where cell (`row`, `col`) of the fixed `grid` x `grid` demo window is drawn,
/// with cells of `cell_width` x `cell_height` pixels: its viewport origin
/// `(row * cell_width, (grid - col - 1) * cell_height)` (counted from the
/// bottom, as GL does) and the index `row + col * grid` of its picture.
pub fn demo_cell(row: i32, col: i32, grid: i32, cell_width: i32, cell_height: i32) -> (r: (i32, i32, usize))
    requires
        0 <= row < grid,
        0 <= col < grid,
        0 <= cell_width,
        0 <= cell_height,
        grid * cell_width <= i32::MAX,
        grid * cell_height <= i32::MAX,
        grid * grid <= i32::MAX,
    ensures
        r.0 == row * cell_width,
        r.1 == (grid - col - 1) * cell_height,
        r.2 == row + col * grid,
{
    proof {
        assert(row * cell_width <= grid * cell_width) by (nonlinear_arith)
            requires 0 <= row < grid, 0 <= cell_width;
        assert((grid - col - 1) * cell_height <= grid * cell_height) by (nonlinear_arith)
            requires 0 <= col < grid, 0 <= cell_height;
        assert(0 <= (grid - col - 1) * cell_height) by (nonlinear_arith)
            requires 0 <= col < grid, 0 <= cell_height;
        assert(0 <= row * cell_width) by (nonlinear_arith)
            requires 0 <= row, 0 <= cell_width;
        assert(row + col * grid < grid * grid) by (nonlinear_arith)
            requires 0 <= row < grid, 0 <= col < grid;
        assert(0 <= col * grid) by (nonlinear_arith)
            requires 0 <= col, 0 <= grid;
    }
    (row * cell_width, (grid - col - 1) * cell_height, (row + col * grid) as usize)
}

} // verus!
