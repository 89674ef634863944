//! What density functions compute: exact on numbers of few digits.

use vstd::prelude::*;
use vstd::arithmetic::power2::{lemma2_to64, pow2};
use crate::arith::{bisect, extended, hermite_at, holds, lerped32, low, reply, Ask, HALF, HALF_32, ONE_32, QUARTER_32};
use crate::df26::{
    cell_fill, cell_part, climbed, column_ends, column_step, column_value, distance_at, down_div, down_mod, first_local,
    gradient_at, gradient_step, inside_cell, inverse, one, rounded, selected, two, within, wrapped, Binary, Lattice, Metric,
    RoundKind, Tiling, Unary, MINUS_ONE_32, TWENTY_FOUR_32, TWO_32,
};
use crate::numbers::{
    correct, correct32, is32, lemma_abs32, lemma_add32, lemma_add64, lemma_bits32, lemma_ceil64, lemma_div32, lemma_extremes32,
    lemma_finer32, lemma_finer64, lemma_floor64, lemma_int32, lemma_known32, lemma_known64, lemma_mul32, lemma_narrow,
    lemma_neg32, lemma_order32, lemma_shrink32, lemma_sub32, lemma_to_int64, lemma_widen, lemma_zero32, number32, worth32,
};
use crate::perlinlaws::{blend_of, law_corners_blend_by_nearness};

verus! {

/// A small count.
pub open spec fn small(n: int) -> bool {
    -0x80 < n < 0x80
}

proof fn lemma_products(n: int, m: int)
    requires
        small(n),
        small(m),
    ensures
        -0x4000 < n * m < 0x4000,
        -0x20_0000 < n * n * n < 0x20_0000,
        0 <= n * n < 0x4000,
{
    let s = n * n;
    assert(-0x4000 < n * m < 0x4000 && 0 <= s < 0x4000) by (nonlinear_arith)
        requires
            -0x80 < n < 0x80,
            -0x80 < m < 0x80,
            s == n * n,
    ;
    assert(-0x20_0000 < s * n < 0x20_0000) by (nonlinear_arith)
        requires
            0 <= s < 0x4000,
            -0x80 < n < 0x80,
    ;
}

/// Operations on one value: sizes, powers, halves and quarters of what is
/// not above zero, opposites, and constants added, multiplied, taken away
/// from, and held to.
pub proof fn law_operations_on_one<F: Fn(Ask) -> u64>(f: F, v: u32, c: u32, d: u32, n: int, m: int, o: int, k: int)
    requires
        correct32(f),
        small(n) && small(m) && small(o),
        0 <= k <= 20,
        is32(v, n, k) && is32(c, m, k) && is32(d, o, k),
    ensures
        is32(one(f, Unary::Abs, v), if n < 0 { -n } else { n }, k),
        is32(one(f, Unary::Square, v), n * n, 2 * k),
        is32(one(f, Unary::Cube, v), n * n * n, 3 * k),
        n > 0 ==> one(f, Unary::HalfNegative, v) == v && one(f, Unary::QuarterNegative, v) == v,
        n <= 0 ==> is32(one(f, Unary::HalfNegative, v), n, k + 1) && is32(one(f, Unary::QuarterNegative, v), n, k + 2),
        is32(one(f, Unary::Negate, v), -n, k),
        is32(one(f, Unary::AddConst(c), v), n + m, k),
        is32(one(f, Unary::MulConst(c), v), n * m, 2 * k),
        is32(one(f, Unary::ConstMinus(c), v), m - n, k),
        is32(one(f, Unary::MinConst(c), v), if n < m { n } else { m }, k),
        is32(one(f, Unary::MaxConst(c), v), if n < m { m } else { n }, k),
        m <= o ==> is32(one(f, Unary::Clamp(c, d), v), if n < m { m } else if n > o { o } else { n }, k),
        n == 0 ==> one(f, Unary::Sign, v) == v,
        n > 0 ==> worth32(one(f, Unary::Sign, v)) == crate::numbers::one32(),
        n < 0 ==> worth32(one(f, Unary::Sign, v)) == -crate::numbers::one32(),
{
    lemma_products(n, m);
    lemma2_to64();
    lemma_known32();
    lemma_zero32(k);
    lemma_bits32(QUARTER_32, 1, 2, 23);
    lemma_abs32(f, v, n, k);
    lemma_mul32(f, v, v, n, n, k, k);
    lemma_mul32(f, low(f, Ask::Mul32(v, v)), v, n * n, n, 2 * k, k);
    lemma_order32(f, 0, v, 0, n, k);
    lemma_order32(f, v, 0, n, 0, k);
    lemma_mul32(f, v, HALF_32, n, 1, k, 1);
    lemma_mul32(f, v, QUARTER_32, n, 1, k, 2);
    lemma_neg32(f, v, n, k);
    lemma_add32(f, v, c, n, m, k);
    lemma_mul32(f, v, c, n, m, k, k);
    lemma_sub32(f, c, v, m, n, k);
    lemma_extremes32(f, v, c, n, m, k);
    lemma_extremes32(f, c, v, m, n, k);
    lemma_extremes32(f, v, d, n, o, k);
    lemma_order32(f, v, c, n, m, k);
    assert(number32(v));
    let p = pow2((149 - k) as nat) as int;
    vstd::arithmetic::power2::lemma_pow2_pos((149 - k) as nat);
    assert((n > 0 ==> n * p > 0) && (n < 0 ==> n * p < 0)) by (nonlinear_arith)
        requires
            p > 0,
    ;
    assert(n != 0 ==> worth32(one(f, Unary::Sign, v)) == (if worth32(v) < 0 {
        -crate::numbers::one32()
    } else {
        crate::numbers::one32()
    })) by {
        reveal(correct32);
    }
}

/// The squeeze: half of a value less a twenty-fourth of its cube, the value
/// held between minus one and one.
pub proof fn law_squeeze_is_a_cubic<F: Fn(Ask) -> u64>(f: F, v: u32, t: int)
    requires
        correct32(f),
        is32(v, 6 * t, 6),
        -20 < t < 20,
    ensures
        -10 <= t <= 10 ==> is32(one(f, Unary::Squeeze, v), 6 * t * 2048 - 9 * t * t * t, 18),
{
    lemma2_to64();
    lemma_known32();
    lemma_finer32(ONE_32, 1, 0, 6);
    assert(is32(MINUS_ONE_32, -64, 6)) by {
        let (a, b) = (ONE_32, MINUS_ONE_32);
        assert(crate::numbers::exponent32(a) == crate::numbers::exponent32(b) && crate::numbers::fraction32(a)
            == crate::numbers::fraction32(b));
        let p = pow2(143) as int;
        assert(-(64 * p) == (-64) * p) by (nonlinear_arith);
    }
    lemma_order32(f, v, MINUS_ONE_32, 6 * t, -64, 6);
    lemma_extremes32(f, v, ONE_32, 6 * t, 64, 6);
    if -10 <= t <= 10 {
        let n = 6 * t;
        let c = low(f, Ask::Min32(v, ONE_32));
        lemma_products(n, n);
        lemma_shrink32(f, c, TWO_32, n, 6, 1);
        lemma_mul32(f, c, c, n, n, 6, 6);
        lemma_mul32(f, low(f, Ask::Mul32(c, c)), c, n * n, n, 12, 6);
        let cube = low(f, Ask::Mul32(low(f, Ask::Mul32(c, c)), c));
        lemma_bits32(TWENTY_FOUR_32, 24, 0, 19);
        let q = 9 * t * t * t;
        assert(n * n * n == q * 24) by (nonlinear_arith)
            requires
                n == 6 * t,
                q == 9 * t * t * t,
        ;
        lemma_div32(f, cube, TWENTY_FOUR_32, n * n * n, 24, q, 18);
        let half = low(f, Ask::Div32(c, TWO_32));
        lemma_finer32(half, n, 7, 11);
        lemma_sub32(f, half, low(f, Ask::Div32(cube, TWENTY_FOUR_32)), n * 2048, q, 18);
    }
}

/// Rounding: down, up, towards zero, and to the nearest with halves up.
pub proof fn law_rounding<F: Fn(Ask) -> u64>(f: F, v: u32, n: int, k: nat)
    requires
        correct(f),
        is32(v, n, k as int),
        k <= 20,
        -0x10_0000 < n < 0x10_0000,
    ensures
        ({
            let e = pow2(k) as int;
            &&& is32(rounded(f, v, RoundKind::Floor), n / e, 0)
            &&& is32(rounded(f, v, RoundKind::Ceil), -((-n) / e), 0)
            &&& is32(rounded(f, v, RoundKind::Truncate), if n > 0 { n / e } else { -((-n) / e) }, 0)
            &&& is32(rounded(f, v, RoundKind::Round), (2 * n + e) / (2 * e), 0)
        }),
{
    lemma2_to64();
    lemma_known64();
    let e = pow2(k) as int;
    vstd::arithmetic::power2::lemma_pow2_pos(k);
    lemma_widen(f, v, n, k as int);
    let w = reply(f, Ask::Widen(v));
    lemma_floor64(f, w, n, k as int);
    lemma_ceil64(f, w, n, k as int);
    assert(-0x10_0000 <= n / e <= 0x10_0000 && -0x10_0000 <= -((-n) / e) <= 0x10_0000) by (nonlinear_arith)
        requires
            -0x10_0000 < n < 0x10_0000,
            e >= 1,
    ;
    lemma_narrow(f, reply(f, Ask::Floor64(w)), n / e, 0);
    lemma_narrow(f, reply(f, Ask::Ceil64(w)), -((-n) / e), 0);
    lemma_zero32(k as int);
    lemma_order32(f, 0, v, 0, n, k as int);
    lemma_finer64(w, n, k as int, 1);
    lemma_finer64(HALF, 1, 1, k);
    lemma_add64(f, w, HALF, n * 2, e, (k + 1) as int);
    let s = reply(f, Ask::Add64(w, HALF));
    lemma_floor64(f, s, n * 2 + e, (k + 1) as int);
    vstd::arithmetic::power2::lemma_pow2_unfold((k + 1) as nat);
    let q = (n * 2 + e) / (2 * e);
    assert(e <= 0x10_0000) by {
        if k < 20 {
            vstd::arithmetic::power2::lemma_pow2_strictly_increases(k, 20);
        }
    }
    assert(-0x40_0000 <= q <= 0x40_0000) by (nonlinear_arith)
        requires
            q == (n * 2 + e) / (2 * e),
            -0x10_0000 < n < 0x10_0000,
            1 <= e <= 0x10_0000,
    ;
    let d = reply(f, Ask::Floor64(s));
    lemma_to_int64(f, d, q);
    let r = reply(f, Ask::ToInt64(d));
    assert(r as i32 == (r as u32) as i32) by (bit_vector);
    lemma_int32(f, q as i32);
}

/// Operations on two values.
pub proof fn law_operations_on_two<F: Fn(Ask) -> u64>(f: F, a: u32, b: u32, n: int, m: int, q: int, k: int)
    requires
        correct32(f),
        small(n) && small(m),
        0 <= k <= 20,
        is32(a, n, k) && is32(b, m, k),
    ensures
        is32(two(f, Binary::Add, a, b), n + m, k),
        is32(two(f, Binary::Sub, a, b), n - m, k),
        is32(two(f, Binary::Mul, a, b), n * m, 2 * k),
        k == 0 && m > 0 && n == q * m && small(q) ==> is32(two(f, Binary::Div, a, b), q, 0),
        is32(two(f, Binary::Min, a, b), if n < m { n } else { m }, k),
        is32(two(f, Binary::Max, a, b), if n < m { m } else { n }, k),
{
    lemma_products(n, m);
    lemma_add32(f, a, b, n, m, k);
    lemma_sub32(f, a, b, n, m, k);
    lemma_mul32(f, a, b, n, m, k, k);
    lemma_extremes32(f, a, b, n, m, k);
    lemma_extremes32(f, b, a, m, n, k);
    if k == 0 && m > 0 && n == q * m && small(q) {
        lemma_div32(f, a, b, n, m, q, 0);
    }
}

/// A choice by range takes what is not below the lower end and is below the
/// upper; a selection takes as many thresholds as the value is not below, up
/// to the first that it is below.
pub proof fn law_choices_by_value<F: Fn(Ask) -> u64>(f: F, v: u32, min: u32, max: u32, thresholds: Seq<u32>, i: int)
    requires
        correct32(f),
        number32(v) && number32(min) && number32(max),
        forall|k: int| 0 <= k < thresholds.len() ==> number32(#[trigger] thresholds[k]),
        0 <= i <= thresholds.len(),
    ensures
        within(f, v, min, max) == (worth32(min) <= worth32(v) < worth32(max)),
        ({
            let s = selected(f, thresholds, v, i);
            &&& i <= s <= thresholds.len()
            &&& forall|k: int| i <= k < s ==> worth32(#[trigger] thresholds[k]) <= worth32(v)
            &&& s < thresholds.len() ==> worth32(v) < worth32(thresholds[s])
        }),
    decreases thresholds.len() - i,
{
    assert(within(f, v, min, max) == (worth32(min) <= worth32(v) < worth32(max))) by {
        reveal(correct32);
    }
    if i < thresholds.len() {
        assert(number32(thresholds[i]));
        assert(holds(f, Ask::Less32(v, thresholds[i])) == (worth32(v) < worth32(thresholds[i]))) by {
            reveal(correct32);
        }
        law_choices_by_value(f, v, min, max, thresholds, i + 1);
    }
}

/// A gradient is its first value and one factor more for each step into it.
/// Beyond its ends it is held, starts again, or turns around.
pub proof fn law_gradients_step<F: Fn(Ask) -> u64>(f: F, tiling: Tiling, from: i32, to: i32, value: u32, factor: u32, c: i32, a: int, b: int, k: int)
    requires
        correct32(f),
        from < to,
        -0x1000 < from && to < 0x1000,
        -0x1000 < c < 0x1000,
        0 <= k <= 100,
        is32(value, a, k) && is32(factor, b, k),
        -0x40_0000 < a < 0x40_0000 && -0x200 < b < 0x200,
    ensures
        ({
            let s = gradient_step(tiling, from as int, to as int, c as int);
            let range = to - from;
            &&& is32(gradient_at(f, tiling, from, to, value, factor, c), a + s * b, k)
            &&& 0 <= s <= range
            &&& from <= c < to ==> s == c - from
            &&& tiling is ClampToEdge && c < from ==> s == 0
            &&& tiling is ClampToEdge && c >= to ==> s == range
            &&& tiling is Repeat ==> s < range && (c - from - s) % range == 0
            &&& tiling is MirroredRepeat ==> (c - from - s) % (2 * range) == 0 || (c - from + s) % (2 * range) == 0
        }),
{
    let range = to - from;
    let d = c - from;
    let s = gradient_step(tiling, from as int, to as int, c as int);
    vstd::arithmetic::div_mod::lemma_fundamental_div_mod(d, range);
    let (t, r) = (d / range, d % range);
    assert(t * range == range * t) by (nonlinear_arith);
    if from <= c < to {
        vstd::arithmetic::div_mod::lemma_fundamental_div_mod_converse(d, range, 0, d);
    }
    if tiling is Repeat {
        assert(d - s == range * t);
        vstd::arithmetic::div_mod::lemma_mod_multiples_basic(t, range);
    }
    if tiling is MirroredRepeat {
        let h = t / 2;
        if t % 2 == 0 {
            assert(d - s == h * (2 * range)) by (nonlinear_arith)
                requires
                    d - s == range * t,
                    t == 2 * h,
            ;
            vstd::arithmetic::div_mod::lemma_mod_multiples_basic(h, 2 * range);
        } else {
            assert(d + s == (h + 1) * (2 * range)) by (nonlinear_arith)
                requires
                    d == range * t + r,
                    s == range - r,
                    t == 2 * h + 1,
            ;
            vstd::arithmetic::div_mod::lemma_mod_multiples_basic(h + 1, 2 * range);
        }
    }
    assert(-0x40_0000 < s * b < 0x40_0000) by (nonlinear_arith)
        requires
            0 <= s < 0x2000,
            -0x200 < b < 0x200,
    ;
    lemma_int32(f, wrapped(s));
    let n = low(f, Ask::FromInt32(wrapped(s)));
    lemma_mul32(f, n, factor, s, b, 0, k);
    lemma_add32(f, value, low(f, Ask::Mul32(n, factor)), a, s * b, k);
}

/// Inside of a cell a value is the blend of the cell's eight corners, the
/// nearer the more. Corners are kept with y running fastest, then x.
pub proof fn law_cells_blend_their_corners<F: Fn(Ask) -> u64>(
    f: F, b: Seq<u32>, x: i32, y: i32, z: i32, s: nat, t: nat, n: Seq<int>, k: int,
)
    requires
        correct32(f),
        s <= 4 && t <= 4,
        b.len() == 8 && n.len() == 8,
        0 <= k <= 80,
        forall|i: int| 0 <= i < 8 ==> is32(#[trigger] b[i], n[i], k) && -0x400 < n[i] < 0x400,
    ensures
        ({
            let (w, h) = (pow2(s) as int, pow2(t) as int);
            let (p, q, r) = ((x as int % w) * (16int / w), (y as int % h) * (16int / h), (z as int % w) * (16int / w));
            is32(
                inside_cell(f, b, x, y, z, w as i32, h as i32),
                blend_of(p, q, r, seq![n[0], n[2], n[1], n[3], n[4], n[6], n[5], n[7]]),
                k + 12,
            )
        }),
{
    lemma2_to64();
    let (w, h) = (pow2(s) as int, pow2(t) as int);
    lemma_part(f, x, s);
    lemma_part(f, y, t);
    lemma_part(f, z, s);
    let part = |v: i32, cell: i32|
        low(f, Ask::Div32(low(f, Ask::FromInt32((v as int % (cell as int)) as i32)), low(f, Ask::FromInt32(cell))));
    let c = seq![b[0], b[2], b[1], b[3], b[4], b[6], b[5], b[7]];
    let m = seq![n[0], n[2], n[1], n[3], n[4], n[6], n[5], n[7]];
    assert(is32(b[0], n[0], k) && is32(b[1], n[1], k) && is32(b[2], n[2], k) && is32(b[3], n[3], k));
    assert(is32(b[4], n[4], k) && is32(b[5], n[5], k) && is32(b[6], n[6], k) && is32(b[7], n[7], k));
    let (ax, ay, az) = (part(x, w as i32), part(y, h as i32), part(z, w as i32));
    law_corners_blend_by_nearness(
        f, ax, ay, az, c, (x as int % w) * (16int / w), (y as int % h) * (16int / h), (z as int % w) * (16int / w), m, k);
}

/// A part of a cell, in sixteenths.
proof fn lemma_part<F: Fn(Ask) -> u64>(f: F, v: i32, s: nat)
    requires
        correct32(f),
        s <= 4,
    ensures
        ({
            let w = pow2(s) as int;
            &&& is32(
                low(f, Ask::Div32(low(f, Ask::FromInt32((v as int % w) as i32)), low(f, Ask::FromInt32(w as i32)))),
                (v as int % w) * (16int / w),
                4,
            )
            &&& 0 <= (v as int % w) * (16int / w) <= 16
            &&& 1 <= w <= 16
        }),
{
    lemma2_to64();
    let w = pow2(s) as int;
    let r = v as int % w;
    assert(w == 1 || w == 2 || w == 4 || w == 8 || w == 16) by {
        assert(s == 0 || s == 1 || s == 2 || s == 3 || s == 4);
    }
    lemma_int32(f, r as i32);
    lemma_int32(f, w as i32);
    let (a, b) = (low(f, Ask::FromInt32(r as i32)), low(f, Ask::FromInt32(w as i32)));
    lemma_shrink32(f, a, b, r, 0, s);
    lemma_finer32(low(f, Ask::Div32(a, b)), r, s as int, (4 - s) as nat);
    let u = pow2((4 - s) as nat) as int;
    assert(u * w == 16) by {
        assert(s == 0 || s == 1 || s == 2 || s == 3 || s == 4);
        assert(16int * 1 == 16 && 8int * 2 == 16 && 4int * 4 == 16 && 2int * 8 == 16 && 1int * 16 == 16);
    }
    assert(16int / w == u && 0 <= r * u <= 16) by (nonlinear_arith)
        requires
            0 <= r < w,
            u * w == 16,
            u >= 1,
    ;
}

/// Between two knots a spline is the cubic through both with their slopes:
/// the straight line, and what the slopes leave of it, by the way and what is
/// left of it.
pub proof fn law_splines_are_cubics<F: Fn(Ask) -> u64>(
    f: F, input: u32, x1: u32, x2: u32, y1: u32, y2: u32, d1: u32, d2: u32, s: nat, p: int, x: int, u: int, v: int, a: int, b: int,
)
    requires
        correct32(f),
        s <= 4,
        is32(x1, x, 0) && is32(x2, x + pow2(s), 0) && is32(input, 16 * x + p * pow2(s), 4),
        0 <= p <= 16,
        -0x100 < x < 0x100,
        is32(y1, u, 0) && is32(y2, v, 0) && is32(d1, a, 0) && is32(d2, b, 0),
        -0x40 < u < 0x40 && -0x40 < v < 0x40 && -8 < a < 8 && -8 < b < 8,
    ensures
        ({
            let w = pow2(s) as int;
            let (m, n) = (a * w - (v - u), -b * w + (v - u));
            is32(
                hermite_at(f, input, x1, x2, y1, y2, d1, d2),
                256 * ((16 - p) * u + p * v) + (p * (16 - p)) * ((16 - p) * m + p * n),
                12,
            )
        }),
{
    lemma2_to64();
    lemma_known32();
    let w = pow2(s) as int;
    assert(1 <= w <= 16) by {
        assert(s == 0 || s == 1 || s == 2 || s == 3 || s == 4);
    }
    lemma_sub32(f, x2, x1, x + w, x, 0);
    let width = low(f, Ask::Sub32(x2, x1));
    lemma_finer32(x1, x, 0, 4);
    assert(0 <= p * w <= 256) by (nonlinear_arith)
        requires
            0 <= p <= 16,
            1 <= w <= 16,
    ;
    lemma_sub32(f, input, x1, 16 * x + p * w, x * 16, 4);
    let run = low(f, Ask::Sub32(input, x1));
    lemma_div32(f, run, width, p * w, w, p, 4);
    let t = low(f, Ask::Div32(run, width));
    lemma_sub32(f, y2, y1, v, u, 0);
    let rise = low(f, Ask::Sub32(y2, y1));
    assert(-0x80 < a * w < 0x80 && -0x80 < -b * w < 0x80 && (-b) * w == -b * w) by (nonlinear_arith)
        requires
            -8 < a < 8,
            -8 < b < 8,
            1 <= w <= 16,
    ;
    lemma_mul32(f, d1, width, a, w, 0, 0);
    lemma_sub32(f, low(f, Ask::Mul32(d1, width)), rise, a * w, v - u, 0);
    lemma_neg32(f, d2, b, 0);
    lemma_mul32(f, low(f, Ask::Neg32(d2)), width, -b, w, 0, 0);
    lemma_add32(f, low(f, Ask::Mul32(low(f, Ask::Neg32(d2)), width)), rise, -b * w, v - u, 0);
    let (m, n) = (a * w - (v - u), -b * w + (v - u));
    let ca = low(f, Ask::Sub32(low(f, Ask::Mul32(d1, width)), rise));
    let cb = low(f, Ask::Add32(low(f, Ask::Mul32(low(f, Ask::Neg32(d2)), width)), rise));
    lemma_finer32(ONE_32, 1, 0, 4);
    lemma_sub32(f, ONE_32, t, 16, p, 4);
    let rest = low(f, Ask::Sub32(ONE_32, t));
    assert(0 <= p * (16 - p) <= 64) by (nonlinear_arith)
        requires
            0 <= p <= 16,
    ;
    lemma_mul32(f, t, rest, p, 16 - p, 4, 4);
    let bend = low(f, Ask::Mul32(t, rest));
    lemma_line(f, t, y1, y2, p, u, v);
    lemma_line(f, t, ca, cb, p, m, n);
    let (l, g) = ((16 - p) * u + p * v, (16 - p) * m + p * n);
    assert(-0x4000 < l < 0x4000 && -0x4000 < g < 0x4000) by (nonlinear_arith)
        requires
            l == (16 - p) * u + p * v,
            g == (16 - p) * m + p * n,
            0 <= p <= 16,
            -0x40 < u < 0x40,
            -0x40 < v < 0x40,
            -0x200 < m < 0x200,
            -0x200 < n < 0x200,
    ;
    let e = p * (16 - p);
    assert(-0x10_0000 < e * g < 0x10_0000) by (nonlinear_arith)
        requires
            0 <= e <= 64,
            -0x4000 < g < 0x4000,
    ;
    let (base, bow) = (lerped32(f, t, y1, y2), lerped32(f, t, ca, cb));
    lemma_mul32(f, bend, bow, e, g, 8, 4);
    lemma_finer32(base, l, 4, 8);
    lemma_add32(f, base, low(f, Ask::Mul32(bend, bow)), l * 256, e * g, 12);
}

/// A straight line between whole numbers, at sixteenths.
proof fn lemma_line<F: Fn(Ask) -> u64>(f: F, t: u32, a: u32, b: u32, p: int, n: int, m: int)
    requires
        correct32(f),
        is32(t, p, 4),
        is32(a, n, 0),
        is32(b, m, 0),
        0 <= p <= 16,
        -0x200 < n < 0x200,
        -0x200 < m < 0x200,
    ensures
        is32(lerped32(f, t, a, b), (16 - p) * n + p * m, 4),
{
    lemma2_to64();
    lemma_sub32(f, b, a, m, n, 0);
    let d = low(f, Ask::Sub32(b, a));
    assert(-0x8000 < p * (m - n) < 0x8000 && n * 16 + p * (m - n) == (16 - p) * n + p * m) by (nonlinear_arith)
        requires
            0 <= p <= 16,
            -0x400 < m - n < 0x400,
    ;
    lemma_mul32(f, t, d, p, m - n, 4, 0);
    lemma_finer32(a, n, 0, 4);
    lemma_add32(f, a, low(f, Ask::Mul32(t, d)), n * 16, p * (m - n), 4);
}

/// Beyond its last knots a spline goes on straight, by the slope there.
pub proof fn law_splines_go_on_straight<F: Fn(Ask) -> u64>(f: F, input: u32, location: u32, value: u32, derivative: u32, i: int, l: int, v: int, d: int)
    requires
        correct32(f),
        is32(input, i, 4) && is32(location, l, 4) && is32(value, v, 8) && is32(derivative, d, 4),
        -0x400 < i < 0x400 && -0x400 < l < 0x400 && -0x400 < d < 0x400 && -0x40_0000 < v < 0x40_0000,
    ensures
        is32(extended(f, input, location, value, derivative), v + d * (i - l), 8),
{
    lemma_zero32(4);
    lemma_order32(f, derivative, 0, d, 0, 4);
    lemma_sub32(f, input, location, i, l, 4);
    let r = low(f, Ask::Sub32(input, location));
    assert(-0x20_0000 <= d * (i - l) <= 0x20_0000 && (d == 0 ==> d * (i - l) == 0)) by (nonlinear_arith)
        requires
            -0x400 < d < 0x400,
            -0x800 < i - l < 0x800,
    ;
    lemma_mul32(f, derivative, r, d, i - l, 4, 4);
    lemma_add32(f, value, low(f, Ask::Mul32(derivative, r)), v, d * (i - l), 8);
}

/// The knots of a spline before an input: those at sorted locations that the
/// input is not below.
pub proof fn law_knots_are_found<F: Fn(Ask) -> u64>(f: F, locations: Seq<u32>, input: u32, from: int, to: int)
    requires
        correct32(f),
        number32(input),
        forall|i: int| 0 <= i < locations.len() ==> number32(#[trigger] locations[i]),
        forall|i: int, j: int| 0 <= i < j < locations.len() ==> worth32(#[trigger] locations[i]) <= worth32(#[trigger] locations[j]),
        0 <= from <= to <= locations.len(),
    ensures
        ({
            let k = bisect(f, locations, input, from, to);
            &&& from <= k <= to
            &&& forall|i: int| from <= i < k ==> worth32(#[trigger] locations[i]) <= worth32(input)
            &&& forall|i: int| k <= i < to ==> worth32(input) < worth32(#[trigger] locations[i])
        }),
    decreases to - from,
{
    if from < to {
        let mid = from + (to - from) / 2;
        assert(number32(locations[mid]));
        assert(holds(f, Ask::Less32(input, locations[mid])) == (worth32(input) < worth32(locations[mid]))) by {
            reveal(correct32);
        }
        law_knots_are_found(f, locations, input, from, mid);
        law_knots_are_found(f, locations, input, mid + 1, to);
    }
}

/// Distances: along the axes together, along the longest, and the straight
/// way, squared or not.
pub proof fn law_distances<F: Fn(Ask) -> u64>(f: F, px: i32, py: i32, pz: i32, x: i32, y: i32, z: i32, a: int, b: int, c: int)
    requires
        correct(f),
        px - x == a || x - px == a,
        py - y == b || y - py == b,
        pz - z == c || z - pz == c,
        0 <= a < 0x400 && 0 <= b < 0x400 && 0 <= c < 0x400,
    ensures
        is32(distance_at(f, Metric::EuclideanSquared, px, py, pz, x, y, z), a * a + b * b + c * c, 0),
        is32(distance_at(f, Metric::Manhattan, px, py, pz, x, y, z), a + b + c, 0),
        is32(
            distance_at(f, Metric::Chebyshev, px, py, pz, x, y, z),
            if a >= b && a >= c { a } else if b >= c { b } else { c },
            0,
        ),
        forall|s: int|
            crate::beardlaws::roots_of_squares(f) && 0 <= s < 0x1000 && #[trigger] square(s) == a * a + b * b + c * c ==> is32(
                distance_at(f, Metric::Euclidean, px, py, pz, x, y, z), s, 0),
{
    lemma_way(f, px, x, a);
    lemma_way(f, py, y, b);
    lemma_way(f, pz, z, c);
    let dx = low(f, Ask::FromInt32(wrapped(px - x)));
    let dy = low(f, Ask::FromInt32(wrapped(py - y)));
    let dz = low(f, Ask::FromInt32(wrapped(pz - z)));
    let xy = low(f, Ask::Add32(low(f, Ask::Mul32(dx, dx)), low(f, Ask::Mul32(dy, dy))));
    lemma_add32(f, low(f, Ask::Mul32(dx, dx)), low(f, Ask::Mul32(dy, dy)), a * a, b * b, 0);
    lemma_add32(f, xy, low(f, Ask::Mul32(dz, dz)), a * a + b * b, c * c, 0);
    let (ax, ay, az) = (low(f, Ask::Abs32(dx)), low(f, Ask::Abs32(dy)), low(f, Ask::Abs32(dz)));
    lemma_add32(f, ax, ay, a, b, 0);
    lemma_add32(f, low(f, Ask::Add32(ax, ay)), az, a + b, c, 0);
    lemma_extremes32(f, ax, ay, a, b, 0);
    lemma_extremes32(f, ay, ax, b, a, 0);
    let m = low(f, Ask::Max32(ax, ay));
    let l = if a < b { b } else { a };
    lemma_extremes32(f, m, az, l, c, 0);
    lemma_extremes32(f, az, m, c, l, 0);
    let squares = low(f, Ask::Add32(xy, low(f, Ask::Mul32(dz, dz))));
    let n = a * a + b * b + c * c;
    lemma_widen(f, squares, n, 0);
    let w = reply(f, Ask::Widen(squares));
    assert forall|s: int|
        crate::beardlaws::roots_of_squares(f) && 0 <= s < 0x1000 && #[trigger] square(s) == n implies is32(
        distance_at(f, Metric::Euclidean, px, py, pz, x, y, z), s, 0) by {
        assert(crate::beardlaws::square64(w, s, 0));
        lemma_narrow(f, reply(f, Ask::Sqrt64(w)), s, 0);
    }
}

pub open spec fn square(s: int) -> int {
    s * s
}

proof fn lemma_way<F: Fn(Ask) -> u64>(f: F, p: i32, q: i32, a: int)
    requires
        correct32(f),
        p - q == a || q - p == a,
        0 <= a < 0x400,
    ensures
        ({
            let d = low(f, Ask::FromInt32(wrapped(p - q)));
            &&& is32(low(f, Ask::Mul32(d, d)), a * a, 0)
            &&& is32(low(f, Ask::Abs32(d)), a, 0)
            &&& 0 <= a * a < 0x10_0000
        }),
{
    let n = p - q;
    assert(0 <= a * a < 0x10_0000 && n * n == a * a) by (nonlinear_arith)
        requires
            0 <= a < 0x400,
            n == a || n == -a,
    ;
    lemma_int32(f, wrapped(n));
    let d = low(f, Ask::FromInt32(wrapped(n)));
    lemma_mul32(f, d, d, n, n, 0, 0);
    lemma_abs32(f, d, n, 0);
}

/// A filled block is the blend of the eight corners of its cell, the nearer
/// the more: the cell by the block's place from the first cell on, and the
/// nearness by its place in the cell.
pub proof fn law_filled_blocks_blend_their_cell<F: Fn(Ask) -> u64>(
    f: F, cb: Seq<u32>, w: Lattice, v: Lattice, s: nat, t: nat, i: int, n: Seq<int>, k: int,
)
    requires
        correct32(f),
        s <= 4 && t <= 4,
        n.len() == 8,
        0 <= k <= 80,
        ({
            let (e, h) = (pow2(s) as int, pow2(t) as int);
            let (x, y, z) = (v.x + v.ix(i), v.y + v.iy(i), v.z + v.iz(i));
            let (cx, cy, cz) = (x / e - v.x / e, y / h - v.y / h, z / e - v.z / e);
            &&& v.iy(i) >= 0
            &&& cx + 1 < w.sx && cy + 1 < w.sy && cz + 1 < w.sz
            &&& forall|j: int|
                0 <= j < 8 ==> is32(cb[w.place(cx + j % 2, cy + (j / 2) % 2, cz + j / 4)], #[trigger] n[j], k) && -0x100 < n[j] < 0x100
        }),
    ensures
        ({
            let (e, h) = (pow2(s) as int, pow2(t) as int);
            let (x, y, z) = (v.x + v.ix(i), v.y + v.iy(i), v.z + v.iz(i));
            is32(
                cell_fill(f, cb, w, v, e as i32, h as i32, i),
                blend_of((x % e) * (16int / e), (y % h) * (16int / h), (z % e) * (16int / e), n),
                k + 12,
            )
        }),
{
    let (e, h) = (pow2(s) as int, pow2(t) as int);
    let (x, y, z) = (v.x + v.ix(i), v.y + v.iy(i), v.z + v.iz(i));
    lemma_share(f, x, s);
    lemma_share(f, z, s);
    lemma_share(f, y, t);
    lemma_share(f, v.y, t);
    let (cx, cy, cz) = (x / e - v.x / e, y / h - v.y / h, z / e - v.z / e);
    let (p, q, r) = ((x % e) * (16int / e), (y % h) * (16int / h), (z % e) * (16int / e));
    let inv = inverse(f, e as i32);
    let (ax, az) = (cell_part(f, x % e, inv), cell_part(f, z % e, inv));
    assert(is32(cb[w.place(cx, cy, cz)], n[0], k));
    assert(is32(cb[w.place(cx + 1, cy, cz)], n[1], k));
    assert(is32(cb[w.place(cx, cy + 1, cz)], n[2], k));
    assert(is32(cb[w.place(cx + 1, cy + 1, cz)], n[3], k));
    assert(is32(cb[w.place(cx, cy, cz + 1)], n[4], k));
    assert(is32(cb[w.place(cx + 1, cy, cz + 1)], n[5], k));
    assert(is32(cb[w.place(cx, cy + 1, cz + 1)], n[6], k));
    assert(is32(cb[w.place(cx + 1, cy + 1, cz + 1)], n[7], k));
    let (c0, c1) = (cb[w.place(cx, cy, cz)], cb[w.place(cx, cy, cz + 1)]);
    let (c2, c3) = (cb[w.place(cx + 1, cy, cz)], cb[w.place(cx + 1, cy, cz + 1)]);
    let (d0, d1) = (cb[w.place(cx, cy + 1, cz)], cb[w.place(cx, cy + 1, cz + 1)]);
    let (d2, d3) = (cb[w.place(cx + 1, cy + 1, cz)], cb[w.place(cx + 1, cy + 1, cz + 1)]);
    lemma_square(f, ax, az, c0, c1, c2, c3, p, r, n[0], n[4], n[1], n[5], k);
    lemma_square(f, ax, az, d0, d1, d2, d3, p, r, n[2], n[6], n[3], n[7], k);
    let ends = column_ends(f, cb, w, cx, cy, cz, ax, az);
    let bottom = (16 - p) * ((16 - r) * n[0] + r * n[4]) + p * ((16 - r) * n[1] + r * n[5]);
    let top = (16 - p) * ((16 - r) * n[2] + r * n[6]) + p * ((16 - r) * n[3] + r * n[7]);
    assert(is32(ends.0, bottom, k + 8) && is32(ends.1, top, k + 8));
    let first = first_local(v.y, h, cy);
    vstd::arithmetic::div_mod::lemma_fundamental_div_mod(y, h);
    vstd::arithmetic::div_mod::lemma_fundamental_div_mod(v.y, h);
    assert(0 <= first <= y % h) by {
        if cy == 0 {
            assert(y - v.y == y % h - v.y % h);
        }
    }
    lemma_column(f, ends, t, bottom, top, first, y % h, k + 8);
    lemma_spread(16 - q, 16 - p, 16 - r, p, r, n[0], n[4], n[1], n[5]);
    lemma_spread(q, 16 - p, 16 - r, p, r, n[2], n[6], n[3], n[7]);
}

/// The way into a cell, in sixteenths of it.
proof fn lemma_share<F: Fn(Ask) -> u64>(f: F, v: int, s: nat)
    requires
        correct32(f),
        s <= 4,
    ensures
        ({
            let w = pow2(s) as int;
            &&& is32(inverse(f, w as i32), 1, s as int)
            &&& is32(cell_part(f, v % w, inverse(f, w as i32)), (v % w) * (16int / w), 4)
            &&& 0 <= (v % w) * (16int / w) <= 16
            &&& 1 <= w <= 16
            &&& down_div(v, w) == v / w && down_mod(v, w) == v % w
            &&& 0 <= v % w < w
            &&& (16int / w) * w == 16
            &&& pow2((4 - s) as nat) == 16int / w
        }),
{
    lemma2_to64();
    lemma_known32();
    let w = pow2(s) as int;
    assert(1 <= w <= 16) by {
        assert(s == 0 || s == 1 || s == 2 || s == 3 || s == 4);
    }
    vstd::arithmetic::div_mod::lemma_fundamental_div_mod(v, w);
    let r = v % w;
    assert(w * (v / w) == (v / w) * w) by (nonlinear_arith);
    lemma_int32(f, r as i32);
    lemma_int32(f, w as i32);
    lemma_shrink32(f, ONE_32, low(f, Ask::FromInt32(w as i32)), 1, 0, s);
    let a = low(f, Ask::FromInt32(r as i32));
    lemma_mul32(f, a, inverse(f, w as i32), r, 1, 0, s as int);
    lemma_finer32(cell_part(f, r, inverse(f, w as i32)), r, s as int, (4 - s) as nat);
    let u = pow2((4 - s) as nat) as int;
    assert(u * w == 16) by {
        assert(s == 0 || s == 1 || s == 2 || s == 3 || s == 4);
        assert(16int * 1 == 16 && 8int * 2 == 16 && 4int * 4 == 16 && 2int * 8 == 16 && 1int * 16 == 16);
    }
    assert(16int / w == u && 0 <= r * u <= 16) by (nonlinear_arith)
        requires
            0 <= r < w,
            u * w == 16,
            u >= 1,
    ;
}

/// A line between two values at sixteenths.
proof fn lemma_mixed<F: Fn(Ask) -> u64>(f: F, t: u32, a: u32, b: u32, p: int, n: int, m: int, k: int)
    requires
        correct32(f),
        is32(t, p, 4),
        is32(a, n, k),
        is32(b, m, k),
        0 <= p <= 16,
        0 <= k <= 100,
        -0x1_0000 < n < 0x1_0000,
        -0x1_0000 < m < 0x1_0000,
    ensures
        is32(lerped32(f, t, a, b), (16 - p) * n + p * m, k + 4),
{
    lemma2_to64();
    lemma_sub32(f, b, a, m, n, k);
    let d = low(f, Ask::Sub32(b, a));
    assert(-0x40_0000 < p * (m - n) < 0x40_0000 && n * 16 + p * (m - n) == (16 - p) * n + p * m) by (nonlinear_arith)
        requires
            0 <= p <= 16,
            -0x2_0000 < m - n < 0x2_0000,
    ;
    assert(-0x10_0000 <= (16 - p) * n + p * m <= 0x10_0000) by (nonlinear_arith)
        requires
            0 <= p <= 16,
            -0x1_0000 < n < 0x1_0000,
            -0x1_0000 < m < 0x1_0000,
    ;
    lemma_mul32(f, t, d, p, m - n, 4, k);
    lemma_finer32(a, n, k, 4);
    lemma_add32(f, a, low(f, Ask::Mul32(t, d)), n * 16, p * (m - n), k + 4);
}

/// Four corners mixed along z, then along x.
proof fn lemma_square<F: Fn(Ask) -> u64>(
    f: F, ax: u32, az: u32, c0: u32, c1: u32, c2: u32, c3: u32, p: int, r: int, n0: int, n1: int, n2: int, n3: int, k: int,
)
    requires
        correct32(f),
        is32(ax, p, 4) && is32(az, r, 4),
        0 <= p <= 16 && 0 <= r <= 16,
        0 <= k <= 90,
        is32(c0, n0, k) && is32(c1, n1, k) && is32(c2, n2, k) && is32(c3, n3, k),
        -0x100 < n0 < 0x100 && -0x100 < n1 < 0x100 && -0x100 < n2 < 0x100 && -0x100 < n3 < 0x100,
    ensures
        ({
            let n = (16 - p) * ((16 - r) * n0 + r * n1) + p * ((16 - r) * n2 + r * n3);
            &&& is32(lerped32(f, ax, lerped32(f, az, c0, c1), lerped32(f, az, c2, c3)), n, k + 8)
            &&& -0x1_0000 < n < 0x1_0000
        }),
{
    lemma_mixed(f, az, c0, c1, r, n0, n1, k);
    lemma_mixed(f, az, c2, c3, r, n2, n3, k);
    let (a, b) = ((16 - r) * n0 + r * n1, (16 - r) * n2 + r * n3);
    lemma_between(r, n0, n1, 0x100);
    lemma_between(r, n2, n3, 0x100);
    lemma_between(p, a, b, 0x1000);
    lemma_mixed(f, ax, lerped32(f, az, c0, c1), lerped32(f, az, c2, c3), p, a, b, k + 4);
}

proof fn lemma_between(p: int, n: int, m: int, l: int)
    requires
        0 <= p <= 16,
        -l < n < l,
        -l < m < l,
    ensures
        -16 * l < (16 - p) * n + p * m < 16 * l,
{
    let q = 16 - p;
    let (g, h) = (l - 1, -(l - 1));
    assert(q * h <= q * n <= q * g) by (nonlinear_arith)
        requires
            h <= n <= g,
            q >= 0,
    ;
    assert(p * h <= p * m <= p * g) by (nonlinear_arith)
        requires
            h <= m <= g,
            p >= 0,
    ;
    assert(q * g + p * g == 16 * g && q * h + p * h == 16 * h) by (nonlinear_arith)
        requires
            q == 16 - p,
    ;
}

/// A column of a cell grows by equal steps from its bottom to its top.
proof fn lemma_column<F: Fn(Ask) -> u64>(f: F, ends: (u32, u32), t: nat, bottom: int, top: int, first: int, row: int, k: int)
    requires
        correct32(f),
        t <= 4,
        0 <= k <= 90,
        is32(ends.0, bottom, k) && is32(ends.1, top, k),
        -0x1_0000 < bottom < 0x1_0000 && -0x1_0000 < top < 0x1_0000,
        0 <= first <= row < pow2(t),
    ensures
        ({
            let q = row * (16int / (pow2(t) as int));
            is32(column_value(f, ends, inverse(f, pow2(t) as i32), first, row), (16 - q) * bottom + q * top, k + 4)
        }),
{
    lemma_share(f, row, t);
    let h = pow2(t) as int;
    let inv = inverse(f, h as i32);
    lemma_sub32(f, ends.1, ends.0, top, bottom, k);
    let d = top - bottom;
    lemma_mul32(f, low(f, Ask::Sub32(ends.1, ends.0)), inv, d, 1, k, t as int);
    let step = column_step(f, ends, inv);
    assert(is32(step, d, k + t));
    lemma_finer32(ends.0, bottom, k, t);
    lemma_int32(f, first as i32);
    let n = low(f, Ask::FromInt32(first as i32));
    assert(-0x20_0000 <= d * first <= 0x20_0000 && -0x10_0000 <= bottom * h <= 0x10_0000) by (nonlinear_arith)
        requires
            -0x2_0000 < d < 0x2_0000,
            0 <= first < 16,
            -0x1_0000 < bottom < 0x1_0000,
            1 <= h <= 16,
    ;
    lemma_mul32(f, step, n, d, first, k + t, 0);
    let start = low(f, Ask::Add32(ends.0, low(f, Ask::Mul32(step, n))));
    lemma_add32(f, ends.0, low(f, Ask::Mul32(step, n)), bottom * h, d * first, k + t);
    let base = bottom * h + d * first;
    lemma_climb(f, start, step, base, d, (row - first) as nat, k + t);
    let g = base + (row - first) * d;
    let u = 16int / h;
    vstd::arithmetic::div_mod::lemma_fundamental_div_mod(row, h);
    assert(row % h == row) by {
        vstd::arithmetic::div_mod::lemma_fundamental_div_mod_converse(row, h, 0, row);
    }
    let q = row * u;
    assert(g == bottom * h + d * row && g * u == (16 - q) * bottom + q * top) by (nonlinear_arith)
        requires
            g == bottom * h + d * first + (row - first) * d,
            q == row * u,
            u * h == 16,
            d == top - bottom,
    ;
    lemma_finer32(column_value(f, ends, inv, first, row), g, k + t, (4 - t) as nat);
}

proof fn lemma_climb<F: Fn(Ask) -> u64>(f: F, start: u32, step: u32, a: int, d: int, j: nat, k: int)
    requires
        correct32(f),
        is32(start, a, k) && is32(step, d, k),
        0 <= k <= 100,
        -0x40_0000 < a < 0x40_0000 && -0x2_0000 < d < 0x2_0000,
        j <= 16,
    ensures
        is32(climbed(f, start, step, j), a + j * d, k),
    decreases j,
{
    assert(j == 0 ==> j * d == 0) by (nonlinear_arith);
    if j > 0 {
        lemma_climb(f, start, step, a, d, (j - 1) as nat, k);
        let b = a + (j - 1) * d;
        assert(-0x80_0000 < b < 0x80_0000 && b + d == a + j * d) by (nonlinear_arith)
            requires
                b == a + (j - 1) * d,
                1 <= j <= 16,
                -0x40_0000 < a < 0x40_0000,
                -0x2_0000 < d < 0x2_0000,
        ;
        lemma_add32(f, climbed(f, start, step, (j - 1) as nat), step, b, d, k);
    }
}

proof fn lemma_spread(t: int, x: int, z: int, p: int, r: int, a: int, b: int, c: int, d: int)
    ensures
        t * (x * (z * a + r * b) + p * (z * c + r * d)) == x * t * z * a + p * t * z * c + x * t * r * b + p * t * r * d,
{
    assert(t * (x * (z * a)) == x * t * z * a) by (nonlinear_arith);
    assert(t * (x * (r * b)) == x * t * r * b) by (nonlinear_arith);
    assert(t * (p * (z * c)) == p * t * z * c) by (nonlinear_arith);
    assert(t * (p * (r * d)) == p * t * r * d) by (nonlinear_arith);
    let (u, v) = (x * (z * a + r * b), p * (z * c + r * d));
    assert(u == x * (z * a) + x * (r * b) && v == p * (z * c) + p * (r * d)) by (nonlinear_arith)
        requires
            u == x * (z * a + r * b),
            v == p * (z * c + r * d),
    ;
    assert(t * (u + v) == t * (x * (z * a)) + t * (x * (r * b)) + t * (p * (z * c)) + t * (p * (r * d))) by (nonlinear_arith)
        requires
            u == x * (z * a) + x * (r * b),
            v == p * (z * c) + p * (r * d),
    ;
}

} // verus!
