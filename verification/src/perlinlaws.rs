//! What the noise is: where arithmetic is exact, a blend of the products of
//! the gradients around a point with the way to it.

use vstd::prelude::*;
use vstd::arithmetic::power2::{lemma2_to64, lemma2_to64_rest, pow2};
use crate::arith::{holds, lerped32, low, reply, Ask, HALF, ONE_32};
use crate::numbers::{
    correct, correct32, correct64, is32, is64, lemma_add32, lemma_add64, lemma_bits32, lemma_bits64, lemma_coarser32, lemma_div64, lemma_finer32,
    lemma_finer64, lemma_floor64, lemma_int32, lemma_int64, lemma_mul32, lemma_mul64, lemma_narrow, lemma_order64, lemma_sub32, lemma_sub64,
    lemma_to_int64, lemma_zero32,
};
use crate::perlin26::{
    blended2, blended3, dotted, far_x, far_y, far_z, gradient_of, located, off_by, one_if, piled, smoothed, summed, wrapped, Layer, LayerNoise,
    PerlinNoise, Spot, Style, FIFTEEN_32, HALF_ROUND_OFF, MINUS_HALF_ROUND_OFF, ROUND_OFF, SIX_32, TEN_32,
};

verus! {

/// A number, turned around by an odd digit.
pub open spec fn signed(digit: int, v: int) -> int {
    if digit % 2 == 1 { -v } else { v }
}

/// The product of a gradient with a way, by the digits of the gradient's
/// number: the first part goes along x or y, the second along x, y or z, and
/// the two lowest digits turn them around.
pub open spec fn along(h: int, x: int, y: int, z: int) -> int {
    let u = if h < 8 { x } else { y };
    let v = if h < 4 {
        y
    } else if h == 12 || h == 14 {
        x
    } else {
        z
    };
    signed(h, u) + signed(h / 2, v)
}

/// The sixteen gradients, by their products with every way.
pub proof fn law_gradients_by_their_digits(h: int, x: int, y: int, z: int)
    requires
        0 <= h < 16,
    ensures
        ({
            let g = gradient_of(h);
            g.0 * x + g.1 * y + g.2 * z == along(h, x, y, z)
        }),
{
    let g = gradient_of(h);
    assert(h == 0 || h == 1 || h == 2 || h == 3 || h == 4 || h == 5 || h == 6 || h == 7 || h == 8 || h == 9 || h == 10 || h == 11
        || h == 12 || h == 13 || h == 14 || h == 15);
    assert(g.0 * x == (if g.0 == 1 { x } else if g.0 == 0 { 0 } else { -x })) by (nonlinear_arith)
        requires
            g.0 == 1 || g.0 == 0 || g.0 == -1,
    ;
    assert(g.1 * y == (if g.1 == 1 { y } else if g.1 == 0 { 0 } else { -y })) by (nonlinear_arith)
        requires
            g.1 == 1 || g.1 == 0 || g.1 == -1,
    ;
    assert(g.2 * z == (if g.2 == 1 { z } else if g.2 == 0 { 0 } else { -z })) by (nonlinear_arith)
        requires
            g.2 == 1 || g.2 == 0 || g.2 == -1,
    ;
}

/// The gradients are the directions to the edges of a cube: each has two
/// parts of size one and one that is nothing, the first twelve differ, and
/// the last four are again those numbered 0, 9, 1 and 11.
pub proof fn law_gradients_are_the_edges(a: int, b: int)
    requires
        0 <= a < 16,
        0 <= b < 16,
    ensures
        ({
            let g = gradient_of(a);
            g.0 * g.0 + g.1 * g.1 + g.2 * g.2 == 2 && -1 <= g.0 <= 1 && -1 <= g.1 <= 1 && -1 <= g.2 <= 1
        }),
        a < b < 12 ==> gradient_of(a) != gradient_of(b),
        gradient_of(12) == gradient_of(0) && gradient_of(13) == gradient_of(9) && gradient_of(14) == gradient_of(1) && gradient_of(15)
            == gradient_of(11),
{
    let g = gradient_of(a);
    assert(g.0 * g.0 == (if g.0 == 0 { 0int } else { 1 })) by (nonlinear_arith)
        requires
            g.0 == 1 || g.0 == 0 || g.0 == -1,
    ;
    assert(g.1 * g.1 == (if g.1 == 0 { 0int } else { 1 })) by (nonlinear_arith)
        requires
            g.1 == 1 || g.1 == 0 || g.1 == -1,
    ;
    assert(g.2 * g.2 == (if g.2 == 0 { 0int } else { 1 })) by (nonlinear_arith)
        requires
            g.2 == 1 || g.2 == 0 || g.2 == -1,
    ;
}

proof fn lemma_part<F: Fn(Ask) -> u64>(f: F, g: i32, x: u32, a: int, k: int)
    requires
        correct32(f),
        -1 <= g <= 1,
        is32(x, a, k),
        -0x100_0000 < a < 0x100_0000,
    ensures
        is32(low(f, Ask::Mul32(low(f, Ask::FromInt32(g)), x)), g * a, k),
        -0x100_0000 < g * a < 0x100_0000,
{
    assert(-0x100_0000 < g * a < 0x100_0000) by (nonlinear_arith)
        requires
            -1 <= g <= 1,
            -0x100_0000 < a < 0x100_0000,
    ;
    lemma_int32(f, g);
    lemma_mul32(f, low(f, Ask::FromInt32(g)), x, g as int, a, 0, k);
}

/// The product of a gradient with a way is exact on numbers of few digits,
/// in whichever order it is summed.
pub proof fn law_dot_products_are_exact<F: Fn(Ask) -> u64>(
    f: F, style: Style, h: int, x: u32, y: u32, z: u32, a: int, b: int, c: int, k: int,
)
    requires
        correct32(f),
        0 <= h < 16,
        is32(x, a, k),
        is32(y, b, k),
        is32(z, c, k),
        -0x40_0000 < a < 0x40_0000,
        -0x40_0000 < b < 0x40_0000,
        -0x40_0000 < c < 0x40_0000,
    ensures
        is32(dotted(f, style, h, x, y, z), along(h, a, b, c), k),
{
    let g = gradient_of(h);
    lemma_part(f, g.0, x, a, k);
    lemma_part(f, g.1, y, b, k);
    lemma_part(f, g.2, z, c, k);
    law_gradients_by_their_digits(h, a, b, c);
    let (p, q, r) = (
        low(f, Ask::Mul32(low(f, Ask::FromInt32(g.0)), x)), low(f, Ask::Mul32(low(f, Ask::FromInt32(g.1)), y)),
        low(f, Ask::Mul32(low(f, Ask::FromInt32(g.2)), z)));
    assert(-0x40_0000 < g.0 * a < 0x40_0000 && -0x40_0000 < g.1 * b < 0x40_0000 && -0x40_0000 < g.2 * c < 0x40_0000)
        by (nonlinear_arith)
        requires
            -1 <= g.0 <= 1,
            -1 <= g.1 <= 1,
            -1 <= g.2 <= 1,
            -0x40_0000 < a < 0x40_0000,
            -0x40_0000 < b < 0x40_0000,
            -0x40_0000 < c < 0x40_0000,
    ;
    match style {
        Style::Point => {
            lemma_add32(f, p, q, g.0 * a, g.1 * b, k);
            lemma_add32(f, low(f, Ask::Add32(p, q)), r, g.0 * a + g.1 * b, g.2 * c, k);
        },
        Style::Volume => {
            lemma_add32(f, p, r, g.0 * a, g.2 * c, k);
            lemma_add32(f, low(f, Ask::Add32(p, r)), q, g.0 * a + g.2 * c, g.1 * b, k);
        },
    }
}

/// A corner's gradient is drawn from the permutation by x, then y, then z.
pub proof fn law_corners_hash_their_place(n: PerlinNoise, x: int, y: int, z: int, i: int, j: int, l: int)
    requires
        0 <= i <= 1,
        0 <= j <= 1,
        0 <= l <= 1,
    ensures
        ({
            let p = n.perms@;
            let a = p[(x + i) % 256] as int;
            let b = p[(a + y + j) % 256] as int;
            n.hashed(x, y, z, i + 2 * j + 4 * l) == p[(b + z + l) % 256] as int % 16
        }),
        n.hashed(x, y, z, 1 + 2 * j + 4 * l) == n.hashed(x + 1, y, z, 2 * j + 4 * l),
        n.hashed(x, y, z, i + 2 + 4 * l) == n.hashed(x, y + 1, z, i + 4 * l),
        n.hashed(x, y, z, i + 2 * j + 4) == n.hashed(x, y, z + 1, i + 2 * j),
{
    let k = i + 2 * j + 4 * l;
    assert(one_if(far_x(k)) == i && one_if(far_y(k)) == j && one_if(far_z(k)) == l);
}

/// A blend of two, in sixteenths.
proof fn lemma_mix<F: Fn(Ask) -> u64>(f: F, t: u32, u: u32, v: u32, p: int, n: int, m: int, k: int)
    requires
        correct32(f),
        is32(t, p, 4),
        is32(u, n, k),
        is32(v, m, k),
        0 <= k <= 100,
        0 <= p <= 16,
        -0x8_0000 < n < 0x8_0000,
        -0x8_0000 < m < 0x8_0000,
    ensures
        is32(lerped32(f, t, u, v), (16 - p) * n + p * m, k + 4),
{
    lemma_sub32(f, v, u, m, n, k);
    let d = low(f, Ask::Sub32(v, u));
    assert(-0x100_0000 < p * (m - n) <= 0xff_ffff) by (nonlinear_arith)
        requires
            0 <= p <= 16,
            -0x10_0000 < m - n < 0x10_0000,
    ;
    lemma_mul32(f, t, d, p, m - n, 4, k);
    lemma2_to64();
    lemma_finer32(u, n, k, 4);
    let w = (16 - p) * n + p * m;
    assert(w == n * 16 + p * (m - n)) by (nonlinear_arith)
        requires
            w == (16 - p) * n + p * m,
    ;
    assert(-0x100_0000 < w < 0x100_0000) by (nonlinear_arith)
        requires
            w == (16 - p) * n + p * m,
            0 <= p <= 16,
            -0x8_0000 < n < 0x8_0000,
            -0x8_0000 < m < 0x8_0000,
    ;
    lemma_add32(f, u, low(f, Ask::Mul32(t, d)), n * 16, p * (m - n), k + 4);
}

/// The size of a blend in sixteenths.
proof fn lemma_mix_size(p: int, n: int, m: int, s: int)
    requires
        0 <= p <= 16,
        -s < n < s,
        -s < m < s,
    ensures
        -16 * s < (16 - p) * n + p * m < 16 * s,
{
    assert(-16 * s < (16 - p) * n + p * m < 16 * s) by (nonlinear_arith)
        requires
            0 <= p <= 16,
            -s < n < s,
            -s < m < s,
    ;
}

/// The part that a corner has in a blend at some sixteenths.
pub open spec fn share(p: int, far: bool) -> int {
    if far { p } else { 16 - p }
}

/// A sum over the eight corners of a cell, the nearer a corner the more.
pub open spec fn blend_of(p: int, q: int, r: int, n: Seq<int>) -> int {
    share(p, false) * share(q, false) * share(r, false) * n[0] + share(p, true) * share(q, false) * share(r, false) * n[1] + share(
        p, false) * share(q, true) * share(r, false) * n[2] + share(p, true) * share(q, true) * share(r, false) * n[3] + share(
        p, false) * share(q, false) * share(r, true) * n[4] + share(p, true) * share(q, false) * share(r, true) * n[5] + share(
        p, false) * share(q, true) * share(r, true) * n[6] + share(p, true) * share(q, true) * share(r, true) * n[7]
}

/// At sixteenths along every axis a blend of eight corners takes each by its
/// nearness: the first axis runs through neighbours, the second through
/// every other corner, the third through the two halves.
pub proof fn law_corners_blend_by_nearness<F: Fn(Ask) -> u64>(
    f: F, a1: u32, a2: u32, a3: u32, v: Seq<u32>, p: int, q: int, r: int, n: Seq<int>, k: int,
)
    requires
        correct32(f),
        0 <= p <= 16 && 0 <= q <= 16 && 0 <= r <= 16,
        is32(a1, p, 4) && is32(a2, q, 4) && is32(a3, r, 4),
        v.len() == 8,
        n.len() == 8,
        0 <= k <= 80,
        forall|i: int| 0 <= i < 8 ==> is32(#[trigger] v[i], n[i], k) && -0x400 < n[i] < 0x400,
    ensures
        is32(blended3(f, a1, a2, a3, v), blend_of(p, q, r, n), k + 12),
{
    let mix = |p: int, n: int, m: int| (16 - p) * n + p * m;
    assert(is32(v[0], n[0], k) && is32(v[1], n[1], k) && is32(v[2], n[2], k) && is32(v[3], n[3], k));
    assert(is32(v[4], n[4], k) && is32(v[5], n[5], k) && is32(v[6], n[6], k) && is32(v[7], n[7], k));
    let (b0, b1, b2, b3) = (mix(p, n[0], n[1]), mix(p, n[2], n[3]), mix(p, n[4], n[5]), mix(p, n[6], n[7]));
    lemma_mix(f, a1, v[0], v[1], p, n[0], n[1], k);
    lemma_mix(f, a1, v[2], v[3], p, n[2], n[3], k);
    lemma_mix(f, a1, v[4], v[5], p, n[4], n[5], k);
    lemma_mix(f, a1, v[6], v[7], p, n[6], n[7], k);
    lemma_mix_size(p, n[0], n[1], 0x400);
    lemma_mix_size(p, n[2], n[3], 0x400);
    lemma_mix_size(p, n[4], n[5], 0x400);
    lemma_mix_size(p, n[6], n[7], 0x400);
    let (c0, c1) = (mix(q, b0, b1), mix(q, b2, b3));
    lemma_mix(f, a2, lerped32(f, a1, v[0], v[1]), lerped32(f, a1, v[2], v[3]), q, b0, b1, k + 4);
    lemma_mix(f, a2, lerped32(f, a1, v[4], v[5]), lerped32(f, a1, v[6], v[7]), q, b2, b3, k + 4);
    lemma_mix_size(q, b0, b1, 0x4000);
    lemma_mix_size(q, b2, b3, 0x4000);
    lemma_mix(
        f, a3, blended2(f, a1, a2, v[0], v[1], v[2], v[3]), blended2(f, a1, a2, v[4], v[5], v[6], v[7]), r, c0, c1, k + 8);
    let w = mix(r, c0, c1);
    assert(c0 == (16 - q) * b0 + q * b1 && c1 == (16 - q) * b2 + q * b3 && w == (16 - r) * c0 + r * c1);
    lemma_expand(p, q, r, n, b0, b1, b2, b3, c0, c1, w);
}

proof fn lemma_expand(p: int, q: int, r: int, n: Seq<int>, b0: int, b1: int, b2: int, b3: int, c0: int, c1: int, w: int)
    requires
        b0 == (16 - p) * n[0] + p * n[1],
        b1 == (16 - p) * n[2] + p * n[3],
        b2 == (16 - p) * n[4] + p * n[5],
        b3 == (16 - p) * n[6] + p * n[7],
        c0 == (16 - q) * b0 + q * b1,
        c1 == (16 - q) * b2 + q * b3,
        w == (16 - r) * c0 + r * c1,
    ensures
        w == blend_of(p, q, r, n),
{
    let (s, t, u) = (16 - p, 16 - q, 16 - r);
    let (n0, n1, n2, n3, n4, n5, n6, n7) = (n[0], n[1], n[2], n[3], n[4], n[5], n[6], n[7]);
    lemma_two(t, s, n0, p, n1);
    lemma_two(q, s, n2, p, n3);
    lemma_two(t, s, n4, p, n5);
    lemma_two(q, s, n6, p, n7);
    lemma_four(u, s * t, n0, p * t, n1, s * q, n2, p * q, n3);
    lemma_four(r, s * t, n4, p * t, n5, s * q, n6, p * q, n7);
}

proof fn lemma_two(t: int, s: int, a: int, p: int, b: int)
    ensures
        t * (s * a + p * b) == s * t * a + p * t * b,
{
    assert(t * (s * a + p * b) == s * t * a + p * t * b) by (nonlinear_arith);
}

proof fn lemma_four(u: int, w: int, a: int, x: int, b: int, y: int, c: int, z: int, d: int)
    ensures
        u * (w * a + x * b + y * c + z * d) == w * u * a + x * u * b + y * u * c + z * u * d,
{
    lemma_two(u, w, a, x, b);
    lemma_two(u, y, c, z, d);
    let (m, n) = (w * a + x * b, y * c + z * d);
    assert(u * (m + n) == u * m + u * n) by (nonlinear_arith);
}

/// The easing is the curve `6 x^5 - 15 x^4 + 10 x^3`, exact at sixteenths.
pub proof fn law_easing_is_the_quintic<F: Fn(Ask) -> u64>(f: F, x: u32, n: int)
    requires
        correct32(f),
        0 <= n <= 16,
        is32(x, n, 4),
    ensures
        is32(smoothed(f, x), 6 * n * n * n * n * n - 15 * 16 * n * n * n * n + 10 * 256 * n * n * n, 20),
{
    lemma2_to64();
    assert(is32(SIX_32, 6, 0)) by {
        lemma_bits32(SIX_32, 6, 0, 21);
    }
    assert(is32(FIFTEEN_32, 15, 0)) by {
        lemma_bits32(FIFTEEN_32, 15, 0, 20);
    }
    assert(is32(TEN_32, 10, 0)) by {
        lemma_bits32(TEN_32, 10, 0, 20);
    }
    let (n2, n3) = (n * n, n * n * n);
    assert(0 <= n2 <= 256 && 0 <= n3 <= 4096 && n3 == n2 * n) by (nonlinear_arith)
        requires
            0 <= n <= 16,
            n2 == n * n,
            n3 == n * n * n,
    ;
    lemma_mul32(f, x, x, n, n, 4, 4);
    lemma_mul32(f, low(f, Ask::Mul32(x, x)), x, n2, n, 8, 4);
    lemma_mul32(f, x, SIX_32, n, 6, 4, 0);
    lemma_finer32(FIFTEEN_32, 15, 0, 4);
    lemma_sub32(f, low(f, Ask::Mul32(x, SIX_32)), FIFTEEN_32, n * 6, 240, 4);
    let inner = low(f, Ask::Sub32(low(f, Ask::Mul32(x, SIX_32)), FIFTEEN_32));
    let i = n * 6 - 240;
    assert(-0x1000 < n * i <= 0) by (nonlinear_arith)
        requires
            0 <= n <= 16,
            -240 <= i <= -144,
    ;
    lemma_mul32(f, x, inner, n, i, 4, 4);
    lemma_finer32(TEN_32, 10, 0, 8);
    lemma_add32(f, low(f, Ask::Mul32(x, inner)), TEN_32, n * i, 2560, 8);
    let sum = low(f, Ask::Add32(low(f, Ask::Mul32(x, inner)), TEN_32));
    let c = n * i + 2560;
    let w = 6 * n * n * n * n * n - 15 * 16 * n * n * n * n + 10 * 256 * n * n * n;
    assert(n3 * c == w && c == 6 * n2 - 240 * n + 2560) by (nonlinear_arith)
        requires
            c == n * (n * 6 - 240) + 2560,
            n2 == n * n,
            n3 == n * n * n,
            w == 6 * n * n * n * n * n - 15 * 16 * n * n * n * n + 10 * 256 * n * n * n,
    ;
    assert(-0x100_0000 < n3 * c < 0x100_0000) by (nonlinear_arith)
        requires
            0 <= n3 <= 4096,
            -0x800 <= c <= 2560,
    ;
    lemma_mul32(f, low(f, Ask::Mul32(low(f, Ask::Mul32(x, x)), x)), sum, n3, c, 12, 8);
}

/// Halfway along an axis, or at its start, the easing changes nothing.
proof fn lemma_eased<F: Fn(Ask) -> u64>(f: F, x: u32, i: int)
    requires
        correct32(f),
        0 <= i <= 1,
        is32(x, 8 * i, 4),
    ensures
        is32(smoothed(f, x), 8 * i, 4),
{
    law_easing_is_the_quintic(f, x, 8 * i);
    lemma2_to64();
    let n = 8 * i;
    assert(6 * n * n * n * n * n - 15 * 16 * n * n * n * n + 10 * 256 * n * n * n == n * 0x1_0000) by {
        if i == 0 {
            assert(n == 0);
            assert(6 * n * n * n * n * n - 15 * 16 * n * n * n * n + 10 * 256 * n * n * n == n * 0x1_0000) by (nonlinear_arith)
                requires
                    n == 0,
            ;
        } else {
            assert(n == 8);
            assert(6 * n * n * n * n * n - 15 * 16 * n * n * n * n + 10 * 256 * n * n * n == n * 0x1_0000) by (nonlinear_arith)
                requires
                    n == 8,
            ;
        }
    }
    lemma_coarser32(smoothed(f, x), n, 4, 16);
}

/// The way from a corner to a point, along one axis.
proof fn lemma_way<F: Fn(Ask) -> u64>(f: F, r: u32, n: int, far: bool)
    requires
        correct32(f),
        is32(r, n, 4),
        -0x100 < n < 0x100,
    ensures
        is32(off_by(f, r, far), n - 16 * one_if(far), 4),
{
    lemma2_to64();
    lemma_bits32(ONE_32, 1, 0, 23);
    lemma_finer32(ONE_32, 1, 0, 4);
    lemma_sub32(f, r, ONE_32, n, 16, 4);
}

/// What the corners of a cell give at a point of it, in sixteenths: each its
/// gradient times the way from it to the point.
pub open spec fn corner_products(n: PerlinNoise, s: Spot, a: int, b: int, c: int) -> Seq<int> {
    Seq::new(
        8,
        |k: int|
            along(
                n.hashed(s.x as int, s.y as int, s.z as int, k),
                a - 16 * one_if(far_x(k)),
                b - 16 * one_if(far_y(k)),
                c - 16 * one_if(far_z(k)),
            ),
    )
}

/// At the corners of cells, and halfway between them, a noise is exactly the
/// blend of what the corners around give, whatever its permutation.
pub proof fn law_noise_on_halves<F: Fn(Ask) -> u64>(
    f: F, n: PerlinNoise, style: Style, s: Spot, i: int, j: int, l: int, b: int,
)
    requires
        correct32(f),
        0 <= i <= 1 && 0 <= j <= 1 && 0 <= l <= 1,
        -16 <= b <= 16,
        is32(s.rx, 8 * i, 4),
        is32(s.ry, b, 4),
        is32(s.rz, 8 * l, 4),
        is32(s.smooth_y, 8 * j, 4),
    ensures
        is32(n.blended(f, style, s), blend_of(8 * i, 8 * j, 8 * l, corner_products(n, s, 8 * i, b, 8 * l)), 16),
{
    let v = Seq::new(8, |k: int| n.corner(f, style, s, k));
    let d = corner_products(n, s, 8 * i, b, 8 * l);
    lemma_eased(f, s.rx, i);
    lemma_eased(f, s.smooth_y, j);
    lemma_eased(f, s.rz, l);
    assert forall|k: int| 0 <= k < 8 implies is32(#[trigger] v[k], d[k], 4) && -0x400 < d[k] < 0x400 by {
        lemma_way(f, s.rx, 8 * i, far_x(k));
        lemma_way(f, s.ry, b, far_y(k));
        lemma_way(f, s.rz, 8 * l, far_z(k));
        law_dot_products_are_exact(
            f, style, n.hashed(s.x as int, s.y as int, s.z as int, k), off_by(f, s.rx, far_x(k)), off_by(f, s.ry, far_y(k)),
            off_by(f, s.rz, far_z(k)), 8 * i - 16 * one_if(far_x(k)), b - 16 * one_if(far_y(k)), 8 * l - 16 * one_if(far_z(k)), 4);
    }
    law_corners_blend_by_nearness(
        f, smoothed(f, s.rx), smoothed(f, s.smooth_y), smoothed(f, s.rz), v, 8 * i, 8 * j, 8 * l, d, 4);
}

/// At the start of every axis a blend is its first corner.
proof fn lemma_at_start(d: Seq<int>)
    requires
        d.len() == 8,
        d[0] == 0,
    ensures
        blend_of(0, 0, 0, d) == 0,
{
    let (a, b) = (share(0, false), share(0, true));
    let (d1, d2, d3, d4, d5, d6, d7) = (d[1], d[2], d[3], d[4], d[5], d[6], d[7]);
    assert(b * a * a == 0 && a * b * a == 0 && b * b * a == 0 && a * a * b == 0 && b * a * b == 0 && a * b * b == 0 && b * b * b == 0)
        by (nonlinear_arith)
        requires
            b == 0,
    ;
    assert(0 * d1 == 0 && 0 * d2 == 0 && 0 * d3 == 0 && 0 * d4 == 0 && 0 * d5 == 0 && 0 * d6 == 0 && 0 * d7 == 0);
    assert(a * a * a * 0 == 0);
}

/// A noise is nothing at the corners of its cells.
pub proof fn law_noise_is_zero_at_corners<F: Fn(Ask) -> u64>(f: F, n: PerlinNoise, style: Style, s: Spot)
    requires
        correct32(f),
        is32(s.rx, 0, 4),
        is32(s.ry, 0, 4),
        is32(s.rz, 0, 4),
        is32(s.smooth_y, 0, 4),
    ensures
        is32(n.blended(f, style, s), 0, 16),
{
    law_noise_on_halves(f, n, style, s, 0, 0, 0, 0);
    let d = corner_products(n, s, 0, 0, 0);
    assert(d[0] == 0);
    lemma_at_start(d);
}

/// A coordinate is brought into range by whole turns of two to the power of
/// 25, and not at all where it is in range already.
pub proof fn law_wrapping_takes_whole_turns<F: Fn(Ask) -> u64>(f: F, x: u64, n: int, k: int) -> (t: int)
    requires
        correct64(f),
        0 <= k <= 20,
        -0x1000_0000_0000 < n < 0x1000_0000_0000,
        is64(x, n, k),
    ensures
        is64(wrapped(f, x), n - t * 0x200_0000 * pow2(k as nat), k),
        -0x100_0000 * pow2(k as nat) <= n - t * 0x200_0000 * pow2(k as nat) <= 0x100_0000 * pow2(k as nat),
        -0xff_ffff * pow2(k as nat) <= n <= 0xff_ffff * pow2(k as nat) ==> t == 0,
{
    lemma2_to64();
    lemma2_to64_rest();
    let e = pow2(k as nat) as int;
    vstd::arithmetic::power2::lemma_pow2_pos(k as nat);
    assert(e <= 0x10_0000) by {
        if k < 20 {
            vstd::arithmetic::power2::lemma_pow2_strictly_increases(k as nat, 20);
        }
    }
    // The ends of the range, in steps of the last digit that they have.
    lemma_bits64(HALF_ROUND_OFF, 0x1f_ffff_ffff_ffff, 29, 0);
    lemma_opposite_bits(f);
    let fine = pow2((29 - k) as nat) as int;
    vstd::arithmetic::power2::lemma_pow2_adds((29 - k) as nat, k as nat);
    vstd::arithmetic::power2::lemma_pow2_pos((29 - k) as nat);
    lemma_finer64(x, n, k, (29 - k) as nat);
    assert(k + (29 - k) == 29);
    lemma_order64(f, MINUS_HALF_ROUND_OFF, x, -0x1f_ffff_ffff_ffff, n * fine, 29);
    lemma_order64(f, x, HALF_ROUND_OFF, n * fine, 0x1f_ffff_ffff_ffff, 29);
    if holds(f, Ask::LessEq64(MINUS_HALF_ROUND_OFF, x)) && holds(f, Ask::Less64(x, HALF_ROUND_OFF)) {
        assert(-0x100_0000 * e <= n <= 0x100_0000 * e) by (nonlinear_arith)
            requires
                -0x1f_ffff_ffff_ffff <= n * fine < 0x1f_ffff_ffff_ffff,
                fine * e == 0x2000_0000,
                fine > 0,
                e > 0,
        ;
        assert(0 * 0x200_0000 * e == 0) by (nonlinear_arith);
        0
    } else {
        if -0xff_ffff * e <= n <= 0xff_ffff * e {
            assert(-0x1f_ffff_ffff_ffff <= n * fine < 0x1f_ffff_ffff_ffff) by (nonlinear_arith)
                requires
                    -0xff_ffff * e <= n <= 0xff_ffff * e,
                    fine * e == 0x2000_0000,
                    fine > 0,
                    e > 0,
            ;
        }
        lemma_turns(f, x, n, k)
    }
}

proof fn lemma_opposite_bits<F: Fn(Ask) -> u64>(f: F)
    ensures
        is64(MINUS_HALF_ROUND_OFF, -0x1f_ffff_ffff_ffff, 29),
{
    lemma2_to64();
    lemma_bits64(HALF_ROUND_OFF, 0x1f_ffff_ffff_ffff, 29, 0);
    let (a, b) = (HALF_ROUND_OFF, MINUS_HALF_ROUND_OFF);
    assert(crate::numbers::exponent64(b) == crate::numbers::exponent64(a) && crate::numbers::fraction64(b)
        == crate::numbers::fraction64(a));
    let p = pow2(1045) as int;
    assert(-(0x1f_ffff_ffff_ffff * p) == (-0x1f_ffff_ffff_ffff) * p) by (nonlinear_arith);
}

proof fn lemma_turns<F: Fn(Ask) -> u64>(f: F, x: u64, n: int, k: int) -> (t: int)
    requires
        correct64(f),
        0 <= k <= 20,
        -0x1000_0000_0000 < n < 0x1000_0000_0000,
        is64(x, n, k),
    ensures
        ({
            let turns = reply(f, Ask::Floor64(reply(f, Ask::Add64(reply(f, Ask::Div64(x, ROUND_OFF)), HALF))));
            is64(reply(f, Ask::Sub64(x, reply(f, Ask::Mul64(turns, ROUND_OFF)))), n - t * 0x200_0000 * pow2(k as nat), k)
        }),
        -0x100_0000 * pow2(k as nat) <= n - t * 0x200_0000 * pow2(k as nat) < 0x100_0000 * pow2(k as nat),
{
    lemma2_to64();
    lemma2_to64_rest();
    let e = pow2(k as nat) as int;
    vstd::arithmetic::power2::lemma_pow2_pos(k as nat);
    if k < 20 {
        vstd::arithmetic::power2::lemma_pow2_strictly_increases(k as nat, 20);
    }
    lemma_bits64(ROUND_OFF, 0x200_0000, 0, 27);
    lemma_bits64(HALF, 1, 1, 52);
    let whole = pow2((k + 25) as nat) as int;
    vstd::arithmetic::power2::lemma_pow2_adds(k as nat, 25);
    vstd::arithmetic::power2::lemma_pow2_adds(k as nat, 24);
    assert(whole == e * 0x200_0000);
    lemma_finer64(x, n, k, 25);
    lemma_div64(f, x, ROUND_OFF, n * 0x200_0000, 0x200_0000, n, k + 25);
    let q = reply(f, Ask::Div64(x, ROUND_OFF));
    lemma_finer64(HALF, 1, 1, (k + 24) as nat);
    let half = pow2((k + 24) as nat) as int;
    assert(half == e * 0x100_0000);
    lemma_add64(f, q, HALF, n, half, k + 25);
    let sum = reply(f, Ask::Add64(q, HALF));
    lemma_floor64(f, sum, n + half, k + 25);
    let t = (n + half) / whole;
    vstd::arithmetic::div_mod::lemma_fundamental_div_mod(n + half, whole);
    assert(-0x1000_0000_0001 < t < 0x1000_0000_0001) by (nonlinear_arith)
        requires
            n + half == whole * t + (n + half) % whole,
            0 <= (n + half) % whole < whole,
            -0x1000_0000_0000 < n < 0x1000_0000_0000,
            half * 2 == whole,
            half >= 0x100_0000,
    ;
    let turns = reply(f, Ask::Floor64(sum));
    assert(-0x20_0000_0000_0000 < t * 0x200_0000 < 0x20_0000_0000_0000) by {
        assert(-0x1000_0000_0000 - whole < whole * t < 0x1000_0000_0000 + whole);
        assert(-0x20_0000_0000_0000 < t * 0x200_0000 < 0x20_0000_0000_0000) by (nonlinear_arith)
            requires
                -0x1000_0000_0000 - whole < whole * t < 0x1000_0000_0000 + whole,
                whole == e * 0x200_0000,
                1 <= e <= 0x10_0000,
        ;
    }
    lemma_mul64(f, turns, ROUND_OFF, t, 0x200_0000, 0, 0);
    let back = reply(f, Ask::Mul64(turns, ROUND_OFF));
    lemma_finer64(back, t * 0x200_0000, 0, k as nat);
    assert(whole * t == t * 0x200_0000 * e) by (nonlinear_arith)
        requires
            whole == e * 0x200_0000,
    ;
    lemma_sub64(f, x, back, n, t * 0x200_0000 * e, k);
    t
}

/// A point lies in the cell below it, by what is left of its coordinate.
pub proof fn law_points_lie_in_their_cells<F: Fn(Ask) -> u64>(f: F, v: u64, offset: u64, n: int, m: int, k: int)
    requires
        correct64(f),
        0 <= k <= 20,
        is64(v, n, k),
        is64(offset, m, k),
        -0xff_ffff * pow2(k as nat) <= n <= 0xff_ffff * pow2(k as nat),
        -0xff_ffff * pow2(k as nat) <= m <= 0xff_ffff * pow2(k as nat),
    ensures
        located(f, v, offset).0 == (n + m) / (pow2(k as nat) as int),
        is64(located(f, v, offset).1, (n + m) % (pow2(k as nat) as int), k),
{
    lemma2_to64();
    lemma2_to64_rest();
    let e = pow2(k as nat) as int;
    vstd::arithmetic::power2::lemma_pow2_pos(k as nat);
    if k < 20 {
        vstd::arithmetic::power2::lemma_pow2_strictly_increases(k as nat, 20);
    }
    assert(-0x1000_0000_0000 < n < 0x1000_0000_0000 && -0x1000_0000_0000 < m < 0x1000_0000_0000) by (nonlinear_arith)
        requires
            -0xff_ffff * e <= n <= 0xff_ffff * e,
            -0xff_ffff * e <= m <= 0xff_ffff * e,
            1 <= e <= 0x10_0000,
    ;
    let t = law_wrapping_takes_whole_turns(f, v, n, k);
    assert(0 * 0x200_0000 * e == 0) by (nonlinear_arith);
    let w = wrapped(f, v);
    lemma_add64(f, w, offset, n, m, k);
    let at = reply(f, Ask::Add64(w, offset));
    lemma_floor64(f, at, n + m, k);
    let cell = (n + m) / e;
    vstd::arithmetic::div_mod::lemma_fundamental_div_mod(n + m, e);
    assert(-0x200_0000 <= cell <= 0x200_0000) by (nonlinear_arith)
        requires
            n + m == e * cell + (n + m) % e,
            0 <= (n + m) % e < e,
            -0x1ff_fffe * e <= n + m <= 0x1ff_fffe * e,
            e > 0,
    ;
    let down = reply(f, Ask::Floor64(at));
    lemma_to_int64(f, down, cell);
    lemma_int64(f, cell as i32);
    let back = reply(f, Ask::FromInt64(cell as i32));
    lemma_finer64(back, cell, 0, k as nat);
    assert(n + m - cell * e == (n + m) % e) by (nonlinear_arith)
        requires
            n + m == e * cell + (n + m) % e,
    ;
    assert(e <= 0x10_0000);
    lemma_sub64(f, at, back, n + m, cell * e, k);
}

/// A noise whose offsets are counted in halves.
pub open spec fn offset_by_halves(n: PerlinNoise, o: (int, int, int)) -> bool {
    &&& is64(n.offset_x, o.0, 1) && is64(n.offset_y, o.1, 1) && is64(n.offset_z, o.2, 1)
    &&& -0x100_0000 < o.0 < 0x100_0000 && -0x100_0000 < o.1 < 0x100_0000 && -0x100_0000 < o.2 < 0x100_0000
}

/// The value of such a noise at a point counted in halves, in parts of
/// 65536: the blend of what the corners of the point's cell give.
pub open spec fn value_on_halves(n: PerlinNoise, o: (int, int, int), a: int, b: int, c: int) -> int {
    let (x, y, z) = (a + o.0, b + o.1, c + o.2);
    let spot = Spot { x: (x / 2) as i32, y: (y / 2) as i32, z: (z / 2) as i32, rx: 0, ry: 0, rz: 0, smooth_y: 0 };
    let (i, j, l) = (8 * (x % 2), 8 * (y % 2), 8 * (z % 2));
    blend_of(i, j, l, corner_products(n, spot, i, j, l))
}

proof fn lemma_half_coordinate<F: Fn(Ask) -> u64>(f: F, v: u64, offset: u64, a: int, o: int)
    requires
        correct(f),
        is64(v, a, 1),
        is64(offset, o, 1),
        -0x100_0000 < a < 0x100_0000,
        -0x100_0000 < o < 0x100_0000,
    ensures
        located(f, v, offset).0 == (a + o) / 2,
        is32(low(f, Ask::Narrow(located(f, v, offset).1)), 8 * ((a + o) % 2), 4),
{
    lemma2_to64();
    law_points_lie_in_their_cells(f, v, offset, a, o, 1);
    let rest = located(f, v, offset).1;
    lemma_narrow(f, rest, (a + o) % 2, 1);
    lemma_finer32(low(f, Ask::Narrow(rest)), (a + o) % 2, 1, 3);
}

/// A noise at a point: at every point counted in halves it is exactly that
/// blend.
pub proof fn law_noise_at_points<F: Fn(Ask) -> u64>(
    f: F, n: PerlinNoise, style: Style, o: (int, int, int), x: u64, y: u64, z: u64, a: int, b: int, c: int,
)
    requires
        correct(f),
        offset_by_halves(n, o),
        is64(x, a, 1),
        is64(y, b, 1),
        is64(z, c, 1),
        -0x100_0000 < a < 0x100_0000 && -0x100_0000 < b < 0x100_0000 && -0x100_0000 < c < 0x100_0000,
    ensures
        is32(n.at(f, style, None, x, y, z), value_on_halves(n, o, a, b, c), 16),
{
    lemma_half_coordinate(f, x, n.offset_x, a, o.0);
    lemma_half_coordinate(f, y, n.offset_y, b, o.1);
    lemma_half_coordinate(f, z, n.offset_z, c, o.2);
    let s = n.spot(f, None, x, y, z);
    let (i, j, l) = ((a + o.0) % 2, (b + o.1) % 2, (c + o.2) % 2);
    law_noise_on_halves(f, n, style, s, i, j, l, 8 * j);
    let spot = Spot {
        x: ((a + o.0) / 2) as i32,
        y: ((b + o.1) / 2) as i32,
        z: ((c + o.2) / 2) as i32,
        rx: 0,
        ry: 0,
        rz: 0,
        smooth_y: 0,
    };
    assert(corner_products(n, s, 8 * i, 8 * j, 8 * l) =~= corner_products(n, spot, 8 * i, 8 * j, 8 * l));
}

/// Layers that run a whole number of times as fast and count a whole number
/// of times.
pub open spec fn whole_layers(layers: Seq<Layer>, offsets: Seq<(int, int, int)>, speeds: Seq<int>, weights: Seq<int>) -> bool {
    &&& offsets.len() == layers.len() && speeds.len() == layers.len() && weights.len() == layers.len()
    &&& forall|i: int| #![trigger layers[i]]
        0 <= i < layers.len() ==> {
            &&& layers[i].noise matches LayerNoise::Perlin(n) && offset_by_halves(n, offsets[i])
            &&& is64(layers[i].frequency, speeds[i], 0) && 0 <= speeds[i] < 0x100
            &&& is32(layers[i].amplitude, weights[i], 0) && -0x100_0000 < weights[i] < 0x100_0000
        }
}

/// The sum of the first `n` layers at a point counted in halves.
pub open spec fn layers_on_halves(
    layers: Seq<Layer>, offsets: Seq<(int, int, int)>, speeds: Seq<int>, weights: Seq<int>, a: int, b: int, c: int, n: nat,
) -> int
    decreases n,
{
    if n == 0 {
        0
    } else {
        let s = speeds[n - 1];
        layers_on_halves(layers, offsets, speeds, weights, a, b, c, (n - 1) as nat) + weights[n - 1] * value_on_halves(
            layers[n - 1].noise.octave(), offsets[n - 1], a * s, b * s, c * s)
    }
}

/// The sums stay within what singles hold exactly.
pub open spec fn sums_fit(
    layers: Seq<Layer>, offsets: Seq<(int, int, int)>, speeds: Seq<int>, weights: Seq<int>, a: int, b: int, c: int,
) -> bool {
    forall|n: nat| #![trigger layers_on_halves(layers, offsets, speeds, weights, a, b, c, n)]
        n <= layers.len() ==> {
            &&& -0x100_0000 < layers_on_halves(layers, offsets, speeds, weights, a, b, c, n) < 0x100_0000
            &&& n > 0 ==> -0x100_0000 < weights[n - 1] * value_on_halves(
                layers[n - 1].noise.octave(), offsets[n - 1], a * speeds[n - 1], b * speeds[n - 1], c * speeds[n - 1]) < 0x100_0000
        }
}

proof fn lemma_sped<F: Fn(Ask) -> u64>(f: F, x: u64, v: u64, a: int, s: int)
    requires
        correct64(f),
        is64(x, a, 1),
        is64(v, s, 0),
        -0x1_0000 < a < 0x1_0000,
        0 <= s < 0x100,
    ensures
        is64(reply(f, Ask::Mul64(x, v)), a * s, 1),
        -0x100_0000 < a * s < 0x100_0000,
{
    assert(-0x100_0000 < a * s < 0x100_0000) by (nonlinear_arith)
        requires
            -0x1_0000 < a < 0x1_0000,
            0 <= s < 0x100,
    ;
    lemma_mul64(f, x, v, a, s, 1, 0);
}

/// A stack at a point is the sum of its layers: each noise where the point
/// comes to at the layer's speed, as often as the layer counts.
pub proof fn law_stacks_sum_their_layers<F: Fn(Ask) -> u64>(
    f: F, layers: Seq<Layer>, offsets: Seq<(int, int, int)>, speeds: Seq<int>, weights: Seq<int>, x: u64, y: u64, z: u64, a: int,
    b: int, c: int, n: nat,
)
    requires
        correct(f),
        whole_layers(layers, offsets, speeds, weights),
        sums_fit(layers, offsets, speeds, weights, a, b, c),
        is64(x, a, 1) && is64(y, b, 1) && is64(z, c, 1),
        -0x1_0000 < a < 0x1_0000 && -0x1_0000 < b < 0x1_0000 && -0x1_0000 < c < 0x1_0000,
        n <= layers.len(),
    ensures
        is32(summed(f, layers, x, y, z, n), layers_on_halves(layers, offsets, speeds, weights, a, b, c, n), 16),
    decreases n,
{
    lemma_zero32(16);
    if n > 0 {
        law_stacks_sum_their_layers(f, layers, offsets, speeds, weights, x, y, z, a, b, c, (n - 1) as nat);
        let l = layers[n - 1];
        let (s, w) = (speeds[n - 1], weights[n - 1]);
        lemma_sped(f, x, l.frequency, a, s);
        lemma_sped(f, y, l.frequency, b, s);
        lemma_sped(f, z, l.frequency, c, s);
        let (px, py, pz) = (
            reply(f, Ask::Mul64(x, l.frequency)), reply(f, Ask::Mul64(y, l.frequency)), reply(f, Ask::Mul64(z, l.frequency)));
        law_noise_at_points(f, l.noise.octave(), Style::Point, offsets[n - 1], px, py, pz, a * s, b * s, c * s);
        let v = l.noise.octave().at(f, Style::Point, None, px, py, pz);
        let m = value_on_halves(l.noise.octave(), offsets[n - 1], a * s, b * s, c * s);
        let before = layers_on_halves(layers, offsets, speeds, weights, a, b, c, (n - 1) as nat);
        let whole = layers_on_halves(layers, offsets, speeds, weights, a, b, c, n);
        assert(-0x100_0000 < whole < 0x100_0000 && -0x100_0000 < w * m < 0x100_0000);
        lemma_mul32(f, l.amplitude, v, w, m, 0, 16);
        lemma_add32(f, summed(f, layers, x, y, z, (n - 1) as nat), low(f, Ask::Mul32(l.amplitude, v)), before, w * m, 16);
    }
}

/// The same of a stack over blocks, on top of what was there: the point is
/// the block times the scales, and everything counts by the amplitude.
pub proof fn law_piles_sum_their_layers<F: Fn(Ask) -> u64>(
    f: F, layers: Seq<Layer>, offsets: Seq<(int, int, int)>, speeds: Seq<int>, weights: Seq<int>, block: (i32, i32, i32), xz_scale: u64,
    y_scale: u64, sxz: int, sy: int, amplitude: u32, strength: int, start: u32, ground: int, n: nat,
)
    requires
        correct(f),
        whole_layers(layers, offsets, speeds, weights),
        is64(xz_scale, sxz, 1) && is64(y_scale, sy, 1),
        is32(amplitude, strength, 0),
        is32(start, ground, 16),
        -0x100_0000 < strength < 0x100_0000,
        -0x100_0000 < sxz < 0x100_0000 && -0x100_0000 < sy < 0x100_0000,
        -0x1_0000 < block.0 * sxz < 0x1_0000 && -0x1_0000 < block.1 * sy < 0x1_0000 && -0x1_0000 < block.2 * sxz < 0x1_0000,
        forall|k: int| #![trigger weights[k]] 0 <= k < layers.len() ==> -0x100_0000 < strength * weights[k] < 0x100_0000,
        ({
            let scaled = Seq::new(weights.len(), |k: int| strength * weights[k]);
            sums_fit(layers, offsets, speeds, scaled, block.0 * sxz, block.1 * sy, block.2 * sxz) && forall|k: nat| k <= layers.len()
                ==> -0x100_0000 < ground + #[trigger] layers_on_halves(
                layers, offsets, speeds, scaled, block.0 * sxz, block.1 * sy, block.2 * sxz, k) < 0x100_0000
        }),
        n <= layers.len(),
    ensures
        is32(
            piled(f, layers, block, xz_scale, y_scale, amplitude, start, n),
            ground + layers_on_halves(
                layers, offsets, speeds, Seq::new(weights.len(), |k: int| strength * weights[k]), block.0 * sxz, block.1 * sy,
                block.2 * sxz, n),
            16,
        ),
    decreases n,
{
    if n > 0 {
        law_piles_sum_their_layers(
            f, layers, offsets, speeds, weights, block, xz_scale, y_scale, sxz, sy, amplitude, strength, start, ground,
            (n - 1) as nat);
        let scaled = Seq::new(weights.len(), |k: int| strength * weights[k]);
        let l = layers[n - 1];
        let (s, w) = (speeds[n - 1], weights[n - 1]);
        let (a, b, c) = (block.0 * sxz, block.1 * sy, block.2 * sxz);
        let (fxz, fy) = (reply(f, Ask::Mul64(xz_scale, l.frequency)), reply(f, Ask::Mul64(y_scale, l.frequency)));
        lemma_scaled_block(f, block.0, xz_scale, l.frequency, sxz, s);
        lemma_scaled_block(f, block.1, y_scale, l.frequency, sy, s);
        lemma_scaled_block(f, block.2, xz_scale, l.frequency, sxz, s);
        let (px, py, pz) = (
            reply(f, Ask::Mul64(reply(f, Ask::FromInt64(block.0)), fxz)), reply(f, Ask::Mul64(reply(f, Ask::FromInt64(block.1)), fy)),
            reply(f, Ask::Mul64(reply(f, Ask::FromInt64(block.2)), fxz)));
        law_noise_at_points(f, l.noise.octave(), Style::Volume, offsets[n - 1], px, py, pz, a * s, b * s, c * s);
        let v = l.noise.octave().at(f, Style::Volume, None, px, py, pz);
        let m = value_on_halves(l.noise.octave(), offsets[n - 1], a * s, b * s, c * s);
        assert(scaled[n - 1] == strength * w);
        assert(-0x100_0000 < strength * w < 0x100_0000) by {
            assert(weights[n - 1] == w);
        }
        lemma_mul32(f, amplitude, l.amplitude, strength, w, 0, 0);
        let before = layers_on_halves(layers, offsets, speeds, scaled, a, b, c, (n - 1) as nat);
        let whole = layers_on_halves(layers, offsets, speeds, scaled, a, b, c, n);
        assert(-0x100_0000 < ground + whole < 0x100_0000 && -0x100_0000 < (strength * w) * m < 0x100_0000);
        lemma_mul32(f, low(f, Ask::Mul32(amplitude, l.amplitude)), v, strength * w, m, 0, 16);
        lemma_add32(
            f, piled(f, layers, block, xz_scale, y_scale, amplitude, start, (n - 1) as nat),
            low(f, Ask::Mul32(low(f, Ask::Mul32(amplitude, l.amplitude)), v)), ground + before, (strength * w) * m, 16);
    }
}

proof fn lemma_scaled_block<F: Fn(Ask) -> u64>(f: F, b: i32, scale: u64, frequency: u64, s: int, v: int)
    requires
        correct64(f),
        is64(scale, s, 1),
        is64(frequency, v, 0),
        0 <= v < 0x100,
        -0x100_0000 < s < 0x100_0000,
        -0x1_0000 < b * s < 0x1_0000,
    ensures
        is64(reply(f, Ask::Mul64(reply(f, Ask::FromInt64(b)), reply(f, Ask::Mul64(scale, frequency)))), (b * s) * v, 1),
        -0x100_0000 < (b * s) * v < 0x100_0000,
{
    assert(-0x20_0000_0000_0000 < s * v < 0x20_0000_0000_0000) by (nonlinear_arith)
        requires
            -0x100_0000 < s < 0x100_0000,
            0 <= v < 0x100,
    ;
    assert(b * (s * v) == (b * s) * v && -0x100_0000 < (b * s) * v < 0x100_0000) by (nonlinear_arith)
        requires
            -0x1_0000 < b * s < 0x1_0000,
            0 <= v < 0x100,
    ;
    lemma_mul64(f, scale, frequency, s, v, 1, 0);
    lemma_int64(f, b);
    lemma_mul64(f, reply(f, Ask::FromInt64(b)), reply(f, Ask::Mul64(scale, frequency)), b as int, s * v, 0, 1);
}

} // verus!
