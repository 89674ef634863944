//! What structures add to the ground: which way, and where.

use vstd::prelude::*;
use vstd::arithmetic::power2::{lemma2_to64, lemma2_to64_rest, pow2};
use crate::arith::{low, reply, Ask, HALF, HALF_32, ONE_32};
use crate::beard26::{
    bearded, buried, halved, in_kernel, inverse_root, kernel_entry, outside, three_squares, Beardifier, Junction, Rigid,
    EIGHT_TENTHS_32, FOUR_TENTHS_32, SIXTEEN, SIX_32, THIRTY_SIX_32,
};
use crate::df26::{wrapped, TWO_32};
use crate::numbers::{
    correct, correct32, finer, finite32, finite64, is32, is64, lemma_add32, lemma_add64, lemma_between32, lemma_bits32,
    lemma_bits64, lemma_finer32, lemma_finer64, lemma_int32, lemma_int64, lemma_known32, lemma_known64, lemma_mul32,
    lemma_mul64, lemma_nearest32, lemma_neg32, lemma_neg64, lemma_order32, lemma_shrink32, lemma_shrink64, lemma_single,
    lemma_some32, lemma_sub32, lemma_widen, lemma_zero32, nearest32, one32, one64, worth32, worth64,
};

verus! {

/// A single between two powers of two, above zero or below it.
pub open spec fn between32(b: u32, above: bool, i: nat, j: nat) -> bool {
    &&& i <= 149 && j <= 80
    &&& finite32(b)
    &&& if above {
        pow2((149 - i) as nat) <= worth32(b) <= pow2((149 + j) as nat)
    } else {
        pow2((149 - i) as nat) <= -worth32(b) <= pow2((149 + j) as nat)
    }
}

/// Such a double, above zero.
pub open spec fn between64(b: u64, i: nat, j: nat) -> bool {
    i <= 149 && j <= 80 && finite64(b) && pow2((1074 - i) as nat) <= worth64(b) <= pow2((1074 + j) as nat)
}

/// Exponentials of numbers down to minus twenty-seven are between a part of
/// two to the power of forty and one.
pub open spec fn exponentials_fade<F: Fn(Ask) -> u64>(f: F) -> bool {
    forall|x: u64|
        finite64(x) && -27 * one64() <= worth64(x) <= 0 ==> between64(#[trigger] reply(f, Ask::Exp64(x)), 40, 0)
}

/// Estimates of one over the square root of numbers from an eighth to 4096
/// lie between a part of 128 and four.
pub open spec fn roots_are_estimated<F: Fn(Ask) -> u64>(f: F) -> bool {
    forall|x: u64|
        finite64(x) && one64() <= 8 * worth64(x) && worth64(x) <= 4096 * one64() ==> between64(#[trigger] inverse_root(f, x), 7, 2)
}

/// A product of a single with one above zero keeps its side.
proof fn lemma_keeps_side<F: Fn(Ask) -> u64>(f: F, a: u32, b: u32, above: bool, i: nat, j: nat, k: nat, l: nat)
    requires
        correct32(f),
        between32(a, above, i, j),
        between32(b, true, k, l),
        i + k <= 149,
        j + l <= 80,
    ensures
        between32(low(f, Ask::Mul32(a, b)), above, i + k, j + l),
{
    reveal(correct32);
    let u = one32();
    let (p, q, r, s) = (
        pow2((149 - i) as nat) as int, pow2((149 + j) as nat) as int, pow2((149 - k) as nat) as int, pow2((149 + l) as nat) as int);
    let (m, n) = (pow2((149 - i - k) as nat) as int, pow2((149 + j + l) as nat) as int);
    vstd::arithmetic::power2::lemma_pow2_adds((149 - i) as nat, (149 - k) as nat);
    vstd::arithmetic::power2::lemma_pow2_adds((149 - i - k) as nat, 149);
    vstd::arithmetic::power2::lemma_pow2_adds((149 + j) as nat, (149 + l) as nat);
    vstd::arithmetic::power2::lemma_pow2_adds((149 + j + l) as nat, 149);
    vstd::arithmetic::power2::lemma_pow2_pos((149 - i) as nat);
    vstd::arithmetic::power2::lemma_pow2_pos((149 - k) as nat);
    let (x, y) = (if above { worth32(a) } else { -worth32(a) }, worth32(b));
    assert(p * r <= x * y <= q * s) by (nonlinear_arith)
        requires
            0 < p <= x <= q,
            0 < r <= y <= s,
    ;
    assert(-(x * y) == (-x) * y) by (nonlinear_arith);
    assert((1 * m) * u == m * u && (1 * n) * u == n * u && (-1 * m) * u == -(m * u) && (-1 * n) * u == -(n * u)) by (nonlinear_arith);
    let e = low(f, Ask::Mul32(a, b));
    if above {
        let (lo, hi) = (lemma_single(1, (149 - i - k) as nat), lemma_single(1, (149 + j + l) as nat));
        lemma_between32(e, worth32(a) * worth32(b), u, lo, hi);
    } else {
        let (lo, hi) = (lemma_single(-1, (149 + j + l) as nat), lemma_single(-1, (149 - i - k) as nat));
        lemma_between32(e, worth32(a) * worth32(b), u, lo, hi);
    }
}

/// A half of such a single.
proof fn lemma_half<F: Fn(Ask) -> u64>(f: F, a: u32, above: bool, i: nat, j: nat)
    requires
        correct32(f),
        between32(a, above, i, j),
        i + 1 <= 149,
        1 <= j,
    ensures
        between32(low(f, Ask::Div32(a, TWO_32)), above, i + 1, j),
{
    reveal(correct32);
    lemma_known32();
    let u = one32();
    let (p, q) = (pow2((149 - i) as nat) as int, pow2((149 + j) as nat) as int);
    let m = pow2((148 - i) as nat) as int;
    vstd::arithmetic::power2::lemma_pow2_unfold((149 - i) as nat);
    vstd::arithmetic::power2::lemma_pow2_pos(149);
    vstd::arithmetic::power2::lemma_pow2_pos((149 + j) as nat);
    vstd::arithmetic::power2::lemma_pow2_pos((148 - i) as nat);
    let x = if above { worth32(a) } else { -worth32(a) };
    assert((1 * m) * (2 * u) <= x * u <= (1 * q) * (2 * u)) by (nonlinear_arith)
        requires
            p == 2 * m,
            p <= x <= q,
            u > 0,
            q > 0,
    ;
    assert((-1 * m) * (2 * u) == -((1 * m) * (2 * u)) && (-1 * q) * (2 * u) == -((1 * q) * (2 * u)) && (-x) * u == -(x * u))
        by (nonlinear_arith);
    let e = low(f, Ask::Div32(a, TWO_32));
    if above {
        let (lo, hi) = (lemma_single(1, (148 - i) as nat), lemma_single(1, (149 + j) as nat));
        lemma_between32(e, worth32(a) * u, 2 * u, lo, hi);
    } else {
        let (lo, hi) = (lemma_single(-1, (149 + j) as nat), lemma_single(-1, (148 - i) as nat));
        lemma_between32(e, worth32(a) * u, 2 * u, lo, hi);
    }
}

/// Such a double as a single.
proof fn lemma_narrowed<F: Fn(Ask) -> u64>(f: F, a: u64, i: nat, j: nat)
    requires
        correct32(f),
        between64(a, i, j),
    ensures
        between32(low(f, Ask::Narrow(a)), true, i, j),
{
    reveal(correct32);
    vstd::arithmetic::power2::lemma_pow2_adds((149 - i) as nat, 925);
    vstd::arithmetic::power2::lemma_pow2_adds((149 + j) as nat, 925);
    let (lo, hi) = (lemma_single(1, (149 - i) as nat), lemma_single(1, (149 + j) as nat));
    lemma_between32(low(f, Ask::Narrow(a)), worth64(a), finer(), lo, hi);
}

/// The kernel is above zero.
pub proof fn law_kernel_is_positive<F: Fn(Ask) -> u64>(f: F, dx: int, dy: int, dz: int)
    requires
        correct(f),
        exponentials_fade(f),
        in_kernel(dx) && in_kernel(dy) && in_kernel(dz),
    ensures
        between32(kernel_entry(f, dx, dy, dz), true, 40, 0),
{
    lemma2_to64();
    lemma2_to64_rest();
    lemma_known64();
    lemma_int64(f, dx as i32);
    lemma_int64(f, dz as i32);
    lemma_int64(f, dy as i32);
    let (x, z, y0) = (
        reply(f, Ask::FromInt64(dx as i32)), reply(f, Ask::FromInt64(dz as i32)), reply(f, Ask::FromInt64(dy as i32)));
    lemma_finer64(y0, dy, 0, 1);
    lemma_add64(f, y0, HALF, dy * 2, 1, 1);
    let y = reply(f, Ask::Add64(y0, HALF));
    assert(0 <= dx * dx <= 144 && 0 <= dz * dz <= 144 && 0 <= (dy * 2 + 1) * (dy * 2 + 1) <= 529) by (nonlinear_arith)
        requires
            -12 <= dx < 12,
            -12 <= dy < 12,
            -12 <= dz < 12,
    ;
    lemma_mul64(f, x, x, dx, dx, 0, 0);
    lemma_mul64(f, z, z, dz, dz, 0, 0);
    lemma_mul64(f, y, y, dy * 2 + 1, dy * 2 + 1, 1, 1);
    let (xx, yy, zz) = (reply(f, Ask::Mul64(x, x)), reply(f, Ask::Mul64(y, y)), reply(f, Ask::Mul64(z, z)));
    lemma_finer64(xx, dx * dx, 0, 2);
    lemma_finer64(zz, dz * dz, 0, 2);
    let m = (dy * 2 + 1) * (dy * 2 + 1);
    lemma_add64(f, xx, yy, dx * dx * 4, m, 2);
    lemma_add64(f, reply(f, Ask::Add64(xx, yy)), zz, dx * dx * 4 + m, dz * dz * 4, 2);
    let d = reply(f, Ask::Add64(reply(f, Ask::Add64(xx, yy)), zz));
    let n = dx * dx * 4 + m + dz * dz * 4;
    lemma_neg64(f, d, n, 2);
    let neg = reply(f, Ask::Neg64(d));
    lemma_bits64(SIXTEEN, 16, 0, 48);
    lemma_shrink64(f, neg, SIXTEEN, -n, 2, 4);
    let q = reply(f, Ask::Div64(neg, SIXTEEN));
    vstd::arithmetic::power2::lemma_pow2_adds(6, 1068);
    let p = pow2(1068) as int;
    vstd::arithmetic::power2::lemma_pow2_pos(1068);
    assert(-27 * (64 * p) <= (-n) * p <= 0) by (nonlinear_arith)
        requires
            0 <= n <= 1728,
            p > 0,
    ;
    let e = reply(f, Ask::Exp64(q));
    assert(between64(e, 40, 0));
    lemma_narrowed(f, e, 40, 0);
}

proof fn lemma_moderate(b: u32, n: int, k: nat, j: nat, above: bool)
    requires
        is32(b, n, k as int),
        j <= 80,
        1 <= (if above { n } else { -n }) <= pow2((k + j) as nat),
    ensures
        between32(b, above, k, j),
{
    let m = if above { n } else { -n };
    let p = pow2((149 - k) as nat) as int;
    vstd::arithmetic::power2::lemma_pow2_adds((149 - k) as nat, (k + j) as nat);
    vstd::arithmetic::power2::lemma_pow2_pos((149 - k) as nat);
    let t = pow2((k + j) as nat) as int;
    assert(p <= m * p <= p * t) by (nonlinear_arith)
        requires
            1 <= m <= t,
            p > 0,
    ;
    assert(-(n * p) == (-n) * p) by (nonlinear_arith);
}

/// A beard raises the ground below its own and takes away above it, inside
/// of its kernel; outside it does nothing.
pub proof fn law_beards_raise_the_ground<F: Fn(Ask) -> u64>(f: F, dx: int, dy: int, dz: int, over: int)
    requires
        correct(f),
        exponentials_fade(f),
        roots_are_estimated(f),
        -64 <= over < 64,
    ensures
        in_kernel(dx) && in_kernel(dy) && in_kernel(dz) ==> between32(bearded(f, dx, dy, dz, over), over < 0, 49, 9),
        !(in_kernel(dx) && in_kernel(dy) && in_kernel(dz)) ==> bearded(f, dx, dy, dz, over) == 0,
{
    if in_kernel(dx) && in_kernel(dy) && in_kernel(dz) {
        lemma2_to64();
        lemma_known32();
        lemma_int32(f, dx as i32);
        lemma_int32(f, dz as i32);
        lemma_int32(f, wrapped(over));
        let (x, z, h) = (
            low(f, Ask::FromInt32(dx as i32)), low(f, Ask::FromInt32(dz as i32)), low(f, Ask::FromInt32(wrapped(over))));
        lemma_finer32(h, over, 0, 1);
        lemma_add32(f, h, HALF_32, over * 2, 1, 1);
        let y = low(f, Ask::Add32(h, HALF_32));
        let o = over * 2 + 1;
        assert(0 <= dx * dx <= 144 && 0 <= dz * dz <= 144 && 1 <= o * o <= 0x4001) by (nonlinear_arith)
            requires
                -12 <= dx < 12,
                -12 <= dz < 12,
                -127 <= o <= 127,
                o != 0,
        ;
        lemma_mul32(f, x, x, dx, dx, 0, 0);
        lemma_mul32(f, z, z, dz, dz, 0, 0);
        lemma_mul32(f, y, y, o, o, 1, 1);
        let (xx, yy, zz) = (low(f, Ask::Mul32(x, x)), low(f, Ask::Mul32(y, y)), low(f, Ask::Mul32(z, z)));
        lemma_finer32(xx, dx * dx, 0, 2);
        lemma_finer32(zz, dz * dz, 0, 2);
        lemma_add32(f, xx, yy, dx * dx * 4, o * o, 2);
        lemma_add32(f, low(f, Ask::Add32(xx, yy)), zz, dx * dx * 4 + o * o, dz * dz * 4, 2);
        let d = three_squares(f, x, y, z);
        let n = dx * dx * 4 + o * o + dz * dz * 4;
        lemma_shrink32(f, d, TWO_32, n, 2, 1);
        let c = low(f, Ask::Div32(d, TWO_32));
        lemma_widen(f, c, n, 3);
        let half = reply(f, Ask::Widen(c));
        vstd::arithmetic::power2::lemma_pow2_adds(3, 1071);
        let p = pow2(1071) as int;
        vstd::arithmetic::power2::lemma_pow2_pos(1071);
        assert(8 * p <= 8 * (n * p) && n * p <= 4096 * (8 * p)) by (nonlinear_arith)
            requires
                1 <= n <= 0x8000,
                p > 0,
        ;
        assert(between64(inverse_root(f, half), 7, 2));
        lemma_narrowed(f, inverse_root(f, half), 7, 2);
        let root = low(f, Ask::Narrow(inverse_root(f, half)));
        lemma_neg32(f, y, o, 1);
        let minus = low(f, Ask::Neg32(y));
        lemma_moderate(minus, -o, 1, 7, over < 0);
        lemma_keeps_side(f, minus, root, over < 0, 1, 7, 7, 2);
        let m = low(f, Ask::Mul32(minus, root));
        lemma_half(f, m, over < 0, 8, 9);
        let v = low(f, Ask::Div32(m, TWO_32));
        law_kernel_is_positive(f, dx, dy, dz);
        lemma_keeps_side(f, v, kernel_entry(f, dx, dy, dz), over < 0, 9, 9, 40, 0);
    }
}

/// The strengths of beards: eight tenths for pieces, four for junctions.
pub proof fn law_strengths_of_beards()
    ensures
        nearest32(EIGHT_TENTHS_32, 8, 10),
        nearest32(FOUR_TENTHS_32, 4, 10),
        between32(EIGHT_TENTHS_32, true, 1, 0),
        between32(FOUR_TENTHS_32, true, 2, 0),
{
    lemma2_to64();
    lemma_nearest32(EIGHT_TENTHS_32, 8, 10, 24);
    lemma_nearest32(FOUR_TENTHS_32, 4, 10, 25);
    lemma_bits32(EIGHT_TENTHS_32, 0xCC_CCCD, 24, 0);
    lemma_bits32(FOUR_TENTHS_32, 0xCC_CCCD, 25, 0);
    vstd::arithmetic::power2::lemma_pow2_adds(125, 23);
    vstd::arithmetic::power2::lemma_pow2_adds(125, 24);
    vstd::arithmetic::power2::lemma_pow2_adds(124, 23);
    vstd::arithmetic::power2::lemma_pow2_adds(124, 25);
    vstd::arithmetic::power2::lemma_pow2_pos(124);
    vstd::arithmetic::power2::lemma_pow2_pos(125);
}

/// A thin piece raises the ground below its own around its footprint and
/// takes away above it. A box does so too, but reaches up to its top. So
/// does a junction around itself. None does anything beyond twelve blocks.
pub proof fn law_pieces_raise_the_ground<F: Fn(Ask) -> u64>(f: F, r: Rigid, j: Junction, x: int, y: int, z: int)
    requires
        correct(f),
        exponentials_fade(f),
        roots_are_estimated(f),
    ensures
        ({
            let (dx, dz) = (
                outside(x, r.min@[0] as int, r.max@[0] as int), outside(z, r.min@[2] as int, r.max@[2] as int));
            let over = y - (r.min@[1] + r.ground_delta);
            let up = outside(y, r.min@[1] + r.ground_delta, r.max@[1] as int);
            &&& r.adjustment is BeardThin && dx < 12 && dz < 12 && -12 <= over < 12 ==> between32(r.added(f, x, y, z), over < 0, 50, 9)
            &&& r.adjustment is BeardThin && !(dx < 12 && dz < 12 && -12 <= over < 12) ==> worth32(r.added(f, x, y, z)) == 0
            &&& r.adjustment is BeardBox && dx < 12 && dz < 12 && up < 12 && -64 <= over < 64 ==> between32(
                r.added(f, x, y, z), over < 0, 50, 9)
            &&& r.adjustment is BeardBox && !(dx < 12 && dz < 12 && up < 12) ==> worth32(r.added(f, x, y, z)) == 0
            &&& r.adjustment is Nothing ==> r.added(f, x, y, z) == 0
        }),
        ({
            let (dx, dy, dz) = (x - j.x, y - j.ground_y, z - j.z);
            if -12 <= dx < 12 && -12 <= dy < 12 && -12 <= dz < 12 {
                between32(j.added(f, x, y, z), dy < 0, 51, 9)
            } else {
                worth32(j.added(f, x, y, z)) == 0
            }
        }),
{
    law_strengths_of_beards();
    let (dx, dz) = (outside(x, r.min@[0] as int, r.max@[0] as int), outside(z, r.min@[2] as int, r.max@[2] as int));
    let over = y - (r.min@[1] + r.ground_delta);
    let up = outside(y, r.min@[1] + r.ground_delta, r.max@[1] as int);
    lemma_nothing(f, EIGHT_TENTHS_32);
    lemma_nothing(f, FOUR_TENTHS_32);
    if r.adjustment is BeardThin {
        if dx < 12 && dz < 12 && -12 <= over < 12 {
            law_beards_raise_the_ground(f, dx, over, dz, over);
            lemma_keeps_side(f, bearded(f, dx, over, dz, over), EIGHT_TENTHS_32, over < 0, 49, 9, 1, 0);
        } else {
            assert(bearded(f, dx, over, dz, over) == 0);
        }
    }
    if r.adjustment is BeardBox {
        if dx < 12 && dz < 12 && up < 12 {
            if -64 <= over < 64 {
                law_beards_raise_the_ground(f, dx, up, dz, over);
                lemma_keeps_side(f, bearded(f, dx, up, dz, over), EIGHT_TENTHS_32, over < 0, 49, 9, 1, 0);
            }
        } else {
            assert(bearded(f, dx, up, dz, over) == 0);
        }
    }
    let (ex, ey, ez) = (x - j.x, y - j.ground_y, z - j.z);
    if -12 <= ex < 12 && -12 <= ey < 12 && -12 <= ez < 12 {
        law_beards_raise_the_ground(f, ex, ey, ez, ey);
        lemma_keeps_side(f, bearded(f, ex, ey, ez, ey), FOUR_TENTHS_32, ey < 0, 49, 9, 2, 0);
    } else {
        assert(bearded(f, ex, ey, ez, ey) == 0);
    }
}

proof fn lemma_nothing<F: Fn(Ask) -> u64>(f: F, b: u32)
    requires
        correct32(f),
        finite32(b),
    ensures
        worth32(low(f, Ask::Mul32(0, b))) == 0,
        finite32(low(f, Ask::Mul32(0, b))),
{
    reveal(correct32);
    lemma_zero32(0);
    let zero = lemma_some32(0, 0);
    let v = worth32(b);
    assert(0 * v == 0 && 0 * one32() == 0) by (nonlinear_arith);
    lemma_between32(low(f, Ask::Mul32(0, b)), worth32(0u32) * worth32(b), one32(), zero, zero);
}

/// How far a block is outside of a range: nothing within it, else the way to
/// its nearer end.
pub proof fn law_outside_is_the_way_to_the_range(v: int, min: int, max: int)
    requires
        min <= max,
    ensures
        min <= v <= max ==> outside(v, min, max) == 0,
        v < min ==> outside(v, min, max) == min - v,
        v > max ==> outside(v, min, max) == v - max,
{
}

/// A double is the square of `n` parts of two to the power of `k`.
pub open spec fn square64(x: u64, n: int, k: int) -> bool {
    is64(x, n * n, 2 * k)
}

/// The square root of a square is what was squared.
pub open spec fn roots_of_squares<F: Fn(Ask) -> u64>(f: F) -> bool {
    forall|x: u64, n: int, k: int|
        0 <= n < 0x1000 && 0 <= k <= 100 && #[trigger] square64(x, n, k) ==> is64(reply(f, Ask::Sqrt64(x)), n, k)
}

/// Burying adds one at no distance and nothing from six blocks on; at a
/// whole distance between, what six blocks less the distance are of six.
pub proof fn law_burying_fades_to_six<F: Fn(Ask) -> u64>(f: F, x: u32, y: u32, z: u32, a: int, b: int, c: int)
    requires
        correct(f),
        is32(x, a, 1) && is32(y, b, 1) && is32(z, c, 1),
        -0x400 < a < 0x400 && -0x400 < b < 0x400 && -0x400 < c < 0x400,
    ensures
        a * a + b * b + c * c >= 4 * 36 ==> buried(f, x, y, z) == 0,
        roots_of_squares(f) && a * a + b * b + c * c == 0 ==> is32(buried(f, x, y, z), 1, 0),
        roots_of_squares(f) && a * a + b * b + c * c == 36 ==> is32(buried(f, x, y, z), 1, 1),
{
    lemma2_to64();
    lemma_known32();
    assert(0 <= a * a <= 0x10_0000 && 0 <= b * b <= 0x10_0000 && 0 <= c * c <= 0x10_0000) by (nonlinear_arith)
        requires
            -0x400 < a < 0x400,
            -0x400 < b < 0x400,
            -0x400 < c < 0x400,
    ;
    lemma_mul32(f, x, x, a, a, 1, 1);
    lemma_mul32(f, y, y, b, b, 1, 1);
    lemma_mul32(f, z, z, c, c, 1, 1);
    let (xx, yy, zz) = (low(f, Ask::Mul32(x, x)), low(f, Ask::Mul32(y, y)), low(f, Ask::Mul32(z, z)));
    lemma_add32(f, xx, yy, a * a, b * b, 2);
    lemma_add32(f, low(f, Ask::Add32(xx, yy)), zz, a * a + b * b, c * c, 2);
    let d = three_squares(f, x, y, z);
    let n = a * a + b * b + c * c;
    lemma_bits32(THIRTY_SIX_32, 36, 0, 18);
    lemma_finer32(THIRTY_SIX_32, 36, 0, 2);
    lemma_order32(f, THIRTY_SIX_32, d, 144, n, 2);
    if roots_of_squares(f) && (n == 0 || n == 36) {
        let s = if n == 0 { 0int } else { 6 };
        assert(s * s == n);
        lemma_widen(f, d, n, 2);
        let w = reply(f, Ask::Widen(d));
        assert(square64(w, s, 1));
        let q = reply(f, Ask::Sqrt64(w));
        assert(is64(q, s, 1));
        crate::numbers::lemma_narrow(f, q, s, 1);
        let root = low(f, Ask::Narrow(q));
        lemma_bits32(SIX_32, 6, 0, 21);
        crate::numbers::lemma_div32(f, root, SIX_32, s, 6, s / 6, 1);
        lemma_finer32(ONE_32, 1, 0, 1);
        lemma_sub32(f, ONE_32, low(f, Ask::Div32(root, SIX_32)), 2, s / 6, 1);
        if n == 0 {
            crate::numbers::lemma_coarser32(buried(f, x, y, z), 1, 0, 1);
        }
    }
}

/// Buried pieces: one where they stand, nothing from six blocks beside them
/// or twelve above or below their ground. Capsules: eight tenths inside,
/// nothing from twelve blocks outside.
pub proof fn law_buried_pieces_fill_around<F: Fn(Ask) -> u64>(f: F, r: Rigid, x: int, y: int, z: int)
    requires
        correct(f),
        roots_of_squares(f),
        -0x100 < outside(x, r.min@[0] as int, r.max@[0] as int) < 0x100,
        -0x100 < outside(z, r.min@[2] as int, r.max@[2] as int) < 0x100,
        -0x100 < outside(y, r.min@[1] as int, r.max@[1] as int) < 0x100,
        -0x100 < y - (r.min@[1] + r.ground_delta) < 0x100,
    ensures
        ({
            let (dx, dz) = (
                outside(x, r.min@[0] as int, r.max@[0] as int), outside(z, r.min@[2] as int, r.max@[2] as int));
            let dy = outside(y, r.min@[1] as int, r.max@[1] as int);
            let over = y - (r.min@[1] + r.ground_delta);
            &&& r.adjustment is Bury && dx == 0 && dz == 0 && over == 0 ==> is32(r.added(f, x, y, z), 1, 0)
            &&& r.adjustment is Bury && (dx >= 6 || dz >= 6 || over >= 12 || over <= -12) ==> r.added(f, x, y, z) == 0
            &&& r.adjustment is Encapsulate && dx == 0 && dy == 0 && dz == 0 ==> worth32(r.added(f, x, y, z)) == worth32(
                EIGHT_TENTHS_32)
            &&& r.adjustment is Encapsulate && (dx >= 12 || dy >= 12 || dz >= 12) ==> worth32(r.added(f, x, y, z)) == 0
        }),
{
    let (dx, dz) = (outside(x, r.min@[0] as int, r.max@[0] as int), outside(z, r.min@[2] as int, r.max@[2] as int));
    let dy = outside(y, r.min@[1] as int, r.max@[1] as int);
    let over = y - (r.min@[1] + r.ground_delta);
    law_strengths_of_beards();
    lemma2_to64();
    if r.adjustment is Bury {
        lemma_int32(f, wrapped(dx));
        lemma_int32(f, wrapped(dz));
        let (p, q) = (low(f, Ask::FromInt32(wrapped(dx))), low(f, Ask::FromInt32(wrapped(dz))));
        lemma_finer32(p, dx, 0, 1);
        lemma_finer32(q, dz, 0, 1);
        lemma_halved(f, over);
        law_burying_fades_to_six(f, p, halved(f, over), q, dx * 2, over, dz * 2);
        lemma_far(dx * 2, over, dz * 2);
    }
    if r.adjustment is Encapsulate {
        lemma_halved(f, dx);
        lemma_halved(f, dy);
        lemma_halved(f, dz);
        law_burying_fades_to_six(f, halved(f, dx), halved(f, dy), halved(f, dz), dx, dy, dz);
        lemma_far(dx, dy, dz);
        lemma_nothing(f, EIGHT_TENTHS_32);
        let v = buried(f, halved(f, dx), halved(f, dy), halved(f, dz));
        if dx == 0 && dy == 0 && dz == 0 {
            lemma_bits32(EIGHT_TENTHS_32, 0xCC_CCCD, 24, 0);
            lemma_mul32(f, v, EIGHT_TENTHS_32, 1, 0xCC_CCCD, 0, 24);
        }
    }
}

proof fn lemma_halved<F: Fn(Ask) -> u64>(f: F, d: int)
    requires
        correct32(f),
        -0x100 < d < 0x100,
    ensures
        is32(halved(f, d), d, 1),
{
    lemma2_to64();
    lemma_known32();
    lemma_int32(f, wrapped(d));
    lemma_shrink32(f, low(f, Ask::FromInt32(wrapped(d))), TWO_32, d, 0, 1);
}

/// Squares of twelve and more add up to 144 and more.
proof fn lemma_far(a: int, b: int, c: int)
    ensures
        a >= 12 || b >= 12 || c >= 12 || b <= -12 ==> a * a + b * b + c * c >= 144,
        a == 0 && b == 0 && c == 0 ==> a * a + b * b + c * c == 0,
{
    assert(a * a >= 0 && b * b >= 0 && c * c >= 0) by (nonlinear_arith);
    if a >= 12 {
        assert(a * a >= 144) by (nonlinear_arith)
            requires
                a >= 12,
        ;
    }
    if b >= 12 || b <= -12 {
        assert(b * b >= 144) by (nonlinear_arith)
            requires
                b >= 12 || b <= -12,
        ;
    }
    if c >= 12 {
        assert(c * c >= 144) by (nonlinear_arith)
            requires
                c >= 12,
        ;
    }
}

/// What is added at a block is the sum over all pieces, rigid ones and
/// junctions: exact where what each adds is counted in few digits.
pub proof fn law_pieces_add_up<F: Fn(Ask) -> u64>(f: F, b: Beardifier, x: int, y: int, z: int, n: nat, v: Seq<int>, k: int, most: int)
    requires
        correct32(f),
        0 <= k <= 149,
        n <= b.pieces(),
        v.len() == b.pieces(),
        forall|m: int| 0 <= m < b.rigids@.len() ==> is32(#[trigger] b.rigids@[m].added(f, x, y, z), v[m], k),
        forall|m: int| 0 <= m < b.junctions@.len() ==> is32(#[trigger] b.junctions@[m].added(f, x, y, z), v[b.rigids@.len() + m], k),
        most >= 0,
        forall|m: int| 0 <= m < v.len() ==> -most <= #[trigger] v[m] <= most,
        n * most < 0x100_0000,
    ensures
        is32(b.sum(f, x, y, z, n), total(v, n), k),
        -(n * most) <= total(v, n) <= n * most,
    decreases n,
{
    lemma_zero32(k);
    if n > 0 {
        assert((n - 1) * most == n * most - most) by (nonlinear_arith);
        law_pieces_add_up(f, b, x, y, z, (n - 1) as nat, v, k, most);
        assert(-most <= v[n - 1] <= most);
        if n - 1 < b.rigids@.len() {
            assert(is32(b.rigids@[n - 1].added(f, x, y, z), v[n - 1], k));
        } else {
            let m = n - 1 - b.rigids@.len();
            assert(is32(b.junctions@[m].added(f, x, y, z), v[b.rigids@.len() + m], k));
        }
        lemma_add32(f, b.sum(f, x, y, z, (n - 1) as nat), b.piece(f, n - 1, x, y, z), total(v, (n - 1) as nat), v[n - 1], k);
    }
}

/// The sum of the first `n`.
pub open spec fn total(v: Seq<int>, n: nat) -> int
    decreases n,
{
    if n == 0 { 0 } else { total(v, (n - 1) as nat) + v[n - 1] }
}

} // verus!
