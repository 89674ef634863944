//! What aquifers decide: how high a cell is flooded and with what, and what
//! an open block becomes.

use vstd::prelude::*;
use vstd::arithmetic::power2::{lemma2_to64, lemma2_to64_rest, pow2};
use crate::aquifer26::{
    alike, as_substance, asked, cell_around, anchor_of, cell_fluid, cell_key, deep_substance, flooding, held_back, held_range,
    key_distance, key_status, law_four_nearest, location, looked, nearest_of, offset_x, offset_z, pressure_between, ranged,
    spread_level, status_at, substance_at, surface_of, Fluid, FluidPicker, FluidStatus, Substance, Waters, EIGHT_TENTHS,
    FOUR_TENTHS, MINUS_EIGHT_TENTHS, MINUS_THREE_TENTHS, SIXTY_FOUR, TEN_32, THREE_TENTHS, TWENTY_FIVE, WAY_BELOW_MIN_Y,
};
use crate::arith::{clamped64, holds, low, reply, Ask, MINUS_ONE, ONE, THREE, TWO, ZERO};
use crate::df26::wrapped;
use crate::numbers::{
    correct, correct64, finite64, is32, is64, lemma_abs64, lemma_add64, lemma_bits64, lemma_bits32, lemma_div64, lemma_finer64,
    lemma_floor64, lemma_int64, lemma_known64, lemma_mul32, lemma_mul64, lemma_negative64, lemma_order64, lemma_shrink64,
    lemma_span_add64, lemma_span_bits64, lemma_span_mul64, lemma_span_of64, lemma_span_order64, lemma_span_sub64, lemma_sub64,
    lemma_to_int64, lemma_widen, lemma_zero64, one64, rounded64, span64, worth64,
};

verus! {

proof fn lemma_minus_one()
    ensures
        is64(MINUS_ONE, -1, 0),
{
    lemma_known64();
    let b = MINUS_ONE;
    assert(crate::numbers::exponent64(b) == crate::numbers::exponent64(ONE) && crate::numbers::fraction64(b)
        == crate::numbers::fraction64(ONE));
    let p = pow2(1074) as int;
    assert(-(1 * p) == (-1) * p) by (nonlinear_arith);
}

/// A quotient by minus one.
proof fn lemma_turned<F: Fn(Ask) -> u64>(f: F, a: u64, b: u64, n: int, k: int)
    requires
        correct64(f),
        is64(a, n, k),
        is64(b, -1, 0),
        -0x20_0000_0000_0000 < n < 0x20_0000_0000_0000,
    ensures
        is64(reply(f, Ask::Div64(a, b)), -n, k),
{
    reveal(correct64);
    let (p, u) = (pow2((1074 - k) as nat) as int, one64());
    vstd::arithmetic::power2::lemma_pow2_pos(1074);
    assert(-(n * p) * u == ((-n) * p) * u && -(-1 * u) == u && (-1) * u < 0) by (nonlinear_arith)
        requires
            u > 0,
    ;
    crate::numbers::lemma_exact64(reply(f, Ask::Div64(a, b)), -worth64(a) * u, -worth64(b), -n, (1074 - k) as nat);
}

/// How far below the surface counts: up to 64 blocks.
pub open spec fn counted_depth(lowest: int, y: int, under: bool) -> int {
    let b = lowest + 8 - y;
    if !under || b > 64 {
        64
    } else if b < 0 {
        0
    } else {
        b
    }
}

/// The share that is left of being near the surface.
proof fn lemma_factor<F: Fn(Ask) -> u64>(f: F, lowest: i32, y: i32, under: bool)
    requires
        correct64(f),
        -0x1000_0000 < lowest < 0x1000_0000,
        -0x1000_0000 < y < 0x1000_0000,
    ensures
        ({
            let below = wrapped(lowest + 8 - y);
            let factor = if under {
                held_range(f, reply(f, Ask::FromInt64(below)), ZERO, SIXTY_FOUR, ONE, ZERO)
            } else {
                ZERO
            };
            is64(factor, 64 - counted_depth(lowest as int, y as int, under), 6)
        }),
{
    lemma2_to64();
    lemma2_to64_rest();
    lemma_known64();
    lemma_zero64(0);
    lemma_zero64(6);
    lemma_bits64(SIXTY_FOUR, 64, 0, 46);
    let b = lowest + 8 - y;
    if under {
        lemma_int64(f, wrapped(b));
        let v = reply(f, Ask::FromInt64(wrapped(b)));
        lemma_sub64(f, v, ZERO, b, 0, 0);
        lemma_sub64(f, SIXTY_FOUR, ZERO, 64, 0, 0);
        let (p, q) = (reply(f, Ask::Sub64(v, ZERO)), reply(f, Ask::Sub64(SIXTY_FOUR, ZERO)));
        lemma_shrink64(f, p, q, b, 0, 6);
        let t = reply(f, Ask::Div64(p, q));
        lemma_finer64(ONE, 1, 0, 6);
        lemma_order64(f, t, ZERO, b, 0, 6);
        lemma_order64(f, ONE, t, 64, b, 6);
        lemma_sub64(f, ZERO, ONE, 0, 1, 0);
        let d = reply(f, Ask::Sub64(ZERO, ONE));
        lemma_mul64(f, t, d, b, -1, 6, 0);
        lemma_add64(f, ONE, reply(f, Ask::Mul64(t, d)), 64, b * -1, 6);
    }
}

/// A threshold that moves from one number to another over 64 blocks.
proof fn lemma_threshold<F: Fn(Ask) -> u64>(f: F, factor: u64, from: u64, to: u64, b: int, fl: int, fh: int, tl: int, th: int)
    requires
        correct64(f),
        0 <= b <= 64,
        is64(factor, 64 - b, 6),
        span64(from, fl, fh, 10),
        span64(to, tl, th, 10),
        -2048 < fl <= fh < 2048,
        -2048 < tl <= th < 2048,
        fh <= tl,
    ensures
        span64(ranged(f, factor, ONE, ZERO, from, to), 64 * fl + (tl - fh) * b, 64 * fh + (th - fl) * b, 16),
{
    lemma2_to64();
    lemma_known64();
    lemma_zero64(0);
    lemma_finer64(ONE, 1, 0, 6);
    lemma_sub64(f, factor, ONE, 64 - b, 64, 6);
    lemma_sub64(f, ZERO, ONE, 0, 1, 0);
    let (p, q) = (reply(f, Ask::Sub64(factor, ONE)), reply(f, Ask::Sub64(ZERO, ONE)));
    lemma_turned(f, p, q, -b, 6);
    let t = reply(f, Ask::Div64(p, q));
    lemma_span_of64(t, b, 6);
    lemma_span_sub64(f, to, from, tl, th, fl, fh, 10);
    let d = reply(f, Ask::Sub64(to, from));
    assert(b * (th - fl) < 0x20_0000_0000_0000 && b * (tl - fh) == (tl - fh) * b && b * (th - fl) == (th - fl) * b) by (nonlinear_arith)
        requires
            0 <= b <= 64,
            0 <= th - fl <= 4096,
    ;
    lemma_span_mul64(f, t, d, b, b, tl - fh, th - fl, 6, 10);
    let m = reply(f, Ask::Mul64(t, d));
    lemma_span_finer(from, fl, fh);
    assert(0 <= (tl - fh) * b && (th - fl) * b <= 0x10_0000) by (nonlinear_arith)
        requires
            0 <= b <= 64,
            0 <= tl - fh,
            th - fl <= 4096,
    ;
    lemma_span_add64(f, from, m, fl * 64, fh * 64, (tl - fh) * b, (th - fl) * b, 16);
}

proof fn lemma_span_finer(v: u64, lo: int, hi: int)
    requires
        span64(v, lo, hi, 10),
    ensures
        span64(v, lo * 64, hi * 64, 16),
{
    lemma2_to64();
    vstd::arithmetic::power2::lemma_pow2_adds(6, 1058);
    let p = pow2(1058) as int;
    assert(lo * (64 * p) == (lo * 64) * p && hi * (64 * p) == (hi * 64) * p) by (nonlinear_arith);
}

/// The decimals that thresholds lie between, in parts of 1024.
proof fn lemma_decimals()
    ensures
        span64(THREE_TENTHS, 307, 308, 10),
        span64(MINUS_THREE_TENTHS, -308, -307, 10),
        span64(FOUR_TENTHS, 409, 410, 10),
        span64(EIGHT_TENTHS, 819, 820, 10),
        span64(MINUS_EIGHT_TENTHS, -820, -819, 10),
{
    lemma2_to64();
    lemma2_to64_rest();
    lemma_span_bits64(THREE_TENTHS, 307, 308, 10, 44);
    lemma_span_bits64(FOUR_TENTHS, 409, 410, 10, 44);
    lemma_span_bits64(EIGHT_TENTHS, 819, 820, 10, 43);
    lemma_negative64(MINUS_THREE_TENTHS, 307, 308, 10);
    lemma_negative64(MINUS_EIGHT_TENTHS, 819, 820, 10);
}

/// The floodedness held between minus one and one.
pub open spec fn held_flood(n: int) -> int {
    if n < -1024 {
        -1024
    } else if n > 1024 {
        1024
    } else {
        n
    }
}

proof fn lemma_noise<F: Fn(Ask) -> u64>(f: F, v: u32, n: int)
    requires
        correct(f),
        is32(v, n, 10),
    ensures
        is64(clamped64(f, reply(f, Ask::Widen(v)), MINUS_ONE, ONE), held_flood(n), 10),
{
    lemma2_to64();
    lemma_known64();
    lemma_minus_one();
    lemma_widen(f, v, n, 10);
    lemma_finer64(ONE, 1, 0, 10);
    lemma_finer64(MINUS_ONE, -1, 0, 10);
    let w = reply(f, Ask::Widen(v));
    lemma_order64(f, w, MINUS_ONE, n, -1024, 10);
    lemma_order64(f, ONE, w, 1024, n, 10);
}

/// How a cell is flooded where nothing excludes it, in its floodedness `n`
/// over 1024 and its depth: the threshold for partly runs from -0.8 at the
/// surface to 0.4 at 64 blocks below it, that for fully from -0.3 to 0.8. An
/// excluded cell is not flooded at all.
pub proof fn law_floods_pass_thresholds<F: Fn(Ask) -> u64>(
    f: F, w: Waters, x: i32, y: i32, z: i32, lowest: i32, under: bool, n: int,
)
    requires
        correct(f),
        -0x1000_0000 < lowest < 0x1000_0000,
        -0x1000_0000 < y < 0x1000_0000,
        is32(asked(f, w, *w.config.floodedness, x, y, z), n, 10),
    ensures
        ({
            let (partly, fully) = flooding(f, w, x, y, z, lowest, under);
            let (b, v) = (counted_depth(lowest as int, y as int, under), 64 * held_flood(n));
            if holds(f, Ask::Less32(0, asked(f, w, *w.config.exclusion, x, y, z))) {
                !holds(f, Ask::Less64(ZERO, partly)) && !holds(f, Ask::Less64(ZERO, fully))
            } else {
                &&& v > -64 * 819 + 1230 * b ==> holds(f, Ask::Less64(ZERO, partly))
                &&& v <= -64 * 820 + 1228 * b ==> !holds(f, Ask::Less64(ZERO, partly))
                &&& v > -64 * 307 + 1128 * b ==> holds(f, Ask::Less64(ZERO, fully))
                &&& v <= -64 * 308 + 1126 * b ==> !holds(f, Ask::Less64(ZERO, fully))
            }
        }),
{
    lemma2_to64();
    lemma_minus_one();
    lemma_zero64(0);
    lemma_zero64(16);
    lemma_order64(f, ZERO, MINUS_ONE, 0, -1, 0);
    let b = counted_depth(lowest as int, y as int, under);
    let below = wrapped(lowest + 8 - y);
    let factor = if under { held_range(f, reply(f, Ask::FromInt64(below)), ZERO, SIXTY_FOUR, ONE, ZERO) } else { ZERO };
    lemma_factor(f, lowest, y, under);
    lemma_decimals();
    lemma_threshold(f, factor, MINUS_EIGHT_TENTHS, FOUR_TENTHS, b, -820, -819, 409, 410);
    lemma_threshold(f, factor, MINUS_THREE_TENTHS, EIGHT_TENTHS, b, -308, -307, 819, 820);
    let v = asked(f, w, crate::dfcache::inner(w.config.floodedness), x, y, z);
    lemma_noise(f, v, n);
    let noise = clamped64(f, reply(f, Ask::Widen(v)), MINUS_ONE, ONE);
    let h = held_flood(n);
    lemma_finer64(noise, h, 10, 6);
    lemma_span_of64(noise, h * 64, 16);
    let (p, q) = (
        ranged(f, factor, ONE, ZERO, MINUS_EIGHT_TENTHS, FOUR_TENTHS), ranged(f, factor, ONE, ZERO, MINUS_THREE_TENTHS, EIGHT_TENTHS));
    lemma_span_sub64(f, noise, p, h * 64, h * 64, 64 * -820 + 1228 * b, 64 * -819 + 1230 * b, 16);
    lemma_span_sub64(f, noise, q, h * 64, h * 64, 64 * -308 + 1126 * b, 64 * -307 + 1128 * b, 16);
    lemma_span_of64(ZERO, 0, 16);
    lemma_span_order64(
        f, ZERO, reply(f, Ask::Sub64(noise, p)), 0, 0, h * 64 - (64 * -819 + 1230 * b), h * 64 - (64 * -820 + 1228 * b), 16);
    lemma_span_order64(
        f, reply(f, Ask::Sub64(noise, p)), ZERO, h * 64 - (64 * -819 + 1230 * b), h * 64 - (64 * -820 + 1228 * b), 0, 0, 16);
    lemma_span_order64(
        f, ZERO, reply(f, Ask::Sub64(noise, q)), 0, 0, h * 64 - (64 * -307 + 1128 * b), h * 64 - (64 * -308 + 1126 * b), 16);
    lemma_span_order64(
        f, reply(f, Ask::Sub64(noise, q)), ZERO, h * 64 - (64 * -307 + 1128 * b), h * 64 - (64 * -308 + 1126 * b), 0, 0, 16);
}

/// How high a cell is flooded that no surface settles: fully, up to the
/// level of the world's fluid at its height; partly, up to a level of its
/// own; else not at all.
pub proof fn law_cells_are_flooded<F: Fn(Ask) -> u64>(f: F, w: Waters, x: i32, y: i32, z: i32, n: int)
    requires
        correct(f),
        looked(f, w, x, y, z, 13).settled is None,
        -0x1000_0000 < looked(f, w, x, y, z, 13).lowest < 0x1000_0000,
        -0x1000_0000 < y < 0x1000_0000,
        is32(asked(f, w, *w.config.floodedness, x, y, z), n, 10),
    ensures
        ({
            let look = looked(f, w, x, y, z, 13);
            let (b, v) = (counted_depth(look.lowest as int, y as int, look.center_under_global), 64 * held_flood(n));
            let excluded = holds(f, Ask::Less32(0, asked(f, w, *w.config.exclusion, x, y, z)));
            let status = status_at(f, w, x, y, z);
            &&& !excluded && v > -64 * 307 + 1128 * b ==> status.level == w.picker.picked(y as int).level
            &&& !excluded && -64 * 819 + 1230 * b < v <= -64 * 308 + 1126 * b ==> status.level == spread_level(
                f, w, x, y, z, look.lowest)
            &&& excluded || v <= -64 * 820 + 1228 * b ==> status.level == WAY_BELOW_MIN_Y
            &&& status.fluid == w.picker.picked(y as int).fluid || status.fluid is Lava
        }),
{
    reveal(status_at);
    let look = looked(f, w, x, y, z, 13);
    law_floods_pass_thresholds(f, w, x, y, z, look.lowest, look.center_under_global, n);
}

/// The chunks whose surfaces count for a cell: its own, the four before it
/// and the four behind it along z that reach two to the west and one to the
/// east, and in its row three to the west and one to the east.
pub open spec fn chunk_near(i: int) -> (int, int) {
    if i == 0 {
        (0, 0)
    } else if i <= 4 {
        (i - 3, -1)
    } else if i <= 7 {
        (i - 8, 0)
    } else if i == 8 {
        (1, 0)
    } else {
        (i - 11, 1)
    }
}

/// The surface of such a chunk.
pub open spec fn surface_near<F: Fn(Ask) -> u64>(f: F, w: Waters, x: i32, z: i32, i: int) -> int {
    let (dx, dz) = chunk_near(i);
    surface_of(f, w, wrapped(x + 16 * dx), wrapped(z + 16 * dz)) as int
}

/// The world's fluid stands eight blocks above a surface.
pub open spec fn drowned(w: Waters, surface: int) -> bool {
    !(w.picker.picked(surface + 8).fluid_at(surface + 8) is Air)
}

/// A surface settles a cell: it is drowned, and less than twelve blocks
/// above the cell eight blocks above it.
pub open spec fn settles<F: Fn(Ask) -> u64>(f: F, w: Waters, x: i32, y: i32, z: i32, i: int) -> bool {
    let s = surface_near(f, w, x, z, i);
    drowned(w, s) && y + 12 > s + 8
}

proof fn lemma_looked<F: Fn(Ask) -> u64>(f: F, w: Waters, x: i32, y: i32, z: i32, n: nat)
    requires
        1 <= n <= 13,
        y - 12 <= surface_near(f, w, x, z, 0) + 8,
    ensures
        ({
            let l = looked(f, w, x, y, z, n);
            &&& (forall|i: int| 0 <= i < n ==> !#[trigger] settles(f, w, x, y, z, i)) ==> {
                &&& l.settled is None
                &&& l.center_under_global == drowned(w, surface_near(f, w, x, z, 0))
                &&& forall|i: int| 0 <= i < n ==> l.lowest <= #[trigger] surface_near(f, w, x, z, i)
                &&& exists|i: int| 0 <= i < n && l.lowest == #[trigger] surface_near(f, w, x, z, i)
            }
            &&& forall|i: int|
                #![trigger settles(f, w, x, y, z, i)]
                0 <= i < n && settles(f, w, x, y, z, i) && (forall|j: int| 0 <= j < i ==> !#[trigger] settles(f, w, x, y, z, j))
                    ==> l.settled == Some(w.picker.picked(surface_near(f, w, x, z, i) + 8))
        }),
    decreases n,
{
    let k = n - 1;
    assert(offset_x(k) == chunk_near(k).0 && offset_z(k) == chunk_near(k).1);
    let s = surface_near(f, w, x, z, k);
    let l = looked(f, w, x, y, z, n);
    reveal_with_fuel(looked, 2);
    if n > 1 {
        lemma_looked(f, w, x, y, z, (n - 1) as nat);
        let before = looked(f, w, x, y, z, (n - 1) as nat);
        if forall|i: int| 0 <= i < n - 1 ==> !#[trigger] settles(f, w, x, y, z, i) {
            let j = choose|i: int| 0 <= i < n - 1 && before.lowest == #[trigger] surface_near(f, w, x, z, i);
            if !settles(f, w, x, y, z, k) {
                if s < before.lowest {
                    assert(l.lowest == surface_near(f, w, x, z, k));
                } else {
                    assert(l.lowest == surface_near(f, w, x, z, j));
                }
            }
        } else {
            let i = choose|i: int| 0 <= i < n - 1 && #[trigger] settles(f, w, x, y, z, i);
            lemma_first(f, w, x, y, z, i);
            assert(before.settled is Some);
        }
    } else {
        assert(l.settled is None ==> l.lowest == s || s == i32::MAX);
        assert(surface_near(f, w, x, z, 0) == s);
    }
}

/// Of surfaces that settle a cell there is a first.
proof fn lemma_first<F: Fn(Ask) -> u64>(f: F, w: Waters, x: i32, y: i32, z: i32, i: int) -> (m: int)
    requires
        i >= 0,
        settles(f, w, x, y, z, i),
    ensures
        0 <= m <= i,
        settles(f, w, x, y, z, m),
        forall|j: int| 0 <= j < m ==> !#[trigger] settles(f, w, x, y, z, j),
    decreases i,
{
    if exists|j: int| 0 <= j < i && #[trigger] settles(f, w, x, y, z, j) {
        let j = choose|j: int| 0 <= j < i && #[trigger] settles(f, w, x, y, z, j);
        lemma_first(f, w, x, y, z, j)
    } else {
        i
    }
}

/// What the surfaces around decide about a cell: more than twenty blocks
/// above the surface of its own chunk it has the world's fluid at its
/// height. Else the first surface that settles it gives the fluid there. If
/// none does it is left to its floodedness, by the lowest surface.
pub proof fn law_surfaces_settle_cells<F: Fn(Ask) -> u64>(f: F, w: Waters, x: i32, y: i32, z: i32, i: int)
    requires
        0 <= i < 13,
    ensures
        ({
            let l = looked(f, w, x, y, z, 13);
            let own = surface_near(f, w, x, z, 0);
            &&& y > own + 20 ==> l.settled == Some(w.picker.picked(y as int)) && status_at(f, w, x, y, z) == w.picker.picked(y as int)
            &&& y <= own + 20 && settles(f, w, x, y, z, i) && (forall|j: int| 0 <= j < i ==> !#[trigger] settles(f, w, x, y, z, j))
                ==> status_at(f, w, x, y, z) == w.picker.picked(surface_near(f, w, x, z, i) + 8)
            &&& y <= own + 20 && (forall|j: int| 0 <= j < 13 ==> !#[trigger] settles(f, w, x, y, z, j)) ==> {
                &&& l.settled is None
                &&& l.center_under_global == drowned(w, own)
                &&& l.lowest <= surface_near(f, w, x, z, i)
                &&& exists|j: int| 0 <= j < 13 && l.lowest == #[trigger] surface_near(f, w, x, z, j)
            }
        }),
{
    reveal(status_at);
    assert(offset_x(0) == 0 && offset_z(0) == 0);
    let own = surface_near(f, w, x, z, 0);
    if y <= own + 20 {
        lemma_looked(f, w, x, y, z, 13);
    } else {
        reveal_with_fuel(looked, 2);
        assert(looked(f, w, x, y, z, 1).settled == Some(w.picker.picked(y as int)));
        lemma_stays(f, w, x, y, z, 13);
    }
}

proof fn lemma_stays<F: Fn(Ask) -> u64>(f: F, w: Waters, x: i32, y: i32, z: i32, n: nat)
    requires
        n >= 1,
        looked(f, w, x, y, z, 1).settled is Some,
    ensures
        looked(f, w, x, y, z, n) == looked(f, w, x, y, z, 1),
    decreases n,
{
    if n > 1 {
        lemma_stays(f, w, x, y, z, (n - 1) as nat);
    }
}

/// The world's fluid: lava below -54 where that is below the sea, else the
/// sea up to its level.
pub proof fn law_worlds_fluid(p: FluidPicker, y: int)
    ensures
        y < -54 && y < p.sea_level ==> p.picked(y).fluid_at(y) is Lava,
        !(y < -54 && y < p.sea_level) && y < p.sea_level ==> p.picked(y).fluid_at(y) == p.sea_fluid,
        y >= p.sea_level ==> p.picked(y).fluid_at(y) is Air,
        y >= -54 ==> p.picked(y) == (FluidStatus { level: p.sea_level, fluid: p.sea_fluid }),
{
}

/// Deep cells hold lava where the lava noise is large: levels of -10 and
/// below that are not the lowest of all, and noise above three tenths.
pub proof fn law_deep_cells_hold_lava<F: Fn(Ask) -> u64>(
    f: F, w: Waters, x: i32, y: i32, z: i32, global: FluidStatus, level: i32, n: int,
)
    requires
        correct(f),
        is32(asked(f, w, *w.config.lava, (x as int / 64) as i32, (y as int / 40) as i32, (z as int / 64) as i32), n, 10),
    ensures
        ({
            let fluid = cell_fluid(f, w, x, y, z, global, level);
            let deep = level <= -10 && level != WAY_BELOW_MIN_Y && !(global.fluid is Lava);
            &&& deep && (n > 308 || n < -308) ==> fluid is Lava
            &&& !deep || -307 <= n <= 307 ==> fluid == global.fluid
        }),
{
    let v = asked(f, w, crate::dfcache::inner(w.config.lava), (x as int / 64) as i32, (y as int / 40) as i32, (z as int / 64) as i32);
    lemma_widen(f, v, n, 10);
    let a = reply(f, Ask::Widen(v));
    lemma_abs64(f, a, n, 10);
    let m = if n < 0 { -n } else { n };
    lemma_decimals();
    lemma_span_of64(reply(f, Ask::Abs64(a)), m, 10);
    lemma_span_order64(f, THREE_TENTHS, reply(f, Ask::Abs64(a)), 307, 308, m, m, 10);
    lemma_span_order64(f, reply(f, Ask::Abs64(a)), THREE_TENTHS, m, m, 307, 308, 10);
}

/// A partly flooded cell's level: twenty above the bottom of its layer of
/// forty blocks, and up or down in steps of three by ten times the spread,
/// but not above the lowest surface.
pub proof fn law_levels_spread_in_steps<F: Fn(Ask) -> u64>(f: F, w: Waters, x: i32, y: i32, z: i32, lowest: i32, q: int)
    requires
        correct(f),
        -0x1000_0000 < y < 0x1000_0000,
        is32(asked(f, w, *w.config.spread, (x as int / 16) as i32, (y as int / 40) as i32, (z as int / 16) as i32), 3 * q, 10),
        -0x1_0000 < q < 0x1_0000,
    ensures
        ({
            let level = (y as int / 40) * 40 + 20 + 3 * (10 * q / 1024);
            spread_level(f, w, x, y, z, lowest) == (if lowest < level { lowest as int } else { level })
        }),
{
    lemma2_to64();
    lemma2_to64_rest();
    let v = asked(
        f, w, crate::dfcache::inner(w.config.spread), (x as int / 16) as i32, (y as int / 40) as i32, (z as int / 16) as i32);
    lemma_bits32(TEN_32, 10, 0, 20);
    lemma_mul32(f, v, TEN_32, 3 * q, 10, 10, 0);
    let s = low(f, Ask::Mul32(v, TEN_32));
    lemma_widen(f, s, 3 * q * 10, 10);
    lemma_bits64(THREE, 3, 0, 51);
    let a = reply(f, Ask::Widen(s));
    lemma_div64(f, a, THREE, 3 * q * 10, 3, 10 * q, 10);
    let d = reply(f, Ask::Div64(a, THREE));
    lemma_floor64(f, d, 10 * q, 10);
    let e = reply(f, Ask::Floor64(d));
    lemma_to_int64(f, e, 10 * q / 1024);
    let r = reply(f, Ask::ToInt64(e));
    assert(r as i32 == (r as u32) as i32) by (bit_vector);
}

/// Two cells are alike by one less a twenty-fifth of how much farther the
/// second one is, in squares.
pub proof fn law_likeness_falls_by_distance<F: Fn(Ask) -> u64>(f: F, d1: i32, d2: i32, q: int)
    requires
        correct64(f),
        d2 - d1 == 25 * q,
        -0x8000_0000 <= d2 - d1 <= 0x7fff_ffff,
    ensures
        is64(alike(f, d1, d2), 1 - q, 0),
{
    reveal(alike);
    lemma2_to64();
    lemma2_to64_rest();
    lemma_known64();
    lemma_int64(f, wrapped(d2 - d1));
    let d = reply(f, Ask::FromInt64(wrapped(d2 - d1)));
    lemma_bits64(TWENTY_FIVE, 25, 0, 48);
    lemma_div64(f, d, TWENTY_FIVE, 25 * q, 25, q, 0);
    lemma_sub64(f, ONE, reply(f, Ask::Div64(d, TWENTY_FIVE)), 1, q, 0);
}

/// Likeness is a number.
proof fn lemma_alike<F: Fn(Ask) -> u64>(f: F, d1: i32, d2: i32)
    requires
        correct64(f),
    ensures
        span64(alike(f, d1, d2), -0x1_0000_0000, 0x1_0000_0000, 0),
{
    reveal(alike);
    lemma2_to64();
    lemma2_to64_rest();
    lemma_known64();
    let v = wrapped(d2 - d1);
    lemma_int64(f, v);
    let d = reply(f, Ask::FromInt64(v));
    lemma_bits64(TWENTY_FIVE, 25, 0, 48);
    let q = reply(f, Ask::Div64(d, TWENTY_FIVE));
    reveal(correct64);
    let u = one64();
    vstd::arithmetic::power2::lemma_pow2_pos(1074);
    let (lo, hi) = (crate::numbers::lemma_some64(-0x8000_0000, 0), crate::numbers::lemma_some64(0x8000_0000, 0));
    assert((-0x8000_0000 * u) * (25 * u) <= (v * u) * u <= (0x8000_0000 * u) * (25 * u)) by (nonlinear_arith)
        requires
            -0x8000_0000 <= v <= 0x7fff_ffff,
            u > 0,
    ;
    crate::numbers::lemma_between64(q, worth64(d) * u, worth64(TWENTY_FIVE), lo, hi);
    lemma_span_of64(ONE, 1, 0);
    lemma_span_sub64(f, ONE, q, 1, 1, -0x8000_0000, 0x8000_0000, 0);
    let r = alike(f, d1, d2);
    assert(-0x1_0000_0000 * u <= 1 * u - 0x8000_0000 * u && 1 * u + 0x8000_0000 * u <= 0x1_0000_0000 * u) by (nonlinear_arith)
        requires
            u > 0,
    ;
    assert((1 - 0x8000_0000) * u == 1 * u - 0x8000_0000 * u && (1 - -0x8000_0000) * u == 1 * u + 0x8000_0000 * u) by (nonlinear_arith);
}

/// Nothing presses between cells of one level, but for lava against water.
pub proof fn law_equal_levels_do_not_press<F: Fn(Ask) -> u64>(
    f: F, w: Waters, x: i32, y: i32, z: i32, density: u64, factor: u64, s: FluidStatus,
)
    requires
        correct64(f),
        finite64(density),
        worth64(density) <= 0,
        finite64(factor),
    ensures
        !held_back(f, w, x, y, z, density, factor, s, s),
{
    reveal(pressure_between);
    reveal(correct64);
    lemma_zero64(0);
    let p = reply(f, Ask::Mul64(factor, ZERO));
    let z0 = crate::numbers::lemma_some64(0, 0);
    let v = worth64(factor);
    assert(v * 0 == 0 && 0 * one64() == 0) by (nonlinear_arith);
    crate::numbers::lemma_between64(p, worth64(factor) * worth64(ZERO), one64(), z0, z0);
    let r = reply(f, Ask::Add64(density, p));
    assert(rounded64(r, worth64(density), 1));
    assert(worth64(z0) == 0);
    assert(worth64(r) <= 0);
}

/// The status of the cell that a key stands for, in numbers of cells.
proof fn lemma_key_status<F: Fn(Ask) -> u64>(f: F, w: Waters, x: int, y: int, z: int, key: int, k: int, s: FluidStatus)
    requires
        0 <= k < 12,
        key == cell_key(w, x, y, z, k),
        forall|k: int| 0 <= k < 12 ==> #[trigger] cell_status(f, w, x, y, z, k) == s,
    ensures
        key_status(f, w, x, y, z, key) == s,
{
    reveal(key_status);
    reveal(cell_key);
    assert(key % 16 == 11 - k);
    assert(cell_status(f, w, x, y, z, k) == s);
}

/// The status of the `k`-th cell around a block.
pub open spec fn cell_status<F: Fn(Ask) -> u64>(f: F, w: Waters, x: int, y: int, z: int, k: int) -> FluidStatus {
    let (gx, gy, gz) = cell_around(anchor_of(x, y, z), k);
    let l = location(w, gx, gy, gz);
    status_at(f, w, l.0, l.1, l.2)
}

/// Where all twelve cells around a block have the same fluid up to the same
/// level, an open block is that fluid below the level and air above it.
pub proof fn law_equal_cells_decide<F: Fn(Ask) -> u64>(f: F, w: Waters, x: i32, y: i32, z: i32, density: u64, s: FluidStatus)
    requires
        correct64(f),
        finite64(density),
        worth64(density) <= 0,
        y <= w.skip_above,
        !(w.picker.picked(y as int).fluid_at(y as int) is Lava),
        forall|k: int| 0 <= k < 12 ==> #[trigger] cell_status(f, w, x as int, y as int, z as int, k) == s,
    ensures
        substance_at(f, w, x, y, z, density).0 == Some(as_substance(s.fluid_at(y as int))),
        y < s.level ==> substance_at(f, w, x, y, z, density).0 == Some(as_substance(s.fluid)),
        y >= s.level ==> substance_at(f, w, x, y, z, density).0 == Some(Substance::Air),
{
    lemma_zero64(0);
    assert(!holds(f, Ask::Less64(ZERO, density))) by {
        reveal(correct64);
    }
    reveal(deep_substance);
    law_four_nearest(w, x, y, z);
    let (bx, by, bz) = (x as int, y as int, z as int);
    let near = nearest_of(w, bx, by, bz, 12);
    let a = choose|k: int| 0 <= k < 12 && near.a == #[trigger] cell_key(w, bx, by, bz, k);
    let b = choose|k: int| 0 <= k < 12 && near.b == #[trigger] cell_key(w, bx, by, bz, k);
    let c = choose|k: int| 0 <= k < 12 && near.c == #[trigger] cell_key(w, bx, by, bz, k);
    lemma_key_status(f, w, bx, by, bz, near.a, a, s);
    lemma_key_status(f, w, bx, by, bz, near.b, b, s);
    lemma_key_status(f, w, bx, by, bz, near.c, c, s);
    let (d1, d2, d3) = (key_distance(near.a), key_distance(near.b), key_distance(near.c));
    lemma_alike(f, d1, d2);
    lemma_alike(f, d1, d3);
    lemma_alike(f, d2, d3);
    law_equal_levels_do_not_press(f, w, x, y, z, density, alike(f, d1, d2), s);
    let (p, q) = (
        reply(f, Ask::Mul64(alike(f, d1, d2), alike(f, d1, d3))), reply(f, Ask::Mul64(alike(f, d1, d2), alike(f, d2, d3))));
    lemma_finite_product(f, alike(f, d1, d2), alike(f, d1, d3));
    lemma_finite_product(f, alike(f, d1, d2), alike(f, d2, d3));
    law_equal_levels_do_not_press(f, w, x, y, z, density, p, s);
    law_equal_levels_do_not_press(f, w, x, y, z, density, q, s);
}

proof fn lemma_finite_product<F: Fn(Ask) -> u64>(f: F, a: u64, b: u64)
    requires
        correct64(f),
        span64(a, -0x1_0000_0000, 0x1_0000_0000, 0),
        span64(b, -0x1_0000_0000, 0x1_0000_0000, 0),
    ensures
        finite64(reply(f, Ask::Mul64(a, b))),
{
    reveal(correct64);
    let u = one64();
    vstd::arithmetic::power2::lemma_pow2_pos(1074);
    vstd::arithmetic::power2::lemma_pow2_adds(64, 1074);
    lemma2_to64();
    let e = pow2(1138) as int;
    let (lo, hi) = (crate::numbers::lemma_double(-1, 1138), crate::numbers::lemma_double(1, 1138));
    let (x, y) = (worth64(a), worth64(b));
    assert(-e * u <= x * y <= e * u) by (nonlinear_arith)
        requires
            -0x1_0000_0000 * u <= x <= 0x1_0000_0000 * u,
            -0x1_0000_0000 * u <= y <= 0x1_0000_0000 * u,
            e == 0x1_0000_0000_0000_0000 * u,
            u > 0,
    ;
    assert((-1 * e) * u == -e * u && (1 * e) * u == e * u) by (nonlinear_arith);
    crate::numbers::lemma_between64(reply(f, Ask::Mul64(a, b)), x * y, u, lo, hi);
}

/// A block is the default one where its density is above zero, the world's
/// fluid above all aquifers, and lava where the world is.
pub proof fn law_blocks_by_density<F: Fn(Ask) -> u64>(f: F, w: Waters, x: i32, y: i32, z: i32, density: u64)
    requires
        correct64(f),
        finite64(density),
    ensures
        worth64(density) > 0 ==> substance_at(f, w, x, y, z, density) == (None::<Substance>, false),
        worth64(density) <= 0 && y > w.skip_above ==> substance_at(f, w, x, y, z, density) == (
            Some(as_substance(w.picker.picked(y as int).fluid_at(y as int))),
            false,
        ),
        worth64(density) <= 0 && w.picker.picked(y as int).fluid_at(y as int) is Lava ==> substance_at(f, w, x, y, z, density).0
            == Some(Substance::Lava),
        worth64(density) <= 0 ==> as_substance(Fluid::Air) is Air && as_substance(Fluid::Water) is Water && as_substance(Fluid::Lava)
            is Lava,
{
    lemma_zero64(0);
    reveal(correct64);
}

/// Where two cells that are alike meet with lava and water at a height, the
/// block between is held back: the default one, as long as its density is
/// above minus twice their likeness.
pub proof fn law_lava_and_water_are_walled_off<F: Fn(Ask) -> u64>(
    f: F, w: Waters, x: i32, y: i32, z: i32, density: u64, factor: u64, s1: FluidStatus, s2: FluidStatus, n: int, m: int, k: int,
)
    requires
        correct64(f),
        (s1.fluid_at(y as int) is Lava && s2.fluid_at(y as int) is Water) || (s1.fluid_at(y as int) is Water && s2.fluid_at(y as int)
            is Lava),
        is64(density, n, k),
        is64(factor, m, k),
        -0x8_0000_0000_0000 < n < 0x8_0000_0000_0000,
        -0x8_0000_0000_0000 < m < 0x8_0000_0000_0000,
    ensures
        held_back(f, w, x, y, z, density, factor, s1, s2) == (n + 2 * m > 0),
{
    reveal(pressure_between);
    lemma_known64();
    lemma_mul64(f, factor, TWO, m, 2, k, 0);
    let b = reply(f, Ask::Mul64(factor, TWO));
    lemma_add64(f, density, b, n, m * 2, k);
    lemma_zero64(k);
    lemma_order64(f, ZERO, reply(f, Ask::Add64(density, b)), 0, n + m * 2, k);
}

} // verus!
