//! Density functions on doubles: maps, islands and the search for the top.

use vstd::prelude::*;
use vstd::arithmetic::power2::{lemma2_to64, lemma2_to64_rest, pow2};
use crate::arith::{holds, low, reply, Ask, EIGHT, MINUS_ONE, ONE, ONE_TWENTY_EIGHT, TWENTY_FOUR, TWO, ZERO};
use crate::density::{
    clamped_map_at, cubed, cut_div, cut_rem, falloff, island_height, island_size, island_value, probe, squeezed, value, DensityFunction,
    FunctionContext, WorldgenState, EIGHTY_32, HUNDRED_32, ISLAND_NOISE, ISLAND_X_32, ISLAND_Z_32, MINUS_HUNDRED_32, NINE_32, THIRTEEN_32,
};
use crate::numbers::{
    correct, correct32, correct64, is32, is64, lemma_abs32, lemma_add32, lemma_add64, lemma_bits32, lemma_bits64, lemma_div64,
    lemma_finer64, lemma_int32, lemma_known64, lemma_mul32, lemma_mul64, lemma_order32, lemma_order64, lemma_shrink64,
    lemma_sub32, lemma_sub64, lemma_widen, number32, worth32,
};

verus! {

/// The squeeze on doubles: half of a value less a twenty-fourth of its cube.
pub proof fn law_squeeze_of_doubles_is_a_cubic<F: Fn(Ask) -> u64>(f: F, v: u64, t: int)
    requires
        correct64(f),
        is64(v, 6 * t, 6),
        -10 <= t <= 10,
    ensures
        is64(squeezed(f, v), 6 * t * 2048 - 9 * t * t * t, 18),
{
    lemma2_to64();
    lemma2_to64_rest();
    lemma_known64();
    let n = 6 * t;
    lemma_finer64(ONE, 1, 0, 6);
    assert(is64(MINUS_ONE, -64, 6)) by {
        let (a, b) = (ONE, MINUS_ONE);
        assert(crate::numbers::exponent64(a) == crate::numbers::exponent64(b) && crate::numbers::fraction64(a)
            == crate::numbers::fraction64(b));
        let p = pow2(1068) as int;
        assert(-(64 * p) == (-64) * p) by (nonlinear_arith);
    }
    lemma_order64(f, v, MINUS_ONE, n, -64, 6);
    lemma_order64(f, ONE, v, 64, n, 6);
    lemma_order64(f, v, ONE, n, 64, 6);
    assert(-0x1000 < n * n < 0x1000 && -0x4_0000 < n * n * n < 0x4_0000) by (nonlinear_arith)
        requires
            -60 <= n <= 60,
    ;
    lemma_shrink64(f, v, TWO, n, 6, 1);
    lemma_mul64(f, v, v, n, n, 6, 6);
    lemma_mul64(f, reply(f, Ask::Mul64(v, v)), v, n * n, n, 12, 6);
    lemma_bits64(TWENTY_FOUR, 24, 0, 48);
    let q = 9 * t * t * t;
    assert(n * n * n == q * 24) by (nonlinear_arith)
        requires
            n == 6 * t,
            q == 9 * t * t * t,
    ;
    assert(-0x4_0000 < q < 0x4_0000);
    lemma_div64(f, cubed(f, v), TWENTY_FOUR, n * n * n, 24, q, 18);
    let half = reply(f, Ask::Div64(v, TWO));
    lemma_finer64(half, n, 7, 11);
    lemma_sub64(f, half, reply(f, Ask::Div64(cubed(f, v), TWENTY_FOUR)), n * 2048, q, 18);
}

/// A map from one range to another: a line between the ends, and flat beyond
/// them.
pub proof fn law_maps_are_lines_between_ends<F: Fn(Ask) -> u64>(
    f: F, v: u64, from: u64, to: u64, from_value: u64, to_value: u64, s: nat, x: int, p: int, a: int, b: int,
)
    requires
        correct64(f),
        s <= 10,
        is64(from, x, 0) && is64(to, x + pow2(s), 0) && is64(v, 16 * x + p * pow2(s), 4),
        is64(from_value, a, 0) && is64(to_value, b, 0),
        -0x1000 < x < 0x1000 && -0x1000 < a < 0x1000 && -0x1000 < b < 0x1000 && -0x1000 < p < 0x1000,
    ensures
        p <= 0 ==> clamped_map_at(f, v, from, to, from_value, to_value) == from_value,
        p >= 16 ==> clamped_map_at(f, v, from, to, from_value, to_value) == to_value,
        0 < p < 16 ==> is64(clamped_map_at(f, v, from, to, from_value, to_value), (16 - p) * a + p * b, 4),
{
    lemma2_to64();
    let w = pow2(s) as int;
    vstd::arithmetic::power2::lemma_pow2_pos(s);
    if s < 10 {
        vstd::arithmetic::power2::lemma_pow2_strictly_increases(s, 10);
    }
    lemma_finer64(from, x, 0, 4);
    lemma_finer64(to, x + w, 0, 4);
    let n = 16 * x + p * w;
    lemma_order64(f, v, from, n, x * 16, 4);
    lemma_order64(f, to, v, (x + w) * 16, n, 4);
    assert((p * w <= 0) == (p <= 0) && (16 * w <= p * w) == (16 <= p)) by (nonlinear_arith)
        requires
            w > 0,
    ;
    if 0 < p < 16 {
        assert(0 <= p * w <= 0x4000) by (nonlinear_arith)
            requires
                0 < p < 16,
                0 < w <= 0x400,
        ;
        lemma_sub64(f, v, from, n, x * 16, 4);
        lemma_sub64(f, to, from, x + w, x, 0);
        let (run, width) = (reply(f, Ask::Sub64(v, from)), reply(f, Ask::Sub64(to, from)));
        lemma_div64(f, run, width, p * w, w, p, 4);
        let t = reply(f, Ask::Div64(run, width));
        lemma_sub64(f, to_value, from_value, b, a, 0);
        let d = reply(f, Ask::Sub64(to_value, from_value));
        assert(-0x4_0000 < p * (b - a) < 0x4_0000 && a * 16 + p * (b - a) == (16 - p) * a + p * b) by (nonlinear_arith)
            requires
                0 < p < 16,
                -0x2000 < b - a < 0x2000,
        ;
        lemma_mul64(f, t, d, p, b - a, 4, 0);
        lemma_finer64(from_value, a, 0, 4);
        lemma_add64(f, from_value, reply(f, Ask::Mul64(t, d)), a * 16, p * (b - a), 4);
    }
}

/// An island falls off from its middle: a hundred less its size for each
/// block of the way, but no higher than eighty and no lower than minus a
/// hundred.
pub proof fn law_islands_fall_off<F: Fn(Ask) -> u64>(f: F, squared: u32, size: u32, d: int, s: int)
    requires
        correct32(f),
        is32(low(f, Ask::Sqrt32(squared)), d, 0),
        is32(size, s, 0),
        0 <= d < 0x1000 && 0 <= s < 0x100,
    ensures
        ({
            let v = 100 - d * s;
            is32(falloff(f, squared, size), if v < -100 { -100 } else if v > 80 { 80 } else { v }, 0)
        }),
{
    lemma_ends();
    let way = low(f, Ask::Sqrt32(squared));
    assert(0 <= d * s <= 0x10_0000) by (nonlinear_arith)
        requires
            0 <= d < 0x1000,
            0 <= s < 0x100,
    ;
    lemma_mul32(f, way, size, d, s, 0, 0);
    lemma_sub32(f, HUNDRED_32, low(f, Ask::Mul32(way, size)), 100, d * s, 0);
    let v = low(f, Ask::Sub32(HUNDRED_32, low(f, Ask::Mul32(way, size))));
    lemma_order32(f, v, MINUS_HUNDRED_32, 100 - d * s, -100, 0);
    lemma_order32(f, EIGHTY_32, v, 80, 100 - d * s, 0);
}

proof fn lemma_ends()
    ensures
        is32(HUNDRED_32, 100, 0),
        is32(EIGHTY_32, 80, 0),
        is32(MINUS_HUNDRED_32, -100, 0),
{
    lemma2_to64();
    lemma_bits32(HUNDRED_32, 100, 0, 17);
    lemma_bits32(EIGHTY_32, 80, 0, 17);
    let (a, b) = (HUNDRED_32, MINUS_HUNDRED_32);
    assert(crate::numbers::exponent32(a) == crate::numbers::exponent32(b) && crate::numbers::fraction32(a)
        == crate::numbers::fraction32(b));
    let p = pow2(149) as int;
    assert(-(100 * p) == (-100) * p) by (nonlinear_arith);
}

/// Remainders of whole singles that are not below zero are exact.
pub open spec fn remainders<F: Fn(Ask) -> u64>(f: F) -> bool {
    forall|a: u32, b: u32, n: int, m: int|
        0 <= n < 0x100_0000 && 0 < m < 0x100_0000 && is32(a, n, 0) && is32(b, m, 0) ==> #[trigger] whole_rest(f, a, b, n, m)
}

pub open spec fn whole_rest<F: Fn(Ask) -> u64>(f: F, a: u32, b: u32, n: int, m: int) -> bool {
    is32(low(f, Ask::Rem32(a, b)), n % m, 0)
}

/// The size of an island runs from nine to twenty-one by its chunk.
pub proof fn law_island_sizes<F: Fn(Ask) -> u64>(f: F, x: i32, z: i32)
    requires
        correct32(f),
        remainders(f),
        -0x800 < x < 0x800 && -0x800 < z < 0x800,
    ensures
        ({
            let (a, b) = (if x < 0 { -x } else { x as int }, if z < 0 { -z } else { z as int });
            is32(island_size(f, x, z), (a * 3439 + b * 147) % 13 + 9, 0)
        }),
{
    lemma2_to64();
    let (a, b) = (if x < 0 { -x } else { x as int }, if z < 0 { -z } else { z as int });
    lemma_int32(f, x);
    lemma_int32(f, z);
    let (u, v) = (low(f, Ask::FromInt32(x)), low(f, Ask::FromInt32(z)));
    lemma_abs32(f, u, x as int, 0);
    lemma_abs32(f, v, z as int, 0);
    lemma_bits32(ISLAND_X_32, 3439, 0, 12);
    lemma_bits32(ISLAND_Z_32, 147, 0, 16);
    lemma_bits32(THIRTEEN_32, 13, 0, 20);
    lemma_bits32(NINE_32, 9, 0, 20);
    lemma_mul32(f, low(f, Ask::Abs32(u)), ISLAND_X_32, a, 3439, 0, 0);
    lemma_mul32(f, low(f, Ask::Abs32(v)), ISLAND_Z_32, b, 147, 0, 0);
    let (p, q) = (low(f, Ask::Mul32(low(f, Ask::Abs32(u)), ISLAND_X_32)), low(f, Ask::Mul32(low(f, Ask::Abs32(v)), ISLAND_Z_32)));
    lemma_add32(f, p, q, a * 3439, b * 147, 0);
    let n = a * 3439 + b * 147;
    let sum = low(f, Ask::Add32(p, q));
    assert(whole_rest(f, sum, THIRTEEN_32, n, 13));
    lemma_add32(f, low(f, Ask::Rem32(sum, THIRTEEN_32)), NINE_32, n % 13, 9, 0);
}

/// Within some sixty sections of the centre there is only the centre's own
/// island.
pub proof fn law_centre_stands_alone<F: Fn(Ask) -> u64>(f: F, seed: i64, sx: int, sz: int, k: nat)
    requires
        -66 <= sx <= 66 && -66 <= sz <= 66,
        k <= 625,
    ensures
        island_height(f, seed, sx, sz, k) == island_height(f, seed, sx, sz, 0),
    decreases k,
{
    if k > 0 {
        law_centre_stands_alone(f, seed, sx, sz, (k - 1) as nat);
        let xo = (k - 1) / 25 - 12;
        let zo = (k - 1) % 25 - 12;
        let x = cut_div(sx, 2) + xo;
        let z = cut_div(sz, 2) + zo;
        assert(x * x <= 2025 && z * z <= 2025) by (nonlinear_arith)
            requires
                -45 <= x <= 45,
                -45 <= z <= 45,
        ;
    }
}

/// The falloff of the island in the `m`-th chunk around a section.
pub open spec fn island_there<F: Fn(Ask) -> u64>(f: F, sx: int, sz: int, m: nat) -> u32 {
    let xo = (m - 1) / 25 - 12;
    let zo = (m - 1) % 25 - 12;
    let xd = low(f, Ask::FromInt32((cut_rem(sx, 2) - xo * 2) as i32));
    let zd = low(f, Ask::FromInt32((cut_rem(sz, 2) - zo * 2) as i32));
    falloff(
        f,
        low(f, Ask::Add32(low(f, Ask::Mul32(xd, xd)), low(f, Ask::Mul32(zd, zd)))),
        island_size(f, (cut_div(sx, 2) + xo) as i32, (cut_div(sz, 2) + zo) as i32),
    )
}

/// There is an island in the `m`-th chunk: it lies more than 64 chunks from
/// the centre, and its noise is low.
pub open spec fn has_island<F: Fn(Ask) -> u64>(f: F, seed: i64, sx: int, sz: int, m: nat) -> bool {
    let x = cut_div(sx, 2) + (m - 1) / 25 - 12;
    let z = cut_div(sz, 2) + (m - 1) % 25 - 12;
    x * x + z * z > 4096 && holds(f, Ask::Less64(reply(f, Ask::Island { seed, cx: x as i32, cz: z as i32 }), ISLAND_NOISE))
}

/// Every island around counts: the height is at least that of the centre's
/// island and of each island that is there, and it is one of them.
pub proof fn law_highest_island_counts<F: Fn(Ask) -> u64>(f: F, seed: i64, sx: int, sz: int, k: nat, m: nat)
    requires
        correct32(f),
        number32(island_height(f, seed, sx, sz, 0)),
        forall|j: nat| 0 < j <= k ==> number32(#[trigger] island_there(f, sx, sz, j)),
        m <= k,
    ensures
        number32(island_height(f, seed, sx, sz, k)),
        worth32(island_height(f, seed, sx, sz, m)) <= worth32(island_height(f, seed, sx, sz, k)),
        0 < m && has_island(f, seed, sx, sz, m) ==> worth32(island_there(f, sx, sz, m)) <= worth32(island_height(f, seed, sx, sz, k)),
        island_height(f, seed, sx, sz, k) == island_height(f, seed, sx, sz, 0) || exists|j: nat|
            0 < j <= k && has_island(f, seed, sx, sz, j) && #[trigger] island_there(f, sx, sz, j) == island_height(f, seed, sx, sz, k),
    decreases k,
{
    if k > 0 {
        let before = island_height(f, seed, sx, sz, (k - 1) as nat);
        law_highest_island_counts(f, seed, sx, sz, (k - 1) as nat, if m == k { 0 } else { m });
        let here = island_there(f, sx, sz, k);
        assert(number32(here));
        assert(holds(f, Ask::Less32(before, here)) == (worth32(before) < worth32(here))) by {
            reveal(correct32);
        }
        let now = island_height(f, seed, sx, sz, k);
        assert(now == if has_island(f, seed, sx, sz, k) && holds(f, Ask::Less32(before, here)) { here } else { before });
        if now == before && before != island_height(f, seed, sx, sz, 0) {
            let j = choose|j: nat|
                0 < j <= k - 1 && has_island(f, seed, sx, sz, j) && #[trigger] island_there(f, sx, sz, j) == before;
            assert(island_there(f, sx, sz, j) == now);
        }
    }
}

/// An island's density is its height less eight, over 128.
pub proof fn law_islands_are_dense_by_height<F: Fn(Ask) -> u64>(f: F, seed: i64, x: i32, z: i32, h: int)
    requires
        correct(f),
        is32(island_height(f, seed, cut_div(x as int, 8), cut_div(z as int, 8), 625), h, 0),
        -0x1000 < h < 0x1000,
    ensures
        is64(island_value(f, seed, x, z), h - 8, 7),
{
    lemma2_to64();
    lemma2_to64_rest();
    let height = island_height(f, seed, cut_div(x as int, 8), cut_div(z as int, 8), 625);
    lemma_widen(f, height, h, 0);
    let w = reply(f, Ask::Widen(height));
    lemma_bits64(EIGHT, 8, 0, 49);
    lemma_bits64(ONE_TWENTY_EIGHT, 128, 0, 45);
    lemma_sub64(f, w, EIGHT, h, 8, 0);
    lemma_shrink64(f, reply(f, Ask::Sub64(w, EIGHT)), ONE_TWENTY_EIGHT, h - 8, 0, 7);
}

/// A height at which a density is above zero.
pub open spec fn solid_at<F: Fn(Ask) -> u64>(f: F, density: DensityFunction, c: FunctionContext, st: WorldgenState, y: int) -> bool {
    holds(f, Ask::Less64(ZERO, value(f, density, FunctionContext { block_y: y as i32, ..c }, st)))
}

/// The search for the top goes down by cells: it ends at the highest of its
/// heights at which the density is above zero, or at the lower end where
/// there is none.
pub proof fn law_probes_end_at_the_top<F: Fn(Ask) -> u64>(
    f: F, density: DensityFunction, c: FunctionContext, st: WorldgenState, y: int, lower: int, cell: int, j: int,
)
    requires
        cell > 0,
        0 <= j,
    ensures
        ({
            let r = probe(f, density, c, st, y, lower, cell);
            &&& r == lower || (lower < r <= y && solid_at(f, density, c, st, r) && (y - r) % cell == 0)
            &&& y - j * cell > lower && y - j * cell > r ==> !solid_at(f, density, c, st, y - j * cell)
        }),
    decreases (if y > lower { y - lower } else { 0 }),
{
    if y > lower && !solid_at(f, density, c, st, y) && y - cell >= lower {
        law_probes_end_at_the_top(f, density, c, st, y - cell, lower, cell, if j > 0 { j - 1 } else { 0 });
        let r = probe(f, density, c, st, y - cell, lower, cell);
        assert(j > 0 ==> (y - cell) - (j - 1) * cell == y - j * cell) by (nonlinear_arith);
        assert(j == 0 ==> j * cell == 0) by (nonlinear_arith);
        vstd::arithmetic::div_mod::lemma_mod_add_multiples_vanish((y - cell) - r, cell);
        assert(y - r == ((y - cell) - r) + cell);
    } else {
        assert(j * cell >= 0 && (j > 0 ==> j * cell >= cell)) by (nonlinear_arith)
            requires
                cell > 0,
                j >= 0,
        ;
        assert(0int % cell == 0) by {
            vstd::arithmetic::div_mod::lemma_small_mod(0, cell as nat);
        }
    }
}

} // verus!
