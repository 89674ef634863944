//! Where ores are placed: origins, repetitions, axes, and the sections that
//! they can touch.

use vstd::prelude::*;
use vstd::arithmetic::power2::{lemma2_to64, pow2};
use crate::arith::{low, reply, Ask, ONE_32};
use crate::bitrandom::{below, single, BitSource};
use crate::carverlaws::law_draws_are_fractions;
use crate::carvers26::{FloatProvider, PI_32};
use crate::df26::wrapped;
use crate::numbers::{
    correct, correct32, is32, is64, lemma_add32, lemma_add64, lemma_bits32, lemma_finer32, lemma_finer64, lemma_int32, lemma_int64,
    lemma_known32, lemma_mul32, lemma_mul64, lemma_order32, lemma_shrink32, lemma_sub32, lemma_sub64, lemma_widen,
};
use crate::oreload::{band, heights_from, reach_of};
use crate::ores26::{
    nearest_single, radius_of, Ground, HeightProvider, IntProvider, Modifier, OreStage, PlacedOre, WorldgenRandom, EIGHT_32,
};
use crate::randomlaws::{law_bounded_draws_lie_below, law_ore_heights, law_sources_are_unsigned, law_wide_draws_are_upper_bits};
use crate::xoroshiro::TRIES;

verus! {

/// An ore reaches a sixteenth of eight more than its size, rounded up.
pub proof fn law_radius_is_a_sixteenth(size: int)
    requires
        0 <= size <= 0xff_fff0,
    ensures
        16 * (radius_of(size) - 1) < size + 8 <= 16 * radius_of(size),
{
    assert(nearest_single(size) == size && nearest_single(size + 8) == size + 8);
}

/// Every height that is drawn lies in the reach of its provider.
pub proof fn law_reach_holds_heights(h: HeightProvider, r: WorldgenRandom)
    requires
        h.wf(),
    ensures
        reach_of(h).0 <= h.drawn(r).0 <= reach_of(h).1,
{
    law_ore_heights(h, r);
}

/// The heights of a placement are those of its first step that draws one.
pub proof fn law_first_height_counts(steps: Seq<Modifier>, i: int, k: int, h: HeightProvider)
    requires
        0 <= i <= k < steps.len(),
        steps[k] == Modifier::HeightRange(h),
        forall|j: int| i <= j < k ==> !(#[trigger] steps[j] is HeightRange),
    ensures
        heights_from(steps, i) == Some(reach_of(h)),
    decreases k - i,
{
    if i < k {
        assert(!(steps[i] is HeightRange));
        law_first_height_counts(steps, i + 1, k, h);
    }
}

/// The sections of a placement hold every block of the box around an origin
/// at one of its heights.
pub proof fn law_sections_hold_the_box(
    stage: OreStage, steps: Seq<Modifier>, size: int, min_y: int, height: int, at: (int, int, int), block: int,
)
    requires
        0 <= size <= 64,
        height >= 16,
        -0x1000_0000 < min_y < 0x1000_0000 && -0x1000_0000 < at.1 < 0x1000_0000,
        match heights_from(steps, 0) {
            Some(r) => r.0 <= at.1 <= r.1,
            None => min_y <= at.1 < min_y + height,
        },
        ({
            let b = stage.frame_at(size, at);
            b.y <= block <= b.y + b.tall
        }),
        min_y <= block < min_y + height / 16 * 16,
    ensures
        ({
            let (lo, hi) = band(steps, size, min_y, height);
            0 <= lo <= (block - min_y) / 16 <= hi < height / 16
        }),
{
    law_radius_is_a_sixteenth(size);
}

/// An ore's axis is centred on its origin: its ends lie an eighth of the size
/// to both sides, by the sine and the cosine of its direction, and up to two
/// blocks below.
pub proof fn law_axes_are_centred<F: Fn(Ask) -> u64>(
    f: F, stage: OreStage, size: int, at: (int, int, int), r: WorldgenRandom, n: int, m: int,
)
    requires
        correct(f),
        0 <= size <= 64,
        -0x10_0000 < at.0 < 0x10_0000 && -0x10_0000 < at.1 < 0x10_0000 && -0x10_0000 < at.2 < 0x10_0000,
        ({
            let turn = reply(f, Ask::Widen(low(f, Ask::Mul32(single(f, r).0, PI_32))));
            is64(reply(f, Ask::Sin64(turn)), n, 12) && is64(reply(f, Ask::Cos64(turn)), m, 12)
        }),
        -0x1000 <= n <= 0x1000 && -0x1000 <= m <= 0x1000,
    ensures
        ({
            let e = stage.axis(f, size, at, r).0;
            &&& is64(e.x0, at.0 * 0x8000 + n * size, 15) && is64(e.x1, at.0 * 0x8000 - n * size, 15)
            &&& is64(e.z0, at.2 * 0x8000 + m * size, 15) && is64(e.z1, at.2 * 0x8000 - m * size, 15)
            &&& exists|a: int, b: int|
                0 <= a <= 2 && 0 <= b <= 2 && #[trigger] is64(e.y0, at.1 - a, 0) && #[trigger] is64(e.y1, at.1 - b, 0)
        }),
{
    lemma2_to64();
    let (u, s) = single(f, r);
    let dir = reply(f, Ask::Widen(low(f, Ask::Mul32(u, PI_32))));
    lemma_int32(f, size as i32);
    let whole = low(f, Ask::FromInt32(size as i32));
    lemma_bits32(EIGHT_32, 8, 0, 20);
    lemma_shrink32(f, whole, EIGHT_32, size, 0, 3);
    let part = low(f, Ask::Div32(whole, EIGHT_32));
    lemma_widen(f, part, size, 3);
    let spread = reply(f, Ask::Widen(part));
    lemma_ends(f, at.0, reply(f, Ask::Sin64(dir)), n, spread, size);
    lemma_ends(f, at.2, reply(f, Ask::Cos64(dir)), m, spread, size);
    law_sources_are_unsigned();
    law_bounded_draws_lie_below(s, 3, TRIES as nat);
    let (a, t) = below(s, 3);
    law_bounded_draws_lie_below(t, 3, TRIES as nat);
    let b = below(t, 3).0;
    lemma_int64(f, (at.1 + a - 2) as i32);
    lemma_int64(f, (at.1 + b - 2) as i32);
    let e = stage.axis(f, size, at, r).0;
    assert(is64(e.y0, at.1 - (2 - a), 0) && is64(e.y1, at.1 - (2 - b), 0));
}

proof fn lemma_ends<F: Fn(Ask) -> u64>(f: F, at: int, wave: u64, n: int, spread: u64, size: int)
    requires
        correct(f),
        -0x10_0000 < at < 0x10_0000,
        is64(wave, n, 12),
        is64(spread, size, 3),
        0 <= size <= 64,
        -0x1000 <= n <= 0x1000,
    ensures
        ({
            let d = reply(f, Ask::Mul64(wave, spread));
            let o = reply(f, Ask::FromInt64(wrapped(at)));
            &&& is64(reply(f, Ask::Add64(o, d)), at * 0x8000 + n * size, 15)
            &&& is64(reply(f, Ask::Sub64(o, d)), at * 0x8000 - n * size, 15)
        }),
{
    lemma2_to64();
    assert(-0x4_0000 <= n * size <= 0x4_0000) by (nonlinear_arith)
        requires
            0 <= size <= 64,
            -0x1000 <= n <= 0x1000,
    ;
    lemma_mul64(f, wave, spread, n, size, 12, 3);
    let d = reply(f, Ask::Mul64(wave, spread));
    lemma_int64(f, wrapped(at));
    let o = reply(f, Ask::FromInt64(wrapped(at)));
    lemma_finer64(o, at, 0, 15);
    lemma_add64(f, o, d, at * 0x8000, n * size, 15);
    lemma_sub64(f, o, d, at * 0x8000, n * size, 15);
}

/// To repeat a placement `n` and then `m` times is to repeat it as often as
/// both; a constant count repeats as often as it says, and one that is not
/// above zero never.
pub proof fn law_repetitions_count<F: Fn(Ask) -> u64>(
    f: F, stage: OreStage, ore: PlacedOre, which: int, index: int, at: (int, int, int), g: Ground, n: nat, m: nat, c: i32,
)
    ensures
        stage.repeated(f, ore, which, index, at, g, n + m) == stage.repeated(
            f, ore, which, index, at, stage.repeated(f, ore, which, index, at, g, n), m),
        stage.repeated(f, ore, which, index, at, g, 1) == stage.modified(f, ore, which, index, at, g),
        stage.repeated(f, ore, which, index, at, g, 0) == g,
        1 <= index <= ore.placement@.len() && ore.placement@[index - 1] == Modifier::Count(IntProvider::Constant(c)) ==> stage.modified(
            f, ore, which, index - 1, at, g) == stage.repeated(f, ore, which, index, at, g, if c > 0 { c as nat } else { 0 }),
    decreases n,
{
    reveal_with_fuel(OreStage::repeated, 2);
    if n > 0 {
        law_repetitions_count(
            f, stage, ore, which, index, at, stage.modified(f, ore, which, index, at, g), (n - 1) as nat, m, c);
        assert((n - 1) as nat + m == (n + m - 1) as nat);
    }
}

/// The rest of a placement at another origin and from another source.
pub open spec fn goes_on<F: Fn(Ask) -> u64>(
    f: F, stage: OreStage, ore: PlacedOre, which: int, index: int, at: (int, int, int), g: Ground, r: WorldgenRandom, x: int, z: int,
) -> bool {
    stage.modified(f, ore, which, index, at, g) == stage.modified(
        f, ore, which, index + 1, (at.0 + x, at.1, at.2 + z), Ground { random: r, ..g })
}

/// A spread in a square moves the origin by up to fifteen blocks along x, and
/// by another draw along z.
pub proof fn law_squares_spread<F: Fn(Ask) -> u64>(
    f: F, stage: OreStage, ore: PlacedOre, which: int, index: int, at: (int, int, int), g: Ground,
)
    requires
        0 <= index < ore.placement@.len(),
        ore.placement@[index] is InSquare,
        -0x7fff_fff0 < at.0 < 0x7fff_fff0 && -0x7fff_fff0 < at.2 < 0x7fff_fff0,
    ensures
        exists|x: int, z: int|
            0 <= x < 16 && 0 <= z < 16 && #[trigger] goes_on(
                f, stage, ore, which, index, at, g, below(below(g.random, 16).1, 16).1, x, z),
{
    law_sources_are_unsigned();
    law_bounded_draws_lie_below(g.random, 16, TRIES as nat);
    let (x, s) = below(g.random, 16);
    law_bounded_draws_lie_below(s, 16, TRIES as nat);
    let (z, t) = below(s, 16);
    assert(goes_on(f, stage, ore, which, index, at, g, t, x as int, z as int));
}

/// A rarity of one in a power of two goes on with that share of draws, and
/// else changes no block.
pub proof fn law_rarity_is_a_share<F: Fn(Ask) -> u64>(
    f: F, stage: OreStage, ore: PlacedOre, which: int, index: int, at: (int, int, int), g: Ground, t: nat,
)
    requires
        correct32(f),
        0 <= index < ore.placement@.len(),
        t <= 23,
        ore.placement@[index] == Modifier::Rarity(pow2(t) as i32),
    ensures
        ({
            let (v, r) = g.random.drawn(24);
            let after = Ground { random: r, ..g };
            stage.modified(f, ore, which, index, at, g) == if v * pow2(t) < 0x100_0000 {
                stage.modified(f, ore, which, index + 1, at, after)
            } else {
                after
            }
        }),
{
    lemma2_to64();
    lemma_known32();
    let v = g.random.drawn(24).0;
    law_wide_draws_are_upper_bits(g.random, 24);
    let long = g.random.inner.long();
    assert(v < 0x100_0000) by {
        vstd::arithmetic::power2::lemma_pow2_adds(24, 40);
        lemma2_to64();
        vstd::arithmetic::power2::lemma2_to64_rest();
    }
    law_draws_are_fractions(f, g.random);
    let p = pow2(t) as int;
    vstd::arithmetic::power2::lemma_pow2_pos(t);
    vstd::arithmetic::power2::lemma_pow2_strictly_increases(t, 24);
    lemma_int32(f, p as i32);
    let whole = low(f, Ask::FromInt32(p as i32));
    lemma_shrink32(f, ONE_32, whole, 1, 0, t);
    let most = low(f, Ask::Div32(ONE_32, whole));
    lemma_finer32(most, 1, t as int, (24 - t) as nat);
    let q = pow2((24 - t) as nat) as int;
    vstd::arithmetic::power2::lemma_pow2_adds(t, (24 - t) as nat);
    lemma_order32(f, single(f, g.random).0, most, v as int, q, 24);
    assert((v < q) == (v * p < 0x100_0000)) by (nonlinear_arith)
        requires
            p * q == 0x100_0000,
            p > 0,
    ;
}

/// Of a draw between two singles: the lower end and the drawn share of the
/// way. A trapezoid adds shares of a longer and of a shorter side, which make
/// up the whole way together and differ by the plateau.
pub proof fn law_floats_are_drawn_between<F: Fn(Ask) -> u64>(
    f: F, min: u32, max: u32, plateau: u32, r: crate::bitrandom::LegacyRandomSource, a: int, b: int, c: int, u: int, v: int, k: int,
)
    requires
        correct32(f),
        0 <= k <= 20,
        is32(min, a, k) && is32(max, b, k) && is32(plateau, c, k),
        -0x40 < a < 0x40 && -0x40 < b < 0x40 && -0x40 < c < 0x40,
        is32(single(f, r).0, u, 8) && is32(single(f, single(f, r).1).0, v, 8),
        0 <= u < 0x100 && 0 <= v < 0x100,
    ensures
        is32(FloatProvider::Uniform { min, max }.drawn(f, r).0, 256 * a + u * (b - a), k + 8),
        is32(
            FloatProvider::Trapezoid { min, max, plateau }.drawn(f, r).0,
            512 * a + u * (b - a + c) + v * (b - a - c),
            k + 9,
        ),
{
    lemma2_to64();
    lemma_known32();
    let d = b - a;
    let range = low(f, Ask::Sub32(max, min));
    lemma_sub32(f, max, min, b, a, k);
    let (s, t) = (single(f, r).0, single(f, single(f, r).1).0);
    assert(-0x1_0000 < u * d < 0x1_0000) by (nonlinear_arith)
        requires
            0 <= u < 0x100,
            -0x80 < d < 0x80,
    ;
    lemma_mul32(f, s, range, u, d, 8, k);
    lemma_finer32(min, a, k, 8);
    lemma_add32(f, low(f, Ask::Mul32(s, range)), min, u * d, a * 256, k + 8);
    lemma_sub32(f, range, plateau, d, c, k);
    let gap = low(f, Ask::Sub32(range, plateau));
    lemma_shrink32(f, gap, crate::df26::TWO_32, d - c, k, 1);
    let start = low(f, Ask::Div32(gap, crate::df26::TWO_32));
    lemma_finer32(range, d, k, 1);
    lemma_sub32(f, range, start, d * 2, d - c, k + 1);
    let end = low(f, Ask::Sub32(range, start));
    assert(-0x1_0000 < u * (d + c) < 0x1_0000 && -0x1_0000 < v * (d - c) < 0x1_0000) by (nonlinear_arith)
        requires
            0 <= u < 0x100,
            0 <= v < 0x100,
            -0xc0 < d + c < 0xc0,
            -0xc0 < d - c < 0xc0,
    ;
    lemma_mul32(f, s, end, u, d + c, 8, k + 1);
    lemma_finer32(min, a, k, 9);
    lemma_add32(f, min, low(f, Ask::Mul32(s, end)), a * 512, u * (d + c), k + 9);
    let first = low(f, Ask::Add32(min, low(f, Ask::Mul32(s, end))));
    lemma_mul32(f, t, start, v, d - c, 8, k + 1);
    lemma_add32(f, first, low(f, Ask::Mul32(t, start)), a * 512 + u * (d + c), v * (d - c), k + 9);
}

} // verus!
