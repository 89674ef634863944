//! How noises and canyons are made of what is drawn.

use vstd::prelude::*;
use vstd::arithmetic::power2::{lemma2_to64, lemma2_to64_rest, pow2};
use crate::arith::{low, reply, Ask, HALF_32, ONE_32, QUARTER_32};
use crate::bitrandom::{below, single, BitSource, LegacyRandomSource, DOUBLE_UNIT};
use crate::carvers26::{block_drawn, CanyonCarver, CaveCarver, ChunkPos, THREE_QUARTERS_32};
use crate::df26::{wrapped, TWO_32};
use crate::numbers::{
    correct, correct32, correct64, finite32, is32, is64, lemma_abs32, lemma_add32, lemma_bits32, lemma_bits64, lemma_exact64, lemma_finer32, lemma_int32,
    lemma_int64, lemma_known32, lemma_mul32, lemma_mul64, lemma_shrink32, lemma_sub32, lemma_widen, lemma_zero32, number32, one32, one64, worth32, worth64,
};
use crate::ores26::WorldgenRandom;
use crate::perlin26::{offset_of, shuffled, swapped, TWO_FIFTY_SIX};
use crate::pressurelaws::law_wide_bounded_draws_lie_below;
use crate::randomlaws::{law_bounded_draws_lie_below, law_sources_are_unsigned, law_wide_draws_are_upper_bits};
use crate::xoroshiro::{drawn, XoroshiroRandomSource, TRIES};

verus! {

/// Whole numbers up to 53 bits are doubles.
pub open spec fn counts_longs<F: Fn(Ask) -> u64>(f: F) -> bool {
    forall|i: i64| -0x20_0000_0000_0000 < i < 0x20_0000_0000_0000 ==> is64(#[trigger] reply(f, Ask::FromLong64(i)), i as int, 0)
}

/// An offset is the upper 53 bits of a draw, over two to the power of 45: it
/// lies from zero to below 256.
pub proof fn law_offsets_are_even<F: Fn(Ask) -> u64>(f: F, r: XoroshiroRandomSource)
    requires
        correct64(f),
        counts_longs(f),
    ensures
        is64(offset_of(f, r), r.long() as int / 2048, 45),
        0 <= r.long() as int / 2048 < 256 * pow2(45),
{
    lemma2_to64();
    lemma2_to64_rest();
    let n = r.long() as int / 2048;
    let v = reply(f, Ask::FromLong64(n as i64));
    lemma_bits64(DOUBLE_UNIT, 1, 53, 52);
    lemma_mul64(f, v, DOUBLE_UNIT, n, 1, 0, 53);
    let u = reply(f, Ask::Mul64(v, DOUBLE_UNIT));
    let all = TWO_FIFTY_SIX;
    lemma_bits64(all, 256, 0, 44);
    let (p, q, w) = (pow2(1021) as int, pow2(1029) as int, one64());
    vstd::arithmetic::power2::lemma_pow2_adds(8, 1021);
    assert((n * p) * (256 * w) == (n * (256 * p)) * w) by (nonlinear_arith);
    assert(crate::numbers::rounded64(offset_of(f, r), worth64(u) * worth64(all), w)) by {
        reveal(correct64);
    }
    lemma_exact64(offset_of(f, r), worth64(u) * worth64(all), w, n, 1029);
}

/// A double is drawn from 26 and then 27 bits, over two to the power of 53.
pub proof fn law_doubles_are_even<F: Fn(Ask) -> u64>(f: F, r: WorldgenRandom)
    requires
        correct64(f),
        counts_longs(f),
    ensures
        ({
            let (a, s) = r.drawn(26);
            let (b, t) = s.drawn(27);
            &&& is64(r.double(f).0, a * 0x800_0000 + b, 53)
            &&& r.double(f).1 == t
            &&& 0 <= a < 0x400_0000 && 0 <= b < 0x800_0000
        }),
{
    lemma2_to64();
    lemma2_to64_rest();
    let (a, s) = r.drawn(26);
    let b = s.drawn(27).0;
    law_wide_draws_are_upper_bits(r, 26);
    law_wide_draws_are_upper_bits(s, 27);
    assert((64 - 26u32) as nat == 38 && (64 - 27u32) as nat == 37);
    assert(a * 0x40_0000_0000 <= r.inner.long() && b * 0x20_0000_0000 <= s.inner.long());
    let n = a * 0x800_0000 + b;
    let v = reply(f, Ask::FromLong64(n as i64));
    lemma_bits64(DOUBLE_UNIT, 1, 53, 52);
    lemma_mul64(f, v, DOUBLE_UNIT, n, 1, 0, 53);
}

/// A shuffle keeps the places before its start, takes the next from one drawn
/// among the rest, and goes on with what is left: every value stays, as often
/// as it was there.
pub proof fn law_shuffles_draw_from_the_rest(p: Seq<u8>, r: XoroshiroRandomSource, i: int, k: int)
    requires
        p.len() == 256,
        0 <= i <= 256,
        0 <= k < 256,
    ensures
        shuffled(p, r, i).0.len() == 256,
        shuffled(p, r, i).0.to_multiset() == p.to_multiset(),
        k < i ==> shuffled(p, r, i).0[k] == p[k],
        i < 256 ==> 0 <= drawn(r, 256 - i, TRIES as nat).0 < 256 - i,
        k == i ==> shuffled(p, r, i).0[i] == p[i + drawn(r, 256 - i, TRIES as nat).0],
    decreases 256 - i,
{
    if i < 256 {
        law_wide_bounded_draws_lie_below(r, 256 - i, TRIES as nat);
        let (d, s) = drawn(r, 256 - i, TRIES as nat);
        let q = swapped(p, i, i + d);
        law_shuffles_draw_from_the_rest(q, s, i + 1, k);
        lemma_swap_keeps(p, i, i + d);
    }
}

proof fn lemma_swap_keeps(p: Seq<u8>, i: int, j: int)
    requires
        0 <= i < p.len(),
        0 <= j < p.len(),
    ensures
        swapped(p, i, j).to_multiset() == p.to_multiset(),
{
    broadcast use vstd::seq_lib::group_to_multiset_ensures;

    let a = p.update(i, p[j]);
    assert(a.to_multiset() =~= p.to_multiset().insert(p[j]).remove(p[i]));
    let b = a.update(j, p[i]);
    assert(b.to_multiset() =~= a.to_multiset().insert(p[i]).remove(a[j]));
    assert(a[j] == p[j]);
    assert(p.to_multiset().count(p[i]) > 0 && p.to_multiset().count(p[j]) > 0);
    assert(b.to_multiset() =~= p.to_multiset());
}

/// A number is one of the sixteen blocks from a corner on.
#[verifier::opaque]
pub open spec fn stands_in(b: u64, corner: int) -> bool {
    exists|x: int| corner <= x < corner + 16 && #[trigger] is64(b, x, 0)
}

/// A cave starts at a block of its chunk, at a height that was drawn.
pub proof fn law_caves_start_in_their_chunk<F: Fn(Ask) -> u64>(f: F, c: CaveCarver, source: ChunkPos, r: LegacyRandomSource)
    requires
        correct64(f),
        c.y.wf(),
        -0x7fff_fff0 < source.min_x < 0x7fff_fff0 && -0x7fff_fff0 < source.min_z < 0x7fff_fff0,
    ensures
        ({
            let s = c.started(f, source, r).0;
            stands_in(s.x, source.min_x as int) && stands_in(s.z, source.min_z as int)
        }),
{
    lemma_block(f, source.min_x as int, r);
    let (_, a) = block_drawn(f, source.min_x as int, r);
    let (_, b) = c.y.drawn(a);
    lemma_block(f, source.min_z as int, b);
    let s = c.started(f, source, r).0;
    assert(s.x == block_drawn(f, source.min_x as int, r).0);
    assert(s.z == block_drawn(f, source.min_z as int, b).0);
}

proof fn lemma_block<F: Fn(Ask) -> u64>(f: F, corner: int, r: LegacyRandomSource)
    requires
        correct64(f),
        -0x7fff_fff0 < corner < 0x7fff_fff0,
    ensures
        stands_in(block_drawn(f, corner, r).0, corner),
{
    reveal(stands_in);
    law_sources_are_unsigned();
    law_bounded_draws_lie_below(r, 16, TRIES as nat);
    let v = below(r, 16).0;
    lemma_int64(f, wrapped(corner + v));
    assert(is64(block_drawn(f, corner, r).0, corner + v, 0));
}

/// A canyon is tallest midway: the factor of its centre counts by how near a
/// step is to the middle of the way, that of its ends everywhere, and a
/// quarter of the height is left to chance.
pub proof fn law_canyons_are_tallest_midway<F: Fn(Ask) -> u64>(
    f: F, c: CanyonCarver, r: LegacyRandomSource, tall: u64, t: nat, step: int, a: int, b: int, h: int, u: int,
)
    requires
        correct(f),
        1 <= t <= 8,
        0 <= step <= pow2(t),
        is32(c.shape.vertical_radius_default_factor, a, 4) && is32(c.shape.vertical_radius_center_factor, b, 4),
        -64 < a < 64 && -64 < b < 64,
        is64(tall, h, 4),
        -0x400 < h < 0x400,
        is32(single(f, r).0, u, 8),
        0 <= u < 0x100,
    ensures
        ({
            let way = pow2(t) as int;
            let near = if 2 * step <= way { 2 * step } else { 2 * (way - step) };
            is64(c.tall_at(f, r, tall, way, step).0, (a * way + b * near) * h * (768 + u), (t + 18) as int)
        }),
{
    lemma2_to64();
    lemma_known32();
    let way = pow2(t) as int;
    let near = if 2 * step <= way { 2 * step } else { 2 * (way - step) };
    if t < 8 {
        vstd::arithmetic::power2::lemma_pow2_strictly_increases(t, 8);
    }
    vstd::arithmetic::power2::lemma_pow2_unfold(t);
    let half = pow2((t - 1) as nat) as int;
    lemma_int32(f, step as i32);
    lemma_int32(f, way as i32);
    let (s, w) = (low(f, Ask::FromInt32(step as i32)), low(f, Ask::FromInt32(way as i32)));
    lemma_shrink32(f, s, w, step, 0, t);
    let part = low(f, Ask::Div32(s, w));
    lemma_finer32(HALF_32, 1, 1, (t - 1) as nat);
    lemma_sub32(f, HALF_32, part, half, step, t as int);
    let gap = low(f, Ask::Sub32(HALF_32, part));
    lemma_abs32(f, gap, half - step, t as int);
    let off = low(f, Ask::Abs32(gap));
    let o = if half - step < 0 { step - half } else { half - step };
    lemma_mul32(f, off, TWO_32, o, 2, t as int, 0);
    lemma_finer32(ONE_32, 1, 0, t);
    lemma_sub32(f, ONE_32, low(f, Ask::Mul32(off, TWO_32)), way, o * 2, t as int);
    let multiplier = low(f, Ask::Sub32(ONE_32, low(f, Ask::Mul32(off, TWO_32))));
    assert(is32(multiplier, near, t as int));
    assert(-0x8000 < b * near < 0x8000 && -0x8000 < a * way < 0x8000) by (nonlinear_arith)
        requires
            -64 < a < 64,
            -64 < b < 64,
            0 <= near <= 256,
            0 <= way <= 256,
    ;
    let (d, e) = (c.shape.vertical_radius_default_factor, c.shape.vertical_radius_center_factor);
    lemma_mul32(f, e, multiplier, b, near, 4, t as int);
    lemma_finer32(d, a, 4, t);
    lemma_add32(f, d, low(f, Ask::Mul32(e, multiplier)), a * way, b * near, (4 + t) as int);
    let factor = low(f, Ask::Add32(d, low(f, Ask::Mul32(e, multiplier))));
    let n = a * way + b * near;
    let v = single(f, r).0;
    lemma_bits32(QUARTER_32, 1, 2, 23);
    lemma_bits32(THREE_QUARTERS_32, 3, 2, 22);
    lemma_mul32(f, v, QUARTER_32, u, 1, 8, 2);
    lemma_finer32(THREE_QUARTERS_32, 3, 2, 8);
    lemma_add32(f, low(f, Ask::Mul32(v, QUARTER_32)), THREE_QUARTERS_32, u, 768, 10);
    let vary = low(f, Ask::Add32(low(f, Ask::Mul32(v, QUARTER_32)), THREE_QUARTERS_32));
    lemma_widen(f, factor, n, (4 + t) as int);
    lemma_widen(f, vary, u + 768, 10);
    let g = n * h;
    assert(-0x1000_0000 < g < 0x1000_0000) by (nonlinear_arith)
        requires
            g == n * h,
            -0x1_0000 < n < 0x1_0000,
            -0x400 < h < 0x400,
    ;
    lemma_mul64(f, reply(f, Ask::Widen(factor)), tall, n, h, (4 + t) as int, 4);
    assert(-0x400_0000_0000 < g * (u + 768) < 0x400_0000_0000) by (nonlinear_arith)
        requires
            -0x1000_0000 < g < 0x1000_0000,
            0 <= u < 0x100,
    ;
    lemma_mul64(f, reply(f, Ask::Mul64(reply(f, Ask::Widen(factor)), tall)), reply(f, Ask::Widen(vary)), g, u + 768, (8 + t) as int, 10);
}

/// The rows of a canyon are from one to four times as wide as narrow ones;
/// the first is drawn anew.
pub proof fn law_canyon_rows_widen<F: Fn(Ask) -> u64>(f: F, c: CanyonCarver, r: LegacyRandomSource, n: nat, i: int)
    requires
        correct32(f),
        c.shape.width_smoothness >= 1,
        0 <= i < n,
        fractions(f),
    ensures
        ({
            let w = c.widths(f, r, n);
            &&& w.0.len() == n
            &&& number32(w.0[i]) && one32() <= worth32(w.0[i]) <= 4 * one32()
        }),
    decreases n,
{
    lemma_width(f, c, r, n);
    if i < n - 1 {
        law_canyon_rows_widen(f, c, r, (n - 1) as nat, i);
        lemma_width(f, c, r, (n - 1) as nat);
    }
}

/// What is drawn as a single lies from zero to one.
pub open spec fn fractions<F: Fn(Ask) -> u64>(f: F) -> bool {
    forall|s: LegacyRandomSource|
        number32((#[trigger] single(f, s)).0) && finite32(single(f, s).0) && 0 <= worth32(single(f, s).0) <= one32()
}

proof fn lemma_width<F: Fn(Ask) -> u64>(f: F, c: CanyonCarver, r: LegacyRandomSource, n: nat)
    requires
        correct32(f),
        fractions(f),
    ensures
        ({
            let w = c.widths(f, r, n);
            &&& w.0.len() == n
            &&& finite32(w.1) && one32() <= worth32(w.1) <= 2 * one32()
            &&& n > 0 ==> number32(w.0[n - 1]) && one32() <= worth32(w.0[n - 1]) <= 4 * one32()
        }),
    decreases n,
{
    lemma2_to64();
    lemma_known32();
    let u = one32();
    vstd::arithmetic::power2::lemma_pow2_pos(149);
    assert(worth32(ONE_32) == u) by {
        assert(is32(ONE_32, 1, 0));
    }
    if n > 0 {
        let (before, width, s) = c.widths(f, r, (n - 1) as nat);
        lemma_width(f, c, r, (n - 1) as nat);
        let (d, t) = if n == 1 { (0i32, s) } else { below(s, c.shape.width_smoothness) };
        let w = c.widths(f, r, n).1;
        if d == 0 {
            let (a, p) = single(f, t);
            let (b, _) = single(f, p);
            assert(number32(single(f, p).0));
            lemma_one_more(f, a, b);
        }
        lemma_squared_width(f, w);
    }
}

proof fn lemma_small_is_finite(b: u32)
    requires
        number32(b),
        0 <= worth32(b) <= 2 * one32(),
    ensures
        finite32(b),
{
    lemma2_to64();
    vstd::arithmetic::power2::lemma_pow2_strictly_increases(150, 254);
    vstd::arithmetic::power2::lemma_pow2_unfold(150);
    vstd::arithmetic::power2::lemma_pow2_pos(254);
}

proof fn lemma_one_more<F: Fn(Ask) -> u64>(f: F, a: u32, b: u32)
    requires
        correct32(f),
        finite32(a) && finite32(b),
        0 <= worth32(a) <= one32(),
        0 <= worth32(b) <= one32(),
    ensures
        ({
            let w = low(f, Ask::Add32(ONE_32, low(f, Ask::Mul32(a, b))));
            finite32(w) && one32() <= worth32(w) <= 2 * one32()
        }),
{
    reveal(correct32);
    lemma_known32();
    lemma_zero32(0);
    let u = one32();
    vstd::arithmetic::power2::lemma_pow2_pos(149);
    let m = low(f, Ask::Mul32(a, b));
    let (x, y) = (worth32(a), worth32(b));
    assert(0 * u <= x * y <= u * u) by (nonlinear_arith)
        requires
            0 <= x <= u,
            0 <= y <= u,
    ;
    assert(worth32(ONE_32) == u) by {
        assert(is32(ONE_32, 1, 0));
    }
    assert(worth32(TWO_32) == 2 * u) by {
        assert(is32(TWO_32, 2, 0));
    }
    assert(worth32(0) == 0);
    assert(0 <= worth32(m) <= u);
    lemma_small_is_finite(m);
    let w = low(f, Ask::Add32(ONE_32, m));
    assert(u <= worth32(w) <= 2 * u);
    lemma_small_is_finite(w);
}

proof fn lemma_squared_width<F: Fn(Ask) -> u64>(f: F, w: u32)
    requires
        correct32(f),
        finite32(w),
        one32() <= worth32(w) <= 2 * one32(),
    ensures
        ({
            let q = low(f, Ask::Mul32(w, w));
            number32(q) && one32() <= worth32(q) <= 4 * one32()
        }),
{
    reveal(correct32);
    lemma2_to64();
    lemma_known32();
    let u = one32();
    vstd::arithmetic::power2::lemma_pow2_pos(149);
    let x = worth32(w);
    assert(u * u <= x * x <= (4 * u) * u) by (nonlinear_arith)
        requires
            u <= x <= 2 * u,
            u > 0,
    ;
    assert(worth32(ONE_32) == u) by {
        assert(is32(ONE_32, 1, 0));
    }
    lemma_bits32(0x4080_0000, 4, 0, 21);
    assert(worth32(0x4080_0000) == 4 * u);
}

} // verus!
