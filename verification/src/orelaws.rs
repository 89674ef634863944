//! What ore placement does: where an ore goes, and what its balls are.

use vstd::prelude::*;
use vstd::arithmetic::power2::{lemma2_to64, lemma2_to64_rest, pow2};
use crate::arith::{holds, lerped64, low, reply, Ask, HALF, MINUS_ONE, ONE, ONE_32, TWO, ZERO};
use crate::beard26::SIXTEEN;
use crate::bitrandom::single;
use crate::carverlaws::{lemma_floor_of, lemma_out, lemma_radius, lemma_small_power, radii};
use crate::carvers26::{table_sin, PI_32};
use crate::numbers::{
    correct, correct32, correct64, is32, is64, lemma_add32, lemma_add64, lemma_bits64, lemma_finer32, lemma_finer64, lemma_int32,
    lemma_int64, lemma_known32, lemma_known64, lemma_mul64, lemma_order64, lemma_shrink32, lemma_shrink64, lemma_sub64, lemma_widen,
    lemma_zero32, lemma_zero64, number32, one32, worth32,
};
use crate::ores26::{
    away, ball_drawn, ball_first, ball_last, passes, plus_square, settled_pair, Around, Ball, Ends, Frame, Ground, OreFeature, OreStage,
    Pile, Target, WorldgenRandom,
};

verus! {

/// One block away along one axis.
pub open spec fn one_away(d: (int, int, int)) -> bool {
    let size = |v: int| if v < 0 { -v } else { v };
    size(d.0) + size(d.1) + size(d.2) == 1
}

/// A block touches air exactly where one of the six blocks next to it is
/// air, or not known.
pub proof fn law_neighbours_expose(stage: OreStage, g: Around, x: int, y: int, z: int)
    ensures
        stage.exposed(g, x, y, z) <==> exists|d: (int, int, int)|
            #![trigger stage.open_at(g, x + d.0, y + d.1, z + d.2)]
            one_away(d) && stage.open_at(g, x + d.0, y + d.1, z + d.2),
{
    if stage.exposed(g, x, y, z) {
        let (a, b, c, d, e, h) = (
            (0int, -1int, 0int), (0int, 1int, 0int), (0int, 0int, -1int), (0int, 0int, 1int), (-1int, 0int, 0int), (1int, 0int, 0int));
        assert(one_away(a) && one_away(b) && one_away(c) && one_away(d) && one_away(e) && one_away(h));
        if stage.open_at(g, x, y - 1, z) {
            assert(stage.open_at(g, x + a.0, y + a.1, z + a.2));
        } else if stage.open_at(g, x, y + 1, z) {
            assert(stage.open_at(g, x + b.0, y + b.1, z + b.2));
        } else if stage.open_at(g, x, y, z - 1) {
            assert(stage.open_at(g, x + c.0, y + c.1, z + c.2));
        } else if stage.open_at(g, x, y, z + 1) {
            assert(stage.open_at(g, x + d.0, y + d.1, z + d.2));
        } else if stage.open_at(g, x - 1, y, z) {
            assert(stage.open_at(g, x + e.0, y + e.1, z + e.2));
        } else {
            assert(stage.open_at(g, x + h.0, y + h.1, z + h.2));
        }
    }
}

/// A block that passes a target's rule and touches no air gets the ore,
/// whatever the chance of discarding it. One that does not pass never does.
pub proof fn law_buried_ore_is_placed<F: Fn(Ask) -> u64>(
    stage: OreStage, f: F, o: OreFeature, t: Target, block: u16, g: Ground, x: int, y: int, z: int,
)
    ensures
        passes(t.rule, block, y) && !stage.exposed(g.region, x, y, z) ==> stage.suits(f, o, t, block, g, x, y, z).0,
        !passes(t.rule, block, y) ==> stage.suits(f, o, t, block, g, x, y, z) == (false, g.random),
{
}

/// A block that passes and touches air loses the ore by chance: never where
/// the chance is zero or less, always where it is one or more, else where
/// what is drawn is below the chance.
pub proof fn law_exposed_ore_is_discarded<F: Fn(Ask) -> u64>(
    stage: OreStage, f: F, o: OreFeature, t: Target, block: u16, g: Ground, x: int, y: int, z: int,
)
    requires
        correct32(f),
        number32(o.discard_chance),
        number32(single(f, g.random).0),
        passes(t.rule, block, y),
        stage.exposed(g.region, x, y, z),
    ensures
        worth32(o.discard_chance) <= 0 ==> stage.suits(f, o, t, block, g, x, y, z) == (true, g.random),
        worth32(o.discard_chance) >= one32() ==> stage.suits(f, o, t, block, g, x, y, z) == (false, g.random),
        0 < worth32(o.discard_chance) < one32() ==> stage.suits(f, o, t, block, g, x, y, z) == (
            worth32(single(f, g.random).0) >= worth32(o.discard_chance),
            single(f, g.random).1,
        ),
{
    lemma_known32();
    lemma_zero32(0);
    vstd::arithmetic::power2::lemma_pow2_pos(149);
    reveal(correct32);
}

/// Of an ore's targets the first whose rule a block passes is written there,
/// where nothing is discarded; where none is passed nothing changes.
pub proof fn law_first_target_is_written<F: Fn(Ask) -> u64>(
    stage: OreStage, f: F, o: OreFeature, from: int, block: u16, g: Ground, x: int, y: int, z: int, i: int,
)
    requires
        0 <= from <= i <= o.targets@.len(),
        forall|j: int| from <= j < i ==> !passes((#[trigger] o.targets@[j]).rule, block, y),
        i < o.targets@.len() ==> passes(o.targets@[i].rule, block, y),
        i < o.targets@.len() ==> !stage.exposed(g.region, x, y, z) && (holds(f, Ask::LessEq32(o.discard_chance, 0)) || holds(
            f, Ask::LessEq32(ONE_32, o.discard_chance))),
    ensures
        stage.tried(f, o, from, block, g, x, y, z) == (if i < o.targets@.len() {
            Ground { region: g.region.with(x, y, z, o.targets@[i].state), ..g }
        } else {
            g
        }),
    decreases i - from,
{
    if from < i {
        assert(!passes(o.targets@[from].rule, block, y));
        law_first_target_is_written(stage, f, o, from + 1, block, g, x, y, z, i);
    }
}

proof fn lemma_mixed<F: Fn(Ask) -> u64>(f: F, t: u64, u: u64, v: u64, i: int, s: nat, a: int, b: int)
    requires
        correct64(f),
        s <= 6,
        0 <= i <= 64,
        is64(t, i, s as int),
        is64(u, a, 8),
        is64(v, b, 8),
        -0x100_0000_0000 < a < 0x100_0000_0000,
        -0x100_0000_0000 < b < 0x100_0000_0000,
    ensures
        is64(lerped64(f, t, u, v), a * pow2(s) + i * (b - a), (8 + s) as int),
{
    lemma2_to64();
    assert(1 <= pow2(s) <= 64) by {
        assert(s == 0 || s == 1 || s == 2 || s == 3 || s == 4 || s == 5 || s == 6);
    }
    lemma_sub64(f, v, u, b, a, 8);
    let d = reply(f, Ask::Sub64(v, u));
    assert(-0x2_0000_0000_0000 < i * (b - a) < 0x2_0000_0000_0000) by (nonlinear_arith)
        requires
            0 <= i <= 64,
            -0x200_0000_0000 < b - a < 0x200_0000_0000,
    ;
    lemma_mul64(f, t, d, i, b - a, s as int, 8);
    lemma_finer64(u, a, 8, s);
    let e = pow2(s) as int;
    assert(-0x2_0000_0000_0000 < a * e < 0x2_0000_0000_0000) by (nonlinear_arith)
        requires
            1 <= e <= 64,
            -0x100_0000_0000 < a < 0x100_0000_0000,
    ;
    lemma_add64(f, u, reply(f, Ask::Mul64(t, d)), a * e, i * (b - a), (8 + s) as int);
}

/// The balls of an ore lie on the line between its ends, `i` of `size` on
/// the way, and swell towards the middle: half of one and of what is drawn
/// of a sixteenth of the size, by one and the sine of the way.
pub proof fn law_balls_lie_on_the_line<F: Fn(Ask) -> u64>(
    f: F, e: Ends, s: nat, i: int, r: WorldgenRandom, a: (int, int, int), b: (int, int, int), sine: int, q: int,
)
    requires
        correct(f),
        s <= 6,
        0 <= i < pow2(s),
        is64(e.x0, a.0, 8) && is64(e.y0, a.1, 8) && is64(e.z0, a.2, 8),
        is64(e.x1, b.0, 8) && is64(e.y1, b.1, 8) && is64(e.z1, b.2, 8),
        -0x100_0000_0000 < a.0 < 0x100_0000_0000 && -0x100_0000_0000 < a.1 < 0x100_0000_0000 && -0x100_0000_0000 < a.2
            < 0x100_0000_0000,
        -0x100_0000_0000 < b.0 < 0x100_0000_0000 && -0x100_0000_0000 < b.1 < 0x100_0000_0000 && -0x100_0000_0000 < b.2
            < 0x100_0000_0000,
        forall|step: u32|
            is32(step, i, s as int) ==> is32(#[trigger] table_sin(f, reply(f, Ask::Widen(low(f, Ask::Mul32(PI_32, step))))), sine, 10),
        -1024 <= sine <= 1024,
        is64(r.double(f).0, q, 20),
        0 <= q <= 0x10_0000,
    ensures
        ({
            let ball = ball_drawn(f, e, pow2(s) as int, i, r).0;
            &&& is64(ball.x, a.0 * pow2(s) + i * (b.0 - a.0), (8 + s) as int)
            &&& is64(ball.y, a.1 * pow2(s) + i * (b.1 - a.1), (8 + s) as int)
            &&& is64(ball.z, a.2 * pow2(s) + i * (b.2 - a.2), (8 + s) as int)
            &&& is64(ball.r, (sine + 1024) * (q * pow2(s)) + 0x4_0000_0000, 35)
        }),
        ball_drawn(f, e, pow2(s) as int, i, r).1 == r.double(f).1,
{
    lemma2_to64();
    lemma2_to64_rest();
    let size = pow2(s) as int;
    assert(1 <= size <= 64) by {
        assert(s == 0 || s == 1 || s == 2 || s == 3 || s == 4 || s == 5 || s == 6);
    }
    lemma_int32(f, size as i32);
    lemma_int32(f, i as i32);
    let (whole, part) = (low(f, Ask::FromInt32(size as i32)), low(f, Ask::FromInt32(i as i32)));
    lemma_shrink32(f, part, whole, i, 0, s);
    let step = low(f, Ask::Div32(part, whole));
    lemma_widen(f, step, i, s as int);
    let t = reply(f, Ask::Widen(step));
    lemma_mixed(f, t, e.x0, e.x1, i, s, a.0, b.0);
    lemma_mixed(f, t, e.y0, e.y1, i, s, a.1, b.1);
    lemma_mixed(f, t, e.z0, e.z1, i, s, a.2, b.2);
    let d = r.double(f).0;
    lemma_int64(f, size as i32);
    let n = reply(f, Ask::FromInt64(size as i32));
    assert(0 <= q * size <= 0x400_0000) by (nonlinear_arith)
        requires
            0 <= q <= 0x10_0000,
            1 <= size <= 64,
    ;
    lemma_mul64(f, d, n, q, size, 20, 0);
    let m = reply(f, Ask::Mul64(d, n));
    lemma_bits64(SIXTEEN, 16, 0, 48);
    lemma_shrink64(f, m, SIXTEEN, q * size, 20, 4);
    let ss = reply(f, Ask::Div64(m, SIXTEEN));
    let wave = table_sin(f, reply(f, Ask::Widen(low(f, Ask::Mul32(PI_32, step)))));
    assert(is32(wave, sine, 10));
    lemma_known32();
    lemma_known64();
    lemma_finer32(ONE_32, 1, 0, 10);
    lemma_add32(f, wave, ONE_32, sine, 1024, 10);
    let up = low(f, Ask::Add32(wave, ONE_32));
    lemma_widen(f, up, sine + 1024, 10);
    let swell = reply(f, Ask::Widen(up));
    let (u, v) = (sine + 1024, q * size);
    assert(0 <= u * v <= 0x20_0000_0000) by (nonlinear_arith)
        requires
            0 <= u <= 2048,
            0 <= v <= 0x400_0000,
    ;
    lemma_mul64(f, swell, ss, u, v, 10, 24);
    let p = reply(f, Ask::Mul64(swell, ss));
    lemma_finer64(ONE, 1, 0, 34);
    lemma_add64(f, p, ONE, u * v, 0x4_0000_0000, 34);
    let r1 = reply(f, Ask::Add64(p, ONE));
    lemma_shrink64(f, r1, TWO, u * v + 0x4_0000_0000, 34, 1);
}

/// A ball with its centre and its radius counted in parts of 256.
pub open spec fn even_ball(b: Ball, x: int, y: int, z: int, r: int) -> bool {
    &&& is64(b.x, x, 8) && is64(b.y, y, 8) && is64(b.z, z, 8) && is64(b.r, r, 8)
    &&& -0x100_0000 < x < 0x100_0000 && -0x100_0000 < y < 0x100_0000 && -0x100_0000 < z < 0x100_0000
    &&& -0x100_0000 < r < 0x100_0000
}

proof fn lemma_squared_difference<F: Fn(Ask) -> u64>(f: F, a: u64, b: u64, n: int, m: int)
    requires
        correct64(f),
        is64(a, n, 8),
        is64(b, m, 8),
        -0x100_0000 < n < 0x100_0000,
        -0x100_0000 < m < 0x100_0000,
    ensures
        ({
            let d = reply(f, Ask::Sub64(a, b));
            is64(reply(f, Ask::Mul64(d, d)), (n - m) * (n - m), 16) && is64(d, n - m, 8)
        }),
        0 <= (n - m) * (n - m) <= 0x4_0000_0000_0000,
{
    lemma_sub64(f, a, b, n, m, 8);
    let d = n - m;
    assert(0 <= d * d <= 0x4_0000_0000_0000) by (nonlinear_arith)
        requires
            -0x200_0000 <= d <= 0x200_0000,
    ;
    lemma_mul64(f, reply(f, Ask::Sub64(a, b)), reply(f, Ask::Sub64(a, b)), d, d, 8, 8);
}

/// Of two balls, one of which lies inside of the other, the smaller one is
/// taken away; else both stay.
pub proof fn law_inner_balls_go<F: Fn(Ask) -> u64>(
    f: F, d: Seq<Ball>, i: int, j: int, a: (int, int, int, int), b: (int, int, int, int),
)
    requires
        correct64(f),
        0 <= i < d.len() && 0 <= j < d.len() && i != j,
        even_ball(d[i], a.0, a.1, a.2, a.3),
        even_ball(d[j], b.0, b.1, b.2, b.3),
    ensures
        ({
            let apart = (a.0 - b.0) * (a.0 - b.0) + (a.1 - b.1) * (a.1 - b.1) + (a.2 - b.2) * (a.2 - b.2);
            let inner = b.3 > 0 && apart < (a.3 - b.3) * (a.3 - b.3);
            let after = settled_pair(f, d, i, j);
            &&& !inner ==> after == d
            &&& inner && a.3 > b.3 ==> after == d.update(j, Ball { r: MINUS_ONE, ..d[j] })
            &&& inner && a.3 < b.3 ==> after == d.update(i, Ball { r: MINUS_ONE, ..d[i] })
        }),
{
    let (p, q) = (d[i], d[j]);
    lemma_squared_difference(f, p.x, q.x, a.0, b.0);
    lemma_squared_difference(f, p.y, q.y, a.1, b.1);
    lemma_squared_difference(f, p.z, q.z, a.2, b.2);
    lemma_squared_difference(f, p.r, q.r, a.3, b.3);
    let (dx, dy, dz, dr) = (
        reply(f, Ask::Sub64(p.x, q.x)), reply(f, Ask::Sub64(p.y, q.y)), reply(f, Ask::Sub64(p.z, q.z)),
        reply(f, Ask::Sub64(p.r, q.r)));
    let (xx, yy, zz, rr) = (
        reply(f, Ask::Mul64(dx, dx)), reply(f, Ask::Mul64(dy, dy)), reply(f, Ask::Mul64(dz, dz)), reply(f, Ask::Mul64(dr, dr)));
    let (m, n, o) = ((a.0 - b.0) * (a.0 - b.0), (a.1 - b.1) * (a.1 - b.1), (a.2 - b.2) * (a.2 - b.2));
    lemma_add64(f, xx, yy, m, n, 16);
    lemma_add64(f, reply(f, Ask::Add64(xx, yy)), zz, m + n, o, 16);
    lemma_order64(
        f, reply(f, Ask::Add64(reply(f, Ask::Add64(xx, yy)), zz)), rr, m + n + o, (a.3 - b.3) * (a.3 - b.3), 16);
    lemma_zero64(8);
    lemma_order64(f, q.r, ZERO, b.3, 0, 8);
    lemma_order64(f, ZERO, dr, 0, a.3 - b.3, 8);
    let v = a.3 - b.3;
    assert(v == 0 ==> v * v == 0) by (nonlinear_arith);
}

/// A ball whose centre is counted in parts of 256 and whose radius is a
/// power of two.
pub open spec fn round_ball(b: Ball, x: int, y: int, z: int, i: nat) -> bool {
    &&& is64(b.x, x, 8) && is64(b.y, y, 8) && is64(b.z, z, 8) && is64(b.r, pow2(i) as int, 0)
    &&& i <= 5
    &&& -0x60_0000_0000 < x < 0x60_0000_0000 && -0x60_0000_0000 < y < 0x60_0000_0000 && -0x60_0000_0000 < z < 0x60_0000_0000
}

/// The middle of a block lies inside of such a ball.
pub open spec fn inside(x: int, y: int, z: int, i: nat, p: (int, int, int)) -> bool {
    let (a, b, c) = (radii(p.0, 128, x, i), radii(p.1, 128, y, i), radii(p.2, 128, z, i));
    a * a + b * b + c * c < 0x400_0000
}

proof fn lemma_away<F: Fn(Ask) -> u64>(f: F, block: int, centre: u64, r: u64, n: int, i: nat)
    requires
        correct64(f),
        is64(centre, n, 8),
        is64(r, pow2(i) as int, 0),
        i <= 5,
        -0x7000_0000 < block < 0x7000_0000,
        -0x60_0000_0000 < n < 0x60_0000_0000,
    ensures
        is64(away(f, block, centre, r), radii(block, 128, n, i), 13),
{
    lemma2_to64();
    lemma_int64(f, block as i32);
    let b = reply(f, Ask::FromInt64(block as i32));
    lemma_finer64(b, block, 0, 8);
    lemma_known64();
    lemma_finer64(HALF, 1, 1, 7);
    lemma_add64(f, b, HALF, block * 256, 128, 8);
    lemma_out(f, reply(f, Ask::Add64(b, HALF)), centre, r, block * 256 + 128, n, i);
}

/// A block inside of a ball lies within the ball's bounds along each axis,
/// and its squared distance along it is below one.
proof fn lemma_axis(block: int, n: int, i: nat)
    requires
        i <= 5,
    ensures
        ({
            let a = radii(block, 128, n, i);
            &&& a * a < 0x400_0000 ==> (n - 256 * pow2(i)) / 256 <= block <= (n + 256 * pow2(i)) / 256
            &&& a * a < 0x400_0000 ==> -0x2000 < a < 0x2000
            &&& a * a >= 0
        }),
{
    lemma_small_power(i);
    let (w, s) = (pow2(i) as int, pow2((5 - i) as nat) as int);
    let d = 256 * block + 128 - n;
    lemma_radius(d, w, s);
    let a = radii(block, 128, n, i);
    assert(a * a >= 0 && (a * a < 0x400_0000 ==> -0x2000 < a < 0x2000)) by (nonlinear_arith);
}

/// The bounds of such a ball along an axis.
proof fn lemma_ball_bounds<F: Fn(Ask) -> u64>(f: F, centre: u64, r: u64, n: int, i: nat, start: int)
    requires
        correct64(f),
        is64(centre, n, 8),
        is64(r, pow2(i) as int, 0),
        i <= 5,
        -0x60_0000_0000 < n < 0x60_0000_0000,
    ensures
        ball_first(f, centre, r, start) == (if (n - 256 * pow2(i)) / 256 > start { (n - 256 * pow2(i)) / 256 } else { start }),
        ball_last(f, centre, r, start) >= (n + 256 * pow2(i)) / 256,
        (n + 256 * pow2(i)) / 256 >= start ==> ball_last(f, centre, r, start) == (n + 256 * pow2(i)) / 256,
{
    lemma2_to64();
    lemma_small_power(i);
    let w = pow2(i) as int;
    lemma_finer64(r, w, 0, 8);
    lemma_sub64(f, centre, r, n, w * 256, 8);
    lemma_add64(f, centre, r, n, w * 256, 8);
    lemma_floor_of(f, reply(f, Ask::Sub64(centre, r)), n - w * 256);
    lemma_floor_of(f, reply(f, Ask::Add64(centre, r)), n + w * 256);
}

/// Trying a block leaves the world as high as it is, and no block untried.
proof fn lemma_tried_keeps<F: Fn(Ask) -> u64>(
    stage: OreStage, f: F, o: OreFeature, i: int, block: u16, g: Ground, x: int, y: int, z: int,
)
    ensures
        ({
            let h = stage.tried(f, o, i, block, g, x, y, z).region;
            h.min_y == g.region.min_y && h.height == g.region.height
        }),
    decreases o.targets@.len() - i,
{
    if 0 <= i < o.targets@.len() {
        let (fits, s) = stage.suits(f, o, o.targets@[i], block, g, x, y, z);
        if !fits {
            lemma_tried_keeps(stage, f, o, i + 1, block, Ground { random: s, ..g }, x, y, z);
        }
    }
}

/// What every step of a walk over a ball keeps.
pub open spec fn goes_on(p: Pile, q: Pile) -> bool {
    &&& q.ground.region.min_y == p.ground.region.min_y
    &&& q.ground.region.height == p.ground.region.height
    &&& p.tested.subset_of(q.tested)
}

proof fn lemma_block<F: Fn(Ask) -> u64>(
    stage: OreStage, f: F, o: OreFeature, b: Ball, fr: Frame, flat: u64, p: Pile, x: int, y: int, z: int,
)
    ensures
        goes_on(p, stage.block_tried(f, o, b, fr, flat, p, x, y, z)),
        !holds(f, Ask::LessEq64(ONE, plus_square(f, flat, away(f, z, b.z, b.r)))) && !p.ground.region.beyond(y)
            ==> stage.block_tried(f, o, b, fr, flat, p, x, y, z).tested.contains(fr.number(x, y, z)),
{
    reveal(OreStage::block_tried);
    if let Some(s) = p.ground.region.state(x, y, z) {
        lemma_tried_keeps(stage, f, o, 0, stage.block(s), p.ground, x, y, z);
    }
}

proof fn lemma_z_run<F: Fn(Ask) -> u64>(
    stage: OreStage, f: F, o: OreFeature, b: Ball, fr: Frame, flat: u64, p: Pile, x: int, y: int, z: int, last: int, k: int,
)
    ensures
        goes_on(p, stage.z_run(f, o, b, fr, flat, p, x, y, z, last)),
        z <= k <= last && !holds(f, Ask::LessEq64(ONE, plus_square(f, flat, away(f, k, b.z, b.r)))) && !p.ground.region.beyond(y)
            ==> stage.z_run(f, o, b, fr, flat, p, x, y, z, last).tested.contains(fr.number(x, y, k)),
    decreases last - z + 1,
{
    if z <= last {
        lemma_block(stage, f, o, b, fr, flat, p, x, y, z);
        lemma_z_run(stage, f, o, b, fr, flat, stage.block_tried(f, o, b, fr, flat, p, x, y, z), x, y, z + 1, last, k);
    }
}

proof fn lemma_y_run<F: Fn(Ask) -> u64>(
    stage: OreStage, f: F, o: OreFeature, b: Ball, fr: Frame, xx: u64, p: Pile, x: int, y: int, last: int, j: int, k: int,
)
    ensures
        goes_on(p, stage.y_run(f, o, b, fr, xx, p, x, y, last)),
        ({
            let flat = plus_square(f, xx, away(f, j, b.y, b.r));
            y <= j <= last && ball_first(f, b.z, b.r, fr.z as int) <= k <= ball_last(f, b.z, b.r, fr.z as int) && !holds(
                f, Ask::LessEq64(ONE, flat)) && !holds(f, Ask::LessEq64(ONE, plus_square(f, flat, away(f, k, b.z, b.r))))
                && !p.ground.region.beyond(j)
        }) ==> stage.y_run(f, o, b, fr, xx, p, x, y, last).tested.contains(fr.number(x, j, k)),
    decreases last - y + 1,
{
    if y <= last {
        let flat = plus_square(f, xx, away(f, y, b.y, b.r));
        let (from, to) = (ball_first(f, b.z, b.r, fr.z as int), ball_last(f, b.z, b.r, fr.z as int));
        let next = if holds(f, Ask::LessEq64(ONE, flat)) { p } else { stage.z_run(f, o, b, fr, flat, p, x, y, from, to) };
        lemma_z_run(stage, f, o, b, fr, flat, p, x, y, from, to, k);
        lemma_y_run(stage, f, o, b, fr, xx, next, x, y + 1, last, j, k);
    }
}

proof fn lemma_x_run<F: Fn(Ask) -> u64>(
    stage: OreStage, f: F, o: OreFeature, b: Ball, fr: Frame, p: Pile, x: int, last: int, i: int, j: int, k: int,
)
    ensures
        goes_on(p, stage.x_run(f, o, b, fr, p, x, last)),
        ({
            let d = away(f, i, b.x, b.r);
            let xx = reply(f, Ask::Mul64(d, d));
            let flat = plus_square(f, xx, away(f, j, b.y, b.r));
            x <= i <= last && ball_first(f, b.y, b.r, fr.y as int) <= j <= ball_last(f, b.y, b.r, fr.y as int) && ball_first(
                f, b.z, b.r, fr.z as int) <= k <= ball_last(f, b.z, b.r, fr.z as int) && !holds(f, Ask::LessEq64(ONE, xx)) && !holds(
                f, Ask::LessEq64(ONE, flat)) && !holds(f, Ask::LessEq64(ONE, plus_square(f, flat, away(f, k, b.z, b.r))))
                && !p.ground.region.beyond(j)
        }) ==> stage.x_run(f, o, b, fr, p, x, last).tested.contains(fr.number(i, j, k)),
    decreases last - x + 1,
{
    if x <= last {
        let d = away(f, x, b.x, b.r);
        let xx = reply(f, Ask::Mul64(d, d));
        let (from, to) = (ball_first(f, b.y, b.r, fr.y as int), ball_last(f, b.y, b.r, fr.y as int));
        let next = if holds(f, Ask::LessEq64(ONE, xx)) { p } else { stage.y_run(f, o, b, fr, xx, p, x, from, to) };
        lemma_y_run(stage, f, o, b, fr, xx, p, x, from, to, j, k);
        lemma_x_run(stage, f, o, b, fr, next, x + 1, last, i, j, k);
    }
}

/// How far out a block is, by its distances along the axes.
proof fn lemma_sums<F: Fn(Ask) -> u64>(f: F, b: Ball, x: int, y: int, z: int, i: nat, p: (int, int, int))
    requires
        correct64(f),
        round_ball(b, x, y, z, i),
        -0x7000_0000 < p.0 < 0x7000_0000 && -0x7000_0000 < p.1 < 0x7000_0000 && -0x7000_0000 < p.2 < 0x7000_0000,
        inside(x, y, z, i, p),
    ensures
        ({
            let d = away(f, p.0, b.x, b.r);
            let xx = reply(f, Ask::Mul64(d, d));
            let flat = plus_square(f, xx, away(f, p.1, b.y, b.r));
            &&& !holds(f, Ask::LessEq64(ONE, xx))
            &&& !holds(f, Ask::LessEq64(ONE, flat))
            &&& !holds(f, Ask::LessEq64(ONE, plus_square(f, flat, away(f, p.2, b.z, b.r))))
        }),
{
    lemma_axis(p.0, x, i);
    lemma_axis(p.1, y, i);
    lemma_axis(p.2, z, i);
    lemma_away(f, p.0, b.x, b.r, x, i);
    lemma_away(f, p.1, b.y, b.r, y, i);
    lemma_away(f, p.2, b.z, b.r, z, i);
    let (m, n, o) = (radii(p.0, 128, x, i), radii(p.1, 128, y, i), radii(p.2, 128, z, i));
    let (dx, dy, dz) = (away(f, p.0, b.x, b.r), away(f, p.1, b.y, b.r), away(f, p.2, b.z, b.r));
    lemma_mul64(f, dx, dx, m, m, 13, 13);
    lemma_mul64(f, dy, dy, n, n, 13, 13);
    lemma_mul64(f, dz, dz, o, o, 13, 13);
    let (xx, yy, zz) = (reply(f, Ask::Mul64(dx, dx)), reply(f, Ask::Mul64(dy, dy)), reply(f, Ask::Mul64(dz, dz)));
    lemma_add64(f, xx, yy, m * m, n * n, 26);
    let flat = reply(f, Ask::Add64(xx, yy));
    lemma_add64(f, flat, zz, m * m + n * n, o * o, 26);
    lemma_known64();
    lemma2_to64();
    lemma_finer64(ONE, 1, 0, 26);
    lemma_order64(f, ONE, xx, 0x400_0000, m * m, 26);
    lemma_order64(f, ONE, flat, 0x400_0000, m * m + n * n, 26);
    lemma_order64(f, ONE, reply(f, Ask::Add64(flat, zz)), 0x400_0000, m * m + n * n + o * o, 26);
}

/// Every block of the world and of an ore's box whose middle lies inside of
/// one of its balls is tried.
pub proof fn law_balls_try_their_inside<F: Fn(Ask) -> u64>(
    stage: OreStage, f: F, o: OreFeature, b: Ball, fr: Frame, p: Pile, x: int, y: int, z: int, i: nat, at: (int, int, int),
)
    requires
        correct64(f),
        round_ball(b, x, y, z, i),
        -0x7000_0000 < at.0 < 0x7000_0000 && -0x7000_0000 < at.1 < 0x7000_0000 && -0x7000_0000 < at.2 < 0x7000_0000,
        inside(x, y, z, i, at),
        fr.x <= at.0 && fr.y <= at.1 && fr.z <= at.2,
        p.ground.region.min_y <= at.1 < p.ground.region.min_y + p.ground.region.height,
    ensures
        stage.x_run(f, o, b, fr, p, ball_first(f, b.x, b.r, fr.x as int), ball_last(f, b.x, b.r, fr.x as int)).tested.contains(
            fr.number(at.0, at.1, at.2)),
{
    lemma_axis(at.0, x, i);
    lemma_axis(at.1, y, i);
    lemma_axis(at.2, z, i);
    lemma_sums(f, b, x, y, z, i, at);
    lemma_ball_bounds(f, b.x, b.r, x, i, fr.x as int);
    lemma_ball_bounds(f, b.y, b.r, y, i, fr.y as int);
    lemma_ball_bounds(f, b.z, b.r, z, i, fr.z as int);
    lemma_x_run(
        stage, f, o, b, fr, p, ball_first(f, b.x, b.r, fr.x as int), ball_last(f, b.x, b.r, fr.x as int), at.0, at.1, at.2);
}

/// A block inside of a ball that was not tried before has its targets tried,
/// in their order, on the block that stands there; one that was, or that
/// lies outside, is left alone.
pub proof fn law_blocks_are_tried_once<F: Fn(Ask) -> u64>(
    stage: OreStage, f: F, o: OreFeature, b: Ball, fr: Frame, flat: u64, p: Pile, x: int, y: int, z: int, n: int, m: int,
)
    requires
        correct64(f),
        is64(flat, n, 26) && is64(away(f, z, b.z, b.r), m, 13),
        0 <= n < 0x1000_0000 && -0x10_0000 < m < 0x10_0000,
    ensures
        ({
            let q = stage.block_tried(f, o, b, fr, flat, p, x, y, z);
            let k = fr.number(x, y, z);
            &&& n + m * m >= 0x400_0000 || p.tested.contains(k) || p.ground.region.beyond(y) ==> q == p
            &&& n + m * m < 0x400_0000 && !p.tested.contains(k) && !p.ground.region.beyond(y) ==> match p.ground.region.state(x, y, z) {
                Some(s) => q.ground == stage.tried(f, o, 0, stage.block(s), p.ground, x, y, z) && q.tested == p.tested.insert(k),
                None => q.ground == p.ground,
            }
        }),
{
    reveal(OreStage::block_tried);
    let d = away(f, z, b.z, b.r);
    assert(0 <= m * m < 0x100_0000_0000) by (nonlinear_arith)
        requires
            -0x10_0000 < m < 0x10_0000,
    ;
    lemma_mul64(f, d, d, m, m, 13, 13);
    lemma_add64(f, flat, reply(f, Ask::Mul64(d, d)), n, m * m, 26);
    lemma_known64();
    lemma2_to64();
    lemma_finer64(ONE, 1, 0, 26);
    lemma_order64(f, ONE, plus_square(f, flat, d), 0x400_0000, n + m * m, 26);
}

/// Every ball of an ore is run: a block of the world and of the ore's box
/// whose middle lies inside of any of them is tried.
pub proof fn law_every_ball_is_run<F: Fn(Ask) -> u64>(
    stage: OreStage, f: F, o: OreFeature, d: Seq<Ball>, fr: Frame, p: Pile, j: int, k: int, x: int, y: int, z: int, i: nat,
    at: (int, int, int),
)
    requires
        correct64(f),
        0 <= j <= k < d.len(),
        round_ball(d[k], x, y, z, i),
        -0x7000_0000 < at.0 < 0x7000_0000 && -0x7000_0000 < at.1 < 0x7000_0000 && -0x7000_0000 < at.2 < 0x7000_0000,
        inside(x, y, z, i, at),
        fr.x <= at.0 && fr.y <= at.1 && fr.z <= at.2,
        p.ground.region.min_y <= at.1 < p.ground.region.min_y + p.ground.region.height,
    ensures
        stage.ball_run(f, o, d, fr, p, j).tested.contains(fr.number(at.0, at.1, at.2)),
    decreases k - j,
{
    let b = d[j];
    let (from, to) = (ball_first(f, b.x, b.r, fr.x as int), ball_last(f, b.x, b.r, fr.x as int));
    let next = if holds(f, Ask::Less64(b.r, ZERO)) { p } else { stage.x_run(f, o, b, fr, p, from, to) };
    lemma_x_run(stage, f, o, b, fr, p, from, to, 0, 0, 0);
    if j < k {
        law_every_ball_is_run(stage, f, o, d, fr, next, j + 1, k, x, y, z, i, at);
    } else {
        lemma_zero64(0);
        vstd::arithmetic::power2::lemma_pow2_pos(i);
        lemma_order64(f, b.r, ZERO, pow2(i) as int, 0, 0);
        law_balls_try_their_inside(stage, f, o, b, fr, p, x, y, z, i, at);
        lemma_ball_run(stage, f, o, d, fr, next, j + 1);
    }
}

proof fn lemma_ball_run<F: Fn(Ask) -> u64>(stage: OreStage, f: F, o: OreFeature, d: Seq<Ball>, fr: Frame, p: Pile, j: int)
    requires
        0 <= j,
    ensures
        goes_on(p, stage.ball_run(f, o, d, fr, p, j)),
    decreases d.len() - j,
{
    if j < d.len() {
        let b = d[j];
        let (from, to) = (ball_first(f, b.x, b.r, fr.x as int), ball_last(f, b.x, b.r, fr.x as int));
        let next = if holds(f, Ask::Less64(b.r, ZERO)) { p } else { stage.x_run(f, o, b, fr, p, from, to) };
        lemma_x_run(stage, f, o, b, fr, p, from, to, 0, 0, 0);
        lemma_ball_run(stage, f, o, d, fr, next, j + 1);
    }
}

} // verus!
