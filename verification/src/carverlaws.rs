//! What carving does: how tunnels go on, which blocks an ellipsoid takes,
//! and which chunks carve into one.

use vstd::prelude::*;
use vstd::arithmetic::power2::{lemma2_to64, lemma2_to64_rest, pow2};
use crate::arith::{holds, low, reply, Ask, HALF, HALF_32, ONE, THREE_HALVES, TWO};
use crate::beard26::{EIGHT_TENTHS_32, SIXTEEN};
use crate::bitrandom::{single, BitSource, LegacyRandomSource, FLOAT_UNIT};
use crate::aquifer26::{substance_at, Substance};
use crate::carverapply::{Carving, Edit, Ground};
use crate::carvers26::{
    canyon_damping, cave_damping, floor_of, girth, moved, parted, reachable, strode, table_cos, table_sin, thinner, wobble,
    CarverStage, Cells, ChunkPos, Damping, Ellipsoid, Skip, Stride, Tunnel, HALF_PI_32, NINE_TENTHS_32, QUARTER_TURN,
    SEVEN_TENTHS_32, SIN_SCALE, SIXTEEN_32, STEEP_32, TENTH_32, THREE_QUARTERS_32, TWENTIETH_32,
};
use crate::df26::{wrapped, FOUR_32, TWO_32};
use crate::numbers::{
    correct, correct32, correct64, is32, is64, lemma_abs64, lemma_add32, lemma_add64, lemma_bits32, lemma_bits64, lemma_finer32,
    lemma_finer64, lemma_floor64, lemma_int32, lemma_int64, lemma_known64, lemma_mul32, lemma_mul64, lemma_nearest32, lemma_order64, lemma_shrink64,
    lemma_sub32, lemma_sub64, lemma_to_int64, lemma_widen, lemma_zero64, nearest32,
};

verus! {

/// Sines and cosines as singles, in parts of 1024.
pub open spec fn turned<F: Fn(Ask) -> u64>(f: F, angle: u32, sine: int, cosine: int) -> bool {
    let a = reply(f, Ask::Widen(angle));
    &&& is32(table_sin(f, a), sine, 10) && -1024 <= sine <= 1024
    &&& is32(table_cos(f, a), cosine, 10) && -1024 <= cosine <= 1024
}

proof fn lemma_moved<F: Fn(Ask) -> u64>(f: F, v: u64, s: u32, n: int, m: int)
    requires
        correct(f),
        is64(v, n, 20),
        is32(s, m, 20),
        -0x4_0000_0000_0000 < n < 0x4_0000_0000_0000,
        -0x40_0000 < m < 0x40_0000,
    ensures
        is64(moved(f, v, s), n + m, 20),
{
    lemma_widen(f, s, m, 20);
    lemma_add64(f, v, reply(f, Ask::Widen(s)), n, m, 20);
}

/// A step moves a tunnel by the unit vector of its heading and its pitch, on
/// each of the three axes, and leaves its scales and its thickness.
pub proof fn law_steps_follow_the_heading<F: Fn(Ask) -> u64>(
    f: F, s: Stride, d: Damping, x: int, y: int, z: int, sin_h: int, cos_h: int, sin_p: int, cos_p: int,
)
    requires
        correct(f),
        turned(f, s.t.heading, sin_h, cos_h),
        turned(f, s.t.pitch, sin_p, cos_p),
        is64(s.t.x, x, 20) && is64(s.t.y, y, 20) && is64(s.t.z, z, 20),
        -0x4_0000_0000_0000 < x < 0x4_0000_0000_0000,
        -0x4_0000_0000_0000 < y < 0x4_0000_0000_0000,
        -0x4_0000_0000_0000 < z < 0x4_0000_0000_0000,
    ensures
        ({
            let t = strode(f, s, d).t;
            &&& is64(t.x, x + cos_h * cos_p, 20)
            &&& is64(t.y, y + sin_p * 1024, 20)
            &&& is64(t.z, z + sin_h * cos_p, 20)
            &&& t.wide == s.t.wide && t.tall == s.t.tall && t.y_scale == s.t.y_scale && t.thickness == s.t.thickness
        }),
{
    let (h, p) = (reply(f, Ask::Widen(s.t.heading)), reply(f, Ask::Widen(s.t.pitch)));
    assert(-0x10_0000 <= cos_h * cos_p <= 0x10_0000 && -0x10_0000 <= sin_h * cos_p <= 0x10_0000) by (nonlinear_arith)
        requires
            -1024 <= cos_h <= 1024,
            -1024 <= sin_h <= 1024,
            -1024 <= cos_p <= 1024,
    ;
    lemma_mul32(f, table_cos(f, h), table_cos(f, p), cos_h, cos_p, 10, 10);
    lemma_mul32(f, table_sin(f, h), table_cos(f, p), sin_h, cos_p, 10, 10);
    lemma_moved(f, s.t.x, low(f, Ask::Mul32(table_cos(f, h), table_cos(f, p))), x, cos_h * cos_p);
    lemma_moved(f, s.t.z, low(f, Ask::Mul32(table_sin(f, h), table_cos(f, p))), z, sin_h * cos_p);
    lemma2_to64();
    lemma_finer32(table_sin(f, p), sin_p, 10, 10);
    lemma_moved(f, s.t.y, table_sin(f, p), y, sin_p * 1024);
}

proof fn lemma_damped<F: Fn(Ask) -> u64>(f: F, v: u32, d: u32, n: int, m: int)
    requires
        correct32(f),
        is32(v, n, 6),
        is32(d, m, 6),
        -0x200 < n < 0x200,
        -0x200 < m < 0x200,
    ensures
        is32(low(f, Ask::Mul32(v, d)), n * m, 12),
        -0x4_0000 < n * m < 0x4_0000,
{
    assert(-0x4_0000 < n * m < 0x4_0000) by (nonlinear_arith)
        requires
            -0x200 < n < 0x200,
            -0x200 < m < 0x200,
    ;
    lemma_mul32(f, v, d, n, m, 6, 6);
}

/// A step turns a tunnel: its pitch is damped and tilts on, its heading
/// drifts on, and tilt and drift are damped and wobble, by two and by four.
pub proof fn law_steps_turn_by_their_drift<F: Fn(Ask) -> u64>(
    f: F, s: Stride, d: Damping, pitch: int, heading: int, tilt: int, drift: int, by: (int, int, int, int), wobbles: (int, int),
)
    requires
        correct32(f),
        is32(s.t.pitch, pitch, 6) && is32(s.tilt, tilt, 6) && is32(s.drift, drift, 6) && is32(s.t.heading, heading, 12),
        is32(d.pitch, by.0, 6) && is32(d.turn, by.1, 6) && is32(d.tilt, by.2, 6) && is32(d.drift, by.3, 6),
        -0x200 < pitch < 0x200 && -0x200 < tilt < 0x200 && -0x200 < drift < 0x200 && -0x10_0000 < heading < 0x10_0000,
        -0x200 < by.0 < 0x200 && -0x200 < by.1 < 0x200 && -0x200 < by.2 < 0x200 && -0x200 < by.3 < 0x200,
        is32(wobble(f, s.random, TWO_32).0, wobbles.0, 12),
        is32(wobble(f, wobble(f, s.random, TWO_32).1, FOUR_32).0, wobbles.1, 12),
        -0x10_0000 < wobbles.0 < 0x10_0000 && -0x10_0000 < wobbles.1 < 0x10_0000,
    ensures
        ({
            let n = strode(f, s, d);
            &&& is32(n.t.pitch, pitch * by.0 + tilt * by.1, 12)
            &&& is32(n.t.heading, heading + drift * by.1, 12)
            &&& is32(n.tilt, tilt * by.2 + wobbles.0, 12)
            &&& is32(n.drift, drift * by.3 + wobbles.1, 12)
        }),
{
    lemma_damped(f, s.t.pitch, d.pitch, pitch, by.0);
    lemma_damped(f, s.tilt, d.turn, tilt, by.1);
    lemma_damped(f, s.drift, d.turn, drift, by.1);
    lemma_damped(f, s.tilt, d.tilt, tilt, by.2);
    lemma_damped(f, s.drift, d.drift, drift, by.3);
    lemma_add32(
        f, low(f, Ask::Mul32(s.t.pitch, d.pitch)), low(f, Ask::Mul32(s.tilt, d.turn)), pitch * by.0, tilt * by.1, 12);
    lemma_add32(f, s.t.heading, low(f, Ask::Mul32(s.drift, d.turn)), heading, drift * by.1, 12);
    let (a, r) = wobble(f, s.random, TWO_32);
    lemma_add32(f, low(f, Ask::Mul32(s.tilt, d.tilt)), a, tilt * by.2, wobbles.0, 12);
    let b = wobble(f, r, FOUR_32).0;
    lemma_add32(f, low(f, Ask::Mul32(s.drift, d.drift)), b, drift * by.3, wobbles.1, 12);
}

/// A single that is drawn is its bits over two to the power of 24.
pub proof fn law_draws_are_fractions<R: BitSource, F: Fn(Ask) -> u64>(f: F, r: R)
    requires
        correct32(f),
        0 <= r.drawn(24).0 < 0x100_0000,
    ensures
        is32(single(f, r).0, r.drawn(24).0 as int, 24),
        single(f, r).1 == r.drawn(24).1,
{
    lemma2_to64();
    let v = r.drawn(24).0;
    lemma_int32(f, v);
    lemma_bits32(FLOAT_UNIT, 1, 24, 23);
    lemma_mul32(f, low(f, Ask::FromInt32(v)), FLOAT_UNIT, v as int, 1, 0, 24);
}

/// A wobble is the difference of two draws, by a third, by a scale.
pub proof fn law_wobbles_are_differences<F: Fn(Ask) -> u64>(f: F, r: LegacyRandomSource, scale: u32, a: int, b: int, c: int, m: int)
    requires
        correct32(f),
        ({
            let (u, s) = single(f, r);
            let (v, t) = single(f, s);
            is32(u, a, 6) && is32(v, b, 6) && is32(single(f, t).0, c, 6)
        }),
        0 <= a <= 64 && 0 <= b <= 64 && 0 <= c <= 64,
        is32(scale, m, 0) && 0 <= m <= 16,
    ensures
        is32(wobble(f, r, scale).0, (a - b) * c * m, 12),
        ({
            let t = single(f, single(f, r).1).1;
            wobble(f, r, scale).1 == single(f, t).1
        }),
{
    let (u, s) = single(f, r);
    let (v, t) = single(f, s);
    let w = single(f, t).0;
    lemma_sub32(f, u, v, a, b, 6);
    let d = low(f, Ask::Sub32(u, v));
    let e = (a - b) * c;
    assert(-0x1000 <= (a - b) * c <= 0x1000) by (nonlinear_arith)
        requires
            0 <= a <= 64,
            0 <= b <= 64,
            0 <= c <= 64,
    ;
    lemma_mul32(f, d, w, a - b, c, 6, 6);
    assert(-0x1_0000 <= e * m <= 0x1_0000) by (nonlinear_arith)
        requires
            -0x1000 <= e <= 0x1000,
            0 <= m <= 16,
    ;
    lemma_mul32(f, low(f, Ask::Mul32(d, w)), scale, e, m, 12, 0);
}

/// How walks are damped: steep caves keep 0.92 of their pitch, others 0.7;
/// caves turn by a tenth of their drift, canyons by a twentieth.
pub proof fn law_walks_are_damped(steep: bool)
    ensures
        nearest32(cave_damping(true).pitch, 92, 100),
        nearest32(cave_damping(false).pitch, 7, 10),
        nearest32(cave_damping(steep).turn, 1, 10),
        nearest32(cave_damping(steep).tilt, 9, 10),
        nearest32(cave_damping(steep).drift, 3, 4),
        nearest32(canyon_damping().pitch, 7, 10),
        nearest32(canyon_damping().turn, 1, 20),
        nearest32(canyon_damping().tilt, 8, 10),
        nearest32(canyon_damping().drift, 1, 2),
{
    lemma2_to64();
    lemma_nearest32(STEEP_32, 92, 100, 24);
    lemma_nearest32(SEVEN_TENTHS_32, 7, 10, 24);
    lemma_nearest32(TENTH_32, 1, 10, 27);
    lemma_nearest32(NINE_TENTHS_32, 9, 10, 24);
    lemma_nearest32(THREE_QUARTERS_32, 3, 4, 24);
    lemma_nearest32(TWENTIETH_32, 1, 20, 28);
    lemma_nearest32(EIGHT_TENTHS_32, 8, 10, 24);
    lemma_nearest32(HALF_32, 1, 2, 24);
}

/// A square is not negative, and small where its root is.
pub(crate) proof fn lemma_squared(n: int, s: int)
    requires
        -s <= n <= s,
    ensures
        0 <= n * n <= s * s,
{
    assert(0 <= n * n <= s * s) by (nonlinear_arith)
        requires
            -s <= n <= s,
    ;
}

/// A chunk is reached as long as the square of the distance to its middle,
/// less that of the steps that are left, is at most that of the thickness
/// and eighteen.
pub proof fn law_reach_is_by_distance<F: Fn(Ask) -> u64>(
    f: F, chunk: ChunkPos, x: u64, z: u64, current: int, total: int, thickness: u32, n: int, m: int, t: int,
)
    requires
        correct(f),
        is64(x, n, 4) && is64(z, m, 4) && is32(thickness, t, 4),
        -0x4000_0000 < n < 0x4000_0000 && -0x4000_0000 < m < 0x4000_0000,
        0 <= t < 0x1_0000,
        -0x400_0000 < chunk.min_x < 0x400_0000 && -0x400_0000 < chunk.min_z < 0x400_0000,
        -0x1_0000 < n - 16 * (chunk.min_x + 8) < 0x1_0000 && -0x1_0000 < m - 16 * (chunk.min_z + 8) < 0x1_0000,
        0 <= current <= total < 0x1000,
    ensures
        reachable(f, chunk, x, z, current, total, thickness) == ({
            let (dx, dz, rest, r) = (
                n - 16 * (chunk.min_x + 8), m - 16 * (chunk.min_z + 8), 16 * (total - current), t + 16 * 18);
            dx * dx + dz * dz - rest * rest <= r * r
        }),
{
    lemma2_to64();
    let (cx, cz) = (chunk.min_x + 8, chunk.min_z + 8);
    let (dx, dz, rest, r) = (n - 16 * cx, m - 16 * cz, total - current, t + 288);
    lemma_int64(f, wrapped(cx));
    lemma_int64(f, wrapped(cz));
    lemma_int64(f, wrapped(rest));
    let (bx, bz, br) = (
        reply(f, Ask::FromInt64(wrapped(cx))), reply(f, Ask::FromInt64(wrapped(cz))), reply(f, Ask::FromInt64(wrapped(rest))));
    lemma_finer64(bx, cx, 0, 4);
    lemma_finer64(bz, cz, 0, 4);
    lemma_finer64(br, rest, 0, 4);
    lemma_sub64(f, x, bx, n, cx * 16, 4);
    lemma_sub64(f, z, bz, m, cz * 16, 4);
    let (xd, zd) = (reply(f, Ask::Sub64(x, bx)), reply(f, Ask::Sub64(z, bz)));
    lemma_squared(dx, 0x1_0000);
    lemma_squared(dz, 0x1_0000);
    lemma_squared(16 * rest, 0x1_0000);
    lemma_squared(r, 0x2_0000);
    lemma_mul64(f, xd, xd, dx, dx, 4, 4);
    lemma_mul64(f, zd, zd, dz, dz, 4, 4);
    lemma_mul64(f, br, br, rest * 16, rest * 16, 4, 4);
    lemma_add64(f, reply(f, Ask::Mul64(xd, xd)), reply(f, Ask::Mul64(zd, zd)), dx * dx, dz * dz, 8);
    let far = reply(f, Ask::Add64(reply(f, Ask::Mul64(xd, xd)), reply(f, Ask::Mul64(zd, zd))));
    lemma_sub64(f, far, reply(f, Ask::Mul64(br, br)), dx * dx + dz * dz, (rest * 16) * (rest * 16), 8);
    lemma_bits32(TWO_32, 2, 0, 22);
    lemma_bits32(SIXTEEN_32, 16, 0, 19);
    lemma_finer32(TWO_32, 2, 0, 4);
    lemma_finer32(SIXTEEN_32, 16, 0, 4);
    lemma_add32(f, thickness, TWO_32, t, 32, 4);
    let a = low(f, Ask::Add32(thickness, TWO_32));
    lemma_add32(f, a, SIXTEEN_32, t + 32, 256, 4);
    let b = low(f, Ask::Add32(a, SIXTEEN_32));
    lemma_widen(f, b, r, 4);
    let rr = reply(f, Ask::Widen(b));
    lemma_mul64(f, rr, rr, r, r, 4, 4);
    lemma_order64(
        f, reply(f, Ask::Sub64(far, reply(f, Ask::Mul64(br, br)))), reply(f, Ask::Mul64(rr, rr)),
        dx * dx + dz * dz - (rest * 16) * (rest * 16), r * r, 8);
}

/// A power of two up to thirty-two.
pub(crate) proof fn lemma_small_power(i: nat)
    requires
        i <= 5,
    ensures
        1 <= pow2(i) <= 32,
        pow2((5 - i) as nat) * pow2(i) == 32,
        1 <= pow2((5 - i) as nat) <= 32,
{
    lemma2_to64();
    assert(i == 0 || i == 1 || i == 2 || i == 3 || i == 4 || i == 5);
}

/// How far a number is from a centre, in radii: exact where the radius is a
/// power of two.
pub(crate) proof fn lemma_out<F: Fn(Ask) -> u64>(f: F, middle: u64, centre: u64, radius: u64, b: int, n: int, i: nat)
    requires
        correct64(f),
        is64(middle, b, 8),
        is64(centre, n, 8),
        is64(radius, pow2(i) as int, 0),
        i <= 5,
        -0x100_0000_0000 < b < 0x100_0000_0000,
        -0x100_0000_0000 < n < 0x100_0000_0000,
    ensures
        is64(reply(f, Ask::Div64(reply(f, Ask::Sub64(middle, centre)), radius)), (b - n) * pow2((5 - i) as nat), 13),
{
    lemma_small_power(i);
    lemma_sub64(f, middle, centre, b, n, 8);
    let d = reply(f, Ask::Sub64(middle, centre));
    lemma_shrink64(f, d, radius, b - n, 8, i);
    lemma_finer64(reply(f, Ask::Div64(d, radius)), b - n, (8 + i) as int, (5 - i) as nat);
}

/// The floor of a number in parts of 256.
pub(crate) proof fn lemma_floor_of<F: Fn(Ask) -> u64>(f: F, v: u64, n: int)
    requires
        correct64(f),
        is64(v, n, 8),
        -0x70_0000_0000 < n < 0x70_0000_0000,
    ensures
        floor_of(f, v) == n / 256,
{
    lemma2_to64();
    lemma_floor64(f, v, n, 8);
    lemma_to_int64(f, reply(f, Ask::Floor64(v)), n / 256);
    let r = reply(f, Ask::ToInt64(reply(f, Ask::Floor64(v))));
    assert(r as i32 == (r as u32) as i32) by (bit_vector);
}

/// A middle that is within a radius of a centre lies within the bounds that
/// the radius gives, and one outside of the bounds is a radius away.
proof fn lemma_within(b: int, n: int, w: int)
    requires
        1 <= w <= 32,
    ensures
        -256 * w < 256 * b + 128 - n < 256 * w ==> (n - 256 * w) / 256 - 1 <= b <= (n + 256 * w) / 256,
        (n - 256 * w) / 256 - 1 <= b <= (n + 256 * w) / 256 ==> -0x4000 < 256 * b + 128 - n < 0x4000,
{
}

/// An ellipsoid whose centre is counted in parts of 256 and whose radii are
/// powers of two.
pub open spec fn even_ellipsoid(e: Ellipsoid, x: int, y: int, z: int, i: nat, j: nat) -> bool {
    &&& is64(e.x, x, 8) && is64(e.y, y, 8) && is64(e.z, z, 8)
    &&& is64(e.wide, pow2(i) as int, 0) && is64(e.tall, pow2(j) as int, 0)
    &&& i <= 5 && j <= 5
    &&& -0x60_0000_0000 < x < 0x60_0000_0000 && -0x60_0000_0000 < y < 0x60_0000_0000 && -0x60_0000_0000 < z < 0x60_0000_0000
}

/// How far a block's middle is from a centre, in parts of 8192 of a radius.
pub open spec fn radii(block: int, half: int, centre: int, i: nat) -> int {
    (256 * block + half - centre) * pow2((5 - i) as nat)
}

/// An ellipsoid takes exactly the blocks of a chunk whose middle lies inside
/// of it and above its floor: along y the middle is half a block below the
/// block's coordinate, and the lowest layer is left.
pub proof fn law_ellipsoids_take_their_inside<F: Fn(Ask) -> u64>(
    f: F, e: Ellipsoid, chunk: ChunkPos, floor: u64, bottom: int, top: int, p: (int, int, int), x: int, y: int, z: int, i: nat, j: nat,
    level: int,
)
    requires
        correct64(f),
        even_ellipsoid(e, x, y, z, i, j),
        is64(floor, level, 13),
        -0x400_0000 < chunk.min_x < 0x400_0000 && -0x400_0000 < chunk.min_z < 0x400_0000,
        -0x400_0000 < bottom <= top < 0x400_0000,
    ensures
        e.takes(f, chunk, Skip::Floor(floor), bottom, top, p) == ({
            let (a, b, c) = (
                radii(chunk.min_x + p.0, 128, x, i), radii(p.1, -128, y, j), radii(chunk.min_z + p.2, 128, z, i));
            0 <= p.0 <= 15 && 0 <= p.2 <= 15 && bottom < p.1 <= top && level < b && a * a + b * b + c * c < 0x400_0000
        }),
{
    reveal(Ellipsoid::takes);
    let (wide, tall) = (pow2(i) as int, pow2(j) as int);
    lemma_small_power(i);
    lemma_small_power(j);
    lemma2_to64();
    let (bx, bz) = (chunk.min_x + p.0, chunk.min_z + p.2);
    let (a, b, c) = (radii(bx, 128, x, i), radii(p.1, -128, y, j), radii(bz, 128, z, i));
    lemma_bounds(f, e, x, y, z, i, j);
    lemma_within(bx, x, wide);
    lemma_within(bz, z, wide);
    lemma_within(p.1 - 1, y, tall);
    lemma_radius(256 * bx + 128 - x, wide, pow2((5 - i) as nat) as int);
    lemma_radius(256 * bz + 128 - z, wide, pow2((5 - i) as nat) as int);
    lemma_radius(256 * p.1 - 128 - y, tall, pow2((5 - j) as nat) as int);
    assert(a * a >= 0 && b * b >= 0 && c * c >= 0) by (nonlinear_arith);
    let (fx, lx) = ((x - 256 * wide) / 256 - 1, (x + 256 * wide) / 256);
    let (fz, lz) = ((z - 256 * wide) / 256 - 1, (z + 256 * wide) / 256);
    let (fy, ly) = ((y - 256 * tall) / 256 - 1, (y + 256 * tall) / 256 + 1);
    if 0 <= p.0 <= 15 && 0 <= p.2 <= 15 && bottom < p.1 <= top && fx <= bx <= lx && fz <= bz <= lz && fy < p.1 <= ly {
        lemma_near(f, e, floor, bx, p.1, bz, x, y, z, i, j, level);
    }
}

/// A block near an ellipsoid, by its distances.
proof fn lemma_near<F: Fn(Ask) -> u64>(
    f: F, e: Ellipsoid, floor: u64, bx: int, by: int, bz: int, x: int, y: int, z: int, i: nat, j: nat, level: int,
)
    requires
        correct64(f),
        even_ellipsoid(e, x, y, z, i, j),
        is64(floor, level, 13),
        -0x800_0000 < bx < 0x800_0000 && -0x800_0000 < by < 0x800_0000 && -0x800_0000 < bz < 0x800_0000,
        -0x8_0000 <= radii(bx, 128, x, i) <= 0x8_0000,
        -0x8_0000 <= radii(by, -128, y, j) <= 0x8_0000,
        -0x8_0000 <= radii(bz, 128, z, i) <= 0x8_0000,
    ensures
        ({
            let (a, b, c) = (radii(bx, 128, x, i), radii(by, -128, y, j), radii(bz, 128, z, i));
            let (xd, yd, zd) = (e.out_flat(f, bx, e.x), e.out_up(f, by), e.out_flat(f, bz, e.z));
            let sum = reply(f, Ask::Add64(reply(f, Ask::Mul64(xd, xd)), reply(f, Ask::Mul64(zd, zd))));
            &&& holds(f, Ask::LessEq64(ONE, sum)) == (a * a + c * c >= 0x400_0000)
            &&& Skip::Floor(floor).leaves(f, xd, yd, zd, by) == (b <= level || a * a + b * b + c * c >= 0x400_0000)
        }),
{
    let (a, b, c) = (radii(bx, 128, x, i), radii(by, -128, y, j), radii(bz, 128, z, i));
    lemma_flat(f, e, bx, e.x, x, i);
    lemma_flat(f, e, bz, e.z, z, i);
    lemma_up(f, e, by, y, j);
    let (xd, yd, zd) = (e.out_flat(f, bx, e.x), e.out_up(f, by), e.out_flat(f, bz, e.z));
    lemma_squared(a, 0x8_0000);
    lemma_squared(b, 0x8_0000);
    lemma_squared(c, 0x8_0000);
    lemma_mul64(f, xd, xd, a, a, 13, 13);
    lemma_mul64(f, yd, yd, b, b, 13, 13);
    lemma_mul64(f, zd, zd, c, c, 13, 13);
    let (xx, yy, zz) = (reply(f, Ask::Mul64(xd, xd)), reply(f, Ask::Mul64(yd, yd)), reply(f, Ask::Mul64(zd, zd)));
    lemma_add64(f, xx, zz, a * a, c * c, 26);
    lemma_add64(f, xx, yy, a * a, b * b, 26);
    lemma_add64(f, reply(f, Ask::Add64(xx, yy)), zz, a * a + b * b, c * c, 26);
    lemma_known64();
    lemma2_to64();
    lemma_finer64(ONE, 1, 0, 26);
    lemma_order64(f, ONE, reply(f, Ask::Add64(xx, zz)), 0x400_0000, a * a + c * c, 26);
    lemma_order64(f, ONE, reply(f, Ask::Add64(reply(f, Ask::Add64(xx, yy)), zz)), 0x400_0000, a * a + b * b + c * c, 26);
    lemma_order64(f, yd, floor, b, level, 13);
}

/// A distance of a radius or more squares to one or more.
pub(crate) proof fn lemma_radius(d: int, w: int, s: int)
    requires
        s * w == 32,
        w >= 1,
        s >= 1,
        s <= 32,
    ensures
        !(-256 * w < d < 256 * w) ==> (d * s) * (d * s) >= 0x400_0000,
        -0x4000 < d < 0x4000 ==> -0x8_0000 <= d * s <= 0x8_0000,
{
    if d >= 256 * w {
        assert(d * s >= 0x2000) by (nonlinear_arith)
            requires
                d >= 256 * w,
                s * w == 32,
                s >= 1,
        ;
        let v = d * s;
        assert(v * v >= 0x400_0000) by (nonlinear_arith)
            requires
                v >= 0x2000,
        ;
    }
    if d <= -256 * w {
        assert(d * s <= -0x2000) by (nonlinear_arith)
            requires
                d <= -256 * w,
                s * w == 32,
                s >= 1,
        ;
        let v = d * s;
        assert(v * v >= 0x400_0000) by (nonlinear_arith)
            requires
                v <= -0x2000,
        ;
    }
    if -0x4000 < d < 0x4000 {
        assert(-0x8_0000 <= d * s <= 0x8_0000) by (nonlinear_arith)
            requires
                -0x4000 < d < 0x4000,
                1 <= s <= 32,
        ;
    }
}

/// The bounds of such an ellipsoid.
proof fn lemma_bounds<F: Fn(Ask) -> u64>(f: F, e: Ellipsoid, x: int, y: int, z: int, i: nat, j: nat)
    requires
        correct64(f),
        even_ellipsoid(e, x, y, z, i, j),
    ensures
        floor_of(f, reply(f, Ask::Sub64(e.x, e.wide))) == (x - 256 * pow2(i)) / 256,
        floor_of(f, reply(f, Ask::Add64(e.x, e.wide))) == (x + 256 * pow2(i)) / 256,
        floor_of(f, reply(f, Ask::Sub64(e.z, e.wide))) == (z - 256 * pow2(i)) / 256,
        floor_of(f, reply(f, Ask::Add64(e.z, e.wide))) == (z + 256 * pow2(i)) / 256,
        floor_of(f, reply(f, Ask::Sub64(e.y, e.tall))) == (y - 256 * pow2(j)) / 256,
        floor_of(f, reply(f, Ask::Add64(e.y, e.tall))) == (y + 256 * pow2(j)) / 256,
{
    lemma2_to64();
    lemma_small_power(i);
    lemma_small_power(j);
    let (w, t) = (pow2(i) as int, pow2(j) as int);
    lemma_finer64(e.wide, w, 0, 8);
    lemma_finer64(e.tall, t, 0, 8);
    lemma_sub64(f, e.x, e.wide, x, w * 256, 8);
    lemma_add64(f, e.x, e.wide, x, w * 256, 8);
    lemma_sub64(f, e.z, e.wide, z, w * 256, 8);
    lemma_add64(f, e.z, e.wide, z, w * 256, 8);
    lemma_sub64(f, e.y, e.tall, y, t * 256, 8);
    lemma_add64(f, e.y, e.tall, y, t * 256, 8);
    lemma_floor_of(f, reply(f, Ask::Sub64(e.x, e.wide)), x - w * 256);
    lemma_floor_of(f, reply(f, Ask::Add64(e.x, e.wide)), x + w * 256);
    lemma_floor_of(f, reply(f, Ask::Sub64(e.z, e.wide)), z - w * 256);
    lemma_floor_of(f, reply(f, Ask::Add64(e.z, e.wide)), z + w * 256);
    lemma_floor_of(f, reply(f, Ask::Sub64(e.y, e.tall)), y - t * 256);
    lemma_floor_of(f, reply(f, Ask::Add64(e.y, e.tall)), y + t * 256);
}

proof fn lemma_flat<F: Fn(Ask) -> u64>(f: F, e: Ellipsoid, block: int, centre: u64, n: int, i: nat)
    requires
        correct64(f),
        is64(centre, n, 8),
        is64(e.wide, pow2(i) as int, 0),
        i <= 5,
        -0x800_0000 < block < 0x800_0000,
        -0x60_0000_0000 < n < 0x60_0000_0000,
    ensures
        is64(e.out_flat(f, block, centre), radii(block, 128, n, i), 13),
{
    lemma2_to64();
    lemma_int64(f, wrapped(block));
    let b = reply(f, Ask::FromInt64(wrapped(block)));
    lemma_finer64(b, block, 0, 8);
    lemma_known64();
    lemma_finer64(HALF, 1, 1, 7);
    lemma_add64(f, b, HALF, block * 256, 128, 8);
    lemma_out(f, reply(f, Ask::Add64(b, HALF)), centre, e.wide, block * 256 + 128, n, i);
}

proof fn lemma_up<F: Fn(Ask) -> u64>(f: F, e: Ellipsoid, y: int, n: int, j: nat)
    requires
        correct64(f),
        is64(e.y, n, 8),
        is64(e.tall, pow2(j) as int, 0),
        j <= 5,
        -0x800_0000 < y < 0x800_0000,
        -0x60_0000_0000 < n < 0x60_0000_0000,
    ensures
        is64(e.out_up(f, y), radii(y, -128, n, j), 13),
{
    lemma2_to64();
    lemma_int64(f, wrapped(y));
    let b = reply(f, Ask::FromInt64(wrapped(y)));
    lemma_finer64(b, y, 0, 8);
    lemma_known64();
    lemma_finer64(HALF, 1, 1, 7);
    lemma_sub64(f, b, HALF, y * 256, 128, 8);
    lemma_out(f, reply(f, Ask::Sub64(b, HALF)), e.y, e.tall, y * 256 - 128, n, j);
}

/// An ellipsoid is left out where it lies more than sixteen blocks and twice
/// its radius from the middle of a chunk, along x or z.
pub proof fn law_far_ellipsoids_are_left_out<F: Fn(Ask) -> u64>(f: F, e: Ellipsoid, chunk: ChunkPos, x: int, z: int, w: int)
    requires
        correct64(f),
        is64(e.x, x, 8) && is64(e.z, z, 8) && is64(e.wide, w, 8),
        -0x60_0000_0000 < x < 0x60_0000_0000 && -0x60_0000_0000 < z < 0x60_0000_0000 && 0 <= w < 0x60_0000_0000,
        -0x400_0000 < chunk.min_x < 0x400_0000 && -0x400_0000 < chunk.min_z < 0x400_0000,
    ensures
        e.apart(f, chunk) == ({
            let (dx, dz, most) = (x - 256 * (chunk.min_x + 8), z - 256 * (chunk.min_z + 8), 256 * 16 + 2 * w);
            !(-most <= dx <= most && -most <= dz <= most)
        }),
{
    lemma2_to64();
    lemma_known64();
    let (cx, cz) = (chunk.min_x + 8, chunk.min_z + 8);
    lemma_int64(f, wrapped(cx));
    lemma_int64(f, wrapped(cz));
    let (bx, bz) = (reply(f, Ask::FromInt64(wrapped(cx))), reply(f, Ask::FromInt64(wrapped(cz))));
    lemma_finer64(bx, cx, 0, 8);
    lemma_finer64(bz, cz, 0, 8);
    lemma_sub64(f, e.x, bx, x, cx * 256, 8);
    lemma_sub64(f, e.z, bz, z, cz * 256, 8);
    let (dx, dz) = (reply(f, Ask::Sub64(e.x, bx)), reply(f, Ask::Sub64(e.z, bz)));
    lemma_abs64(f, dx, x - cx * 256, 8);
    lemma_abs64(f, dz, z - cz * 256, 8);
    lemma_mul64(f, e.wide, TWO, w, 2, 8, 0);
    lemma2_to64_rest();
    lemma_bits64(SIXTEEN, 16, 0, 48);
    lemma_finer64(SIXTEEN, 16, 0, 8);
    let twice = reply(f, Ask::Mul64(e.wide, TWO));
    lemma_add64(f, SIXTEEN, twice, 4096, w * 2, 8);
    let most = reply(f, Ask::Add64(SIXTEEN, twice));
    let (ax, az) = (x - cx * 256, z - cz * 256);
    lemma_order64(f, most, reply(f, Ask::Abs64(dx)), 4096 + w * 2, if ax < 0 { -ax } else { ax }, 8);
    lemma_order64(f, most, reply(f, Ask::Abs64(dz)), 4096 + w * 2, if az < 0 { -az } else { az }, 8);
}

/// A tunnel that splits goes on a quarter turn to the left and to the right,
/// at a third of its pitch, as tall as wide, from where it is.
pub proof fn law_split_tunnels_part_ways<F: Fn(Ask) -> u64>(f: F, t: Tunnel, thickness: u32, heading: int, pitch: int, k: int)
    requires
        correct32(f),
        is32(t.heading, heading, 23),
        -0x30_0000 < heading < 0x30_0000,
        is32(t.pitch, 3 * pitch, k),
        -0x100_0000 < pitch < 0x100_0000,
    ensures
        ({
            let (l, r) = (parted(f, t, thickness, true), parted(f, t, thickness, false));
            // Half of pi in parts of two to the power of 23.
            &&& is32(l.heading, heading - 13_176_795, 23) && is32(r.heading, heading + 13_176_795, 23)
            &&& is32(l.pitch, pitch, k) && r.pitch == l.pitch
            &&& l.thickness == thickness && r.thickness == thickness && l.y_scale == ONE && r.y_scale == ONE
            &&& (l.x, l.y, l.z, l.wide, l.tall) == (t.x, t.y, t.z, t.wide, t.tall)
            &&& (r.x, r.y, r.z, r.wide, r.tall) == (t.x, t.y, t.z, t.wide, t.tall)
        }),
{
    lemma2_to64();
    lemma_bits32(HALF_PI_32, 13_176_795, 23, 0);
    lemma_sub32(f, t.heading, HALF_PI_32, heading, 13_176_795, 23);
    lemma_add32(f, t.heading, HALF_PI_32, heading, 13_176_795, 23);
    lemma_bits32(crate::load::THREE_32, 3, 0, 22);
    crate::numbers::lemma_div32(f, t.pitch, crate::load::THREE_32, 3 * pitch, 3, pitch, k);
}

/// A tunnel is one and a half blocks wide and more by the sine of how far it
/// has come, times its thickness; its parts have half and half of a draw.
pub proof fn law_tunnels_swell<F: Fn(Ask) -> u64>(f: F, thickness: u32, turn: u32, total: int, q: int, k: int, sine: int, t: int)
    requires
        correct(f),
        0 < total < 0x1000,
        is32(turn, q * total, k),
        -0x100_0000 < q < 0x100_0000,
        forall|x: u64| is64(x, q, k) ==> is32(#[trigger] table_sin(f, x), sine, 10),
        -1024 <= sine <= 1024,
        is32(thickness, t, 10),
        0 <= t < 0x4000,
    ensures
        is64(girth(f, thickness, turn, total), 0x18_0000 + sine * t, 20),
{
    lemma_int32(f, total as i32);
    let n = low(f, Ask::FromInt32(total as i32));
    crate::numbers::lemma_div32(f, turn, n, q * total, total, q, k);
    let part = low(f, Ask::Div32(turn, n));
    lemma_widen(f, part, q, k);
    let angle = reply(f, Ask::Widen(part));
    assert(is32(table_sin(f, angle), sine, 10));
    assert(-0x100_0000 < sine * t < 0x100_0000) by (nonlinear_arith)
        requires
            -1024 <= sine <= 1024,
            0 <= t < 0x4000,
    ;
    let s = table_sin(f, angle);
    lemma_mul32(f, s, thickness, sine, t, 10, 10);
    let m = low(f, Ask::Mul32(s, thickness));
    lemma_widen(f, m, sine * t, 20);
    lemma2_to64();
    lemma2_to64_rest();
    lemma_bits64(THREE_HALVES, 3, 1, 51);
    lemma_finer64(THREE_HALVES, 3, 1, 19);
    lemma_add64(f, THREE_HALVES, reply(f, Ask::Widen(m)), 0x18_0000, sine * t, 20);
}

/// How thick the parts of a tunnel are: between a half and one.
pub proof fn law_parts_are_thinner<F: Fn(Ask) -> u64>(f: F, r: LegacyRandomSource, u: int)
    requires
        correct32(f),
        is32(single(f, r).0, u, 22),
        0 <= u < 0x40_0000,
    ensures
        is32(thinner(f, r).0, 0x40_0000 + u, 23),
        thinner(f, r).1 == single(f, r).1,
{
    crate::numbers::lemma_known32();
    lemma2_to64();
    let v = single(f, r).0;
    lemma_mul32(f, v, HALF_32, u, 1, 22, 1);
    lemma_finer32(HALF_32, 1, 1, 22);
    lemma_add32(f, low(f, Ask::Mul32(v, HALF_32)), HALF_32, u, 0x40_0000, 23);
}

/// Before a biome with carvers comes, a chunk's cells stay empty.
proof fn lemma_none_before<F: Fn(Ask) -> u64>(stage: CarverStage, f: F, chunk: (int, int), biomes: Seq<u16>, n: nat)
    requires
        biomes.len() == 289,
        n <= 289,
        forall|k: int|
            0 <= k < n ==> (#[trigger] biomes[k]) as int >= stage.biome_carvers@.len() || stage.biome_carvers@[biomes[k] as int]@.len()
                == 0,
    ensures
        stage.surrounded(f, chunk, biomes, n) == Cells::empty(),
    decreases n,
{
    if n > 0 {
        lemma_none_before(stage, f, chunk, biomes, (n - 1) as nat);
        assert(biomes[n - 1] as int >= stage.biome_carvers@.len() || stage.biome_carvers@[biomes[n - 1] as int]@.len() == 0);
    }
}

proof fn lemma_none_after<F: Fn(Ask) -> u64>(stage: CarverStage, f: F, chunk: (int, int), biomes: Seq<u16>, m: nat, n: nat)
    requires
        biomes.len() == 289,
        m <= n <= 289,
        forall|k: int|
            m <= k < n ==> (#[trigger] biomes[k]) as int >= stage.biome_carvers@.len() || stage.biome_carvers@[biomes[k] as int]@.len()
                == 0,
    ensures
        stage.surrounded(f, chunk, biomes, n) == stage.surrounded(f, chunk, biomes, m),
    decreases n,
{
    if m < n {
        lemma_none_after(stage, f, chunk, biomes, m, (n - 1) as nat);
        assert(biomes[n - 1] as int >= stage.biome_carvers@.len() || stage.biome_carvers@[biomes[n - 1] as int]@.len() == 0);
    }
}

/// Every chunk up to eight away carves into a chunk, by the biome that is
/// listed for it, z running faster than x: where it is the only one whose
/// biome has carvers, the chunk's cells are what they carve from there.
pub proof fn law_chunks_around_carve<F: Fn(Ask) -> u64>(stage: CarverStage, f: F, chunk: (int, int), biomes: Seq<u16>, dx: int, dz: int)
    requires
        biomes.len() == 289,
        -8 <= dx <= 8,
        -8 <= dz <= 8,
        ({
            let at = (dx + 8) * 17 + dz + 8;
            &&& (biomes[at] as int) < stage.biome_carvers@.len()
            &&& forall|k: int|
                0 <= k < 289 && k != at ==> (#[trigger] biomes[k]) as int >= stage.biome_carvers@.len()
                    || stage.biome_carvers@[biomes[k] as int]@.len() == 0
        }),
    ensures
        ({
            let list = stage.biome_carvers@[biomes[(dx + 8) * 17 + dz + 8] as int]@;
            stage.surrounded(f, chunk, biomes, 289) == stage.listed(
                f, chunk, (chunk.0 + dx, chunk.1 + dz), list, Cells::empty(), list.len())
        }),
{
    let at = (dx + 8) * 17 + dz + 8;
    lemma_none_before(stage, f, chunk, biomes, at as nat);
    lemma_none_after(stage, f, chunk, biomes, (at + 1) as nat, 289);
    assert(at / 17 == dx + 8 && at % 17 == dz + 8);
}

/// A carved block that may be carved becomes what an open block is there, by
/// the id of that substance, and the change is listed. Of the other blocks
/// only the one below may change, and only where grass was met above dirt.
pub proof fn law_carved_blocks_open<F: Fn(Ask) -> u64, T: Fn(&Vec<Edit>, usize, i32, usize, bool) -> Option<u16>>(
    g: Ground, f: F, t: T, x: usize, y: i32, z: usize, c: Carving, s: Substance, other: int,
)
    requires
        x < 16,
        z < 16,
        g.vol.min@[1] < y,
        y > i32::MIN,
        0 <= g.place(x as int, y as int, z as int) < c.ids.len(),
        0 <= other < c.ids.len(),
        substance_at(f, g.waters, (g.vol.min@[0] + x) as i32, y, (g.vol.min@[2] + z) as i32, 0).0 == Some(s),
    ensures
        ({
            let at = g.place(x as int, y as int, z as int);
            let d = g.block(f, t, x, y, z, c);
            &&& g.uncarvable[c.ids[at] as int] ==> d == c
            &&& !g.uncarvable[c.ids[at] as int] ==> {
                &&& d.ids.len() == c.ids.len()
                &&& s is Air ==> d.ids[at] == g.palette.air
                &&& s is Water ==> d.ids[at] == g.palette.water
                &&& s is Lava ==> d.ids[at] == g.palette.lava
                &&& d.carved == c.carved + 1
                &&& d.edits.len() > c.edits.len() && d.edits[c.edits.len() as int] == (Edit::Carve { x, y, z, id: d.ids[at] })
                &&& other != at && other != at - 1 ==> d.ids[other] == c.ids[other]
                &&& !(c.grass || g.grass[c.ids[at] as int]) || !g.dirt[c.ids[at - 1] as int] ==> at > 0 ==> d.ids[at - 1]
                    == c.ids[at - 1]
                &&& d.grass == (c.grass || g.grass[c.ids[at] as int])
            }
        }),
{
    let at = g.place(x as int, y as int, z as int);
    assert(g.place(x as int, y - 1, z as int) == at - 1);
}

/// A block of density zero is open: above all aquifers a carved block is the
/// world's fluid there, and lava where that is lava.
pub proof fn law_carved_blocks_hold_the_worlds_fluid<F: Fn(Ask) -> u64>(f: F, w: crate::aquifer26::Waters, x: i32, y: i32, z: i32)
    requires
        correct64(f),
    ensures
        y > w.skip_above ==> substance_at(f, w, x, y, z, 0).0 == Some(
            crate::aquifer26::as_substance(w.picker.picked(y as int).fluid_at(y as int)),
        ),
        w.picker.picked(y as int).fluid_at(y as int) is Lava ==> substance_at(f, w, x, y, z, 0).0 == Some(Substance::Lava),
{
    lemma_zero64(0);
    crate::aquiferlaws::law_blocks_by_density(f, w, x, y, z, 0);
}

/// An angle comes to an entry of the sine table.
pub open spec fn entry_of<F: Fn(Ask) -> u64>(f: F, angle: u64, i: int) -> bool {
    is64(reply(f, Ask::Mul64(angle, SIN_SCALE)), i, 0) && 0 <= i < 0x1000_0000
}

/// Sines are read from a table of 65536 entries to a turn; the entry is the
/// sine of its own angle. Cosines are sines a quarter turn on, and whole
/// turns change nothing.
pub proof fn law_sines_are_read_by_entry<F: Fn(Ask) -> u64>(f: F, a: u64, b: u64, i: int, j: int)
    requires
        correct64(f),
        entry_of(f, a, i),
        entry_of(f, b, j),
    ensures
        table_sin(f, a) == low(
            f,
            Ask::Narrow(reply(f, Ask::Sin64(reply(f, Ask::Div64(reply(f, Ask::FromInt64((i % 0x1_0000) as i32)), SIN_SCALE))))),
        ),
        j % 0x1_0000 == (i + 0x4000) % 0x1_0000 ==> table_cos(f, a) == table_sin(f, b),
        j % 0x1_0000 == i % 0x1_0000 ==> table_sin(f, a) == table_sin(f, b),
{
    lemma2_to64();
    lemma2_to64_rest();
    lemma_bits64(QUARTER_TURN, 0x4000, 0, 38);
    let (p, q) = (reply(f, Ask::Mul64(a, SIN_SCALE)), reply(f, Ask::Mul64(b, SIN_SCALE)));
    lemma_add64(f, p, QUARTER_TURN, i, 0x4000, 0);
    lemma_entry(f, p, i);
    lemma_entry(f, q, j);
    lemma_entry(f, reply(f, Ask::Add64(p, QUARTER_TURN)), i + 0x4000);
}

proof fn lemma_entry<F: Fn(Ask) -> u64>(f: F, turn: u64, i: int)
    requires
        correct64(f),
        is64(turn, i, 0),
        0 <= i < 0x2000_0000,
    ensures
        reply(f, Ask::ToLong64(turn)) == i,
{
    reveal(correct64);
    let u = crate::numbers::one64();
    vstd::arithmetic::power2::lemma_pow2_pos(1074);
    assert(-0x8000_0000_0000_0000 * u <= i * u < 0x8000_0000_0000_0000 * u && i * u >= 0) by (nonlinear_arith)
        requires
            0 <= i < 0x2000_0000,
            u > 0,
    ;
    vstd::arithmetic::div_mod::lemma_div_by_multiple(i, u);
    let r = reply(f, Ask::ToLong64(turn));
    assert(r as i64 == i);
    assert(r == i) by {
        assert((r as i64) as u64 == r) by (bit_vector);
    }
}

} // verus!
