//! Perlin noise octaves and stacks of them. Values are single precision
//! from the gradient dot product outward; each octave is its own lattice.

use vstd::prelude::*;
use crate::arith::{answers, holds, lerp32, lerped32, low, reply, Ask, HALF, ONE, ONE_32, TWO};
use crate::bitrandom::DOUBLE_UNIT;
use crate::noise26::{layered, LayerPlan, NoiseParameters26};
use crate::volume::Volume;
use crate::xoroshiro::{drawn, settled, XoroshiroPositionalRandomFactory, XoroshiroRandomSource, TRIES};

verus! {

/// Coordinates are brought into a range of this length.
pub const ROUND_OFF: u64 = 0x4180_0000_0000_0000;

/// The largest double below half of that, and its negative.
pub const HALF_ROUND_OFF: u64 = 0x416F_FFFF_FFFF_FFFF;

pub const MINUS_HALF_ROUND_OFF: u64 = 0xC16F_FFFF_FFFF_FFFF;

/// 256.
pub const TWO_FIFTY_SIX: u64 = 0x4070_0000_0000_0000;

/// A ten-millionth, rounded to a single and widened.
pub const TINY: u64 = 0x3E7A_D7F2_A000_0000;

/// 6, 10 and 15 as singles.
pub const SIX_32: u32 = 0x40C0_0000;

pub const TEN_32: u32 = 0x4120_0000;

pub const FIFTEEN_32: u32 = 0x4170_0000;

/// A coordinate brought into range.
pub open spec fn wrapped<F: Fn(Ask) -> u64>(f: F, x: u64) -> u64 {
    if holds(f, Ask::LessEq64(MINUS_HALF_ROUND_OFF, x)) && holds(f, Ask::Less64(x, HALF_ROUND_OFF)) {
        x
    } else {
        let turns = reply(f, Ask::Floor64(reply(f, Ask::Add64(reply(f, Ask::Div64(x, ROUND_OFF)), HALF))));
        reply(f, Ask::Sub64(x, reply(f, Ask::Mul64(turns, ROUND_OFF))))
    }
}

/// Bring a coordinate into range, so that singles can tell it apart.
pub fn wrap<F: Fn(Ask) -> u64>(f: &F, x: u64) -> (r: u64)
    requires
        answers(*f),
    ensures
        r == wrapped(*f, x),
{
    if f(Ask::LessEq64(MINUS_HALF_ROUND_OFF, x)) != 0 && f(Ask::Less64(x, HALF_ROUND_OFF)) != 0 {
        x
    } else {
        let q: u64 = f(Ask::Div64(x, ROUND_OFF));
        let h: u64 = f(Ask::Add64(q, HALF));
        let turns: u64 = f(Ask::Floor64(h));
        let back: u64 = f(Ask::Mul64(turns, ROUND_OFF));
        f(Ask::Sub64(x, back))
    }
}

/// `x * x * x * (x * (x * 6 - 15) + 10)`.
pub open spec fn smoothed<F: Fn(Ask) -> u64>(f: F, x: u32) -> u32 {
    let cube = low(f, Ask::Mul32(low(f, Ask::Mul32(x, x)), x));
    let inner = low(f, Ask::Sub32(low(f, Ask::Mul32(x, SIX_32)), FIFTEEN_32));
    low(f, Ask::Mul32(cube, low(f, Ask::Add32(low(f, Ask::Mul32(x, inner)), TEN_32))))
}

pub fn smoothstep<F: Fn(Ask) -> u64>(f: &F, x: u32) -> (r: u32)
    requires
        answers(*f),
    ensures
        r == smoothed(*f, x),
{
    let square: u32 = f(Ask::Mul32(x, x)) as u32;
    let cube: u32 = f(Ask::Mul32(square, x)) as u32;
    let six: u32 = f(Ask::Mul32(x, SIX_32)) as u32;
    let inner: u32 = f(Ask::Sub32(six, FIFTEEN_32)) as u32;
    let outer: u32 = f(Ask::Mul32(x, inner)) as u32;
    let sum: u32 = f(Ask::Add32(outer, TEN_32)) as u32;
    f(Ask::Mul32(cube, sum)) as u32
}

/// Two values blended.
pub fn lerp<F: Fn(Ask) -> u64>(f: &F, alpha: u32, p0: u32, p1: u32) -> (r: u32)
    requires
        answers(*f),
    ensures
        r == lerped32(*f, alpha, p0, p1),
{
    lerp32(f, alpha, p0, p1)
}

/// Four values blended along two axes.
pub open spec fn blended2<F: Fn(Ask) -> u64>(f: F, a1: u32, a2: u32, x00: u32, x10: u32, x01: u32, x11: u32) -> u32 {
    lerped32(f, a2, lerped32(f, a1, x00, x10), lerped32(f, a1, x01, x11))
}

pub fn lerp2<F: Fn(Ask) -> u64>(f: &F, a1: u32, a2: u32, x00: u32, x10: u32, x01: u32, x11: u32) -> (r: u32)
    requires
        answers(*f),
    ensures
        r == blended2(*f, a1, a2, x00, x10, x01, x11),
{
    let lo: u32 = lerp32(f, a1, x00, x10);
    let hi: u32 = lerp32(f, a1, x01, x11);
    lerp32(f, a2, lo, hi)
}

/// The eight corners of a cell blended along its axes. The first axis runs
/// fastest.
pub open spec fn blended3<F: Fn(Ask) -> u64>(f: F, a1: u32, a2: u32, a3: u32, v: Seq<u32>) -> u32 {
    lerped32(f, a3, blended2(f, a1, a2, v[0], v[1], v[2], v[3]), blended2(f, a1, a2, v[4], v[5], v[6], v[7]))
}

pub fn lerp3<F: Fn(Ask) -> u64>(f: &F, a1: u32, a2: u32, a3: u32, v: &[u32; 8]) -> (r: u32)
    requires
        answers(*f),
    ensures
        r == blended3(*f, a1, a2, a3, v@),
{
    let lo: u32 = lerp2(f, a1, a2, v[0], v[1], v[2], v[3]);
    let hi: u32 = lerp2(f, a1, a2, v[4], v[5], v[6], v[7]);
    lerp32(f, a3, lo, hi)
}

/// The sixteen gradients.
pub open spec fn gradient_of(h: int) -> (i32, i32, i32) {
    if h == 0 || h == 12 {
        (1, 1, 0)
    } else if h == 1 || h == 14 {
        (-1i32, 1, 0)
    } else if h == 2 {
        (1, -1i32, 0)
    } else if h == 3 {
        (-1i32, -1i32, 0)
    } else if h == 4 {
        (1, 0, 1)
    } else if h == 5 {
        (-1i32, 0, 1)
    } else if h == 6 {
        (1, 0, -1i32)
    } else if h == 7 {
        (-1i32, 0, -1i32)
    } else if h == 8 {
        (0, 1, 1)
    } else if h == 9 || h == 13 {
        (0, -1i32, 1)
    } else if h == 10 {
        (0, 1, -1i32)
    } else {
        (0, -1i32, -1i32)
    }
}

fn gradient(h: u8) -> (r: (i32, i32, i32))
    requires
        h < 16,
    ensures
        r == gradient_of(h as int),
{
    match h {
        0 | 12 => (1, 1, 0),
        1 | 14 => (-1, 1, 0),
        2 => (1, -1, 0),
        3 => (-1, -1, 0),
        4 => (1, 0, 1),
        5 => (-1, 0, 1),
        6 => (1, 0, -1),
        7 => (-1, 0, -1),
        8 => (0, 1, 1),
        9 | 13 => (0, -1, 1),
        10 => (0, 1, -1),
        _ => (0, -1, -1),
    }
}

/// In which order a dot product is summed.
#[derive(Clone, Copy, Debug, PartialEq, Eq, Structural)]
pub enum Style {
    /// Along x, y, z.
    Point,
    /// Along x and z, which a column shares, then y.
    Volume,
}

/// The part of a dot product that a column shares: x and z.
pub open spec fn level_part<F: Fn(Ask) -> u64>(f: F, h: int, x: u32, z: u32) -> u32 {
    let g = gradient_of(h);
    low(f, Ask::Add32(
        low(f, Ask::Mul32(low(f, Ask::FromInt32(g.0)), x)),
        low(f, Ask::Mul32(low(f, Ask::FromInt32(g.2)), z)),
    ))
}

/// A gradient times an offset.
pub open spec fn dotted<F: Fn(Ask) -> u64>(f: F, style: Style, h: int, x: u32, y: u32, z: u32) -> u32 {
    let g = gradient_of(h);
    let up = low(f, Ask::Mul32(low(f, Ask::FromInt32(g.1)), y));
    match style {
        Style::Point => low(f, Ask::Add32(
            low(f, Ask::Add32(low(f, Ask::Mul32(low(f, Ask::FromInt32(g.0)), x)), up)),
            low(f, Ask::Mul32(low(f, Ask::FromInt32(g.2)), z)),
        )),
        Style::Volume => low(f, Ask::Add32(level_part(f, h, x, z), up)),
    }
}

fn grad_dot<F: Fn(Ask) -> u64>(f: &F, style: Style, h: u8, x: u32, y: u32, z: u32) -> (r: u32)
    requires
        answers(*f),
        h < 16,
    ensures
        r == dotted(*f, style, h as int, x, y, z),
{
    let (gx, gy, gz): (i32, i32, i32) = gradient(h);
    let (a, b, c): (u32, u32, u32) = (f(Ask::FromInt32(gx)) as u32, f(Ask::FromInt32(gy)) as u32, f(Ask::FromInt32(gz)) as u32);
    let (ax, by, cz): (u32, u32, u32) = (f(Ask::Mul32(a, x)) as u32, f(Ask::Mul32(b, y)) as u32, f(Ask::Mul32(c, z)) as u32);
    match style {
        Style::Point => {
            let s: u32 = f(Ask::Add32(ax, by)) as u32;
            f(Ask::Add32(s, cz)) as u32
        },
        Style::Volume => {
            let s: u32 = f(Ask::Add32(ax, cz)) as u32;
            f(Ask::Add32(s, by)) as u32
        },
    }
}

/// One octave: a permutation of the bytes and an offset.
#[derive(Clone, Copy, Debug)]
pub struct PerlinNoise {
    pub perms: [u8; 256],
    pub offset_x: u64,
    pub offset_y: u64,
    pub offset_z: u64,
}

/// Which corner of a cell lies on the far side of an axis: bit 0 is x, bit
/// 1 is y, bit 2 is z.
pub open spec fn far_x(k: int) -> bool {
    k % 2 == 1
}

pub open spec fn far_y(k: int) -> bool {
    (k / 2) % 2 == 1
}

pub open spec fn far_z(k: int) -> bool {
    k / 4 == 1
}

pub open spec fn one_if(b: bool) -> int {
    if b { 1 } else { 0 }
}

/// The distance to a near or a far corner.
pub open spec fn off_by<F: Fn(Ask) -> u64>(f: F, r: u32, far: bool) -> u32 {
    if far { low(f, Ask::Sub32(r, ONE_32)) } else { r }
}

/// Where a point lies on an axis: the cell and how far into it.
pub open spec fn located<F: Fn(Ask) -> u64>(f: F, v: u64, offset: u64) -> (i32, u64) {
    let at = reply(f, Ask::Add64(wrapped(f, v), offset));
    let cell = low(f, Ask::ToInt64(reply(f, Ask::Floor64(at)))) as i32;
    (cell, reply(f, Ask::Sub64(at, reply(f, Ask::FromInt64(cell)))))
}

fn locate<F: Fn(Ask) -> u64>(f: &F, v: u64, offset: u64) -> (r: (i32, u64))
    requires
        answers(*f),
    ensures
        r == located(*f, v, offset),
{
    let w: u64 = wrap(f, v);
    let at: u64 = f(Ask::Add64(w, offset));
    let down: u64 = f(Ask::Floor64(at));
    let cell: i32 = (f(Ask::ToInt64(down)) as u32) as i32;
    let back: u64 = f(Ask::FromInt64(cell));
    (cell, f(Ask::Sub64(at, back)))
}

/// How far a smeared noise's y is set back: the height in its cell cut to
/// a multiple of a scale.
pub open spec fn set_back<F: Fn(Ask) -> u64>(f: F, scale: u64, y: u64, rest: u64) -> u64 {
    let limit = if holds(f, Ask::LessEq64(0, y)) && holds(f, Ask::Less64(y, rest)) { y } else { rest };
    let n = low(f, Ask::ToInt64(reply(f, Ask::Floor64(reply(f, Ask::Add64(reply(f, Ask::Div64(limit, scale)), TINY)))))) as i32;
    reply(f, Ask::Mul64(reply(f, Ask::FromInt64(n)), scale))
}

/// The y that a noise's gradients see.
pub open spec fn seen_y<F: Fn(Ask) -> u64>(f: F, fudge: Option<u64>, y: u64, rest: u64) -> u32 {
    match fudge {
        None => low(f, Ask::Narrow(rest)),
        Some(scale) => low(f, Ask::Narrow(reply(f, Ask::Sub64(rest, set_back(f, scale, y, rest))))),
    }
}

fn fudge_y<F: Fn(Ask) -> u64>(f: &F, fudge: Option<u64>, y: u64, rest: u64) -> (r: u32)
    requires
        answers(*f),
    ensures
        r == seen_y(*f, fudge, y, rest),
{
    match fudge {
        None => f(Ask::Narrow(rest)) as u32,
        Some(scale) => {
            let limit: u64 = if f(Ask::LessEq64(0, y)) != 0 && f(Ask::Less64(y, rest)) != 0 { y } else { rest };
            let q: u64 = f(Ask::Div64(limit, scale));
            let e: u64 = f(Ask::Add64(q, TINY));
            let down: u64 = f(Ask::Floor64(e));
            let n: i32 = (f(Ask::ToInt64(down)) as u32) as i32;
            let m: u64 = f(Ask::FromInt64(n));
            let back: u64 = f(Ask::Mul64(m, scale));
            let seen: u64 = f(Ask::Sub64(rest, back));
            f(Ask::Narrow(seen)) as u32
        },
    }
}

/// A point's neighbourhood: its cell, how far into it the gradients see it
/// to be, and the y that the blend goes by.
#[derive(Clone, Copy, Debug)]
pub struct Spot {
    pub x: i32,
    pub y: i32,
    pub z: i32,
    pub rx: u32,
    pub ry: u32,
    pub rz: u32,
    pub smooth_y: u32,
}

/// Two entries exchanged.
pub open spec fn swapped(p: Seq<u8>, i: int, j: int) -> Seq<u8> {
    p.update(i, p[j]).update(j, p[i])
}

/// A permutation shuffled from place `i` on.
pub open spec fn shuffled(p: Seq<u8>, r: XoroshiroRandomSource, i: int) -> (Seq<u8>, XoroshiroRandomSource)
    decreases 256 - i,
{
    if i >= 256 {
        (p, r)
    } else {
        let (k, s) = drawn(r, 256 - i, TRIES as nat);
        shuffled(swapped(p, i, i + k), s, i + 1)
    }
}

/// A number from zero to below 256 that a generator yields.
pub open spec fn offset_of<F: Fn(Ask) -> u64>(f: F, r: XoroshiroRandomSource) -> u64 {
    reply(f, Ask::Mul64(reply(f, Ask::Mul64(reply(f, Ask::FromLong64((r.long() / 2048) as i64)), DOUBLE_UNIT)), TWO_FIFTY_SIX))
}

fn next_offset<F: Fn(Ask) -> u64>(random: &mut XoroshiroRandomSource, f: &F) -> (r: u64)
    requires
        answers(*f),
    ensures
        r == offset_of(*f, *old(random)),
        *final(random) == old(random).stepped(),
{
    let long: u64 = random.next_long() / 2048;
    let d: u64 = f(Ask::FromLong64(long as i64));
    let u: u64 = f(Ask::Mul64(d, DOUBLE_UNIT));
    f(Ask::Mul64(u, TWO_FIFTY_SIX))
}

/// A swap keeps what is there, and nothing comes twice.
proof fn lemma_swapped(p: Seq<u8>, i: int, j: int)
    requires
        0 <= i < p.len(),
        0 <= j < p.len(),
        p.no_duplicates(),
    ensures
        swapped(p, i, j).no_duplicates(),
        swapped(p, i, j).len() == p.len(),
{
    let q = swapped(p, i, j);
    let home = |a: int| if a == i { j } else if a == j { i } else { a };
    assert forall|a: int| 0 <= a < q.len() implies #[trigger] q[a] == p[home(a)] by {}
    assert forall|a: int, b: int| 0 <= a < b < q.len() implies q[a] != q[b] by {
        assert(q[a] == p[home(a)] && q[b] == p[home(b)]);
        assert(home(a) != home(b));
    }
}

impl PerlinNoise {
    /// The noise that a generator yields, and the generator after it.
    pub open spec fn made<F: Fn(Ask) -> u64>(n: PerlinNoise, f: F, r: XoroshiroRandomSource) -> bool {
        &&& n.offset_x == offset_of(f, r)
        &&& n.offset_y == offset_of(f, r.stepped())
        &&& n.offset_z == offset_of(f, r.stepped().stepped())
        &&& n.perms@ == PerlinNoise::shuffle(r).0
    }

    /// The bytes in an order that a generator yields.
    pub open spec fn shuffle(r: XoroshiroRandomSource) -> (Seq<u8>, XoroshiroRandomSource) {
        shuffled(Seq::new(256, |i: int| i as u8), r.stepped().stepped().stepped(), 0)
    }

    /// A noise from a generator: three offsets, then the bytes shuffled.
    /// Every byte stays there once.
    pub fn new<F: Fn(Ask) -> u64>(random: &mut XoroshiroRandomSource, f: &F) -> (r: PerlinNoise)
        requires
            answers(*f),
        ensures
            PerlinNoise::made(r, *f, *old(random)),
            *final(random) == PerlinNoise::shuffle(*old(random)).1,
            r.perms@.no_duplicates(),
    {
        let ghost start = *random;
        let offset_x: u64 = next_offset(random, f);
        let offset_y: u64 = next_offset(random, f);
        let offset_z: u64 = next_offset(random, f);
        let mut perms: [u8; 256] = [0;256];
        let mut k: usize = 0;
        while k < 256
            invariant
                k <= 256,
                forall|i: int| 0 <= i < k ==> #[trigger] perms@[i] == i,
            decreases 256 - k,
        {
            perms[k] = k as u8;
            k += 1;
        }
        proof { assert(perms@ =~= Seq::new(256, |i: int| i as u8)); }
        let mut i: usize = 0;
        while i < 256
            invariant
                i <= 256,
                perms@.no_duplicates(),
                shuffled(perms@, *random, i as int) == PerlinNoise::shuffle(start),
            decreases 256 - i,
        {
            let ghost p = perms@;
            let k: u32 = random.next_int_bounded((256 - i) as u32);
            let j: usize = i + k as usize;
            let (a, b): (u8, u8) = (perms[i], perms[j]);
            perms[i] = b;
            perms[j] = a;
            proof {
                assert(perms@ =~= swapped(p, i as int, j as int));
                lemma_swapped(p, i as int, j as int);
            }
            i += 1;
        }
        PerlinNoise { perms, offset_x, offset_y, offset_z }
    }

    pub open spec fn permuted(self, x: int) -> int {
        self.perms@[x % 256] as int
    }

    fn permute(&self, x: i64) -> (r: u8)
        ensures
            r == self.permuted(x as int),
    {
        let m: i64 = x % 256;
        let i: i64 = if m < 0 { m + 256 } else { m };
        proof {
            assert(i == x as int % 256) by {
                if x < 0 {
                    let n = -(x as int);
                    assert(m == -(n % 256));
                }
            }
        }
        self.perms[i as usize]
    }

    /// The gradient of a corner of a cell.
    pub open spec fn hashed(self, x: int, y: int, z: int, k: int) -> int {
        self.permuted(self.permuted(self.permuted(x + one_if(far_x(k))) + y + one_if(far_y(k))) + z + one_if(far_z(k))) % 16
    }

    /// The gradients of a cell's corners, in the order in which they are
    /// blended.
    fn cell_gradients(&self, x: i32, y: i32, z: i32) -> (r: [u8; 8])
        ensures
            forall|k: int| 0 <= k < 8 ==> 0 <= #[trigger] r@[k] < 16 && r@[k] == self.hashed(x as int, y as int, z as int, k),
    {
        let x0: i64 = self.permute(x as i64) as i64;
        let x1: i64 = self.permute(x as i64 + 1) as i64;
        let xy00: i64 = self.permute(x0 + y as i64) as i64 + z as i64;
        let xy01: i64 = self.permute(x0 + y as i64 + 1) as i64 + z as i64;
        let xy10: i64 = self.permute(x1 + y as i64) as i64 + z as i64;
        let xy11: i64 = self.permute(x1 + y as i64 + 1) as i64 + z as i64;
        let r: [u8; 8] = [
            self.permute(xy00) % 16,
            self.permute(xy10) % 16,
            self.permute(xy01) % 16,
            self.permute(xy11) % 16,
            self.permute(xy00 + 1) % 16,
            self.permute(xy10 + 1) % 16,
            self.permute(xy01 + 1) % 16,
            self.permute(xy11 + 1) % 16,
        ];
        proof {
            assert forall|k: int| 0 <= k < 8 implies 0 <= #[trigger] r@[k] < 16 && r@[k] == self.hashed(
                x as int, y as int, z as int, k) by {
                assert(k == 0 || k == 1 || k == 2 || k == 3 || k == 4 || k == 5 || k == 6 || k == 7);
            }
        }
        r
    }

    /// What a corner contributes.
    pub open spec fn corner<F: Fn(Ask) -> u64>(self, f: F, style: Style, s: Spot, k: int) -> u32 {
        dotted(
            f,
            style,
            self.hashed(s.x as int, s.y as int, s.z as int, k),
            off_by(f, s.rx, far_x(k)),
            off_by(f, s.ry, far_y(k)),
            off_by(f, s.rz, far_z(k)),
        )
    }

    /// The corners of a point's cell, blended.
    pub open spec fn blended<F: Fn(Ask) -> u64>(self, f: F, style: Style, s: Spot) -> u32 {
        blended3(f, smoothed(f, s.rx), smoothed(f, s.smooth_y), smoothed(f, s.rz), Seq::new(8, |k: int| self.corner(f, style, s, k)))
    }

    fn sample_and_lerp<F: Fn(Ask) -> u64>(&self, style: Style, s: Spot, f: &F) -> (r: u32)
        requires
            answers(*f),
        ensures
            r == self.blended(*f, style, s),
    {
        let g = self.cell_gradients(s.x, s.y, s.z);
        let x1: u32 = f(Ask::Sub32(s.rx, ONE_32)) as u32;
        let y1: u32 = f(Ask::Sub32(s.ry, ONE_32)) as u32;
        let z1: u32 = f(Ask::Sub32(s.rz, ONE_32)) as u32;
        let mut v: [u32; 8] = [0;8];
        let mut k: usize = 0;
        while k < 8
            invariant
                k <= 8,
                answers(*f),
                forall|i: int| 0 <= i < 8 ==> 0 <= #[trigger] g@[i] < 16 && g@[i] == self.hashed(s.x as int, s.y as int, s.z as int, i),
                x1 == low(*f, Ask::Sub32(s.rx, ONE_32)),
                y1 == low(*f, Ask::Sub32(s.ry, ONE_32)),
                z1 == low(*f, Ask::Sub32(s.rz, ONE_32)),
                forall|i: int| 0 <= i < k ==> #[trigger] v@[i] == self.corner(*f, style, s, i),
            decreases 8 - k,
        {
            let x: u32 = if k % 2 == 1 { x1 } else { s.rx };
            let y: u32 = if (k / 2) % 2 == 1 { y1 } else { s.ry };
            let z: u32 = if k / 4 == 1 { z1 } else { s.rz };
            proof { assert(0 <= g@[k as int] < 16); }
            v[k] = grad_dot(f, style, g[k], x, y, z);
            k += 1;
        }
        proof { assert(v@ =~= Seq::new(8, |i: int| self.corner(*f, style, s, i))); }
        let ax: u32 = smoothstep(f, s.rx);
        let ay: u32 = smoothstep(f, s.smooth_y);
        let az: u32 = smoothstep(f, s.rz);
        lerp3(f, ax, ay, az, &v)
    }

    /// Where a point lies.
    pub open spec fn spot<F: Fn(Ask) -> u64>(self, f: F, fudge: Option<u64>, x: u64, y: u64, z: u64) -> Spot {
        let (fx, dx) = located(f, x, self.offset_x);
        let (fy, dy) = located(f, y, self.offset_y);
        let (fz, dz) = located(f, z, self.offset_z);
        Spot {
            x: fx,
            y: fy,
            z: fz,
            rx: low(f, Ask::Narrow(dx)),
            ry: seen_y(f, fudge, y, dy),
            rz: low(f, Ask::Narrow(dz)),
            smooth_y: low(f, Ask::Narrow(dy)),
        }
    }

    /// The noise at a point.
    pub open spec fn at<F: Fn(Ask) -> u64>(self, f: F, style: Style, fudge: Option<u64>, x: u64, y: u64, z: u64) -> u32 {
        self.blended(f, style, self.spot(f, fudge, x, y, z))
    }

    fn sample<F: Fn(Ask) -> u64>(&self, style: Style, fudge: Option<u64>, x: u64, y: u64, z: u64, f: &F) -> (r: u32)
        requires
            answers(*f),
        ensures
            r == self.at(*f, style, fudge, x, y, z),
    {
        let (fx, dx): (i32, u64) = locate(f, x, self.offset_x);
        let (fy, dy): (i32, u64) = locate(f, y, self.offset_y);
        let (fz, dz): (i32, u64) = locate(f, z, self.offset_z);
        let rx: u32 = f(Ask::Narrow(dx)) as u32;
        let ry: u32 = fudge_y(f, fudge, y, dy);
        let rz: u32 = f(Ask::Narrow(dz)) as u32;
        let smooth_y: u32 = f(Ask::Narrow(dy)) as u32;
        self.sample_and_lerp(style, Spot { x: fx, y: fy, z: fz, rx, ry, rz, smooth_y }, f)
    }

    /// The noise at a point.
    pub fn get<F: Fn(Ask) -> u64>(&self, x: u64, y: u64, z: u64, f: &F) -> (r: u32)
        requires
            answers(*f),
        ensures
            r == self.at(*f, Style::Point, None, x, y, z),
    {
        self.sample(Style::Point, None, x, y, z, f)
    }

    /// The noise at a point, rounded as `add_to_volume` rounds.
    pub fn get_volume_style<F: Fn(Ask) -> u64>(&self, x: u64, y: u64, z: u64, f: &F) -> (r: u32)
        requires
            answers(*f),
        ensures
            r == self.at(*f, Style::Volume, None, x, y, z),
    {
        self.sample(Style::Volume, None, x, y, z, f)
    }

    /// The noise at a point of the plane y = 0.
    pub fn get_2d<F: Fn(Ask) -> u64>(&self, x: u64, y: u64, f: &F) -> (r: u32)
        requires
            answers(*f),
        ensures
            r == self.at(*f, Style::Point, None, wrapped(*f, x), 0, wrapped(*f, y)),
    {
        let wx: u64 = wrap(f, x);
        let wy: u64 = wrap(f, y);
        self.get(wx, 0, wy, f)
    }
}

/// What a block adds: the noise there, times an amplitude.
pub open spec fn added<F: Fn(Ask) -> u64>(
    f: F, n: PerlinNoise, b: (i32, i32, i32), xz_scale: u64, y_scale: u64, amplitude: u32, fudge: Option<u64>,
) -> u32 {
    let x = reply(f, Ask::Mul64(reply(f, Ask::FromInt64(b.0)), xz_scale));
    let y = reply(f, Ask::Mul64(reply(f, Ask::FromInt64(b.1)), y_scale));
    let z = reply(f, Ask::Mul64(reply(f, Ask::FromInt64(b.2)), xz_scale));
    low(f, Ask::Mul32(amplitude, n.at(f, Style::Volume, fudge, x, y, z)))
}

/// A block coordinate, scaled.
fn scaled<F: Fn(Ask) -> u64>(f: &F, b: i32, scale: u64) -> (r: u64)
    requires
        answers(*f),
    ensures
        r == reply(*f, Ask::Mul64(reply(*f, Ask::FromInt64(b)), scale)),
{
    let d: u64 = f(Ask::FromInt64(b));
    f(Ask::Mul64(d, scale))
}

/// What the corners of a cell contribute, but for y: per corner the x and
/// z part of the dot product, and the y component of the gradient.
struct Cell {
    level: [u32; 8],
    rise: [u32; 8],
}

impl Cell {
    spec fn describes<F: Fn(Ask) -> u64>(self, f: F, n: PerlinNoise, x: i32, y: i32, z: i32, rx: u32, rz: u32) -> bool {
        forall|k: int| #![trigger self.level@[k]] #![trigger self.rise@[k]] 0 <= k < 8 ==> {
            let h = n.hashed(x as int, y as int, z as int, k);
            &&& self.level@[k] == level_part(f, h, off_by(f, rx, far_x(k)), off_by(f, rz, far_z(k)))
            &&& self.rise@[k] == low(f, Ask::FromInt32(gradient_of(h).1))
        }
    }

    fn of<F: Fn(Ask) -> u64>(n: &PerlinNoise, x: i32, y: i32, z: i32, rx: u32, rz: u32, f: &F) -> (r: Cell)
        requires
            answers(*f),
        ensures
            r.describes(*f, *n, x, y, z, rx, rz),
    {
        let g = n.cell_gradients(x, y, z);
        let x1: u32 = f(Ask::Sub32(rx, ONE_32)) as u32;
        let z1: u32 = f(Ask::Sub32(rz, ONE_32)) as u32;
        let mut level: [u32; 8] = [0;8];
        let mut rise: [u32; 8] = [0;8];
        let mut k: usize = 0;
        while k < 8
            invariant
                k <= 8,
                answers(*f),
                forall|i: int| 0 <= i < 8 ==> 0 <= #[trigger] g@[i] < 16 && g@[i] == n.hashed(x as int, y as int, z as int, i),
                x1 == low(*f, Ask::Sub32(rx, ONE_32)),
                z1 == low(*f, Ask::Sub32(rz, ONE_32)),
                forall|i: int| #![trigger level@[i]] #![trigger rise@[i]] 0 <= i < k ==> {
                    let h = n.hashed(x as int, y as int, z as int, i);
                    &&& level@[i] == level_part(*f, h, off_by(*f, rx, far_x(i)), off_by(*f, rz, far_z(i)))
                    &&& rise@[i] == low(*f, Ask::FromInt32(gradient_of(h).1))
                },
            decreases 8 - k,
        {
            proof { assert(0 <= g@[k as int] < 16); }
            let (gx, gy, gz): (i32, i32, i32) = gradient(g[k]);
            let a: u32 = f(Ask::FromInt32(gx)) as u32;
            let c: u32 = f(Ask::FromInt32(gz)) as u32;
            let ax: u32 = f(Ask::Mul32(a, if k % 2 == 1 { x1 } else { rx })) as u32;
            let cz: u32 = f(Ask::Mul32(c, if k / 4 == 1 { z1 } else { rz })) as u32;
            level[k] = f(Ask::Add32(ax, cz)) as u32;
            rise[k] = f(Ask::FromInt32(gy)) as u32;
            k += 1;
        }
        Cell { level, rise }
    }

    /// The corners' contributions at a height.
    fn corners<F: Fn(Ask) -> u64>(&self, ry: u32, f: &F, Ghost(n): Ghost<PerlinNoise>, Ghost(s): Ghost<Spot>) -> (r: [u32; 8])
        requires
            answers(*f),
            self.describes(*f, n, s.x, s.y, s.z, s.rx, s.rz),
            ry == s.ry,
        ensures
            r@ == Seq::new(8, |k: int| n.corner(*f, Style::Volume, s, k)),
    {
        let y1: u32 = f(Ask::Sub32(ry, ONE_32)) as u32;
        let mut v: [u32; 8] = [0;8];
        let mut k: usize = 0;
        while k < 8
            invariant
                k <= 8,
                answers(*f),
                self.describes(*f, n, s.x, s.y, s.z, s.rx, s.rz),
                ry == s.ry,
                y1 == low(*f, Ask::Sub32(ry, ONE_32)),
                forall|i: int| 0 <= i < k ==> #[trigger] v@[i] == n.corner(*f, Style::Volume, s, i),
            decreases 8 - k,
        {
            let up: u32 = f(Ask::Mul32(self.rise[k], if (k / 2) % 2 == 1 { y1 } else { ry })) as u32;
            v[k] = f(Ask::Add32(self.level[k], up)) as u32;
            proof { assert(self.level@[k as int] == self.level@[k as int]); }
            k += 1;
        }
        proof { assert(v@ =~= Seq::new(8, |k: int| n.corner(*f, Style::Volume, s, k))); }
        v
    }
}

/// A buffer to which a noise was added up to a place.
spec fn added_until<F: Fn(Ask) -> u64>(
    f: F, n: PerlinNoise, before: Seq<u32>, after: Seq<u32>, vol: Volume, xz_scale: u64, y_scale: u64, amplitude: u32, fudge: Option<u64>,
    at: int,
) -> bool {
    &&& after.len() == before.len()
    &&& forall|i: int| 0 <= i < at ==> #[trigger] after[i] == low(
        f, Ask::Add32(before[i], added(f, n, vol.element(i), xz_scale, y_scale, amplitude, fudge)))
    &&& forall|i: int| at <= i < before.len() ==> #[trigger] after[i] == before[i]
}

/// The element at a place of a column.
proof fn lemma_column_element(vol: Volume, x: int, y: int, z: int)
    requires
        vol.fits(),
        vol.in_world(),
        vol.inside(x, y, z),
    ensures
        vol.element(vol.place(x, y, z)) == (vol.block_of(0, x) as i32, vol.block_of(1, y) as i32, vol.block_of(2, z) as i32),
        0 <= vol.place(x, y, z) < vol.count(),
        vol.place(x, y, z) == (x + z * vol.size@[0]) * vol.size@[1] + y,
{
    vol.lemma_place(x, y, z);
    vstd::arithmetic::div_mod::lemma_fundamental_div_mod_converse(x + z * vol.size@[0], vol.size@[0] as int, z, x);
}

impl PerlinNoise {
    /// Add the noise at every block of a column of a volume. The gradients
    /// of a cell are looked up once.
    fn add_to_column<F: Fn(Ask) -> u64>(
        &self, out: &mut Vec<u32>, vol: &Volume, x: usize, z: usize, at: usize, xz_scale: u64, y_scale: u64, amplitude: u32,
        fudge: Option<u64>, f: &F, Ghost(before): Ghost<Seq<u32>>,
    )
        requires
            answers(*f),
            vol.fits(),
            vol.in_world(),
            old(out)@.len() == vol.count(),
            x < vol.size@[0],
            z < vol.size@[2],
            at == (x + z * vol.size@[0]) * vol.size@[1],
            added_until(*f, *self, before, old(out)@, *vol, xz_scale, y_scale, amplitude, fudge, at as int),
        ensures
            added_until(
                *f, *self, before, final(out)@, *vol, xz_scale, y_scale, amplitude, fudge, (at + vol.size@[1]) as int,
            ),
            at + vol.size@[1] <= vol.count(),
    {
        proof { lemma_column_element(*vol, x as int, vol.size@[1] - 1, z as int); }
        let (bx, bz): (i32, i32) = (vol.block(0, x), vol.block(2, z));
        let sx: u64 = scaled(f, bx, xz_scale);
        let sz: u64 = scaled(f, bz, xz_scale);
        let (fx, dx): (i32, u64) = locate(f, sx, self.offset_x);
        let (fz, dz): (i32, u64) = locate(f, sz, self.offset_z);
        let rx: u32 = f(Ask::Narrow(dx)) as u32;
        let rz: u32 = f(Ask::Narrow(dz)) as u32;
        let ax: u32 = smoothstep(f, rx);
        let az: u32 = smoothstep(f, rz);
        let rows: usize = vol.size[1];
        let mut held: Option<(i32, Cell)> = None;
        let mut iy: usize = 0;
        while iy < rows
            invariant
                iy <= rows,
                rows == vol.size@[1],
                answers(*f),
                vol.fits(),
                vol.in_world(),
                out@.len() == vol.count(),
                x < vol.size@[0],
                z < vol.size@[2],
                at == (x + z * vol.size@[0]) * vol.size@[1],
                at + rows <= vol.count(),
                bx == vol.block_of(0, x as int),
                bz == vol.block_of(2, z as int),
                sx == reply(*f, Ask::Mul64(reply(*f, Ask::FromInt64(bx)), xz_scale)),
                sz == reply(*f, Ask::Mul64(reply(*f, Ask::FromInt64(bz)), xz_scale)),
                (fx, dx) == located(*f, sx, self.offset_x),
                (fz, dz) == located(*f, sz, self.offset_z),
                rx == low(*f, Ask::Narrow(dx)),
                rz == low(*f, Ask::Narrow(dz)),
                ax == smoothed(*f, rx),
                az == smoothed(*f, rz),
                held matches Some(c) ==> c.1.describes(*f, *self, fx, c.0, fz, rx, rz),
                added_until(*f, *self, before, out@, *vol, xz_scale, y_scale, amplitude, fudge, (at + iy) as int),
            decreases rows - iy,
        {
            proof { lemma_column_element(*vol, x as int, iy as int, z as int); }
            let by: i32 = vol.block(1, iy);
            let sy: u64 = scaled(f, by, y_scale);
            let (fy, dy): (i32, u64) = locate(f, sy, self.offset_y);
            let ry: u32 = fudge_y(f, fudge, sy, dy);
            let smooth_y: u32 = f(Ask::Narrow(dy)) as u32;
            let ay: u32 = smoothstep(f, smooth_y);
            let again: bool = match &held {
                Some(c) => c.0 == fy,
                None => false,
            };
            if !again {
                held = Some((fy, Cell::of(self, fx, fy, fz, rx, rz, f)));
            }
            let ghost spot = Spot { x: fx, y: fy, z: fz, rx, ry, rz, smooth_y };
            proof { assert(spot == self.spot(*f, fudge, sx, sy, sz)); }
            let v: [u32; 8] = match &held {
                Some(c) => c.1.corners(ry, f, Ghost(*self), Ghost(spot)),
                None => [0;8],
            };
            let n: u32 = lerp3(f, ax, ay, az, &v);
            let more: u32 = f(Ask::Mul32(amplitude, n)) as u32;
            let ghost old_out = out@;
            let sum: u32 = f(Ask::Add32(out[at + iy], more)) as u32;
            out[at + iy] = sum;
            proof {
                assert(n == self.at(*f, Style::Volume, fudge, sx, sy, sz));
                assert(vol.element((at + iy) as int) == (bx, by, bz));
                assert(more == added(*f, *self, vol.element((at + iy) as int), xz_scale, y_scale, amplitude, fudge));
                assert(old_out[(at + iy) as int] == before[(at + iy) as int]);
            }
            iy += 1;
        }
    }

    /// Add the noise at every block of a volume to a buffer. `fudge` sets
    /// the y of a smeared noise back.
    pub fn add_to_volume<F: Fn(Ask) -> u64>(
        &self, out: &mut Vec<u32>, vol: &Volume, xz_scale: u64, y_scale: u64, amplitude: u32, fudge: Option<u64>, f: &F,
    )
        requires
            answers(*f),
            vol.fits(),
            vol.in_world(),
            old(out)@.len() == vol.count(),
        ensures
            final(out)@.len() == vol.count(),
            forall|i: int| 0 <= i < vol.count() ==> #[trigger] final(out)@[i] == low(
                *f, Ask::Add32(old(out)@[i], added(*f, *self, vol.element(i), xz_scale, y_scale, amplitude, fudge))),
    {
        let ghost before = out@;
        let (sx, rows, sz): (usize, usize, usize) = (vol.size[0], vol.size[1], vol.size[2]);
        let mut at: usize = 0;
        let mut z: usize = 0;
        proof { assert((0int * sx) * rows == 0) by (nonlinear_arith); }
        while z < sz
            invariant
                z <= sz,
                sx == vol.size@[0] && rows == vol.size@[1] && sz == vol.size@[2],
                answers(*f),
                vol.fits(),
                vol.in_world(),
                out@.len() == vol.count(),
                at == (z * sx) * rows,
                added_until(*f, *self, before, out@, *vol, xz_scale, y_scale, amplitude, fudge, at as int),
            decreases sz - z,
        {
            let mut x: usize = 0;
            while x < sx
                invariant
                    z < sz,
                    x <= sx,
                    sx == vol.size@[0] && rows == vol.size@[1] && sz == vol.size@[2],
                    answers(*f),
                    vol.fits(),
                    vol.in_world(),
                    out@.len() == vol.count(),
                    at == (x + z * sx) * rows,
                    added_until(*f, *self, before, out@, *vol, xz_scale, y_scale, amplitude, fudge, at as int),
                decreases sx - x,
            {
                self.add_to_column(out, vol, x, z, at, xz_scale, y_scale, amplitude, fudge, f, Ghost(before));
                proof {
                    assert((x + z * sx) * rows + rows == (x + 1 + z * sx) * rows) by (nonlinear_arith);
                }
                at = at + rows;
                x += 1;
            }
            proof {
                assert(sx + z * sx == (z + 1) * sx) by (nonlinear_arith);
            }
            z += 1;
        }
        proof {
            assert((sz * sx) * rows == vol.count()) by (nonlinear_arith)
                requires
                    vol.count() == sx * rows * sz,
            ;
        }
    }
}

/// A noise whose gradients see y cut to multiples of a scale.
#[derive(Clone, Copy, Debug)]
pub struct SmearedPerlinNoise {
    pub base: PerlinNoise,
    pub fudge_y_scale: u64,
}

impl SmearedPerlinNoise {
    pub fn new<F: Fn(Ask) -> u64>(random: &mut XoroshiroRandomSource, fudge_y_scale: u64, f: &F) -> (r: SmearedPerlinNoise)
        requires
            answers(*f),
        ensures
            r.fudge_y_scale == fudge_y_scale,
            PerlinNoise::made(r.base, *f, *old(random)),
            *final(random) == PerlinNoise::shuffle(*old(random)).1,
    {
        SmearedPerlinNoise { base: PerlinNoise::new(random, f), fudge_y_scale }
    }

    pub fn get<F: Fn(Ask) -> u64>(&self, x: u64, y: u64, z: u64, f: &F) -> (r: u32)
        requires
            answers(*f),
        ensures
            r == self.base.at(*f, Style::Point, Some(self.fudge_y_scale), x, y, z),
    {
        self.base.sample(Style::Point, Some(self.fudge_y_scale), x, y, z, f)
    }

    pub fn get_volume_style<F: Fn(Ask) -> u64>(&self, x: u64, y: u64, z: u64, f: &F) -> (r: u32)
        requires
            answers(*f),
        ensures
            r == self.base.at(*f, Style::Volume, Some(self.fudge_y_scale), x, y, z),
    {
        self.base.sample(Style::Volume, Some(self.fudge_y_scale), x, y, z, f)
    }
}

/// The noise of a layer.
#[derive(Clone, Copy, Debug)]
pub enum LayerNoise {
    Perlin(PerlinNoise),
    Smeared(SmearedPerlinNoise),
}

impl LayerNoise {
    pub open spec fn octave(self) -> PerlinNoise {
        match self {
            LayerNoise::Perlin(p) => p,
            LayerNoise::Smeared(s) => s.base,
        }
    }

    pub open spec fn fudge(self) -> Option<u64> {
        match self {
            LayerNoise::Perlin(p) => None,
            LayerNoise::Smeared(s) => Some(s.fudge_y_scale),
        }
    }

    pub fn get<F: Fn(Ask) -> u64>(&self, x: u64, y: u64, z: u64, f: &F) -> (r: u32)
        requires
            answers(*f),
        ensures
            r == self.octave().at(*f, Style::Point, self.fudge(), x, y, z),
    {
        match self {
            LayerNoise::Perlin(p) => p.get(x, y, z, f),
            LayerNoise::Smeared(s) => s.get(x, y, z, f),
        }
    }

    pub fn get_2d<F: Fn(Ask) -> u64>(&self, x: u64, y: u64, f: &F) -> (r: u32)
        requires
            answers(*f),
        ensures
            r == self.octave().at(*f, Style::Point, self.fudge(), wrapped(*f, x), 0, wrapped(*f, y)),
    {
        match self {
            LayerNoise::Perlin(p) => p.get_2d(x, y, f),
            LayerNoise::Smeared(s) => {
                let wx: u64 = wrap(f, x);
                let wy: u64 = wrap(f, y);
                s.get(wx, 0, wy, f)
            },
        }
    }

    pub fn get_volume_style<F: Fn(Ask) -> u64>(&self, x: u64, y: u64, z: u64, f: &F) -> (r: u32)
        requires
            answers(*f),
        ensures
            r == self.octave().at(*f, Style::Volume, self.fudge(), x, y, z),
    {
        match self {
            LayerNoise::Perlin(p) => p.get_volume_style(x, y, z, f),
            LayerNoise::Smeared(s) => s.get_volume_style(x, y, z, f),
        }
    }
}

/// A noise, how fast it runs and how much it counts.
#[derive(Clone, Copy, Debug)]
pub struct Layer {
    pub noise: LayerNoise,
    pub frequency: u64,
    pub amplitude: u32,
}

/// Layers summed in single precision.
#[derive(Debug)]
pub struct NoiseStack {
    pub layers: Vec<Layer>,
}

/// The first `n` layers at a point.
pub open spec fn summed<F: Fn(Ask) -> u64>(f: F, layers: Seq<Layer>, x: u64, y: u64, z: u64, n: nat) -> u32
    decreases n,
{
    if n == 0 {
        0
    } else {
        let l = layers[n - 1];
        let v = l.noise.octave().at(
            f,
            Style::Point,
            l.noise.fudge(),
            reply(f, Ask::Mul64(x, l.frequency)),
            reply(f, Ask::Mul64(y, l.frequency)),
            reply(f, Ask::Mul64(z, l.frequency)),
        );
        low(f, Ask::Add32(summed(f, layers, x, y, z, (n - 1) as nat), low(f, Ask::Mul32(l.amplitude, v))))
    }
}

/// The first `n` layers at a point of the plane y = 0.
pub open spec fn summed_flat<F: Fn(Ask) -> u64>(f: F, layers: Seq<Layer>, x: u64, y: u64, n: nat) -> u32
    decreases n,
{
    if n == 0 {
        0
    } else {
        let l = layers[n - 1];
        let v = l.noise.octave().at(
            f,
            Style::Point,
            l.noise.fudge(),
            wrapped(f, reply(f, Ask::Mul64(x, l.frequency))),
            0,
            wrapped(f, reply(f, Ask::Mul64(y, l.frequency))),
        );
        low(f, Ask::Add32(summed_flat(f, layers, x, y, (n - 1) as nat), low(f, Ask::Mul32(l.amplitude, v))))
    }
}

/// The first `n` layers at a block, on top of what was there.
pub open spec fn piled<F: Fn(Ask) -> u64>(
    f: F, layers: Seq<Layer>, b: (i32, i32, i32), xz_scale: u64, y_scale: u64, amplitude: u32, start: u32, n: nat,
) -> u32
    decreases n,
{
    if n == 0 {
        start
    } else {
        let l = layers[n - 1];
        low(
            f,
            Ask::Add32(
                piled(f, layers, b, xz_scale, y_scale, amplitude, start, (n - 1) as nat),
                added(
                    f,
                    l.noise.octave(),
                    b,
                    reply(f, Ask::Mul64(xz_scale, l.frequency)),
                    reply(f, Ask::Mul64(y_scale, l.frequency)),
                    low(f, Ask::Mul32(amplitude, l.amplitude)),
                    l.noise.fudge(),
                ),
            ),
        )
    }
}

/// The largest absolute value of the first `n` layers: two per amplitude.
pub open spec fn bound_of<F: Fn(Ask) -> u64>(f: F, layers: Seq<Layer>, n: nat) -> u32
    decreases n,
{
    if n == 0 {
        0x8000_0000
    } else {
        low(
            f,
            Ask::Add32(
                bound_of(f, layers, (n - 1) as nat),
                low(f, Ask::Mul32(low(f, Ask::Abs32(layers[n - 1].amplitude)), TWO_32)),
            ),
        )
    }
}

/// 2, single precision.
pub const TWO_32: u32 = 0x4000_0000;

impl NoiseStack {
    /// The stack at a point.
    pub fn get<F: Fn(Ask) -> u64>(&self, x: u64, y: u64, z: u64, f: &F) -> (r: u32)
        requires
            answers(*f),
        ensures
            r == summed(*f, self.layers@, x, y, z, self.layers@.len()),
    {
        let mut value: u32 = 0;
        let mut i: usize = 0;
        while i < self.layers.len()
            invariant
                i <= self.layers@.len(),
                answers(*f),
                value == summed(*f, self.layers@, x, y, z, i as nat),
            decreases self.layers.len() - i,
        {
            let l: &Layer = &self.layers[i];
            let sx: u64 = f(Ask::Mul64(x, l.frequency));
            let sy: u64 = f(Ask::Mul64(y, l.frequency));
            let sz: u64 = f(Ask::Mul64(z, l.frequency));
            let v: u32 = l.noise.get(sx, sy, sz, f);
            let m: u32 = f(Ask::Mul32(l.amplitude, v)) as u32;
            value = f(Ask::Add32(value, m)) as u32;
            i += 1;
        }
        value
    }

    /// The stack at a point of the plane y = 0.
    pub fn get_2d<F: Fn(Ask) -> u64>(&self, x: u64, y: u64, f: &F) -> (r: u32)
        requires
            answers(*f),
        ensures
            r == summed_flat(*f, self.layers@, x, y, self.layers@.len()),
    {
        let mut value: u32 = 0;
        let mut i: usize = 0;
        while i < self.layers.len()
            invariant
                i <= self.layers@.len(),
                answers(*f),
                value == summed_flat(*f, self.layers@, x, y, i as nat),
            decreases self.layers.len() - i,
        {
            let l: &Layer = &self.layers[i];
            let sx: u64 = f(Ask::Mul64(x, l.frequency));
            let sy: u64 = f(Ask::Mul64(y, l.frequency));
            let v: u32 = l.noise.get_2d(sx, sy, f);
            let m: u32 = f(Ask::Mul32(l.amplitude, v)) as u32;
            value = f(Ask::Add32(value, m)) as u32;
            i += 1;
        }
        value
    }

    /// The stack at a block, as `add_to_volume` adds it to nothing.
    pub fn get_volume<F: Fn(Ask) -> u64>(&self, bx: i32, by: i32, bz: i32, xz_scale: u64, y_scale: u64, amplitude: u32, f: &F) -> (r: u32)
        requires
            answers(*f),
        ensures
            r == piled(*f, self.layers@, (bx, by, bz), xz_scale, y_scale, amplitude, 0, self.layers@.len()),
    {
        let mut value: u32 = 0;
        let mut i: usize = 0;
        while i < self.layers.len()
            invariant
                i <= self.layers@.len(),
                answers(*f),
                value == piled(*f, self.layers@, (bx, by, bz), xz_scale, y_scale, amplitude, 0, i as nat),
            decreases self.layers.len() - i,
        {
            let l: &Layer = &self.layers[i];
            let fxz: u64 = f(Ask::Mul64(xz_scale, l.frequency));
            let fy: u64 = f(Ask::Mul64(y_scale, l.frequency));
            let a: u32 = f(Ask::Mul32(amplitude, l.amplitude)) as u32;
            let x: u64 = scaled(f, bx, fxz);
            let y: u64 = scaled(f, by, fy);
            let z: u64 = scaled(f, bz, fxz);
            let v: u32 = l.noise.get_volume_style(x, y, z, f);
            let m: u32 = f(Ask::Mul32(a, v)) as u32;
            value = f(Ask::Add32(value, m)) as u32;
            i += 1;
        }
        value
    }

    /// Add the stack at every block of a volume to a buffer, layer by
    /// layer.
    pub fn add_to_volume<F: Fn(Ask) -> u64>(&self, out: &mut Vec<u32>, vol: &Volume, xz_scale: u64, y_scale: u64, amplitude: u32, f: &F)
        requires
            answers(*f),
            vol.fits(),
            vol.in_world(),
            old(out)@.len() == vol.count(),
        ensures
            final(out)@.len() == vol.count(),
            forall|i: int| 0 <= i < vol.count() ==> #[trigger] final(out)@[i] == piled(
                *f, self.layers@, vol.element(i), xz_scale, y_scale, amplitude, old(out)@[i], self.layers@.len()),
    {
        let ghost before = out@;
        let mut i: usize = 0;
        while i < self.layers.len()
            invariant
                i <= self.layers@.len(),
                answers(*f),
                vol.fits(),
                vol.in_world(),
                before.len() == vol.count(),
                out@.len() == vol.count(),
                forall|j: int| 0 <= j < vol.count() ==> #[trigger] out@[j] == piled(
                    *f, self.layers@, vol.element(j), xz_scale, y_scale, amplitude, before[j], i as nat),
            decreases self.layers.len() - i,
        {
            let l: &Layer = &self.layers[i];
            let fxz: u64 = f(Ask::Mul64(xz_scale, l.frequency));
            let fy: u64 = f(Ask::Mul64(y_scale, l.frequency));
            let a: u32 = f(Ask::Mul32(amplitude, l.amplitude)) as u32;
            match &l.noise {
                LayerNoise::Perlin(p) => p.add_to_volume(out, vol, fxz, fy, a, None, f),
                LayerNoise::Smeared(s) => s.base.add_to_volume(out, vol, fxz, fy, a, Some(s.fudge_y_scale), f),
            }
            i += 1;
        }
    }

    /// The largest absolute value that the stack takes.
    pub fn bound<F: Fn(Ask) -> u64>(&self, f: &F) -> (r: u32)
        requires
            answers(*f),
        ensures
            r == bound_of(*f, self.layers@, self.layers@.len()),
    {
        let mut value: u32 = 0x8000_0000;
        let mut i: usize = 0;
        while i < self.layers.len()
            invariant
                i <= self.layers@.len(),
                answers(*f),
                value == bound_of(*f, self.layers@, i as nat),
            decreases self.layers.len() - i,
        {
            let a: u32 = f(Ask::Abs32(self.layers[i].amplitude)) as u32;
            let m: u32 = f(Ask::Mul32(a, TWO_32)) as u32;
            value = f(Ask::Add32(value, m)) as u32;
            i += 1;
        }
        value
    }
}

/// Adding a stack to a buffer of zeros gives the stack at every block.
pub proof fn law_volume_holds_its_blocks<F: Fn(Ask) -> u64>(
    f: F, layers: Seq<Layer>, vol: Volume, xz_scale: u64, y_scale: u64, amplitude: u32, before: Seq<u32>, after: Seq<u32>, i: int,
)
    requires
        vol.fits(),
        before == Seq::new(vol.count() as nat, |j: int| 0u32),
        after.len() == vol.count(),
        forall|j: int| 0 <= j < vol.count() ==> #[trigger] after[j] == piled(
            f, layers, vol.element(j), xz_scale, y_scale, amplitude, before[j], layers.len()),
        0 <= i < vol.count(),
    ensures
        after[i] == piled(f, layers, vol.element(i), xz_scale, y_scale, amplitude, 0, layers.len()),
{
}

/// The first `n` octaves of a fractal sum, the coarsest first: each half as
/// fast as the one before and twice as strong.
pub open spec fn octave_factor<F: Fn(Ask) -> u64>(f: F, n: nat) -> u64
    decreases n,
{
    if n == 0 { ONE } else { reply(f, Ask::Div64(octave_factor(f, (n - 1) as nat), TWO)) }
}

pub open spec fn octave_strength<F: Fn(Ask) -> u64>(f: F, start: u64, n: nat) -> u64
    decreases n,
{
    if n == 0 { start } else { reply(f, Ask::Mul64(octave_strength(f, start, (n - 1) as nat), TWO)) }
}

/// The generator after `n` noises were made.
pub open spec fn after_noises(r: XoroshiroRandomSource, n: nat) -> XoroshiroRandomSource
    decreases n,
{
    if n == 0 { r } else { PerlinNoise::shuffle(after_noises(r, (n - 1) as nat)).1 }
}

/// The share of the strength that the coarsest of `octaves` octaves has.
pub open spec fn first_strength<F: Fn(Ask) -> u64>(f: F, strength: u64, octaves: int) -> u64 {
    reply(f, Ask::Div64(strength, reply(f, Ask::Sub64(reply(f, Ask::Powi64(TWO, octaves as i32)), ONE))))
}

/// An octave of a fractal sum.
pub open spec fn fbm_layer<F: Fn(Ask) -> u64>(f: F, l: Layer, r: XoroshiroRandomSource, smear: u64, strength: u64, i: nat) -> bool {
    &&& l.frequency == octave_factor(f, i)
    &&& l.amplitude == low(f, Ask::Narrow(octave_strength(f, strength, i)))
    &&& l.noise matches LayerNoise::Smeared(s) && {
        &&& s.fudge_y_scale == reply(f, Ask::Mul64(smear, octave_factor(f, i)))
        &&& PerlinNoise::made(s.base, f, after_noises(r, i))
    }
}

impl NoiseStack {
    /// A fractal sum of smeared octaves, the coarsest first, all made by one
    /// generator.
    pub fn create_fbm<F: Fn(Ask) -> u64>(
        random: &mut XoroshiroRandomSource, first_octave: i32, smear_scale_y: u64, value_factor: u64, f: &F,
    ) -> (r: NoiseStack)
        requires
            answers(*f),
            -0x7fff_fffe <= first_octave <= 0,
        ensures
            r.layers@.len() == 1 - first_octave,
            forall|i: int| 0 <= i < r.layers@.len() ==> #[trigger] fbm_layer(
                *f, r.layers@[i], *old(random), smear_scale_y, first_strength(*f, value_factor, 1 - first_octave), i as nat),
            *final(random) == after_noises(*old(random), (1 - first_octave) as nat),
    {
        let ghost start = *random;
        let octaves: i32 = 1 - first_octave;
        let p: u64 = f(Ask::Powi64(TWO, octaves));
        let all: u64 = f(Ask::Sub64(p, ONE));
        let mut strength: u64 = f(Ask::Div64(value_factor, all));
        let ghost first = strength;
        let mut factor: u64 = ONE;
        let mut layers: Vec<Layer> = Vec::new();
        let mut i: i32 = 0;
        while i < octaves
            invariant
                0 <= i <= octaves,
                answers(*f),
                first == first_strength(*f, value_factor, octaves as int),
                strength == octave_strength(*f, first, i as nat),
                factor == octave_factor(*f, i as nat),
                *random == after_noises(start, i as nat),
                layers@.len() == i,
                forall|j: int| 0 <= j < i ==> #[trigger] fbm_layer(*f, layers@[j], start, smear_scale_y, first, j as nat),
            decreases octaves - i,
        {
            let ghost before = layers@;
            let smear: u64 = f(Ask::Mul64(smear_scale_y, factor));
            let noise = LayerNoise::Smeared(SmearedPerlinNoise::new(random, smear, f));
            let amplitude: u32 = f(Ask::Narrow(strength)) as u32;
            layers.push(Layer { noise, frequency: factor, amplitude });
            proof {
                assert(fbm_layer(*f, layers@[i as int], start, smear_scale_y, first, i as nat));
                assert forall|j: int| 0 <= j < i + 1 implies #[trigger] fbm_layer(
                    *f, layers@[j], start, smear_scale_y, first, j as nat) by {
                    if j < i {
                        assert(layers@[j] == before[j]);
                    }
                }
            }
            factor = f(Ask::Div64(factor, TWO));
            strength = f(Ask::Mul64(strength, TWO));
            i += 1;
        }
        NoiseStack { layers }
    }
}

/// The hash of a name: 128 bits, the low and the high half.
pub type NameHash = (u64, u64);

/// The hash of an octave's name, `octave_` followed by its index.
pub open spec fn octave_hash<H: Fn(i32) -> NameHash>(h: H, index: i32) -> NameHash {
    choose|r: NameHash| call_ensures(h, (index,), r)
}

/// Every octave's name has a hash, and always the same.
pub open spec fn hashes<H: Fn(i32) -> NameHash>(h: H) -> bool {
    &&& forall|i: i32| #[trigger] call_requires(h, (i,))
    &&& forall|i: i32, r: NameHash| #[trigger] call_ensures(h, (i,), r) ==> r == octave_hash(h, i)
}

/// The generator of a name.
pub open spec fn named(root: XoroshiroPositionalRandomFactory, name: NameHash) -> XoroshiroRandomSource {
    settled(root.lo ^ name.0, root.hi ^ name.1)
}

/// The generator of a name.
pub fn from_hash(root: &XoroshiroPositionalRandomFactory, name: NameHash) -> (r: XoroshiroRandomSource)
    ensures
        r == named(*root, name),
{
    XoroshiroRandomSource::new(root.lo ^ name.0, root.hi ^ name.1)
}

/// A layer as it was planned.
pub open spec fn layer_made<F: Fn(Ask) -> u64, H: Fn(i32) -> NameHash>(
    f: F, h: H, p: LayerPlan, first: XoroshiroPositionalRandomFactory, second: XoroshiroPositionalRandomFactory, l: Layer,
) -> bool {
    &&& l.frequency == p.frequency
    &&& l.amplitude == p.amplitude
    &&& l.noise matches LayerNoise::Perlin(n) && PerlinNoise::made(
        n, f, named(if p.second { second } else { first }, octave_hash(h, p.octave_index)))
}

impl NoiseParameters26 {
    /// The layers that the parameters plan.
    pub open spec fn plans<F: Fn(Ask) -> u64>(&self, f: F) -> Seq<LayerPlan> {
        layered(f, self@.compiled(f).0, self@.compiled(f).1, self@.compiled(f).0.len())
    }

    /// The stack made of these parameters by a generator: two factories are
    /// forked, and each octave has a noise of either, seeded by its name.
    pub open spec fn makes<F: Fn(Ask) -> u64, H: Fn(i32) -> NameHash>(&self, f: F, h: H, r: XoroshiroRandomSource, s: NoiseStack) -> bool {
        let first = XoroshiroPositionalRandomFactory { lo: r.long(), hi: r.stepped().long() };
        let next = r.stepped().stepped();
        let second = XoroshiroPositionalRandomFactory { lo: next.long(), hi: next.stepped().long() };
        &&& s.layers@.len() == self.plans(f).len()
        &&& forall|i: int| 0 <= i < s.layers@.len() ==> #[trigger] layer_made(f, h, self.plans(f)[i], first, second, s.layers@[i])
    }

    /// Make the noise stack. `h` hashes an octave's name.
    pub fn create<F: Fn(Ask) -> u64, H: Fn(i32) -> NameHash>(&self, random: &mut XoroshiroRandomSource, h: &H, f: &F) -> (r: NoiseStack)
        requires
            answers(*f),
            hashes(*h),
            self@.wf(),
        ensures
            self.makes(*f, *h, *old(random), r),
            *final(random) == old(random).stepped().stepped().stepped().stepped(),
    {
        let first = random.fork_positional();
        let second = random.fork_positional();
        let plans: Vec<LayerPlan> = self.layers(f);
        let mut layers: Vec<Layer> = Vec::new();
        let mut i: usize = 0;
        while i < plans.len()
            invariant
                i <= plans@.len(),
                answers(*f),
                hashes(*h),
                plans@ == self.plans(*f),
                layers@.len() == i,
                forall|j: int| 0 <= j < i ==> #[trigger] layer_made(*f, *h, self.plans(*f)[j], first, second, layers@[j]),
            decreases plans.len() - i,
        {
            let ghost before = layers@;
            let p: LayerPlan = plans[i];
            let name: NameHash = h(p.octave_index);
            let mut source = if p.second { from_hash(&second, name) } else { from_hash(&first, name) };
            let noise = LayerNoise::Perlin(PerlinNoise::new(&mut source, f));
            layers.push(Layer { noise, frequency: p.frequency, amplitude: p.amplitude });
            proof {
                assert(layer_made(*f, *h, self.plans(*f)[i as int], first, second, layers@[i as int]));
                assert forall|j: int| 0 <= j < i + 1 implies #[trigger] layer_made(
                    *f, *h, self.plans(*f)[j], first, second, layers@[j]) by {
                    if j < i {
                        assert(layers@[j] == before[j]);
                    }
                }
            }
            i += 1;
        }
        NoiseStack { layers }
    }

    /// The world's noise of a name.
    pub fn instantiate<F: Fn(Ask) -> u64, H: Fn(i32) -> NameHash>(
        &self, root: &XoroshiroPositionalRandomFactory, identifier: NameHash, h: &H, f: &F,
    ) -> (r: NoiseStack)
        requires
            answers(*f),
            hashes(*h),
            self@.wf(),
        ensures
            self.makes(*f, *h, named(*root, identifier), r),
    {
        let mut random = from_hash(root, identifier);
        self.create(&mut random, h, f)
    }
}

} // verus!
