//! Carvers: every source chunk within eight walks its cave and canyon
//! tunnels into a mask over one chunk.

use vstd::prelude::*;
use crate::arith::{answers, holds, low, reply, Ask, HALF, HALF_32, ONE, ONE_32, QUARTER_32, THREE_HALVES, TWO};
use crate::beard26::{EIGHT_TENTHS_32, SIXTEEN, SIX_32};
use crate::bitrandom::{below, between, next_float, next_int_bound, random_between_inclusive, single, LegacyRandomSource};
use crate::chunkmap::ChunkMap;
use crate::df26::{wrap, wrapped, FOUR_32, TWO_32};
use crate::load::THREE_32;

verus! {

/// Table entries per radian: 10430.378350470453.
pub const SIN_SCALE: u64 = 0x40C4_5F30_6DC9_C883;

/// A quarter of the table: 16384.
pub const QUARTER_TURN: u64 = 0x40D0_0000_0000_0000;

/// Singles: pi, twice and half of it, and the factors of the walks.
pub const PI_32: u32 = 0x4049_0FDB;

pub const TWO_PI_32: u32 = 0x40C9_0FDB;

pub const HALF_PI_32: u32 = 0x3FC9_0FDB;

pub const STEEP_32: u32 = 0x3F6B_851F;

pub const SEVEN_TENTHS_32: u32 = 0x3F33_3333;

pub const TENTH_32: u32 = 0x3DCC_CCCD;

pub const NINE_TENTHS_32: u32 = 0x3F66_6666;

pub const THREE_QUARTERS_32: u32 = 0x3F40_0000;

pub const TWENTIETH_32: u32 = 0x3D4C_CCCD;

pub const SIXTEEN_32: u32 = 0x4180_0000;

/// 6.
pub const SIX: u64 = 0x4018_0000_0000_0000;

/// An entry of the sine table.
pub open spec fn table_entry<F: Fn(Ask) -> u64>(f: F, turn: u64) -> u32 {
    let i = (reply(f, Ask::ToLong64(turn)) % 0x1_0000) as i32;
    low(f, Ask::Narrow(reply(f, Ask::Sin64(reply(f, Ask::Div64(reply(f, Ask::FromInt64(i)), SIN_SCALE))))))
}

fn read_table<F: Fn(Ask) -> u64>(f: &F, turn: u64) -> (r: u32)
    requires
        answers(*f),
    ensures
        r == table_entry(*f, turn),
{
    let i: i32 = (f(Ask::ToLong64(turn)) % 0x1_0000) as i32;
    let w: u64 = f(Ask::FromInt64(i));
    let a: u64 = f(Ask::Div64(w, SIN_SCALE));
    let s: u64 = f(Ask::Sin64(a));
    f(Ask::Narrow(s)) as u32
}

/// The sine and the cosine of an angle, read from the table.
pub open spec fn table_sin<F: Fn(Ask) -> u64>(f: F, a: u64) -> u32 {
    table_entry(f, reply(f, Ask::Mul64(a, SIN_SCALE)))
}

pub open spec fn table_cos<F: Fn(Ask) -> u64>(f: F, a: u64) -> u32 {
    table_entry(f, reply(f, Ask::Add64(reply(f, Ask::Mul64(a, SIN_SCALE)), QUARTER_TURN)))
}

pub fn mth_sin<F: Fn(Ask) -> u64>(f: &F, a: u64) -> (r: u32)
    requires
        answers(*f),
    ensures
        r == table_sin(*f, a),
{
    let turn: u64 = f(Ask::Mul64(a, SIN_SCALE));
    read_table(f, turn)
}

pub fn mth_cos<F: Fn(Ask) -> u64>(f: &F, a: u64) -> (r: u32)
    requires
        answers(*f),
    ensures
        r == table_cos(*f, a),
{
    let turn: u64 = f(Ask::Mul64(a, SIN_SCALE));
    let next: u64 = f(Ask::Add64(turn, QUARTER_TURN));
    read_table(f, next)
}

/// A single drawn in some way.
#[derive(Clone, Copy, Debug)]
pub enum FloatProvider {
    Constant(u32),
    Uniform { min: u32, max: u32 },
    Trapezoid { min: u32, max: u32, plateau: u32 },
}

impl FloatProvider {
    pub open spec fn drawn<F: Fn(Ask) -> u64>(self, f: F, r: LegacyRandomSource) -> (u32, LegacyRandomSource) {
        match self {
            FloatProvider::Constant(v) => (v, r),
            FloatProvider::Uniform { min, max } => {
                let (u, s) = single(f, r);
                (low(f, Ask::Add32(low(f, Ask::Mul32(u, low(f, Ask::Sub32(max, min)))), min)), s)
            },
            FloatProvider::Trapezoid { min, max, plateau } => {
                let range = low(f, Ask::Sub32(max, min));
                let start = low(f, Ask::Div32(low(f, Ask::Sub32(range, plateau)), TWO_32));
                let end = low(f, Ask::Sub32(range, start));
                let (u, s) = single(f, r);
                let (v, t) = single(f, s);
                let first = low(f, Ask::Add32(min, low(f, Ask::Mul32(u, end))));
                (low(f, Ask::Add32(first, low(f, Ask::Mul32(v, start)))), t)
            },
        }
    }

    pub fn sample<F: Fn(Ask) -> u64>(&self, random: &mut LegacyRandomSource, f: &F) -> (r: u32)
        requires
            answers(*f),
        ensures
            (r, *final(random)) == self.drawn(*f, *old(random)),
    {
        match *self {
            FloatProvider::Constant(v) => v,
            FloatProvider::Uniform { min, max } => {
                let u: u32 = next_float(random, f);
                let d: u32 = f(Ask::Sub32(max, min)) as u32;
                let m: u32 = f(Ask::Mul32(u, d)) as u32;
                f(Ask::Add32(m, min)) as u32
            },
            FloatProvider::Trapezoid { min, max, plateau } => {
                let range: u32 = f(Ask::Sub32(max, min)) as u32;
                let part: u32 = f(Ask::Sub32(range, plateau)) as u32;
                let start: u32 = f(Ask::Div32(part, TWO_32)) as u32;
                let end: u32 = f(Ask::Sub32(range, start)) as u32;
                let u: u32 = next_float(random, f);
                let v: u32 = next_float(random, f);
                let p: u32 = f(Ask::Mul32(u, end)) as u32;
                let first: u32 = f(Ask::Add32(min, p)) as u32;
                let q: u32 = f(Ask::Mul32(v, start)) as u32;
                f(Ask::Add32(first, q)) as u32
            },
        }
    }
}

/// An integer drawn in some way.
#[derive(Clone, Copy, Debug)]
pub enum IntProvider {
    Constant(i32),
    Uniform { min: i32, max: i32 },
    BiasedToBottom { min: i32, max: i32 },
    VeryBiasedToBottom { min: i32, max: i32 },
}

impl IntProvider {
    /// There is something to draw.
    pub open spec fn wf(self) -> bool {
        match self {
            IntProvider::Constant(_) => true,
            IntProvider::Uniform { min, max } => min <= max && max - min < i32::MAX,
            IntProvider::BiasedToBottom { min, max } => min <= max && max - min < i32::MAX,
            IntProvider::VeryBiasedToBottom { min, max } => min <= max && max - min < i32::MAX,
        }
    }

    pub open spec fn drawn(self, r: LegacyRandomSource) -> (int, LegacyRandomSource) {
        match self {
            IntProvider::Constant(v) => (v as int, r),
            IntProvider::Uniform { min, max } => between(r, min as int, max as int),
            IntProvider::BiasedToBottom { min, max } => {
                let (a, s) = below(r, (max - min + 1) as i32);
                let (b, t) = below(s, (a + 1) as i32);
                (min + b, t)
            },
            IntProvider::VeryBiasedToBottom { min, max } => {
                let (a, s) = below(r, (max - min + 1) as i32);
                let (b, t) = below(s, (a + 1) as i32);
                let (c, u) = below(t, (b + 1) as i32);
                (min + c, u)
            },
        }
    }

    pub fn sample(&self, random: &mut LegacyRandomSource) -> (r: i32)
        requires
            self.wf(),
        ensures
            (r as int, *final(random)) == self.drawn(*old(random)),
            match *self {
                IntProvider::Constant(v) => r == v,
                IntProvider::Uniform { min, max } => min <= r <= max,
                IntProvider::BiasedToBottom { min, max } => min <= r <= max,
                IntProvider::VeryBiasedToBottom { min, max } => min <= r <= max,
            },
    {
        match *self {
            IntProvider::Constant(v) => v,
            IntProvider::Uniform { min, max } => random_between_inclusive(random, min, max),
            IntProvider::BiasedToBottom { min, max } => {
                let a: i32 = next_int_bound(random, max - min + 1);
                let b: i32 = next_int_bound(random, a + 1);
                min + b
            },
            IntProvider::VeryBiasedToBottom { min, max } => {
                let a: i32 = next_int_bound(random, max - min + 1);
                let b: i32 = next_int_bound(random, a + 1);
                let c: i32 = next_int_bound(random, b + 1);
                min + c
            },
        }
    }
}

/// A height drawn in some way.
#[derive(Clone, Copy, Debug)]
pub enum HeightProvider {
    Constant(i32),
    Uniform { min: i32, max: i32 },
    Trapezoid { min: i32, max: i32, plateau: i32 },
    BiasedToBottom { min: i32, max: i32, inner: i32 },
    VeryBiasedToBottom { min: i32, max: i32, inner: i32 },
}

/// Fits 32 bits.
pub open spec fn fits_int(v: int) -> bool {
    i32::MIN <= v <= i32::MAX
}

/// A number can be drawn between two; where they are the wrong way round
/// nothing is drawn.
pub open spec fn can_lie_between(min: i32, max: i32) -> bool {
    max - min < i32::MAX
}

/// Two numbers whose sum rises, stays and falls can be drawn: their ranges
/// are not empty and fit 32 bits.
pub open spec fn can_slope(min: i32, max: i32, plateau: i32) -> bool {
    let range = max - min;
    let start = (range - plateau) / 2;
    min > max || {
        &&& range <= i32::MAX
        &&& if plateau >= range {
            range < i32::MAX
        } else {
            range - plateau <= i32::MAX && start <= range && range - start < i32::MAX
        }
    }
}

/// Numbers near the bottom can be drawn, each below the one before.
pub open spec fn can_sink(min: i32, max: i32, inner: i32) -> bool {
    &&& fits_int(max - min)
    &&& fits_int(max - min - inner)
    &&& max - min - inner >= 0 ==> inner >= 1
}

/// So can they where an empty range stands for its lower end.
pub open spec fn can_sink_twice(min: i32, max: i32, inner: i32) -> bool {
    let second = if max > min { max - 1 } else { min as int };
    &&& fits_int(max - min)
    &&& fits_int(max - min - inner)
    &&& max - min - inner >= 0 ==> {
        &&& min > i32::MIN
        &&& min + inner > i32::MIN
        &&& max - min - inner < i32::MAX
        &&& second - 1 + inner <= i32::MAX
        &&& second - min + inner <= i32::MAX
    }
}

pub fn is_between(min: i32, max: i32) -> (r: bool)
    ensures
        r == can_lie_between(min, max),
{
    (max as i64) - (min as i64) < i32::MAX as i64
}

pub fn is_slope(min: i32, max: i32, plateau: i32) -> (r: bool)
    ensures
        r == can_slope(min, max, plateau),
{
    if min > max {
        return true;
    }
    let most: i64 = i32::MAX as i64;
    let range: i64 = max as i64 - min as i64;
    let rest: i64 = range - plateau as i64;
    if range > most {
        false
    } else if rest <= 0 {
        range < most
    } else {
        rest <= most && rest / 2 <= range && range - rest / 2 < most
    }
}

pub fn is_sink(min: i32, max: i32, inner: i32) -> (r: bool)
    ensures
        r == can_sink(min, max, inner),
{
    let (least, most): (i64, i64) = (i32::MIN as i64, i32::MAX as i64);
    let range: i64 = max as i64 - min as i64;
    let rest: i64 = range - inner as i64;
    least <= range && range <= most && least <= rest && rest <= most && (rest < 0 || inner >= 1)
}

pub fn is_deep_sink(min: i32, max: i32, inner: i32) -> (r: bool)
    ensures
        r == can_sink_twice(min, max, inner),
{
    let (least, most): (i64, i64) = (i32::MIN as i64, i32::MAX as i64);
    let range: i64 = max as i64 - min as i64;
    let rest: i64 = range - inner as i64;
    let second: i64 = if max > min { max as i64 - 1 } else { min as i64 };
    least <= range && range <= most && least <= rest && rest <= most && (rest < 0 || (min > i32::MIN && min as i64 + inner as i64
        > least && rest < most && second - 1 + inner as i64 <= most && second - min as i64 + inner as i64 <= most))
}

/// A number between two, the lower one where there is none.
pub open spec fn between_or(r: LegacyRandomSource, min: int, max: int) -> (int, LegacyRandomSource) {
    if min >= max { (min, r) } else { between(r, min, max) }
}

fn mth_next_int(random: &mut LegacyRandomSource, min: i32, max: i32) -> (r: i32)
    requires
        can_lie_between(min, max),
    ensures
        (r as int, *final(random)) == between_or(*old(random), min as int, max as int),
        min <= r,
        r == min || r <= max,
{
    if min >= max { min } else { random_between_inclusive(random, min, max) }
}

impl HeightProvider {
    /// Whatever is drawn, the sums stay within 32 bits.
    pub open spec fn wf(self) -> bool {
        match self {
            HeightProvider::Constant(_) => true,
            HeightProvider::Uniform { min, max } => can_lie_between(min, max),
            HeightProvider::Trapezoid { min, max, plateau } => can_slope(min, max, plateau),
            HeightProvider::BiasedToBottom { min, max, inner } => can_sink(min, max, inner),
            HeightProvider::VeryBiasedToBottom { min, max, inner } => can_sink_twice(min, max, inner),
        }
    }

    pub open spec fn drawn(self, r: LegacyRandomSource) -> (int, LegacyRandomSource) {
        match self {
            HeightProvider::Constant(y) => (y as int, r),
            HeightProvider::Uniform { min, max } => if min > max {
                (min as int, r)
            } else {
                between(r, min as int, max as int)
            },
            HeightProvider::Trapezoid { min, max, plateau } => {
                let range = max - min;
                if min > max {
                    (min as int, r)
                } else if plateau >= range {
                    between(r, min as int, max as int)
                } else {
                    let start = (range - plateau) / 2;
                    let (a, s) = between(r, 0, range - start);
                    let (b, t) = between(s, 0, start);
                    (min + a + b, t)
                }
            },
            HeightProvider::BiasedToBottom { min, max, inner } => if max - min - inner < 0 {
                (min as int, r)
            } else {
                let (a, s) = below(r, (max - min - inner + 1) as i32);
                let (b, t) = below(s, (a + inner) as i32);
                (b + min, t)
            },
            HeightProvider::VeryBiasedToBottom { min, max, inner } => if max - min - inner < 0 {
                (min as int, r)
            } else {
                let (a, s) = between_or(r, min + inner, max as int);
                let (b, t) = between_or(s, min as int, a - 1);
                between_or(t, min as int, b - 1 + inner)
            },
        }
    }

    pub fn sample(&self, random: &mut LegacyRandomSource) -> (r: i32)
        requires
            self.wf(),
        ensures
            (r as int, *final(random)) == self.drawn(*old(random)),
    {
        match *self {
            HeightProvider::Constant(y) => y,
            HeightProvider::Uniform { min, max } => {
                if min > max { min } else { random_between_inclusive(random, min, max) }
            },
            HeightProvider::Trapezoid { min, max, plateau } => {
                if min > max {
                    return min;
                }
                let range: i32 = max - min;
                if plateau >= range {
                    return random_between_inclusive(random, min, max);
                }
                let start: i32 = (range - plateau) / 2;
                let end: i32 = range - start;
                let a: i32 = random_between_inclusive(random, 0, end);
                let b: i32 = random_between_inclusive(random, 0, start);
                min + a + b
            },
            HeightProvider::BiasedToBottom { min, max, inner } => {
                if max - min - inner < 0 {
                    return min;
                }
                let a: i32 = next_int_bound(random, max - min - inner + 1);
                let b: i32 = next_int_bound(random, a + inner);
                b + min
            },
            HeightProvider::VeryBiasedToBottom { min, max, inner } => {
                if max - min - inner < 0 {
                    return min;
                }
                let a: i32 = mth_next_int(random, min + inner, max);
                let b: i32 = mth_next_int(random, min, a - 1);
                mth_next_int(random, min, b - 1 + inner)
            },
        }
    }
}

/// The block corner of a chunk.
#[derive(Clone, Copy, Debug)]
pub struct ChunkPos {
    pub min_x: i32,
    pub min_z: i32,
}

/// One bit per block of a chunk between two heights.
pub struct CarvingMask {
    pub min_y: i32,
    pub max_y: i32,
    bits: Vec<bool>,
    any: bool,
}

/// Cells of a chunk: x, y, z.
pub type Cells = Set<(int, int, int)>;

impl CarvingMask {
    pub closed spec fn rows(&self) -> int {
        self.max_y - self.min_y + 1
    }

    pub closed spec fn place(&self, x: int, y: int, z: int) -> int {
        y - self.min_y + (z + x * 16) * self.rows()
    }

    /// A cell of the mask.
    pub open spec fn covers(&self, x: int, y: int, z: int) -> bool {
        0 <= x < 16 && self.bottom() <= y <= self.top() && 0 <= z < 16
    }

    pub closed spec fn bottom(&self) -> int {
        self.min_y as int
    }

    pub closed spec fn top(&self) -> int {
        self.max_y as int
    }

    pub closed spec fn wf(&self) -> bool {
        &&& self.min_y <= self.max_y + 1
        &&& self.bits@.len() == 256 * self.rows()
        &&& self.any <==> exists|i: int| 0 <= i < self.bits@.len() && #[trigger] self.bits@[i]
    }

    proof fn lemma_place(&self, x: int, y: int, z: int)
        requires
            self.wf(),
            self.covers(x, y, z),
        ensures
            0 <= self.place(x, y, z) < self.bits@.len(),
            self.place(x, y, z) % self.rows() == y - self.min_y,
            self.place(x, y, z) / self.rows() == z + x * 16,
            0 <= (z + x * 16) * self.rows(),
    {
        let (c, h) = (z + x * 16, self.rows());
        vstd::arithmetic::div_mod::lemma_fundamental_div_mod_converse(c * h + (y - self.min_y), h, c, y - self.min_y);
        assert(0 <= c * h && c * h + h <= 256 * h) by (nonlinear_arith)
            requires
                0 <= c <= 255,
                h >= 1,
        ;
        assert(h * c == c * h) by (nonlinear_arith);
    }

    /// The cell of a place.
    closed spec fn cell(&self, i: int) -> (int, int, int) {
        let c = i / self.rows();
        (c / 16, i % self.rows() + self.min_y, c % 16)
    }

    proof fn lemma_cell(&self, i: int)
        requires
            self.wf(),
            0 <= i < self.bits@.len(),
        ensures
            ({
                let (x, y, z) = self.cell(i);
                self.covers(x, y, z) && self.place(x, y, z) == i
            }),
    {
        let h = self.rows();
        let c = i / h;
        vstd::arithmetic::div_mod::lemma_fundamental_div_mod(i, h);
        assert(0 <= c && c < 256) by (nonlinear_arith)
            requires
                i == h * c + i % h,
                0 <= i % h < h,
                0 <= i < 256 * h,
        ;
        assert(h * c == c * h) by (nonlinear_arith);
        assert(c % 16 + (c / 16) * 16 == c);
    }

    pub fn new(min_y: i32, max_y: i32) -> (r: CarvingMask)
        requires
            min_y <= max_y + 1,
            (max_y - min_y + 1) * 256 <= usize::MAX,
        ensures
            r.wf(),
            r@ == Cells::empty(),
            r.bottom() == min_y,
            r.top() == max_y,
    {
        let n: usize = ((max_y as i64 - min_y as i64 + 1) * 256) as usize;
        let mut bits: Vec<bool> = Vec::new();
        let mut i: usize = 0;
        while i < n
            invariant
                i <= n,
                bits@.len() == i,
                forall|k: int| 0 <= k < i ==> !#[trigger] bits@[k],
            decreases n - i,
        {
            bits.push(false);
            i += 1;
        }
        let r = CarvingMask { min_y, max_y, bits, any: false };
        proof {
            assert forall|p: (int, int, int)| !r@.contains(p) by {
                if r.covers(p.0, p.1, p.2) {
                    r.lemma_place(p.0, p.1, p.2);
                }
            }
            assert(r@ =~= Cells::empty());
        }
        r
    }

    fn index(&self, x: i32, y: i32, z: i32) -> (r: usize)
        requires
            self.wf(),
            self.covers(x as int, y as int, z as int),
        ensures
            r == self.place(x as int, y as int, z as int),
            r < self.bits@.len(),
    {
        proof { self.lemma_place(x as int, y as int, z as int); }
        let n: usize = self.bits.len();
        let h: i64 = self.max_y as i64 - self.min_y as i64 + 1;
        let c: i64 = (z + x * 16) as i64;
        proof {
            assert(0 <= c * h <= 255 * 0x1_0000_0000) by (nonlinear_arith)
                requires
                    0 <= c <= 255,
                    0 <= h <= 0x1_0000_0000,
            ;
        }
        let i: i64 = y as i64 - self.min_y as i64 + c * h;
        proof { assert(i < n); }
        i as usize
    }

    /// Carve a block.
    pub fn carve(&mut self, x: i32, y: i32, z: i32)
        requires
            old(self).wf(),
            old(self).covers(x as int, y as int, z as int),
        ensures
            final(self).wf(),
            final(self)@ == old(self)@.insert((x as int, y as int, z as int)),
            final(self).bottom() == old(self).bottom(),
            final(self).top() == old(self).top(),
    {
        let i: usize = self.index(x, y, z);
        self.bits.set(i, true);
        self.any = true;
        proof {
            assert(self.bits@[i as int]);
            let o = *old(self);
            assert forall|p: (int, int, int)| self@.contains(p) <==> o@.insert((x as int, y as int, z as int)).contains(p) by {
                if self.covers(p.0, p.1, p.2) {
                    self.lemma_place(p.0, p.1, p.2);
                    self.lemma_place(x as int, y as int, z as int);
                }
            }
            assert(self@ =~= o@.insert((x as int, y as int, z as int)));
        }
    }

    pub fn get(&self, x: i32, y: i32, z: i32) -> (r: bool)
        requires
            self.wf(),
            self.covers(x as int, y as int, z as int),
        ensures
            r == self@.contains((x as int, y as int, z as int)),
    {
        self.bits[self.index(x, y, z)]
    }

    pub fn is_empty(&self) -> (r: bool)
        requires
            self.wf(),
        ensures
            r == (self@ == Cells::empty()),
    {
        proof {
            if self.any {
                let i = choose|i: int| 0 <= i < self.bits@.len() && #[trigger] self.bits@[i];
                self.lemma_cell(i);
                assert(self@.contains(self.cell(i)));
            } else {
                assert forall|p: (int, int, int)| !self@.contains(p) by {
                    if self.covers(p.0, p.1, p.2) {
                        self.lemma_place(p.0, p.1, p.2);
                        assert(!self.bits@[self.place(p.0, p.1, p.2)]);
                    }
                }
                assert(self@ =~= Cells::empty());
            }
        }
        !self.any
    }

    /// The carved cells of the first places.
    closed spec fn first_cells(&self, n: int) -> Cells {
        Set::new(|p: (int, int, int)| self@.contains(p) && self.place(p.0, p.1, p.2) < n)
    }

    /// How many blocks are carved.
    pub fn count(&self) -> (r: usize)
        requires
            self.wf(),
        ensures
            r == self@.len(),
            self@.finite(),
    {
        let mut r: usize = 0;
        let mut i: usize = 0;
        proof { assert(self.first_cells(0) =~= Set::empty()) by {
            assert forall|p: (int, int, int)| !self.first_cells(0).contains(p) by {
                if self@.contains(p) {
                    self.lemma_place(p.0, p.1, p.2);
                }
            }
        } }
        while i < self.bits.len()
            invariant
                i <= self.bits@.len(),
                r <= i,
                self.wf(),
                self.first_cells(i as int).finite(),
                r == self.first_cells(i as int).len(),
            decreases self.bits.len() - i,
        {
            proof {
                self.lemma_cell(i as int);
                let c = self.cell(i as int);
                let (a, b) = (self.first_cells(i as int), self.first_cells(i + 1));
                assert forall|p: (int, int, int)| b.contains(p) <==> (if self.bits@[i as int] {
                    a.insert(c).contains(p)
                } else {
                    a.contains(p)
                }) by {
                    if self@.contains(p) {
                        self.lemma_place(p.0, p.1, p.2);
                        if self.place(p.0, p.1, p.2) == i {
                            assert(p == c);
                        }
                    }
                }
                if self.bits@[i as int] {
                    assert(b =~= a.insert(c));
                } else {
                    assert(b =~= a);
                }
            }
            if self.bits[i] {
                r += 1;
            }
            i += 1;
        }
        proof {
            assert(self.first_cells(i as int) =~= self@) by {
                assert forall|p: (int, int, int)| self@.contains(p) implies self.first_cells(i as int).contains(p) by {
                    self.lemma_place(p.0, p.1, p.2);
                }
            }
        }
        r
    }
}

impl CarvingMask {
    /// Carved cells are cells of the mask.
    pub proof fn lemma_carved_cells(&self)
        requires
            self.wf(),
        ensures
            self.bottom() <= self.top() + 1,
            forall|p: (int, int, int)| #[trigger] self@.contains(p) ==> self.covers(p.0, p.1, p.2),
    {
    }
}

impl View for CarvingMask {
    type V = Cells;

    closed spec fn view(&self) -> Cells {
        Set::new(|p: (int, int, int)| self.covers(p.0, p.1, p.2) && self.bits@[self.place(p.0, p.1, p.2)])
    }
}

/// The end of a run of carved blocks that reaches `y`.
pub open spec fn run_end(m: Cells, x: int, z: int, y: int, top: int) -> int
    decreases top - y,
{
    if y < top && m.contains((x, y + 1, z)) { run_end(m, x, z, y + 1, top) } else { y }
}

/// The runs of carved blocks of a column from `y` up, as x, z, bottom and
/// top.
pub open spec fn column_runs(m: Cells, x: int, z: int, y: int, top: int) -> Seq<(int, int, int, int)>
    decreases top - y + 1,
{
    if y > top {
        Seq::empty()
    } else if !m.contains((x, y, z)) {
        column_runs(m, x, z, y + 1, top)
    } else {
        let e = run_end(m, x, z, y, top);
        if e < y || e > top { Seq::empty() } else { seq![(x, z, y, e)] + column_runs(m, x, z, e + 1, top) }
    }
}

/// The runs of the first `n` columns, z faster than x.
pub open spec fn mask_runs(m: Cells, bottom: int, top: int, n: nat) -> Seq<(int, int, int, int)>
    decreases n,
{
    if n == 0 {
        Seq::empty()
    } else {
        mask_runs(m, bottom, top, (n - 1) as nat) + column_runs(m, (n - 1) / 16, (n - 1) % 16, bottom, top)
    }
}

/// Runs as integers.
pub open spec fn plain_runs(v: Seq<(usize, usize, i32, i32)>) -> Seq<(int, int, int, int)> {
    v.map_values(|r: (usize, usize, i32, i32)| (r.0 as int, r.1 as int, r.2 as int, r.3 as int))
}

pub(crate) proof fn lemma_run_end(m: Cells, x: int, z: int, y: int, top: int)
    requires
        y <= top,
    ensures
        y <= run_end(m, x, z, y, top) <= top,
    decreases top - y,
{
    if y < top && m.contains((x, y + 1, z)) {
        lemma_run_end(m, x, z, y + 1, top);
    }
}

/// A block lies in a run.
pub open spec fn in_run(r: (int, int, int, int), x: int, y: int, z: int) -> bool {
    r.0 == x && r.1 == z && r.2 <= y <= r.3
}

/// A block lies in one of some runs.
pub open spec fn in_some_run(runs: Seq<(int, int, int, int)>, x: int, y: int, z: int) -> bool {
    exists|i: int| 0 <= i < runs.len() && in_run(#[trigger] runs[i], x, y, z)
}

/// A run is carved throughout, and ends where the carving does.
proof fn lemma_run_is_carved(m: Cells, x: int, z: int, y: int, top: int, k: int)
    requires
        m.contains((x, y, z)),
        y <= k <= run_end(m, x, z, y, top),
    ensures
        m.contains((x, k, z)),
    decreases top - y,
{
    if y < k {
        lemma_run_is_carved(m, x, z, y + 1, top, k);
    }
}

proof fn lemma_column_runs(m: Cells, x: int, z: int, from: int, top: int, y: int)
    requires
        from <= y <= top,
    ensures
        m.contains((x, y, z)) <==> in_some_run(column_runs(m, x, z, from, top), x, y, z),
    decreases top - from + 1,
{
    let runs = column_runs(m, x, z, from, top);
    if !m.contains((x, from, z)) {
        assert(runs == column_runs(m, x, z, from + 1, top));
        if from < y {
            lemma_column_runs(m, x, z, from + 1, top, y);
        } else {
            lemma_runs_start(m, x, z, from + 1, top);
            assert(!in_some_run(runs, x, y, z));
        }
    } else {
        lemma_run_end(m, x, z, from, top);
        let e = run_end(m, x, z, from, top);
        let rest = column_runs(m, x, z, e + 1, top);
        assert(runs == seq![(x, z, from, e)] + rest);
        if y <= e {
            lemma_run_is_carved(m, x, z, from, top, y);
            assert(in_run(runs[0], x, y, z));
        } else {
            lemma_column_runs(m, x, z, e + 1, top, y);
            if m.contains((x, y, z)) {
                let i = choose|i: int| 0 <= i < rest.len() && in_run(#[trigger] rest[i], x, y, z);
                assert(runs[i + 1] == rest[i]);
                assert(in_run(runs[i + 1], x, y, z));
            } else {
                assert forall|i: int| 0 <= i < runs.len() implies !in_run(#[trigger] runs[i], x, y, z) by {
                    if i > 0 {
                        assert(runs[i] == rest[i - 1]);
                    }
                }
                assert(!in_some_run(runs, x, y, z));
            }
        }
    }
}

/// No run of a column starts below where the walk starts.
proof fn lemma_runs_start(m: Cells, x: int, z: int, from: int, top: int)
    ensures
        forall|i: int| 0 <= i < column_runs(m, x, z, from, top).len() ==> (#[trigger] column_runs(m, x, z, from, top)[i]).2 >= from,
    decreases top - from + 1,
{
    if from <= top {
        if !m.contains((x, from, z)) {
            lemma_runs_start(m, x, z, from + 1, top);
            assert(column_runs(m, x, z, from, top) == column_runs(m, x, z, from + 1, top));
        } else {
            lemma_run_end(m, x, z, from, top);
            let e = run_end(m, x, z, from, top);
            lemma_runs_start(m, x, z, e + 1, top);
            let runs = column_runs(m, x, z, from, top);
            let rest = column_runs(m, x, z, e + 1, top);
            assert(runs == seq![(x, z, from, e)] + rest);
            assert forall|i: int| 0 <= i < runs.len() implies (#[trigger] runs[i]).2 >= from by {
                if i > 0 {
                    assert(runs[i] == rest[i - 1]);
                }
            }
        }
    }
}

/// Every run of a column is of that column.
proof fn lemma_runs_column(m: Cells, x: int, z: int, from: int, top: int)
    ensures
        forall|i: int|
            0 <= i < column_runs(m, x, z, from, top).len() ==> (#[trigger] column_runs(m, x, z, from, top)[i]).0 == x
                && column_runs(m, x, z, from, top)[i].1 == z,
    decreases top - from + 1,
{
    if from <= top {
        if !m.contains((x, from, z)) {
            lemma_runs_column(m, x, z, from + 1, top);
            assert(column_runs(m, x, z, from, top) == column_runs(m, x, z, from + 1, top));
        } else {
            lemma_run_end(m, x, z, from, top);
            let e = run_end(m, x, z, from, top);
            lemma_runs_column(m, x, z, e + 1, top);
            let runs = column_runs(m, x, z, from, top);
            let rest = column_runs(m, x, z, e + 1, top);
            assert(runs == seq![(x, z, from, e)] + rest);
            assert forall|i: int| 0 <= i < runs.len() implies (#[trigger] runs[i]).0 == x && runs[i].1 == z by {
                if i > 0 {
                    assert(runs[i] == rest[i - 1]);
                }
            }
        }
    }
}

proof fn lemma_mask_runs(m: Cells, bottom: int, top: int, n: nat, x: int, y: int, z: int)
    requires
        0 <= x < 16,
        0 <= z < 16,
        bottom <= y <= top,
    ensures
        (x * 16 + z < n && m.contains((x, y, z))) <==> in_some_run(mask_runs(m, bottom, top, n), x, y, z),
    decreases n,
{
    if n > 0 {
        let before = mask_runs(m, bottom, top, (n - 1) as nat);
        let (cx, cz) = ((n - 1) / 16, (n - 1) % 16);
        let column = column_runs(m, cx, cz, bottom, top);
        let all = mask_runs(m, bottom, top, n);
        assert(all == before + column);
        lemma_mask_runs(m, bottom, top, (n - 1) as nat, x, y, z);
        lemma_runs_column(m, cx, cz, bottom, top);
        if x * 16 + z == n - 1 {
            lemma_column_runs(m, x, z, bottom, top, y);
            if m.contains((x, y, z)) {
                let i = choose|i: int| 0 <= i < column.len() && in_run(#[trigger] column[i], x, y, z);
                assert(all[before.len() + i] == column[i]);
                assert(in_run(all[before.len() + i], x, y, z));
            }
        }
        if in_some_run(all, x, y, z) {
            let i = choose|i: int| 0 <= i < all.len() && in_run(#[trigger] all[i], x, y, z);
            if i < before.len() {
                assert(in_run(before[i], x, y, z));
            } else {
                assert(in_run(column[i - before.len()], x, y, z));
                assert(cx == x && cz == z);
            }
        } else if x * 16 + z < n - 1 && m.contains((x, y, z)) {
            let i = choose|i: int| 0 <= i < before.len() && in_run(#[trigger] before[i], x, y, z);
            assert(in_run(all[i], x, y, z));
        }
    }
}

/// The runs of a mask hold exactly the carved blocks.
pub proof fn law_runs_hold_the_carved(m: Cells, bottom: int, top: int, x: int, y: int, z: int)
    requires
        0 <= x < 16,
        0 <= z < 16,
        bottom <= y <= top,
    ensures
        m.contains((x, y, z)) <==> in_some_run(mask_runs(m, bottom, top, 256), x, y, z),
{
    lemma_mask_runs(m, bottom, top, 256, x, y, z);
}

impl CarvingMask {
    /// The runs of carved blocks in visiting order, as x, z, bottom and
    /// top.
    pub fn runs(&self) -> (r: Vec<(usize, usize, i32, i32)>)
        requires
            self.wf(),
        ensures
            plain_runs(r@) == mask_runs(self@, self.bottom(), self.top(), 256),
    {
        let mut out: Vec<(usize, usize, i32, i32)> = Vec::new();
        let mut c: usize = 0;
        let ghost (m, lo, hi) = (self@, self.bottom(), self.top());
        proof { assert(plain_runs(out@) =~= Seq::empty()); }
        while c < 256
            invariant
                c <= 256,
                self.wf(),
                m == self@ && lo == self.bottom() && hi == self.top(),
                plain_runs(out@) == mask_runs(m, lo, hi, c as nat),
            decreases 256 - c,
        {
            let (x, z): (usize, usize) = (c / 16, c % 16);
            let mut y: i64 = self.min_y as i64;
            let ghost before = plain_runs(out@);
            proof { assert(before + column_runs(m, x as int, z as int, lo, hi) == mask_runs(m, lo, hi, (c + 1) as nat)); }
            while y <= self.max_y as i64
                invariant
                    c < 256,
                    x == c / 16 && z == c % 16,
                    self.wf(),
                    m == self@ && lo == self.bottom() && hi == self.top(),
                    lo == self.min_y && hi == self.max_y,
                    lo <= y <= hi + 1,
                    mask_runs(m, lo, hi, (c + 1) as nat) == plain_runs(out@) + column_runs(m, x as int, z as int, y as int, hi),
                decreases self.max_y + 1 - y,
            {
                if !self.get(x as i32, y as i32, z as i32) {
                    y += 1;
                    continue;
                }
                let start: i64 = y;
                let ghost e = run_end(m, x as int, z as int, start as int, hi);
                proof { lemma_run_end(m, x as int, z as int, start as int, hi); }
                while y < self.max_y as i64 && self.get(x as i32, (y + 1) as i32, z as i32)
                    invariant
                        c < 256,
                        x == c / 16 && z == c % 16,
                        self.wf(),
                        m == self@ && hi == self.top() && lo == self.bottom(),
                        lo == self.min_y && hi == self.max_y,
                        lo <= start <= y <= hi,
                        e == run_end(m, x as int, z as int, y as int, hi),
                    decreases self.max_y - y,
                {
                    y += 1;
                }
                let ghost old_out = out@;
                out.push((x, z, start as i32, y as i32));
                proof {
                    assert(y == e);
                    let one = (x as int, z as int, start as int, e);
                    assert(plain_runs(out@) =~= plain_runs(old_out).push(one));
                    let rest = column_runs(m, x as int, z as int, e + 1, hi);
                    assert(plain_runs(old_out) + (seq![one] + rest) =~= plain_runs(old_out).push(one) + rest);
                }
                y += 1;
            }
            proof { assert(plain_runs(out@) + Seq::empty() =~= plain_runs(out@)); }
            c += 1;
        }
        out
    }
}

/// Bounded memo of a biome per chunk: the one that came first leaves
/// first.
pub struct CarverBiomeCache {
    map: ChunkMap<u16>,
    order: Vec<(i32, i32)>,
    /// How many at the front of the order have left.
    gone: usize,
}

/// How many chunks are remembered.
pub const CAPACITY: usize = 65536;

impl Default for CarverBiomeCache {
    fn default() -> (r: CarverBiomeCache)
        ensures
            r.wf(),
            r@ == Seq::<((i32, i32), u16)>::empty(),
    {
        let r = CarverBiomeCache { map: ChunkMap::new(), order: Vec::new(), gone: 0 };
        proof { assert(r@ =~= Seq::empty()); }
        r
    }
}

/// The place of a chunk in a memo, from `k` on.
pub open spec fn memo_place(s: Seq<((i32, i32), u16)>, key: (i32, i32), k: int) -> Option<int>
    decreases s.len() - k,
{
    if k < 0 || k >= s.len() {
        None
    } else if s[k].0 == key {
        Some(k)
    } else {
        memo_place(s, key, k + 1)
    }
}

/// A memo with a chunk's biome: in its place where it had one, else at the
/// end, and the first one leaves when there are too many.
pub open spec fn memo_with(s: Seq<((i32, i32), u16)>, key: (i32, i32), biome: u16) -> Seq<((i32, i32), u16)> {
    match memo_place(s, key, 0) {
        Some(k) => s.update(k, (key, biome)),
        None => if s.len() >= CAPACITY { s.skip(1).push((key, biome)) } else { s.push((key, biome)) },
    }
}

impl CarverBiomeCache {
    pub closed spec fn wf(&self) -> bool {
        &&& self.gone <= self.order@.len()
        &&& self.order@.len() - self.gone <= CAPACITY
        &&& self.gone <= CAPACITY
        &&& forall|i: int, j: int| self.gone <= i < self.order@.len() && self.gone <= j < self.order@.len() && i != j
            ==> #[trigger] self.order@[i] != #[trigger] self.order@[j]
        &&& forall|p: (i32, i32)| #[trigger] self.map@.contains_key(p) ==> exists|i: int|
            self.gone <= i < self.order@.len() && #[trigger] self.order@[i] == p
        &&& forall|i: int| self.gone <= i < self.order@.len() ==> self.map@.contains_key(#[trigger] self.order@[i])
    }
}

impl View for CarverBiomeCache {
    type V = Seq<((i32, i32), u16)>;

    /// The chunks with their biomes, the first to leave first.
    closed spec fn view(&self) -> Seq<((i32, i32), u16)> {
        Seq::new(
            (self.order@.len() - self.gone) as nat,
            |i: int| (self.order@[self.gone + i], self.map@[self.order@[self.gone + i]]),
        )
    }
}

proof fn lemma_memo_place(s: Seq<((i32, i32), u16)>, key: (i32, i32), k: int)
    requires
        0 <= k,
    ensures
        match memo_place(s, key, k) {
            Some(j) => k <= j < s.len() && s[j].0 == key && forall|i: int| k <= i < j ==> (#[trigger] s[i]).0 != key,
            None => forall|i: int| k <= i < s.len() ==> (#[trigger] s[i]).0 != key,
        },
    decreases s.len() - k,
{
    if k < s.len() && s[k].0 != key {
        lemma_memo_place(s, key, k + 1);
    }
}

impl CarverBiomeCache {
    pub fn get(&self, key: (i32, i32)) -> (r: Option<u16>)
        requires
            self.wf(),
        ensures
            r == (match memo_place(self@, key, 0) {
                Some(k) => Some(self@[k].1),
                None => None,
            }),
    {
        proof {
            lemma_memo_place(self@, key, 0);
            if self.map@.contains_key(key) {
                let i = choose|i: int| self.gone <= i < self.order@.len() && #[trigger] self.order@[i] == key;
                assert(self@[i - self.gone].0 == key);
            }
        }
        match self.map.get(key.0, key.1) {
            Some(b) => Some(*b),
            None => None,
        }
    }

    pub fn insert(&mut self, key: (i32, i32), biome: u16)
        requires
            old(self).wf(),
        ensures
            final(self).wf(),
            final(self)@ == memo_with(old(self)@, key, biome),
    {
        let ghost o = *self;
        proof {
            lemma_memo_place(self@, key, 0);
            if self.map@.contains_key(key) {
                let i = choose|i: int| self.gone <= i < self.order@.len() && #[trigger] self.order@[i] == key;
                assert(self@[i - self.gone].0 == key);
            }
        }
        let known: bool = self.map.insert(key.0, key.1, biome).is_some();
        if known {
            proof { assert(self@ =~= memo_with(o@, key, biome)); }
            return;
        }
        self.order.push(key);
        let ghost full = o@.len() >= CAPACITY;
        if self.order.len() - self.gone > CAPACITY {
            let first: (i32, i32) = self.order[self.gone];
            proof { assert(first == o.order@[o.gone as int]); }
            self.map.remove(first.0, first.1);
            self.gone = self.gone + 1;
        }
        proof {
            assert(self@ =~= memo_with(o@, key, biome)) by {
                assert forall|i: int| o.gone <= i < o.order@.len() implies #[trigger] o.order@[i] != key by {
                    assert(o.map@.contains_key(o.order@[i]));
                }
            }
            assert forall|p: (i32, i32)| #[trigger] self.map@.contains_key(p) implies exists|i: int|
                self.gone <= i < self.order@.len() && #[trigger] self.order@[i] == p by {
                if p == key {
                    assert(self.order@[self.order@.len() - 1] == p);
                } else {
                    let i = choose|i: int| o.gone <= i < o.order@.len() && #[trigger] o.order@[i] == p;
                    assert(self.order@[i] == p);
                }
            }
        }
        if self.gone >= CAPACITY {
            self.compact();
        }
    }

    /// Drop what has left.
    fn compact(&mut self)
        requires
            old(self).gone <= old(self).order@.len(),
            old(self).order@.len() - old(self).gone <= CAPACITY,
            forall|i: int, j: int|
                old(self).gone <= i < old(self).order@.len() && old(self).gone <= j < old(self).order@.len() && i != j
                    ==> #[trigger] old(self).order@[i] != #[trigger] old(self).order@[j],
            forall|p: (i32, i32)| #[trigger] old(self).map@.contains_key(p) ==> exists|i: int|
                old(self).gone <= i < old(self).order@.len() && #[trigger] old(self).order@[i] == p,
            forall|i: int|
                old(self).gone <= i < old(self).order@.len() ==> old(self).map@.contains_key(#[trigger] old(self).order@[i]),
        ensures
            final(self).wf(),
            final(self)@ == old(self)@,
    {
        let ghost o = *self;
        let mut rest: Vec<(i32, i32)> = Vec::new();
        let mut i: usize = self.gone;
        while i < self.order.len()
            invariant
                *self == o,
                o.gone <= i <= o.order@.len(),
                rest@ == o.order@.subrange(o.gone as int, i as int),
            decreases self.order.len() - i,
        {
            rest.push(self.order[i]);
            i += 1;
            proof { assert(rest@ =~= o.order@.subrange(o.gone as int, i as int)); }
        }
        self.order = rest;
        self.gone = 0;
        proof {
            assert(self@ =~= o@);
            assert forall|p: (i32, i32)| #[trigger] self.map@.contains_key(p) implies exists|i: int|
                self.gone <= i < self.order@.len() && #[trigger] self.order@[i] == p by {
                let i = choose|i: int| o.gone <= i < o.order@.len() && #[trigger] o.order@[i] == p;
                assert(self.order@[i - o.gone] == p);
            }
        }
    }
}

/// A chunk can be reached from a step of a walk.
pub open spec fn reachable<F: Fn(Ask) -> u64>(f: F, chunk: ChunkPos, x: u64, z: u64, current: int, total: int, thickness: u32) -> bool {
    let xd = reply(f, Ask::Sub64(x, reply(f, Ask::FromInt64(wrapped(chunk.min_x + 8)))));
    let zd = reply(f, Ask::Sub64(z, reply(f, Ask::FromInt64(wrapped(chunk.min_z + 8)))));
    let rest = reply(f, Ask::FromInt64(wrapped(total - current)));
    let rr = reply(f, Ask::Widen(low(f, Ask::Add32(low(f, Ask::Add32(thickness, TWO_32)), SIXTEEN_32))));
    let far = reply(f, Ask::Add64(reply(f, Ask::Mul64(xd, xd)), reply(f, Ask::Mul64(zd, zd))));
    holds(
        f,
        Ask::LessEq64(reply(f, Ask::Sub64(far, reply(f, Ask::Mul64(rest, rest)))), reply(f, Ask::Mul64(rr, rr))),
    )
}

fn can_reach<F: Fn(Ask) -> u64>(f: &F, chunk: ChunkPos, x: u64, z: u64, current: i32, total: i32, thickness: u32) -> (r: bool)
    requires
        answers(*f),
    ensures
        r == reachable(*f, chunk, x, z, current as int, total as int, thickness),
{
    let xm: u64 = f(Ask::FromInt64(wrap(chunk.min_x as i128 + 8)));
    let zm: u64 = f(Ask::FromInt64(wrap(chunk.min_z as i128 + 8)));
    let xd: u64 = f(Ask::Sub64(x, xm));
    let zd: u64 = f(Ask::Sub64(z, zm));
    let rest: u64 = f(Ask::FromInt64(wrap(total as i128 - current as i128)));
    let t: u32 = f(Ask::Add32(thickness, TWO_32)) as u32;
    let u: u32 = f(Ask::Add32(t, SIXTEEN_32)) as u32;
    let rr: u64 = f(Ask::Widen(u));
    let xx: u64 = f(Ask::Mul64(xd, xd));
    let zz: u64 = f(Ask::Mul64(zd, zd));
    let far: u64 = f(Ask::Add64(xx, zz));
    let ss: u64 = f(Ask::Mul64(rest, rest));
    let left: u64 = f(Ask::Sub64(far, ss));
    let right: u64 = f(Ask::Mul64(rr, rr));
    f(Ask::LessEq64(left, right)) != 0
}

/// Which blocks of an ellipsoid are left.
pub enum SkipRule {
    /// Below a floor, and outside of the ellipsoid.
    Floor(u64),
    /// Outside of an ellipsoid that is as wide at each height, counted from
    /// the base, as its factor says.
    Widths { factors: Vec<u32>, base: i32 },
}

/// The rule as a value.
pub ghost enum Skip {
    Floor(u64),
    Widths { factors: Seq<u32>, base: int },
}

impl View for SkipRule {
    type V = Skip;

    open spec fn view(&self) -> Skip {
        match *self {
            SkipRule::Floor(v) => Skip::Floor(v),
            SkipRule::Widths { factors, base } => Skip::Widths { factors: factors@, base: base as int },
        }
    }
}

impl Skip {
    /// There is a factor for every height of a mask but the lowest.
    pub open spec fn fits(self, bottom: int, top: int) -> bool {
        match self {
            Skip::Floor(_) => true,
            Skip::Widths { factors, base } => base <= bottom && top - base - 1 < factors.len(),
        }
    }

    /// A block is left.
    pub open spec fn leaves<F: Fn(Ask) -> u64>(self, f: F, xd: u64, yd: u64, zd: u64, y: int) -> bool {
        let (xx, yy, zz) = (reply(f, Ask::Mul64(xd, xd)), reply(f, Ask::Mul64(yd, yd)), reply(f, Ask::Mul64(zd, zd)));
        match self {
            Skip::Floor(level) => holds(f, Ask::LessEq64(yd, level)) || holds(
                f, Ask::LessEq64(ONE, reply(f, Ask::Add64(reply(f, Ask::Add64(xx, yy)), zz)))),
            Skip::Widths { factors, base } => {
                let wide = reply(f, Ask::Widen(factors[y - base - 1]));
                let flat = reply(f, Ask::Mul64(reply(f, Ask::Add64(xx, zz)), wide));
                holds(f, Ask::LessEq64(ONE, reply(f, Ask::Add64(flat, reply(f, Ask::Div64(yy, SIX))))))
            },
        }
    }
}

impl SkipRule {
    fn skips<F: Fn(Ask) -> u64>(&self, f: &F, xd: u64, yd: u64, zd: u64, y: i32) -> (r: bool)
        requires
            answers(*f),
            self@ matches Skip::Widths { factors, base } ==> 0 <= y - base - 1 < factors.len(),
        ensures
            r == self@.leaves(*f, xd, yd, zd, y as int),
    {
        let xx: u64 = f(Ask::Mul64(xd, xd));
        let yy: u64 = f(Ask::Mul64(yd, yd));
        let zz: u64 = f(Ask::Mul64(zd, zd));
        match self {
            SkipRule::Floor(level) => {
                if f(Ask::LessEq64(yd, *level)) != 0 {
                    return true;
                }
                let a: u64 = f(Ask::Add64(xx, yy));
                let b: u64 = f(Ask::Add64(a, zz));
                f(Ask::LessEq64(ONE, b)) != 0
            },
            SkipRule::Widths { factors, base } => {
                let i: usize = (y as i64 - *base as i64 - 1) as usize;
                let wide: u64 = f(Ask::Widen(factors[i]));
                let a: u64 = f(Ask::Add64(xx, zz));
                let flat: u64 = f(Ask::Mul64(a, wide));
                let b: u64 = f(Ask::Div64(yy, SIX));
                let c: u64 = f(Ask::Add64(flat, b));
                f(Ask::LessEq64(ONE, c)) != 0
            },
        }
    }
}

/// A floor as an integer.
pub open spec fn floor_of<F: Fn(Ask) -> u64>(f: F, v: u64) -> i32 {
    reply(f, Ask::ToInt64(reply(f, Ask::Floor64(v)))) as i32
}

pub(crate) fn floored_int<F: Fn(Ask) -> u64>(f: &F, v: u64) -> (r: i32)
    requires
        answers(*f),
    ensures
        r == floor_of(*f, v),
{
    let w: u64 = f(Ask::Floor64(v));
    f(Ask::ToInt64(w)) as i32
}

/// An ellipsoid: its centre and its radii.
#[derive(Clone, Copy)]
pub struct Ellipsoid {
    pub x: u64,
    pub y: u64,
    pub z: u64,
    pub wide: u64,
    pub tall: u64,
}

impl Ellipsoid {
    /// It lies too far from a chunk.
    pub open spec fn apart<F: Fn(Ask) -> u64>(self, f: F, chunk: ChunkPos) -> bool {
        let cx = reply(f, Ask::FromInt64(wrapped(chunk.min_x + 8)));
        let cz = reply(f, Ask::FromInt64(wrapped(chunk.min_z + 8)));
        let most = reply(f, Ask::Add64(SIXTEEN, reply(f, Ask::Mul64(self.wide, TWO))));
        ||| holds(f, Ask::Less64(most, reply(f, Ask::Abs64(reply(f, Ask::Sub64(self.x, cx))))))
        ||| holds(f, Ask::Less64(most, reply(f, Ask::Abs64(reply(f, Ask::Sub64(self.z, cz))))))
    }

    /// How far out a block lies along x and z, and along y, in radii.
    pub open spec fn out_flat<F: Fn(Ask) -> u64>(self, f: F, block: int, centre: u64) -> u64 {
        let middle = reply(f, Ask::Add64(reply(f, Ask::FromInt64(wrapped(block))), HALF));
        reply(f, Ask::Div64(reply(f, Ask::Sub64(middle, centre)), self.wide))
    }

    pub open spec fn out_up<F: Fn(Ask) -> u64>(self, f: F, y: int) -> u64 {
        let middle = reply(f, Ask::Sub64(reply(f, Ask::FromInt64(wrapped(y))), HALF));
        reply(f, Ask::Div64(reply(f, Ask::Sub64(middle, self.y)), self.tall))
    }

    /// The bounds of its blocks in a chunk, along x or z.
    pub open spec fn first<F: Fn(Ask) -> u64>(self, f: F, centre: u64, corner: int) -> int {
        let v = floor_of(f, reply(f, Ask::Sub64(centre, self.wide))) - corner - 1;
        if v > 0 { v } else { 0 }
    }

    pub open spec fn last<F: Fn(Ask) -> u64>(self, f: F, centre: u64, corner: int) -> int {
        let v = floor_of(f, reply(f, Ask::Add64(centre, self.wide))) - corner;
        if v < 15 { v } else { 15 }
    }

    /// The bounds of its blocks along y, the lower one excluded.
    pub open spec fn under<F: Fn(Ask) -> u64>(self, f: F, bottom: int) -> int {
        let v = floor_of(f, reply(f, Ask::Sub64(self.y, self.tall))) - 1;
        if v > bottom { v } else { bottom }
    }

    pub open spec fn upper<F: Fn(Ask) -> u64>(self, f: F, top: int) -> int {
        let v = floor_of(f, reply(f, Ask::Add64(self.y, self.tall))) + 1;
        if v < top { v } else { top }
    }

    /// A column is inside.
    pub open spec fn inside<F: Fn(Ask) -> u64>(self, f: F, chunk: ChunkPos, x: int, z: int) -> bool {
        let (xd, zd) = (self.out_flat(f, chunk.min_x + x, self.x), self.out_flat(f, chunk.min_z + z, self.z));
        let sum = reply(f, Ask::Add64(reply(f, Ask::Mul64(xd, xd)), reply(f, Ask::Mul64(zd, zd))));
        &&& self.first(f, self.x, chunk.min_x as int) <= x <= self.last(f, self.x, chunk.min_x as int)
        &&& self.first(f, self.z, chunk.min_z as int) <= z <= self.last(f, self.z, chunk.min_z as int)
        &&& !holds(f, Ask::LessEq64(ONE, sum))
    }

    /// A block is carved.
    #[verifier::opaque]
    pub open spec fn takes<F: Fn(Ask) -> u64>(self, f: F, chunk: ChunkPos, skip: Skip, bottom: int, top: int, p: (int, int, int)) -> bool {
        &&& self.inside(f, chunk, p.0, p.2)
        &&& self.under(f, bottom) < p.1 <= self.upper(f, top)
        &&& !skip.leaves(
            f,
            self.out_flat(f, chunk.min_x + p.0, self.x),
            self.out_up(f, p.1),
            self.out_flat(f, chunk.min_z + p.2, self.z),
            p.1,
        )
    }

    /// The cells of a chunk after it was carved.
    pub open spec fn carved<F: Fn(Ask) -> u64>(
        self, f: F, chunk: ChunkPos, skip: Skip, bottom: int, top: int, cells: Cells,
    ) -> Cells {
        if self.apart(f, chunk) {
            cells
        } else {
            cells.union(Set::new(|p: (int, int, int)| self.takes(f, chunk, skip, bottom, top, p)))
        }
    }

    fn is_apart<F: Fn(Ask) -> u64>(&self, f: &F, chunk: ChunkPos) -> (r: bool)
        requires
            answers(*f),
        ensures
            r == self.apart(*f, chunk),
    {
        let cx: u64 = f(Ask::FromInt64(wrap(chunk.min_x as i128 + 8)));
        let cz: u64 = f(Ask::FromInt64(wrap(chunk.min_z as i128 + 8)));
        let w: u64 = f(Ask::Mul64(self.wide, TWO));
        let most: u64 = f(Ask::Add64(SIXTEEN, w));
        let dx: u64 = f(Ask::Sub64(self.x, cx));
        let ax: u64 = f(Ask::Abs64(dx));
        let dz: u64 = f(Ask::Sub64(self.z, cz));
        let az: u64 = f(Ask::Abs64(dz));
        f(Ask::Less64(most, ax)) != 0 || f(Ask::Less64(most, az)) != 0
    }

    fn flat<F: Fn(Ask) -> u64>(&self, f: &F, block: i64, centre: u64) -> (r: u64)
        requires
            answers(*f),
        ensures
            r == self.out_flat(*f, block as int, centre),
    {
        let b: u64 = f(Ask::FromInt64(wrap(block as i128)));
        let m: u64 = f(Ask::Add64(b, HALF));
        let d: u64 = f(Ask::Sub64(m, centre));
        f(Ask::Div64(d, self.wide))
    }

    fn up<F: Fn(Ask) -> u64>(&self, f: &F, y: i32) -> (r: u64)
        requires
            answers(*f),
        ensures
            r == self.out_up(*f, y as int),
    {
        let b: u64 = f(Ask::FromInt64(wrap(y as i128)));
        let m: u64 = f(Ask::Sub64(b, HALF));
        let d: u64 = f(Ask::Sub64(m, self.y));
        f(Ask::Div64(d, self.tall))
    }

    /// The bounds along x or z.
    fn bounds<F: Fn(Ask) -> u64>(&self, f: &F, centre: u64, corner: i32) -> (r: (i64, i64))
        requires
            answers(*f),
        ensures
            r.0 == self.first(*f, centre, corner as int),
            r.1 == self.last(*f, centre, corner as int),
            0 <= r.0,
            r.1 <= 15,
    {
        let a: u64 = f(Ask::Sub64(centre, self.wide));
        let b: u64 = f(Ask::Add64(centre, self.wide));
        let lo: i64 = floored_int(f, a) as i64 - corner as i64 - 1;
        let hi: i64 = floored_int(f, b) as i64 - corner as i64;
        (if lo > 0 { lo } else { 0 }, if hi < 15 { hi } else { 15 })
    }

    /// Carve it out of a chunk.
    pub fn carve<F: Fn(Ask) -> u64>(&self, f: &F, chunk: ChunkPos, skip: &SkipRule, mask: &mut CarvingMask)
        requires
            answers(*f),
            old(mask).wf(),
            skip@.fits(old(mask).bottom(), old(mask).top()),
        ensures
            final(mask).wf(),
            final(mask).bottom() == old(mask).bottom(),
            final(mask).top() == old(mask).top(),
            final(mask)@ == self.carved(*f, chunk, skip@, old(mask).bottom(), old(mask).top(), old(mask)@),
    {
        if self.is_apart(f, chunk) {
            return;
        }
        let ghost (bottom, top) = (mask.bottom(), mask.top());
        let ghost start = mask@;
        let (x0, x1): (i64, i64) = self.bounds(f, self.x, chunk.min_x);
        let (z0, z1): (i64, i64) = self.bounds(f, self.z, chunk.min_z);
        let a: u64 = f(Ask::Sub64(self.y, self.tall));
        let b: u64 = f(Ask::Add64(self.y, self.tall));
        let lo: i64 = floored_int(f, a) as i64 - 1;
        let hi: i64 = floored_int(f, b) as i64 + 1;
        let y0: i64 = if lo > mask.min_y as i64 { lo } else { mask.min_y as i64 };
        let y1: i64 = if hi < mask.max_y as i64 { hi } else { mask.max_y as i64 };
        proof {
            assert(y0 == self.under(*f, bottom) && y1 == self.upper(*f, top));
            assert(mask@ =~= start.union(self.part(*f, chunk, skip@, bottom, top, x0 as int, z0 as int))) by {
                reveal(Ellipsoid::takes);
            }
        }
        let mut x: i64 = x0;
        while x <= x1
            invariant
                answers(*f),
                mask.wf(),
                mask.bottom() == bottom && mask.top() == top,
                skip@.fits(bottom, top),
                0 <= x0 <= x,
                x <= x1 || x == x0 || x == x1 + 1,
                x1 <= 15 && z1 <= 15 && 0 <= z0,
                x0 == self.first(*f, self.x, chunk.min_x as int) && x1 == self.last(*f, self.x, chunk.min_x as int),
                z0 == self.first(*f, self.z, chunk.min_z as int) && z1 == self.last(*f, self.z, chunk.min_z as int),
                y0 == self.under(*f, bottom) && y1 == self.upper(*f, top),
                bottom <= y0 && y1 <= top,
                mask@ == start.union(self.part(*f, chunk, skip@, bottom, top, x as int, z0 as int)),
            decreases x1 + 1 - x,
        {
            let xd: u64 = self.flat(f, chunk.min_x as i64 + x, self.x);
            let mut z: i64 = z0;
            while z <= z1
                invariant
                    answers(*f),
                    mask.wf(),
                    mask.bottom() == bottom && mask.top() == top,
                    skip@.fits(bottom, top),
                    0 <= x0 <= x <= x1,
                    0 <= z0 <= z,
                    z <= z1 || z == z0 || z == z1 + 1,
                    x1 <= 15 && z1 <= 15,
                    x0 == self.first(*f, self.x, chunk.min_x as int) && x1 == self.last(*f, self.x, chunk.min_x as int),
                    z0 == self.first(*f, self.z, chunk.min_z as int) && z1 == self.last(*f, self.z, chunk.min_z as int),
                    y0 == self.under(*f, bottom) && y1 == self.upper(*f, top),
                    bottom <= y0 && y1 <= top,
                    xd == self.out_flat(*f, chunk.min_x + x, self.x),
                    mask@ == start.union(self.part(*f, chunk, skip@, bottom, top, x as int, z as int)),
                decreases z1 + 1 - z,
            {
                self.carve_column(f, chunk, skip, mask, x, z, xd, y0, y1);
                proof {
                    assert(mask@ =~= start.union(self.part(*f, chunk, skip@, bottom, top, x as int, z + 1)));
                }
                z += 1;
            }
            proof {
                let (p, q) = (
                    self.part(*f, chunk, skip@, bottom, top, x as int, z as int),
                    self.part(*f, chunk, skip@, bottom, top, x + 1, z0 as int),
                );
                assert forall|c: (int, int, int)| p.contains(c) == q.contains(c) by {
                    if self.takes(*f, chunk, skip@, bottom, top, c) {
                        reveal(Ellipsoid::takes);
                    }
                }
                assert(p =~= q);
            }
            x += 1;
        }
        proof {
            let p = self.part(*f, chunk, skip@, bottom, top, x as int, z0 as int);
            let all = Set::new(|p: (int, int, int)| self.takes(*f, chunk, skip@, bottom, top, p));
            assert forall|c: (int, int, int)| p.contains(c) == all.contains(c) by {
                if self.takes(*f, chunk, skip@, bottom, top, c) {
                    reveal(Ellipsoid::takes);
                }
            }
            assert(p =~= all);
        }
    }

    /// The carved blocks of the columns before one, z faster than x.
    spec fn part<F: Fn(Ask) -> u64>(self, f: F, chunk: ChunkPos, skip: Skip, bottom: int, top: int, x: int, z: int) -> Cells {
        Set::new(
            |p: (int, int, int)|
                self.takes(f, chunk, skip, bottom, top, p) && (p.0 < x || (p.0 == x && p.2 < z)),
        )
    }

    fn carve_column<F: Fn(Ask) -> u64>(
        &self, f: &F, chunk: ChunkPos, skip: &SkipRule, mask: &mut CarvingMask, x: i64, z: i64, xd: u64, y0: i64, y1: i64,
    )
        requires
            answers(*f),
            old(mask).wf(),
            skip@.fits(old(mask).bottom(), old(mask).top()),
            0 <= x <= 15,
            0 <= z <= 15,
            self.first(*f, self.x, chunk.min_x as int) <= x <= self.last(*f, self.x, chunk.min_x as int),
            self.first(*f, self.z, chunk.min_z as int) <= z <= self.last(*f, self.z, chunk.min_z as int),
            xd == self.out_flat(*f, chunk.min_x + x, self.x),
            y0 == self.under(*f, old(mask).bottom()),
            y1 == self.upper(*f, old(mask).top()),
            old(mask).bottom() <= y0 && y1 <= old(mask).top(),
        ensures
            final(mask).wf(),
            final(mask).bottom() == old(mask).bottom(),
            final(mask).top() == old(mask).top(),
            final(mask)@ == old(mask)@.union(
                Set::new(
                    |p: (int, int, int)|
                        p.0 == x && p.2 == z && self.takes(
                            *f, chunk, skip@, old(mask).bottom(), old(mask).top(), p),
                ),
            ),
    {
        let ghost (bottom, top) = (mask.bottom(), mask.top());
        let ghost start = mask@;
        let zd: u64 = self.flat(f, chunk.min_z as i64 + z, self.z);
        let xx: u64 = f(Ask::Mul64(xd, xd));
        let zz: u64 = f(Ask::Mul64(zd, zd));
        let sum: u64 = f(Ask::Add64(xx, zz));
        if f(Ask::LessEq64(ONE, sum)) != 0 {
            proof {
                reveal(Ellipsoid::takes);
                assert(mask@ =~= start.union(
                    Set::new(|p: (int, int, int)| p.0 == x && p.2 == z && self.takes(*f, chunk, skip@, bottom, top, p))));
            }
            return;
        }
        let mut y: i64 = y1;
        proof {
            assert(mask@ =~= start.union(self.above(*f, chunk, skip@, bottom, top, x as int, z as int, y as int))) by {
                reveal(Ellipsoid::takes);
            }
        }
        while y > y0
            invariant
                answers(*f),
                mask.wf(),
                mask.bottom() == bottom && mask.top() == top,
                skip@.fits(bottom, top),
                0 <= x <= 15,
                0 <= z <= 15,
                y0 <= y || y == y1,
                y <= y1,
                bottom <= y0 && y1 <= top,
                top <= i32::MAX && bottom >= i32::MIN,
                y0 == self.under(*f, bottom) && y1 == self.upper(*f, top),
                self.inside(*f, chunk, x as int, z as int),
                xd == self.out_flat(*f, chunk.min_x + x, self.x),
                zd == self.out_flat(*f, chunk.min_z + z, self.z),
                mask@ == start.union(self.above(*f, chunk, skip@, bottom, top, x as int, z as int, y as int)),
            decreases y - y0,
        {
            let yd: u64 = self.up(f, y as i32);
            let ghost before = mask@;
            let ghost p = (x as int, y as int, z as int);
            proof { assert(y - 1 >= bottom); }
            if !skip.skips(f, xd, yd, zd, y as i32) {
                mask.carve(x as i32, y as i32, z as i32);
            }
            proof {
                reveal(Ellipsoid::takes);
                let (a, b) = (
                    self.above(*f, chunk, skip@, bottom, top, x as int, z as int, y as int),
                    self.above(*f, chunk, skip@, bottom, top, x as int, z as int, y - 1),
                );
                assert(self.takes(*f, chunk, skip@, bottom, top, p) == !skip@.leaves(*f, xd, yd, zd, y as int));
                if self.takes(*f, chunk, skip@, bottom, top, p) {
                    assert(b =~= a.insert(p));
                } else {
                    assert(b =~= a);
                }
                assert(mask@ =~= start.union(b));
            }
            y -= 1;
        }
        proof {
            reveal(Ellipsoid::takes);
            let all = Set::new(|p: (int, int, int)| p.0 == x && p.2 == z && self.takes(*f, chunk, skip@, bottom, top, p));
            assert(self.above(*f, chunk, skip@, bottom, top, x as int, z as int, y as int) =~= all);
        }
    }

    /// The carved blocks of a column above a height.
    spec fn above<F: Fn(Ask) -> u64>(
        self, f: F, chunk: ChunkPos, skip: Skip, bottom: int, top: int, x: int, z: int, y: int,
    ) -> Cells {
        Set::new(|p: (int, int, int)| p.0 == x && p.2 == z && p.1 > y && self.takes(f, chunk, skip, bottom, top, p))
    }
}

/// A tunnel: where it is, how it is scaled, how thick it is, and where it
/// heads.
#[derive(Clone, Copy)]
pub struct Tunnel {
    pub x: u64,
    pub y: u64,
    pub z: u64,
    pub wide: u64,
    pub tall: u64,
    pub y_scale: u64,
    pub thickness: u32,
    pub heading: u32,
    pub pitch: u32,
}

/// A tunnel on its way: how its direction drifts, and its random source.
#[derive(Clone, Copy)]
pub struct Stride {
    pub t: Tunnel,
    pub drift: u32,
    pub tilt: u32,
    pub random: LegacyRandomSource,
}

/// The difference of two draws times a third and a factor.
pub open spec fn wobble<F: Fn(Ask) -> u64>(f: F, r: LegacyRandomSource, scale: u32) -> (u32, LegacyRandomSource) {
    let (a, s) = single(f, r);
    let (b, t) = single(f, s);
    let (c, u) = single(f, t);
    (low(f, Ask::Mul32(low(f, Ask::Mul32(low(f, Ask::Sub32(a, b)), c)), scale)), u)
}

fn draw_wobble<F: Fn(Ask) -> u64>(f: &F, random: &mut LegacyRandomSource, scale: u32) -> (r: u32)
    requires
        answers(*f),
    ensures
        (r, *final(random)) == wobble(*f, *old(random), scale),
{
    let a: u32 = next_float(random, f);
    let b: u32 = next_float(random, f);
    let c: u32 = next_float(random, f);
    let d: u32 = f(Ask::Sub32(a, b)) as u32;
    let e: u32 = f(Ask::Mul32(d, c)) as u32;
    f(Ask::Mul32(e, scale)) as u32
}

/// The factors by which a walk slows its turns.
#[derive(Clone, Copy)]
pub struct Damping {
    pub pitch: u32,
    pub turn: u32,
    pub tilt: u32,
    pub drift: u32,
}

/// A place moved by a single.
pub open spec fn moved<F: Fn(Ask) -> u64>(f: F, v: u64, by_single: u32) -> u64 {
    reply(f, Ask::Add64(v, reply(f, Ask::Widen(by_single))))
}

fn move_along<F: Fn(Ask) -> u64>(f: &F, v: u64, by_single: u32) -> (r: u64)
    requires
        answers(*f),
    ensures
        r == moved(*f, v, by_single),
{
    let w: u64 = f(Ask::Widen(by_single));
    f(Ask::Add64(v, w))
}

/// One step further.
pub open spec fn strode<F: Fn(Ask) -> u64>(f: F, s: Stride, d: Damping) -> Stride {
    let t = s.t;
    let pitch = reply(f, Ask::Widen(t.pitch));
    let heading = reply(f, Ask::Widen(t.heading));
    let flat = table_cos(f, pitch);
    let (tilt_by, r) = wobble(f, s.random, TWO_32);
    let (drift_by, q) = wobble(f, r, FOUR_32);
    Stride {
        t: Tunnel {
            x: moved(f, t.x, low(f, Ask::Mul32(table_cos(f, heading), flat))),
            y: moved(f, t.y, table_sin(f, pitch)),
            z: moved(f, t.z, low(f, Ask::Mul32(table_sin(f, heading), flat))),
            pitch: low(f, Ask::Add32(low(f, Ask::Mul32(t.pitch, d.pitch)), low(f, Ask::Mul32(s.tilt, d.turn)))),
            heading: low(f, Ask::Add32(t.heading, low(f, Ask::Mul32(s.drift, d.turn)))),
            ..t
        },
        tilt: low(f, Ask::Add32(low(f, Ask::Mul32(s.tilt, d.tilt)), tilt_by)),
        drift: low(f, Ask::Add32(low(f, Ask::Mul32(s.drift, d.drift)), drift_by)),
        random: q,
    }
}

fn stride<F: Fn(Ask) -> u64>(f: &F, s: Stride, d: Damping) -> (r: Stride)
    requires
        answers(*f),
    ensures
        r == strode(*f, s, d),
{
    let t = s.t;
    let pitch: u64 = f(Ask::Widen(t.pitch));
    let heading: u64 = f(Ask::Widen(t.heading));
    let flat: u32 = mth_cos(f, pitch);
    let c: u32 = mth_cos(f, heading);
    let dx: u32 = f(Ask::Mul32(c, flat)) as u32;
    let dy: u32 = mth_sin(f, pitch);
    let n: u32 = mth_sin(f, heading);
    let dz: u32 = f(Ask::Mul32(n, flat)) as u32;
    let x: u64 = move_along(f, t.x, dx);
    let y: u64 = move_along(f, t.y, dy);
    let z: u64 = move_along(f, t.z, dz);
    let p: u32 = f(Ask::Mul32(t.pitch, d.pitch)) as u32;
    let pt: u32 = f(Ask::Mul32(s.tilt, d.turn)) as u32;
    let pitch: u32 = f(Ask::Add32(p, pt)) as u32;
    let hd: u32 = f(Ask::Mul32(s.drift, d.turn)) as u32;
    let heading: u32 = f(Ask::Add32(t.heading, hd)) as u32;
    let tilt: u32 = f(Ask::Mul32(s.tilt, d.tilt)) as u32;
    let drift: u32 = f(Ask::Mul32(s.drift, d.drift)) as u32;
    let mut random = s.random;
    let tilt_by: u32 = draw_wobble(f, &mut random, TWO_32);
    let drift_by: u32 = draw_wobble(f, &mut random, FOUR_32);
    let tilt: u32 = f(Ask::Add32(tilt, tilt_by)) as u32;
    let drift: u32 = f(Ask::Add32(drift, drift_by)) as u32;
    Stride { t: Tunnel { x, y, z, pitch, heading, ..t }, tilt, drift, random }
}

/// Half of a draw plus a half: how thick the parts of a split tunnel are.
pub open spec fn thinner<F: Fn(Ask) -> u64>(f: F, r: LegacyRandomSource) -> (u32, LegacyRandomSource) {
    let (u, s) = single(f, r);
    (low(f, Ask::Add32(low(f, Ask::Mul32(u, HALF_32)), HALF_32)), s)
}

fn draw_thinner<F: Fn(Ask) -> u64>(f: &F, random: &mut LegacyRandomSource) -> (r: u32)
    requires
        answers(*f),
    ensures
        (r, *final(random)) == thinner(*f, *old(random)),
{
    let u: u32 = next_float(random, f);
    let m: u32 = f(Ask::Mul32(u, HALF_32)) as u32;
    f(Ask::Add32(m, HALF_32)) as u32
}

/// How wide a tunnel is at a step of its way: widest in the middle.
pub open spec fn girth<F: Fn(Ask) -> u64>(f: F, thickness: u32, turn: u32, total: int) -> u64 {
    let angle = reply(f, Ask::Widen(low(f, Ask::Div32(turn, low(f, Ask::FromInt32(total as i32))))));
    reply(f, Ask::Add64(THREE_HALVES, reply(f, Ask::Widen(low(f, Ask::Mul32(table_sin(f, angle), thickness))))))
}

fn girth_at<F: Fn(Ask) -> u64>(f: &F, thickness: u32, turn: u32, total: i32) -> (r: u64)
    requires
        answers(*f),
    ensures
        r == girth(*f, thickness, turn, total as int),
{
    let t: u32 = f(Ask::FromInt32(total)) as u32;
    let q: u32 = f(Ask::Div32(turn, t)) as u32;
    let angle: u64 = f(Ask::Widen(q));
    let s: u32 = mth_sin(f, angle);
    let m: u32 = f(Ask::Mul32(s, thickness)) as u32;
    let w: u64 = f(Ask::Widen(m));
    f(Ask::Add64(THREE_HALVES, w))
}

/// The damping of a cave tunnel.
pub open spec fn cave_damping(steep: bool) -> Damping {
    Damping {
        pitch: if steep { STEEP_32 } else { SEVEN_TENTHS_32 },
        turn: TENTH_32,
        tilt: NINE_TENTHS_32,
        drift: THREE_QUARTERS_32,
    }
}

/// What tunnels are carved into and how.
pub ghost struct Site {
    pub chunk: ChunkPos,
    pub skip: Skip,
    pub bottom: int,
    pub top: int,
}

/// The two parts of a split tunnel, to the left and to the right.
pub open spec fn parted<F: Fn(Ask) -> u64>(f: F, t: Tunnel, thickness: u32, left: bool) -> Tunnel {
    Tunnel {
        thickness,
        heading: if left {
            low(f, Ask::Sub32(t.heading, HALF_PI_32))
        } else {
            low(f, Ask::Add32(t.heading, HALF_PI_32))
        },
        pitch: low(f, Ask::Div32(t.pitch, THREE_32)),
        y_scale: ONE,
        ..t
    }
}

/// The ellipsoid of a step: at the end of the step, as wide as at its
/// start.
pub open spec fn step_ellipsoid<F: Fn(Ask) -> u64>(f: F, t: Tunnel, current: int, dist: int) -> Ellipsoid {
    let turn = low(f, Ask::Mul32(PI_32, low(f, Ask::FromInt32(current as i32))));
    let wide = girth(f, t.thickness, turn, dist);
    let tall = reply(f, Ask::Mul64(wide, t.y_scale));
    Ellipsoid {
        x: t.x,
        y: t.y,
        z: t.z,
        wide: reply(f, Ask::Mul64(wide, t.wide)),
        tall: reply(f, Ask::Mul64(tall, t.tall)),
    }
}

/// The cells after a tunnel. It may split `splits` times.
pub open spec fn tunnelled<F: Fn(Ask) -> u64>(
    f: F, site: Site, seed: i64, t: Tunnel, step: int, dist: int, cells: Cells, splits: nat,
) -> Cells
    decreases splits, 1nat, 0int,
{
    let (a, r) = below(LegacyRandomSource::seeded(seed), (dist / 2) as i32);
    let (b, s) = below(r, 6);
    walked(f, site, Stride { t, drift: 0, tilt: 0, random: s }, a + dist / 4, b == 0, step, dist, cells, splits)
}

/// The cells after the rest of a tunnel's way.
pub open spec fn walked<F: Fn(Ask) -> u64>(
    f: F, site: Site, s: Stride, split: int, steep: bool, current: int, dist: int, cells: Cells, splits: nat,
) -> Cells
    decreases splits, 0nat, dist - current,
{
    if current >= dist {
        cells
    } else {
        let n = strode(f, s, cave_damping(steep));
        if current == split && splits > 0 && holds(f, Ask::Less32(ONE_32, s.t.thickness)) {
            let (seed_a, r) = n.random.long();
            let (thick_a, u) = thinner(f, r);
            let first = tunnelled(
                f, site, seed_a, parted(f, n.t, thick_a, true), current, dist, cells, (splits - 1) as nat);
            let (seed_b, v) = u.long();
            let (thick_b, _) = thinner(f, v);
            tunnelled(f, site, seed_b, parted(f, n.t, thick_b, false), current, dist, first, (splits - 1) as nat)
        } else {
            let (d, r) = below(n.random, 4);
            let next = Stride { random: r, ..n };
            if d == 0 {
                walked(f, site, next, split, steep, current + 1, dist, cells, splits)
            } else if !reachable(f, site.chunk, n.t.x, n.t.z, current, dist, n.t.thickness) {
                cells
            } else {
                let e = step_ellipsoid(f, n.t, current, dist);
                walked(
                    f, site, next, split, steep, current + 1, dist,
                    e.carved(f, site.chunk, site.skip, site.bottom, site.top, cells), splits,
                )
            }
        }
    }
}

/// A step's ellipsoid.
fn ellipsoid_at<F: Fn(Ask) -> u64>(f: &F, t: Tunnel, current: i32, dist: i32) -> (r: Ellipsoid)
    requires
        answers(*f),
    ensures
        r == step_ellipsoid(*f, t, current as int, dist as int),
{
    let c: u32 = f(Ask::FromInt32(current)) as u32;
    let turn: u32 = f(Ask::Mul32(PI_32, c)) as u32;
    let wide: u64 = girth_at(f, t.thickness, turn, dist);
    let tall: u64 = f(Ask::Mul64(wide, t.y_scale));
    let w: u64 = f(Ask::Mul64(wide, t.wide));
    let h: u64 = f(Ask::Mul64(tall, t.tall));
    Ellipsoid { x: t.x, y: t.y, z: t.z, wide: w, tall: h }
}

fn part_of<F: Fn(Ask) -> u64>(f: &F, t: Tunnel, thickness: u32, left: bool) -> (r: Tunnel)
    requires
        answers(*f),
    ensures
        r == parted(*f, t, thickness, left),
{
    let heading: u32 = if left {
        f(Ask::Sub32(t.heading, HALF_PI_32)) as u32
    } else {
        f(Ask::Add32(t.heading, HALF_PI_32)) as u32
    };
    let pitch: u32 = f(Ask::Div32(t.pitch, THREE_32)) as u32;
    Tunnel { thickness, heading, pitch, y_scale: ONE, ..t }
}

/// The site of a mask.
pub open spec fn site_of(chunk: ChunkPos, skip: Skip, mask: CarvingMask) -> Site {
    Site { chunk, skip, bottom: mask.bottom(), top: mask.top() }
}

/// Carve a tunnel. A tunnel splits at most `splits` times: its parts are
/// never more than one block thick, and only thicker tunnels split.
fn create_tunnel<F: Fn(Ask) -> u64>(
    f: &F, chunk: ChunkPos, seed: i64, t: Tunnel, step: i32, dist: i32, skip: &SkipRule, mask: &mut CarvingMask, splits: u8,
)
    requires
        answers(*f),
        old(mask).wf(),
        skip@.fits(old(mask).bottom(), old(mask).top()),
        2 <= dist <= 0x1000_0000,
        0 <= step,
    ensures
        final(mask).wf(),
        final(mask).bottom() == old(mask).bottom(),
        final(mask).top() == old(mask).top(),
        final(mask)@ == tunnelled(
            *f, site_of(chunk, skip@, *old(mask)), seed, t, step as int, dist as int, old(mask)@, splits as nat),
    decreases splits,
{
    let ghost site = site_of(chunk, skip@, *mask);
    let mut random = LegacyRandomSource::new(seed);
    let split: i32 = next_int_bound(&mut random, dist / 2) + dist / 4;
    let steep: bool = next_int_bound(&mut random, 6) == 0;
    let damping = Damping {
        pitch: if steep { STEEP_32 } else { SEVEN_TENTHS_32 },
        turn: TENTH_32,
        tilt: NINE_TENTHS_32,
        drift: THREE_QUARTERS_32,
    };
    let mut s = Stride { t, drift: 0, tilt: 0, random };
    let mut current: i32 = step;
    let ghost result = tunnelled(*f, site, seed, t, step as int, dist as int, mask@, splits as nat);
    while current < dist
        invariant
            answers(*f),
            mask.wf(),
            site == site_of(chunk, skip@, *mask),
            site == site_of(chunk, skip@, *old(mask)),
            skip@.fits(mask.bottom(), mask.top()),
            2 <= dist <= 0x1000_0000,
            0 <= current,
            damping == cave_damping(steep),
            s.t.thickness == t.thickness,
            result == tunnelled(*f, site, seed, t, step as int, dist as int, old(mask)@, splits as nat),
            result == walked(*f, site, s, split as int, steep, current as int, dist as int, mask@, splits as nat),
        decreases dist - current,
    {
        let mut n = stride(f, s, damping);
        if current == split && splits > 0 && f(Ask::Less32(ONE_32, s.t.thickness)) != 0 {
            let seed_a: i64 = n.random.next_long();
            let thick_a: u32 = draw_thinner(f, &mut n.random);
            let left = part_of(f, n.t, thick_a, true);
            create_tunnel(f, chunk, seed_a, left, current, dist, skip, mask, splits - 1);
            let seed_b: i64 = n.random.next_long();
            let thick_b: u32 = draw_thinner(f, &mut n.random);
            let right = part_of(f, n.t, thick_b, false);
            create_tunnel(f, chunk, seed_b, right, current, dist, skip, mask, splits - 1);
            return;
        }
        let d: i32 = next_int_bound(&mut n.random, 4);
        if d != 0 {
            if !can_reach(f, chunk, n.t.x, n.t.z, current, dist, n.t.thickness) {
                return;
            }
            let e = ellipsoid_at(f, n.t, current, dist);
            e.carve(f, chunk, skip, mask);
        }
        s = n;
        current += 1;
    }
}

/// How far a walk goes at most.
pub const MAX_DISTANCE: i32 = 112;

/// A carver of caves.
#[derive(Clone, Copy)]
pub struct CaveCarver {
    pub probability: u32,
    pub y: HeightProvider,
    pub count: IntProvider,
    pub thickness: FloatProvider,
    pub weird_thickness_bias: bool,
    pub room_vertical_radius_multiplier: FloatProvider,
    pub horizontal_radius_multiplier: FloatProvider,
    pub vertical_radius_multiplier: FloatProvider,
    pub start_vertical_radius_multiplier: FloatProvider,
    pub floor_level: FloatProvider,
}

/// A single drawn from a provider, as a double.
pub open spec fn wide_drawn<F: Fn(Ask) -> u64>(f: F, p: FloatProvider, r: LegacyRandomSource) -> (u64, LegacyRandomSource) {
    let (v, s) = p.drawn(f, r);
    (reply(f, Ask::Widen(v)), s)
}

fn draw_wide<F: Fn(Ask) -> u64>(f: &F, p: &FloatProvider, random: &mut LegacyRandomSource) -> (r: u64)
    requires
        answers(*f),
    ensures
        (r, *final(random)) == wide_drawn(*f, *p, *old(random)),
{
    let v: u32 = p.sample(random, f);
    f(Ask::Widen(v))
}

/// A block of a chunk drawn along an axis.
pub open spec fn block_drawn<F: Fn(Ask) -> u64>(f: F, corner: int, r: LegacyRandomSource) -> (u64, LegacyRandomSource) {
    let (v, s) = below(r, 16);
    (reply(f, Ask::FromInt64(wrapped(corner + v))), s)
}

fn draw_block<F: Fn(Ask) -> u64>(f: &F, corner: i32, random: &mut LegacyRandomSource) -> (r: u64)
    requires
        answers(*f),
    ensures
        (r, *final(random)) == block_drawn(*f, corner as int, *old(random)),
{
    let v: i32 = next_int_bound(random, 16);
    f(Ask::FromInt64(wrap(corner as i128 + v as i128)))
}

/// Where a cave starts and how its tunnels are scaled.
pub ghost struct CaveStart {
    pub x: u64,
    pub y: u64,
    pub z: u64,
    pub wide: u64,
    pub tall: u64,
    pub start: u64,
    pub floor: u64,
}

impl CaveCarver {
    pub open spec fn wf(self) -> bool {
        self.y.wf() && self.count.wf()
    }

    /// How thick a tunnel is.
    pub open spec fn thick<F: Fn(Ask) -> u64>(self, f: F, r: LegacyRandomSource) -> (u32, LegacyRandomSource) {
        let (t, s) = self.thickness.drawn(f, r);
        if self.weird_thickness_bias {
            let (d, u) = below(s, 10);
            if d == 0 {
                let (a, v) = single(f, u);
                let (b, w) = single(f, v);
                let k = low(f, Ask::Add32(low(f, Ask::Mul32(low(f, Ask::Mul32(a, b)), THREE_32)), ONE_32));
                (low(f, Ask::Mul32(t, k)), w)
            } else {
                (t, u)
            }
        } else {
            (t, s)
        }
    }

    /// The cells and the source after `n` tunnels from a start.
    pub open spec fn tunnels<F: Fn(Ask) -> u64>(
        self, f: F, site: Site, c: CaveStart, r: LegacyRandomSource, cells: Cells, n: nat,
    ) -> (Cells, LegacyRandomSource)
        decreases n,
    {
        if n == 0 {
            (cells, r)
        } else {
            let (u, s) = single(f, r);
            let (v, t) = single(f, s);
            let (thickness, w) = self.thick(f, t);
            let (d, p) = below(w, (MAX_DISTANCE / 4) as i32);
            let (seed, q) = p.long();
            let tunnel = Tunnel {
                x: c.x,
                y: c.y,
                z: c.z,
                wide: c.wide,
                tall: c.tall,
                y_scale: c.start,
                thickness,
                heading: low(f, Ask::Mul32(u, TWO_PI_32)),
                pitch: low(f, Ask::Div32(low(f, Ask::Sub32(v, HALF_32)), FOUR_32)),
            };
            self.tunnels(f, site, c, q, tunnelled(f, site, seed, tunnel, 0, MAX_DISTANCE - d, cells, 1), (n - 1) as nat)
        }
    }

    /// The room that a cave starts with.
    pub open spec fn room<F: Fn(Ask) -> u64>(self, f: F, c: CaveStart, r: LegacyRandomSource) -> (Ellipsoid, LegacyRandomSource) {
        let (y_scale, s) = wide_drawn(f, self.room_vertical_radius_multiplier, r);
        let (u, t) = single(f, s);
        let thickness = low(f, Ask::Add32(ONE_32, low(f, Ask::Mul32(u, SIX_32))));
        let sine = table_sin(f, reply(f, Ask::Widen(HALF_PI_32)));
        let wide = reply(f, Ask::Add64(THREE_HALVES, reply(f, Ask::Widen(low(f, Ask::Mul32(sine, thickness))))));
        (
            Ellipsoid { x: reply(f, Ask::Add64(c.x, ONE)), y: c.y, z: c.z, wide, tall: reply(f, Ask::Mul64(wide, y_scale)) },
            t,
        )
    }

    /// The start of a cave.
    pub open spec fn started<F: Fn(Ask) -> u64>(self, f: F, source: ChunkPos, r: LegacyRandomSource) -> (CaveStart, LegacyRandomSource) {
        let (x, a) = block_drawn(f, source.min_x as int, r);
        let (h, b) = self.y.drawn(a);
        let (z, c) = block_drawn(f, source.min_z as int, b);
        let (wide, d) = wide_drawn(f, self.horizontal_radius_multiplier, c);
        let (tall, e) = wide_drawn(f, self.vertical_radius_multiplier, d);
        let (start, g) = wide_drawn(f, self.start_vertical_radius_multiplier, e);
        let (floor, k) = wide_drawn(f, self.floor_level, g);
        (CaveStart { x, y: reply(f, Ask::FromInt64(h as i32)), z, wide, tall, start, floor }, k)
    }

    /// The cells and the source after one cave.
    pub open spec fn cave<F: Fn(Ask) -> u64>(
        self, f: F, chunk: ChunkPos, source: ChunkPos, bottom: int, top: int, r: LegacyRandomSource, cells: Cells,
    ) -> (Cells, LegacyRandomSource) {
        let (c, s) = self.started(f, source, r);
        let site = Site { chunk, skip: Skip::Floor(c.floor), bottom, top };
        let (d, t) = below(s, 4);
        if d == 0 {
            let (e, u) = self.room(f, c, t);
            let (more, v) = below(u, 4);
            self.tunnels(f, site, c, v, e.carved(f, chunk, site.skip, bottom, top, cells), (1 + more) as nat)
        } else {
            self.tunnels(f, site, c, t, cells, 1)
        }
    }

    /// The cells and the source after `n` caves.
    pub open spec fn caves<F: Fn(Ask) -> u64>(
        self, f: F, chunk: ChunkPos, source: ChunkPos, bottom: int, top: int, r: LegacyRandomSource, cells: Cells, n: nat,
    ) -> (Cells, LegacyRandomSource)
        decreases n,
    {
        if n == 0 {
            (cells, r)
        } else {
            let (m, s) = self.cave(f, chunk, source, bottom, top, r, cells);
            self.caves(f, chunk, source, bottom, top, s, m, (n - 1) as nat)
        }
    }

    /// What a source chunk carves into a chunk.
    pub open spec fn carved<F: Fn(Ask) -> u64>(
        self, f: F, chunk: ChunkPos, source: ChunkPos, bottom: int, top: int, r: LegacyRandomSource, cells: Cells,
    ) -> (Cells, LegacyRandomSource) {
        let (n, s) = self.count.drawn(r);
        self.caves(f, chunk, source, bottom, top, s, cells, if n > 0 { n as nat } else { 0 })
    }

    fn thickness_of<F: Fn(Ask) -> u64>(&self, random: &mut LegacyRandomSource, f: &F) -> (r: u32)
        requires
            answers(*f),
        ensures
            (r, *final(random)) == self.thick(*f, *old(random)),
    {
        let t: u32 = self.thickness.sample(random, f);
        if self.weird_thickness_bias {
            let d: i32 = next_int_bound(random, 10);
            if d == 0 {
                let a: u32 = next_float(random, f);
                let b: u32 = next_float(random, f);
                let p: u32 = f(Ask::Mul32(a, b)) as u32;
                let q: u32 = f(Ask::Mul32(p, THREE_32)) as u32;
                let k: u32 = f(Ask::Add32(q, ONE_32)) as u32;
                return f(Ask::Mul32(t, k)) as u32;
            }
        }
        t
    }

    fn draw_room<F: Fn(Ask) -> u64>(&self, x: u64, y: u64, z: u64, random: &mut LegacyRandomSource, f: &F, Ghost(c): Ghost<CaveStart>) -> (r: Ellipsoid)
        requires
            answers(*f),
            c.x == x && c.y == y && c.z == z,
        ensures
            (r, *final(random)) == self.room(*f, c, *old(random)),
    {
        let y_scale: u64 = draw_wide(f, &self.room_vertical_radius_multiplier, random);
        let u: u32 = next_float(random, f);
        let m: u32 = f(Ask::Mul32(u, SIX_32)) as u32;
        let thickness: u32 = f(Ask::Add32(ONE_32, m)) as u32;
        let angle: u64 = f(Ask::Widen(HALF_PI_32));
        let sine: u32 = mth_sin(f, angle);
        let p: u32 = f(Ask::Mul32(sine, thickness)) as u32;
        let w: u64 = f(Ask::Widen(p));
        let wide: u64 = f(Ask::Add64(THREE_HALVES, w));
        let tall: u64 = f(Ask::Mul64(wide, y_scale));
        let x1: u64 = f(Ask::Add64(x, ONE));
        Ellipsoid { x: x1, y, z, wide, tall }
    }

    /// One cave.
    fn carve_one<F: Fn(Ask) -> u64>(
        &self, random: &mut LegacyRandomSource, chunk: ChunkPos, source: ChunkPos, mask: &mut CarvingMask, f: &F,
    )
        requires
            answers(*f),
            self.wf(),
            old(mask).wf(),
        ensures
            final(mask).wf(),
            final(mask).bottom() == old(mask).bottom(),
            final(mask).top() == old(mask).top(),
            (final(mask)@, *final(random)) == self.cave(
                *f, chunk, source, old(mask).bottom(), old(mask).top(), *old(random), old(mask)@),
    {
        let x: u64 = draw_block(f, source.min_x, random);
        let h: i32 = self.y.sample(random);
        let y: u64 = f(Ask::FromInt64(h));
        let z: u64 = draw_block(f, source.min_z, random);
        let wide: u64 = draw_wide(f, &self.horizontal_radius_multiplier, random);
        let tall: u64 = draw_wide(f, &self.vertical_radius_multiplier, random);
        let start: u64 = draw_wide(f, &self.start_vertical_radius_multiplier, random);
        let floor: u64 = draw_wide(f, &self.floor_level, random);
        let ghost c = CaveStart { x, y, z, wide, tall, start, floor };
        let skip = SkipRule::Floor(floor);
        let mut tunnels: i32 = 1;
        let d: i32 = next_int_bound(random, 4);
        if d == 0 {
            let e = self.draw_room(x, y, z, random, f, Ghost(c));
            e.carve(f, chunk, &skip, mask);
            tunnels = 1 + next_int_bound(random, 4);
        }
        let ghost site = site_of(chunk, skip@, *mask);
        let ghost result = self.tunnels(*f, site, c, *random, mask@, tunnels as nat);
        let mut i: i32 = 0;
        while i < tunnels
            invariant
                answers(*f),
                mask.wf(),
                0 <= i <= tunnels,
                skip@ == Skip::Floor(c.floor),
                site == site_of(chunk, skip@, *mask),
                mask.bottom() == old(mask).bottom() && mask.top() == old(mask).top(),
                c == (CaveStart { x, y, z, wide, tall, start, floor }),
                result == self.tunnels(*f, site, c, *random, mask@, (tunnels - i) as nat),
            decreases tunnels - i,
        {
            let u: u32 = next_float(random, f);
            let heading: u32 = f(Ask::Mul32(u, TWO_PI_32)) as u32;
            let v: u32 = next_float(random, f);
            let e: u32 = f(Ask::Sub32(v, HALF_32)) as u32;
            let pitch: u32 = f(Ask::Div32(e, FOUR_32)) as u32;
            let thickness: u32 = self.thickness_of(random, f);
            let distance: i32 = MAX_DISTANCE - next_int_bound(random, MAX_DISTANCE / 4);
            let seed: i64 = random.next_long();
            let t = Tunnel { x, y, z, wide, tall, y_scale: start, thickness, heading, pitch };
            create_tunnel(f, chunk, seed, t, 0, distance, &skip, mask, 1);
            i += 1;
        }
    }

    /// Carve the caves of a source chunk into a chunk.
    pub fn carve<F: Fn(Ask) -> u64>(
        &self, random: &mut LegacyRandomSource, chunk: ChunkPos, source: ChunkPos, mask: &mut CarvingMask, f: &F,
    )
        requires
            answers(*f),
            self.wf(),
            old(mask).wf(),
        ensures
            final(mask).wf(),
            final(mask).bottom() == old(mask).bottom(),
            final(mask).top() == old(mask).top(),
            (final(mask)@, *final(random)) == self.carved(
                *f, chunk, source, old(mask).bottom(), old(mask).top(), *old(random), old(mask)@),
    {
        let n: i32 = self.count.sample(random);
        let mut left: i32 = if n > 0 { n } else { 0 };
        let ghost (bottom, top) = (mask.bottom(), mask.top());
        let ghost result = self.caves(*f, chunk, source, bottom, top, *random, mask@, left as nat);
        while left > 0
            invariant
                answers(*f),
                self.wf(),
                mask.wf(),
                mask.bottom() == bottom && mask.top() == top,
                0 <= left,
                result == self.caves(*f, chunk, source, bottom, top, *random, mask@, left as nat),
            decreases left,
        {
            self.carve_one(random, chunk, source, mask, f);
            left -= 1;
        }
    }
}

/// The shape of a canyon.
#[derive(Clone, Copy)]
pub struct CanyonShape {
    pub distance_factor: FloatProvider,
    pub thickness: FloatProvider,
    pub width_smoothness: i32,
    pub horizontal_radius_factor: FloatProvider,
    pub vertical_radius_default_factor: u32,
    pub vertical_radius_center_factor: u32,
    pub y_scale: FloatProvider,
}

/// A carver of canyons.
#[derive(Clone, Copy)]
pub struct CanyonCarver {
    pub probability: u32,
    pub y: HeightProvider,
    pub vertical_rotation: FloatProvider,
    pub shape: CanyonShape,
}

/// The damping of a canyon.
pub open spec fn canyon_damping() -> Damping {
    Damping { pitch: SEVEN_TENTHS_32, turn: TWENTIETH_32, tilt: EIGHT_TENTHS_32, drift: HALF_32 }
}

impl CanyonCarver {
    pub open spec fn wf(self) -> bool {
        self.y.wf() && self.shape.width_smoothness > 0
    }

    /// The width factors of the first `n` heights, the last width and the
    /// source afterwards.
    pub open spec fn widths<F: Fn(Ask) -> u64>(self, f: F, r: LegacyRandomSource, n: nat) -> (Seq<u32>, u32, LegacyRandomSource)
        decreases n,
    {
        if n == 0 {
            (Seq::empty(), ONE_32, r)
        } else {
            let (before, width, s) = self.widths(f, r, (n - 1) as nat);
            let (d, t) = if n == 1 { (0i32, s) } else { below(s, self.shape.width_smoothness) };
            let (w, u) = if d == 0 {
                let (a, p) = single(f, t);
                let (b, q) = single(f, p);
                (low(f, Ask::Add32(ONE_32, low(f, Ask::Mul32(a, b)))), q)
            } else {
                (width, t)
            };
            (before.push(low(f, Ask::Mul32(w, w))), w, u)
        }
    }

    /// How tall the canyon is at a step, and the source afterwards.
    pub open spec fn tall_at<F: Fn(Ask) -> u64>(self, f: F, r: LegacyRandomSource, tall: u64, distance: int, current: int) -> (
        u64,
        LegacyRandomSource,
    ) {
        let part = low(f, Ask::Div32(low(f, Ask::FromInt32(current as i32)), low(f, Ask::FromInt32(distance as i32))));
        let off = low(f, Ask::Abs32(low(f, Ask::Sub32(HALF_32, part))));
        let multiplier = low(f, Ask::Sub32(ONE_32, low(f, Ask::Mul32(off, TWO_32))));
        let factor = low(
            f,
            Ask::Add32(
                self.shape.vertical_radius_default_factor,
                low(f, Ask::Mul32(self.shape.vertical_radius_center_factor, multiplier)),
            ),
        );
        let (u, s) = single(f, r);
        let vary = low(f, Ask::Add32(low(f, Ask::Mul32(u, QUARTER_32)), THREE_QUARTERS_32));
        (
            reply(
                f,
                Ask::Mul64(
                    reply(f, Ask::Mul64(reply(f, Ask::Widen(factor)), tall)),
                    reply(f, Ask::Widen(vary)),
                ),
            ),
            s,
        )
    }

    /// The cells after the rest of a canyon's way.
    pub open spec fn walked<F: Fn(Ask) -> u64>(self, f: F, site: Site, s: Stride, current: int, distance: int, cells: Cells) -> Cells
        decreases distance - current,
    {
        if current >= distance {
            cells
        } else {
            let turn = low(f, Ask::Mul32(low(f, Ask::FromInt32(current as i32)), PI_32));
            let girth = girth(f, s.t.thickness, turn, distance);
            let (factor, a) = wide_drawn(f, self.shape.horizontal_radius_factor, s.random);
            let wide = reply(f, Ask::Mul64(girth, factor));
            let (tall, b) = self.tall_at(f, a, reply(f, Ask::Mul64(girth, s.t.y_scale)), distance, current);
            let n = strode(f, Stride { random: b, ..s }, canyon_damping());
            let (d, c) = below(n.random, 4);
            let next = Stride { random: c, ..n };
            if d == 0 {
                self.walked(f, site, next, current + 1, distance, cells)
            } else if !reachable(f, site.chunk, n.t.x, n.t.z, current, distance, n.t.thickness) {
                cells
            } else {
                let e = Ellipsoid { x: n.t.x, y: n.t.y, z: n.t.z, wide, tall };
                self.walked(
                    f, site, next, current + 1, distance,
                    e.carved(f, site.chunk, site.skip, site.bottom, site.top, cells),
                )
            }
        }
    }

    /// What a source chunk carves into a chunk; heights are counted from
    /// `base`, and there are `depth` of them.
    pub open spec fn carved<F: Fn(Ask) -> u64>(
        self, f: F, chunk: ChunkPos, source: ChunkPos, bottom: int, top: int, base: int, depth: int, r: LegacyRandomSource,
        cells: Cells,
    ) -> (Cells, LegacyRandomSource) {
        let (x, a) = block_drawn(f, source.min_x as int, r);
        let (h, b) = self.y.drawn(a);
        let (z, c) = block_drawn(f, source.min_z as int, b);
        let (u, d) = single(f, c);
        let (pitch, e) = self.vertical_rotation.drawn(f, d);
        let (y_scale, g) = wide_drawn(f, self.shape.y_scale, e);
        let (thickness, k) = self.shape.thickness.drawn(f, g);
        let (factor, l) = self.shape.distance_factor.drawn(f, k);
        let distance = reply(f, Ask::ToInt32(low(f, Ask::Mul32(low(f, Ask::FromInt32(MAX_DISTANCE)), factor)))) as i32;
        let (seed, m) = l.long();
        let (factors, _, n) = self.widths(f, LegacyRandomSource::seeded(seed), depth as nat);
        let t = Tunnel {
            x,
            y: reply(f, Ask::FromInt64(h as i32)),
            z,
            wide: ONE,
            tall: ONE,
            y_scale,
            thickness,
            heading: low(f, Ask::Mul32(u, TWO_PI_32)),
            pitch,
        };
        let site = Site { chunk, skip: Skip::Widths { factors, base }, bottom, top };
        (self.walked(f, site, Stride { t, drift: 0, tilt: 0, random: n }, 0, distance as int, cells), m)
    }

    fn init_width_factors<F: Fn(Ask) -> u64>(&self, random: &mut LegacyRandomSource, depth: i32, f: &F) -> (r: Vec<u32>)
        requires
            answers(*f),
            self.wf(),
            depth >= 0,
        ensures
            ({
                let (s, _, t) = self.widths(*f, *old(random), depth as nat);
                r@ == s && *final(random) == t
            }),
            r@.len() == depth,
    {
        let mut out: Vec<u32> = Vec::new();
        let mut width: u32 = ONE_32;
        let mut n: i32 = 0;
        while n < depth
            invariant
                answers(*f),
                self.wf(),
                0 <= n <= depth,
                out@.len() == n,
                (out@, width, *random) == self.widths(*f, *old(random), n as nat),
            decreases depth - n,
        {
            let d: i32 = if n == 0 { 0 } else { next_int_bound(random, self.shape.width_smoothness) };
            if d == 0 {
                let a: u32 = next_float(random, f);
                let b: u32 = next_float(random, f);
                let p: u32 = f(Ask::Mul32(a, b)) as u32;
                width = f(Ask::Add32(ONE_32, p)) as u32;
            }
            out.push(f(Ask::Mul32(width, width)) as u32);
            n += 1;
        }
        out
    }

    fn update_vertical_radius<F: Fn(Ask) -> u64>(
        &self, random: &mut LegacyRandomSource, tall: u64, distance: i32, current: i32, f: &F,
    ) -> (r: u64)
        requires
            answers(*f),
        ensures
            (r, *final(random)) == self.tall_at(*f, *old(random), tall, distance as int, current as int),
    {
        let c: u32 = f(Ask::FromInt32(current)) as u32;
        let d: u32 = f(Ask::FromInt32(distance)) as u32;
        let part: u32 = f(Ask::Div32(c, d)) as u32;
        let e: u32 = f(Ask::Sub32(HALF_32, part)) as u32;
        let off: u32 = f(Ask::Abs32(e)) as u32;
        let m: u32 = f(Ask::Mul32(off, TWO_32)) as u32;
        let multiplier: u32 = f(Ask::Sub32(ONE_32, m)) as u32;
        let k: u32 = f(Ask::Mul32(self.shape.vertical_radius_center_factor, multiplier)) as u32;
        let factor: u32 = f(Ask::Add32(self.shape.vertical_radius_default_factor, k)) as u32;
        let u: u32 = next_float(random, f);
        let v: u32 = f(Ask::Mul32(u, QUARTER_32)) as u32;
        let vary: u32 = f(Ask::Add32(v, THREE_QUARTERS_32)) as u32;
        let wf: u64 = f(Ask::Widen(factor));
        let p: u64 = f(Ask::Mul64(wf, tall));
        let wv: u64 = f(Ask::Widen(vary));
        f(Ask::Mul64(p, wv))
    }

    fn do_carve<F: Fn(Ask) -> u64>(
        &self, chunk: ChunkPos, s0: Stride, distance: i32, skip: &SkipRule, mask: &mut CarvingMask, f: &F,
    )
        requires
            answers(*f),
            self.wf(),
            old(mask).wf(),
            skip@.fits(old(mask).bottom(), old(mask).top()),
        ensures
            final(mask).wf(),
            final(mask).bottom() == old(mask).bottom(),
            final(mask).top() == old(mask).top(),
            final(mask)@ == self.walked(*f, site_of(chunk, skip@, *old(mask)), s0, 0, distance as int, old(mask)@),
    {
        let ghost site = site_of(chunk, skip@, *mask);
        let ghost result = self.walked(*f, site, s0, 0, distance as int, mask@);
        let mut s = s0;
        let mut current: i32 = 0;
        let damping = Damping { pitch: SEVEN_TENTHS_32, turn: TWENTIETH_32, tilt: EIGHT_TENTHS_32, drift: HALF_32 };
        while current < distance
            invariant
                answers(*f),
                self.wf(),
                mask.wf(),
                site == site_of(chunk, skip@, *mask),
                site == site_of(chunk, skip@, *old(mask)),
                skip@.fits(mask.bottom(), mask.top()),
                0 <= current,
                damping == canyon_damping(),
                result == self.walked(*f, site, s0, 0, distance as int, old(mask)@),
                result == self.walked(*f, site, s, current as int, distance as int, mask@),
            decreases distance - current,
        {
            let c: u32 = f(Ask::FromInt32(current)) as u32;
            let turn: u32 = f(Ask::Mul32(c, PI_32)) as u32;
            let girth: u64 = girth_at(f, s.t.thickness, turn, distance);
            let mut random = s.random;
            let factor: u64 = draw_wide(f, &self.shape.horizontal_radius_factor, &mut random);
            let wide: u64 = f(Ask::Mul64(girth, factor));
            let base: u64 = f(Ask::Mul64(girth, s.t.y_scale));
            let tall: u64 = self.update_vertical_radius(&mut random, base, distance, current, f);
            let mut n = stride(f, Stride { random, ..s }, damping);
            let d: i32 = next_int_bound(&mut n.random, 4);
            if d != 0 {
                if !can_reach(f, chunk, n.t.x, n.t.z, current, distance, n.t.thickness) {
                    return;
                }
                let e = Ellipsoid { x: n.t.x, y: n.t.y, z: n.t.z, wide, tall };
                e.carve(f, chunk, skip, mask);
            }
            s = n;
            current += 1;
        }
    }

    /// Carve the canyon of a source chunk into a chunk.
    pub fn carve<F: Fn(Ask) -> u64>(
        &self, random: &mut LegacyRandomSource, chunk: ChunkPos, source: ChunkPos, mask: &mut CarvingMask, base: i32, depth: i32,
        f: &F,
    )
        requires
            answers(*f),
            self.wf(),
            old(mask).wf(),
            depth >= 0,
            base <= old(mask).bottom(),
            old(mask).top() - base - 1 < depth,
        ensures
            final(mask).wf(),
            final(mask).bottom() == old(mask).bottom(),
            final(mask).top() == old(mask).top(),
            (final(mask)@, *final(random)) == self.carved(
                *f, chunk, source, old(mask).bottom(), old(mask).top(), base as int, depth as int, *old(random), old(mask)@),
    {
        let x: u64 = draw_block(f, source.min_x, random);
        let h: i32 = self.y.sample(random);
        let z: u64 = draw_block(f, source.min_z, random);
        let u: u32 = next_float(random, f);
        let heading: u32 = f(Ask::Mul32(u, TWO_PI_32)) as u32;
        let pitch: u32 = self.vertical_rotation.sample(random, f);
        let y_scale: u64 = draw_wide(f, &self.shape.y_scale, random);
        let thickness: u32 = self.shape.thickness.sample(random, f);
        let factor: u32 = self.shape.distance_factor.sample(random, f);
        let most: u32 = f(Ask::FromInt32(MAX_DISTANCE)) as u32;
        let way: u32 = f(Ask::Mul32(most, factor)) as u32;
        let distance: i32 = f(Ask::ToInt32(way)) as i32;
        let seed: i64 = random.next_long();
        let mut own = LegacyRandomSource::new(seed);
        let factors: Vec<u32> = self.init_width_factors(&mut own, depth, f);
        let y: u64 = f(Ask::FromInt64(h));
        let t = Tunnel { x, y, z, wide: ONE, tall: ONE, y_scale, thickness, heading, pitch };
        let skip = SkipRule::Widths { factors, base };
        self.do_carve(chunk, Stride { t, drift: 0, tilt: 0, random: own }, distance, &skip, mask, f);
    }
}

/// A carver.
#[derive(Clone, Copy)]
pub enum Carver {
    Cave(CaveCarver),
    Canyon(CanyonCarver),
}

/// The heights that a world's carvers reach: from `min_y` up.
pub ghost struct Depths {
    pub min_y: int,
    pub height: int,
}

impl Carver {
    pub open spec fn wf(self) -> bool {
        match self {
            Carver::Cave(c) => c.wf(),
            Carver::Canyon(c) => c.wf(),
        }
    }

    pub open spec fn probability(self) -> u32 {
        match self {
            Carver::Cave(c) => c.probability,
            Carver::Canyon(c) => c.probability,
        }
    }

    /// What a carver, seeded for a source chunk, carves into a chunk: it
    /// starts there by chance.
    pub open spec fn carved<F: Fn(Ask) -> u64>(
        self, f: F, chunk: ChunkPos, source: ChunkPos, bottom: int, top: int, d: Depths, r: LegacyRandomSource, cells: Cells,
    ) -> Cells {
        let (u, s) = single(f, r);
        if holds(f, Ask::LessEq32(u, self.probability())) {
            match self {
                Carver::Cave(c) => c.carved(f, chunk, source, bottom, top, s, cells).0,
                Carver::Canyon(c) => c.carved(f, chunk, source, bottom, top, d.min_y, d.height, s, cells).0,
            }
        } else {
            cells
        }
    }

    fn carve<F: Fn(Ask) -> u64>(
        &self, random: &mut LegacyRandomSource, chunk: ChunkPos, source: ChunkPos, mask: &mut CarvingMask, min_y: i32, height: i32,
        f: &F,
    )
        requires
            answers(*f),
            self.wf(),
            old(mask).wf(),
            height >= 0,
            min_y <= old(mask).bottom(),
            old(mask).top() - min_y - 1 < height,
        ensures
            final(mask).wf(),
            final(mask).bottom() == old(mask).bottom(),
            final(mask).top() == old(mask).top(),
            final(mask)@ == self.carved(
                *f, chunk, source, old(mask).bottom(), old(mask).top(), (Depths { min_y: min_y as int, height: height as int }),
                *old(random), old(mask)@),
    {
        let u: u32 = next_float(random, f);
        match self {
            Carver::Cave(c) => {
                if f(Ask::LessEq32(u, c.probability)) != 0 {
                    c.carve(random, chunk, source, mask, f);
                }
            },
            Carver::Canyon(c) => {
                if f(Ask::LessEq32(u, c.probability)) != 0 {
                    c.carve(random, chunk, source, mask, min_y, height, f);
                }
            },
        }
    }
}

/// The carvers of a world and the ones of each biome.
pub struct CarverStage {
    pub carvers: Vec<Carver>,
    /// Carver indices per biome, in the biome's order.
    pub biome_carvers: Vec<Vec<usize>>,
    pub seed: i64,
    pub min_y: i32,
    pub height: i32,
    /// By palette id: whether a block is never carved, is grass or mycelium,
    /// is dirt.
    pub uncarvable: Vec<bool>,
    pub grass: Vec<bool>,
    pub dirt: Vec<bool>,
}

/// The corner of a chunk.
pub open spec fn corner_of(x: int, z: int) -> ChunkPos {
    ChunkPos { min_x: wrapped(x * 16), min_z: wrapped(z * 16) }
}

impl CarverStage {
    /// Biomes name carvers that are there, and there can be a mask between
    /// the bottom of the world and its protected top.
    pub open spec fn wf(&self) -> bool {
        &&& forall|i: int| 0 <= i < self.carvers@.len() ==> (#[trigger] self.carvers@[i]).wf()
        &&& forall|b: int, i: int|
            0 <= b < self.biome_carvers@.len() && 0 <= i < self.biome_carvers@[b]@.len() ==> #[trigger] self.biome_carvers@[b]@[i]
                < self.carvers@.len()
        &&& self.height >= 8
        &&& self.min_y + self.height <= i32::MAX
        &&& (self.height - 8) * 256 <= usize::MAX
    }

    /// The lowest and the highest block that is carved: seven blocks below
    /// the top of the world are protected.
    pub open spec fn low_bound(&self) -> int {
        self.min_y + 1
    }

    pub open spec fn high_bound(&self) -> int {
        self.min_y + self.height - 8
    }

    pub fn mask_bounds(&self) -> (r: (i32, i32))
        requires
            self.wf(),
        ensures
            r.0 == self.low_bound(),
            r.1 == self.high_bound(),
    {
        (self.min_y + 1, self.min_y + self.height - 1 - 7)
    }

    /// The cells after the first `n` carvers of a list at a source chunk.
    pub open spec fn listed<F: Fn(Ask) -> u64>(&self, f: F, chunk: (int, int), source: (int, int), list: Seq<usize>, cells: Cells, n: nat) -> Cells
        decreases n,
    {
        if n == 0 {
            cells
        } else {
            let before = self.listed(f, chunk, source, list, cells, (n - 1) as nat);
            let r = LegacyRandomSource::for_chunk(
                (self.seed).wrapping_add((n - 1) as i64), wrapped(source.0), wrapped(source.1));
            self.carvers@[list[n - 1] as int].carved(
                f, corner_of(chunk.0, chunk.1), corner_of(source.0, source.1), self.low_bound(), self.high_bound(),
                (Depths { min_y: self.min_y as int, height: self.height as int }), r, before,
            )
        }
    }

    /// The cells after the first `n` source chunks, z faster than x.
    pub open spec fn surrounded<F: Fn(Ask) -> u64>(&self, f: F, chunk: (int, int), biomes: Seq<u16>, n: nat) -> Cells
        decreases n,
    {
        if n == 0 {
            Cells::empty()
        } else {
            let before = self.surrounded(f, chunk, biomes, (n - 1) as nat);
            let source = (chunk.0 + (n - 1) / 17 - 8, chunk.1 + (n - 1) % 17 - 8);
            let b = biomes[n - 1] as int;
            if b < self.biome_carvers@.len() {
                self.listed(f, chunk, source, self.biome_carvers@[b]@, before, self.biome_carvers@[b]@.len())
            } else {
                before
            }
        }
    }

    /// The mask of a chunk: every source chunk within eight walks its
    /// carvers into it. `source_biomes` holds the biome index of every
    /// source chunk, z faster than x.
    pub fn build_mask<F: Fn(Ask) -> u64>(&self, chunk_x: i32, chunk_z: i32, source_biomes: &[u16; 289], f: &F) -> (r: CarvingMask)
        requires
            answers(*f),
            self.wf(),
        ensures
            r.wf(),
            r.bottom() == self.low_bound(),
            r.top() == self.high_bound(),
            r@ == self.surrounded(*f, (chunk_x as int, chunk_z as int), source_biomes@, 289),
    {
        let (lo, hi): (i32, i32) = self.mask_bounds();
        let mut mask = CarvingMask::new(lo, hi);
        let chunk = corner(chunk_x as i64, chunk_z as i64);
        let ghost at = (chunk_x as int, chunk_z as int);
        let mut n: usize = 0;
        while n < 289
            invariant
                answers(*f),
                self.wf(),
                n <= 289,
                mask.wf(),
                mask.bottom() == self.low_bound() && mask.top() == self.high_bound(),
                at == (chunk_x as int, chunk_z as int),
                chunk == corner_of(at.0, at.1),
                mask@ == self.surrounded(*f, at, source_biomes@, n as nat),
            decreases 289 - n,
        {
            let sx: i64 = chunk_x as i64 + (n / 17) as i64 - 8;
            let sz: i64 = chunk_z as i64 + (n % 17) as i64 - 8;
            let source = corner(sx, sz);
            let b: usize = source_biomes[n] as usize;
            if b < self.biome_carvers.len() {
                let list: &Vec<usize> = &self.biome_carvers[b];
                let ghost before = mask@;
                let mut i: usize = 0;
                while i < list.len()
                    invariant
                        answers(*f),
                        self.wf(),
                        i <= list@.len(),
                        b < self.biome_carvers@.len(),
                        *list == self.biome_carvers@[b as int],
                        mask.wf(),
                        mask.bottom() == self.low_bound() && mask.top() == self.high_bound(),
                        chunk == corner_of(at.0, at.1),
                        source == corner_of(sx as int, sz as int),
                        -0x1_0000_0000 <= sx <= 0x1_0000_0000,
                        -0x1_0000_0000 <= sz <= 0x1_0000_0000,
                        mask@ == self.listed(*f, at, (sx as int, sz as int), list@, before, i as nat),
                    decreases list.len() - i,
                {
                    let mut random = LegacyRandomSource::new(0);
                    random.set_large_feature_seed(
                        self.seed.wrapping_add(i as i64), wrap(sx as i128), wrap(sz as i128));
                    proof { assert(self.biome_carvers@[b as int]@[i as int] < self.carvers@.len()); }
                    let c: usize = list[i];
                    proof { assert(self.carvers@[c as int].wf()); }
                    self.carvers[c].carve(&mut random, chunk, source, &mut mask, self.min_y, self.height, f);
                    i += 1;
                }
            }
            n += 1;
        }
        mask
    }
}

fn corner(x: i64, z: i64) -> (r: ChunkPos)
    requires
        -0x1_0000_0000 <= x <= 0x1_0000_0000,
        -0x1_0000_0000 <= z <= 0x1_0000_0000,
    ensures
        r == corner_of(x as int, z as int),
{
    ChunkPos { min_x: wrap(x as i128 * 16), min_z: wrap(z as i128 * 16) }
}

pub(crate) proof fn lemma_tunnelled_adds<F: Fn(Ask) -> u64>(
    f: F, site: Site, seed: i64, t: Tunnel, step: int, dist: int, cells: Cells, splits: nat,
)
    ensures
        cells.subset_of(tunnelled(f, site, seed, t, step, dist, cells, splits)),
    decreases splits, 1nat, 0int,
{
    let (a, r) = below(LegacyRandomSource::seeded(seed), (dist / 2) as i32);
    let (b, s) = below(r, 6);
    lemma_walked_adds(f, site, Stride { t, drift: 0, tilt: 0, random: s }, a + dist / 4, b == 0, step, dist, cells, splits);
}

pub(crate) proof fn lemma_walked_adds<F: Fn(Ask) -> u64>(
    f: F, site: Site, s: Stride, split: int, steep: bool, current: int, dist: int, cells: Cells, splits: nat,
)
    ensures
        cells.subset_of(walked(f, site, s, split, steep, current, dist, cells, splits)),
    decreases splits, 0nat, dist - current,
{
    if current < dist {
        let n = strode(f, s, cave_damping(steep));
        if current == split && splits > 0 && holds(f, Ask::Less32(ONE_32, s.t.thickness)) {
            let (seed_a, r) = n.random.long();
            let (thick_a, u) = thinner(f, r);
            let a = parted(f, n.t, thick_a, true);
            let first = tunnelled(f, site, seed_a, a, current, dist, cells, (splits - 1) as nat);
            let (seed_b, v) = u.long();
            let (thick_b, _) = thinner(f, v);
            lemma_tunnelled_adds(f, site, seed_a, a, current, dist, cells, (splits - 1) as nat);
            lemma_tunnelled_adds(
                f, site, seed_b, parted(f, n.t, thick_b, false), current, dist, first, (splits - 1) as nat);
        } else {
            let (d, r) = below(n.random, 4);
            let next = Stride { random: r, ..n };
            if d == 0 {
                lemma_walked_adds(f, site, next, split, steep, current + 1, dist, cells, splits);
            } else if reachable(f, site.chunk, n.t.x, n.t.z, current, dist, n.t.thickness) {
                let e = step_ellipsoid(f, n.t, current, dist);
                let more = e.carved(f, site.chunk, site.skip, site.bottom, site.top, cells);
                lemma_walked_adds(f, site, next, split, steep, current + 1, dist, more, splits);
            }
        }
    }
}

impl CaveCarver {
    pub(crate) proof fn lemma_tunnels_add<F: Fn(Ask) -> u64>(
        self, f: F, site: Site, c: CaveStart, r: LegacyRandomSource, cells: Cells, n: nat,
    )
        ensures
            cells.subset_of(self.tunnels(f, site, c, r, cells, n).0),
        decreases n,
    {
        if n > 0 {
            let (u, s) = single(f, r);
            let (v, t) = single(f, s);
            let (thickness, w) = self.thick(f, t);
            let (d, p) = below(w, (MAX_DISTANCE / 4) as i32);
            let (seed, q) = p.long();
            let tunnel = Tunnel {
                x: c.x,
                y: c.y,
                z: c.z,
                wide: c.wide,
                tall: c.tall,
                y_scale: c.start,
                thickness,
                heading: low(f, Ask::Mul32(u, TWO_PI_32)),
                pitch: low(f, Ask::Div32(low(f, Ask::Sub32(v, HALF_32)), FOUR_32)),
            };
            lemma_tunnelled_adds(f, site, seed, tunnel, 0, MAX_DISTANCE - d, cells, 1);
            self.lemma_tunnels_add(
                f, site, c, q, tunnelled(f, site, seed, tunnel, 0, MAX_DISTANCE - d, cells, 1), (n - 1) as nat);
        }
    }

    proof fn lemma_caves_add<F: Fn(Ask) -> u64>(
        self, f: F, chunk: ChunkPos, source: ChunkPos, bottom: int, top: int, r: LegacyRandomSource, cells: Cells, n: nat,
    )
        ensures
            cells.subset_of(self.caves(f, chunk, source, bottom, top, r, cells, n).0),
        decreases n,
    {
        if n > 0 {
            let (m, next) = self.cave(f, chunk, source, bottom, top, r, cells);
            let (c, s) = self.started(f, source, r);
            let site = Site { chunk, skip: Skip::Floor(c.floor), bottom, top };
            let (d, t) = below(s, 4);
            if d == 0 {
                let (e, u) = self.room(f, c, t);
                let (more, v) = below(u, 4);
                self.lemma_tunnels_add(f, site, c, v, e.carved(f, chunk, site.skip, bottom, top, cells), (1 + more) as nat);
            } else {
                self.lemma_tunnels_add(f, site, c, t, cells, 1);
            }
            self.lemma_caves_add(f, chunk, source, bottom, top, next, m, (n - 1) as nat);
        }
    }
}

impl CanyonCarver {
    pub(crate) proof fn lemma_walked_adds<F: Fn(Ask) -> u64>(self, f: F, site: Site, s: Stride, current: int, distance: int, cells: Cells)
        ensures
            cells.subset_of(self.walked(f, site, s, current, distance, cells)),
        decreases distance - current,
    {
        if current < distance {
            let turn = low(f, Ask::Mul32(low(f, Ask::FromInt32(current as i32)), PI_32));
            let girth = girth(f, s.t.thickness, turn, distance);
            let (factor, a) = wide_drawn(f, self.shape.horizontal_radius_factor, s.random);
            let wide = reply(f, Ask::Mul64(girth, factor));
            let (tall, b) = self.tall_at(f, a, reply(f, Ask::Mul64(girth, s.t.y_scale)), distance, current);
            let n = strode(f, Stride { random: b, ..s }, canyon_damping());
            let (d, c) = below(n.random, 4);
            let next = Stride { random: c, ..n };
            if d == 0 {
                self.lemma_walked_adds(f, site, next, current + 1, distance, cells);
            } else if reachable(f, site.chunk, n.t.x, n.t.z, current, distance, n.t.thickness) {
                let e = Ellipsoid { x: n.t.x, y: n.t.y, z: n.t.z, wide, tall };
                self.lemma_walked_adds(
                    f, site, next, current + 1, distance, e.carved(f, site.chunk, site.skip, site.bottom, site.top, cells));
            }
        }
    }
}

/// Whatever a carver draws, it only adds cells: what was carved before
/// stays carved.
pub proof fn law_carving_only_adds<F: Fn(Ask) -> u64>(
    carver: Carver, f: F, chunk: ChunkPos, source: ChunkPos, bottom: int, top: int, d: Depths, r: LegacyRandomSource,
    cells: Cells,
)
    ensures
        cells.subset_of(carver.carved(f, chunk, source, bottom, top, d, r, cells)),
{
    let (_, s) = single(f, r);
    match carver {
        Carver::Cave(c) => {
            let (n, t) = c.count.drawn(s);
            c.lemma_caves_add(f, chunk, source, bottom, top, t, cells, if n > 0 { n as nat } else { 0 });
        },
        Carver::Canyon(c) => {
            assert forall|site: Site, stride: Stride, distance: int|
                cells.subset_of(#[trigger] c.walked(f, site, stride, 0, distance, cells)) by {
                c.lemma_walked_adds(f, site, stride, 0, distance, cells);
            }
        },
    }
}

proof fn lemma_listed_adds<F: Fn(Ask) -> u64>(
    stage: &CarverStage, f: F, chunk: (int, int), source: (int, int), list: Seq<usize>, cells: Cells, n: nat,
)
    ensures
        cells.subset_of(stage.listed(f, chunk, source, list, cells, n)),
    decreases n,
{
    if n > 0 {
        lemma_listed_adds(stage, f, chunk, source, list, cells, (n - 1) as nat);
        let before = stage.listed(f, chunk, source, list, cells, (n - 1) as nat);
        let r = LegacyRandomSource::for_chunk(
            (stage.seed).wrapping_add((n - 1) as i64), wrapped(source.0), wrapped(source.1));
        law_carving_only_adds(
            stage.carvers@[list[n - 1] as int], f, corner_of(chunk.0, chunk.1), corner_of(source.0, source.1),
            stage.low_bound(), stage.high_bound(),
            (Depths { min_y: stage.min_y as int, height: stage.height as int }), r, before,
        );
    }
}

/// A chunk's mask grows with every source chunk that is walked: what the
/// first `m` of them carved, the first `n` carved too.
pub proof fn law_masks_grow<F: Fn(Ask) -> u64>(
    stage: &CarverStage, f: F, chunk: (int, int), biomes: Seq<u16>, m: nat, n: nat,
)
    requires
        m <= n,
    ensures
        stage.surrounded(f, chunk, biomes, m).subset_of(stage.surrounded(f, chunk, biomes, n)),
    decreases n,
{
    if m < n {
        law_masks_grow(stage, f, chunk, biomes, m, (n - 1) as nat);
        let before = stage.surrounded(f, chunk, biomes, (n - 1) as nat);
        let source = (chunk.0 + (n - 1) / 17 - 8, chunk.1 + (n - 1) % 17 - 8);
        let b = biomes[n - 1] as int;
        if b < stage.biome_carvers@.len() {
            let list = stage.biome_carvers@[b]@;
            lemma_listed_adds(stage, f, chunk, source, list, before, list.len());
        }
    }
}

} // verus!
