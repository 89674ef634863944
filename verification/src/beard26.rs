//! Structure terrain adaptation: the density each rigid structure piece and
//! jigsaw junction adds around itself, so the ground rises under a village
//! house or opens around a buried room.
//!
//! The pieces come as one flat array:
//!
//! ```text
//! [n_rigid, n_junction, aff_min_x, aff_min_y, aff_min_z, aff_max_x, aff_max_y, aff_max_z,
//!  (min_x, min_y, min_z, max_x, max_y, max_z, adjustment, ground_delta) * n_rigid,
//!  (x, ground_y, z) * n_junction]
//! ```
//!
//! A piece only contributes inside its kernel radius, so a volume is sampled
//! by walking each piece over its own reach.

use vstd::prelude::*;
use crate::arith::{answers, holds, low, reply, Ask, HALF, HALF_32, ONE_32, THREE_HALVES};
use crate::df26::{lattice, wrap, wrapped, Lattice, TWO_32};
use crate::volume::Volume;

verus! {

/// How a structure piece adapts the terrain.
#[derive(Clone, Copy, Debug, PartialEq, Eq, Structural)]
pub enum Adjustment {
    Nothing,
    Bury,
    BeardThin,
    BeardBox,
    Encapsulate,
}

#[derive(Clone, Copy, Debug)]
pub struct Rigid {
    pub min: [i32; 3],
    pub max: [i32; 3],
    pub adjustment: Adjustment,
    pub ground_delta: i32,
}

#[derive(Clone, Copy, Debug)]
pub struct Junction {
    pub x: i32,
    pub ground_y: i32,
    pub z: i32,
}

#[derive(Debug)]
pub struct Beardifier {
    pub rigids: Vec<Rigid>,
    pub junctions: Vec<Junction>,
    /// Nothing is added outside of this box.
    pub affected_min: [i32; 3],
    pub affected_max: [i32; 3],
}

/// How far a kernel reaches.
pub const RADIUS: i32 = 12;

/// 16, 6, 36, 0.8 and 0.4.
pub const SIXTEEN: u64 = 0x4030_0000_0000_0000;

pub const SIX_32: u32 = 0x40C0_0000;

pub const THIRTY_SIX_32: u32 = 0x4210_0000;

pub const EIGHT_TENTHS_32: u32 = 0x3F4C_CCCD;

pub const FOUR_TENTHS_32: u32 = 0x3ECC_CCCD;

/// How strong the kernel is at an offset.
pub open spec fn kernel_entry<F: Fn(Ask) -> u64>(f: F, dx: int, dy: int, dz: int) -> u32 {
    let x = reply(f, Ask::FromInt64(dx as i32));
    let z = reply(f, Ask::FromInt64(dz as i32));
    let y = reply(f, Ask::Add64(reply(f, Ask::FromInt64(dy as i32)), HALF));
    let d = reply(
        f,
        Ask::Add64(
            reply(f, Ask::Add64(reply(f, Ask::Mul64(x, x)), reply(f, Ask::Mul64(y, y)))),
            reply(f, Ask::Mul64(z, z)),
        ),
    );
    low(f, Ask::Narrow(reply(f, Ask::Exp64(reply(f, Ask::Div64(reply(f, Ask::Neg64(d)), SIXTEEN))))))
}

/// The kernel: z slowest, then x, then y.
pub open spec fn kernel_table<F: Fn(Ask) -> u64>(f: F) -> Seq<u32> {
    Seq::new(13824, |i: int| kernel_entry(f, (i / 24) % 24 - 12, i % 24 - 12, i / 576 - 12))
}

/// The kernel.
pub fn kernel<F: Fn(Ask) -> u64>(f: &F) -> (r: Vec<u32>)
    requires
        answers(*f),
    ensures
        r@ == kernel_table(*f),
{
    let mut k: Vec<u32> = Vec::new();
    let mut i: usize = 0;
    while i < 13824
        invariant
            i <= 13824,
            k@.len() == i,
            answers(*f),
            forall|j: int| 0 <= j < i ==> k@[j] == #[trigger] kernel_table(*f)[j],
        decreases 13824 - i,
    {
        let dx: i32 = ((i / 24) % 24) as i32 - 12;
        let dy: i32 = (i % 24) as i32 - 12;
        let dz: i32 = (i / 576) as i32 - 12;
        let x: u64 = f(Ask::FromInt64(dx));
        let z: u64 = f(Ask::FromInt64(dz));
        let y0: u64 = f(Ask::FromInt64(dy));
        let y: u64 = f(Ask::Add64(y0, HALF));
        let xx: u64 = f(Ask::Mul64(x, x));
        let yy: u64 = f(Ask::Mul64(y, y));
        let zz: u64 = f(Ask::Mul64(z, z));
        let xy: u64 = f(Ask::Add64(xx, yy));
        let d: u64 = f(Ask::Add64(xy, zz));
        let n: u64 = f(Ask::Neg64(d));
        let q: u64 = f(Ask::Div64(n, SIXTEEN));
        let e: u64 = f(Ask::Exp64(q));
        k.push(f(Ask::Narrow(e)) as u32);
        i += 1;
    }
    proof { assert(k@ =~= kernel_table(*f)); }
    k
}

/// An estimate of one over the square root, by its bits.
pub open spec fn inverse_root<F: Fn(Ask) -> u64>(f: F, x: u64) -> u64 {
    let half = reply(f, Ask::Mul64(HALF, x));
    let shifted: u64 = if x >= 0x8000_0000_0000_0000 { (x >> 1u64) | 0x8000_0000_0000_0000 } else { x >> 1u64 };
    let y: u64 = 6910469410427058090u64.wrapping_sub(shifted);
    reply(
        f,
        Ask::Mul64(
            y,
            reply(f, Ask::Sub64(THREE_HALVES, reply(f, Ask::Mul64(reply(f, Ask::Mul64(half, y)), y)))),
        ),
    )
}

/// An estimate of one over the square root, by its bits.
pub fn fast_inv_sqrt<F: Fn(Ask) -> u64>(f: &F, x: u64) -> (r: u64)
    requires
        answers(*f),
    ensures
        r == inverse_root(*f, x),
{
    let half: u64 = f(Ask::Mul64(HALF, x));
    let shifted: u64 = if x >= 0x8000_0000_0000_0000 { (x >> 1u64) | 0x8000_0000_0000_0000 } else { x >> 1u64 };
    let y: u64 = 6910469410427058090u64.wrapping_sub(shifted);
    let a: u64 = f(Ask::Mul64(half, y));
    let b: u64 = f(Ask::Mul64(a, y));
    let c: u64 = f(Ask::Sub64(THREE_HALVES, b));
    f(Ask::Mul64(y, c))
}

/// The sum of three squares.
pub open spec fn three_squares<F: Fn(Ask) -> u64>(f: F, x: u32, y: u32, z: u32) -> u32 {
    low(
        f,
        Ask::Add32(
            low(f, Ask::Add32(low(f, Ask::Mul32(x, x)), low(f, Ask::Mul32(y, y)))),
            low(f, Ask::Mul32(z, z)),
        ),
    )
}

fn squares<F: Fn(Ask) -> u64>(f: &F, x: u32, y: u32, z: u32) -> (r: u32)
    requires
        answers(*f),
    ensures
        r == three_squares(*f, x, y, z),
{
    let xx: u32 = f(Ask::Mul32(x, x)) as u32;
    let yy: u32 = f(Ask::Mul32(y, y)) as u32;
    let zz: u32 = f(Ask::Mul32(z, z)) as u32;
    let xy: u32 = f(Ask::Add32(xx, yy)) as u32;
    f(Ask::Add32(xy, zz)) as u32
}

/// What burying adds at a distance.
pub open spec fn buried<F: Fn(Ask) -> u64>(f: F, dx: u32, dy: u32, dz: u32) -> u32 {
    let d = three_squares(f, dx, dy, dz);
    if holds(f, Ask::LessEq32(THIRTY_SIX_32, d)) {
        0
    } else {
        let root = low(f, Ask::Narrow(reply(f, Ask::Sqrt64(reply(f, Ask::Widen(d))))));
        low(f, Ask::Sub32(ONE_32, low(f, Ask::Div32(root, SIX_32))))
    }
}

/// What burying adds at a distance.
pub fn bury<F: Fn(Ask) -> u64>(f: &F, dx: u32, dy: u32, dz: u32) -> (r: u32)
    requires
        answers(*f),
    ensures
        r == buried(*f, dx, dy, dz),
{
    let d: u32 = squares(f, dx, dy, dz);
    if f(Ask::LessEq32(THIRTY_SIX_32, d)) != 0 {
        0
    } else {
        let w: u64 = f(Ask::Widen(d));
        let s: u64 = f(Ask::Sqrt64(w));
        let root: u32 = f(Ask::Narrow(s)) as u32;
        let part: u32 = f(Ask::Div32(root, SIX_32)) as u32;
        f(Ask::Sub32(ONE_32, part)) as u32
    }
}

/// An offset lies inside the kernel.
pub open spec fn in_kernel(d: int) -> bool {
    -12 <= d < 12
}

/// What a beard adds at an offset, at some height over its ground.
pub open spec fn bearded<F: Fn(Ask) -> u64>(f: F, dx: int, dy: int, dz: int, over: int) -> u32 {
    if in_kernel(dx) && in_kernel(dy) && in_kernel(dz) {
        let x = low(f, Ask::FromInt32(dx as i32));
        let z = low(f, Ask::FromInt32(dz as i32));
        let y = low(f, Ask::Add32(low(f, Ask::FromInt32(wrapped(over))), HALF_32));
        let half = reply(f, Ask::Widen(low(f, Ask::Div32(three_squares(f, x, y, z), TWO_32))));
        let root = low(f, Ask::Narrow(inverse_root(f, half)));
        let v = low(f, Ask::Div32(low(f, Ask::Mul32(low(f, Ask::Neg32(y)), root)), TWO_32));
        low(f, Ask::Mul32(v, kernel_entry(f, dx, dy, dz)))
    } else {
        0
    }
}

/// What a beard adds at an offset.
pub fn beard<F: Fn(Ask) -> u64>(f: &F, dx: i64, dy: i64, dz: i64, over: i64, k: &Vec<u32>) -> (r: u32)
    requires
        answers(*f),
        k@ == kernel_table(*f),
        -0x1000_0000_0000 <= over <= 0x1000_0000_0000,
    ensures
        r == bearded(*f, dx as int, dy as int, dz as int, over as int),
{
    if -12 <= dx && dx < 12 && -12 <= dy && dy < 12 && -12 <= dz && dz < 12 {
        let x: u32 = f(Ask::FromInt32(dx as i32)) as u32;
        let z: u32 = f(Ask::FromInt32(dz as i32)) as u32;
        let h: u32 = f(Ask::FromInt32(wrap(over as i128))) as u32;
        let y: u32 = f(Ask::Add32(h, HALF_32)) as u32;
        let d: u32 = squares(f, x, y, z);
        let q: u32 = f(Ask::Div32(d, TWO_32)) as u32;
        let half: u64 = f(Ask::Widen(q));
        let wide: u64 = fast_inv_sqrt(f, half);
        let root: u32 = f(Ask::Narrow(wide)) as u32;
        let n: u32 = f(Ask::Neg32(y)) as u32;
        let m: u32 = f(Ask::Mul32(n, root)) as u32;
        let v: u32 = f(Ask::Div32(m, TWO_32)) as u32;
        let i: usize = ((dz + 12) * 576 + (dx + 12) * 24 + (dy + 12)) as usize;
        proof {
            assert(i as int / 576 == dz + 12);
            assert((i as int / 24) % 24 == dx + 12);
            assert(i as int % 24 == dy + 12);
            assert(k@[i as int] == kernel_entry(*f, dx as int, dy as int, dz as int));
        }
        f(Ask::Mul32(v, k[i])) as u32
    } else {
        0
    }
}

/// How far a block lies outside of a range.
pub open spec fn outside(v: int, min: int, max: int) -> int {
    let d = if min - v > v - max { min - v } else { v - max };
    if d > 0 { d } else { 0 }
}

fn outside_by(v: i64, min: i64, max: i64) -> (r: i64)
    requires
        -0x2_0000_0000 <= v <= 0x2_0000_0000,
        -0x2_0000_0000 <= min <= 0x2_0000_0000,
        -0x2_0000_0000 <= max <= 0x2_0000_0000,
    ensures
        r == outside(v as int, min as int, max as int),
        0 <= r <= 0x4_0000_0000,
{
    let d: i64 = if min - v > v - max { min - v } else { v - max };
    if d > 0 { d } else { 0 }
}

/// Half of a distance.
pub open spec fn halved<F: Fn(Ask) -> u64>(f: F, d: int) -> u32 {
    low(f, Ask::Div32(low(f, Ask::FromInt32(wrapped(d))), TWO_32))
}

fn halve<F: Fn(Ask) -> u64>(f: &F, d: i64) -> (r: u32)
    requires
        answers(*f),
    ensures
        r == halved(*f, d as int),
{
    let v: u32 = f(Ask::FromInt32(wrap(d as i128))) as u32;
    f(Ask::Div32(v, TWO_32)) as u32
}

impl Rigid {
    /// The height of the piece's ground.
    pub open spec fn ground(self) -> int {
        self.min@[1] + self.ground_delta
    }

    /// What the piece adds at a block.
    pub open spec fn added<F: Fn(Ask) -> u64>(self, f: F, x: int, y: int, z: int) -> u32 {
        let dx = outside(x, self.min@[0] as int, self.max@[0] as int);
        let dz = outside(z, self.min@[2] as int, self.max@[2] as int);
        let over = y - self.ground();
        match self.adjustment {
            Adjustment::Nothing => 0,
            Adjustment::Bury => buried(
                f, low(f, Ask::FromInt32(wrapped(dx))), halved(f, over), low(f, Ask::FromInt32(wrapped(dz)))),
            Adjustment::BeardThin => low(f, Ask::Mul32(bearded(f, dx, over, dz, over), EIGHT_TENTHS_32)),
            Adjustment::BeardBox => {
                let dy = outside(y, self.ground(), self.max@[1] as int);
                low(f, Ask::Mul32(bearded(f, dx, dy, dz, over), EIGHT_TENTHS_32))
            },
            Adjustment::Encapsulate => {
                let dy = outside(y, self.min@[1] as int, self.max@[1] as int);
                low(f, Ask::Mul32(buried(f, halved(f, dx), halved(f, dy), halved(f, dz)), EIGHT_TENTHS_32))
            },
        }
    }

    fn contribution<F: Fn(Ask) -> u64>(&self, f: &F, x: i32, y: i32, z: i32, k: &Vec<u32>) -> (r: u32)
        requires
            answers(*f),
            k@ == kernel_table(*f),
        ensures
            r == self.added(*f, x as int, y as int, z as int),
    {
        let dx: i64 = outside_by(x as i64, self.min[0] as i64, self.max[0] as i64);
        let dz: i64 = outside_by(z as i64, self.min[2] as i64, self.max[2] as i64);
        let ground: i64 = self.min[1] as i64 + self.ground_delta as i64;
        let over: i64 = y as i64 - ground;
        match self.adjustment {
            Adjustment::Nothing => 0,
            Adjustment::Bury => {
                let a: u32 = f(Ask::FromInt32(wrap(dx as i128))) as u32;
                let b: u32 = halve(f, over);
                let c: u32 = f(Ask::FromInt32(wrap(dz as i128))) as u32;
                bury(f, a, b, c)
            },
            Adjustment::BeardThin => {
                let v: u32 = beard(f, dx, over, dz, over, k);
                f(Ask::Mul32(v, EIGHT_TENTHS_32)) as u32
            },
            Adjustment::BeardBox => {
                let dy: i64 = outside_by(y as i64, ground, self.max[1] as i64);
                let v: u32 = beard(f, dx, dy, dz, over, k);
                f(Ask::Mul32(v, EIGHT_TENTHS_32)) as u32
            },
            Adjustment::Encapsulate => {
                let dy: i64 = outside_by(y as i64, self.min[1] as i64, self.max[1] as i64);
                let (a, b, c): (u32, u32, u32) = (halve(f, dx), halve(f, dy), halve(f, dz));
                let v: u32 = bury(f, a, b, c);
                f(Ask::Mul32(v, EIGHT_TENTHS_32)) as u32
            },
        }
    }
}

impl Junction {
    /// What the junction adds at a block.
    pub open spec fn added<F: Fn(Ask) -> u64>(self, f: F, x: int, y: int, z: int) -> u32 {
        low(f, Ask::Mul32(bearded(f, x - self.x, y - self.ground_y, z - self.z, y - self.ground_y), FOUR_TENTHS_32))
    }

    fn contribution<F: Fn(Ask) -> u64>(&self, f: &F, x: i32, y: i32, z: i32, k: &Vec<u32>) -> (r: u32)
        requires
            answers(*f),
            k@ == kernel_table(*f),
        ensures
            r == self.added(*f, x as int, y as int, z as int),
    {
        let over: i64 = y as i64 - self.ground_y as i64;
        let v: u32 = beard(f, x as i64 - self.x as i64, over, z as i64 - self.z as i64, over, k);
        f(Ask::Mul32(v, FOUR_TENTHS_32)) as u32
    }
}

/// Where the values of a sampled volume may differ from zero, in positions
/// of the volume (inclusive bounds).
#[derive(Clone, Copy, Debug)]
pub struct Reach {
    pub lo: [usize; 3],
    pub hi: [usize; 3],
}

impl Reach {
    /// A box overlaps the reach.
    pub open spec fn overlaps(self, lo: [usize; 3], hi: [usize; 3]) -> bool {
        forall|a: int| 0 <= a < 3 ==> #[trigger] lo@[a] <= self.hi@[a] && hi@[a] >= self.lo@[a]
    }

    /// Whether a box overlaps the reach.
    pub fn touches(&self, lo: [usize; 3], hi: [usize; 3]) -> (r: bool)
        ensures
            r == self.overlaps(lo, hi),
    {
        let r: bool = lo[0] <= self.hi[0] && hi[0] >= self.lo[0] && lo[1] <= self.hi[1] && hi[1] >= self.lo[1] && lo[2]
            <= self.hi[2] && hi[2] >= self.lo[2];
        proof {
            if r {
                assert(self.overlaps(lo, hi));
            } else if self.overlaps(lo, hi) {
                assert(lo@[0] <= self.hi@[0] && lo@[1] <= self.hi@[1] && lo@[2] <= self.hi@[2]);
            }
        }
        r
    }
}

/// The adjustment a number stands for.
pub open spec fn adjustment_of(v: i32) -> Option<Adjustment> {
    if v == 0 {
        Some(Adjustment::Nothing)
    } else if v == 1 {
        Some(Adjustment::Bury)
    } else if v == 2 {
        Some(Adjustment::BeardThin)
    } else if v == 3 {
        Some(Adjustment::BeardBox)
    } else if v == 4 {
        Some(Adjustment::Encapsulate)
    } else {
        None
    }
}

/// A flat array is well formed: counts that match its length, and
/// adjustments that exist.
pub open spec fn well_formed(flat: Seq<i32>) -> bool {
    &&& flat.len() >= 8
    &&& flat[0] >= 0
    &&& flat[1] >= 0
    &&& flat.len() == 8 + flat[0] * 8 + flat[1] * 3
    &&& forall|i: int| 0 <= i < flat[0] ==> adjustment_of(#[trigger] flat[8 + 8 * i + 6]) is Some
}

/// A rigid piece is the `i`-th of a flat array.
pub open spec fn rigid_at(flat: Seq<i32>, i: int, r: Rigid) -> bool {
    let o = 8 + 8 * i;
    &&& r.min@ == seq![flat[o], flat[o + 1], flat[o + 2]]
    &&& r.max@ == seq![flat[o + 3], flat[o + 4], flat[o + 5]]
    &&& adjustment_of(flat[o + 6]) == Some(r.adjustment)
    &&& r.ground_delta == flat[o + 7]
}

/// A junction is the `i`-th of a flat array.
pub open spec fn junction_at(flat: Seq<i32>, i: int, j: Junction) -> bool {
    let o = 8 + 8 * flat[0] + 3 * i;
    j.x == flat[o] && j.ground_y == flat[o + 1] && j.z == flat[o + 2]
}

/// Pieces are those of a flat array.
pub open spec fn pieces_of(flat: Seq<i32>, b: Beardifier) -> bool {
    &&& b.affected_min@ == seq![flat[2], flat[3], flat[4]]
    &&& b.affected_max@ == seq![flat[5], flat[6], flat[7]]
    &&& b.rigids@.len() == flat[0]
    &&& b.junctions@.len() == flat[1]
    &&& forall|i: int| 0 <= i < flat[0] ==> rigid_at(flat, i, #[trigger] b.rigids@[i])
    &&& forall|i: int| 0 <= i < flat[1] ==> junction_at(flat, i, #[trigger] b.junctions@[i])
}

impl Beardifier {
    /// Read the flat layout; nothing for an array that is not well formed.
    pub fn from_flat(flat: &[i32]) -> (r: Option<Beardifier>)
        ensures
            r is Some <==> well_formed(flat@),
            r matches Some(b) ==> pieces_of(flat@, b),
    {
        let n: usize = flat.len();
        if n < 8 || flat[0] < 0 || flat[1] < 0 {
            return None;
        }
        let (rigid, junction): (u64, u64) = (flat[0] as u64, flat[1] as u64);
        if n as u64 != 8 + rigid * 8 + junction * 3 {
            return None;
        }
        let mut rigids: Vec<Rigid> = Vec::new();
        let mut at: usize = 8;
        let mut i: u64 = 0;
        while i < rigid
            invariant
                i <= rigid,
                rigid == flat@[0],
                junction == flat@[1],
                n == flat@.len(),
                n == 8 + rigid * 8 + junction * 3,
                at == 8 + i * 8,
                rigids@.len() == i,
                forall|k: int| 0 <= k < i ==> rigid_at(flat@, k, #[trigger] rigids@[k]),
                forall|k: int| 0 <= k < i ==> adjustment_of(#[trigger] flat@[8 + 8 * k + 6]) is Some,
            decreases rigid - i,
        {
            let v: i32 = flat[at + 6];
            let adjustment = if v == 0 {
                Adjustment::Nothing
            } else if v == 1 {
                Adjustment::Bury
            } else if v == 2 {
                Adjustment::BeardThin
            } else if v == 3 {
                Adjustment::BeardBox
            } else if v == 4 {
                Adjustment::Encapsulate
            } else {
                proof { assert(adjustment_of(flat@[8 + 8 * i + 6]) is None); }
                return None;
            };
            let min: [i32; 3] = [flat[at], flat[at + 1], flat[at + 2]];
            let max: [i32; 3] = [flat[at + 3], flat[at + 4], flat[at + 5]];
            let r = Rigid { min, max, adjustment, ground_delta: flat[at + 7] };
            proof {
                assert(r.min@ =~= seq![flat@[8 + 8 * i], flat@[8 + 8 * i + 1], flat@[8 + 8 * i + 2]]);
                assert(r.max@ =~= seq![flat@[8 + 8 * i + 3], flat@[8 + 8 * i + 4], flat@[8 + 8 * i + 5]]);
                assert(rigid_at(flat@, i as int, r));
            }
            rigids.push(r);
            at += 8;
            i += 1;
        }
        let mut junctions: Vec<Junction> = Vec::new();
        let mut i: u64 = 0;
        while i < junction
            invariant
                i <= junction,
                rigid == flat@[0],
                junction == flat@[1],
                n == flat@.len(),
                n == 8 + rigid * 8 + junction * 3,
                at == 8 + rigid * 8 + i * 3,
                junctions@.len() == i,
                forall|k: int| 0 <= k < i ==> junction_at(flat@, k, #[trigger] junctions@[k]),
            decreases junction - i,
        {
            junctions.push(Junction { x: flat[at], ground_y: flat[at + 1], z: flat[at + 2] });
            at += 3;
            i += 1;
        }
        let affected_min: [i32; 3] = [flat[2], flat[3], flat[4]];
        let affected_max: [i32; 3] = [flat[5], flat[6], flat[7]];
        let b = Beardifier { rigids, junctions, affected_min, affected_max };
        proof {
            assert(b.affected_min@ =~= seq![flat@[2], flat@[3], flat@[4]]);
            assert(b.affected_max@ =~= seq![flat@[5], flat@[6], flat@[7]]);
        }
        Some(b)
    }

    /// How many pieces there are, junctions after rigid ones.
    pub open spec fn pieces(self) -> nat {
        self.rigids@.len() + self.junctions@.len()
    }

    /// What a piece adds at a block.
    pub open spec fn piece<F: Fn(Ask) -> u64>(self, f: F, m: int, x: int, y: int, z: int) -> u32 {
        if m < self.rigids@.len() {
            self.rigids@[m].added(f, x, y, z)
        } else {
            self.junctions@[m - self.rigids@.len()].added(f, x, y, z)
        }
    }

    /// A block lies in the affected box.
    pub open spec fn affects(self, x: int, y: int, z: int) -> bool {
        &&& self.affected_min@[0] <= x <= self.affected_max@[0]
        &&& self.affected_min@[1] <= y <= self.affected_max@[1]
        &&& self.affected_min@[2] <= z <= self.affected_max@[2]
    }

    /// What the first `n` pieces add at a block.
    pub open spec fn sum<F: Fn(Ask) -> u64>(self, f: F, x: int, y: int, z: int, n: nat) -> u32
        decreases n,
    {
        if n == 0 {
            0
        } else {
            low(f, Ask::Add32(self.sum(f, x, y, z, (n - 1) as nat), self.piece(f, n - 1, x, y, z)))
        }
    }

    /// What is added at one block; `k` is the kernel.
    pub fn sample<F: Fn(Ask) -> u64>(&self, x: i32, y: i32, z: i32, k: &Vec<u32>, f: &F) -> (r: u32)
        requires
            answers(*f),
            k@ == kernel_table(*f),
        ensures
            r == (if self.affects(x as int, y as int, z as int) {
                self.sum(*f, x as int, y as int, z as int, self.pieces())
            } else {
                0
            }),
    {
        if x < self.affected_min[0] || x > self.affected_max[0] || y < self.affected_min[1] || y > self.affected_max[1] || z
            < self.affected_min[2] || z > self.affected_max[2] {
            return 0;
        }
        let mut v: u32 = 0;
        let mut i: usize = 0;
        while i < self.rigids.len()
            invariant
                i <= self.rigids@.len(),
                answers(*f),
                k@ == kernel_table(*f),
                v == self.sum(*f, x as int, y as int, z as int, i as nat),
            decreases self.rigids.len() - i,
        {
            let c: u32 = self.rigids[i].contribution(f, x, y, z, k);
            v = f(Ask::Add32(v, c)) as u32;
            i += 1;
        }
        let mut i: usize = 0;
        while i < self.junctions.len()
            invariant
                i <= self.junctions@.len(),
                answers(*f),
                k@ == kernel_table(*f),
                v == self.sum(*f, x as int, y as int, z as int, (self.rigids@.len() + i) as nat),
            decreases self.junctions.len() - i,
        {
            let c: u32 = self.junctions[i].contribution(f, x, y, z, k);
            v = f(Ask::Add32(v, c)) as u32;
            i += 1;
        }
        v
    }
}

/// A box, its bounds included.
pub ghost struct Extent {
    pub x0: int,
    pub y0: int,
    pub z0: int,
    pub x1: int,
    pub y1: int,
    pub z1: int,
}

pub open spec fn least(a: int, b: int) -> int {
    if a < b { a } else { b }
}

pub open spec fn greatest(a: int, b: int) -> int {
    if a > b { a } else { b }
}

impl Extent {
    pub open spec fn full(self) -> bool {
        self.x0 <= self.x1 && self.y0 <= self.y1 && self.z0 <= self.z1
    }

    pub open spec fn holds_cell(self, x: int, y: int, z: int) -> bool {
        self.x0 <= x <= self.x1 && self.y0 <= y <= self.y1 && self.z0 <= z <= self.z1
    }

    /// The smallest box around two.
    pub open spec fn around(self, o: Extent) -> Extent {
        Extent {
            x0: least(self.x0, o.x0),
            y0: least(self.y0, o.y0),
            z0: least(self.z0, o.z0),
            x1: greatest(self.x1, o.x1),
            y1: greatest(self.y1, o.y1),
            z1: greatest(self.z1, o.z1),
        }
    }
}

impl Reach {
    pub open spec fn extent(self) -> Extent {
        Extent {
            x0: self.lo@[0] as int,
            y0: self.lo@[1] as int,
            z0: self.lo@[2] as int,
            x1: self.hi@[0] as int,
            y1: self.hi@[1] as int,
            z1: self.hi@[2] as int,
        }
    }
}

impl Beardifier {
    /// The blocks that a piece can reach.
    pub open spec fn reach_of(self, m: int) -> Extent {
        if m < self.rigids@.len() {
            let r = self.rigids@[m];
            Extent {
                x0: r.min@[0] - 12,
                y0: least(r.min@[1] as int, r.ground()) - 12,
                z0: r.min@[2] - 12,
                x1: r.max@[0] + 12,
                y1: greatest(r.max@[1] as int, r.ground()) + 12,
                z1: r.max@[2] + 12,
            }
        } else {
            let j = self.junctions@[m - self.rigids@.len()];
            Extent { x0: j.x - 12, y0: j.ground_y - 12, z0: j.z - 12, x1: j.x + 12, y1: j.ground_y + 12, z1: j.z + 12 }
        }
    }

    /// A box of blocks cut to a volume and to the affected box, in
    /// positions of the volume.
    pub open spec fn cut(self, vol: Volume, e: Extent) -> Extent {
        Extent {
            x0: greatest(greatest(e.x0, self.affected_min@[0] as int), vol.min@[0] as int) - vol.min@[0],
            y0: greatest(greatest(e.y0, self.affected_min@[1] as int), vol.min@[1] as int) - vol.min@[1],
            z0: greatest(greatest(e.z0, self.affected_min@[2] as int), vol.min@[2] as int) - vol.min@[2],
            x1: least(least(e.x1, self.affected_max@[0] as int), vol.last_block(0)) - vol.min@[0],
            y1: least(least(e.y1, self.affected_max@[1] as int), vol.last_block(1)) - vol.min@[1],
            z1: least(least(e.z1, self.affected_max@[2] as int), vol.last_block(2)) - vol.min@[2],
        }
    }

    /// The positions of a volume that a piece is walked over.
    pub open spec fn part(self, vol: Volume, m: int) -> Option<Extent> {
        let idle = m < self.rigids@.len() && self.rigids@[m].adjustment is Nothing;
        let e = self.cut(vol, self.reach_of(m));
        if !idle && e.full() { Some(e) } else { None }
    }

    /// What the first `n` pieces add at an element of a volume.
    pub open spec fn element<F: Fn(Ask) -> u64>(self, f: F, vol: Volume, i: int, n: nat) -> u32
        decreases n,
    {
        if n == 0 {
            0
        } else {
            let before = self.element(f, vol, i, (n - 1) as nat);
            let v = lattice(vol);
            match self.part(vol, n - 1) {
                Some(e) => if e.holds_cell(v.ix(i), v.iy(i), v.iz(i)) {
                    low(f, Ask::Add32(before, self.piece(f, n - 1, v.x + v.ix(i), v.y + v.iy(i), v.z + v.iz(i))))
                } else {
                    before
                },
                None => before,
            }
        }
    }

    /// Where the first `n` pieces are walked.
    pub open spec fn reached(self, vol: Volume, n: nat) -> Option<Extent>
        decreases n,
    {
        if n == 0 {
            None
        } else {
            match (self.reached(vol, (n - 1) as nat), self.part(vol, n - 1)) {
                (Some(a), Some(b)) => Some(a.around(b)),
                (None, b) => b,
                (a, None) => a,
            }
        }
    }

    fn piece_at<F: Fn(Ask) -> u64>(&self, m: usize, x: i32, y: i32, z: i32, k: &Vec<u32>, f: &F) -> (r: u32)
        requires
            answers(*f),
            k@ == kernel_table(*f),
            m < self.pieces(),
        ensures
            r == self.piece(*f, m as int, x as int, y as int, z as int),
    {
        if m < self.rigids.len() {
            self.rigids[m].contribution(f, x, y, z, k)
        } else {
            self.junctions[m - self.rigids.len()].contribution(f, x, y, z, k)
        }
    }

    /// Cut one axis; the positions of the first and last block.
    fn cut_axis(lo: i64, hi: i64, affected_min: i32, affected_max: i32, min: i32, last: i32) -> (r: Option<(usize, usize)>)
        requires
            -0x2_0000_0000 <= lo <= 0x2_0000_0000,
            -0x2_0000_0000 <= hi <= 0x2_0000_0000,
            min <= last,
        ensures
            ({
                let a = greatest(greatest(lo as int, affected_min as int), min as int) - min;
                let b = least(least(hi as int, affected_max as int), last as int) - min;
                &&& r is Some <==> a <= b
                &&& r matches Some(p) ==> p.0 == a && p.1 == b && p.1 <= last - min
            }),
    {
        let mut a: i64 = if lo > affected_min as i64 { lo } else { affected_min as i64 };
        if a < min as i64 {
            a = min as i64;
        }
        let mut b: i64 = if hi < affected_max as i64 { hi } else { affected_max as i64 };
        if b > last as i64 {
            b = last as i64;
        }
        if a > b { None } else { Some(((a - min as i64) as usize, (b - min as i64) as usize)) }
    }

    /// The positions of a volume that a piece is walked over.
    fn part_of(&self, vol: &Volume, m: usize) -> (r: Option<Reach>)
        requires
            vol.wf(),
            vol.in_world(),
            m < self.pieces(),
        ensures
            r is Some <==> self.part(*vol, m as int) is Some,
            r matches Some(p) ==> self.part(*vol, m as int) == Some(p.extent()),
            r matches Some(p) ==> p.hi@[0] <= vol.last_block(0) - vol.min@[0] && p.hi@[1] <= vol.last_block(1) - vol.min@[1]
                && p.hi@[2] <= vol.last_block(2) - vol.min@[2],
    {
        let (x0, y0, z0, x1, y1, z1): (i64, i64, i64, i64, i64, i64);
        if m < self.rigids.len() {
            let p = &self.rigids[m];
            if p.adjustment == Adjustment::Nothing {
                return None;
            }
            let ground: i64 = p.min[1] as i64 + p.ground_delta as i64;
            x0 = p.min[0] as i64 - 12;
            z0 = p.min[2] as i64 - 12;
            y0 = if (p.min[1] as i64) < ground { p.min[1] as i64 - 12 } else { ground - 12 };
            x1 = p.max[0] as i64 + 12;
            z1 = p.max[2] as i64 + 12;
            y1 = if (p.max[1] as i64) > ground { p.max[1] as i64 + 12 } else { ground + 12 };
        } else {
            let j = &self.junctions[m - self.rigids.len()];
            x0 = j.x as i64 - 12;
            y0 = j.ground_y as i64 - 12;
            z0 = j.z as i64 - 12;
            x1 = j.x as i64 + 12;
            y1 = j.ground_y as i64 + 12;
            z1 = j.z as i64 + 12;
        }
        proof {
            lemma_last(*vol, 0);
            lemma_last(*vol, 1);
            lemma_last(*vol, 2);
        }
        let (lx, ly, lz): (i32, i32, i32) = (vol.max_block(0), vol.max_block(1), vol.max_block(2));
        let x = Beardifier::cut_axis(x0, x1, self.affected_min[0], self.affected_max[0], vol.min[0], lx);
        let y = Beardifier::cut_axis(y0, y1, self.affected_min[1], self.affected_max[1], vol.min[1], ly);
        let z = Beardifier::cut_axis(z0, z1, self.affected_min[2], self.affected_max[2], vol.min[2], lz);
        match (x, y, z) {
            (Some(x), Some(y), Some(z)) => {
                let lo: [usize; 3] = [x.0, y.0, z.0];
                let hi: [usize; 3] = [x.1, y.1, z.1];
                Some(Reach { lo, hi })
            },
            _ => None,
        }
    }

    /// The value per block of a volume of every block, in buffer order,
    /// with the region that may differ from zero; nothing when no piece
    /// reaches the volume. `k` is the kernel.
    pub fn sample_volume<F: Fn(Ask) -> u64>(&self, vol: &Volume, k: &Vec<u32>, f: &F) -> (r: Option<(Vec<u32>, Reach)>)
        requires
            answers(*f),
            k@ == kernel_table(*f),
            vol.fits(),
            vol.in_world(),
            vol.step@ == seq![1i32, 1i32, 1i32],
            self.pieces() <= usize::MAX,
        ensures
            r is Some <==> self.reached(*vol, self.pieces()) is Some,
            r matches Some(p) ==> Some(p.1.extent()) == self.reached(*vol, self.pieces()),
            r matches Some(p) ==> p.0@.len() == vol.count(),
            r matches Some(p) ==> forall|i: int|
                0 <= i < vol.count() ==> #[trigger] p.0@[i] == self.element(*f, *vol, i, self.pieces()),
    {
        let n: usize = vol.len();
        let mut buf: Vec<u32> = Vec::new();
        let mut i: usize = 0;
        while i < n
            invariant
                i <= n,
                buf@.len() == i,
                forall|j: int| 0 <= j < i ==> #[trigger] buf@[j] == 0,
            decreases n - i,
        {
            buf.push(0);
            i += 1;
        }
        let total: usize = self.rigids.len() + self.junctions.len();
        let mut reach: Option<Reach> = None;
        let mut m: usize = 0;
        while m < total
            invariant
                m <= total,
                total == self.pieces(),
                answers(*f),
                k@ == kernel_table(*f),
                vol.fits(),
                vol.in_world(),
                vol.step@ == seq![1i32, 1i32, 1i32],
                buf@.len() == vol.count(),
                forall|i: int| 0 <= i < vol.count() ==> #[trigger] buf@[i] == self.element(*f, *vol, i, m as nat),
                reach is Some <==> self.reached(*vol, m as nat) is Some,
                reach matches Some(p) ==> self.reached(*vol, m as nat) == Some(p.extent()),
            decreases total - m,
        {
            if let Some(p) = self.part_of(vol, m) {
                self.visit(vol, m, p, &mut buf, k, f);
                reach = Some(
                    match reach {
                        None => p,
                        Some(r) => {
                            let lo: [usize; 3] = [smaller(r.lo[0], p.lo[0]), smaller(r.lo[1], p.lo[1]), smaller(r.lo[2], p.lo[2])];
                            let hi: [usize; 3] = [larger(r.hi[0], p.hi[0]), larger(r.hi[1], p.hi[1]), larger(r.hi[2], p.hi[2])];
                            Reach { lo, hi }
                        },
                    },
                );
            }
            m += 1;
        }
        match reach {
            Some(r) => Some((buf, r)),
            None => None,
        }
    }

    /// Add what a piece adds over its part of a volume.
    fn visit<F: Fn(Ask) -> u64>(&self, vol: &Volume, m: usize, p: Reach, buf: &mut Vec<u32>, k: &Vec<u32>, f: &F)
        requires
            answers(*f),
            k@ == kernel_table(*f),
            vol.fits(),
            vol.in_world(),
            vol.step@ == seq![1i32, 1i32, 1i32],
            m < self.pieces(),
            self.part(*vol, m as int) == Some(p.extent()),
            p.extent().full(),
            old(buf)@.len() == vol.count(),
            forall|i: int| 0 <= i < vol.count() ==> #[trigger] old(buf)@[i] == self.element(*f, *vol, i, m as nat),
        ensures
            final(buf)@.len() == vol.count(),
            forall|i: int| 0 <= i < vol.count() ==> #[trigger] final(buf)@[i] == self.element(*f, *vol, i, (m + 1) as nat),
    {
        let ghost v = lattice(*vol);
        let ghost e = p.extent();
        let ghost start = buf@;
        proof {
            lemma_last(*vol, 0);
            lemma_last(*vol, 1);
            lemma_last(*vol, 2);
        }
        let mut z: usize = p.lo[2];
        while z <= p.hi[2]
            invariant
                answers(*f),
                k@ == kernel_table(*f),
                vol.fits() && vol.in_world(),
                v == lattice(*vol),
                vol.step@ == seq![1i32, 1i32, 1i32],
                m < self.pieces(),
                e == p.extent(),
                0 <= e.x0 && e.x1 < v.sx && 0 <= e.y0 && e.y1 < v.sy && 0 <= e.z0 && e.z1 < v.sz,
                e.x0 <= e.x1 && e.y0 <= e.y1,
                self.part(*vol, m as int) == Some(e),
                e.z0 <= z <= e.z1 + 1,
                buf@.len() == vol.count(),
                forall|i: int| 0 <= i < vol.count() ==> #[trigger] start[i] == self.element(*f, *vol, i, m as nat),
                forall|i: int|
                    0 <= i < vol.count() ==> #[trigger] buf@[i] == (if walked(v, e, i, e.x0, e.y0, z as int) {
                        self.element(*f, *vol, i, (m + 1) as nat)
                    } else {
                        start[i]
                    }),
            decreases p.hi[2] + 1 - z,
        {
            let bz: i32 = vol.block(2, z);
            let mut x: usize = p.lo[0];
            while x <= p.hi[0]
                invariant
                    answers(*f),
                    k@ == kernel_table(*f),
                    vol.fits() && vol.in_world(),
                    v == lattice(*vol),
                    vol.step@ == seq![1i32, 1i32, 1i32],
                    m < self.pieces(),
                    e == p.extent(),
                    0 <= e.x0 && e.x1 < v.sx && 0 <= e.y0 && e.y1 < v.sy && 0 <= e.z0 && e.z1 < v.sz,
                    e.x0 <= e.x1 && e.y0 <= e.y1,
                    self.part(*vol, m as int) == Some(e),
                    e.z0 <= z <= e.z1,
                    e.x0 <= x <= e.x1 + 1,
                    bz == vol.block_of(2, z as int),
                    buf@.len() == vol.count(),
                    forall|i: int| 0 <= i < vol.count() ==> #[trigger] start[i] == self.element(*f, *vol, i, m as nat),
                    forall|i: int|
                        0 <= i < vol.count() ==> #[trigger] buf@[i] == (if walked(v, e, i, x as int, e.y0, z as int) {
                            self.element(*f, *vol, i, (m + 1) as nat)
                        } else {
                            start[i]
                        }),
                decreases p.hi[0] + 1 - x,
            {
                let bx: i32 = vol.block(0, x);
                let mut y: usize = p.lo[1];
                while y <= p.hi[1]
                    invariant
                        answers(*f),
                        k@ == kernel_table(*f),
                        vol.fits() && vol.in_world(),
                        v == lattice(*vol),
                        vol.step@ == seq![1i32, 1i32, 1i32],
                        m < self.pieces(),
                        e == p.extent(),
                        0 <= e.x0 && e.x1 < v.sx && 0 <= e.y0 && e.y1 < v.sy && 0 <= e.z0 && e.z1 < v.sz,
                        self.part(*vol, m as int) == Some(e),
                        e.z0 <= z <= e.z1,
                        e.x0 <= x <= e.x1,
                        e.y0 <= y <= e.y1 + 1,
                        bz == vol.block_of(2, z as int),
                        bx == vol.block_of(0, x as int),
                        buf@.len() == vol.count(),
                        forall|i: int| 0 <= i < vol.count() ==> #[trigger] start[i] == self.element(*f, *vol, i, m as nat),
                        forall|i: int|
                            0 <= i < vol.count() ==> #[trigger] buf@[i] == (if walked(v, e, i, x as int, y as int, z as int) {
                                self.element(*f, *vol, i, (m + 1) as nat)
                            } else {
                                start[i]
                            }),
                    decreases p.hi[1] + 1 - y,
                {
                    let by: i32 = vol.block(1, y);
                    let i: usize = vol.index(x, y, z);
                    let c: u32 = self.piece_at(m, bx, by, bz, k, f);
                    let sum: u32 = f(Ask::Add32(buf[i], c)) as u32;
                    let ghost before = buf@;
                    buf.set(i, sum);
                    proof {
                        lemma_cell(*vol, x as int, y as int, z as int);
                        assert(vol.step@[0] == 1 && vol.step@[1] == 1 && vol.step@[2] == 1);
                        assert(x * 1 == x && y * 1 == y && z * 1 == z);
                        assert(x * vol.step@[0] == x && y * vol.step@[1] == y && z * vol.step@[2] == z);
                        assert(bx == v.x + x && by == v.y + y && bz == v.z + z);
                        assert(!walked(v, e, i as int, x as int, y as int, z as int));
                        assert(before[i as int] == start[i as int]);
                        assert(sum == low(*f, Ask::Add32(before[i as int], c)));
                        assert(sum == self.element(*f, *vol, i as int, (m + 1) as nat));
                        assert forall|j: int| 0 <= j < vol.count() implies #[trigger] buf@[j] == (if walked(
                            v, e, j, x as int, y + 1, z as int) {
                            self.element(*f, *vol, j, (m + 1) as nat)
                        } else {
                            start[j]
                        }) by {
                            if j != i {
                                lemma_position(*vol, j);
                                assert(buf@[j] == before[j]);
                            }
                        }
                    }
                    y += 1;
                }
                proof {
                    assert forall|j: int| 0 <= j < vol.count() implies #[trigger] walked(v, e, j, x as int, e.y1 + 1, z as int)
                        == walked(v, e, j, x + 1, e.y0, z as int) by {
                        lemma_position(*vol, j);
                    }
                }
                x += 1;
            }
            proof {
                assert forall|j: int| 0 <= j < vol.count() implies #[trigger] walked(v, e, j, e.x1 + 1, e.y0, z as int)
                    == walked(v, e, j, e.x0, e.y0, z + 1) by {
                    lemma_position(*vol, j);
                }
            }
            z += 1;
        }
        proof {
            assert forall|j: int| 0 <= j < vol.count() implies #[trigger] buf@[j] == self.element(*f, *vol, j, (m + 1) as nat) by {
                lemma_position(*vol, j);
                assert(start[j] == self.element(*f, *vol, j, m as nat));
            }
        }
    }
}

/// Outside of the reach every value of a sampled volume is zero.
pub proof fn law_reach_covers<F: Fn(Ask) -> u64>(f: F, b: Beardifier, vol: Volume, i: int, n: nat)
    requires
        b.reached(vol, n) matches Some(e) ==> !e.holds_cell(lattice(vol).ix(i), lattice(vol).iy(i), lattice(vol).iz(i)),
    ensures
        b.element(f, vol, i, n) == 0,
    decreases n,
{
    if n > 0 {
        law_reach_covers(f, b, vol, i, (n - 1) as nat);
    }
}

fn smaller(a: usize, b: usize) -> (r: usize)
    ensures
        r == least(a as int, b as int),
{
    if a < b { a } else { b }
}

fn larger(a: usize, b: usize) -> (r: usize)
    ensures
        r == greatest(a as int, b as int),
{
    if a > b { a } else { b }
}

/// An element of a box comes before a position, z slowest, then x, then y.
spec fn walked(v: Lattice, e: Extent, i: int, x: int, y: int, z: int) -> bool {
    let (ix, iy, iz) = (v.ix(i), v.iy(i), v.iz(i));
    e.holds_cell(ix, iy, iz) && (iz < z || (iz == z && (ix < x || (ix == x && iy < y))))
}

proof fn lemma_last(vol: Volume, axis: int)
    requires
        vol.wf(),
        0 <= axis < 3,
    ensures
        vol.min@[axis] <= vol.last_block(axis),
        vol.step@ == seq![1i32, 1i32, 1i32] ==> vol.last_block(axis) == vol.min@[axis] + vol.size@[axis] - 1,
{
    let (n, s) = (vol.size@[axis] as int, vol.step@[axis] as int);
    assert(n * s >= 1) by (nonlinear_arith)
        requires
            n >= 1,
            s >= 1,
    ;
    assert(s == 1 ==> n * s == n) by (nonlinear_arith);
}

/// The place of an element leads back to it.
proof fn lemma_cell(vol: Volume, x: int, y: int, z: int)
    requires
        vol.wf(),
        vol.inside(x, y, z),
    ensures
        lattice(vol).ix(vol.place(x, y, z)) == x,
        lattice(vol).iy(vol.place(x, y, z)) == y,
        lattice(vol).iz(vol.place(x, y, z)) == z,
{
    vol.lemma_place(x, y, z);
    let sx = vol.size@[0] as int;
    vstd::arithmetic::div_mod::lemma_fundamental_div_mod_converse(x + z * sx, sx, z, x);
}

/// Every place is that of its element.
proof fn lemma_position(vol: Volume, i: int)
    requires
        vol.wf(),
        0 <= i < vol.count(),
    ensures
        ({
            let v = lattice(vol);
            &&& vol.inside(v.ix(i), v.iy(i), v.iz(i))
            &&& vol.place(v.ix(i), v.iy(i), v.iz(i)) == i
        }),
{
    let v = lattice(vol);
    let col = i / v.sy;
    vstd::arithmetic::div_mod::lemma_fundamental_div_mod(i, v.sy);
    vstd::arithmetic::div_mod::lemma_fundamental_div_mod(col, v.sx);
    assert(v.sx * v.sy * v.sz == (v.sx * v.sz) * v.sy) by (nonlinear_arith);
    assert(0 <= col < v.sx * v.sz) by (nonlinear_arith)
        requires
            i == v.sy * col + i % v.sy,
            0 <= i % v.sy < v.sy,
            0 <= i < (v.sx * v.sz) * v.sy,
    ;
    let iz = col / v.sx;
    assert(0 <= iz < v.sz) by (nonlinear_arith)
        requires
            col == v.sx * iz + col % v.sx,
            0 <= col % v.sx < v.sx,
            0 <= col < v.sx * v.sz,
    ;
    assert((col % v.sx + iz * v.sx) * v.sy == v.sy * col) by (nonlinear_arith)
        requires
            col == v.sx * iz + col % v.sx,
    ;
}

/// Minus zero.
pub const MINUS_ZERO_32: u32 = 0x8000_0000;

/// Adding nothing to a sum leaves it, no sum that starts at zero is minus
/// zero, and a part of nothing is nothing.
pub open spec fn adds_plainly<F: Fn(Ask) -> u64>(f: F) -> bool {
    &&& low(f, Ask::Add32(0, 0)) == 0
    &&& forall|a: u32, b: u32| #![trigger low(f, Ask::Add32(a, b))]
        a != MINUS_ZERO_32 ==> low(f, Ask::Add32(a, b)) != MINUS_ZERO_32 && low(f, Ask::Add32(low(f, Ask::Add32(a, b)), 0)) == low(
            f, Ask::Add32(a, b))
    &&& low(f, Ask::Mul32(0, EIGHT_TENTHS_32)) == 0
    &&& low(f, Ask::Mul32(0, FOUR_TENTHS_32)) == 0
}

/// One of three distances is more than twelve blocks.
pub open spec fn beyond_twelve(dx: int, dy: int, dz: int) -> bool {
    dx > 12 || dy > 12 || dy < -12 || dz > 12
}

/// More than twelve blocks away nothing is buried, neither by whole nor by
/// half distances.
pub open spec fn buries_nearby<F: Fn(Ask) -> u64>(f: F) -> bool {
    forall|dx: int, dy: int, dz: int| #![trigger halved(f, dx), halved(f, dy), halved(f, dz)]
        0 <= dx <= 0x7fff_ffff && -0x7fff_ffff <= dy <= 0x7fff_ffff && 0 <= dz <= 0x7fff_ffff && beyond_twelve(dx, dy, dz) ==> {
            &&& buried(f, halved(f, dx), halved(f, dy), halved(f, dz)) == 0
            &&& buried(f, low(f, Ask::FromInt32(wrapped(dx))), halved(f, dy), low(f, Ask::FromInt32(wrapped(dz)))) == 0
        }
}

/// A coordinate whose distances fit 32 bits.
pub open spec fn moderate(v: int) -> bool {
    -0x2000_0000 <= v <= 0x2000_0000
}

impl Beardifier {
    /// Pieces whose distances fit 32 bits.
    pub open spec fn moderate(self) -> bool {
        &&& forall|m: int|
            0 <= m < self.rigids@.len() ==> moderate((#[trigger] self.rigids@[m]).min@[0] as int) && moderate(
                self.rigids@[m].min@[1] as int) && moderate(self.rigids@[m].min@[2] as int) && moderate(
                self.rigids@[m].max@[0] as int) && moderate(self.rigids@[m].max@[1] as int) && moderate(
                self.rigids@[m].max@[2] as int) && moderate(self.rigids@[m].ground())
    }

    /// A piece adds nothing beyond its reach.
    proof fn lemma_out_of_reach<F: Fn(Ask) -> u64>(self, f: F, m: int, x: int, y: int, z: int)
        requires
            adds_plainly(f),
            buries_nearby(f),
            self.moderate(),
            moderate(x) && moderate(y) && moderate(z),
            0 <= m < self.pieces(),
            (m < self.rigids@.len() && self.rigids@[m].adjustment is Nothing) || !self.reach_of(m).holds_cell(x, y, z),
        ensures
            self.piece(f, m, x, y, z) == 0,
    {
        if m < self.rigids@.len() {
            let r = self.rigids@[m];
            let dx = outside(x, r.min@[0] as int, r.max@[0] as int);
            let dz = outside(z, r.min@[2] as int, r.max@[2] as int);
            let over = y - r.ground();
            match r.adjustment {
                Adjustment::Nothing => {},
                Adjustment::Bury => {
                    assert(beyond_twelve(dx, over, dz));
                    let h = (halved(f, dx), halved(f, over), halved(f, dz));
                },
                Adjustment::BeardThin => {
                    assert(bearded(f, dx, over, dz, over) == 0);
                },
                Adjustment::BeardBox => {
                    let dy = outside(y, r.ground(), r.max@[1] as int);
                    assert(bearded(f, dx, dy, dz, over) == 0);
                },
                Adjustment::Encapsulate => {
                    let dy = outside(y, r.min@[1] as int, r.max@[1] as int);
                    assert(beyond_twelve(dx, dy, dz));
                    let h = (halved(f, dx), halved(f, dy), halved(f, dz));
                },
            }
        } else {
            let j = self.junctions@[m - self.rigids@.len()];
            assert(bearded(f, x - j.x, y - j.ground_y, z - j.z, y - j.ground_y) == 0);
        }
    }

    /// A sum of pieces is never minus zero, and adding nothing leaves it.
    proof fn lemma_sum<F: Fn(Ask) -> u64>(self, f: F, x: int, y: int, z: int, n: nat)
        requires
            adds_plainly(f),
        ensures
            self.sum(f, x, y, z, n) != MINUS_ZERO_32,
            low(f, Ask::Add32(self.sum(f, x, y, z, n), 0)) == self.sum(f, x, y, z, n),
        decreases n,
    {
        if n > 0 {
            self.lemma_sum(f, x, y, z, (n - 1) as nat);
        }
    }

    proof fn lemma_element<F: Fn(Ask) -> u64>(self, f: F, vol: Volume, i: int, n: nat)
        requires
            adds_plainly(f),
            buries_nearby(f),
            self.moderate(),
            vol.fits(),
            vol.step@ == seq![1i32, 1i32, 1i32],
            0 <= i < vol.count(),
            n <= self.pieces(),
            ({
                let v = lattice(vol);
                let (x, y, z) = (v.x + v.ix(i), v.y + v.iy(i), v.z + v.iz(i));
                self.affects(x, y, z) && moderate(x) && moderate(y) && moderate(z)
            }),
        ensures
            ({
                let v = lattice(vol);
                self.element(f, vol, i, n) == self.sum(f, v.x + v.ix(i), v.y + v.iy(i), v.z + v.iz(i), n)
            }),
        decreases n,
    {
        if n > 0 {
            self.lemma_element(f, vol, i, (n - 1) as nat);
            let v = lattice(vol);
            let (x, y, z) = (v.x + v.ix(i), v.y + v.iy(i), v.z + v.iz(i));
            self.lemma_sum(f, x, y, z, (n - 1) as nat);
            crate::dfsample::lemma_index(v, i);
            lemma_last(vol, 0);
            lemma_last(vol, 1);
            lemma_last(vol, 2);
            let e = self.cut(vol, self.reach_of(n - 1));
            assert(e.holds_cell(v.ix(i), v.iy(i), v.iz(i)) <==> self.reach_of(n - 1).holds_cell(x, y, z));
            let walked = self.part(vol, n - 1) matches Some(p) && p.holds_cell(v.ix(i), v.iy(i), v.iz(i));
            if !walked {
                self.lemma_out_of_reach(f, n - 1, x, y, z);
            }
        }
    }

    proof fn lemma_unaffected<F: Fn(Ask) -> u64>(self, f: F, vol: Volume, i: int, n: nat)
        requires
            vol.fits(),
            0 <= i < vol.count(),
            ({
                let v = lattice(vol);
                !self.affects(v.x + v.ix(i), v.y + v.iy(i), v.z + v.iz(i))
            }),
        ensures
            self.element(f, vol, i, n) == 0,
        decreases n,
    {
        if n > 0 {
            self.lemma_unaffected(f, vol, i, (n - 1) as nat);
        }
    }
}

/// A volume that is walked piece by piece, each over the blocks that it
/// reaches, has at each block what a sample of all pieces gives there.
pub proof fn law_sparse_walk_is_the_dense_sample<F: Fn(Ask) -> u64>(f: F, b: Beardifier, vol: Volume, i: int)
    requires
        adds_plainly(f),
        buries_nearby(f),
        b.moderate(),
        vol.fits(),
        vol.step@ == seq![1i32, 1i32, 1i32],
        0 <= i < vol.count(),
        ({
            let v = lattice(vol);
            moderate(v.x + v.ix(i)) && moderate(v.y + v.iy(i)) && moderate(v.z + v.iz(i))
        }),
    ensures
        ({
            let v = lattice(vol);
            let (x, y, z) = (v.x + v.ix(i), v.y + v.iy(i), v.z + v.iz(i));
            b.element(f, vol, i, b.pieces()) == (if b.affects(x, y, z) { b.sum(f, x, y, z, b.pieces()) } else { 0 })
        }),
{
    let v = lattice(vol);
    if b.affects(v.x + v.ix(i), v.y + v.iy(i), v.z + v.iz(i)) {
        b.lemma_element(f, vol, i, b.pieces());
    } else {
        b.lemma_unaffected(f, vol, i, b.pieces());
    }
}

} // verus!
