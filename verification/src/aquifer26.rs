//! Aquifers: whether a block that is not solid is air, water, lava, or,
//! because of a pressure barrier, the default block after all.
//!
//! One instance per chunk column. Density functions are sampled along the
//! point path.

use std::collections::HashMap;
use std::sync::Arc;
use vstd::prelude::*;
use crate::arith::{
    answers, clamp64, clamped64, holds, low, reply, Ask, HALF, MINUS_ONE, ONE, THREE, THREE_HALVES, TWO, ZERO,
};
use crate::chunkmap::ChunkMap;
use crate::df26::{
    adopted, affordable, evaluated, floor_parts, forgetful, lattice, on_axis, sampled, sound, wrap, wrapped, Lattice, Mode, Node, Points, Slab,
};
use crate::dfcache::{agrees, fresh, inner, law_cache_is_neutral, truthful, value_at};
use crate::dfeval::{PointCache, SampleCtx};
use crate::dfmodel::{func_of, funcs_of, lemma_agrees_grows, lemma_funcs, Func};
use crate::dfrewrite::{lemma_funcs_prefix, share, SliceUniformAxes};
use crate::dfsample::steps;
use crate::json::{tree, Json, LoadError, Tree};
use crate::load::Reading;
use crate::loader::{root_read, Loader};
use crate::volume::{floor_div, Volume};
use crate::xoroshiro::{drawn, XoroshiroPositionalRandomFactory, TRIES};

verus! {

/// Far below the world.
pub const WAY_BELOW_MIN_Y: i32 = -32512;

/// Numbers the rules use: 25, 64, 0.3, -0.3, 0.4, 0.8, -0.8, -2, 2.5, 10
/// and ten as a single.
pub const TWENTY_FIVE: u64 = 0x4039_0000_0000_0000;

pub const SIXTY_FOUR: u64 = 0x4050_0000_0000_0000;

pub const THREE_TENTHS: u64 = 0x3FD3_3333_3333_3333;

pub const MINUS_THREE_TENTHS: u64 = 0xBFD3_3333_3333_3333;

pub const FOUR_TENTHS: u64 = 0x3FD9_9999_9999_999A;

pub const EIGHT_TENTHS: u64 = 0x3FE9_9999_9999_999A;

pub const MINUS_EIGHT_TENTHS: u64 = 0xBFE9_9999_9999_999A;

pub const MINUS_TWO: u64 = 0xC000_0000_0000_0000;

pub const FIVE_HALVES: u64 = 0x4004_0000_0000_0000;

pub const TEN: u64 = 0x4024_0000_0000_0000;

pub const TEN_32: u32 = 0x4120_0000;

#[derive(Clone, Copy, Debug, PartialEq, Eq, Structural)]
pub enum Fluid {
    Air,
    Water,
    Lava,
}

/// What a block position becomes: none is the default block.
#[derive(Clone, Copy, Debug, PartialEq, Eq, Structural)]
pub enum Substance {
    Air,
    Water,
    Lava,
}

impl Substance {
    pub open spec fn id(s: Option<Substance>) -> u8 {
        match s {
            None => 0,
            Some(Substance::Air) => 1,
            Some(Substance::Water) => 2,
            Some(Substance::Lava) => 3,
        }
    }

    /// The number that stands for a substance (0 is the default block).
    pub fn oracle_id(s: Option<Substance>) -> (r: u8)
        ensures
            r == Substance::id(s),
    {
        match s {
            None => 0,
            Some(Substance::Air) => 1,
            Some(Substance::Water) => 2,
            Some(Substance::Lava) => 3,
        }
    }
}

/// The substance of a fluid.
pub open spec fn as_substance(f: Fluid) -> Substance {
    match f {
        Fluid::Air => Substance::Air,
        Fluid::Water => Substance::Water,
        Fluid::Lava => Substance::Lava,
    }
}

fn fluid_to_substance(f: Fluid) -> (r: Substance)
    ensures
        r == as_substance(f),
{
    match f {
        Fluid::Air => Substance::Air,
        Fluid::Water => Substance::Water,
        Fluid::Lava => Substance::Lava,
    }
}

/// A fluid up to a level.
#[derive(Clone, Copy, Debug, PartialEq, Eq, Structural)]
pub struct FluidStatus {
    pub level: i32,
    pub fluid: Fluid,
}

impl FluidStatus {
    pub open spec fn fluid_at(self, y: int) -> Fluid {
        if y < self.level { self.fluid } else { Fluid::Air }
    }

    /// The fluid at a height.
    pub fn at(self, y: i32) -> (r: Fluid)
        ensures
            r == self.fluid_at(y as int),
    {
        if y < self.level { self.fluid } else { Fluid::Air }
    }
}

/// The fluid of the whole world: lava in the depths, the sea above.
#[derive(Clone, Copy, Debug)]
pub struct FluidPicker {
    pub sea_level: i32,
    pub sea_fluid: Fluid,
}

impl FluidPicker {
    pub open spec fn picked(self, y: int) -> FluidStatus {
        if y < -54 && y < self.sea_level {
            FluidStatus { level: -54i32, fluid: Fluid::Lava }
        } else {
            FluidStatus { level: self.sea_level, fluid: self.sea_fluid }
        }
    }

    pub fn compute_fluid(&self, _x: i32, y: i32, _z: i32) -> (r: FluidStatus)
        ensures
            r == self.picked(y as int),
    {
        self.pick(y as i64)
    }

    fn pick(&self, y: i64) -> (r: FluidStatus)
        ensures
            r == self.picked(y as int),
    {
        if y < -54 && y < self.sea_level as i64 {
            FluidStatus { level: -54i32, fluid: Fluid::Lava }
        } else {
            FluidStatus { level: self.sea_level, fluid: self.sea_fluid }
        }
    }
}

/// The six density functions that aquifers read.
pub struct AquiferConfig {
    pub barrier: Arc<Node>,
    pub floodedness: Arc<Node>,
    pub spread: Arc<Node>,
    pub lava: Arc<Node>,
    pub exclusion: Arc<Node>,
    pub surface_level: Arc<Node>,
}

/// The functions can be evaluated, and caches with the same id hold the
/// same input.
pub open spec fn coherent(c: AquiferConfig, inputs: Map<usize, Node>) -> bool {
    &&& sound(*c.barrier) && agrees(*c.barrier, inputs)
    &&& sound(*c.floodedness) && agrees(*c.floodedness, inputs)
    &&& sound(*c.spread) && agrees(*c.spread, inputs)
    &&& sound(*c.lava) && agrees(*c.lava, inputs)
    &&& sound(*c.exclusion) && agrees(*c.exclusion, inputs)
    &&& sound(*c.surface_level) && agrees(*c.surface_level, inputs)
}

/// Where a computation of substances ended, for sizing the per-block work.
#[derive(Debug, Clone, Copy)]
pub struct AquiferCounters {
    /// Calls that reached the twelve-cell search.
    pub deep: usize,
    /// Deep calls that returned after the search without a pressure test.
    pub near_exit: usize,
    /// Barrier noise point samples.
    pub barrier_samples: usize,
    /// Aquifer cell statuses computed.
    pub status_computes: usize,
}

/// Everything that decides about a column's fluids.
pub ghost struct Waters {
    pub config: AquiferConfig,
    pub factory: XoroshiroPositionalRandomFactory,
    pub picker: FluidPicker,
    /// Surface levels sampled over the column's surroundings.
    pub sampled: Map<(i32, i32), i32>,
    /// Volumes that point samples may be answered from.
    pub slabs: Seq<Slab>,
    /// Above it every block that is not solid is the world's fluid.
    pub skip_above: int,
}

/// A cache over the volumes, without values.
pub open spec fn unasked(w: Waters) -> Points {
    Points { enabled: true, entries: Map::empty(), slabs: w.slabs }
}

/// A function's value at a block.
pub open spec fn asked<F: Fn(Ask) -> u64>(f: F, w: Waters, n: Node, x: i32, y: i32, z: i32) -> u32 {
    value_at(f, n, x, y, z, unasked(w))
}

/// A value's floor as an integer.
pub open spec fn floored<F: Fn(Ask) -> u64>(f: F, v: u32) -> i32 {
    reply(f, Ask::ToInt64(reply(f, Ask::Floor64(reply(f, Ask::Widen(v)))))) as i32
}

/// A block's quart corner.
pub open spec fn quart(v: int) -> i32 {
    wrapped((v / 4) * 4)
}

/// The surface level at a block column.
#[verifier::opaque]
pub open spec fn surface_of<F: Fn(Ask) -> u64>(f: F, w: Waters, x: i32, z: i32) -> i32 {
    let (qx, qz) = (quart(x as int), quart(z as int));
    if w.sampled.contains_key((qx, qz)) {
        w.sampled[(qx, qz)]
    } else {
        floored(f, asked(f, w, *w.config.surface_level, qx, 0, qz))
    }
}

/// The chunks around a cell whose surface counts, its own first.
pub open spec fn offset_x(i: int) -> int {
    if i == 1 || i == 6 || i == 9 {
        -2
    } else if i == 2 || i == 7 || i == 10 {
        -1
    } else if i == 4 || i == 8 || i == 12 {
        1
    } else if i == 5 {
        -3
    } else {
        0
    }
}

pub open spec fn offset_z(i: int) -> int {
    if 1 <= i <= 4 { -1 } else if 9 <= i <= 12 { 1 } else { 0 }
}

/// The walk over the surfaces around a cell.
pub ghost struct Look {
    /// The status is settled.
    pub settled: Option<FluidStatus>,
    pub lowest: i32,
    pub center_under_global: bool,
}

/// The walk over the first `n` surfaces.
pub open spec fn looked<F: Fn(Ask) -> u64>(f: F, w: Waters, x: i32, y: i32, z: i32, n: nat) -> Look
    decreases n,
{
    if n == 0 {
        Look { settled: None, lowest: i32::MAX, center_under_global: false }
    } else {
        let before = looked(f, w, x, y, z, (n - 1) as nat);
        if before.settled is Some {
            before
        } else {
            let i = n - 1;
            let surface = surface_of(f, w, wrapped(x + offset_x(i) * 16), wrapped(z + offset_z(i) * 16));
            let adjusted = surface + 8;
            let start = i == 0;
            let above = y + 12 > adjusted;
            let there = w.picker.picked(adjusted);
            let wet = (above || start) && !(there.fluid_at(adjusted) is Air);
            let lowest = if surface < before.lowest { surface } else { before.lowest };
            if start && y - 12 > adjusted {
                Look { settled: Some(w.picker.picked(y as int)), ..before }
            } else if wet && above {
                Look { settled: Some(there), ..before }
            } else {
                Look { settled: None, lowest, center_under_global: before.center_under_global || (wet && start) }
            }
        }
    }
}

/// A number mapped from one range to another.
pub open spec fn ranged<F: Fn(Ask) -> u64>(f: F, v: u64, from_min: u64, from_max: u64, to_min: u64, to_max: u64) -> u64 {
    let t = reply(f, Ask::Div64(reply(f, Ask::Sub64(v, from_min)), reply(f, Ask::Sub64(from_max, from_min))));
    reply(f, Ask::Add64(to_min, reply(f, Ask::Mul64(t, reply(f, Ask::Sub64(to_max, to_min))))))
}

/// A number mapped from one range to another and held there.
pub open spec fn held_range<F: Fn(Ask) -> u64>(f: F, v: u64, from_min: u64, from_max: u64, to_min: u64, to_max: u64) -> u64 {
    let t = reply(f, Ask::Div64(reply(f, Ask::Sub64(v, from_min)), reply(f, Ask::Sub64(from_max, from_min))));
    if holds(f, Ask::Less64(t, ZERO)) {
        to_min
    } else if holds(f, Ask::Less64(ONE, t)) {
        to_max
    } else {
        reply(f, Ask::Add64(to_min, reply(f, Ask::Mul64(t, reply(f, Ask::Sub64(to_max, to_min))))))
    }
}

/// A number mapped from one range to another.
pub fn map_range<F: Fn(Ask) -> u64>(f: &F, v: u64, from_min: u64, from_max: u64, to_min: u64, to_max: u64) -> (r: u64)
    requires
        answers(*f),
    ensures
        r == ranged(*f, v, from_min, from_max, to_min, to_max),
{
    let a: u64 = f(Ask::Sub64(v, from_min));
    let b: u64 = f(Ask::Sub64(from_max, from_min));
    let t: u64 = f(Ask::Div64(a, b));
    let d: u64 = f(Ask::Sub64(to_max, to_min));
    let m: u64 = f(Ask::Mul64(t, d));
    f(Ask::Add64(to_min, m))
}

/// A number mapped from one range to another and held there.
pub fn clamped_map<F: Fn(Ask) -> u64>(f: &F, v: u64, from_min: u64, from_max: u64, to_min: u64, to_max: u64) -> (r: u64)
    requires
        answers(*f),
    ensures
        r == held_range(*f, v, from_min, from_max, to_min, to_max),
{
    let a: u64 = f(Ask::Sub64(v, from_min));
    let b: u64 = f(Ask::Sub64(from_max, from_min));
    let t: u64 = f(Ask::Div64(a, b));
    if f(Ask::Less64(t, ZERO)) != 0 {
        to_min
    } else if f(Ask::Less64(ONE, t)) != 0 {
        to_max
    } else {
        let d: u64 = f(Ask::Sub64(to_max, to_min));
        let m: u64 = f(Ask::Mul64(t, d));
        f(Ask::Add64(to_min, m))
    }
}

/// How flooded a cell is, against the thresholds for partly and fully.
pub open spec fn flooding<F: Fn(Ask) -> u64>(
    f: F, w: Waters, x: i32, y: i32, z: i32, lowest: i32, under: bool,
) -> (u64, u64) {
    if holds(f, Ask::Less32(0, asked(f, w, *w.config.exclusion, x, y, z))) {
        (MINUS_ONE, MINUS_ONE)
    } else {
        let below = wrapped(lowest + 8 - y);
        let factor = if under {
            held_range(f, reply(f, Ask::FromInt64(below)), ZERO, SIXTY_FOUR, ONE, ZERO)
        } else {
            ZERO
        };
        let noise = clamped64(
            f, reply(f, Ask::Widen(asked(f, w, *w.config.floodedness, x, y, z))), MINUS_ONE, ONE);
        (
            reply(f, Ask::Sub64(noise, ranged(f, factor, ONE, ZERO, MINUS_EIGHT_TENTHS, FOUR_TENTHS))),
            reply(f, Ask::Sub64(noise, ranged(f, factor, ONE, ZERO, MINUS_THREE_TENTHS, EIGHT_TENTHS))),
        )
    }
}

/// A level of its own for a partly flooded cell.
pub open spec fn spread_level<F: Fn(Ask) -> u64>(f: F, w: Waters, x: i32, y: i32, z: i32, lowest: i32) -> i32 {
    let (cx, cy, cz) = ((x as int / 16) as i32, (y as int / 40) as i32, (z as int / 16) as i32);
    let spread = low(f, Ask::Mul32(asked(f, w, *w.config.spread, cx, cy, cz), TEN_32));
    let steps = reply(
        f, Ask::ToInt64(reply(f, Ask::Floor64(reply(f, Ask::Div64(reply(f, Ask::Widen(spread)), THREE)))))) as i32;
    let level = wrapped(cy * 40 + 20 + steps * 3);
    if lowest < level { lowest } else { level }
}

/// The level of a cell.
pub open spec fn cell_level<F: Fn(Ask) -> u64>(
    f: F, w: Waters, x: i32, y: i32, z: i32, global: FluidStatus, lowest: i32, under: bool,
) -> i32 {
    let (partly, fully) = flooding(f, w, x, y, z, lowest, under);
    if holds(f, Ask::Less64(ZERO, fully)) {
        global.level
    } else if holds(f, Ask::Less64(ZERO, partly)) {
        spread_level(f, w, x, y, z, lowest)
    } else {
        WAY_BELOW_MIN_Y
    }
}

/// The fluid of a cell: deep ones may hold lava.
pub open spec fn cell_fluid<F: Fn(Ask) -> u64>(f: F, w: Waters, x: i32, y: i32, z: i32, global: FluidStatus, level: i32) -> Fluid {
    if level <= -10 && level != WAY_BELOW_MIN_Y && !(global.fluid is Lava) {
        let v = asked(f, w, *w.config.lava, (x as int / 64) as i32, (y as int / 40) as i32, (z as int / 64) as i32);
        if holds(f, Ask::Less64(THREE_TENTHS, reply(f, Ask::Abs64(reply(f, Ask::Widen(v)))))) {
            Fluid::Lava
        } else {
            global.fluid
        }
    } else {
        global.fluid
    }
}

/// The status of a cell at its location.
#[verifier::opaque]
pub open spec fn status_at<F: Fn(Ask) -> u64>(f: F, w: Waters, x: i32, y: i32, z: i32) -> FluidStatus {
    let look = looked(f, w, x, y, z, 13);
    match look.settled {
        Some(s) => s,
        None => {
            let global = w.picker.picked(y as int);
            let level = cell_level(f, w, x, y, z, global, look.lowest, look.center_under_global);
            FluidStatus { level, fluid: cell_fluid(f, w, x, y, z, global, level) }
        },
    }
}

/// Where a cell's centre lies: drawn by its grid position.
#[verifier::opaque]
pub open spec fn location(w: Waters, gx: i32, gy: i32, gz: i32) -> (i32, i32, i32) {
    let (a, g) = drawn(w.factory.generator(gx, gy, gz), 10, TRIES as nat);
    let (b, h) = drawn(g, 9, TRIES as nat);
    let (c, _) = drawn(h, 10, TRIES as nat);
    (wrapped(gx * 16 + a), wrapped(gy * 12 + b), wrapped(gz * 16 + c))
}

/// The grid cell of a block along x or z, and along y.
pub open spec fn grid_of(v: int) -> int {
    v / 16
}

pub open spec fn grid_row(v: int) -> int {
    v / 12
}

/// The grid position of the `k`-th of the twelve cells around an anchor.
pub open spec fn cell_around(anchor: (int, int, int), k: int) -> (i32, i32, i32) {
    ((anchor.0 + k / 6) as i32, (anchor.1 + (k / 2) % 3 - 1) as i32, (anchor.2 + k % 2) as i32)
}

/// The anchor of a block.
pub open spec fn anchor_of(x: int, y: int, z: int) -> (int, int, int) {
    (grid_of(x - 5), grid_row(y + 1), grid_of(z - 5))
}

/// The square of the distance from a block to a cell's centre.
pub open spec fn cell_distance(l: (i32, i32, i32), x: int, y: int, z: int) -> int {
    (l.0 - x) * (l.0 - x) + (l.2 - z) * (l.2 - z) + (l.1 - y) * (l.1 - y)
}

/// The sort key of the `k`-th cell: by distance, the later of equals first.
#[verifier::opaque]
pub open spec fn cell_key(w: Waters, x: int, y: int, z: int, k: int) -> int {
    let (gx, gy, gz) = cell_around(anchor_of(x, y, z), k);
    cell_distance(location(w, gx, gy, gz), x, y, z) * 16 + (11 - k)
}

/// The four smallest keys, ascending.
pub ghost struct Nearest {
    pub a: int,
    pub b: int,
    pub c: int,
    pub d: int,
}

impl Nearest {
    /// With one more key.
    pub open spec fn with(self, k: int) -> Nearest {
        if k < self.a {
            Nearest { a: k, b: self.a, c: self.b, d: self.c }
        } else if k < self.b {
            Nearest { a: self.a, b: k, c: self.b, d: self.c }
        } else if k < self.c {
            Nearest { a: self.a, b: self.b, c: k, d: self.c }
        } else if k < self.d {
            Nearest { a: self.a, b: self.b, c: self.c, d: k }
        } else {
            self
        }
    }
}

/// More than any key.
pub const NO_KEY: u128 = 0xffff_ffff_ffff_ffff_ffff_ffff_ffff_ffff;

/// The four nearest of the first `n` cells.
pub open spec fn nearest_of(w: Waters, x: int, y: int, z: int, n: nat) -> Nearest
    decreases n,
{
    if n == 0 {
        Nearest { a: NO_KEY as int, b: NO_KEY as int, c: NO_KEY as int, d: NO_KEY as int }
    } else {
        nearest_of(w, x, y, z, (n - 1) as nat).with(cell_key(w, x, y, z, n - 1))
    }
}

/// The distance that a key stands for.
pub open spec fn key_distance(key: int) -> i32 {
    wrapped(key / 16)
}

/// The status of the cell that a key stands for.
#[verifier::opaque]
pub open spec fn key_status<F: Fn(Ask) -> u64>(f: F, w: Waters, x: int, y: int, z: int, key: int) -> FluidStatus {
    let (gx, gy, gz) = cell_around(anchor_of(x, y, z), 11 - key % 16);
    let l = location(w, gx, gy, gz);
    status_at(f, w, l.0, l.1, l.2)
}

/// How alike two distances are: one when equal, nothing at 25 apart.
#[verifier::opaque]
pub open spec fn alike<F: Fn(Ask) -> u64>(f: F, d1: i32, d2: i32) -> u64 {
    reply(f, Ask::Sub64(ONE, reply(f, Ask::Div64(reply(f, Ask::FromInt64(wrapped(d2 - d1))), TWENTY_FIVE))))
}

/// How alike two distances are.
pub fn similarity<F: Fn(Ask) -> u64>(f: &F, d1: i32, d2: i32) -> (r: u64)
    requires
        answers(*f),
    ensures
        r == alike(*f, d1, d2),
{
    proof {
        reveal(alike);
    }
    let d: u64 = f(Ask::FromInt64(wrap(d2 as i128 - d1 as i128)));
    let q: u64 = f(Ask::Div64(d, TWENTY_FIVE));
    f(Ask::Sub64(ONE, q))
}

/// The gradient of pressure between two levels at a height.
pub open spec fn pressure_gradient<F: Fn(Ask) -> u64>(f: F, y: i32, l1: i32, l2: i32) -> u64 {
    let diff = if l1 < l2 { l2 - l1 } else { l1 - l2 };
    let average = reply(f, Ask::Mul64(HALF, reply(f, Ask::FromInt64(wrapped(l1 + l2)))));
    let above = reply(f, Ask::Sub64(reply(f, Ask::Add64(reply(f, Ask::FromInt64(y)), HALF)), average));
    let base = reply(f, Ask::Div64(reply(f, Ask::FromInt64(wrapped(diff))), TWO));
    let inward = reply(f, Ask::Sub64(base, reply(f, Ask::Abs64(above))));
    if holds(f, Ask::Less64(ZERO, above)) {
        let c = reply(f, Ask::Add64(ZERO, inward));
        reply(f, Ask::Div64(c, if holds(f, Ask::Less64(ZERO, c)) { THREE_HALVES } else { FIVE_HALVES }))
    } else {
        let c = reply(f, Ask::Add64(THREE, inward));
        reply(f, Ask::Div64(c, if holds(f, Ask::Less64(ZERO, c)) { THREE } else { TEN }))
    }
}

/// The pressure between two cells at a block; the barrier noise counts
/// where the gradient is gentle.
#[verifier::opaque]
pub open spec fn pressure_between<F: Fn(Ask) -> u64>(
    f: F, w: Waters, x: i32, y: i32, z: i32, s1: FluidStatus, s2: FluidStatus,
) -> u64 {
    let (t1, t2) = (s1.fluid_at(y as int), s2.fluid_at(y as int));
    if (t1 is Lava && t2 is Water) || (t1 is Water && t2 is Lava) {
        TWO
    } else if s1.level == s2.level {
        ZERO
    } else {
        let g = pressure_gradient(f, y, s1.level, s2.level);
        let noise = if !holds(f, Ask::Less64(g, MINUS_TWO)) && !holds(f, Ask::Less64(TWO, g)) {
            reply(f, Ask::Widen(asked(f, w, *w.config.barrier, x, y, z)))
        } else {
            ZERO
        };
        reply(f, Ask::Mul64(TWO, reply(f, Ask::Add64(noise, g))))
    }
}

/// The pressure between two cells at a height takes the barrier in.
pub open spec fn asks_barrier<F: Fn(Ask) -> u64>(f: F, y: i32, s1: FluidStatus, s2: FluidStatus) -> bool {
    let (t1, t2) = (s1.fluid_at(y as int), s2.fluid_at(y as int));
    let g = pressure_gradient(f, y, s1.level, s2.level);
    &&& !((t1 is Lava && t2 is Water) || (t1 is Water && t2 is Lava))
    &&& s1.level != s2.level
    &&& !holds(f, Ask::Less64(g, MINUS_TWO)) && !holds(f, Ask::Less64(TWO, g))
}

/// A barrier between two cells holds a block back.
pub open spec fn held_back<F: Fn(Ask) -> u64>(
    f: F, w: Waters, x: i32, y: i32, z: i32, density: u64, factor: u64, s1: FluidStatus, s2: FluidStatus,
) -> bool {
    let barrier = reply(f, Ask::Mul64(factor, pressure_between(f, w, x, y, z, s1, s2)));
    holds(f, Ask::Less64(ZERO, reply(f, Ask::Add64(density, barrier))))
}

/// What a block of some density becomes, and whether its fluid has to be
/// updated.
pub open spec fn substance_at<F: Fn(Ask) -> u64>(
    f: F, w: Waters, x: i32, y: i32, z: i32, density: u64,
) -> (Option<Substance>, bool) {
    let global = w.picker.picked(y as int);
    if holds(f, Ask::Less64(ZERO, density)) {
        (None, false)
    } else if y > w.skip_above {
        (Some(as_substance(global.fluid_at(y as int))), false)
    } else if global.fluid_at(y as int) is Lava {
        (Some(Substance::Lava), false)
    } else {
        deep_substance(f, w, x, y, z, density)
    }
}

/// What a block among the aquifers becomes.
#[verifier::opaque]
pub open spec fn deep_substance<F: Fn(Ask) -> u64>(
    f: F, w: Waters, x: i32, y: i32, z: i32, density: u64,
) -> (Option<Substance>, bool) {
    let near = nearest_of(w, x as int, y as int, z as int, 12);
    let (d1, d2, d3, d4) = (key_distance(near.a), key_distance(near.b), key_distance(near.c), key_distance(near.d));
    let flowing = alike(f, 100, 144);
    let sim12 = alike(f, d1, d2);
    let s1 = key_status(f, w, x as int, y as int, z as int, near.a);
    let s2 = key_status(f, w, x as int, y as int, z as int, near.b);
    let s3 = key_status(f, w, x as int, y as int, z as int, near.c);
    let s4 = key_status(f, w, x as int, y as int, z as int, near.d);
    let fluid = s1.fluid_at(y as int);
    let result = Some(as_substance(fluid));
    if holds(f, Ask::LessEq64(sim12, ZERO)) {
        (result, holds(f, Ask::LessEq64(flowing, sim12)) && s1 != s2)
    } else if fluid is Water && w.picker.picked(y - 1).fluid_at(y - 1) is Lava {
        (result, true)
    } else if held_back(f, w, x, y, z, density, sim12, s1, s2) {
        (None, false)
    } else {
        let sim13 = alike(f, d1, d3);
        let sim23 = alike(f, d2, d3);
        if holds(f, Ask::Less64(ZERO, sim13)) && held_back(
            f, w, x, y, z, density, reply(f, Ask::Mul64(sim12, sim13)), s1, s3) {
            (None, false)
        } else if holds(f, Ask::Less64(ZERO, sim23)) && held_back(
            f, w, x, y, z, density, reply(f, Ask::Mul64(sim12, sim23)), s2, s3) {
            (None, false)
        } else {
            let flow12 = s1 != s2;
            let flow23 = holds(f, Ask::LessEq64(flowing, sim23)) && s2 != s3;
            let flow13 = holds(f, Ask::LessEq64(flowing, sim13)) && s1 != s3;
            let flow14 = holds(f, Ask::LessEq64(flowing, sim13)) && holds(f, Ask::LessEq64(flowing, alike(f, d1, d4))) && s1 != s4;
            (result, flow12 || flow23 || flow13 || flow14)
        }
    }
}

/// A block is looked at among the aquifers.
pub open spec fn is_deep<F: Fn(Ask) -> u64>(f: F, w: Waters, y: i32, density: u64) -> bool {
    &&& !holds(f, Ask::Less64(ZERO, density))
    &&& y <= w.skip_above
    &&& !(w.picker.picked(y as int).fluid_at(y as int) is Lava)
}

/// The two nearest cells are so unlike that no pressure is tested.
#[verifier::opaque]
pub open spec fn exits_near<F: Fn(Ask) -> u64>(f: F, w: Waters, x: i32, y: i32, z: i32) -> bool {
    let near = nearest_of(w, x as int, y as int, z as int, 12);
    holds(f, Ask::LessEq64(alike(f, key_distance(near.a), key_distance(near.b)), ZERO))
}

/// The barrier is sampled for a block among the aquifers.
#[verifier::opaque]
pub open spec fn samples_barrier<F: Fn(Ask) -> u64>(f: F, w: Waters, x: i32, y: i32, z: i32, density: u64) -> bool {
    let near = nearest_of(w, x as int, y as int, z as int, 12);
    let (d1, d2, d3) = (key_distance(near.a), key_distance(near.b), key_distance(near.c));
    let (sim12, sim13, sim23) = (alike(f, d1, d2), alike(f, d1, d3), alike(f, d2, d3));
    let s1 = key_status(f, w, x as int, y as int, z as int, near.a);
    let s2 = key_status(f, w, x as int, y as int, z as int, near.b);
    let s3 = key_status(f, w, x as int, y as int, z as int, near.c);
    if holds(f, Ask::LessEq64(sim12, ZERO)) || (s1.fluid_at(y as int) is Water && w.picker.picked(y - 1).fluid_at(y - 1) is Lava) {
        false
    } else if held_back(f, w, x, y, z, density, sim12, s1, s2) {
        asks_barrier(f, y, s1, s2)
    } else {
        let third = holds(f, Ask::Less64(ZERO, sim13));
        asks_barrier(f, y, s1, s2) || (third && asks_barrier(f, y, s1, s3)) || (!(third && held_back(
            f, w, x, y, z, density, reply(f, Ask::Mul64(sim12, sim13)), s1, s3)) && holds(f, Ask::Less64(ZERO, sim23)) && asks_barrier(
            f, y, s2, s3))
    }
}

/// The meters after a block of some density.
pub open spec fn metered<F: Fn(Ask) -> u64>(
    f: F, w: Waters, x: i32, y: i32, z: i32, density: u64, m: (usize, usize, usize),
) -> (usize, usize, usize) {
    let deep = is_deep(f, w, y, density);
    (
        counted(m.0, deep),
        counted(m.1, deep && exits_near(f, w, x, y, z)),
        counted(m.2, deep && samples_barrier(f, w, x, y, z, density)),
    )
}

/// The lattice over which a column's surroundings are sampled: quarts
/// around the cells that its blocks look at.
pub open spec fn surroundings(vol: Volume) -> Lattice {
    let (x0, x1) = (grid_of(vol.min@[0] - 5) * 4, grid_of(vol.last_block(0) - 5) * 4 + 6);
    let (z0, z1) = (grid_of(vol.min@[2] - 5) * 4, grid_of(vol.last_block(2) - 5) * 4 + 6);
    Lattice { sx: x1 - x0 + 1, sy: 1, sz: z1 - z0 + 1, x: x0 * 4, y: 0, z: z0 * 4, tx: 4, ty: 1, tz: 4 }
}

/// Surface levels by block column, out of a sampled lattice.
pub open spec fn levels<F: Fn(Ask) -> u64>(f: F, v: Lattice, buf: Seq<u32>) -> Map<(i32, i32), i32> {
    Map::new(
        |p: (i32, i32)| on_axis(v.x, v.tx, v.sx, p.0 as int) && on_axis(v.z, v.tz, v.sz, p.1 as int),
        |p: (i32, i32)| floored(f, buf[v.place((p.0 - v.x) / v.tx, 0, (p.1 - v.z) / v.tz)]),
    )
}

/// The highest of the first `n` levels.
pub open spec fn highest<F: Fn(Ask) -> u64>(f: F, buf: Seq<u32>, n: nat) -> i32
    decreases n,
{
    if n == 0 {
        i32::MIN
    } else {
        let rest = highest(f, buf, (n - 1) as nat);
        let level = floored(f, buf[n - 1]);
        if level > rest { level } else { rest }
    }
}

/// The height above which no cell matters, below surfaces up to `top`.
pub open spec fn skip_level(top: int) -> i32 {
    wrapped(((top + 20) / 12 + 1) * 12 + 10)
}

/// What decides about a column's fluids.
pub open spec fn waters_of<F: Fn(Ask) -> u64>(
    f: F, config: AquiferConfig, factory: XoroshiroPositionalRandomFactory, vol: Volume, picker: FluidPicker,
) -> Waters {
    let v = surroundings(vol);
    let (buf, c) = sampled(f, *config.surface_level, v, Seq::empty());
    Waters {
        config,
        factory,
        picker,
        sampled: levels(f, v, buf),
        slabs: adopted(Seq::empty(), c, c.len()),
        skip_above: skip_level(highest(f, buf, buf.len()) as int) as int,
    }
}

/// A cell of the grid and where its centre lies.
#[derive(Clone, Copy)]
struct Cell {
    gx: i32,
    gy: i32,
    gz: i32,
    lx: i32,
    ly: i32,
    lz: i32,
}

impl Cell {
    spec fn placed(self, w: Waters) -> bool {
        location(w, self.gx, self.gy, self.gz) == (self.lx, self.ly, self.lz)
    }

    spec fn grid(self) -> (i32, i32, i32) {
        (self.gx, self.gy, self.gz)
    }

    spec fn number(self) -> int {
        cell_number(self.gx, self.gy, self.gz)
    }
}

/// What is known of a cell.
#[derive(Clone, Copy)]
struct Known {
    cell: Cell,
    status: Option<FluidStatus>,
}

impl Known {
    spec fn right<F: Fn(Ask) -> u64>(self, f: F, w: Waters) -> bool {
        &&& self.cell.placed(w)
        &&& (self.status matches Some(s) ==> s == status_at(f, w, self.cell.lx, self.cell.ly, self.cell.lz))
    }
}

/// One chunk column's aquifer state.
pub struct Aquifer {
    pub counters: AquiferCounters,
    config: AquiferConfig,
    factory: XoroshiroPositionalRandomFactory,
    picker: FluidPicker,
    known: HashMap<u128, Known>,
    surfaces: ChunkMap<i32>,
    skip_sampling_above_y: i32,
    pub should_schedule_fluid_update: bool,
    point_cache: PointCache,
    /// The twelve cells around the last anchor.
    cells: Vec<Cell>,
    anchor: (i64, i64, i64),
    world: Ghost<Waters>,
    inputs: Ghost<Map<usize, Node>>,
}

/// Division rounded down.
fn down(v: i64, m: i64) -> (r: i64)
    requires
        0 < m <= 64,
        -0x1_0000_0000_0000 <= v <= 0x1_0000_0000_0000,
    ensures
        r == v as int / m as int,
        -0x1_0000_0000_0000 <= r <= 0x1_0000_0000_0000,
{
    floor_parts(v, m).0
}

/// The grid cell of a block along x or z.
pub fn grid_x(b: i32) -> (r: i32)
    ensures
        r == grid_of(b as int),
{
    floor_div(b, 16)
}

/// The grid cell of a block along y.
pub fn grid_y(b: i32) -> (r: i32)
    ensures
        r == grid_row(b as int),
{
    floor_div(b, 12)
}

/// The offset of the `i`-th surface.
fn surface_offset(i: usize) -> (r: (i64, i64))
    requires
        i < 13,
    ensures
        r.0 == offset_x(i as int),
        r.1 == offset_z(i as int),
        -3 <= r.0 <= 1,
        -1 <= r.1 <= 1,
{
    let x: i64 = if i == 1 || i == 6 || i == 9 {
        -2
    } else if i == 2 || i == 7 || i == 10 {
        -1
    } else if i == 4 || i == 8 || i == 12 {
        1
    } else if i == 5 {
        -3
    } else {
        0
    };
    let z: i64 = if 1 <= i && i <= 4 {
        -1
    } else if 9 <= i && i <= 12 {
        1
    } else {
        0
    };
    (x, z)
}

/// A value's floor as an integer.
fn level_of<F: Fn(Ask) -> u64>(f: &F, v: u32) -> (r: i32)
    requires
        answers(*f),
    ensures
        r == floored(*f, v),
{
    let wide: u64 = f(Ask::Widen(v));
    let whole: u64 = f(Ask::Floor64(wide));
    f(Ask::ToInt64(whole)) as i32
}

/// A function's value at a block, through the point cache.
fn ask<F: Fn(Ask) -> u64>(
    node: &Node, x: i32, y: i32, z: i32, pc: &mut PointCache, f: &F, Ghost(w): Ghost<Waters>,
    Ghost(inputs): Ghost<Map<usize, Node>>,
) -> (r: u32)
    requires
        answers(*f),
        sound(*node),
        agrees(*node, inputs),
        old(pc).wf(),
        truthful(*f, old(pc)@, inputs),
        old(pc)@.slabs == w.slabs,
    ensures
        r == asked(*f, w, *node, x, y, z),
        final(pc).wf(),
        truthful(*f, final(pc)@, inputs),
        final(pc)@.slabs == w.slabs,
{
    let r: u32 = node.eval_with(x, y, z, Mode::Point, pc, f);
    proof {
        law_cache_is_neutral(*f, *node, x, y, z, old(pc)@, inputs);
        assert(fresh(old(pc)@) == fresh(unasked(w)));
    }
    r
}

/// A status that is settled stays settled.
proof fn lemma_settled<F: Fn(Ask) -> u64>(f: F, w: Waters, x: i32, y: i32, z: i32, n: nat, m: nat)
    requires
        n <= m,
        looked(f, w, x, y, z, n).settled is Some,
    ensures
        looked(f, w, x, y, z, m) == looked(f, w, x, y, z, n),
    decreases m,
{
    if n < m {
        lemma_settled(f, w, x, y, z, n, (m - 1) as nat);
    }
}

/// A number that a cell is found by.
pub open spec fn cell_number(gx: i32, gy: i32, gz: i32) -> int {
    (gx as u32) * 0x1_0000_0000_0000_0000 + (gy as u32) * 0x1_0000_0000 + (gz as u32)
}

fn number_of_cell(gx: i32, gy: i32, gz: i32) -> (r: u128)
    ensures
        r == cell_number(gx, gy, gz),
{
    (gx as u32 as u128) * 0x1_0000_0000_0000_0000 + (gy as u32 as u128) * 0x1_0000_0000 + (gz as u32 as u128)
}

/// Cells are told by their numbers.
proof fn lemma_cell_number(a: (i32, i32, i32), b: (i32, i32, i32))
    requires
        cell_number(a.0, a.1, a.2) == cell_number(b.0, b.1, b.2),
    ensures
        a == b,
{
    let (x, y) = (a.0 as u32, b.0 as u32);
    let (p, q) = (a.1 as u32, b.1 as u32);
    let (u, v) = (a.2 as u32, b.2 as u32);
    assert(x == y && p == q && u == v);
    lemma_as_unsigned(a.0);
    lemma_as_unsigned(b.0);
    lemma_as_unsigned(a.1);
    lemma_as_unsigned(b.1);
    lemma_as_unsigned(a.2);
    lemma_as_unsigned(b.2);
}

proof fn lemma_as_unsigned(v: i32)
    ensures
        (v as u32) as i32 == v,
{
    assert((v as u32) as i32 == v) by (bit_vector);
}

/// How many numbers a counter can show before it starts over.
pub open spec fn counter_range() -> int {
    usize::MAX + 1
}

/// A counter one further, if it counts.
pub open spec fn counted(n: usize, counts: bool) -> usize {
    if counts { n.wrapping_add(1) } else { n }
}

impl Aquifer {
    /// What decides about the column's fluids.
    pub closed spec fn waters(&self) -> Waters {
        self.world@
    }

    /// The numbers of the cells whose status is remembered.
    pub closed spec fn remembered(&self) -> Set<u128> {
        self.known@.dom().filter(|k: u128| self.known@[k].status is Some)
    }

    /// What was counted so far.
    pub closed spec fn counts(&self) -> AquiferCounters {
        self.counters
    }

    /// Calls that reached the search, those of them that ended after it, and
    /// samples of the barrier.
    pub open spec fn meters(&self) -> (usize, usize, usize) {
        (self.counts().deep, self.counts().near_exit, self.counts().barrier_samples)
    }

    /// Every remembered value is the one that would be computed, and the
    /// computed statuses are counted.
    #[verifier::opaque]
    pub closed spec fn wf<F: Fn(Ask) -> u64>(&self, f: F) -> bool {
        let w = self.world@;
        &&& w.config == self.config
        &&& w.factory == self.factory
        &&& w.picker == self.picker
        &&& w.skip_above == self.skip_sampling_above_y
        &&& coherent(self.config, self.inputs@)
        &&& self.point_cache.wf()
        &&& truthful(f, self.point_cache@, self.inputs@)
        &&& self.point_cache@.slabs == w.slabs
        &&& forall|p: (i32, i32)| #[trigger] w.sampled.contains_key(p) ==> self.surfaces@.contains_key(p)
        &&& forall|p: (i32, i32)| #[trigger]
            self.surfaces@.contains_key(p) ==> self.surfaces@[p] == (if w.sampled.contains_key(p) {
                w.sampled[p]
            } else {
                floored(f, asked(f, w, *w.config.surface_level, p.0, 0, p.1))
            })
        &&& forall|k: u128| #[trigger] self.known@.contains_key(k) ==> self.known@[k].right(f, w) && self.known@[k].cell.number() == k
        &&& self.counters.status_computes == self.remembered().len() as int % counter_range()
        &&& (self.cells@.len() == 0 || self.cells@.len() == 12)
        &&& self.cells@.len() == 12 ==> forall|k: int|
            0 <= k < 12 ==> (#[trigger] self.cells@[k]).placed(w) && self.cells@[k].grid() == cell_around(
                (self.anchor.0 as int, self.anchor.1 as int, self.anchor.2 as int), k)
    }

    /// Only what is remembered has changed.
    spec fn same(&self, o: &Aquifer) -> bool {
        &&& self.world@ == o.world@
        &&& self.cells == o.cells
        &&& self.anchor == o.anchor
        &&& self.should_schedule_fluid_update == o.should_schedule_fluid_update
        &&& self.meters() == o.meters()
        &&& o.remembered().subset_of(self.remembered())
    }

    /// Only what is remembered has changed, or a sample of the barrier was
    /// taken.
    spec fn same_but_barrier(&self, o: &Aquifer, sampled: bool) -> bool {
        &&& self.world@ == o.world@
        &&& self.cells == o.cells
        &&& self.anchor == o.anchor
        &&& self.should_schedule_fluid_update == o.should_schedule_fluid_update
        &&& self.meters() == (o.meters().0, o.meters().1, counted(o.meters().2, sampled))
        &&& o.remembered().subset_of(self.remembered())
    }

    /// What was counted stays.
    spec fn keeps_counts(&self, o: &Aquifer) -> bool {
        self.meters() == o.meters() && o.remembered().subset_of(self.remembered())
    }

    /// The fluid of the last block has to be updated.
    pub closed spec fn scheduled(&self) -> bool {
        self.should_schedule_fluid_update
    }

    /// The fluid of the last block has to be updated.
    pub fn update_scheduled(&self) -> (r: bool)
        ensures
            r == self.scheduled(),
    {
        self.should_schedule_fluid_update
    }

    /// What was counted so far.
    pub fn counters(&self) -> (r: AquiferCounters)
        ensures
            r == self.counts(),
    {
        self.counters
    }

    /// The height above which every block that is not solid is the world's
    /// fluid.
    pub fn skip_sampling_above_y<F: Fn(Ask) -> u64>(&self, f: &F) -> (r: i32)
        requires
            self.wf(*f),
        ensures
            r == self.waters().skip_above,
    {
        proof { reveal(Aquifer::wf); }
        self.skip_sampling_above_y
    }

    /// The surface level at a block column.
    fn surface_level<F: Fn(Ask) -> u64>(&mut self, x: i32, z: i32, f: &F) -> (r: i32)
        requires
            answers(*f),
            old(self).wf(*f),
        ensures
            final(self).wf(*f),
            final(self).same(old(self)),
            final(self).known == old(self).known,
            r == surface_of(*f, old(self).world@, x, z),
    {
        proof {
            reveal(surface_of);
        }
        proof { reveal(Aquifer::wf); }
        let qx: i32 = wrap(down(x as i64, 4) as i128 * 4);
        let qz: i32 = wrap(down(z as i64, 4) as i128 * 4);
        if let Some(v) = self.surfaces.get(qx, qz) {
            return *v;
        }
        let raw: u32 = ask(&*self.config.surface_level, qx, 0, qz, &mut self.point_cache, f, Ghost(self.world@), Ghost(self.inputs@));
        let v: i32 = level_of(f, raw);
        let ghost before = self.surfaces@;
        self.surfaces.insert(qx, qz, v);
        proof {
            assert(!self.world@.sampled.contains_key((qx, qz)));
        }
        v
    }

    /// The status of a cell at its location.
    fn compute_fluid<F: Fn(Ask) -> u64>(&mut self, x: i32, y: i32, z: i32, f: &F) -> (r: FluidStatus)
        requires
            answers(*f),
            old(self).wf(*f),
        ensures
            final(self).wf(*f),
            final(self).same(old(self)),
            final(self).known == old(self).known,
            r == status_at(*f, old(self).world@, x, y, z),
    {
        proof {
            reveal(status_at);
        }
        let ghost w = self.world@;
        let global = self.picked_at(y as i64, f);
        let mut lowest: i32 = i32::MAX;
        let mut under: bool = false;
        let mut i: usize = 0;
        while i < 13
            invariant
                i <= 13,
                answers(*f),
                self.wf(*f),
                self.same(old(self)),
                self.known == old(self).known,
                w == self.world@,
                global == w.picker.picked(y as int),
                looked(*f, w, x, y, z, i as nat) == (Look { settled: None, lowest, center_under_global: under }),
            decreases 13 - i,
        {
            let (ox, oz): (i64, i64) = surface_offset(i);
            let sx: i32 = wrap(x as i128 + ox as i128 * 16);
            let sz: i32 = wrap(z as i128 + oz as i128 * 16);
            let surface: i32 = self.surface_level(sx, sz, f);
            let adjusted: i64 = surface as i64 + 8;
            let start: bool = i == 0;
            i += 1;
            proof {
                reveal(status_at);
                if looked(*f, w, x, y, z, i as nat).settled is Some {
                    lemma_settled(*f, w, x, y, z, i as nat, 13);
                }
            }
            if start && y as i64 - 12 > adjusted {
                return global;
            }
            let above: bool = y as i64 + 12 > adjusted;
            if above || start {
                let there = self.picked_at(adjusted, f);
                if adjusted < there.level as i64 && there.fluid != Fluid::Air {
                    if start {
                        under = true;
                    }
                    if above {
                        return there;
                    }
                }
            }
            if surface < lowest {
                lowest = surface;
            }
        }
        let level: i32 = self.compute_surface_level(x, y, z, global, lowest, under, f);
        let fluid = self.compute_fluid_type(x, y, z, global, level, f);
        FluidStatus { level, fluid }
    }

    fn compute_surface_level<F: Fn(Ask) -> u64>(
        &mut self, x: i32, y: i32, z: i32, global: FluidStatus, lowest: i32, under: bool, f: &F,
    ) -> (r: i32)
        requires
            answers(*f),
            old(self).wf(*f),
        ensures
            final(self).wf(*f),
            final(self).same(old(self)),
            final(self).known == old(self).known,
            r == cell_level(*f, old(self).world@, x, y, z, global, lowest, under),
    {
        proof { reveal(Aquifer::wf); }
        let excluded: u32 = ask(&*self.config.exclusion, x, y, z, &mut self.point_cache, f, Ghost(self.world@), Ghost(self.inputs@));
        let (partly, fully): (u64, u64) = if f(Ask::Less32(0, excluded)) != 0 {
            (MINUS_ONE, MINUS_ONE)
        } else {
            let below: i32 = wrap(lowest as i128 + 8 - y as i128);
            let factor: u64 = if under {
                let d: u64 = f(Ask::FromInt64(below));
                clamped_map(f, d, ZERO, SIXTY_FOUR, ONE, ZERO)
            } else {
                ZERO
            };
            let raw: u32 = ask(&*self.config.floodedness, x, y, z, &mut self.point_cache, f, Ghost(self.world@), Ghost(self.inputs@));
            let wide: u64 = f(Ask::Widen(raw));
            let noise: u64 = clamp64(f, wide, MINUS_ONE, ONE);
            let full: u64 = map_range(f, factor, ONE, ZERO, MINUS_THREE_TENTHS, EIGHT_TENTHS);
            let part: u64 = map_range(f, factor, ONE, ZERO, MINUS_EIGHT_TENTHS, FOUR_TENTHS);
            (f(Ask::Sub64(noise, part)), f(Ask::Sub64(noise, full)))
        };
        if f(Ask::Less64(ZERO, fully)) != 0 {
            global.level
        } else if f(Ask::Less64(ZERO, partly)) != 0 {
            self.randomized_surface_level(x, y, z, lowest, f)
        } else {
            WAY_BELOW_MIN_Y
        }
    }

    fn randomized_surface_level<F: Fn(Ask) -> u64>(&mut self, x: i32, y: i32, z: i32, lowest: i32, f: &F) -> (r: i32)
        requires
            answers(*f),
            old(self).wf(*f),
        ensures
            final(self).wf(*f),
            final(self).same(old(self)),
            final(self).known == old(self).known,
            r == spread_level(*f, old(self).world@, x, y, z, lowest),
    {
        proof { reveal(Aquifer::wf); }
        let (cx, cy, cz): (i32, i32, i32) = (floor_div(x, 16), floor_div(y, 40), floor_div(z, 16));
        let raw: u32 = ask(&*self.config.spread, cx, cy, cz, &mut self.point_cache, f, Ghost(self.world@), Ghost(self.inputs@));
        let spread: u32 = f(Ask::Mul32(raw, TEN_32)) as u32;
        let wide: u64 = f(Ask::Widen(spread));
        let third: u64 = f(Ask::Div64(wide, THREE));
        let whole: u64 = f(Ask::Floor64(third));
        let steps: i32 = f(Ask::ToInt64(whole)) as i32;
        let level: i32 = wrap(cy as i128 * 40 + 20 + steps as i128 * 3);
        if lowest < level { lowest } else { level }
    }

    fn compute_fluid_type<F: Fn(Ask) -> u64>(
        &mut self, x: i32, y: i32, z: i32, global: FluidStatus, level: i32, f: &F,
    ) -> (r: Fluid)
        requires
            answers(*f),
            old(self).wf(*f),
        ensures
            final(self).wf(*f),
            final(self).same(old(self)),
            final(self).known == old(self).known,
            r == cell_fluid(*f, old(self).world@, x, y, z, global, level),
    {
        proof { reveal(Aquifer::wf); }
        if level <= -10 && level != WAY_BELOW_MIN_Y && global.fluid != Fluid::Lava {
            let (cx, cy, cz): (i32, i32, i32) = (floor_div(x, 64), floor_div(y, 40), floor_div(z, 64));
            let raw: u32 = ask(&*self.config.lava, cx, cy, cz, &mut self.point_cache, f, Ghost(self.world@), Ghost(self.inputs@));
            let wide: u64 = f(Ask::Widen(raw));
            let size: u64 = f(Ask::Abs64(wide));
            if f(Ask::Less64(THREE_TENTHS, size)) != 0 {
                return Fluid::Lava;
            }
        }
        global.fluid
    }

    /// A cell of the grid, its centre drawn on first sight.
    fn locate<F: Fn(Ask) -> u64>(&mut self, gx: i32, gy: i32, gz: i32, f: &F) -> (r: Cell)
        requires
            old(self).wf(*f),
        ensures
            final(self).wf(*f),
            final(self).same(old(self)),
            r.placed(old(self).world@),
            r.grid() == (gx, gy, gz),
    {
        proof {
            reveal(location);
        }
        proof { reveal(Aquifer::wf); }
        let key: u128 = number_of_cell(gx, gy, gz);
        if let Some(k) = self.known.get(&key) {
            proof { lemma_cell_number(k.cell.grid(), (gx, gy, gz)); }
            return k.cell;
        }
        let mut random = self.factory.at(gx, gy, gz);
        let a: u32 = random.next_int_bounded(10);
        let b: u32 = random.next_int_bounded(9);
        let c: u32 = random.next_int_bounded(10);
        let cell = Cell {
            gx,
            gy,
            gz,
            lx: wrap(gx as i128 * 16 + a as i128),
            ly: wrap(gy as i128 * 12 + b as i128),
            lz: wrap(gz as i128 * 16 + c as i128),
        };
        let ghost before = self.remembered();
        self.known.insert(key, Known { cell, status: None });
        proof { assert(self.remembered() =~= before); }
        cell
    }

    /// Find the twelve cells around an anchor.
    fn load_cells<F: Fn(Ask) -> u64>(&mut self, anchor: (i64, i64, i64), f: &F)
        requires
            old(self).wf(*f),
            -0x4000_0000 <= anchor.0 <= 0x4000_0000,
            -0x4000_0000 <= anchor.1 <= 0x4000_0000,
            -0x4000_0000 <= anchor.2 <= 0x4000_0000,
        ensures
            final(self).wf(*f),
            final(self).world@ == old(self).world@,
            final(self).should_schedule_fluid_update == old(self).should_schedule_fluid_update,
            final(self).keeps_counts(old(self)),
            final(self).cells@.len() == 12,
            final(self).anchor == anchor,
    {
        proof { reveal(Aquifer::wf); }
        let mut cells: Vec<Cell> = Vec::new();
        let ghost a = (anchor.0 as int, anchor.1 as int, anchor.2 as int);
        let mut k: usize = 0;
        while k < 12
            invariant
                k <= 12,
                cells@.len() == k,
                self.wf(*f),
                self.same(old(self)),
                a == (anchor.0 as int, anchor.1 as int, anchor.2 as int),
                -0x4000_0000 <= anchor.0 <= 0x4000_0000,
                -0x4000_0000 <= anchor.1 <= 0x4000_0000,
                -0x4000_0000 <= anchor.2 <= 0x4000_0000,
                forall|j: int| 0 <= j < k ==> (#[trigger] cells@[j]).placed(self.world@) && cells@[j].grid() == cell_around(a, j),
            decreases 12 - k,
        {
            let gx: i32 = (anchor.0 + (k / 6) as i64) as i32;
            let gy: i32 = (anchor.1 + ((k / 2) % 3) as i64 - 1) as i32;
            let gz: i32 = (anchor.2 + (k % 2) as i64) as i32;
            let cell = self.locate(gx, gy, gz, f);
            cells.push(cell);
            k += 1;
        }
        self.cells = cells;
        self.anchor = anchor;
    }

    /// The status of a cell, computed on first sight.
    fn aquifer_status<F: Fn(Ask) -> u64>(&mut self, cell: Cell, f: &F) -> (r: FluidStatus)
        requires
            answers(*f),
            old(self).wf(*f),
            cell.placed(old(self).world@),
        ensures
            final(self).wf(*f),
            final(self).same(old(self)),
            r == status_at(*f, old(self).world@, cell.lx, cell.ly, cell.lz),
    {
        proof { reveal(Aquifer::wf); }
        let key: u128 = number_of_cell(cell.gx, cell.gy, cell.gz);
        if let Some(k) = self.known.get(&key) {
            proof { lemma_cell_number(k.cell.grid(), cell.grid()); }
            if let Some(s) = k.status {
                return s;
            }
        }
        let ghost before = self.remembered();
        let s = self.compute_fluid(cell.lx, cell.ly, cell.lz, f);
        proof { reveal(Aquifer::wf); }
        let ghost middle = self.remembered();
        self.known.insert(key, Known { cell, status: Some(s) });
        self.counters.status_computes = self.counters.status_computes.wrapping_add(1);
        proof {
            assert(self.remembered() =~= middle.insert(key));
            assert(middle.finite());
            assert(middle == before && !middle.contains(key));
            let n = middle.len() as int;
            vstd::arithmetic::div_mod::lemma_fundamental_div_mod(n, counter_range());
            let (q, m) = (n / counter_range(), n % counter_range());
            assert(counter_range() * (q + 1) == counter_range() * q + counter_range()) by (nonlinear_arith);
            if m + 1 == counter_range() {
                vstd::arithmetic::div_mod::lemma_fundamental_div_mod_converse(n + 1, counter_range(), q + 1, 0);
            } else {
                vstd::arithmetic::div_mod::lemma_fundamental_div_mod_converse(n + 1, counter_range(), q, m + 1);
            }
        }
        s
    }

    /// The pressure between two cells at a block; the barrier noise is
    /// sampled at most once per block.
    fn pressure<F: Fn(Ask) -> u64>(
        &mut self, x: i32, y: i32, z: i32, barrier: &mut Option<u64>, s1: FluidStatus, s2: FluidStatus, f: &F,
    ) -> (r: u64)
        requires
            answers(*f),
            old(self).wf(*f),
            *old(barrier) matches Some(v) ==> v == reply(
                *f, Ask::Widen(asked(*f, old(self).world@, *old(self).world@.config.barrier, x, y, z))),
        ensures
            final(self).wf(*f),
            final(self).same_but_barrier(old(self), *old(barrier) is None && asks_barrier(*f, y, s1, s2)),
            *final(barrier) is Some <==> *old(barrier) is Some || asks_barrier(*f, y, s1, s2),
            r == pressure_between(*f, old(self).world@, x, y, z, s1, s2),
            *final(barrier) matches Some(v) ==> v == reply(
                *f, Ask::Widen(asked(*f, old(self).world@, *old(self).world@.config.barrier, x, y, z))),
    {
        proof {
            reveal(pressure_between);
        }
        proof { reveal(Aquifer::wf); }
        let (t1, t2) = (s1.at(y), s2.at(y));
        if (t1 == Fluid::Lava && t2 == Fluid::Water) || (t1 == Fluid::Water && t2 == Fluid::Lava) {
            return TWO;
        }
        if s1.level == s2.level {
            return ZERO;
        }
        let gradient: u64 = gradient_between(f, y, s1.level, s2.level);
        let noise: u64 = if f(Ask::Less64(gradient, MINUS_TWO)) == 0 && f(Ask::Less64(TWO, gradient)) == 0 {
            match *barrier {
                Some(v) => v,
                None => {
                    self.counters.barrier_samples = self.counters.barrier_samples.wrapping_add(1);
                    let raw: u32 = ask(
                        &*self.config.barrier, x, y, z, &mut self.point_cache, f, Ghost(self.world@), Ghost(self.inputs@));
                    let v: u64 = f(Ask::Widen(raw));
                    *barrier = Some(v);
                    v
                },
            }
        } else {
            ZERO
        };
        let sum: u64 = f(Ask::Add64(noise, gradient));
        f(Ask::Mul64(TWO, sum))
    }
}

/// The gradient of pressure between two levels at a height.
fn gradient_between<F: Fn(Ask) -> u64>(f: &F, y: i32, l1: i32, l2: i32) -> (r: u64)
    requires
        answers(*f),
    ensures
        r == pressure_gradient(*f, y, l1, l2),
{
    let diff: i64 = if l1 < l2 { l2 as i64 - l1 as i64 } else { l1 as i64 - l2 as i64 };
    let sum: u64 = f(Ask::FromInt64(wrap(l1 as i128 + l2 as i128)));
    let average: u64 = f(Ask::Mul64(HALF, sum));
    let height: u64 = f(Ask::FromInt64(y));
    let middle: u64 = f(Ask::Add64(height, HALF));
    let above: u64 = f(Ask::Sub64(middle, average));
    let spread: u64 = f(Ask::FromInt64(wrap(diff as i128)));
    let base: u64 = f(Ask::Div64(spread, TWO));
    let distance: u64 = f(Ask::Abs64(above));
    let inward: u64 = f(Ask::Sub64(base, distance));
    if f(Ask::Less64(ZERO, above)) != 0 {
        let c: u64 = f(Ask::Add64(ZERO, inward));
        let d: u64 = if f(Ask::Less64(ZERO, c)) != 0 { THREE_HALVES } else { FIVE_HALVES };
        f(Ask::Div64(c, d))
    } else {
        let c: u64 = f(Ask::Add64(THREE, inward));
        let d: u64 = if f(Ask::Less64(ZERO, c)) != 0 { THREE } else { TEN };
        f(Ask::Div64(c, d))
    }
}

/// The four smallest keys among the first `n` cells, in exec form.
fn nearest_keys(keys: &Vec<u128>) -> (r: (u128, u128, u128, u128))
    requires
        keys@.len() == 12,
    ensures
        (Nearest { a: r.0 as int, b: r.1 as int, c: r.2 as int, d: r.3 as int }) == folded(keys@, 12),
{
    let (mut a, mut b, mut c, mut d): (u128, u128, u128, u128) = (NO_KEY, NO_KEY, NO_KEY, NO_KEY);
    let mut i: usize = 0;
    while i < 12
        invariant
            i <= 12,
            keys@.len() == 12,
            (Nearest { a: a as int, b: b as int, c: c as int, d: d as int }) == folded(keys@, i as nat),
        decreases 12 - i,
    {
        let k: u128 = keys[i];
        if k < a {
            d = c;
            c = b;
            b = a;
            a = k;
        } else if k < b {
            d = c;
            c = b;
            b = k;
        } else if k < c {
            d = c;
            c = k;
        } else if k < d {
            d = k;
        }
        i += 1;
    }
    (a, b, c, d)
}

/// The four smallest of the first `n` keys.
spec fn folded(keys: Seq<u128>, n: nat) -> Nearest
    decreases n,
{
    if n == 0 {
        Nearest { a: NO_KEY as int, b: NO_KEY as int, c: NO_KEY as int, d: NO_KEY as int }
    } else {
        folded(keys, (n - 1) as nat).with(keys[n - 1] as int)
    }
}

proof fn lemma_folded(keys: Seq<u128>, w: Waters, x: int, y: int, z: int, n: nat)
    requires
        n <= 12,
        keys.len() == 12,
        forall|k: int| 0 <= k < 12 ==> keys[k] == #[trigger] cell_key(w, x, y, z, k),
    ensures
        folded(keys, n) == nearest_of(w, x, y, z, n),
    decreases n,
{
    if n > 0 {
        lemma_folded(keys, w, x, y, z, (n - 1) as nat);
        assert(keys[n - 1] == cell_key(w, x, y, z, n - 1));
    }
}

/// The square of a difference of blocks is small.
proof fn lemma_square(d: int)
    requires
        -0x1_0000_0000 <= d <= 0x1_0000_0000,
    ensures
        0 <= d * d <= 0x1_0000_0000_0000_0000,
{
    assert(0 <= d * d <= 0x1_0000_0000_0000_0000) by (nonlinear_arith)
        requires
            -0x1_0000_0000 <= d <= 0x1_0000_0000,
    ;
}

proof fn lemma_cell_key(w: Waters, x: i32, y: i32, z: i32, k: int)
    requires
        0 <= k < 12,
    ensures
        0 <= cell_key(w, x as int, y as int, z as int, k) < 0x100_0000_0000_0000_0000,
        cell_key(w, x as int, y as int, z as int, k) % 16 == 11 - k,
{
    reveal(cell_key);
    let (gx, gy, gz) = cell_around(anchor_of(x as int, y as int, z as int), k);
    let l = location(w, gx, gy, gz);
    lemma_square(l.0 - x);
    lemma_square(l.1 - y);
    lemma_square(l.2 - z);
}

/// The four nearest of some cells: in ascending order, each a cell's, and
/// no other cell is nearer than they are.
pub open spec fn four_nearest(w: Waters, x: int, y: int, z: int, m: Nearest) -> bool {
    &&& m.a < m.b < m.c < m.d
    &&& exists|k: int| 0 <= k < 12 && m.a == #[trigger] cell_key(w, x, y, z, k)
    &&& exists|k: int| 0 <= k < 12 && m.b == #[trigger] cell_key(w, x, y, z, k)
    &&& exists|k: int| 0 <= k < 12 && m.c == #[trigger] cell_key(w, x, y, z, k)
    &&& exists|k: int| 0 <= k < 12 && m.d == #[trigger] cell_key(w, x, y, z, k)
    &&& forall|k: int|
        0 <= k < 12 ==> ({
            let key = #[trigger] cell_key(w, x, y, z, k);
            key == m.a || key == m.b || key == m.c || key >= m.d
        })
}

/// Where the slots stand after `n` cells.
spec fn slots_right(w: Waters, x: int, y: int, z: int, m: Nearest, n: int) -> bool {
    &&& (m.a < m.b || n < 1) && (m.b < m.c || n < 2) && (m.c < m.d || n < 3)
    &&& m.a <= m.b <= m.c <= m.d <= NO_KEY
    &&& (m.a == NO_KEY || exists|k: int| 0 <= k < n && m.a == #[trigger] cell_key(w, x, y, z, k))
    &&& (m.b == NO_KEY || exists|k: int| 0 <= k < n && m.b == #[trigger] cell_key(w, x, y, z, k))
    &&& (m.c == NO_KEY || exists|k: int| 0 <= k < n && m.c == #[trigger] cell_key(w, x, y, z, k))
    &&& (m.d == NO_KEY || exists|k: int| 0 <= k < n && m.d == #[trigger] cell_key(w, x, y, z, k))
    &&& (n >= 1 ==> m.a < NO_KEY) && (n >= 2 ==> m.b < NO_KEY) && (n >= 3 ==> m.c < NO_KEY) && (n >= 4 ==> m.d < NO_KEY)
    &&& forall|k: int|
        0 <= k < n ==> ({
            let key = #[trigger] cell_key(w, x, y, z, k);
            key == m.a || key == m.b || key == m.c || key >= m.d
        })
}

/// Of the twelve cells around a block the four nearest are looked at, and
/// among cells at the same distance the later ones come first.
pub proof fn law_four_nearest(w: Waters, x: i32, y: i32, z: i32)
    ensures
        four_nearest(w, x as int, y as int, z as int, nearest_of(w, x as int, y as int, z as int, 12)),
{
    lemma_slots(w, x, y, z, 12);
}

#[verifier::rlimit(60)]
proof fn lemma_slots(w: Waters, x: i32, y: i32, z: i32, n: nat)
    requires
        n <= 12,
    ensures
        slots_right(w, x as int, y as int, z as int, nearest_of(w, x as int, y as int, z as int, n), n as int),
    decreases n,
{
    if n > 0 {
        lemma_slots(w, x, y, z, (n - 1) as nat);
        let (bx, by, bz) = (x as int, y as int, z as int);
        let o = nearest_of(w, bx, by, bz, (n - 1) as nat);
        let m = nearest_of(w, bx, by, bz, n);
        let key = cell_key(w, bx, by, bz, n - 1);
        lemma_cell_key(w, x, y, z, n - 1);
        assert forall|k: int| 0 <= k < n - 1 implies #[trigger] cell_key(w, bx, by, bz, k) != key by {
            lemma_cell_key(w, x, y, z, k);
        }
        assert(m == o.with(key));
    }
}

impl Aquifer {
    /// The aquifers of a chunk column; `factory` draws the centres of the
    /// cells.
    pub fn new<F: Fn(Ask) -> u64>(
        config: AquiferConfig, factory: XoroshiroPositionalRandomFactory, vol: &Volume, picker: FluidPicker, f: &F,
    ) -> (r: Aquifer)
        requires
            answers(*f),
            exists|inputs: Map<usize, Node>| coherent(config, inputs),
            vol.wf(),
            vol.in_world(),
            vol.min@[0] >= -0x7fff_ff00 && vol.min@[2] >= -0x7fff_ff00,
            vol.last_block(0) <= 0x7fff_ff00 && vol.last_block(2) <= 0x7fff_ff00,
            affordable(*config.surface_level, (surroundings(*vol).sx, 1, surroundings(*vol).sz), (4, 1, 4)),
        ensures
            r.wf(*f),
            r.waters() == waters_of(*f, config, factory, *vol, picker),
            !r.scheduled(),
            r.meters() == (0usize, 0usize, 0usize),
            r.remembered() == Set::<u128>::empty(),
    {
        proof { reveal(Aquifer::wf); }
        let ghost inputs = choose|inputs: Map<usize, Node>| coherent(config, inputs);
        let ghost w = waters_of(*f, config, factory, *vol, picker);
        let x0: i64 = down(vol.min[0] as i64 - 5, 16) * 4;
        let x1: i64 = down(vol.max_block(0) as i64 - 5, 16) * 4 + 6;
        let z0: i64 = down(vol.min[2] as i64 - 5, 16) * 4;
        let z1: i64 = down(vol.max_block(2) as i64 - 5, 16) * 4 + 6;
        proof {
            assert(vol.size@[0] * vol.step@[0] >= 1 && vol.size@[2] * vol.step@[2] >= 1) by (nonlinear_arith)
                requires
                    vol.size@[0] >= 1,
                    vol.size@[2] >= 1,
                    vol.step@[0] >= 1,
                    vol.step@[2] >= 1,
            ;
            assert(x0 <= x1 && z0 <= z1);
            assert(-0x2000_0000 <= x0 && x1 <= 0x2000_0000 && -0x2000_0000 <= z0 && z1 <= 0x2000_0000);
        }
        let size: [usize; 3] = [(x1 - x0 + 1) as usize, 1, (z1 - z0 + 1) as usize];
        let min: [i32; 3] = [(x0 * 4) as i32, 0, (z0 * 4) as i32];
        let step: [i32; 3] = [4, 1, 4];
        let around = Volume::new(size, min, step);
        let ghost v = surroundings(*vol);
        proof {
            assert(lattice(around) == v);
        }
        let mut ctx = SampleCtx::default();
        let buf: Vec<u32> = config.surface_level.sample_volume_with(&around, &mut ctx, f);
        let mut point_cache = PointCache::new();
        point_cache.adopt_volumes(&ctx);
        let mut surfaces: ChunkMap<i32> = ChunkMap::new();
        let mut top: i32 = i32::MIN;
        let mut i: usize = 0;
        let sx: usize = size[0];
        let ghost full = levels(*f, v, buf@);
        proof {
            assert(v.sx * 1 * v.sz == v.sx * v.sz) by (nonlinear_arith);
        }
        while i < buf.len()
            invariant
                i <= buf@.len(),
                buf@.len() == v.sx * v.sz,
                v.sx == sx,
                0 < sx <= 0x4000_0001,
                0 < v.sz <= 0x4000_0001,
                v.sy == 1 && v.tx == 4 && v.tz == 4,
                v.x == min@[0] && v.z == min@[2],
                v.x == x0 * 4,
                v.z == z0 * 4,
                v.sx == x1 - x0 + 1,
                v.sz == z1 - z0 + 1,
                -0x2000_0000 <= x0 <= x1 <= 0x2000_0000,
                -0x2000_0000 <= z0 <= z1 <= 0x2000_0000,
                x1 < 0x2000_0000 && z1 < 0x2000_0000,
                answers(*f),
                full == levels(*f, v, buf@),
                top == highest(*f, buf@, i as nat),
                forall|p: (i32, i32)| #[trigger] surfaces@.contains_key(p) ==> full.contains_key(p) && surfaces@[p] == full[p],
                forall|ix: int, iz: int|
                    0 <= ix < v.sx && 0 <= iz < v.sz && ix + iz * v.sx < i ==> surfaces@.contains_key(
                        #[trigger] lattice_block(v, ix, iz)),
            decreases buf.len() - i,
        {
            let level: i32 = level_of(f, buf[i]);
            let (ix, iz): (usize, usize) = (i % sx, i / sx);
            let ghost before = surfaces@;
            proof {
                vstd::arithmetic::div_mod::lemma_fundamental_div_mod(i as int, sx as int);
                assert(0 <= iz < v.sz) by (nonlinear_arith)
                    requires
                        i == sx * iz + ix,
                        0 <= ix < sx,
                        i < sx * v.sz,
                        sx > 0,
                ;
                assert(i == ix + iz * v.sx) by (nonlinear_arith)
                    requires
                        i == sx * iz + ix,
                        v.sx == sx,
                ;
            }
            let bx: i32 = (min[0] as i64 + ix as i64 * 4) as i32;
            let bz: i32 = (min[2] as i64 + iz as i64 * 4) as i32;
            surfaces.insert(bx, bz, level);
            proof {
                assert((bx - v.x) / v.tx == ix && (bz - v.z) / v.tz == iz);
                assert((bx - v.x) % v.tx == 0 && (bz - v.z) % v.tz == 0);
                assert(v.place(ix as int, 0, iz as int) == i) by {
                    assert((ix + iz * v.sx) * 1 == ix + iz * v.sx);
                }
                assert(full.contains_key((bx, bz)) && full[(bx, bz)] == level);
                assert forall|jx: int, jz: int| 0 <= jx < v.sx && 0 <= jz < v.sz && jx + jz * v.sx < i + 1 implies surfaces@.contains_key(
                    #[trigger] lattice_block(v, jx, jz)) by {
                    if jx + jz * v.sx == i {
                        vstd::arithmetic::div_mod::lemma_fundamental_div_mod_converse(i as int, sx as int, jz, jx);
                        assert(lattice_block(v, jx, jz) == (bx, bz));
                    }
                }
            }
            if level > top {
                top = level;
            }
            i += 1;
        }
        let row: i64 = down(top as i64 + 20, 12) + 1;
        let skip: i32 = wrap(row as i128 * 12 + 10);
        proof {
            assert forall|p: (i32, i32)| #[trigger] full.contains_key(p) implies surfaces@.contains_key(p) by {
                let (ix, iz) = ((p.0 - v.x) / v.tx, (p.1 - v.z) / v.tz);
                assert(lattice_block(v, ix, iz) == p);
                assert(ix + iz * v.sx < v.sx * v.sz) by (nonlinear_arith)
                    requires
                        0 <= ix < v.sx,
                        0 <= iz < v.sz,
                ;
            }
        }
        let r = Aquifer {
            counters: AquiferCounters { deep: 0, near_exit: 0, barrier_samples: 0, status_computes: 0 },
            config,
            factory,
            picker,
            known: HashMap::new(),
            surfaces,
            skip_sampling_above_y: skip,
            should_schedule_fluid_update: false,
            point_cache,
            cells: Vec::new(),
            anchor: (0, 0, 0),
            world: Ghost(w),
            inputs: Ghost(inputs),
        };
        proof {
            assert(full =~= w.sampled);
            assert(r.remembered() =~= Set::<u128>::empty());
            assert(r.point_cache@.slabs == w.slabs);
            assert(r.point_cache@.entries == Map::<usize, ((i32, i32, i32), u32)>::empty());
        }
        r
    }

    /// What a block of some density becomes: nothing means the default
    /// block. Whether its fluid has to be updated is left in
    /// `should_schedule_fluid_update`.
    pub fn compute_substance<F: Fn(Ask) -> u64>(&mut self, x: i32, y: i32, z: i32, density: u64, f: &F) -> (r: Option<Substance>)
        requires
            answers(*f),
            old(self).wf(*f),
        ensures
            final(self).wf(*f),
            final(self).waters() == old(self).waters(),
            (r, final(self).scheduled()) == substance_at(*f, old(self).waters(), x, y, z, density),
            final(self).meters() == metered(*f, old(self).waters(), x, y, z, density, old(self).meters()),
            old(self).remembered().subset_of(final(self).remembered()),
            final(self).counts().status_computes == final(self).remembered().len() as int % counter_range(),
    {
        let (r, update): (Option<Substance>, bool) = self.substance(x, y, z, density, f);
        self.should_schedule_fluid_update = update;
        proof { reveal(Aquifer::wf); }
        r
    }

    fn substance<F: Fn(Ask) -> u64>(&mut self, x: i32, y: i32, z: i32, density: u64, f: &F) -> (r: (Option<Substance>, bool))
        requires
            answers(*f),
            old(self).wf(*f),
        ensures
            final(self).wf(*f),
            final(self).world@ == old(self).world@,
            r == substance_at(*f, old(self).world@, x, y, z, density),
            final(self).meters() == metered(*f, old(self).world@, x, y, z, density, old(self).meters()),
            old(self).remembered().subset_of(final(self).remembered()),
    {
        if f(Ask::Less64(ZERO, density)) != 0 {
            return (None, false);
        }
        let global = self.picked_at(y as i64, f);
        let here = global.at(y);
        if y > self.skip_sampling_above_y(f) {
            return (Some(fluid_to_substance(here)), false);
        }
        if here == Fluid::Lava {
            return (Some(Substance::Lava), false);
        }
        self.deep_substance(x, y, z, density, f)
    }

    fn picked_at<F: Fn(Ask) -> u64>(&self, y: i64, f: &F) -> (r: FluidStatus)
        requires
            self.wf(*f),
        ensures
            r == self.world@.picker.picked(y as int),
    {
        proof { reveal(Aquifer::wf); }
        self.picker.pick(y)
    }

    fn count_deep<F: Fn(Ask) -> u64>(&mut self, exit: bool, f: &F)
        requires
            old(self).wf(*f),
        ensures
            final(self).wf(*f),
            final(self).world@ == old(self).world@,
            final(self).meters() == (counted(old(self).meters().0, !exit), counted(old(self).meters().1, exit), old(self).meters().2),
            final(self).remembered() == old(self).remembered(),
    {
        if exit {
            self.counters.near_exit = self.counters.near_exit.wrapping_add(1);
        } else {
            self.counters.deep = self.counters.deep.wrapping_add(1);
        }
        proof { reveal(Aquifer::wf); }
    }

    /// The status of the cell that a key stands for.
    fn status_by_key<F: Fn(Ask) -> u64>(&mut self, cells: &Vec<Cell>, key: u128, x: i32, y: i32, z: i32, f: &F) -> (r: FluidStatus)
        requires
            answers(*f),
            old(self).wf(*f),
            surround(cells@, old(self).world@, x, y, z),
            key % 16 <= 11,
        ensures
            final(self).wf(*f),
            final(self).world@ == old(self).world@,
            final(self).keeps_counts(old(self)),
            r == key_status(*f, old(self).world@, x as int, y as int, z as int, key as int),
    {
        proof {
            reveal(key_status);
        }
        let cell = cells[11 - (key % 16) as usize];
        proof { assert(cell.placed(self.world@)); }
        self.aquifer_status(cell, f)
    }

    /// What a block among the aquifers becomes.
    fn deep_substance<F: Fn(Ask) -> u64>(&mut self, x: i32, y: i32, z: i32, density: u64, f: &F) -> (r: (Option<Substance>, bool))
        requires
            answers(*f),
            old(self).wf(*f),
        ensures
            final(self).wf(*f),
            final(self).world@ == old(self).world@,
            r == deep_substance(*f, old(self).world@, x, y, z, density),
            final(self).meters() == (
                counted(old(self).meters().0, true),
                counted(old(self).meters().1, exits_near(*f, old(self).world@, x, y, z)),
                counted(old(self).meters().2, samples_barrier(*f, old(self).world@, x, y, z, density)),
            ),
            old(self).remembered().subset_of(final(self).remembered()),
    {
        proof {
            reveal(deep_substance);
            reveal(exits_near);
            reveal(samples_barrier);
        }
        let ghost w = self.world@;
        self.count_deep(false, f);
        let (cells, a, b, c, d): (Vec<Cell>, u128, u128, u128, u128) = self.nearest_cells(x, y, z, f);
        let (d1, d2, d3, d4): (i32, i32, i32, i32) = (distance_in(a), distance_in(b), distance_in(c), distance_in(d));
        let flowing: u64 = similarity(f, 100, 144);
        let sim12: u64 = similarity(f, d1, d2);
        let s1 = self.status_by_key(&cells, a, x, y, z, f);
        let fluid = s1.at(y);
        let result: Option<Substance> = Some(fluid_to_substance(fluid));
        if f(Ask::LessEq64(sim12, ZERO)) != 0 {
            self.count_deep(true, f);
            if f(Ask::LessEq64(flowing, sim12)) != 0 {
                let s2 = self.status_by_key(&cells, b, x, y, z, f);
                return (result, s1 != s2);
            }
            return (result, false);
        }
        let under = self.picked_at(y as i64 - 1, f);
        if fluid == Fluid::Water && y as i64 - 1 < under.level as i64 && under.fluid == Fluid::Lava {
            return (result, true);
        }
        let mut barrier: Option<u64> = None;
        let s2 = self.status_by_key(&cells, b, x, y, z, f);
        if self.holds_back(x, y, z, density, sim12, &mut barrier, s1, s2, f) {
            return (None, false);
        }
        let s3 = self.status_by_key(&cells, c, x, y, z, f);
        let sim13: u64 = similarity(f, d1, d3);
        if f(Ask::Less64(ZERO, sim13)) != 0 {
            let factor: u64 = f(Ask::Mul64(sim12, sim13));
            if self.holds_back(x, y, z, density, factor, &mut barrier, s1, s3, f) {
                return (None, false);
            }
        }
        let sim23: u64 = similarity(f, d2, d3);
        if f(Ask::Less64(ZERO, sim23)) != 0 {
            let factor: u64 = f(Ask::Mul64(sim12, sim23));
            if self.holds_back(x, y, z, density, factor, &mut barrier, s2, s3, f) {
                return (None, false);
            }
        }
        let flow12: bool = s1 != s2;
        let flow23: bool = f(Ask::LessEq64(flowing, sim23)) != 0 && s2 != s3;
        let alike13: bool = f(Ask::LessEq64(flowing, sim13)) != 0;
        let flow13: bool = alike13 && s1 != s3;
        if flow12 || flow23 || flow13 {
            return (result, true);
        }
        if alike13 {
            let sim14: u64 = similarity(f, d1, d4);
            if f(Ask::LessEq64(flowing, sim14)) != 0 {
                let s4 = self.status_by_key(&cells, d, x, y, z, f);
                return (result, s1 != s4);
            }
        }
        (result, false)
    }

    /// A barrier between two cells holds a block back.
    fn holds_back<F: Fn(Ask) -> u64>(
        &mut self, x: i32, y: i32, z: i32, density: u64, factor: u64, barrier: &mut Option<u64>, s1: FluidStatus,
        s2: FluidStatus, f: &F,
    ) -> (r: bool)
        requires
            answers(*f),
            old(self).wf(*f),
            *old(barrier) matches Some(v) ==> v == reply(
                *f, Ask::Widen(asked(*f, old(self).world@, *old(self).world@.config.barrier, x, y, z))),
        ensures
            final(self).wf(*f),
            final(self).same_but_barrier(old(self), *old(barrier) is None && asks_barrier(*f, y, s1, s2)),
            *final(barrier) is Some <==> *old(barrier) is Some || asks_barrier(*f, y, s1, s2),
            r == held_back(*f, old(self).world@, x, y, z, density, factor, s1, s2),
            *final(barrier) matches Some(v) ==> v == reply(
                *f, Ask::Widen(asked(*f, old(self).world@, *old(self).world@.config.barrier, x, y, z))),
    {
        let p: u64 = self.pressure(x, y, z, barrier, s1, s2, f);
        let push: u64 = f(Ask::Mul64(factor, p));
        let sum: u64 = f(Ask::Add64(density, push));
        f(Ask::Less64(ZERO, sum)) != 0
    }

    /// The twelve cells around a block and the keys of the four nearest.
    fn nearest_cells<F: Fn(Ask) -> u64>(&mut self, x: i32, y: i32, z: i32, f: &F) -> (r: (Vec<Cell>, u128, u128, u128, u128))
        requires
            old(self).wf(*f),
        ensures
            final(self).wf(*f),
            final(self).world@ == old(self).world@,
            final(self).keeps_counts(old(self)),
            surround(r.0@, old(self).world@, x, y, z),
            (Nearest { a: r.1 as int, b: r.2 as int, c: r.3 as int, d: r.4 as int }) == nearest_of(
                old(self).world@, x as int, y as int, z as int, 12),
            valid_key(r.1) && valid_key(r.2) && valid_key(r.3) && valid_key(r.4),
    {
        let ghost w = self.world@;
        let cells: Vec<Cell> = self.cells_around(x, y, z, f);
        let keys: Vec<u128> = keys_of_cells(&cells, x, y, z, Ghost(w));
        let (a, b, c, d): (u128, u128, u128, u128) = nearest_keys(&keys);
        proof {
            lemma_folded(keys@, w, x as int, y as int, z as int, 12);
            lemma_valid_keys(w, x, y, z);
        }
        (cells, a, b, c, d)
    }

    fn cells_around<F: Fn(Ask) -> u64>(&mut self, x: i32, y: i32, z: i32, f: &F) -> (r: Vec<Cell>)
        requires
            old(self).wf(*f),
        ensures
            final(self).wf(*f),
            final(self).world@ == old(self).world@,
            final(self).keeps_counts(old(self)),
            surround(r@, old(self).world@, x, y, z),
    {
        let ghost w = self.world@;
        let anchor: (i64, i64, i64) = (down(x as i64 - 5, 16), down(y as i64 + 1, 12), down(z as i64 - 5, 16));
        if self.cells.len() != 12 || self.anchor.0 != anchor.0 || self.anchor.1 != anchor.1 || self.anchor.2 != anchor.2 {
            self.load_cells(anchor, f);
        }
        proof {
            reveal(Aquifer::wf);
            assert(anchor_of(x as int, y as int, z as int) == (anchor.0 as int, anchor.1 as int, anchor.2 as int));
            assert(surround(self.cells@, w, x, y, z));
        }
        let mut cells: Vec<Cell> = Vec::new();
        let mut k: usize = 0;
        while k < 12
            invariant
                k <= 12,
                cells@.len() == k,
                self.cells@.len() == 12,
                forall|j: int| 0 <= j < k ==> cells@[j] == #[trigger] self.cells@[j],
            decreases 12 - k,
        {
            cells.push(self.cells[k]);
            k += 1;
        }
        proof { assert(cells@ =~= self.cells@); }
        cells
    }

    /// Point samples of floodedness and exclusion at a block, and of spread
    /// at its fluid cell.
    pub fn debug_probe<F: Fn(Ask) -> u64>(&self, x: i32, y: i32, z: i32, f: &F) -> (r: [u32; 3])
        requires
            answers(*f),
            self.wf(*f),
        ensures
            r@[0] == evaluated(*f, *self.waters().config.floodedness, x, y, z, Mode::Point, forgetful()).0,
            r@[1] == evaluated(*f, *self.waters().config.exclusion, x, y, z, Mode::Point, forgetful()).0,
            r@[2] == evaluated(
                *f, *self.waters().config.spread, (x as int / 16) as i32, (y as int / 40) as i32, (z as int / 16) as i32,
                Mode::Point, forgetful()).0,
    {
        proof { reveal(Aquifer::wf); }
        let a: u32 = self.config.floodedness.eval(x, y, z, Mode::Point, f);
        let b: u32 = self.config.exclusion.eval(x, y, z, Mode::Point, f);
        let c: u32 = self.config.spread.eval(floor_div(x, 16), floor_div(y, 40), floor_div(z, 16), Mode::Point, f);
        [a, b, c]
    }
}

/// The block of an element of a lattice of columns.
spec fn lattice_block(v: Lattice, ix: int, iz: int) -> (i32, i32) {
    ((v.x + ix * v.tx) as i32, (v.z + iz * v.tz) as i32)
}

/// The distance that a key stands for.
fn distance_in(key: u128) -> (r: i32)
    requires
        key < 0x100_0000_0000_0000_0000,
    ensures
        r == key_distance(key as int),
{
    wrap((key / 16) as i128)
}

/// The twelve cells around a block.
spec fn surround(cells: Seq<Cell>, w: Waters, x: i32, y: i32, z: i32) -> bool {
    &&& cells.len() == 12
    &&& forall|k: int|
        0 <= k < 12 ==> (#[trigger] cells[k]).placed(w) && cells[k].grid() == cell_around(
            anchor_of(x as int, y as int, z as int), k)
}

/// A key that a cell can have.
spec fn valid_key(key: u128) -> bool {
    key < 0x100_0000_0000_0000_0000 && key % 16 <= 11
}

proof fn lemma_valid_keys(w: Waters, x: i32, y: i32, z: i32)
    ensures
        ({
            let m = nearest_of(w, x as int, y as int, z as int, 12);
            &&& 0 <= m.a < 0x100_0000_0000_0000_0000 && m.a % 16 <= 11
            &&& 0 <= m.b < 0x100_0000_0000_0000_0000 && m.b % 16 <= 11
            &&& 0 <= m.c < 0x100_0000_0000_0000_0000 && m.c % 16 <= 11
            &&& 0 <= m.d < 0x100_0000_0000_0000_0000 && m.d % 16 <= 11
        }),
{
    law_four_nearest(w, x, y, z);
    assert forall|k: int| 0 <= k < 12 implies 0 <= #[trigger] cell_key(w, x as int, y as int, z as int, k)
        < 0x100_0000_0000_0000_0000 && cell_key(w, x as int, y as int, z as int, k) % 16 <= 11 by {
        lemma_cell_key(w, x, y, z, k);
    }
}

/// The keys of the twelve cells around a block.
fn keys_of_cells(cells: &Vec<Cell>, x: i32, y: i32, z: i32, Ghost(w): Ghost<Waters>) -> (keys: Vec<u128>)
    requires
        surround(cells@, w, x, y, z),
    ensures
        keys@.len() == 12,
        forall|k: int| 0 <= k < 12 ==> keys@[k] == #[trigger] cell_key(w, x as int, y as int, z as int, k),
{
    proof {
        reveal(cell_key);
    }
    let mut keys: Vec<u128> = Vec::new();
    let mut k: usize = 0;
    while k < 12
        invariant
            k <= 12,
            keys@.len() == k,
            surround(cells@, w, x, y, z),
            forall|j: int| 0 <= j < k ==> keys@[j] == #[trigger] cell_key(w, x as int, y as int, z as int, j),
        decreases 12 - k,
    {
        let cell = cells[k];
        let dx: i128 = cell.lx as i128 - x as i128;
        let dy: i128 = cell.ly as i128 - y as i128;
        let dz: i128 = cell.lz as i128 - z as i128;
        proof {
            lemma_square(dx as int);
            lemma_square(dy as int);
            lemma_square(dz as int);
            assert(cells@[k as int].placed(w));
            reveal(cell_key);
        }
        let distance: i128 = dx * dx + dz * dz + dy * dy;
        keys.push(distance as u128 * 16 + (11 - k as u128));
        k += 1;
    }
    keys
}

/// The block at a place of a volume's buffer.
pub open spec fn block_at(vol: Volume, i: int) -> (i32, i32, i32) {
    (lattice(vol).at_x(i), lattice(vol).at_y(i), lattice(vol).at_z(i))
}

/// What the block at a place of a volume's buffer becomes.
pub open spec fn filled<F: Fn(Ask) -> u64>(f: F, w: Waters, vol: Volume, density: Seq<u32>, i: int) -> (Option<Substance>, bool) {
    let (x, y, z) = block_at(vol, i);
    substance_at(f, w, x, y, z, reply(f, Ask::Widen(density[i])))
}

/// The place of the `k`-th block that a fill visits: along z and x, and from
/// the top down.
pub open spec fn visited(vol: Volume, k: int) -> int {
    let rows = vol.size@[1] as int;
    (k / rows) * rows + (rows - 1 - k % rows)
}

/// The meters after the first `n` blocks that a fill visits.
pub open spec fn metered_all<F: Fn(Ask) -> u64>(f: F, w: Waters, vol: Volume, density: Seq<u32>, n: nat, m: (usize, usize, usize)) -> (
    usize,
    usize,
    usize,
)
    decreases n,
{
    if n == 0 {
        m
    } else {
        let i = visited(vol, n - 1);
        let (x, y, z) = block_at(vol, i);
        metered(f, w, x, y, z, reply(f, Ask::Widen(density[i])), metered_all(f, w, vol, density, (n - 1) as nat, m))
    }
}

/// The statuses that were computed are counted, each once.
pub proof fn law_statuses_are_counted<F: Fn(Ask) -> u64>(a: Aquifer, f: F)
    requires
        a.wf(f),
    ensures
        a.counts().status_computes == a.remembered().len() as int % counter_range(),
{
    reveal(Aquifer::wf);
}

/// Fill a chunk: the density of every block, and the substance it becomes.
/// Blocks are visited along z, x, and y from the top.
pub fn fill_chunk<F: Fn(Ask) -> u64>(final_density: &Node, aquifer: &mut Aquifer, vol: &Volume, f: &F) -> (r: (Vec<u32>, Vec<u8>))
    requires
        answers(*f),
        sound(*final_density),
        old(aquifer).wf(*f),
        vol.wf(),
        vol.in_world(),
        affordable(*final_density, (vol.size@[0] as int, vol.size@[1] as int, vol.size@[2] as int), steps(*vol)),
    ensures
        final(aquifer).wf(*f),
        final(aquifer).waters() == old(aquifer).waters(),
        r.0@ == sampled(*f, *final_density, lattice(*vol), Seq::empty()).0,
        r.0@.len() == vol.count(),
        r.1@.len() == vol.count(),
        forall|i: int|
            0 <= i < vol.count() ==> #[trigger] r.1@[i] == Substance::id(filled(*f, old(aquifer).waters(), *vol, r.0@, i).0),
        final(aquifer).scheduled() == filled(
            *f, old(aquifer).waters(), *vol, r.0@, vol.count() - vol.size@[1]).1,
        final(aquifer).meters() == metered_all(
            *f, old(aquifer).waters(), *vol, r.0@, vol.count() as nat, old(aquifer).meters()),
        old(aquifer).remembered().subset_of(final(aquifer).remembered()),
{
    let ghost m0 = aquifer.meters();
    let density: Vec<u32> = final_density.sample_volume(vol, f);
    let n: usize = density.len();
    let (sx, sy, sz): (usize, usize, usize) = (vol.size[0], vol.size[1], vol.size[2]);
    let ghost w = aquifer.waters();
    let ghost v = lattice(*vol);
    let mut substance: Vec<u8> = Vec::new();
    let mut k: usize = 0;
    while k < n
        invariant
            k <= n,
            substance@.len() == k,
        decreases n - k,
    {
        substance.push(0);
        k += 1;
    }
    let mut z: usize = 0;
    while z < sz
        invariant
            z <= sz,
            vol.wf() && vol.in_world() && vol.fits(),
            sx == vol.size@[0] && sy == vol.size@[1] && sz == vol.size@[2],
            n == vol.count(),
            density@.len() == n,
            substance@.len() == n,
            v == lattice(*vol),
            answers(*f),
            aquifer.wf(*f),
            aquifer.waters() == w,
            forall|i: int| 0 <= i < z * sx * sy ==> #[trigger] substance@[i] == Substance::id(filled(*f, w, *vol, density@, i).0),
            z > 0 ==> aquifer.scheduled() == filled(*f, w, *vol, density@, z * sx * sy - sy).1,
            0 <= z * sx * sy,
            aquifer.meters() == metered_all(*f, w, *vol, density@, (z * sx * sy) as nat, m0),
            old(aquifer).remembered().subset_of(aquifer.remembered()),
        decreases sz - z,
    {
        let bz: i32 = vol.block(2, z);
        let mut x: usize = 0;
        proof { assert((z * sx + 0) * sy == z * sx * sy); }
        while x < sx
            invariant
                x <= sx,
                z < sz,
                vol.wf() && vol.in_world() && vol.fits(),
                sx == vol.size@[0] && sy == vol.size@[1] && sz == vol.size@[2],
                n == vol.count(),
                density@.len() == n,
                substance@.len() == n,
                v == lattice(*vol),
                answers(*f),
                aquifer.wf(*f),
                aquifer.waters() == w,
                bz == vol.block_of(2, z as int),
                forall|i: int|
                    0 <= i < (z * sx + x) * sy ==> #[trigger] substance@[i] == Substance::id(filled(*f, w, *vol, density@, i).0),
                x > 0 ==> aquifer.scheduled() == filled(*f, w, *vol, density@, (z * sx + x) * sy - sy).1,
                0 <= (z * sx + x) * sy,
                aquifer.meters() == metered_all(*f, w, *vol, density@, ((z * sx + x) * sy) as nat, m0),
                old(aquifer).remembered().subset_of(aquifer.remembered()),
            decreases sx - x,
        {
            let bx: i32 = vol.block(0, x);
            let ghost start = (z * sx + x) * sy;
            let mut y: usize = sy;
            proof { lemma_block_at(*vol, x as int, sy - 1, z as int); vol.lemma_place(x as int, sy - 1, z as int); }
            while y > 0
                invariant
                    y <= sy,
                    0 <= start,
                    start + sy <= n,
                    x < sx,
                    z < sz,
                    vol.wf() && vol.in_world() && vol.fits(),
                    sx == vol.size@[0] && sy == vol.size@[1] && sz == vol.size@[2],
                    n == vol.count(),
                    density@.len() == n,
                    substance@.len() == n,
                    v == lattice(*vol),
                    answers(*f),
                    aquifer.wf(*f),
                    aquifer.waters() == w,
                    bz == vol.block_of(2, z as int),
                    bx == vol.block_of(0, x as int),
                    start == (z * sx + x) * sy,
                    forall|i: int|
                        0 <= i < start ==> #[trigger] substance@[i] == Substance::id(filled(*f, w, *vol, density@, i).0),
                    forall|i: int|
                        start + y <= i < start + sy ==> #[trigger] substance@[i] == Substance::id(
                            filled(*f, w, *vol, density@, i).0),
                    y < sy ==> aquifer.scheduled() == filled(*f, w, *vol, density@, start + y).1,
                    aquifer.meters() == metered_all(*f, w, *vol, density@, (start + (sy - y)) as nat, m0),
                    old(aquifer).remembered().subset_of(aquifer.remembered()),
                decreases y,
            {
                y = y - 1;
                let by: i32 = vol.block(1, y);
                let i: usize = vol.index(x, y, z);
                let wide: u64 = f(Ask::Widen(density[i]));
                proof { lemma_block_at(*vol, x as int, y as int, z as int); }
                let s = aquifer.compute_substance(bx, by, bz, wide, f);
                let ghost before = substance@;
                substance.set(i, Substance::oracle_id(s));
                proof {
                    assert(i == start + y);
                    assert(block_at(*vol, i as int) == (bx, by, bz));
                    let k = start + (sy - 1 - y);
                    let c = z * sx + x;
                    assert(sy * c == start) by (nonlinear_arith)
                        requires
                            start == c * sy,
                    ;
                    vstd::arithmetic::div_mod::lemma_fundamental_div_mod_converse(k, sy as int, c as int, sy - 1 - y);
                    assert(visited(*vol, k) == i);
                    assert(filled(*f, w, *vol, density@, i as int) == (s, aquifer.scheduled()));
                    assert forall|j: int| start + y <= j < start + sy implies #[trigger] substance@[j] == Substance::id(
                        filled(*f, w, *vol, density@, j).0) by {
                        assert(j == i || substance@[j] == before[j]);
                    }
                }
            }
            proof {
                assert((z * sx + (x + 1)) * sy == start + sy) by (nonlinear_arith)
                    requires
                        start == (z * sx + x) * sy,
                ;
            }
            x += 1;
        }
        proof {
            assert((z * sx + sx) * sy == (z + 1) * sx * sy) by (nonlinear_arith);
        }
        z += 1;
    }
    proof {
        assert(sz * sx * sy == vol.count()) by (nonlinear_arith)
            requires
                vol.count() == sx * sy * sz,
        ;
    }
    (density, substance)
}

/// The block of an element.
proof fn lemma_block_at(vol: Volume, x: int, y: int, z: int)
    requires
        vol.wf(),
        vol.in_world(),
        vol.inside(x, y, z),
    ensures
        block_at(vol, vol.place(x, y, z)) == (vol.block_of(0, x) as i32, vol.block_of(1, y) as i32, vol.block_of(2, z) as i32),
        vol.place(x, y, z) == (z * vol.size@[0] + x) * vol.size@[1] + y,
{
    vol.lemma_place(x, y, z);
    let v = lattice(vol);
    let i = vol.place(x, y, z);
    vstd::arithmetic::div_mod::lemma_fundamental_div_mod_converse(x + z * v.sx, v.sx, z, x);
    lemma_in_world(vol, 0, x);
    lemma_in_world(vol, 1, y);
    lemma_in_world(vol, 2, z);
}

proof fn lemma_in_world(vol: Volume, axis: int, i: int)
    requires
        vol.wf(),
        vol.in_world(),
        0 <= axis < 3,
        0 <= i < vol.size@[axis],
    ensures
        i32::MIN <= vol.block_of(axis, i) <= i32::MAX,
        wrapped(vol.block_of(axis, i)) == vol.block_of(axis, i),
{
    let (n, s) = (vol.size@[axis] as int, vol.step@[axis] as int);
    assert(0 <= i * s && i * s + s <= n * s) by (nonlinear_arith)
        requires
            0 <= i < n,
            s >= 1,
    ;
}

/// The key of each of the six functions.
pub open spec fn config_key(i: int) -> Seq<char> {
    if i == 0 {
        "barrier"@
    } else if i == 1 {
        "fluid_level_floodedness"@
    } else if i == 2 {
        "fluid_level_spread"@
    } else if i == 3 {
        "lava"@
    } else if i == 4 {
        "exclusion"@
    } else {
        "surface_level"@
    }
}

fn key_at(i: usize) -> (r: &'static str)
    ensures
        r@ == config_key(i as int),
{
    if i == 0 {
        "barrier"
    } else if i == 1 {
        "fluid_level_floodedness"
    } else if i == 2 {
        "fluid_level_spread"
    } else if i == 3 {
        "lava"
    } else if i == 4 {
        "exclusion"
    } else {
        "surface_level"
    }
}

/// The first `n` of the six functions of an object, each a root.
pub open spec fn config_read<F: Fn(Ask) -> u64>(f: F, st: Reading, a: Tree, n: nat) -> (Result<Seq<Func>, LoadError>, Reading)
    decreases n,
{
    if n == 0 {
        (Ok(Seq::empty()), st)
    } else {
        match config_read(f, st, a, (n - 1) as nat) {
            (Err(e), s) => (Err(e), s),
            (Ok(before), s) => match a.get(config_key(n - 1)) {
                None => (Err(LoadError::MissingField), s),
                Some(v) => match root_read(f, s, v) {
                    (Err(e), t) => (Err(e), t),
                    (Ok(x), t) => (Ok(before.push(x)), t),
                },
            },
        }
    }
}

/// What noise settings say of aquifers.
pub open spec fn aquifers_read<F: Fn(Ask) -> u64>(f: F, st: Reading, settings: Tree) -> (Result<Seq<Func>, LoadError>, Reading) {
    match settings.get("aquifers"@) {
        Some(a) => if a is Object { config_read(f, st, a, 6) } else { (Err(LoadError::MissingField), st) },
        None => (Err(LoadError::MissingField), st),
    }
}

proof fn lemma_config_fails<F: Fn(Ask) -> u64>(f: F, st: Reading, a: Tree, m: nat, n: nat)
    requires
        m <= n,
        config_read(f, st, a, m).0 is Err,
    ensures
        config_read(f, st, a, n) == config_read(f, st, a, m),
    decreases n,
{
    if m < n {
        lemma_config_fails(f, st, a, m, (n - 1) as nat);
    }
}

impl AquiferConfig {
    /// The six functions as values.
    pub open spec fn funcs(self) -> Seq<Func> {
        seq![
            func_of(*self.barrier),
            func_of(*self.floodedness),
            func_of(*self.spread),
            func_of(*self.lava),
            func_of(*self.exclusion),
            func_of(*self.surface_level),
        ]
    }

    /// Caches with the same id hold the same input.
    pub open spec fn shares(self, inputs: Map<usize, Node>) -> bool {
        &&& agrees(*self.barrier, inputs)
        &&& agrees(*self.floodedness, inputs)
        &&& agrees(*self.spread, inputs)
        &&& agrees(*self.lava, inputs)
        &&& agrees(*self.exclusion, inputs)
        &&& agrees(*self.surface_level, inputs)
    }

    /// Whether every function can be evaluated.
    pub fn is_sound(&self) -> (r: bool)
        ensures
            r ==> forall|inputs: Map<usize, Node>| #[trigger] self.shares(inputs) ==> coherent(*self, inputs),
            r == (sound(*self.barrier) && sound(*self.floodedness) && sound(*self.spread) && sound(*self.lava) && sound(
                *self.exclusion) && sound(*self.surface_level)),
    {
        self.barrier.is_sound() && self.floodedness.is_sound() && self.spread.is_sound() && self.lava.is_sound()
            && self.exclusion.is_sound() && self.surface_level.is_sound()
    }

    /// Read the `aquifers` object of noise settings.
    pub fn load<F: Fn(Ask) -> u64>(loader: &mut Loader, settings: &Json, f: &F) -> (r: Result<AquiferConfig, LoadError>)
        requires
            answers(*f),
            old(loader).wf(),
        ensures
            ({
                let (x, s) = aquifers_read(*f, old(loader)@, tree(*settings));
                &&& s == final(loader)@
                &&& match r {
                    Ok(c) => x == Ok::<Seq<Func>, LoadError>(c.funcs()),
                    Err(e) => x == Err::<Seq<Func>, LoadError>(e),
                }
            }),
            final(loader).went_on(old(loader)),
            r matches Ok(c) ==> exists|inputs: Map<usize, Node>| #[trigger] c.shares(inputs),
    {
        let a = match settings.get("aquifers") {
            None => return Err(LoadError::MissingField),
            Some(a) => a,
        };
        match a {
            Json::Object(_) => {},
            _ => return Err(LoadError::MissingField),
        }
        let ghost t = tree(*a);
        let mut out: Vec<Arc<Node>> = Vec::new();
        let mut rule = SliceUniformAxes::new();
        let mut i: usize = 0;
        proof { assert(funcs_of(out@, 0) =~= Seq::empty()); }
        while i < 6
            invariant
                i <= 6,
                answers(*f),
                t == tree(*a),
                out@.len() == i,
                config_read(*f, old(loader)@, t, i as nat) == (
                    Ok::<Seq<Func>, LoadError>(funcs_of(out@, i as nat)),
                    loader@,
                ),
                aquifers_read(*f, old(loader)@, tree(*settings)) == config_read(*f, old(loader)@, t, 6),
                loader.went_on(old(loader)),
                rule.follows(loader.inputs()),
                forall|k: int| 0 <= k < i ==> agrees(*#[trigger] out@[k], rule.outputs()),
            decreases 6 - i,
        {
            let ghost before = out@;
            let ghost o = rule.outputs();
            let v = match a.get(key_at(i)) {
                None => {
                    proof { lemma_config_fails(*f, old(loader)@, t, (i + 1) as nat, 6); }
                    return Err(LoadError::MissingField);
                },
                Some(v) => v,
            };
            let n = match loader.root(v, &mut rule, f) {
                Ok(n) => n,
                Err(e) => {
                    proof { lemma_config_fails(*f, old(loader)@, t, (i + 1) as nat, 6); }
                    return Err(e);
                },
            };
            out.push(n);
            proof {
                lemma_funcs_prefix(before, out@, i as nat);
                assert(funcs_of(out@, (i + 1) as nat) == funcs_of(out@, i as nat).push(func_of(*out@[i as int])));
                assert forall|k: int| 0 <= k < i + 1 implies agrees(*#[trigger] out@[k], rule.outputs()) by {
                    if k < i {
                        assert(out@[k] == before[k]);
                        lemma_agrees_grows(inner(before[k]), o, rule.outputs());
                    }
                }
            }
            i += 1;
        }
        let c = AquiferConfig {
            barrier: share(&out[0]),
            floodedness: share(&out[1]),
            spread: share(&out[2]),
            lava: share(&out[3]),
            exclusion: share(&out[4]),
            surface_level: share(&out[5]),
        };
        proof {
            lemma_funcs(out@, 6);
            assert(c.funcs() =~= funcs_of(out@, 6));
            assert(c.shares(rule.outputs()));
        }
        Ok(c)
    }
}

} // verus!
