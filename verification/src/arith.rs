//! Arithmetic on real numbers, as a service of the caller.
//!
//! Density functions compute on single and double precision numbers. The
//! library decides what is computed and in which order; each elementary
//! operation is an [`Ask`] that the caller's arithmetic answers. Numbers
//! are carried as their bit patterns.

use vstd::prelude::*;

verus! {

/// One elementary operation. Names ending in 64 work on double precision,
/// names ending in 32 on single precision. A comparison answers nonzero
/// for true; a single precision or integer answer sits in the low 32 bits.
#[allow(inconsistent_fields)]
#[derive(Clone, Copy, Debug)]
pub enum Ask {
    Add64(u64, u64),
    Sub64(u64, u64),
    Mul64(u64, u64),
    Div64(u64, u64),
    Min64(u64, u64),
    Max64(u64, u64),
    Less64(u64, u64),
    LessEq64(u64, u64),
    Equal64(u64, u64),
    Abs64(u64),
    Floor64(u64),
    Ceil64(u64),
    Sqrt64(u64),
    Ln64(u64),
    Pow64(u64, u64),
    Exp64(u64),
    /// Raised to an integer power.
    Powi64(u64, i32),
    Neg64(u64),
    /// The integer as a double.
    FromInt64(i32),
    /// The 64-bit integer as a double.
    FromLong64(i64),
    /// The double cut to an integer, clamped to its range.
    ToInt64(u64),
    /// The double cut to a 64-bit integer, clamped to its range.
    ToLong64(u64),
    Sin64(u64),
    Cos64(u64),
    /// The single as a double.
    Widen(u32),
    /// The double rounded to a single.
    Narrow(u64),
    Add32(u32, u32),
    Sub32(u32, u32),
    Mul32(u32, u32),
    Div32(u32, u32),
    Rem32(u32, u32),
    Min32(u32, u32),
    Max32(u32, u32),
    Less32(u32, u32),
    LessEq32(u32, u32),
    Equal32(u32, u32),
    Nan32(u32),
    Abs32(u32),
    Neg32(u32),
    Signum32(u32),
    Sqrt32(u32),
    /// Rounded to the nearest integer, halves away from zero.
    Round32(u32),
    /// Raised to an integer power.
    Powi32(u32, i32),
    /// The integer as a single.
    FromInt32(i32),
    /// The single cut to an integer, clamped to its range.
    ToInt32(u32),
    /// The single cut to a byte, clamped to its range.
    ToByte32(u32),
    /// The single cut to a 64-bit integer, clamped to its range.
    ToLong32(u32),
    /// The 64-bit integer as a single.
    FromLong32(i64),
    /// A registered noise at a point, as a double.
    Noise { noise: usize, x: u64, y: u64, z: u64 },
    /// The legacy blended terrain noise at a block, as a double.
    Blended { xz_scale: u64, y_scale: u64, xz_factor: u64, y_factor: u64, smear: u64, bx: i32, by: i32, bz: i32 },
    /// The end island simplex noise of a world seed at a chunk, as a
    /// double.
    Island { seed: i64, cx: i32, cz: i32 },
    /// The biome at a block, by index, found through the world's zoom.
    Biome { x: i32, y: i32, z: i32 },
    /// The largest absolute value of a noise stack, two per amplitude, as a
    /// single.
    StackBound(usize),
    /// A noise stack at a point, along the point path, as a single.
    Stack { stack: usize, x: u64, y: u64, z: u64 },
    /// A noise stack at a block, along the volume path, as a single.
    StackBlock { stack: usize, bx: i32, by: i32, bz: i32, xz_scale: u64, y_scale: u64, amplitude: u32 },
}

/// What the arithmetic answers.
pub open spec fn reply<F: Fn(Ask) -> u64>(f: F, ask: Ask) -> u64 {
    choose|r: u64| call_ensures(f, (ask,), r)
}

/// Whether the arithmetic says yes.
pub open spec fn holds<F: Fn(Ask) -> u64>(f: F, ask: Ask) -> bool {
    reply(f, ask) != 0
}

/// A single precision or integer answer.
pub open spec fn low<F: Fn(Ask) -> u64>(f: F, ask: Ask) -> u32 {
    reply(f, ask) as u32
}

/// The arithmetic answers everything, and always the same.
pub open spec fn answers<F: Fn(Ask) -> u64>(f: F) -> bool {
    &&& forall|ask: Ask| #[trigger] call_requires(f, (ask,))
    &&& forall|ask: Ask, r: u64| #[trigger] call_ensures(f, (ask,), r) ==> r == reply(f, ask)
}

/// Zero, in both precisions.
pub const ZERO: u64 = 0;

/// 1.
pub const ONE: u64 = 0x3FF0_0000_0000_0000;

/// 2.
pub const TWO: u64 = 0x4000_0000_0000_0000;

/// 4.
pub const FOUR: u64 = 0x4010_0000_0000_0000;

/// 8.
pub const EIGHT: u64 = 0x4020_0000_0000_0000;

/// -1.
pub const MINUS_ONE: u64 = 0xBFF0_0000_0000_0000;

/// A half.
pub const HALF: u64 = 0x3FE0_0000_0000_0000;

/// A quarter.
pub const QUARTER: u64 = 0x3FD0_0000_0000_0000;

/// 24.
pub const TWENTY_FOUR: u64 = 0x4038_0000_0000_0000;

/// 0.75.
pub const THREE_QUARTERS: u64 = 0x3FE8_0000_0000_0000;

/// 1.5.
pub const THREE_HALVES: u64 = 0x3FF8_0000_0000_0000;

/// 3.
pub const THREE: u64 = 0x4008_0000_0000_0000;

/// -0.5.
pub const MINUS_HALF: u64 = 0xBFE0_0000_0000_0000;

/// -0.75.
pub const MINUS_THREE_QUARTERS: u64 = 0xBFE8_0000_0000_0000;

/// 128.
pub const ONE_TWENTY_EIGHT: u64 = 0x4060_0000_0000_0000;

/// 1, single precision.
pub const ONE_32: u32 = 0x3F80_0000;

/// A quarter, single precision.
pub const QUARTER_32: u32 = 0x3E80_0000;

/// A half, single precision.
pub const HALF_32: u32 = 0x3F00_0000;

/// Bounded from below, then from above.
pub open spec fn clamped64<F: Fn(Ask) -> u64>(f: F, v: u64, min: u64, max: u64) -> u64 {
    if holds(f, Ask::Less64(v, min)) {
        min
    } else if holds(f, Ask::Less64(max, v)) {
        max
    } else {
        v
    }
}

pub fn clamp64<F: Fn(Ask) -> u64>(f: &F, v: u64, min: u64, max: u64) -> (r: u64)
    requires
        answers(*f),
    ensures
        r == clamped64(*f, v, min, max),
{
    if f(Ask::Less64(v, min)) != 0 {
        min
    } else if f(Ask::Less64(max, v)) != 0 {
        max
    } else {
        v
    }
}

/// `lo + t * (hi - lo)`, single precision.
pub open spec fn lerped32<F: Fn(Ask) -> u64>(f: F, t: u32, lo: u32, hi: u32) -> u32 {
    low(f, Ask::Add32(lo, low(f, Ask::Mul32(t, low(f, Ask::Sub32(hi, lo))))))
}

pub fn lerp32<F: Fn(Ask) -> u64>(f: &F, t: u32, lo: u32, hi: u32) -> (r: u32)
    requires
        answers(*f),
    ensures
        r == lerped32(*f, t, lo, hi),
{
    let d: u32 = f(Ask::Sub32(hi, lo)) as u32;
    let m: u32 = f(Ask::Mul32(t, d)) as u32;
    f(Ask::Add32(lo, m)) as u32
}

/// `lo + t * (hi - lo)`, double precision.
pub open spec fn lerped64<F: Fn(Ask) -> u64>(f: F, t: u64, lo: u64, hi: u64) -> u64 {
    reply(f, Ask::Add64(lo, reply(f, Ask::Mul64(t, reply(f, Ask::Sub64(hi, lo))))))
}

pub fn lerp64<F: Fn(Ask) -> u64>(f: &F, t: u64, lo: u64, hi: u64) -> (r: u64)
    requires
        answers(*f),
    ensures
        r == lerped64(*f, t, lo, hi),
{
    let d: u64 = f(Ask::Sub64(hi, lo));
    let m: u64 = f(Ask::Mul64(t, d));
    f(Ask::Add64(lo, m))
}

/// Bisection for the first location the input lies below, in `from..to`.
pub open spec fn bisect<F: Fn(Ask) -> u64>(f: F, locations: Seq<u32>, input: u32, from: int, to: int) -> int
    decreases to - from,
{
    if from >= to {
        from
    } else {
        let mid = from + (to - from) / 2;
        if holds(f, Ask::Less32(input, locations[mid])) {
            bisect(f, locations, input, from, mid)
        } else {
            bisect(f, locations, input, mid + 1, to)
        }
    }
}

/// How many locations, by bisection, the input is not below.
pub fn interval<F: Fn(Ask) -> u64>(f: &F, locations: &Vec<u32>, input: u32) -> (r: usize)
    requires
        answers(*f),
    ensures
        r == bisect(*f, locations@, input, 0, locations@.len() as int),
        r <= locations@.len(),
{
    let mut from: usize = 0;
    let mut to: usize = locations.len();
    while from < to
        invariant
            answers(*f),
            from <= to <= locations@.len(),
            bisect(*f, locations@, input, from as int, to as int) == bisect(
                *f, locations@, input, 0, locations@.len() as int),
        decreases to - from,
    {
        let mid: usize = from + (to - from) / 2;
        if f(Ask::Less32(input, locations[mid])) != 0 {
            to = mid;
        } else {
            from = mid + 1;
        }
    }
    from
}

/// A spline beyond its last knot on one side: flat where the slope is
/// zero, else a straight line from the knot.
pub open spec fn extended<F: Fn(Ask) -> u64>(f: F, input: u32, location: u32, value: u32, derivative: u32) -> u32 {
    if holds(f, Ask::Equal32(derivative, 0)) {
        value
    } else {
        low(f, Ask::Add32(value, low(f, Ask::Mul32(derivative, low(f, Ask::Sub32(input, location))))))
    }
}

pub fn linear_extend<F: Fn(Ask) -> u64>(f: &F, input: u32, location: u32, value: u32, derivative: u32) -> (r: u32)
    requires
        answers(*f),
    ensures
        r == extended(*f, input, location, value, derivative),
{
    if f(Ask::Equal32(derivative, 0)) != 0 {
        value
    } else {
        let d: u32 = f(Ask::Sub32(input, location)) as u32;
        let m: u32 = f(Ask::Mul32(derivative, d)) as u32;
        f(Ask::Add32(value, m)) as u32
    }
}

/// A spline between two knots: the Hermite cubic through `(x1, y1)` and
/// `(x2, y2)` with slopes `d1` and `d2`.
pub open spec fn hermite_at<F: Fn(Ask) -> u64>(f: F, input: u32, x1: u32, x2: u32, y1: u32, y2: u32, d1: u32, d2: u32) -> u32 {
    let width = low(f, Ask::Sub32(x2, x1));
    let t = low(f, Ask::Div32(low(f, Ask::Sub32(input, x1)), width));
    let rise = low(f, Ask::Sub32(y2, y1));
    let a = low(f, Ask::Sub32(low(f, Ask::Mul32(d1, width)), rise));
    let b = low(f, Ask::Add32(low(f, Ask::Mul32(low(f, Ask::Neg32(d2)), width)), rise));
    let bend = low(f, Ask::Mul32(t, low(f, Ask::Sub32(ONE_32, t))));
    low(f, Ask::Add32(lerped32(f, t, y1, y2), low(f, Ask::Mul32(bend, lerped32(f, t, a, b)))))
}

pub fn hermite<F: Fn(Ask) -> u64>(f: &F, input: u32, x1: u32, x2: u32, y1: u32, y2: u32, d1: u32, d2: u32) -> (r: u32)
    requires
        answers(*f),
    ensures
        r == hermite_at(*f, input, x1, x2, y1, y2, d1, d2),
{
    let width: u32 = f(Ask::Sub32(x2, x1)) as u32;
    let run: u32 = f(Ask::Sub32(input, x1)) as u32;
    let t: u32 = f(Ask::Div32(run, width)) as u32;
    let rise: u32 = f(Ask::Sub32(y2, y1)) as u32;
    let a1: u32 = f(Ask::Mul32(d1, width)) as u32;
    let a: u32 = f(Ask::Sub32(a1, rise)) as u32;
    let n: u32 = f(Ask::Neg32(d2)) as u32;
    let b1: u32 = f(Ask::Mul32(n, width)) as u32;
    let b: u32 = f(Ask::Add32(b1, rise)) as u32;
    let rest: u32 = f(Ask::Sub32(ONE_32, t)) as u32;
    let bend: u32 = f(Ask::Mul32(t, rest)) as u32;
    let base: u32 = lerp32(f, t, y1, y2);
    let bow: u32 = lerp32(f, t, a, b);
    let bent: u32 = f(Ask::Mul32(bend, bow)) as u32;
    f(Ask::Add32(base, bent)) as u32
}

} // verus!
