//! Density function trees in double precision: evaluation, bounds, and the
//! compact byte form a tree arrives in.

use vstd::prelude::*;
use crate::arith::{
    answers, bisect, clamp64, clamped64, extended, hermite, hermite_at, holds, interval, lerp64, lerped64, linear_extend,
    low, reply, Ask, EIGHT, FOUR, HALF, MINUS_HALF, MINUS_ONE, MINUS_THREE_QUARTERS, ONE, ONE_TWENTY_EIGHT, QUARTER,
    THREE, THREE_HALVES, THREE_QUARTERS, TWENTY_FOUR, TWO, ZERO,
};
use crate::text::{find_name, position_of};

verus! {

/// A block position.
#[derive(Clone, Copy, Debug, PartialEq, Eq, Structural)]
pub struct FunctionContext {
    pub block_x: i32,
    pub block_y: i32,
    pub block_z: i32,
}

impl FunctionContext {
    pub fn new(block_x: i32, block_y: i32, block_z: i32) -> (r: FunctionContext)
        ensures
            r == (FunctionContext { block_x, block_y, block_z }),
    {
        FunctionContext { block_x, block_y, block_z }
    }
}

/// What a tree is evaluated against: the world seed and the names of the
/// registered noises, in the order the arithmetic knows them by.
#[derive(Debug)]
pub struct WorldgenState {
    pub seed: i64,
    pub noises: Vec<String>,
}

/// The cache a marker asks for.
#[derive(Clone, Copy, Debug, PartialEq, Eq, Structural)]
pub enum MarkerKind {
    Interpolated,
    FlatCache,
    Cache2D,
    CacheOnce,
    CacheAllInCell,
}

/// Quantizes a noise input to a small set of rarity factors that scale
/// both sample coordinates and output magnitude.
#[derive(Clone, Copy, Debug, PartialEq, Eq, Structural)]
pub enum RarityValueMapper {
    /// 3D spaghetti: {0.75, 1.0, 1.5, 2.0}.
    Type1,
    /// 2D spaghetti: {0.5, 0.75, 1.0, 2.0, 3.0}.
    Type2,
}

impl RarityValueMapper {
    /// The step function from a noise input to its rarity factor.
    pub open spec fn factor<F: Fn(Ask) -> u64>(self, f: F, v: u64) -> u64 {
        match self {
            RarityValueMapper::Type1 => if holds(f, Ask::Less64(v, MINUS_HALF)) {
                THREE_QUARTERS
            } else if holds(f, Ask::Less64(v, ZERO)) {
                ONE
            } else if holds(f, Ask::Less64(v, HALF)) {
                THREE_HALVES
            } else {
                TWO
            },
            RarityValueMapper::Type2 => if holds(f, Ask::Less64(v, MINUS_THREE_QUARTERS)) {
                HALF
            } else if holds(f, Ask::Less64(v, MINUS_HALF)) {
                THREE_QUARTERS
            } else if holds(f, Ask::Less64(v, HALF)) {
                ONE
            } else if holds(f, Ask::Less64(v, THREE_QUARTERS)) {
                TWO
            } else {
                THREE
            },
        }
    }

    pub fn apply<F: Fn(Ask) -> u64>(self, rarity_factor: u64, f: &F) -> (r: u64)
        requires
            answers(*f),
        ensures
            r == self.factor(*f, rarity_factor),
    {
        match self {
            RarityValueMapper::Type1 => {
                if f(Ask::Less64(rarity_factor, MINUS_HALF)) != 0 {
                    THREE_QUARTERS
                } else if f(Ask::Less64(rarity_factor, ZERO)) != 0 {
                    ONE
                } else if f(Ask::Less64(rarity_factor, HALF)) != 0 {
                    THREE_HALVES
                } else {
                    TWO
                }
            },
            RarityValueMapper::Type2 => {
                if f(Ask::Less64(rarity_factor, MINUS_THREE_QUARTERS)) != 0 {
                    HALF
                } else if f(Ask::Less64(rarity_factor, MINUS_HALF)) != 0 {
                    THREE_QUARTERS
                } else if f(Ask::Less64(rarity_factor, HALF)) != 0 {
                    ONE
                } else if f(Ask::Less64(rarity_factor, THREE_QUARTERS)) != 0 {
                    TWO
                } else {
                    THREE
                }
            },
        }
    }

    /// The largest factor the mapper gives.
    pub fn max_rarity(self) -> (r: u64)
        ensures
            r == (match self {
                RarityValueMapper::Type1 => TWO,
                RarityValueMapper::Type2 => THREE,
            }),
    {
        match self {
            RarityValueMapper::Type1 => TWO,
            RarityValueMapper::Type2 => THREE,
        }
    }
}

/// The end island terrain of the world seed.
#[derive(Clone, Copy, Debug, PartialEq, Eq, Structural)]
pub struct LazyEndIsland {}

impl Default for LazyEndIsland {
    fn default() -> (r: LazyEndIsland)
        ensures
            r == (LazyEndIsland {  }),
    {
        LazyEndIsland {  }
    }
}

impl LazyEndIsland {
    pub fn new() -> (r: LazyEndIsland)
        ensures
            r == (LazyEndIsland {  }),
    {
        LazyEndIsland {  }
    }
}

/// The parameters of the legacy blended terrain noise.
#[derive(Clone, Copy, Debug, PartialEq, Eq, Structural)]
pub struct LazyBlendedNoise {
    pub xz_scale: u64,
    pub y_scale: u64,
    pub xz_factor: u64,
    pub y_factor: u64,
    pub smear_scale_multiplier: u64,
}

impl LazyBlendedNoise {
    pub fn new(xz_scale: u64, y_scale: u64, xz_factor: u64, y_factor: u64, smear_scale_multiplier: u64) -> (r: LazyBlendedNoise)
        ensures
            r == (LazyBlendedNoise { xz_scale, y_scale, xz_factor, y_factor, smear_scale_multiplier }),
    {
        LazyBlendedNoise { xz_scale, y_scale, xz_factor, y_factor, smear_scale_multiplier }
    }

    /// The question the noise puts to the arithmetic.
    pub open spec fn ask_at(self, x: i32, y: i32, z: i32) -> Ask {
        Ask::Blended {
            xz_scale: self.xz_scale,
            y_scale: self.y_scale,
            xz_factor: self.xz_factor,
            y_factor: self.y_factor,
            smear: self.smear_scale_multiplier,
            bx: x,
            by: y,
            bz: z,
        }
    }

    /// The noise at a block.
    pub fn sample<F: Fn(Ask) -> u64>(&self, x: i32, y: i32, z: i32, f: &F) -> (r: u64)
        requires
            answers(*f),
        ensures
            r == reply(*f, self.ask_at(x, y, z)),
    {
        f(Ask::Blended {
            xz_scale: self.xz_scale,
            y_scale: self.y_scale,
            xz_factor: self.xz_factor,
            y_factor: self.y_factor,
            smear: self.smear_scale_multiplier,
            bx: x,
            by: y,
            bz: z,
        })
    }
}

/// One node of a density function tree. Numbers are double precision bit
/// patterns.
#[derive(Debug)]
pub enum DensityFunction {
    Constant(u64),
    /// A noise by name; one that is not registered samples to zero.
    Noise { noise_name: String, xz_scale: u64, y_scale: u64 },
    Add(Box<DensityFunction>, Box<DensityFunction>),
    /// The second factor is not evaluated when the first is zero.
    Mul(Box<DensityFunction>, Box<DensityFunction>),
    /// The second argument is not evaluated when the first lies below its
    /// lower bound.
    Min(Box<DensityFunction>, Box<DensityFunction>),
    /// The second argument is not evaluated when the first lies above its
    /// upper bound.
    Max(Box<DensityFunction>, Box<DensityFunction>),
    Abs(Box<DensityFunction>),
    Square(Box<DensityFunction>),
    Cube(Box<DensityFunction>),
    HalfNegative(Box<DensityFunction>),
    QuarterNegative(Box<DensityFunction>),
    Invert(Box<DensityFunction>),
    /// Cubic ease of the input clamped to -1..1.
    Squeeze(Box<DensityFunction>),
    Clamp { input: Box<DensityFunction>, min: u64, max: u64 },
    /// Gradient in y, saturating outside its range.
    YClampedGradient { from_y: i32, to_y: i32, from_value: u64, to_value: u64 },
    RangeChoice {
        input: Box<DensityFunction>,
        min_inclusive: u64,
        max_exclusive: u64,
        when_in_range: Box<DensityFunction>,
        when_out_of_range: Box<DensityFunction>,
    },
    Marker { kind: MarkerKind, wrapped: Box<DensityFunction> },
    Shift { noise_name: String },
    ShiftA { noise_name: String },
    ShiftB { noise_name: String },
    ShiftedNoise {
        shift_x: Box<DensityFunction>,
        shift_y: Box<DensityFunction>,
        shift_z: Box<DensityFunction>,
        xz_scale: u64,
        y_scale: u64,
        noise_name: String,
    },
    WeirdScaledSampler { input: Box<DensityFunction>, noise_name: String, rarity_value_mapper: RarityValueMapper },
    /// The first function whose threshold the input lies below; else the
    /// last one.
    IntervalSelect { input: Box<DensityFunction>, thresholds: Vec<u64>, functions: Vec<DensityFunction> },
    Spline(Box<DfSpline>),
    BlendedNoise(LazyBlendedNoise),
    /// The highest multiple of the cell height, from the upper bound down
    /// to the lower one, where the density is positive.
    FindTopSurface {
        density: Box<DensityFunction>,
        upper_bound: Box<DensityFunction>,
        lower_bound: i32,
        cell_height: i32,
    },
    EndIsland(LazyEndIsland),
}

/// Hermite cubic spline over a coordinate function, in single precision;
/// each knot's value is a spline again.
#[derive(Debug)]
pub enum DfSpline {
    Constant(u32),
    Multipoint {
        coordinate: Box<DensityFunction>,
        locations: Vec<u32>,
        values: Vec<DfSpline>,
        derivatives: Vec<u32>,
        min_value: u32,
        max_value: u32,
    },
}

/// The tree can be evaluated anywhere: selections have a function to pick,
/// and splines have a value and a slope per knot.
pub open spec fn sound(df: DensityFunction) -> bool
    decreases df,
{
    match df {
        DensityFunction::Add(a, b) => sound(*a) && sound(*b),
        DensityFunction::Mul(a, b) => sound(*a) && sound(*b),
        DensityFunction::Min(a, b) => sound(*a) && sound(*b),
        DensityFunction::Max(a, b) => sound(*a) && sound(*b),
        DensityFunction::Abs(x) => sound(*x),
        DensityFunction::Square(x) => sound(*x),
        DensityFunction::Cube(x) => sound(*x),
        DensityFunction::HalfNegative(x) => sound(*x),
        DensityFunction::QuarterNegative(x) => sound(*x),
        DensityFunction::Invert(x) => sound(*x),
        DensityFunction::Squeeze(x) => sound(*x),
        DensityFunction::Clamp { input, .. } => sound(*input),
        DensityFunction::RangeChoice { input, when_in_range, when_out_of_range, .. } => {
            sound(*input) && sound(*when_in_range) && sound(*when_out_of_range)
        },
        DensityFunction::Marker { wrapped, .. } => sound(*wrapped),
        DensityFunction::ShiftedNoise { shift_x, shift_y, shift_z, .. } => {
            sound(*shift_x) && sound(*shift_y) && sound(*shift_z)
        },
        DensityFunction::WeirdScaledSampler { input, .. } => sound(*input),
        DensityFunction::IntervalSelect { input, thresholds, functions } => {
            &&& sound(*input)
            &&& functions@.len() >= 1
            &&& thresholds@.len() <= functions@.len()
            &&& forall|i: int| 0 <= i < functions@.len() ==> sound(#[trigger] functions@[i])
        },
        DensityFunction::Spline(s) => sound_spline(*s),
        DensityFunction::FindTopSurface { density, upper_bound, .. } => sound(*density) && sound(*upper_bound),
        _ => true,
    }
}

/// The spline has a value and a slope per knot, and at least one knot.
pub open spec fn sound_spline(s: DfSpline) -> bool
    decreases s,
{
    match s {
        DfSpline::Constant(_) => true,
        DfSpline::Multipoint { coordinate, locations, values, derivatives, .. } => {
            &&& sound(*coordinate)
            &&& locations@.len() >= 1
            &&& values@.len() == locations@.len()
            &&& derivatives@.len() == locations@.len()
            &&& forall|i: int| 0 <= i < values@.len() ==> sound_spline(#[trigger] values@[i])
        },
    }
}

/// A registered noise at a point, or zero.
pub open spec fn noise_value<F: Fn(Ask) -> u64>(f: F, st: WorldgenState, name: Seq<char>, x: u64, y: u64, z: u64) -> u64 {
    match find_name(st.noises@, name, st.noises@.len()) {
        Some(i) => reply(f, Ask::Noise { noise: i as usize, x, y, z }),
        None => ZERO,
    }
}

fn sample_noise<F: Fn(Ask) -> u64>(f: &F, st: &WorldgenState, name: &str, x: u64, y: u64, z: u64) -> (r: u64)
    requires
        answers(*f),
    ensures
        r == noise_value(*f, *st, name@, x, y, z),
{
    match position_of(&st.noises, name) {
        Some(i) => f(Ask::Noise { noise: i, x, y, z }),
        None => ZERO,
    }
}

/// An offset noise: sampled at a quarter of the coordinates, times four.
pub open spec fn shift_value<F: Fn(Ask) -> u64>(f: F, st: WorldgenState, name: Seq<char>, a: u64, b: u64, c: u64) -> u64 {
    match find_name(st.noises@, name, st.noises@.len()) {
        Some(i) => reply(f, Ask::Mul64(reply(f, Ask::Noise {
            noise: i as usize,
            x: reply(f, Ask::Mul64(a, QUARTER)),
            y: reply(f, Ask::Mul64(b, QUARTER)),
            z: reply(f, Ask::Mul64(c, QUARTER)),
        }), FOUR)),
        None => ZERO,
    }
}

fn sample_shift<F: Fn(Ask) -> u64>(f: &F, st: &WorldgenState, name: &str, a: u64, b: u64, c: u64) -> (r: u64)
    requires
        answers(*f),
    ensures
        r == shift_value(*f, *st, name@, a, b, c),
{
    match position_of(&st.noises, name) {
        Some(i) => {
            let x: u64 = f(Ask::Mul64(a, QUARTER));
            let y: u64 = f(Ask::Mul64(b, QUARTER));
            let z: u64 = f(Ask::Mul64(c, QUARTER));
            let v: u64 = f(Ask::Noise { noise: i, x, y, z });
            f(Ask::Mul64(v, FOUR))
        },
        None => ZERO,
    }
}

/// The integer as a double.
pub open spec fn as_double<F: Fn(Ask) -> u64>(f: F, v: i32) -> u64 {
    reply(f, Ask::FromInt64(v))
}

/// `v` where it is positive, else scaled.
pub open spec fn damped<F: Fn(Ask) -> u64>(f: F, v: u64, scale: u64) -> u64 {
    if holds(f, Ask::Less64(ZERO, v)) { v } else { reply(f, Ask::Mul64(v, scale)) }
}

fn damp<F: Fn(Ask) -> u64>(f: &F, v: u64, scale: u64) -> (r: u64)
    requires
        answers(*f),
    ensures
        r == damped(*f, v, scale),
{
    if f(Ask::Less64(ZERO, v)) != 0 { v } else { f(Ask::Mul64(v, scale)) }
}

/// The third power.
pub open spec fn cubed<F: Fn(Ask) -> u64>(f: F, v: u64) -> u64 {
    reply(f, Ask::Mul64(reply(f, Ask::Mul64(v, v)), v))
}

fn cube<F: Fn(Ask) -> u64>(f: &F, v: u64) -> (r: u64)
    requires
        answers(*f),
    ensures
        r == cubed(*f, v),
{
    let s: u64 = f(Ask::Mul64(v, v));
    f(Ask::Mul64(s, v))
}

/// `c/2 - c^3/24` of the input clamped to -1..1.
pub open spec fn squeezed<F: Fn(Ask) -> u64>(f: F, v: u64) -> u64 {
    let c = clamped64(f, v, MINUS_ONE, ONE);
    reply(f, Ask::Sub64(reply(f, Ask::Div64(c, TWO)), reply(f, Ask::Div64(cubed(f, c), TWENTY_FOUR))))
}

fn squeeze<F: Fn(Ask) -> u64>(f: &F, v: u64) -> (r: u64)
    requires
        answers(*f),
    ensures
        r == squeezed(*f, v),
{
    let c: u64 = clamp64(f, v, MINUS_ONE, ONE);
    let h: u64 = f(Ask::Div64(c, TWO));
    let k: u64 = cube(f, c);
    let q: u64 = f(Ask::Div64(k, TWENTY_FOUR));
    f(Ask::Sub64(h, q))
}

/// The line from `from_value` at `from` to `to_value` at `to`, flat outside.
pub open spec fn clamped_map_at<F: Fn(Ask) -> u64>(f: F, v: u64, from: u64, to: u64, from_value: u64, to_value: u64) -> u64 {
    if holds(f, Ask::LessEq64(v, from)) {
        from_value
    } else if holds(f, Ask::LessEq64(to, v)) {
        to_value
    } else {
        let t = reply(f, Ask::Div64(reply(f, Ask::Sub64(v, from)), reply(f, Ask::Sub64(to, from))));
        lerped64(f, t, from_value, to_value)
    }
}

fn clamped_map<F: Fn(Ask) -> u64>(f: &F, v: u64, from: u64, to: u64, from_value: u64, to_value: u64) -> (r: u64)
    requires
        answers(*f),
    ensures
        r == clamped_map_at(*f, v, from, to, from_value, to_value),
{
    if f(Ask::LessEq64(v, from)) != 0 {
        from_value
    } else if f(Ask::LessEq64(to, v)) != 0 {
        to_value
    } else {
        let a: u64 = f(Ask::Sub64(v, from));
        let b: u64 = f(Ask::Sub64(to, from));
        let t: u64 = f(Ask::Div64(a, b));
        lerp64(f, t, from_value, to_value)
    }
}

/// Whether the value lies in the half-open range.
pub open spec fn in_range<F: Fn(Ask) -> u64>(f: F, v: u64, min_inclusive: u64, max_exclusive: u64) -> bool {
    holds(f, Ask::LessEq64(min_inclusive, v)) && holds(f, Ask::Less64(v, max_exclusive))
}

fn within<F: Fn(Ask) -> u64>(f: &F, v: u64, min_inclusive: u64, max_exclusive: u64) -> (r: bool)
    requires
        answers(*f),
    ensures
        r == in_range(*f, v, min_inclusive, max_exclusive),
{
    f(Ask::LessEq64(min_inclusive, v)) != 0 && f(Ask::Less64(v, max_exclusive)) != 0
}

/// The first of `i..` whose threshold the value lies below, else `last`.
pub open spec fn chosen<F: Fn(Ask) -> u64>(f: F, v: u64, thresholds: Seq<u64>, i: int, last: int) -> int
    decreases thresholds.len() - i,
{
    if i < 0 || i >= thresholds.len() {
        last
    } else if holds(f, Ask::Less64(v, thresholds[i])) {
        i
    } else {
        chosen(f, v, thresholds, i + 1, last)
    }
}

proof fn lemma_chosen<F: Fn(Ask) -> u64>(f: F, v: u64, thresholds: Seq<u64>, i: int, last: int)
    ensures
        chosen(f, v, thresholds, i, last) == last || 0 <= chosen(f, v, thresholds, i, last) < thresholds.len(),
    decreases thresholds.len() - i,
{
    if 0 <= i < thresholds.len() && !holds(f, Ask::Less64(v, thresholds[i])) {
        lemma_chosen(f, v, thresholds, i + 1, last);
    }
}

fn choose_interval<F: Fn(Ask) -> u64>(f: &F, v: u64, thresholds: &Vec<u64>, last: usize) -> (r: usize)
    requires
        answers(*f),
    ensures
        r == chosen(*f, v, thresholds@, 0, last as int),
        r == last || r < thresholds@.len(),
{
    let mut i: usize = 0;
    while i < thresholds.len()
        invariant
            answers(*f),
            i <= thresholds@.len(),
            chosen(*f, v, thresholds@, i as int, last as int) == chosen(*f, v, thresholds@, 0, last as int),
        decreases thresholds.len() - i,
    {
        if f(Ask::Less64(v, thresholds[i])) != 0 {
            return i;
        }
        i += 1;
    }
    last
}

/// The value of the tree at a block.
pub open spec fn value<F: Fn(Ask) -> u64>(f: F, df: DensityFunction, c: FunctionContext, st: WorldgenState) -> u64
    decreases df, 0int,
{
    match df {
        DensityFunction::Constant(v) => v,
        DensityFunction::Noise { noise_name, xz_scale, y_scale } => noise_value(
            f, st, noise_name@,
            reply(f, Ask::Mul64(as_double(f, c.block_x), xz_scale)),
            reply(f, Ask::Mul64(as_double(f, c.block_y), y_scale)),
            reply(f, Ask::Mul64(as_double(f, c.block_z), xz_scale)),
        ),
        DensityFunction::Add(a, b) => reply(f, Ask::Add64(value(f, *a, c, st), value(f, *b, c, st))),
        DensityFunction::Mul(a, b) => {
            let v = value(f, *a, c, st);
            if holds(f, Ask::Equal64(v, ZERO)) { ZERO } else { reply(f, Ask::Mul64(v, value(f, *b, c, st))) }
        },
        DensityFunction::Min(a, b) => {
            let v = value(f, *a, c, st);
            if holds(f, Ask::Less64(v, lower(f, *b))) { v } else { reply(f, Ask::Min64(v, value(f, *b, c, st))) }
        },
        DensityFunction::Max(a, b) => {
            let v = value(f, *a, c, st);
            if holds(f, Ask::Less64(upper(f, *b), v)) { v } else { reply(f, Ask::Max64(v, value(f, *b, c, st))) }
        },
        DensityFunction::Abs(x) => reply(f, Ask::Abs64(value(f, *x, c, st))),
        DensityFunction::Square(x) => {
            let v = value(f, *x, c, st);
            reply(f, Ask::Mul64(v, v))
        },
        DensityFunction::Cube(x) => cubed(f, value(f, *x, c, st)),
        DensityFunction::HalfNegative(x) => damped(f, value(f, *x, c, st), HALF),
        DensityFunction::QuarterNegative(x) => damped(f, value(f, *x, c, st), QUARTER),
        DensityFunction::Invert(x) => reply(f, Ask::Div64(ONE, value(f, *x, c, st))),
        DensityFunction::Squeeze(x) => squeezed(f, value(f, *x, c, st)),
        DensityFunction::Clamp { input, min, max } => clamped64(f, value(f, *input, c, st), min, max),
        DensityFunction::YClampedGradient { from_y, to_y, from_value, to_value } => clamped_map_at(
            f, as_double(f, c.block_y), as_double(f, from_y), as_double(f, to_y), from_value, to_value),
        DensityFunction::RangeChoice { input, min_inclusive, max_exclusive, when_in_range, when_out_of_range } => {
            if in_range(f, value(f, *input, c, st), min_inclusive, max_exclusive) {
                value(f, *when_in_range, c, st)
            } else {
                value(f, *when_out_of_range, c, st)
            }
        },
        DensityFunction::IntervalSelect { input, thresholds, functions } => {
            let k = chosen(f, value(f, *input, c, st), thresholds@, 0, functions@.len() - 1);
            if 0 <= k < functions@.len() { value(f, functions@[k], c, st) } else { 0 }
        },
        DensityFunction::Marker { wrapped, .. } => value(f, *wrapped, c, st),
        DensityFunction::Shift { noise_name } => shift_value(
            f, st, noise_name@, as_double(f, c.block_x), as_double(f, c.block_y), as_double(f, c.block_z)),
        DensityFunction::ShiftA { noise_name } => shift_value(
            f, st, noise_name@, as_double(f, c.block_x), ZERO, as_double(f, c.block_z)),
        DensityFunction::ShiftB { noise_name } => shift_value(
            f, st, noise_name@, as_double(f, c.block_z), as_double(f, c.block_x), ZERO),
        DensityFunction::ShiftedNoise { shift_x, shift_y, shift_z, xz_scale, y_scale, noise_name } => noise_value(
            f, st, noise_name@,
            reply(f, Ask::Add64(reply(f, Ask::Mul64(as_double(f, c.block_x), xz_scale)), value(f, *shift_x, c, st))),
            reply(f, Ask::Add64(reply(f, Ask::Mul64(as_double(f, c.block_y), y_scale)), value(f, *shift_y, c, st))),
            reply(f, Ask::Add64(reply(f, Ask::Mul64(as_double(f, c.block_z), xz_scale)), value(f, *shift_z, c, st))),
        ),
        DensityFunction::WeirdScaledSampler { input, noise_name, rarity_value_mapper } => {
            weird_value(f, st, noise_name@, rarity_value_mapper.factor(f, value(f, *input, c, st)), c)
        },
        DensityFunction::Spline(s) => reply(f, Ask::Widen(spline_value(f, *s, c, st))),
        DensityFunction::BlendedNoise(lazy) => reply(f, lazy.ask_at(c.block_x, c.block_y, c.block_z)),
        DensityFunction::FindTopSurface { density, upper_bound, lower_bound, cell_height } => {
            let top = top_cell(f, value(f, *upper_bound, c, st), cell_height);
            let y = probe(f, *density, c, st, top as int, lower_bound as int, cell_height as int);
            as_double(f, y as i32)
        },
        DensityFunction::EndIsland(_) => island_value(f, st.seed, c.block_x, c.block_z),
    }
}

/// The scaled noise of a rarity factor.
pub open spec fn weird_value<F: Fn(Ask) -> u64>(f: F, st: WorldgenState, name: Seq<char>, rarity: u64, c: FunctionContext) -> u64 {
    reply(f, Ask::Mul64(rarity, reply(f, Ask::Abs64(noise_value(
        f, st, name,
        reply(f, Ask::Div64(as_double(f, c.block_x), rarity)),
        reply(f, Ask::Div64(as_double(f, c.block_y), rarity)),
        reply(f, Ask::Div64(as_double(f, c.block_z), rarity)),
    )))))
}

/// The value of the spline at a block.
pub open spec fn spline_value<F: Fn(Ask) -> u64>(f: F, s: DfSpline, c: FunctionContext, st: WorldgenState) -> u32
    decreases s, 0int,
{
    match s {
        DfSpline::Constant(v) => v,
        DfSpline::Multipoint { coordinate, locations, values, derivatives, .. } => {
            let input = low(f, Ask::Narrow(value(f, *coordinate, c, st)));
            let n = locations@.len() as int;
            let k = bisect(f, locations@, input, 0, n);
            if n == 0 || values@.len() != n {
                0
            } else if k <= 0 {
                extended(f, input, locations@[0], spline_value(f, values@[0], c, st), derivatives@[0])
            } else if k >= n {
                extended(f, input, locations@[n - 1], spline_value(f, values@[n - 1], c, st), derivatives@[n - 1])
            } else {
                hermite_at(
                    f, input, locations@[k - 1], locations@[k],
                    spline_value(f, values@[k - 1], c, st), spline_value(f, values@[k], c, st),
                    derivatives@[k - 1], derivatives@[k],
                )
            }
        },
    }
}

/// The multiple of the cell height at or below a bound.
pub open spec fn top_cell<F: Fn(Ask) -> u64>(f: F, bound: u64, cell_height: i32) -> i32 {
    let cells = low(f, Ask::ToInt64(reply(f, Ask::Floor64(reply(f, Ask::Div64(bound, as_double(f, cell_height)))))));
    (cells as i32).wrapping_mul(cell_height)
}

/// The first of `y`, `y - cell`, ... not below `lower` where the density is
/// positive, else `lower`. With a cell height that makes no headway only
/// `y` is looked at.
pub open spec fn probe<F: Fn(Ask) -> u64>(
    f: F, density: DensityFunction, c: FunctionContext, st: WorldgenState, y: int, lower: int, cell: int,
) -> int
    decreases density, y - lower + 1,
{
    if y <= lower {
        lower
    } else if holds(f, Ask::Less64(ZERO, value(f, density, FunctionContext { block_y: y as i32, ..c }, st))) {
        y
    } else if cell > 0 && y - cell >= lower {
        probe(f, density, c, st, y - cell, lower, cell)
    } else {
        lower
    }
}

/// The largest finite double.
pub const LARGEST: u64 = 0x7FEF_FFFF_FFFF_FFFF;

/// The negative of the largest finite double.
pub const MINUS_LARGEST: u64 = 0xFFEF_FFFF_FFFF_FFFF;

/// Infinity.
pub const INFINITY: u64 = 0x7FF0_0000_0000_0000;

/// Minus infinity.
pub const MINUS_INFINITY: u64 = 0xFFF0_0000_0000_0000;

/// 11/24, the largest squeezed value.
pub const SQUEEZE_MAX: u64 = 0x3FDD_5555_5555_5555;

/// -11/24, the smallest squeezed value.
pub const SQUEEZE_MIN: u64 = 0xBFDD_5555_5555_5555;

/// The bound every noise is taken to keep.
pub const NOISE_MAX: u64 = TWO;

/// Its negative.
pub const NOISE_MIN: u64 = 0xC000_0000_0000_0000;

/// -8, four times the noise bound below zero.
pub const SHIFT_MIN: u64 = 0xC020_0000_0000_0000;

/// -0.84375, the lowest end island density.
pub const ISLAND_MIN: u64 = 0xBFEB_0000_0000_0000;

/// 0.5625, the highest end island density.
pub const ISLAND_MAX: u64 = 0x3FE2_0000_0000_0000;

/// The smallest (`top` false) or largest of the four products of two pairs
/// of bounds.
pub open spec fn product_bound<F: Fn(Ask) -> u64>(f: F, a0: u64, a1: u64, b0: u64, b1: u64, top: bool) -> u64 {
    let p = reply(f, Ask::Mul64(a0, b0));
    let q = reply(f, Ask::Mul64(a0, b1));
    let r = reply(f, Ask::Mul64(a1, b0));
    let s = reply(f, Ask::Mul64(a1, b1));
    if top {
        reply(f, Ask::Max64(reply(f, Ask::Max64(reply(f, Ask::Max64(p, q)), r)), s))
    } else {
        reply(f, Ask::Min64(reply(f, Ask::Min64(reply(f, Ask::Min64(p, q)), r)), s))
    }
}

fn bound_product<F: Fn(Ask) -> u64>(f: &F, a0: u64, a1: u64, b0: u64, b1: u64, top: bool) -> (x: u64)
    requires
        answers(*f),
    ensures
        x == product_bound(*f, a0, a1, b0, b1, top),
{
    let p: u64 = f(Ask::Mul64(a0, b0));
    let q: u64 = f(Ask::Mul64(a0, b1));
    let r: u64 = f(Ask::Mul64(a1, b0));
    let s: u64 = f(Ask::Mul64(a1, b1));
    if top {
        let m: u64 = f(Ask::Max64(p, q));
        let n: u64 = f(Ask::Max64(m, r));
        f(Ask::Max64(n, s))
    } else {
        let m: u64 = f(Ask::Min64(p, q));
        let n: u64 = f(Ask::Min64(m, r));
        f(Ask::Min64(n, s))
    }
}

/// The lower bound of the tree.
pub open spec fn lower<F: Fn(Ask) -> u64>(f: F, df: DensityFunction) -> u64
    decreases df, 0nat,
{
    match df {
        DensityFunction::Constant(v) => v,
        DensityFunction::Noise { .. } => NOISE_MIN,
        DensityFunction::Add(a, b) => reply(f, Ask::Add64(lower(f, *a), lower(f, *b))),
        DensityFunction::Mul(a, b) => product_bound(f, lower(f, *a), upper(f, *a), lower(f, *b), upper(f, *b), false),
        DensityFunction::Min(a, b) => reply(f, Ask::Min64(lower(f, *a), lower(f, *b))),
        DensityFunction::Max(a, b) => reply(f, Ask::Max64(lower(f, *a), lower(f, *b))),
        DensityFunction::Abs(x) => reply(f, Ask::Max64(lower(f, *x), ZERO)),
        DensityFunction::Square(x) => reply(f, Ask::Max64(lower(f, *x), ZERO)),
        DensityFunction::Cube(x) => cubed(f, lower(f, *x)),
        DensityFunction::HalfNegative(x) => damped(f, lower(f, *x), HALF),
        DensityFunction::QuarterNegative(x) => damped(f, lower(f, *x), QUARTER),
        DensityFunction::Invert(x) => {
            let lo = lower(f, *x);
            let hi = upper(f, *x);
            if holds(f, Ask::Less64(lo, ZERO)) && holds(f, Ask::Less64(ZERO, hi)) {
                MINUS_INFINITY
            } else {
                reply(f, Ask::Min64(reply(f, Ask::Div64(ONE, hi)), reply(f, Ask::Div64(ONE, lo))))
            }
        },
        DensityFunction::Squeeze(_) => SQUEEZE_MIN,
        DensityFunction::Clamp { min, .. } => min,
        DensityFunction::YClampedGradient { from_value, to_value, .. } => reply(f, Ask::Min64(from_value, to_value)),
        DensityFunction::RangeChoice { when_in_range, when_out_of_range, .. } => {
            reply(f, Ask::Min64(lower(f, *when_in_range), lower(f, *when_out_of_range)))
        },
        DensityFunction::Marker { wrapped, .. } => lower(f, *wrapped),
        DensityFunction::Shift { .. } => SHIFT_MIN,
        DensityFunction::ShiftA { .. } => SHIFT_MIN,
        DensityFunction::ShiftB { .. } => SHIFT_MIN,
        DensityFunction::ShiftedNoise { .. } => NOISE_MIN,
        DensityFunction::WeirdScaledSampler { .. } => ZERO,
        DensityFunction::IntervalSelect { functions, .. } => lower_of(f, functions@, functions@.len()),
        DensityFunction::Spline(s) => reply(f, Ask::Widen(spline_min(*s))),
        DensityFunction::BlendedNoise(_) => MINUS_INFINITY,
        DensityFunction::FindTopSurface { lower_bound, .. } => as_double(f, lower_bound),
        DensityFunction::EndIsland(_) => ISLAND_MIN,
    }
}

/// The least lower bound of the first `n` functions.
pub open spec fn lower_of<F: Fn(Ask) -> u64>(f: F, functions: Seq<DensityFunction>, n: nat) -> u64
    decreases functions, n,
{
    if n == 0 || n > functions.len() {
        LARGEST
    } else {
        reply(f, Ask::Min64(lower_of(f, functions, (n - 1) as nat), lower(f, functions[n - 1])))
    }
}

/// The upper bound of the tree.
pub open spec fn upper<F: Fn(Ask) -> u64>(f: F, df: DensityFunction) -> u64
    decreases df, 0nat,
{
    match df {
        DensityFunction::Constant(v) => v,
        DensityFunction::Noise { .. } => NOISE_MAX,
        DensityFunction::Add(a, b) => reply(f, Ask::Add64(upper(f, *a), upper(f, *b))),
        DensityFunction::Mul(a, b) => product_bound(f, lower(f, *a), upper(f, *a), lower(f, *b), upper(f, *b), true),
        DensityFunction::Min(a, b) => reply(f, Ask::Min64(upper(f, *a), upper(f, *b))),
        DensityFunction::Max(a, b) => reply(f, Ask::Max64(upper(f, *a), upper(f, *b))),
        DensityFunction::Abs(x) => reply(f, Ask::Max64(
            reply(f, Ask::Abs64(lower(f, *x))),
            reply(f, Ask::Abs64(upper(f, *x))),
        )),
        DensityFunction::Square(x) => {
            let lo = lower(f, *x);
            let hi = upper(f, *x);
            reply(f, Ask::Max64(reply(f, Ask::Mul64(lo, lo)), reply(f, Ask::Mul64(hi, hi))))
        },
        DensityFunction::Cube(x) => cubed(f, upper(f, *x)),
        DensityFunction::HalfNegative(x) => upper(f, *x),
        DensityFunction::QuarterNegative(x) => upper(f, *x),
        DensityFunction::Invert(x) => {
            let lo = lower(f, *x);
            let hi = upper(f, *x);
            if holds(f, Ask::Less64(lo, ZERO)) && holds(f, Ask::Less64(ZERO, hi)) {
                INFINITY
            } else {
                reply(f, Ask::Max64(reply(f, Ask::Div64(ONE, lo)), reply(f, Ask::Div64(ONE, hi))))
            }
        },
        DensityFunction::Squeeze(_) => SQUEEZE_MAX,
        DensityFunction::Clamp { max, .. } => max,
        DensityFunction::YClampedGradient { from_value, to_value, .. } => reply(f, Ask::Max64(from_value, to_value)),
        DensityFunction::RangeChoice { when_in_range, when_out_of_range, .. } => {
            reply(f, Ask::Max64(upper(f, *when_in_range), upper(f, *when_out_of_range)))
        },
        DensityFunction::Marker { wrapped, .. } => upper(f, *wrapped),
        DensityFunction::Shift { .. } => EIGHT,
        DensityFunction::ShiftA { .. } => EIGHT,
        DensityFunction::ShiftB { .. } => EIGHT,
        DensityFunction::ShiftedNoise { .. } => NOISE_MAX,
        DensityFunction::WeirdScaledSampler { rarity_value_mapper, .. } => reply(f, Ask::Mul64(
            (match rarity_value_mapper {
                RarityValueMapper::Type1 => TWO,
                RarityValueMapper::Type2 => THREE,
            }),
            NOISE_MAX,
        )),
        DensityFunction::IntervalSelect { functions, .. } => upper_of(f, functions@, functions@.len()),
        DensityFunction::Spline(s) => reply(f, Ask::Widen(spline_max(*s))),
        DensityFunction::BlendedNoise(_) => INFINITY,
        DensityFunction::FindTopSurface { upper_bound, lower_bound, cell_height, .. } => {
            let cell = as_double(f, cell_height);
            let top = reply(f, Ask::Mul64(
                reply(f, Ask::Floor64(reply(f, Ask::Div64(upper(f, *upper_bound), cell)))),
                cell,
            ));
            reply(f, Ask::Max64(top, as_double(f, lower_bound)))
        },
        DensityFunction::EndIsland(_) => ISLAND_MAX,
    }
}

/// The greatest upper bound of the first `n` functions.
pub open spec fn upper_of<F: Fn(Ask) -> u64>(f: F, functions: Seq<DensityFunction>, n: nat) -> u64
    decreases functions, n,
{
    if n == 0 || n > functions.len() {
        MINUS_LARGEST
    } else {
        reply(f, Ask::Max64(upper_of(f, functions, (n - 1) as nat), upper(f, functions[n - 1])))
    }
}

/// The spline's lower bound.
pub open spec fn spline_min(s: DfSpline) -> u32 {
    match s {
        DfSpline::Constant(v) => v,
        DfSpline::Multipoint { min_value, .. } => min_value,
    }
}

/// The spline's upper bound.
pub open spec fn spline_max(s: DfSpline) -> u32 {
    match s {
        DfSpline::Constant(v) => v,
        DfSpline::Multipoint { max_value, .. } => max_value,
    }
}

/// Division that cuts toward zero.
pub open spec fn cut_div(a: int, m: int) -> int {
    if a >= 0 { a / m } else { -((-a) / m) }
}

/// What `cut_div` leaves.
pub open spec fn cut_rem(a: int, m: int) -> int {
    a - cut_div(a, m) * m
}

/// 100, single precision.
pub const HUNDRED_32: u32 = 0x42C8_0000;

/// -100, single precision.
pub const MINUS_HUNDRED_32: u32 = 0xC2C8_0000;

/// 80, single precision.
pub const EIGHTY_32: u32 = 0x42A0_0000;

/// 8, single precision.
pub const EIGHT_32: u32 = 0x4100_0000;

/// 3439, single precision.
pub const ISLAND_X_32: u32 = 0x4556_F000;

/// 147, single precision.
pub const ISLAND_Z_32: u32 = 0x4313_0000;

/// 13, single precision.
pub const THIRTEEN_32: u32 = 0x4150_0000;

/// 9, single precision.
pub const NINE_32: u32 = 0x4110_0000;

/// -0.9, the noise level under which a chunk holds an outer island.
pub const ISLAND_NOISE: u64 = 0xBFEC_CCCC_CCCC_CCCD;

/// The height falloff at a distance: `100 - distance * size`, clamped.
pub open spec fn falloff<F: Fn(Ask) -> u64>(f: F, squared: u32, size: u32) -> u32 {
    let v = low(f, Ask::Sub32(HUNDRED_32, low(f, Ask::Mul32(low(f, Ask::Sqrt32(squared)), size))));
    if holds(f, Ask::Less32(v, MINUS_HUNDRED_32)) {
        MINUS_HUNDRED_32
    } else if holds(f, Ask::Less32(EIGHTY_32, v)) {
        EIGHTY_32
    } else {
        v
    }
}

fn fall_off<F: Fn(Ask) -> u64>(f: &F, squared: u32, size: u32) -> (r: u32)
    requires
        answers(*f),
    ensures
        r == falloff(*f, squared, size),
{
    let d: u32 = f(Ask::Sqrt32(squared)) as u32;
    let m: u32 = f(Ask::Mul32(d, size)) as u32;
    let v: u32 = f(Ask::Sub32(HUNDRED_32, m)) as u32;
    if f(Ask::Less32(v, MINUS_HUNDRED_32)) != 0 {
        MINUS_HUNDRED_32
    } else if f(Ask::Less32(EIGHTY_32, v)) != 0 {
        EIGHTY_32
    } else {
        v
    }
}

/// The size of the outer island of a chunk.
pub open spec fn island_size<F: Fn(Ask) -> u64>(f: F, x: i32, z: i32) -> u32 {
    let a = low(f, Ask::Mul32(low(f, Ask::Abs32(low(f, Ask::FromInt32(x)))), ISLAND_X_32));
    let b = low(f, Ask::Mul32(low(f, Ask::Abs32(low(f, Ask::FromInt32(z)))), ISLAND_Z_32));
    low(f, Ask::Add32(low(f, Ask::Rem32(low(f, Ask::Add32(a, b)), THIRTEEN_32)), NINE_32))
}

/// The end island height after the first `k` of the 25x25 chunks around a
/// section, row by row: the highest of the islands' falloffs.
pub open spec fn island_height<F: Fn(Ask) -> u64>(f: F, seed: i64, sx: int, sz: int, k: nat) -> u32
    decreases k,
{
    if k == 0 {
        let square = (sx as i32).wrapping_mul(sx as i32).wrapping_add((sz as i32).wrapping_mul(sz as i32));
        falloff(f, low(f, Ask::FromInt32(square)), EIGHT_32)
    } else {
        let before = island_height(f, seed, sx, sz, (k - 1) as nat);
        let xo = (k - 1) / 25 - 12;
        let zo = (k - 1) % 25 - 12;
        let x = cut_div(sx, 2) + xo;
        let z = cut_div(sz, 2) + zo;
        if x * x + z * z > 4096 && holds(f, Ask::Less64(
            reply(f, Ask::Island { seed, cx: x as i32, cz: z as i32 }), ISLAND_NOISE)) {
            let xd = low(f, Ask::FromInt32((cut_rem(sx, 2) - xo * 2) as i32));
            let zd = low(f, Ask::FromInt32((cut_rem(sz, 2) - zo * 2) as i32));
            let squared = low(f, Ask::Add32(low(f, Ask::Mul32(xd, xd)), low(f, Ask::Mul32(zd, zd))));
            let here = falloff(f, squared, island_size(f, x as i32, z as i32));
            if holds(f, Ask::Less32(before, here)) { here } else { before }
        } else {
            before
        }
    }
}

/// The end island density at a block.
pub open spec fn island_value<F: Fn(Ask) -> u64>(f: F, seed: i64, x: i32, z: i32) -> u64 {
    let height = island_height(f, seed, cut_div(x as int, 8), cut_div(z as int, 8), 625);
    reply(f, Ask::Div64(reply(f, Ask::Sub64(reply(f, Ask::Widen(height)), EIGHT)), ONE_TWENTY_EIGHT))
}

fn end_island_height<F: Fn(Ask) -> u64>(f: &F, seed: i64, section_x: i32, section_z: i32) -> (r: u32)
    requires
        answers(*f),
        -0x1000_0000 <= section_x < 0x1000_0000,
        -0x1000_0000 <= section_z < 0x1000_0000,
    ensures
        r == island_height(*f, seed, section_x as int, section_z as int, 625),
{
    let chunk_x: i32 = section_x / 2;
    let chunk_z: i32 = section_z / 2;
    let sub_x: i32 = section_x % 2;
    let sub_z: i32 = section_z % 2;
    let square: i32 = section_x.wrapping_mul(section_x).wrapping_add(section_z.wrapping_mul(section_z));
    let distance: u32 = f(Ask::FromInt32(square)) as u32;
    let mut height: u32 = fall_off(f, distance, EIGHT_32);
    let mut k: i32 = 0;
    while k < 625
        invariant
            answers(*f),
            0 <= k <= 625,
            chunk_x == cut_div(section_x as int, 2),
            chunk_z == cut_div(section_z as int, 2),
            sub_x == cut_rem(section_x as int, 2),
            sub_z == cut_rem(section_z as int, 2),
            -0x0800_0000 <= chunk_x <= 0x0800_0000,
            -0x0800_0000 <= chunk_z <= 0x0800_0000,
            -1 <= sub_x <= 1,
            -1 <= sub_z <= 1,
            height == island_height(*f, seed, section_x as int, section_z as int, k as nat),
        decreases 625 - k,
    {
        let xo: i32 = k / 25 - 12;
        let zo: i32 = k % 25 - 12;
        let x: i32 = chunk_x + xo;
        let z: i32 = chunk_z + zo;
        let x64: i64 = x as i64;
        let z64: i64 = z as i64;
        proof {
            assert(0 <= x64 * x64 <= 0x0900_0000 * 0x0900_0000) by (nonlinear_arith)
                requires -0x0900_0000 <= x64 <= 0x0900_0000;
            assert(0 <= z64 * z64 <= 0x0900_0000 * 0x0900_0000) by (nonlinear_arith)
                requires -0x0900_0000 <= z64 <= 0x0900_0000;
        }
        if x64 * x64 + z64 * z64 > 4096 && f(Ask::Less64(f(Ask::Island { seed, cx: x, cz: z }), ISLAND_NOISE)) != 0 {
            let ax: u32 = f(Ask::FromInt32(x)) as u32;
            let az: u32 = f(Ask::FromInt32(z)) as u32;
            let bx: u32 = f(Ask::Abs32(ax)) as u32;
            let bz: u32 = f(Ask::Abs32(az)) as u32;
            let mx: u32 = f(Ask::Mul32(bx, ISLAND_X_32)) as u32;
            let mz: u32 = f(Ask::Mul32(bz, ISLAND_Z_32)) as u32;
            let sum: u32 = f(Ask::Add32(mx, mz)) as u32;
            let rem: u32 = f(Ask::Rem32(sum, THIRTEEN_32)) as u32;
            let size: u32 = f(Ask::Add32(rem, NINE_32)) as u32;
            let xd: u32 = f(Ask::FromInt32(sub_x - xo * 2)) as u32;
            let zd: u32 = f(Ask::FromInt32(sub_z - zo * 2)) as u32;
            let xx: u32 = f(Ask::Mul32(xd, xd)) as u32;
            let zz: u32 = f(Ask::Mul32(zd, zd)) as u32;
            let squared: u32 = f(Ask::Add32(xx, zz)) as u32;
            let here: u32 = fall_off(f, squared, size);
            if f(Ask::Less32(height, here)) != 0 {
                height = here;
            }
        }
        k += 1;
    }
    height
}

impl DensityFunction {
    /// The lower bound of the tree.
    pub fn min_value<F: Fn(Ask) -> u64>(&self, f: &F) -> (r: u64)
        requires
            answers(*f),
        ensures
            r == lower(*f, *self),
        decreases self,
    {
        match self {
            DensityFunction::Constant(v) => *v,
            DensityFunction::Noise { .. } => NOISE_MIN,
            DensityFunction::Add(a, b) => {
                let x: u64 = a.min_value(f);
                let y: u64 = b.min_value(f);
                f(Ask::Add64(x, y))
            },
            DensityFunction::Mul(a, b) => {
                let a0: u64 = a.min_value(f);
                let a1: u64 = a.max_value(f);
                let b0: u64 = b.min_value(f);
                let b1: u64 = b.max_value(f);
                bound_product(f, a0, a1, b0, b1, false)
            },
            DensityFunction::Min(a, b) => {
                let x: u64 = a.min_value(f);
                let y: u64 = b.min_value(f);
                f(Ask::Min64(x, y))
            },
            DensityFunction::Max(a, b) => {
                let x: u64 = a.min_value(f);
                let y: u64 = b.min_value(f);
                f(Ask::Max64(x, y))
            },
            DensityFunction::Abs(x) => {
                let v: u64 = x.min_value(f);
                f(Ask::Max64(v, ZERO))
            },
            DensityFunction::Square(x) => {
                let v: u64 = x.min_value(f);
                f(Ask::Max64(v, ZERO))
            },
            DensityFunction::Cube(x) => {
                let v: u64 = x.min_value(f);
                cube(f, v)
            },
            DensityFunction::HalfNegative(x) => {
                let v: u64 = x.min_value(f);
                damp(f, v, HALF)
            },
            DensityFunction::QuarterNegative(x) => {
                let v: u64 = x.min_value(f);
                damp(f, v, QUARTER)
            },
            DensityFunction::Invert(x) => {
                let lo: u64 = x.min_value(f);
                let hi: u64 = x.max_value(f);
                if f(Ask::Less64(lo, ZERO)) != 0 && f(Ask::Less64(ZERO, hi)) != 0 {
                    MINUS_INFINITY
                } else {
                    let a: u64 = f(Ask::Div64(ONE, hi));
                    let b: u64 = f(Ask::Div64(ONE, lo));
                    f(Ask::Min64(a, b))
                }
            },
            DensityFunction::Squeeze(_) => SQUEEZE_MIN,
            DensityFunction::Clamp { min, .. } => *min,
            DensityFunction::YClampedGradient { from_value, to_value, .. } => f(Ask::Min64(*from_value, *to_value)),
            DensityFunction::RangeChoice { when_in_range, when_out_of_range, .. } => {
                let x: u64 = when_in_range.min_value(f);
                let y: u64 = when_out_of_range.min_value(f);
                f(Ask::Min64(x, y))
            },
            DensityFunction::Marker { wrapped, .. } => wrapped.min_value(f),
            DensityFunction::Shift { .. } => SHIFT_MIN,
            DensityFunction::ShiftA { .. } => SHIFT_MIN,
            DensityFunction::ShiftB { .. } => SHIFT_MIN,
            DensityFunction::ShiftedNoise { .. } => NOISE_MIN,
            DensityFunction::WeirdScaledSampler { .. } => ZERO,
            DensityFunction::IntervalSelect { functions, .. } => {
                let mut r: u64 = LARGEST;
                let mut i: usize = 0;
                while i < functions.len()
                    invariant
                        answers(*f),
                        i <= functions@.len(),
                        r == lower_of(*f, functions@, i as nat),
                        *self matches DensityFunction::IntervalSelect { functions: g, .. } && g == *functions,
                    decreases functions.len() - i,
                {
                    proof {
                        assert(decreases_to!(*self => self->IntervalSelect_functions));
                        assert(decreases_to!(functions => functions[i as int]));
                    }
                    let v: u64 = functions[i].min_value(f);
                    r = f(Ask::Min64(r, v));
                    i += 1;
                }
                r
            },
            DensityFunction::Spline(s) => f(Ask::Widen(s.min_value_of())),
            DensityFunction::BlendedNoise(_) => MINUS_INFINITY,
            DensityFunction::FindTopSurface { lower_bound, .. } => f(Ask::FromInt64(*lower_bound)),
            DensityFunction::EndIsland(_) => ISLAND_MIN,
        }
    }

    /// The upper bound of the tree.
    pub fn max_value<F: Fn(Ask) -> u64>(&self, f: &F) -> (r: u64)
        requires
            answers(*f),
        ensures
            r == upper(*f, *self),
        decreases self,
    {
        match self {
            DensityFunction::Constant(v) => *v,
            DensityFunction::Noise { .. } => NOISE_MAX,
            DensityFunction::Add(a, b) => {
                let x: u64 = a.max_value(f);
                let y: u64 = b.max_value(f);
                f(Ask::Add64(x, y))
            },
            DensityFunction::Mul(a, b) => {
                let a0: u64 = a.min_value(f);
                let a1: u64 = a.max_value(f);
                let b0: u64 = b.min_value(f);
                let b1: u64 = b.max_value(f);
                bound_product(f, a0, a1, b0, b1, true)
            },
            DensityFunction::Min(a, b) => {
                let x: u64 = a.max_value(f);
                let y: u64 = b.max_value(f);
                f(Ask::Min64(x, y))
            },
            DensityFunction::Max(a, b) => {
                let x: u64 = a.max_value(f);
                let y: u64 = b.max_value(f);
                f(Ask::Max64(x, y))
            },
            DensityFunction::Abs(x) => {
                let lo: u64 = x.min_value(f);
                let hi: u64 = x.max_value(f);
                let a: u64 = f(Ask::Abs64(lo));
                let b: u64 = f(Ask::Abs64(hi));
                f(Ask::Max64(a, b))
            },
            DensityFunction::Square(x) => {
                let lo: u64 = x.min_value(f);
                let hi: u64 = x.max_value(f);
                let a: u64 = f(Ask::Mul64(lo, lo));
                let b: u64 = f(Ask::Mul64(hi, hi));
                f(Ask::Max64(a, b))
            },
            DensityFunction::Cube(x) => {
                let v: u64 = x.max_value(f);
                cube(f, v)
            },
            DensityFunction::HalfNegative(x) => x.max_value(f),
            DensityFunction::QuarterNegative(x) => x.max_value(f),
            DensityFunction::Invert(x) => {
                let lo: u64 = x.min_value(f);
                let hi: u64 = x.max_value(f);
                if f(Ask::Less64(lo, ZERO)) != 0 && f(Ask::Less64(ZERO, hi)) != 0 {
                    INFINITY
                } else {
                    let a: u64 = f(Ask::Div64(ONE, lo));
                    let b: u64 = f(Ask::Div64(ONE, hi));
                    f(Ask::Max64(a, b))
                }
            },
            DensityFunction::Squeeze(_) => SQUEEZE_MAX,
            DensityFunction::Clamp { max, .. } => *max,
            DensityFunction::YClampedGradient { from_value, to_value, .. } => f(Ask::Max64(*from_value, *to_value)),
            DensityFunction::RangeChoice { when_in_range, when_out_of_range, .. } => {
                let x: u64 = when_in_range.max_value(f);
                let y: u64 = when_out_of_range.max_value(f);
                f(Ask::Max64(x, y))
            },
            DensityFunction::Marker { wrapped, .. } => wrapped.max_value(f),
            DensityFunction::Shift { .. } => EIGHT,
            DensityFunction::ShiftA { .. } => EIGHT,
            DensityFunction::ShiftB { .. } => EIGHT,
            DensityFunction::ShiftedNoise { .. } => NOISE_MAX,
            DensityFunction::WeirdScaledSampler { rarity_value_mapper, .. } => {
                f(Ask::Mul64(rarity_value_mapper.max_rarity(), NOISE_MAX))
            },
            DensityFunction::IntervalSelect { functions, .. } => {
                let mut r: u64 = MINUS_LARGEST;
                let mut i: usize = 0;
                while i < functions.len()
                    invariant
                        answers(*f),
                        i <= functions@.len(),
                        r == upper_of(*f, functions@, i as nat),
                        *self matches DensityFunction::IntervalSelect { functions: g, .. } && g == *functions,
                    decreases functions.len() - i,
                {
                    proof {
                        assert(decreases_to!(*self => self->IntervalSelect_functions));
                        assert(decreases_to!(functions => functions[i as int]));
                    }
                    let v: u64 = functions[i].max_value(f);
                    r = f(Ask::Max64(r, v));
                    i += 1;
                }
                r
            },
            DensityFunction::Spline(s) => f(Ask::Widen(s.max_value_of())),
            DensityFunction::BlendedNoise(_) => INFINITY,
            DensityFunction::FindTopSurface { upper_bound, lower_bound, cell_height, .. } => {
                let cell: u64 = f(Ask::FromInt64(*cell_height));
                let bound: u64 = upper_bound.max_value(f);
                let cells: u64 = f(Ask::Div64(bound, cell));
                let whole: u64 = f(Ask::Floor64(cells));
                let top: u64 = f(Ask::Mul64(whole, cell));
                let least: u64 = f(Ask::FromInt64(*lower_bound));
                f(Ask::Max64(top, least))
            },
            DensityFunction::EndIsland(_) => ISLAND_MAX,
        }
    }

    /// The value of the tree at a block. Branches and factors that cannot
    /// matter are not evaluated.
    pub fn compute<F: Fn(Ask) -> u64>(&self, ctx: &FunctionContext, state: &WorldgenState, f: &F) -> (r: u64)
        requires
            answers(*f),
            sound(*self),
        ensures
            r == value(*f, *self, *ctx, *state),
        decreases self, 0int,
    {
        match self {
            DensityFunction::Constant(v) => *v,
            DensityFunction::Noise { noise_name, xz_scale, y_scale } => {
                let x: u64 = f(Ask::Mul64(f(Ask::FromInt64(ctx.block_x)), *xz_scale));
                let y: u64 = f(Ask::Mul64(f(Ask::FromInt64(ctx.block_y)), *y_scale));
                let z: u64 = f(Ask::Mul64(f(Ask::FromInt64(ctx.block_z)), *xz_scale));
                sample_noise(f, state, noise_name.as_str(), x, y, z)
            },
            DensityFunction::Add(a, b) => {
                let x: u64 = a.compute(ctx, state, f);
                let y: u64 = b.compute(ctx, state, f);
                f(Ask::Add64(x, y))
            },
            DensityFunction::Mul(a, b) => {
                let v: u64 = a.compute(ctx, state, f);
                if f(Ask::Equal64(v, ZERO)) != 0 {
                    ZERO
                } else {
                    let w: u64 = b.compute(ctx, state, f);
                    f(Ask::Mul64(v, w))
                }
            },
            DensityFunction::Min(a, b) => {
                let v: u64 = a.compute(ctx, state, f);
                let bound: u64 = b.min_value(f);
                if f(Ask::Less64(v, bound)) != 0 {
                    v
                } else {
                    let w: u64 = b.compute(ctx, state, f);
                    f(Ask::Min64(v, w))
                }
            },
            DensityFunction::Max(a, b) => {
                let v: u64 = a.compute(ctx, state, f);
                let bound: u64 = b.max_value(f);
                if f(Ask::Less64(bound, v)) != 0 {
                    v
                } else {
                    let w: u64 = b.compute(ctx, state, f);
                    f(Ask::Max64(v, w))
                }
            },
            DensityFunction::Abs(x) => {
                let v: u64 = x.compute(ctx, state, f);
                f(Ask::Abs64(v))
            },
            DensityFunction::Square(x) => {
                let v: u64 = x.compute(ctx, state, f);
                f(Ask::Mul64(v, v))
            },
            DensityFunction::Cube(x) => {
                let v: u64 = x.compute(ctx, state, f);
                cube(f, v)
            },
            DensityFunction::HalfNegative(x) => {
                let v: u64 = x.compute(ctx, state, f);
                damp(f, v, HALF)
            },
            DensityFunction::QuarterNegative(x) => {
                let v: u64 = x.compute(ctx, state, f);
                damp(f, v, QUARTER)
            },
            DensityFunction::Invert(x) => {
                let v: u64 = x.compute(ctx, state, f);
                f(Ask::Div64(ONE, v))
            },
            DensityFunction::Squeeze(x) => {
                let v: u64 = x.compute(ctx, state, f);
                squeeze(f, v)
            },
            DensityFunction::Clamp { input, min, max } => {
                let v: u64 = input.compute(ctx, state, f);
                clamp64(f, v, *min, *max)
            },
            DensityFunction::YClampedGradient { from_y, to_y, from_value, to_value } => {
                let y: u64 = f(Ask::FromInt64(ctx.block_y));
                let from: u64 = f(Ask::FromInt64(*from_y));
                let to: u64 = f(Ask::FromInt64(*to_y));
                clamped_map(f, y, from, to, *from_value, *to_value)
            },
            DensityFunction::RangeChoice { input, min_inclusive, max_exclusive, when_in_range, when_out_of_range } => {
                let v: u64 = input.compute(ctx, state, f);
                if within(f, v, *min_inclusive, *max_exclusive) {
                    when_in_range.compute(ctx, state, f)
                } else {
                    when_out_of_range.compute(ctx, state, f)
                }
            },
            DensityFunction::IntervalSelect { input, thresholds, functions } => {
                let v: u64 = input.compute(ctx, state, f);
                let k: usize = choose_interval(f, v, thresholds, functions.len() - 1);
                proof {
                    assert(decreases_to!(functions => functions[k as int]));
                    assert(sound(functions@[k as int]));
                }
                functions[k].compute(ctx, state, f)
            },
            DensityFunction::Marker { wrapped, .. } => wrapped.compute(ctx, state, f),
            DensityFunction::Shift { noise_name } => {
                let x: u64 = f(Ask::FromInt64(ctx.block_x));
                let y: u64 = f(Ask::FromInt64(ctx.block_y));
                let z: u64 = f(Ask::FromInt64(ctx.block_z));
                sample_shift(f, state, noise_name.as_str(), x, y, z)
            },
            DensityFunction::ShiftA { noise_name } => {
                let x: u64 = f(Ask::FromInt64(ctx.block_x));
                let z: u64 = f(Ask::FromInt64(ctx.block_z));
                sample_shift(f, state, noise_name.as_str(), x, ZERO, z)
            },
            DensityFunction::ShiftB { noise_name } => {
                let x: u64 = f(Ask::FromInt64(ctx.block_x));
                let z: u64 = f(Ask::FromInt64(ctx.block_z));
                sample_shift(f, state, noise_name.as_str(), z, x, ZERO)
            },
            DensityFunction::ShiftedNoise { shift_x, shift_y, shift_z, xz_scale, y_scale, noise_name } => {
                let sx: u64 = shift_x.compute(ctx, state, f);
                let sy: u64 = shift_y.compute(ctx, state, f);
                let sz: u64 = shift_z.compute(ctx, state, f);
                let x: u64 = f(Ask::Mul64(f(Ask::FromInt64(ctx.block_x)), *xz_scale));
                let y: u64 = f(Ask::Mul64(f(Ask::FromInt64(ctx.block_y)), *y_scale));
                let z: u64 = f(Ask::Mul64(f(Ask::FromInt64(ctx.block_z)), *xz_scale));
                let nx: u64 = f(Ask::Add64(x, sx));
                let ny: u64 = f(Ask::Add64(y, sy));
                let nz: u64 = f(Ask::Add64(z, sz));
                sample_noise(f, state, noise_name.as_str(), nx, ny, nz)
            },
            DensityFunction::WeirdScaledSampler { input, noise_name, rarity_value_mapper } => {
                let v: u64 = input.compute(ctx, state, f);
                let rarity: u64 = rarity_value_mapper.apply(v, f);
                let x: u64 = f(Ask::Div64(f(Ask::FromInt64(ctx.block_x)), rarity));
                let y: u64 = f(Ask::Div64(f(Ask::FromInt64(ctx.block_y)), rarity));
                let z: u64 = f(Ask::Div64(f(Ask::FromInt64(ctx.block_z)), rarity));
                let n: u64 = sample_noise(f, state, noise_name.as_str(), x, y, z);
                let m: u64 = f(Ask::Abs64(n));
                f(Ask::Mul64(rarity, m))
            },
            DensityFunction::Spline(s) => f(Ask::Widen(s.apply(ctx, state, f))),
            DensityFunction::BlendedNoise(lazy) => lazy.sample(ctx.block_x, ctx.block_y, ctx.block_z, f),
            DensityFunction::FindTopSurface { density, upper_bound, lower_bound, cell_height } => {
                let bound: u64 = upper_bound.compute(ctx, state, f);
                let cells: u64 = f(Ask::Div64(bound, f(Ask::FromInt64(*cell_height))));
                let whole: u32 = f(Ask::ToInt64(f(Ask::Floor64(cells)))) as u32;
                let top: i32 = (whole as i32).wrapping_mul(*cell_height);
                let y: i32 = density.search_down(ctx, state, top, *lower_bound, *cell_height, f);
                f(Ask::FromInt64(y))
            },
            DensityFunction::EndIsland(_) => {
                let height: u32 = end_island_height(f, state.seed, ctx.block_x / 8, ctx.block_z / 8);
                let h: u64 = f(Ask::Widen(height));
                let d: u64 = f(Ask::Sub64(h, EIGHT));
                f(Ask::Div64(d, ONE_TWENTY_EIGHT))
            },
        }
    }

    /// The first block from `top` down in steps of a cell where the density
    /// is positive, else the lower bound.
    fn search_down<F: Fn(Ask) -> u64>(
        &self, ctx: &FunctionContext, state: &WorldgenState, top: i32, lower_bound: i32, cell_height: i32, f: &F,
    ) -> (r: i32)
        requires
            answers(*f),
            sound(*self),
        ensures
            r == probe(*f, *self, *ctx, *state, top as int, lower_bound as int, cell_height as int),
        decreases self, 1int,
    {
        let mut y: i32 = top;
        while y > lower_bound
            invariant
                answers(*f),
                sound(*self),
                probe(*f, *self, *ctx, *state, y as int, lower_bound as int, cell_height as int) == probe(
                    *f, *self, *ctx, *state, top as int, lower_bound as int, cell_height as int),
            decreases y - lower_bound,
        {
            let at: FunctionContext = FunctionContext { block_x: ctx.block_x, block_y: y, block_z: ctx.block_z };
            let v: u64 = self.compute(&at, state, f);
            if f(Ask::Less64(ZERO, v)) != 0 {
                return y;
            }
            if cell_height <= 0 || (y as i64) - (cell_height as i64) < lower_bound as i64 {
                return lower_bound;
            }
            y = y - cell_height;
        }
        lower_bound
    }
}

impl DfSpline {
    /// The spline's lower bound.
    pub fn min_value_of(&self) -> (r: u32)
        ensures
            r == spline_min(*self),
    {
        match self {
            DfSpline::Constant(v) => *v,
            DfSpline::Multipoint { min_value, .. } => *min_value,
        }
    }

    /// The spline's upper bound.
    pub fn max_value_of(&self) -> (r: u32)
        ensures
            r == spline_max(*self),
    {
        match self {
            DfSpline::Constant(v) => *v,
            DfSpline::Multipoint { max_value, .. } => *max_value,
        }
    }

    /// The value of the spline at a block.
    pub fn apply<F: Fn(Ask) -> u64>(&self, ctx: &FunctionContext, state: &WorldgenState, f: &F) -> (r: u32)
        requires
            answers(*f),
            sound_spline(*self),
        ensures
            r == spline_value(*f, *self, *ctx, *state),
        decreases self, 0int,
    {
        match self {
            DfSpline::Constant(v) => *v,
            DfSpline::Multipoint { coordinate, locations, values, derivatives, .. } => {
                let c: u64 = coordinate.compute(ctx, state, f);
                let input: u32 = f(Ask::Narrow(c)) as u32;
                let n: usize = locations.len();
                let k: usize = interval(f, locations, input);
                if k == 0 {
                    proof { assert(decreases_to!(values => values[0int])); }
                    let v: u32 = values[0].apply(ctx, state, f);
                    linear_extend(f, input, locations[0], v, derivatives[0])
                } else if k == n {
                    proof { assert(decreases_to!(values => values[n - 1])); }
                    let v: u32 = values[n - 1].apply(ctx, state, f);
                    linear_extend(f, input, locations[n - 1], v, derivatives[n - 1])
                } else {
                    proof {
                        assert(decreases_to!(values => values[k - 1]));
                        assert(decreases_to!(values => values[k as int]));
                    }
                    let y1: u32 = values[k - 1].apply(ctx, state, f);
                    let y2: u32 = values[k].apply(ctx, state, f);
                    hermite(f, input, locations[k - 1], locations[k], y1, y2, derivatives[k - 1], derivatives[k])
                }
            },
        }
    }
}

/// A transformation of one number.
#[derive(Clone, Copy, Debug)]
pub enum Unary {
    Abs,
    Square,
    Cube,
    HalfNegative,
    QuarterNegative,
    Invert,
    Squeeze,
    Clamp(u64, u64),
}

impl Unary {
    pub open spec fn of<F: Fn(Ask) -> u64>(self, f: F, v: u64) -> u64 {
        match self {
            Unary::Abs => reply(f, Ask::Abs64(v)),
            Unary::Square => reply(f, Ask::Mul64(v, v)),
            Unary::Cube => cubed(f, v),
            Unary::HalfNegative => damped(f, v, HALF),
            Unary::QuarterNegative => damped(f, v, QUARTER),
            Unary::Invert => reply(f, Ask::Div64(ONE, v)),
            Unary::Squeeze => squeezed(f, v),
            Unary::Clamp(min, max) => clamped64(f, v, min, max),
        }
    }

    fn apply<F: Fn(Ask) -> u64>(self, f: &F, v: u64) -> (r: u64)
        requires
            answers(*f),
        ensures
            r == self.of(*f, v),
    {
        match self {
            Unary::Abs => f(Ask::Abs64(v)),
            Unary::Square => f(Ask::Mul64(v, v)),
            Unary::Cube => cube(f, v),
            Unary::HalfNegative => damp(f, v, HALF),
            Unary::QuarterNegative => damp(f, v, QUARTER),
            Unary::Invert => f(Ask::Div64(ONE, v)),
            Unary::Squeeze => squeeze(f, v),
            Unary::Clamp(min, max) => clamp64(f, v, min, max),
        }
    }

    /// The transformation of every element.
    fn each<F: Fn(Ask) -> u64>(self, f: &F, v: &Vec<u64>) -> (r: Vec<u64>)
        requires
            answers(*f),
        ensures
            r@.len() == v@.len(),
            forall|i: int| 0 <= i < v@.len() ==> #[trigger] r@[i] == self.of(*f, v@[i]),
    {
        let mut r: Vec<u64> = Vec::new();
        let mut i: usize = 0;
        while i < v.len()
            invariant
                answers(*f),
                i <= v@.len(),
                r@.len() == i,
                forall|j: int| 0 <= j < i ==> #[trigger] r@[j] == self.of(*f, v@[j]),
            decreases v.len() - i,
        {
            let x: u64 = self.apply(f, v[i]);
            r.push(x);
            i += 1;
        }
        r
    }
}

/// A combination of two numbers.
#[derive(Clone, Copy, Debug)]
pub enum Binary {
    Add,
    Mul,
    Min,
    Max,
}

impl Binary {
    /// The combination of two numbers: a product with zero is zero, and a
    /// number beyond the second operand's bound is the minimum or maximum.
    pub open spec fn of<F: Fn(Ask) -> u64>(self, f: F, a: u64, b: u64, bound: u64) -> u64 {
        match self {
            Binary::Add => reply(f, Ask::Add64(a, b)),
            Binary::Mul => if holds(f, Ask::Equal64(a, ZERO)) { ZERO } else { reply(f, Ask::Mul64(a, b)) },
            Binary::Min => if holds(f, Ask::Less64(a, bound)) { a } else { reply(f, Ask::Min64(a, b)) },
            Binary::Max => if holds(f, Ask::Less64(bound, a)) { a } else { reply(f, Ask::Max64(a, b)) },
        }
    }

    /// The combination of every pair of elements.
    fn each<F: Fn(Ask) -> u64>(self, f: &F, a: &Vec<u64>, b: &Vec<u64>, bound: u64) -> (r: Vec<u64>)
        requires
            answers(*f),
            a@.len() == b@.len(),
        ensures
            r@.len() == a@.len(),
            forall|i: int| 0 <= i < a@.len() ==> #[trigger] r@[i] == self.of(*f, a@[i], b@[i], bound),
    {
        let mut r: Vec<u64> = Vec::new();
        let mut i: usize = 0;
        while i < a.len()
            invariant
                answers(*f),
                i <= a@.len(),
                a@.len() == b@.len(),
                r@.len() == i,
                forall|j: int| 0 <= j < i ==> #[trigger] r@[j] == self.of(*f, a@[j], b@[j], bound),
            decreases a.len() - i,
        {
            let x: u64 = match self {
                Binary::Add => f(Ask::Add64(a[i], b[i])),
                Binary::Mul => if f(Ask::Equal64(a[i], ZERO)) != 0 { ZERO } else { f(Ask::Mul64(a[i], b[i])) },
                Binary::Min => if f(Ask::Less64(a[i], bound)) != 0 { a[i] } else { f(Ask::Min64(a[i], b[i])) },
                Binary::Max => if f(Ask::Less64(bound, a[i])) != 0 { a[i] } else { f(Ask::Max64(a[i], b[i])) },
            };
            r.push(x);
            i += 1;
        }
        r
    }
}

/// The block of one position of a batch.
pub open spec fn block_at(xs: Seq<i32>, ys: Seq<i32>, zs: Seq<i32>, i: int) -> FunctionContext {
    FunctionContext { block_x: xs[i], block_y: ys[i], block_z: zs[i] }
}

impl DensityFunction {
    /// The values of the tree at every position of a batch, one tree walk
    /// for all of them: at each the same as `compute` gives.
    pub fn compute_batch<F: Fn(Ask) -> u64>(
        &self, xs: &[i32], ys: &[i32], zs: &[i32], state: &WorldgenState, f: &F,
    ) -> (out: Vec<u64>)
        requires
            answers(*f),
            sound(*self),
            xs@.len() == ys@.len(),
            xs@.len() == zs@.len(),
        ensures
            out@.len() == xs@.len(),
            forall|i: int| 0 <= i < xs@.len() ==> #[trigger] out@[i] == value(
                *f, *self, block_at(xs@, ys@, zs@, i), *state),
        decreases self,
    {
        match self {
            DensityFunction::Add(a, b) => {
                let va: Vec<u64> = a.compute_batch(xs, ys, zs, state, f);
                let vb: Vec<u64> = b.compute_batch(xs, ys, zs, state, f);
                Binary::Add.each(f, &va, &vb, ZERO)
            },
            DensityFunction::Mul(a, b) => {
                let va: Vec<u64> = a.compute_batch(xs, ys, zs, state, f);
                let vb: Vec<u64> = b.compute_batch(xs, ys, zs, state, f);
                Binary::Mul.each(f, &va, &vb, ZERO)
            },
            DensityFunction::Min(a, b) => {
                let va: Vec<u64> = a.compute_batch(xs, ys, zs, state, f);
                let vb: Vec<u64> = b.compute_batch(xs, ys, zs, state, f);
                Binary::Min.each(f, &va, &vb, b.min_value(f))
            },
            DensityFunction::Max(a, b) => {
                let va: Vec<u64> = a.compute_batch(xs, ys, zs, state, f);
                let vb: Vec<u64> = b.compute_batch(xs, ys, zs, state, f);
                Binary::Max.each(f, &va, &vb, b.max_value(f))
            },
            DensityFunction::Abs(x) => {
                let v: Vec<u64> = x.compute_batch(xs, ys, zs, state, f);
                Unary::Abs.each(f, &v)
            },
            DensityFunction::Square(x) => {
                let v: Vec<u64> = x.compute_batch(xs, ys, zs, state, f);
                Unary::Square.each(f, &v)
            },
            DensityFunction::Cube(x) => {
                let v: Vec<u64> = x.compute_batch(xs, ys, zs, state, f);
                Unary::Cube.each(f, &v)
            },
            DensityFunction::HalfNegative(x) => {
                let v: Vec<u64> = x.compute_batch(xs, ys, zs, state, f);
                Unary::HalfNegative.each(f, &v)
            },
            DensityFunction::QuarterNegative(x) => {
                let v: Vec<u64> = x.compute_batch(xs, ys, zs, state, f);
                Unary::QuarterNegative.each(f, &v)
            },
            DensityFunction::Invert(x) => {
                let v: Vec<u64> = x.compute_batch(xs, ys, zs, state, f);
                Unary::Invert.each(f, &v)
            },
            DensityFunction::Squeeze(x) => {
                let v: Vec<u64> = x.compute_batch(xs, ys, zs, state, f);
                Unary::Squeeze.each(f, &v)
            },
            DensityFunction::Clamp { input, min, max } => {
                let v: Vec<u64> = input.compute_batch(xs, ys, zs, state, f);
                Unary::Clamp(*min, *max).each(f, &v)
            },
            DensityFunction::YClampedGradient { from_y, to_y, from_value, to_value } => {
                let from: u64 = f(Ask::FromInt64(*from_y));
                let to: u64 = f(Ask::FromInt64(*to_y));
                let mut out: Vec<u64> = Vec::new();
                let mut i: usize = 0;
                while i < ys.len()
                    invariant
                        answers(*f),
                        i <= ys@.len(),
                        xs@.len() == ys@.len(),
                        out@.len() == i,
                        from == as_double(*f, *from_y),
                        to == as_double(*f, *to_y),
                        forall|j: int| 0 <= j < i ==> #[trigger] out@[j] == clamped_map_at(
                            *f, as_double(*f, ys@[j]), from, to, *from_value, *to_value),
                    decreases ys.len() - i,
                {
                    let y: u64 = f(Ask::FromInt64(ys[i]));
                    let v: u64 = clamped_map(f, y, from, to, *from_value, *to_value);
                    out.push(v);
                    i += 1;
                }
                out
            },
            DensityFunction::RangeChoice { input, min_inclusive, max_exclusive, when_in_range, when_out_of_range } => {
                let v: Vec<u64> = input.compute_batch(xs, ys, zs, state, f);
                let a: Vec<u64> = when_in_range.compute_batch(xs, ys, zs, state, f);
                let b: Vec<u64> = when_out_of_range.compute_batch(xs, ys, zs, state, f);
                let mut out: Vec<u64> = Vec::new();
                let mut i: usize = 0;
                while i < v.len()
                    invariant
                        answers(*f),
                        i <= v@.len(),
                        v@.len() == a@.len(),
                        v@.len() == b@.len(),
                        out@.len() == i,
                        forall|j: int| 0 <= j < i ==> #[trigger] out@[j] == (if in_range(
                            *f, v@[j], *min_inclusive, *max_exclusive) { a@[j] } else { b@[j] }),
                    decreases v.len() - i,
                {
                    let x: u64 = if within(f, v[i], *min_inclusive, *max_exclusive) { a[i] } else { b[i] };
                    out.push(x);
                    i += 1;
                }
                out
            },
            DensityFunction::IntervalSelect { input, thresholds, functions } => {
                let v: Vec<u64> = input.compute_batch(xs, ys, zs, state, f);
                let mut bufs: Vec<Vec<u64>> = Vec::new();
                let mut k: usize = 0;
                while k < functions.len()
                    invariant
                        answers(*f),
                        sound(*self),
                        xs@.len() == ys@.len(),
                        xs@.len() == zs@.len(),
                        k <= functions@.len(),
                        bufs@.len() == k,
                        *self matches DensityFunction::IntervalSelect { functions: g, .. } && g == *functions,
                        forall|m: int| 0 <= m < k ==> (#[trigger] bufs@[m])@.len() == xs@.len(),
                        forall|m: int, i: int| 0 <= m < k && 0 <= i < xs@.len() ==> #[trigger] bufs@[m]@[i] == value(
                            *f, functions@[m], block_at(xs@, ys@, zs@, i), *state),
                    decreases functions.len() - k,
                {
                    proof {
                        assert(decreases_to!(*self => self->IntervalSelect_functions));
                        assert(decreases_to!(functions => functions[k as int]));
                        assert(sound(functions@[k as int]));
                    }
                    let b: Vec<u64> = functions[k].compute_batch(xs, ys, zs, state, f);
                    bufs.push(b);
                    k += 1;
                }
                let mut out: Vec<u64> = Vec::new();
                let mut i: usize = 0;
                while i < v.len()
                    invariant
                        answers(*f),
                        i <= v@.len(),
                        v@.len() == xs@.len(),
                        out@.len() == i,
                        bufs@.len() == functions@.len(),
                        functions@.len() >= 1,
                        thresholds@.len() <= functions@.len(),
                        forall|m: int| 0 <= m < bufs@.len() ==> (#[trigger] bufs@[m])@.len() == xs@.len(),
                        forall|j: int| 0 <= j < i ==> #[trigger] out@[j] == bufs@[chosen(
                            *f, v@[j], thresholds@, 0, functions@.len() - 1)]@[j],
                    decreases v.len() - i,
                {
                    let pick: usize = choose_interval(f, v[i], thresholds, functions.len() - 1);
                    let picked: u64 = bufs[pick][i];
                    out.push(picked);
                    i += 1;
                }
                proof {
                    assert forall|j: int| 0 <= j < xs@.len() implies #[trigger] out@[j] == value(
                        *f, *self, block_at(xs@, ys@, zs@, j), *state) by {
                        lemma_chosen(*f, v@[j], thresholds@, 0, functions@.len() - 1);
                    }
                }
                out
            },
            DensityFunction::Marker { wrapped, .. } => wrapped.compute_batch(xs, ys, zs, state, f),
            DensityFunction::ShiftedNoise { shift_x, shift_y, shift_z, xz_scale, y_scale, noise_name } => {
                let sx: Vec<u64> = shift_x.compute_batch(xs, ys, zs, state, f);
                let sy: Vec<u64> = shift_y.compute_batch(xs, ys, zs, state, f);
                let sz: Vec<u64> = shift_z.compute_batch(xs, ys, zs, state, f);
                let mut out: Vec<u64> = Vec::new();
                let mut i: usize = 0;
                while i < xs.len()
                    invariant
                        answers(*f),
                        i <= xs@.len(),
                        xs@.len() == ys@.len(),
                        xs@.len() == zs@.len(),
                        xs@.len() == sx@.len(),
                        xs@.len() == sy@.len(),
                        xs@.len() == sz@.len(),
                        out@.len() == i,
                        forall|j: int| 0 <= j < i ==> #[trigger] out@[j] == noise_value(
                            *f, *state, noise_name@,
                            reply(*f, Ask::Add64(reply(*f, Ask::Mul64(as_double(*f, xs@[j]), *xz_scale)), sx@[j])),
                            reply(*f, Ask::Add64(reply(*f, Ask::Mul64(as_double(*f, ys@[j]), *y_scale)), sy@[j])),
                            reply(*f, Ask::Add64(reply(*f, Ask::Mul64(as_double(*f, zs@[j]), *xz_scale)), sz@[j])),
                        ),
                    decreases xs.len() - i,
                {
                    let x: u64 = f(Ask::Mul64(f(Ask::FromInt64(xs[i])), *xz_scale));
                    let y: u64 = f(Ask::Mul64(f(Ask::FromInt64(ys[i])), *y_scale));
                    let z: u64 = f(Ask::Mul64(f(Ask::FromInt64(zs[i])), *xz_scale));
                    let nx: u64 = f(Ask::Add64(x, sx[i]));
                    let ny: u64 = f(Ask::Add64(y, sy[i]));
                    let nz: u64 = f(Ask::Add64(z, sz[i]));
                    let v: u64 = sample_noise(f, state, noise_name.as_str(), nx, ny, nz);
                    out.push(v);
                    i += 1;
                }
                out
            },
            DensityFunction::WeirdScaledSampler { input, noise_name, rarity_value_mapper } => {
                let v: Vec<u64> = input.compute_batch(xs, ys, zs, state, f);
                let mut out: Vec<u64> = Vec::new();
                let mut i: usize = 0;
                while i < xs.len()
                    invariant
                        answers(*f),
                        i <= xs@.len(),
                        xs@.len() == ys@.len(),
                        xs@.len() == zs@.len(),
                        xs@.len() == v@.len(),
                        out@.len() == i,
                        forall|j: int| 0 <= j < i ==> #[trigger] out@[j] == weird_value(
                            *f, *state, noise_name@, rarity_value_mapper.factor(*f, v@[j]), block_at(xs@, ys@, zs@, j)),
                    decreases xs.len() - i,
                {
                    let rarity: u64 = rarity_value_mapper.apply(v[i], f);
                    let x: u64 = f(Ask::Div64(f(Ask::FromInt64(xs[i])), rarity));
                    let y: u64 = f(Ask::Div64(f(Ask::FromInt64(ys[i])), rarity));
                    let z: u64 = f(Ask::Div64(f(Ask::FromInt64(zs[i])), rarity));
                    let n: u64 = sample_noise(f, state, noise_name.as_str(), x, y, z);
                    let m: u64 = f(Ask::Abs64(n));
                    out.push(f(Ask::Mul64(rarity, m)));
                    i += 1;
                }
                out
            },
            _ => {
                let mut out: Vec<u64> = Vec::new();
                let mut i: usize = 0;
                while i < xs.len()
                    invariant
                        answers(*f),
                        sound(*self),
                        i <= xs@.len(),
                        xs@.len() == ys@.len(),
                        xs@.len() == zs@.len(),
                        out@.len() == i,
                        forall|j: int| 0 <= j < i ==> #[trigger] out@[j] == value(
                            *f, *self, block_at(xs@, ys@, zs@, j), *state),
                    decreases xs.len() - i,
                {
                    let c: FunctionContext = FunctionContext { block_x: xs[i], block_y: ys[i], block_z: zs[i] };
                    let v: u64 = self.compute(&c, state, f);
                    out.push(v);
                    i += 1;
                }
                out
            },
        }
    }
}

/// Infinity, single precision.
pub const INFINITY_32: u32 = 0x7F80_0000;

/// Minus infinity, single precision.
pub const MINUS_INFINITY_32: u32 = 0xFF80_0000;

/// A quarter, single precision.
pub const OVERSHOOT_32: u32 = 0x3E80_0000;

/// A pair of bounds widened to reach a lower and an upper one.
pub open spec fn widened<F: Fn(Ask) -> u64>(f: F, b: (u32, u32), lo: u32, hi: u32) -> (u32, u32) {
    (low(f, Ask::Min32(b.0, lo)), low(f, Ask::Max32(b.1, hi)))
}

fn widen<F: Fn(Ask) -> u64>(f: &F, b: (u32, u32), lo: u32, hi: u32) -> (r: (u32, u32))
    requires
        answers(*f),
    ensures
        r == widened(*f, b, lo, hi),
{
    let x: u32 = f(Ask::Min32(b.0, lo)) as u32;
    let y: u32 = f(Ask::Max32(b.1, hi)) as u32;
    (x, y)
}

/// Bounds widened to a spline's straight extension to an input.
pub open spec fn reached<F: Fn(Ask) -> u64>(f: F, b: (u32, u32), input: u32, location: u32, v: DfSpline, derivative: u32) -> (u32, u32) {
    let e1 = extended(f, input, location, spline_min(v), derivative);
    let e2 = extended(f, input, location, spline_max(v), derivative);
    widened(f, b, low(f, Ask::Min32(e1, e2)), low(f, Ask::Max32(e1, e2)))
}

fn reach<F: Fn(Ask) -> u64>(f: &F, b: (u32, u32), input: u32, location: u32, v: &DfSpline, derivative: u32) -> (r: (u32, u32))
    requires
        answers(*f),
    ensures
        r == reached(*f, b, input, location, *v, derivative),
{
    let e1: u32 = linear_extend(f, input, location, v.min_value_of(), derivative);
    let e2: u32 = linear_extend(f, input, location, v.max_value_of(), derivative);
    let lo: u32 = f(Ask::Min32(e1, e2)) as u32;
    let hi: u32 = f(Ask::Max32(e1, e2)) as u32;
    widen(f, b, lo, hi)
}

/// Bounds widened to the first `n` knots' own bounds.
pub open spec fn over_values<F: Fn(Ask) -> u64>(f: F, b: (u32, u32), values: Seq<DfSpline>, n: nat) -> (u32, u32)
    decreases n,
{
    if n == 0 {
        b
    } else {
        let v = values[n - 1];
        widened(f, over_values(f, b, values, (n - 1) as nat), spline_min(v), spline_max(v))
    }
}

/// Bounds widened to how far the cubic between two knots may overshoot.
pub open spec fn overshot<F: Fn(Ask) -> u64>(
    f: F, b: (u32, u32), x1: u32, x2: u32, v1: DfSpline, v2: DfSpline, d1: u32, d2: u32,
) -> (u32, u32) {
    if holds(f, Ask::Equal32(d1, 0)) && holds(f, Ask::Equal32(d2, 0)) {
        b
    } else {
        let width = low(f, Ask::Sub32(x2, x1));
        let p1 = low(f, Ask::Mul32(d1, width));
        let p2 = low(f, Ask::Neg32(low(f, Ask::Mul32(d2, width))));
        let min_a = low(f, Ask::Add32(low(f, Ask::Sub32(p1, spline_max(v2))), spline_min(v1)));
        let max_a = low(f, Ask::Add32(low(f, Ask::Sub32(p1, spline_min(v2))), spline_max(v1)));
        let min_b = low(f, Ask::Sub32(low(f, Ask::Add32(p2, spline_min(v2))), spline_max(v1)));
        let max_b = low(f, Ask::Sub32(low(f, Ask::Add32(p2, spline_max(v2))), spline_min(v1)));
        widened(
            f, b,
            low(f, Ask::Add32(
                low(f, Ask::Min32(spline_min(v1), spline_min(v2))),
                low(f, Ask::Mul32(OVERSHOOT_32, low(f, Ask::Min32(min_a, min_b)))),
            )),
            low(f, Ask::Add32(
                low(f, Ask::Max32(spline_max(v1), spline_max(v2))),
                low(f, Ask::Mul32(OVERSHOOT_32, low(f, Ask::Max32(max_a, max_b)))),
            )),
        )
    }
}

fn overshoot<F: Fn(Ask) -> u64>(
    f: &F, b: (u32, u32), x1: u32, x2: u32, v1: &DfSpline, v2: &DfSpline, d1: u32, d2: u32,
) -> (r: (u32, u32))
    requires
        answers(*f),
    ensures
        r == overshot(*f, b, x1, x2, *v1, *v2, d1, d2),
{
    if f(Ask::Equal32(d1, 0)) != 0 && f(Ask::Equal32(d2, 0)) != 0 {
        return b;
    }
    let min1: u32 = v1.min_value_of();
    let max1: u32 = v1.max_value_of();
    let min2: u32 = v2.min_value_of();
    let max2: u32 = v2.max_value_of();
    let width: u32 = f(Ask::Sub32(x2, x1)) as u32;
    let p1: u32 = f(Ask::Mul32(d1, width)) as u32;
    let q2: u32 = f(Ask::Mul32(d2, width)) as u32;
    let p2: u32 = f(Ask::Neg32(q2)) as u32;
    let a0: u32 = f(Ask::Sub32(p1, max2)) as u32;
    let min_a: u32 = f(Ask::Add32(a0, min1)) as u32;
    let a1: u32 = f(Ask::Sub32(p1, min2)) as u32;
    let max_a: u32 = f(Ask::Add32(a1, max1)) as u32;
    let b0: u32 = f(Ask::Add32(p2, min2)) as u32;
    let min_b: u32 = f(Ask::Sub32(b0, max1)) as u32;
    let b1: u32 = f(Ask::Add32(p2, max2)) as u32;
    let max_b: u32 = f(Ask::Sub32(b1, min1)) as u32;
    let lo1: u32 = f(Ask::Min32(min1, min2)) as u32;
    let lo2: u32 = f(Ask::Min32(min_a, min_b)) as u32;
    let lo3: u32 = f(Ask::Mul32(OVERSHOOT_32, lo2)) as u32;
    let lo: u32 = f(Ask::Add32(lo1, lo3)) as u32;
    let hi1: u32 = f(Ask::Max32(max1, max2)) as u32;
    let hi2: u32 = f(Ask::Max32(max_a, max_b)) as u32;
    let hi3: u32 = f(Ask::Mul32(OVERSHOOT_32, hi2)) as u32;
    let hi: u32 = f(Ask::Add32(hi1, hi3)) as u32;
    widen(f, b, lo, hi)
}

/// Bounds widened to the overshoots of the first `n` intervals.
pub open spec fn over_intervals<F: Fn(Ask) -> u64>(
    f: F, b: (u32, u32), locations: Seq<u32>, values: Seq<DfSpline>, derivatives: Seq<u32>, n: nat,
) -> (u32, u32)
    decreases n,
{
    if n == 0 {
        b
    } else {
        overshot(
            f, over_intervals(f, b, locations, values, derivatives, (n - 1) as nat),
            locations[n - 1], locations[n as int], values[n - 1], values[n as int],
            derivatives[n - 1], derivatives[n as int],
        )
    }
}

/// The bounds of a spline: its extensions to the coordinate's bounds, the
/// knots' own bounds, and the overshoot between knots.
pub open spec fn spline_bounds<F: Fn(Ask) -> u64>(
    f: F, coordinate: DensityFunction, locations: Seq<u32>, values: Seq<DfSpline>, derivatives: Seq<u32>,
) -> (u32, u32) {
    let n = locations.len() as int;
    let min_input = low(f, Ask::Narrow(lower(f, coordinate)));
    let max_input = low(f, Ask::Narrow(upper(f, coordinate)));
    let b0 = (INFINITY_32, MINUS_INFINITY_32);
    let b1 = if holds(f, Ask::Less32(min_input, locations[0])) {
        reached(f, b0, min_input, locations[0], values[0], derivatives[0])
    } else {
        b0
    };
    let b2 = if holds(f, Ask::Less32(locations[n - 1], max_input)) {
        reached(f, b1, max_input, locations[n - 1], values[n - 1], derivatives[n - 1])
    } else {
        b1
    };
    let b3 = over_values(f, b2, values, n as nat);
    over_intervals(f, b3, locations, values, derivatives, (n - 1) as nat)
}

impl DfSpline {
    /// A spline through the given knots, with its bounds worked out.
    pub fn new_multipoint<F: Fn(Ask) -> u64>(
        coordinate: DensityFunction, locations: Vec<u32>, values: Vec<DfSpline>, derivatives: Vec<u32>, f: &F,
    ) -> (r: DfSpline)
        requires
            answers(*f),
            locations@.len() == values@.len(),
            locations@.len() == derivatives@.len(),
            locations@.len() >= 1,
        ensures
            r matches DfSpline::Multipoint {
                coordinate: c,
                locations: l,
                values: v,
                derivatives: d,
                min_value,
                max_value,
            } && *c == coordinate && l == locations && v == values && d == derivatives && (min_value, max_value)
                == spline_bounds(*f, coordinate, locations@, values@, derivatives@),
    {
        let last: usize = locations.len() - 1;
        let c0: u64 = coordinate.min_value(f);
        let min_input: u32 = f(Ask::Narrow(c0)) as u32;
        let c1: u64 = coordinate.max_value(f);
        let max_input: u32 = f(Ask::Narrow(c1)) as u32;
        let mut b: (u32, u32) = (INFINITY_32, MINUS_INFINITY_32);
        if f(Ask::Less32(min_input, locations[0])) != 0 {
            b = reach(f, b, min_input, locations[0], &values[0], derivatives[0]);
        }
        if f(Ask::Less32(locations[last], max_input)) != 0 {
            b = reach(f, b, max_input, locations[last], &values[last], derivatives[last]);
        }
        let ghost b2 = b;
        let mut i: usize = 0;
        while i < values.len()
            invariant
                answers(*f),
                i <= values@.len(),
                b == over_values(*f, b2, values@, i as nat),
            decreases values.len() - i,
        {
            b = widen(f, b, values[i].min_value_of(), values[i].max_value_of());
            i += 1;
        }
        let ghost b3 = b;
        let mut k: usize = 0;
        while k < last
            invariant
                answers(*f),
                k <= last,
                last == locations@.len() - 1,
                locations@.len() == values@.len(),
                locations@.len() == derivatives@.len(),
                b == over_intervals(*f, b3, locations@, values@, derivatives@, k as nat),
            decreases last - k,
        {
            b = overshoot(
                f, b, locations[k], locations[k + 1], &values[k], &values[k + 1], derivatives[k], derivatives[k + 1]);
            k += 1;
        }
        DfSpline::Multipoint {
            coordinate: Box::new(coordinate),
            locations,
            values,
            derivatives,
            min_value: b.0,
            max_value: b.1,
        }
    }
}

/// The trees under the interpolation markers that are reached without
/// crossing another one, depth first.
pub open spec fn di_inputs(df: DensityFunction) -> Seq<DensityFunction>
    decreases df, 0nat,
{
    match df {
        DensityFunction::Marker { kind, wrapped } => {
            if kind == MarkerKind::Interpolated { seq![*wrapped] } else { di_inputs(*wrapped) }
        },
        DensityFunction::Add(a, b) => di_inputs(*a) + di_inputs(*b),
        DensityFunction::Mul(a, b) => di_inputs(*a) + di_inputs(*b),
        DensityFunction::Min(a, b) => di_inputs(*a) + di_inputs(*b),
        DensityFunction::Max(a, b) => di_inputs(*a) + di_inputs(*b),
        DensityFunction::Abs(x) => di_inputs(*x),
        DensityFunction::Square(x) => di_inputs(*x),
        DensityFunction::Cube(x) => di_inputs(*x),
        DensityFunction::HalfNegative(x) => di_inputs(*x),
        DensityFunction::QuarterNegative(x) => di_inputs(*x),
        DensityFunction::Invert(x) => di_inputs(*x),
        DensityFunction::Squeeze(x) => di_inputs(*x),
        DensityFunction::Clamp { input, .. } => di_inputs(*input),
        DensityFunction::RangeChoice { input, when_in_range, when_out_of_range, .. } => {
            di_inputs(*input) + di_inputs(*when_in_range) + di_inputs(*when_out_of_range)
        },
        DensityFunction::ShiftedNoise { shift_x, shift_y, shift_z, .. } => {
            di_inputs(*shift_x) + di_inputs(*shift_y) + di_inputs(*shift_z)
        },
        DensityFunction::WeirdScaledSampler { input, .. } => di_inputs(*input),
        DensityFunction::IntervalSelect { input, functions, .. } => {
            di_inputs(*input) + di_inputs_of(functions@, functions@.len())
        },
        DensityFunction::Spline(s) => di_inputs_spline(*s),
        _ => Seq::empty(),
    }
}

/// Those of the first `n` functions.
pub open spec fn di_inputs_of(functions: Seq<DensityFunction>, n: nat) -> Seq<DensityFunction>
    decreases functions, n,
{
    if n == 0 || n > functions.len() {
        Seq::empty()
    } else {
        di_inputs_of(functions, (n - 1) as nat) + di_inputs(functions[n - 1])
    }
}

/// Those of a spline's coordinates, outer ones first.
pub open spec fn di_inputs_spline(s: DfSpline) -> Seq<DensityFunction>
    decreases s, 0nat,
{
    match s {
        DfSpline::Constant(_) => Seq::empty(),
        DfSpline::Multipoint { coordinate, values, .. } => {
            di_inputs(*coordinate) + di_inputs_splines(values@, values@.len())
        },
    }
}

/// Those of the first `n` splines.
pub open spec fn di_inputs_splines(values: Seq<DfSpline>, n: nat) -> Seq<DensityFunction>
    decreases values, n,
{
    if n == 0 || n > values.len() {
        Seq::empty()
    } else {
        di_inputs_splines(values, (n - 1) as nat) + di_inputs_spline(values[n - 1])
    }
}

/// What a list of references holds.
pub open spec fn referents(s: Seq<&DensityFunction>) -> Seq<DensityFunction> {
    s.map_values(|d: &DensityFunction| *d)
}

impl DensityFunction {
    /// Collect the trees that are sampled on the cell corner grid, in the
    /// order in which [`DensityFunction::compute_with_di_lerp`] reads them.
    pub fn enumerate_di_inputs<'a>(&'a self, out: &mut Vec<&'a DensityFunction>)
        ensures
            referents(final(out)@) == referents(old(out)@) + di_inputs(*self),
        decreases self,
    {
        let ghost start = referents(out@);
        match self {
            DensityFunction::Marker { kind, wrapped } => {
                if *kind == MarkerKind::Interpolated {
                    out.push(wrapped);
                    proof { assert(referents(out@) =~= start + di_inputs(*self)); }
                } else {
                    wrapped.enumerate_di_inputs(out);
                }
            },
            DensityFunction::Add(a, b) | DensityFunction::Mul(a, b) | DensityFunction::Min(a, b) | DensityFunction::Max(
                a, b) => {
                a.enumerate_di_inputs(out);
                b.enumerate_di_inputs(out);
                proof { assert(referents(out@) =~= start + di_inputs(*self)); }
            },
            DensityFunction::Abs(x) | DensityFunction::Square(x) | DensityFunction::Cube(x)
            | DensityFunction::HalfNegative(x) | DensityFunction::QuarterNegative(x) | DensityFunction::Invert(x)
            | DensityFunction::Squeeze(x) => {
                x.enumerate_di_inputs(out);
            },
            DensityFunction::Clamp { input, .. } => {
                input.enumerate_di_inputs(out);
            },
            DensityFunction::RangeChoice { input, when_in_range, when_out_of_range, .. } => {
                input.enumerate_di_inputs(out);
                when_in_range.enumerate_di_inputs(out);
                when_out_of_range.enumerate_di_inputs(out);
                proof { assert(referents(out@) =~= start + di_inputs(*self)); }
            },
            DensityFunction::ShiftedNoise { shift_x, shift_y, shift_z, .. } => {
                shift_x.enumerate_di_inputs(out);
                shift_y.enumerate_di_inputs(out);
                shift_z.enumerate_di_inputs(out);
                proof { assert(referents(out@) =~= start + di_inputs(*self)); }
            },
            DensityFunction::WeirdScaledSampler { input, .. } => {
                input.enumerate_di_inputs(out);
            },
            DensityFunction::IntervalSelect { input, functions, .. } => {
                input.enumerate_di_inputs(out);
                let ghost mid = referents(out@);
                proof { assert(mid + di_inputs_of(functions@, 0) =~= mid); }
                let mut i: usize = 0;
                while i < functions.len()
                    invariant
                        i <= functions@.len(),
                        referents(out@) == mid + di_inputs_of(functions@, i as nat),
                        *self matches DensityFunction::IntervalSelect { functions: g, .. } && g == *functions,
                    decreases functions.len() - i,
                {
                    proof {
                        assert(decreases_to!(*self => self->IntervalSelect_functions));
                        assert(decreases_to!(functions => functions[i as int]));
                    }
                    functions[i].enumerate_di_inputs(out);
                    proof {
                        assert(referents(out@) =~= mid + di_inputs_of(functions@, (i + 1) as nat));
                    }
                    i += 1;
                }
                proof { assert(referents(out@) =~= start + di_inputs(*self)); }
            },
            DensityFunction::Spline(spline) => {
                spline.enumerate_di_inputs(out);
            },
            _ => {
                proof { assert(referents(out@) =~= start + di_inputs(*self)); }
            },
        }
    }
}

impl DfSpline {
    /// Collect the trees under the interpolation markers of the spline's
    /// coordinates.
    pub fn enumerate_di_inputs<'a>(&'a self, out: &mut Vec<&'a DensityFunction>)
        ensures
            referents(final(out)@) == referents(old(out)@) + di_inputs_spline(*self),
        decreases self,
    {
        let ghost start = referents(out@);
        match self {
            DfSpline::Constant(_) => {
                proof { assert(referents(out@) =~= start + di_inputs_spline(*self)); }
            },
            DfSpline::Multipoint { coordinate, values, .. } => {
                coordinate.enumerate_di_inputs(out);
                let ghost mid = referents(out@);
                proof { assert(mid + di_inputs_splines(values@, 0) =~= mid); }
                let mut i: usize = 0;
                while i < values.len()
                    invariant
                        i <= values@.len(),
                        referents(out@) == mid + di_inputs_splines(values@, i as nat),
                        *self matches DfSpline::Multipoint { values: g, .. } && g == *values,
                    decreases values.len() - i,
                {
                    proof {
                        assert(decreases_to!(*self => self->Multipoint_values));
                        assert(decreases_to!(values => values[i as int]));
                    }
                    values[i].enumerate_di_inputs(out);
                    proof {
                        assert(referents(out@) =~= mid + di_inputs_splines(values@, (i + 1) as nat));
                    }
                    i += 1;
                }
                proof { assert(referents(out@) =~= start + di_inputs_spline(*self)); }
            },
        }
    }
}

/// Where the cell corners of a chunk lie and how many there are, per axis.
#[derive(Clone, Copy, Debug)]
pub struct CornerGrid {
    pub min: (i32, i32, i32),
    pub cell: (i32, i32, i32),
    pub dims: (usize, usize, usize),
}

impl CornerGrid {
    /// How many corners there are.
    pub open spec fn count(self) -> int {
        self.dims.1 * self.dims.2 * self.dims.0
    }

    /// The block lies in a cell of the grid.
    pub open spec fn holds_block(self, c: FunctionContext) -> bool {
        &&& self.cell.0 > 0 && self.cell.1 > 0 && self.cell.2 > 0
        &&& 0 <= c.block_x - self.min.0 <= i32::MAX
        &&& 0 <= c.block_y - self.min.1 <= i32::MAX
        &&& 0 <= c.block_z - self.min.2 <= i32::MAX
        &&& (c.block_x - self.min.0) / (self.cell.0 as int) + 1 < self.dims.0
        &&& (c.block_y - self.min.1) / (self.cell.1 as int) + 1 < self.dims.1
        &&& (c.block_z - self.min.2) / (self.cell.2 as int) + 1 < self.dims.2
        &&& self.count() <= usize::MAX
    }

    /// The position of a corner: y slowest, then z, then x.
    pub open spec fn at(self, cx: int, cy: int, cz: int) -> int {
        cy * (self.dims.2 * self.dims.0) + cz * self.dims.0 + cx
    }
}

/// How far into its cell a coordinate lies, as a fraction.
pub open spec fn fraction<F: Fn(Ask) -> u64>(f: F, d: int, cell: i32) -> u64 {
    let start = (d / (cell as int)) * cell;
    reply(f, Ask::Div64(
        reply(f, Ask::Sub64(as_double(f, d as i32), as_double(f, start as i32))),
        as_double(f, cell),
    ))
}

fn cell_fraction<F: Fn(Ask) -> u64>(f: &F, d: i32, cell: i32) -> (r: u64)
    requires
        answers(*f),
        d >= 0,
        cell > 0,
    ensures
        r == fraction(*f, d as int, cell),
{
    proof {
        assert(0 <= (d as int / cell as int) * cell <= d) by (nonlinear_arith)
            requires
                d >= 0,
                cell > 0,
        ;
    }
    let start: i32 = (d / cell) * cell;
    let a: u64 = f(Ask::FromInt64(d));
    let b: u64 = f(Ask::FromInt64(start));
    let n: u64 = f(Ask::Sub64(a, b));
    let m: u64 = f(Ask::FromInt64(cell));
    f(Ask::Div64(n, m))
}

/// The corner values around a block blended along x, then y, then z.
pub open spec fn trilinear<F: Fn(Ask) -> u64>(f: F, corners: Seq<u64>, g: CornerGrid, c: FunctionContext) -> u64 {
    let dx = c.block_x - g.min.0;
    let dy = c.block_y - g.min.1;
    let dz = c.block_z - g.min.2;
    let cx = dx / (g.cell.0 as int);
    let cy = dy / (g.cell.1 as int);
    let cz = dz / (g.cell.2 as int);
    let fx = fraction(f, dx, g.cell.0);
    let fy = fraction(f, dy, g.cell.1);
    let fz = fraction(f, dz, g.cell.2);
    let x00 = lerped64(f, fx, corners[g.at(cx, cy, cz)], corners[g.at(cx + 1, cy, cz)]);
    let x10 = lerped64(f, fx, corners[g.at(cx, cy + 1, cz)], corners[g.at(cx + 1, cy + 1, cz)]);
    let x01 = lerped64(f, fx, corners[g.at(cx, cy, cz + 1)], corners[g.at(cx + 1, cy, cz + 1)]);
    let x11 = lerped64(f, fx, corners[g.at(cx, cy + 1, cz + 1)], corners[g.at(cx + 1, cy + 1, cz + 1)]);
    lerped64(f, fz, lerped64(f, fy, x00, x10), lerped64(f, fy, x01, x11))
}

proof fn lemma_corner(g: CornerGrid, cx: int, cy: int, cz: int)
    requires
        0 <= cx < g.dims.0,
        0 <= cy < g.dims.1,
        0 <= cz < g.dims.2,
    ensures
        0 <= g.at(cx, cy, cz) < g.count(),
        0 <= cy * (g.dims.2 * g.dims.0),
        0 <= cz * g.dims.0,
        0 <= g.dims.2 * g.dims.0 <= g.count(),
{
    let a = g.dims.0 as int;
    let b = g.dims.1 as int;
    let d = g.dims.2 as int;
    let row = d * a;
    assert(0 <= row) by (nonlinear_arith)
        requires
            row == d * a,
            d >= 0,
            a >= 0,
    ;
    assert(0 <= cz * a && cz * a + a <= row) by (nonlinear_arith)
        requires
            row == d * a,
            0 <= cz < d,
            a >= 0,
    ;
    assert(0 <= cy * row && cy * row + row <= b * row && row <= b * row) by (nonlinear_arith)
        requires
            0 <= cy < b,
            row >= 0,
    ;
    assert(b * row == b * d * a) by (nonlinear_arith)
        requires
            row == d * a,
    ;
}

fn corner(corners: &Vec<u64>, g: &CornerGrid, cx: usize, cy: usize, cz: usize) -> (r: u64)
    requires
        cx < g.dims.0,
        cy < g.dims.1,
        cz < g.dims.2,
        g.count() <= usize::MAX,
        corners@.len() == g.count(),
    ensures
        r == corners@[g.at(cx as int, cy as int, cz as int)],
{
    proof { lemma_corner(*g, cx as int, cy as int, cz as int); }
    let row: usize = g.dims.2 * g.dims.0;
    corners[cy * row + cz * g.dims.0 + cx]
}

fn trilinear_lerp_corner<F: Fn(Ask) -> u64>(f: &F, corners: &Vec<u64>, g: &CornerGrid, c: &FunctionContext) -> (r: u64)
    requires
        answers(*f),
        g.holds_block(*c),
        corners@.len() == g.count(),
    ensures
        r == trilinear(*f, corners@, *g, *c),
{
    let dx: i32 = c.block_x - g.min.0;
    let dy: i32 = c.block_y - g.min.1;
    let dz: i32 = c.block_z - g.min.2;
    let cx: usize = (dx / g.cell.0) as usize;
    let cy: usize = (dy / g.cell.1) as usize;
    let cz: usize = (dz / g.cell.2) as usize;
    let fx: u64 = cell_fraction(f, dx, g.cell.0);
    let fy: u64 = cell_fraction(f, dy, g.cell.1);
    let fz: u64 = cell_fraction(f, dz, g.cell.2);
    let x00: u64 = lerp64(f, fx, corner(corners, g, cx, cy, cz), corner(corners, g, cx + 1, cy, cz));
    let x10: u64 = lerp64(f, fx, corner(corners, g, cx, cy + 1, cz), corner(corners, g, cx + 1, cy + 1, cz));
    let x01: u64 = lerp64(f, fx, corner(corners, g, cx, cy, cz + 1), corner(corners, g, cx + 1, cy, cz + 1));
    let x11: u64 = lerp64(f, fx, corner(corners, g, cx, cy + 1, cz + 1), corner(corners, g, cx + 1, cy + 1, cz + 1));
    let y0: u64 = lerp64(f, fy, x00, x10);
    let y1: u64 = lerp64(f, fy, x01, x11);
    lerp64(f, fz, y0, y1)
}

/// The value of the tree at a block with the interpolation markers read
/// from sampled corners, and the number of the next corner buffer.
pub open spec fn lerp_value<F: Fn(Ask) -> u64>(
    f: F, df: DensityFunction, c: FunctionContext, st: WorldgenState, bufs: Seq<Vec<u64>>, g: CornerGrid, n: nat,
) -> (u64, nat)
    decreases df, 0nat,
{
    match df {
        DensityFunction::Marker { kind, wrapped } => {
            if kind == MarkerKind::Interpolated {
                if n < bufs.len() { (trilinear(f, bufs[n as int]@, g, c), n + 1) } else { (value(f, df, c, st), n + 1) }
            } else {
                lerp_value(f, *wrapped, c, st, bufs, g, n)
            }
        },
        DensityFunction::Add(a, b) => {
            let (x, m) = lerp_value(f, *a, c, st, bufs, g, n);
            let (y, k) = lerp_value(f, *b, c, st, bufs, g, m);
            (reply(f, Ask::Add64(x, y)), k)
        },
        DensityFunction::Mul(a, b) => {
            let (x, m) = lerp_value(f, *a, c, st, bufs, g, n);
            let (y, k) = lerp_value(f, *b, c, st, bufs, g, m);
            (reply(f, Ask::Mul64(x, y)), k)
        },
        DensityFunction::Min(a, b) => {
            let (x, m) = lerp_value(f, *a, c, st, bufs, g, n);
            let (y, k) = lerp_value(f, *b, c, st, bufs, g, m);
            (reply(f, Ask::Min64(x, y)), k)
        },
        DensityFunction::Max(a, b) => {
            let (x, m) = lerp_value(f, *a, c, st, bufs, g, n);
            let (y, k) = lerp_value(f, *b, c, st, bufs, g, m);
            (reply(f, Ask::Max64(x, y)), k)
        },
        DensityFunction::Abs(x) => {
            let (v, m) = lerp_value(f, *x, c, st, bufs, g, n);
            (Unary::Abs.of(f, v), m)
        },
        DensityFunction::Square(x) => {
            let (v, m) = lerp_value(f, *x, c, st, bufs, g, n);
            (Unary::Square.of(f, v), m)
        },
        DensityFunction::Cube(x) => {
            let (v, m) = lerp_value(f, *x, c, st, bufs, g, n);
            (Unary::Cube.of(f, v), m)
        },
        DensityFunction::HalfNegative(x) => {
            let (v, m) = lerp_value(f, *x, c, st, bufs, g, n);
            (Unary::HalfNegative.of(f, v), m)
        },
        DensityFunction::QuarterNegative(x) => {
            let (v, m) = lerp_value(f, *x, c, st, bufs, g, n);
            (Unary::QuarterNegative.of(f, v), m)
        },
        DensityFunction::Invert(x) => {
            let (v, m) = lerp_value(f, *x, c, st, bufs, g, n);
            (Unary::Invert.of(f, v), m)
        },
        DensityFunction::Squeeze(x) => {
            let (v, m) = lerp_value(f, *x, c, st, bufs, g, n);
            (Unary::Squeeze.of(f, v), m)
        },
        DensityFunction::Clamp { input, min, max } => {
            let (v, m) = lerp_value(f, *input, c, st, bufs, g, n);
            (Unary::Clamp(min, max).of(f, v), m)
        },
        DensityFunction::RangeChoice { input, min_inclusive, max_exclusive, when_in_range, when_out_of_range } => {
            let (v, m) = lerp_value(f, *input, c, st, bufs, g, n);
            let (a, k) = lerp_value(f, *when_in_range, c, st, bufs, g, m);
            let (b, l) = lerp_value(f, *when_out_of_range, c, st, bufs, g, k);
            (if in_range(f, v, min_inclusive, max_exclusive) { a } else { b }, l)
        },
        DensityFunction::IntervalSelect { input, thresholds, functions } => {
            let (v, m) = lerp_value(f, *input, c, st, bufs, g, n);
            let (all, k) = lerp_values(f, functions@, functions@.len(), c, st, bufs, g, m);
            (all[chosen(f, v, thresholds@, 0, functions@.len() - 1)], k)
        },
        _ => (value(f, df, c, st), n),
    }
}

/// The values of the first `k` functions, one after the other.
pub open spec fn lerp_values<F: Fn(Ask) -> u64>(
    f: F, functions: Seq<DensityFunction>, k: nat, c: FunctionContext, st: WorldgenState, bufs: Seq<Vec<u64>>,
    g: CornerGrid, n: nat,
) -> (Seq<u64>, nat)
    decreases functions, k,
{
    if k == 0 || k > functions.len() {
        (Seq::empty(), n)
    } else {
        let (all, m) = lerp_values(f, functions, (k - 1) as nat, c, st, bufs, g, n);
        let (v, l) = lerp_value(f, functions[k - 1], c, st, bufs, g, m);
        (all.push(v), l)
    }
}

/// How many corner buffers the tree reads.
pub open spec fn reads(df: DensityFunction) -> nat
    decreases df, 0nat,
{
    match df {
        DensityFunction::Marker { kind, wrapped } => if kind == MarkerKind::Interpolated { 1 } else { reads(*wrapped) },
        DensityFunction::Add(a, b) => reads(*a) + reads(*b),
        DensityFunction::Mul(a, b) => reads(*a) + reads(*b),
        DensityFunction::Min(a, b) => reads(*a) + reads(*b),
        DensityFunction::Max(a, b) => reads(*a) + reads(*b),
        DensityFunction::Abs(x) => reads(*x),
        DensityFunction::Square(x) => reads(*x),
        DensityFunction::Cube(x) => reads(*x),
        DensityFunction::HalfNegative(x) => reads(*x),
        DensityFunction::QuarterNegative(x) => reads(*x),
        DensityFunction::Invert(x) => reads(*x),
        DensityFunction::Squeeze(x) => reads(*x),
        DensityFunction::Clamp { input, .. } => reads(*input),
        DensityFunction::RangeChoice { input, when_in_range, when_out_of_range, .. } => {
            reads(*input) + reads(*when_in_range) + reads(*when_out_of_range)
        },
        DensityFunction::IntervalSelect { input, functions, .. } => reads(*input) + reads_of(functions@, functions@.len()),
        _ => 0,
    }
}

/// How many the first `k` functions read.
pub open spec fn reads_of(functions: Seq<DensityFunction>, k: nat) -> nat
    decreases functions, k,
{
    if k == 0 || k > functions.len() { 0 } else { reads_of(functions, (k - 1) as nat) + reads(functions[k - 1]) }
}

/// The next corner buffer is the first one the tree did not read.
pub proof fn lemma_lerp_reads<F: Fn(Ask) -> u64>(
    f: F, df: DensityFunction, c: FunctionContext, st: WorldgenState, bufs: Seq<Vec<u64>>, g: CornerGrid, n: nat,
)
    ensures
        lerp_value(f, df, c, st, bufs, g, n).1 == n + reads(df),
    decreases df, 0nat,
{
    match df {
        DensityFunction::Marker { kind, wrapped } => {
            if kind != MarkerKind::Interpolated {
                lemma_lerp_reads(f, *wrapped, c, st, bufs, g, n);
            }
        },
        DensityFunction::Add(a, b) | DensityFunction::Mul(a, b) | DensityFunction::Min(a, b) | DensityFunction::Max(
            a, b) => {
            lemma_lerp_reads(f, *a, c, st, bufs, g, n);
            lemma_lerp_reads(f, *b, c, st, bufs, g, n + reads(*a));
        },
        DensityFunction::Abs(x) | DensityFunction::Square(x) | DensityFunction::Cube(x) | DensityFunction::HalfNegative(x)
        | DensityFunction::QuarterNegative(x) | DensityFunction::Invert(x) | DensityFunction::Squeeze(x) => {
            lemma_lerp_reads(f, *x, c, st, bufs, g, n);
        },
        DensityFunction::Clamp { input, .. } => {
            lemma_lerp_reads(f, *input, c, st, bufs, g, n);
        },
        DensityFunction::RangeChoice { input, when_in_range, when_out_of_range, .. } => {
            lemma_lerp_reads(f, *input, c, st, bufs, g, n);
            lemma_lerp_reads(f, *when_in_range, c, st, bufs, g, n + reads(*input));
            lemma_lerp_reads(f, *when_out_of_range, c, st, bufs, g, n + reads(*input) + reads(*when_in_range));
        },
        DensityFunction::IntervalSelect { input, functions, .. } => {
            lemma_lerp_reads(f, *input, c, st, bufs, g, n);
            lemma_lerp_reads_of(f, functions@, functions@.len(), c, st, bufs, g, n + reads(*input));
        },
        _ => {},
    }
}

proof fn lemma_lerp_reads_of<F: Fn(Ask) -> u64>(
    f: F, functions: Seq<DensityFunction>, k: nat, c: FunctionContext, st: WorldgenState, bufs: Seq<Vec<u64>>,
    g: CornerGrid, n: nat,
)
    requires
        k <= functions.len(),
    ensures
        lerp_values(f, functions, k, c, st, bufs, g, n).1 == n + reads_of(functions, k),
        lerp_values(f, functions, k, c, st, bufs, g, n).0.len() == k,
    decreases functions, k,
{
    if k > 0 {
        lemma_lerp_reads_of(f, functions, (k - 1) as nat, c, st, bufs, g, n);
        lemma_lerp_reads(f, functions[k - 1], c, st, bufs, g, n + reads_of(functions, (k - 1) as nat));
    }
}

/// No interpolation marker sits under a shifted noise, a scaled sampler or
/// a spline, where evaluation does not look for one.
pub open spec fn markers_in_reach(df: DensityFunction) -> bool
    decreases df,
{
    match df {
        DensityFunction::Marker { kind, wrapped } => kind == MarkerKind::Interpolated || markers_in_reach(*wrapped),
        DensityFunction::Add(a, b) => markers_in_reach(*a) && markers_in_reach(*b),
        DensityFunction::Mul(a, b) => markers_in_reach(*a) && markers_in_reach(*b),
        DensityFunction::Min(a, b) => markers_in_reach(*a) && markers_in_reach(*b),
        DensityFunction::Max(a, b) => markers_in_reach(*a) && markers_in_reach(*b),
        DensityFunction::Abs(x) => markers_in_reach(*x),
        DensityFunction::Square(x) => markers_in_reach(*x),
        DensityFunction::Cube(x) => markers_in_reach(*x),
        DensityFunction::HalfNegative(x) => markers_in_reach(*x),
        DensityFunction::QuarterNegative(x) => markers_in_reach(*x),
        DensityFunction::Invert(x) => markers_in_reach(*x),
        DensityFunction::Squeeze(x) => markers_in_reach(*x),
        DensityFunction::Clamp { input, .. } => markers_in_reach(*input),
        DensityFunction::RangeChoice { input, when_in_range, when_out_of_range, .. } => {
            markers_in_reach(*input) && markers_in_reach(*when_in_range) && markers_in_reach(*when_out_of_range)
        },
        DensityFunction::IntervalSelect { input, functions, .. } => {
            &&& markers_in_reach(*input)
            &&& forall|i: int| 0 <= i < functions@.len() ==> markers_in_reach(#[trigger] functions@[i])
        },
        DensityFunction::ShiftedNoise { .. } => di_inputs(df).len() == 0,
        DensityFunction::WeirdScaledSampler { .. } => di_inputs(df).len() == 0,
        DensityFunction::Spline(_) => di_inputs(df).len() == 0,
        _ => true,
    }
}

/// Evaluation reads exactly one corner buffer per enumerated tree, so an
/// index counting along walks both alike.
pub proof fn law_buffers_match_enumeration(df: DensityFunction)
    requires
        markers_in_reach(df),
    ensures
        reads(df) == di_inputs(df).len(),
    decreases df, 0nat,
{
    match df {
        DensityFunction::Marker { kind, wrapped } => {
            if kind != MarkerKind::Interpolated {
                law_buffers_match_enumeration(*wrapped);
            }
        },
        DensityFunction::Add(a, b) | DensityFunction::Mul(a, b) | DensityFunction::Min(a, b) | DensityFunction::Max(
            a, b) => {
            law_buffers_match_enumeration(*a);
            law_buffers_match_enumeration(*b);
        },
        DensityFunction::Abs(x) | DensityFunction::Square(x) | DensityFunction::Cube(x) | DensityFunction::HalfNegative(x)
        | DensityFunction::QuarterNegative(x) | DensityFunction::Invert(x) | DensityFunction::Squeeze(x) => {
            law_buffers_match_enumeration(*x);
        },
        DensityFunction::Clamp { input, .. } => {
            law_buffers_match_enumeration(*input);
        },
        DensityFunction::RangeChoice { input, when_in_range, when_out_of_range, .. } => {
            law_buffers_match_enumeration(*input);
            law_buffers_match_enumeration(*when_in_range);
            law_buffers_match_enumeration(*when_out_of_range);
        },
        DensityFunction::IntervalSelect { input, functions, .. } => {
            law_buffers_match_enumeration(*input);
            lemma_buffers_of(functions@, functions@.len());
        },
        _ => {},
    }
}

proof fn lemma_buffers_of(functions: Seq<DensityFunction>, k: nat)
    requires
        k <= functions.len(),
        forall|i: int| 0 <= i < functions.len() ==> markers_in_reach(#[trigger] functions[i]),
    ensures
        reads_of(functions, k) == di_inputs_of(functions, k).len(),
    decreases functions, k,
{
    if k > 0 {
        lemma_buffers_of(functions, (k - 1) as nat);
        law_buffers_match_enumeration(functions[k - 1]);
    }
}

impl DensityFunction {
    /// The value of the tree at a block, with each interpolation marker
    /// read from its sampled cell corners instead of evaluated. `counter`
    /// is the next corner buffer. Every operand is evaluated, so that the
    /// counter does not depend on values.
    pub fn compute_with_di_lerp<F: Fn(Ask) -> u64>(
        &self, ctx: &FunctionContext, state: &WorldgenState, bufs: &Vec<Vec<u64>>, grid: &CornerGrid, counter: &mut usize,
        f: &F,
    ) -> (r: u64)
        requires
            answers(*f),
            sound(*self),
            grid.holds_block(*ctx),
            forall|i: int| 0 <= i < bufs@.len() ==> (#[trigger] bufs@[i])@.len() == grid.count(),
            *old(counter) + reads(*self) <= usize::MAX,
        ensures
            (r, *final(counter) as nat) == lerp_value(*f, *self, *ctx, *state, bufs@, *grid, *old(counter) as nat),
        decreases self, 1nat,
    {
        let ghost n = *counter as nat;
        proof { lemma_lerp_reads(*f, *self, *ctx, *state, bufs@, *grid, n); }
        match self {
            DensityFunction::Marker { kind, wrapped } => {
                if *kind == MarkerKind::Interpolated {
                    let idx: usize = *counter;
                    *counter = idx + 1;
                    if idx < bufs.len() {
                        trilinear_lerp_corner(f, &bufs[idx], grid, ctx)
                    } else {
                        self.compute(ctx, state, f)
                    }
                } else {
                    wrapped.compute_with_di_lerp(ctx, state, bufs, grid, counter, f)
                }
            },
            DensityFunction::Add(a, b) => {
                proof { lemma_lerp_reads(*f, **a, *ctx, *state, bufs@, *grid, n); }
                let x: u64 = a.compute_with_di_lerp(ctx, state, bufs, grid, counter, f);
                let y: u64 = b.compute_with_di_lerp(ctx, state, bufs, grid, counter, f);
                f(Ask::Add64(x, y))
            },
            DensityFunction::Mul(a, b) => {
                proof { lemma_lerp_reads(*f, **a, *ctx, *state, bufs@, *grid, n); }
                let x: u64 = a.compute_with_di_lerp(ctx, state, bufs, grid, counter, f);
                let y: u64 = b.compute_with_di_lerp(ctx, state, bufs, grid, counter, f);
                f(Ask::Mul64(x, y))
            },
            DensityFunction::Min(a, b) => {
                proof { lemma_lerp_reads(*f, **a, *ctx, *state, bufs@, *grid, n); }
                let x: u64 = a.compute_with_di_lerp(ctx, state, bufs, grid, counter, f);
                let y: u64 = b.compute_with_di_lerp(ctx, state, bufs, grid, counter, f);
                f(Ask::Min64(x, y))
            },
            DensityFunction::Max(a, b) => {
                proof { lemma_lerp_reads(*f, **a, *ctx, *state, bufs@, *grid, n); }
                let x: u64 = a.compute_with_di_lerp(ctx, state, bufs, grid, counter, f);
                let y: u64 = b.compute_with_di_lerp(ctx, state, bufs, grid, counter, f);
                f(Ask::Max64(x, y))
            },
            DensityFunction::Abs(x) => {
                let v: u64 = x.compute_with_di_lerp(ctx, state, bufs, grid, counter, f);
                Unary::Abs.apply(f, v)
            },
            DensityFunction::Square(x) => {
                let v: u64 = x.compute_with_di_lerp(ctx, state, bufs, grid, counter, f);
                Unary::Square.apply(f, v)
            },
            DensityFunction::Cube(x) => {
                let v: u64 = x.compute_with_di_lerp(ctx, state, bufs, grid, counter, f);
                Unary::Cube.apply(f, v)
            },
            DensityFunction::HalfNegative(x) => {
                let v: u64 = x.compute_with_di_lerp(ctx, state, bufs, grid, counter, f);
                Unary::HalfNegative.apply(f, v)
            },
            DensityFunction::QuarterNegative(x) => {
                let v: u64 = x.compute_with_di_lerp(ctx, state, bufs, grid, counter, f);
                Unary::QuarterNegative.apply(f, v)
            },
            DensityFunction::Invert(x) => {
                let v: u64 = x.compute_with_di_lerp(ctx, state, bufs, grid, counter, f);
                Unary::Invert.apply(f, v)
            },
            DensityFunction::Squeeze(x) => {
                let v: u64 = x.compute_with_di_lerp(ctx, state, bufs, grid, counter, f);
                Unary::Squeeze.apply(f, v)
            },
            DensityFunction::Clamp { input, min, max } => {
                let v: u64 = input.compute_with_di_lerp(ctx, state, bufs, grid, counter, f);
                Unary::Clamp(*min, *max).apply(f, v)
            },
            DensityFunction::RangeChoice { input, min_inclusive, max_exclusive, when_in_range, when_out_of_range } => {
                proof {
                    lemma_lerp_reads(*f, **input, *ctx, *state, bufs@, *grid, n);
                    lemma_lerp_reads(*f, **when_in_range, *ctx, *state, bufs@, *grid, n + reads(**input));
                }
                let v: u64 = input.compute_with_di_lerp(ctx, state, bufs, grid, counter, f);
                let a: u64 = when_in_range.compute_with_di_lerp(ctx, state, bufs, grid, counter, f);
                let b: u64 = when_out_of_range.compute_with_di_lerp(ctx, state, bufs, grid, counter, f);
                if within(f, v, *min_inclusive, *max_exclusive) {
                    a
                } else {
                    b
                }
            },
            DensityFunction::IntervalSelect { input, thresholds, functions } => {
                proof { lemma_lerp_reads(*f, **input, *ctx, *state, bufs@, *grid, n); }
                let v: u64 = input.compute_with_di_lerp(ctx, state, bufs, grid, counter, f);
                let ghost m = *counter as nat;
                let mut vals: Vec<u64> = Vec::new();
                let mut k: usize = 0;
                while k < functions.len()
                    invariant
                        answers(*f),
                        sound(*self),
                        grid.holds_block(*ctx),
                        forall|i: int| 0 <= i < bufs@.len() ==> (#[trigger] bufs@[i])@.len() == grid.count(),
                        k <= functions@.len(),
                        *self matches DensityFunction::IntervalSelect { functions: g, .. } && g == *functions,
                        m + reads_of(functions@, functions@.len()) <= usize::MAX,
                        (vals@, *counter as nat) == lerp_values(
                            *f, functions@, k as nat, *ctx, *state, bufs@, *grid, m),
                    decreases functions.len() - k,
                {
                    proof {
                        assert(decreases_to!(*self => self->IntervalSelect_functions));
                        assert(decreases_to!(functions => functions[k as int]));
                        assert(sound(functions@[k as int]));
                        lemma_lerp_reads_of(*f, functions@, k as nat, *ctx, *state, bufs@, *grid, m);
                        lemma_reads_grow(functions@, (k + 1) as nat, functions@.len());
                    }
                    let x: u64 = functions[k].compute_with_di_lerp(ctx, state, bufs, grid, counter, f);
                    vals.push(x);
                    k += 1;
                }
                proof {
                    lemma_lerp_reads_of(*f, functions@, functions@.len(), *ctx, *state, bufs@, *grid, m);
                }
                let pick: usize = choose_interval(f, v, thresholds, functions.len() - 1);
                vals[pick]
            },
            _ => self.compute(ctx, state, f),
        }
    }
}

proof fn lemma_reads_grow(functions: Seq<DensityFunction>, j: nat, k: nat)
    requires
        j <= k <= functions.len(),
    ensures
        reads_of(functions, j) <= reads_of(functions, k),
    decreases k,
{
    if j < k {
        lemma_reads_grow(functions, j, (k - 1) as nat);
    }
}

} // verus!
