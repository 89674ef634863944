//! Density function trees and their evaluator in single precision.
//!
//! A point and a whole volume are evaluated along two paths that associate
//! a few operations differently. `interpolated` samples its cell corners
//! through the volume path, so the evaluator carries a [`Mode`] and follows
//! both.

use std::sync::Arc;
use vstd::prelude::*;
use crate::arith::{
    answers, bisect, extended, hermite_at, holds, lerped32, low, reply, Ask, HALF, HALF_32, ONE_32, QUARTER, QUARTER_32,
};
use crate::volume::Volume;

verus! {

/// Two, four and twenty-four, minus one and no number, as singles.
pub const TWO_32: u32 = 0x4000_0000;

pub const FOUR_32: u32 = 0x4080_0000;

pub const TWENTY_FOUR_32: u32 = 0x41C0_0000;

pub const MINUS_ONE_32: u32 = 0xBF80_0000;

pub const NAN_32: u32 = 0x7FC0_0000;

/// Which sampling path the value must match.
#[derive(Clone, Copy, Debug, PartialEq, Eq, Structural)]
pub enum Mode {
    /// One point by itself.
    Point,
    /// One element of a volume: leaf arithmetic follows the volume path.
    Volume,
}

#[derive(Clone, Copy, Debug, PartialEq, Eq, Structural)]
pub enum Axis {
    X,
    Y,
    Z,
}

#[derive(Clone, Copy, Debug, PartialEq, Eq, Structural)]
pub enum Tiling {
    ClampToEdge,
    Repeat,
    MirroredRepeat,
}

#[derive(Clone, Copy, Debug, PartialEq, Eq, Structural)]
pub enum Metric {
    Euclidean,
    EuclideanSquared,
    Manhattan,
    Chebyshev,
}

#[derive(Clone, Copy, Debug, PartialEq, Eq, Structural)]
pub enum RoundKind {
    Floor,
    Round,
    Ceil,
    Truncate,
}

/// An operation on one value. Constants are folded into it.
#[derive(Clone, Copy, Debug)]
pub enum Unary {
    Abs,
    Square,
    Cube,
    Sqrt,
    HalfNegative,
    QuarterNegative,
    Reciprocal,
    Negate,
    Squeeze,
    Log,
    Sign,
    Round(RoundKind),
    AddConst(u32),
    MulConst(u32),
    MinConst(u32),
    MaxConst(u32),
    /// A constant minus the value.
    ConstMinus(u32),
    /// A constant over the value.
    ConstOver(u32),
    /// A constant raised to the value.
    PowBase(u64),
    /// The value raised to a constant.
    PowExp(u64),
    Clamp(u32, u32),
}

/// An operation on two values.
#[derive(Clone, Copy, Debug)]
pub enum Binary {
    Add,
    Sub,
    Mul,
    Div,
    Min,
    Max,
    Pow,
    /// The first rounded to a multiple of the second.
    RoundTo(RoundKind),
}

/// A constant or a multipoint spline over a coordinate function. Splines
/// with the same `key` have the same coordinate.
pub enum Spline {
    Constant(u32),
    Multipoint { key: usize, coordinate: Arc<Node>, locations: Vec<u32>, values: Vec<Spline>, derivatives: Vec<u32> },
}

/// One compiled density function node. Numbers are bit patterns, a noise
/// stack is its number. Caches with the same `id` hold the same input.
pub enum Node {
    Constant(u32),
    Unary { op: Unary, input: Arc<Node> },
    Binary { combine: Binary, left: Arc<Node>, right: Arc<Node> },
    /// A noise; shifts are `None` when they are nothing.
    Noise {
        stack: usize,
        xz_scale: u64,
        y_scale: u64,
        shift_x: Option<Arc<Node>>,
        shift_y: Option<Arc<Node>>,
        shift_z: Option<Arc<Node>>,
    },
    /// A noise with its axes permuted `(z, x, 0)`, times 4.
    ShiftB(usize),
    Gradient { axis: Axis, tiling: Tiling, from_coordinate: i32, to_coordinate: i32, from_value: u32, factor: u32 },
    Lerp { alpha: Arc<Node>, first: Arc<Node>, second: Arc<Node> },
    RangeChoice {
        choice: Arc<Node>,
        min_inclusive: u32,
        max_exclusive: u32,
        when_in_range: Arc<Node>,
        when_out_of_range: Arc<Node>,
    },
    IntervalSelect { selector: Arc<Node>, thresholds: Vec<u32>, functions: Vec<Arc<Node>> },
    Cache { id: usize, cached: Arc<Node> },
    BlendDensity(Arc<Node>),
    BlendAlpha,
    BlendOffset,
    Beardifier,
    Interpolated { cell_size_xz: i32, cell_size_y: i32, corners: Arc<Node> },
    Slice { along: Axis, coordinate: i32, whole: Arc<Node> },
    FindTopSurface { density: Arc<Node>, upper_bound: Arc<Node>, lower_bound: i32, cell_height: i32 },
    DistanceToPoint { metric: Metric, x: i32, y: i32, z: i32 },
    Spline(Spline),
}

/// Counts of a buffer that fits.
pub open spec fn roomy(s: (int, int, int)) -> bool {
    &&& 0 <= s.0 <= 0x100_0000_0000
    &&& 0 <= s.1 <= 0x100_0000_0000
    &&& 0 <= s.2 <= 0x100_0000_0000
    &&& s.0 * s.1 * s.2 <= usize::MAX
}

/// Volumes that a tree can be sampled on: `s` counts per axis and `t`
/// steps, as upper bounds. Every buffer on the way fits, and a surface is
/// looked for on single rows.
pub open spec fn affordable(n: Node, s: (int, int, int), t: (int, int, int)) -> bool
    decreases n, 0nat,
{
    &&& roomy(s)
    &&& match n {
        Node::Unary { input, .. } => affordable(*input, s, t),
        Node::Binary { left, right, .. } => affordable(*left, s, t) && affordable(*right, s, t),
        Node::Noise { shift_x, shift_y, shift_z, .. } => {
            &&& (shift_x matches Some(n) ==> affordable(*n, s, t))
            &&& (shift_y matches Some(n) ==> affordable(*n, s, t))
            &&& (shift_z matches Some(n) ==> affordable(*n, s, t))
        },
        Node::Lerp { alpha, first, second } => affordable(*alpha, s, t) && affordable(*first, s, t) && affordable(*second, s, t),
        Node::RangeChoice { choice, when_in_range, when_out_of_range, .. } => affordable(*choice, s, t) && affordable(
            *when_in_range, s, t) && affordable(*when_out_of_range, s, t),
        Node::IntervalSelect { selector, functions, .. } => {
            &&& affordable(*selector, s, t)
            &&& forall|i: int| 0 <= i < functions@.len() ==> affordable(*#[trigger] functions@[i], s, t)
        },
        Node::Cache { cached, .. } => affordable(*cached, s, t),
        Node::BlendDensity(i) => affordable(*i, s, t),
        Node::Interpolated { cell_size_xz, cell_size_y, corners } => {
            let b = (s.0 * t.0, s.1 * t.1, s.2 * t.2);
            &&& roomy(b)
            &&& affordable(*corners, s, t)
            &&& affordable(
                *corners,
                (b.0 / (cell_size_xz as int) + 3, b.1 / (cell_size_y as int) + 3, b.2 / (cell_size_xz as int) + 3),
                (cell_size_xz as int, cell_size_y as int, cell_size_xz as int),
            )
        },
        Node::Slice { along, whole, .. } => affordable(
            *whole,
            match along {
                Axis::X => (1, s.1, s.2),
                Axis::Y => (s.0, 1, s.2),
                Axis::Z => (s.0, s.1, 1),
            },
            t,
        ),
        Node::FindTopSurface { upper_bound, .. } => s.1 == 1 && affordable(*upper_bound, s, t),
        Node::Spline(sp) => affordable_spline(sp, s, t),
        _ => true,
    }
}

pub open spec fn affordable_spline(sp: Spline, s: (int, int, int), t: (int, int, int)) -> bool
    decreases sp, 0nat,
{
    match sp {
        Spline::Constant(_) => true,
        Spline::Multipoint { coordinate, values, .. } => {
            &&& affordable(*coordinate, s, t)
            &&& forall|i: int| 0 <= i < values@.len() ==> affordable_spline(#[trigger] values@[i], s, t)
        },
    }
}

/// A tree that can be evaluated: splines have a knot, every knot a value
/// and a slope; selections have a function; cells have a size and
/// gradients a range.
pub open spec fn sound(n: Node) -> bool
    decreases n, 0nat,
{
    match n {
        Node::Unary { input, .. } => sound(*input),
        Node::Binary { left, right, .. } => sound(*left) && sound(*right),
        Node::Noise { shift_x, shift_y, shift_z, .. } => {
            &&& (shift_x matches Some(n) ==> sound(*n))
            &&& (shift_y matches Some(n) ==> sound(*n))
            &&& (shift_z matches Some(n) ==> sound(*n))
        },
        Node::Gradient { from_coordinate, to_coordinate, .. } => from_coordinate != to_coordinate,
        Node::Lerp { alpha, first, second } => sound(*alpha) && sound(*first) && sound(*second),
        Node::RangeChoice { choice, when_in_range, when_out_of_range, .. } => sound(*choice) && sound(*when_in_range) && sound(
            *when_out_of_range),
        Node::IntervalSelect { selector, thresholds, functions } => {
            &&& functions@.len() == thresholds@.len() + 1
            &&& sound(*selector)
            &&& forall|i: int| 0 <= i < functions@.len() ==> sound(*#[trigger] functions@[i])
        },
        Node::Cache { cached, .. } => sound(*cached),
        Node::BlendDensity(i) => sound(*i),
        Node::Interpolated { cell_size_xz, cell_size_y, corners } => {
            &&& cell_size_xz > 0
            &&& cell_size_y > 0
            &&& sound(*corners)
            &&& affordable(*corners, (2, 2, 2), (cell_size_xz as int, cell_size_y as int, cell_size_xz as int))
        },
        Node::Slice { whole, .. } => sound(*whole),
        Node::FindTopSurface { density, upper_bound, cell_height, .. } => cell_height > 0 && sound(*density) && sound(*upper_bound),
        Node::Spline(sp) => sound_spline(sp),
        _ => true,
    }
}

pub open spec fn sound_spline(sp: Spline) -> bool
    decreases sp, 0nat,
{
    match sp {
        Spline::Constant(_) => true,
        Spline::Multipoint { coordinate, locations, values, derivatives, .. } => {
            &&& locations@.len() >= 1
            &&& values@.len() == locations@.len()
            &&& derivatives@.len() == locations@.len()
            &&& sound(*coordinate)
            &&& forall|i: int| 0 <= i < values@.len() ==> sound_spline(#[trigger] values@[i])
        },
    }
}

/// A tree without cell interpolation on the way of a single element of a
/// volume.
pub open spec fn direct(n: Node) -> bool
    decreases n, 0nat,
{
    match n {
        Node::Unary { input, .. } => direct(*input),
        Node::Binary { left, right, .. } => direct(*left) && direct(*right),
        Node::Noise { shift_x, shift_y, shift_z, .. } => {
            &&& (shift_x matches Some(n) ==> direct(*n))
            &&& (shift_y matches Some(n) ==> direct(*n))
            &&& (shift_z matches Some(n) ==> direct(*n))
        },
        Node::Lerp { alpha, first, second } => direct(*alpha) && direct(*first) && direct(*second),
        Node::RangeChoice { choice, when_in_range, when_out_of_range, .. } => direct(*choice) && direct(*when_in_range) && direct(
            *when_out_of_range),
        Node::IntervalSelect { selector, functions, .. } => {
            &&& direct(*selector)
            &&& forall|i: int| 0 <= i < functions@.len() ==> direct(*#[trigger] functions@[i])
        },
        Node::Cache { cached, .. } => direct(*cached),
        Node::BlendDensity(i) => direct(*i),
        Node::Interpolated { .. } => false,
        Node::Slice { whole, .. } => direct(*whole),
        Node::FindTopSurface { upper_bound, .. } => direct(*upper_bound),
        Node::Spline(sp) => direct_spline(sp),
        _ => true,
    }
}

pub open spec fn direct_spline(sp: Spline) -> bool
    decreases sp, 0nat,
{
    match sp {
        Spline::Constant(_) => true,
        Spline::Multipoint { coordinate, values, .. } => {
            &&& direct(*coordinate)
            &&& forall|i: int| 0 <= i < values@.len() ==> direct_spline(#[trigger] values@[i])
        },
    }
}

/// The value held between two bounds.
pub open spec fn clamped32<F: Fn(Ask) -> u64>(f: F, v: u32, min: u32, max: u32) -> u32 {
    if holds(f, Ask::Less32(v, min)) { min } else { low(f, Ask::Min32(v, max)) }
}

pub fn clamp32<F: Fn(Ask) -> u64>(f: &F, v: u32, min: u32, max: u32) -> (r: u32)
    requires
        answers(*f),
    ensures
        r == clamped32(*f, v, min, max),
{
    if f(Ask::Less32(v, min)) != 0 { min } else { f(Ask::Min32(v, max)) as u32 }
}

/// The smaller of two values; no number when either is none.
pub open spec fn strict_min<F: Fn(Ask) -> u64>(f: F, a: u32, b: u32) -> u32 {
    if holds(f, Ask::Nan32(a)) || holds(f, Ask::Nan32(b)) { NAN_32 } else { low(f, Ask::Min32(a, b)) }
}

pub fn java_min<F: Fn(Ask) -> u64>(f: &F, a: u32, b: u32) -> (r: u32)
    requires
        answers(*f),
    ensures
        r == strict_min(*f, a, b),
{
    if f(Ask::Nan32(a)) != 0 || f(Ask::Nan32(b)) != 0 { NAN_32 } else { f(Ask::Min32(a, b)) as u32 }
}

/// The larger of two values; no number when either is none.
pub open spec fn strict_max<F: Fn(Ask) -> u64>(f: F, a: u32, b: u32) -> u32 {
    if holds(f, Ask::Nan32(a)) || holds(f, Ask::Nan32(b)) { NAN_32 } else { low(f, Ask::Max32(a, b)) }
}

pub fn java_max<F: Fn(Ask) -> u64>(f: &F, a: u32, b: u32) -> (r: u32)
    requires
        answers(*f),
    ensures
        r == strict_max(*f, a, b),
{
    if f(Ask::Nan32(a)) != 0 || f(Ask::Nan32(b)) != 0 { NAN_32 } else { f(Ask::Max32(a, b)) as u32 }
}

/// A value rounded to an integer: down, to the nearest with halves up, up,
/// or towards zero.
pub open spec fn rounded<F: Fn(Ask) -> u64>(f: F, v: u32, kind: RoundKind) -> u32 {
    let wide = reply(f, Ask::Widen(v));
    let down = low(f, Ask::Narrow(reply(f, Ask::Floor64(wide))));
    let up = low(f, Ask::Narrow(reply(f, Ask::Ceil64(wide))));
    match kind {
        RoundKind::Floor => down,
        RoundKind::Round => low(
            f,
            Ask::FromInt32(reply(f, Ask::ToInt64(reply(f, Ask::Floor64(reply(f, Ask::Add64(wide, HALF)))))) as i32),
        ),
        RoundKind::Ceil => up,
        RoundKind::Truncate => if holds(f, Ask::Less32(0, v)) { down } else { up },
    }
}

pub fn round_to_integer<F: Fn(Ask) -> u64>(f: &F, v: u32, kind: RoundKind) -> (r: u32)
    requires
        answers(*f),
    ensures
        r == rounded(*f, v, kind),
{
    let wide: u64 = f(Ask::Widen(v));
    match kind {
        RoundKind::Floor => {
            let w: u64 = f(Ask::Floor64(wide));
            f(Ask::Narrow(w)) as u32
        },
        RoundKind::Round => {
            let w: u64 = f(Ask::Add64(wide, HALF));
            let w: u64 = f(Ask::Floor64(w));
            let i: i32 = f(Ask::ToInt64(w)) as i32;
            f(Ask::FromInt32(i)) as u32
        },
        RoundKind::Ceil => {
            let w: u64 = f(Ask::Ceil64(wide));
            f(Ask::Narrow(w)) as u32
        },
        RoundKind::Truncate => {
            if f(Ask::Less32(0, v)) != 0 {
                let w: u64 = f(Ask::Floor64(wide));
                f(Ask::Narrow(w)) as u32
            } else {
                let w: u64 = f(Ask::Ceil64(wide));
                f(Ask::Narrow(w)) as u32
            }
        },
    }
}

/// What an operation on one value gives.
pub open spec fn one<F: Fn(Ask) -> u64>(f: F, op: Unary, v: u32) -> u32 {
    match op {
        Unary::Abs => low(f, Ask::Abs32(v)),
        Unary::Square => low(f, Ask::Mul32(v, v)),
        Unary::Cube => low(f, Ask::Mul32(low(f, Ask::Mul32(v, v)), v)),
        Unary::Sqrt => low(f, Ask::Narrow(reply(f, Ask::Sqrt64(reply(f, Ask::Widen(v)))))),
        Unary::HalfNegative => if holds(f, Ask::Less32(0, v)) { v } else { low(f, Ask::Mul32(v, HALF_32)) },
        Unary::QuarterNegative => if holds(f, Ask::Less32(0, v)) { v } else { low(f, Ask::Mul32(v, QUARTER_32)) },
        Unary::Reciprocal => low(f, Ask::Div32(ONE_32, v)),
        Unary::Negate => low(f, Ask::Neg32(v)),
        Unary::Squeeze => {
            let c = clamped32(f, v, MINUS_ONE_32, ONE_32);
            let cube = low(f, Ask::Mul32(low(f, Ask::Mul32(c, c)), c));
            low(f, Ask::Sub32(low(f, Ask::Div32(c, TWO_32)), low(f, Ask::Div32(cube, TWENTY_FOUR_32))))
        },
        Unary::Log => low(f, Ask::Narrow(reply(f, Ask::Ln64(reply(f, Ask::Widen(v)))))),
        Unary::Sign => if holds(f, Ask::Nan32(v)) || holds(f, Ask::Equal32(v, 0)) { v } else { low(f, Ask::Signum32(v)) },
        Unary::Round(kind) => rounded(f, v, kind),
        Unary::AddConst(c) => low(f, Ask::Add32(v, c)),
        Unary::MulConst(c) => low(f, Ask::Mul32(v, c)),
        Unary::MinConst(c) => strict_min(f, v, c),
        Unary::MaxConst(c) => strict_max(f, v, c),
        Unary::ConstMinus(c) => low(f, Ask::Sub32(c, v)),
        Unary::ConstOver(c) => low(f, Ask::Div32(c, v)),
        Unary::PowBase(c) => low(f, Ask::Narrow(reply(f, Ask::Pow64(c, reply(f, Ask::Widen(v)))))),
        Unary::PowExp(c) => low(f, Ask::Narrow(reply(f, Ask::Pow64(reply(f, Ask::Widen(v)), c)))),
        Unary::Clamp(min, max) => clamped32(f, v, min, max),
    }
}

pub fn unary<F: Fn(Ask) -> u64>(f: &F, op: Unary, v: u32) -> (r: u32)
    requires
        answers(*f),
    ensures
        r == one(*f, op, v),
{
    match op {
        Unary::Abs => f(Ask::Abs32(v)) as u32,
        Unary::Square => f(Ask::Mul32(v, v)) as u32,
        Unary::Cube => {
            let s: u32 = f(Ask::Mul32(v, v)) as u32;
            f(Ask::Mul32(s, v)) as u32
        },
        Unary::Sqrt => {
            let w: u64 = f(Ask::Widen(v));
            let s: u64 = f(Ask::Sqrt64(w));
            f(Ask::Narrow(s)) as u32
        },
        Unary::HalfNegative => {
            if f(Ask::Less32(0, v)) != 0 { v } else { f(Ask::Mul32(v, HALF_32)) as u32 }
        },
        Unary::QuarterNegative => {
            if f(Ask::Less32(0, v)) != 0 { v } else { f(Ask::Mul32(v, QUARTER_32)) as u32 }
        },
        Unary::Reciprocal => f(Ask::Div32(ONE_32, v)) as u32,
        Unary::Negate => f(Ask::Neg32(v)) as u32,
        Unary::Squeeze => {
            let c: u32 = clamp32(f, v, MINUS_ONE_32, ONE_32);
            let half: u32 = f(Ask::Div32(c, TWO_32)) as u32;
            let s: u32 = f(Ask::Mul32(c, c)) as u32;
            let cube: u32 = f(Ask::Mul32(s, c)) as u32;
            let part: u32 = f(Ask::Div32(cube, TWENTY_FOUR_32)) as u32;
            f(Ask::Sub32(half, part)) as u32
        },
        Unary::Log => {
            let w: u64 = f(Ask::Widen(v));
            let l: u64 = f(Ask::Ln64(w));
            f(Ask::Narrow(l)) as u32
        },
        Unary::Sign => {
            if f(Ask::Nan32(v)) != 0 || f(Ask::Equal32(v, 0)) != 0 { v } else { f(Ask::Signum32(v)) as u32 }
        },
        Unary::Round(kind) => round_to_integer(f, v, kind),
        Unary::AddConst(c) => f(Ask::Add32(v, c)) as u32,
        Unary::MulConst(c) => f(Ask::Mul32(v, c)) as u32,
        Unary::MinConst(c) => java_min(f, v, c),
        Unary::MaxConst(c) => java_max(f, v, c),
        Unary::ConstMinus(c) => f(Ask::Sub32(c, v)) as u32,
        Unary::ConstOver(c) => f(Ask::Div32(c, v)) as u32,
        Unary::PowBase(c) => {
            let w: u64 = f(Ask::Widen(v));
            let p: u64 = f(Ask::Pow64(c, w));
            f(Ask::Narrow(p)) as u32
        },
        Unary::PowExp(c) => {
            let w: u64 = f(Ask::Widen(v));
            let p: u64 = f(Ask::Pow64(w, c));
            f(Ask::Narrow(p)) as u32
        },
        Unary::Clamp(min, max) => clamp32(f, v, min, max),
    }
}

/// What an operation on two values gives.
pub open spec fn two<F: Fn(Ask) -> u64>(f: F, op: Binary, a: u32, b: u32) -> u32 {
    match op {
        Binary::Add => low(f, Ask::Add32(a, b)),
        Binary::Sub => low(f, Ask::Sub32(a, b)),
        Binary::Mul => low(f, Ask::Mul32(a, b)),
        Binary::Div => low(f, Ask::Div32(a, b)),
        Binary::Min => strict_min(f, a, b),
        Binary::Max => strict_max(f, a, b),
        Binary::Pow => low(f, Ask::Narrow(reply(f, Ask::Pow64(reply(f, Ask::Widen(a)), reply(f, Ask::Widen(b)))))),
        Binary::RoundTo(kind) => if holds(f, Ask::Equal32(b, 0)) {
            a
        } else {
            low(f, Ask::Mul32(rounded(f, low(f, Ask::Div32(a, b)), kind), b))
        },
    }
}

pub fn binary<F: Fn(Ask) -> u64>(f: &F, op: Binary, a: u32, b: u32) -> (r: u32)
    requires
        answers(*f),
    ensures
        r == two(*f, op, a, b),
{
    match op {
        Binary::Add => f(Ask::Add32(a, b)) as u32,
        Binary::Sub => f(Ask::Sub32(a, b)) as u32,
        Binary::Mul => f(Ask::Mul32(a, b)) as u32,
        Binary::Div => f(Ask::Div32(a, b)) as u32,
        Binary::Min => java_min(f, a, b),
        Binary::Max => java_max(f, a, b),
        Binary::Pow => {
            let x: u64 = f(Ask::Widen(a));
            let y: u64 = f(Ask::Widen(b));
            let p: u64 = f(Ask::Pow64(x, y));
            f(Ask::Narrow(p)) as u32
        },
        Binary::RoundTo(kind) => {
            if f(Ask::Equal32(b, 0)) != 0 {
                a
            } else {
                let q: u32 = f(Ask::Div32(a, b)) as u32;
                let r: u32 = round_to_integer(f, q, kind);
                f(Ask::Mul32(r, b)) as u32
            }
        },
    }
}

/// A product or quotient whose first part is zero is zero along the point
/// path, whatever the second.
pub open spec fn cut_short<F: Fn(Ask) -> u64>(f: F, op: Binary, mode: Mode, a: u32) -> bool {
    mode is Point && (op is Mul || op is Div) && holds(f, Ask::Equal32(a, 0))
}

/// Division rounded down, and what it leaves, whatever the divisor's sign.
pub open spec fn down_div(a: int, m: int) -> int {
    if m > 0 { a / m } else { (-a) / (-m) }
}

pub open spec fn down_mod(a: int, m: int) -> int {
    a - down_div(a, m) * m
}

/// Division rounded down, and what it leaves.
pub fn floor_parts(a: i64, m: i64) -> (r: (i64, i64))
    requires
        m != 0,
        -0x1_0000_0000_0000 <= a <= 0x1_0000_0000_0000,
        -0x1_0000_0000_0000 <= m <= 0x1_0000_0000_0000,
    ensures
        r.0 == down_div(a as int, m as int),
        r.1 == down_mod(a as int, m as int),
        m > 0 ==> 0 <= r.1 < m,
        m < 0 ==> m < r.1 <= 0,
        -0x1_0000_0000_0000 <= r.0 <= 0x1_0000_0000_0000,
{
    let (n, d): (i64, i64) = if m > 0 { (a, m) } else { (-a, -m) };
    let q: i64 = if n >= 0 { n / d } else { -((-n + d - 1) / d) };
    proof {
        vstd::arithmetic::div_mod::lemma_fundamental_div_mod(n as int, d as int);
        let e = n as int / d as int;
        if n >= 0 {
            assert(0 <= e <= n) by (nonlinear_arith)
                requires
                    0 <= n,
                    d > 0,
                    e == n as int / d as int,
            ;
        } else {
            let k = (-n + d - 1) as int;
            vstd::arithmetic::div_mod::lemma_fundamental_div_mod(k, d as int);
            let h = k / (d as int);
            assert(h == -e) by (nonlinear_arith)
                requires
                    k == -n + d - 1,
                    k == d * h + k % (d as int),
                    0 <= k % (d as int) < d,
                    n == d * e + n as int % (d as int),
                    0 <= n as int % (d as int) < d,
                    d > 0,
            ;
            assert(0 <= h <= -n) by (nonlinear_arith)
                requires
                    k == -n + d - 1,
                    k == d * h + k % (d as int),
                    0 <= k % (d as int) < d,
                    n < 0,
                    d > 0,
            ;
        }
        assert(q == e);
        assert(e * (-d) == -(e * d)) by (nonlinear_arith);
        assert(n - d * e == n as int % (d as int));
        assert(d * e == e * d) by (nonlinear_arith);
        assert(-0x2_0000_0000_0000 <= q * d <= 0x2_0000_0000_0000);
        assert(q * m == q * d || q * m == -(q * d)) by {
            if m > 0 {
            } else {
                assert(q * m == -(q * d)) by (nonlinear_arith)
                    requires
                        m == -d,
                ;
            }
        }
    }
    (q, a - q * m)
}

/// A block coordinate, wrapped to 32 bits.
pub open spec fn wrapped(v: int) -> i32 {
    ((v + 0x8000_0000) % 0x1_0000_0000 - 0x8000_0000) as i32
}

/// A block coordinate, wrapped to 32 bits.
pub fn wrap(v: i128) -> (r: i32)
    requires
        -0x1_0000_0000_0000_0000_0000_0000 <= v <= 0x1_0000_0000_0000_0000_0000_0000,
    ensures
        r == wrapped(v as int),
{
    if -0x8000_0000 <= v && v <= 0x7fff_ffff {
        return v as i32;
    }
    let up: u128 = (v + 0x1_0000_0000_0000_0000_0000_0000 + 0x8000_0000) as u128;
    let m: u128 = up % 0x1_0000_0000;
    (m as i64 - 0x8000_0000) as i32
}

/// A lattice of blocks: counts, first blocks and steps along each axis.
pub ghost struct Lattice {
    pub sx: int,
    pub sy: int,
    pub sz: int,
    pub x: int,
    pub y: int,
    pub z: int,
    pub tx: int,
    pub ty: int,
    pub tz: int,
}

impl Lattice {
    pub open spec fn count(self) -> int {
        self.sx * self.sy * self.sz
    }

    /// The place of an element in a buffer: z slowest, then x, then y.
    pub open spec fn place(self, x: int, y: int, z: int) -> int {
        y + (x + z * self.sx) * self.sy
    }

    /// The element at a place of the buffer, along each axis.
    pub open spec fn ix(self, i: int) -> int {
        (i / self.sy) % self.sx
    }

    pub open spec fn iy(self, i: int) -> int {
        i % self.sy
    }

    pub open spec fn iz(self, i: int) -> int {
        (i / self.sy) / self.sx
    }

    /// The block of an element along each axis.
    pub open spec fn at_x(self, i: int) -> i32 {
        wrapped(self.x + self.ix(i) * self.tx)
    }

    pub open spec fn at_y(self, i: int) -> i32 {
        wrapped(self.y + self.iy(i) * self.ty)
    }

    pub open spec fn at_z(self, i: int) -> i32 {
        wrapped(self.z + self.iz(i) * self.tz)
    }

    /// Same columns, and the other's rows are among this one's.
    pub open spec fn covers(self, o: Lattice) -> bool {
        &&& (self.tx, self.ty, self.tz) == (o.tx, o.ty, o.tz)
        &&& self.x == o.x
        &&& self.z == o.z
        &&& self.sx == o.sx
        &&& self.sz == o.sz
        &&& o.y >= self.y
        &&& (o.y - self.y) % self.ty == 0
        &&& o.y + o.sy * o.ty <= self.y + self.sy * self.ty
    }
}

/// The lattice of a volume.
pub open spec fn lattice(v: Volume) -> Lattice {
    Lattice {
        sx: v.size@[0] as int,
        sy: v.size@[1] as int,
        sz: v.size@[2] as int,
        x: v.min@[0] as int,
        y: v.min@[1] as int,
        z: v.min@[2] as int,
        tx: v.step@[0] as int,
        ty: v.step@[1] as int,
        tz: v.step@[2] as int,
    }
}

/// The values of a cached input over a volume.
pub ghost struct Slab {
    pub id: usize,
    pub vol: Lattice,
    pub buf: Seq<u32>,
}

/// What point evaluation remembers: the last value of each cached input,
/// and volumes it may be answered from.
pub ghost struct Points {
    pub enabled: bool,
    pub entries: Map<usize, ((i32, i32, i32), u32)>,
    pub slabs: Seq<Slab>,
}

/// Nothing is remembered.
pub open spec fn forgetful() -> Points {
    Points { enabled: false, entries: Map::empty(), slabs: Seq::empty() }
}

/// The first slab of a cached input, from `k` on.
pub open spec fn slab_of(slabs: Seq<Slab>, id: usize, k: int) -> Option<int>
    decreases slabs.len() - k,
{
    if k >= slabs.len() {
        None
    } else if slabs[k].id == id {
        Some(k)
    } else {
        slab_of(slabs, id, k + 1)
    }
}

/// A coordinate stands on an axis of a lattice.
pub open spec fn on_axis(min: int, step: int, size: int, v: int) -> bool {
    v >= min && (v - min) % step == 0 && (v - min) / step < size
}

/// The value that the first slab of a cached input holds for a block.
pub open spec fn slab_value(slabs: Seq<Slab>, id: usize, x: int, y: int, z: int) -> Option<u32> {
    match slab_of(slabs, id, 0) {
        Some(k) => {
            let v = slabs[k].vol;
            if on_axis(v.x, v.tx, v.sx, x) && on_axis(v.y, v.ty, v.sy, y) && on_axis(v.z, v.tz, v.sz, z) {
                Some(slabs[k].buf[v.place((x - v.x) / v.tx, (y - v.y) / v.ty, (z - v.z) / v.tz)])
            } else {
                None
            }
        },
        None => None,
    }
}

/// A noise at a point that is scaled from a block.
pub open spec fn noise_at<F: Fn(Ask) -> u64>(f: F, stack: usize, xz: u64, ys: u64, x: i32, y: i32, z: i32) -> u32 {
    low(
        f,
        Ask::Stack {
            stack,
            x: reply(f, Ask::Mul64(reply(f, Ask::FromInt64(x)), xz)),
            y: reply(f, Ask::Mul64(reply(f, Ask::FromInt64(y)), ys)),
            z: reply(f, Ask::Mul64(reply(f, Ask::FromInt64(z)), xz)),
        },
    )
}

/// A scaled coordinate with a shift.
pub open spec fn shifted<F: Fn(Ask) -> u64>(f: F, c: i32, scale: u64, shift: u32) -> u64 {
    reply(f, Ask::Add64(reply(f, Ask::Mul64(reply(f, Ask::FromInt64(c)), scale)), reply(f, Ask::Widen(shift))))
}

pub(crate) fn shift_coordinate<F: Fn(Ask) -> u64>(f: &F, c: i32, scale: u64, shift: u32) -> (r: u64)
    requires
        answers(*f),
    ensures
        r == shifted(*f, c, scale, shift),
{
    let v: u64 = f(Ask::FromInt64(c));
    let v: u64 = f(Ask::Mul64(v, scale));
    let s: u64 = f(Ask::Widen(shift));
    f(Ask::Add64(v, s))
}

pub(crate) fn noise_point<F: Fn(Ask) -> u64>(f: &F, stack: usize, xz: u64, ys: u64, x: i32, y: i32, z: i32) -> (r: u32)
    requires
        answers(*f),
    ensures
        r == noise_at(*f, stack, xz, ys, x, y, z),
{
    let a: u64 = f(Ask::FromInt64(x));
    let a: u64 = f(Ask::Mul64(a, xz));
    let b: u64 = f(Ask::FromInt64(y));
    let b: u64 = f(Ask::Mul64(b, ys));
    let c: u64 = f(Ask::FromInt64(z));
    let c: u64 = f(Ask::Mul64(c, xz));
    f(Ask::Stack { stack, x: a, y: b, z: c }) as u32
}

/// A noise as an element of a volume.
pub open spec fn noise_in<F: Fn(Ask) -> u64>(f: F, stack: usize, xz: u64, ys: u64, amplitude: u32, x: i32, y: i32, z: i32) -> u32 {
    low(f, Ask::StackBlock { stack, bx: x, by: y, bz: z, xz_scale: xz, y_scale: ys, amplitude })
}

/// The permuted noise at a block, along each path.
pub open spec fn shift_b<F: Fn(Ask) -> u64>(f: F, stack: usize, mode: Mode, x: i32, z: i32) -> u32 {
    if mode is Volume {
        noise_in(f, stack, QUARTER, QUARTER, FOUR_32, z, x, 0)
    } else {
        let v = low(
            f,
            Ask::Stack {
                stack,
                x: reply(f, Ask::Mul64(reply(f, Ask::FromInt64(z)), QUARTER)),
                y: reply(f, Ask::Mul64(reply(f, Ask::FromInt64(x)), QUARTER)),
                z: 0,
            },
        );
        low(f, Ask::Mul32(v, FOUR_32))
    }
}

pub(crate) fn shift_b_value<F: Fn(Ask) -> u64>(f: &F, stack: usize, mode: Mode, x: i32, z: i32) -> (r: u32)
    requires
        answers(*f),
    ensures
        r == shift_b(*f, stack, mode, x, z),
{
    match mode {
        Mode::Volume => f(
            Ask::StackBlock { stack, bx: z, by: x, bz: 0, xz_scale: QUARTER, y_scale: QUARTER, amplitude: FOUR_32 },
        ) as u32,
        Mode::Point => {
            let a: u64 = f(Ask::FromInt64(z));
            let a: u64 = f(Ask::Mul64(a, QUARTER));
            let b: u64 = f(Ask::FromInt64(x));
            let b: u64 = f(Ask::Mul64(b, QUARTER));
            let v: u32 = f(Ask::Stack { stack, x: a, y: b, z: 0 }) as u32;
            f(Ask::Mul32(v, FOUR_32)) as u32
        },
    }
}

/// The coordinate along an axis.
pub open spec fn chosen(axis: Axis, x: i32, y: i32, z: i32) -> i32 {
    match axis {
        Axis::X => x,
        Axis::Y => y,
        Axis::Z => z,
    }
}

pub(crate) fn choose_axis(axis: Axis, x: i32, y: i32, z: i32) -> (r: i32)
    ensures
        r == chosen(axis, x, y, z),
{
    match axis {
        Axis::X => x,
        Axis::Y => y,
        Axis::Z => z,
    }
}

/// How far into a gradient a coordinate lies: held at the ends, repeated,
/// or mirrored at them.
pub open spec fn gradient_step(tiling: Tiling, from: int, to: int, c: int) -> int {
    let range = to - from;
    match tiling {
        Tiling::ClampToEdge => {
            let (lo, hi) = if from < to { (from, to) } else { (to, from) };
            (if c < lo { lo } else if c > hi { hi } else { c }) - from
        },
        Tiling::Repeat => down_mod(c - from, range),
        Tiling::MirroredRepeat => if down_div(c - from, range) % 2 == 0 {
            down_mod(c - from, range)
        } else {
            range - down_mod(c - from, range)
        },
    }
}

/// A gradient's value at a coordinate.
pub open spec fn gradient_at<F: Fn(Ask) -> u64>(
    f: F, tiling: Tiling, from: i32, to: i32, from_value: u32, factor: u32, c: i32,
) -> u32 {
    let rel = wrapped(gradient_step(tiling, from as int, to as int, c as int));
    low(f, Ask::Add32(from_value, low(f, Ask::Mul32(low(f, Ask::FromInt32(rel)), factor))))
}

pub(crate) fn gradient<F: Fn(Ask) -> u64>(f: &F, tiling: Tiling, from: i32, to: i32, from_value: u32, factor: u32, c: i32) -> (r: u32)
    requires
        answers(*f),
        from != to,
    ensures
        r == gradient_at(*f, tiling, from, to, from_value, factor, c),
{
    let range: i64 = to as i64 - from as i64;
    let rel: i64 = match tiling {
        Tiling::ClampToEdge => {
            let (lo, hi): (i32, i32) = if from < to { (from, to) } else { (to, from) };
            let held: i32 = if c < lo { lo } else if c > hi { hi } else { c };
            held as i64 - from as i64
        },
        Tiling::Repeat => floor_parts(c as i64 - from as i64, range).1,
        Tiling::MirroredRepeat => {
            let (tile, local) = floor_parts(c as i64 - from as i64, range);
            let even: bool = if tile >= 0 { tile % 2 == 0 } else { (-tile) % 2 == 0 };
            if even { local } else { range - local }
        },
    };
    let k: u32 = f(Ask::FromInt32(wrap(rel as i128))) as u32;
    let m: u32 = f(Ask::Mul32(k, factor)) as u32;
    f(Ask::Add32(from_value, m)) as u32
}

/// The distance of a block from a point.
pub open spec fn distance_at<F: Fn(Ask) -> u64>(f: F, metric: Metric, px: i32, py: i32, pz: i32, x: i32, y: i32, z: i32) -> u32 {
    let dx = low(f, Ask::FromInt32(wrapped(px - x)));
    let dy = low(f, Ask::FromInt32(wrapped(py - y)));
    let dz = low(f, Ask::FromInt32(wrapped(pz - z)));
    let squares = low(
        f,
        Ask::Add32(low(f, Ask::Add32(low(f, Ask::Mul32(dx, dx)), low(f, Ask::Mul32(dy, dy)))), low(f, Ask::Mul32(dz, dz))),
    );
    let (ax, ay, az) = (low(f, Ask::Abs32(dx)), low(f, Ask::Abs32(dy)), low(f, Ask::Abs32(dz)));
    match metric {
        Metric::Euclidean => low(f, Ask::Narrow(reply(f, Ask::Sqrt64(reply(f, Ask::Widen(squares)))))),
        Metric::EuclideanSquared => squares,
        Metric::Manhattan => low(f, Ask::Add32(low(f, Ask::Add32(ax, ay)), az)),
        Metric::Chebyshev => strict_max(f, strict_max(f, ax, ay), az),
    }
}

pub(crate) fn distance_to<F: Fn(Ask) -> u64>(f: &F, metric: Metric, px: i32, py: i32, pz: i32, x: i32, y: i32, z: i32) -> (r: u32)
    requires
        answers(*f),
    ensures
        r == distance_at(*f, metric, px, py, pz, x, y, z),
{
    let dx: u32 = f(Ask::FromInt32(wrap(px as i128 - x as i128))) as u32;
    let dy: u32 = f(Ask::FromInt32(wrap(py as i128 - y as i128))) as u32;
    let dz: u32 = f(Ask::FromInt32(wrap(pz as i128 - z as i128))) as u32;
    match metric {
        Metric::Manhattan => {
            let a: u32 = f(Ask::Abs32(dx)) as u32;
            let b: u32 = f(Ask::Abs32(dy)) as u32;
            let c: u32 = f(Ask::Abs32(dz)) as u32;
            let s: u32 = f(Ask::Add32(a, b)) as u32;
            f(Ask::Add32(s, c)) as u32
        },
        Metric::Chebyshev => {
            let a: u32 = f(Ask::Abs32(dx)) as u32;
            let b: u32 = f(Ask::Abs32(dy)) as u32;
            let c: u32 = f(Ask::Abs32(dz)) as u32;
            let m: u32 = java_max(f, a, b);
            java_max(f, m, c)
        },
        _ => {
            let a: u32 = f(Ask::Mul32(dx, dx)) as u32;
            let b: u32 = f(Ask::Mul32(dy, dy)) as u32;
            let c: u32 = f(Ask::Mul32(dz, dz)) as u32;
            let s: u32 = f(Ask::Add32(a, b)) as u32;
            let s: u32 = f(Ask::Add32(s, c)) as u32;
            if let Metric::EuclideanSquared = metric {
                s
            } else {
                let w: u64 = f(Ask::Widen(s));
                let r: u64 = f(Ask::Sqrt64(w));
                f(Ask::Narrow(r)) as u32
            }
        },
    }
}

/// Which function an interval selection takes, from threshold `i` on: the
/// first whose threshold the value lies below, else the last.
pub open spec fn selected<F: Fn(Ask) -> u64>(f: F, thresholds: Seq<u32>, v: u32, i: int) -> int
    decreases thresholds.len() - i,
{
    if i < 0 || i >= thresholds.len() {
        thresholds.len() as int
    } else if holds(f, Ask::Less32(v, thresholds[i])) {
        i
    } else {
        selected(f, thresholds, v, i + 1)
    }
}

pub(crate) fn select<F: Fn(Ask) -> u64>(f: &F, thresholds: &Vec<u32>, v: u32) -> (r: usize)
    requires
        answers(*f),
    ensures
        r == selected(*f, thresholds@, v, 0),
        r <= thresholds@.len(),
{
    let mut i: usize = 0;
    while i < thresholds.len()
        invariant
            answers(*f),
            i <= thresholds@.len(),
            selected(*f, thresholds@, v, 0) == selected(*f, thresholds@, v, i as int),
        decreases thresholds.len() - i,
    {
        if f(Ask::Less32(v, thresholds[i])) != 0 {
            return i;
        }
        i += 1;
    }
    i
}

/// A value lies in a half-open range.
pub open spec fn within<F: Fn(Ask) -> u64>(f: F, v: u32, min: u32, max: u32) -> bool {
    holds(f, Ask::LessEq32(min, v)) && holds(f, Ask::Less32(v, max))
}

pub(crate) fn in_range<F: Fn(Ask) -> u64>(f: &F, v: u32, min: u32, max: u32) -> (r: bool)
    requires
        answers(*f),
    ensures
        r == within(*f, v, min, max),
{
    f(Ask::LessEq32(min, v)) != 0 && f(Ask::Less32(v, max)) != 0
}

/// Interpolation between eight corners, x first, then y, then z.
pub open spec fn lerped3<F: Fn(Ask) -> u64>(f: F, ax: u32, ay: u32, az: u32, c: Seq<u32>) -> u32 {
    let near = lerped32(f, ay, lerped32(f, ax, c[0], c[1]), lerped32(f, ax, c[2], c[3]));
    let away = lerped32(f, ay, lerped32(f, ax, c[4], c[5]), lerped32(f, ax, c[6], c[7]));
    lerped32(f, az, near, away)
}

/// The corner lattice of the cell that holds a block.
pub open spec fn cell_around(x: i32, y: i32, z: i32, cell_xz: i32, cell_y: i32) -> Lattice {
    Lattice {
        sx: 2,
        sy: 2,
        sz: 2,
        x: wrapped(x - x as int % (cell_xz as int)) as int,
        y: wrapped(y - y as int % (cell_y as int)) as int,
        z: wrapped(z - z as int % (cell_xz as int)) as int,
        tx: cell_xz as int,
        ty: cell_y as int,
        tz: cell_xz as int,
    }
}

/// A value inside a cell, from its corner buffer (y fastest, then x).
pub open spec fn inside_cell<F: Fn(Ask) -> u64>(
    f: F, b: Seq<u32>, x: i32, y: i32, z: i32, cell_xz: i32, cell_y: i32,
) -> u32 {
    let part = |v: i32, cell: i32|
        low(f, Ask::Div32(low(f, Ask::FromInt32((v as int % (cell as int)) as i32)), low(f, Ask::FromInt32(cell))));
    lerped3(
        f,
        part(x, cell_xz),
        part(y, cell_y),
        part(z, cell_xz),
        seq![b[0], b[2], b[1], b[3], b[4], b[6], b[5], b[7]],
    )
}

/// Where a search for a surface starts: the bound, down to a whole cell.
pub open spec fn search_top<F: Fn(Ask) -> u64>(f: F, upper: u32, cell_height: i32) -> i32 {
    let q = low(f, Ask::Div32(upper, low(f, Ask::FromInt32(cell_height))));
    let cells = reply(f, Ask::ToInt64(reply(f, Ask::Floor64(reply(f, Ask::Widen(q)))))) as i32;
    wrapped(cells * cell_height)
}

/// What evaluation at a block gives, and what it remembers afterwards.
pub open spec fn evaluated<F: Fn(Ask) -> u64>(f: F, n: Node, x: i32, y: i32, z: i32, mode: Mode, p: Points) -> (u32, Points)
    decreases n, 0nat, 0nat,
{
    match n {
        Node::Constant(c) => (c, p),
        Node::Unary { op, input } => {
            let (v, q) = evaluated(f, *input, x, y, z, mode, p);
            (one(f, op, v), q)
        },
        Node::Binary { combine, left, right } => {
            let (a, q) = evaluated(f, *left, x, y, z, mode, p);
            if cut_short(f, combine, mode, a) {
                (0, q)
            } else {
                let (b, r) = evaluated(f, *right, x, y, z, mode, q);
                (two(f, combine, a, b), r)
            }
        },
        Node::Noise { stack, xz_scale, y_scale, shift_x, shift_y, shift_z } => if shift_x is None && shift_y is None
            && shift_z is None {
            if mode is Volume {
                (noise_in(f, stack, xz_scale, y_scale, ONE_32, x, y, z), p)
            } else {
                (noise_at(f, stack, xz_scale, y_scale, x, y, z), p)
            }
        } else {
            let (sx, q) = match shift_x {
                Some(s) => evaluated(f, *s, x, y, z, mode, p),
                None => (0, p),
            };
            let (sz, r) = match shift_z {
                Some(s) => evaluated(f, *s, x, y, z, mode, q),
                None => (0, q),
            };
            let (ny, t) = match shift_y {
                Some(s) => {
                    let (v, t) = evaluated(f, *s, x, y, z, mode, r);
                    (shifted(f, y, y_scale, v), t)
                },
                None => (reply(f, Ask::Mul64(reply(f, Ask::FromInt64(y)), y_scale)), r),
            };
            (
                low(f, Ask::Stack { stack, x: shifted(f, x, xz_scale, sx), y: ny, z: shifted(f, z, xz_scale, sz) }),
                t,
            )
        },
        Node::ShiftB(stack) => (shift_b(f, stack, mode, x, z), p),
        Node::Gradient { axis, tiling, from_coordinate, to_coordinate, from_value, factor } => (
            gradient_at(f, tiling, from_coordinate, to_coordinate, from_value, factor, chosen(axis, x, y, z)),
            p,
        ),
        Node::Lerp { alpha, first, second } => {
            let (a, q) = evaluated(f, *alpha, x, y, z, mode, p);
            if holds(f, Ask::Equal32(a, 0)) {
                evaluated(f, *first, x, y, z, mode, q)
            } else if holds(f, Ask::Equal32(a, ONE_32)) {
                evaluated(f, *second, x, y, z, mode, q)
            } else {
                let (u, r) = evaluated(f, *first, x, y, z, mode, q);
                let (v, t) = evaluated(f, *second, x, y, z, mode, r);
                (lerped32(f, a, u, v), t)
            }
        },
        Node::RangeChoice { choice, min_inclusive, max_exclusive, when_in_range, when_out_of_range } => {
            let (v, q) = evaluated(f, *choice, x, y, z, mode, p);
            if within(f, v, min_inclusive, max_exclusive) {
                evaluated(f, *when_in_range, x, y, z, mode, q)
            } else {
                evaluated(f, *when_out_of_range, x, y, z, mode, q)
            }
        },
        Node::IntervalSelect { selector, thresholds, functions } => {
            let (v, q) = evaluated(f, *selector, x, y, z, mode, p);
            let i = selected(f, thresholds@, v, 0);
            if 0 <= i < functions@.len() {
                evaluated(f, *functions@[i], x, y, z, mode, q)
            } else {
                (0, q)
            }
        },
        Node::Cache { id, cached } => if !p.enabled {
            evaluated(f, *cached, x, y, z, mode, p)
        } else if p.entries.contains_key(id) && p.entries[id].0 == (x, y, z) && !holds(f, Ask::Nan32(p.entries[id].1)) {
            (p.entries[id].1, p)
        } else {
            match slab_value(p.slabs, id, x as int, y as int, z as int) {
                Some(v) => (v, p),
                None => {
                    let (v, q) = evaluated(f, *cached, x, y, z, mode, p);
                    (v, Points { entries: q.entries.insert(id, ((x, y, z), v)), ..q })
                },
            }
        },
        Node::BlendDensity(i) => evaluated(f, *i, x, y, z, mode, p),
        Node::BlendAlpha => (ONE_32, p),
        Node::BlendOffset => (0, p),
        Node::Beardifier => (0, p),
        Node::Interpolated { cell_size_xz, cell_size_y, corners } => if x as int % (cell_size_xz as int) == 0 && y as int % (
        cell_size_y as int) == 0 && z as int % (cell_size_xz as int) == 0 {
            evaluated(f, *corners, x, y, z, Mode::Point, p)
        } else {
            let b = sampled(f, *corners, cell_around(x, y, z, cell_size_xz, cell_size_y), Seq::empty()).0;
            (inside_cell(f, b, x, y, z, cell_size_xz, cell_size_y), p)
        },
        Node::Slice { along, coordinate, whole } => match along {
            Axis::X => evaluated(f, *whole, coordinate, y, z, mode, p),
            Axis::Y => evaluated(f, *whole, x, coordinate, z, mode, p),
            Axis::Z => evaluated(f, *whole, x, y, coordinate, mode, p),
        },
        Node::FindTopSurface { density, upper_bound, lower_bound, cell_height } => {
            let (upper, q) = evaluated(f, *upper_bound, x, 0, z, mode, p);
            surface_at(f, *density, x, z, upper, lower_bound, cell_height, q)
        },
        Node::DistanceToPoint { metric, x: px, y: py, z: pz } => (distance_at(f, metric, px, py, pz, x, y, z), p),
        Node::Spline(sp) => spline_evaluated(f, sp, x, y, z, mode, p),
    }
}

/// The surface below a bound: the first whole cell, downwards, at which the
/// density is positive; the lower bound without one.
pub open spec fn surface_at<F: Fn(Ask) -> u64>(
    f: F, density: Node, x: i32, z: i32, upper: u32, lower_bound: i32, cell_height: i32, p: Points,
) -> (u32, Points)
    decreases density, 2nat, 0nat,
{
    let top = search_top(f, upper, cell_height);
    if top <= lower_bound {
        (low(f, Ask::FromInt32(lower_bound)), p)
    } else {
        probed(f, density, x, z, top as int, lower_bound, cell_height, p)
    }
}

/// The probes from `probe` down.
pub open spec fn probed<F: Fn(Ask) -> u64>(
    f: F, density: Node, x: i32, z: i32, probe: int, lower_bound: i32, cell_height: i32, p: Points,
) -> (u32, Points)
    decreases density, 1nat, if probe < lower_bound { 0int } else { probe - lower_bound + 1 },
{
    if probe < lower_bound || cell_height <= 0 {
        (low(f, Ask::FromInt32(lower_bound)), p)
    } else {
        let (v, q) = evaluated(f, density, x, probe as i32, z, Mode::Point, p);
        if holds(f, Ask::Less32(0, v)) {
            (low(f, Ask::FromInt32(probe as i32)), q)
        } else {
            probed(f, density, x, z, probe - cell_height, lower_bound, cell_height, q)
        }
    }
}

/// What a spline gives at a block.
pub open spec fn spline_evaluated<F: Fn(Ask) -> u64>(
    f: F, sp: Spline, x: i32, y: i32, z: i32, mode: Mode, p: Points,
) -> (u32, Points)
    decreases sp, 0nat, 0nat,
{
    match sp {
        Spline::Constant(c) => (c, p),
        Spline::Multipoint { coordinate, locations, values, derivatives, .. } => {
            let (input, q) = evaluated(f, *coordinate, x, y, z, mode, p);
            let k = bisect(f, locations@, input, 0, locations@.len() as int);
            let last = locations@.len() - 1;
            if k <= 0 && values@.len() > 0 {
                let (v, r) = spline_evaluated(f, values@[0], x, y, z, mode, q);
                (extended(f, input, locations@[0], v, derivatives@[0]), r)
            } else if k > last && 0 <= last < values@.len() {
                let (v, r) = spline_evaluated(f, values@[last], x, y, z, mode, q);
                (extended(f, input, locations@[last], v, derivatives@[last]), r)
            } else if 0 < k < values@.len() {
                let (a, r) = spline_evaluated(f, values@[k - 1], x, y, z, mode, q);
                let (b, t) = spline_evaluated(f, values@[k], x, y, z, mode, r);
                (
                    hermite_at(f, input, locations@[k - 1], locations@[k], a, b, derivatives@[k - 1], derivatives@[k]),
                    t,
                )
            } else {
                (0, q)
            }
        },
    }
}

/// The volume path of a node: the values over a lattice, and the slabs kept
/// afterwards.
pub open spec fn sampled<F: Fn(Ask) -> u64>(f: F, n: Node, v: Lattice, c: Seq<Slab>) -> (Seq<u32>, Seq<Slab>)
    decreases n, 0nat, 0nat,
{
    let count = v.count() as nat;
    match n {
        Node::Constant(k) => (Seq::new(count, |i: int| k), c),
        Node::Unary { op, input } => {
            let (a, d) = sampled(f, *input, v, c);
            (Seq::new(count, |i: int| one(f, op, a[i])), d)
        },
        Node::Binary { combine, left, right } => {
            let (a, d) = sampled(f, *left, v, c);
            let (b, e) = sampled(f, *right, v, d);
            (Seq::new(count, |i: int| two(f, combine, a[i], b[i])), e)
        },
        Node::Noise { stack, xz_scale, y_scale, shift_x, shift_y, shift_z } => if shift_x is None && shift_y is None
            && shift_z is None {
            (Seq::new(count, |i: int| noise_in(f, stack, xz_scale, y_scale, ONE_32, v.at_x(i), v.at_y(i), v.at_z(i))), c)
        } else {
            let (sx, d) = match shift_x {
                Some(s) => sampled(f, *s, v, c),
                None => (Seq::new(count, |i: int| 0u32), c),
            };
            let (sy, e) = match shift_y {
                Some(s) => sampled(f, *s, v, d),
                None => (Seq::new(count, |i: int| 0u32), d),
            };
            let (sz, g) = match shift_z {
                Some(s) => sampled(f, *s, v, e),
                None => (Seq::new(count, |i: int| 0u32), e),
            };
            (Seq::new(count, |i: int| shifted_noise(f, stack, xz_scale, y_scale, v, sx, sy, sz, i)), g)
        },
        Node::ShiftB(stack) => (Seq::new(count, |i: int| shift_b(f, stack, Mode::Volume, v.at_x(i), v.at_z(i))), c),
        Node::Gradient { axis, tiling, from_coordinate, to_coordinate, from_value, factor } => (
            Seq::new(
                count,
                |i: int|
                    gradient_at(
                        f, tiling, from_coordinate, to_coordinate, from_value, factor, chosen(axis, v.at_x(i), v.at_y(i), v.at_z(i))),
            ),
            c,
        ),
        Node::Lerp { alpha, first, second } => {
            let (a, d) = sampled(f, *alpha, v, c);
            let (u, e) = sampled_where(f, *first, v, d, a, ONE_32);
            let (w, g) = sampled_where(f, *second, v, e, a, 0);
            (Seq::new(count, |i: int| mixed(f, a[i], u[i], w[i])), g)
        },
        Node::RangeChoice { choice, min_inclusive, max_exclusive, when_in_range, when_out_of_range } => {
            let (m, d) = marked_range(f, *choice, v, c, min_inclusive, max_exclusive);
            let need_in = rows_with(m, v, true);
            let need_out = rows_with(m, v, false);
            if !need_in.contains(true) {
                sampled(f, *when_out_of_range, v, d)
            } else if !need_out.contains(true) {
                sampled(f, *when_in_range, v, d)
            } else {
                let by_rows = v.sy >= 16 && v.ty == 1;
                let (a, e) = sampled_rows(f, *when_in_range, need_in, by_rows, v, d);
                let (o, g) = sampled_rows(f, *when_out_of_range, need_out, by_rows, v, e);
                (Seq::new(count, |i: int| if m[i] { a[i] } else { o[i] }), g)
            }
        },
        Node::IntervalSelect { selector, thresholds, functions } => {
            let (b, d) = sampled(f, *selector, v, c);
            let (all, e) = sampled_all(f, functions@, functions@.len(), v, d);
            (Seq::new(count, |i: int| all[selected(f, thresholds@, b[i], 0)][i]), e)
        },
        Node::Cache { id, cached } => match same_slab(c, id, v, 0) {
            Some(k) => (c[k].buf, c),
            None => match covering_slab(c, id, v, 0) {
                Some(k) => (rows_of(c[k], v), c),
                None => {
                    let (b, d) = sampled(f, *cached, v, c);
                    (b, d.push(Slab { id, vol: v, buf: b }))
                },
            },
        },
        Node::BlendDensity(i) => sampled(f, *i, v, c),
        Node::BlendAlpha => (Seq::new(count, |i: int| ONE_32), c),
        Node::BlendOffset => (Seq::new(count, |i: int| 0u32), c),
        Node::Beardifier => (Seq::new(count, |i: int| 0u32), c),
        Node::Interpolated { cell_size_xz, cell_size_y, corners } => if on_cells(v, cell_size_xz as int, cell_size_y as int) {
            sampled(f, *corners, v, c)
        } else if v.tx == 1 && v.ty == 1 && v.tz == 1 {
            block_sampled(f, *corners, v, cell_size_xz, cell_size_y, c)
        } else {
            let w = every_block(v);
            let (b, d) = block_sampled(f, *corners, w, cell_size_xz, cell_size_y, c);
            (Seq::new(count, |i: int| b[w.place(v.ix(i) * v.tx, v.iy(i) * v.ty, v.iz(i) * v.tz)]), d)
        },
        Node::Slice { along, coordinate, whole } => {
            let w = thin(v, along, coordinate);
            let (b, d) = sampled(f, *whole, w, c);
            (Seq::new(count, |i: int| b[thin_place(v, along, i)]), d)
        },
        Node::FindTopSurface { density, upper_bound, lower_bound, cell_height } => {
            let (u, d) = sampled(f, *upper_bound, v, c);
            let p = Points { enabled: true, entries: Map::empty(), slabs: adopted(Seq::empty(), d, d.len()) };
            (surfaces(f, *density, v, u, lower_bound, cell_height, p, count).0, d)
        },
        Node::DistanceToPoint { metric, x, y, z } => (
            Seq::new(count, |i: int| distance_at(f, metric, x, y, z, v.at_x(i), v.at_y(i), v.at_z(i))),
            c,
        ),
        Node::Spline(sp) => {
            let (b, d, _) = spline_sampled(f, sp, v, c, Map::empty());
            (b, d)
        },
    }
}

/// Which elements a choice by range takes in. A gradient along y needs no
/// volume of its own.
pub open spec fn marked_range<F: Fn(Ask) -> u64>(
    f: F, n: Node, v: Lattice, c: Seq<Slab>, min: u32, max: u32,
) -> (Seq<bool>, Seq<Slab>)
    decreases n, 1nat, 0nat,
{
    let count = v.count() as nat;
    match n {
        Node::Gradient { axis: Axis::Y, tiling, from_coordinate, to_coordinate, from_value, factor } => (
            Seq::new(
                count,
                |i: int|
                    within(
                        f, gradient_at(f, tiling, from_coordinate, to_coordinate, from_value, factor, v.at_y(i)), min, max),
            ),
            c,
        ),
        _ => {
            let (b, d) = sampled(f, n, v, c);
            (Seq::new(count, |i: int| within(f, b[i], min, max)), d)
        },
    }
}

/// A noise with shifts at an element of a volume.
pub open spec fn shifted_noise<F: Fn(Ask) -> u64>(
    f: F, stack: usize, xz: u64, ys: u64, v: Lattice, sx: Seq<u32>, sy: Seq<u32>, sz: Seq<u32>, i: int,
) -> u32 {
    low(
        f,
        Ask::Stack {
            stack,
            x: shifted(f, v.at_x(i), xz, sx[i]),
            y: shifted(f, v.at_y(i), ys, sy[i]),
            z: shifted(f, v.at_z(i), xz, sz[i]),
        },
    )
}

/// A mix that takes one side alone at either end.
pub open spec fn mixed<F: Fn(Ask) -> u64>(f: F, a: u32, first: u32, second: u32) -> u32 {
    if holds(f, Ask::Equal32(a, 0)) {
        first
    } else if holds(f, Ask::Equal32(a, ONE_32)) {
        second
    } else {
        lerped32(f, a, first, second)
    }
}

/// How many of the first `n` mixing values are not `skip`.
pub open spec fn reads<F: Fn(Ask) -> u64>(f: F, alpha: Seq<u32>, skip: u32, n: nat) -> nat
    decreases n,
{
    if n == 0 {
        0
    } else {
        reads(f, alpha, skip, (n - 1) as nat) + if holds(f, Ask::Equal32(alpha[n - 1], skip)) { 0nat } else { 1nat }
    }
}

/// A node over the points whose mixing value is not `skip`; the rest is
/// never read. A side that nobody reads is not sampled; a plain noise that
/// fewer than a quarter of the points read takes the point path there.
pub open spec fn sampled_where<F: Fn(Ask) -> u64>(
    f: F, n: Node, v: Lattice, c: Seq<Slab>, alpha: Seq<u32>, skip: u32,
) -> (Seq<u32>, Seq<Slab>)
    decreases n, 1nat, 0nat,
{
    let count = v.count() as nat;
    let needed = reads(f, alpha, skip, count);
    if needed == 0 {
        (Seq::new(count, |i: int| 0u32), c)
    } else {
        match n {
            Node::Noise { stack, xz_scale, y_scale, shift_x: None, shift_y: None, shift_z: None } => if needed * 4 < count {
                (
                    Seq::new(
                        count,
                        |i: int|
                            if holds(f, Ask::Equal32(alpha[i], skip)) {
                                0u32
                            } else {
                                noise_at(f, stack, xz_scale, y_scale, v.at_x(i), v.at_y(i), v.at_z(i))
                            },
                    ),
                    c,
                )
            } else {
                sampled(f, n, v, c)
            },
            _ => sampled(f, n, v, c),
        }
    }
}

/// Which rows hold an element that is marked so.
pub open spec fn rows_with(m: Seq<bool>, v: Lattice, mark: bool) -> Seq<bool> {
    Seq::new(v.sy as nat, |y: int| exists|i: int| 0 <= i < v.count() && v.iy(i) == y && #[trigger] m[i] == mark)
}

/// Whether a row from `y` up to before `to` is needed.
pub open spec fn any_needed(need: Seq<bool>, y: int, to: int) -> bool {
    exists|k: int| y <= k < to && 0 <= k < need.len() && #[trigger] need[k]
}

/// The end of a run of rows: no row of the next sixteen is needed.
pub open spec fn run_of_rows(need: Seq<bool>, end: int) -> int
    decreases need.len() - end,
{
    if 0 <= end < need.len() && any_needed(need, end, end + 16) { run_of_rows(need, end + 1) } else { end }
}

/// The rows `y..end` of a volume, widened to whole cells of eight blocks:
/// the first row and the end.
pub open spec fn widened(v: Lattice, y: int, end: int) -> (int, int) {
    let lo = down_div(v.y + y, 8) * 8 - v.y;
    let hi = down_div(v.y + end - 1, 8) * 8 + 8 - v.y;
    (if lo < 0 { 0 } else { lo }, if hi < v.sy { hi } else { v.sy })
}

/// The rows `lo..hi` of a volume.
pub open spec fn row_part(v: Lattice, lo: int, hi: int) -> Lattice {
    Lattice { sy: hi - lo, y: wrapped(v.y + lo) as int, ..v }
}

/// A branch over the rows that read it.
pub open spec fn sampled_rows<F: Fn(Ask) -> u64>(
    f: F, n: Node, need: Seq<bool>, by_rows: bool, v: Lattice, c: Seq<Slab>,
) -> (Seq<u32>, Seq<Slab>)
    decreases n, 2nat, 0nat,
{
    let count = v.count() as nat;
    match n {
        Node::Constant(k) => (Seq::new(count, |i: int| k), c),
        _ => if by_rows {
            rows_from(f, n, need, 0, v, Seq::new(count, |i: int| 0u32), c)
        } else {
            sampled(f, n, v, c)
        },
    }
}

/// A branch over the needed rows from `y` on: each run is sampled by
/// itself, widened to whole cells.
pub open spec fn rows_from<F: Fn(Ask) -> u64>(
    f: F, n: Node, need: Seq<bool>, y: int, v: Lattice, out: Seq<u32>, c: Seq<Slab>,
) -> (Seq<u32>, Seq<Slab>)
    decreases n, 1nat, v.sy - y,
{
    if y < 0 || y >= v.sy {
        (out, c)
    } else if !need[y] {
        rows_from(f, n, need, y + 1, v, out, c)
    } else {
        let end = run_of_rows(need, y);
        if end <= y || end > v.sy {
            (out, c)
        } else {
            let (lo, hi) = widened(v, y, end);
            let w = row_part(v, lo, hi);
            let (b, d) = sampled(f, n, w, c);
            rows_from(f, n, need, end, v, with_rows(v, out, w, b, lo, y, end), d)
        }
    }
}

/// The buffer with the rows `y..end` taken from a part that starts at row
/// `lo`.
pub open spec fn with_rows(v: Lattice, out: Seq<u32>, w: Lattice, b: Seq<u32>, lo: int, y: int, end: int) -> Seq<u32> {
    Seq::new(
        v.count() as nat,
        |i: int| if y <= v.iy(i) < end { b[w.place(v.ix(i), v.iy(i) - lo, v.iz(i))] } else { out[i] },
    )
}

/// The first `n` functions over a volume, one after the other.
pub open spec fn sampled_all<F: Fn(Ask) -> u64>(
    f: F, functions: Seq<Arc<Node>>, n: nat, v: Lattice, c: Seq<Slab>,
) -> (Seq<Seq<u32>>, Seq<Slab>)
    decreases functions, 1nat, n,
{
    if n == 0 || n > functions.len() {
        (Seq::empty(), c)
    } else {
        let (all, d) = sampled_all(f, functions, (n - 1) as nat, v, c);
        let (b, e) = sampled(f, *functions[n - 1], v, d);
        (all.push(b), e)
    }
}

/// The first slab of a cached input over the same volume, from `k` on.
pub open spec fn same_slab(c: Seq<Slab>, id: usize, v: Lattice, k: int) -> Option<int>
    decreases c.len() - k,
{
    if k >= c.len() {
        None
    } else if c[k].id == id && c[k].vol == v {
        Some(k)
    } else {
        same_slab(c, id, v, k + 1)
    }
}

/// The first slab of a cached input that covers a volume, from `k` on.
pub open spec fn covering_slab(c: Seq<Slab>, id: usize, v: Lattice, k: int) -> Option<int>
    decreases c.len() - k,
{
    if k >= c.len() {
        None
    } else if c[k].id == id && c[k].vol.covers(v) {
        Some(k)
    } else {
        covering_slab(c, id, v, k + 1)
    }
}

/// A slab's rows for a volume that it covers.
pub open spec fn rows_of(s: Slab, v: Lattice) -> Seq<u32> {
    let off = (v.y - s.vol.y) / s.vol.ty;
    Seq::new(v.count() as nat, |i: int| s.buf[s.vol.place(v.ix(i), v.iy(i) + off, v.iz(i))])
}

/// A volume whose elements are cell corners.
pub open spec fn on_cells(v: Lattice, cell_xz: int, cell_y: int) -> bool {
    &&& (v.tx == cell_xz || v.sx == 1) && down_mod(v.x, cell_xz) == 0
    &&& (v.ty == cell_y || v.sy == 1) && down_mod(v.y, cell_y) == 0
    &&& (v.tz == cell_xz || v.sz == 1) && down_mod(v.z, cell_xz) == 0
}

/// Every block that a volume spans.
pub open spec fn every_block(v: Lattice) -> Lattice {
    Lattice { sx: v.sx * v.tx, sy: v.sy * v.ty, sz: v.sz * v.tz, tx: 1, ty: 1, tz: 1, ..v }
}

/// How many cells a run of blocks touches.
pub open spec fn cells_in(min: int, size: int, cell: int) -> int {
    down_div(min + size - 1, cell) - down_div(min, cell) + 1
}

/// How many corners those cells need.
pub open spec fn corners_in(min: int, size: int, cell: int) -> int {
    if down_mod(min + size - 1, cell) == 0 { cells_in(min, size, cell) } else { cells_in(min, size, cell) + 1 }
}

/// The corner lattice of the cells that a volume of blocks touches.
pub open spec fn corner_lattice(v: Lattice, cell_xz: int, cell_y: int) -> Lattice {
    Lattice {
        sx: corners_in(v.x, v.sx, cell_xz),
        sy: corners_in(v.y, v.sy, cell_y),
        sz: corners_in(v.z, v.sz, cell_xz),
        x: wrapped(down_div(v.x, cell_xz) * cell_xz) as int,
        y: wrapped(down_div(v.y, cell_y) * cell_y) as int,
        z: wrapped(down_div(v.z, cell_xz) * cell_xz) as int,
        tx: cell_xz,
        ty: cell_y,
        tz: cell_xz,
    }
}

/// The cell next to one, the same at the end.
pub open spec fn next_corner(cell: int, corners: int) -> int {
    if cell + 1 < corners { cell + 1 } else { corners - 1 }
}

/// A value that grows by equal steps.
pub open spec fn climbed<F: Fn(Ask) -> u64>(f: F, start: u32, step: u32, k: nat) -> u32
    decreases k,
{
    if k == 0 { start } else { low(f, Ask::Add32(climbed(f, start, step, (k - 1) as nat), step)) }
}

/// The values at the bottom and at the top of a block column of a cell:
/// its corners mixed along z, then along x.
pub open spec fn column_ends<F: Fn(Ask) -> u64>(
    f: F, cb: Seq<u32>, w: Lattice, cx: int, cy: int, cz: int, ax: u32, az: u32,
) -> (u32, u32) {
    let (nx, ny, nz) = (next_corner(cx, w.sx), next_corner(cy, w.sy), next_corner(cz, w.sz));
    let at = |x: int, y: int| lerped32(f, az, cb[w.place(x, y, cz)], cb[w.place(x, y, nz)]);
    (lerped32(f, ax, at(cx, cy), at(nx, cy)), lerped32(f, ax, at(cx, ny), at(nx, ny)))
}

/// A part of a cell, in sizes of it.
pub open spec fn cell_part<F: Fn(Ask) -> u64>(f: F, local: int, inverse: u32) -> u32 {
    low(f, Ask::Mul32(low(f, Ask::FromInt32(local as i32)), inverse))
}

/// One over a cell size.
pub open spec fn inverse<F: Fn(Ask) -> u64>(f: F, cell: i32) -> u32 {
    low(f, Ask::Div32(ONE_32, low(f, Ask::FromInt32(cell))))
}

/// The first row of a column within its cell.
pub open spec fn first_local(y: int, cell_y: int, cy: int) -> int {
    if cy == 0 { down_mod(y, cell_y) } else { 0 }
}

/// A block's value, from the corners of its cell: along y it grows by equal
/// steps from the first row.
pub open spec fn cell_fill<F: Fn(Ask) -> u64>(
    f: F, cb: Seq<u32>, w: Lattice, v: Lattice, cell_xz: i32, cell_y: i32, i: int,
) -> u32 {
    let (x, y, z) = (v.x + v.ix(i), v.y + v.iy(i), v.z + v.iz(i));
    let cx = down_div(x, cell_xz as int) - down_div(v.x, cell_xz as int);
    let cy = down_div(y, cell_y as int) - down_div(v.y, cell_y as int);
    let cz = down_div(z, cell_xz as int) - down_div(v.z, cell_xz as int);
    let inv = inverse(f, cell_xz);
    let ends = column_ends(
        f, cb, w, cx, cy, cz, cell_part(f, down_mod(x, cell_xz as int), inv), cell_part(f, down_mod(z, cell_xz as int), inv));
    let first = first_local(v.y, cell_y as int, cy);
    column_value(f, ends, inverse(f, cell_y), first, down_mod(y, cell_y as int))
}

/// The step along a column of a cell.
pub open spec fn column_step<F: Fn(Ask) -> u64>(f: F, ends: (u32, u32), inv_y: u32) -> u32 {
    low(f, Ask::Mul32(low(f, Ask::Sub32(ends.1, ends.0)), inv_y))
}

/// The value of a column's row, grown from its first.
pub open spec fn column_value<F: Fn(Ask) -> u64>(f: F, ends: (u32, u32), inv_y: u32, first: int, row: int) -> u32 {
    let step = column_step(f, ends, inv_y);
    let start = low(f, Ask::Add32(ends.0, low(f, Ask::Mul32(step, low(f, Ask::FromInt32(first as i32))))));
    climbed(f, start, step, (row - first) as nat)
}

/// Cell interpolation over a volume of blocks: the input on the corner
/// lattice, then every cell filled.
pub open spec fn block_sampled<F: Fn(Ask) -> u64>(
    f: F, corners: Node, v: Lattice, cell_xz: i32, cell_y: i32, c: Seq<Slab>,
) -> (Seq<u32>, Seq<Slab>)
    decreases corners, 1nat, 0nat,
{
    let w = corner_lattice(v, cell_xz as int, cell_y as int);
    let (cb, d) = sampled(f, corners, w, c);
    (Seq::new(v.count() as nat, |i: int| cell_fill(f, cb, w, v, cell_xz, cell_y, i)), d)
}

/// A volume cut to one layer at a coordinate.
pub open spec fn thin(v: Lattice, along: Axis, coordinate: i32) -> Lattice {
    match along {
        Axis::X => Lattice { sx: 1, x: coordinate as int, ..v },
        Axis::Y => Lattice { sy: 1, y: coordinate as int, ..v },
        Axis::Z => Lattice { sz: 1, z: coordinate as int, ..v },
    }
}

/// The place in the layer of an element of the whole volume.
pub open spec fn thin_place(v: Lattice, along: Axis, i: int) -> int {
    match along {
        Axis::X => thin(v, along, 0).place(0, v.iy(i), v.iz(i)),
        Axis::Y => thin(v, along, 0).place(v.ix(i), 0, v.iz(i)),
        Axis::Z => thin(v, along, 0).place(v.ix(i), v.iy(i), 0),
    }
}

/// Slabs without those of a cached input.
pub open spec fn without_id(slabs: Seq<Slab>, id: usize, n: nat) -> Seq<Slab>
    decreases n,
{
    if n == 0 {
        Seq::empty()
    } else {
        let rest = without_id(slabs, id, (n - 1) as nat);
        if slabs[n - 1].id == id { rest } else { rest.push(slabs[n - 1]) }
    }
}

/// Slabs with the first `n` of others taken over, the latest of each cached
/// input.
pub open spec fn adopted(slabs: Seq<Slab>, c: Seq<Slab>, n: nat) -> Seq<Slab>
    decreases n,
{
    if n == 0 {
        slabs
    } else {
        let rest = adopted(slabs, c, (n - 1) as nat);
        without_id(rest, c[n - 1].id, rest.len()).push(c[n - 1])
    }
}

/// The surfaces of the first `n` elements.
pub open spec fn surfaces<F: Fn(Ask) -> u64>(
    f: F, density: Node, v: Lattice, upper: Seq<u32>, lower_bound: i32, cell_height: i32, p: Points, n: nat,
) -> (Seq<u32>, Points)
    decreases density, 3nat, n,
{
    if n == 0 {
        (Seq::empty(), p)
    } else {
        let i = n - 1;
        let (out, q) = surfaces(f, density, v, upper, lower_bound, cell_height, p, (n - 1) as nat);
        let (s, r) = surface_at(f, density, v.at_x(i), v.at_z(i), upper[i], lower_bound, cell_height, q);
        (out.push(s), r)
    }
}

/// The volume path of a spline, with the coordinates sampled so far.
pub open spec fn spline_sampled<F: Fn(Ask) -> u64>(
    f: F, sp: Spline, v: Lattice, c: Seq<Slab>, known: Map<usize, Seq<u32>>,
) -> (Seq<u32>, Seq<Slab>, Map<usize, Seq<u32>>)
    decreases sp, 0nat, 0nat,
{
    let count = v.count() as nat;
    match sp {
        Spline::Constant(k) => (Seq::new(count, |i: int| k), c, known),
        Spline::Multipoint { key, coordinate, locations, values, derivatives } => {
            let (input, d, m) = if known.contains_key(key) {
                (known[key], c, known)
            } else {
                let (b, d) = sampled(f, *coordinate, v, c);
                (b, d, known.insert(key, b))
            };
            let (bufs, e, q) = splines_sampled(f, values@, values@.len(), v, d, m);
            (Seq::new(count, |i: int| spline_element(f, locations@, derivatives@, bufs, input[i], i)), e, q)
        },
    }
}

/// The first `n` values of a spline over a volume.
pub open spec fn splines_sampled<F: Fn(Ask) -> u64>(
    f: F, values: Seq<Spline>, n: nat, v: Lattice, c: Seq<Slab>, known: Map<usize, Seq<u32>>,
) -> (Seq<Seq<u32>>, Seq<Slab>, Map<usize, Seq<u32>>)
    decreases values, 1nat, n,
{
    if n == 0 || n > values.len() {
        (Seq::empty(), c, known)
    } else {
        let (all, d, m) = splines_sampled(f, values, (n - 1) as nat, v, c, known);
        let (b, e, q) = spline_sampled(f, values[n - 1], v, d, m);
        (all.push(b), e, q)
    }
}

/// A spline at an element, from the values of its knots.
pub open spec fn spline_element<F: Fn(Ask) -> u64>(
    f: F, locations: Seq<u32>, derivatives: Seq<u32>, bufs: Seq<Seq<u32>>, input: u32, i: int,
) -> u32 {
    let k = bisect(f, locations, input, 0, locations.len() as int);
    let last = locations.len() - 1;
    if k <= 0 {
        extended(f, input, locations[0], bufs[0][i], derivatives[0])
    } else if k > last {
        extended(f, input, locations[last], bufs[last][i], derivatives[last])
    } else {
        hermite_at(
            f, input, locations[k - 1], locations[k], bufs[k - 1][i], bufs[k][i], derivatives[k - 1], derivatives[k])
    }
}

} // verus!
