//! Interval bounds of a density tree over one column of rows: subtrees
//! that do not read y are evaluated at the column, the rest is interval
//! arithmetic with gradients over the row range and noises at the bound of
//! their stack. The fill uses it to find the row above which the main
//! density is negative.

use std::sync::Arc;
use vstd::prelude::*;
use crate::arith::{answers, holds, lerp32, lerped32, low, Ask, ONE_32, ZERO};
use crate::df26::{
    gradient, gradient_at, one, select, selected, sound, unary, wrap, wrapped, Axis, Binary, Mode, Node, Points, Slab, Spline,
    Tiling, Unary, MINUS_ONE_32,
};
use crate::dfcache::{agrees, fresh, law_cache_is_neutral, truthful, value_at};
use crate::dfeval::PointCache;

verus! {

/// Infinity and its negative.
pub const INFINITY_32: u32 = 0x7F80_0000;

pub const MINUS_INFINITY_32: u32 = 0xFF80_0000;

/// The lower and the upper bound; no number anywhere means unknown.
pub type Interval = (u32, u32);

/// Every number.
pub open spec fn anything() -> (u32, u32) {
    (MINUS_INFINITY_32, INFINITY_32)
}

fn any() -> (r: Interval)
    ensures
        r == anything(),
{
    (MINUS_INFINITY_32, INFINITY_32)
}

/// A tree reads y anywhere.
pub open spec fn reads_y<F: Fn(Ask) -> u64>(f: F, n: Node) -> bool
    decreases n, 0nat,
{
    match n {
        Node::Gradient { axis, .. } => axis is Y,
        Node::Noise { y_scale, shift_x, shift_y, shift_z, .. } => {
            ||| !holds(f, Ask::Equal64(y_scale, ZERO))
            ||| (shift_x matches Some(c) && reads_y(f, *c))
            ||| (shift_y matches Some(c) && reads_y(f, *c))
            ||| (shift_z matches Some(c) && reads_y(f, *c))
        },
        Node::Slice { along, whole, .. } => !(along is Y) && reads_y(f, *whole),
        Node::Interpolated { .. } => true,
        Node::FindTopSurface { .. } => true,
        Node::DistanceToPoint { .. } => true,
        Node::Unary { input, .. } => reads_y(f, *input),
        Node::Binary { left, right, .. } => reads_y(f, *left) || reads_y(f, *right),
        Node::Lerp { alpha, first, second } => reads_y(f, *alpha) || reads_y(f, *first) || reads_y(f, *second),
        Node::RangeChoice { choice, when_in_range, when_out_of_range, .. } => reads_y(f, *choice) || reads_y(f, *when_in_range)
            || reads_y(f, *when_out_of_range),
        Node::IntervalSelect { selector, functions, .. } => {
            ||| reads_y(f, *selector)
            ||| exists|i: int| 0 <= i < functions@.len() && reads_y(f, *#[trigger] functions@[i])
        },
        Node::Cache { cached, .. } => reads_y(f, *cached),
        Node::BlendDensity(i) => reads_y(f, *i),
        Node::Spline(sp) => spline_reads_y(f, sp),
        _ => false,
    }
}

pub open spec fn spline_reads_y<F: Fn(Ask) -> u64>(f: F, sp: Spline) -> bool
    decreases sp, 0nat,
{
    match sp {
        Spline::Constant(_) => false,
        Spline::Multipoint { coordinate, values, .. } => {
            ||| reads_y(f, *coordinate)
            ||| exists|i: int| 0 <= i < values@.len() && spline_reads_y(f, #[trigger] values@[i])
        },
    }
}

/// Whether a tree reads y anywhere.
pub fn depends_on_y<F: Fn(Ask) -> u64>(node: &Node, f: &F) -> (r: bool)
    requires
        answers(*f),
    ensures
        r == reads_y(*f, *node),
    decreases *node,
{
    match node {
        Node::Gradient { axis, .. } => matches!(axis, Axis::Y),
        Node::Noise { y_scale, shift_x, shift_y, shift_z, .. } => {
            if f(Ask::Equal64(*y_scale, ZERO)) == 0 {
                return true;
            }
            if let Some(c) = shift_x {
                if depends_on_y(c, f) {
                    return true;
                }
            }
            if let Some(c) = shift_y {
                if depends_on_y(c, f) {
                    return true;
                }
            }
            if let Some(c) = shift_z {
                if depends_on_y(c, f) {
                    return true;
                }
            }
            false
        },
        Node::Slice { along, whole, .. } => !matches!(along, Axis::Y) && depends_on_y(whole, f),
        Node::Interpolated { .. } => true,
        Node::FindTopSurface { .. } => true,
        Node::DistanceToPoint { .. } => true,
        Node::Unary { input, .. } => depends_on_y(input, f),
        Node::Binary { left, right, .. } => depends_on_y(left, f) || depends_on_y(right, f),
        Node::Lerp { alpha, first, second } => depends_on_y(alpha, f) || depends_on_y(first, f) || depends_on_y(second, f),
        Node::RangeChoice { choice, when_in_range, when_out_of_range, .. } => depends_on_y(choice, f) || depends_on_y(
            when_in_range, f) || depends_on_y(when_out_of_range, f),
        Node::IntervalSelect { selector, functions, .. } => {
            if depends_on_y(selector, f) {
                return true;
            }
            let mut i: usize = 0;
            while i < functions.len()
                invariant
                    i <= functions@.len(),
                    answers(*f),
                    *node matches Node::IntervalSelect { functions: g, .. } && g == *functions,
                    !reads_y(*f, **selector),
                    *node matches Node::IntervalSelect { selector: g, .. } && g == *selector,
                    forall|j: int| 0 <= j < i ==> !reads_y(*f, *#[trigger] functions@[j]),
                decreases functions.len() - i,
            {
                proof {
                    assert(decreases_to!(*node => node->IntervalSelect_functions));
                    assert(decreases_to!(functions@ => functions@[i as int]));
                }
                if depends_on_y(&functions[i], f) {
                    return true;
                }
                i += 1;
            }
            false
        },
        Node::Cache { cached, .. } => depends_on_y(cached, f),
        Node::BlendDensity(i) => depends_on_y(i, f),
        Node::Spline(sp) => spline_depends_on_y(sp, f),
        _ => false,
    }
}

fn spline_depends_on_y<F: Fn(Ask) -> u64>(sp: &Spline, f: &F) -> (r: bool)
    requires
        answers(*f),
    ensures
        r == spline_reads_y(*f, *sp),
    decreases *sp,
{
    match sp {
        Spline::Constant(_) => false,
        Spline::Multipoint { coordinate, values, .. } => {
            if depends_on_y(coordinate, f) {
                return true;
            }
            let mut i: usize = 0;
            while i < values.len()
                invariant
                    i <= values@.len(),
                    answers(*f),
                    *sp matches Spline::Multipoint { values: g, .. } && g == *values,
                    *sp matches Spline::Multipoint { coordinate: g, .. } && g == *coordinate,
                    !reads_y(*f, **coordinate),
                    forall|j: int| 0 <= j < i ==> !spline_reads_y(*f, #[trigger] values@[j]),
                decreases values.len() - i,
            {
                proof {
                    assert(decreases_to!(*sp => sp->Multipoint_values));
                    assert(decreases_to!(values@ => values@[i as int]));
                }
                if spline_depends_on_y(&values[i], f) {
                    return true;
                }
                i += 1;
            }
            false
        },
    }
}

/// A bound is no number.
pub open spec fn unsure<F: Fn(Ask) -> u64>(f: F, i: (u32, u32)) -> bool {
    holds(f, Ask::Nan32(i.0)) || holds(f, Ask::Nan32(i.1))
}

fn unknown<F: Fn(Ask) -> u64>(f: &F, i: Interval) -> (r: bool)
    requires
        answers(*f),
    ensures
        r == unsure(*f, i),
{
    f(Ask::Nan32(i.0)) != 0 || f(Ask::Nan32(i.1)) != 0
}

/// The bounds of the first `n` values.
pub open spec fn enclosed<F: Fn(Ask) -> u64>(f: F, vals: Seq<u32>, n: nat) -> (u32, u32)
    decreases n,
{
    if n == 0 {
        (INFINITY_32, MINUS_INFINITY_32)
    } else {
        let rest = enclosed(f, vals, (n - 1) as nat);
        (low(f, Ask::Min32(rest.0, vals[n - 1])), low(f, Ask::Max32(rest.1, vals[n - 1])))
    }
}

/// The bounds of values; anything when one is no number.
pub open spec fn hulled<F: Fn(Ask) -> u64>(f: F, vals: Seq<u32>) -> (u32, u32) {
    if exists|i: int| 0 <= i < vals.len() && holds(f, Ask::Nan32(#[trigger] vals[i])) {
        anything()
    } else {
        enclosed(f, vals, vals.len())
    }
}

/// The bounds of values.
pub fn hull<F: Fn(Ask) -> u64>(f: &F, vals: &Vec<u32>) -> (r: Interval)
    requires
        answers(*f),
    ensures
        r == hulled(*f, vals@),
{
    let (mut lo, mut hi): (u32, u32) = (INFINITY_32, MINUS_INFINITY_32);
    let mut i: usize = 0;
    while i < vals.len()
        invariant
            i <= vals@.len(),
            answers(*f),
            (lo, hi) == enclosed(*f, vals@, i as nat),
            forall|j: int| 0 <= j < i ==> !holds(*f, Ask::Nan32(#[trigger] vals@[j])),
        decreases vals.len() - i,
    {
        let v: u32 = vals[i];
        if f(Ask::Nan32(v)) != 0 {
            proof { assert(holds(*f, Ask::Nan32(vals@[i as int]))); }
            return any();
        }
        lo = f(Ask::Min32(lo, v)) as u32;
        hi = f(Ask::Max32(hi, v)) as u32;
        i += 1;
    }
    (lo, hi)
}

/// The bounds of a product.
pub open spec fn multiplied<F: Fn(Ask) -> u64>(f: F, a: (u32, u32), b: (u32, u32)) -> (u32, u32) {
    if unsure(f, a) || unsure(f, b) {
        anything()
    } else {
        hulled(
            f,
            seq![
                low(f, Ask::Mul32(a.0, b.0)),
                low(f, Ask::Mul32(a.0, b.1)),
                low(f, Ask::Mul32(a.1, b.0)),
                low(f, Ask::Mul32(a.1, b.1)),
            ],
        )
    }
}

/// The bounds of a product.
pub fn times<F: Fn(Ask) -> u64>(f: &F, a: Interval, b: Interval) -> (r: Interval)
    requires
        answers(*f),
    ensures
        r == multiplied(*f, a, b),
{
    if unknown(f, a) || unknown(f, b) {
        return any();
    }
    let mut vals: Vec<u32> = Vec::new();
    vals.push(f(Ask::Mul32(a.0, b.0)) as u32);
    vals.push(f(Ask::Mul32(a.0, b.1)) as u32);
    vals.push(f(Ask::Mul32(a.1, b.0)) as u32);
    vals.push(f(Ask::Mul32(a.1, b.1)) as u32);
    proof {
        assert(vals@ =~= seq![
            low(*f, Ask::Mul32(a.0, b.0)),
            low(*f, Ask::Mul32(a.0, b.1)),
            low(*f, Ask::Mul32(a.1, b.0)),
            low(*f, Ask::Mul32(a.1, b.1)),
        ]);
    }
    hull(f, &vals)
}

/// The bounds of a sum.
pub open spec fn added<F: Fn(Ask) -> u64>(f: F, a: (u32, u32), b: (u32, u32)) -> (u32, u32) {
    if unsure(f, a) || unsure(f, b) { anything() } else { (low(f, Ask::Add32(a.0, b.0)), low(f, Ask::Add32(a.1, b.1))) }
}

fn plus<F: Fn(Ask) -> u64>(f: &F, a: Interval, b: Interval) -> (r: Interval)
    requires
        answers(*f),
    ensures
        r == added(*f, a, b),
{
    if unknown(f, a) || unknown(f, b) {
        any()
    } else {
        (f(Ask::Add32(a.0, b.0)) as u32, f(Ask::Add32(a.1, b.1)) as u32)
    }
}

/// The bounds of either.
pub open spec fn united<F: Fn(Ask) -> u64>(f: F, a: (u32, u32), b: (u32, u32)) -> (u32, u32) {
    if unsure(f, a) || unsure(f, b) { anything() } else { (low(f, Ask::Min32(a.0, b.0)), low(f, Ask::Max32(a.1, b.1))) }
}

fn either<F: Fn(Ask) -> u64>(f: &F, a: Interval, b: Interval) -> (r: Interval)
    requires
        answers(*f),
    ensures
        r == united(*f, a, b),
{
    if unknown(f, a) || unknown(f, b) {
        any()
    } else {
        (f(Ask::Min32(a.0, b.0)) as u32, f(Ask::Max32(a.1, b.1)) as u32)
    }
}

/// The negative of an interval.
pub open spec fn negated<F: Fn(Ask) -> u64>(f: F, a: (u32, u32)) -> (u32, u32) {
    (low(f, Ask::Neg32(a.1)), low(f, Ask::Neg32(a.0)))
}

fn negate<F: Fn(Ask) -> u64>(f: &F, a: Interval) -> (r: Interval)
    requires
        answers(*f),
    ensures
        r == negated(*f, a),
{
    (f(Ask::Neg32(a.1)) as u32, f(Ask::Neg32(a.0)) as u32)
}

/// One over an interval that zero is not in.
pub open spec fn inverted<F: Fn(Ask) -> u64>(f: F, d: (u32, u32)) -> Option<(u32, u32)> {
    if unsure(f, d) || (holds(f, Ask::LessEq32(d.0, 0)) && holds(f, Ask::LessEq32(0, d.1))) {
        None
    } else {
        Some((low(f, Ask::Div32(ONE_32, d.1)), low(f, Ask::Div32(ONE_32, d.0))))
    }
}

fn invert<F: Fn(Ask) -> u64>(f: &F, d: Interval) -> (r: Option<Interval>)
    requires
        answers(*f),
    ensures
        r == inverted(*f, d),
{
    if unknown(f, d) || (f(Ask::LessEq32(d.0, 0)) != 0 && f(Ask::LessEq32(0, d.1)) != 0) {
        None
    } else {
        Some((f(Ask::Div32(ONE_32, d.1)) as u32, f(Ask::Div32(ONE_32, d.0)) as u32))
    }
}

/// What a monotone operation gives at a bound.
pub open spec fn mapped_end<F: Fn(Ask) -> u64>(f: F, op: Unary, v: u32) -> u32 {
    match op {
        Unary::Sign => if holds(f, Ask::Less32(0, v)) {
            ONE_32
        } else if holds(f, Ask::Less32(v, 0)) {
            MINUS_ONE_32
        } else {
            0
        },
        _ => one(f, op, v),
    }
}

/// The bounds of a monotone operation.
pub open spec fn mapped<F: Fn(Ask) -> u64>(f: F, op: Unary, a: (u32, u32)) -> (u32, u32) {
    if unsure(f, a) { anything() } else { hulled(f, seq![mapped_end(f, op, a.0), mapped_end(f, op, a.1)]) }
}

fn map_end<F: Fn(Ask) -> u64>(f: &F, op: Unary, v: u32) -> (r: u32)
    requires
        answers(*f),
    ensures
        r == mapped_end(*f, op, v),
{
    match op {
        Unary::Sign => {
            if f(Ask::Less32(0, v)) != 0 {
                ONE_32
            } else if f(Ask::Less32(v, 0)) != 0 {
                MINUS_ONE_32
            } else {
                0
            }
        },
        _ => unary(f, op, v),
    }
}

/// The bounds of a monotone operation.
pub fn monotone<F: Fn(Ask) -> u64>(f: &F, op: Unary, a: Interval) -> (r: Interval)
    requires
        answers(*f),
    ensures
        r == mapped(*f, op, a),
{
    if unknown(f, a) {
        return any();
    }
    let mut vals: Vec<u32> = Vec::new();
    vals.push(map_end(f, op, a.0));
    vals.push(map_end(f, op, a.1));
    proof { assert(vals@ =~= seq![mapped_end(*f, op, a.0), mapped_end(*f, op, a.1)]); }
    hull(f, &vals)
}

/// The bounds of the square.
pub open spec fn squared<F: Fn(Ask) -> u64>(f: F, a: (u32, u32)) -> (u32, u32) {
    let (p, q) = (low(f, Ask::Mul32(a.0, a.0)), low(f, Ask::Mul32(a.1, a.1)));
    if unsure(f, a) {
        anything()
    } else if holds(f, Ask::LessEq32(0, a.0)) || holds(f, Ask::LessEq32(a.1, 0)) {
        hulled(f, seq![p, q])
    } else {
        (0, low(f, Ask::Max32(p, q)))
    }
}

fn square<F: Fn(Ask) -> u64>(f: &F, a: Interval) -> (r: Interval)
    requires
        answers(*f),
    ensures
        r == squared(*f, a),
{
    if unknown(f, a) {
        return any();
    }
    let p: u32 = f(Ask::Mul32(a.0, a.0)) as u32;
    let q: u32 = f(Ask::Mul32(a.1, a.1)) as u32;
    if f(Ask::LessEq32(0, a.0)) != 0 || f(Ask::LessEq32(a.1, 0)) != 0 {
        let mut vals: Vec<u32> = Vec::new();
        vals.push(p);
        vals.push(q);
        proof { assert(vals@ =~= seq![p, q]); }
        hull(f, &vals)
    } else {
        (0, f(Ask::Max32(p, q)) as u32)
    }
}

/// The bounds of the absolute value.
pub open spec fn sized<F: Fn(Ask) -> u64>(f: F, a: (u32, u32)) -> (u32, u32) {
    if unsure(f, a) {
        anything()
    } else if holds(f, Ask::LessEq32(0, a.0)) {
        a
    } else if holds(f, Ask::LessEq32(a.1, 0)) {
        negated(f, a)
    } else {
        (0, low(f, Ask::Max32(low(f, Ask::Neg32(a.0)), a.1)))
    }
}

fn absolute<F: Fn(Ask) -> u64>(f: &F, a: Interval) -> (r: Interval)
    requires
        answers(*f),
    ensures
        r == sized(*f, a),
{
    if unknown(f, a) {
        any()
    } else if f(Ask::LessEq32(0, a.0)) != 0 {
        a
    } else if f(Ask::LessEq32(a.1, 0)) != 0 {
        negate(f, a)
    } else {
        let n: u32 = f(Ask::Neg32(a.0)) as u32;
        (0, f(Ask::Max32(n, a.1)) as u32)
    }
}

/// The bounds of an operation on one value.
pub open spec fn unary_bound<F: Fn(Ask) -> u64>(f: F, op: Unary, a: (u32, u32)) -> (u32, u32) {
    match op {
        Unary::AddConst(c) => added(f, a, (c, c)),
        Unary::ConstMinus(c) => added(f, (c, c), negated(f, a)),
        Unary::MulConst(c) => multiplied(f, a, (c, c)),
        Unary::ConstOver(c) => match inverted(f, a) {
            Some(i) => multiplied(f, (c, c), i),
            None => anything(),
        },
        Unary::Reciprocal => match inverted(f, a) {
            Some(i) => i,
            None => anything(),
        },
        Unary::MinConst(c) => if unsure(f, a) {
            anything()
        } else {
            (low(f, Ask::Min32(a.0, c)), low(f, Ask::Min32(a.1, c)))
        },
        Unary::MaxConst(c) => if unsure(f, a) {
            anything()
        } else {
            (low(f, Ask::Max32(a.0, c)), low(f, Ask::Max32(a.1, c)))
        },
        Unary::Abs => sized(f, a),
        Unary::Square => squared(f, a),
        Unary::Sqrt => if unsure(f, a) || holds(f, Ask::Less32(a.0, 0)) {
            anything()
        } else {
            (low(f, Ask::Sqrt32(a.0)), low(f, Ask::Sqrt32(a.1)))
        },
        Unary::Negate => if unsure(f, a) { anything() } else { negated(f, a) },
        Unary::Log => if unsure(f, a) || holds(f, Ask::LessEq32(a.0, 0)) { anything() } else { mapped(f, op, a) },
        Unary::Cube => mapped(f, op, a),
        Unary::HalfNegative => mapped(f, op, a),
        Unary::QuarterNegative => mapped(f, op, a),
        Unary::Squeeze => mapped(f, op, a),
        Unary::Sign => mapped(f, op, a),
        Unary::Clamp(_, _) => mapped(f, op, a),
        _ => anything(),
    }
}

fn bound_unary<F: Fn(Ask) -> u64>(f: &F, op: Unary, a: Interval) -> (r: Interval)
    requires
        answers(*f),
    ensures
        r == unary_bound(*f, op, a),
{
    match op {
        Unary::AddConst(c) => plus(f, a, (c, c)),
        Unary::ConstMinus(c) => {
            let n: Interval = negate(f, a);
            plus(f, (c, c), n)
        },
        Unary::MulConst(c) => times(f, a, (c, c)),
        Unary::ConstOver(c) => match invert(f, a) {
            Some(i) => times(f, (c, c), i),
            None => any(),
        },
        Unary::Reciprocal => match invert(f, a) {
            Some(i) => i,
            None => any(),
        },
        Unary::MinConst(c) => {
            if unknown(f, a) { any() } else { (f(Ask::Min32(a.0, c)) as u32, f(Ask::Min32(a.1, c)) as u32) }
        },
        Unary::MaxConst(c) => {
            if unknown(f, a) { any() } else { (f(Ask::Max32(a.0, c)) as u32, f(Ask::Max32(a.1, c)) as u32) }
        },
        Unary::Abs => absolute(f, a),
        Unary::Square => square(f, a),
        Unary::Sqrt => {
            if unknown(f, a) || f(Ask::Less32(a.0, 0)) != 0 {
                any()
            } else {
                (f(Ask::Sqrt32(a.0)) as u32, f(Ask::Sqrt32(a.1)) as u32)
            }
        },
        Unary::Negate => if unknown(f, a) { any() } else { negate(f, a) },
        Unary::Log => {
            if unknown(f, a) || f(Ask::LessEq32(a.0, 0)) != 0 { any() } else { monotone(f, op, a) }
        },
        Unary::Cube => monotone(f, op, a),
        Unary::HalfNegative => monotone(f, op, a),
        Unary::QuarterNegative => monotone(f, op, a),
        Unary::Squeeze => monotone(f, op, a),
        Unary::Sign => monotone(f, op, a),
        Unary::Clamp(_, _) => monotone(f, op, a),
        _ => any(),
    }
}

/// The bounds of an operation on two values.
pub open spec fn binary_bound<F: Fn(Ask) -> u64>(f: F, op: Binary, a: (u32, u32), b: (u32, u32)) -> (u32, u32) {
    match op {
        Binary::Add => added(f, a, b),
        Binary::Sub => added(f, a, negated(f, b)),
        Binary::Mul => multiplied(f, a, b),
        Binary::Div => match inverted(f, b) {
            Some(i) => multiplied(f, a, i),
            None => anything(),
        },
        Binary::Min => if unsure(f, a) || unsure(f, b) {
            anything()
        } else {
            (low(f, Ask::Min32(a.0, b.0)), low(f, Ask::Min32(a.1, b.1)))
        },
        Binary::Max => if unsure(f, a) || unsure(f, b) {
            anything()
        } else {
            (low(f, Ask::Max32(a.0, b.0)), low(f, Ask::Max32(a.1, b.1)))
        },
        _ => anything(),
    }
}

fn bound_binary<F: Fn(Ask) -> u64>(f: &F, op: Binary, a: Interval, b: Interval) -> (r: Interval)
    requires
        answers(*f),
    ensures
        r == binary_bound(*f, op, a, b),
{
    match op {
        Binary::Add => plus(f, a, b),
        Binary::Sub => {
            let n: Interval = negate(f, b);
            plus(f, a, n)
        },
        Binary::Mul => times(f, a, b),
        Binary::Div => match invert(f, b) {
            Some(i) => times(f, a, i),
            None => any(),
        },
        Binary::Min => {
            if unknown(f, a) || unknown(f, b) {
                any()
            } else {
                (f(Ask::Min32(a.0, b.0)) as u32, f(Ask::Min32(a.1, b.1)) as u32)
            }
        },
        Binary::Max => {
            if unknown(f, a) || unknown(f, b) {
                any()
            } else {
                (f(Ask::Max32(a.0, b.0)) as u32, f(Ask::Max32(a.1, b.1)) as u32)
            }
        },
        _ => any(),
    }
}

/// The bounds of a gradient along y over rows.
pub open spec fn gradient_bound<F: Fn(Ask) -> u64>(
    f: F, tiling: Tiling, from: i32, to: i32, from_value: u32, factor: u32, y_lo: i32, y_hi: i32,
) -> (u32, u32) {
    if tiling is ClampToEdge {
        hulled(
            f,
            seq![
                gradient_at(f, tiling, from, to, from_value, factor, y_lo),
                gradient_at(f, tiling, from, to, from_value, factor, y_hi),
            ],
        )
    } else {
        let span = low(f, Ask::Mul32(low(f, Ask::FromInt32(wrapped(to - from))), factor));
        hulled(f, seq![from_value, low(f, Ask::Add32(from_value, span))])
    }
}

fn bound_gradient<F: Fn(Ask) -> u64>(
    f: &F, tiling: Tiling, from: i32, to: i32, from_value: u32, factor: u32, y_lo: i32, y_hi: i32,
) -> (r: Interval)
    requires
        answers(*f),
        from != to,
    ensures
        r == gradient_bound(*f, tiling, from, to, from_value, factor, y_lo, y_hi),
{
    let mut vals: Vec<u32> = Vec::new();
    if matches!(tiling, Tiling::ClampToEdge) {
        vals.push(gradient(f, tiling, from, to, from_value, factor, y_lo));
        vals.push(gradient(f, tiling, from, to, from_value, factor, y_hi));
        proof {
            assert(vals@ =~= seq![
                gradient_at(*f, tiling, from, to, from_value, factor, y_lo),
                gradient_at(*f, tiling, from, to, from_value, factor, y_hi),
            ]);
        }
    } else {
        let range: u32 = f(Ask::FromInt32(wrap(to as i128 - from as i128))) as u32;
        let span: u32 = f(Ask::Mul32(range, factor)) as u32;
        let end: u32 = f(Ask::Add32(from_value, span)) as u32;
        vals.push(from_value);
        vals.push(end);
        proof { assert(vals@ =~= seq![from_value, end]); }
    }
    hull(f, &vals)
}

/// The bounds of an interpolation.
pub open spec fn lerp_bound<F: Fn(Ask) -> u64>(f: F, a: (u32, u32), u: (u32, u32), v: (u32, u32)) -> (u32, u32) {
    if unsure(f, a) || unsure(f, u) || unsure(f, v) {
        anything()
    } else {
        hulled(
            f,
            seq![
                lerped32(f, a.0, u.0, v.0),
                lerped32(f, a.0, u.0, v.1),
                lerped32(f, a.0, u.1, v.0),
                lerped32(f, a.0, u.1, v.1),
                lerped32(f, a.1, u.0, v.0),
                lerped32(f, a.1, u.0, v.1),
                lerped32(f, a.1, u.1, v.0),
                lerped32(f, a.1, u.1, v.1),
            ],
        )
    }
}

fn bound_lerp<F: Fn(Ask) -> u64>(f: &F, a: Interval, u: Interval, v: Interval) -> (r: Interval)
    requires
        answers(*f),
    ensures
        r == lerp_bound(*f, a, u, v),
{
    if unknown(f, a) || unknown(f, u) || unknown(f, v) {
        return any();
    }
    let mut vals: Vec<u32> = Vec::new();
    vals.push(lerp32(f, a.0, u.0, v.0));
    vals.push(lerp32(f, a.0, u.0, v.1));
    vals.push(lerp32(f, a.0, u.1, v.0));
    vals.push(lerp32(f, a.0, u.1, v.1));
    vals.push(lerp32(f, a.1, u.0, v.0));
    vals.push(lerp32(f, a.1, u.0, v.1));
    vals.push(lerp32(f, a.1, u.1, v.0));
    vals.push(lerp32(f, a.1, u.1, v.1));
    proof {
        assert(vals@ =~= seq![
            lerped32(*f, a.0, u.0, v.0),
            lerped32(*f, a.0, u.0, v.1),
            lerped32(*f, a.0, u.1, v.0),
            lerped32(*f, a.0, u.1, v.1),
            lerped32(*f, a.1, u.0, v.0),
            lerped32(*f, a.1, u.0, v.1),
            lerped32(*f, a.1, u.1, v.0),
            lerped32(*f, a.1, u.1, v.1),
        ]);
    }
    hull(f, &vals)
}

/// A block column: where it stands, and the row at which what does not
/// read y is evaluated.
pub ghost struct Column {
    pub x: i32,
    pub z: i32,
    pub y_ref: i32,
    pub y_lo: i32,
    pub y_hi: i32,
}

/// A cache with nothing in it.
pub open spec fn blank() -> Points {
    Points { enabled: true, entries: Map::empty(), slabs: Seq::empty() }
}

/// The bounds of a tree over the rows of a column.
#[verifier::opaque]
pub open spec fn column_bound<F: Fn(Ask) -> u64>(f: F, n: Node, c: Column) -> (u32, u32)
    decreases n, 0nat,
{
    if !reads_y(f, n) {
        let v = value_at(f, n, c.x, c.y_ref, c.z, blank());
        if holds(f, Ask::Nan32(v)) { anything() } else { (v, v) }
    } else {
        match n {
            Node::Unary { op, input } => unary_bound(f, op, column_bound(f, *input, c)),
            Node::Binary { combine, left, right } => binary_bound(
                f, combine, column_bound(f, *left, c), column_bound(f, *right, c)),
            Node::Gradient { tiling, from_coordinate, to_coordinate, from_value, factor, .. } => gradient_bound(
                f, tiling, from_coordinate, to_coordinate, from_value, factor, c.y_lo, c.y_hi),
            Node::Noise { stack, .. } => {
                let m = low(f, Ask::StackBound(stack));
                (low(f, Ask::Neg32(m)), m)
            },
            Node::Lerp { alpha, first, second } => lerp_bound(
                f, column_bound(f, *alpha, c), column_bound(f, *first, c), column_bound(f, *second, c)),
            Node::RangeChoice { choice, min_inclusive, max_exclusive, when_in_range, when_out_of_range } => {
                let v = column_bound(f, *choice, c);
                let can_in = holds(f, Ask::LessEq32(min_inclusive, v.1)) && holds(f, Ask::Less32(v.0, max_exclusive));
                let can_out = holds(f, Ask::Less32(v.0, min_inclusive)) || holds(f, Ask::LessEq32(max_exclusive, v.1));
                if unsure(f, v) {
                    anything()
                } else if can_in && !can_out {
                    column_bound(f, *when_in_range, c)
                } else if can_out && !can_in {
                    column_bound(f, *when_out_of_range, c)
                } else {
                    united(f, column_bound(f, *when_in_range, c), column_bound(f, *when_out_of_range, c))
                }
            },
            Node::IntervalSelect { selector, thresholds, functions } => {
                let v = column_bound(f, *selector, c);
                let (lo, hi) = (selected(f, thresholds@, v.0, 0), selected(f, thresholds@, v.1, 0));
                if unsure(f, v) || lo > hi {
                    anything()
                } else {
                    united_bounds(f, functions@, c, lo, (hi - lo) as nat)
                }
            },
            Node::Cache { cached, .. } => column_bound(f, *cached, c),
            Node::BlendDensity(i) => column_bound(f, *i, c),
            Node::Slice { along, coordinate, whole } => match along {
                Axis::X => column_bound(f, *whole, Column { x: coordinate, ..c }),
                Axis::Z => column_bound(f, *whole, Column { z: coordinate, ..c }),
                Axis::Y => anything(),
            },
            _ => anything(),
        }
    }
}

/// The bounds of any of a function and the `k` after it.
pub open spec fn united_bounds<F: Fn(Ask) -> u64>(f: F, functions: Seq<Arc<Node>>, c: Column, lo: int, k: nat) -> (u32, u32)
    decreases functions, k,
{
    if lo < 0 || lo + k >= functions.len() {
        anything()
    } else if k == 0 {
        column_bound(f, *functions[lo], c)
    } else {
        united(f, united_bounds(f, functions, c, lo, (k - 1) as nat), column_bound(f, *functions[lo + k], c))
    }
}

/// What the bounds of a column are computed with.
pub struct BoundCtx {
    pub pc: PointCache,
    pub x: i32,
    pub z: i32,
    /// The row at which what does not read y is evaluated (any row).
    pub y_ref: i32,
}

impl Default for BoundCtx {
    fn default() -> (r: BoundCtx)
        ensures
            r.wf(),
            r.pc@ == blank(),
            r.x == 0 && r.z == 0 && r.y_ref == 0,
    {
        BoundCtx::new()
    }
}

impl BoundCtx {
    pub open spec fn wf(&self) -> bool {
        self.pc.wf() && self.pc@.slabs == Seq::<Slab>::empty()
    }

    /// The rows of the column.
    pub open spec fn column(&self, y_lo: i32, y_hi: i32) -> Column {
        Column { x: self.x, z: self.z, y_ref: self.y_ref, y_lo, y_hi }
    }

    pub fn new() -> (r: BoundCtx)
        ensures
            r.wf(),
            r.pc@ == blank(),
            r.x == 0 && r.z == 0 && r.y_ref == 0,
    {
        BoundCtx { pc: PointCache::new(), x: 0, z: 0, y_ref: 0 }
    }

    /// Forget the values of the column before.
    pub fn start_column(&mut self, x: i32, z: i32, y_ref: i32)
        ensures
            final(self).wf(),
            final(self).pc@ == blank(),
            final(self).x == x && final(self).z == z && final(self).y_ref == y_ref,
    {
        self.pc = PointCache::new();
        self.x = x;
        self.z = z;
        self.y_ref = y_ref;
    }
}

/// Only the remembered values have changed, and they are right.
pub open spec fn kept<F: Fn(Ask) -> u64>(f: F, ctx: BoundCtx, o: BoundCtx, inputs: Map<usize, Node>) -> bool {
    &&& ctx.wf()
    &&& truthful(f, ctx.pc@, inputs)
    &&& ctx.x == o.x && ctx.z == o.z && ctx.y_ref == o.y_ref
}

impl Node {
    /// Bounds of this tree at the column over block rows `y_lo..=y_hi`.
    pub fn column_bounds<F: Fn(Ask) -> u64>(&self, y_lo: i32, y_hi: i32, ctx: &mut BoundCtx, f: &F) -> (r: Interval)
        requires
            answers(*f),
            sound(*self),
            old(ctx).wf(),
            exists|inputs: Map<usize, Node>| agrees(*self, inputs) && truthful(*f, old(ctx).pc@, inputs),
        ensures
            r == column_bound(*f, *self, old(ctx).column(y_lo, y_hi)),
            final(ctx).wf(),
            final(ctx).column(y_lo, y_hi) == old(ctx).column(y_lo, y_hi),
            exists|inputs: Map<usize, Node>| agrees(*self, inputs) && truthful(*f, final(ctx).pc@, inputs),
    {
        let ghost inputs = choose|inputs: Map<usize, Node>| agrees(*self, inputs) && truthful(*f, old(ctx).pc@, inputs);
        self.bounds_in(y_lo, y_hi, ctx, f, Ghost(inputs))
    }

    pub(crate) fn bounds_in<F: Fn(Ask) -> u64>(
        &self, y_lo: i32, y_hi: i32, ctx: &mut BoundCtx, f: &F, Ghost(inputs): Ghost<Map<usize, Node>>,
    ) -> (r: Interval)
        requires
            answers(*f),
            sound(*self),
            agrees(*self, inputs),
            old(ctx).wf(),
            truthful(*f, old(ctx).pc@, inputs),
        ensures
            r == column_bound(*f, *self, old(ctx).column(y_lo, y_hi)),
            kept(*f, *final(ctx), *old(ctx), inputs),
        decreases *self, 1nat,
    {
        proof { reveal(column_bound); }
        if !depends_on_y(self, f) {
            let v: u32 = self.eval_with(ctx.x, ctx.y_ref, ctx.z, Mode::Point, &mut ctx.pc, f);
            proof {
                law_cache_is_neutral(*f, *self, old(ctx).x, old(ctx).y_ref, old(ctx).z, old(ctx).pc@, inputs);
                assert(fresh(old(ctx).pc@) == fresh(blank()));
            }
            return if f(Ask::Nan32(v)) != 0 { any() } else { (v, v) };
        }
        match self {
            Node::Unary { op, input } => {
                let a: Interval = input.bounds_in(y_lo, y_hi, ctx, f, Ghost(inputs));
                bound_unary(f, *op, a)
            },
            Node::Binary { combine, left, right } => {
                let a: Interval = left.bounds_in(y_lo, y_hi, ctx, f, Ghost(inputs));
                let b: Interval = right.bounds_in(y_lo, y_hi, ctx, f, Ghost(inputs));
                bound_binary(f, *combine, a, b)
            },
            Node::Gradient { tiling, from_coordinate, to_coordinate, from_value, factor, .. } => bound_gradient(
                f, *tiling, *from_coordinate, *to_coordinate, *from_value, *factor, y_lo, y_hi),
            Node::Noise { stack, .. } => {
                let m: u32 = f(Ask::StackBound(*stack)) as u32;
                (f(Ask::Neg32(m)) as u32, m)
            },
            Node::Lerp { alpha, first, second } => {
                let a: Interval = alpha.bounds_in(y_lo, y_hi, ctx, f, Ghost(inputs));
                let u: Interval = first.bounds_in(y_lo, y_hi, ctx, f, Ghost(inputs));
                let v: Interval = second.bounds_in(y_lo, y_hi, ctx, f, Ghost(inputs));
                bound_lerp(f, a, u, v)
            },
            Node::RangeChoice { .. } => self.bounds_of_choice(y_lo, y_hi, ctx, f, Ghost(inputs)),
            Node::IntervalSelect { .. } => self.bounds_of_selection(y_lo, y_hi, ctx, f, Ghost(inputs)),
            Node::Cache { cached, .. } => cached.bounds_in(y_lo, y_hi, ctx, f, Ghost(inputs)),
            Node::BlendDensity(i) => i.bounds_in(y_lo, y_hi, ctx, f, Ghost(inputs)),
            Node::Slice { along, coordinate, whole } => {
                let (x, z): (i32, i32) = (ctx.x, ctx.z);
                match along {
                    Axis::X => ctx.x = *coordinate,
                    Axis::Z => ctx.z = *coordinate,
                    Axis::Y => return any(),
                }
                let r: Interval = whole.bounds_in(y_lo, y_hi, ctx, f, Ghost(inputs));
                ctx.x = x;
                ctx.z = z;
                r
            },
            _ => any(),
        }
    }

    fn bounds_of_choice<F: Fn(Ask) -> u64>(
        &self, y_lo: i32, y_hi: i32, ctx: &mut BoundCtx, f: &F, Ghost(inputs): Ghost<Map<usize, Node>>,
    ) -> (r: Interval)
        requires
            *self is RangeChoice,
            reads_y(*f, *self),
            answers(*f),
            sound(*self),
            agrees(*self, inputs),
            old(ctx).wf(),
            truthful(*f, old(ctx).pc@, inputs),
        ensures
            r == column_bound(*f, *self, old(ctx).column(y_lo, y_hi)),
            kept(*f, *final(ctx), *old(ctx), inputs),
        decreases *self, 0nat,
    {
        proof { reveal(column_bound); }
        match self {
            Node::RangeChoice { choice, min_inclusive, max_exclusive, when_in_range, when_out_of_range } => {
                let v: Interval = choice.bounds_in(y_lo, y_hi, ctx, f, Ghost(inputs));
                if unknown(f, v) {
                    return any();
                }
                let can_in: bool = f(Ask::LessEq32(*min_inclusive, v.1)) != 0 && f(Ask::Less32(v.0, *max_exclusive)) != 0;
                let can_out: bool = f(Ask::Less32(v.0, *min_inclusive)) != 0 || f(Ask::LessEq32(*max_exclusive, v.1)) != 0;
                if can_in && !can_out {
                    when_in_range.bounds_in(y_lo, y_hi, ctx, f, Ghost(inputs))
                } else if can_out && !can_in {
                    when_out_of_range.bounds_in(y_lo, y_hi, ctx, f, Ghost(inputs))
                } else {
                    let a: Interval = when_in_range.bounds_in(y_lo, y_hi, ctx, f, Ghost(inputs));
                    let b: Interval = when_out_of_range.bounds_in(y_lo, y_hi, ctx, f, Ghost(inputs));
                    either(f, a, b)
                }
            },
            _ => any(),
        }
    }

    fn bounds_of_selection<F: Fn(Ask) -> u64>(
        &self, y_lo: i32, y_hi: i32, ctx: &mut BoundCtx, f: &F, Ghost(inputs): Ghost<Map<usize, Node>>,
    ) -> (r: Interval)
        requires
            *self is IntervalSelect,
            reads_y(*f, *self),
            answers(*f),
            sound(*self),
            agrees(*self, inputs),
            old(ctx).wf(),
            truthful(*f, old(ctx).pc@, inputs),
        ensures
            r == column_bound(*f, *self, old(ctx).column(y_lo, y_hi)),
            kept(*f, *final(ctx), *old(ctx), inputs),
        decreases *self, 0nat,
    {
        proof { reveal(column_bound); }
        match self {
            Node::IntervalSelect { selector, thresholds, functions } => {
                let v: Interval = selector.bounds_in(y_lo, y_hi, ctx, f, Ghost(inputs));
                if unknown(f, v) {
                    return any();
                }
                let lo: usize = select(f, thresholds, v.0);
                let hi: usize = select(f, thresholds, v.1);
                if lo > hi {
                    return any();
                }
                let ghost c = old(ctx).column(y_lo, y_hi);
                proof {
                    assert(decreases_to!(*self => self->IntervalSelect_functions));
                    assert(decreases_to!(functions@ => functions@[lo as int]));
                    assert(sound(*functions@[lo as int]) && agrees(*functions@[lo as int], inputs));
                }
                let mut r: Interval = functions[lo].bounds_in(y_lo, y_hi, ctx, f, Ghost(inputs));
                let mut i: usize = lo;
                while i < hi
                    invariant
                        lo <= i <= hi,
                        hi < functions@.len(),
                        answers(*f),
                        sound(*self),
                        agrees(*self, inputs),
                        *self matches Node::IntervalSelect { functions: g, .. } && g == *functions,
                        kept(*f, *ctx, *old(ctx), inputs),
                        c == old(ctx).column(y_lo, y_hi),
                        r == united_bounds(*f, functions@, c, lo as int, (i - lo) as nat),
                    decreases hi - i,
                {
                    i += 1;
                    proof {
                        assert(decreases_to!(*self => self->IntervalSelect_functions));
                        assert(decreases_to!(functions@ => functions@[i as int]));
                        assert(sound(*functions@[i as int]) && agrees(*functions@[i as int], inputs));
                    }
                    let b: Interval = functions[i].bounds_in(y_lo, y_hi, ctx, f, Ghost(inputs));
                    r = either(f, r, b);
                    proof {
                        reveal(column_bound);
                        let k = (i - lo) as nat;
                        assert(functions@[lo + k] == functions@[i as int]);
                        assert(b == column_bound(*f, *functions@[lo + k], c));
                        assert((k - 1) as nat == (i - 1 - lo) as nat);
                    }
                }
                r
            },
            _ => any(),
        }
    }
}

} // verus!
