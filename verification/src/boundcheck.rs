//! The bounds of a tree hold its values, where those of each operation do.

use std::sync::Arc;
use vstd::prelude::*;
use crate::arith::{holds, lerped32, low, Ask, ONE_32};
use crate::boundflat::{flat_noises, law_flat_trees_have_one_value, law_flat_trees_have_one_worth, Rows};
use crate::boundops::{
    binary_holds, grows, law_cut_products_hold, law_plain_binary_holds, law_plain_lerp_holds, law_plain_unary_holds, level,
    plain_binary, plain_lerp, plain_unary, unary_holds,
};
use crate::bounds26::{
    anything, binary_bound, blank, column_bound, gradient_bound, lerp_bound, reads_y, unary_bound, united, united_bounds, unsure, Column,
    INFINITY_32, MINUS_INFINITY_32,
};
use crate::df26::{
    cut_short, evaluated, gradient_at, one, sampled, selected, slab_value, sound, two, within, Axis, Binary, Lattice, Mode, Node, Slab,
    Tiling, Unary,
};
use crate::dfcache::{agrees, fresh, inner, law_cache_is_neutral, truthful, value_at};
use crate::dfparts::{by_block, honest, law_volumes_hold_block_values, proper, worth};

verus! {

pub open spec fn number<F: Fn(Ask) -> u64>(f: F, v: u32) -> bool {
    !holds(f, Ask::Nan32(v))
}

/// A value lies between bounds, as far as they are known.
pub open spec fn fits<F: Fn(Ask) -> u64>(f: F, i: (u32, u32), v: u32) -> bool {
    unsure(f, i) || (holds(f, Ask::LessEq32(i.0, v)) && holds(f, Ask::LessEq32(v, i.1)))
}

/// Numbers are in order: comparisons go together, infinity is beyond every
/// number, and the smaller and the larger of two numbers are what they say.
#[verifier::opaque]
pub open spec fn keeps_order<F: Fn(Ask) -> u64>(f: F) -> bool {
    &&& forall|a: u32, b: u32| #[trigger] holds(f, Ask::LessEq32(a, b)) ==> number(f, a) && number(f, b)
    &&& forall|a: u32, b: u32| #[trigger] holds(f, Ask::Less32(a, b)) ==> number(f, a) && number(f, b)
    &&& forall|a: u32| number(f, a) ==> #[trigger] holds(f, Ask::LessEq32(a, a))
    &&& forall|a: u32, b: u32| number(f, a) && number(f, b) ==> #[trigger] holds(f, Ask::LessEq32(a, b)) != holds(
        f, Ask::Less32(b, a))
    &&& forall|a: u32, b: u32, c: u32|
        #[trigger] holds(f, Ask::LessEq32(a, b)) && #[trigger] holds(f, Ask::LessEq32(b, c)) ==> holds(f, Ask::LessEq32(a, c))
    &&& forall|a: u32|
        number(f, a) ==> #[trigger] holds(f, Ask::LessEq32(MINUS_INFINITY_32, a)) && holds(f, Ask::LessEq32(a, INFINITY_32))
    &&& forall|a: u32, b: u32|
        number(f, a) && number(f, b) ==> {
            let m = #[trigger] low(f, Ask::Min32(a, b));
            holds(f, Ask::LessEq32(m, a)) && holds(f, Ask::LessEq32(m, b))
        }
    &&& forall|a: u32, b: u32|
        number(f, a) && number(f, b) ==> {
            let m = #[trigger] low(f, Ask::Max32(a, b));
            holds(f, Ask::LessEq32(a, m)) && holds(f, Ask::LessEq32(b, m))
        }
}

/// What an interpolation gives.
pub open spec fn blended<F: Fn(Ask) -> u64>(f: F, a: u32, u: u32, v: u32) -> u32 {
    if holds(f, Ask::Equal32(a, 0)) {
        u
    } else if holds(f, Ask::Equal32(a, ONE_32)) {
        v
    } else {
        lerped32(f, a, u, v)
    }
}

/// Interpolation between values within bounds stays within its bounds.
pub open spec fn lerp_holds<F: Fn(Ask) -> u64>(f: F, a: (u32, u32), b: (u32, u32), c: (u32, u32)) -> bool {
    forall|t: u32, u: u32, v: u32|
        fits(f, a, t) && fits(f, b, u) && fits(f, c, v) && number(f, blended(f, t, u, v)) ==> fits(
            f, lerp_bound(f, a, b, c), #[trigger] blended(f, t, u, v))
}

/// A gradient along y stays within its bounds over rows.
#[verifier::opaque]
pub open spec fn gradient_keeps<F: Fn(Ask) -> u64>(f: F, tiling: Tiling, from: i32, to: i32, value: u32, factor: u32) -> bool {
    forall|lo: i32, hi: i32, y: i32|
        #![trigger gradient_bound(f, tiling, from, to, value, factor, lo, hi), gradient_at(f, tiling, from, to, value, factor, y)]
        lo <= y <= hi ==> fits(
            f, gradient_bound(f, tiling, from, to, value, factor, lo, hi), gradient_at(f, tiling, from, to, value, factor, y))
}

/// The value of a tree at a row of a column.
pub open spec fn row_value<F: Fn(Ask) -> u64>(f: F, n: Node, c: Column, y: i32) -> u32 {
    value_at(f, n, c.x, y, c.z, blank())
}

/// An operation on one value stays within its bounds: it is one of the plain
/// ones, or its bounds are taken to hold.
pub open spec fn unary_fits<F: Fn(Ask) -> u64>(f: F, op: Unary, a: (u32, u32)) -> bool {
    plain_unary(f, op, a) || unary_holds(f, op, a)
}

/// The same of an operation on two values, of which the second may be left
/// out where the first is zero.
pub open spec fn binary_fits<F: Fn(Ask) -> u64>(f: F, op: Binary, a: (u32, u32), b: (u32, u32)) -> bool {
    ||| plain_binary(f, op, a, b)
    ||| binary_holds(f, op, a, b) && ((op is Mul || op is Div) ==> fits(f, binary_bound(f, op, a, b), 0))
}

/// The same of an interpolation.
pub open spec fn lerp_fits<F: Fn(Ask) -> u64>(f: F, a: (u32, u32), b: (u32, u32), c: (u32, u32)) -> bool {
    plain_lerp(f, a, b, c) || lerp_holds(f, a, b, c)
}

/// Every part of a tree that is evaluated at a row has a number there, and
/// every operation, gradient and noise stays within its bounds: sums,
/// differences, products between finite bounds, absolute values, negatives,
/// the smaller and the larger of two, values held in a range and
/// interpolations from one known value do by themselves.
pub open spec fn tame<F: Fn(Ask) -> u64>(f: F, n: Node, c: Column, y: i32) -> bool
    decreases n,
{
    &&& number(f, row_value(f, n, c, y))
    &&& reads_y(f, n) ==> match n {
        Node::Unary { op, input } => unary_fits(f, op, column_bound(f, *input, c)) && tame(f, *input, c, y),
        Node::Binary { combine, left, right } => {
            &&& binary_fits(f, combine, column_bound(f, *left, c), column_bound(f, *right, c))
            &&& tame(f, *left, c, y)
            &&& tame(f, *right, c, y)
        },
        Node::Gradient { tiling, from_coordinate, to_coordinate, from_value, factor, .. } => gradient_keeps(
            f, tiling, from_coordinate, to_coordinate, from_value, factor),
        Node::Noise { stack, .. } => fits(f, noise_bound(f, stack), row_value(f, n, c, y)),
        Node::Lerp { alpha, first, second } => {
            &&& lerp_fits(f, column_bound(f, *alpha, c), column_bound(f, *first, c), column_bound(f, *second, c))
            &&& tame(f, *alpha, c, y)
            &&& tame(f, *first, c, y)
            &&& tame(f, *second, c, y)
        },
        Node::RangeChoice { choice, min_inclusive, max_exclusive, when_in_range, when_out_of_range } => tame(f, *choice, c, y) && (
        if within(f, row_value(f, *choice, c, y), min_inclusive, max_exclusive) {
            tame(f, *when_in_range, c, y)
        } else {
            tame(f, *when_out_of_range, c, y)
        }),
        Node::IntervalSelect { selector, thresholds, functions } => {
            let k = selected(f, thresholds@, row_value(f, *selector, c, y), 0);
            tame(f, *selector, c, y) && (0 <= k < functions@.len() ==> tame(f, *functions@[k], c, y))
        },
        Node::Cache { cached, .. } => tame(f, *cached, c, y),
        Node::BlendDensity(i) => tame(f, *i, c, y),
        Node::Slice { along, coordinate, whole } => match along {
            Axis::X => tame(f, *whole, Column { x: coordinate, ..c }, y),
            Axis::Z => tame(f, *whole, Column { z: coordinate, ..c }, y),
            Axis::Y => true,
        },
        _ => true,
    }
}

/// The bounds of a noise.
pub open spec fn noise_bound<F: Fn(Ask) -> u64>(f: F, stack: usize) -> (u32, u32) {
    let m = low(f, Ask::StackBound(stack));
    (low(f, Ask::Neg32(m)), m)
}

pub(crate) proof fn lemma_anything<F: Fn(Ask) -> u64>(f: F, v: u32)
    requires
        keeps_order(f),
        number(f, v),
    ensures
        fits(f, anything(), v),
{
    reveal(keeps_order);
}

proof fn lemma_united<F: Fn(Ask) -> u64>(f: F, a: (u32, u32), b: (u32, u32), v: u32)
    requires
        keeps_order(f),
        number(f, v),
        fits(f, a, v) || fits(f, b, v),
    ensures
        fits(f, united(f, a, b), v),
{
    reveal(keeps_order);
    lemma_anything(f, v);
    if !unsure(f, a) && !unsure(f, b) {
        let (lo, hi) = united(f, a, b);
        assert(holds(f, Ask::LessEq32(lo, a.0)) && holds(f, Ask::LessEq32(lo, b.0)));
        assert(holds(f, Ask::LessEq32(a.1, hi)) && holds(f, Ask::LessEq32(b.1, hi)));
    }
}

/// What lies below a threshold stays below it for smaller values.
pub(crate) proof fn lemma_less<F: Fn(Ask) -> u64>(f: F, a: u32, b: u32, t: u32)
    requires
        keeps_order(f),
        holds(f, Ask::LessEq32(a, b)),
        holds(f, Ask::Less32(b, t)),
    ensures
        holds(f, Ask::Less32(a, t)),
{
    reveal(keeps_order);
    assert(number(f, a) && number(f, b) && number(f, t));
    if holds(f, Ask::LessEq32(t, a)) {
        assert(holds(f, Ask::LessEq32(t, b)));
    }
    assert(holds(f, Ask::LessEq32(t, b)) != holds(f, Ask::Less32(b, t)));
    assert(holds(f, Ask::LessEq32(t, a)) != holds(f, Ask::Less32(a, t)));
}

proof fn lemma_selected<F: Fn(Ask) -> u64>(f: F, thresholds: Seq<u32>, a: u32, b: u32, i: int)
    requires
        keeps_order(f),
        holds(f, Ask::LessEq32(a, b)),
        0 <= i <= thresholds.len(),
    ensures
        i <= selected(f, thresholds, a, i) <= selected(f, thresholds, b, i) <= thresholds.len(),
    decreases thresholds.len() - i,
{
    if i < thresholds.len() {
        lemma_selected(f, thresholds, a, b, i + 1);
        if holds(f, Ask::Less32(b, thresholds[i])) {
            lemma_less(f, a, b, thresholds[i]);
        }
    }
}

proof fn lemma_united_bounds<F: Fn(Ask) -> u64>(f: F, functions: Seq<Arc<Node>>, c: Column, lo: int, k: nat, m: int, v: u32)
    requires
        keeps_order(f),
        number(f, v),
        0 <= lo <= m <= lo + k < functions.len(),
        fits(f, column_bound(f, *functions[m], c), v),
    ensures
        fits(f, united_bounds(f, functions, c, lo, k), v),
    decreases k,
{
    reveal(column_bound);
    reveal_with_fuel(united_bounds, 2);
    if k > 0 {
        let a = united_bounds(f, functions, c, lo, (k - 1) as nat);
        let b = column_bound(f, inner(functions[lo + k]), c);
        if m < lo + k {
            lemma_united_bounds(f, functions, c, lo, (k - 1) as nat, m, v);
        }
        lemma_united(f, a, b, v);
        assert(united_bounds(f, functions, c, lo, k) == united(f, a, b));
    } else {
        assert(united_bounds(f, functions, c, lo, k) == column_bound(f, inner(functions[lo]), c));
    }
}

proof fn lemma_reflexive<F: Fn(Ask) -> u64>(f: F, v: u32)
    requires
        keeps_order(f),
        number(f, v),
    ensures
        fits(f, (v, v), v),
{
    reveal(keeps_order);
}

pub(crate) proof fn lemma_transitive<F: Fn(Ask) -> u64>(f: F, a: u32, b: u32, c: u32)
    requires
        keeps_order(f),
        holds(f, Ask::LessEq32(a, b)),
        holds(f, Ask::LessEq32(b, c)),
    ensures
        holds(f, Ask::LessEq32(a, c)),
{
    reveal(keeps_order);
}

/// Of two numbers one is smaller, or the other is not larger.
pub(crate) proof fn lemma_total<F: Fn(Ask) -> u64>(f: F, a: u32, b: u32)
    requires
        keeps_order(f),
    ensures
        number(f, a) && number(f, b) ==> holds(f, Ask::LessEq32(a, b)) != holds(f, Ask::Less32(b, a)),
        holds(f, Ask::LessEq32(a, b)) ==> number(f, a) && number(f, b),
        holds(f, Ask::Less32(b, a)) ==> number(f, a) && number(f, b),
{
    reveal(keeps_order);
}

/// A part's value is the same after another part was evaluated.
proof fn lemma_after<F: Fn(Ask) -> u64>(f: F, m: Node, n: Node, x: i32, y: i32, z: i32, inputs: Map<usize, Node>)
    requires
        agrees(m, inputs),
        agrees(n, inputs),
    ensures
        ({
            let q = evaluated(f, m, x, y, z, Mode::Point, blank()).1;
            &&& evaluated(f, n, x, y, z, Mode::Point, q).0 == value_at(f, n, x, y, z, blank())
            &&& truthful(f, q, inputs)
            &&& fresh(q) == blank()
        }),
{
    assert(truthful(f, blank(), inputs));
    law_cache_is_neutral(f, m, x, y, z, blank(), inputs);
    let q = evaluated(f, m, x, y, z, Mode::Point, blank()).1;
    law_cache_is_neutral(f, n, x, y, z, q, inputs);
    assert(fresh(blank()) == blank());
}

proof fn lemma_bound<F: Fn(Ask) -> u64>(f: F, n: Node, c: Column, y: i32, inputs: Map<usize, Node>)
    requires
        keeps_order(f),
        grows(f),
        flat_noises(f),
        sound(n),
        agrees(n, inputs),
        tame(f, n, c, y),
        c.y_lo <= y <= c.y_hi,
    ensures
        fits(f, column_bound(f, n, c), row_value(f, n, c, y)),
    decreases n, 1nat,
{
    reveal(gradient_keeps);
    reveal(column_bound);
    let v = row_value(f, n, c, y);
    lemma_anything(f, v);
    assert(fresh(blank()) == blank());
    if !reads_y(f, n) {
        law_flat_trees_have_one_value(f, n, Rows { x: c.x, z: c.z, a: y, b: c.y_ref }, inputs);
        lemma_reflexive(f, v);
    } else {
        match n {
            Node::Unary { .. } => lemma_unary(f, n, c, y, inputs),
            Node::Binary { .. } => lemma_binary(f, n, c, y, inputs),
            Node::Lerp { .. } => lemma_lerp(f, n, c, y, inputs),
            Node::RangeChoice { .. } => lemma_range(f, n, c, y, inputs),
            Node::IntervalSelect { .. } => lemma_select(f, n, c, y, inputs),
            Node::Cache { .. } => lemma_cache(f, n, c, y, inputs),
            Node::BlendDensity(i) => lemma_bound(f, inner(i), c, y, inputs),
            Node::Slice { .. } => lemma_slice(f, n, c, y, inputs),
            Node::Gradient { axis, tiling, from_coordinate, to_coordinate, from_value, factor } => {
                assert(axis is Y);
                assert(v == gradient_at(f, tiling, from_coordinate, to_coordinate, from_value, factor, y));
            },
            _ => {},
        }
    }
}

proof fn lemma_unary<F: Fn(Ask) -> u64>(f: F, n: Node, c: Column, y: i32, inputs: Map<usize, Node>)
    requires
        n is Unary,
        reads_y(f, n),
        keeps_order(f),
        grows(f),
        flat_noises(f),
        sound(n),
        agrees(n, inputs),
        tame(f, n, c, y),
        c.y_lo <= y <= c.y_hi,
    ensures
        fits(f, column_bound(f, n, c), row_value(f, n, c, y)),
    decreases n, 0nat,
{
    reveal(column_bound);
    if let Node::Unary { op, input } = n {
        lemma_bound(f, inner(input), c, y, inputs);
        assert(fresh(blank()) == blank());
        let v = row_value(f, inner(input), c, y);
        assert(number(f, v)) by {
            assert(tame(f, inner(input), c, y));
        }
        assert(row_value(f, n, c, y) == one(f, op, v));
        let b = column_bound(f, inner(input), c);
        assert(column_bound(f, n, c) == unary_bound(f, op, b));
        if !unary_holds(f, op, b) {
            law_plain_unary_holds(f, op, b);
        }
    }
}

proof fn lemma_cache<F: Fn(Ask) -> u64>(f: F, n: Node, c: Column, y: i32, inputs: Map<usize, Node>)
    requires
        n is Cache,
        reads_y(f, n),
        keeps_order(f),
        grows(f),
        flat_noises(f),
        sound(n),
        agrees(n, inputs),
        tame(f, n, c, y),
        c.y_lo <= y <= c.y_hi,
    ensures
        fits(f, column_bound(f, n, c), row_value(f, n, c, y)),
    decreases n, 0nat,
{
    reveal(column_bound);
    if let Node::Cache { id, cached } = n {
        lemma_bound(f, inner(cached), c, y, inputs);
        assert(fresh(blank()) == blank());
        assert(slab_value(blank().slabs, id, c.x as int, y as int, c.z as int) is None);
        assert(row_value(f, n, c, y) == row_value(f, inner(cached), c, y));
    }
}

proof fn lemma_slice<F: Fn(Ask) -> u64>(f: F, n: Node, c: Column, y: i32, inputs: Map<usize, Node>)
    requires
        n is Slice,
        reads_y(f, n),
        keeps_order(f),
        grows(f),
        flat_noises(f),
        sound(n),
        agrees(n, inputs),
        tame(f, n, c, y),
        c.y_lo <= y <= c.y_hi,
    ensures
        fits(f, column_bound(f, n, c), row_value(f, n, c, y)),
    decreases n, 0nat,
{
    reveal(column_bound);
    assert(fresh(blank()) == blank());
    if let Node::Slice { along, coordinate, whole } = n {
        match along {
            Axis::X => lemma_bound(f, inner(whole), Column { x: coordinate, ..c }, y, inputs),
            Axis::Z => lemma_bound(f, inner(whole), Column { z: coordinate, ..c }, y, inputs),
            Axis::Y => {},
        }
    }
}

proof fn lemma_binary_value<F: Fn(Ask) -> u64>(
    f: F, combine: Binary, left: Arc<Node>, right: Arc<Node>, c: Column, y: i32, inputs: Map<usize, Node>,
)
    requires
        agrees(*left, inputs),
        agrees(*right, inputs),
    ensures
        ({
            let n = Node::Binary { combine, left, right };
            let (a, b) = (row_value(f, *left, c, y), row_value(f, *right, c, y));
            row_value(f, n, c, y) == (if cut_short(f, combine, Mode::Point, a) { 0 } else { two(f, combine, a, b) })
        }),
{
    lemma_after(f, inner(left), inner(right), c.x, y, c.z, inputs);
    assert(fresh(blank()) == blank());
}

proof fn lemma_binary_bound<F: Fn(Ask) -> u64>(f: F, combine: Binary, left: Arc<Node>, right: Arc<Node>, c: Column)
    requires
        reads_y(f, Node::Binary { combine, left, right }),
    ensures
        column_bound(f, Node::Binary { combine, left, right }, c) == binary_bound(
            f, combine, column_bound(f, *left, c), column_bound(f, *right, c)),
{
    reveal(column_bound);
}

/// What an operation on two values gives stays within its bounds.
proof fn lemma_binary_fits<F: Fn(Ask) -> u64>(f: F, op: Binary, a: (u32, u32), b: (u32, u32), u: u32, v: u32, r: u32)
    requires
        keeps_order(f),
        grows(f),
        binary_fits(f, op, a, b),
        number(f, u),
        number(f, v),
        number(f, r),
        fits(f, a, u),
        fits(f, b, v),
        r == two(f, op, u, v) || (r == 0 && (op is Mul || op is Div) && holds(f, Ask::Equal32(u, 0))),
    ensures
        fits(f, binary_bound(f, op, a, b), r),
{
    if plain_binary(f, op, a, b) {
        law_plain_binary_holds(f, op, a, b);
        if r != two(f, op, u, v) {
            law_cut_products_hold(f, a, b, u, v);
        }
    }
}

proof fn lemma_binary<F: Fn(Ask) -> u64>(f: F, n: Node, c: Column, y: i32, inputs: Map<usize, Node>)
    requires
        n is Binary,
        reads_y(f, n),
        keeps_order(f),
        grows(f),
        flat_noises(f),
        sound(n),
        agrees(n, inputs),
        tame(f, n, c, y),
        c.y_lo <= y <= c.y_hi,
    ensures
        fits(f, column_bound(f, n, c), row_value(f, n, c, y)),
    decreases n, 0nat,
{
    if let Node::Binary { combine, left, right } = n {
        lemma_bound(f, inner(left), c, y, inputs);
        lemma_bound(f, inner(right), c, y, inputs);
        lemma_binary_value(f, combine, left, right, c, y, inputs);
        lemma_binary_bound(f, combine, left, right, c);
        assert(tame(f, inner(left), c, y) && tame(f, inner(right), c, y));
        lemma_binary_fits(
            f, combine, column_bound(f, inner(left), c), column_bound(f, inner(right), c), row_value(f, inner(left), c, y),
            row_value(f, inner(right), c, y), row_value(f, n, c, y));
    }
}

proof fn lemma_lerp<F: Fn(Ask) -> u64>(f: F, n: Node, c: Column, y: i32, inputs: Map<usize, Node>)
    requires
        n is Lerp,
        reads_y(f, n),
        keeps_order(f),
        grows(f),
        flat_noises(f),
        sound(n),
        agrees(n, inputs),
        tame(f, n, c, y),
        c.y_lo <= y <= c.y_hi,
    ensures
        fits(f, column_bound(f, n, c), row_value(f, n, c, y)),
    decreases n, 0nat,
{
    reveal(column_bound);
    if let Node::Lerp { alpha, first, second } = n {
        lemma_bound(f, inner(alpha), c, y, inputs);
        lemma_bound(f, inner(first), c, y, inputs);
        lemma_bound(f, inner(second), c, y, inputs);
        let (b, d, e) = (column_bound(f, inner(alpha), c), column_bound(f, inner(first), c), column_bound(f, inner(second), c));
        if plain_lerp(f, b, d, e) {
            law_plain_lerp_holds(f, b, d, e);
        }
        assert(fresh(blank()) == blank());
        let (t, u, v) = (row_value(f, inner(alpha), c, y), row_value(f, inner(first), c, y), row_value(f, inner(second), c, y));
        lemma_after(f, inner(alpha), inner(first), c.x, y, c.z, inputs);
        lemma_after(f, inner(alpha), inner(second), c.x, y, c.z, inputs);
        let q = evaluated(f, inner(alpha), c.x, y, c.z, Mode::Point, blank()).1;
        law_cache_is_neutral(f, inner(first), c.x, y, c.z, q, inputs);
        let r = evaluated(f, inner(first), c.x, y, c.z, Mode::Point, q).1;
        law_cache_is_neutral(f, inner(second), c.x, y, c.z, r, inputs);
        assert(fresh(r) == blank());
        assert(row_value(f, n, c, y) == blended(f, t, u, v));
        assert(column_bound(f, n, c) == lerp_bound(
            f, column_bound(f, inner(alpha), c), column_bound(f, inner(first), c), column_bound(f, inner(second), c)));
    }
}

/// A choice by a value between bounds: what it takes can be taken.
proof fn lemma_can<F: Fn(Ask) -> u64>(f: F, b: (u32, u32), v: u32, min: u32, max: u32)
    requires
        keeps_order(f),
        number(f, v),
        fits(f, b, v),
        !unsure(f, b),
    ensures
        ({
            let can_in = holds(f, Ask::LessEq32(min, b.1)) && holds(f, Ask::Less32(b.0, max));
            let can_out = holds(f, Ask::Less32(b.0, min)) || holds(f, Ask::LessEq32(max, b.1));
            if within(f, v, min, max) { can_in } else { can_in ==> can_out }
        }),
{
    if within(f, v, min, max) {
        lemma_less(f, b.0, v, max);
        lemma_transitive(f, min, v, b.1);
    } else if holds(f, Ask::LessEq32(min, b.1)) && holds(f, Ask::Less32(b.0, max)) {
        lemma_total(f, min, b.1);
        lemma_total(f, max, b.0);
        lemma_total(f, min, v);
        lemma_total(f, max, v);
        if !holds(f, Ask::LessEq32(min, v)) {
            lemma_less(f, b.0, v, min);
        } else {
            lemma_transitive(f, max, v, b.1);
        }
    }
}

/// The bounds of a choice hold whatever it can take.
proof fn lemma_range_bound<F: Fn(Ask) -> u64>(f: F, n: Node, c: Column, v: u32, value: u32)
    requires
        n is RangeChoice,
        reads_y(f, n),
        keeps_order(f),
        number(f, v),
        number(f, value),
        fits(f, column_bound(f, *n->choice, c), v),
        fits(
            f,
            if within(f, v, n->min_inclusive, n->max_exclusive) {
                column_bound(f, *n->when_in_range, c)
            } else {
                column_bound(f, *n->when_out_of_range, c)
            },
            value,
        ),
    ensures
        fits(f, column_bound(f, n, c), value),
{
    lemma_anything(f, value);
    let b = column_bound(f, inner(n->choice), c);
    let (p, q) = (column_bound(f, inner(n->when_in_range), c), column_bound(f, inner(n->when_out_of_range), c));
    lemma_united(f, p, q, value);
    if !unsure(f, b) {
        lemma_can(f, b, v, n->min_inclusive, n->max_exclusive);
    }
    reveal(column_bound);
}

proof fn lemma_range<F: Fn(Ask) -> u64>(f: F, n: Node, c: Column, y: i32, inputs: Map<usize, Node>)
    requires
        n is RangeChoice,
        reads_y(f, n),
        keeps_order(f),
        grows(f),
        flat_noises(f),
        sound(n),
        agrees(n, inputs),
        tame(f, n, c, y),
        c.y_lo <= y <= c.y_hi,
    ensures
        fits(f, column_bound(f, n, c), row_value(f, n, c, y)),
    decreases n, 0nat,
{
    if let Node::RangeChoice { choice, min_inclusive, max_exclusive, when_in_range, when_out_of_range } = n {
        lemma_bound(f, inner(choice), c, y, inputs);
        assert(fresh(blank()) == blank());
        let v = row_value(f, inner(choice), c, y);
        let value = row_value(f, n, c, y);
        assert(tame(f, inner(choice), c, y));
        if within(f, v, min_inclusive, max_exclusive) {
            lemma_bound(f, inner(when_in_range), c, y, inputs);
            lemma_after(f, inner(choice), inner(when_in_range), c.x, y, c.z, inputs);
            assert(value == row_value(f, inner(when_in_range), c, y));
        } else {
            lemma_bound(f, inner(when_out_of_range), c, y, inputs);
            lemma_after(f, inner(choice), inner(when_out_of_range), c.x, y, c.z, inputs);
            assert(value == row_value(f, inner(when_out_of_range), c, y));
        }
        lemma_range_bound(f, n, c, v, value);
    }
}

proof fn lemma_select<F: Fn(Ask) -> u64>(f: F, n: Node, c: Column, y: i32, inputs: Map<usize, Node>)
    requires
        n is IntervalSelect,
        reads_y(f, n),
        keeps_order(f),
        grows(f),
        flat_noises(f),
        sound(n),
        agrees(n, inputs),
        tame(f, n, c, y),
        c.y_lo <= y <= c.y_hi,
    ensures
        fits(f, column_bound(f, n, c), row_value(f, n, c, y)),
    decreases n, 0nat,
{
    reveal(column_bound);
    if let Node::IntervalSelect { selector, thresholds, functions } = n {
        lemma_bound(f, inner(selector), c, y, inputs);
        assert(fresh(blank()) == blank());
        let v = row_value(f, inner(selector), c, y);
        let b = column_bound(f, inner(selector), c);
        let value = row_value(f, n, c, y);
        lemma_anything(f, value);
        if !unsure(f, b) {
            lemma_selected(f, thresholds@, b.0, v, 0);
            lemma_selected(f, thresholds@, v, b.1, 0);
            let k = selected(f, thresholds@, v, 0);
            let (lo, hi) = (selected(f, thresholds@, b.0, 0), selected(f, thresholds@, b.1, 0));
            assert(sound(*functions@[k]) && agrees(*functions@[k], inputs));
            assert(tame(f, *functions@[k], c, y));
            lemma_bound(f, inner(functions@[k]), c, y, inputs);
            lemma_after(f, inner(selector), inner(functions@[k]), c.x, y, c.z, inputs);
            assert(value == row_value(f, inner(functions@[k]), c, y));
            lemma_united_bounds(f, functions@, c, lo, (hi - lo) as nat, k, value);
        }
    }
}

/// The bounds of a tree over the rows of a column hold its value at each of
/// them, where the elementary answers keep order and grow, noises that are
/// scaled by zero along y have one value, and every part of the tree is a
/// number within its bounds.
pub proof fn law_bounds_hold_the_values<F: Fn(Ask) -> u64>(f: F, n: Node, c: Column, y: i32, inputs: Map<usize, Node>)
    requires
        keeps_order(f),
        grows(f),
        flat_noises(f),
        sound(n),
        agrees(n, inputs),
        tame(f, n, c, y),
        c.y_lo <= y <= c.y_hi,
    ensures
        fits(f, column_bound(f, n, c), row_value(f, n, c, y)),
{
    lemma_bound(f, n, c, y, inputs);
}

/// The same of the volume path: every part of a tree is a number there and
/// within its bounds, and a part that does not read y has at the reference
/// row the number that the point path has.
pub open spec fn tame_in_volume<F: Fn(Ask) -> u64>(f: F, n: Node, c: Column, y: i32) -> bool
    decreases n,
{
    let v = worth(f, n, c.x, y, c.z);
    &&& number(f, v)
    &&& !reads_y(f, n) ==> level(f, row_value(f, n, c, c.y_ref), worth(f, n, c.x, c.y_ref, c.z))
    &&& reads_y(f, n) ==> match n {
        Node::Unary { op, input } => unary_fits(f, op, column_bound(f, *input, c)) && tame_in_volume(f, *input, c, y),
        Node::Binary { combine, left, right } => {
            &&& binary_fits(f, combine, column_bound(f, *left, c), column_bound(f, *right, c))
            &&& tame_in_volume(f, *left, c, y)
            &&& tame_in_volume(f, *right, c, y)
        },
        Node::Gradient { tiling, from_coordinate, to_coordinate, from_value, factor, .. } => gradient_keeps(
            f, tiling, from_coordinate, to_coordinate, from_value, factor),
        Node::Noise { stack, .. } => fits(f, noise_bound(f, stack), v),
        Node::Lerp { alpha, first, second } => {
            &&& lerp_fits(f, column_bound(f, *alpha, c), column_bound(f, *first, c), column_bound(f, *second, c))
            &&& tame_in_volume(f, *alpha, c, y)
            &&& tame_in_volume(f, *first, c, y)
            &&& tame_in_volume(f, *second, c, y)
        },
        Node::RangeChoice { choice, min_inclusive, max_exclusive, when_in_range, when_out_of_range } => tame_in_volume(f, *choice, c, y)
            && (if within(f, worth(f, *choice, c.x, y, c.z), min_inclusive, max_exclusive) {
            tame_in_volume(f, *when_in_range, c, y)
        } else {
            tame_in_volume(f, *when_out_of_range, c, y)
        }),
        Node::IntervalSelect { selector, thresholds, functions } => {
            let k = selected(f, thresholds@, worth(f, *selector, c.x, y, c.z), 0);
            tame_in_volume(f, *selector, c, y) && (0 <= k < functions@.len() ==> tame_in_volume(f, *functions@[k], c, y))
        },
        Node::Cache { cached, .. } => tame_in_volume(f, *cached, c, y),
        Node::BlendDensity(i) => tame_in_volume(f, *i, c, y),
        Node::Slice { along, coordinate, whole } => match along {
            Axis::X => tame_in_volume(f, *whole, Column { x: coordinate, ..c }, y),
            Axis::Z => tame_in_volume(f, *whole, Column { z: coordinate, ..c }, y),
            Axis::Y => true,
        },
        _ => true,
    }
}

proof fn lemma_volume_bound<F: Fn(Ask) -> u64>(f: F, n: Node, c: Column, y: i32)
    requires
        keeps_order(f),
        grows(f),
        flat_noises(f),
        by_block(f, n),
        tame_in_volume(f, n, c, y),
        c.y_lo <= y <= c.y_hi,
    ensures
        fits(f, column_bound(f, n, c), worth(f, n, c.x, y, c.z)),
    decreases n, 1nat,
{
    let v = worth(f, n, c.x, y, c.z);
    lemma_anything(f, v);
    if !reads_y(f, n) {
        law_flat_trees_have_one_worth(f, n, c.x, y, c.y_ref, c.z);
        let p = row_value(f, n, c, c.y_ref);
        lemma_total(f, p, v);
        reveal(column_bound);
        assert(column_bound(f, n, c) == (p, p));
    } else {
        match n {
            Node::Unary { op, input } => {
                lemma_volume_bound(f, inner(input), c, y);
                let b = column_bound(f, inner(input), c);
                assert(number(f, worth(f, inner(input), c.x, y, c.z))) by {
                    assert(tame_in_volume(f, inner(input), c, y));
                }
                lemma_unary_bound(f, op, input, c);
                if !unary_holds(f, op, b) {
                    law_plain_unary_holds(f, op, b);
                }
                assert(v == one(f, op, worth(f, inner(input), c.x, y, c.z)));
            },
            Node::Binary { combine, left, right } => {
                lemma_volume_bound(f, inner(left), c, y);
                lemma_volume_bound(f, inner(right), c, y);
                lemma_binary_bound(f, combine, left, right, c);
                assert(tame_in_volume(f, inner(left), c, y) && tame_in_volume(f, inner(right), c, y));
                lemma_binary_fits(
                    f, combine, column_bound(f, inner(left), c), column_bound(f, inner(right), c),
                    worth(f, inner(left), c.x, y, c.z), worth(f, inner(right), c.x, y, c.z), v);
            },
            Node::Lerp { .. } => lemma_volume_lerp(f, n, c, y),
            Node::RangeChoice { .. } => lemma_volume_range(f, n, c, y),
            Node::IntervalSelect { .. } => lemma_volume_select(f, n, c, y),
            Node::Gradient { .. } => lemma_volume_leaf(f, n, c, y),
            Node::Noise { .. } => lemma_volume_leaf(f, n, c, y),
            Node::Cache { cached, .. } => {
                lemma_volume_bound(f, inner(cached), c, y);
                reveal(column_bound);
            },
            Node::BlendDensity(i) => {
                lemma_volume_bound(f, inner(i), c, y);
                reveal(column_bound);
            },
            Node::Slice { .. } => lemma_volume_slice(f, n, c, y),
            _ => {
                reveal(column_bound);
            },
        }
    }
}

proof fn lemma_unary_bound<F: Fn(Ask) -> u64>(f: F, op: Unary, input: Arc<Node>, c: Column)
    requires
        reads_y(f, Node::Unary { op, input }),
    ensures
        column_bound(f, Node::Unary { op, input }, c) == unary_bound(f, op, column_bound(f, *input, c)),
{
    reveal(column_bound);
}

proof fn lemma_volume_leaf<F: Fn(Ask) -> u64>(f: F, n: Node, c: Column, y: i32)
    requires
        n is Gradient || n is Noise,
        reads_y(f, n),
        tame_in_volume(f, n, c, y),
        c.y_lo <= y <= c.y_hi,
    ensures
        fits(f, column_bound(f, n, c), worth(f, n, c.x, y, c.z)),
{
    reveal(column_bound);
    reveal(gradient_keeps);
    if let Node::Gradient { axis, tiling, from_coordinate, to_coordinate, from_value, factor } = n {
        assert(axis is Y);
        assert(worth(f, n, c.x, y, c.z) == gradient_at(f, tiling, from_coordinate, to_coordinate, from_value, factor, y));
    }
}

proof fn lemma_volume_slice<F: Fn(Ask) -> u64>(f: F, n: Node, c: Column, y: i32)
    requires
        n is Slice,
        reads_y(f, n),
        keeps_order(f),
        grows(f),
        flat_noises(f),
        by_block(f, n),
        tame_in_volume(f, n, c, y),
        c.y_lo <= y <= c.y_hi,
    ensures
        fits(f, column_bound(f, n, c), worth(f, n, c.x, y, c.z)),
    decreases n, 0nat,
{
    if let Node::Slice { along, coordinate, whole } = n {
        match along {
            Axis::X => lemma_volume_bound(f, inner(whole), Column { x: coordinate, ..c }, y),
            Axis::Z => lemma_volume_bound(f, inner(whole), Column { z: coordinate, ..c }, y),
            Axis::Y => {},
        }
    }
    reveal(column_bound);
}

proof fn lemma_volume_lerp<F: Fn(Ask) -> u64>(f: F, n: Node, c: Column, y: i32)
    requires
        n is Lerp,
        reads_y(f, n),
        keeps_order(f),
        grows(f),
        flat_noises(f),
        by_block(f, n),
        tame_in_volume(f, n, c, y),
        c.y_lo <= y <= c.y_hi,
    ensures
        fits(f, column_bound(f, n, c), worth(f, n, c.x, y, c.z)),
    decreases n, 0nat,
{
    if let Node::Lerp { alpha, first, second } = n {
        lemma_volume_bound(f, inner(alpha), c, y);
        lemma_volume_bound(f, inner(first), c, y);
        lemma_volume_bound(f, inner(second), c, y);
        let (p, q, r) = (column_bound(f, inner(alpha), c), column_bound(f, inner(first), c), column_bound(f, inner(second), c));
        if plain_lerp(f, p, q, r) {
            law_plain_lerp_holds(f, p, q, r);
        }
        let (t, u, v) = (
            worth(f, inner(alpha), c.x, y, c.z), worth(f, inner(first), c.x, y, c.z), worth(f, inner(second), c.x, y, c.z));
        assert(worth(f, n, c.x, y, c.z) == blended(f, t, u, v));
    }
    reveal(column_bound);
}

proof fn lemma_volume_range<F: Fn(Ask) -> u64>(f: F, n: Node, c: Column, y: i32)
    requires
        n is RangeChoice,
        reads_y(f, n),
        keeps_order(f),
        grows(f),
        flat_noises(f),
        by_block(f, n),
        tame_in_volume(f, n, c, y),
        c.y_lo <= y <= c.y_hi,
    ensures
        fits(f, column_bound(f, n, c), worth(f, n, c.x, y, c.z)),
    decreases n, 0nat,
{
    if let Node::RangeChoice { choice, min_inclusive, max_exclusive, when_in_range, when_out_of_range } = n {
        lemma_volume_bound(f, inner(choice), c, y);
        let v = worth(f, inner(choice), c.x, y, c.z);
        assert(tame_in_volume(f, inner(choice), c, y));
        if within(f, v, min_inclusive, max_exclusive) {
            lemma_volume_bound(f, inner(when_in_range), c, y);
        } else {
            lemma_volume_bound(f, inner(when_out_of_range), c, y);
        }
        lemma_range_bound(f, n, c, v, worth(f, n, c.x, y, c.z));
    }
}

proof fn lemma_volume_select<F: Fn(Ask) -> u64>(f: F, n: Node, c: Column, y: i32)
    requires
        n is IntervalSelect,
        reads_y(f, n),
        keeps_order(f),
        grows(f),
        flat_noises(f),
        by_block(f, n),
        tame_in_volume(f, n, c, y),
        c.y_lo <= y <= c.y_hi,
    ensures
        fits(f, column_bound(f, n, c), worth(f, n, c.x, y, c.z)),
    decreases n, 0nat,
{
    if let Node::IntervalSelect { selector, thresholds, functions } = n {
        lemma_volume_bound(f, inner(selector), c, y);
        let v = worth(f, inner(selector), c.x, y, c.z);
        let b = column_bound(f, inner(selector), c);
        let value = worth(f, n, c.x, y, c.z);
        lemma_anything(f, value);
        if !unsure(f, b) {
            lemma_selected(f, thresholds@, b.0, v, 0);
            lemma_selected(f, thresholds@, v, b.1, 0);
            let k = selected(f, thresholds@, v, 0);
            let (lo, hi) = (selected(f, thresholds@, b.0, 0), selected(f, thresholds@, b.1, 0));
            assert(by_block(f, *functions@[k]));
            assert(tame_in_volume(f, *functions@[k], c, y));
            lemma_volume_bound(f, inner(functions@[k]), c, y);
            lemma_united_bounds(f, functions@, c, lo, (hi - lo) as nat, k, value);
        }
    }
    reveal(column_bound);
}

/// The bounds of a tree that goes by blocks hold what its volume path gives
/// at each row too.
pub proof fn law_bounds_hold_the_volume<F: Fn(Ask) -> u64>(
    f: F, n: Node, c: Column, v: Lattice, kept: Seq<Slab>, i: int, inputs: Map<usize, Node>,
)
    requires
        keeps_order(f),
        grows(f),
        flat_noises(f),
        by_block(f, n),
        sound(n),
        agrees(n, inputs),
        proper(v),
        honest(f, kept, inputs),
        0 <= i < v.count(),
        (c.x, c.z) == (v.at_x(i), v.at_z(i)),
        c.y_lo <= v.at_y(i) <= c.y_hi,
        tame_in_volume(f, n, c, v.at_y(i)),
    ensures
        fits(f, column_bound(f, n, c), sampled(f, n, v, kept).0[i]),
{
    law_volumes_hold_block_values(f, n, v, kept, i, inputs);
    lemma_volume_bound(f, n, c, v.at_y(i));
}

} // verus!
