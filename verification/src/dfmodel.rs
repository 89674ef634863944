//! Density functions as values: what a tree of nodes stands for.

use std::sync::Arc;
use vstd::prelude::*;
use crate::df26::{Axis, Binary, Metric, Node, Spline, Tiling, Unary};
use crate::dfcache::{agrees, agrees_spline, inner};

verus! {

/// A spline as a value.
pub ghost enum Knots {
    Constant(u32),
    Multipoint { key: usize, coordinate: Box<Func>, locations: Seq<u32>, values: Seq<Knots>, derivatives: Seq<u32> },
}

/// A density function as a value.
pub ghost enum Func {
    Constant(u32),
    Unary { op: Unary, input: Box<Func> },
    Binary { combine: Binary, left: Box<Func>, right: Box<Func> },
    Noise {
        stack: usize,
        xz_scale: u64,
        y_scale: u64,
        shift_x: Option<Box<Func>>,
        shift_y: Option<Box<Func>>,
        shift_z: Option<Box<Func>>,
    },
    ShiftB(usize),
    Gradient { axis: Axis, tiling: Tiling, from_coordinate: i32, to_coordinate: i32, from_value: u32, factor: u32 },
    Lerp { alpha: Box<Func>, first: Box<Func>, second: Box<Func> },
    RangeChoice {
        choice: Box<Func>,
        min_inclusive: u32,
        max_exclusive: u32,
        when_in_range: Box<Func>,
        when_out_of_range: Box<Func>,
    },
    IntervalSelect { selector: Box<Func>, thresholds: Seq<u32>, functions: Seq<Func> },
    Cache { id: usize, cached: Box<Func> },
    BlendDensity(Box<Func>),
    BlendAlpha,
    BlendOffset,
    Beardifier,
    Interpolated { cell_size_xz: i32, cell_size_y: i32, corners: Box<Func> },
    Slice { along: Axis, coordinate: i32, whole: Box<Func> },
    FindTopSurface { density: Box<Func>, upper_bound: Box<Func>, lower_bound: i32, cell_height: i32 },
    DistanceToPoint { metric: Metric, x: i32, y: i32, z: i32 },
    Spline(Knots),
}

/// The function of a shift that may be nothing.
pub open spec fn maybe_func(n: Option<Arc<Node>>) -> Option<Box<Func>>
    decreases n, 0nat,
{
    match n {
        Some(n) => Some(Box::new(func_of(*n))),
        None => None,
    }
}

/// The function that a node stands for.
pub open spec fn func_of(n: Node) -> Func
    decreases n, 0nat,
{
    match n {
        Node::Constant(c) => Func::Constant(c),
        Node::Unary { op, input } => Func::Unary { op, input: Box::new(func_of(*input)) },
        Node::Binary { combine, left, right } => Func::Binary {
            combine,
            left: Box::new(func_of(*left)),
            right: Box::new(func_of(*right)),
        },
        Node::Noise { stack, xz_scale, y_scale, shift_x, shift_y, shift_z } => Func::Noise {
            stack,
            xz_scale,
            y_scale,
            shift_x: maybe_func(shift_x),
            shift_y: maybe_func(shift_y),
            shift_z: maybe_func(shift_z),
        },
        Node::ShiftB(s) => Func::ShiftB(s),
        Node::Gradient { axis, tiling, from_coordinate, to_coordinate, from_value, factor } => Func::Gradient {
            axis,
            tiling,
            from_coordinate,
            to_coordinate,
            from_value,
            factor,
        },
        Node::Lerp { alpha, first, second } => Func::Lerp {
            alpha: Box::new(func_of(*alpha)),
            first: Box::new(func_of(*first)),
            second: Box::new(func_of(*second)),
        },
        Node::RangeChoice { choice, min_inclusive, max_exclusive, when_in_range, when_out_of_range } => Func::RangeChoice {
            choice: Box::new(func_of(*choice)),
            min_inclusive,
            max_exclusive,
            when_in_range: Box::new(func_of(*when_in_range)),
            when_out_of_range: Box::new(func_of(*when_out_of_range)),
        },
        Node::IntervalSelect { selector, thresholds, functions } => Func::IntervalSelect {
            selector: Box::new(func_of(*selector)),
            thresholds: thresholds@,
            functions: funcs_of(functions@, functions@.len()),
        },
        Node::Cache { id, cached } => Func::Cache { id, cached: Box::new(func_of(*cached)) },
        Node::BlendDensity(i) => Func::BlendDensity(Box::new(func_of(*i))),
        Node::BlendAlpha => Func::BlendAlpha,
        Node::BlendOffset => Func::BlendOffset,
        Node::Beardifier => Func::Beardifier,
        Node::Interpolated { cell_size_xz, cell_size_y, corners } => Func::Interpolated {
            cell_size_xz,
            cell_size_y,
            corners: Box::new(func_of(*corners)),
        },
        Node::Slice { along, coordinate, whole } => Func::Slice { along, coordinate, whole: Box::new(func_of(*whole)) },
        Node::FindTopSurface { density, upper_bound, lower_bound, cell_height } => Func::FindTopSurface {
            density: Box::new(func_of(*density)),
            upper_bound: Box::new(func_of(*upper_bound)),
            lower_bound,
            cell_height,
        },
        Node::DistanceToPoint { metric, x, y, z } => Func::DistanceToPoint { metric, x, y, z },
        Node::Spline(sp) => Func::Spline(knots_of(sp)),
    }
}

/// The functions of the first `n` nodes.
pub open spec fn funcs_of(s: Seq<Arc<Node>>, n: nat) -> Seq<Func>
    decreases s, n,
{
    if n == 0 || n > s.len() { Seq::empty() } else { funcs_of(s, (n - 1) as nat).push(func_of(*s[n - 1])) }
}

/// The value of a spline.
pub open spec fn knots_of(sp: Spline) -> Knots
    decreases sp, 0nat,
{
    match sp {
        Spline::Constant(c) => Knots::Constant(c),
        Spline::Multipoint { key, coordinate, locations, values, derivatives } => Knots::Multipoint {
            key,
            coordinate: Box::new(func_of(*coordinate)),
            locations: locations@,
            values: all_knots_of(values@, values@.len()),
            derivatives: derivatives@,
        },
    }
}

/// The values of the first `n` splines.
pub open spec fn all_knots_of(s: Seq<Spline>, n: nat) -> Seq<Knots>
    decreases s, n,
{
    if n == 0 || n > s.len() { Seq::empty() } else { all_knots_of(s, (n - 1) as nat).push(knots_of(s[n - 1])) }
}

/// There are as many functions as nodes.
pub proof fn lemma_funcs(s: Seq<Arc<Node>>, n: nat)
    requires
        n <= s.len(),
    ensures
        funcs_of(s, n).len() == n,
        forall|i: int| 0 <= i < n ==> #[trigger] funcs_of(s, n)[i] == func_of(*s[i]),
    decreases n,
{
    if n > 0 {
        lemma_funcs(s, (n - 1) as nat);
    }
}

/// There are as many values as splines.
pub proof fn lemma_all_knots(s: Seq<Spline>, n: nat)
    requires
        n <= s.len(),
    ensures
        all_knots_of(s, n).len() == n,
        forall|i: int| 0 <= i < n ==> #[trigger] all_knots_of(s, n)[i] == knots_of(s[i]),
    decreases n,
{
    if n > 0 {
        lemma_all_knots(s, (n - 1) as nat);
    }
}

/// The second map has everything of the first.
pub open spec fn extends(a: Map<usize, Node>, b: Map<usize, Node>) -> bool {
    forall|k: usize| #[trigger] a.contains_key(k) ==> b.contains_key(k) && a[k] == b[k]
}

/// A tree that agrees with some inputs agrees with more of them.
pub proof fn lemma_agrees_grows(n: Node, a: Map<usize, Node>, b: Map<usize, Node>)
    requires
        agrees(n, a),
        extends(a, b),
    ensures
        agrees(n, b),
    decreases n, 1nat,
{
    match n {
        Node::Unary { input, .. } => lemma_agrees_grows(inner(input), a, b),
        Node::Binary { left, right, .. } => {
            lemma_agrees_grows(inner(left), a, b);
            lemma_agrees_grows(inner(right), a, b);
        },
        Node::Noise { shift_x, shift_y, shift_z, .. } => {
            match shift_x {
                Some(c) => lemma_agrees_grows(inner(c), a, b),
                None => {},
            }
            match shift_y {
                Some(c) => lemma_agrees_grows(inner(c), a, b),
                None => {},
            }
            match shift_z {
                Some(c) => lemma_agrees_grows(inner(c), a, b),
                None => {},
            }
        },
        Node::Lerp { alpha, first, second } => {
            lemma_agrees_grows(inner(alpha), a, b);
            lemma_agrees_grows(inner(first), a, b);
            lemma_agrees_grows(inner(second), a, b);
        },
        Node::RangeChoice { choice, when_in_range, when_out_of_range, .. } => {
            lemma_agrees_grows(inner(choice), a, b);
            lemma_agrees_grows(inner(when_in_range), a, b);
            lemma_agrees_grows(inner(when_out_of_range), a, b);
        },
        Node::IntervalSelect { selector, functions, .. } => {
            lemma_agrees_grows(inner(selector), a, b);
            assert forall|i: int| 0 <= i < functions@.len() implies agrees(*#[trigger] functions@[i], b) by {
                lemma_agrees_grows(inner(functions@[i]), a, b);
            }
        },
        Node::Cache { id, cached } => {
            assert(a.contains_key(id));
            lemma_agrees_grows(inner(cached), a, b);
        },
        Node::BlendDensity(i) => lemma_agrees_grows(inner(i), a, b),
        Node::Interpolated { corners, .. } => lemma_agrees_grows(inner(corners), a, b),
        Node::Slice { whole, .. } => lemma_agrees_grows(inner(whole), a, b),
        Node::FindTopSurface { density, upper_bound, .. } => {
            lemma_agrees_grows(inner(density), a, b);
            lemma_agrees_grows(inner(upper_bound), a, b);
        },
        Node::Spline(sp) => lemma_agrees_spline_grows(sp, a, b),
        _ => {},
    }
}

pub proof fn lemma_agrees_spline_grows(sp: Spline, a: Map<usize, Node>, b: Map<usize, Node>)
    requires
        agrees_spline(sp, a),
        extends(a, b),
    ensures
        agrees_spline(sp, b),
    decreases sp, 1nat,
{
    match sp {
        Spline::Constant(_) => {},
        Spline::Multipoint { coordinate, values, .. } => {
            lemma_agrees_grows(inner(coordinate), a, b);
            assert forall|i: int| 0 <= i < values@.len() implies agrees_spline(#[trigger] values@[i], b) by {
                lemma_agrees_spline_grows(values@[i], a, b);
            }
        },
    }
}

} // verus!
