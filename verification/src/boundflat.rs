//! What does not read y has one value over a column of rows.

use std::sync::Arc;
use vstd::prelude::*;
use crate::arith::{holds, low, reply, Ask, ZERO};
use crate::bounds26::{blank, reads_y, spline_reads_y};
use crate::df26::{evaluated, noise_in, selected, shifted, spline_evaluated, Axis, Mode, Node, Points, Spline};
use crate::dfcache::{agrees, agrees_spline, fresh, inner, law_cache_is_neutral, lemma_spline, truthful, value_at};
use crate::dfparts::{by_block, curve, curve_by_block, worth};

verus! {

/// A noise's answer, its middle coordinate given.
pub open spec fn stack_at<F: Fn(Ask) -> u64>(f: F, stack: usize, x: u64, y: u64, z: u64) -> u32 {
    low(f, Ask::Stack { stack, x, y, z })
}

/// A scaled coordinate.
pub open spec fn scaled<F: Fn(Ask) -> u64>(f: F, c: i32, scale: u64) -> u64 {
    reply(f, Ask::Mul64(reply(f, Ask::FromInt64(c)), scale))
}

/// Noises that are scaled by zero along y have one value over a column, along
/// every path.
#[verifier::opaque]
pub open spec fn flat_noises<F: Fn(Ask) -> u64>(f: F) -> bool {
    &&& forall|stack: usize, x: u64, z: u64, ys: u64, y: i32, b: i32|
        #![trigger stack_at(f, stack, x, scaled(f, y, ys), z), stack_at(f, stack, x, scaled(f, b, ys), z)]
        holds(f, Ask::Equal64(ys, ZERO)) ==> stack_at(f, stack, x, scaled(f, y, ys), z) == stack_at(f, stack, x, scaled(f, b, ys), z)
    &&& forall|stack: usize, x: u64, z: u64, ys: u64, y: i32, b: i32, s: u32|
        #![trigger stack_at(f, stack, x, shifted(f, y, ys, s), z), stack_at(f, stack, x, shifted(f, b, ys, s), z)]
        holds(f, Ask::Equal64(ys, ZERO)) ==> stack_at(f, stack, x, shifted(f, y, ys, s), z) == stack_at(
            f, stack, x, shifted(f, b, ys, s), z)
    &&& forall|stack: usize, xz: u64, ys: u64, a: u32, x: i32, y: i32, b: i32, z: i32|
        #![trigger noise_in(f, stack, xz, ys, a, x, y, z), noise_in(f, stack, xz, ys, a, x, b, z)]
        holds(f, Ask::Equal64(ys, ZERO)) ==> noise_in(f, stack, xz, ys, a, x, y, z) == noise_in(f, stack, xz, ys, a, x, b, z)
}

/// A tree's value at a block.
pub open spec fn point<F: Fn(Ask) -> u64>(f: F, n: Node, x: i32, y: i32, z: i32) -> u32 {
    value_at(f, n, x, y, z, blank())
}

/// A spline's value at a block.
pub open spec fn spline_point<F: Fn(Ask) -> u64>(f: F, sp: Spline, x: i32, y: i32, z: i32) -> u32 {
    spline_evaluated(f, sp, x, y, z, Mode::Point, blank()).0
}

/// A cache that is right and covers no volume.
spec fn plain<F: Fn(Ask) -> u64>(f: F, q: Points, inputs: Map<usize, Node>) -> bool {
    truthful(f, q, inputs) && fresh(q) == blank()
}

/// Evaluation from any such cache gives the value, and leaves such a cache.
proof fn lemma_step<F: Fn(Ask) -> u64>(f: F, n: Node, x: i32, y: i32, z: i32, q: Points, inputs: Map<usize, Node>)
    requires
        agrees(n, inputs),
        plain(f, q, inputs),
    ensures
        evaluated(f, n, x, y, z, Mode::Point, q).0 == point(f, n, x, y, z),
        plain(f, evaluated(f, n, x, y, z, Mode::Point, q).1, inputs),
{
    law_cache_is_neutral(f, n, x, y, z, q, inputs);
    assert(fresh(blank()) == blank());
}

proof fn lemma_blank<F: Fn(Ask) -> u64>(f: F, inputs: Map<usize, Node>)
    ensures
        plain(f, blank(), inputs),
{
}

proof fn lemma_spline_step<F: Fn(Ask) -> u64>(f: F, sp: Spline, x: i32, y: i32, z: i32, q: Points, inputs: Map<usize, Node>)
    requires
        agrees_spline(sp, inputs),
        plain(f, q, inputs),
    ensures
        spline_evaluated(f, sp, x, y, z, Mode::Point, q).0 == spline_point(f, sp, x, y, z),
        plain(f, spline_evaluated(f, sp, x, y, z, Mode::Point, q).1, inputs),
{
    lemma_spline(f, sp, x, y, z, q, blank(), inputs);
}

/// Two rows of a column.
pub ghost struct Rows {
    pub x: i32,
    pub z: i32,
    pub a: i32,
    pub b: i32,
}

spec fn same<F: Fn(Ask) -> u64>(f: F, n: Node, r: Rows) -> bool {
    point(f, n, r.x, r.a, r.z) == point(f, n, r.x, r.b, r.z)
}

proof fn lemma_flat<F: Fn(Ask) -> u64>(f: F, n: Node, r: Rows, inputs: Map<usize, Node>)
    requires
        flat_noises(f),
        agrees(n, inputs),
        !reads_y(f, n),
    ensures
        same(f, n, r),
    decreases n, 1nat,
{
    assert(fresh(blank()) == blank());
    match n {
        Node::Unary { input, .. } => lemma_flat(f, inner(input), r, inputs),
        Node::Binary { left, right, .. } => {
            lemma_flat(f, inner(left), r, inputs);
            lemma_flat(f, inner(right), r, inputs);
            lemma_pair(f, inner(left), inner(right), r, inputs);
        },
        Node::Noise { .. } => lemma_flat_noise(f, n, r, inputs),
        Node::Lerp { .. } => lemma_flat_lerp(f, n, r, inputs),
        Node::RangeChoice { choice, when_in_range, when_out_of_range, .. } => {
            lemma_flat(f, inner(choice), r, inputs);
            lemma_flat(f, inner(when_in_range), r, inputs);
            lemma_flat(f, inner(when_out_of_range), r, inputs);
            lemma_pair(f, inner(choice), inner(when_in_range), r, inputs);
            lemma_pair(f, inner(choice), inner(when_out_of_range), r, inputs);
        },
        Node::IntervalSelect { .. } => lemma_flat_select(f, n, r, inputs),
        Node::Cache { cached, .. } => lemma_flat(f, inner(cached), r, inputs),
        Node::BlendDensity(i) => lemma_flat(f, inner(i), r, inputs),
        Node::Slice { along, coordinate, whole } => match along {
            Axis::X => lemma_flat(f, inner(whole), Rows { x: coordinate, ..r }, inputs),
            Axis::Z => lemma_flat(f, inner(whole), Rows { z: coordinate, ..r }, inputs),
            Axis::Y => {},
        },
        Node::Spline(sp) => lemma_flat_spline(f, sp, r, inputs),
        _ => {},
    }
}

/// A second part is evaluated, at either row, as by itself.
proof fn lemma_pair<F: Fn(Ask) -> u64>(f: F, m: Node, n: Node, r: Rows, inputs: Map<usize, Node>)
    requires
        agrees(m, inputs),
        agrees(n, inputs),
    ensures
        ({
            let q = evaluated(f, m, r.x, r.a, r.z, Mode::Point, blank()).1;
            evaluated(f, n, r.x, r.a, r.z, Mode::Point, q).0 == point(f, n, r.x, r.a, r.z)
        }),
        ({
            let q = evaluated(f, m, r.x, r.b, r.z, Mode::Point, blank()).1;
            evaluated(f, n, r.x, r.b, r.z, Mode::Point, q).0 == point(f, n, r.x, r.b, r.z)
        }),
{
    lemma_blank(f, inputs);
    lemma_step(f, m, r.x, r.a, r.z, blank(), inputs);
    lemma_step(f, m, r.x, r.b, r.z, blank(), inputs);
    lemma_step(f, n, r.x, r.a, r.z, evaluated(f, m, r.x, r.a, r.z, Mode::Point, blank()).1, inputs);
    lemma_step(f, n, r.x, r.b, r.z, evaluated(f, m, r.x, r.b, r.z, Mode::Point, blank()).1, inputs);
}

/// The shift of a noise, and the cache after it.
spec fn shift_step<F: Fn(Ask) -> u64>(f: F, s: Option<Arc<Node>>, x: i32, y: i32, z: i32, q: Points) -> (u32, Points) {
    match s {
        Some(s) => evaluated(f, *s, x, y, z, Mode::Point, q),
        None => (0, q),
    }
}

spec fn shift_point<F: Fn(Ask) -> u64>(f: F, s: Option<Arc<Node>>, x: i32, y: i32, z: i32) -> u32 {
    match s {
        Some(s) => point(f, *s, x, y, z),
        None => 0,
    }
}

proof fn lemma_shift_step<F: Fn(Ask) -> u64>(f: F, s: Option<Arc<Node>>, x: i32, y: i32, z: i32, q: Points, inputs: Map<usize, Node>)
    requires
        s matches Some(n) ==> agrees(*n, inputs),
        plain(f, q, inputs),
    ensures
        shift_step(f, s, x, y, z, q).0 == shift_point(f, s, x, y, z),
        plain(f, shift_step(f, s, x, y, z, q).1, inputs),
{
    if let Some(n) = s {
        lemma_step(f, inner(n), x, y, z, q, inputs);
    }
}

/// A noise with shifts at a block.
proof fn lemma_noise_point<F: Fn(Ask) -> u64>(f: F, n: Node, x: i32, y: i32, z: i32, inputs: Map<usize, Node>)
    requires
        n is Noise,
        agrees(n, inputs),
        !(n->shift_x is None && n->shift_y is None && n->shift_z is None),
    ensures
        point(f, n, x, y, z) == stack_at(
            f,
            n->stack,
            shifted(f, x, n->xz_scale, shift_point(f, n->shift_x, x, y, z)),
            if n->shift_y is None {
                scaled(f, y, n->y_scale)
            } else {
                shifted(f, y, n->y_scale, shift_point(f, n->shift_y, x, y, z))
            },
            shifted(f, z, n->xz_scale, shift_point(f, n->shift_z, x, y, z)),
        ),
{
    lemma_blank(f, inputs);
    assert(fresh(blank()) == blank());
    if let Node::Noise { shift_x, shift_y, shift_z, .. } = n {
        lemma_shift_step(f, shift_x, x, y, z, blank(), inputs);
        let q = shift_step(f, shift_x, x, y, z, blank()).1;
        lemma_shift_step(f, shift_z, x, y, z, q, inputs);
        let t = shift_step(f, shift_z, x, y, z, q).1;
        lemma_shift_step(f, shift_y, x, y, z, t, inputs);
    }
}

proof fn lemma_flat_shift<F: Fn(Ask) -> u64>(f: F, s: Option<Arc<Node>>, r: Rows, inputs: Map<usize, Node>)
    requires
        flat_noises(f),
        s matches Some(n) ==> agrees(*n, inputs) && !reads_y(f, *n),
    ensures
        shift_point(f, s, r.x, r.a, r.z) == shift_point(f, s, r.x, r.b, r.z),
    decreases s, 2nat,
{
    if let Some(n) = s {
        lemma_flat(f, inner(n), r, inputs);
    }
}

proof fn lemma_flat_noise<F: Fn(Ask) -> u64>(f: F, n: Node, r: Rows, inputs: Map<usize, Node>)
    requires
        flat_noises(f),
        n is Noise,
        agrees(n, inputs),
        !reads_y(f, n),
    ensures
        same(f, n, r),
    decreases n, 0nat,
{
    assert(fresh(blank()) == blank());
    if let Node::Noise { stack, xz_scale, y_scale, shift_x, shift_y, shift_z } = n {
        assert(holds(f, Ask::Equal64(y_scale, ZERO)));
        if shift_x is None && shift_y is None && shift_z is None {
            let (x, z) = (scaled(f, r.x, xz_scale), scaled(f, r.z, xz_scale));
            assert(point(f, n, r.x, r.a, r.z) == stack_at(f, stack, x, scaled(f, r.a, y_scale), z));
            assert(point(f, n, r.x, r.b, r.z) == stack_at(f, stack, x, scaled(f, r.b, y_scale), z));
            reveal(flat_noises);
        } else {
            lemma_flat_shift(f, shift_x, r, inputs);
            lemma_flat_shift(f, shift_y, r, inputs);
            lemma_flat_shift(f, shift_z, r, inputs);
            lemma_noise_point(f, n, r.x, r.a, r.z, inputs);
            lemma_noise_point(f, n, r.x, r.b, r.z, inputs);
            let x = shifted(f, r.x, xz_scale, shift_point(f, shift_x, r.x, r.a, r.z));
            let z = shifted(f, r.z, xz_scale, shift_point(f, shift_z, r.x, r.a, r.z));
            let s = shift_point(f, shift_y, r.x, r.a, r.z);
            reveal(flat_noises);
            if shift_y is None {
                assert(stack_at(f, stack, x, scaled(f, r.a, y_scale), z) == stack_at(f, stack, x, scaled(f, r.b, y_scale), z));
            } else {
                assert(stack_at(f, stack, x, shifted(f, r.a, y_scale, s), z) == stack_at(
                    f, stack, x, shifted(f, r.b, y_scale, s), z));
            }
        }
    }
}

proof fn lemma_flat_lerp<F: Fn(Ask) -> u64>(f: F, n: Node, r: Rows, inputs: Map<usize, Node>)
    requires
        flat_noises(f),
        n is Lerp,
        agrees(n, inputs),
        !reads_y(f, n),
    ensures
        same(f, n, r),
    decreases n, 0nat,
{
    if let Node::Lerp { alpha, first, second } = n {
        lemma_flat(f, inner(alpha), r, inputs);
        lemma_flat(f, inner(first), r, inputs);
        lemma_flat(f, inner(second), r, inputs);
        lemma_lerp_point(f, n, r.x, r.a, r.z, inputs);
        lemma_lerp_point(f, n, r.x, r.b, r.z, inputs);
    }
}

/// An interpolation at a block.
proof fn lemma_lerp_point<F: Fn(Ask) -> u64>(f: F, n: Node, x: i32, y: i32, z: i32, inputs: Map<usize, Node>)
    requires
        n is Lerp,
        agrees(n, inputs),
    ensures
        point(f, n, x, y, z) == crate::boundcheck::blended(
            f, point(f, *n->alpha, x, y, z), point(f, *n->first, x, y, z), point(f, *n->second, x, y, z)),
{
    lemma_blank(f, inputs);
    assert(fresh(blank()) == blank());
    if let Node::Lerp { alpha, first, second } = n {
        lemma_step(f, inner(alpha), x, y, z, blank(), inputs);
        let q = evaluated(f, inner(alpha), x, y, z, Mode::Point, blank()).1;
        lemma_step(f, inner(first), x, y, z, q, inputs);
        lemma_step(f, inner(second), x, y, z, q, inputs);
        lemma_step(f, inner(second), x, y, z, evaluated(f, inner(first), x, y, z, Mode::Point, q).1, inputs);
    }
}

proof fn lemma_flat_select<F: Fn(Ask) -> u64>(f: F, n: Node, r: Rows, inputs: Map<usize, Node>)
    requires
        flat_noises(f),
        n is IntervalSelect,
        agrees(n, inputs),
        !reads_y(f, n),
    ensures
        same(f, n, r),
    decreases n, 0nat,
{
    assert(fresh(blank()) == blank());
    if let Node::IntervalSelect { selector, thresholds, functions } = n {
        lemma_flat(f, inner(selector), r, inputs);
        let k = selected(f, thresholds@, point(f, inner(selector), r.x, r.a, r.z), 0);
        if 0 <= k < functions@.len() {
            assert(agrees(*functions@[k], inputs));
            assert(!reads_y(f, *functions@[k]));
            lemma_flat(f, inner(functions@[k]), r, inputs);
            lemma_pair(f, inner(selector), inner(functions@[k]), r, inputs);
        }
    }
}

proof fn lemma_flat_spline<F: Fn(Ask) -> u64>(f: F, sp: Spline, r: Rows, inputs: Map<usize, Node>)
    requires
        flat_noises(f),
        agrees_spline(sp, inputs),
        !spline_reads_y(f, sp),
    ensures
        spline_point(f, sp, r.x, r.a, r.z) == spline_point(f, sp, r.x, r.b, r.z),
    decreases sp, 1nat,
{
    if let Spline::Multipoint { coordinate, locations, values, derivatives, .. } = sp {
        lemma_flat(f, inner(coordinate), r, inputs);
        assert forall|i: int| 0 <= i < values@.len() implies #[trigger] spline_point(f, values@[i], r.x, r.a, r.z) == spline_point(
            f, values@[i], r.x, r.b, r.z) by {
            assert(agrees_spline(values@[i], inputs));
            assert(!spline_reads_y(f, values@[i]));
            lemma_flat_spline(f, values@[i], r, inputs);
        }
        lemma_knots(f, sp, r.x, r.a, r.z, inputs);
        lemma_knots(f, sp, r.x, r.b, r.z, inputs);
    }
}

/// A spline at a block, from the values of its coordinate and knots there.
pub open spec fn knots_value<F: Fn(Ask) -> u64>(f: F, sp: Spline, x: i32, y: i32, z: i32) -> u32 {
    match sp {
        Spline::Constant(c) => c,
        Spline::Multipoint { coordinate, locations, values, derivatives, .. } => {
            let input = point(f, *coordinate, x, y, z);
            let k = crate::arith::bisect(f, locations@, input, 0, locations@.len() as int);
            let last = locations@.len() - 1;
            if k <= 0 && values@.len() > 0 {
                crate::arith::extended(f, input, locations@[0], spline_point(f, values@[0], x, y, z), derivatives@[0])
            } else if k > last && 0 <= last < values@.len() {
                crate::arith::extended(f, input, locations@[last], spline_point(f, values@[last], x, y, z), derivatives@[last])
            } else if 0 < k < values@.len() {
                crate::arith::hermite_at(
                    f, input, locations@[k - 1], locations@[k], spline_point(f, values@[k - 1], x, y, z),
                    spline_point(f, values@[k], x, y, z), derivatives@[k - 1], derivatives@[k])
            } else {
                0
            }
        },
    }
}

proof fn lemma_knots<F: Fn(Ask) -> u64>(f: F, sp: Spline, x: i32, y: i32, z: i32, inputs: Map<usize, Node>)
    requires
        agrees_spline(sp, inputs),
    ensures
        spline_point(f, sp, x, y, z) == knots_value(f, sp, x, y, z),
{
    lemma_blank(f, inputs);
    assert(fresh(blank()) == blank());
    if let Spline::Multipoint { coordinate, locations, values, derivatives, .. } = sp {
        lemma_step(f, inner(coordinate), x, y, z, blank(), inputs);
        let (input, q) = evaluated(f, inner(coordinate), x, y, z, Mode::Point, blank());
        let k = crate::arith::bisect(f, locations@, input, 0, locations@.len() as int);
        let last = locations@.len() - 1;
        if k <= 0 && values@.len() > 0 {
            assert(agrees_spline(values@[0], inputs));
            lemma_spline_step(f, values@[0], x, y, z, q, inputs);
        } else if k > last && 0 <= last < values@.len() {
            assert(agrees_spline(values@[last], inputs));
            lemma_spline_step(f, values@[last], x, y, z, q, inputs);
        } else if 0 < k < values@.len() {
            assert(agrees_spline(values@[k - 1], inputs));
            assert(agrees_spline(values@[k], inputs));
            lemma_spline_step(f, values@[k - 1], x, y, z, q, inputs);
            let t = spline_evaluated(f, values@[k - 1], x, y, z, Mode::Point, q).1;
            lemma_spline_step(f, values@[k], x, y, z, t, inputs);
        }
    }
}

/// A tree that does not read y has the same value at every row of a column,
/// where noises that are scaled by zero along y have.
pub proof fn law_flat_trees_have_one_value<F: Fn(Ask) -> u64>(f: F, n: Node, r: Rows, inputs: Map<usize, Node>)
    requires
        flat_noises(f),
        agrees(n, inputs),
        !reads_y(f, n),
    ensures
        point(f, n, r.x, r.a, r.z) == point(f, n, r.x, r.b, r.z),
{
    lemma_flat(f, n, r, inputs);
}

proof fn lemma_flat_worth<F: Fn(Ask) -> u64>(f: F, n: Node, x: i32, a: i32, b: i32, z: i32)
    requires
        flat_noises(f),
        by_block(f, n),
        !reads_y(f, n),
    ensures
        worth(f, n, x, a, z) == worth(f, n, x, b, z),
    decreases n, 1nat,
{
    match n {
        Node::Unary { input, .. } => lemma_flat_worth(f, inner(input), x, a, b, z),
        Node::Binary { left, right, .. } => {
            lemma_flat_worth(f, inner(left), x, a, b, z);
            lemma_flat_worth(f, inner(right), x, a, b, z);
        },
        Node::Noise { .. } => lemma_flat_noise_worth(f, n, x, a, b, z),
        Node::RangeChoice { choice, when_in_range, when_out_of_range, .. } => {
            lemma_flat_worth(f, inner(choice), x, a, b, z);
            lemma_flat_worth(f, inner(when_in_range), x, a, b, z);
            lemma_flat_worth(f, inner(when_out_of_range), x, a, b, z);
        },
        Node::IntervalSelect { selector, thresholds, functions } => {
            lemma_flat_worth(f, inner(selector), x, a, b, z);
            let k = selected(f, thresholds@, worth(f, inner(selector), x, a, z), 0);
            if 0 <= k < functions@.len() {
                assert(by_block(f, *functions@[k]));
                assert(!reads_y(f, *functions@[k]));
                lemma_flat_worth(f, inner(functions@[k]), x, a, b, z);
            }
        },
        Node::Cache { cached, .. } => lemma_flat_worth(f, inner(cached), x, a, b, z),
        Node::BlendDensity(i) => lemma_flat_worth(f, inner(i), x, a, b, z),
        Node::Slice { along, coordinate, whole } => match along {
            Axis::X => lemma_flat_worth(f, inner(whole), coordinate, a, b, z),
            Axis::Z => lemma_flat_worth(f, inner(whole), x, a, b, coordinate),
            Axis::Y => {},
        },
        Node::Lerp { alpha, first, second } => {
            lemma_flat_worth(f, inner(alpha), x, a, b, z);
            lemma_flat_worth(f, inner(first), x, a, b, z);
            lemma_flat_worth(f, inner(second), x, a, b, z);
        },
        Node::Spline(sp) => lemma_flat_curve(f, sp, x, a, b, z),
        _ => {},
    }
}

proof fn lemma_flat_curve<F: Fn(Ask) -> u64>(f: F, sp: Spline, x: i32, a: i32, b: i32, z: i32)
    requires
        flat_noises(f),
        curve_by_block(f, sp),
        !spline_reads_y(f, sp),
    ensures
        curve(f, sp, x, a, z) == curve(f, sp, x, b, z),
    decreases sp, 1nat,
{
    if let Spline::Multipoint { coordinate, locations, values, derivatives, .. } = sp {
        lemma_flat_worth(f, inner(coordinate), x, a, b, z);
        assert forall|i: int| 0 <= i < values@.len() implies #[trigger] curve(f, values@[i], x, a, z) == curve(
            f, values@[i], x, b, z) by {
            assert(curve_by_block(f, values@[i]));
            assert(!spline_reads_y(f, values@[i]));
            lemma_flat_curve(f, values@[i], x, a, b, z);
        }
        let k = crate::arith::bisect(f, locations@, worth(f, inner(coordinate), x, a, z), 0, locations@.len() as int);
        let last = locations@.len() - 1;
        if k <= 0 && values@.len() > 0 {
            assert(curve(f, values@[0], x, a, z) == curve(f, values@[0], x, b, z));
        } else if k > last && 0 <= last < values@.len() {
            assert(curve(f, values@[last], x, a, z) == curve(f, values@[last], x, b, z));
        } else if 0 < k < values@.len() {
            assert(curve(f, values@[k - 1], x, a, z) == curve(f, values@[k - 1], x, b, z));
            assert(curve(f, values@[k], x, a, z) == curve(f, values@[k], x, b, z));
        }
    }
}

proof fn lemma_flat_noise_worth<F: Fn(Ask) -> u64>(f: F, n: Node, x: i32, a: i32, b: i32, z: i32)
    requires
        flat_noises(f),
        n is Noise,
        by_block(f, n),
        !reads_y(f, n),
    ensures
        worth(f, n, x, a, z) == worth(f, n, x, b, z),
    decreases n, 0nat,
{
    if let Node::Noise { stack, xz_scale, y_scale, shift_x, shift_y, shift_z } = n {
        match shift_x {
            Some(s) => lemma_flat_worth(f, inner(s), x, a, b, z),
            None => {},
        }
        match shift_y {
            Some(s) => lemma_flat_worth(f, inner(s), x, a, b, z),
            None => {},
        }
        match shift_z {
            Some(s) => lemma_flat_worth(f, inner(s), x, a, b, z),
            None => {},
        }
        let sx = match shift_x {
            Some(s) => worth(f, inner(s), x, a, z),
            None => 0,
        };
        let sy = match shift_y {
            Some(s) => worth(f, inner(s), x, a, z),
            None => 0,
        };
        let sz = match shift_z {
            Some(s) => worth(f, inner(s), x, a, z),
            None => 0,
        };
        assert(holds(f, Ask::Equal64(y_scale, ZERO)));
        reveal(flat_noises);
        let (p, q) = (shifted(f, x, xz_scale, sx), shifted(f, z, xz_scale, sz));
        assert(stack_at(f, stack, p, shifted(f, a, y_scale, sy), q) == stack_at(f, stack, p, shifted(f, b, y_scale, sy), q));
        assert(noise_in(f, stack, xz_scale, y_scale, crate::arith::ONE_32, x, a, z) == noise_in(
            f, stack, xz_scale, y_scale, crate::arith::ONE_32, x, b, z));
    }
}

/// So has the volume path of a tree that goes by blocks.
pub proof fn law_flat_trees_have_one_worth<F: Fn(Ask) -> u64>(f: F, n: Node, x: i32, a: i32, b: i32, z: i32)
    requires
        flat_noises(f),
        by_block(f, n),
        !reads_y(f, n),
    ensures
        worth(f, n, x, a, z) == worth(f, n, x, b, z),
{
    lemma_flat_worth(f, n, x, a, b, z);
}

} // verus!
