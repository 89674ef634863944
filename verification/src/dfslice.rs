//! Slicing along axes that a function does not depend on changes no value.

use std::sync::Arc;
use vstd::prelude::*;
use crate::arith::{bisect, extended, hermite_at, low, Ask, ONE_32};
use crate::df26::{
    chosen, distance_at, gradient_at, mixed, noise_in, one, sampled, selected, shift_b, shifted, sound, two, within, Axis, Lattice, Mode,
    Node, Slab, Spline,
};
use crate::dfcache::{agrees, inner};
use crate::dfmodel::{all_knots_of, func_of, funcs_of, knots_of, lemma_all_knots, lemma_funcs, maybe_func, Func, Knots};
use crate::dfparts::{by_block, curve, curve_by_block, honest, law_volumes_hold_block_values, proper, worth};
use crate::dfrewrite::{
    all_knots_domain, all_knots_rewritten, all_rewritten, children, domain, domains, is_zero, knots_domain, knots_rewritten, maybe_domain, maybe_rewritten, removed_axes, rewritten, sliced, Axes,
};

verus! {

/// A function whose value at an element of a volume depends on the element's
/// block alone.
pub open spec fn goes_by_block(n: Func) -> bool
    decreases n,
{
    match n {
        Func::Constant(_) => true,
        Func::Unary { input, .. } => goes_by_block(*input),
        Func::Binary { left, right, .. } => goes_by_block(*left) && goes_by_block(*right),
        Func::Noise { shift_x, shift_y, shift_z, .. } => {
            &&& (shift_x matches Some(s) ==> goes_by_block(*s))
            &&& (shift_y matches Some(s) ==> goes_by_block(*s))
            &&& (shift_z matches Some(s) ==> goes_by_block(*s))
        },
        Func::ShiftB(_) => true,
        Func::Gradient { .. } => true,
        Func::RangeChoice { choice, when_in_range, when_out_of_range, .. } => goes_by_block(*choice) && goes_by_block(*when_in_range)
            && goes_by_block(*when_out_of_range),
        Func::IntervalSelect { selector, thresholds, functions } => {
            &&& functions.len() == thresholds.len() + 1
            &&& goes_by_block(*selector)
            &&& forall|i: int| 0 <= i < functions.len() ==> goes_by_block(#[trigger] functions[i])
        },
        Func::Cache { cached, .. } => goes_by_block(*cached),
        Func::BlendDensity(i) => goes_by_block(*i),
        Func::BlendAlpha => true,
        Func::BlendOffset => true,
        Func::Beardifier => true,
        Func::Slice { whole, .. } => goes_by_block(*whole),
        Func::DistanceToPoint { .. } => true,
        Func::Lerp { alpha, first, second } => goes_by_block(*alpha) && goes_by_block(*first) && goes_by_block(*second),
        Func::Spline(k) => knots_by_block(k),
        _ => false,
    }
}

/// A spline all of whose coordinates are such functions.
pub open spec fn knots_by_block(k: Knots) -> bool
    decreases k,
{
    match k {
        Knots::Constant(_) => true,
        Knots::Multipoint { coordinate, values, .. } => {
            &&& goes_by_block(*coordinate)
            &&& forall|i: int| 0 <= i < values.len() ==> knots_by_block(#[trigger] values[i])
        },
    }
}

/// The value of such a spline at a block.
pub open spec fn knots_amount<F: Fn(Ask) -> u64>(f: F, s: Knots, x: i32, y: i32, z: i32) -> u32
    decreases s, 0nat,
{
    match s {
        Knots::Constant(c) => c,
        Knots::Multipoint { coordinate, locations, values, derivatives, .. } => {
            let input = amount(f, *coordinate, x, y, z);
            let k = bisect(f, locations, input, 0, locations.len() as int);
            let last = locations.len() - 1;
            if k <= 0 && values.len() > 0 {
                extended(f, input, locations[0], knots_amount(f, values[0], x, y, z), derivatives[0])
            } else if k > last && 0 <= last < values.len() {
                extended(f, input, locations[last], knots_amount(f, values[last], x, y, z), derivatives[last])
            } else if 0 < k < values.len() {
                hermite_at(
                    f, input, locations[k - 1], locations[k], knots_amount(f, values[k - 1], x, y, z),
                    knots_amount(f, values[k], x, y, z), derivatives[k - 1], derivatives[k])
            } else {
                0
            }
        },
    }
}

/// A noise at a block with shifts.
pub open spec fn noise_with<F: Fn(Ask) -> u64>(
    f: F, stack: usize, xz: u64, ys: u64, x: i32, y: i32, z: i32, sx: u32, sy: u32, sz: u32,
) -> u32 {
    low(f, Ask::Stack { stack, x: shifted(f, x, xz, sx), y: shifted(f, y, ys, sy), z: shifted(f, z, xz, sz) })
}

/// The value of such a function at a block.
pub open spec fn amount<F: Fn(Ask) -> u64>(f: F, n: Func, x: i32, y: i32, z: i32) -> u32
    decreases n, 0nat,
{
    match n {
        Func::Constant(k) => k,
        Func::Unary { op, input } => one(f, op, amount(f, *input, x, y, z)),
        Func::Binary { combine, left, right } => two(f, combine, amount(f, *left, x, y, z), amount(f, *right, x, y, z)),
        Func::Noise { stack, xz_scale, y_scale, shift_x, shift_y, shift_z } => if shift_x is None && shift_y is None
            && shift_z is None {
            noise_in(f, stack, xz_scale, y_scale, ONE_32, x, y, z)
        } else {
            noise_with(
                f, stack, xz_scale, y_scale, x, y, z, maybe_amount(f, shift_x, x, y, z), maybe_amount(f, shift_y, x, y, z),
                maybe_amount(f, shift_z, x, y, z))
        },
        Func::ShiftB(stack) => shift_b(f, stack, Mode::Volume, x, z),
        Func::Gradient { axis, tiling, from_coordinate, to_coordinate, from_value, factor } => gradient_at(
            f, tiling, from_coordinate, to_coordinate, from_value, factor, chosen(axis, x, y, z)),
        Func::RangeChoice { choice, min_inclusive, max_exclusive, when_in_range, when_out_of_range } => if within(
            f, amount(f, *choice, x, y, z), min_inclusive, max_exclusive) {
            amount(f, *when_in_range, x, y, z)
        } else {
            amount(f, *when_out_of_range, x, y, z)
        },
        Func::IntervalSelect { selector, thresholds, functions } => {
            let k = selected(f, thresholds, amount(f, *selector, x, y, z), 0);
            if 0 <= k < functions.len() { amount(f, functions[k], x, y, z) } else { 0 }
        },
        Func::Cache { cached, .. } => amount(f, *cached, x, y, z),
        Func::BlendDensity(i) => amount(f, *i, x, y, z),
        Func::BlendAlpha => ONE_32,
        Func::Slice { along, coordinate, whole } => match along {
            Axis::X => amount(f, *whole, coordinate, y, z),
            Axis::Y => amount(f, *whole, x, coordinate, z),
            Axis::Z => amount(f, *whole, x, y, coordinate),
        },
        Func::DistanceToPoint { metric, x: px, y: py, z: pz } => distance_at(f, metric, px, py, pz, x, y, z),
        Func::Lerp { alpha, first, second } => mixed(
            f, amount(f, *alpha, x, y, z), amount(f, *first, x, y, z), amount(f, *second, x, y, z)),
        Func::Spline(k) => knots_amount(f, k, x, y, z),
        _ => 0,
    }
}

pub open spec fn maybe_amount<F: Fn(Ask) -> u64>(f: F, n: Option<Box<Func>>, x: i32, y: i32, z: i32) -> u32
    decreases n, 0nat,
{
    match n {
        Some(s) => amount(f, *s, x, y, z),
        None => 0,
    }
}

/// Noises do not change along axes that they are scaled by zero along.
pub open spec fn noises_are_flat<F: Fn(Ask) -> u64>(f: F) -> bool {
    &&& forall|stack: usize, xz: u64, ys: u64, x: i32, y: i32, z: i32, a: i32, b: i32, c: i32|
        #![trigger noise_in(f, stack, xz, ys, ONE_32, x, y, z), noise_in(f, stack, xz, ys, ONE_32, a, b, c)]
        (is_zero(xz) || (x == a && z == c)) && (is_zero(ys) || y == b) ==> noise_in(f, stack, xz, ys, ONE_32, x, y, z) == noise_in(
            f, stack, xz, ys, ONE_32, a, b, c)
    &&& forall|stack: usize, xz: u64, ys: u64, x: i32, y: i32, z: i32, a: i32, b: i32, c: i32, sx: u32, sy: u32, sz: u32|
        #![trigger noise_with(f, stack, xz, ys, x, y, z, sx, sy, sz), noise_with(f, stack, xz, ys, a, b, c, sx, sy, sz)]
        (is_zero(xz) || (x == a && z == c)) && (is_zero(ys) || y == b) ==> noise_with(f, stack, xz, ys, x, y, z, sx, sy, sz)
            == noise_with(f, stack, xz, ys, a, b, c, sx, sy, sz)
}

/// Two blocks agree along some axes.
pub open spec fn alike(d: Axes, x: i32, y: i32, z: i32, a: i32, b: i32, c: i32) -> bool {
    (d.x ==> x == a) && (d.y ==> y == b) && (d.z ==> z == c)
}

proof fn lemma_domains(s: Seq<Func>, n: nat, k: int)
    requires
        n <= s.len(),
        0 <= k < n,
    ensures
        ({
            let (d, e) = (domains(s, n), domain(s[k]));
            (e.x ==> d.x) && (e.y ==> d.y) && (e.z ==> d.z)
        }),
    decreases n,
{
    if k < n - 1 {
        lemma_domains(s, (n - 1) as nat, k);
    }
}

/// A selection takes one of the functions.
proof fn lemma_selected<F: Fn(Ask) -> u64>(f: F, thresholds: Seq<u32>, v: u32, i: int)
    requires
        0 <= i <= thresholds.len(),
    ensures
        i <= selected(f, thresholds, v, i) <= thresholds.len(),
    decreases thresholds.len() - i,
{
    if i < thresholds.len() {
        lemma_selected(f, thresholds, v, i + 1);
    }
}

proof fn lemma_maybe<F: Fn(Ask) -> u64>(f: F, n: Option<Box<Func>>, x: i32, y: i32, z: i32, a: i32, b: i32, c: i32)
    requires
        noises_are_flat(f),
        n matches Some(s) ==> goes_by_block(*s),
        alike(maybe_domain(n), x, y, z, a, b, c),
    ensures
        maybe_amount(f, n, x, y, z) == maybe_amount(f, n, a, b, c),
    decreases n, 1nat,
{
    if let Some(s) = n {
        lemma_domain(f, *s, x, y, z, a, b, c);
    }
}

/// A function has the same value at blocks that agree along the axes it
/// depends on.
proof fn lemma_domain<F: Fn(Ask) -> u64>(f: F, n: Func, x: i32, y: i32, z: i32, a: i32, b: i32, c: i32)
    requires
        noises_are_flat(f),
        goes_by_block(n),
        alike(domain(n), x, y, z, a, b, c),
    ensures
        amount(f, n, x, y, z) == amount(f, n, a, b, c),
    decreases n, 1nat,
{
    match n {
        Func::Unary { input, .. } => lemma_domain(f, *input, x, y, z, a, b, c),
        Func::Binary { left, right, .. } => {
            lemma_domain(f, *left, x, y, z, a, b, c);
            lemma_domain(f, *right, x, y, z, a, b, c);
        },
        Func::Noise { stack, xz_scale, y_scale, shift_x, shift_y, shift_z } => {
            lemma_maybe(f, shift_x, x, y, z, a, b, c);
            lemma_maybe(f, shift_y, x, y, z, a, b, c);
            lemma_maybe(f, shift_z, x, y, z, a, b, c);
            let (p, q, r) = (
                maybe_amount(f, shift_x, x, y, z), maybe_amount(f, shift_y, x, y, z), maybe_amount(f, shift_z, x, y, z));
            assert((is_zero(xz_scale) || (x == a && z == c)) && (is_zero(y_scale) || y == b));
            assert(noise_with(f, stack, xz_scale, y_scale, x, y, z, p, q, r) == noise_with(
                f, stack, xz_scale, y_scale, a, b, c, p, q, r));
            assert(noise_in(f, stack, xz_scale, y_scale, ONE_32, x, y, z) == noise_in(
                f, stack, xz_scale, y_scale, ONE_32, a, b, c));
        },
        Func::RangeChoice { choice, when_in_range, when_out_of_range, .. } => {
            lemma_domain(f, *choice, x, y, z, a, b, c);
            lemma_domain(f, *when_in_range, x, y, z, a, b, c);
            lemma_domain(f, *when_out_of_range, x, y, z, a, b, c);
        },
        Func::IntervalSelect { selector, thresholds, functions } => {
            lemma_domain(f, *selector, x, y, z, a, b, c);
            let k = selected(f, thresholds, amount(f, *selector, x, y, z), 0);
            lemma_selected(f, thresholds, amount(f, *selector, x, y, z), 0);
            lemma_domains(functions, functions.len(), k);
            assert(goes_by_block(functions[k]));
            lemma_domain(f, functions[k], x, y, z, a, b, c);
        },
        Func::Cache { cached, .. } => lemma_domain(f, *cached, x, y, z, a, b, c),
        Func::BlendDensity(i) => lemma_domain(f, *i, x, y, z, a, b, c),
        Func::Slice { along, coordinate, whole } => match along {
            Axis::X => lemma_domain(f, *whole, coordinate, y, z, coordinate, b, c),
            Axis::Y => lemma_domain(f, *whole, x, coordinate, z, a, coordinate, c),
            Axis::Z => lemma_domain(f, *whole, x, y, coordinate, a, b, coordinate),
        },
        Func::Lerp { alpha, first, second } => {
            lemma_domain(f, *alpha, x, y, z, a, b, c);
            lemma_domain(f, *first, x, y, z, a, b, c);
            lemma_domain(f, *second, x, y, z, a, b, c);
        },
        Func::Spline(k) => lemma_knots_domain(f, k, x, y, z, a, b, c),
        _ => {},
    }
}

proof fn lemma_all_knots_domain(s: Seq<Knots>, n: nat, k: int)
    requires
        n <= s.len(),
        0 <= k < n,
    ensures
        knots_domain(s[k]).x ==> all_knots_domain(s, n).x,
        knots_domain(s[k]).y ==> all_knots_domain(s, n).y,
        knots_domain(s[k]).z ==> all_knots_domain(s, n).z,
    decreases n,
{
    if k < n - 1 {
        lemma_all_knots_domain(s, (n - 1) as nat, k);
    }
}

proof fn lemma_knots_domain<F: Fn(Ask) -> u64>(f: F, s: Knots, x: i32, y: i32, z: i32, a: i32, b: i32, c: i32)
    requires
        noises_are_flat(f),
        knots_by_block(s),
        alike(knots_domain(s), x, y, z, a, b, c),
    ensures
        knots_amount(f, s, x, y, z) == knots_amount(f, s, a, b, c),
    decreases s, 1nat,
{
    if let Knots::Multipoint { coordinate, values, .. } = s {
        lemma_domain(f, *coordinate, x, y, z, a, b, c);
        assert forall|i: int| 0 <= i < values.len() implies #[trigger] knots_amount(f, values[i], x, y, z) == knots_amount(
            f, values[i], a, b, c) by {
            lemma_all_knots_domain(values, values.len(), i);
            assert(knots_by_block(values[i]));
            lemma_knots_domain(f, values[i], x, y, z, a, b, c);
        }
        lemma_knots_alike(f, s, s, x, y, z, a, b, c);
    }
}

/// Splines whose coordinates and values are equal at two blocks are equal
/// there.
proof fn lemma_knots_alike<F: Fn(Ask) -> u64>(f: F, s: Knots, t: Knots, x: i32, y: i32, z: i32, a: i32, b: i32, c: i32)
    requires
        s is Multipoint && t is Multipoint,
        s->locations == t->locations,
        s->derivatives == t->derivatives,
        s->values.len() == t->values.len(),
        amount(f, *s->coordinate, x, y, z) == amount(f, *t->coordinate, a, b, c),
        forall|i: int|
            0 <= i < s->values.len() ==> #[trigger] knots_amount(f, s->values[i], x, y, z) == knots_amount(f, t->values[i], a, b, c),
    ensures
        knots_amount(f, s, x, y, z) == knots_amount(f, t, a, b, c),
{
    let (locations, values) = (s->locations, s->values);
    let k = bisect(f, locations, amount(f, *s->coordinate, x, y, z), 0, locations.len() as int);
    let last = locations.len() - 1;
    if k <= 0 && values.len() > 0 {
        assert(knots_amount(f, values[0], x, y, z) == knots_amount(f, t->values[0], a, b, c));
    } else if k > last && 0 <= last < values.len() {
        assert(knots_amount(f, values[last], x, y, z) == knots_amount(f, t->values[last], a, b, c));
    } else if 0 < k < values.len() {
        assert(knots_amount(f, values[k - 1], x, y, z) == knots_amount(f, t->values[k - 1], a, b, c));
        assert(knots_amount(f, values[k], x, y, z) == knots_amount(f, t->values[k], a, b, c));
    }
}

/// A function that is sliced along axes it does not depend on.
proof fn lemma_sliced<F: Fn(Ask) -> u64>(f: F, n: Func, m: Func, gone: Axes, x: i32, y: i32, z: i32)
    requires
        noises_are_flat(f),
        goes_by_block(n),
        goes_by_block(m),
        forall|x: i32, y: i32, z: i32| #[trigger] amount(f, m, x, y, z) == amount(f, n, x, y, z),
        gone.x ==> !domain(n).x,
        gone.y ==> !domain(n).y,
        gone.z ==> !domain(n).z,
    ensures
        ({
            let r = sliced(sliced(sliced(m, Axis::X, gone.x), Axis::Z, gone.z), Axis::Y, gone.y);
            goes_by_block(r) && amount(f, r, x, y, z) == amount(f, n, x, y, z)
        }),
{
    let p = sliced(m, Axis::X, gone.x);
    let q = sliced(p, Axis::Z, gone.z);
    let r = sliced(q, Axis::Y, gone.y);
    assert(goes_by_block(p));
    assert(goes_by_block(q));
    assert(goes_by_block(r));
    let b: i32 = if gone.y { 0 } else { y };
    let c: i32 = if gone.z { 0 } else { z };
    let a: i32 = if gone.x { 0 } else { x };
    assert(amount(f, r, x, y, z) == amount(f, q, x, b, z));
    assert(amount(f, q, x, b, z) == amount(f, p, x, b, c));
    assert(amount(f, p, x, b, c) == amount(f, m, a, b, c));
    lemma_domain(f, n, a, b, c, x, y, z);
}

proof fn lemma_all<F: Fn(Ask) -> u64>(f: F, s: Seq<Func>, axes: Axes, n: nat, k: int, x: i32, y: i32, z: i32)
    requires
        noises_are_flat(f),
        n <= s.len(),
        0 <= k < n,
        forall|i: int| 0 <= i < s.len() ==> goes_by_block(#[trigger] s[i]),
    ensures
        all_rewritten(s, axes, n).len() == n,
        goes_by_block(all_rewritten(s, axes, n)[k]),
        amount(f, all_rewritten(s, axes, n)[k], x, y, z) == amount(f, s[k], x, y, z),
    decreases s, 2nat, n,
{
    lemma_all_len(s, axes, (n - 1) as nat);
    if k < n - 1 {
        lemma_all(f, s, axes, (n - 1) as nat, k, x, y, z);
    } else {
        assert(goes_by_block(s[k]));
        assert(decreases_to!(s => s[k]));
        lemma_rewritten(f, s[k], axes, x, y, z);
    }
}

proof fn lemma_all_len(s: Seq<Func>, axes: Axes, n: nat)
    requires
        n <= s.len(),
    ensures
        all_rewritten(s, axes, n).len() == n,
    decreases n,
{
    if n > 0 {
        lemma_all_len(s, axes, (n - 1) as nat);
    }
}

proof fn lemma_maybe_rewritten<F: Fn(Ask) -> u64>(f: F, n: Option<Box<Func>>, axes: Axes, x: i32, y: i32, z: i32)
    requires
        noises_are_flat(f),
        n matches Some(s) ==> goes_by_block(*s),
    ensures
        maybe_rewritten(n, axes) matches Some(s) ==> goes_by_block(*s),
        maybe_rewritten(n, axes) is None <==> n is None,
        maybe_amount(f, maybe_rewritten(n, axes), x, y, z) == maybe_amount(f, n, x, y, z),
    decreases n, 3nat, 0nat,
{
    if let Some(s) = n {
        lemma_rewritten(f, *s, axes, x, y, z);
    }
}

/// Rewriting the inputs changes no value.
proof fn lemma_children<F: Fn(Ask) -> u64>(f: F, n: Func, axes: Axes, x: i32, y: i32, z: i32)
    requires
        noises_are_flat(f),
        goes_by_block(n),
    ensures
        goes_by_block(children(n, axes)),
        amount(f, children(n, axes), x, y, z) == amount(f, n, x, y, z),
    decreases n, 0nat, 0nat,
{
    match n {
        Func::Unary { input, .. } => lemma_rewritten(f, *input, axes, x, y, z),
        Func::Binary { left, right, .. } => {
            lemma_rewritten(f, *left, axes, x, y, z);
            lemma_rewritten(f, *right, axes, x, y, z);
        },
        Func::Noise { shift_x, shift_y, shift_z, .. } => {
            lemma_maybe_rewritten(f, shift_x, axes, x, y, z);
            lemma_maybe_rewritten(f, shift_y, axes, x, y, z);
            lemma_maybe_rewritten(f, shift_z, axes, x, y, z);
        },
        Func::RangeChoice { choice, when_in_range, when_out_of_range, .. } => {
            lemma_rewritten(f, *choice, axes, x, y, z);
            lemma_rewritten(f, *when_in_range, axes, x, y, z);
            lemma_rewritten(f, *when_out_of_range, axes, x, y, z);
        },
        Func::IntervalSelect { selector, thresholds, functions } => {
            lemma_rewritten(f, *selector, axes, x, y, z);
            let k = selected(f, thresholds, amount(f, *selector, x, y, z), 0);
            lemma_selected(f, thresholds, amount(f, *selector, x, y, z), 0);
            let all = all_rewritten(functions, axes, functions.len());
            lemma_all_len(functions, axes, functions.len());
            assert(decreases_to!(n => functions));
            assert forall|i: int| 0 <= i < all.len() implies goes_by_block(#[trigger] all[i]) by {
                lemma_all(f, functions, axes, functions.len(), i, x, y, z);
            }
            lemma_all(f, functions, axes, functions.len(), k, x, y, z);
        },
        Func::Cache { cached, .. } => lemma_rewritten(f, *cached, Axes::every(), x, y, z),
        Func::BlendDensity(i) => lemma_rewritten(f, *i, axes, x, y, z),
        Func::Slice { along, coordinate, whole } => match along {
            Axis::X => lemma_rewritten(f, *whole, axes, coordinate, y, z),
            Axis::Y => lemma_rewritten(f, *whole, axes, x, coordinate, z),
            Axis::Z => lemma_rewritten(f, *whole, axes, x, y, coordinate),
        },
        Func::Lerp { alpha, first, second } => {
            lemma_rewritten(f, *alpha, axes, x, y, z);
            lemma_rewritten(f, *first, axes, x, y, z);
            lemma_rewritten(f, *second, axes, x, y, z);
        },
        Func::Spline(k) => lemma_knots_rewritten(f, k, axes, x, y, z),
        _ => {},
    }
}

proof fn lemma_all_knots_rewritten(s: Seq<Knots>, axes: Axes, n: nat)
    requires
        n <= s.len(),
    ensures
        all_knots_rewritten(s, axes, n).len() == n,
        forall|i: int| 0 <= i < n ==> #[trigger] all_knots_rewritten(s, axes, n)[i] == knots_rewritten(s[i], axes),
    decreases n,
{
    if n > 0 {
        lemma_all_knots_rewritten(s, axes, (n - 1) as nat);
    }
}

proof fn lemma_knots_rewritten<F: Fn(Ask) -> u64>(f: F, s: Knots, axes: Axes, x: i32, y: i32, z: i32)
    requires
        noises_are_flat(f),
        knots_by_block(s),
    ensures
        knots_by_block(knots_rewritten(s, axes)),
        knots_amount(f, knots_rewritten(s, axes), x, y, z) == knots_amount(f, s, x, y, z),
    decreases s, 1nat, 0nat,
{
    if let Knots::Multipoint { coordinate, values, .. } = s {
        let t = knots_rewritten(s, axes);
        let all = all_knots_rewritten(values, axes, values.len());
        lemma_rewritten(f, *coordinate, axes, x, y, z);
        lemma_all_knots_rewritten(values, axes, values.len());
        assert(t->values == all);
        assert(decreases_to!(s => values));
        assert forall|i: int| 0 <= i < all.len() implies knots_by_block(#[trigger] all[i]) && knots_amount(f, all[i], x, y, z)
            == knots_amount(f, values[i], x, y, z) by {
            assert(knots_by_block(values[i]));
            assert(decreases_to!(values => values[i]));
            lemma_knots_rewritten(f, values[i], axes, x, y, z);
        }
        lemma_knots_alike(f, t, s, x, y, z, x, y, z);
    }
}

/// Rewriting a function changes no value.
proof fn lemma_rewritten<F: Fn(Ask) -> u64>(f: F, n: Func, parent: Axes, x: i32, y: i32, z: i32)
    requires
        noises_are_flat(f),
        goes_by_block(n),
    ensures
        goes_by_block(rewritten(n, parent)),
        amount(f, rewritten(n, parent), x, y, z) == amount(f, n, x, y, z),
    decreases n, 1nat, 0nat,
{
    if !(n is Constant) && !(n is Gradient) {
        let axes = domain(n);
        let m = children(n, axes);
        lemma_children(f, n, axes, x, y, z);
        if parent != axes {
            let gone = parent.without(axes).without(removed_axes(m));
            assert forall|x: i32, y: i32, z: i32| #[trigger] amount(f, m, x, y, z) == amount(f, n, x, y, z) by {
                lemma_children(f, n, axes, x, y, z);
            }
            lemma_sliced(f, n, m, gone, x, y, z);
        }
    }
}

/// The function of a node that goes by blocks does so too, with the same
/// values.
spec fn same_function<F: Fn(Ask) -> u64>(f: F, n: Node, x: i32, y: i32, z: i32) -> bool {
    by_block(f, n) ==> goes_by_block(func_of(n)) && amount(f, func_of(n), x, y, z) == worth(f, n, x, y, z)
}

proof fn lemma_func_shift<F: Fn(Ask) -> u64>(f: F, shift: Option<Arc<Node>>, x: i32, y: i32, z: i32)
    ensures
        maybe_func(shift) is None <==> shift is None,
        maybe_func(shift) matches Some(g) ==> by_block(f, *shift->0) ==> goes_by_block(*g),
        (shift matches Some(s) ==> by_block(f, *s)) ==> maybe_amount(f, maybe_func(shift), x, y, z) == (match shift {
            Some(s) => worth(f, *s, x, y, z),
            None => 0,
        }),
    decreases shift, 2nat,
{
    if let Some(s) = shift {
        lemma_func(f, inner(s), x, y, z);
        assert(maybe_func(shift) == Some(Box::new(func_of(inner(s)))));
    }
}

proof fn lemma_func_noise<F: Fn(Ask) -> u64>(f: F, n: Node, x: i32, y: i32, z: i32)
    requires
        n is Noise,
    ensures
        same_function(f, n, x, y, z),
    decreases n, 0nat,
{
    if let Node::Noise { shift_x, shift_y, shift_z, .. } = n {
        lemma_func_shift(f, shift_x, x, y, z);
        lemma_func_shift(f, shift_y, x, y, z);
        lemma_func_shift(f, shift_z, x, y, z);
    }
}

proof fn lemma_func_select<F: Fn(Ask) -> u64>(f: F, n: Node, x: i32, y: i32, z: i32)
    requires
        n is IntervalSelect,
    ensures
        same_function(f, n, x, y, z),
    decreases n, 0nat,
{
    if let Node::IntervalSelect { selector, thresholds, functions } = n {
        lemma_func(f, inner(selector), x, y, z);
        lemma_funcs(functions@, functions@.len());
        let s = funcs_of(functions@, functions@.len());
        assert(decreases_to!(n => functions));
        assert forall|i: int| 0 <= i < functions@.len() && by_block(f, *functions@[i]) implies goes_by_block(#[trigger] s[i])
            && amount(f, s[i], x, y, z) == worth(f, *functions@[i], x, y, z) by {
            lemma_func(f, inner(functions@[i]), x, y, z);
        }
        if by_block(f, n) {
            assert forall|i: int| 0 <= i < s.len() implies goes_by_block(#[trigger] s[i]) by {
                assert(by_block(f, *functions@[i]));
            }
            let k = selected(f, thresholds@, worth(f, inner(selector), x, y, z), 0);
            lemma_selected(f, thresholds@, worth(f, inner(selector), x, y, z), 0);
            assert(by_block(f, *functions@[k]));
            assert(amount(f, s[k], x, y, z) == worth(f, *functions@[k], x, y, z));
        }
    }
}

proof fn lemma_func_spline<F: Fn(Ask) -> u64>(f: F, sp: Spline, x: i32, y: i32, z: i32)
    requires
        curve_by_block(f, sp),
    ensures
        knots_by_block(knots_of(sp)),
        knots_amount(f, knots_of(sp), x, y, z) == curve(f, sp, x, y, z),
    decreases sp, 1nat,
{
    if let Spline::Multipoint { coordinate, locations, values, .. } = sp {
        lemma_func(f, inner(coordinate), x, y, z);
        lemma_all_knots(values@, values@.len());
        let all = all_knots_of(values@, values@.len());
        assert forall|i: int| 0 <= i < all.len() implies knots_by_block(#[trigger] all[i]) && knots_amount(f, all[i], x, y, z)
            == curve(f, values@[i], x, y, z) by {
            assert(curve_by_block(f, values@[i]));
            lemma_func_spline(f, values@[i], x, y, z);
        }
        assert(knots_of(sp)->values == all);
        let k = bisect(f, locations@, worth(f, inner(coordinate), x, y, z), 0, locations@.len() as int);
        let last = locations@.len() - 1;
        if k <= 0 && values@.len() > 0 {
            assert(knots_amount(f, all[0], x, y, z) == curve(f, values@[0], x, y, z));
        } else if k > last && 0 <= last < values@.len() {
            assert(knots_amount(f, all[last], x, y, z) == curve(f, values@[last], x, y, z));
        } else if 0 < k < values@.len() {
            assert(knots_amount(f, all[k - 1], x, y, z) == curve(f, values@[k - 1], x, y, z));
            assert(knots_amount(f, all[k], x, y, z) == curve(f, values@[k], x, y, z));
        }
    }
}

proof fn lemma_func<F: Fn(Ask) -> u64>(f: F, n: Node, x: i32, y: i32, z: i32)
    ensures
        same_function(f, n, x, y, z),
    decreases n, 1nat,
{
    match n {
        Node::Unary { input, .. } => lemma_func(f, inner(input), x, y, z),
        Node::Binary { left, right, .. } => {
            lemma_func(f, inner(left), x, y, z);
            lemma_func(f, inner(right), x, y, z);
        },
        Node::Noise { .. } => lemma_func_noise(f, n, x, y, z),
        Node::RangeChoice { choice, when_in_range, when_out_of_range, .. } => {
            lemma_func(f, inner(choice), x, y, z);
            lemma_func(f, inner(when_in_range), x, y, z);
            lemma_func(f, inner(when_out_of_range), x, y, z);
        },
        Node::IntervalSelect { .. } => lemma_func_select(f, n, x, y, z),
        Node::Cache { cached, .. } => lemma_func(f, inner(cached), x, y, z),
        Node::BlendDensity(i) => lemma_func(f, inner(i), x, y, z),
        Node::Slice { along, coordinate, whole } => match along {
            Axis::X => lemma_func(f, inner(whole), coordinate, y, z),
            Axis::Y => lemma_func(f, inner(whole), x, coordinate, z),
            Axis::Z => lemma_func(f, inner(whole), x, y, coordinate),
        },
        Node::Lerp { alpha, first, second } => {
            lemma_func(f, inner(alpha), x, y, z);
            lemma_func(f, inner(first), x, y, z);
            lemma_func(f, inner(second), x, y, z);
        },
        Node::Spline(sp) => {
            if by_block(f, n) {
                lemma_func_spline(f, sp, x, y, z);
            }
        },
        _ => {},
    }
}

/// Slicing a node along the axes that it does not depend on changes no
/// value: over every volume the rewritten node has the values of the node,
/// where both go by blocks and noises are flat along axes that they
/// are scaled by zero along.
pub proof fn law_slicing_keeps_values<F: Fn(Ask) -> u64>(
    f: F, n: Node, r: Node, parent: Axes, v: Lattice, c: Seq<Slab>, d: Seq<Slab>, i: int, inputs: Map<usize, Node>,
    outputs: Map<usize, Node>,
)
    requires
        noises_are_flat(f),
        by_block(f, n),
        by_block(f, r),
        func_of(r) == rewritten(func_of(n), parent),
        sound(n),
        sound(r),
        agrees(n, inputs),
        agrees(r, outputs),
        proper(v),
        honest(f, c, inputs),
        honest(f, d, outputs),
        0 <= i < v.count(),
    ensures
        sampled(f, r, v, d).0[i] == sampled(f, n, v, c).0[i],
{
    let (x, y, z) = (v.at_x(i), v.at_y(i), v.at_z(i));
    lemma_func(f, n, x, y, z);
    lemma_rewritten(f, func_of(n), parent, x, y, z);
    lemma_func(f, r, x, y, z);
    law_volumes_hold_block_values(f, n, v, c, i, inputs);
    law_volumes_hold_block_values(f, r, v, d, i, outputs);
}

} // verus!
