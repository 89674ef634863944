//! Sampling by parts: the rows of a volume, sampled by themselves, have the
//! values that they have in the whole volume.

use vstd::prelude::*;
use crate::arith::{bisect, extended, hermite_at, holds, low, Ask, ONE_32};
use crate::df26::{
    any_needed, block_sampled, cell_fill, cell_part, chosen, column_ends, corner_lattice, corners_in, covering_slab, distance_at, down_div, down_mod,
    every_block, first_local, gradient_at, inverse, marked_range, mixed, next_corner, noise_in, on_cells, one, reads, row_part, rows_from, rows_of,
    rows_with, run_of_rows, same_slab, sampled, sampled_all, sampled_rows, sampled_where, selected, shift_b, shifted, sound,
    sound_spline, spline_sampled, splines_sampled, thin, thin_place, two, widened, with_rows, within, wrapped, Axis, Lattice, Mode,
    Node, Slab, Spline,
};
use crate::dfcache::{agrees, agrees_spline, inner};
use crate::dfsample::{lemma_cell_of, lemma_index, lemma_rows_within, solid};
use std::sync::Arc;

verus! {

/// The rows `lo..hi` of a volume of single rows, as a branch is sampled by:
/// each end is an end of the volume or of a cell of eight rows.
pub open spec fn is_part(v: Lattice, lo: int, hi: int) -> bool {
    &&& v.ty == 1
    &&& 0 <= lo < hi <= v.sy
    &&& lo == 0 || (v.y + lo) % 8 == 0
    &&& hi == v.sy || (v.y + hi) % 8 == 0
}

/// A lattice with elements and steps along every axis.
pub open spec fn proper(v: Lattice) -> bool {
    solid(v) && v.tx > 0 && v.ty > 0 && v.tz > 0
}

/// A slab holds the values that its input has at its blocks.
pub open spec fn holds_values<F: Fn(Ask) -> u64>(f: F, n: Node, s: Slab) -> bool {
    &&& proper(s.vol)
    &&& forall|i: int| 0 <= i < s.vol.count() ==> #[trigger] s.buf[i] == worth_at(f, n, s.vol, i)
}

/// Every slab of an input that goes by blocks holds that input's values.
pub open spec fn honest<F: Fn(Ask) -> u64>(f: F, c: Seq<Slab>, inputs: Map<usize, Node>) -> bool {
    forall|k: int|
        0 <= k < c.len() && inputs.contains_key((#[trigger] c[k]).id) && by_block(f, inputs[c[k].id]) ==> holds_values(
            f, inputs[c[k].id], c[k])
}

/// An element of a part has the value that stands for it in a buffer of the
/// whole volume.
pub open spec fn same_in_part<F: Fn(Ask) -> u64>(
    f: F, n: Node, v: Lattice, whole: Seq<u32>, lo: int, hi: int, c: Seq<Slab>, x: int, y: int, z: int,
) -> bool {
    let w = row_part(v, lo, hi);
    sampled(f, n, w, c).0[w.place(x, y, z)] == whole[v.place(x, lo + y, z)]
}

/// Sampling a part leaves what is cached honest.
pub open spec fn honest_after<F: Fn(Ask) -> u64>(
    f: F, n: Node, v: Lattice, lo: int, hi: int, c: Seq<Slab>, inputs: Map<usize, Node>,
) -> bool {
    honest(f, sampled(f, n, row_part(v, lo, hi), c).1, inputs)
}

/// Sampling parts of a volume keeps honest what is cached.
pub open spec fn parts_keep<F: Fn(Ask) -> u64>(f: F, n: Node, v: Lattice, inputs: Map<usize, Node>) -> bool {
    forall|lo: int, hi: int, c: Seq<Slab>|
        is_part(v, lo, hi) && honest(f, c, inputs) ==> #[trigger] honest_after(f, n, v, lo, hi, c, inputs)
}

/// Every part of a volume is sampled as a buffer of the whole has it.
pub open spec fn parts_give<F: Fn(Ask) -> u64>(f: F, n: Node, v: Lattice, whole: Seq<u32>, inputs: Map<usize, Node>) -> bool {
    forall|lo: int, hi: int, c: Seq<Slab>, x: int, y: int, z: int|
        is_part(v, lo, hi) && honest(f, c, inputs) && 0 <= x < v.sx && 0 <= y < hi - lo && 0 <= z < v.sz
            ==> #[trigger] same_in_part(f, n, v, whole, lo, hi, c, x, y, z)
}

/// A node samples the parts of a volume as it samples the whole, whatever
/// was honestly cached before either. `inputs` are the cached inputs.
pub open spec fn parts_alike<F: Fn(Ask) -> u64>(f: F, n: Node, v: Lattice, inputs: Map<usize, Node>) -> bool {
    &&& parts_keep(f, n, v, inputs)
    &&& forall|c: Seq<Slab>| honest(f, c, inputs) ==> parts_give(f, n, v, #[trigger] sampled(f, n, v, c).0, inputs)
}

/// A place within a lattice leads back to its coordinates.
pub(crate) proof fn lemma_place_index(v: Lattice, x: int, y: int, z: int)
    requires
        solid(v),
        0 <= x < v.sx,
        0 <= y < v.sy,
        0 <= z < v.sz,
    ensures
        0 <= v.place(x, y, z) < v.count(),
        v.ix(v.place(x, y, z)) == x,
        v.iy(v.place(x, y, z)) == y,
        v.iz(v.place(x, y, z)) == z,
{
    let col = x + z * v.sx;
    let i = v.place(x, y, z);
    assert(0 <= col && col < v.sx * v.sz) by (nonlinear_arith)
        requires
            0 <= x < v.sx,
            0 <= z < v.sz,
            col == x + z * v.sx,
    ;
    assert(0 <= i && i < v.sx * v.sy * v.sz) by (nonlinear_arith)
        requires
            i == y + col * v.sy,
            0 <= y < v.sy,
            0 <= col < v.sx * v.sz,
    ;
    assert(i == col * v.sy + y);
    vstd::arithmetic::div_mod::lemma_fundamental_div_mod_converse(i, v.sy, col, y);
    vstd::arithmetic::div_mod::lemma_fundamental_div_mod_converse(col, v.sx, z, x);
}

/// Wrapping on the way changes nothing.
pub(crate) proof fn lemma_wrapped(a: int, b: int)
    ensures
        wrapped(wrapped(a) + b) == wrapped(a + b),
{
    let m = 0x1_0000_0000int;
    let k = (a + 0x8000_0000) / m;
    vstd::arithmetic::div_mod::lemma_fundamental_div_mod(a + 0x8000_0000, m);
    assert(wrapped(a) == a - m * k);
    vstd::arithmetic::div_mod::lemma_mod_multiples_vanish(-k, a + b + 0x8000_0000, m);
    assert(m * (-k) + (a + b + 0x8000_0000) == wrapped(a) + b + 0x8000_0000);
}

/// A run of rows ends after its first, and within the volume.
proof fn lemma_run(need: Seq<bool>, y: int)
    requires
        0 <= y <= need.len(),
    ensures
        y <= run_of_rows(need, y) <= need.len(),
        y < need.len() && need[y] ==> y < run_of_rows(need, y),
    decreases need.len() - y,
{
    if y < need.len() && any_needed(need, y, y + 16) {
        lemma_run(need, y + 1);
    }
    if y < need.len() && need[y] {
        assert(any_needed(need, y, y + 16));
    }
}

/// Widened rows are a part that holds them.
proof fn lemma_widened_part(v: Lattice, y: int, end: int)
    requires
        v.ty == 1,
        0 <= y < end <= v.sy,
    ensures
        ({
            let (lo, hi) = widened(v, y, end);
            is_part(v, lo, hi) && lo <= y && end <= hi
        }),
{
    vstd::arithmetic::div_mod::lemma_fundamental_div_mod(v.y + y, 8);
    vstd::arithmetic::div_mod::lemma_fundamental_div_mod(v.y + end - 1, 8);
    assert(down_div(v.y + y, 8) == (v.y + y) / 8);
    assert(down_div(v.y + end - 1, 8) == (v.y + end - 1) / 8);
}

/// Rows sampled by runs leave honest what is cached.
proof fn lemma_rows_honest<F: Fn(Ask) -> u64>(
    f: F, n: Node, need: Seq<bool>, y: int, v: Lattice, out: Seq<u32>, c: Seq<Slab>, inputs: Map<usize, Node>,
)
    requires
        v.ty == 1,
        need.len() == v.sy,
        0 <= y <= v.sy,
        parts_keep(f, n, v, inputs),
        honest(f, c, inputs),
    ensures
        honest(f, rows_from(f, n, need, y, v, out, c).1, inputs),
    decreases v.sy - y,
{
    if y < v.sy {
        if !need[y] {
            lemma_rows_honest(f, n, need, y + 1, v, out, c, inputs);
        } else {
            lemma_run(need, y);
            let end = run_of_rows(need, y);
            lemma_widened_part(v, y, end);
            let (lo, hi) = widened(v, y, end);
            let w = row_part(v, lo, hi);
            let (b, d) = sampled(f, n, w, c);
            assert(honest_after(f, n, v, lo, hi, c, inputs));
            lemma_rows_honest(f, n, need, end, v, with_rows(v, out, w, b, lo, y, end), d, inputs);
        }
    }
}

/// Rows sampled by runs: rows before `y` are left, and every needed row
/// from there on is that of the whole.
proof fn lemma_rows_from<F: Fn(Ask) -> u64>(
    f: F, n: Node, need: Seq<bool>, y: int, v: Lattice, out: Seq<u32>, c: Seq<Slab>, whole: Seq<u32>, i: int,
    inputs: Map<usize, Node>,
)
    requires
        solid(v),
        v.ty == 1,
        need.len() == v.sy,
        0 <= y <= v.sy,
        parts_keep(f, n, v, inputs),
        parts_give(f, n, v, whole, inputs),
        honest(f, c, inputs),
        0 <= i < v.count(),
    ensures
        v.iy(i) < y ==> rows_from(f, n, need, y, v, out, c).0[i] == out[i],
        v.iy(i) >= y && need[v.iy(i)] ==> rows_from(f, n, need, y, v, out, c).0[i] == whole[i],
    decreases v.sy - y,
{
    lemma_index(v, i);
    if y < v.sy {
        if !need[y] {
            lemma_rows_from(f, n, need, y + 1, v, out, c, whole, i, inputs);
        } else {
            lemma_run(need, y);
            let end = run_of_rows(need, y);
            lemma_widened_part(v, y, end);
            let (lo, hi) = widened(v, y, end);
            let w = row_part(v, lo, hi);
            let (b, d) = sampled(f, n, w, c);
            let next = with_rows(v, out, w, b, lo, y, end);
            assert(honest_after(f, n, v, lo, hi, c, inputs));
            lemma_rows_from(f, n, need, end, v, next, d, whole, i, inputs);
            if y <= v.iy(i) < end {
                assert(same_in_part(f, n, v, whole, lo, hi, c, v.ix(i), v.iy(i) - lo, v.iz(i)));
                assert(next[i] == whole[i]);
            }
        }
    }
}

proof fn lemma_sampled_rows<F: Fn(Ask) -> u64>(
    f: F, n: Node, need: Seq<bool>, v: Lattice, c: Seq<Slab>, whole: Seq<u32>, i: int, inputs: Map<usize, Node>,
)
    requires
        solid(v),
        v.ty == 1,
        need.len() == v.sy,
        parts_keep(f, n, v, inputs),
        parts_give(f, n, v, whole, inputs),
        honest(f, c, inputs),
        0 <= i < v.count(),
        need[v.iy(i)],
        !(n is Constant),
    ensures
        sampled_rows(f, n, need, true, v, c).0[i] == whole[i],
{
    lemma_index(v, i);
    lemma_rows_from(f, n, need, 0, v, Seq::new(v.count() as nat, |i: int| 0u32), c, whole, i, inputs);
}

/// A branch that is sampled on the rows that are needed has there the values
/// of the whole volume, where it samples parts alike.
pub proof fn law_needed_rows_are_the_wholes<F: Fn(Ask) -> u64>(
    f: F, n: Node, need: Seq<bool>, by_rows: bool, v: Lattice, c: Seq<Slab>, i: int, inputs: Map<usize, Node>,
)
    requires
        solid(v),
        need.len() == v.sy,
        by_rows ==> v.ty == 1 && parts_alike(f, n, v, inputs) && honest(f, c, inputs),
        0 <= i < v.count(),
        need[v.iy(i)],
    ensures
        sampled_rows(f, n, need, by_rows, v, c).0[i] == sampled(f, n, v, c).0[i],
{
    if by_rows && !(n is Constant) {
        lemma_sampled_rows(f, n, need, v, c, sampled(f, n, v, c).0, i, inputs);
    }
}

/// A node whose value at an element of a volume depends on the element's
/// block alone.
pub open spec fn by_block<F: Fn(Ask) -> u64>(f: F, n: Node) -> bool
    decreases n,
{
    match n {
        Node::Constant(_) => true,
        Node::Unary { input, .. } => by_block(f, *input),
        Node::Binary { left, right, .. } => by_block(f, *left) && by_block(f, *right),
        Node::Noise { shift_x, shift_y, shift_z, .. } => {
            &&& (shift_x matches Some(s) ==> by_block(f, *s))
            &&& (shift_y matches Some(s) ==> by_block(f, *s))
            &&& (shift_z matches Some(s) ==> by_block(f, *s))
        },
        Node::ShiftB(_) => true,
        Node::Gradient { .. } => true,
        Node::RangeChoice { choice, when_in_range, when_out_of_range, .. } => by_block(f, *choice) && by_block(f, *when_in_range) && by_block(
            f, *when_out_of_range),
        Node::IntervalSelect { selector, thresholds, functions } => {
            &&& functions@.len() == thresholds@.len() + 1
            &&& by_block(f, *selector)
            &&& forall|i: int| 0 <= i < functions@.len() ==> by_block(f, *#[trigger] functions@[i])
        },
        Node::Cache { cached, .. } => by_block(f, *cached),
        Node::BlendDensity(i) => by_block(f, *i),
        Node::BlendAlpha => true,
        Node::BlendOffset => true,
        Node::Beardifier => true,
        Node::Slice { whole, .. } => by_block(f, *whole),
        Node::DistanceToPoint { .. } => true,
        Node::Lerp { alpha, first, second } => {
            &&& by_block(f, *alpha) && by_block(f, *first) && by_block(f, *second)
            &&& !plain_noise(*first) && !plain_noise(*second)
            &&& ends_apart(f)
        },
        Node::Spline(sp) => curve_by_block(f, sp) && exists|names: Map<usize, Node>| #[trigger] keyed(sp, names),
        _ => false,
    }
}

/// Nothing is equal to zero and to one.
pub open spec fn ends_apart<F: Fn(Ask) -> u64>(f: F) -> bool {
    forall|a: u32| !(#[trigger] holds(f, Ask::Equal32(a, 0)) && holds(f, Ask::Equal32(a, ONE_32)))
}

/// A noise without shifts: as a side of an interpolation it takes another
/// path where few blocks read it.
pub open spec fn plain_noise(n: Node) -> bool {
    n matches Node::Noise { shift_x, shift_y, shift_z, .. } && shift_x is None && shift_y is None && shift_z is None
}

/// A spline all of whose coordinates go by blocks.
pub open spec fn curve_by_block<F: Fn(Ask) -> u64>(f: F, sp: Spline) -> bool
    decreases sp,
{
    match sp {
        Spline::Constant(_) => true,
        Spline::Multipoint { coordinate, values, .. } => {
            &&& by_block(f, *coordinate)
            &&& forall|i: int| 0 <= i < values@.len() ==> curve_by_block(f, #[trigger] values@[i])
        },
    }
}

/// Each key of a spline names one coordinate.
pub open spec fn keyed(sp: Spline, names: Map<usize, Node>) -> bool
    decreases sp,
{
    match sp {
        Spline::Constant(_) => true,
        Spline::Multipoint { key, coordinate, values, .. } => {
            &&& names.contains_key(key) && names[key] == *coordinate
            &&& forall|i: int| 0 <= i < values@.len() ==> keyed(#[trigger] values@[i], names)
        },
    }
}

/// The value of such a spline at a block.
pub open spec fn curve<F: Fn(Ask) -> u64>(f: F, sp: Spline, x: i32, y: i32, z: i32) -> u32
    decreases sp,
{
    match sp {
        Spline::Constant(k) => k,
        Spline::Multipoint { coordinate, locations, values, derivatives, .. } => {
            let input = worth(f, *coordinate, x, y, z);
            let k = bisect(f, locations@, input, 0, locations@.len() as int);
            let last = locations@.len() - 1;
            if k <= 0 && values@.len() > 0 {
                extended(f, input, locations@[0], curve(f, values@[0], x, y, z), derivatives@[0])
            } else if k > last && 0 <= last < values@.len() {
                extended(f, input, locations@[last], curve(f, values@[last], x, y, z), derivatives@[last])
            } else if 0 < k < values@.len() {
                hermite_at(
                    f, input, locations@[k - 1], locations@[k], curve(f, values@[k - 1], x, y, z),
                    curve(f, values@[k], x, y, z), derivatives@[k - 1], derivatives@[k])
            } else {
                0
            }
        },
    }
}

/// The value of such a spline at an element of a volume.
pub open spec fn curve_at<F: Fn(Ask) -> u64>(f: F, sp: Spline, v: Lattice, i: int) -> u32 {
    curve(f, sp, v.at_x(i), v.at_y(i), v.at_z(i))
}

/// The value of such a node at a block.
pub open spec fn worth<F: Fn(Ask) -> u64>(f: F, n: Node, x: i32, y: i32, z: i32) -> u32
    decreases n,
{
    match n {
        Node::Constant(k) => k,
        Node::Unary { op, input } => one(f, op, worth(f, *input, x, y, z)),
        Node::Binary { combine, left, right } => two(f, combine, worth(f, *left, x, y, z), worth(f, *right, x, y, z)),
        Node::Noise { stack, xz_scale, y_scale, shift_x, shift_y, shift_z } => if shift_x is None && shift_y is None
            && shift_z is None {
            noise_in(f, stack, xz_scale, y_scale, ONE_32, x, y, z)
        } else {
            let sx = match shift_x {
                Some(s) => worth(f, *s, x, y, z),
                None => 0,
            };
            let sy = match shift_y {
                Some(s) => worth(f, *s, x, y, z),
                None => 0,
            };
            let sz = match shift_z {
                Some(s) => worth(f, *s, x, y, z),
                None => 0,
            };
            low(
                f,
                Ask::Stack {
                    stack,
                    x: shifted(f, x, xz_scale, sx),
                    y: shifted(f, y, y_scale, sy),
                    z: shifted(f, z, xz_scale, sz),
                },
            )
        },
        Node::ShiftB(stack) => shift_b(f, stack, Mode::Volume, x, z),
        Node::Gradient { axis, tiling, from_coordinate, to_coordinate, from_value, factor } => gradient_at(
            f, tiling, from_coordinate, to_coordinate, from_value, factor, chosen(axis, x, y, z)),
        Node::RangeChoice { choice, min_inclusive, max_exclusive, when_in_range, when_out_of_range } => if within(
            f, worth(f, *choice, x, y, z), min_inclusive, max_exclusive) {
            worth(f, *when_in_range, x, y, z)
        } else {
            worth(f, *when_out_of_range, x, y, z)
        },
        Node::IntervalSelect { selector, thresholds, functions } => {
            let k = selected(f, thresholds@, worth(f, *selector, x, y, z), 0);
            if 0 <= k < functions@.len() { worth(f, *functions@[k], x, y, z) } else { 0 }
        },
        Node::Cache { cached, .. } => worth(f, *cached, x, y, z),
        Node::BlendDensity(i) => worth(f, *i, x, y, z),
        Node::BlendAlpha => ONE_32,
        Node::Slice { along, coordinate, whole } => match along {
            Axis::X => worth(f, *whole, coordinate, y, z),
            Axis::Y => worth(f, *whole, x, coordinate, z),
            Axis::Z => worth(f, *whole, x, y, coordinate),
        },
        Node::DistanceToPoint { metric, x: px, y: py, z: pz } => distance_at(f, metric, px, py, pz, x, y, z),
        Node::Lerp { alpha, first, second } => mixed(
            f, worth(f, *alpha, x, y, z), worth(f, *first, x, y, z), worth(f, *second, x, y, z)),
        Node::Spline(sp) => curve(f, sp, x, y, z),
        _ => 0,
    }
}

/// The value of such a node at an element of a volume.
pub open spec fn worth_at<F: Fn(Ask) -> u64>(f: F, n: Node, v: Lattice, i: int) -> u32 {
    worth(f, n, v.at_x(i), v.at_y(i), v.at_z(i))
}

/// An element of a part is the block that it is in the whole.
proof fn lemma_part_block(v: Lattice, lo: int, hi: int, x: int, y: int, z: int)
    requires
        solid(v),
        is_part(v, lo, hi),
        0 <= x < v.sx,
        0 <= y < hi - lo,
        0 <= z < v.sz,
    ensures
        ({
            let w = row_part(v, lo, hi);
            let (i, j) = (v.place(x, lo + y, z), w.place(x, y, z));
            &&& solid(w)
            &&& 0 <= i < v.count()
            &&& 0 <= j < w.count()
            &&& w.at_x(j) == v.at_x(i)
            &&& w.at_y(j) == v.at_y(i)
            &&& w.at_z(j) == v.at_z(i)
        }),
{
    let w = row_part(v, lo, hi);
    lemma_place_index(v, x, lo + y, z);
    lemma_place_index(w, x, y, z);
    lemma_wrapped(v.y + lo, y);
}

/// A selection takes one of the functions.
proof fn lemma_selected<F: Fn(Ask) -> u64>(f: F, thresholds: Seq<u32>, v: u32, i: int)
    requires
        0 <= i <= thresholds.len(),
    ensures
        i <= selected(f, thresholds, v, i) <= thresholds.len(),
    decreases thresholds.len() - i,
{
    if i < thresholds.len() {
        lemma_selected(f, thresholds, v, i + 1);
    }
}

/// What holds of a node's samples: what is cached stays honest, and a node
/// that goes by blocks has the value of each block.
spec fn well_sampled<F: Fn(Ask) -> u64>(f: F, n: Node, v: Lattice, c: Seq<Slab>, inputs: Map<usize, Node>) -> bool {
    &&& honest(f, sampled(f, n, v, c).1, inputs)
    &&& by_block(f, n) ==> forall|i: int| 0 <= i < v.count() ==> #[trigger] sampled(f, n, v, c).0[i] == worth_at(f, n, v, i)
}

proof fn lemma_all_sampled<F: Fn(Ask) -> u64>(
    f: F, functions: Seq<Arc<Node>>, n: nat, v: Lattice, c: Seq<Slab>, inputs: Map<usize, Node>,
)
    requires
        proper(v),
        n <= functions.len(),
        honest(f, c, inputs),
        forall|i: int| 0 <= i < functions.len() ==> sound(*#[trigger] functions[i]) && agrees(*functions[i], inputs),
    ensures
        sampled_all(f, functions, n, v, c).0.len() == n,
        honest(f, sampled_all(f, functions, n, v, c).1, inputs),
        forall|k: int, i: int|
            0 <= k < n && 0 <= i < v.count() && by_block(f, *functions[k]) ==> #[trigger] sampled_all(f, functions, n, v, c).0[k][i]
                == worth_at(f, *functions[k], v, i),
    decreases functions, 1nat, n,
{
    if n > 0 {
        lemma_all_sampled(f, functions, (n - 1) as nat, v, c, inputs);
        let (all, d) = sampled_all(f, functions, (n - 1) as nat, v, c);
        let last = functions[n - 1];
        assert(sound(inner(last)) && agrees(inner(last), inputs));
        assert(decreases_to!(functions => last));
        lemma_volume(f, inner(last), v, d, inputs);
        let b = sampled(f, inner(last), v, d).0;
        let whole = sampled_all(f, functions, n, v, c).0;
        assert(whole == all.push(b));
        assert forall|k: int, i: int| 0 <= k < n && 0 <= i < v.count() && by_block(f, *functions[k]) implies #[trigger] whole[k][i]
            == worth_at(f, *functions[k], v, i) by {
            if k < n - 1 {
                assert(whole[k][i] == all[k][i]);
            } else {
                assert(whole[k][i] == b[i]);
            }
        }
    }
}

/// Sampling a node over a volume.
proof fn lemma_volume<F: Fn(Ask) -> u64>(f: F, n: Node, v: Lattice, c: Seq<Slab>, inputs: Map<usize, Node>)
    requires
        sound(n),
        agrees(n, inputs),
        proper(v),
        honest(f, c, inputs),
    ensures
        well_sampled(f, n, v, c, inputs),
    decreases n, 1nat, 0nat,
{
    match n {
        Node::Unary { input, .. } => lemma_volume(f, inner(input), v, c, inputs),
        Node::Binary { left, right, .. } => {
            lemma_volume(f, inner(left), v, c, inputs);
            lemma_volume(f, inner(right), v, sampled(f, inner(left), v, c).1, inputs);
        },
        Node::Noise { .. } => lemma_noise(f, n, v, c, inputs),
        Node::Lerp { .. } => lemma_lerp(f, n, v, c, inputs),
        Node::RangeChoice { .. } => lemma_choice(f, n, v, c, inputs),
        Node::IntervalSelect { .. } => lemma_select(f, n, v, c, inputs),
        Node::Cache { .. } => lemma_cache(f, n, v, c, inputs),
        Node::BlendDensity(input) => lemma_volume(f, inner(input), v, c, inputs),
        Node::Interpolated { .. } => lemma_cells(f, n, v, c, inputs),
        Node::Slice { .. } => lemma_slice(f, n, v, c, inputs),
        Node::FindTopSurface { upper_bound, .. } => lemma_volume(f, inner(upper_bound), v, c, inputs),
        Node::Spline(sp) => {
            lemma_spline(f, sp, v, c, Map::empty(), inputs);
            if by_block(f, n) {
                let names = choose|names: Map<usize, Node>| #[trigger] keyed(sp, names);
                lemma_curve(f, sp, v, c, Map::empty(), names, inputs);
                assert forall|i: int| 0 <= i < v.count() implies #[trigger] sampled(f, n, v, c).0[i] == worth_at(f, n, v, i) by {
                    assert(sampled(f, n, v, c).0[i] == spline_sampled(f, sp, v, c, Map::empty()).0[i]);
                }
            }
        },
        _ => {},
    }
}

proof fn lemma_noise<F: Fn(Ask) -> u64>(f: F, n: Node, v: Lattice, c: Seq<Slab>, inputs: Map<usize, Node>)
    requires
        n is Noise,
        sound(n),
        agrees(n, inputs),
        proper(v),
        honest(f, c, inputs),
    ensures
        well_sampled(f, n, v, c, inputs),
    decreases n, 0nat, 0nat,
{
    if let Node::Noise { shift_x, shift_y, shift_z, .. } = n {
        let d = match shift_x {
            Some(s) => {
                lemma_volume(f, inner(s), v, c, inputs);
                sampled(f, inner(s), v, c).1
            },
            None => c,
        };
        let e = match shift_y {
            Some(s) => {
                lemma_volume(f, inner(s), v, d, inputs);
                sampled(f, inner(s), v, d).1
            },
            None => d,
        };
        if let Some(s) = shift_z {
            lemma_volume(f, inner(s), v, e, inputs);
        }
    }
}

/// A side that an element reads is read.
proof fn lemma_read<F: Fn(Ask) -> u64>(f: F, alpha: Seq<u32>, skip: u32, n: nat, i: int)
    requires
        0 <= i < n,
        !holds(f, Ask::Equal32(alpha[i], skip)),
    ensures
        reads(f, alpha, skip, n) > 0,
    decreases n,
{
    if i < n - 1 {
        lemma_read(f, alpha, skip, (n - 1) as nat, i);
    }
}

proof fn lemma_lerp<F: Fn(Ask) -> u64>(f: F, n: Node, v: Lattice, c: Seq<Slab>, inputs: Map<usize, Node>)
    requires
        n is Lerp,
        sound(n),
        agrees(n, inputs),
        proper(v),
        honest(f, c, inputs),
    ensures
        well_sampled(f, n, v, c, inputs),
    decreases n, 0nat, 0nat,
{
    if let Node::Lerp { alpha, first, second } = n {
        lemma_volume(f, inner(alpha), v, c, inputs);
        let (a, d) = sampled(f, inner(alpha), v, c);
        lemma_volume(f, inner(first), v, d, inputs);
        let e = sampled_where(f, inner(first), v, d, a, ONE_32).1;
        assert(e == d || e == sampled(f, inner(first), v, d).1);
        lemma_volume(f, inner(second), v, e, inputs);
        let g = sampled_where(f, inner(second), v, e, a, 0).1;
        assert(g == e || g == sampled(f, inner(second), v, e).1);
        if by_block(f, n) {
            let (p, q) = (
                sampled_where(f, inner(first), v, d, a, ONE_32).0, sampled_where(f, inner(second), v, e, a, 0).0);
            assert forall|i: int| 0 <= i < v.count() implies #[trigger] sampled(f, n, v, c).0[i] == worth_at(f, n, v, i) by {
                assert(a[i] == worth_at(f, inner(alpha), v, i));
                if !holds(f, Ask::Equal32(a[i], ONE_32)) {
                    lemma_read(f, a, ONE_32, v.count() as nat, i);
                    assert(p[i] == worth_at(f, inner(first), v, i));
                }
                if !holds(f, Ask::Equal32(a[i], 0)) {
                    lemma_read(f, a, 0, v.count() as nat, i);
                    assert(q[i] == worth_at(f, inner(second), v, i));
                }
            }
        }
    }
}

proof fn lemma_select<F: Fn(Ask) -> u64>(f: F, n: Node, v: Lattice, c: Seq<Slab>, inputs: Map<usize, Node>)
    requires
        n is IntervalSelect,
        sound(n),
        agrees(n, inputs),
        proper(v),
        honest(f, c, inputs),
    ensures
        well_sampled(f, n, v, c, inputs),
    decreases n, 0nat, 0nat,
{
    if let Node::IntervalSelect { selector, thresholds, functions } = n {
        lemma_volume(f, inner(selector), v, c, inputs);
        let (b, d) = sampled(f, inner(selector), v, c);
        assert(decreases_to!(n => functions));
        assert(decreases_to!(functions => functions@));
        assert forall|i: int| 0 <= i < functions@.len() implies sound(*#[trigger] functions@[i]) && agrees(
            *functions@[i], inputs) by {}
        lemma_all_sampled(f, functions@, functions@.len(), v, d, inputs);
        if by_block(f, n) {
            assert forall|i: int| 0 <= i < v.count() implies #[trigger] sampled(f, n, v, c).0[i] == worth_at(f, n, v, i) by {
                let k = selected(f, thresholds@, b[i], 0);
                lemma_selected(f, thresholds@, b[i], 0);
                let all = sampled_all(f, functions@, functions@.len(), v, d).0;
                assert(by_block(f, *functions@[k]));
                assert(all[k][i] == worth_at(f, *functions@[k], v, i));
            }
        }
    }
}

/// A slab's rows are the values of the blocks they stand for.
proof fn lemma_covered<F: Fn(Ask) -> u64>(f: F, n: Node, s: Slab, v: Lattice, i: int)
    requires
        holds_values(f, n, s),
        s.vol.covers(v),
        proper(v),
        0 <= i < v.count(),
    ensures
        rows_of(s, v)[i] == worth_at(f, n, v, i),
{
    let a = s.vol;
    let off = (v.y - a.y) / a.ty;
    lemma_index(v, i);
    lemma_rows_within(a, v);
    let j = a.place(v.ix(i), v.iy(i) + off, v.iz(i));
    lemma_place_index(a, v.ix(i), v.iy(i) + off, v.iz(i));
    vstd::arithmetic::div_mod::lemma_fundamental_div_mod(v.y - a.y, a.ty);
    assert(a.y + (v.iy(i) + off) * a.ty == v.y + v.iy(i) * v.ty) by (nonlinear_arith)
        requires
            v.y - a.y == a.ty * off,
            a.ty == v.ty,
    ;
    assert(s.buf[j] == worth_at(f, n, a, j));
}

proof fn lemma_same_slab(c: Seq<Slab>, id: usize, v: Lattice, k: int)
    requires
        0 <= k <= c.len(),
    ensures
        same_slab(c, id, v, k) matches Some(j) ==> k <= j < c.len() && c[j].id == id && c[j].vol == v,
    decreases c.len() - k,
{
    if k < c.len() {
        lemma_same_slab(c, id, v, k + 1);
    }
}

proof fn lemma_covering_slab(c: Seq<Slab>, id: usize, v: Lattice, k: int)
    requires
        0 <= k <= c.len(),
    ensures
        covering_slab(c, id, v, k) matches Some(j) ==> k <= j < c.len() && c[j].id == id && c[j].vol.covers(v),
    decreases c.len() - k,
{
    if k < c.len() {
        lemma_covering_slab(c, id, v, k + 1);
    }
}

proof fn lemma_cache<F: Fn(Ask) -> u64>(f: F, n: Node, v: Lattice, c: Seq<Slab>, inputs: Map<usize, Node>)
    requires
        n is Cache,
        sound(n),
        agrees(n, inputs),
        proper(v),
        honest(f, c, inputs),
    ensures
        well_sampled(f, n, v, c, inputs),
    decreases n, 0nat, 0nat,
{
    if let Node::Cache { id, cached } = n {
        lemma_same_slab(c, id, v, 0);
        lemma_covering_slab(c, id, v, 0);
        lemma_volume(f, inner(cached), v, c, inputs);
        match same_slab(c, id, v, 0) {
            Some(k) => {
                assert(c[k].id == id);
            },
            None => match covering_slab(c, id, v, 0) {
                Some(k) => {
                    assert(c[k].id == id);
                    if by_block(f, n) {
                        assert forall|i: int| 0 <= i < v.count() implies #[trigger] sampled(f, n, v, c).0[i] == worth_at(
                            f, n, v, i) by {
                            lemma_covered(f, inner(cached), c[k], v, i);
                        }
                    }
                },
                None => {
                    let (b, d) = sampled(f, inner(cached), v, c);
                    let s = Slab { id, vol: v, buf: b };
                    if by_block(f, inner(cached)) {
                        assert(holds_values(f, inner(cached), s));
                    }
                    let e = d.push(s);
                    assert forall|k: int|
                        0 <= k < e.len() && inputs.contains_key((#[trigger] e[k]).id) && by_block(f, inputs[e[k].id]) implies holds_values(
                        f, inputs[e[k].id], e[k]) by {
                        if k < d.len() {
                            assert(e[k] == d[k]);
                        }
                    }
                },
            },
        }
    }
}

proof fn lemma_cells<F: Fn(Ask) -> u64>(f: F, n: Node, v: Lattice, c: Seq<Slab>, inputs: Map<usize, Node>)
    requires
        n is Interpolated,
        sound(n),
        agrees(n, inputs),
        proper(v),
        honest(f, c, inputs),
    ensures
        well_sampled(f, n, v, c, inputs),
    decreases n, 0nat, 0nat,
{
    if let Node::Interpolated { cell_size_xz, cell_size_y, corners } = n {
        let (k, g) = (cell_size_xz as int, cell_size_y as int);
        let u = if v.tx == 1 && v.ty == 1 && v.tz == 1 { v } else { every_block(v) };
        assert(u.sx > 0 && u.sy > 0 && u.sz > 0) by (nonlinear_arith)
            requires
                u.sx == v.sx || u.sx == v.sx * v.tx,
                u.sy == v.sy || u.sy == v.sy * v.ty,
                u.sz == v.sz || u.sz == v.sz * v.tz,
                v.sx > 0 && v.sy > 0 && v.sz > 0 && v.tx > 0 && v.ty > 0 && v.tz > 0,
        ;
        lemma_cell_of(u.x, u.sx, k, 0);
        lemma_cell_of(u.y, u.sy, g, 0);
        lemma_cell_of(u.z, u.sz, k, 0);
        lemma_volume(f, inner(corners), v, c, inputs);
        let w = corner_lattice(u, k, g);
        assert(proper(w));
        lemma_volume(f, inner(corners), w, c, inputs);
        if on_cells(v, k, g) {
            assert(sampled(f, n, v, c) == sampled(f, inner(corners), v, c));
        } else {
            let b = block_sampled(f, inner(corners), u, cell_size_xz, cell_size_y, c);
            assert(b.1 == sampled(f, inner(corners), w, c).1);
            assert(sampled(f, n, v, c).1 == b.1);
        }
    }
}

proof fn lemma_slice<F: Fn(Ask) -> u64>(f: F, n: Node, v: Lattice, c: Seq<Slab>, inputs: Map<usize, Node>)
    requires
        n is Slice,
        sound(n),
        agrees(n, inputs),
        proper(v),
        honest(f, c, inputs),
    ensures
        well_sampled(f, n, v, c, inputs),
    decreases n, 0nat, 0nat,
{
    if let Node::Slice { along, coordinate, whole } = n {
        let w = thin(v, along, coordinate);
        lemma_volume(f, inner(whole), w, c, inputs);
        if by_block(f, n) {
            assert forall|i: int| 0 <= i < v.count() implies #[trigger] sampled(f, n, v, c).0[i] == worth_at(f, n, v, i) by {
                lemma_layer(v, along, coordinate, i);
                let j = thin_place(v, along, i);
                assert(sampled(f, n, v, c).0[i] == sampled(f, inner(whole), w, c).0[j]);
            }
        }
    }
}

/// The block of an element's place in a layer.
proof fn lemma_layer(v: Lattice, along: Axis, coordinate: i32, i: int)
    requires
        solid(v),
        0 <= i < v.count(),
    ensures
        ({
            let w = thin(v, along, coordinate);
            let j = thin_place(v, along, i);
            &&& 0 <= j < w.count()
            &&& w.at_x(j) == (if along is X { coordinate } else { v.at_x(i) })
            &&& w.at_y(j) == (if along is Y { coordinate } else { v.at_y(i) })
            &&& w.at_z(j) == (if along is Z { coordinate } else { v.at_z(i) })
        }),
{
    let w = thin(v, along, coordinate);
    lemma_index(v, i);
    match along {
        Axis::X => lemma_place_index(w, 0, v.iy(i), v.iz(i)),
        Axis::Y => lemma_place_index(w, v.ix(i), 0, v.iz(i)),
        Axis::Z => lemma_place_index(w, v.ix(i), v.iy(i), 0),
    }
    assert(wrapped(coordinate as int) == coordinate);
    assert(0 * w.tx == 0 && 0 * w.ty == 0 && 0 * w.tz == 0);
}

/// What is cached stays honest while a spline is sampled.
proof fn lemma_spline<F: Fn(Ask) -> u64>(
    f: F, sp: Spline, v: Lattice, c: Seq<Slab>, known: Map<usize, Seq<u32>>, inputs: Map<usize, Node>,
)
    requires
        sound_spline(sp),
        agrees_spline(sp, inputs),
        proper(v),
        honest(f, c, inputs),
    ensures
        honest(f, spline_sampled(f, sp, v, c, known).1, inputs),
    decreases sp, 1nat, 0nat,
{
    if let Spline::Multipoint { key, coordinate, locations, values, derivatives } = sp {
        let (d, m) = if known.contains_key(key) {
            (c, known)
        } else {
            lemma_volume(f, inner(coordinate), v, c, inputs);
            let (b, d) = sampled(f, inner(coordinate), v, c);
            (d, known.insert(key, b))
        };
        assert(decreases_to!(sp => values));
        assert(decreases_to!(values => values@));
        assert forall|i: int| 0 <= i < values@.len() implies sound_spline(#[trigger] values@[i]) && agrees_spline(
            values@[i], inputs) by {}
        lemma_splines(f, values@, values@.len(), v, d, m, inputs);
    }
}

proof fn lemma_splines<F: Fn(Ask) -> u64>(
    f: F, values: Seq<Spline>, n: nat, v: Lattice, c: Seq<Slab>, known: Map<usize, Seq<u32>>, inputs: Map<usize, Node>,
)
    requires
        n <= values.len(),
        proper(v),
        honest(f, c, inputs),
        forall|i: int| 0 <= i < values.len() ==> sound_spline(#[trigger] values[i]) && agrees_spline(values[i], inputs),
    ensures
        honest(f, splines_sampled(f, values, n, v, c, known).1, inputs),
    decreases values, 1nat, n,
{
    if n > 0 {
        lemma_splines(f, values, (n - 1) as nat, v, c, known, inputs);
        let (_, d, m) = splines_sampled(f, values, (n - 1) as nat, v, c, known);
        assert(decreases_to!(values => values[n - 1]));
        assert(sound_spline(values[n - 1]));
        lemma_spline(f, values[n - 1], v, d, m, inputs);
    }
}

/// Coordinates that are known are those that keys name.
spec fn known_right<F: Fn(Ask) -> u64>(f: F, v: Lattice, known: Map<usize, Seq<u32>>, names: Map<usize, Node>) -> bool {
    forall|k: usize, i: int|
        known.contains_key(k) && names.contains_key(k) && by_block(f, names[k]) && 0 <= i < v.count() ==> #[trigger] known[k][i]
            == worth_at(f, names[k], v, i)
}

proof fn lemma_bisect<F: Fn(Ask) -> u64>(f: F, locations: Seq<u32>, input: u32, from: int, to: int)
    requires
        from <= to,
    ensures
        from <= bisect(f, locations, input, from, to) <= to,
    decreases to - from,
{
    if from < to {
        let mid = from + (to - from) / 2;
        lemma_bisect(f, locations, input, from, mid);
        lemma_bisect(f, locations, input, mid + 1, to);
    }
}

/// A spline that goes by blocks has its value at each.
proof fn lemma_curve<F: Fn(Ask) -> u64>(
    f: F, sp: Spline, v: Lattice, c: Seq<Slab>, known: Map<usize, Seq<u32>>, names: Map<usize, Node>, inputs: Map<usize, Node>,
)
    requires
        sound_spline(sp),
        agrees_spline(sp, inputs),
        curve_by_block(f, sp),
        keyed(sp, names),
        proper(v),
        honest(f, c, inputs),
        known_right(f, v, known, names),
    ensures
        known_right(f, v, spline_sampled(f, sp, v, c, known).2, names),
        forall|i: int| 0 <= i < v.count() ==> #[trigger] spline_sampled(f, sp, v, c, known).0[i] == curve_at(f, sp, v, i),
    decreases sp, 1nat, 0nat,
{
    if let Spline::Multipoint { key, coordinate, locations, values, derivatives } = sp {
        let (input, d, m) = if known.contains_key(key) {
            (known[key], c, known)
        } else {
            lemma_volume(f, inner(coordinate), v, c, inputs);
            let (b, d) = sampled(f, inner(coordinate), v, c);
            (b, d, known.insert(key, b))
        };
        assert(names[key] == inner(coordinate));
        assert(known_right(f, v, m, names));
        assert(decreases_to!(sp => values));
        assert(decreases_to!(values => values@));
        assert forall|i: int| 0 <= i < values@.len() implies sound_spline(#[trigger] values@[i]) && agrees_spline(
            values@[i], inputs) && curve_by_block(f, values@[i]) && keyed(values@[i], names) by {}
        lemma_curves(f, values@, values@.len(), v, d, m, names, inputs);
        let bufs = splines_sampled(f, values@, values@.len(), v, d, m).0;
        assert forall|i: int| 0 <= i < v.count() implies #[trigger] spline_sampled(f, sp, v, c, known).0[i] == curve_at(f, sp, v, i) by {
            assert(input[i] == worth_at(f, inner(coordinate), v, i));
            let k = bisect(f, locations@, input[i], 0, locations@.len() as int);
            lemma_bisect(f, locations@, input[i], 0, locations@.len() as int);
            let last = locations@.len() - 1;
            if k <= 0 {
                assert(bufs[0][i] == curve_at(f, values@[0], v, i));
            } else if k > last {
                assert(bufs[last][i] == curve_at(f, values@[last], v, i));
            } else {
                assert(bufs[k - 1][i] == curve_at(f, values@[k - 1], v, i));
                assert(bufs[k][i] == curve_at(f, values@[k], v, i));
            }
        }
    }
}

proof fn lemma_curves<F: Fn(Ask) -> u64>(
    f: F, values: Seq<Spline>, n: nat, v: Lattice, c: Seq<Slab>, known: Map<usize, Seq<u32>>, names: Map<usize, Node>,
    inputs: Map<usize, Node>,
)
    requires
        n <= values.len(),
        proper(v),
        honest(f, c, inputs),
        known_right(f, v, known, names),
        forall|i: int|
            0 <= i < values.len() ==> sound_spline(#[trigger] values[i]) && agrees_spline(values[i], inputs) && curve_by_block(f, values[i])
                && keyed(values[i], names),
    ensures
        splines_sampled(f, values, n, v, c, known).0.len() == n,
        known_right(f, v, splines_sampled(f, values, n, v, c, known).2, names),
        forall|k: int, i: int|
            0 <= k < n && 0 <= i < v.count() ==> #[trigger] splines_sampled(f, values, n, v, c, known).0[k][i] == curve_at(
                f, values[k], v, i),
    decreases values, 1nat, n,
{
    if n > 0 {
        lemma_curves(f, values, (n - 1) as nat, v, c, known, names, inputs);
        lemma_splines(f, values, (n - 1) as nat, v, c, known, inputs);
        let (all, d, m) = splines_sampled(f, values, (n - 1) as nat, v, c, known);
        assert(decreases_to!(values => values[n - 1]));
        assert(sound_spline(values[n - 1]));
        lemma_curve(f, values[n - 1], v, d, m, names, inputs);
        let b = spline_sampled(f, values[n - 1], v, d, m).0;
        let whole = splines_sampled(f, values, n, v, c, known).0;
        assert(whole == all.push(b));
        assert forall|k: int, i: int| 0 <= k < n && 0 <= i < v.count() implies #[trigger] whole[k][i] == curve_at(f, values[k], v, i) by {
            if k < n - 1 {
                assert(whole[k][i] == all[k][i]);
            } else {
                assert(whole[k][i] == b[i]);
            }
        }
    }
}

proof fn lemma_choice<F: Fn(Ask) -> u64>(f: F, n: Node, v: Lattice, c: Seq<Slab>, inputs: Map<usize, Node>)
    requires
        n is RangeChoice,
        sound(n),
        agrees(n, inputs),
        proper(v),
        honest(f, c, inputs),
    ensures
        well_sampled(f, n, v, c, inputs),
    decreases n, 0nat, 0nat,
{
    if let Node::RangeChoice { choice, min_inclusive, max_exclusive, when_in_range, when_out_of_range } = n {
        let (m, d) = marked_range(f, inner(choice), v, c, min_inclusive, max_exclusive);
        lemma_volume(f, inner(choice), v, c, inputs);
        assert(honest(f, d, inputs));
        let need_in = rows_with(m, v, true);
        let need_out = rows_with(m, v, false);
        let by_rows = v.sy >= 16 && v.ty == 1;
        lemma_volume(f, inner(when_in_range), v, d, inputs);
        lemma_volume(f, inner(when_out_of_range), v, d, inputs);
        lemma_branch(f, inner(when_in_range), need_in, by_rows, v, d, inputs);
        let (a, e) = sampled_rows(f, inner(when_in_range), need_in, by_rows, v, d);
        lemma_branch(f, inner(when_out_of_range), need_out, by_rows, v, e, inputs);
        if by_block(f, n) {
            assert forall|i: int| 0 <= i < v.count() implies #[trigger] sampled(f, n, v, c).0[i] == worth_at(f, n, v, i) by {
                assert(m[i] == within(f, worth_at(f, inner(choice), v, i), min_inclusive, max_exclusive));
                lemma_index(v, i);
                if m[i] {
                    assert(need_in[v.iy(i)]);
                    assert(need_in.contains(true));
                } else {
                    assert(m[i] == false);
                    assert(need_out[v.iy(i)]);
                    assert(need_out.contains(true));
                }
            }
        }
    }
}

proof fn lemma_branch<F: Fn(Ask) -> u64>(
    f: F, n: Node, need: Seq<bool>, by_rows: bool, v: Lattice, c: Seq<Slab>, inputs: Map<usize, Node>,
)
    requires
        sound(n),
        agrees(n, inputs),
        proper(v),
        honest(f, c, inputs),
        by_rows ==> v.ty == 1,
        need.len() == v.sy,
    ensures
        honest(f, sampled_rows(f, n, need, by_rows, v, c).1, inputs),
        by_block(f, n) ==> forall|i: int|
            0 <= i < v.count() && need[v.iy(i)] ==> #[trigger] sampled_rows(f, n, need, by_rows, v, c).0[i] == worth_at(f, n, v, i),
    decreases n, 2nat, 0nat,
{
    lemma_volume(f, n, v, c, inputs);
    if by_rows && !(n is Constant) {
        assert forall|lo: int, hi: int, d: Seq<Slab>| is_part(v, lo, hi) && honest(f, d, inputs) implies #[trigger] honest_after(
            f, n, v, lo, hi, d, inputs) by {
            lemma_volume(f, n, row_part(v, lo, hi), d, inputs);
        }
        lemma_rows_honest(f, n, need, 0, v, Seq::new(v.count() as nat, |i: int| 0u32), c, inputs);
        if by_block(f, n) {
            let whole = Seq::new(v.count() as nat, |i: int| worth_at(f, n, v, i));
            assert forall|lo: int, hi: int, d: Seq<Slab>, x: int, y: int, z: int|
                is_part(v, lo, hi) && honest(f, d, inputs) && 0 <= x < v.sx && 0 <= y < hi - lo && 0 <= z < v.sz implies
                #[trigger] same_in_part(f, n, v, whole, lo, hi, d, x, y, z) by {
                lemma_part_block(v, lo, hi, x, y, z);
                let w = row_part(v, lo, hi);
                lemma_volume(f, n, w, d, inputs);
                assert(sampled(f, n, w, d).0[w.place(x, y, z)] == worth_at(f, n, w, w.place(x, y, z)));
            }
            assert forall|i: int| 0 <= i < v.count() && need[v.iy(i)] implies #[trigger] sampled_rows(
                f, n, need, by_rows, v, c).0[i] == worth_at(f, n, v, i) by {
                lemma_sampled_rows(f, n, need, v, c, whole, i, inputs);
            }
        }
    }
}

/// A node whose values go by blocks has them at every element of a volume,
/// whatever the volume is and whatever was honestly cached before.
pub proof fn law_volumes_hold_block_values<F: Fn(Ask) -> u64>(
    f: F, n: Node, v: Lattice, c: Seq<Slab>, i: int, inputs: Map<usize, Node>,
)
    requires
        by_block(f, n),
        sound(n),
        agrees(n, inputs),
        proper(v),
        honest(f, c, inputs),
        0 <= i < v.count(),
    ensures
        sampled(f, n, v, c).0[i] == worth(f, n, v.at_x(i), v.at_y(i), v.at_z(i)),
{
    lemma_volume(f, n, v, c, inputs);
}

/// Sampling any node over a volume leaves honest what is cached.
pub proof fn law_caches_stay_honest<F: Fn(Ask) -> u64>(f: F, n: Node, v: Lattice, c: Seq<Slab>, inputs: Map<usize, Node>)
    requires
        sound(n),
        agrees(n, inputs),
        proper(v),
        honest(f, c, inputs),
    ensures
        honest(f, sampled(f, n, v, c).1, inputs),
{
    lemma_volume(f, n, v, c, inputs);
}

/// Along x or z a volume does not lie on the corners of cells, and so no
/// part of it does.
pub open spec fn beside_corners(v: Lattice, cell_xz: int) -> bool {
    ||| !((v.tx == cell_xz || v.sx == 1) && down_mod(v.x, cell_xz) == 0)
    ||| !((v.tz == cell_xz || v.sz == 1) && down_mod(v.z, cell_xz) == 0)
}

/// A node of a volume of blocks that combines values that go by blocks, and
/// values interpolated in cells that eight rows are filled by.
pub open spec fn by_cells<F: Fn(Ask) -> u64>(f: F, n: Node, v: Lattice) -> bool
    decreases n,
{
    by_block(f, n) || match n {
        Node::Unary { input, .. } => by_cells(f, *input, v),
        Node::Binary { left, right, .. } => by_cells(f, *left, v) && by_cells(f, *right, v),
        Node::BlendDensity(i) => by_cells(f, *i, v),
        Node::Interpolated { cell_size_xz, cell_size_y, corners } => {
            &&& cell_size_xz > 0
            &&& cell_size_y > 1
            &&& 8int % (cell_size_y as int) == 0
            &&& by_block(f, *corners)
            &&& beside_corners(v, cell_size_xz as int)
        },
        _ => false,
    }
}

/// A volume of single blocks whose rows are rows of the world.
pub open spec fn of_blocks(v: Lattice) -> bool {
    &&& solid(v)
    &&& v.tx == 1 && v.ty == 1 && v.tz == 1
    &&& -0x8000_0000 <= v.y && v.y + v.sy - 1 <= 0x7fff_ffff
}

/// A block of a cell, between none and all of the cell's size.
proof fn lemma_down(x: int, h: int)
    requires
        h > 0,
    ensures
        down_div(x, h) == x / h,
        0 <= down_mod(x, h) < h,
        x == down_div(x, h) * h + down_mod(x, h),
{
    vstd::arithmetic::div_mod::lemma_fundamental_div_mod(x, h);
    assert(h * (x / h) == (x / h) * h) by (nonlinear_arith);
}

proof fn lemma_ordered(x: int, y: int, h: int)
    requires
        h > 0,
        x <= y,
    ensures
        down_div(x, h) <= down_div(y, h),
{
    lemma_down(x, h);
    lemma_down(y, h);
    vstd::arithmetic::div_mod::lemma_div_is_ordered(x, y, h);
}

/// Where eight rows start, a cell starts.
proof fn lemma_eighth(x: int, h: int)
    requires
        h > 1,
        8int % h == 0,
        x % 8 == 0,
    ensures
        down_mod(x, h) == 0,
        down_mod(x - 1, h) == h - 1,
{
    let k = 8int / h;
    vstd::arithmetic::div_mod::lemma_fundamental_div_mod(8, h);
    vstd::arithmetic::div_mod::lemma_fundamental_div_mod(x, 8);
    let t = k * (x / 8);
    assert(x == h * t) by (nonlinear_arith)
        requires
            x == 8 * (x / 8),
            8 == h * k,
            t == k * (x / 8),
    ;
    assert(x == t * h + 0) by (nonlinear_arith)
        requires
            x == h * t,
    ;
    vstd::arithmetic::div_mod::lemma_fundamental_div_mod_converse(x, h, t, 0);
    assert(x - 1 == (t - 1) * h + (h - 1)) by (nonlinear_arith)
        requires
            x == h * t,
    ;
    vstd::arithmetic::div_mod::lemma_fundamental_div_mod_converse(x - 1, h, t - 1, h - 1);
}

/// The cells of a part's rows are those of the whole: the same row of
/// corners below and above, and the same first row in the cell.
proof fn lemma_cells_of_rows(m: int, s: int, lo: int, hi: int, h: int, r: int)
    requires
        h > 1,
        8int % h == 0,
        0 <= lo <= r < hi <= s,
        lo == 0 || (m + lo) % 8 == 0,
        hi == s || (m + hi) % 8 == 0,
    ensures
        ({
            let (a, b) = (down_div(m, h), down_div(m + lo, h));
            let q = down_div(m + r, h);
            let (c, d) = (corners_in(m, s, h), corners_in(m + lo, hi - lo, h));
            &&& 0 <= q - a < c
            &&& 0 <= q - b < d
            &&& a + next_corner(q - a, c) == b + next_corner(q - b, d)
            &&& 0 <= next_corner(q - a, c) < c
            &&& 0 <= next_corner(q - b, d) < d
            &&& first_local(m, h, q - a) == first_local(m + lo, h, q - b)
        }),
{
    let (e, e2) = (m + s - 1, m + hi - 1);
    let (a, b) = (down_div(m, h), down_div(m + lo, h));
    let q = down_div(m + r, h);
    let (t, t2) = (down_div(e, h), down_div(e2, h));
    lemma_ordered(m, m + lo, h);
    lemma_ordered(m + lo, m + r, h);
    lemma_ordered(m + r, e2, h);
    lemma_ordered(e2, e, h);
    lemma_down(m, h);
    lemma_down(m + lo, h);
    lemma_down(e, h);
    lemma_down(e2, h);
    if hi != s {
        lemma_eighth(m + hi, h);
        assert(down_mod(e2, h) != 0);
    }
    if lo != 0 {
        lemma_eighth(m + lo, h);
        if a == b {
            assert(m + lo == b * h);
            assert(m >= a * h);
        }
    }
    assert(m + lo + (hi - lo) - 1 == e2);
    if q == t2 && t2 == t && down_mod(e2, h) != 0 {
        assert(down_mod(e, h) != 0);
    }
}

/// A corner's value is that of its block.
proof fn lemma_corner<F: Fn(Ask) -> u64>(
    f: F, n: Node, w: Lattice, c: Seq<Slab>, x: int, y: int, z: int, inputs: Map<usize, Node>,
)
    requires
        by_block(f, n),
        sound(n),
        agrees(n, inputs),
        honest(f, c, inputs),
        proper(w),
        0 <= x < w.sx,
        0 <= y < w.sy,
        0 <= z < w.sz,
    ensures
        sampled(f, n, w, c).0[w.place(x, y, z)] == worth(
            f, n, wrapped(w.x + x * w.tx), wrapped(w.y + y * w.ty), wrapped(w.z + z * w.tz)),
{
    lemma_place_index(w, x, y, z);
    lemma_volume(f, n, w, c, inputs);
    assert(sampled(f, n, w, c).0[w.place(x, y, z)] == worth_at(f, n, w, w.place(x, y, z)));
}

/// A row of corners: counted from the first, it is the row of its cell.
proof fn lemma_corner_row(m: int, h: int, k: int)
    ensures
        wrapped(wrapped(down_div(m, h) * h) + k * h) == wrapped((down_div(m, h) + k) * h),
{
    lemma_wrapped(down_div(m, h) * h, k * h);
    assert(down_div(m, h) * h + k * h == (down_div(m, h) + k) * h) by (nonlinear_arith);
}

/// The corners of a part have the values of the corners of the whole.
proof fn lemma_same_corner<F: Fn(Ask) -> u64>(
    f: F, n: Node, v: Lattice, lo: int, hi: int, xz: int, h: int, c: Seq<Slab>, d: Seq<Slab>, x: int, y: int, y2: int, z: int,
    inputs: Map<usize, Node>,
)
    requires
        by_block(f, n),
        sound(n),
        agrees(n, inputs),
        honest(f, c, inputs),
        honest(f, d, inputs),
        xz > 0,
        h > 0,
        of_blocks(v),
        is_part(v, lo, hi),
        solid(corner_lattice(v, xz, h)),
        solid(corner_lattice(row_part(v, lo, hi), xz, h)),
        0 <= x < corner_lattice(v, xz, h).sx,
        0 <= y < corner_lattice(v, xz, h).sy,
        0 <= y2 < corner_lattice(row_part(v, lo, hi), xz, h).sy,
        0 <= z < corner_lattice(v, xz, h).sz,
        down_div(v.y, h) + y == down_div(v.y + lo, h) + y2,
    ensures
        ({
            let a = corner_lattice(v, xz, h);
            let b = corner_lattice(row_part(v, lo, hi), xz, h);
            sampled(f, n, a, c).0[a.place(x, y, z)] == sampled(f, n, b, d).0[b.place(x, y2, z)]
        }),
{
    let a = corner_lattice(v, xz, h);
    let b = corner_lattice(row_part(v, lo, hi), xz, h);
    assert(wrapped(v.y + lo) == v.y + lo);
    lemma_corner(f, n, a, c, x, y, z, inputs);
    lemma_corner(f, n, b, d, x, y2, z, inputs);
    lemma_corner_row(v.y, h, y);
    lemma_corner_row(v.y + lo, h, y2);
}

/// The ends of a column of a cell are the same in a part and in the whole.
#[verifier::spinoff_prover]
proof fn lemma_ends_alike<F: Fn(Ask) -> u64>(
    f: F, n: Node, v: Lattice, lo: int, hi: int, xz: int, h: int, c: Seq<Slab>, d: Seq<Slab>, cx: int, cy: int, cy2: int, cz: int,
    ax: u32, az: u32, inputs: Map<usize, Node>,
)
    requires
        by_block(f, n),
        sound(n),
        agrees(n, inputs),
        honest(f, c, inputs),
        honest(f, d, inputs),
        xz > 0,
        h > 0,
        of_blocks(v),
        is_part(v, lo, hi),
        solid(corner_lattice(v, xz, h)),
        solid(corner_lattice(row_part(v, lo, hi), xz, h)),
        0 <= cx < corner_lattice(v, xz, h).sx,
        0 <= cz < corner_lattice(v, xz, h).sz,
        0 <= cy < corner_lattice(v, xz, h).sy,
        0 <= cy2 < corner_lattice(row_part(v, lo, hi), xz, h).sy,
        down_div(v.y, h) + cy == down_div(v.y + lo, h) + cy2,
        down_div(v.y, h) + next_corner(cy, corner_lattice(v, xz, h).sy) == down_div(v.y + lo, h) + next_corner(
            cy2, corner_lattice(row_part(v, lo, hi), xz, h).sy),
    ensures
        ({
            let a = corner_lattice(v, xz, h);
            let b = corner_lattice(row_part(v, lo, hi), xz, h);
            column_ends(f, sampled(f, n, b, d).0, b, cx, cy2, cz, ax, az) == column_ends(
                f, sampled(f, n, a, c).0, a, cx, cy, cz, ax, az)
        }),
{
    let a = corner_lattice(v, xz, h);
    let b = corner_lattice(row_part(v, lo, hi), xz, h);
    let (nx, nz) = (next_corner(cx, a.sx), next_corner(cz, a.sz));
    let (ny, ny2) = (next_corner(cy, a.sy), next_corner(cy2, b.sy));
    lemma_same_corner(f, n, v, lo, hi, xz, h, c, d, cx, cy, cy2, cz, inputs);
    lemma_same_corner(f, n, v, lo, hi, xz, h, c, d, cx, cy, cy2, nz, inputs);
    lemma_same_corner(f, n, v, lo, hi, xz, h, c, d, nx, cy, cy2, cz, inputs);
    lemma_same_corner(f, n, v, lo, hi, xz, h, c, d, nx, cy, cy2, nz, inputs);
    lemma_same_corner(f, n, v, lo, hi, xz, h, c, d, cx, ny, ny2, cz, inputs);
    lemma_same_corner(f, n, v, lo, hi, xz, h, c, d, cx, ny, ny2, nz, inputs);
    lemma_same_corner(f, n, v, lo, hi, xz, h, c, d, nx, ny, ny2, cz, inputs);
    lemma_same_corner(f, n, v, lo, hi, xz, h, c, d, nx, ny, ny2, nz, inputs);
}

/// Interpolation in cells gives a part what it gives the whole.
#[verifier::spinoff_prover]
proof fn lemma_cells_alike<F: Fn(Ask) -> u64>(
    f: F, n: Node, v: Lattice, lo: int, hi: int, xz: i32, h: i32, c: Seq<Slab>, d: Seq<Slab>, x: int, y: int, z: int,
    inputs: Map<usize, Node>,
)
    requires
        by_block(f, n),
        sound(n),
        agrees(n, inputs),
        honest(f, c, inputs),
        honest(f, d, inputs),
        of_blocks(v),
        is_part(v, lo, hi),
        xz > 0,
        h > 1,
        8int % (h as int) == 0,
        0 <= x < v.sx,
        0 <= y < hi - lo,
        0 <= z < v.sz,
    ensures
        ({
            let w = row_part(v, lo, hi);
            let a = corner_lattice(v, xz as int, h as int);
            let b = corner_lattice(w, xz as int, h as int);
            cell_fill(f, sampled(f, n, b, d).0, b, w, xz, h, w.place(x, y, z)) == cell_fill(
                f, sampled(f, n, a, c).0, a, v, xz, h, v.place(x, lo + y, z))
        }),
{
    let w = row_part(v, lo, hi);
    let (k, g) = (xz as int, h as int);
    let a = corner_lattice(v, k, g);
    let b = corner_lattice(w, k, g);
    assert(w.y == v.y + lo) by {
        assert(wrapped(v.y + lo) == v.y + lo);
    }
    lemma_place_index(v, x, lo + y, z);
    lemma_place_index(w, x, y, z);
    lemma_cell_of(v.x, v.sx, k, x);
    lemma_cell_of(v.z, v.sz, k, z);
    lemma_cells_of_rows(v.y, v.sy, lo, hi, g, lo + y);
    let cx = down_div(v.x + x, k) - down_div(v.x, k);
    let cz = down_div(v.z + z, k) - down_div(v.z, k);
    let q = down_div(v.y + lo + y, g);
    let (cy, cy2) = (q - down_div(v.y, g), q - down_div(v.y + lo, g));
    let inv = inverse(f, xz);
    lemma_ends_alike(
        f, n, v, lo, hi, k, g, c, d, cx, cy, cy2, cz, cell_part(f, down_mod(v.x + x, k), inv),
        cell_part(f, down_mod(v.z + z, k), inv), inputs);
}

proof fn lemma_interpolated<F: Fn(Ask) -> u64>(
    f: F, n: Node, v: Lattice, lo: int, hi: int, c: Seq<Slab>, d: Seq<Slab>, x: int, y: int, z: int,
    inputs: Map<usize, Node>,
)
    requires
        sound(n),
        agrees(n, inputs),
        honest(f, c, inputs),
        honest(f, d, inputs),
        n is Interpolated,
        by_cells(f, n, v),
        of_blocks(v),
        is_part(v, lo, hi),
        0 <= x < v.sx,
        0 <= y < hi - lo,
        0 <= z < v.sz,
    ensures
        same_in_part(f, n, v, sampled(f, n, v, c).0, lo, hi, d, x, y, z),
{
    let w = row_part(v, lo, hi);
    let (i, j) = (v.place(x, lo + y, z), w.place(x, y, z));
    lemma_part_block(v, lo, hi, x, y, z);
    if let Node::Interpolated { cell_size_xz, cell_size_y, corners } = n {
        lemma_cells_alike(f, inner(corners), v, lo, hi, cell_size_xz, cell_size_y, c, d, x, y, z, inputs);
        let (k, g) = (cell_size_xz as int, cell_size_y as int);
        assert(!on_cells(v, k, g) && !on_cells(w, k, g));
        assert(sampled(f, n, v, c) == block_sampled(f, inner(corners), v, cell_size_xz, cell_size_y, c));
        assert(sampled(f, n, w, d) == block_sampled(f, inner(corners), w, cell_size_xz, cell_size_y, d));
    }
}

#[verifier::spinoff_prover]
#[verifier::rlimit(60)]
proof fn lemma_by_cells<F: Fn(Ask) -> u64>(
    f: F, n: Node, v: Lattice, lo: int, hi: int, c: Seq<Slab>, d: Seq<Slab>, x: int, y: int, z: int,
    inputs: Map<usize, Node>,
)
    requires
        sound(n),
        agrees(n, inputs),
        honest(f, c, inputs),
        honest(f, d, inputs),
        by_cells(f, n, v),
        of_blocks(v),
        is_part(v, lo, hi),
        0 <= x < v.sx,
        0 <= y < hi - lo,
        0 <= z < v.sz,
    ensures
        same_in_part(f, n, v, sampled(f, n, v, c).0, lo, hi, d, x, y, z),
    decreases n,
{
    let w = row_part(v, lo, hi);
    let (i, j) = (v.place(x, lo + y, z), w.place(x, y, z));
    lemma_part_block(v, lo, hi, x, y, z);
    if by_block(f, n) {
        lemma_volume(f, n, v, c, inputs);
        lemma_volume(f, n, w, d, inputs);
        assert(sampled(f, n, v, c).0[i] == worth_at(f, n, v, i));
        assert(sampled(f, n, w, d).0[j] == worth_at(f, n, w, j));
    } else {
        match n {
            Node::Unary { input, .. } => lemma_by_cells(f, inner(input), v, lo, hi, c, d, x, y, z, inputs),
            Node::Binary { left, right, .. } => {
                lemma_by_cells(f, inner(left), v, lo, hi, c, d, x, y, z, inputs);
                let e = sampled(f, inner(left), v, c).1;
                let g = sampled(f, inner(left), w, d).1;
                lemma_volume(f, inner(left), v, c, inputs);
                lemma_volume(f, inner(left), w, d, inputs);
                lemma_by_cells(f, inner(right), v, lo, hi, e, g, x, y, z, inputs);
            },
            Node::BlendDensity(input) => lemma_by_cells(f, inner(input), v, lo, hi, c, d, x, y, z, inputs),
            Node::Interpolated { .. } => lemma_interpolated(f, n, v, lo, hi, c, d, x, y, z, inputs),
            _ => {},
        }
    }
}

/// Nodes that go by blocks and by cells sample parts alike.
pub proof fn law_cells_sample_parts_alike<F: Fn(Ask) -> u64>(f: F, n: Node, v: Lattice, inputs: Map<usize, Node>)
    requires
        sound(n),
        agrees(n, inputs),
        by_cells(f, n, v),
        of_blocks(v),
    ensures
        parts_alike(f, n, v, inputs),
{
    assert forall|lo: int, hi: int, d: Seq<Slab>| is_part(v, lo, hi) && honest(f, d, inputs) implies #[trigger] honest_after(
        f, n, v, lo, hi, d, inputs) by {
        lemma_volume(f, n, row_part(v, lo, hi), d, inputs);
    }
    assert forall|c: Seq<Slab>| honest(f, c, inputs) implies parts_give(f, n, v, #[trigger] sampled(f, n, v, c).0, inputs) by {
        let whole = sampled(f, n, v, c).0;
        assert forall|lo: int, hi: int, d: Seq<Slab>, x: int, y: int, z: int|
            is_part(v, lo, hi) && honest(f, d, inputs) && 0 <= x < v.sx && 0 <= y < hi - lo && 0 <= z < v.sz implies
            #[trigger] same_in_part(f, n, v, whole, lo, hi, d, x, y, z) by {
            lemma_by_cells(f, n, v, lo, hi, c, d, x, y, z, inputs);
        }
    }
}

} // verus!
