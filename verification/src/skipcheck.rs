//! The shortcuts of the fused fill change no block: cells that are skipped
//! as solid are solid, and rows that are skipped as air are air.

use vstd::prelude::*;
use crate::aquifer26::{block_at, filled, substance_at, Substance, Waters};
use crate::arith::{holds, lerped32, low, reply, Ask, MINUS_ONE, ZERO};
use crate::boundcheck::{keeps_order, law_bounds_hold_the_volume, lemma_less, number, tame_in_volume};
use crate::boundflat::flat_noises;
use crate::boundops::grows;
use crate::bounds26::{column_bound, unsure, Column};
use crate::df26::{
    cell_fill, cell_part, cells_in, column_value, corner_lattice, corners_in, down_div, down_mod, first_local, inverse, lattice,
    next_corner, one, sampled, sound, strict_min, within, wrapped, Lattice, Node, Slab, Unary, NAN_32,
};
use crate::dfcache::agrees;
use crate::dfparts::{
    by_block, law_caches_stay_honest, law_volumes_hold_block_values, lemma_place_index, parts_alike, proper, worth,
};
use crate::dfsample::{lemma_cell_of, lemma_index, solid};
use crate::fill26::{
    cell_above, climb, climbed_all, combined, corner, five_grids, plan_of, shape_of, Plan, Shape, FLUID_UPDATE_BIT, MARGIN,
    MINUS_AIR_MARGIN, MINUS_MARGIN, MINUS_MILLION_32, SIXTY_FOUR_32, THREE_HALVES_32,
};
use crate::fillcheck::{
    between_corners, beyond_part, law_fused_density_is_the_trees, lemma_beyond_sound, lemma_plain_plan, plain_shape,
    ridges_are_numbers, without_update,
};
use crate::volume::Volume;

verus! {

/// A value between the eight corners of a cell, at a place of it.
pub open spec fn interpolation<F: Fn(Ask) -> u64>(f: F, c: Seq<u32>, xz: i32, h: i32, lx: int, lz: int, first: int, row: int) -> u32 {
    let inv = inverse(f, xz);
    let (ax, az) = (cell_part(f, lx, inv), cell_part(f, lz, inv));
    let low_end = lerped32(f, ax, lerped32(f, az, c[0], c[4]), lerped32(f, az, c[1], c[5]));
    let high_end = lerped32(f, ax, lerped32(f, az, c[2], c[6]), lerped32(f, az, c[3], c[7]));
    column_value(f, (low_end, high_end), inverse(f, h), first, row)
}

/// Every corner lies above a bound.
pub open spec fn all_above<F: Fn(Ask) -> u64>(f: F, c: Seq<u32>, bound: u32) -> bool {
    forall|k: int| 0 <= k < 8 ==> holds(f, Ask::Less32(bound, #[trigger] c[k]))
}

/// Every corner is negative.
pub open spec fn all_negative<F: Fn(Ask) -> u64>(f: F, c: Seq<u32>) -> bool {
    forall|k: int| 0 <= k < 8 ==> holds(f, Ask::Less32(#[trigger] c[k], 0))
}

/// Every corner lies in the noodles' range, clear of its upper end.
pub open spec fn all_inside<F: Fn(Ask) -> u64>(f: F, c: Seq<u32>) -> bool {
    forall|k: int|
        0 <= k < 8 ==> holds(f, Ask::Less32(#[trigger] c[k], MINUS_MARGIN)) && holds(f, Ask::LessEq32(MINUS_MILLION_32, c[k]))
}

/// No corner is negative.
pub open spec fn all_beyond<F: Fn(Ask) -> u64>(f: F, c: Seq<u32>) -> bool {
    forall|k: int| 0 <= k < 8 ==> holds(f, Ask::LessEq32(0, #[trigger] c[k]))
}

/// 2^60 and its negative.
pub const LARGE_32: u32 = 0x5D80_0000;

pub const MINUS_LARGE_32: u32 = 0xDD80_0000;

/// Every corner is a number that is not beyond all measure.
pub open spec fn moderate<F: Fn(Ask) -> u64>(f: F, c: Seq<u32>) -> bool {
    forall|k: int|
        0 <= k < 8 ==> holds(f, Ask::LessEq32(MINUS_LARGE_32, #[trigger] c[k])) && holds(f, Ask::LessEq32(c[k], LARGE_32))
}

/// Interpolation in cells of some size keeps the side of zero that moderate
/// corners lie on: between corners above the margin a value is above zero, between corners
/// in the noodles' range and clear of its end it is in the range, between
/// corners that are not negative it is not, and between negative ones it is
/// not above zero.
#[verifier::opaque]
pub open spec fn keeps_side<F: Fn(Ask) -> u64>(f: F, xz: i32, h: i32) -> bool {
    forall|c: Seq<u32>, lx: int, lz: int, first: int, row: int|
        #![trigger interpolation(f, c, xz, h, lx, lz, first, row)]
        c.len() == 8 && moderate(f, c) && 0 <= lx < xz && 0 <= lz < xz && 0 <= first <= row < h ==> {
            let v = interpolation(f, c, xz, h, lx, lz, first, row);
            &&& all_above(f, c, MARGIN) ==> holds(f, Ask::Less32(0, v))
            &&& all_inside(f, c) ==> within(f, v, MINUS_MILLION_32, 0)
            &&& all_beyond(f, c) ==> !within(f, v, MINUS_MILLION_32, 0)
            &&& all_negative(f, c) ==> holds(f, Ask::LessEq32(v, 0))
        }
}

/// The elementary answers keep signs: of squeezes, of the smaller of two, of
/// sums with zero and of what lies beyond the noodles, and a single is as
/// positive as the double that it is widened to.
#[verifier::opaque]
pub open spec fn keeps_signs<F: Fn(Ask) -> u64>(f: F) -> bool {
    &&& forall|v: u32| holds(f, Ask::Less32(0, v)) ==> holds(f, Ask::Less32(0, #[trigger] one(f, Unary::Squeeze, v)))
    &&& forall|v: u32| holds(f, Ask::LessEq32(v, 0)) ==> holds(f, Ask::LessEq32(#[trigger] one(f, Unary::Squeeze, v), 0))
    &&& forall|a: u32, b: u32|
        holds(f, Ask::Less32(0, a)) && holds(f, Ask::Less32(0, b)) ==> holds(f, Ask::Less32(0, #[trigger] low(f, Ask::Min32(a, b))))
    &&& forall|v: u32| holds(f, Ask::Less32(0, #[trigger] low(f, Ask::Add32(v, 0)))) == holds(f, Ask::Less32(0, v))
    &&& forall|t: u32, a: u32, b: u32|
        holds(f, Ask::Less32(0, t)) && number(f, low(f, Ask::Abs32(a))) && number(f, low(f, Ask::Abs32(b))) ==> holds(
            f, Ask::Less32(0, #[trigger] past_noodles(f, t, a, b)))
    &&& holds(f, Ask::Less32(0, SIXTY_FOUR_32))
    &&& !holds(f, Ask::Less32(0, NAN_32))
    &&& forall|d: u32| holds(f, Ask::Less64(ZERO, #[trigger] reply(f, Ask::Widen(d)))) == holds(f, Ask::Less32(0, d))
    &&& !holds(f, Ask::Less64(ZERO, MINUS_ONE))
    &&& holds(f, Ask::Less32(MINUS_AIR_MARGIN, 0))
}

/// The thickness plus 1.5 times the larger ridge.
pub open spec fn past_noodles<F: Fn(Ask) -> u64>(f: F, thick: u32, a: u32, b: u32) -> u32 {
    let ridge = low(f, Ask::Max32(low(f, Ask::Abs32(a)), low(f, Ask::Abs32(b))));
    low(f, Ask::Add32(thick, low(f, Ask::Mul32(ridge, THREE_HALVES_32))))
}

proof fn lemma_positive<F: Fn(Ask) -> u64>(f: F, main: u32, toggle: u32, thick: u32, a: u32, b: u32)
    requires
        keeps_order(f),
        keeps_signs(f),
        holds(f, Ask::Less32(0, main)),
        within(f, toggle, MINUS_MILLION_32, 0) || (holds(f, Ask::Less32(0, thick)) && number(f, low(f, Ask::Abs32(a))) && number(
            f, low(f, Ask::Abs32(b)))),
    ensures
        holds(f, Ask::Less32(0, combined(f, main, toggle, thick, a, b, 0))),
{
    reveal(keeps_order);
    reveal(keeps_signs);
    let noodle = if within(f, toggle, MINUS_MILLION_32, 0) { SIXTY_FOUR_32 } else { past_noodles(f, thick, a, b) };
    let s = one(f, Unary::Squeeze, main);
    assert(holds(f, Ask::Less32(0, s)) && holds(f, Ask::Less32(0, noodle)));
    let m = strict_min(f, s, noodle);
    assert(holds(f, Ask::Less32(0, m)));
    assert(combined(f, main, toggle, thick, a, b, 0) == low(f, Ask::Add32(m, 0)));
}

proof fn lemma_not_positive<F: Fn(Ask) -> u64>(f: F, main: u32, toggle: u32, thick: u32, a: u32, b: u32)
    requires
        keeps_order(f),
        keeps_signs(f),
        holds(f, Ask::LessEq32(main, 0)),
    ensures
        !holds(f, Ask::Less32(0, combined(f, main, toggle, thick, a, b, 0))),
{
    reveal(keeps_order);
    reveal(keeps_signs);
    let noodle = if within(f, toggle, MINUS_MILLION_32, 0) { SIXTY_FOUR_32 } else { past_noodles(f, thick, a, b) };
    let s = one(f, Unary::Squeeze, main);
    let m = strict_min(f, s, noodle);
    assert(combined(f, main, toggle, thick, a, b, 0) == low(f, Ask::Add32(m, 0)));
    if number(f, noodle) {
        assert(holds(f, Ask::LessEq32(low(f, Ask::Min32(s, noodle)), s)));
        assert(holds(f, Ask::LessEq32(m, 0)));
        assert(holds(f, Ask::LessEq32(m, 0)) != holds(f, Ask::Less32(0, m)));
    }
}

/// The eight corners of a cell.
pub open spec fn corners_at(cb: Seq<u32>, g: Lattice, cx: int, cy: int, cz: int) -> Seq<u32> {
    Seq::new(8, |k: int| corner(cb, g, cx, cy, cz, k))
}

/// The place of a block in its cell: along x and z, the first row of the
/// cell that is filled, and the row.
pub open spec fn local(v: Lattice, xz: int, h: int, i: int) -> (int, int, int, int) {
    let (x, y, z) = (v.x + v.ix(i), v.y + v.iy(i), v.z + v.iz(i));
    (down_mod(x, xz), down_mod(z, xz), first_local(v.y, h, down_div(y, h) - down_div(v.y, h)), down_mod(y, h))
}

/// The cell of a block.
pub open spec fn cell_at(v: Lattice, xz: int, h: int, i: int) -> (int, int, int) {
    (
        down_div(v.x + v.ix(i), xz) - down_div(v.x, xz),
        down_div(v.y + v.iy(i), h) - down_div(v.y, h),
        down_div(v.z + v.iz(i), xz) - down_div(v.z, xz),
    )
}

proof fn lemma_fill<F: Fn(Ask) -> u64>(f: F, cb: Seq<u32>, g: Lattice, v: Lattice, xz: i32, h: i32, i: int)
    ensures
        ({
            let (cx, cy, cz) = cell_at(v, xz as int, h as int, i);
            let (lx, lz, first, row) = local(v, xz as int, h as int, i);
            cell_fill(f, cb, g, v, xz, h, i) == interpolation(f, corners_at(cb, g, cx, cy, cz), xz, h, lx, lz, first, row)
        }),
{
    let (cx, cy, cz) = cell_at(v, xz as int, h as int, i);
    let c = corners_at(cb, g, cx, cy, cz);
    assert(c[0] == corner(cb, g, cx, cy, cz, 0) && c[1] == corner(cb, g, cx, cy, cz, 1) && c[2] == corner(cb, g, cx, cy, cz, 2));
    assert(c[3] == corner(cb, g, cx, cy, cz, 3) && c[4] == corner(cb, g, cx, cy, cz, 4) && c[5] == corner(cb, g, cx, cy, cz, 5));
    assert(c[6] == corner(cb, g, cx, cy, cz, 6) && c[7] == corner(cb, g, cx, cy, cz, 7));
}

proof fn lemma_local(v: Lattice, xz: int, h: int, i: int)
    requires
        solid(v),
        xz > 0,
        h > 0,
        0 <= i < v.count(),
    ensures
        ({
            let (lx, lz, first, row) = local(v, xz, h, i);
            let (cx, cy, cz) = cell_at(v, xz, h, i);
            &&& 0 <= lx < xz && 0 <= lz < xz && 0 <= first <= row < h
            &&& 0 <= cx < corners_in(v.x, v.sx, xz) && 0 <= cz < corners_in(v.z, v.sz, xz)
            &&& 0 <= cy < cells_in(v.y, v.sy, h) && cells_in(v.y, v.sy, h) <= corners_in(v.y, v.sy, h)
        }),
{
    lemma_index(v, i);
    lemma_cell_of(v.x, v.sx, xz, v.ix(i));
    lemma_cell_of(v.y, v.sy, h, v.iy(i));
    lemma_cell_of(v.y, v.sy, h, 0);
    lemma_cell_of(v.z, v.sz, xz, v.iz(i));
    let y = v.y + v.iy(i);
    if down_div(y, h) == down_div(v.y, h) {
        assert(down_mod(v.y, h) <= down_mod(y, h));
    }
}

/// Sampling fewer rows of corners gives the five inputs the same values in
/// these rows.
pub open spec fn fewer_rows<F: Fn(Ask) -> u64>(f: F, s: Shape, w: Lattice, rows: int) -> bool {
    forall|k: int, x: int, y: int, z: int|
        0 <= k < 5 && 0 <= x < w.sx && 0 <= y < rows && 0 <= z < w.sz ==> #[trigger] same_corner(f, s, w, rows, k, x, y, z)
}

pub open spec fn same_corner<F: Fn(Ask) -> u64>(f: F, s: Shape, w: Lattice, rows: int, k: int, x: int, y: int, z: int) -> bool {
    let g = Lattice { sy: rows, ..w };
    five_grids(f, s, g)[k][g.place(x, y, z)] == five_grids(f, s, w)[k][w.place(x, y, z)]
}

/// The column of corners whose bounds a fill asks for, from a row up.
pub open spec fn corner_column(w: Lattice, x: int, z: int, r: int) -> Column {
    Column {
        x: wrapped(w.x + x * w.tx),
        z: wrapped(w.z + z * w.tz),
        y_ref: wrapped(w.y),
        y_lo: wrapped(w.y + r * w.ty),
        y_hi: wrapped(w.y + (w.sy - 1) * w.ty),
    }
}

/// A corner of a column whose bound lies below zero by the margin for air is
/// negative.
pub open spec fn below_bound<F: Fn(Ask) -> u64>(f: F, main: Node, w: Lattice, x: int, y: int, z: int, r: int) -> bool {
    holds(f, Ask::Less32(column_bound(f, main, corner_column(w, x, z, r)).1, MINUS_AIR_MARGIN)) ==> holds(
        f, Ask::Less32(sampled(f, main, w, Seq::empty()).0[w.place(x, y, z)], 0))
}

/// The sampled corners of the main input keep the bounds of their columns,
/// up to the margin for air.
pub open spec fn bounds_kept<F: Fn(Ask) -> u64>(f: F, main: Node, w: Lattice) -> bool {
    forall|x: int, y: int, z: int, r: int|
        0 <= x < w.sx && 0 <= y < w.sy && 0 <= z < w.sz && 0 <= r <= y ==> #[trigger] below_bound(f, main, w, x, y, z, r)
}

/// A column that was climbed is below zero by its bounds from some row at or
/// below the one it came to, unless it came to the top.
spec fn column_is_air<F: Fn(Ask) -> u64>(f: F, main: Node, w: Lattice, x: int, z: int, r: int) -> bool {
    exists|q: int| 0 <= q <= r && #[trigger] bounded_below(f, main, w, x, z, q)
}

spec fn bounded_below<F: Fn(Ask) -> u64>(f: F, main: Node, w: Lattice, x: int, z: int, q: int) -> bool {
    holds(f, Ask::Less32(column_bound(f, main, corner_column(w, x, z, q)).1, MINUS_AIR_MARGIN))
}

proof fn lemma_climb<F: Fn(Ask) -> u64>(f: F, main: Node, w: Lattice, x: int, z: int, r: int, count: int)
    requires
        0 <= r <= count,
    ensures
        ({
            let t = climb(f, main, w, wrapped(w.x + x * w.tx), wrapped(w.z + z * w.tz), r, count);
            r <= t <= count && (t < count ==> bounded_below(f, main, w, x, z, t))
        }),
    decreases count - r,
{
    if r < count && !bounded_below(f, main, w, x, z, r) {
        lemma_climb(f, main, w, x, z, r + 1, count);
    }
}

proof fn lemma_climbed<F: Fn(Ask) -> u64>(f: F, main: Node, w: Lattice, r: int, count: int, n: nat, k: int)
    requires
        0 <= r <= count,
        0 <= k < n,
    ensures
        ({
            let t = climbed_all(f, main, w, r, count, n);
            r <= t <= count && (t < count ==> column_is_air(f, main, w, k / w.sz, k % w.sz, t))
        }),
    decreases n,
{
    let before = climbed_all(f, main, w, r, count, (n - 1) as nat);
    lemma_climbed_range(f, main, w, r, count, (n - 1) as nat);
    let m = n - 1;
    lemma_climb(f, main, w, m / w.sz, m % w.sz, before, count);
    let t = climbed_all(f, main, w, r, count, n);
    if t < count {
        if k < n - 1 {
            lemma_climbed(f, main, w, r, count, (n - 1) as nat, k);
            let q = choose|q: int| 0 <= q <= before && #[trigger] bounded_below(f, main, w, k / w.sz, k % w.sz, q);
            assert(bounded_below(f, main, w, k / w.sz, k % w.sz, q));
        } else {
            assert(bounded_below(f, main, w, m / w.sz, m % w.sz, t));
        }
    }
}

proof fn lemma_climbed_range<F: Fn(Ask) -> u64>(f: F, main: Node, w: Lattice, r: int, count: int, n: nat)
    requires
        0 <= r <= count,
    ensures
        r <= climbed_all(f, main, w, r, count, n) <= count,
    decreases n,
{
    if n > 0 {
        lemma_climbed_range(f, main, w, r, count, (n - 1) as nat);
        let k = n - 1;
        lemma_climb(f, main, w, k / w.sz, k % w.sz, climbed_all(f, main, w, r, count, (n - 1) as nat), count);
    }
}

/// A corner at or above a row that every column is air from is negative.
proof fn lemma_air_corner<F: Fn(Ask) -> u64>(f: F, main: Node, w: Lattice, r: int, count: int, x: int, y: int, z: int)
    requires
        solid(w),
        bounds_kept(f, main, w),
        0 <= r <= count,
        0 <= x < w.sx && 0 <= z < w.sz,
        climbed_all(f, main, w, r, count, (w.sx * w.sz) as nat) <= y < w.sy,
        climbed_all(f, main, w, r, count, (w.sx * w.sz) as nat) < count,
    ensures
        holds(f, Ask::Less32(sampled(f, main, w, Seq::empty()).0[w.place(x, y, z)], 0)),
{
    let k = x * w.sz + z;
    assert(0 <= k && k < w.sx * w.sz) by (nonlinear_arith)
        requires
            0 <= x < w.sx,
            0 <= z < w.sz,
            k == x * w.sz + z,
    ;
    vstd::arithmetic::div_mod::lemma_fundamental_div_mod_converse(k, w.sz, x, z);
    lemma_climbed(f, main, w, r, count, (w.sx * w.sz) as nat, k);
    let t = climbed_all(f, main, w, r, count, (w.sx * w.sz) as nat);
    let q = choose|q: int| 0 <= q <= t && #[trigger] bounded_below(f, main, w, x, z, q);
    assert(below_bound(f, main, w, x, y, z, q));
}

/// The corners of a block's cell are moderate.
pub open spec fn moderate_cell<F: Fn(Ask) -> u64>(f: F, p: Plan, i: int) -> bool {
    let (cx, cy, cz) = p.cell(i);
    &&& moderate(f, corners_at(p.grids[0], p.grid, cx, cy, cz))
    &&& moderate(f, corners_at(p.grids[1], p.grid, cx, cy, cz))
    &&& moderate(f, corners_at(p.grids[2], p.grid, cx, cy, cz))
}

/// A cell below the air has the same corners, whether the rows above it are
/// sampled or not.
proof fn lemma_same_cell<F: Fn(Ask) -> u64>(f: F, s: Shape, v: Lattice, w: Lattice, air: int, k: int, i: int)
    requires
        solid(v),
        s.cell_xz > 0,
        s.cell_y > 0,
        0 <= i < v.count(),
        w == corner_lattice(v, s.cell_xz as int, s.cell_y as int),
        0 <= k < 5,
        cell_at(v, s.cell_xz as int, s.cell_y as int, i).1 < air,
        fewer_rows(f, s, w, if w.sy < air + 1 { w.sy } else { air + 1 }),
    ensures
        ({
            let g = Lattice { sy: if w.sy < air + 1 { w.sy } else { air + 1 }, ..w };
            let (cx, cy, cz) = cell_at(v, s.cell_xz as int, s.cell_y as int, i);
            corners_at(five_grids(f, s, g)[k], g, cx, cy, cz) == corners_at(five_grids(f, s, w)[k], w, cx, cy, cz)
        }),
{
    let rows = if w.sy < air + 1 { w.sy } else { air + 1 };
    let g = Lattice { sy: rows, ..w };
    lemma_local(v, s.cell_xz as int, s.cell_y as int, i);
    let (cx, cy, cz) = cell_at(v, s.cell_xz as int, s.cell_y as int, i);
    let (nx, ny, nz) = (next_corner(cx, w.sx), next_corner(cy, w.sy), next_corner(cz, w.sz));
    assert(next_corner(cy, g.sy) == ny && 0 <= ny < rows);
    assert forall|j: int| 0 <= j < 8 implies corner(five_grids(f, s, g)[k], g, cx, cy, cz, j) == corner(
        five_grids(f, s, w)[k], w, cx, cy, cz, j) by {
        let x = if j % 2 == 1 { nx } else { cx };
        let y = if (j / 2) % 2 == 1 { ny } else { cy };
        let z = if j / 4 == 1 { nz } else { cz };
        assert(same_corner(f, s, w, rows, k, x, y, z));
    }
    assert(corners_at(five_grids(f, s, g)[k], g, cx, cy, cz) =~= corners_at(five_grids(f, s, w)[k], w, cx, cy, cz));
}

/// What a fill with shortcuts and one without have in common.
proof fn lemma_plans<F: Fn(Ask) -> u64>(f: F, s: Shape, waters: Waters, vol: Volume, skip_air: bool, i: int)
    requires
        s.cell_xz > 0,
        s.cell_y > 0,
        vol.fits(),
        0 <= i < vol.count(),
        ({
            let w = corner_lattice(lattice(vol), s.cell_xz as int, s.cell_y as int);
            fewer_rows(f, s, w, plan_of(f, s, waters, vol, None, false, skip_air).grid.sy)
        }),
    ensures
        ({
            let p = plan_of(f, s, waters, vol, None, false, skip_air);
            let q = plan_of(f, s, waters, vol, None, true, skip_air);
            let v = lattice(vol);
            let w = corner_lattice(v, s.cell_xz as int, s.cell_y as int);
            let (cx, cy, cz) = cell_at(v, s.cell_xz as int, s.cell_y as int, i);
            &&& p.cell(i) == (cx, cy, cz) && q.cell(i) == (cx, cy, cz)
            &&& q.grid == w && q.grids == five_grids(f, s, w)
            &&& p.blocks == v && q.blocks == v && p.shape == s && q.shape == s && p.waters == waters
            &&& p.beard is None && q.beard is None && p.skip_solid
            &&& cy < p.air_from ==> forall|k: int| #![trigger p.grids[k]] 0 <= k < 5 ==> {
                &&& corners_at(p.grids[k], p.grid, cx, cy, cz) == corners_at(q.grids[k], q.grid, cx, cy, cz)
                &&& p.input(f, k, i) == q.input(f, k, i)
            }
        }),
{
    let p = plan_of(f, s, waters, vol, None, false, skip_air);
    let q = plan_of(f, s, waters, vol, None, true, skip_air);
    let v = lattice(vol);
    let w = corner_lattice(v, s.cell_xz as int, s.cell_y as int);
    let (cx, cy, cz) = cell_at(v, s.cell_xz as int, s.cell_y as int, i);
    assert(solid(v) && v.count() == vol.count());
    lemma_plain_plan(f, s, waters, vol, skip_air, i);
    if cy < p.air_from {
        assert forall|k: int| #![trigger p.grids[k]] 0 <= k < 5 implies corners_at(p.grids[k], p.grid, cx, cy, cz) == corners_at(
            q.grids[k], q.grid, cx, cy, cz) && p.input(f, k, i) == q.input(f, k, i) by {
            lemma_same_cell(f, s, v, w, p.air_from, k, i);
            lemma_fill(f, p.grids[k], p.grid, v, s.cell_xz, s.cell_y, i);
            lemma_fill(f, q.grids[k], q.grid, v, s.cell_xz, s.cell_y, i);
        }
    }
}

/// A block of a cell that counts as solid has a positive density.
proof fn lemma_solid<F: Fn(Ask) -> u64>(f: F, p: Plan, i: int)
    requires
        keeps_order(f),
        keeps_signs(f),
        keeps_side(f, p.shape.cell_xz, p.shape.cell_y),
        solid(p.blocks),
        p.shape.cell_xz > 0,
        p.shape.cell_y > 0,
        0 <= i < p.blocks.count(),
        p.beard is None,
        moderate_cell(f, p, i),
        p.solid(f, p.cell(i).0, p.cell(i).1, p.cell(i).2),
        ridges_are_numbers(f, p, i),
    ensures
        holds(f, Ask::Less32(0, p.mixed(f, i))),
{
    reveal(keeps_side);
    let (v, xz, h) = (p.blocks, p.shape.cell_xz, p.shape.cell_y);
    let (cx, cy, cz) = p.cell(i);
    let (lx, lz, first, row) = local(v, xz as int, h as int, i);
    lemma_local(v, xz as int, h as int, i);
    lemma_fill(f, p.grids[0], p.grid, v, xz, h, i);
    lemma_fill(f, p.grids[1], p.grid, v, xz, h, i);
    lemma_fill(f, p.grids[2], p.grid, v, xz, h, i);
    let (a, b, c) = (
        corners_at(p.grids[0], p.grid, cx, cy, cz), corners_at(p.grids[1], p.grid, cx, cy, cz),
        corners_at(p.grids[2], p.grid, cx, cy, cz));
    assert(all_above(f, a, MARGIN)) by {
        assert forall|k: int| 0 <= k < 8 implies holds(f, Ask::Less32(MARGIN, #[trigger] a[k])) by {
            assert(a[k] == p.at(0, cx, cy, cz, k));
        }
    }
    if p.negative(f, cx, cy, cz) {
        assert forall|k: int| 0 <= k < 8 implies holds(f, Ask::Less32(#[trigger] b[k], MINUS_MARGIN)) && holds(
            f, Ask::LessEq32(MINUS_MILLION_32, b[k])) by {
            assert(b[k] == p.at(1, cx, cy, cz, k));
        }
        assert(all_inside(f, b));
    } else {
        assert forall|k: int| 0 <= k < 8 implies holds(f, Ask::LessEq32(0, #[trigger] b[k])) by {
            assert(b[k] == p.at(1, cx, cy, cz, k));
        }
        assert forall|k: int| 0 <= k < 8 implies holds(f, Ask::Less32(MARGIN, #[trigger] c[k])) by {
            assert(c[k] == p.at(2, cx, cy, cz, k));
        }
        assert(all_beyond(f, b) && all_above(f, c, MARGIN));
    }
    lemma_positive(f, p.input(f, 0, i), p.input(f, 1, i), p.input(f, 2, i), p.input(f, 3, i), p.input(f, 4, i));
}

/// The row of a cell of air lies above the aquifers.
proof fn lemma_above_waters(v: Lattice, h: int, i: int, skip: int)
    requires
        solid(v),
        h > 0,
        0 <= i < v.count(),
        ({
            let cy = down_div(v.y + v.iy(i), h) - down_div(v.y, h);
            cy >= cell_above(skip, down_div(v.y, h) * h, h)
        }),
    ensures
        v.y + v.iy(i) > skip,
{
    let first = down_div(v.y, h) * h;
    let y = v.y + v.iy(i);
    let cy = down_div(y, h) - down_div(v.y, h);
    lemma_index(v, i);
    lemma_cell_of(v.y, v.sy, h, v.iy(i));
    assert(first + cy * h == down_div(y, h) * h) by (nonlinear_arith)
        requires
            first == down_div(v.y, h) * h,
            cy == down_div(y, h) - down_div(v.y, h),
    ;
    assert(y >= first + cy * h);
    if skip < first {
        assert(cy * h >= 0) by (nonlinear_arith)
            requires
                cy >= 0,
                h > 0,
        ;
    } else {
        let q = (skip - first) / h;
        vstd::arithmetic::div_mod::lemma_fundamental_div_mod(skip - first, h);
        assert(cy * h >= (q + 1) * h && (q + 1) * h == h * q + h) by (nonlinear_arith)
            requires
                cy >= q + 1,
                h > 0,
        ;
    }
}

/// Where the rows of air start: above the aquifers, and from there on where
/// the columns of corners were climbed to.
proof fn lemma_air_from<F: Fn(Ask) -> u64>(f: F, s: Shape, waters: Waters, vol: Volume, skip_air: bool, i: int) -> (r: int)
    requires
        s.cell_xz > 0,
        s.cell_y > 0,
        vol.fits(),
        down_div(vol.min@[1] as int, s.cell_y as int) * s.cell_y >= i32::MIN,
        0 <= i < vol.count(),
        ({
            let p = plan_of(f, s, waters, vol, None, false, skip_air);
            p.cell(i).1 >= p.air_from
        }),
    ensures
        ({
            let p = plan_of(f, s, waters, vol, None, false, skip_air);
            let v = lattice(vol);
            let h = s.cell_y as int;
            let w = corner_lattice(v, s.cell_xz as int, h);
            let count = cells_in(v.y, v.sy, h);
            let (cx, cy, cz) = p.cell(i);
            &&& 0 <= r <= count
            &&& p.air_from == climbed_all(f, s.main, w, r, count, (w.sx * w.sz) as nat)
            &&& p.air_from <= cy < count
            &&& cy >= cell_above(waters.skip_above, down_div(v.y, h) * h, h)
        }),
{
    let p = plan_of(f, s, waters, vol, None, false, skip_air);
    let v = lattice(vol);
    let (xz, h) = (s.cell_xz as int, s.cell_y as int);
    let w = corner_lattice(v, xz, h);
    assert(solid(v) && v.count() == vol.count());
    lemma_local(v, xz, h, i);
    lemma_cell_of(v.y, v.sy, h, 0);
    let (cx, cy, cz) = cell_at(v, xz, h, i);
    let count = cells_in(v.y, v.sy, h);
    assert(p.cell(i) == (cx, cy, cz) && cy < count);
    let first = down_div(v.y, h) * h;
    assert(first <= v.y && v.y < first + h);
    assert(w.y == first);
    let above = cell_above(waters.skip_above, w.y, h);
    assert(above >= 0) by {
        if waters.skip_above >= w.y {
            vstd::arithmetic::div_mod::lemma_div_pos_is_pos(waters.skip_above - w.y, h);
        }
    }
    let r = if above < count { above } else { count };
    assert(p.air_from == climbed_all(f, s.main, w, r, count, (w.sx * w.sz) as nat));
    lemma_climbed_range(f, s.main, w, r, count, (w.sx * w.sz) as nat);
    r
}

/// The corners of a cell of air are negative.
proof fn lemma_air_cell<F: Fn(Ask) -> u64>(f: F, main: Node, w: Lattice, r: int, count: int, cx: int, cy: int, cz: int)
    requires
        solid(w),
        bounds_kept(f, main, w),
        0 <= r <= count,
        0 <= cx < w.sx && 0 <= cz < w.sz,
        climbed_all(f, main, w, r, count, (w.sx * w.sz) as nat) <= cy < count,
        count <= w.sy,
    ensures
        all_negative(f, corners_at(sampled(f, main, w, Seq::empty()).0, w, cx, cy, cz)),
{
    let c = corners_at(sampled(f, main, w, Seq::empty()).0, w, cx, cy, cz);
    assert forall|k: int| 0 <= k < 8 implies holds(f, Ask::Less32(#[trigger] c[k], 0)) by {
        let x = if k % 2 == 1 { next_corner(cx, w.sx) } else { cx };
        let y = if (k / 2) % 2 == 1 { next_corner(cy, w.sy) } else { cy };
        let z = if k / 4 == 1 { next_corner(cz, w.sz) } else { cz };
        lemma_air_corner(f, main, w, r, count, x, y, z);
    }
}

/// Between negative corners a value is not above zero.
proof fn lemma_negative_side<F: Fn(Ask) -> u64>(f: F, cb: Seq<u32>, w: Lattice, v: Lattice, xz: i32, h: i32, i: int)
    requires
        keeps_side(f, xz, h),
        solid(v),
        xz > 0,
        h > 0,
        0 <= i < v.count(),
        ({
            let (cx, cy, cz) = cell_at(v, xz as int, h as int, i);
            moderate(f, corners_at(cb, w, cx, cy, cz)) && all_negative(f, corners_at(cb, w, cx, cy, cz))
        }),
    ensures
        holds(f, Ask::LessEq32(cell_fill(f, cb, w, v, xz, h, i), 0)),
{
    reveal(keeps_side);
    lemma_local(v, xz as int, h as int, i);
    lemma_fill(f, cb, w, v, xz, h, i);
}

/// The row of a block of a volume of blocks in the world.
proof fn lemma_row(vol: Volume, i: int)
    requires
        vol.fits(),
        vol.in_world(),
        vol.step@[1] == 1,
        0 <= i < vol.count(),
    ensures
        lattice(vol).at_y(i) == lattice(vol).y + lattice(vol).iy(i),
{
    let v = lattice(vol);
    assert(solid(v) && v.count() == vol.count());
    lemma_index(v, i);
    assert(vol.size@[1] * vol.step@[1] == vol.size@[1]);
    assert(v.iy(i) * v.ty == v.iy(i)) by (nonlinear_arith)
        requires
            v.ty == 1,
    ;
    assert(-0x8000_0000 <= v.y + v.iy(i) <= 0x7fff_ffff);
}

/// A block of a cell that counts as air has no positive density, and lies
/// above the aquifers.
#[verifier::spinoff_prover]
#[verifier::rlimit(60)]
proof fn lemma_air<F: Fn(Ask) -> u64>(f: F, s: Shape, waters: Waters, vol: Volume, skip_air: bool, i: int)
    requires
        keeps_order(f),
        keeps_signs(f),
        keeps_side(f, s.cell_xz, s.cell_y),
        s.cell_xz > 0,
        s.cell_y > 0,
        vol.fits(),
        vol.in_world(),
        vol.step@[1] == 1,
        down_div(vol.min@[1] as int, s.cell_y as int) * s.cell_y >= i32::MIN,
        0 <= i < vol.count(),
        bounds_kept(f, s.main, corner_lattice(lattice(vol), s.cell_xz as int, s.cell_y as int)),
        ({
            let p = plan_of(f, s, waters, vol, None, false, skip_air);
            let q = plan_of(f, s, waters, vol, None, true, skip_air);
            p.cell(i).1 >= p.air_from && moderate_cell(f, q, i)
        }),
    ensures
        !holds(f, Ask::Less32(0, plan_of(f, s, waters, vol, None, true, skip_air).mixed(f, i))),
        lattice(vol).at_y(i) > waters.skip_above,
{
    let q = plan_of(f, s, waters, vol, None, true, skip_air);
    let v = lattice(vol);
    let (xz, h) = (s.cell_xz as int, s.cell_y as int);
    let w = corner_lattice(v, xz, h);
    let r = lemma_air_from(f, s, waters, vol, skip_air, i);
    assert(solid(v) && v.count() == vol.count());
    lemma_plain_plan(f, s, waters, vol, skip_air, i);
    lemma_local(v, xz, h, i);
    lemma_index(v, i);
    let (cx, cy, cz) = cell_at(v, xz, h, i);
    lemma_above_waters(v, h, i, waters.skip_above);
    lemma_row(vol, i);
    lemma_air_cell(f, s.main, w, r, cells_in(v.y, v.sy, h), cx, cy, cz);
    assert(q.grids[0] == sampled(f, s.main, w, Seq::empty()).0);
    lemma_negative_side(f, q.grids[0], w, v, s.cell_xz, s.cell_y, i);
    lemma_not_positive(f, q.input(f, 0, i), q.input(f, 1, i), q.input(f, 2, i), q.input(f, 3, i), q.input(f, 4, i));
}

/// Away from structures, the fused fill with its shortcuts gives each block
/// the substance that a fill by the tree gives it, and marks for an update
/// none but water and lava. Where a block's cell is not skipped it has the
/// tree's density, bit by bit, and no block is skipped as solid that is not.
///
/// It holds where interpolation and the elementary answers keep signs, where
/// sampling fewer rows of corners changes none of them, where the sampled
/// corners keep their bounds up to the margin for air, where the lowest
/// corner is a block, and at blocks whose corners are moderate and whose
/// ridges are numbers.
pub proof fn law_shortcuts_change_no_block<F: Fn(Ask) -> u64>(
    f: F, n: Node, s: Shape, waters: Waters, vol: Volume, skip_air: bool, i: int, inputs: Map<usize, Node>,
)
    requires
        shape_of(f, n) == Some(s),
        sound(n),
        agrees(n, inputs),
        plain_shape(n),
        vol.fits(),
        vol.in_world(),
        down_div(vol.min@[1] as int, s.cell_y as int) * s.cell_y >= i32::MIN,
        between_corners(lattice(vol), s),
        vol.size@[1] >= 16 ==> parts_alike(f, beyond_part(n), lattice(vol), inputs),
        0 <= i < vol.count(),
        keeps_order(f),
        keeps_signs(f),
        keeps_side(f, s.cell_xz, s.cell_y),
        ({
            let p = plan_of(f, s, waters, vol, None, false, skip_air);
            let q = plan_of(f, s, waters, vol, None, true, skip_air);
            let w = corner_lattice(lattice(vol), s.cell_xz as int, s.cell_y as int);
            &&& fewer_rows(f, s, w, p.grid.sy)
            &&& bounds_kept(f, s.main, w)
            &&& moderate_cell(f, q, i)
            &&& ridges_are_numbers(f, q, i)
        }),
    ensures
        ({
            let p = plan_of(f, s, waters, vol, None, false, skip_air);
            let d = sampled(f, n, lattice(vol), Seq::empty()).0;
            let by_tree = filled(f, waters, vol, d, i).0;
            let (cx, cy, cz) = p.cell(i);
            &&& without_update(p.filled(f, i).1) == Substance::id(by_tree)
            &&& p.filled(f, i).1 >= FLUID_UPDATE_BIT ==> by_tree == Some(Substance::Water) || by_tree == Some(Substance::Lava)
            &&& cy < p.air_from && !p.solid(f, cx, cy, cz) ==> p.filled(f, i).0 == d[i]
            &&& !p.wrong(f, i)
            &&& !plan_of(f, s, waters, vol, None, true, skip_air).wrong(f, i)
        }),
{
    let p = plan_of(f, s, waters, vol, None, false, skip_air);
    let q = plan_of(f, s, waters, vol, None, true, skip_air);
    let v = lattice(vol);
    let d = sampled(f, n, v, Seq::empty()).0;
    lemma_beyond_sound(f, n, s, inputs);
    law_fused_density_is_the_trees(f, n, s, waters, vol, skip_air, i, inputs);
    lemma_plain_plan(f, s, waters, vol, skip_air, i);
    assert(q.mixed(f, i) == d[i]);
    lemma_against_plain(f, s, waters, vol, skip_air, i);
    assert(v.count() == vol.count());
    lemma_outcome(f, p, d[i], i);
    assert(block_at(vol, i) == (v.at_x(i), v.at_y(i), v.at_z(i)));
}

/// What a fill with shortcuts makes of a block, by the density that it has
/// without them.
proof fn lemma_outcome<F: Fn(Ask) -> u64>(f: F, p: Plan, d: u32, i: int)
    requires
        keeps_signs(f),
        p.skip_solid,
        p.cell(i).1 >= p.air_from ==> !holds(f, Ask::Less32(0, d)) && p.blocks.at_y(i) > p.waters.skip_above,
        p.cell(i).1 < p.air_from ==> p.mixed(f, i) == d,
        p.cell(i).1 < p.air_from && p.solid(f, p.cell(i).0, p.cell(i).1, p.cell(i).2) ==> holds(f, Ask::Less32(0, d)),
    ensures
        ({
            let by_tree = substance_at(
                f, p.waters, p.blocks.at_x(i), p.blocks.at_y(i), p.blocks.at_z(i), reply(f, Ask::Widen(d))).0;
            let (cx, cy, cz) = p.cell(i);
            &&& without_update(p.filled(f, i).1) == Substance::id(by_tree)
            &&& p.filled(f, i).1 >= FLUID_UPDATE_BIT ==> by_tree == Some(Substance::Water) || by_tree == Some(Substance::Lava)
            &&& cy < p.air_from && !p.solid(f, cx, cy, cz) ==> p.filled(f, i).0 == d
        }),
{
    assert(holds(f, Ask::Less64(ZERO, reply(f, Ask::Widen(d)))) == holds(f, Ask::Less32(0, d)) && !holds(
        f, Ask::Less64(ZERO, MINUS_ONE))) by {
        reveal(keeps_signs);
    }
}

/// A fill with shortcuts against one without, at a block.
proof fn lemma_against_plain<F: Fn(Ask) -> u64>(f: F, s: Shape, waters: Waters, vol: Volume, skip_air: bool, i: int)
    requires
        s.cell_xz > 0,
        s.cell_y > 0,
        vol.fits(),
        vol.in_world(),
        vol.step@[1] == 1,
        down_div(vol.min@[1] as int, s.cell_y as int) * s.cell_y >= i32::MIN,
        0 <= i < vol.count(),
        keeps_order(f),
        keeps_signs(f),
        keeps_side(f, s.cell_xz, s.cell_y),
        ({
            let p = plan_of(f, s, waters, vol, None, false, skip_air);
            let q = plan_of(f, s, waters, vol, None, true, skip_air);
            let w = corner_lattice(lattice(vol), s.cell_xz as int, s.cell_y as int);
            &&& fewer_rows(f, s, w, p.grid.sy)
            &&& bounds_kept(f, s.main, w)
            &&& moderate_cell(f, q, i)
            &&& ridges_are_numbers(f, q, i)
        }),
    ensures
        ({
            let p = plan_of(f, s, waters, vol, None, false, skip_air);
            let q = plan_of(f, s, waters, vol, None, true, skip_air);
            let (cx, cy, cz) = p.cell(i);
            &&& p.blocks == lattice(vol) && p.waters == waters && p.skip_solid
            &&& cy >= p.air_from ==> !holds(f, Ask::Less32(0, q.mixed(f, i))) && p.blocks.at_y(i) > waters.skip_above
            &&& cy < p.air_from ==> p.mixed(f, i) == q.mixed(f, i)
            &&& cy < p.air_from && p.solid(f, cx, cy, cz) ==> holds(f, Ask::Less32(0, q.mixed(f, i)))
            &&& !p.wrong(f, i)
            &&& !q.wrong(f, i)
        }),
{
    let p = plan_of(f, s, waters, vol, None, false, skip_air);
    let q = plan_of(f, s, waters, vol, None, true, skip_air);
    lemma_plans(f, s, waters, vol, skip_air, i);
    assert(solid(lattice(vol)) && lattice(vol).count() == vol.count());
    let (cx, cy, cz) = p.cell(i);
    if q.solid(f, cx, cy, cz) {
        lemma_solid(f, q, i);
    }
    if cy >= p.air_from {
        lemma_air(f, s, waters, vol, skip_air, i);
    } else {
        lemma_same_mix(f, p, q, i);
        lemma_same_solid(f, p, q, cx, cy, cz);
    }
}

/// Plans with the same inputs at a block mix the same density.
proof fn lemma_same_mix<F: Fn(Ask) -> u64>(f: F, p: Plan, q: Plan, i: int)
    requires
        p.beard is None,
        q.beard is None,
        forall|k: int| #![trigger p.grids[k]] 0 <= k < 5 ==> p.input(f, k, i) == q.input(f, k, i),
    ensures
        p.mixed(f, i) == q.mixed(f, i),
{
    let (a, b, c, e, g) = (p.grids[0], p.grids[1], p.grids[2], p.grids[3], p.grids[4]);
}

/// Plans with the same corners of a cell judge it alike.
proof fn lemma_same_solid<F: Fn(Ask) -> u64>(f: F, p: Plan, q: Plan, cx: int, cy: int, cz: int)
    requires
        p.beard is None,
        q.beard is None,
        forall|k: int|
            #![trigger p.grids[k]]
            0 <= k < 5 ==> corners_at(p.grids[k], p.grid, cx, cy, cz) == corners_at(q.grids[k], q.grid, cx, cy, cz),
    ensures
        p.solid(f, cx, cy, cz) == q.solid(f, cx, cy, cz),
{
    assert forall|g: int, k: int| 0 <= g < 5 && 0 <= k < 8 implies #[trigger] p.at(g, cx, cy, cz, k) == q.at(g, cx, cy, cz, k) by {
        let (a, b) = (corners_at(p.grids[g], p.grid, cx, cy, cz), corners_at(q.grids[g], q.grid, cx, cy, cz));
        assert(a == b);
        assert(a[k] == p.at(g, cx, cy, cz, k) && b[k] == q.at(g, cx, cy, cz, k));
    }
    assert forall|g: int, k: int| 0 <= g < 5 && 0 <= k < 8 implies #[trigger] q.at(g, cx, cy, cz, k) == p.at(g, cx, cy, cz, k) by {
        assert(p.at(g, cx, cy, cz, k) == q.at(g, cx, cy, cz, k));
    }
    assert(p.above(f, 0, cx, cy, cz) == q.above(f, 0, cx, cy, cz));
    assert(p.above(f, 2, cx, cy, cz) == q.above(f, 2, cx, cy, cz));
    assert(p.negative(f, cx, cy, cz) == q.negative(f, cx, cy, cz));
    assert(p.positive(f, cx, cy, cz) == q.positive(f, cx, cy, cz));
}

/// The five inputs of a shape go by blocks, and share their cached inputs.
pub open spec fn goes_by_block<F: Fn(Ask) -> u64>(f: F, s: Shape, inputs: Map<usize, Node>) -> bool {
    &&& by_block(f, s.main) && sound(s.main) && agrees(s.main, inputs)
    &&& by_block(f, s.toggle) && sound(s.toggle) && agrees(s.toggle, inputs)
    &&& by_block(f, s.thickness) && sound(s.thickness) && agrees(s.thickness, inputs)
    &&& by_block(f, s.ridge_a) && sound(s.ridge_a) && agrees(s.ridge_a, inputs)
    &&& by_block(f, s.ridge_b) && sound(s.ridge_b) && agrees(s.ridge_b, inputs)
}

/// The five inputs of such a shape at a corner.
proof fn lemma_five<F: Fn(Ask) -> u64>(f: F, s: Shape, g: Lattice, k: int, i: int, inputs: Map<usize, Node>)
    requires
        goes_by_block(f, s, inputs),
        proper(g),
        0 <= k < 5,
        0 <= i < g.count(),
    ensures
        five_grids(f, s, g)[k][i] == worth(
            f, seq![s.main, s.toggle, s.thickness, s.ridge_a, s.ridge_b][k], g.at_x(i), g.at_y(i), g.at_z(i)),
{
    let none = Seq::<Slab>::empty();
    let (a, c) = sampled(f, s.main, g, none);
    let (b, d) = sampled(f, s.toggle, g, c);
    let (h, e) = sampled(f, s.thickness, g, d);
    let (p, t) = sampled(f, s.ridge_a, g, e);
    law_volumes_hold_block_values(f, s.main, g, none, i, inputs);
    law_caches_stay_honest(f, s.main, g, none, inputs);
    law_volumes_hold_block_values(f, s.toggle, g, c, i, inputs);
    law_caches_stay_honest(f, s.toggle, g, c, inputs);
    law_volumes_hold_block_values(f, s.thickness, g, d, i, inputs);
    law_caches_stay_honest(f, s.thickness, g, d, inputs);
    law_volumes_hold_block_values(f, s.ridge_a, g, e, i, inputs);
    law_caches_stay_honest(f, s.ridge_a, g, e, inputs);
    law_volumes_hold_block_values(f, s.ridge_b, g, t, i, inputs);
}

/// Where the five inputs go by blocks, sampling fewer rows of corners changes
/// none of them.
pub proof fn law_fewer_rows_change_no_corner<F: Fn(Ask) -> u64>(f: F, s: Shape, w: Lattice, rows: int, inputs: Map<usize, Node>)
    requires
        goes_by_block(f, s, inputs),
        proper(w),
        1 <= rows <= w.sy,
    ensures
        fewer_rows(f, s, w, rows),
{
    let g = Lattice { sy: rows, ..w };
    assert forall|k: int, x: int, y: int, z: int|
        0 <= k < 5 && 0 <= x < w.sx && 0 <= y < rows && 0 <= z < w.sz implies #[trigger] same_corner(f, s, w, rows, k, x, y, z) by {
        lemma_place_index(g, x, y, z);
        lemma_place_index(w, x, y, z);
        lemma_five(f, s, g, k, g.place(x, y, z), inputs);
        lemma_five(f, s, w, k, w.place(x, y, z), inputs);
    }
}

/// Where the main input goes by blocks and is tame in its columns, its
/// sampled corners keep the bounds of their columns.
pub proof fn law_corners_keep_their_bounds<F: Fn(Ask) -> u64>(f: F, main: Node, w: Lattice, inputs: Map<usize, Node>)
    requires
        keeps_order(f),
        grows(f),
        flat_noises(f),
        keeps_signs(f),
        by_block(f, main),
        sound(main),
        agrees(main, inputs),
        proper(w),
        -0x8000_0000 <= w.y,
        w.y + (w.sy - 1) * w.ty <= 0x7fff_ffff,
        forall|x: int, y: int, z: int, r: int|
            0 <= x < w.sx && 0 <= y < w.sy && 0 <= z < w.sz && 0 <= r <= y ==> {
                let c = #[trigger] corner_column(w, x, z, r);
                tame_in_volume(f, main, c, #[trigger] wrapped(w.y + y * w.ty)) && !unsure(f, column_bound(f, main, c))
            },
    ensures
        bounds_kept(f, main, w),
{
    assert forall|x: int, y: int, z: int, r: int|
        0 <= x < w.sx && 0 <= y < w.sy && 0 <= z < w.sz && 0 <= r <= y implies #[trigger] below_bound(f, main, w, x, y, z, r) by {
        let c = corner_column(w, x, z, r);
        let i = w.place(x, y, z);
        lemma_place_index(w, x, y, z);
        assert(0 <= r * w.ty <= y * w.ty <= (w.sy - 1) * w.ty) by (nonlinear_arith)
            requires
                0 <= r <= y <= w.sy - 1,
                w.ty > 0,
        ;
        assert(tame_in_volume(f, main, c, wrapped(w.y + y * w.ty)));
        law_bounds_hold_the_volume(f, main, c, w, Seq::empty(), i, inputs);
        let v = sampled(f, main, w, Seq::empty()).0[i];
        let b = column_bound(f, main, c);
        if holds(f, Ask::Less32(b.1, MINUS_AIR_MARGIN)) {
            lemma_less(f, v, b.1, MINUS_AIR_MARGIN);
            assert(holds(f, Ask::LessEq32(v, MINUS_AIR_MARGIN))) by {
                reveal(grows);
            }
            assert(holds(f, Ask::Less32(MINUS_AIR_MARGIN, 0))) by {
                reveal(keeps_signs);
            }
            lemma_less(f, v, MINUS_AIR_MARGIN, 0);
        }
    }
}

} // verus!
