//! Sampling density function trees over volumes.

use std::collections::HashMap;
use vstd::prelude::*;
use crate::arith::{answers, hermite, holds, interval, lerp32, linear_extend, Ask, ONE_32};
use crate::df26::{
    affordable, affordable_spline, any_needed, binary, block_sampled, cell_fill, cell_part, cells_in, column_ends, column_step,
    column_value, corner_lattice, corners_in, covering_slab, down_div, down_mod, evaluated, every_block, first_local,
    floor_parts, gradient, gradient_at, in_range, inverse, lattice, marked_range, mixed, noise_at, noise_in, noise_point, one,
    reads, roomy, row_part, rows_from, rows_of, rows_with, run_of_rows, same_slab, sampled, sampled_all, sampled_rows,
    sampled_where, select, selected, shift_coordinate, shifted_noise, sound, sound_spline, spline_element, spline_sampled,
    splines_sampled, surfaces, thin, thin_place, two, unary, widened, with_rows, within, wrap, wrapped, Axis, Binary, Lattice,
    Mode, Node, Slab, Spline, Unary,
};
use crate::dfeval::{copy_values, is_leaf, slabs, KeptSlab, PointCache, SampleCtx};
use crate::volume::Volume;

verus! {

/// Every count of a volume lies within bounds.
pub open spec fn bounded_by(vol: Volume, s: (int, int, int)) -> bool {
    vol.size@[0] <= s.0 && vol.size@[1] <= s.1 && vol.size@[2] <= s.2
}

/// The steps of a volume.
pub open spec fn steps(vol: Volume) -> (int, int, int) {
    (vol.step@[0] as int, vol.step@[1] as int, vol.step@[2] as int)
}

/// A lattice with elements along every axis.
pub open spec fn solid(v: Lattice) -> bool {
    v.sx > 0 && v.sy > 0 && v.sz > 0
}

/// A volume within bounds that fit, fits.
proof fn lemma_fits(vol: Volume, s: (int, int, int))
    requires
        vol.wf(),
        roomy(s),
        bounded_by(vol, s),
    ensures
        vol.fits(),
        vol.count() == lattice(vol).count(),
        solid(lattice(vol)),
        vol.size@[0] <= 0x100_0000_0000,
        vol.size@[1] <= 0x100_0000_0000,
        vol.size@[2] <= 0x100_0000_0000,
{
    let (a, b, c) = (vol.size@[0] as int, vol.size@[1] as int, vol.size@[2] as int);
    assert(a * b <= s.0 * s.1 && 0 <= a * b) by (nonlinear_arith)
        requires
            0 < a <= s.0,
            0 < b <= s.1,
    ;
    assert((a * b) * c <= (s.0 * s.1) * s.2) by (nonlinear_arith)
        requires
            0 <= a * b <= s.0 * s.1,
            0 < c <= s.2,
    ;
}

/// An element's coordinates lie within the lattice and lead back to its
/// place.
pub(crate) proof fn lemma_index(v: Lattice, i: int)
    requires
        solid(v),
        0 <= i < v.count(),
    ensures
        0 <= v.ix(i) < v.sx,
        0 <= v.iy(i) < v.sy,
        0 <= v.iz(i) < v.sz,
        v.place(v.ix(i), v.iy(i), v.iz(i)) == i,
        0 <= i / v.sy <= i,
{
    let col = i / v.sy;
    vstd::arithmetic::div_mod::lemma_fundamental_div_mod(i, v.sy);
    vstd::arithmetic::div_mod::lemma_fundamental_div_mod(col, v.sx);
    assert((v.sx * v.sz) * v.sy == v.sx * v.sy * v.sz) by (nonlinear_arith);
    assert(0 <= col && col < v.sx * v.sz && col <= i) by (nonlinear_arith)
        requires
            i == v.sy * col + i % v.sy,
            0 <= i % v.sy < v.sy,
            0 <= i < (v.sx * v.sz) * v.sy,
            v.sy > 0,
    ;
    assert(0 <= col / v.sx && col / v.sx < v.sz) by (nonlinear_arith)
        requires
            col == v.sx * (col / v.sx) + col % v.sx,
            0 <= col % v.sx < v.sx,
            0 <= col < v.sx * v.sz,
            v.sx > 0,
    ;
    assert((v.ix(i) + v.iz(i) * v.sx) * v.sy == v.sy * col) by (nonlinear_arith)
        requires
            col == v.sx * v.iz(i) + v.ix(i),
    ;
}

/// A place within the lattice leads back to its coordinates.
proof fn lemma_place(v: Lattice, x: int, y: int, z: int)
    requires
        solid(v),
        0 <= x < v.sx,
        0 <= y < v.sy,
        0 <= z < v.sz,
    ensures
        0 <= v.place(x, y, z) < v.count(),
        0 <= z * v.sx,
        0 <= (x + z * v.sx) * v.sy,
        x + z * v.sx < v.sx * v.sz,
{
    let col = x + z * v.sx;
    assert(0 <= col && col < v.sx * v.sz && 0 <= z * v.sx) by (nonlinear_arith)
        requires
            0 <= x < v.sx,
            0 <= z < v.sz,
            col == x + z * v.sx,
    ;
    assert(0 <= col * v.sy && y + col * v.sy < (v.sx * v.sz) * v.sy) by (nonlinear_arith)
        requires
            0 <= col < v.sx * v.sz,
            0 <= y < v.sy,
    ;
    assert((v.sx * v.sz) * v.sy == v.sx * v.sy * v.sz) by (nonlinear_arith);
}

/// The coordinates of an element.
fn element_of(vol: &Volume, i: usize) -> (r: (usize, usize, usize))
    requires
        vol.wf(),
        i < lattice(*vol).count(),
    ensures
        ({
            let v = lattice(*vol);
            &&& r.0 == v.ix(i as int) && r.0 < v.sx
            &&& r.1 == v.iy(i as int) && r.1 < v.sy
            &&& r.2 == v.iz(i as int) && r.2 < v.sz
        }),
{
    proof { lemma_index(lattice(*vol), i as int); }
    let col: usize = i / vol.size[1];
    (col % vol.size[0], i % vol.size[1], col / vol.size[0])
}

/// A block along an axis.
pub(crate) fn block_along(min: i32, i: usize, step: i32) -> (r: i32)
    ensures
        r == wrapped(min + i * step),
{
    proof {
        assert(-0x8000_0000_0000_0000_0000_0000 <= i * step <= 0x8000_0000_0000_0000_0000_0000) by (nonlinear_arith)
            requires
                0 <= i <= 0xffff_ffff_ffff_ffff,
                -0x8000_0000 <= step <= 0x7fff_ffff,
        ;
    }
    wrap(min as i128 + i as i128 * step as i128)
}

/// The block of an element.
fn block_of(vol: &Volume, i: usize) -> (r: (i32, i32, i32))
    requires
        vol.wf(),
        i < lattice(*vol).count(),
    ensures
        ({
            let v = lattice(*vol);
            r == (v.at_x(i as int), v.at_y(i as int), v.at_z(i as int))
        }),
{
    let (x, y, z) = element_of(vol, i);
    (
        block_along(vol.min[0], x, vol.step[0]),
        block_along(vol.min[1], y, vol.step[1]),
        block_along(vol.min[2], z, vol.step[2]),
    )
}

/// The place of an element.
fn place_of(vol: &Volume, x: usize, y: usize, z: usize) -> (r: usize)
    requires
        vol.fits(),
        x < vol.size@[0],
        y < vol.size@[1],
        z < vol.size@[2],
    ensures
        r == lattice(*vol).place(x as int, y as int, z as int),
        r < vol.count(),
{
    vol.index(x, y, z)
}

/// Equal values.
fn filled(n: usize, value: u32) -> (r: Vec<u32>)
    ensures
        r@ == Seq::new(n as nat, |i: int| value),
{
    let mut r: Vec<u32> = Vec::new();
    while r.len() < n
        invariant
            r@.len() <= n,
            forall|i: int| 0 <= i < r@.len() ==> #[trigger] r@[i] == value,
        decreases n - r.len(),
    {
        r.push(value);
    }
    proof { assert(r@ =~= Seq::new(n as nat, |i: int| value)); }
    r
}

/// An operation on every value.
fn map_values<F: Fn(Ask) -> u64>(f: &F, op: Unary, a: &Vec<u32>) -> (r: Vec<u32>)
    requires
        answers(*f),
    ensures
        r@ == Seq::new(a@.len(), |i: int| one(*f, op, a@[i])),
{
    let mut r: Vec<u32> = Vec::new();
    while r.len() < a.len()
        invariant
            answers(*f),
            r@.len() <= a@.len(),
            forall|i: int| 0 <= i < r@.len() ==> #[trigger] r@[i] == one(*f, op, a@[i]),
        decreases a.len() - r.len(),
    {
        let v: u32 = unary(f, op, a[r.len()]);
        r.push(v);
    }
    proof { assert(r@ =~= Seq::new(a@.len(), |i: int| one(*f, op, a@[i]))); }
    r
}

/// An operation on every two values.
fn zip_values<F: Fn(Ask) -> u64>(f: &F, op: Binary, a: &Vec<u32>, b: &Vec<u32>) -> (r: Vec<u32>)
    requires
        answers(*f),
        a@.len() == b@.len(),
    ensures
        r@ == Seq::new(a@.len(), |i: int| two(*f, op, a@[i], b@[i])),
{
    let mut r: Vec<u32> = Vec::new();
    while r.len() < a.len()
        invariant
            answers(*f),
            a@.len() == b@.len(),
            r@.len() <= a@.len(),
            forall|i: int| 0 <= i < r@.len() ==> #[trigger] r@[i] == two(*f, op, a@[i], b@[i]),
        decreases a.len() - r.len(),
    {
        let i: usize = r.len();
        let v: u32 = binary(f, op, a[i], b[i]);
        r.push(v);
    }
    proof { assert(r@ =~= Seq::new(a@.len(), |i: int| two(*f, op, a@[i], b@[i]))); }
    r
}

/// How many mixing values are not `skip`.
fn count_reads<F: Fn(Ask) -> u64>(f: &F, alpha: &Vec<u32>, skip: u32) -> (r: usize)
    requires
        answers(*f),
    ensures
        r == reads(*f, alpha@, skip, alpha@.len()),
{
    let mut r: usize = 0;
    let mut i: usize = 0;
    while i < alpha.len()
        invariant
            answers(*f),
            i <= alpha@.len(),
            r <= i,
            r == reads(*f, alpha@, skip, i as nat),
        decreases alpha.len() - i,
    {
        if f(Ask::Equal32(alpha[i], skip)) == 0 {
            r += 1;
        }
        i += 1;
    }
    r
}

fn any_true(v: &Vec<bool>) -> (r: bool)
    ensures
        r == v@.contains(true),
{
    let mut i: usize = 0;
    while i < v.len()
        invariant
            i <= v@.len(),
            forall|k: int| 0 <= k < i ==> !#[trigger] v@[k],
        decreases v.len() - i,
    {
        if v[i] {
            proof { assert(v@[i as int] == true); }
            return true;
        }
        i += 1;
    }
    false
}

/// Which rows hold an element that is marked so.
fn mark_rows(m: &Vec<bool>, vol: &Volume, mark: bool) -> (r: Vec<bool>)
    requires
        vol.fits(),
        m@.len() == lattice(*vol).count(),
    ensures
        r@ == rows_with(m@, lattice(*vol), mark),
{
    let ghost v = lattice(*vol);
    let rows: usize = vol.size[1];
    let mut r: Vec<bool> = Vec::new();
    while r.len() < rows
        invariant
            r@.len() <= rows,
            forall|y: int| 0 <= y < r@.len() ==> !#[trigger] r@[y],
        decreases rows - r.len(),
    {
        r.push(false);
    }
    let mut i: usize = 0;
    while i < m.len()
        invariant
            v == lattice(*vol),
            vol.fits(),
            rows == v.sy,
            m@.len() == v.count(),
            i <= m@.len(),
            r@.len() == rows,
            forall|y: int|
                0 <= y < rows ==> (#[trigger] r@[y] <==> exists|k: int| 0 <= k < i && v.iy(k) == y && #[trigger] m@[k] == mark),
        decreases m.len() - i,
    {
        let (_, y, _) = element_of(vol, i);
        let ghost before = r@;
        if m[i] == mark {
            r.set(y, true);
        }
        proof {
            assert forall|q: int| 0 <= q < rows implies (#[trigger] r@[q] <==> exists|k: int|
                0 <= k < i + 1 && v.iy(k) == q && #[trigger] m@[k] == mark) by {
                if before[q] {
                    let k = choose|k: int| 0 <= k < i && v.iy(k) == q && #[trigger] m@[k] == mark;
                    assert(0 <= k < i + 1 && m@[k] == mark);
                }
                if exists|k: int| 0 <= k < i + 1 && v.iy(k) == q && #[trigger] m@[k] == mark {
                    let k = choose|k: int| 0 <= k < i + 1 && v.iy(k) == q && #[trigger] m@[k] == mark;
                    if k < i {
                        assert(before[q]);
                    }
                }
                if m@[i as int] == mark && v.iy(i as int) == q {
                    assert(0 <= i as int && m@[i as int] == mark);
                }
            }
        }
        i += 1;
    }
    proof { assert(r@ =~= rows_with(m@, v, mark)); }
    r
}

/// The end of a run of rows: no row of the next sixteen is needed.
fn end_of_run(need: &Vec<bool>, y: usize) -> (r: usize)
    requires
        y < need@.len(),
        need@[y as int],
    ensures
        r == run_of_rows(need@, y as int),
        y < r <= need@.len(),
{
    let mut end: usize = y;
    let ghost whole = run_of_rows(need@, y as int);
    while end < need.len()
        invariant
            y <= end <= need@.len(),
            y < need@.len(),
            need@[y as int],
            whole == run_of_rows(need@, y as int),
            whole == run_of_rows(need@, end as int),
        decreases need.len() - end,
    {
        let to: usize = if need.len() - end < 16 { need.len() } else { end + 16 };
        let mut k: usize = end;
        while k < to && !need[k]
            invariant
                end <= k <= to <= need@.len(),
                forall|j: int| end <= j < k ==> !#[trigger] need@[j],
            decreases to - k,
        {
            k += 1;
        }
        let found: bool = k < to;
        proof {
            if found {
                assert(need@[k as int]);
                assert(any_needed(need@, end as int, end + 16));
            }
        }
        if !found {
            proof {
                assert(!any_needed(need@, end as int, end + 16));
                if end == y {
                    assert(need@[y as int]);
                }
            }
            return end;
        }
        end += 1;
    }
    end
}

fn same_volume(a: &Volume, b: &Volume) -> (r: bool)
    ensures
        r == (lattice(*a) == lattice(*b)),
{
    a.size[0] == b.size[0] && a.size[1] == b.size[1] && a.size[2] == b.size[2] && a.min[0] == b.min[0] && a.min[1] == b.min[1]
        && a.min[2] == b.min[2] && a.step[0] == b.step[0] && a.step[1] == b.step[1] && a.step[2] == b.step[2]
}

/// Whether a volume holds the rows of another.
fn covers(a: &Volume, b: &Volume) -> (r: bool)
    requires
        a.wf(),
        b.wf(),
    ensures
        r == lattice(*a).covers(lattice(*b)),
{
    if a.step[0] != b.step[0] || a.step[1] != b.step[1] || a.step[2] != b.step[2] || a.min[0] != b.min[0] || a.min[2]
        != b.min[2] || a.size[0] != b.size[0] || a.size[2] != b.size[2] || b.min[1] < a.min[1] {
        return false;
    }
    let gap: i64 = b.min[1] as i64 - a.min[1] as i64;
    let step: i64 = a.step[1] as i64;
    if gap % step != 0 {
        return false;
    }
    let (m, n): (usize, usize) = (a.size[1], b.size[1]);
    proof {
        assert(0 <= m * step <= 0x8000_0000_0000_0000_0000_0000 && 0 <= n * step <= 0x8000_0000_0000_0000_0000_0000) by (nonlinear_arith)
            requires
                0 <= m <= 0xffff_ffff_ffff_ffff,
                0 <= n <= 0xffff_ffff_ffff_ffff,
                0 < step <= 0x7fff_ffff,
        ;
    }
    b.min[1] as i128 + n as i128 * step as i128 <= a.min[1] as i128 + m as i128 * step as i128
}

impl SampleCtx {
    /// The first slab of a cached input over the same volume.
    fn find_same(&self, id: usize, vol: &Volume) -> (r: Option<usize>)
        ensures
            match r {
                Some(k) => k < self.kept@.len() && same_slab(self@, id, lattice(*vol), 0) == Some(k as int) && lattice(
                    self.kept@[k as int].vol) == lattice(*vol),
                None => same_slab(self@, id, lattice(*vol), 0) is None,
            },
    {
        let ghost v = lattice(*vol);
        let mut k: usize = 0;
        while k < self.kept.len()
            invariant
                v == lattice(*vol),
                k <= self.kept@.len(),
                same_slab(self@, id, v, 0) == same_slab(self@, id, v, k as int),
            decreases self.kept.len() - k,
        {
            proof {
                assert(self@[k as int].id == self.kept@[k as int].id);
                assert(self@[k as int].vol == lattice(self.kept@[k as int].vol));
            }
            if self.kept[k].id == id && same_volume(&self.kept[k].vol, vol) {
                return Some(k);
            }
            k += 1;
        }
        None
    }

    /// The first slab of a cached input that covers a volume.
    fn find_covering(&self, id: usize, vol: &Volume) -> (r: Option<usize>)
        requires
            self.wf(),
            vol.wf(),
        ensures
            match r {
                Some(k) => k < self.kept@.len() && covering_slab(self@, id, lattice(*vol), 0) == Some(k as int) && lattice(
                    self.kept@[k as int].vol).covers(lattice(*vol)),
                None => covering_slab(self@, id, lattice(*vol), 0) is None,
            },
    {
        let ghost v = lattice(*vol);
        let mut k: usize = 0;
        while k < self.kept.len()
            invariant
                self.wf(),
                vol.wf(),
                v == lattice(*vol),
                k <= self.kept@.len(),
                covering_slab(self@, id, v, 0) == covering_slab(self@, id, v, k as int),
            decreases self.kept.len() - k,
        {
            proof {
                assert(self.kept@[k as int].vol.fits());
                assert(self@[k as int].id == self.kept@[k as int].id);
                assert(self@[k as int].vol == lattice(self.kept@[k as int].vol));
            }
            if self.kept[k].id == id && covers(&self.kept[k].vol, vol) {
                return Some(k);
            }
            k += 1;
        }
        None
    }
}

pub(crate) proof fn lemma_rows_within(a: Lattice, b: Lattice)
    requires
        a.covers(b),
        a.ty > 0,
        b.sy > 0,
    ensures
        0 <= (b.y - a.y) / a.ty,
        (b.y - a.y) / a.ty + b.sy <= a.sy,
{
    let off = (b.y - a.y) / a.ty;
    vstd::arithmetic::div_mod::lemma_fundamental_div_mod(b.y - a.y, a.ty);
    assert(0 <= off && off + b.sy <= a.sy) by (nonlinear_arith)
        requires
            b.y - a.y == a.ty * off,
            b.y >= a.y,
            b.y + b.sy * a.ty <= a.y + a.sy * a.ty,
            a.ty > 0,
    ;
}

/// A slab's rows for a volume that it covers.
fn copy_rows(s: &KeptSlab, vol: &Volume) -> (r: Vec<u32>)
    requires
        s.vol.fits(),
        s.buf@.len() == s.vol.count(),
        vol.fits(),
        lattice(s.vol).covers(lattice(*vol)),
    ensures
        r@ == rows_of(Slab { id: s.id, vol: lattice(s.vol), buf: s.buf@ }, lattice(*vol)),
{
    let ghost v = lattice(*vol);
    let ghost a = lattice(s.vol);
    let ghost slab = Slab { id: s.id, vol: a, buf: s.buf@ };
    proof { lemma_rows_within(a, v); }
    let gap: u64 = (vol.min[1] as i64 - s.vol.min[1] as i64) as u64;
    let off: usize = (gap / s.vol.step[1] as u64) as usize;
    let n: usize = vol.len();
    let mut r: Vec<u32> = Vec::new();
    while r.len() < n
        invariant
            v == lattice(*vol),
            a == lattice(s.vol),
            vol.fits(),
            s.vol.fits(),
            s.buf@.len() == s.vol.count(),
            a.covers(v),
            n == v.count(),
            off == (v.y - a.y) / a.ty,
            off + v.sy <= a.sy,
            r@.len() <= n,
            forall|i: int| 0 <= i < r@.len() ==> #[trigger] r@[i] == s.buf@[a.place(v.ix(i), v.iy(i) + off, v.iz(i))],
        decreases n - r.len(),
    {
        let (x, y, z) = element_of(vol, r.len());
        let at: usize = place_of(&s.vol, x, y + off, z);
        r.push(s.buf[at]);
    }
    proof { assert(r@ =~= rows_of(slab, v)); }
    r
}

/// The blocks of one axis that cells cover: the first corner, how many
/// corners, and the first cell.
pub(crate) fn corner_axis(min: i32, size: usize, cell: i32) -> (r: (i32, usize, i64))
    requires
        cell > 0,
        1 <= size <= 0x100_0000_0000,
        size as int / cell as int + 3 <= usize::MAX,
    ensures
        r.0 == wrapped(down_div(min as int, cell as int) * cell),
        r.1 == corners_in(min as int, size as int, cell as int),
        1 <= r.1 <= size as int / cell as int + 3,
        r.2 == down_div(min as int, cell as int),
{
    let last: i64 = min as i64 + size as i64 - 1;
    let (c0, _) = floor_parts(min as i64, cell as i64);
    let (c1, m1) = floor_parts(last, cell as i64);
    proof {
        lemma_cells(min as int, size as int, cell as int);
        assert(-0x8000_0000_0000_0000 <= c0 * cell <= 0x8000_0000_0000_0000) by {
            vstd::arithmetic::div_mod::lemma_fundamental_div_mod(min as int, cell as int);
            assert(c0 * cell == cell * (min as int / cell as int)) by (nonlinear_arith)
                requires
                    c0 == min as int / cell as int,
            ;
        }
    }
    let first: i32 = wrap(c0 as i128 * cell as i128);
    let count: i64 = c1 - c0 + 1;
    let corners: i64 = if m1 == 0 { count } else { count + 1 };
    (first, corners as usize, c0)
}

pub(crate) proof fn lemma_cells(m: int, s: int, c: int)
    requires
        c > 0,
        s >= 1,
    ensures
        1 <= cells_in(m, s, c) <= s / c + 2,
        0 <= s / c,
{
    let e = m + s - 1;
    vstd::arithmetic::div_mod::lemma_fundamental_div_mod(m, c);
    vstd::arithmetic::div_mod::lemma_fundamental_div_mod(e, c);
    vstd::arithmetic::div_mod::lemma_fundamental_div_mod(s, c);
    let (a, b, q) = (m / c, e / c, s / c);
    assert(a <= b && b - a <= q + 1 && q >= 0) by (nonlinear_arith)
        requires
            c > 0,
            s >= 1,
            e == m + s - 1,
            m == c * a + m % c,
            e == c * b + e % c,
            s == c * q + s % c,
            0 <= m % c < c,
            0 <= e % c < c,
            0 <= s % c < c,
    ;
}

/// The cell of a block is one of the cells, and its next corner one of the
/// corners.
pub(crate) proof fn lemma_cell_of(m: int, s: int, c: int, k: int)
    requires
        c > 0,
        0 <= k < s,
    ensures
        0 <= down_div(m + k, c) - down_div(m, c) < cells_in(m, s, c),
        cells_in(m, s, c) <= corners_in(m, s, c),
        0 <= down_mod(m + k, c) < c,
        m + k == down_div(m + k, c) * c + down_mod(m + k, c),
{
    let (x, e) = (m + k, m + s - 1);
    vstd::arithmetic::div_mod::lemma_fundamental_div_mod(m, c);
    vstd::arithmetic::div_mod::lemma_fundamental_div_mod(x, c);
    vstd::arithmetic::div_mod::lemma_fundamental_div_mod(e, c);
    let (a, b, d) = (m / c, x / c, e / c);
    assert(a <= b && b <= d) by (nonlinear_arith)
        requires
            c > 0,
            m <= x <= e,
            m == c * a + m % c,
            x == c * b + x % c,
            e == c * d + e % c,
            0 <= m % c < c,
            0 <= x % c < c,
            0 <= e % c < c,
    ;
    assert(x - b * c == x % c) by (nonlinear_arith)
        requires
            x == c * b + x % c,
    ;
}

/// One row further in the same cell.
proof fn lemma_next_row(y: int, c: int)
    requires
        c > 0,
        down_mod(y, c) != 0,
    ensures
        down_div(y - 1, c) == down_div(y, c),
        down_mod(y - 1, c) == down_mod(y, c) - 1,
        0 <= down_mod(y, c) < c,
{
    vstd::arithmetic::div_mod::lemma_fundamental_div_mod(y, c);
    let (q, r) = (y / c, y % c);
    assert(q * c == c * q) by (nonlinear_arith);
    vstd::arithmetic::div_mod::lemma_fundamental_div_mod_converse(y - 1, c, q, r - 1);
}

/// A part of a cell, in sizes of it.
fn part_of_cell<F: Fn(Ask) -> u64>(f: &F, local: i64, inv: u32) -> (r: u32)
    requires
        answers(*f),
        0 <= local <= 0x7fff_ffff,
    ensures
        r == cell_part(*f, local as int, inv),
{
    let v: u32 = f(Ask::FromInt32(local as i32)) as u32;
    f(Ask::Mul32(v, inv)) as u32
}

fn inverse_of<F: Fn(Ask) -> u64>(f: &F, cell: i32) -> (r: u32)
    requires
        answers(*f),
    ensures
        r == inverse(*f, cell),
{
    let v: u32 = f(Ask::FromInt32(cell)) as u32;
    f(Ask::Div32(ONE_32, v)) as u32
}

/// The values at the two ends of a block column of a cell.
fn ends_of_column<F: Fn(Ask) -> u64>(
    f: &F, cb: &Vec<u32>, w: &Volume, cx: usize, cy: usize, cz: usize, ax: u32, az: u32,
) -> (r: (u32, u32))
    requires
        answers(*f),
        w.fits(),
        cb@.len() == w.count(),
        cx < w.size@[0],
        cy < w.size@[1],
        cz < w.size@[2],
    ensures
        r == column_ends(*f, cb@, lattice(*w), cx as int, cy as int, cz as int, ax, az),
{
    let nx: usize = if cx + 1 < w.size[0] { cx + 1 } else { w.size[0] - 1 };
    let ny: usize = if cy + 1 < w.size[1] { cy + 1 } else { w.size[1] - 1 };
    let nz: usize = if cz + 1 < w.size[2] { cz + 1 } else { w.size[2] - 1 };
    let a: u32 = lerp32(f, az, cb[place_of(w, cx, cy, cz)], cb[place_of(w, cx, cy, nz)]);
    let b: u32 = lerp32(f, az, cb[place_of(w, nx, cy, cz)], cb[place_of(w, nx, cy, nz)]);
    let c: u32 = lerp32(f, az, cb[place_of(w, cx, ny, cz)], cb[place_of(w, cx, ny, nz)]);
    let d: u32 = lerp32(f, az, cb[place_of(w, nx, ny, cz)], cb[place_of(w, nx, ny, nz)]);
    (lerp32(f, ax, a, b), lerp32(f, ax, c, d))
}

/// The first rows of one block column of a volume, cell by cell.
pub(crate) fn column_rows<F: Fn(Ask) -> u64>(
    f: &F, cb: &Vec<u32>, w: &Volume, vol: &Volume, cell_xz: i32, cell_y: i32, col: usize, rows: usize,
) -> (out: Vec<u32>)
    requires
        answers(*f),
        vol.fits(),
        w.fits(),
        vol.size@[0] <= 0x100_0000_0000 && vol.size@[1] <= 0x100_0000_0000 && vol.size@[2] <= 0x100_0000_0000,
        steps(*vol) == (1int, 1int, 1int),
        cell_xz > 0,
        cell_y > 0,
        ({
            let c = corner_lattice(lattice(*vol), cell_xz as int, cell_y as int);
            lattice(*w).sx == c.sx && lattice(*w).sz == c.sz
        }),
        rows <= vol.size@[1],
        rows > 0 ==> down_div(vol.min@[1] + rows - 1, cell_y as int) - down_div(vol.min@[1] as int, cell_y as int)
            < w.size@[1],
        cb@.len() == w.count(),
        col < lattice(*vol).sx * lattice(*vol).sz,
    ensures
        out@.len() == rows,
        forall|y: int|
            0 <= y < rows ==> #[trigger] out@[y] == cell_fill(
                *f, cb@, lattice(*w), lattice(*vol), cell_xz, cell_y, col * lattice(*vol).sy + y),
{
    let ghost v = lattice(*vol);
    let ghost wl = lattice(*w);
    let mut out: Vec<u32> = Vec::new();
    let x: usize = col % vol.size[0];
    let z: usize = col / vol.size[0];
    proof {
        vstd::arithmetic::div_mod::lemma_fundamental_div_mod(col as int, v.sx);
        assert(0 <= z && z < v.sz) by (nonlinear_arith)
            requires
                col as int == v.sx * z + x,
                0 <= x < v.sx,
                0 <= col < v.sx * v.sz,
                v.sx > 0,
                z == col as int / v.sx,
                0 <= z,
        ;
        lemma_cell_of(v.x, v.sx, cell_xz as int, x as int);
        lemma_cell_of(v.z, v.sz, cell_xz as int, z as int);
    }
    let (x0, _) = floor_parts(vol.min[0] as i64, cell_xz as i64);
    let (z0, _) = floor_parts(vol.min[2] as i64, cell_xz as i64);
    let (y0, row0) = floor_parts(vol.min[1] as i64, cell_y as i64);
    let (xc, xl) = floor_parts(vol.min[0] as i64 + x as i64, cell_xz as i64);
    let (zc, zl) = floor_parts(vol.min[2] as i64 + z as i64, cell_xz as i64);
    let inv: u32 = inverse_of(f, cell_xz);
    let inv_y: u32 = inverse_of(f, cell_y);
    let ax: u32 = part_of_cell(f, xl, inv);
    let az: u32 = part_of_cell(f, zl, inv);
    let cx: usize = (xc - x0) as usize;
    let cz: usize = (zc - z0) as usize;
    let mut ends: (u32, u32) = (0, 0);
    let mut step: u32 = 0;
    let mut value: u32 = 0;
    let mut y: usize = 0;
    while y < rows
        invariant
            answers(*f),
            v == lattice(*vol),
            wl == lattice(*w),
            vol.fits(),
            w.fits(),
            v.sy <= 0x100_0000_0000,
            steps(*vol) == (1int, 1int, 1int),
            cell_xz > 0,
            cell_y > 0,
            cb@.len() == w.count(),
            x < v.sx,
            z < v.sz,
            x == col as int % v.sx,
            z == col as int / v.sx,
            cx == down_div(v.x + x, cell_xz as int) - down_div(v.x, cell_xz as int),
            cz == down_div(v.z + z, cell_xz as int) - down_div(v.z, cell_xz as int),
            cx < wl.sx,
            cz < wl.sz,
            ax == cell_part(*f, down_mod(v.x + x, cell_xz as int), inv),
            az == cell_part(*f, down_mod(v.z + z, cell_xz as int), inv),
            inv == inverse(*f, cell_xz),
            inv_y == inverse(*f, cell_y),
            y0 == down_div(v.y, cell_y as int),
            -0x1_0000_0000_0000 <= y0 <= 0x1_0000_0000_0000,
            row0 == down_mod(v.y, cell_y as int),
            0 <= row0 < cell_y,
            y <= rows <= v.sy,
            down_div(v.y + rows - 1, cell_y as int) - y0 < wl.sy || rows == 0,
            out@.len() == y,
            forall|k: int|
                0 <= k < y ==> #[trigger] out@[k] == cell_fill(*f, cb@, wl, v, cell_xz, cell_y, col * v.sy + k),
            y > 0 ==> {
                let cy = down_div(v.y + y - 1, cell_y as int) - y0;
                &&& ends == column_ends(*f, cb@, wl, cx as int, cy, cz as int, ax, az)
                &&& step == column_step(*f, ends, inv_y)
                &&& value == column_value(
                    *f, ends, inv_y, first_local(v.y, cell_y as int, cy), down_mod(v.y + y - 1, cell_y as int))
            },
        decreases rows - y,
    {
        proof {
            lemma_cell_of(v.y, v.sy, cell_y as int, y as int);
            lemma_cell_of(v.y, rows as int, cell_y as int, y as int);
        }
        let (yc, row) = floor_parts(vol.min[1] as i64 + y as i64, cell_y as i64);
        let cy: usize = (yc - y0) as usize;
        let ghost first = first_local(v.y, cell_y as int, cy as int);
        if y == 0 || row == 0 {
            ends = ends_of_column(f, cb, w, cx, cy, cz, ax, az);
            let rise: u32 = f(Ask::Sub32(ends.1, ends.0)) as u32;
            step = f(Ask::Mul32(rise, inv_y)) as u32;
            let from: i64 = if y == 0 { row0 } else { 0 };
            proof {
                if y > 0 {
                    lemma_later_cell(v.y, y as int, cell_y as int);
                }
                assert(from == first);
            }
            let k: u32 = f(Ask::FromInt32(from as i32)) as u32;
            let k: u32 = f(Ask::Mul32(step, k)) as u32;
            value = f(Ask::Add32(ends.0, k)) as u32;
            proof { assert(value == column_value(*f, ends, inv_y, first, row as int)); }
        } else {
            proof {
                lemma_next_row(v.y + y, cell_y as int);
                lemma_first_row(v.y, y as int, cell_y as int);
                let k = (row - 1 - first) as nat;
                assert((row - first) as nat == k + 1);
            }
            value = f(Ask::Add32(value, step)) as u32;
            proof { assert(value == column_value(*f, ends, inv_y, first, row as int)); }
        }
        let ghost i = col * v.sy + y;
        let ghost before = out@;
        out.push(value);
        proof {
            assert(col * v.sy == v.sy * col) by (nonlinear_arith);
            vstd::arithmetic::div_mod::lemma_fundamental_div_mod_converse(i, v.sy, col as int, y as int);
            assert(v.ix(i) == x && v.iy(i) == y && v.iz(i) == z);
            assert(value == cell_fill(*f, cb@, wl, v, cell_xz, cell_y, i));
            assert forall|k: int| 0 <= k < y + 1 implies #[trigger] out@[k] == cell_fill(
                *f, cb@, wl, v, cell_xz, cell_y, col * v.sy + k) by {
                if k < y {
                    assert(out@[k] == before[k]);
                }
            }
        }
        y += 1;
    }
    out
}

/// Append one block column of a volume, cell by cell.
fn fill_column<F: Fn(Ask) -> u64>(
    f: &F, cb: &Vec<u32>, w: &Volume, vol: &Volume, cell_xz: i32, cell_y: i32, col: usize, out: &mut Vec<u32>,
)
    requires
        answers(*f),
        vol.fits(),
        w.fits(),
        vol.size@[0] <= 0x100_0000_0000 && vol.size@[1] <= 0x100_0000_0000 && vol.size@[2] <= 0x100_0000_0000,
        steps(*vol) == (1int, 1int, 1int),
        cell_xz > 0,
        cell_y > 0,
        lattice(*w) == corner_lattice(lattice(*vol), cell_xz as int, cell_y as int),
        cb@.len() == w.count(),
        col < lattice(*vol).sx * lattice(*vol).sz,
        old(out)@.len() == col * lattice(*vol).sy,
    ensures
        final(out)@.len() == (col + 1) * lattice(*vol).sy,
        forall|i: int| 0 <= i < old(out)@.len() ==> #[trigger] final(out)@[i] == old(out)@[i],
        forall|i: int|
            old(out)@.len() <= i < final(out)@.len() ==> #[trigger] final(out)@[i] == cell_fill(
                *f, cb@, lattice(*w), lattice(*vol), cell_xz, cell_y, i),
{
    let ghost v = lattice(*vol);
    let ghost base = out@;
    proof { lemma_cell_of(v.y, v.sy, cell_y as int, v.sy - 1); }
    let rows: Vec<u32> = column_rows(f, cb, w, vol, cell_xz, cell_y, col, vol.size[1]);
    let mut y: usize = 0;
    while y < rows.len()
        invariant
            y <= rows@.len(),
            out@ == base + rows@.take(y as int),
        decreases rows.len() - y,
    {
        out.push(rows[y]);
        y += 1;
        proof { assert(out@ =~= base + rows@.take(y as int)); }
    }
    proof {
        assert((col + 1) * v.sy == col * v.sy + v.sy) by (nonlinear_arith);
        assert forall|i: int| base.len() <= i < out@.len() implies #[trigger] out@[i] == cell_fill(
            *f, cb@, lattice(*w), v, cell_xz, cell_y, i) by {
            assert(out@[i] == rows@[i - base.len()]);
        }
    }
}

/// A block that starts a cell is in a later cell than the first.
proof fn lemma_later_cell(m: int, k: int, c: int)
    requires
        c > 0,
        k > 0,
        down_mod(m + k, c) == 0,
    ensures
        down_div(m + k, c) > down_div(m, c),
{
    vstd::arithmetic::div_mod::lemma_fundamental_div_mod(m, c);
    vstd::arithmetic::div_mod::lemma_fundamental_div_mod(m + k, c);
    let (a, b) = (m / c, (m + k) / c);
    assert(b > a) by (nonlinear_arith)
        requires
            c > 0,
            k > 0,
            m == c * a + m % c,
            m + k == c * b + (m + k) % c,
            (m + k) - b * c == 0,
            0 <= m % c < c,
            0 <= (m + k) % c < c,
    ;
}

/// Within the first cell rows come after its first.
proof fn lemma_first_row(m: int, k: int, c: int)
    requires
        c > 0,
        k > 0,
        down_mod(m + k, c) != 0,
    ensures
        first_local(m, c, down_div(m + k, c) - down_div(m, c)) < down_mod(m + k, c),
{
    vstd::arithmetic::div_mod::lemma_fundamental_div_mod(m, c);
    vstd::arithmetic::div_mod::lemma_fundamental_div_mod(m + k, c);
    let (a, b) = (m / c, (m + k) / c);
    assert(a * c == c * a && b * c == c * b) by (nonlinear_arith);
    assert(0 <= (m + k) % c);
}

/// Of several values per element, the one that its selector picks.
fn pick_each<F: Fn(Ask) -> u64>(f: &F, thresholds: &Vec<u32>, b: &Vec<u32>, all: &Vec<Vec<u32>>) -> (r: Vec<u32>)
    requires
        answers(*f),
        all@.len() == thresholds@.len() + 1,
        forall|k: int| 0 <= k < all@.len() ==> (#[trigger] all@[k])@.len() == b@.len(),
    ensures
        r@.len() == b@.len(),
        forall|i: int|
            0 <= i < r@.len() ==> #[trigger] r@[i] == all@[selected(*f, thresholds@, b@[i], 0)]@[i] && 0 <= selected(
                *f, thresholds@, b@[i], 0) < all@.len(),
{
    let mut r: Vec<u32> = Vec::new();
    while r.len() < b.len()
        invariant
            answers(*f),
            all@.len() == thresholds@.len() + 1,
            forall|k: int| 0 <= k < all@.len() ==> (#[trigger] all@[k])@.len() == b@.len(),
            r@.len() <= b@.len(),
            forall|i: int|
                0 <= i < r@.len() ==> #[trigger] r@[i] == all@[selected(*f, thresholds@, b@[i], 0)]@[i] && 0 <= selected(
                    *f, thresholds@, b@[i], 0) < all@.len(),
        decreases b.len() - r.len(),
    {
        let i: usize = r.len();
        let k: usize = select(f, thresholds, b[i]);
        proof { assert(all@[k as int]@.len() == b@.len()); }
        let v: u32 = all[k][i];
        r.push(v);
    }
    r
}

impl Node {
    /// Cell interpolation over a volume of blocks: the input on the corner
    /// lattice, then every cell filled.
    fn sample_with_block_step<F: Fn(Ask) -> u64>(
        &self, vol: &Volume, cell_xz: i32, cell_y: i32, ctx: &mut SampleCtx, f: &F, Ghost(b): Ghost<(int, int, int)>,
    ) -> (r: Vec<u32>)
        requires
            answers(*f),
            sound(*self),
            vol.wf(),
            steps(*vol) == (1int, 1int, 1int),
            cell_xz > 0,
            cell_y > 0,
            roomy(b),
            bounded_by(*vol, b),
            affordable(
                *self,
                (b.0 / (cell_xz as int) + 3, b.1 / (cell_y as int) + 3, b.2 / (cell_xz as int) + 3),
                (cell_xz as int, cell_y as int, cell_xz as int),
            ),
            old(ctx).wf(),
        ensures
            (r@, final(ctx)@) == block_sampled(*f, *self, lattice(*vol), cell_xz, cell_y, old(ctx)@),
            r@.len() == vol.count(),
            final(ctx).wf(),
        decreases *self, 2nat, 0nat,
    {
        let ghost v = lattice(*vol);
        let ghost s = (b.0 / (cell_xz as int) + 3, b.1 / (cell_y as int) + 3, b.2 / (cell_xz as int) + 3);
        proof {
            lemma_fits(*vol, b);
            lemma_div_grows(vol.size@[0] as int, b.0, cell_xz as int);
            lemma_div_grows(vol.size@[1] as int, b.1, cell_y as int);
            lemma_div_grows(vol.size@[2] as int, b.2, cell_xz as int);
            lemma_div_grows(0, b.0, cell_xz as int);
            lemma_div_grows(0, b.1, cell_y as int);
            lemma_div_grows(0, b.2, cell_xz as int);
            lemma_components(s);
        }
        let (fx, nx, _) = corner_axis(vol.min[0], vol.size[0], cell_xz);
        let (fy, ny, _) = corner_axis(vol.min[1], vol.size[1], cell_y);
        let (fz, nz, _) = corner_axis(vol.min[2], vol.size[2], cell_xz);
        let w = Volume { size: [nx, ny, nz], min: [fx, fy, fz], step: [cell_xz, cell_y, cell_xz] };
        proof {
            assert(lattice(w) == corner_lattice(v, cell_xz as int, cell_y as int));
            assert(bounded_by(w, s));
        }
        let cb: Vec<u32> = self.sample_volume_ctx(&w, ctx, f, Ghost(s));
        proof { lemma_fits(w, s); }
        let n: usize = vol.len();
        let mut out: Vec<u32> = Vec::new();
        let mut col: usize = 0;
        proof {
            assert((v.sx * v.sz) * v.sy == v.count()) by (nonlinear_arith)
                requires
                    v.count() == v.sx * v.sy * v.sz,
            ;
            assert(v.sx * v.sz <= usize::MAX) by (nonlinear_arith)
                requires
                    (v.sx * v.sz) * v.sy <= usize::MAX,
                    v.sy >= 1,
                    v.sx * v.sz >= 0,
            ;
            assert(0 <= v.sx * v.sz) by (nonlinear_arith)
                requires
                    v.sx > 0,
                    v.sz > 0,
            ;
        }
        let cols: usize = vol.size[0] * vol.size[2];
        while col < cols
            invariant
                answers(*f),
                v == lattice(*vol),
                vol.fits(),
                w.fits(),
                vol.size@[0] <= 0x100_0000_0000 && vol.size@[1] <= 0x100_0000_0000 && vol.size@[2] <= 0x100_0000_0000,
                steps(*vol) == (1int, 1int, 1int),
                cell_xz > 0,
                cell_y > 0,
                lattice(w) == corner_lattice(v, cell_xz as int, cell_y as int),
                cb@.len() == w.count(),
                cols == v.sx * v.sz,
                col <= cols,
                out@.len() == col * v.sy,
                forall|i: int|
                    0 <= i < out@.len() ==> #[trigger] out@[i] == cell_fill(*f, cb@, lattice(w), v, cell_xz, cell_y, i),
            decreases cols - col,
        {
            let ghost before = out@;
            fill_column(f, &cb, &w, vol, cell_xz, cell_y, col, &mut out);
            proof {
                assert forall|i: int| 0 <= i < out@.len() implies #[trigger] out@[i] == cell_fill(
                    *f, cb@, lattice(w), v, cell_xz, cell_y, i) by {
                    if i < before.len() {
                        assert(out@[i] == before[i]);
                    }
                }
            }
            col += 1;
        }
        proof {
            assert(out@ =~= block_sampled(*f, *self, v, cell_xz, cell_y, old(ctx)@).0);
        }
        out
    }

    /// A node over the points whose mixing value is not `skip`; the rest of
    /// the buffer is never read. A side nobody reads is not sampled at all;
    /// a plain noise that few points read takes the point path there.
    fn sample_where<F: Fn(Ask) -> u64>(
        &self, vol: &Volume, ctx: &mut SampleCtx, alpha: &Vec<u32>, skip: u32, f: &F, Ghost(s): Ghost<(int, int, int)>,
    ) -> (r: Vec<u32>)
        requires
            answers(*f),
            sound(*self),
            vol.wf(),
            affordable(*self, s, steps(*vol)),
            bounded_by(*vol, s),
            alpha@.len() == lattice(*vol).count(),
            old(ctx).wf(),
        ensures
            (r@, final(ctx)@) == sampled_where(*f, *self, lattice(*vol), old(ctx)@, alpha@, skip),
            r@.len() == vol.count(),
            final(ctx).wf(),
        decreases *self, 2nat, 0nat,
    {
        let ghost v = lattice(*vol);
        proof { lemma_fits(*vol, s); }
        let needed: usize = count_reads(f, alpha, skip);
        let n: usize = alpha.len();
        if needed == 0 {
            return filled(n, 0);
        }
        if let Node::Noise { stack, xz_scale, y_scale, shift_x, shift_y, shift_z } = self {
            if shift_x.is_none() && shift_y.is_none() && shift_z.is_none() && (needed as u128) * 4 < n as u128 {
                let mut out: Vec<u32> = Vec::new();
                while out.len() < n
                    invariant
                        answers(*f),
                        v == lattice(*vol),
                        vol.fits(),
                        n == v.count(),
                        alpha@.len() == n,
                        out@.len() <= n,
                        forall|i: int|
                            0 <= i < out@.len() ==> #[trigger] out@[i] == (if holds(*f, Ask::Equal32(alpha@[i], skip)) {
                                0u32
                            } else {
                                noise_at(*f, *stack, *xz_scale, *y_scale, v.at_x(i), v.at_y(i), v.at_z(i))
                            }),
                    decreases n - out.len(),
                {
                    let i: usize = out.len();
                    if f(Ask::Equal32(alpha[i], skip)) != 0 {
                        out.push(0);
                    } else {
                        let (x, y, z) = block_of(vol, i);
                        let value: u32 = noise_point(f, *stack, *xz_scale, *y_scale, x, y, z);
                        out.push(value);
                    }
                }
                proof {
                    assert(out@ =~= sampled_where(*f, *self, v, old(ctx)@, alpha@, skip).0);
                }
                return out;
            }
        }
        self.sample_volume_ctx(vol, ctx, f, Ghost(s))
    }

    /// A branch over the rows that read it, widened to whole cells of eight
    /// blocks; a point nobody reads is left at zero.
    fn sample_needed_rows<F: Fn(Ask) -> u64>(
        &self, need: &Vec<bool>, by_rows: bool, vol: &Volume, ctx: &mut SampleCtx, f: &F, Ghost(s): Ghost<(int, int, int)>,
    ) -> (r: Vec<u32>)
        requires
            answers(*f),
            sound(*self),
            vol.wf(),
            affordable(*self, s, steps(*vol)),
            bounded_by(*vol, s),
            need@.len() == lattice(*vol).sy,
            old(ctx).wf(),
        ensures
            (r@, final(ctx)@) == sampled_rows(*f, *self, need@, by_rows, lattice(*vol), old(ctx)@),
            r@.len() == vol.count(),
            final(ctx).wf(),
        decreases *self, 3nat, 0nat,
    {
        let ghost v = lattice(*vol);
        proof { lemma_fits(*vol, s); }
        let n: usize = vol.len();
        if let Node::Constant(c) = self {
            return filled(n, *c);
        }
        if !by_rows {
            return self.sample_volume_ctx(vol, ctx, f, Ghost(s));
        }
        let rows: usize = vol.size[1];
        let mut out: Vec<u32> = filled(n, 0);
        let mut y: usize = 0;
        let ghost whole = sampled_rows(*f, *self, need@, by_rows, v, ctx@);
        while y < rows
            invariant
                answers(*f),
                sound(*self),
                vol.fits(),
                v == lattice(*vol),
                affordable(*self, s, steps(*vol)),
                bounded_by(*vol, s),
                v.sy <= 0x100_0000_0000,
                rows == v.sy,
                n == v.count(),
                need@.len() == rows,
                y <= rows,
                out@.len() == n,
                ctx.wf(),
                whole == rows_from(*f, *self, need@, y as int, v, out@, ctx@),
            decreases rows - y,
        {
            if !need[y] {
                y += 1;
            } else {
                let end: usize = end_of_run(need, y);
                let (a, _) = floor_parts(vol.min[1] as i64 + y as i64, 8);
                let (b, _) = floor_parts(vol.min[1] as i64 + end as i64 - 1, 8);
                let lo64: i64 = a * 8 - vol.min[1] as i64;
                let hi64: i64 = b * 8 + 8 - vol.min[1] as i64;
                let lo: usize = if lo64 < 0 { 0 } else { lo64 as usize };
                let hi: usize = if hi64 < rows as i64 { hi64 as usize } else { rows };
                proof {
                    assert((lo as int, hi as int) == widened(v, y as int, end as int));
                    assert(lo <= y && end <= hi);
                }
                let part = Volume {
                    size: [vol.size[0], hi - lo, vol.size[2]],
                    min: [vol.min[0], wrap(vol.min[1] as i128 + lo as i128), vol.min[2]],
                    step: [vol.step[0], vol.step[1], vol.step[2]],
                };
                let ghost w = row_part(v, lo as int, hi as int);
                proof {
                    assert(lattice(part) == w);
                    assert(steps(part) == steps(*vol));
                }
                let buf: Vec<u32> = self.sample_volume_ctx(&part, ctx, f, Ghost(s));
                proof { lemma_fits(part, s); }
                out = take_rows(vol, &out, &part, &buf, lo, y, end);
                y = end;
            }
        }
        out
    }
}

/// Each count of a buffer that fits is a machine word.
proof fn lemma_components(s: (int, int, int))
    requires
        roomy(s),
        s.0 >= 1,
        s.1 >= 1,
        s.2 >= 1,
    ensures
        s.0 <= usize::MAX,
        s.1 <= usize::MAX,
        s.2 <= usize::MAX,
{
    assert(s.0 <= s.0 * s.1 && s.1 <= s.0 * s.1) by (nonlinear_arith)
        requires
            s.0 >= 1,
            s.1 >= 1,
    ;
    assert(s.0 * s.1 <= (s.0 * s.1) * s.2 && s.2 <= (s.0 * s.1) * s.2) by (nonlinear_arith)
        requires
            s.0 * s.1 >= 1,
            s.2 >= 1,
    ;
}

proof fn lemma_div_grows(a: int, b: int, c: int)
    requires
        0 <= a <= b,
        c > 0,
    ensures
        a / c <= b / c,
{
    vstd::arithmetic::div_mod::lemma_div_is_ordered(a, b, c);
}

/// The buffer with the rows `y..end` taken from a part that starts at row
/// `lo`.
fn take_rows(vol: &Volume, out: &Vec<u32>, part: &Volume, buf: &Vec<u32>, lo: usize, y: usize, end: usize) -> (r: Vec<u32>)
    requires
        vol.fits(),
        part.fits(),
        out@.len() == lattice(*vol).count(),
        buf@.len() == part.count(),
        lattice(*part).sx == lattice(*vol).sx,
        lattice(*part).sz == lattice(*vol).sz,
        lo <= y <= end,
        end - lo <= lattice(*part).sy,
    ensures
        r@ == with_rows(lattice(*vol), out@, lattice(*part), buf@, lo as int, y as int, end as int),
        r@.len() == vol.count(),
{
    let ghost v = lattice(*vol);
    let ghost w = lattice(*part);
    let n: usize = out.len();
    let mut r: Vec<u32> = Vec::new();
    while r.len() < n
        invariant
            vol.fits(),
            part.fits(),
            v == lattice(*vol),
            w == lattice(*part),
            n == v.count(),
            out@.len() == n,
            buf@.len() == part.count(),
            w.sx == v.sx,
            w.sz == v.sz,
            lo <= y <= end,
            end - lo <= w.sy,
            r@.len() <= n,
            forall|i: int|
                0 <= i < r@.len() ==> #[trigger] r@[i] == (if y <= v.iy(i) < end {
                    buf@[w.place(v.ix(i), v.iy(i) - lo, v.iz(i))]
                } else {
                    out@[i]
                }),
        decreases n - r.len(),
    {
        let i: usize = r.len();
        let (ex, ey, ez) = element_of(vol, i);
        if y <= ey && ey < end {
            let at: usize = place_of(part, ex, ey - lo, ez);
            r.push(buf[at]);
        } else {
            r.push(out[i]);
        }
    }
    proof { assert(r@ =~= with_rows(v, out@, w, buf@, lo as int, y as int, end as int)); }
    r
}

impl Node {
    /// The whole buffer for a volume.
    pub fn sample_volume<F: Fn(Ask) -> u64>(&self, vol: &Volume, f: &F) -> (r: Vec<u32>)
        requires
            answers(*f),
            sound(*self),
            vol.wf(),
            affordable(*self, (vol.size@[0] as int, vol.size@[1] as int, vol.size@[2] as int), steps(*vol)),
        ensures
            r@ == sampled(*f, *self, lattice(*vol), Seq::empty()).0,
            r@.len() == vol.count(),
    {
        let mut ctx = SampleCtx::default();
        self.sample_volume_with(vol, &mut ctx, f)
    }

    /// `sample_volume` sharing a caller-owned context across calls.
    pub fn sample_volume_with<F: Fn(Ask) -> u64>(&self, vol: &Volume, ctx: &mut SampleCtx, f: &F) -> (r: Vec<u32>)
        requires
            answers(*f),
            sound(*self),
            vol.wf(),
            affordable(*self, (vol.size@[0] as int, vol.size@[1] as int, vol.size@[2] as int), steps(*vol)),
            old(ctx).wf(),
        ensures
            (r@, final(ctx)@) == sampled(*f, *self, lattice(*vol), old(ctx)@),
            r@.len() == vol.count(),
            final(ctx).wf(),
    {
        let ghost s = (vol.size@[0] as int, vol.size@[1] as int, vol.size@[2] as int);
        self.sample_volume_ctx(vol, ctx, f, Ghost(s))
    }

    pub(crate) fn sample_volume_ctx<F: Fn(Ask) -> u64>(
        &self, vol: &Volume, ctx: &mut SampleCtx, f: &F, Ghost(s): Ghost<(int, int, int)>,
    ) -> (r: Vec<u32>)
        requires
            answers(*f),
            sound(*self),
            vol.wf(),
            affordable(*self, s, steps(*vol)),
            bounded_by(*vol, s),
            old(ctx).wf(),
        ensures
            (r@, final(ctx)@) == sampled(*f, *self, lattice(*vol), old(ctx)@),
            r@.len() == vol.count(),
            final(ctx).wf(),
        decreases *self, 1nat, 0nat,
    {
        match self {
            Node::Unary { .. } => self.sample_unary(vol, ctx, f, Ghost(s)),
            Node::Binary { .. } => self.sample_binary(vol, ctx, f, Ghost(s)),
            Node::Noise { .. } => self.sample_noise(vol, ctx, f, Ghost(s)),
            Node::Lerp { .. } => self.sample_lerp(vol, ctx, f, Ghost(s)),
            Node::RangeChoice { .. } => self.sample_range_choice(vol, ctx, f, Ghost(s)),
            Node::IntervalSelect { .. } => self.sample_interval_select(vol, ctx, f, Ghost(s)),
            Node::Cache { .. } => self.sample_cache(vol, ctx, f, Ghost(s)),
            Node::BlendDensity(_) => self.sample_blend(vol, ctx, f, Ghost(s)),
            Node::Interpolated { .. } => self.sample_interpolated(vol, ctx, f, Ghost(s)),
            Node::Slice { .. } => self.sample_slice(vol, ctx, f, Ghost(s)),
            Node::FindTopSurface { .. } => self.sample_surface(vol, ctx, f, Ghost(s)),
            Node::Spline(_) => self.sample_spline(vol, ctx, f, Ghost(s)),
            _ => {
                proof { assert(is_leaf(*self)); }
                let r: Vec<u32> = self.sample_leaf(vol, f, Ghost(s));
                proof {
                    assert(sampled(*f, *self, lattice(*vol), ctx@) == (r@, ctx@));
                }
                r
            },
        }
    }

    /// A node without inputs over a volume.
    fn sample_leaf<F: Fn(Ask) -> u64>(&self, vol: &Volume, f: &F, Ghost(s): Ghost<(int, int, int)>) -> (r: Vec<u32>)
        requires
            answers(*f),
            sound(*self),
            is_leaf(*self),
            vol.wf(),
            affordable(*self, s, steps(*vol)),
            bounded_by(*vol, s),
        ensures
            forall|c: Seq<Slab>| #[trigger] sampled(*f, *self, lattice(*vol), c) == (r@, c),
            r@.len() == vol.count(),
    {
        let ghost v = lattice(*vol);
        proof { lemma_fits(*vol, s); }
        let n: usize = vol.len();
        let ghost none = crate::df26::forgetful();
        let mut r: Vec<u32> = Vec::new();
        while r.len() < n
            invariant
                answers(*f),
                sound(*self),
                is_leaf(*self),
                vol.fits(),
                v == lattice(*vol),
                n == v.count(),
                r@.len() <= n,
                forall|i: int|
                    0 <= i < r@.len() ==> #[trigger] r@[i] == evaluated(
                        *f, *self, v.at_x(i), v.at_y(i), v.at_z(i), Mode::Volume, none).0,
            decreases n - r.len(),
        {
            let (x, y, z) = block_of(vol, r.len());
            let value: u32 = self.eval_leaf(x, y, z, Mode::Volume, f);
            proof { assert(evaluated(*f, *self, x, y, z, Mode::Volume, none) == (value, none)); }
            r.push(value);
        }
        proof {
            assert forall|c: Seq<Slab>| #[trigger] sampled(*f, *self, v, c) == (r@, c) by {
                assert(r@ =~= sampled(*f, *self, v, c).0);
            }
        }
        r
    }

    /// An operation on one value over a volume.
    fn sample_unary<F: Fn(Ask) -> u64>(
        &self, vol: &Volume, ctx: &mut SampleCtx, f: &F, Ghost(s): Ghost<(int, int, int)>,
    ) -> (r: Vec<u32>)
        requires
            answers(*f),
            sound(*self),
            *self is Unary,
            vol.wf(),
            affordable(*self, s, steps(*vol)),
            bounded_by(*vol, s),
            old(ctx).wf(),
        ensures
            (r@, final(ctx)@) == sampled(*f, *self, lattice(*vol), old(ctx)@),
            r@.len() == vol.count(),
            final(ctx).wf(),
        decreases *self, 0nat, 0nat,
    {
        proof { lemma_fits(*vol, s); }
        match self {
            Node::Unary { op, input } => {
                let a: Vec<u32> = input.sample_volume_ctx(vol, ctx, f, Ghost(s));
                let r: Vec<u32> = map_values(f, *op, &a);
                proof { assert(r@ =~= sampled(*f, *self, lattice(*vol), old(ctx)@).0); }
                r
            },
            _ => Vec::new(),
        }
    }

    /// An operation on two values over a volume.
    fn sample_binary<F: Fn(Ask) -> u64>(
        &self, vol: &Volume, ctx: &mut SampleCtx, f: &F, Ghost(s): Ghost<(int, int, int)>,
    ) -> (r: Vec<u32>)
        requires
            answers(*f),
            sound(*self),
            *self is Binary,
            vol.wf(),
            affordable(*self, s, steps(*vol)),
            bounded_by(*vol, s),
            old(ctx).wf(),
        ensures
            (r@, final(ctx)@) == sampled(*f, *self, lattice(*vol), old(ctx)@),
            r@.len() == vol.count(),
            final(ctx).wf(),
        decreases *self, 0nat, 0nat,
    {
        proof { lemma_fits(*vol, s); }
        match self {
            Node::Binary { combine, left, right } => {
                let a: Vec<u32> = left.sample_volume_ctx(vol, ctx, f, Ghost(s));
                let b: Vec<u32> = right.sample_volume_ctx(vol, ctx, f, Ghost(s));
                let r: Vec<u32> = zip_values(f, *combine, &a, &b);
                proof { assert(r@ =~= sampled(*f, *self, lattice(*vol), old(ctx)@).0); }
                r
            },
            _ => Vec::new(),
        }
    }

    /// A noise over a volume.
    fn sample_noise<F: Fn(Ask) -> u64>(
        &self, vol: &Volume, ctx: &mut SampleCtx, f: &F, Ghost(s): Ghost<(int, int, int)>,
    ) -> (r: Vec<u32>)
        requires
            answers(*f),
            sound(*self),
            *self is Noise,
            vol.wf(),
            affordable(*self, s, steps(*vol)),
            bounded_by(*vol, s),
            old(ctx).wf(),
        ensures
            (r@, final(ctx)@) == sampled(*f, *self, lattice(*vol), old(ctx)@),
            r@.len() == vol.count(),
            final(ctx).wf(),
        decreases *self, 0nat, 0nat,
    {
        proof { lemma_fits(*vol, s); }
        let ghost v = lattice(*vol);
        let n: usize = vol.len();
        match self {
            Node::Noise { stack, xz_scale, y_scale, shift_x, shift_y, shift_z } => {
                let (stack, xz, ys): (usize, u64, u64) = (*stack, *xz_scale, *y_scale);
                let mut r: Vec<u32> = Vec::new();
                if shift_x.is_none() && shift_y.is_none() && shift_z.is_none() {
                    while r.len() < n
                        invariant
                            answers(*f),
                            vol.fits(),
                            v == lattice(*vol),
                            n == v.count(),
                            r@.len() <= n,
                            forall|i: int|
                                0 <= i < r@.len() ==> #[trigger] r@[i] == noise_in(
                                    *f, stack, xz, ys, ONE_32, v.at_x(i), v.at_y(i), v.at_z(i)),
                        decreases n - r.len(),
                    {
                        let (x, y, z) = block_of(vol, r.len());
                        let value: u32 = f(
                            Ask::StackBlock { stack, bx: x, by: y, bz: z, xz_scale: xz, y_scale: ys, amplitude: ONE_32 },
                        ) as u32;
                        r.push(value);
                    }
                    proof { assert(r@ =~= sampled(*f, *self, v, old(ctx)@).0); }
                    return r;
                }
                let sx: Vec<u32> = match shift_x {
                    Some(c) => c.sample_volume_ctx(vol, ctx, f, Ghost(s)),
                    None => filled(n, 0),
                };
                let sy: Vec<u32> = match shift_y {
                    Some(c) => c.sample_volume_ctx(vol, ctx, f, Ghost(s)),
                    None => filled(n, 0),
                };
                let sz: Vec<u32> = match shift_z {
                    Some(c) => c.sample_volume_ctx(vol, ctx, f, Ghost(s)),
                    None => filled(n, 0),
                };
                while r.len() < n
                    invariant
                        answers(*f),
                        vol.fits(),
                        v == lattice(*vol),
                        n == v.count(),
                        sx@.len() == n,
                        sy@.len() == n,
                        sz@.len() == n,
                        r@.len() <= n,
                        forall|i: int|
                            0 <= i < r@.len() ==> #[trigger] r@[i] == shifted_noise(*f, stack, xz, ys, v, sx@, sy@, sz@, i),
                    decreases n - r.len(),
                {
                    let i: usize = r.len();
                    let (x, y, z) = block_of(vol, i);
                    let nx: u64 = shift_coordinate(f, x, xz, sx[i]);
                    let ny: u64 = shift_coordinate(f, y, ys, sy[i]);
                    let nz: u64 = shift_coordinate(f, z, xz, sz[i]);
                    let value: u32 = f(Ask::Stack { stack, x: nx, y: ny, z: nz }) as u32;
                    r.push(value);
                }
                proof { assert(r@ =~= sampled(*f, *self, v, old(ctx)@).0); }
                r
            },
            _ => Vec::new(),
        }
    }

    /// A mix over a volume.
    fn sample_lerp<F: Fn(Ask) -> u64>(
        &self, vol: &Volume, ctx: &mut SampleCtx, f: &F, Ghost(s): Ghost<(int, int, int)>,
    ) -> (r: Vec<u32>)
        requires
            answers(*f),
            sound(*self),
            *self is Lerp,
            vol.wf(),
            affordable(*self, s, steps(*vol)),
            bounded_by(*vol, s),
            old(ctx).wf(),
        ensures
            (r@, final(ctx)@) == sampled(*f, *self, lattice(*vol), old(ctx)@),
            r@.len() == vol.count(),
            final(ctx).wf(),
        decreases *self, 0nat, 0nat,
    {
        proof { lemma_fits(*vol, s); }
        let ghost v = lattice(*vol);
        let n: usize = vol.len();
        match self {
            Node::Lerp { alpha, first, second } => {
                let a: Vec<u32> = alpha.sample_volume_ctx(vol, ctx, f, Ghost(s));
                let u: Vec<u32> = first.sample_where(vol, ctx, &a, ONE_32, f, Ghost(s));
                let w: Vec<u32> = second.sample_where(vol, ctx, &a, 0, f, Ghost(s));
                let mut r: Vec<u32> = Vec::new();
                while r.len() < n
                    invariant
                        answers(*f),
                        a@.len() == n,
                        u@.len() == n,
                        w@.len() == n,
                        r@.len() <= n,
                        forall|i: int| 0 <= i < r@.len() ==> #[trigger] r@[i] == mixed(*f, a@[i], u@[i], w@[i]),
                    decreases n - r.len(),
                {
                    let i: usize = r.len();
                    let value: u32 = if f(Ask::Equal32(a[i], 0)) != 0 {
                        u[i]
                    } else if f(Ask::Equal32(a[i], ONE_32)) != 0 {
                        w[i]
                    } else {
                        lerp32(f, a[i], u[i], w[i])
                    };
                    r.push(value);
                }
                proof { assert(r@ =~= sampled(*f, *self, v, old(ctx)@).0); }
                r
            },
            _ => Vec::new(),
        }
    }

    /// Which elements a choice by range takes in, and the slabs kept on the
    /// way.
    fn mark_range<F: Fn(Ask) -> u64>(
        &self, vol: &Volume, ctx: &mut SampleCtx, min: u32, max: u32, f: &F, Ghost(s): Ghost<(int, int, int)>,
    ) -> (m: Vec<bool>)
        requires
            answers(*f),
            sound(*self),
            vol.wf(),
            affordable(*self, s, steps(*vol)),
            bounded_by(*vol, s),
            old(ctx).wf(),
        ensures
            (m@, final(ctx)@) == marked_range(*f, *self, lattice(*vol), old(ctx)@, min, max),
            m@.len() == vol.count(),
            final(ctx).wf(),
        decreases *self, 2nat, 0nat,
    {
        proof { lemma_fits(*vol, s); }
        let ghost v = lattice(*vol);
        let n: usize = vol.len();
        let mut m: Vec<bool> = Vec::new();
        if let Node::Gradient { axis, tiling, from_coordinate, to_coordinate, from_value, factor } = self {
            if let Axis::Y = axis {
                while m.len() < n
                    invariant
                        answers(*f),
                        vol.fits(),
                        v == lattice(*vol),
                        n == v.count(),
                        *from_coordinate != *to_coordinate,
                        m@.len() <= n,
                        forall|i: int|
                            0 <= i < m@.len() ==> #[trigger] m@[i] == within(
                                *f,
                                gradient_at(*f, *tiling, *from_coordinate, *to_coordinate, *from_value, *factor, v.at_y(i)),
                                min,
                                max,
                            ),
                    decreases n - m.len(),
                {
                    let (_, y, _) = block_of(vol, m.len());
                    let e: u32 = gradient(f, *tiling, *from_coordinate, *to_coordinate, *from_value, *factor, y);
                    m.push(in_range(f, e, min, max));
                }
                proof { assert(m@ =~= marked_range(*f, *self, v, old(ctx)@, min, max).0); }
                return m;
            }
        }
        let b: Vec<u32> = self.sample_volume_ctx(vol, ctx, f, Ghost(s));
        while m.len() < n
            invariant
                answers(*f),
                b@.len() == n,
                m@.len() <= n,
                forall|i: int| 0 <= i < m@.len() ==> #[trigger] m@[i] == within(*f, b@[i], min, max),
            decreases n - m.len(),
        {
            m.push(in_range(f, b[m.len()], min, max));
        }
        proof { assert(m@ =~= marked_range(*f, *self, v, old(ctx)@, min, max).0); }
        m
    }

    /// A choice by range over a volume: each branch on the rows that read
    /// it.
    fn sample_range_choice<F: Fn(Ask) -> u64>(
        &self, vol: &Volume, ctx: &mut SampleCtx, f: &F, Ghost(s): Ghost<(int, int, int)>,
    ) -> (r: Vec<u32>)
        requires
            answers(*f),
            sound(*self),
            *self is RangeChoice,
            vol.wf(),
            affordable(*self, s, steps(*vol)),
            bounded_by(*vol, s),
            old(ctx).wf(),
        ensures
            (r@, final(ctx)@) == sampled(*f, *self, lattice(*vol), old(ctx)@),
            r@.len() == vol.count(),
            final(ctx).wf(),
        decreases *self, 0nat, 0nat,
    {
        proof { lemma_fits(*vol, s); }
        let ghost v = lattice(*vol);
        let n: usize = vol.len();
        match self {
            Node::RangeChoice { choice, min_inclusive, max_exclusive, when_in_range, when_out_of_range } => {
                let m: Vec<bool> = choice.mark_range(vol, ctx, *min_inclusive, *max_exclusive, f, Ghost(s));
                let need_in: Vec<bool> = mark_rows(&m, vol, true);
                let need_out: Vec<bool> = mark_rows(&m, vol, false);
                if !any_true(&need_in) {
                    return when_out_of_range.sample_volume_ctx(vol, ctx, f, Ghost(s));
                }
                if !any_true(&need_out) {
                    return when_in_range.sample_volume_ctx(vol, ctx, f, Ghost(s));
                }
                let by_rows: bool = vol.size[1] >= 16 && vol.step[1] == 1;
                let a: Vec<u32> = when_in_range.sample_needed_rows(&need_in, by_rows, vol, ctx, f, Ghost(s));
                let o: Vec<u32> = when_out_of_range.sample_needed_rows(&need_out, by_rows, vol, ctx, f, Ghost(s));
                let mut r: Vec<u32> = Vec::new();
                while r.len() < n
                    invariant
                        m@.len() == n,
                        a@.len() == n,
                        o@.len() == n,
                        r@.len() <= n,
                        forall|i: int| 0 <= i < r@.len() ==> #[trigger] r@[i] == (if m@[i] { a@[i] } else { o@[i] }),
                    decreases n - r.len(),
                {
                    let i: usize = r.len();
                    r.push(if m[i] { a[i] } else { o[i] });
                }
                proof { assert(r@ =~= sampled(*f, *self, v, old(ctx)@).0); }
                r
            },
            _ => Vec::new(),
        }
    }

    /// A choice by intervals over a volume.
    fn sample_interval_select<F: Fn(Ask) -> u64>(
        &self, vol: &Volume, ctx: &mut SampleCtx, f: &F, Ghost(s): Ghost<(int, int, int)>,
    ) -> (r: Vec<u32>)
        requires
            answers(*f),
            sound(*self),
            *self is IntervalSelect,
            vol.wf(),
            affordable(*self, s, steps(*vol)),
            bounded_by(*vol, s),
            old(ctx).wf(),
        ensures
            (r@, final(ctx)@) == sampled(*f, *self, lattice(*vol), old(ctx)@),
            r@.len() == vol.count(),
            final(ctx).wf(),
        decreases *self, 0nat, 0nat,
    {
        proof { lemma_fits(*vol, s); }
        let ghost v = lattice(*vol);
        let n: usize = vol.len();
        match self {
            Node::IntervalSelect { selector, thresholds, functions } => {
                let b: Vec<u32> = selector.sample_volume_ctx(vol, ctx, f, Ghost(s));
                let ghost mid = ctx@;
                let mut all: Vec<Vec<u32>> = Vec::new();
                let ghost view = |w: Vec<u32>| w@;
                proof { assert(all@.map_values(view) =~= Seq::empty()); }
                while all.len() < functions.len()
                    invariant
                        *self matches Node::IntervalSelect { functions: g, .. } && g == *functions,
                        answers(*f),
                        sound(*self),
                        vol.wf(),
                        affordable(*self, s, steps(*vol)),
                        bounded_by(*vol, s),
                        v == lattice(*vol),
                        n == vol.count(),
                        view == (|w: Vec<u32>| w@),
                        ctx.wf(),
                        all@.len() <= functions@.len(),
                        forall|k: int| 0 <= k < all@.len() ==> (#[trigger] all@[k])@.len() == n,
                        (all@.map_values(view), ctx@) == sampled_all(*f, functions@, all@.len(), v, mid),
                    decreases functions.len() - all.len(),
                {
                    let k: usize = all.len();
                    let ghost before = all@;
                    proof {
                        assert(decreases_to!(*self => self->IntervalSelect_functions));
                        assert(decreases_to!(functions@ => functions@[k as int]));
                        assert(sound(*functions@[k as int]));
                        assert(affordable(*functions@[k as int], s, steps(*vol)));
                    }
                    let one: Vec<u32> = functions[k].sample_volume_ctx(vol, ctx, f, Ghost(s));
                    all.push(one);
                    proof { assert(all@.map_values(view) =~= before.map_values(view).push(one@)); }
                }
                let r: Vec<u32> = pick_each(f, thresholds, &b, &all);
                proof {
                    assert forall|i: int| 0 <= i < n implies #[trigger] r@[i] == all@.map_values(view)[selected(
                        *f, thresholds@, b@[i], 0)][i] by {}
                    assert(r@ =~= sampled(*f, *self, v, old(ctx)@).0);
                }
                r
            },
            _ => Vec::new(),
        }
    }

    /// A cached input over a volume: from a kept slab where one holds it.
    fn sample_cache<F: Fn(Ask) -> u64>(
        &self, vol: &Volume, ctx: &mut SampleCtx, f: &F, Ghost(s): Ghost<(int, int, int)>,
    ) -> (r: Vec<u32>)
        requires
            answers(*f),
            sound(*self),
            *self is Cache,
            vol.wf(),
            affordable(*self, s, steps(*vol)),
            bounded_by(*vol, s),
            old(ctx).wf(),
        ensures
            (r@, final(ctx)@) == sampled(*f, *self, lattice(*vol), old(ctx)@),
            r@.len() == vol.count(),
            final(ctx).wf(),
        decreases *self, 0nat, 0nat,
    {
        proof { lemma_fits(*vol, s); }
        let ghost v = lattice(*vol);
        match self {
            Node::Cache { id, cached } => {
                if let Some(k) = ctx.find_same(*id, vol) {
                    proof {
                        assert(ctx.kept@[k as int].vol.fits());
                        assert(ctx@[k as int].buf == ctx.kept@[k as int].buf@);
                        assert(ctx.kept@[k as int].vol.count() == lattice(ctx.kept@[k as int].vol).count());
                    }
                    return copy_values(&ctx.kept[k].buf);
                }
                if let Some(k) = ctx.find_covering(*id, vol) {
                    proof {
                        assert(ctx.kept@[k as int].vol.fits());
                    }
                    return copy_rows(&ctx.kept[k], vol);
                }
                let b: Vec<u32> = cached.sample_volume_ctx(vol, ctx, f, Ghost(s));
                let ghost before = ctx.kept@;
                let copy: Vec<u32> = copy_values(&b);
                ctx.kept.push(KeptSlab { id: *id, vol: *vol, buf: copy });
                proof {
                    assert(slabs(ctx.kept@) =~= slabs(before).push(Slab { id: *id, vol: v, buf: b@ }));
                }
                b
            },
            _ => Vec::new(),
        }
    }

    /// A blended density over a volume.
    fn sample_blend<F: Fn(Ask) -> u64>(
        &self, vol: &Volume, ctx: &mut SampleCtx, f: &F, Ghost(s): Ghost<(int, int, int)>,
    ) -> (r: Vec<u32>)
        requires
            answers(*f),
            sound(*self),
            *self is BlendDensity,
            vol.wf(),
            affordable(*self, s, steps(*vol)),
            bounded_by(*vol, s),
            old(ctx).wf(),
        ensures
            (r@, final(ctx)@) == sampled(*f, *self, lattice(*vol), old(ctx)@),
            r@.len() == vol.count(),
            final(ctx).wf(),
        decreases *self, 0nat, 0nat,
    {
        match self {
            Node::BlendDensity(i) => i.sample_volume_ctx(vol, ctx, f, Ghost(s)),
            _ => Vec::new(),
        }
    }

    /// Cell interpolation over a volume.
    fn sample_interpolated<F: Fn(Ask) -> u64>(
        &self, vol: &Volume, ctx: &mut SampleCtx, f: &F, Ghost(s): Ghost<(int, int, int)>,
    ) -> (r: Vec<u32>)
        requires
            answers(*f),
            sound(*self),
            *self is Interpolated,
            vol.wf(),
            affordable(*self, s, steps(*vol)),
            bounded_by(*vol, s),
            old(ctx).wf(),
        ensures
            (r@, final(ctx)@) == sampled(*f, *self, lattice(*vol), old(ctx)@),
            r@.len() == vol.count(),
            final(ctx).wf(),
        decreases *self, 0nat, 0nat,
    {
        proof { lemma_fits(*vol, s); }
        let ghost v = lattice(*vol);
        let n: usize = vol.len();
        match self {
            Node::Interpolated { cell_size_xz, cell_size_y, corners } => {
                let (wide, tall): (i32, i32) = (*cell_size_xz, *cell_size_y);
                let (_, mx) = floor_parts(vol.min[0] as i64, wide as i64);
                let (_, my) = floor_parts(vol.min[1] as i64, tall as i64);
                let (_, mz) = floor_parts(vol.min[2] as i64, wide as i64);
                let aligned: bool = (vol.step[0] == wide || vol.size[0] == 1) && mx == 0 && (vol.step[1] == tall || vol.size[1] == 1)
                    && my == 0 && (vol.step[2] == wide || vol.size[2] == 1) && mz == 0;
                if aligned {
                    return corners.sample_volume_ctx(vol, ctx, f, Ghost(s));
                }
                let ghost b = (s.0 * steps(*vol).0, s.1 * steps(*vol).1, s.2 * steps(*vol).2);
                if vol.step[0] == 1 && vol.step[1] == 1 && vol.step[2] == 1 {
                    proof {
                        assert(steps(*vol) == (1int, 1int, 1int));
                        let t = steps(*vol);
                        assert(s.0 * t.0 == s.0 && s.1 * t.1 == s.1 && s.2 * t.2 == s.2) by (nonlinear_arith)
                            requires
                                t == (1int, 1int, 1int),
                        ;
                        assert(b == s);
                    }
                    return corners.sample_with_block_step(vol, wide, tall, ctx, f, Ghost(b));
                }
                proof {
                    lemma_extent(vol.size@[0] as int, s.0, vol.step@[0] as int);
                    lemma_extent(vol.size@[1] as int, s.1, vol.step@[1] as int);
                    lemma_extent(vol.size@[2] as int, s.2, vol.step@[2] as int);
                    assert(roomy(b));
                    lemma_components(b);
                }
                let block = Volume {
                    size: [
                        vol.size[0] * vol.step[0] as usize,
                        vol.size[1] * vol.step[1] as usize,
                        vol.size[2] * vol.step[2] as usize,
                    ],
                    min: [vol.min[0], vol.min[1], vol.min[2]],
                    step: [1, 1, 1],
                };
                let ghost w = every_block(v);
                proof {
                    assert(lattice(block) == w);
                    lemma_fits(block, b);
                }
                let buf: Vec<u32> = corners.sample_with_block_step(&block, wide, tall, ctx, f, Ghost(b));
                let mut r: Vec<u32> = Vec::new();
                while r.len() < n
                    invariant
                        vol.fits(),
                        block.fits(),
                        v == lattice(*vol),
                        w == every_block(v),
                        lattice(block) == w,
                        n == v.count(),
                        buf@.len() == block.count(),
                        r@.len() <= n,
                        forall|i: int|
                            0 <= i < r@.len() ==> #[trigger] r@[i] == buf@[w.place(
                                v.ix(i) * v.tx, v.iy(i) * v.ty, v.iz(i) * v.tz)],
                    decreases n - r.len(),
                {
                    let (x, y, z) = element_of(vol, r.len());
                    proof {
                        lemma_scaled(x as int, v.sx, v.tx);
                        lemma_scaled(y as int, v.sy, v.ty);
                        lemma_scaled(z as int, v.sz, v.tz);
                    }
                    let at: usize = place_of(
                        &block, x * vol.step[0] as usize, y * vol.step[1] as usize, z * vol.step[2] as usize);
                    r.push(buf[at]);
                }
                proof { assert(r@ =~= sampled(*f, *self, v, old(ctx)@).0); }
                r
            },
            _ => Vec::new(),
        }
    }

    /// A slice over a volume: one layer, copied along the axis.
    fn sample_slice<F: Fn(Ask) -> u64>(
        &self, vol: &Volume, ctx: &mut SampleCtx, f: &F, Ghost(s): Ghost<(int, int, int)>,
    ) -> (r: Vec<u32>)
        requires
            answers(*f),
            sound(*self),
            *self is Slice,
            vol.wf(),
            affordable(*self, s, steps(*vol)),
            bounded_by(*vol, s),
            old(ctx).wf(),
        ensures
            (r@, final(ctx)@) == sampled(*f, *self, lattice(*vol), old(ctx)@),
            r@.len() == vol.count(),
            final(ctx).wf(),
        decreases *self, 0nat, 0nat,
    {
        proof { lemma_fits(*vol, s); }
        let ghost v = lattice(*vol);
        let n: usize = vol.len();
        match self {
            Node::Slice { along, coordinate, whole } => {
                let (sx, sy, sz): (usize, usize, usize) = (vol.size[0], vol.size[1], vol.size[2]);
                let (mx, my, mz): (i32, i32, i32) = (vol.min[0], vol.min[1], vol.min[2]);
                let step: [i32; 3] = [vol.step[0], vol.step[1], vol.step[2]];
                let layer: Volume = match along {
                    Axis::X => Volume { size: [1, sy, sz], min: [*coordinate, my, mz], step },
                    Axis::Y => Volume { size: [sx, 1, sz], min: [mx, *coordinate, mz], step },
                    Axis::Z => Volume { size: [sx, sy, 1], min: [mx, my, *coordinate], step },
                };
                let ghost w = thin(v, *along, *coordinate);
                let ghost t = match along {
                    Axis::X => (1, s.1, s.2),
                    Axis::Y => (s.0, 1, s.2),
                    Axis::Z => (s.0, s.1, 1),
                };
                proof {
                    assert(lattice(layer) == w);
                    assert(steps(layer) == steps(*vol));
                    assert(affordable(**whole, t, steps(layer)));
                    assert(roomy(t));
                }
                let b: Vec<u32> = whole.sample_volume_ctx(&layer, ctx, f, Ghost(t));
                proof { lemma_fits(layer, t); }
                let mut r: Vec<u32> = Vec::new();
                while r.len() < n
                    invariant
                        vol.fits(),
                        layer.fits(),
                        v == lattice(*vol),
                        w == thin(v, *along, *coordinate),
                        lattice(layer) == w,
                        n == v.count(),
                        b@.len() == layer.count(),
                        r@.len() <= n,
                        forall|i: int| 0 <= i < r@.len() ==> #[trigger] r@[i] == b@[thin_place(v, *along, i)],
                    decreases n - r.len(),
                {
                    let (x, y, z) = element_of(vol, r.len());
                    let at: usize = match along {
                        Axis::X => place_of(&layer, 0, y, z),
                        Axis::Y => place_of(&layer, x, 0, z),
                        Axis::Z => place_of(&layer, x, y, 0),
                    };
                    r.push(b[at]);
                }
                proof { assert(r@ =~= sampled(*f, *self, v, old(ctx)@).0); }
                r
            },
            _ => Vec::new(),
        }
    }

    /// Searches for surfaces over a volume of single rows.
    fn sample_surface<F: Fn(Ask) -> u64>(
        &self, vol: &Volume, ctx: &mut SampleCtx, f: &F, Ghost(s): Ghost<(int, int, int)>,
    ) -> (r: Vec<u32>)
        requires
            answers(*f),
            sound(*self),
            *self is FindTopSurface,
            vol.wf(),
            affordable(*self, s, steps(*vol)),
            bounded_by(*vol, s),
            old(ctx).wf(),
        ensures
            (r@, final(ctx)@) == sampled(*f, *self, lattice(*vol), old(ctx)@),
            r@.len() == vol.count(),
            final(ctx).wf(),
        decreases *self, 0nat, 0nat,
    {
        proof { lemma_fits(*vol, s); }
        let ghost v = lattice(*vol);
        let n: usize = vol.len();
        match self {
            Node::FindTopSurface { density, upper_bound, lower_bound, cell_height } => {
                let u: Vec<u32> = upper_bound.sample_volume_ctx(vol, ctx, f, Ghost(s));
                let mut pc = PointCache::new();
                pc.adopt_volumes(ctx);
                let ghost p0 = pc@;
                let mut r: Vec<u32> = Vec::new();
                proof { assert(r@ =~= Seq::empty()); }
                while r.len() < n
                    invariant
                        *self matches Node::FindTopSurface { density: d, .. } && d == *density,
                        answers(*f),
                        sound(**density),
                        *cell_height > 0,
                        vol.fits(),
                        v == lattice(*vol),
                        n == v.count(),
                        u@.len() == n,
                        pc.wf(),
                        r@.len() <= n,
                        (r@, pc@) == surfaces(*f, **density, v, u@, *lower_bound, *cell_height, p0, r@.len()),
                    decreases n - r.len(),
                {
                    let i: usize = r.len();
                    let ghost before = r@;
                    let (x, _, z) = block_of(vol, i);
                    let top: u32 = density.find_surface_from(x, z, u[i], *lower_bound, *cell_height, &mut pc, f);
                    r.push(top);
                    proof { assert(r@ =~= before.push(top)); }
                }
                proof { assert(r@ =~= sampled(*f, *self, v, old(ctx)@).0); }
                r
            },
            _ => Vec::new(),
        }
    }

    /// A spline over a volume.
    fn sample_spline<F: Fn(Ask) -> u64>(
        &self, vol: &Volume, ctx: &mut SampleCtx, f: &F, Ghost(s): Ghost<(int, int, int)>,
    ) -> (r: Vec<u32>)
        requires
            answers(*f),
            sound(*self),
            *self is Spline,
            vol.wf(),
            affordable(*self, s, steps(*vol)),
            bounded_by(*vol, s),
            old(ctx).wf(),
        ensures
            (r@, final(ctx)@) == sampled(*f, *self, lattice(*vol), old(ctx)@),
            r@.len() == vol.count(),
            final(ctx).wf(),
        decreases *self, 0nat, 0nat,
    {
        proof { lemma_fits(*vol, s); }
        match self {
            Node::Spline(sp) => {
                let mut known: HashMap<usize, Vec<u32>> = HashMap::new();
                proof { assert(coordinates(known@) =~= Map::empty()); }
                sp.sample_volume_ctx(vol, ctx, &mut known, f, Ghost(s))
            },
            _ => Vec::new(),
        }
    }
}

proof fn lemma_extent(a: int, s: int, t: int)
    requires
        0 < a <= s,
        0 < t,
    ensures
        0 < a * t <= s * t,
{
    assert(0 < a * t <= s * t) by (nonlinear_arith)
        requires
            0 < a <= s,
            0 < t,
    ;
}

proof fn lemma_scaled(x: int, s: int, t: int)
    requires
        0 <= x < s,
        0 < t,
    ensures
        0 <= x * t < s * t,
{
    assert(0 <= x * t < s * t) by (nonlinear_arith)
        requires
            0 <= x < s,
            0 < t,
    ;
}

/// Coordinates sampled so far, as values.
pub open spec fn coordinates(known: Map<usize, Vec<u32>>) -> Map<usize, Seq<u32>> {
    known.map_values(|v: Vec<u32>| v@)
}

/// Every coordinate has a value per element.
pub open spec fn whole_coordinates(known: Map<usize, Vec<u32>>, n: int) -> bool {
    forall|k: usize| #[trigger] known.contains_key(k) ==> known[k]@.len() == n
}

impl Spline {
    /// The spline over a volume: coordinates sampled to buffers, the same
    /// scalar spline per element.
    fn sample_volume_ctx<F: Fn(Ask) -> u64>(
        &self, vol: &Volume, ctx: &mut SampleCtx, known: &mut HashMap<usize, Vec<u32>>, f: &F, Ghost(s): Ghost<(int, int, int)>,
    ) -> (r: Vec<u32>)
        requires
            answers(*f),
            sound_spline(*self),
            vol.wf(),
            roomy(s),
            affordable_spline(*self, s, steps(*vol)),
            bounded_by(*vol, s),
            old(ctx).wf(),
            whole_coordinates(old(known)@, vol.count()),
        ensures
            (r@, final(ctx)@, coordinates(final(known)@)) == spline_sampled(
                *f, *self, lattice(*vol), old(ctx)@, coordinates(old(known)@)),
            r@.len() == vol.count(),
            final(ctx).wf(),
            whole_coordinates(final(known)@, vol.count()),
        decreases *self, 1nat, 0nat,
    {
        proof { lemma_fits(*vol, s); }
        let ghost v = lattice(*vol);
        let n: usize = vol.len();
        match self {
            Spline::Constant(c) => filled(n, *c),
            Spline::Multipoint { key, coordinate, locations, values, derivatives } => {
                let input: Vec<u32> = match known.get(key) {
                    Some(b) => copy_values(b),
                    None => {
                        let b: Vec<u32> = coordinate.sample_volume_ctx(vol, ctx, f, Ghost(s));
                        let copy: Vec<u32> = copy_values(&b);
                        let ghost before = known@;
                        known.insert(*key, copy);
                        proof {
                            assert(coordinates(known@) =~= coordinates(before).insert(*key, b@));
                        }
                        b
                    },
                };
                let ghost mid = ctx@;
                let ghost mid_known = coordinates(known@);
                let mut all: Vec<Vec<u32>> = Vec::new();
                let ghost view = |w: Vec<u32>| w@;
                proof { assert(all@.map_values(view) =~= Seq::empty()); }
                while all.len() < values.len()
                    invariant
                        *self matches Spline::Multipoint { values: g, .. } && g == *values,
                        answers(*f),
                        sound_spline(*self),
                        vol.wf(),
                        roomy(s),
                        affordable_spline(*self, s, steps(*vol)),
                        bounded_by(*vol, s),
                        v == lattice(*vol),
                        n == vol.count(),
                        view == (|w: Vec<u32>| w@),
                        ctx.wf(),
                        whole_coordinates(known@, n as int),
                        all@.len() <= values@.len(),
                        forall|k: int| 0 <= k < all@.len() ==> (#[trigger] all@[k])@.len() == n,
                        (all@.map_values(view), ctx@, coordinates(known@)) == splines_sampled(
                            *f, values@, all@.len(), v, mid, mid_known),
                    decreases values.len() - all.len(),
                {
                    let k: usize = all.len();
                    let ghost before = all@;
                    proof {
                        assert(decreases_to!(*self => self->Multipoint_values));
                        assert(decreases_to!(values@ => values@[k as int]));
                        assert(sound_spline(values@[k as int]));
                        assert(affordable_spline(values@[k as int], s, steps(*vol)));
                    }
                    let one: Vec<u32> = values[k].sample_volume_ctx(vol, ctx, known, f, Ghost(s));
                    all.push(one);
                    proof { assert(all@.map_values(view) =~= before.map_values(view).push(one@)); }
                }
                let ghost bufs = all@.map_values(view);
                let mut r: Vec<u32> = Vec::new();
                while r.len() < n
                    invariant
                        answers(*f),
                        input@.len() == n,
                        locations@.len() >= 1,
                        values@.len() == locations@.len(),
                        derivatives@.len() == locations@.len(),
                        all@.len() == values@.len(),
                        view == (|w: Vec<u32>| w@),
                        bufs == all@.map_values(view),
                        forall|k: int| 0 <= k < all@.len() ==> (#[trigger] all@[k])@.len() == n,
                        r@.len() <= n,
                        forall|i: int|
                            0 <= i < r@.len() ==> #[trigger] r@[i] == spline_element(
                                *f, locations@, derivatives@, bufs, input@[i], i),
                    decreases n - r.len(),
                {
                    let i: usize = r.len();
                    let k: usize = interval(f, locations, input[i]);
                    let last: usize = locations.len() - 1;
                    proof {
                        assert(all@[0]@.len() == n);
                        assert(all@[last as int]@.len() == n);
                    }
                    let value: u32 = if k == 0 {
                        linear_extend(f, input[i], locations[0], all[0][i], derivatives[0])
                    } else if k > last {
                        linear_extend(f, input[i], locations[last], all[last][i], derivatives[last])
                    } else {
                        proof {
                            assert(all@[k - 1]@.len() == n);
                            assert(all@[k as int]@.len() == n);
                        }
                        hermite(
                            f, input[i], locations[k - 1], locations[k], all[k - 1][i], all[k][i], derivatives[k - 1],
                            derivatives[k])
                    };
                    r.push(value);
                }
                proof {
                    assert(r@ =~= spline_sampled(*f, *self, v, old(ctx)@, coordinates(old(known)@)).0);
                }
                r
            },
        }
    }
}

} // verus!
