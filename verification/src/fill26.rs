//! Fused fill for the overworld density shape.
//!
//! Above the cell grid, the overworld's final density is scalar work on five
//! interpolated values:
//!
//! ```text
//! add(min(squeeze(I_main), range_choice(I_toggle, [-1e6, 0) -> 64,
//!     else add(I_thick, mul(max(abs(I_a), abs(I_b)), 1.5)))), beardifier)
//! ```
//!
//! The shape is recognised once, the five corner grids are sampled, and
//! every block column is then walked, giving the final value and the aquifer
//! substance in one pass. Cells whose corners make the outcome certain skip
//! the work per block.

use vstd::prelude::*;
use crate::aquifer26::{metered, substance_at, Aquifer, Substance, Waters};
use crate::arith::{answers, holds, low, reply, Ask, MINUS_ONE};
use crate::beard26::{greatest, kernel_table, least, Beardifier, Extent, Reach};
use crate::bounds26::{blank, column_bound, BoundCtx, Column};
use crate::df26::{
    affordable, cell_fill, cells_in, corner_lattice, down_div, floor_parts, in_range, java_min, lattice, next_corner, one,
    roomy, sampled, sound, strict_min, unary, within, wrapped, Binary, Lattice, Node, Unary,
};
use crate::dfcache::{agrees, truthful};
use crate::dfeval::SampleCtx;
use crate::dfsample::{
    block_along, bounded_by, column_rows, corner_axis, lemma_cell_of, lemma_cells, steps,
};
use crate::volume::Volume;

verus! {

/// Bit set on a fluid that has to be updated.
pub const FLUID_UPDATE_BIT: u8 = 0x10;

/// How far corners must lie from zero for a cell to count as uniform:
/// 0.0001, and its negative.
pub const MARGIN: u32 = 0x38D1_B717;

pub const MINUS_MARGIN: u32 = 0xB8D1_B717;

/// -0.001: the main bound must lie below it for a row to count as air.
pub const MINUS_AIR_MARGIN: u32 = 0xBA83_126F;

/// -1000000, 64 and 1.5.
pub const MINUS_MILLION_32: u32 = 0xC974_2400;

pub const SIXTY_FOUR_32: u32 = 0x4280_0000;

pub const THREE_HALVES_32: u32 = 0x3FC0_0000;

/// The five interpolated inputs of the overworld shape.
pub struct OverworldShape<'a> {
    pub cell_xz: i32,
    pub cell_y: i32,
    pub main: &'a Node,
    pub toggle: &'a Node,
    pub thickness: &'a Node,
    pub ridge_a: &'a Node,
    pub ridge_b: &'a Node,
}

/// The five inputs as values.
pub ghost struct Shape {
    pub cell_xz: i32,
    pub cell_y: i32,
    pub main: Node,
    pub toggle: Node,
    pub thickness: Node,
    pub ridge_a: Node,
    pub ridge_b: Node,
}

impl<'a> View for OverworldShape<'a> {
    type V = Shape;

    open spec fn view(&self) -> Shape {
        Shape {
            cell_xz: self.cell_xz,
            cell_y: self.cell_y,
            main: *self.main,
            toggle: *self.toggle,
            thickness: *self.thickness,
            ridge_a: *self.ridge_a,
            ridge_b: *self.ridge_b,
        }
    }
}

/// An interpolated node's cell sizes and input.
pub open spec fn cells_of(n: Node) -> Option<(i32, i32, Node)> {
    match n {
        Node::Interpolated { cell_size_xz, cell_size_y, corners } => Some((cell_size_xz, cell_size_y, *corners)),
        _ => None,
    }
}

/// The sides of a sum, of a minimum and of a maximum.
pub open spec fn sum_of(n: Node) -> Option<(Node, Node)> {
    match n {
        Node::Binary { combine: Binary::Add, left, right } => Some((*left, *right)),
        _ => None,
    }
}

pub open spec fn min_of(n: Node) -> Option<(Node, Node)> {
    match n {
        Node::Binary { combine: Binary::Min, left, right } => Some((*left, *right)),
        _ => None,
    }
}

pub open spec fn max_of(n: Node) -> Option<(Node, Node)> {
    match n {
        Node::Binary { combine: Binary::Max, left, right } => Some((*left, *right)),
        _ => None,
    }
}

/// The input of a squeeze, of an absolute value, and of a product with a
/// constant.
pub open spec fn squeeze_of(n: Node) -> Option<Node> {
    match n {
        Node::Unary { op: Unary::Squeeze, input } => Some(*input),
        _ => None,
    }
}

pub open spec fn abs_of(n: Node) -> Option<Node> {
    match n {
        Node::Unary { op: Unary::Abs, input } => Some(*input),
        _ => None,
    }
}

pub open spec fn scale_of(n: Node) -> Option<(Node, u32)> {
    match n {
        Node::Unary { op: Unary::MulConst(c), input } => Some((*input, c)),
        _ => None,
    }
}

/// The noodle part: 64 where the toggle lies in `[-1000000, 0)`, else the
/// thickness plus 1.5 times the larger ridge.
pub open spec fn noodle_of<F: Fn(Ask) -> u64>(f: F, n: Node) -> Option<(Node, Node, Node, Node)> {
    match n {
        Node::RangeChoice { choice, min_inclusive, max_exclusive, when_in_range, when_out_of_range } => match (
            *when_in_range,
            sum_of(*when_out_of_range),
        ) {
            (Node::Constant(c), Some((thick, scaled))) => match scale_of(scaled) {
                Some((ridges, factor)) => match max_of(ridges) {
                    Some((a, b)) => match (abs_of(a), abs_of(b)) {
                        (Some(a), Some(b)) => if holds(f, Ask::Equal32(min_inclusive, MINUS_MILLION_32)) && holds(
                            f, Ask::Equal32(max_exclusive, 0)) && holds(f, Ask::Equal32(c, SIXTY_FOUR_32)) && holds(
                            f, Ask::Equal32(factor, THREE_HALVES_32)) {
                            Some((*choice, thick, a, b))
                        } else {
                            None
                        },
                        _ => None,
                    },
                    None => None,
                },
                None => None,
            },
            _ => None,
        },
        _ => None,
    }
}

/// The overworld shape that a tree has.
pub open spec fn shape_of<F: Fn(Ask) -> u64>(f: F, n: Node) -> Option<Shape> {
    match sum_of(n) {
        Some((low_part, Node::Beardifier)) => match min_of(low_part) {
            Some((sq, noodle)) => match (squeeze_of(sq), noodle_of(f, noodle)) {
                (Some(m), Some((t, h, a, b))) => match (cells_of(m), cells_of(t), cells_of(h), cells_of(a), cells_of(b)) {
                    (Some(m), Some(t), Some(h), Some(a), Some(b)) => if t.0 == m.0 && h.0 == m.0 && a.0 == m.0 && b.0 == m.0
                        && t.1 == m.1 && h.1 == m.1 && a.1 == m.1 && b.1 == m.1 {
                        Some(
                            Shape {
                                cell_xz: m.0,
                                cell_y: m.1,
                                main: m.2,
                                toggle: t.2,
                                thickness: h.2,
                                ridge_a: a.2,
                                ridge_b: b.2,
                            },
                        )
                    } else {
                        None
                    },
                    _ => None,
                },
                _ => None,
            },
            None => None,
        },
        _ => None,
    }
}

fn interp<'a>(n: &'a Node) -> (r: Option<(i32, i32, &'a Node)>)
    ensures
        r is Some <==> cells_of(*n) is Some,
        r matches Some(c) ==> cells_of(*n) == Some((c.0, c.1, *c.2)),
{
    match n {
        Node::Interpolated { cell_size_xz, cell_size_y, corners } => Some((*cell_size_xz, *cell_size_y, &**corners)),
        _ => None,
    }
}

fn noodle<'a, F: Fn(Ask) -> u64>(n: &'a Node, f: &F) -> (r: Option<(&'a Node, &'a Node, &'a Node, &'a Node)>)
    requires
        answers(*f),
    ensures
        r is Some <==> noodle_of(*f, *n) is Some,
        r matches Some(c) ==> noodle_of(*f, *n) == Some((*c.0, *c.1, *c.2, *c.3)),
{
    match n {
        Node::RangeChoice { choice, min_inclusive, max_exclusive, when_in_range, when_out_of_range } => {
            let c: u32 = match &**when_in_range {
                Node::Constant(c) => *c,
                _ => return None,
            };
            let (thick, scaled) = match &**when_out_of_range {
                Node::Binary { combine: Binary::Add, left, right } => (left, right),
                _ => return None,
            };
            let (ridges, factor) = match &**scaled {
                Node::Unary { op: Unary::MulConst(c), input } => (input, *c),
                _ => return None,
            };
            let (a, b) = match &**ridges {
                Node::Binary { combine: Binary::Max, left, right } => (left, right),
                _ => return None,
            };
            let a = match &**a {
                Node::Unary { op: Unary::Abs, input } => input,
                _ => return None,
            };
            let b = match &**b {
                Node::Unary { op: Unary::Abs, input } => input,
                _ => return None,
            };
            if f(Ask::Equal32(*min_inclusive, MINUS_MILLION_32)) == 0 || f(Ask::Equal32(*max_exclusive, 0)) == 0 || f(
                Ask::Equal32(c, SIXTY_FOUR_32)) == 0 || f(Ask::Equal32(factor, THREE_HALVES_32)) == 0 {
                return None;
            }
            Some((&**choice, &**thick, &**a, &**b))
        },
        _ => None,
    }
}

impl<'a> OverworldShape<'a> {
    /// Recognise the overworld's final density; nothing means that the
    /// generic path must be used.
    pub fn recognise<F: Fn(Ask) -> u64>(final_density: &'a Node, f: &F) -> (r: Option<OverworldShape<'a>>)
        requires
            answers(*f),
        ensures
            r is Some <==> shape_of(*f, *final_density) is Some,
            r matches Some(s) ==> shape_of(*f, *final_density) == Some(s@),
    {
        let (low_part, beard) = match final_density {
            Node::Binary { combine: Binary::Add, left, right } => (left, right),
            _ => return None,
        };
        match &**beard {
            Node::Beardifier => {},
            _ => return None,
        }
        let (sq, branch) = match &**low_part {
            Node::Binary { combine: Binary::Min, left, right } => (left, right),
            _ => return None,
        };
        let main_i = match &**sq {
            Node::Unary { op: Unary::Squeeze, input } => input,
            _ => return None,
        };
        let (t, h, a, b) = match noodle(branch, f) {
            Some(c) => c,
            None => return None,
        };
        let (m, t, h, a, b) = match (interp(main_i), interp(t), interp(h), interp(a), interp(b)) {
            (Some(m), Some(t), Some(h), Some(a), Some(b)) => (m, t, h, a, b),
            _ => return None,
        };
        if t.0 != m.0 || h.0 != m.0 || a.0 != m.0 || b.0 != m.0 || t.1 != m.1 || h.1 != m.1 || a.1 != m.1 || b.1 != m.1 {
            return None;
        }
        Some(
            OverworldShape {
                cell_xz: m.0,
                cell_y: m.1,
                main: m.2,
                toggle: t.2,
                thickness: h.2,
                ridge_a: a.2,
                ridge_b: b.2,
            },
        )
    }
}

/// The scalar work above the grid for one block; `beard` is the structure
/// term.
pub open spec fn combined<F: Fn(Ask) -> u64>(f: F, main: u32, toggle: u32, thick: u32, a: u32, b: u32, beard: u32) -> u32 {
    let ridge = low(f, Ask::Max32(low(f, Ask::Abs32(a)), low(f, Ask::Abs32(b))));
    let noodle = if within(f, toggle, MINUS_MILLION_32, 0) {
        SIXTY_FOUR_32
    } else {
        low(f, Ask::Add32(thick, low(f, Ask::Mul32(ridge, THREE_HALVES_32))))
    };
    low(f, Ask::Add32(strict_min(f, one(f, Unary::Squeeze, main), noodle), beard))
}

fn combine<F: Fn(Ask) -> u64>(f: &F, main: u32, toggle: u32, thick: u32, a: u32, b: u32, beard: u32) -> (r: u32)
    requires
        answers(*f),
    ensures
        r == combined(*f, main, toggle, thick, a, b, beard),
{
    let noodle: u32 = if in_range(f, toggle, MINUS_MILLION_32, 0) {
        SIXTY_FOUR_32
    } else {
        let p: u32 = f(Ask::Abs32(a)) as u32;
        let q: u32 = f(Ask::Abs32(b)) as u32;
        let ridge: u32 = f(Ask::Max32(p, q)) as u32;
        let scaled: u32 = f(Ask::Mul32(ridge, THREE_HALVES_32)) as u32;
        f(Ask::Add32(thick, scaled)) as u32
    };
    let s: u32 = unary(f, Unary::Squeeze, main);
    let m: u32 = java_min(f, s, noodle);
    f(Ask::Add32(m, beard)) as u32
}

/// A fill: what is filled, with what, and what was sampled for it.
pub ghost struct Plan {
    pub shape: Shape,
    pub waters: Waters,
    /// The blocks, the corners of their cells, and the corners sampled.
    pub blocks: Lattice,
    pub corners: Lattice,
    pub grid: Lattice,
    /// Cells from this one up are air.
    pub air_from: int,
    /// The five inputs over the sampled corners.
    pub grids: Seq<Seq<u32>>,
    /// The structure term and where it is not zero.
    pub beard: Option<(Seq<u32>, Extent)>,
    /// Cells that are solid throughout are filled without a look at the
    /// blocks.
    pub skip_solid: bool,
}

/// The structure term over a volume.
pub open spec fn beard_of<F: Fn(Ask) -> u64>(f: F, b: Option<Beardifier>, vol: Volume) -> Option<(Seq<u32>, Extent)> {
    match b {
        Some(b) => match b.reached(vol, b.pieces()) {
            Some(e) => Some((Seq::new(vol.count() as nat, |i: int| b.element(f, vol, i, b.pieces())), e)),
            None => None,
        },
        None => None,
    }
}

/// The highest row among the first `n` elements that is not zero; -1
/// without one.
pub open spec fn top_row<F: Fn(Ask) -> u64>(f: F, buf: Seq<u32>, rows: int, n: nat) -> int
    decreases n,
{
    if n == 0 {
        -1
    } else {
        let rest = top_row(f, buf, rows, (n - 1) as nat);
        let row = (n - 1) % rows;
        if !holds(f, Ask::Equal32(buf[n - 1], 0)) && row > rest { row } else { rest }
    }
}

/// The first cell whose blocks all lie above a height.
pub open spec fn cell_above(skip: int, first: int, cell: int) -> int {
    if skip < first { 0 } else { (skip - first) / cell + 1 }
}

/// The first cell, from `r` up, from which on a corner column is negative.
pub open spec fn climb<F: Fn(Ask) -> u64>(f: F, main: Node, w: Lattice, x: i32, z: i32, r: int, count: int) -> int
    decreases count - r,
{
    let c = Column {
        x,
        z,
        y_ref: wrapped(w.y),
        y_lo: wrapped(w.y + r * w.ty),
        y_hi: wrapped(w.y + (w.sy - 1) * w.ty),
    };
    if r >= count || holds(f, Ask::Less32(column_bound(f, main, c).1, MINUS_AIR_MARGIN)) {
        r
    } else {
        climb(f, main, w, x, z, r + 1, count)
    }
}

/// The first cell from which on the first `n` corner columns are negative.
pub open spec fn climbed_all<F: Fn(Ask) -> u64>(f: F, main: Node, w: Lattice, r: int, count: int, n: nat) -> int
    decreases n,
{
    if n == 0 {
        r
    } else {
        let k = n - 1;
        let before = climbed_all(f, main, w, r, count, (n - 1) as nat);
        climb(f, main, w, wrapped(w.x + (k / w.sz) * w.tx), wrapped(w.z + (k % w.sz) * w.tz), before, count)
    }
}

/// The first cell from which on every block is air: above the aquifers,
/// above every structure, and negative by the bounds of every corner column.
pub open spec fn air_cell<F: Fn(Ask) -> u64>(
    f: F, s: Shape, skip_above: int, v: Lattice, w: Lattice, beard: Option<(Seq<u32>, Extent)>,
) -> int {
    let count = cells_in(v.y, v.sy, s.cell_y as int);
    let above = cell_above(skip_above, w.y, s.cell_y as int);
    let over = match beard {
        Some((buf, _)) => {
            let t = top_row(f, buf, v.sy, buf.len());
            if t < 0 { 0 } else { down_div(v.y + t - w.y, s.cell_y as int) + 1 }
        },
        None => 0,
    };
    climbed_all(f, s.main, w, least(greatest(above, over), count), count, (w.sx * w.sz) as nat)
}

/// The five inputs over a corner lattice, sharing what they keep.
pub open spec fn five_grids<F: Fn(Ask) -> u64>(f: F, s: Shape, g: Lattice) -> Seq<Seq<u32>> {
    let (a, c) = sampled(f, s.main, g, Seq::empty());
    let (b, d) = sampled(f, s.toggle, g, c);
    let (h, e) = sampled(f, s.thickness, g, d);
    let (p, k) = sampled(f, s.ridge_a, g, e);
    let (q, _) = sampled(f, s.ridge_b, g, k);
    seq![a, b, h, p, q]
}

/// The fill of a volume.
pub open spec fn plan_of<F: Fn(Ask) -> u64>(
    f: F, s: Shape, waters: Waters, vol: Volume, b: Option<Beardifier>, verify: bool, skip_air: bool,
) -> Plan {
    let v = lattice(vol);
    let w = corner_lattice(v, s.cell_xz as int, s.cell_y as int);
    let beard = beard_of(f, b, vol);
    let air_from = if !verify && skip_air {
        air_cell(f, s, waters.skip_above, v, w, beard)
    } else {
        cells_in(v.y, v.sy, s.cell_y as int)
    };
    let g = Lattice { sy: least(w.sy, air_from + 1), ..w };
    Plan {
        shape: s,
        waters,
        blocks: v,
        corners: w,
        grid: g,
        air_from,
        grids: five_grids(f, s, g),
        beard,
        skip_solid: !verify,
    }
}

/// A corner of a cell: bit 0 goes along x, bit 1 along y, bit 2 along z.
pub open spec fn corner(cb: Seq<u32>, g: Lattice, cx: int, cy: int, cz: int, k: int) -> u32 {
    let x = if k % 2 == 1 { next_corner(cx, g.sx) } else { cx };
    let y = if (k / 2) % 2 == 1 { next_corner(cy, g.sy) } else { cy };
    let z = if k / 4 == 1 { next_corner(cz, g.sz) } else { cz };
    cb[g.place(x, y, z)]
}

/// The positions of a cell's blocks along an axis.
pub open spec fn cell_first(min: int, cell: int, c: int) -> int {
    greatest((down_div(min, cell) + c) * cell - min, 0)
}

pub open spec fn cell_last(min: int, size: int, cell: int, c: int) -> int {
    least((down_div(min, cell) + c) * cell - min + cell, size) - 1
}

impl Plan {
    /// A structure reaches a cell.
    pub open spec fn structured(self, cx: int, cy: int, cz: int) -> bool {
        let (v, xz, h) = (self.blocks, self.shape.cell_xz as int, self.shape.cell_y as int);
        match self.beard {
            Some((_, e)) => {
                &&& cell_first(v.x, xz, cx) <= e.x1 && cell_last(v.x, v.sx, xz, cx) >= e.x0
                &&& cell_first(v.y, h, cy) <= e.y1 && cell_last(v.y, v.sy, h, cy) >= e.y0
                &&& cell_first(v.z, xz, cz) <= e.z1 && cell_last(v.z, v.sz, xz, cz) >= e.z0
            },
            None => false,
        }
    }

    /// The value of one of the five inputs at a corner of a cell.
    pub open spec fn at(self, g: int, cx: int, cy: int, cz: int, k: int) -> u32 {
        corner(self.grids[g], self.grid, cx, cy, cz, k)
    }

    /// An input lies above zero at every corner of a cell.
    pub open spec fn above<F: Fn(Ask) -> u64>(self, f: F, g: int, cx: int, cy: int, cz: int) -> bool {
        forall|k: int| 0 <= k < 8 ==> holds(f, Ask::Less32(MARGIN, #[trigger] self.at(g, cx, cy, cz, k)))
    }

    /// The toggle is negative at every corner of a cell, or nowhere.
    pub open spec fn negative<F: Fn(Ask) -> u64>(self, f: F, cx: int, cy: int, cz: int) -> bool {
        forall|k: int|
            0 <= k < 8 ==> holds(f, Ask::Less32(#[trigger] self.at(1, cx, cy, cz, k), MINUS_MARGIN)) && holds(
                f, Ask::LessEq32(MINUS_MILLION_32, self.at(1, cx, cy, cz, k)))
    }

    pub open spec fn positive<F: Fn(Ask) -> u64>(self, f: F, cx: int, cy: int, cz: int) -> bool {
        forall|k: int| 0 <= k < 8 ==> holds(f, Ask::LessEq32(0, #[trigger] self.at(1, cx, cy, cz, k)))
    }

    /// A cell is solid throughout: main above zero at its corners, the
    /// noodle part too, and no structure near.
    pub open spec fn solid<F: Fn(Ask) -> u64>(self, f: F, cx: int, cy: int, cz: int) -> bool {
        &&& self.above(f, 0, cx, cy, cz)
        &&& self.negative(f, cx, cy, cz) || (self.positive(f, cx, cy, cz) && self.above(f, 2, cx, cy, cz))
        &&& !self.structured(cx, cy, cz)
    }

    /// The cell of a block.
    pub open spec fn cell(self, i: int) -> (int, int, int) {
        let (v, xz, h) = (self.blocks, self.shape.cell_xz as int, self.shape.cell_y as int);
        (
            down_div(v.x + v.ix(i), xz) - down_div(v.x, xz),
            down_div(v.y + v.iy(i), h) - down_div(v.y, h),
            down_div(v.z + v.iz(i), xz) - down_div(v.z, xz),
        )
    }

    /// The value of one of the five inputs at a block.
    pub open spec fn input<F: Fn(Ask) -> u64>(self, f: F, g: int, i: int) -> u32 {
        cell_fill(f, self.grids[g], self.grid, self.blocks, self.shape.cell_xz, self.shape.cell_y, i)
    }

    /// The final density of a block.
    pub open spec fn mixed<F: Fn(Ask) -> u64>(self, f: F, i: int) -> u32 {
        combined(
            f,
            self.input(f, 0, i),
            self.input(f, 1, i),
            self.input(f, 2, i),
            self.input(f, 3, i),
            self.input(f, 4, i),
            match self.beard {
                Some((buf, _)) => buf[i],
                None => 0,
            },
        )
    }

    /// What a block of some density becomes.
    pub open spec fn wet<F: Fn(Ask) -> u64>(self, f: F, i: int, density: u64) -> (Option<Substance>, bool) {
        substance_at(f, self.waters, self.blocks.at_x(i), self.blocks.at_y(i), self.blocks.at_z(i), density)
    }

    /// The density and the substance that a block gets. A block of an air
    /// cell has no density; one of a solid cell that is skipped has the
    /// main value alone.
    pub open spec fn filled<F: Fn(Ask) -> u64>(self, f: F, i: int) -> (u32, u8) {
        let (cx, cy, cz) = self.cell(i);
        let d = self.mixed(f, i);
        if cy >= self.air_from {
            (0, Substance::id(self.wet(f, i, MINUS_ONE).0))
        } else if self.skip_solid && self.solid(f, cx, cy, cz) {
            (self.input(f, 0, i), 0)
        } else if holds(f, Ask::Less32(0, d)) {
            (d, 0)
        } else {
            let (s, update) = self.wet(f, i, reply(f, Ask::Widen(d)));
            let fluid = s == Some(Substance::Water) || s == Some(Substance::Lava);
            (d, if update && fluid { (Substance::id(s) + FLUID_UPDATE_BIT) as u8 } else { Substance::id(s) })
        }
    }

    /// A block that would be skipped as solid is not.
    pub open spec fn wrong<F: Fn(Ask) -> u64>(self, f: F, i: int) -> bool {
        let (cx, cy, cz) = self.cell(i);
        cy < self.air_from && self.solid(f, cx, cy, cz) && !holds(f, Ask::Less32(0, self.mixed(f, i)))
    }
}

impl Plan {
    /// A fill without shortcuts names a block that a shortcut would have
    /// got wrong, if there is one among the first `n`.
    pub open spec fn checked<F: Fn(Ask) -> u64>(self, f: F, wrong: Option<usize>, n: int) -> bool {
        if self.skip_solid {
            wrong is None
        } else {
            match wrong {
                Some(j) => j < n && self.wrong(f, j as int),
                None => forall|j: int| 0 <= j < n ==> !(#[trigger] self.wrong(f, j)),
            }
        }
    }
}

impl Plan {
    /// The aquifers' meters after the first `n` blocks of a fill.
    pub open spec fn metered<F: Fn(Ask) -> u64>(self, f: F, n: nat, m: (usize, usize, usize)) -> (usize, usize, usize)
        decreases n,
    {
        if n == 0 {
            m
        } else {
            let i = n - 1;
            let before = self.metered(f, (n - 1) as nat, m);
            let (cx, cy, cz) = self.cell(i);
            let (x, y, z) = (self.blocks.at_x(i), self.blocks.at_y(i), self.blocks.at_z(i));
            if cy >= self.air_from {
                metered(f, self.waters, x, y, z, MINUS_ONE, before)
            } else if (self.skip_solid && self.solid(f, cx, cy, cz)) || holds(f, Ask::Less32(0, self.mixed(f, i))) {
                before
            } else {
                metered(f, self.waters, x, y, z, reply(f, Ask::Widen(self.mixed(f, i))), before)
            }
        }
    }
}

/// How many blocks of a fill were interpolated, asked for their substance,
/// and asked at or below the height up to which aquifers matter.
pub ghost struct Tally {
    pub lerped: nat,
    pub calls: nat,
    pub deep: nat,
}

impl Plan {
    /// The tally of the first `n` blocks.
    #[verifier::opaque]
    pub open spec fn tally<F: Fn(Ask) -> u64>(self, f: F, n: nat) -> Tally
        decreases n,
    {
        if n == 0 {
            Tally { lerped: 0, calls: 0, deep: 0 }
        } else {
            let i = n - 1;
            let t = self.tally(f, (n - 1) as nat);
            let (cx, cy, cz) = self.cell(i);
            if cy >= self.air_from {
                Tally { calls: t.calls + 1, ..t }
            } else if self.skip_solid && self.solid(f, cx, cy, cz) {
                t
            } else if holds(f, Ask::Less32(0, self.mixed(f, i))) {
                Tally { lerped: t.lerped + 1, ..t }
            } else {
                Tally {
                    lerped: t.lerped + 1,
                    calls: t.calls + 1,
                    deep: t.deep + if self.blocks.at_y(i) <= self.waters.skip_above { 1nat } else { 0nat },
                }
            }
        }
    }

    /// How many of the lowest `n` cells of a cell column are skipped as
    /// solid.
    pub open spec fn skipped_in<F: Fn(Ask) -> u64>(self, f: F, cx: int, cz: int, n: nat) -> nat
        decreases n,
    {
        if n == 0 {
            0
        } else {
            self.skipped_in(f, cx, cz, (n - 1) as nat) + if self.skip_solid && self.solid(f, cx, n - 1, cz) { 1nat } else { 0nat }
        }
    }

    /// How many cells there are along each axis.
    pub open spec fn cells(self) -> (int, int, int) {
        let (v, xz, h) = (self.blocks, self.shape.cell_xz as int, self.shape.cell_y as int);
        (cells_in(v.x, v.sx, xz), cells_in(v.y, v.sy, h), cells_in(v.z, v.sz, xz))
    }

    /// How many cells of the first `n` cell columns are skipped as solid, z
    /// faster than x.
    pub open spec fn skipped<F: Fn(Ask) -> u64>(self, f: F, n: nat) -> nat
        decreases n,
    {
        if n == 0 {
            0
        } else {
            let k = n - 1;
            let nz = self.cells().2;
            self.skipped(f, (n - 1) as nat) + self.skipped_in(f, k / nz, k % nz, self.air_from as nat)
        }
    }

    /// What is counted over a fill of `n` blocks.
    pub open spec fn tallied<F: Fn(Ask) -> u64>(self, f: F, s: FillStats, n: nat) -> bool {
        let (nx, ny, nz) = self.cells();
        let t = self.tally(f, n);
        &&& s.cells == (nx * nz) * ny
        &&& s.air_cells_skipped == (nx * nz) * (ny - self.air_from)
        &&& s.solid_cells_skipped == self.skipped(f, (nx * nz) as nat)
        &&& s.blocks_lerped == t.lerped
        &&& s.aquifer_calls == t.calls
        &&& s.aquifer_deep_calls == t.deep
    }

    /// A block was interpolated.
    spec fn lerps<F: Fn(Ask) -> u64>(self, f: F, i: int) -> bool {
        let (cx, cy, cz) = self.cell(i);
        cy < self.air_from && !(self.skip_solid && self.solid(f, cx, cy, cz))
    }

    /// One block more.
    proof fn lemma_tally_step<F: Fn(Ask) -> u64>(self, f: F, i: int)
        requires
            0 <= i,
        ensures
            ({
                let (t, u) = (self.tally(f, i as nat), self.tally(f, (i + 1) as nat));
                let air = self.cell(i).1 >= self.air_from;
                let wet = self.lerps(f, i) && !holds(f, Ask::Less32(0, self.filled(f, i).0));
                &&& u.lerped == t.lerped + if self.lerps(f, i) { 1nat } else { 0nat }
                &&& u.calls == t.calls + if air || wet { 1nat } else { 0nat }
                &&& u.deep == t.deep + if wet && self.blocks.at_y(i) <= self.waters.skip_above { 1nat } else { 0nat }
            }),
    {
        reveal(Plan::tally);
    }

    proof fn lemma_tally<F: Fn(Ask) -> u64>(self, f: F, n: nat)
        ensures
            self.tally(f, n).lerped <= n,
            self.tally(f, n).calls <= n,
            self.tally(f, n).deep <= n,
        decreases n,
    {
        reveal(Plan::tally);
        if n > 0 {
            self.lemma_tally(f, (n - 1) as nat);
        }
    }

    proof fn lemma_skipped_in<F: Fn(Ask) -> u64>(self, f: F, cx: int, cz: int, n: nat)
        ensures
            self.skipped_in(f, cx, cz, n) <= n,
        decreases n,
    {
        if n > 0 {
            self.lemma_skipped_in(f, cx, cz, (n - 1) as nat);
        }
    }

    proof fn lemma_skipped<F: Fn(Ask) -> u64>(self, f: F, n: nat)
        requires
            self.air_from >= 0,
        ensures
            self.skipped(f, n) <= n * self.air_from,
        decreases n,
    {
        if n > 0 {
            let k = n - 1;
            let nz = self.cells().2;
            self.lemma_skipped(f, (n - 1) as nat);
            self.lemma_skipped_in(f, k / nz, k % nz, self.air_from as nat);
            assert(n * self.air_from == (n - 1) * self.air_from + self.air_from) by (nonlinear_arith);
        }
    }
}

/// Counters from one fused fill.
#[derive(Clone, Copy, Debug)]
pub struct FillStats {
    pub cells: usize,
    pub solid_cells_skipped: usize,
    /// Cells above the aquifers whose main corners are negative: no
    /// corners, no interpolation.
    pub air_cells_skipped: usize,
    /// Corner rows the five grids were not sampled for.
    pub corner_rows_skipped: usize,
    pub blocks_lerped: usize,
    pub aquifer_calls: usize,
    /// Aquifer calls at or below the height up to which cells matter.
    pub aquifer_deep_calls: usize,
    /// When verifying, a block that would wrongly have been skipped.
    pub wrong_skip: Option<usize>,
}

/// The corners of a cell.
fn corners_of(cb: &Vec<u32>, g: &Volume, cx: usize, cy: usize, cz: usize) -> (r: Vec<u32>)
    requires
        g.fits(),
        cb@.len() == g.count(),
        g.inside(cx as int, cy as int, cz as int),
    ensures
        r@.len() == 8,
        forall|k: int| 0 <= k < 8 ==> #[trigger] r@[k] == corner(cb@, lattice(*g), cx as int, cy as int, cz as int, k),
{
    let nx: usize = if cx + 1 < g.size[0] { cx + 1 } else { g.size[0] - 1 };
    let ny: usize = if cy + 1 < g.size[1] { cy + 1 } else { g.size[1] - 1 };
    let nz: usize = if cz + 1 < g.size[2] { cz + 1 } else { g.size[2] - 1 };
    let mut r: Vec<u32> = Vec::new();
    let mut k: usize = 0;
    while k < 8
        invariant
            k <= 8,
            r@.len() == k,
            g.fits(),
            cb@.len() == g.count(),
            g.inside(cx as int, cy as int, cz as int),
            g.inside(nx as int, ny as int, nz as int),
            nx == next_corner(cx as int, g.size@[0] as int),
            ny == next_corner(cy as int, g.size@[1] as int),
            nz == next_corner(cz as int, g.size@[2] as int),
            forall|j: int| 0 <= j < k ==> #[trigger] r@[j] == corner(cb@, lattice(*g), cx as int, cy as int, cz as int, j),
        decreases 8 - k,
    {
        let x: usize = if k % 2 == 1 { nx } else { cx };
        let y: usize = if (k / 2) % 2 == 1 { ny } else { cy };
        let z: usize = if k / 4 == 1 { nz } else { cz };
        r.push(cb[g.index(x, y, z)]);
        k += 1;
    }
    r
}

/// Every value lies above a bound.
fn all_above<F: Fn(Ask) -> u64>(f: &F, c: &Vec<u32>, bound: u32) -> (r: bool)
    requires
        answers(*f),
    ensures
        r == (forall|k: int| 0 <= k < c@.len() ==> holds(*f, Ask::Less32(bound, #[trigger] c@[k]))),
{
    let mut k: usize = 0;
    while k < c.len()
        invariant
            k <= c@.len(),
            answers(*f),
            forall|j: int| 0 <= j < k ==> holds(*f, Ask::Less32(bound, #[trigger] c@[j])),
        decreases c.len() - k,
    {
        if f(Ask::Less32(bound, c[k])) == 0 {
            proof { assert(!holds(*f, Ask::Less32(bound, c@[k as int]))); }
            return false;
        }
        k += 1;
    }
    true
}

/// Every value is zero or more.
fn none_negative<F: Fn(Ask) -> u64>(f: &F, c: &Vec<u32>) -> (r: bool)
    requires
        answers(*f),
    ensures
        r == (forall|k: int| 0 <= k < c@.len() ==> holds(*f, Ask::LessEq32(0, #[trigger] c@[k]))),
{
    let mut k: usize = 0;
    while k < c.len()
        invariant
            k <= c@.len(),
            answers(*f),
            forall|j: int| 0 <= j < k ==> holds(*f, Ask::LessEq32(0, #[trigger] c@[j])),
        decreases c.len() - k,
    {
        if f(Ask::LessEq32(0, c[k])) == 0 {
            proof { assert(!holds(*f, Ask::LessEq32(0, c@[k as int]))); }
            return false;
        }
        k += 1;
    }
    true
}

/// Every value is negative, and none is out of the toggle's range.
fn all_negative<F: Fn(Ask) -> u64>(f: &F, c: &Vec<u32>) -> (r: bool)
    requires
        answers(*f),
    ensures
        r == (forall|k: int|
            0 <= k < c@.len() ==> holds(*f, Ask::Less32(#[trigger] c@[k], MINUS_MARGIN)) && holds(
                *f, Ask::LessEq32(MINUS_MILLION_32, c@[k]))),
{
    let mut k: usize = 0;
    while k < c.len()
        invariant
            k <= c@.len(),
            answers(*f),
            forall|j: int|
                0 <= j < k ==> holds(*f, Ask::Less32(#[trigger] c@[j], MINUS_MARGIN)) && holds(
                    *f, Ask::LessEq32(MINUS_MILLION_32, c@[j])),
        decreases c.len() - k,
    {
        if f(Ask::Less32(c[k], MINUS_MARGIN)) == 0 || f(Ask::LessEq32(MINUS_MILLION_32, c[k])) == 0 {
            proof {
                assert(!(holds(*f, Ask::Less32(c@[k as int], MINUS_MARGIN)) && holds(
                    *f, Ask::LessEq32(MINUS_MILLION_32, c@[k as int]))));
            }
            return false;
        }
        k += 1;
    }
    true
}

/// What a fill reads: the corner grids and the structure term.
struct Stage {
    vol: Volume,
    grid: Volume,
    cell_xz: i32,
    cell_y: i32,
    air_from: usize,
    main: Vec<u32>,
    toggle: Vec<u32>,
    thickness: Vec<u32>,
    ridge_a: Vec<u32>,
    ridge_b: Vec<u32>,
    beard: Option<(Vec<u32>, Reach)>,
    skip_solid: bool,
    plan: Ghost<Plan>,
}

impl Stage {
    spec fn wf(&self) -> bool {
        let p = self.plan@;
        &&& self.vol.fits() && self.vol.in_world()
        &&& steps(self.vol) == (1int, 1int, 1int)
        &&& self.vol.size@[0] <= 0x1_0000_0000 && self.vol.size@[1] <= 0x1_0000_0000 && self.vol.size@[2] <= 0x1_0000_0000
        &&& self.grid.fits()
        &&& self.cell_xz > 0 && self.cell_y > 0
        &&& p.shape.cell_xz == self.cell_xz && p.shape.cell_y == self.cell_y
        &&& p.blocks == lattice(self.vol)
        &&& p.corners == corner_lattice(p.blocks, self.cell_xz as int, self.cell_y as int)
        &&& p.grid == lattice(self.grid)
        &&& p.grid == (Lattice { sy: least(p.corners.sy, p.air_from + 1), ..p.corners })
        &&& p.air_from == self.air_from
        &&& self.air_from <= cells_in(p.blocks.y, p.blocks.sy, self.cell_y as int)
        &&& p.grids == seq![self.main@, self.toggle@, self.thickness@, self.ridge_a@, self.ridge_b@]
        &&& self.main@.len() == self.grid.count()
        &&& self.toggle@.len() == self.grid.count()
        &&& self.thickness@.len() == self.grid.count()
        &&& self.ridge_a@.len() == self.grid.count()
        &&& self.ridge_b@.len() == self.grid.count()
        &&& p.skip_solid == self.skip_solid
        &&& match self.beard {
            Some((buf, reach)) => p.beard == Some((buf@, reach.extent())) && buf@.len() == self.vol.count(),
            None => p.beard is None,
        }
    }

    /// Whether one axis of a cell touches a range.
    fn axis_touches(min: i32, size: usize, cell: i32, c: usize, lo: usize, hi: usize) -> (r: bool)
        requires
            cell > 0,
            size <= 0x1_0000_0000,
            c <= 0x4_0000_0000,
        ensures
            r == (cell_first(min as int, cell as int, c as int) <= hi && cell_last(
                min as int, size as int, cell as int, c as int) >= lo),
    {
        let (d, _) = floor_parts(min as i64, cell as i64);
        proof {
            assert(-0x10_0000_0000 <= d + c <= 0x10_0000_0000) by {
                vstd::arithmetic::div_mod::lemma_fundamental_div_mod(min as int, cell as int);
                assert(-0x8000_0000 <= d <= 0x8000_0000) by (nonlinear_arith)
                    requires
                        min == cell * d + min as int % (cell as int),
                        0 <= min as int % (cell as int) < cell,
                        cell > 0,
                        -0x8000_0000 <= min <= 0x7fff_ffff,
                ;
            }
            assert(-0x1000_0000_0000_0000_0000 <= (d + c) * cell <= 0x1000_0000_0000_0000_0000) by (nonlinear_arith)
                requires
                    -0x10_0000_0000 <= d + c <= 0x10_0000_0000,
                    0 < cell <= 0x7fff_ffff,
            ;
        }
        let o: i128 = (d as i128 + c as i128) * cell as i128 - min as i128;
        let first: i128 = if o > 0 { o } else { 0 };
        let end: i128 = if o + (cell as i128) < size as i128 { o + cell as i128 } else { size as i128 };
        first <= hi as i128 && end - 1 >= lo as i128
    }

    /// Whether a cell is solid throughout.
    fn is_solid<F: Fn(Ask) -> u64>(&self, cx: usize, cy: usize, cz: usize, f: &F) -> (r: bool)
        requires
            answers(*f),
            self.wf(),
            self.grid.inside(cx as int, cy as int, cz as int),
            cx <= 0x4_0000_0000 && cy <= 0x4_0000_0000 && cz <= 0x4_0000_0000,
        ensures
            r == self.plan@.solid(*f, cx as int, cy as int, cz as int),
    {
        let ghost p = self.plan@;
        let ghost (x, y, z) = (cx as int, cy as int, cz as int);
        proof {
            assert(p.grids[0] == self.main@ && p.grids[1] == self.toggle@ && p.grids[2] == self.thickness@);
        }
        let m: Vec<u32> = corners_of(&self.main, &self.grid, cx, cy, cz);
        let main_solid: bool = all_above(f, &m, MARGIN);
        proof { assert(main_solid == p.above(*f, 0, x, y, z)) by { lemma_above(*f, m@, p, 0, x, y, z); } }
        if !main_solid {
            return false;
        }
        let t: Vec<u32> = corners_of(&self.toggle, &self.grid, cx, cy, cz);
        let negative: bool = all_negative(f, &t);
        proof { assert(negative == p.negative(*f, x, y, z)) by { lemma_negative(*f, t@, p, x, y, z); } }
        if !negative {
            let positive: bool = none_negative(f, &t);
            proof { assert(positive == p.positive(*f, x, y, z)) by { lemma_positive(*f, t@, p, x, y, z); } }
            let h: Vec<u32> = corners_of(&self.thickness, &self.grid, cx, cy, cz);
            let thick: bool = all_above(f, &h, MARGIN);
            proof { assert(thick == p.above(*f, 2, x, y, z)) by { lemma_above(*f, h@, p, 2, x, y, z); } }
            if !positive || !thick {
                return false;
            }
        }
        match &self.beard {
            Some((_, reach)) => {
                let touched: bool = Stage::axis_touches(
                    self.vol.min[0], self.vol.size[0], self.cell_xz, cx, reach.lo[0], reach.hi[0]) && Stage::axis_touches(
                    self.vol.min[1], self.vol.size[1], self.cell_y, cy, reach.lo[1], reach.hi[1]) && Stage::axis_touches(
                    self.vol.min[2], self.vol.size[2], self.cell_xz, cz, reach.lo[2], reach.hi[2]);
                !touched
            },
            None => true,
        }
    }
}

proof fn lemma_above<F: Fn(Ask) -> u64>(f: F, c: Seq<u32>, p: Plan, g: int, x: int, y: int, z: int)
    requires
        c.len() == 8,
        forall|k: int| 0 <= k < 8 ==> #[trigger] c[k] == corner(p.grids[g], p.grid, x, y, z, k),
    ensures
        p.above(f, g, x, y, z) == (forall|k: int| 0 <= k < c.len() ==> holds(f, Ask::Less32(MARGIN, #[trigger] c[k]))),
{
    if p.above(f, g, x, y, z) {
        assert forall|k: int| 0 <= k < c.len() implies holds(f, Ask::Less32(MARGIN, #[trigger] c[k])) by {
            assert(p.at(g, x, y, z, k) == c[k]);
        }
    }
    if forall|k: int| 0 <= k < c.len() ==> holds(f, Ask::Less32(MARGIN, #[trigger] c[k])) {
        assert forall|k: int| 0 <= k < 8 implies holds(f, Ask::Less32(MARGIN, #[trigger] p.at(g, x, y, z, k))) by {
            assert(p.at(g, x, y, z, k) == c[k]);
        }
    }
}

proof fn lemma_negative<F: Fn(Ask) -> u64>(f: F, c: Seq<u32>, p: Plan, x: int, y: int, z: int)
    requires
        c.len() == 8,
        forall|k: int| 0 <= k < 8 ==> #[trigger] c[k] == corner(p.grids[1], p.grid, x, y, z, k),
    ensures
        p.negative(f, x, y, z) == (forall|k: int|
            0 <= k < c.len() ==> holds(f, Ask::Less32(#[trigger] c[k], MINUS_MARGIN)) && holds(
                f, Ask::LessEq32(MINUS_MILLION_32, c[k]))),
{
    if p.negative(f, x, y, z) {
        assert forall|k: int| 0 <= k < c.len() implies holds(f, Ask::Less32(#[trigger] c[k], MINUS_MARGIN)) && holds(
            f, Ask::LessEq32(MINUS_MILLION_32, c[k])) by {
            assert(p.at(1, x, y, z, k) == c[k]);
        }
    }
    if forall|k: int|
        0 <= k < c.len() ==> holds(f, Ask::Less32(#[trigger] c[k], MINUS_MARGIN)) && holds(
            f, Ask::LessEq32(MINUS_MILLION_32, c[k])) {
        assert forall|k: int| 0 <= k < 8 implies holds(f, Ask::Less32(#[trigger] p.at(1, x, y, z, k), MINUS_MARGIN)) && holds(
            f, Ask::LessEq32(MINUS_MILLION_32, p.at(1, x, y, z, k))) by {
            assert(p.at(1, x, y, z, k) == c[k]);
        }
    }
}

proof fn lemma_positive<F: Fn(Ask) -> u64>(f: F, c: Seq<u32>, p: Plan, x: int, y: int, z: int)
    requires
        c.len() == 8,
        forall|k: int| 0 <= k < 8 ==> #[trigger] c[k] == corner(p.grids[1], p.grid, x, y, z, k),
    ensures
        p.positive(f, x, y, z) == (forall|k: int| 0 <= k < c.len() ==> holds(f, Ask::LessEq32(0, #[trigger] c[k]))),
{
    if p.positive(f, x, y, z) {
        assert forall|k: int| 0 <= k < c.len() implies holds(f, Ask::LessEq32(0, #[trigger] c[k])) by {
            assert(p.at(1, x, y, z, k) == c[k]);
        }
    }
    if forall|k: int| 0 <= k < c.len() ==> holds(f, Ask::LessEq32(0, #[trigger] c[k])) {
        assert forall|k: int| 0 <= k < 8 implies holds(f, Ask::LessEq32(0, #[trigger] p.at(1, x, y, z, k))) by {
            assert(p.at(1, x, y, z, k) == c[k]);
        }
    }
}

/// The highest row that is not zero; as many rows as there are without one.
fn highest_row<F: Fn(Ask) -> u64>(f: &F, buf: &Vec<u32>, rows: usize) -> (r: i64)
    requires
        answers(*f),
        0 < rows <= 0x1_0000_0000,
    ensures
        r == top_row(*f, buf@, rows as int, buf@.len()),
        -1 <= r < rows,
{
    let mut top: i64 = -1;
    let mut i: usize = 0;
    while i < buf.len()
        invariant
            i <= buf@.len(),
            answers(*f),
            0 < rows <= 0x1_0000_0000,
            top == top_row(*f, buf@, rows as int, i as nat),
            -1 <= top < rows,
        decreases buf.len() - i,
    {
        let row: i64 = (i % rows) as i64;
        if f(Ask::Equal32(buf[i], 0)) == 0 && row > top {
            top = row;
        }
        i += 1;
    }
    top
}

/// The first cell, from `from` up, from which on a corner column is
/// negative.
fn climb_column<F: Fn(Ask) -> u64>(
    main: &Node, w: &Volume, ctx: &mut BoundCtx, top: i32, from: usize, count: usize, f: &F,
    Ghost(inputs): Ghost<Map<usize, Node>>,
) -> (r: usize)
    requires
        answers(*f),
        sound(*main),
        agrees(*main, inputs),
        w.fits(),
        from <= count,
        old(ctx).wf(),
        old(ctx).pc@ == blank(),
        old(ctx).y_ref == w.min@[1],
        top == wrapped(lattice(*w).y + (lattice(*w).sy - 1) * lattice(*w).ty),
    ensures
        r == climb(*f, *main, lattice(*w), old(ctx).x, old(ctx).z, from as int, count as int),
        from <= r <= count,
        final(ctx).wf(),
{
    let mut r: usize = from;
    let ghost wl = lattice(*w);
    let ghost (x, z) = (ctx.x, ctx.z);
    proof { assert(truthful(*f, ctx.pc@, inputs)); }
    while r < count
        invariant
            from <= r <= count,
            wl == lattice(*w),
            answers(*f),
            sound(*main),
            agrees(*main, inputs),
            ctx.wf(),
            truthful(*f, ctx.pc@, inputs),
            ctx.x == x && ctx.z == z && ctx.y_ref == w.min@[1],
            x == old(ctx).x && z == old(ctx).z,
            top == wrapped(wl.y + (wl.sy - 1) * wl.ty),
            climb(*f, *main, wl, x, z, from as int, count as int) == climb(*f, *main, wl, x, z, r as int, count as int),
        decreases count - r,
    {
        let low_row: i32 = block_along(w.min[1], r, w.step[1]);
        let ghost c = ctx.column(low_row, top);
        let b = main.bounds_in(low_row, top, ctx, f, Ghost(inputs));
        proof {
            assert(c == (Column { x, z, y_ref: wrapped(wl.y), y_lo: wrapped(wl.y + r * wl.ty), y_hi: top }));
        }
        if f(Ask::Less32(b.1, MINUS_AIR_MARGIN)) != 0 {
            return r;
        }
        r += 1;
    }
    r
}

/// The first cell from which on every block is air.
fn first_air<F: Fn(Ask) -> u64>(
    shape: &OverworldShape, skip: i32, vol: &Volume, w: &Volume, count: usize, beard: &Option<(Vec<u32>, Reach)>, f: &F,
    Ghost(b): Ghost<Option<(Seq<u32>, Extent)>>, Ghost(inputs): Ghost<Map<usize, Node>>,
) -> (r: usize)
    requires
        answers(*f),
        sound(*shape.main),
        agrees(*shape.main, inputs),
        vol.wf(),
        w.fits(),
        vol.size@[1] <= 0x1_0000_0000,
        shape.cell_y > 0,
        count == cells_in(vol.min@[1] as int, vol.size@[1] as int, shape.cell_y as int),
        count <= 0x1_0000_0002,
        match *beard {
            Some((buf, reach)) => b == Some((buf@, reach.extent())),
            None => b is None,
        },
    ensures
        r == air_cell(*f, shape@, skip as int, lattice(*vol), lattice(*w), b),
        r <= count,
{
    let ghost v = lattice(*vol);
    let ghost wl = lattice(*w);
    let cell: i64 = shape.cell_y as i64;
    let first: i64 = w.min[1] as i64;
    let above: i64 = if (skip as i64) < first { 0 } else { floor_parts(skip as i64 - first, cell).0 + 1 };
    let over: i64 = match beard {
        Some((buf, _)) => {
            let t: i64 = highest_row(f, buf, vol.size[1]);
            if t < 0 { 0 } else { floor_parts(vol.min[1] as i64 + t - first, cell).0 + 1 }
        },
        None => 0,
    };
    let most: i64 = if above > over { above } else { over };
    let mut r: usize = if most < count as i64 { most as usize } else { count };
    let ghost start = r as int;
    proof {
        assert(above >= 0) by {
            if skip as i64 >= first {
                vstd::arithmetic::div_mod::lemma_div_pos_is_pos(skip - first, cell as int);
            }
        }
        assert(r == least(greatest(above as int, over as int), count as int));
        assert(w.size@[0] * w.size@[2] <= usize::MAX) by {
            let (a, c, d) = (w.size@[0] as int, w.size@[1] as int, w.size@[2] as int);
            assert(a * d <= a * c * d) by (nonlinear_arith)
                requires
                    a > 0,
                    c >= 1,
                    d > 0,
            ;
        }
    }
    let n: usize = w.size[0] * w.size[2];
    let top: i32 = block_along(w.min[1], w.size[1] - 1, w.step[1]);
    let mut ctx = BoundCtx::new();
    let mut k: usize = 0;
    while k < n
        invariant
            k <= n,
            n == wl.sx * wl.sz,
            wl == lattice(*w),
            w.fits(),
            answers(*f),
            sound(*shape.main),
            agrees(*shape.main, inputs),
            count <= 0x1_0000_0002,
            start <= r <= count,
            top == wrapped(wl.y + (wl.sy - 1) * wl.ty),
            r == climbed_all(*f, *shape.main, wl, start, count as int, k as nat),
        decreases n - k,
    {
        let (cx, cz): (usize, usize) = (k / w.size[2], k % w.size[2]);
        let x: i32 = block_along(w.min[0], cx, w.step[0]);
        let z: i32 = block_along(w.min[2], cz, w.step[2]);
        ctx.start_column(x, z, w.min[1]);
        r = climb_column(shape.main, w, &mut ctx, top, r, count, f, Ghost(inputs));
        k += 1;
    }
    r
}

/// A quotient lies below a number just where the dividend lies below that
/// many divisors.
proof fn lemma_quotient(n: int, c: int, k: int)
    requires
        c > 0,
    ensures
        down_div(n, c) < k <==> n < k * c,
{
    vstd::arithmetic::div_mod::lemma_fundamental_div_mod(n, c);
    let q = n / c;
    if q < k {
        assert(n < k * c) by (nonlinear_arith)
            requires
                n == c * q + n % c,
                n % c < c,
                q + 1 <= k,
                c > 0,
        ;
    }
    if n < k * c {
        assert(q < k) by (nonlinear_arith)
            requires
                n == c * q + n % c,
                0 <= n % c,
                n < k * c,
                c > 0,
        ;
    }
}

impl Stage {
    /// How many rows lie in cells that are not air.
    fn rows_below_air(&self) -> (r: usize)
        requires
            self.wf(),
        ensures
            r <= self.vol.size@[1],
            forall|y: int|
                0 <= y < self.vol.size@[1] ==> (#[trigger] down_div(self.vol.min@[1] + y, self.cell_y as int) - down_div(
                    self.vol.min@[1] as int, self.cell_y as int) < self.air_from <==> y < r),
    {
        let min: i32 = self.vol.min[1];
        let size: usize = self.vol.size[1];
        let (d, _) = floor_parts(min as i64, self.cell_y as i64);
        proof { lemma_cells(min as int, size as int, self.cell_y as int); }
        proof {
            vstd::arithmetic::div_mod::lemma_fundamental_div_mod(min as int, self.cell_y as int);
            assert(-0x8000_0000 <= d <= 0x8000_0000) by (nonlinear_arith)
                requires
                    min == self.cell_y * d + min as int % (self.cell_y as int),
                    0 <= min as int % (self.cell_y as int) < self.cell_y,
                    self.cell_y > 0,
                    -0x8000_0000 <= min <= 0x7fff_ffff,
            ;
            assert(size as int / self.cell_y as int <= size) by (nonlinear_arith)
                requires
                    size >= 0,
                    self.cell_y >= 1,
            ;
            assert(-0x1000_0000_0000_0000_0000 <= (d + self.air_from) * self.cell_y <= 0x1000_0000_0000_0000_0000)
                by (nonlinear_arith)
                requires
                    -0x8000_0000 <= d <= 0x8000_0000,
                    0 <= self.air_from <= 0x2_0000_0000,
                    0 < self.cell_y <= 0x7fff_ffff,
            ;
            assert forall|y: int| 0 <= y < size implies (#[trigger] down_div(min + y, self.cell_y as int) - down_div(
                min as int, self.cell_y as int) < self.air_from <==> min + y < (d + self.air_from) * self.cell_y) by {
                lemma_quotient(min + y, self.cell_y as int, d + self.air_from);
            }
        }
        let edge: i128 = (d as i128 + self.air_from as i128) * self.cell_y as i128 - min as i128;
        if edge <= 0 {
            0
        } else if edge < size as i128 {
            edge as usize
        } else {
            size
        }
    }

    /// Which cells of a column are solid throughout.
    fn solid_cells<F: Fn(Ask) -> u64>(&self, cx: usize, cz: usize, f: &F) -> (r: Vec<bool>)
        requires
            answers(*f),
            self.wf(),
            cx < self.grid.size@[0] && cz < self.grid.size@[2],
            cx <= 0x4_0000_0000 && cz <= 0x4_0000_0000,
            self.air_from <= 0x4_0000_0000,
            self.air_from <= self.plan@.corners.sy,
        ensures
            r@.len() == self.air_from,
            forall|cy: int| 0 <= cy < self.air_from ==> #[trigger] r@[cy] == self.plan@.solid(*f, cx as int, cy, cz as int),
    {
        let mut r: Vec<bool> = Vec::new();
        let mut cy: usize = 0;
        while cy < self.air_from
            invariant
                cy <= self.air_from,
                r@.len() == cy,
                answers(*f),
                self.wf(),
                cx < self.grid.size@[0] && cz < self.grid.size@[2],
                cx <= 0x4_0000_0000 && cz <= 0x4_0000_0000,
                self.air_from <= 0x4_0000_0000,
                self.air_from <= self.plan@.corners.sy,
                forall|k: int| 0 <= k < cy ==> #[trigger] r@[k] == self.plan@.solid(*f, cx as int, k, cz as int),
            decreases self.air_from - cy,
        {
            let solid: bool = self.is_solid(cx, cy, cz, f);
            r.push(solid);
            cy += 1;
        }
        r
    }

    /// What a block gets whose density is not above zero.
    fn wet_block<F: Fn(Ask) -> u64>(
        &self, aquifer: &mut Aquifer, x: i32, y: i32, z: i32, density: u64, f: &F, Ghost(i): Ghost<int>,
    ) -> (r: (Option<Substance>, bool))
        requires
            answers(*f),
            self.wf(),
            old(aquifer).wf(*f),
            old(aquifer).waters() == self.plan@.waters,
            (x, y, z) == (self.plan@.blocks.at_x(i), self.plan@.blocks.at_y(i), self.plan@.blocks.at_z(i)),
        ensures
            final(aquifer).wf(*f),
            final(aquifer).waters() == old(aquifer).waters(),
            r == self.plan@.wet(*f, i, density),
            final(aquifer).meters() == metered(*f, self.plan@.waters, x, y, z, density, old(aquifer).meters()),
            old(aquifer).remembered().subset_of(final(aquifer).remembered()),
    {
        let s: Option<Substance> = aquifer.compute_substance(x, y, z, density, f);
        (s, aquifer.update_scheduled())
    }

    /// Fill one block column.
    #[verifier::rlimit(60)]
    fn fill_column<F: Fn(Ask) -> u64>(
        &self, col: usize, rows: usize, aquifer: &mut Aquifer, density: &mut Vec<u32>, substance: &mut Vec<u8>,
        wrong: &mut Option<usize>, f: &F, Ghost(m0): Ghost<(usize, usize, usize)>,
    )
        requires
            answers(*f),
            self.wf(),
            old(aquifer).wf(*f),
            old(aquifer).waters() == self.plan@.waters,
            col < self.vol.size@[0] * self.vol.size@[2],
            old(density)@.len() == col * self.vol.size@[1],
            old(substance)@.len() == col * self.vol.size@[1],
            rows <= self.vol.size@[1],
            forall|y: int|
                0 <= y < self.vol.size@[1] ==> (#[trigger] down_div(self.vol.min@[1] + y, self.cell_y as int) - down_div(
                    self.vol.min@[1] as int, self.cell_y as int) < self.air_from <==> y < rows),
            self.plan@.checked(*f, *old(wrong), col * self.vol.size@[1]),
            old(aquifer).meters() == self.plan@.metered(*f, (col * self.vol.size@[1]) as nat, m0),
        ensures
            final(aquifer).wf(*f),
            final(aquifer).waters() == old(aquifer).waters(),
            final(density)@.len() == (col + 1) * self.vol.size@[1],
            final(substance)@.len() == (col + 1) * self.vol.size@[1],
            forall|i: int| 0 <= i < old(density)@.len() ==> #[trigger] final(density)@[i] == old(density)@[i],
            forall|i: int| 0 <= i < old(substance)@.len() ==> #[trigger] final(substance)@[i] == old(substance)@[i],
            forall|i: int|
                old(density)@.len() <= i < final(density)@.len() ==> #[trigger] final(density)@[i] == self.plan@.filled(
                    *f, i).0,
            forall|i: int|
                old(substance)@.len() <= i < final(substance)@.len() ==> #[trigger] final(substance)@[i]
                    == self.plan@.filled(*f, i).1,
            self.plan@.checked(*f, *final(wrong), (col + 1) * self.vol.size@[1]),
            final(aquifer).meters() == self.plan@.metered(*f, ((col + 1) * self.vol.size@[1]) as nat, m0),
            old(aquifer).remembered().subset_of(final(aquifer).remembered()),
    {
        let ghost p = self.plan@;
        let ghost v = p.blocks;
        let ghost (base_d, base_s) = (density@, substance@);
        let (sx, sy): (usize, usize) = (self.vol.size[0], self.vol.size[1]);
        let x: usize = col % sx;
        let z: usize = col / sx;
        let ghost start = col * v.sy;
        proof {
            vstd::arithmetic::div_mod::lemma_fundamental_div_mod(col as int, v.sx);
            assert(0 <= z && z < v.sz) by (nonlinear_arith)
                requires
                    col as int == v.sx * z + x,
                    0 <= x < v.sx,
                    0 <= col < v.sx * v.sz,
                    v.sx > 0,
                    z == col as int / v.sx,
                    0 <= z,
            ;
            lemma_cell_of(v.x, v.sx, self.cell_xz as int, x as int);
            lemma_cell_of(v.z, v.sz, self.cell_xz as int, z as int);
            lemma_cells(v.x, v.sx, self.cell_xz as int);
            lemma_cells(v.y, v.sy, self.cell_y as int);
            lemma_cells(v.z, v.sz, self.cell_xz as int);
            lemma_few(v.sx, self.cell_xz as int);
            lemma_few(v.sy, self.cell_y as int);
            lemma_few(v.sz, self.cell_xz as int);
            lemma_cell_of(v.y, v.sy, self.cell_y as int, v.sy - 1);
            if rows > 0 {
                lemma_cell_of(v.y, v.sy, self.cell_y as int, rows - 1);
            }
            assert(start + v.sy <= self.vol.count() && 0 <= start) by (nonlinear_arith)
                requires
                    start == col * v.sy,
                    0 <= col,
                    col + 1 <= v.sx * v.sz,
                    v.sy > 0,
                    self.vol.count() == v.sx * v.sy * v.sz,
            ;
        }
        let (x0, _) = floor_parts(self.vol.min[0] as i64, self.cell_xz as i64);
        let (z0, _) = floor_parts(self.vol.min[2] as i64, self.cell_xz as i64);
        let (y0, _) = floor_parts(self.vol.min[1] as i64, self.cell_y as i64);
        let (xc, _) = floor_parts(self.vol.min[0] as i64 + x as i64, self.cell_xz as i64);
        let (zc, _) = floor_parts(self.vol.min[2] as i64 + z as i64, self.cell_xz as i64);
        let cx: usize = (xc - x0) as usize;
        let cz: usize = (zc - z0) as usize;
        let solid: Vec<bool> = self.solid_cells(cx, cz, f);
        let m: Vec<u32> = column_rows(f, &self.main, &self.grid, &self.vol, self.cell_xz, self.cell_y, col, rows);
        let t: Vec<u32> = column_rows(f, &self.toggle, &self.grid, &self.vol, self.cell_xz, self.cell_y, col, rows);
        let h: Vec<u32> = column_rows(f, &self.thickness, &self.grid, &self.vol, self.cell_xz, self.cell_y, col, rows);
        let a: Vec<u32> = column_rows(f, &self.ridge_a, &self.grid, &self.vol, self.cell_xz, self.cell_y, col, rows);
        let b: Vec<u32> = column_rows(f, &self.ridge_b, &self.grid, &self.vol, self.cell_xz, self.cell_y, col, rows);
        let bx: i32 = block_along(self.vol.min[0], x, 1);
        let bz: i32 = block_along(self.vol.min[2], z, 1);
        let mut y: usize = 0;
        while y < sy
            invariant
                y <= sy,
                answers(*f),
                self.wf(),
                p == self.plan@,
                v == p.blocks,
                sy == v.sy,
                aquifer.wf(*f),
                aquifer.waters() == p.waters,
                x < v.sx && z < v.sz,
                x == col as int % v.sx,
                z == col as int / v.sx,
                cx == down_div(v.x + x, self.cell_xz as int) - down_div(v.x, self.cell_xz as int),
                cz == down_div(v.z + z, self.cell_xz as int) - down_div(v.z, self.cell_xz as int),
                y0 == down_div(v.y, self.cell_y as int),
                -0x1_0000_0000_0000 <= y0 <= 0x1_0000_0000_0000,
                bx == wrapped(v.x + x * 1),
                bz == wrapped(v.z + z * 1),
                start == col * v.sy,
                start + v.sy <= self.vol.count(),
                0 <= start,
                rows <= sy,
                forall|k: int|
                    0 <= k < sy ==> (#[trigger] down_div(self.vol.min@[1] + k, self.cell_y as int) - down_div(
                        self.vol.min@[1] as int, self.cell_y as int) < self.air_from <==> k < rows),
                solid@.len() == self.air_from,
                forall|cy: int| 0 <= cy < self.air_from ==> #[trigger] solid@[cy] == p.solid(*f, cx as int, cy, cz as int),
                m@.len() == rows && t@.len() == rows && h@.len() == rows && a@.len() == rows && b@.len() == rows,
                forall|k: int| 0 <= k < rows ==> #[trigger] m@[k] == p.input(*f, 0, start + k),
                forall|k: int| 0 <= k < rows ==> #[trigger] t@[k] == p.input(*f, 1, start + k),
                forall|k: int| 0 <= k < rows ==> #[trigger] h@[k] == p.input(*f, 2, start + k),
                forall|k: int| 0 <= k < rows ==> #[trigger] a@[k] == p.input(*f, 3, start + k),
                forall|k: int| 0 <= k < rows ==> #[trigger] b@[k] == p.input(*f, 4, start + k),
                base_d.len() == start && base_s.len() == start,
                density@.len() == start + y,
                substance@.len() == start + y,
                forall|i: int| 0 <= i < start ==> #[trigger] density@[i] == base_d[i],
                forall|i: int| 0 <= i < start ==> #[trigger] substance@[i] == base_s[i],
                forall|i: int| start <= i < start + y ==> #[trigger] density@[i] == p.filled(*f, i).0,
                forall|i: int| start <= i < start + y ==> #[trigger] substance@[i] == p.filled(*f, i).1,
                p.checked(*f, *wrong, start + y),
                aquifer.meters() == p.metered(*f, (start + y) as nat, m0),
                old(aquifer).remembered().subset_of(aquifer.remembered()),
            decreases sy - y,
        {
            let ghost i = start + y;
            proof {
                lemma_cell_of(v.y, v.sy, self.cell_y as int, y as int);
                lemma_near(v.y, y as int, self.cell_y as int);
                assert(col * v.sy == v.sy * col) by (nonlinear_arith);
                vstd::arithmetic::div_mod::lemma_fundamental_div_mod_converse(i, v.sy, col as int, y as int);
                assert(v.ix(i) == x && v.iy(i) == y && v.iz(i) == z);
            }
            let by: i32 = block_along(self.vol.min[1], y, 1);
            let (yc, _) = floor_parts(self.vol.min[1] as i64 + y as i64, self.cell_y as i64);
            let cy: usize = (yc - y0) as usize;
            let ghost before_d = density@;
            let ghost before_s = substance@;
            proof {
                assert(p.cell(i) == (cx as int, cy as int, cz as int));
                assert((bx, by, bz) == (v.at_x(i), v.at_y(i), v.at_z(i)));
            }
            let (d, s): (u32, u8) = if y >= rows {
                let (s, _) = self.wet_block(aquifer, bx, by, bz, MINUS_ONE, f, Ghost(i));
                (0, Substance::oracle_id(s))
            } else if self.skip_solid && solid[cy] {
                (m[y], 0)
            } else {
                let term: u32 = match &self.beard {
                    Some((buf, _)) => buf[density.len()],
                    None => 0,
                };
                let d: u32 = combine(f, m[y], t[y], h[y], a[y], b[y], term);
                proof { assert(d == p.mixed(*f, i)); }
                if f(Ask::Less32(0, d)) != 0 {
                    (d, 0)
                } else {
                    if solid[cy] && wrong.is_none() {
                        *wrong = Some(density.len());
                    }
                    let wide: u64 = f(Ask::Widen(d));
                    let (s, update) = self.wet_block(aquifer, bx, by, bz, wide, f, Ghost(i));
                    let fluid: bool = matches!(s, Some(Substance::Water)) || matches!(s, Some(Substance::Lava));
                    let id: u8 = Substance::oracle_id(s);
                    (d, if update && fluid { id + FLUID_UPDATE_BIT } else { id })
                }
            };
            proof {
                assert((d, s) == p.filled(*f, i));
                assert(p.checked(*f, *wrong, start + y + 1));
            }
            density.push(d);
            substance.push(s);
            proof {
                assert forall|j: int| start <= j < start + y + 1 implies #[trigger] density@[j] == p.filled(*f, j).0 by {
                    assert(j == i || density@[j] == before_d[j]);
                }
                assert forall|j: int| start <= j < start + y + 1 implies #[trigger] substance@[j] == p.filled(*f, j).1 by {
                    assert(j == i || substance@[j] == before_s[j]);
                }
            }
            y += 1;
        }
        proof { assert((col + 1) * v.sy == start + v.sy) by (nonlinear_arith)
            requires
                start == col * v.sy,
        ; }
    }
}

proof fn lemma_few(n: int, c: int)
    requires
        0 <= n,
        c > 0,
    ensures
        n / c <= n,
{
    assert(n / c <= n) by (nonlinear_arith)
        requires
            0 <= n,
            c >= 1,
    ;
}

/// A block is no more cells away than blocks.
proof fn lemma_near(m: int, k: int, c: int)
    requires
        c > 0,
        k >= 0,
    ensures
        0 <= down_div(m + k, c) - down_div(m, c) <= k,
{
    vstd::arithmetic::div_mod::lemma_fundamental_div_mod(m, c);
    vstd::arithmetic::div_mod::lemma_fundamental_div_mod(m + k, c);
    let (a, b) = (m / c, (m + k) / c);
    assert(0 <= b - a) by (nonlinear_arith)
        requires
            c > 0,
            k >= 0,
            m == c * a + m % c,
            m + k == c * b + (m + k) % c,
            0 <= m % c < c,
            0 <= (m + k) % c < c,
    ;
    assert(b - a <= k) by (nonlinear_arith)
        requires
            c >= 1,
            k >= 0,
            m == c * a + m % c,
            m + k == c * b + (m + k) % c,
            0 <= m % c < c,
            0 <= (m + k) % c < c,
    ;
}

/// Fill a volume in one pass: density and substance per block, in buffer
/// order. `beard` carries the structure pieces near the chunk, if any, and
/// `k` is their kernel; `verify` takes no shortcut and looks for a block
/// that one would have got wrong; without `skip_air` the rows above the
/// terrain are computed like the others. Whether a fluid has to be updated
/// is said per block; the aquifer is left with what its last block said.
pub fn fill_fused<F: Fn(Ask) -> u64>(
    shape: &OverworldShape, aquifer: &mut Aquifer, vol: &Volume, beard: Option<&Beardifier>, k: &Vec<u32>, verify: bool,
    skip_air: bool, f: &F,
) -> (r: (Vec<u32>, Vec<u8>, FillStats))
    requires
        answers(*f),
        k@ == kernel_table(*f),
        old(aquifer).wf(*f),
        shape.cell_xz > 0,
        shape.cell_y > 0,
        fillable(*shape.main, *vol, shape.cell_xz, shape.cell_y),
        fillable(*shape.toggle, *vol, shape.cell_xz, shape.cell_y),
        fillable(*shape.thickness, *vol, shape.cell_xz, shape.cell_y),
        fillable(*shape.ridge_a, *vol, shape.cell_xz, shape.cell_y),
        fillable(*shape.ridge_b, *vol, shape.cell_xz, shape.cell_y),
        exists|inputs: Map<usize, Node>| agrees(*shape.main, inputs),
        vol.fits(),
        vol.in_world(),
        vol.step@ == seq![1i32, 1i32, 1i32],
        vol.size@[0] + 3 <= usize::MAX && vol.size@[1] + 3 <= usize::MAX && vol.size@[2] + 3 <= usize::MAX,
        beard matches Some(b) ==> b.pieces() <= usize::MAX,
    ensures
        final(aquifer).wf(*f),
        final(aquifer).waters() == old(aquifer).waters(),
        old(aquifer).remembered().subset_of(final(aquifer).remembered()),
        r.0@.len() == vol.count(),
        r.1@.len() == vol.count(),
        ({
            let p = plan_of(*f, shape@, old(aquifer).waters(), *vol, owned(beard), verify, skip_air);
            &&& forall|i: int| 0 <= i < vol.count() ==> #[trigger] r.0@[i] == p.filled(*f, i).0
            &&& forall|i: int| 0 <= i < vol.count() ==> #[trigger] r.1@[i] == p.filled(*f, i).1
            &&& r.2.corner_rows_skipped == p.corners.sy - p.grid.sy
            &&& p.checked(*f, r.2.wrong_skip, vol.count())
            &&& p.tallied(*f, r.2, vol.count() as nat)
            &&& final(aquifer).meters() == p.metered(*f, vol.count() as nat, old(aquifer).meters())
        }),
{
    let ghost inputs = choose|inputs: Map<usize, Node>| agrees(*shape.main, inputs);
    let ghost v = lattice(*vol);
    let ghost (xz, h) = (shape.cell_xz as int, shape.cell_y as int);
    let ghost s = corner_sizes(*vol, xz, h);
    let bearded: Option<(Vec<u32>, Reach)> = match beard {
        Some(b) => b.sample_volume(vol, k, f),
        None => None,
    };
    let ghost bd = beard_of(*f, owned(beard), *vol);
    proof {
        assert(vol.step@[0] == 1 && vol.step@[1] == 1 && vol.step@[2] == 1);
        assert(vol.size@[0] * 1 == vol.size@[0] && vol.size@[1] * 1 == vol.size@[1] && vol.size@[2] * 1 == vol.size@[2]);
        assert(vol.size@[0] <= 0x1_0000_0000 && vol.size@[1] <= 0x1_0000_0000 && vol.size@[2] <= 0x1_0000_0000);
        if bearded is Some {
            assert(bearded->Some_0.0@ =~= bd->Some_0.0);
        }
    }
    let (corners, count): (Volume, usize) = corner_volume(vol, shape.cell_xz, shape.cell_y, Ghost(s));
    let ghost w = corner_lattice(v, xz, h);
    let mut air_from: usize = count;
    if !verify && skip_air {
        let skip: i32 = aquifer.skip_sampling_above_y(f);
        air_from = first_air(shape, skip, vol, &corners, count, &bearded, f, Ghost(bd), Ghost(inputs));
    }
    let ny: usize = corners.size[1];
    let rows: usize = if air_from < ny - 1 { air_from + 1 } else { ny };
    let grid = Volume { size: [corners.size[0], rows, corners.size[2]], min: corners.min, step: corners.step };
    let ghost g = Lattice { sy: least(w.sy, air_from + 1), ..w };
    proof {
        assert(lattice(grid) == g);
        lemma_roomy(grid, s);
    }
    let (main, toggle, thickness, ridge_a, ridge_b): (Vec<u32>, Vec<u32>, Vec<u32>, Vec<u32>, Vec<u32>) = sample_five(
        shape, &grid, f, Ghost(s));
    let ghost plan = plan_of(*f, shape@, aquifer.waters(), *vol, owned(beard), verify, skip_air);
    let stage = Stage {
        vol: *vol,
        grid,
        cell_xz: shape.cell_xz,
        cell_y: shape.cell_y,
        air_from,
        main,
        toggle,
        thickness,
        ridge_a,
        ridge_b,
        beard: bearded,
        skip_solid: !verify,
        plan: Ghost(plan),
    };
    stage.fill(aquifer, ny - rows, f)
}

/// The corners of a volume's cells, and how many cells there are along y.
fn corner_volume(vol: &Volume, cell_xz: i32, cell_y: i32, Ghost(s): Ghost<(int, int, int)>) -> (r: (Volume, usize))
    requires
        vol.wf(),
        cell_xz > 0,
        cell_y > 0,
        vol.size@[0] <= 0x1_0000_0000 && vol.size@[1] <= 0x1_0000_0000 && vol.size@[2] <= 0x1_0000_0000,
        vol.size@[0] + 3 <= usize::MAX && vol.size@[1] + 3 <= usize::MAX && vol.size@[2] + 3 <= usize::MAX,
        s == corner_sizes(*vol, cell_xz as int, cell_y as int),
        roomy(s),
    ensures
        lattice(r.0) == corner_lattice(lattice(*vol), cell_xz as int, cell_y as int),
        r.0.fits(),
        bounded_by(r.0, s),
        steps(r.0) == (cell_xz as int, cell_y as int, cell_xz as int),
        r.1 == cells_in(vol.min@[1] as int, vol.size@[1] as int, cell_y as int),
        1 <= r.1 <= vol.size@[1],
        r.1 <= r.0.size@[1],
{
    proof {
        lemma_few(vol.size@[0] as int, cell_xz as int);
        lemma_few(vol.size@[1] as int, cell_y as int);
        lemma_few(vol.size@[2] as int, cell_xz as int);
        lemma_near(vol.min@[1] as int, vol.size@[1] - 1, cell_y as int);
        lemma_cell_of(vol.min@[1] as int, vol.size@[1] as int, cell_y as int, vol.size@[1] - 1);
    }
    let (fx, nx, _) = corner_axis(vol.min[0], vol.size[0], cell_xz);
    let (fy, ny, cell0) = corner_axis(vol.min[1], vol.size[1], cell_y);
    let (fz, nz, _) = corner_axis(vol.min[2], vol.size[2], cell_xz);
    let corners = Volume { size: [nx, ny, nz], min: [fx, fy, fz], step: [cell_xz, cell_y, cell_xz] };
    let (last, _) = floor_parts(vol.min[1] as i64 + vol.size[1] as i64 - 1, cell_y as i64);
    proof {
        assert(lattice(corners) == corner_lattice(lattice(*vol), cell_xz as int, cell_y as int));
        lemma_roomy(corners, s);
    }
    (corners, (last - cell0 + 1) as usize)
}

/// The five inputs over the corners.
fn sample_five<F: Fn(Ask) -> u64>(
    shape: &OverworldShape, grid: &Volume, f: &F, Ghost(s): Ghost<(int, int, int)>,
) -> (r: (Vec<u32>, Vec<u32>, Vec<u32>, Vec<u32>, Vec<u32>))
    requires
        answers(*f),
        grid.fits(),
        bounded_by(*grid, s),
        sound(*shape.main) && affordable(*shape.main, s, steps(*grid)),
        sound(*shape.toggle) && affordable(*shape.toggle, s, steps(*grid)),
        sound(*shape.thickness) && affordable(*shape.thickness, s, steps(*grid)),
        sound(*shape.ridge_a) && affordable(*shape.ridge_a, s, steps(*grid)),
        sound(*shape.ridge_b) && affordable(*shape.ridge_b, s, steps(*grid)),
    ensures
        five_grids(*f, shape@, lattice(*grid)) == seq![r.0@, r.1@, r.2@, r.3@, r.4@],
        r.0@.len() == grid.count() && r.1@.len() == grid.count() && r.2@.len() == grid.count() && r.3@.len()
            == grid.count() && r.4@.len() == grid.count(),
{
    let mut ctx = SampleCtx::default();
    let a: Vec<u32> = shape.main.sample_volume_ctx(grid, &mut ctx, f, Ghost(s));
    let b: Vec<u32> = shape.toggle.sample_volume_ctx(grid, &mut ctx, f, Ghost(s));
    let c: Vec<u32> = shape.thickness.sample_volume_ctx(grid, &mut ctx, f, Ghost(s));
    let d: Vec<u32> = shape.ridge_a.sample_volume_ctx(grid, &mut ctx, f, Ghost(s));
    let e: Vec<u32> = shape.ridge_b.sample_volume_ctx(grid, &mut ctx, f, Ghost(s));
    (a, b, c, d, e)
}

/// Nodes that the corners of a volume's cells can be sampled on.
pub open spec fn fillable(n: Node, vol: Volume, cell_xz: i32, cell_y: i32) -> bool {
    sound(n) && affordable(n, corner_sizes(vol, cell_xz as int, cell_y as int), (cell_xz as int, cell_y as int, cell_xz as int))
}

/// How many corners the cells of a volume have.
pub open spec fn corner_sizes(vol: Volume, cell_xz: int, cell_y: int) -> (int, int, int) {
    let w = corner_lattice(lattice(vol), cell_xz, cell_y);
    (w.sx, w.sy, w.sz)
}

/// The pieces behind a reference.
pub open spec fn owned(b: Option<&Beardifier>) -> Option<Beardifier> {
    match b {
        Some(b) => Some(*b),
        None => None,
    }
}

/// A volume within bounds that fit, fits.
proof fn lemma_roomy(vol: Volume, s: (int, int, int))
    requires
        vol.wf(),
        roomy(s),
        bounded_by(vol, s),
    ensures
        vol.fits(),
{
    let (a, b, c) = (vol.size@[0] as int, vol.size@[1] as int, vol.size@[2] as int);
    assert(a * b <= s.0 * s.1 && 0 <= a * b) by (nonlinear_arith)
        requires
            0 < a <= s.0,
            0 < b <= s.1,
    ;
    assert((a * b) * c <= (s.0 * s.1) * s.2) by (nonlinear_arith)
        requires
            0 <= a * b <= s.0 * s.1,
            0 < c <= s.2,
    ;
}

impl Stage {
    fn fill<F: Fn(Ask) -> u64>(&self, aquifer: &mut Aquifer, rows_skipped: usize, f: &F) -> (r: (Vec<u32>, Vec<u8>, FillStats))
        requires
            answers(*f),
            self.wf(),
            old(aquifer).wf(*f),
            old(aquifer).waters() == self.plan@.waters,
        ensures
            final(aquifer).wf(*f),
            final(aquifer).waters() == old(aquifer).waters(),
            r.0@.len() == self.vol.count(),
            r.1@.len() == self.vol.count(),
            forall|i: int| 0 <= i < self.vol.count() ==> #[trigger] r.0@[i] == self.plan@.filled(*f, i).0,
            forall|i: int| 0 <= i < self.vol.count() ==> #[trigger] r.1@[i] == self.plan@.filled(*f, i).1,
            r.2.corner_rows_skipped == rows_skipped,
            self.plan@.checked(*f, r.2.wrong_skip, self.vol.count()),
            self.plan@.tallied(*f, r.2, self.vol.count() as nat),
            final(aquifer).meters() == self.plan@.metered(*f, self.vol.count() as nat, old(aquifer).meters()),
            old(aquifer).remembered().subset_of(final(aquifer).remembered()),
    {
        let ghost p = self.plan@;
        let ghost v = p.blocks;
        let ghost m0 = aquifer.meters();
        let mut wrong: Option<usize> = None;
        let mut density: Vec<u32> = Vec::new();
        let mut substance: Vec<u8> = Vec::new();
        let rows: usize = self.rows_below_air();
        proof {
            assert((v.sx * v.sz) * v.sy == v.sx * v.sy * v.sz) by (nonlinear_arith);
            assert(0 <= v.sx * v.sz && v.sx * v.sz <= (v.sx * v.sz) * v.sy) by (nonlinear_arith)
                requires
                    v.sx > 0,
                    v.sy >= 1,
                    v.sz > 0,
            ;
        }
        let cols: usize = self.vol.size[0] * self.vol.size[2];
        let mut col: usize = 0;
        while col < cols
            invariant
                col <= cols,
                cols == v.sx * v.sz,
                answers(*f),
                self.wf(),
                p == self.plan@,
                v == p.blocks,
                aquifer.wf(*f),
                aquifer.waters() == p.waters,
                rows <= self.vol.size@[1],
                forall|y: int|
                    0 <= y < self.vol.size@[1] ==> (#[trigger] down_div(self.vol.min@[1] + y, self.cell_y as int) - down_div(
                        self.vol.min@[1] as int, self.cell_y as int) < self.air_from <==> y < rows),
                density@.len() == col * v.sy,
                substance@.len() == col * v.sy,
                forall|i: int| 0 <= i < col * v.sy ==> #[trigger] density@[i] == p.filled(*f, i).0,
                forall|i: int| 0 <= i < col * v.sy ==> #[trigger] substance@[i] == p.filled(*f, i).1,
                p.checked(*f, wrong, col * v.sy),
                aquifer.meters() == p.metered(*f, (col * v.sy) as nat, m0),
                old(aquifer).remembered().subset_of(aquifer.remembered()),
            decreases cols - col,
        {
            let ghost (d0, s0) = (density@, substance@);
            self.fill_column(col, rows, aquifer, &mut density, &mut substance, &mut wrong, f, Ghost(m0));
            proof {
                assert forall|i: int| 0 <= i < (col + 1) * v.sy implies #[trigger] density@[i] == p.filled(*f, i).0 by {
                    if i < d0.len() {
                        assert(density@[i] == d0[i]);
                    }
                }
                assert forall|i: int| 0 <= i < (col + 1) * v.sy implies #[trigger] substance@[i] == p.filled(*f, i).1 by {
                    if i < s0.len() {
                        assert(substance@[i] == s0[i]);
                    }
                }
            }
            col += 1;
        }
        let skip: i32 = aquifer.skip_sampling_above_y(f);
        let stats: FillStats = self.count(rows, &density, skip, rows_skipped, wrong, f);
        (density, substance, stats)
    }
}

/// A run of blocks touches no more cells than it has blocks.
proof fn lemma_few_cells(m: int, s: int, c: int)
    requires
        c > 0,
        s >= 1,
    ensures
        1 <= cells_in(m, s, c) <= s,
{
    lemma_cells(m, s, c);
    let e = m + s - 1;
    vstd::arithmetic::div_mod::lemma_fundamental_div_mod(m, c);
    vstd::arithmetic::div_mod::lemma_fundamental_div_mod(e, c);
    let (a, b) = (m / c, e / c);
    assert(b - a <= s - 1) by (nonlinear_arith)
        requires
            c >= 1,
            s >= 1,
            e == m + s - 1,
            m == c * a + m % c,
            e == c * b + e % c,
            0 <= m % c < c,
            0 <= e % c < c,
    ;
}

/// What is counted of blocks.
struct Counts {
    lerped: usize,
    calls: usize,
    deep: usize,
}

impl Counts {
    spec fn are(self, t: Tally) -> bool {
        self.lerped == t.lerped && self.calls == t.calls && self.deep == t.deep
    }
}

impl Stage {
    /// Count the blocks of a column that was filled.
    #[verifier::rlimit(60)]
    fn count_column<F: Fn(Ask) -> u64>(&self, col: usize, rows: usize, density: &Vec<u32>, skip: i32, counts: &mut Counts, f: &F)
        requires
            answers(*f),
            self.wf(),
            col < self.vol.size@[0] * self.vol.size@[2],
            rows <= self.vol.size@[1],
            forall|y: int|
                0 <= y < self.vol.size@[1] ==> (#[trigger] down_div(self.vol.min@[1] + y, self.cell_y as int) - down_div(
                    self.vol.min@[1] as int, self.cell_y as int) < self.air_from <==> y < rows),
            density@.len() == self.vol.count(),
            forall|i: int| 0 <= i < self.vol.count() ==> #[trigger] density@[i] == self.plan@.filled(*f, i).0,
            skip == self.plan@.waters.skip_above,
            old(counts).are(self.plan@.tally(*f, (col * self.vol.size@[1]) as nat)),
        ensures
            final(counts).are(self.plan@.tally(*f, ((col + 1) * self.vol.size@[1]) as nat)),
    {
        let ghost p = self.plan@;
        let ghost v = p.blocks;
        let (sx, sy): (usize, usize) = (self.vol.size[0], self.vol.size[1]);
        let x: usize = col % sx;
        let z: usize = col / sx;
        let ghost start = col * v.sy;
        proof {
            vstd::arithmetic::div_mod::lemma_fundamental_div_mod(col as int, v.sx);
            assert(0 <= z && z < v.sz) by (nonlinear_arith)
                requires
                    col as int == v.sx * z + x,
                    0 <= x < v.sx,
                    0 <= col < v.sx * v.sz,
                    v.sx > 0,
                    z == col as int / v.sx,
                    0 <= z,
            ;
            lemma_cell_of(v.x, v.sx, self.cell_xz as int, x as int);
            lemma_cell_of(v.z, v.sz, self.cell_xz as int, z as int);
            lemma_few_cells(v.x, v.sx, self.cell_xz as int);
            lemma_few_cells(v.y, v.sy, self.cell_y as int);
            lemma_few_cells(v.z, v.sz, self.cell_xz as int);
            lemma_cell_of(v.y, v.sy, self.cell_y as int, v.sy - 1);
            assert(start + v.sy <= self.vol.count() && 0 <= start) by (nonlinear_arith)
                requires
                    start == col * v.sy,
                    0 <= col,
                    col + 1 <= v.sx * v.sz,
                    v.sy > 0,
                    self.vol.count() == v.sx * v.sy * v.sz,
            ;
        }
        let (x0, _) = floor_parts(self.vol.min[0] as i64, self.cell_xz as i64);
        let (z0, _) = floor_parts(self.vol.min[2] as i64, self.cell_xz as i64);
        let (y0, _) = floor_parts(self.vol.min[1] as i64, self.cell_y as i64);
        let (xc, _) = floor_parts(self.vol.min[0] as i64 + x as i64, self.cell_xz as i64);
        let (zc, _) = floor_parts(self.vol.min[2] as i64 + z as i64, self.cell_xz as i64);
        let cx: usize = (xc - x0) as usize;
        let cz: usize = (zc - z0) as usize;
        let solid: Vec<bool> = self.solid_cells(cx, cz, f);
        let mut at: usize = col * sy;
        let mut y: usize = 0;
        while y < sy
            invariant
                y <= sy,
                answers(*f),
                self.wf(),
                p == self.plan@,
                v == p.blocks,
                sy == v.sy,
                x < v.sx && z < v.sz,
                x == col as int % v.sx,
                z == col as int / v.sx,
                cx == down_div(v.x + x, self.cell_xz as int) - down_div(v.x, self.cell_xz as int),
                cz == down_div(v.z + z, self.cell_xz as int) - down_div(v.z, self.cell_xz as int),
                y0 == down_div(v.y, self.cell_y as int),
                -0x1_0000_0000_0000 <= y0 <= 0x1_0000_0000_0000,
                start == col * v.sy,
                start + v.sy <= self.vol.count(),
                0 <= start,
                rows <= sy,
                forall|k: int|
                    0 <= k < sy ==> (#[trigger] down_div(self.vol.min@[1] + k, self.cell_y as int) - down_div(
                        self.vol.min@[1] as int, self.cell_y as int) < self.air_from <==> k < rows),
                solid@.len() == self.air_from,
                forall|cy: int| 0 <= cy < self.air_from ==> #[trigger] solid@[cy] == p.solid(*f, cx as int, cy, cz as int),
                density@.len() == self.vol.count(),
                forall|i: int| 0 <= i < self.vol.count() ==> #[trigger] density@[i] == p.filled(*f, i).0,
                skip == p.waters.skip_above,
                at == start + y,
                counts.are(p.tally(*f, at as nat)),
            decreases sy - y,
        {
            let ghost i = start + y;
            proof {
                p.lemma_tally(*f, at as nat);
                p.lemma_tally_step(*f, at as int);
                lemma_cell_of(v.y, v.sy, self.cell_y as int, y as int);
                lemma_near(v.y, y as int, self.cell_y as int);
                assert(col * v.sy == v.sy * col) by (nonlinear_arith);
                vstd::arithmetic::div_mod::lemma_fundamental_div_mod_converse(i, v.sy, col as int, y as int);
                assert(v.ix(i) == x && v.iy(i) == y && v.iz(i) == z);
            }
            let by: i32 = block_along(self.vol.min[1], y, 1);
            let (yc, _) = floor_parts(self.vol.min[1] as i64 + y as i64, self.cell_y as i64);
            let cy: usize = (yc - y0) as usize;
            proof {
                assert(p.cell(i) == (cx as int, cy as int, cz as int));
                assert(by == v.at_y(i));
                assert(density@[i] == p.filled(*f, i).0);
            }
            if y >= rows {
                counts.calls = counts.calls + 1;
            } else if !(self.skip_solid && solid[cy]) {
                counts.lerped = counts.lerped + 1;
                if f(Ask::Less32(0, density[at])) == 0 {
                    counts.calls = counts.calls + 1;
                    if by <= skip {
                        counts.deep = counts.deep + 1;
                    }
                }
            }
            at += 1;
            y += 1;
        }
        proof {
            assert((col + 1) * v.sy == start + v.sy) by (nonlinear_arith)
                requires
                    start == col * v.sy,
            ;
        }
    }

    /// Count the cells of a cell column that are skipped as solid.
    fn count_solid<F: Fn(Ask) -> u64>(&self, cx: usize, cz: usize, f: &F) -> (r: usize)
        requires
            answers(*f),
            self.wf(),
            cx < cells_in(self.plan@.blocks.x, self.plan@.blocks.sx, self.cell_xz as int),
            cz < cells_in(self.plan@.blocks.z, self.plan@.blocks.sz, self.cell_xz as int),
        ensures
            r == self.plan@.skipped_in(*f, cx as int, cz as int, self.air_from as nat),
    {
        let ghost p = self.plan@;
        let ghost v = p.blocks;
        if !self.skip_solid {
            proof { lemma_none_skipped(p, *f, cx as int, cz as int, self.air_from as nat); }
            return 0;
        }
        proof {
            lemma_cell_of(v.x, v.sx, self.cell_xz as int, v.sx - 1);
            lemma_cell_of(v.z, v.sz, self.cell_xz as int, v.sz - 1);
            lemma_few_cells(v.x, v.sx, self.cell_xz as int);
            lemma_few_cells(v.y, v.sy, self.cell_y as int);
            lemma_few_cells(v.z, v.sz, self.cell_xz as int);
            lemma_cell_of(v.y, v.sy, self.cell_y as int, v.sy - 1);
        }
        let solid: Vec<bool> = self.solid_cells(cx, cz, f);
        let mut r: usize = 0;
        let mut k: usize = 0;
        while k < solid.len()
            invariant
                k <= solid@.len(),
                r <= k,
                self.wf(),
                p == self.plan@,
                self.skip_solid,
                solid@.len() == self.air_from,
                forall|cy: int| 0 <= cy < self.air_from ==> #[trigger] solid@[cy] == p.solid(*f, cx as int, cy, cz as int),
                r == p.skipped_in(*f, cx as int, cz as int, k as nat),
            decreases solid.len() - k,
        {
            if solid[k] {
                r += 1;
            }
            k += 1;
        }
        r
    }

    /// Count what a fill did.
    fn count<F: Fn(Ask) -> u64>(
        &self, rows: usize, density: &Vec<u32>, skip: i32, corner_rows_skipped: usize, wrong_skip: Option<usize>, f: &F,
    ) -> (r: FillStats)
        requires
            answers(*f),
            self.wf(),
            rows <= self.vol.size@[1],
            forall|y: int|
                0 <= y < self.vol.size@[1] ==> (#[trigger] down_div(self.vol.min@[1] + y, self.cell_y as int) - down_div(
                    self.vol.min@[1] as int, self.cell_y as int) < self.air_from <==> y < rows),
            density@.len() == self.vol.count(),
            forall|i: int| 0 <= i < self.vol.count() ==> #[trigger] density@[i] == self.plan@.filled(*f, i).0,
            skip == self.plan@.waters.skip_above,
        ensures
            self.plan@.tallied(*f, r, self.vol.count() as nat),
            r.corner_rows_skipped == corner_rows_skipped,
            r.wrong_skip == wrong_skip,
    {
        let ghost p = self.plan@;
        let ghost v = p.blocks;
        let ghost (nx, ny, nz) = p.cells();
        proof {
            assert((v.sx * v.sz) * v.sy == v.sx * v.sy * v.sz) by (nonlinear_arith);
            assert(0 <= v.sx * v.sz && v.sx * v.sz <= (v.sx * v.sz) * v.sy) by (nonlinear_arith)
                requires
                    v.sx > 0,
                    v.sy >= 1,
                    v.sz > 0,
            ;
            lemma_few_cells(v.x, v.sx, self.cell_xz as int);
            lemma_few_cells(v.y, v.sy, self.cell_y as int);
            lemma_few_cells(v.z, v.sz, self.cell_xz as int);
            assert(0 < nx * nz && nx * nz <= v.sx * v.sz) by (nonlinear_arith)
                requires
                    1 <= nx <= v.sx,
                    1 <= nz <= v.sz,
            ;
            assert(0 <= (nx * nz) * ny && (nx * nz) * ny <= (v.sx * v.sz) * v.sy) by (nonlinear_arith)
                requires
                    0 <= nx * nz <= v.sx * v.sz,
                    1 <= ny <= v.sy,
            ;
            assert(0 <= (nx * nz) * (ny - self.air_from) && (nx * nz) * (ny - self.air_from) <= (nx * nz) * ny && (nx * nz)
                * self.air_from <= (nx * nz) * ny) by (nonlinear_arith)
                requires
                    0 <= nx * nz,
                    0 <= self.air_from <= ny,
            ;
        }
        let mut counts = Counts { lerped: 0, calls: 0, deep: 0 };
        proof {
            reveal(Plan::tally);
            assert(0 * self.vol.size@[1] == 0);
        }
        let cols: usize = self.vol.size[0] * self.vol.size[2];
        let mut col: usize = 0;
        while col < cols
            invariant
                col <= cols,
                cols == self.vol.size@[0] * self.vol.size@[2],
                answers(*f),
                self.wf(),
                p == self.plan@,
                rows <= self.vol.size@[1],
                forall|y: int|
                    0 <= y < self.vol.size@[1] ==> (#[trigger] down_div(self.vol.min@[1] + y, self.cell_y as int) - down_div(
                        self.vol.min@[1] as int, self.cell_y as int) < self.air_from <==> y < rows),
                density@.len() == self.vol.count(),
                forall|i: int| 0 <= i < self.vol.count() ==> #[trigger] density@[i] == p.filled(*f, i).0,
                skip == p.waters.skip_above,
                counts.are(p.tally(*f, (col * self.vol.size@[1]) as nat)),
            decreases cols - col,
        {
            self.count_column(col, rows, density, skip, &mut counts, f);
            col += 1;
        }
        let across: usize = cell_count(self.vol.min[0], self.vol.size[0], self.cell_xz);
        let up: usize = cell_count(self.vol.min[1], self.vol.size[1], self.cell_y);
        let deep: usize = cell_count(self.vol.min[2], self.vol.size[2], self.cell_xz);
        let all: usize = across * deep;
        let mut skipped: usize = 0;
        let mut k: usize = 0;
        while k < all
            invariant
                k <= all,
                all == nx * nz,
                (nx, ny, nz) == p.cells(),
                deep == nz,
                nz >= 1,
                answers(*f),
                self.wf(),
                p == self.plan@,
                v == p.blocks,
                0 <= (nx * nz) * self.air_from <= usize::MAX,
                skipped == p.skipped(*f, k as nat),
            decreases all - k,
        {
            let cx: usize = k / deep;
            let cz: usize = k % deep;
            proof {
                vstd::arithmetic::div_mod::lemma_fundamental_div_mod(k as int, nz);
                assert(cx < nx) by (nonlinear_arith)
                    requires
                        k as int == nz * cx + cz,
                        0 <= cz,
                        k < nx * nz,
                        nz >= 1,
                ;
                p.lemma_skipped(*f, (k + 1) as nat);
                assert((k + 1) * self.air_from <= (nx * nz) * self.air_from) by (nonlinear_arith)
                    requires
                        k + 1 <= nx * nz,
                        self.air_from >= 0,
                ;
            }
            skipped = skipped + self.count_solid(cx, cz, f);
            k += 1;
        }
        FillStats {
            cells: all * up,
            solid_cells_skipped: skipped,
            air_cells_skipped: all * (up - self.air_from),
            corner_rows_skipped,
            blocks_lerped: counts.lerped,
            aquifer_calls: counts.calls,
            aquifer_deep_calls: counts.deep,
            wrong_skip,
        }
    }
}

proof fn lemma_none_skipped<F: Fn(Ask) -> u64>(p: Plan, f: F, cx: int, cz: int, n: nat)
    requires
        !p.skip_solid,
    ensures
        p.skipped_in(f, cx, cz, n) == 0,
    decreases n,
{
    if n > 0 {
        lemma_none_skipped(p, f, cx, cz, (n - 1) as nat);
    }
}

/// How many cells a run of blocks touches.
fn cell_count(min: i32, size: usize, cell: i32) -> (r: usize)
    requires
        cell > 0,
        1 <= size <= 0x1_0000_0000,
    ensures
        r == cells_in(min as int, size as int, cell as int),
{
    let (first, _) = floor_parts(min as i64, cell as i64);
    let (last, _) = floor_parts(min as i64 + size as i64 - 1, cell as i64);
    proof { lemma_few_cells(min as int, size as int, cell as int); }
    (last - first + 1) as usize
}

} // verus!
