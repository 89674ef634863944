//! Far-view mesh from column records: coarse cells by scale, one top quad
//! per run of equal cells along x, side quads where a neighbouring cell is
//! lower. Output is a flat vertex stream in the game's position-colour
//! layout, four vertices per quad in the game's quad order (the caller
//! draws with the shared sequential quad index buffer), `VERTEX_BYTES`
//! each.

use vstd::prelude::*;
use crate::arith::{answers, holds, low, reply, Ask, HALF_32, ONE_32};
use crate::bytes::{le, push_le};
use crate::lod26::{CoarseLod, ColumnLod, RecordRef};
use crate::lodclient::{Client, ClientStore};
use crate::volume::floor_div;

verus! {

/// Bytes per vertex: x, y, z as singles (x and z relative to the mesh
/// origin, y absolute), then r g b a.
pub const VERTEX_BYTES: usize = 16;

/// Colour scale of tops, x sides and z sides, the game's own shading.
pub const SHADE_TOP: u32 = 255;

pub const SHADE_X: u32 = 153;

pub const SHADE_Z: u32 = 204;

/// Blocks a skirt drops below the chunk's lowest cell.
pub const SKIRT_DEPTH: i16 = 8;

/// Mesh tops sit this far under the block face, an eighth of a block, so a
/// real chunk drawn at the same place always covers them.
pub const UNDER: u32 = 0x3E00_0000;

/// Three, four, fifteen and two hundred and fifty-five as singles.
pub const THREE_32: u32 = 0x4040_0000;

pub const FOUR_32: u32 = 0x4080_0000;

pub const FIFTEEN_32: u32 = 0x4170_0000;

pub const FULL_32: u32 = 0x437F_0000;

/// Neighbour records with the scale they are drawn at, in the order -x, +x,
/// -z, +z; a missing one gets a skirt wall.
pub type Neighbours<'a> = [Option<(RecordRef<'a>, usize)>; 4];

/// A colour: red, green, blue, alpha.
pub type Colour = (u8, u8, u8, u8);

/// A point in blocks.
pub type Corner = (i16, i16, i16);

/// Colours the mesh draws with: one per palette id (r g b a), and for water
/// one per biome (the surface tinted for that biome, alpha the texture's)
/// used when the top block is `water`.
#[derive(Clone, Copy)]
pub struct Palette<'a> {
    pub colours: &'a [[u8; 4]],
    pub water: u16,
    pub water_by_biome: &'a [[u8; 4]],
}

impl<'a> Palette<'a> {
    /// Colours by palette id alone.
    pub fn plain(colours: &'a [[u8; 4]]) -> (r: Palette<'a>)
        ensures
            r.colours@ == colours@,
            r.water == u16::MAX,
            r.water_by_biome@.len() == 0,
    {
        Palette { colours, water: u16::MAX, water_by_biome: vstd::slice::slice_subrange(colours, 0, 0) }
    }
}

/// Lowest and highest y written so far, kept next to the vertex stream.
#[derive(Clone, Copy, Debug)]
pub struct Bounds {
    pub min_y: i16,
    pub max_y: i16,
}

impl Bounds {
    /// The bounds of nothing.
    pub fn empty() -> (r: Bounds)
        ensures
            r == nowhere(),
    {
        Bounds { min_y: i16::MAX, max_y: i16::MIN }
    }

    pub open spec fn taken(self, y: i16) -> Bounds {
        Bounds {
            min_y: if y < self.min_y { y } else { self.min_y },
            max_y: if y > self.max_y { y } else { self.max_y },
        }
    }

    fn take(&mut self, y: i16)
        ensures
            *final(self) == old(self).taken(y),
    {
        if y < self.min_y {
            self.min_y = y;
        }
        if y > self.max_y {
            self.max_y = y;
        }
    }
}

/// The bounds of nothing.
pub open spec fn nowhere() -> Bounds {
    Bounds { min_y: i16::MAX, max_y: i16::MIN }
}

/// A cell of a chunk as it is drawn.
#[derive(Clone, Copy, Debug)]
pub struct Cell {
    pub height: i16,
    pub colour: Colour,
}

fn same_cell(a: Cell, b: Cell) -> (r: bool)
    ensures
        r == (a == b),
{
    a.height == b.height && a.colour.0 == b.colour.0 && a.colour.1 == b.colour.1 && a.colour.2 == b.colour.2 && a.colour.3
        == b.colour.3
}

/// A chunk as n x n cells of 16 / n blocks, `x + z * n`.
struct Grid {
    n: usize,
    cells: Vec<Cell>,
}

/// The cells of a chunk.
pub ghost struct Cells {
    pub n: int,
    pub cells: Seq<Cell>,
}

impl Cells {
    pub open spec fn at(self, x: int, z: int) -> Cell {
        self.cells[x + z * self.n]
    }
}

/// The columns of a record, `x + z * side`.
pub ghost struct Columns {
    pub side: int,
    pub height: Seq<i16>,
    pub top: Seq<u16>,
    pub depth: Seq<u8>,
    pub floor: Seq<u16>,
    pub biome: Seq<u16>,
}

/// The columns of a full record.
pub open spec fn full_columns(r: ColumnLod) -> Columns {
    Columns { side: 16, height: r.height@, top: r.top@, depth: r.depth@, floor: r.floor@, biome: r.biome@ }
}

/// The cells of a coarse record.
pub open spec fn coarse_columns(r: CoarseLod) -> Columns {
    Columns { side: 4, height: r.height@, top: r.top@, depth: r.depth@, floor: r.floor@, biome: r.biome@ }
}

/// The columns of a record, whichever it is.
pub open spec fn columns(r: RecordRef) -> Columns {
    match r {
        RecordRef::Full(v) => full_columns(*v),
        RecordRef::Coarse(v) => coarse_columns(*v),
    }
}

/// The scales there are, in blocks per cell.
pub open spec fn is_scale(s: int) -> bool {
    s == 1 || s == 2 || s == 4 || s == 8 || s == 16
}

/// Cells along a side of a chunk at a scale; a coarse record never gets
/// finer than its own cells.
pub open spec fn cells_along(side: int, scale: int) -> int {
    if 16int / scale < side { 16int / scale } else { side }
}

/// A palette colour; magenta beyond the palette.
pub open spec fn palette_colour(colours: Seq<[u8; 4]>, id: u16) -> Colour {
    if id < colours.len() {
        let c = colours[id as int]@;
        (c[0], c[1], c[2], c[3])
    } else {
        (255, 0, 255, 255)
    }
}

fn colour_of(colours: &[[u8; 4]], id: u16) -> (r: Colour)
    ensures
        r == palette_colour(colours@, id),
{
    if (id as usize) < colours.len() {
        let c: [u8; 4] = colours[id as usize];
        (c[0], c[1], c[2], c[3])
    } else {
        (255, 0, 255, 255)
    }
}

/// The colour of a column's top: for water its biome's, where there is one.
pub open spec fn surface_colour(p: Palette, top: u16, biome: u16) -> Colour {
    if top == p.water && biome < p.water_by_biome@.len() {
        palette_colour(p.water_by_biome@, biome)
    } else {
        palette_colour(p.colours@, top)
    }
}

/// The light left at the floor under `depth` blocks of water (one level
/// per block), through the lightmap's curve at the default brightness:
/// half of `c` and half of `1 - (1 - c)^4`, with `c = l / (4 - 3 l)`.
pub open spec fn floor_light<F: Fn(Ask) -> u64>(f: F, depth: u8) -> u32 {
    let level = if depth < 15 { 15 - depth } else { 0 };
    let light = low(f, Ask::Div32(low(f, Ask::FromInt32(level as i32)), FIFTEEN_32));
    let curved = low(f, Ask::Div32(light, low(f, Ask::Sub32(FOUR_32, low(f, Ask::Mul32(THREE_32, light))))));
    let bright = low(f, Ask::Sub32(ONE_32, low(f, Ask::Powi32(low(f, Ask::Sub32(ONE_32, curved)), 4))));
    low(f, Ask::Add32(low(f, Ask::Mul32(HALF_32, curved)), low(f, Ask::Mul32(HALF_32, bright))))
}

/// A surface value blended over a lit floor value at opacity `a`.
pub open spec fn blended<F: Fn(Ask) -> u64>(f: F, water: u8, floor: u8, a: u32, lit: u32) -> u8 {
    let over = low(f, Ask::Mul32(low(f, Ask::FromInt32(water as i32)), a));
    let under = low(
        f,
        Ask::Mul32(low(f, Ask::Mul32(low(f, Ask::FromInt32(floor as i32)), lit)), low(f, Ask::Sub32(ONE_32, a))),
    );
    let v = low(f, Ask::Round32(low(f, Ask::Add32(over, under))));
    let w = if holds(f, Ask::Less32(v, 0)) {
        0
    } else if holds(f, Ask::Less32(FULL_32, v)) {
        FULL_32
    } else {
        v
    };
    reply(f, Ask::ToByte32(w)) as u8
}

/// A column's colour: its top block, or for water the surface blended over
/// the lit floor.
pub open spec fn column_colour<F: Fn(Ask) -> u64>(f: F, p: Palette, top: u16, depth: u8, floor: u16, biome: u16) -> Colour {
    let water = surface_colour(p, top, biome);
    if depth == 0 {
        (water.0, water.1, water.2, 255)
    } else {
        let ground = palette_colour(p.colours@, floor);
        let lit = floor_light(f, depth);
        let a = low(f, Ask::Div32(low(f, Ask::FromInt32(water.3 as i32)), FULL_32));
        (blended(f, water.0, ground.0, a, lit), blended(f, water.1, ground.1, a, lit), blended(f, water.2, ground.2, a, lit), 255)
    }
}

fn blend<F: Fn(Ask) -> u64>(f: &F, water: u8, floor: u8, a: u32, lit: u32) -> (r: u8)
    requires
        answers(*f),
    ensures
        r == blended(*f, water, floor, a, lit),
{
    let w: u32 = f(Ask::FromInt32(water as i32)) as u32;
    let over: u32 = f(Ask::Mul32(w, a)) as u32;
    let g: u32 = f(Ask::FromInt32(floor as i32)) as u32;
    let g: u32 = f(Ask::Mul32(g, lit)) as u32;
    let rest: u32 = f(Ask::Sub32(ONE_32, a)) as u32;
    let under: u32 = f(Ask::Mul32(g, rest)) as u32;
    let sum: u32 = f(Ask::Add32(over, under)) as u32;
    let v: u32 = f(Ask::Round32(sum)) as u32;
    let v: u32 = if f(Ask::Less32(v, 0)) != 0 {
        0
    } else if f(Ask::Less32(FULL_32, v)) != 0 {
        FULL_32
    } else {
        v
    };
    f(Ask::ToByte32(v)) as u8
}

/// A column's colour.
pub fn cell_colour<F: Fn(Ask) -> u64>(palette: &Palette, top: u16, depth: u8, floor: u16, biome: u16, f: &F) -> (r: Colour)
    requires
        answers(*f),
    ensures
        r == column_colour(*f, *palette, top, depth, floor, biome),
{
    let water: Colour = if top == palette.water && (biome as usize) < palette.water_by_biome.len() {
        colour_of(palette.water_by_biome, biome)
    } else {
        colour_of(palette.colours, top)
    };
    if depth == 0 {
        return (water.0, water.1, water.2, 255);
    }
    let ground: Colour = colour_of(palette.colours, floor);
    let level: u8 = if depth < 15 { 15 - depth } else { 0 };
    let light: u32 = f(Ask::FromInt32(level as i32)) as u32;
    let light: u32 = f(Ask::Div32(light, FIFTEEN_32)) as u32;
    let down: u32 = f(Ask::Mul32(THREE_32, light)) as u32;
    let down: u32 = f(Ask::Sub32(FOUR_32, down)) as u32;
    let curved: u32 = f(Ask::Div32(light, down)) as u32;
    let dark: u32 = f(Ask::Sub32(ONE_32, curved)) as u32;
    let dark: u32 = f(Ask::Powi32(dark, 4)) as u32;
    let bright: u32 = f(Ask::Sub32(ONE_32, dark)) as u32;
    let half: u32 = f(Ask::Mul32(HALF_32, curved)) as u32;
    let other: u32 = f(Ask::Mul32(HALF_32, bright)) as u32;
    let lit: u32 = f(Ask::Add32(half, other)) as u32;
    let a: u32 = f(Ask::FromInt32(water.3 as i32)) as u32;
    let a: u32 = f(Ask::Div32(a, FULL_32)) as u32;
    (blend(f, water.0, ground.0, a, lit), blend(f, water.1, ground.1, a, lit), blend(f, water.2, ground.2, a, lit), 255)
}

/// The cell of a column.
pub open spec fn cell_index(side: int, n: int, c: int) -> int {
    (c % side) / (side / n) + ((c / side) / (side / n)) * n
}

/// A cell after the first `k` columns: the tallest column in it, the first
/// of equals.
pub open spec fn drawn_cell<F: Fn(Ask) -> u64>(f: F, p: Palette, cols: Columns, n: int, cell: int, k: nat) -> Cell
    decreases k,
{
    if k == 0 {
        Cell { height: i16::MIN, colour: (0, 0, 0, 0) }
    } else {
        let before = drawn_cell(f, p, cols, n, cell, (k - 1) as nat);
        let c = k - 1;
        if cell_index(cols.side, n, c) == cell && cols.height[c] > before.height {
            Cell {
                height: cols.height[c],
                colour: column_colour(f, p, cols.top[c], cols.depth[c], cols.floor[c], cols.biome[c]),
            }
        } else {
            before
        }
    }
}

/// A chunk as it is drawn at a scale.
pub open spec fn drawn<F: Fn(Ask) -> u64>(f: F, p: Palette, cols: Columns, scale: int) -> Cells {
    let n = cells_along(cols.side, scale);
    Cells {
        n,
        cells: Seq::new((n * n) as nat, |i: int| drawn_cell(f, p, cols, n, i, (cols.side * cols.side) as nat)),
    }
}

/// The height, top, depth, floor and biome of a record's column.
fn column_at(rec: &RecordRef, c: usize) -> (r: (i16, u16, u8, u16, u16))
    requires
        c < columns(*rec).side * columns(*rec).side,
    ensures
        ({
            let cols = columns(*rec);
            r == (
                cols.height[c as int],
                cols.top[c as int],
                cols.depth[c as int],
                cols.floor[c as int],
                cols.biome[c as int],
            )
        }),
{
    proof {
        let side = columns(*rec).side;
        if side == 16 {
            assert(side * side == 256) by (nonlinear_arith)
                requires
                    side == 16,
            ;
        } else {
            assert(side * side == 16) by (nonlinear_arith)
                requires
                    side == 4,
            ;
        }
    }
    match rec {
        RecordRef::Full(v) => (v.height[c], v.top[c], v.depth[c], v.floor[c], v.biome[c]),
        RecordRef::Coarse(v) => (v.height[c], v.top[c], v.depth[c], v.floor[c], v.biome[c]),
    }
}

fn side_of(rec: &RecordRef) -> (r: usize)
    ensures
        r == columns(*rec).side,
        r == 4 || r == 16,
{
    match rec {
        RecordRef::Full(_) => 16,
        RecordRef::Coarse(_) => 4,
    }
}

proof fn lemma_divides(side: int, n: int)
    requires
        side == 4 || side == 16,
        is_scale(n),
        n <= side,
    ensures
        side / n >= 1,
        n * (side / n) == side,
        (side / n) * n == side,
{
    if n == 1 {
        assert(side / 1 == side);
    } else if n == 2 {
        assert(2 * (side / 2) == side);
    } else if n == 4 {
        assert(4 * (side / 4) == side);
    } else if n == 8 {
        assert(8 * (side / 8) == side);
    } else {
        assert(16 * (side / 16) == side);
    }
}

fn count_along(side: usize, scale: usize) -> (n: usize)
    requires
        side == 4 || side == 16,
        is_scale(scale as int),
    ensures
        n == cells_along(side as int, scale as int),
        is_scale(n as int),
        n <= side,
        1 <= side as int / n as int,
{
    let n: usize = 16 / scale;
    let n: usize = if n < side { n } else { side };
    proof { lemma_divides(side as int, n as int); }
    n
}

proof fn lemma_cell_in_range(side: int, n: int, c: int)
    requires
        side == 4 || side == 16,
        is_scale(n),
        n <= side,
        0 <= c < side * side,
    ensures
        0 <= cell_index(side, n, c) < n * n,
{
    let per = side / n;
    let a = (c % side) / per;
    let b = (c / side) / per;
    assert(0 <= c % side < side);
    assert(0 <= c / side < side) by {
        if side == 4 {
            assert(c / 4 < 4);
        } else {
            assert(c / 16 < 16);
        }
    }
    lemma_divides(side, n);
    assert(0 <= a < n && 0 <= b < n) by (nonlinear_arith)
        requires
            a == (c % side) / per,
            b == (c / side) / per,
            0 <= c % side < side,
            0 <= c / side < side,
            per >= 1,
            n * per == side,
    ;
    assert(a + b * n < n * n) by (nonlinear_arith)
        requires
            0 <= a < n,
            0 <= b < n,
    ;
    assert(0 <= b * n) by (nonlinear_arith)
        requires
            0 <= b,
            0 <= n,
    ;
}

/// The tallest column per cell of a record at `scale` blocks per cell.
fn grid<F: Fn(Ask) -> u64>(rec: &RecordRef, scale: usize, palette: &Palette, f: &F) -> (r: Grid)
    requires
        answers(*f),
        is_scale(scale as int),
    ensures
        ({
            let want = drawn(*f, *palette, columns(*rec), scale as int);
            r.n == want.n && r.cells@ == want.cells
        }),
        is_scale(r.n as int),
        r.n <= 16,
        r.cells@.len() == r.n * r.n,
{
    let side: usize = side_of(rec);
    let n: usize = count_along(side, scale);
    let ghost cols = columns(*rec);
    let per: usize = side / n;
    let mut cells: Vec<Cell> = Vec::new();
    proof {
        assert(0 < n * n <= 256) by (nonlinear_arith)
            requires
                1 <= n <= 16,
        ;
        assert(0 < side * side <= 256) by (nonlinear_arith)
            requires
                1 <= side <= 16,
        ;
    }
    let total: usize = n * n;
    while cells.len() < total
        invariant
            cells@.len() <= total,
            forall|i: int| 0 <= i < cells@.len() ==> #[trigger] cells@[i] == drawn_cell(*f, *palette, cols, n as int, i, 0),
        decreases total - cells.len(),
    {
        cells.push(Cell { height: i16::MIN, colour: (0, 0, 0, 0) });
    }
    let columns_total: usize = side * side;
    let mut c: usize = 0;
    while c < columns_total
        invariant
            answers(*f),
            c <= columns_total,
            columns_total == side * side,
            total == n * n,
            side == 4 || side == 16,
            is_scale(n as int),
            n <= side,
            per == side / n,
            per >= 1,
            cols == columns(*rec),
            side == cols.side,
            cells@.len() == total,
            forall|i: int|
                0 <= i < total ==> #[trigger] cells@[i] == drawn_cell(*f, *palette, cols, n as int, i, c as nat),
        decreases columns_total - c,
    {
        proof { lemma_cell_in_range(side as int, n as int, c as int); }
        let i: usize = (c % side) / per + ((c / side) / per) * n;
        let (height, top, depth, floor, biome) = column_at(rec, c);
        let ghost before = cells@;
        if height > cells[i].height {
            let cell = Cell { height, colour: cell_colour(palette, top, depth, floor, biome, f) };
            cells.set(i, cell);
        }
        proof {
            assert forall|j: int| 0 <= j < total implies #[trigger] cells@[j] == drawn_cell(
                *f, *palette, cols, n as int, j, (c + 1) as nat) by {
                assert(before[j] == drawn_cell(*f, *palette, cols, n as int, j, c as nat));
            }
        }
        c += 1;
    }
    proof { assert(cells@ =~= drawn(*f, *palette, cols, scale as int).cells); }
    Grid { n, cells }
}

/// Where the `m`-th column of an edge cell lies: `along` the edge, and as
/// deep as a cell is wide.
pub open spec fn edge_column(side: int, per: int, dir: int, i: int, m: int) -> int {
    let a = i * per + m / per;
    let j = m % per;
    let d = if dir % 2 == 0 { side - 1 - j } else { j };
    if dir < 2 { d + a * side } else { a + d * side }
}

/// The tallest of the first `m` columns of a neighbour's edge cell.
pub open spec fn edge_tallest(cols: Columns, per: int, dir: int, i: int, m: nat) -> i16
    decreases m,
{
    if m == 0 {
        i16::MIN
    } else {
        let before = edge_tallest(cols, per, dir, i, (m - 1) as nat);
        let h = cols.height[edge_column(cols.side, per, dir, i, m - 1)];
        if h > before { h } else { before }
    }
}

/// Two cells of an edge share some blocks: cell `i` of `g` and cell `k` of
/// `n`.
pub open spec fn overlap(i: int, g: int, k: int, n: int) -> bool {
    i * (16int / g) < (k + 1) * (16int / n) && k * (16int / n) < (i + 1) * (16int / g)
}

/// The lowest of a neighbour's first `m` edge cells across one of ours.
pub open spec fn edge_lowest(cols: Columns, g: int, dir: int, n: int, k: int, m: nat) -> i16
    decreases m,
{
    if m == 0 {
        i16::MAX
    } else {
        let before = edge_lowest(cols, g, dir, n, k, (m - 1) as nat);
        let per = cols.side / g;
        let h = edge_tallest(cols, per, dir, m - 1, (per * per) as nat);
        if overlap(m - 1, g, k, n) && h < before { h } else { before }
    }
}

/// The heights that a neighbour's edge shows to our `n` cells: the lowest
/// drawn cell across each of ours.
pub open spec fn edge_of(cols: Columns, scale: int, dir: int, n: int) -> Seq<i16> {
    let g = cells_along(cols.side, scale);
    Seq::new(n as nat, |k: int| edge_lowest(cols, g, dir, n, k, g as nat))
}

proof fn lemma_edge_column(side: int, g: int, per: int, dir: int, i: int, m: int)
    requires
        side == 4 || side == 16,
        is_scale(g),
        g <= side,
        per == side / g,
        0 <= i < g,
        0 <= m < per * per,
        0 <= dir < 4,
    ensures
        0 <= m / per < per,
        0 <= i * per + m / per < side,
        0 <= edge_column(side, per, dir, i, m) < side * side,
{
    lemma_divides(side, g);
    assert(0 <= m / per < per) by (nonlinear_arith)
        requires
            0 <= m < per * per,
            per >= 1,
    ;
    assert(0 <= m % per < per);
    let a = i * per + m / per;
    assert(0 <= a < side) by (nonlinear_arith)
        requires
            a == i * per + m / per,
            0 <= m / per < per,
            0 <= i < g,
            per * g == side,
    ;
    let d = if dir % 2 == 0 { side - 1 - m % per } else { m % per };
    assert(per <= side) by (nonlinear_arith)
        requires
            per * g == side,
            g >= 1,
            per >= 0,
    ;
    assert(0 <= d < side);
    if side == 4 {
        assert(0 <= d + a * 4 < 16 && 0 <= a + d * 4 < 16);
    } else {
        assert(0 <= d + a * 16 < 256 && 0 <= a + d * 16 < 256);
    }
}

/// The tallest column of one of a neighbour's edge cells.
fn edge_cell(rec: &RecordRef, g: usize, dir: usize, i: usize) -> (r: i16)
    requires
        is_scale(g as int),
        g <= columns(*rec).side,
        dir < 4,
        i < g,
    ensures
        ({
            let per = columns(*rec).side / g as int;
            r == edge_tallest(columns(*rec), per, dir as int, i as int, (per * per) as nat)
        }),
{
    let side: usize = side_of(rec);
    let ghost cols = columns(*rec);
    let per: usize = side / g;
    let mut r: i16 = i16::MIN;
    let mut m: usize = 0;
    proof {
        assert(1 <= per <= 16);
        assert(0 < per * per <= 256) by (nonlinear_arith)
            requires
                1 <= per <= 16,
        ;
    }
    let total: usize = per * per;
    while m < total
        invariant
            m <= total,
            total == per * per,
            1 <= per <= 16,
            per == side / g,
            side == 4 || side == 16,
            cols == columns(*rec),
            side == cols.side,
            is_scale(g as int),
            g <= side,
            dir < 4,
            i < g,
            r == edge_tallest(cols, per as int, dir as int, i as int, m as nat),
        decreases total - m,
    {
        proof { lemma_edge_column(side as int, g as int, per as int, dir as int, i as int, m as int); }
        proof {
            assert(0 <= i * per <= i * per + m / per);
            assert(0 <= i * per) by (nonlinear_arith)
                requires
                    0 <= i,
                    0 <= per,
            ;
        }
        let a: usize = i * per + m / per;
        let j: usize = m % per;
        let d: usize = if dir % 2 == 0 { side - 1 - j } else { j };
        proof {
            assert(a * side <= 256 && d * side <= 256) by {
                if side == 4 {
                    assert(a * 4 <= 256 && d * 4 <= 256);
                } else {
                    assert(a * 16 <= 256 && d * 16 <= 256);
                }
            }
        }
        let c: usize = if dir < 2 { d + a * side } else { a + d * side };
        let (h, _, _, _, _) = column_at(rec, c);
        if h > r {
            r = h;
        }
        m += 1;
    }
    r
}

/// Heights of the cells a neighbour draws along the edge facing us,
/// resampled to our `n` cells: the lowest drawn cell across each of ours,
/// so a wall down to it never leaves a gap whatever scale the neighbour is
/// drawn at.
fn edge(rec: &RecordRef, their_scale: usize, dir: usize, n: usize) -> (out: Vec<i16>)
    requires
        is_scale(their_scale as int),
        is_scale(n as int),
        dir < 4,
    ensures
        out@ == edge_of(columns(*rec), their_scale as int, dir as int, n as int),
{
    let side: usize = side_of(rec);
    let g: usize = count_along(side, their_scale);
    let ghost cols = columns(*rec);
    let ghost per = cols.side / g as int;
    let mut theirs: Vec<i16> = Vec::new();
    while theirs.len() < g
        invariant
            cols == columns(*rec),
            side == cols.side,
            per == cols.side / g as int,
            is_scale(g as int),
            g <= side,
            dir < 4,
            theirs@.len() <= g,
            forall|i: int|
                0 <= i < theirs@.len() ==> #[trigger] theirs@[i] == edge_tallest(
                    cols, per, dir as int, i, (per * per) as nat),
        decreases g - theirs.len(),
    {
        theirs.push(edge_cell(rec, g, dir, theirs.len()));
    }
    let cell: usize = 16 / g;
    let size: usize = 16 / n;
    let mut out: Vec<i16> = Vec::new();
    while out.len() < n
        invariant
            cols == columns(*rec),
            per == cols.side / g as int,
            is_scale(g as int),
            is_scale(n as int),
            cell == 16int / g as int,
            size == 16int / n as int,
            theirs@.len() == g,
            forall|i: int|
                0 <= i < g ==> #[trigger] theirs@[i] == edge_tallest(cols, per, dir as int, i, (per * per) as nat),
            out@.len() <= n,
            forall|k: int|
                0 <= k < out@.len() ==> #[trigger] out@[k] == edge_lowest(cols, g as int, dir as int, n as int, k, g as nat),
        decreases n - out.len(),
    {
        let k: usize = out.len();
        let mut lowest: i16 = i16::MAX;
        let mut i: usize = 0;
        while i < g
            invariant
                per == cols.side / g as int,
                is_scale(g as int),
                is_scale(n as int),
                cell == 16int / g as int,
                size == 16int / n as int,
                theirs@.len() == g,
                forall|i: int|
                    0 <= i < g ==> #[trigger] theirs@[i] == edge_tallest(cols, per, dir as int, i, (per * per) as nat),
                k < n,
                i <= g,
                lowest == edge_lowest(cols, g as int, dir as int, n as int, k as int, i as nat),
            decreases g - i,
        {
            proof {
                assert((i + 1) * cell <= 16 * 16 && (k + 1) * size <= 16 * 16 && i * cell <= 16 * 16 && k * size <= 16 * 16)
                    by (nonlinear_arith)
                    requires
                        0 <= i < 16,
                        0 <= k < 16,
                        0 <= cell <= 16,
                        0 <= size <= 16,
                ;
            }
            if i * cell < (k + 1) * size && k * size < (i + 1) * cell && theirs[i] < lowest {
                lowest = theirs[i];
            }
            i += 1;
        }
        out.push(lowest);
    }
    proof { assert(out@ =~= edge_of(cols, their_scale as int, dir as int, n as int)); }
    out
}

/// A quad a b c d, counter-clockwise seen from outside.
#[derive(Clone, Copy, Debug)]
pub struct Quad {
    pub a: Corner,
    pub b: Corner,
    pub c: Corner,
    pub d: Corner,
    pub shade: u32,
    pub colour: Colour,
}

/// A run of equal cells along x that is still growing down z.
#[derive(Clone, Copy, Debug)]
pub struct Open {
    pub x0: usize,
    pub x1: usize,
    pub z0: usize,
    pub cell: Cell,
}

/// Where the run of cells equal to the one at `x` ends, from `e` on.
pub open spec fn run_end(g: Cells, x: int, z: int, e: int) -> int
    decreases g.n - e,
{
    if e < g.n && g.at(e, z) == g.at(x, z) { run_end(g, x, z, e + 1) } else { e }
}

/// The first of the open runs, from `from` on, that spans the same cells.
pub open spec fn same_run(open: Seq<Open>, x0: int, x1: int, cell: Cell, from: int) -> Option<int>
    decreases open.len() - from,
{
    if from >= open.len() {
        None
    } else if open[from].x0 == x0 && open[from].x1 == x1 && open[from].cell == cell {
        Some(from)
    } else {
        same_run(open, x0, x1, cell, from + 1)
    }
}

/// The runs without one, whose place the last takes.
pub open spec fn without(open: Seq<Open>, i: int) -> Seq<Open> {
    open.update(i, open.last()).drop_last()
}

/// The runs of a row from `x` on: those of the row, then those of the row
/// above that did not go on. A run that was open above keeps growing;
/// anything else starts here.
pub open spec fn row_runs(g: Cells, z: int, x: int, open: Seq<Open>, row: Seq<Open>) -> (Seq<Open>, Seq<Open>)
    decreases g.n - x,
{
    let e = run_end(g, x, z, x + 1);
    if x >= g.n || e <= x || e > g.n {
        (row, open)
    } else {
        match same_run(open, x, e, g.at(x, z), 0) {
            Some(i) => row_runs(g, z, e, without(open, i), row.push(open[i])),
            None => row_runs(
                g, z, e, open, row.push(Open { x0: x as usize, x1: e as usize, z0: z as usize, cell: g.at(x, z) })),
        }
    }
}

/// The top of a run that ends at row `z1`.
pub open spec fn top_quad(n: int, o: Open, z1: int) -> Quad {
    let s = 16int / n;
    let h = o.cell.height;
    let (x0, x1) = ((o.x0 * s) as i16, (o.x1 * s) as i16);
    let (z0, z1) = ((o.z0 * s) as i16, (z1 * s) as i16);
    Quad { a: (x0, h, z0), b: (x0, h, z1), c: (x1, h, z1), d: (x1, h, z0), shade: SHADE_TOP, colour: o.cell.colour }
}

/// The tops of runs that end at row `z1`.
pub open spec fn top_quads(n: int, open: Seq<Open>, z1: int) -> Seq<Quad> {
    Seq::new(open.len(), |i: int| top_quad(n, open[i], z1))
}

/// The tops from row `z` on.
pub open spec fn tops(g: Cells, z: int, open: Seq<Open>) -> Seq<Quad>
    decreases g.n - z,
{
    if z >= g.n {
        top_quads(g.n, open, g.n)
    } else {
        let (row, left) = row_runs(g, z, 0, open, Seq::empty());
        top_quads(g.n, left, z) + tops(g, z + 1, row)
    }
}

/// The lowest of the first `k` cells.
pub open spec fn lowest_cell(cells: Seq<Cell>, k: nat) -> i16
    decreases k,
{
    if k == 0 {
        i16::MAX
    } else {
        let before = lowest_cell(cells, (k - 1) as nat);
        if cells[k - 1].height < before { cells[k - 1].height } else { before }
    }
}

/// How far down a wall without a neighbour goes.
pub open spec fn skirt(g: Cells) -> i16 {
    let lowest = lowest_cell(g.cells, g.cells.len());
    if lowest < i16::MIN + SKIRT_DEPTH { i16::MIN } else { (lowest - SKIRT_DEPTH) as i16 }
}

/// The step in direction `d`: -x, +x, -z, +z.
pub open spec fn step_x(d: int) -> int {
    if d == 0 { -1 } else if d == 1 { 1 } else { 0 }
}

pub open spec fn step_z(d: int) -> int {
    if d == 2 { -1 } else if d == 3 { 1 } else { 0 }
}

/// Height of the cell beyond (x, z) in direction `d`.
pub open spec fn beyond(g: Cells, edges: Seq<Option<Seq<i16>>>, x: int, z: int, d: int) -> i16 {
    let (bx, bz) = (x + step_x(d), z + step_z(d));
    if bx < 0 || bz < 0 || bx >= g.n || bz >= g.n {
        match edges[d] {
            Some(e) => e[if d < 2 { z } else { x }],
            None => skirt(g),
        }
    } else {
        g.at(bx, bz).height
    }
}

/// The cell `b` along the line `a` of a direction.
pub open spec fn line_x(d: int, a: int, b: int) -> int {
    if d < 2 { a } else { b }
}

pub open spec fn line_z(d: int, a: int, b: int) -> int {
    if d < 2 { b } else { a }
}

/// Two cells of a line need the same wall.
pub open spec fn same_wall(g: Cells, edges: Seq<Option<Seq<i16>>>, d: int, a: int, b: int, e: int) -> bool {
    &&& g.at(line_x(d, a, e), line_z(d, a, e)) == g.at(line_x(d, a, b), line_z(d, a, b))
    &&& beyond(g, edges, line_x(d, a, e), line_z(d, a, e), d) == beyond(
        g, edges, line_x(d, a, b), line_z(d, a, b), d)
}

/// Where the run of equal walls that starts at `b` ends, from `e` on.
pub open spec fn wall_end(g: Cells, edges: Seq<Option<Seq<i16>>>, d: int, a: int, b: int, e: int) -> int
    decreases g.n - e,
{
    if e < g.n && same_wall(g, edges, d, a, b, e) { wall_end(g, edges, d, a, b, e + 1) } else { e }
}

/// The wall of the cells `b..e` of a line, from `low` up to the cell's
/// height.
pub open spec fn wall_quad(n: int, d: int, a: int, b: int, e: int, low: i16, cell: Cell) -> Quad {
    let s = 16int / n;
    let (b0, b1) = ((b * s) as i16, (e * s) as i16);
    let (a0, a1) = ((a * s) as i16, (a * s + s) as i16);
    let h = cell.height;
    let shade = if d < 2 { SHADE_X } else { SHADE_Z };
    let colour = cell.colour;
    if d == 0 {
        Quad { a: (a0, low, b0), b: (a0, h, b0), c: (a0, h, b1), d: (a0, low, b1), shade, colour }
    } else if d == 1 {
        Quad { a: (a1, low, b1), b: (a1, h, b1), c: (a1, h, b0), d: (a1, low, b0), shade, colour }
    } else if d == 2 {
        Quad { a: (b1, low, a0), b: (b1, h, a0), c: (b0, h, a0), d: (b0, low, a0), shade, colour }
    } else {
        Quad { a: (b0, low, a1), b: (b0, h, a1), c: (b1, h, a1), d: (b1, low, a1), shade, colour }
    }
}

/// The walls of a line from cell `b` on: one where the cell beyond is
/// lower, merged along the line.
pub open spec fn walls(g: Cells, edges: Seq<Option<Seq<i16>>>, d: int, a: int, b: int) -> Seq<Quad>
    decreases g.n - b,
{
    if b >= g.n {
        Seq::empty()
    } else {
        let cell = g.at(line_x(d, a, b), line_z(d, a, b));
        let low = beyond(g, edges, line_x(d, a, b), line_z(d, a, b), d);
        let e = wall_end(g, edges, d, a, b, b + 1);
        if low >= cell.height || e <= b || e > g.n {
            walls(g, edges, d, a, b + 1)
        } else {
            seq![wall_quad(g.n, d, a, b, e, low, cell)] + walls(g, edges, d, a, e)
        }
    }
}

/// The walls in direction `d` from line `a` on.
pub open spec fn wall_lines(g: Cells, edges: Seq<Option<Seq<i16>>>, d: int, a: int) -> Seq<Quad>
    decreases g.n - a,
{
    if a >= g.n {
        Seq::empty()
    } else {
        walls(g, edges, d, a, 0) + wall_lines(g, edges, d, a + 1)
    }
}

/// The walls from direction `d` on.
pub open spec fn all_walls(g: Cells, edges: Seq<Option<Seq<i16>>>, d: int) -> Seq<Quad>
    decreases 4 - d,
{
    if d >= 4 {
        Seq::empty()
    } else {
        wall_lines(g, edges, d, 0) + all_walls(g, edges, d + 1)
    }
}

/// The edges that neighbours show.
pub open spec fn edges_of(near: Seq<Option<(Columns, int)>>, n: int) -> Seq<Option<Seq<i16>>> {
    Seq::new(
        4,
        |d: int|
            match near[d] {
                Some((cols, scale)) => Some(edge_of(cols, scale, d, n)),
                None => None,
            },
    )
}

/// The neighbours as columns and scales.
pub open spec fn near_columns(neighbours: Seq<Option<(RecordRef, usize)>>) -> Seq<Option<(Columns, int)>> {
    neighbours.map_values(
        |r: Option<(RecordRef, usize)>|
            match r {
                Some((rec, scale)) => Some((columns(rec), scale as int)),
                None => None,
            },
    )
}

/// The quads of a chunk: tops, then walls.
pub open spec fn chunk_quads<F: Fn(Ask) -> u64>(
    f: F, p: Palette, cols: Columns, near: Seq<Option<(Columns, int)>>, scale: int,
) -> Seq<Quad> {
    let g = drawn(f, p, cols, scale);
    tops(g, 0, Seq::empty()) + all_walls(g, edges_of(near, g.n), 0)
}

/// The bytes of a vertex.
pub open spec fn vertex_bytes<F: Fn(Ask) -> u64>(f: F, origin: (u32, u32), p: Corner, shade: u32, colour: Colour) -> Seq<u8> {
    le(low(f, Ask::Add32(origin.0, low(f, Ask::FromInt32(p.0 as i32)))) as int, 4) + le(
        low(f, Ask::Sub32(low(f, Ask::FromInt32(p.1 as i32)), UNDER)) as int,
        4,
    ) + le(low(f, Ask::Add32(origin.1, low(f, Ask::FromInt32(p.2 as i32)))) as int, 4) + seq![
        ((colour.0 * shade) / 255) as u8,
        ((colour.1 * shade) / 255) as u8,
        ((colour.2 * shade) / 255) as u8,
        colour.3,
    ]
}

/// The bytes of a quad's four vertices.
pub open spec fn quad_bytes<F: Fn(Ask) -> u64>(f: F, origin: (u32, u32), q: Quad) -> Seq<u8> {
    vertex_bytes(f, origin, q.a, q.shade, q.colour) + vertex_bytes(f, origin, q.b, q.shade, q.colour) + vertex_bytes(
        f, origin, q.c, q.shade, q.colour) + vertex_bytes(f, origin, q.d, q.shade, q.colour)
}

/// The bytes of quads, one after the other.
pub open spec fn stream<F: Fn(Ask) -> u64>(f: F, origin: (u32, u32), quads: Seq<Quad>) -> Seq<u8>
    decreases quads.len(),
{
    if quads.len() == 0 {
        Seq::empty()
    } else {
        stream(f, origin, quads.drop_last()) + quad_bytes(f, origin, quads.last())
    }
}

/// The bounds after quads: a top counts with its height, a wall with its
/// foot.
pub open spec fn bounds_after(b: Bounds, quads: Seq<Quad>) -> Bounds
    decreases quads.len(),
{
    if quads.len() == 0 {
        b
    } else {
        bounds_after(b, quads.drop_last()).taken(quads.last().a.1)
    }
}

/// The bounds after quads hold the height of every top and the foot of
/// every wall, and what they held before.
pub proof fn law_bounds_hold_quads(b: Bounds, quads: Seq<Quad>, i: int)
    ensures
        bounds_after(b, quads).min_y <= b.min_y,
        bounds_after(b, quads).max_y >= b.max_y,
        0 <= i < quads.len() ==> bounds_after(b, quads).min_y <= quads[i].a.1 <= bounds_after(b, quads).max_y,
    decreases quads.len(),
{
    if quads.len() > 0 {
        law_bounds_hold_quads(b, quads.drop_last(), i);
        if 0 <= i < quads.len() - 1 {
            assert(quads.drop_last()[i] == quads[i]);
        }
    }
}

fn push_vertex<F: Fn(Ask) -> u64>(out: &mut Vec<u8>, origin: (u32, u32), p: Corner, shade: u32, colour: Colour, f: &F)
    requires
        answers(*f),
        shade <= 255,
    ensures
        final(out)@ == old(out)@ + vertex_bytes(*f, origin, p, shade, colour),
{
    let ghost start = out@;
    let x: u32 = f(Ask::FromInt32(p.0 as i32)) as u32;
    let x: u32 = f(Ask::Add32(origin.0, x)) as u32;
    push_le(out, x as u64, 4);
    let y: u32 = f(Ask::FromInt32(p.1 as i32)) as u32;
    let y: u32 = f(Ask::Sub32(y, UNDER)) as u32;
    push_le(out, y as u64, 4);
    let z: u32 = f(Ask::FromInt32(p.2 as i32)) as u32;
    let z: u32 = f(Ask::Add32(origin.1, z)) as u32;
    push_le(out, z as u64, 4);
    out.push(shaded(colour.0, shade));
    out.push(shaded(colour.1, shade));
    out.push(shaded(colour.2, shade));
    out.push(colour.3);
    proof { assert(out@ =~= start + vertex_bytes(*f, origin, p, shade, colour)); }
}

fn shaded(v: u8, shade: u32) -> (r: u8)
    requires
        shade <= 255,
    ensures
        r == ((v * shade) / 255) as u8,
{
    proof {
        assert(0 <= v * shade <= 255 * 255) by (nonlinear_arith)
            requires
                0 <= v <= 255,
                0 <= shade <= 255,
        ;
    }
    ((v as u32 * shade) / 255) as u8
}

/// Append quads to a vertex stream.
fn emit<F: Fn(Ask) -> u64>(quads: &Vec<Quad>, origin: (u32, u32), out: &mut Vec<u8>, bounds: &mut Bounds, f: &F)
    requires
        answers(*f),
        forall|i: int| 0 <= i < quads@.len() ==> (#[trigger] quads@[i]).shade <= 255,
    ensures
        final(out)@ == old(out)@ + stream(*f, origin, quads@),
        *final(bounds) == bounds_after(*old(bounds), quads@),
{
    let ghost start = out@;
    let ghost b0 = *bounds;
    let mut i: usize = 0;
    proof {
        assert(quads@.take(0) =~= Seq::empty());
        assert(start + stream(*f, origin, quads@.take(0)) =~= start);
    }
    while i < quads.len()
        invariant
            answers(*f),
            forall|i: int| 0 <= i < quads@.len() ==> (#[trigger] quads@[i]).shade <= 255,
            i <= quads@.len(),
            out@ == start + stream(*f, origin, quads@.take(i as int)),
            *bounds == bounds_after(b0, quads@.take(i as int)),
        decreases quads.len() - i,
    {
        let q: Quad = quads[i];
        let ghost before = out@;
        push_vertex(out, origin, q.a, q.shade, q.colour, f);
        push_vertex(out, origin, q.b, q.shade, q.colour, f);
        push_vertex(out, origin, q.c, q.shade, q.colour, f);
        push_vertex(out, origin, q.d, q.shade, q.colour, f);
        bounds.take(q.a.1);
        proof {
            let next = quads@.take(i + 1);
            assert(next.drop_last() =~= quads@.take(i as int));
            assert(out@ =~= before + quad_bytes(*f, origin, q));
            assert(out@ =~= start + stream(*f, origin, next));
        }
        i += 1;
    }
    proof { assert(quads@.take(quads@.len() as int) =~= quads@); }
}

/// A grid and its model.
spec fn models(g: Grid, m: Cells) -> bool {
    &&& g.n == m.n
    &&& g.cells@ == m.cells
    &&& is_scale(g.n as int)
    &&& g.cells@.len() == g.n * g.n
}

proof fn lemma_place(n: int, x: int, z: int)
    requires
        is_scale(n),
        0 <= x < n,
        0 <= z < n,
    ensures
        0 <= x + z * n < n * n,
        0 <= z * n <= 256,
{
    assert(0 <= z * n) by (nonlinear_arith)
        requires
            0 <= z,
            0 <= n,
    ;
    assert(x + z * n < n * n) by (nonlinear_arith)
        requires
            0 <= x < n,
            0 <= z < n,
    ;
    assert(z * n <= 256) by (nonlinear_arith)
        requires
            0 <= z < n,
            n <= 16,
    ;
}

impl Grid {
    fn at(&self, x: usize, z: usize, Ghost(m): Ghost<Cells>) -> (r: Cell)
        requires
            models(*self, m),
            x < self.n,
            z < self.n,
        ensures
            r == m.at(x as int, z as int),
    {
        proof { lemma_place(self.n as int, x as int, z as int); }
        self.cells[x + z * self.n]
    }

    /// Where the run of cells equal to the one at `x` ends.
    fn run(&self, x: usize, z: usize, Ghost(m): Ghost<Cells>) -> (e: usize)
        requires
            models(*self, m),
            x < self.n,
            z < self.n,
        ensures
            e == run_end(m, x as int, z as int, x + 1),
            x < e <= self.n,
    {
        let cell: Cell = self.at(x, z, Ghost(m));
        let mut e: usize = x + 1;
        while e < self.n
            invariant
                models(*self, m),
                x < e <= self.n,
                z < self.n,
                cell == m.at(x as int, z as int),
                run_end(m, x as int, z as int, x + 1) == run_end(m, x as int, z as int, e as int),
            decreases self.n - e,
        {
            if !same_cell(self.at(e, z, Ghost(m)), cell) {
                return e;
            }
            e += 1;
        }
        e
    }
}

/// The first open run that spans the same cells.
fn find_run(open: &Vec<Open>, x0: usize, x1: usize, cell: Cell) -> (r: Option<usize>)
    ensures
        match r {
            Some(i) => i < open@.len() && same_run(open@, x0 as int, x1 as int, cell, 0) == Some(i as int),
            None => same_run(open@, x0 as int, x1 as int, cell, 0) is None,
        },
{
    let mut i: usize = 0;
    while i < open.len()
        invariant
            i <= open@.len(),
            same_run(open@, x0 as int, x1 as int, cell, 0) == same_run(open@, x0 as int, x1 as int, cell, i as int),
        decreases open.len() - i,
    {
        let o: Open = open[i];
        if o.x0 == x0 && o.x1 == x1 && same_cell(o.cell, cell) {
            return Some(i);
        }
        i += 1;
    }
    None
}

/// Runs that lie in a chunk.
spec fn in_chunk(open: Seq<Open>, n: int) -> bool {
    forall|i: int| 0 <= i < open.len() ==> (#[trigger] open[i]).x0 <= n && open[i].x1 <= n && open[i].z0 <= n
}

/// The runs of a row, and those of the row above that did not go on.
fn scan_row(g: &Grid, z: usize, above: Vec<Open>, Ghost(m): Ghost<Cells>) -> (r: (Vec<Open>, Vec<Open>))
    requires
        models(*g, m),
        z < g.n,
        in_chunk(above@, g.n as int),
    ensures
        (r.0@, r.1@) == row_runs(m, z as int, 0, above@, Seq::empty()),
        in_chunk(r.0@, g.n as int),
        in_chunk(r.1@, g.n as int),
{
    let ghost first = above@;
    let mut open: Vec<Open> = above;
    let mut row: Vec<Open> = Vec::new();
    let mut x: usize = 0;
    while x < g.n
        invariant
            models(*g, m),
            z < g.n,
            x <= g.n,
            in_chunk(open@, g.n as int),
            in_chunk(row@, g.n as int),
            row_runs(m, z as int, 0, first, Seq::empty()) == row_runs(m, z as int, x as int, open@, row@),
        decreases g.n - x,
    {
        let cell: Cell = g.at(x, z, Ghost(m));
        let e: usize = g.run(x, z, Ghost(m));
        let ghost open0 = open@;
        let ghost row0 = row@;
        match find_run(&open, x, e, cell) {
            Some(i) => {
                let o: Open = open[i];
                let last: Open = open[open.len() - 1];
                open.set(i, last);
                open.pop();
                row.push(o);
                proof {
                    assert(open@ =~= without(open0, i as int));
                }
            },
            None => {
                row.push(Open { x0: x, x1: e, z0: z, cell });
            },
        }
        x = e;
    }
    (row, open)
}

/// Append the tops of runs that end at row `z1`.
fn push_tops(quads: &mut Vec<Quad>, open: &Vec<Open>, n: usize, z1: usize)
    requires
        is_scale(n as int),
        z1 <= n,
        in_chunk(open@, n as int),
        forall|i: int| 0 <= i < old(quads)@.len() ==> (#[trigger] old(quads)@[i]).shade <= 255,
    ensures
        final(quads)@ == old(quads)@ + top_quads(n as int, open@, z1 as int),
        forall|i: int| 0 <= i < final(quads)@.len() ==> (#[trigger] final(quads)@[i]).shade <= 255,
{
    let ghost start = quads@;
    let s: i16 = (16 / n) as i16;
    let mut i: usize = 0;
    let ghost want = top_quads(n as int, open@, z1 as int);
    proof { assert(start + want.take(0) =~= start); }
    while i < open.len()
        invariant
            is_scale(n as int),
            s == 16int / n as int,
            z1 <= n,
            in_chunk(open@, n as int),
            i <= open@.len(),
            want == top_quads(n as int, open@, z1 as int),
            quads@ == start + want.take(i as int),
            forall|i: int| 0 <= i < quads@.len() ==> (#[trigger] quads@[i]).shade <= 255,
        decreases open.len() - i,
    {
        let o: Open = open[i];
        proof {
            assert(open@[i as int].x0 <= n);
            lemma_span(n as int, o.x0 as int);
            lemma_span(n as int, o.x1 as int);
            lemma_span(n as int, o.z0 as int);
            lemma_span(n as int, z1 as int);
        }
        let h: i16 = o.cell.height;
        let (x0, x1) = (o.x0 as i16 * s, o.x1 as i16 * s);
        let (b0, b1) = (o.z0 as i16 * s, z1 as i16 * s);
        quads.push(
            Quad { a: (x0, h, b0), b: (x0, h, b1), c: (x1, h, b1), d: (x1, h, b0), shade: SHADE_TOP, colour: o.cell.colour },
        );
        proof {
            assert(want[i as int] == quads@.last());
            assert(start + want.take(i + 1) =~= quads@);
        }
        i += 1;
    }
    proof { assert(want.take(want.len() as int) =~= want); }
}

proof fn lemma_span(n: int, k: int)
    requires
        is_scale(n),
        0 <= k <= n,
    ensures
        0 <= k * (16int / n) <= 16,
        1 <= 16int / n <= 16,
{
    let s = 16int / n;
    lemma_divides(16, n);
    assert(0 <= k * s <= 16) by (nonlinear_arith)
        requires
            0 <= k <= n,
            n * s == 16,
            s >= 1,
    ;
}

/// The tops of a chunk.
fn mesh_tops(g: &Grid, quads: &mut Vec<Quad>, Ghost(m): Ghost<Cells>)
    requires
        models(*g, m),
        forall|i: int| 0 <= i < old(quads)@.len() ==> (#[trigger] old(quads)@[i]).shade <= 255,
    ensures
        final(quads)@ == old(quads)@ + tops(m, 0, Seq::empty()),
        forall|i: int| 0 <= i < final(quads)@.len() ==> (#[trigger] final(quads)@[i]).shade <= 255,
{
    let ghost start = quads@;
    let ghost all = tops(m, 0, Seq::empty());
    let mut open: Vec<Open> = Vec::new();
    let mut z: usize = 0;
    proof { assert(open@ =~= Seq::empty()); }
    while z < g.n
        invariant
            models(*g, m),
            z <= g.n,
            in_chunk(open@, g.n as int),
            start + all == quads@ + tops(m, z as int, open@),
            forall|i: int| 0 <= i < quads@.len() ==> (#[trigger] quads@[i]).shade <= 255,
        decreases g.n - z,
    {
        let ghost before = quads@;
        let ghost rest = tops(m, z as int, open@);
        let ghost opened = open@;
        let (row, left) = scan_row(g, z, open, Ghost(m));
        push_tops(quads, &left, g.n, z);
        proof {
            assert(rest == top_quads(m.n, left@, z as int) + tops(m, z + 1, row@));
            assert(before + rest =~= quads@ + tops(m, z + 1, row@));
        }
        open = row;
        z += 1;
    }
    push_tops(quads, &open, g.n, g.n);
}

/// The skirt of a chunk.
fn skirt_of(g: &Grid, Ghost(m): Ghost<Cells>) -> (r: i16)
    requires
        models(*g, m),
    ensures
        r == skirt(m),
{
    let mut lowest: i16 = i16::MAX;
    let mut k: usize = 0;
    while k < g.cells.len()
        invariant
            models(*g, m),
            k <= g.cells@.len(),
            lowest == lowest_cell(m.cells, k as nat),
        decreases g.cells.len() - k,
    {
        if g.cells[k].height < lowest {
            lowest = g.cells[k].height;
        }
        k += 1;
    }
    if (lowest as i32) < (i16::MIN as i32) + 8 { i16::MIN } else { lowest - 8 }
}

/// Edges and their model.
spec fn edges_model(edges: Seq<Option<Vec<i16>>>, m: Seq<Option<Seq<i16>>>, n: int) -> bool {
    &&& edges.len() == 4
    &&& m.len() == 4
    &&& forall|d: int| 0 <= d < 4 ==> match #[trigger] edges[d] {
        Some(e) => m[d] == Some(e@) && e@.len() == n,
        None => m[d] is None,
    }
}

/// Height of the cell beyond (x, z) in direction `d`.
fn height_beyond(
    g: &Grid, edges: &Vec<Option<Vec<i16>>>, down: i16, x: usize, z: usize, d: usize, Ghost(m): Ghost<Cells>,
    Ghost(em): Ghost<Seq<Option<Seq<i16>>>>,
) -> (r: i16)
    requires
        models(*g, m),
        edges_model(edges@, em, g.n as int),
        down == skirt(m),
        x < g.n,
        z < g.n,
        d < 4,
    ensures
        r == beyond(m, em, x as int, z as int, d as int),
{
    let bx: i64 = x as i64 + (if d == 0 { -1i64 } else if d == 1 { 1 } else { 0 });
    let bz: i64 = z as i64 + (if d == 2 { -1i64 } else if d == 3 { 1 } else { 0 });
    if bx < 0 || bz < 0 || bx >= g.n as i64 || bz >= g.n as i64 {
        match &edges[d] {
            Some(e) => e[if d < 2 { z } else { x }],
            None => down,
        }
    } else {
        g.at(bx as usize, bz as usize, Ghost(m)).height
    }
}

/// The walls of one line.
fn mesh_line(
    g: &Grid, edges: &Vec<Option<Vec<i16>>>, down: i16, d: usize, a: usize, quads: &mut Vec<Quad>, Ghost(m): Ghost<Cells>,
    Ghost(em): Ghost<Seq<Option<Seq<i16>>>>,
)
    requires
        models(*g, m),
        edges_model(edges@, em, g.n as int),
        down == skirt(m),
        d < 4,
        a < g.n,
        forall|i: int| 0 <= i < old(quads)@.len() ==> (#[trigger] old(quads)@[i]).shade <= 255,
    ensures
        final(quads)@ == old(quads)@ + walls(m, em, d as int, a as int, 0),
        forall|i: int| 0 <= i < final(quads)@.len() ==> (#[trigger] final(quads)@[i]).shade <= 255,
{
    let ghost start = quads@;
    let ghost all = walls(m, em, d as int, a as int, 0);
    let s: i16 = (16 / g.n) as i16;
    let mut b: usize = 0;
    while b < g.n
        invariant
            models(*g, m),
            edges_model(edges@, em, g.n as int),
            down == skirt(m),
            d < 4,
            a < g.n,
            b <= g.n,
            s == 16int / g.n as int,
            start + all == quads@ + walls(m, em, d as int, a as int, b as int),
            forall|i: int| 0 <= i < quads@.len() ==> (#[trigger] quads@[i]).shade <= 255,
        decreases g.n - b,
    {
        let (x, z) = if d < 2 { (a, b) } else { (b, a) };
        let cell: Cell = g.at(x, z, Ghost(m));
        let low: i16 = height_beyond(g, edges, down, x, z, d, Ghost(m), Ghost(em));
        if low >= cell.height {
            b += 1;
        } else {
            let e: usize = wall_run(g, edges, down, d, a, b, Ghost(m), Ghost(em));
            proof {
                lemma_span(g.n as int, b as int);
                lemma_span(g.n as int, e as int);
                lemma_span(g.n as int, a as int);
            }
            let (b0, b1) = (b as i16 * s, e as i16 * s);
            let a0: i16 = a as i16 * s;
            let a1: i16 = a0 + s;
            let h: i16 = cell.height;
            let shade: u32 = if d < 2 { SHADE_X } else { SHADE_Z };
            let colour: Colour = cell.colour;
            let q: Quad = if d == 0 {
                Quad { a: (a0, low, b0), b: (a0, h, b0), c: (a0, h, b1), d: (a0, low, b1), shade, colour }
            } else if d == 1 {
                Quad { a: (a1, low, b1), b: (a1, h, b1), c: (a1, h, b0), d: (a1, low, b0), shade, colour }
            } else if d == 2 {
                Quad { a: (b1, low, a0), b: (b1, h, a0), c: (b0, h, a0), d: (b0, low, a0), shade, colour }
            } else {
                Quad { a: (b0, low, a1), b: (b0, h, a1), c: (b1, h, a1), d: (b1, low, a1), shade, colour }
            };
            let ghost before = quads@;
            quads.push(q);
            proof {
                assert(q == wall_quad(m.n, d as int, a as int, b as int, e as int, low, cell));
                assert(before + walls(m, em, d as int, a as int, b as int) =~= quads@ + walls(
                    m, em, d as int, a as int, e as int));
            }
            b = e;
        }
    }
    proof { assert(quads@ + Seq::<Quad>::empty() =~= quads@); }
}

/// Where the run of equal walls that starts at `b` ends.
fn wall_run(
    g: &Grid, edges: &Vec<Option<Vec<i16>>>, down: i16, d: usize, a: usize, b: usize, Ghost(m): Ghost<Cells>,
    Ghost(em): Ghost<Seq<Option<Seq<i16>>>>,
) -> (e: usize)
    requires
        models(*g, m),
        edges_model(edges@, em, g.n as int),
        down == skirt(m),
        d < 4,
        a < g.n,
        b < g.n,
    ensures
        e == wall_end(m, em, d as int, a as int, b as int, b + 1),
        b < e <= g.n,
{
    let (x, z) = if d < 2 { (a, b) } else { (b, a) };
    let cell: Cell = g.at(x, z, Ghost(m));
    let low: i16 = height_beyond(g, edges, down, x, z, d, Ghost(m), Ghost(em));
    let mut e: usize = b + 1;
    while e < g.n
        invariant
            models(*g, m),
            edges_model(edges@, em, g.n as int),
            down == skirt(m),
            d < 4,
            a < g.n,
            b < e <= g.n,
            cell == m.at(line_x(d as int, a as int, b as int), line_z(d as int, a as int, b as int)),
            low == beyond(m, em, line_x(d as int, a as int, b as int), line_z(d as int, a as int, b as int), d as int),
            wall_end(m, em, d as int, a as int, b as int, b + 1) == wall_end(
                m, em, d as int, a as int, b as int, e as int),
        decreases g.n - e,
    {
        let (nx, nz) = if d < 2 { (a, e) } else { (e, a) };
        let same: bool = same_cell(g.at(nx, nz, Ghost(m)), cell) && height_beyond(
            g, edges, down, nx, nz, d, Ghost(m), Ghost(em)) == low;
        if !same {
            return e;
        }
        e += 1;
    }
    e
}

/// The neighbours are drawn at scales there are.
pub open spec fn neighbours_ok(near: Seq<Option<(Columns, int)>>) -> bool {
    near.len() == 4 && forall|d: int| 0 <= d < 4 ==> (#[trigger] near[d] matches Some(n) ==> is_scale(n.1))
}

/// Mesh one chunk at `scale` (1, 2, 4, 8, 16) with colours by palette id;
/// `origin` is the chunk's block corner relative to the mesh origin. Top
/// quads merge along x and then down z where the runs line up exactly.
pub fn mesh_chunk<F: Fn(Ask) -> u64>(
    rec: RecordRef, neighbours: &Neighbours, scale: usize, palette: &Palette, origin: (u32, u32), out: &mut Vec<u8>,
    bounds: &mut Bounds, f: &F,
)
    requires
        answers(*f),
        is_scale(scale as int),
        neighbours_ok(near_columns(neighbours@)),
    ensures
        ({
            let quads = chunk_quads(*f, *palette, columns(rec), near_columns(neighbours@), scale as int);
            &&& final(out)@ == old(out)@ + stream(*f, origin, quads)
            &&& *final(bounds) == bounds_after(*old(bounds), quads)
        }),
{
    let g = grid(&rec, scale, palette, f);
    let ghost m = drawn(*f, *palette, columns(rec), scale as int);
    let ghost near = near_columns(neighbours@);
    let ghost em = edges_of(near, m.n);
    let mut edges: Vec<Option<Vec<i16>>> = Vec::new();
    while edges.len() < 4
        invariant
            near == near_columns(neighbours@),
            neighbours_ok(near),
            em == edges_of(near, g.n as int),
            is_scale(g.n as int),
            edges@.len() <= 4,
            forall|d: int| 0 <= d < edges@.len() ==> match #[trigger] edges@[d] {
                Some(e) => em[d] == Some(e@) && e@.len() == g.n,
                None => em[d] is None,
            },
        decreases 4 - edges.len(),
    {
        let d: usize = edges.len();
        let one: Option<(RecordRef, usize)> = neighbours[d];
        proof { assert(near[d as int] is Some == one is Some); }
        let e: Option<Vec<i16>> = match one {
            Some((r, s)) => {
                proof { assert(near[d as int] == Some((columns(r), s as int))); }
                Some(edge(&r, s, d, g.n))
            },
            None => None,
        };
        edges.push(e);
    }
    let down: i16 = skirt_of(&g, Ghost(m));
    let mut quads: Vec<Quad> = Vec::new();
    mesh_tops(&g, &mut quads, Ghost(m));
    let ghost top = tops(m, 0, Seq::empty());
    proof { assert(quads@ =~= top); }
    let mut d: usize = 0;
    proof { assert(edges_model(edges@, em, g.n as int)); }
    while d < 4
        invariant
            models(g, m),
            edges_model(edges@, em, g.n as int),
            down == skirt(m),
            d <= 4,
            top + all_walls(m, em, 0) == quads@ + all_walls(m, em, d as int),
            forall|i: int| 0 <= i < quads@.len() ==> (#[trigger] quads@[i]).shade <= 255,
        decreases 4 - d,
    {
        let ghost before = quads@;
        let ghost lines = wall_lines(m, em, d as int, 0);
        let mut a: usize = 0;
        while a < g.n
            invariant
                models(g, m),
                edges_model(edges@, em, g.n as int),
                down == skirt(m),
                d < 4,
                a <= g.n,
                before + lines == quads@ + wall_lines(m, em, d as int, a as int),
                forall|i: int| 0 <= i < quads@.len() ==> (#[trigger] quads@[i]).shade <= 255,
            decreases g.n - a,
        {
            let ghost so_far = quads@;
            mesh_line(&g, &edges, down, d, a, &mut quads, Ghost(m), Ghost(em));
            proof {
                assert(so_far + wall_lines(m, em, d as int, a as int) =~= quads@ + wall_lines(m, em, d as int, a + 1));
            }
            a += 1;
        }
        proof {
            assert(quads@ + Seq::<Quad>::empty() =~= quads@);
            assert(before + all_walls(m, em, d as int) =~= quads@ + all_walls(m, em, d + 1));
        }
        d += 1;
    }
    proof { assert(quads@ =~= chunk_quads(*f, *palette, columns(rec), near, scale as int)); }
    emit(&quads, origin, out, bounds, f);
}

/// Distance from `p` to the block of eight that holds `c`.
pub open spec fn block_distance(c: int, p: int) -> int {
    let b = (c / 8) * 8;
    if p < b { b - p } else if p > b + 7 { p - (b + 7) } else { 0 }
}

/// The scale for a distance: a cell stays about a block per 24 chunks.
pub open spec fn scale_at_distance(d: int) -> int {
    if d < 24 { 1 } else if d < 48 { 2 } else if d < 96 { 4 } else if d < 192 { 8 } else { 16 }
}

fn distance(c: i32, p: i32) -> (r: i64)
    ensures
        r == block_distance(c as int, p as int),
{
    let b: i64 = floor_div(c, 8) as i64 * 8;
    let p: i64 = p as i64;
    if p < b { b - p } else if p > b + 7 { p - (b + 7) } else { 0 }
}

/// Cell size for the 8x8-chunk block holding chunk (cx, cz), from the
/// block's nearest chunk distance to the player's chunk: 1 within 24
/// chunks, 2 within 48, 4 within 96, 8 within 192, 16 beyond.
pub fn scale_for(cx: i32, cz: i32, px: i32, pz: i32) -> (r: usize)
    ensures
        ({
            let (dx, dz) = (block_distance(cx as int, px as int), block_distance(cz as int, pz as int));
            r == scale_at_distance(if dx < dz { dz } else { dx })
        }),
        is_scale(r as int),
{
    let dx: i64 = distance(cx, px);
    let dz: i64 = distance(cz, pz);
    let d: i64 = if dx < dz { dz } else { dx };
    if d < 24 {
        1
    } else if d < 48 {
        2
    } else if d < 96 {
        4
    } else if d < 192 {
        8
    } else {
        16
    }
}

/// The scale that a caller draws a chunk at.
pub open spec fn drawn_at<S: Fn(i32, i32) -> usize>(s: S, x: i32, z: i32) -> usize {
    choose|r: usize| call_ensures(s, (x, z), r)
}

/// The caller draws every chunk at one of the scales, always the same.
pub open spec fn scales<S: Fn(i32, i32) -> usize>(s: S) -> bool {
    &&& forall|x: i32, z: i32| #[trigger] call_requires(s, (x, z))
    &&& forall|x: i32, z: i32, r: usize| #[trigger]
        call_ensures(s, (x, z), r) ==> r == drawn_at(s, x, z) && is_scale(r as int)
}

/// What a client holds of a chunk, the full record first.
pub open spec fn held(c: Client, x: i32, z: i32) -> Option<Columns> {
    if c.records.contains_key((x, z)) {
        Some(full_columns(c.records[(x, z)]))
    } else if c.coarse.contains_key((x, z)) {
        Some(coarse_columns(c.coarse[(x, z)]))
    } else {
        None
    }
}

/// What a client holds of a chunk, and the scale it is drawn at.
pub open spec fn held_at<S: Fn(i32, i32) -> usize>(c: Client, s: S, x: int, z: int) -> Option<(Columns, int)> {
    match held(c, x as i32, z as i32) {
        Some(cols) => Some((cols, drawn_at(s, x as i32, z as i32) as int)),
        None => None,
    }
}

/// A chunk within the hole around a chunk.
pub open spec fn in_hole(x: int, z: int, hole: (i32, i32, i32)) -> bool {
    -hole.2 <= x - hole.0 <= hole.2 && -hole.2 <= z - hole.1 <= hole.2
}

/// The quads of a region's chunk in slot `i`.
pub open spec fn slot_quads<S: Fn(i32, i32) -> usize, F: Fn(Ask) -> u64>(
    f: F, s: S, p: Palette, c: Client, rx: int, rz: int, hole: (i32, i32, i32), i: int,
) -> Seq<Quad> {
    let (x, z) = (rx * 32 + i % 32, rz * 32 + i / 32);
    match held_at(c, s, x, z) {
        Some((cols, scale)) => if in_hole(x, z, hole) {
            Seq::empty()
        } else {
            chunk_quads(
                f, p, cols, seq![held_at(c, s, x - 1, z), held_at(c, s, x + 1, z), held_at(c, s, x, z - 1), held_at(c, s, x, z + 1)],
                scale,
            )
        },
        None => Seq::empty(),
    }
}

/// The corner of a region's chunk in slot `i`.
pub open spec fn slot_origin<F: Fn(Ask) -> u64>(f: F, i: int) -> (u32, u32) {
    (low(f, Ask::FromInt32(((i % 32) * 16) as i32)), low(f, Ask::FromInt32(((i / 32) * 16) as i32)))
}

/// The stream of a region's first `n` chunks.
pub open spec fn region_stream<S: Fn(i32, i32) -> usize, F: Fn(Ask) -> u64>(
    f: F, s: S, p: Palette, c: Client, rx: int, rz: int, hole: (i32, i32, i32), n: nat,
) -> Seq<u8>
    decreases n,
{
    if n == 0 {
        Seq::empty()
    } else {
        region_stream(f, s, p, c, rx, rz, hole, (n - 1) as nat) + stream(
            f, slot_origin(f, n - 1), slot_quads(f, s, p, c, rx, rz, hole, n - 1))
    }
}

/// The bounds of a region's first `n` chunks.
pub open spec fn region_bounds<S: Fn(i32, i32) -> usize, F: Fn(Ask) -> u64>(
    f: F, s: S, p: Palette, c: Client, rx: int, rz: int, hole: (i32, i32, i32), n: nat,
) -> Bounds
    decreases n,
{
    if n == 0 {
        nowhere()
    } else {
        bounds_after(
            region_bounds(f, s, p, c, rx, rz, hole, (n - 1) as nat),
            slot_quads(f, s, p, c, rx, rz, hole, n - 1),
        )
    }
}

fn with_scale<'a, S: Fn(i32, i32) -> usize>(store: &'a ClientStore, scale: &S, x: i32, z: i32) -> (r: Option<(RecordRef<'a>, usize)>)
    requires
        scales(*scale),
    ensures
        match r {
            Some((rec, s)) => held_at(store@, *scale, x as int, z as int) == Some((columns(rec), s as int)) && is_scale(s as int),
            None => held_at(store@, *scale, x as int, z as int) is None,
        },
{
    match store.get_any(x, z) {
        Some(rec) => {
            let s: usize = scale(x, z);
            Some((rec, s))
        },
        None => None,
    }
}

/// Mesh the chunk in slot `i` of a region.
fn mesh_slot<S: Fn(i32, i32) -> usize, F: Fn(Ask) -> u64>(
    store: &ClientStore, rx: i32, rz: i32, i: usize, scale: &S, hole: (i32, i32, i32), palette: &Palette, out: &mut Vec<u8>,
    bounds: &mut Bounds, f: &F,
)
    requires
        answers(*f),
        scales(*scale),
        -0x0400_0000 < rx < 0x03ff_ffff,
        -0x0400_0000 < rz < 0x03ff_ffff,
        i < 1024,
    ensures
        ({
            let quads = slot_quads(*f, *scale, *palette, store@, rx as int, rz as int, hole, i as int);
            &&& final(out)@ == old(out)@ + stream(*f, slot_origin(*f, i as int), quads)
            &&& *final(bounds) == bounds_after(*old(bounds), quads)
        }),
{
    let ghost c = store@;
    let x: i32 = rx * 32 + (i % 32) as i32;
    let z: i32 = rz * 32 + (i / 32) as i32;
    let dx: i64 = x as i64 - hole.0 as i64;
    let dz: i64 = z as i64 - hole.1 as i64;
    let reach: i64 = hole.2 as i64;
    proof { assert(out@ + Seq::<u8>::empty() =~= out@); }
    if -reach <= dx && dx <= reach && -reach <= dz && dz <= reach {
        return;
    }
    if let Some((rec, s)) = with_scale(store, scale, x, z) {
        let near: Neighbours = [
            with_scale(store, scale, x - 1, z),
            with_scale(store, scale, x + 1, z),
            with_scale(store, scale, x, z - 1),
            with_scale(store, scale, x, z + 1),
        ];
        let ghost want = seq![
            held_at(c, *scale, x - 1, z as int),
            held_at(c, *scale, x + 1, z as int),
            held_at(c, *scale, x as int, z - 1),
            held_at(c, *scale, x as int, z + 1),
        ];
        proof {
            assert(near_columns(near@) =~= want);
            assert forall|d: int| 0 <= d < 4 implies (#[trigger] want[d] matches Some(n) ==> is_scale(n.1)) by {
                assert(near@[d] is Some == want[d] is Some);
            }
        }
        let ox: u32 = f(Ask::FromInt32(((i % 32) * 16) as i32)) as u32;
        let oz: u32 = f(Ask::FromInt32(((i / 32) * 16) as i32)) as u32;
        mesh_chunk(rec, &near, s, palette, (ox, oz), out, bounds, f);
    }
}

/// Mesh every held chunk of region (rx, rz), each at `scale(cx, cz)` (the
/// game passes `scale_for` around the player), positions relative to the
/// region's block corner, leaving out chunks within `hole.2` (Chebyshev) of
/// chunk (hole.0, hole.1). `counts` gets the vertices of each chunk in
/// order (x + z * 32), so a draw can skip chunks by range. Returns the y
/// range of what was written.
pub fn mesh_region<S: Fn(i32, i32) -> usize, F: Fn(Ask) -> u64>(
    store: &ClientStore, rx: i32, rz: i32, scale: &S, hole: (i32, i32, i32), palette: &Palette, out: &mut Vec<u8>,
    counts: &mut Vec<u32>, f: &F,
) -> (r: Bounds)
    requires
        answers(*f),
        scales(*scale),
        -0x0400_0000 < rx < 0x03ff_ffff,
        -0x0400_0000 < rz < 0x03ff_ffff,
    ensures
        final(out)@ == old(out)@ + region_stream(*f, *scale, *palette, store@, rx as int, rz as int, hole, 1024),
        r == region_bounds(*f, *scale, *palette, store@, rx as int, rz as int, hole, 1024),
        final(counts)@.len() == 1024,
        forall|i: int|
            0 <= i < 1024 ==> #[trigger] final(counts)@[i] == (stream(
                *f, slot_origin(*f, i), slot_quads(*f, *scale, *palette, store@, rx as int, rz as int, hole, i),
            ).len() / 16) as u32,
{
    let ghost start = out@;
    let ghost c = store@;
    let mut bounds = Bounds::empty();
    counts.clear();
    let mut i: usize = 0;
    proof {
        assert(start + Seq::<u8>::empty() =~= start);
    }
    while i < 1024
        invariant
            answers(*f),
            scales(*scale),
            -0x0400_0000 < rx < 0x03ff_ffff,
            -0x0400_0000 < rz < 0x03ff_ffff,
            c == store@,
            i <= 1024,
            out@ == start + region_stream(*f, *scale, *palette, c, rx as int, rz as int, hole, i as nat),
            bounds == region_bounds(*f, *scale, *palette, c, rx as int, rz as int, hole, i as nat),
            counts@.len() == i,
            forall|k: int|
                0 <= k < i ==> #[trigger] counts@[k] == (stream(
                    *f, slot_origin(*f, k), slot_quads(*f, *scale, *palette, c, rx as int, rz as int, hole, k),
                ).len() / 16) as u32,
        decreases 1024 - i,
    {
        let ghost before = out@;
        let from: usize = out.len();
        mesh_slot(store, rx, rz, i, scale, hole, palette, out, &mut bounds, f);
        proof {
            assert(out@ =~= start + region_stream(*f, *scale, *palette, c, rx as int, rz as int, hole, (i + 1) as nat));
        }
        #[verifier::truncate]
        let n: u32 = ((out.len() - from) / VERTEX_BYTES) as u32;
        counts.push(n);
        i += 1;
    }
    bounds
}

} // verus!
