//! What a far-view mesh shows: every cell its top, and every step down its
//! wall.

use vstd::prelude::*;
use crate::arith::Ask;
use crate::lodmesh26::{
    all_walls, beyond, cell_index, cells_along, column_colour, drawn_cell, edge_column, edge_lowest, edge_of, edge_tallest,
    is_scale, line_x, line_z, lowest_cell, overlap, row_runs, run_end, same_run, same_wall, skirt, top_quad, top_quads, tops,
    wall_end, wall_lines, wall_quad, walls, without, Cell, Cells, Columns, Open, Palette, Quad,
};

verus! {

/// Cells of a chunk: a power of two along a side, up to sixteen.
pub open spec fn whole(g: Cells) -> bool {
    is_scale(g.n) && g.cells.len() == g.n * g.n
}

/// A run that is open above a row: it lies in the chunk, and all of its
/// cells are equal.
spec fn running(g: Cells, z: int, o: Open) -> bool {
    &&& o.x0 < o.x1 <= g.n
    &&& o.z0 < z <= g.n
    &&& forall|x: int, y: int| #![trigger g.at(x, y)] o.x0 <= x < o.x1 && o.z0 <= y < z ==> g.at(x, y) == o.cell
}

spec fn all_running(g: Cells, z: int, open: Seq<Open>) -> bool {
    forall|i: int| 0 <= i < open.len() ==> running(g, z, #[trigger] open[i])
}

/// A top shows a cell: it lies over it, at its height and in its colour.
pub open spec fn shows_top(q: Quad, g: Cells, x: int, z: int) -> bool {
    let s = 16int / g.n;
    let c = g.at(x, z);
    &&& q.a == (q.a.0, c.height, q.a.2) && q.c == (q.c.0, c.height, q.c.2)
    &&& q.b == (q.a.0, c.height, q.c.2) && q.d == (q.c.0, c.height, q.a.2)
    &&& q.a.0 <= x * s && x * s + s <= q.c.0
    &&& q.a.2 <= z * s && z * s + s <= q.c.2
    &&& q.shade == 255
    &&& q.colour == c.colour
}

proof fn lemma_run_end(g: Cells, x: int, z: int, e: int)
    requires
        x < e <= g.n,
        forall|k: int| x <= k < e ==> #[trigger] g.at(k, z) == g.at(x, z),
    ensures
        e <= run_end(g, x, z, e) <= g.n,
        forall|k: int| x <= k < run_end(g, x, z, e) ==> #[trigger] g.at(k, z) == g.at(x, z),
    decreases g.n - e,
{
    if e < g.n && g.at(e, z) == g.at(x, z) {
        lemma_run_end(g, x, z, e + 1);
    }
}

proof fn lemma_same_run(open: Seq<Open>, x0: int, x1: int, cell: Cell, from: int)
    requires
        0 <= from,
    ensures
        same_run(open, x0, x1, cell, from) matches Some(i) ==> from <= i < open.len() && open[i].x0 == x0 && open[i].x1 == x1
            && open[i].cell == cell,
    decreases open.len() - from,
{
    if from < open.len() {
        lemma_same_run(open, x0, x1, cell, from + 1);
    }
}

/// A run of the row holds a cell.
spec fn in_runs(runs: Seq<Open>, x: int) -> bool {
    exists|i: int| 0 <= i < runs.len() && (#[trigger] runs[i]).x0 <= x < runs[i].x1
}

/// An open run is among those that go on or those that are left.
spec fn kept(o: Open, row: Seq<Open>, left: Seq<Open>) -> bool {
    row.contains(o) || left.contains(o)
}

proof fn lemma_row(g: Cells, z: int, x: int, open: Seq<Open>, row: Seq<Open>)
    requires
        whole(g),
        0 <= z < g.n,
        0 <= x <= g.n,
        all_running(g, z, open),
        all_running(g, z + 1, row),
        forall|k: int| 0 <= k < x ==> in_runs(row, k),
    ensures
        ({
            let (r, left) = row_runs(g, z, x, open, row);
            &&& all_running(g, z + 1, r)
            &&& all_running(g, z, left)
            &&& forall|k: int| 0 <= k < g.n ==> in_runs(r, k)
            &&& forall|i: int| 0 <= i < open.len() ==> #[trigger] kept(open[i], r, left)
            &&& forall|i: int| 0 <= i < row.len() ==> r.contains(#[trigger] row[i])
        }),
    decreases g.n - x,
{
    let (r, left) = row_runs(g, z, x, open, row);
    if x < g.n {
        lemma_run_end(g, x, z, x + 1);
        let e = run_end(g, x, z, x + 1);
        let cell = g.at(x, z);
        lemma_same_run(open, x, e, cell, 0);
        match same_run(open, x, e, cell, 0) {
            Some(i) => {
                let o = open[i];
                let next = row.push(o);
                let rest = without(open, i);
                assert(running(g, z, o));
                assert forall|a: int, b: int| #![trigger g.at(a, b)] o.x0 <= a < o.x1 && o.z0 <= b < z + 1 implies g.at(a, b)
                    == o.cell by {
                    if b == z {
                        assert(g.at(a, z) == g.at(x, z));
                    }
                }
                lemma_grown(g, z, x, e, row, next, o);
                assert forall|k: int| 0 <= k < rest.len() implies running(g, z, #[trigger] rest[k]) by {
                    if k == i {
                        assert(running(g, z, open[open.len() - 1]));
                    } else {
                        assert(running(g, z, open[k]));
                    }
                }
                lemma_row(g, z, e, rest, next);
                assert forall|k: int| 0 <= k < open.len() implies #[trigger] kept(open[k], r, left) by {
                    if k == i {
                        assert(next[row.len() as int] == o);
                        assert(r.contains(next[row.len() as int]));
                    } else if k == open.len() - 1 {
                        assert(rest[i] == open[k]);
                        assert(kept(rest[i], r, left));
                    } else {
                        assert(rest[k] == open[k]);
                        assert(kept(rest[k], r, left));
                    }
                }
                assert forall|k: int| 0 <= k < row.len() implies r.contains(#[trigger] row[k]) by {
                    assert(next[k] == row[k]);
                    assert(r.contains(next[k]));
                }
            },
            None => {
                let o = Open { x0: x as usize, x1: e as usize, z0: z as usize, cell };
                let next = row.push(o);
                assert forall|a: int, b: int| #![trigger g.at(a, b)] o.x0 <= a < o.x1 && o.z0 <= b < z + 1 implies g.at(a, b)
                    == o.cell by {
                    assert(b == z);
                    assert(g.at(a, z) == g.at(x, z));
                }
                lemma_grown(g, z, x, e, row, next, o);
                lemma_row(g, z, e, open, next);
                assert forall|k: int| 0 <= k < row.len() implies r.contains(#[trigger] row[k]) by {
                    assert(next[k] == row[k]);
                    assert(r.contains(next[k]));
                }
            },
        }
    } else {
        assert forall|i: int| 0 <= i < open.len() implies #[trigger] kept(open[i], r, left) by {
            assert(left[i] == open[i]);
        }
        assert forall|i: int| 0 <= i < row.len() implies r.contains(#[trigger] row[i]) by {
            assert(r[i] == row[i]);
        }
    }
}

/// A row with one more run.
proof fn lemma_grown(g: Cells, z: int, x: int, e: int, row: Seq<Open>, next: Seq<Open>, o: Open)
    requires
        all_running(g, z + 1, row),
        running(g, z + 1, o),
        next == row.push(o),
        o.x0 == x && o.x1 == e,
        forall|k: int| 0 <= k < x ==> in_runs(row, k),
    ensures
        all_running(g, z + 1, next),
        forall|k: int| 0 <= k < e ==> in_runs(next, k),
{
    assert forall|k: int| 0 <= k < next.len() implies running(g, z + 1, #[trigger] next[k]) by {
        if k < row.len() {
            assert(next[k] == row[k]);
        }
    }
    assert forall|k: int| 0 <= k < e implies in_runs(next, k) by {
        if k < x {
            assert(in_runs(row, k));
            let i = choose|i: int| 0 <= i < row.len() && (#[trigger] row[i]).x0 <= k < row[i].x1;
            assert(next[i] == row[i]);
        } else {
            assert(next[row.len() as int] == o);
        }
    }
}

/// The top of a run that ends at a row shows each of its cells.
proof fn lemma_top(g: Cells, o: Open, z: int, x: int, y: int)
    requires
        whole(g),
        running(g, z, o),
        o.x0 <= x < o.x1,
        o.z0 <= y < z,
    ensures
        shows_top(top_quad(g.n, o, z), g, x, y),
{
    let s = 16int / g.n;
    assert(g.at(x, y) == o.cell);
    lemma_step(g);
    assert(0 <= o.x0 * s <= x * s && x * s + s <= o.x1 * s <= 16 && 0 <= o.z0 * s <= y * s && y * s + s <= z * s <= 16)
        by (nonlinear_arith)
        requires
            0 <= o.x0 <= x < o.x1 <= g.n,
            0 <= o.z0 <= y < z <= g.n,
            s * g.n == 16,
            s >= 1,
    ;
}

/// Some top shows a cell.
pub open spec fn top_shown(quads: Seq<Quad>, g: Cells, x: int, z: int) -> bool {
    exists|i: int| 0 <= i < quads.len() && shows_top(#[trigger] quads[i], g, x, z)
}

/// A top lies over nothing but cells of one height and colour.
pub open spec fn even_top(q: Quad, g: Cells) -> bool {
    exists|o: Open, z: int| q == #[trigger] top_quad(g.n, o, z) && o.x0 < o.x1 <= g.n && o.z0 < z <= g.n && forall|x: int, y: int|
        #![trigger g.at(x, y)]
        o.x0 <= x < o.x1 && o.z0 <= y < z ==> g.at(x, y) == o.cell
}

proof fn lemma_tops(g: Cells, z: int, open: Seq<Open>)
    requires
        whole(g),
        0 <= z <= g.n,
        all_running(g, z, open),
    ensures
        forall|x: int, y: int| 0 <= x < g.n && z <= y < g.n ==> #[trigger] top_shown(tops(g, z, open), g, x, y),
        forall|i: int, x: int, y: int|
            0 <= i < open.len() && open[i].x0 <= x < open[i].x1 && open[i].z0 <= y < z ==> #[trigger] shown_by(
                tops(g, z, open), g, open[i], x, y),
        forall|i: int| 0 <= i < tops(g, z, open).len() ==> even_top(#[trigger] tops(g, z, open)[i], g),
    decreases g.n - z,
{
    let all = tops(g, z, open);
    if z >= g.n {
        assert forall|i: int, x: int, y: int|
            0 <= i < open.len() && open[i].x0 <= x < open[i].x1 && open[i].z0 <= y < z implies #[trigger] shown_by(
            all, g, open[i], x, y) by {
            lemma_top(g, open[i], z, x, y);
            assert(all[i] == top_quad(g.n, open[i], z));
        }
        assert forall|i: int| 0 <= i < all.len() implies even_top(#[trigger] all[i], g) by {
            assert(running(g, z, open[i]));
            assert(all[i] == top_quad(g.n, open[i], z));
        }
    } else {
        let (row, left) = row_runs(g, z, 0, open, Seq::empty());
        lemma_row(g, z, 0, open, Seq::empty());
        lemma_tops(g, z + 1, row);
        let (ends, later) = (top_quads(g.n, left, z), tops(g, z + 1, row));
        assert(all == ends + later);
        assert forall|i: int| 0 <= i < later.len() implies #[trigger] later[i] == all[ends.len() + i] by {}
        assert forall|x: int, y: int| 0 <= x < g.n && z <= y < g.n implies #[trigger] top_shown(all, g, x, y) by {
            if y == z {
                assert(in_runs(row, x));
                let k = choose|i: int| 0 <= i < row.len() && (#[trigger] row[i]).x0 <= x < row[i].x1;
                assert(running(g, z + 1, row[k]));
                assert(shown_by(later, g, row[k], x, y));
            } else {
                assert(top_shown(later, g, x, y));
            }
            let i = choose|i: int| 0 <= i < later.len() && shows_top(#[trigger] later[i], g, x, y);
            assert(shows_top(all[ends.len() + i], g, x, y));
        }
        assert forall|i: int, x: int, y: int|
            0 <= i < open.len() && open[i].x0 <= x < open[i].x1 && open[i].z0 <= y < z implies #[trigger] shown_by(
            all, g, open[i], x, y) by {
            let o = open[i];
            assert(kept(o, row, left));
            if left.contains(o) {
                let j = choose|j: int| 0 <= j < left.len() && left[j] == o;
                assert(running(g, z, left[j]));
                lemma_top(g, o, z, x, y);
                assert(all[j] == top_quad(g.n, o, z));
            } else {
                let j = choose|j: int| 0 <= j < row.len() && row[j] == o;
                assert(shown_by(later, g, row[j], x, y));
                let m = choose|m: int| 0 <= m < later.len() && shows_top(#[trigger] later[m], g, x, y);
                assert(shows_top(all[ends.len() + m], g, x, y));
            }
        }
        assert forall|i: int| 0 <= i < all.len() implies even_top(#[trigger] all[i], g) by {
            if i < ends.len() {
                assert(running(g, z, left[i]));
                assert(all[i] == top_quad(g.n, left[i], z));
            } else {
                assert(all[i] == later[i - ends.len()]);
                assert(even_top(later[i - ends.len()], g));
            }
        }
    }
}

/// A run's cell is shown.
spec fn shown_by(quads: Seq<Quad>, g: Cells, o: Open, x: int, y: int) -> bool {
    top_shown(quads, g, x, y)
}

/// Every cell of a chunk is shown by a top at its height and in its colour,
/// and no top lies over cells that differ.
pub proof fn law_tops_show_every_cell(g: Cells, x: int, z: int, i: int)
    requires
        whole(g),
        0 <= x < g.n,
        0 <= z < g.n,
    ensures
        top_shown(tops(g, 0, Seq::empty()), g, x, z),
        0 <= i < tops(g, 0, Seq::empty()).len() ==> even_top(tops(g, 0, Seq::empty())[i], g),
{
    lemma_tops(g, 0, Seq::empty());
    assert(top_shown(tops(g, 0, Seq::empty()), g, x, z));
}

/// How high it is beyond a cell: the cell there; at the border what the
/// neighbour's edge shows; without a neighbour eight blocks below the lowest
/// cell.
pub open spec fn height_beyond(g: Cells, edges: Seq<Option<Seq<i16>>>, x: int, z: int, d: int, h: i16) -> bool {
    let (bx, bz) = if d == 0 {
        (x - 1, z)
    } else if d == 1 {
        (x + 1, z)
    } else if d == 2 {
        (x, z - 1)
    } else {
        (x, z + 1)
    };
    if 0 <= bx < g.n && 0 <= bz < g.n {
        h == g.at(bx, bz).height
    } else {
        match edges[d] {
            Some(e) => h == (if d == 0 || d == 1 { e[z] } else { e[x] }),
            None => {
                &&& forall|k: int| 0 <= k < g.cells.len() ==> h <= (#[trigger] g.cells[k]).height
                &&& exists|k: int|
                    0 <= k < g.cells.len() && h == (if (#[trigger] g.cells[k]).height < -32760 { -32768 } else { g.cells[k].height - 8 })
            },
        }
    }
}

proof fn lemma_lowest(cells: Seq<Cell>, k: nat)
    requires
        1 <= k <= cells.len(),
    ensures
        forall|i: int| 0 <= i < k ==> lowest_cell(cells, k) <= (#[trigger] cells[i]).height,
        exists|i: int| 0 <= i < k && lowest_cell(cells, k) == (#[trigger] cells[i]).height,
    decreases k,
{
    if k > 1 {
        lemma_lowest(cells, (k - 1) as nat);
        let i = choose|i: int| 0 <= i < k - 1 && lowest_cell(cells, (k - 1) as nat) == (#[trigger] cells[i]).height;
        if cells[k - 1].height < lowest_cell(cells, (k - 1) as nat) {
            assert(lowest_cell(cells, k) == cells[k - 1].height);
        } else {
            assert(lowest_cell(cells, k) == cells[i].height);
        }
    } else {
        reveal_with_fuel(lowest_cell, 2);
        assert(lowest_cell(cells, k) == cells[0].height);
    }
}

proof fn lemma_beyond(g: Cells, edges: Seq<Option<Seq<i16>>>, x: int, z: int, d: int)
    requires
        whole(g),
        0 <= x < g.n,
        0 <= z < g.n,
        0 <= d < 4,
    ensures
        height_beyond(g, edges, x, z, d, beyond(g, edges, x, z, d)),
{
    assert(g.n * g.n >= 1) by (nonlinear_arith)
        requires
            g.n >= 1,
    ;
    lemma_lowest(g.cells, g.cells.len());
    let l = lowest_cell(g.cells, g.cells.len());
    let k = choose|k: int| 0 <= k < g.cells.len() && l == (#[trigger] g.cells[k]).height;
    assert(skirt(g) == (if g.cells[k].height < -32760 { -32768 } else { g.cells[k].height - 8 }));
}

/// A wall shows the step down from a cell in a direction: it stands on that
/// side of the cell, along all of it, from the height beyond up to the
/// cell's, in its colour, shaded by its axis.
pub open spec fn shows_wall(q: Quad, g: Cells, x: int, z: int, d: int, low: i16) -> bool {
    let s = 16int / g.n;
    let c = g.at(x, z);
    &&& q.colour == c.colour
    &&& q.shade == (if d < 2 { 153int } else { 204 })
    &&& q.a.1 == low && q.d.1 == low && q.b.1 == c.height && q.c.1 == c.height
    &&& q.a.0 == q.b.0 && q.c.0 == q.d.0 && q.a.2 == q.b.2 && q.c.2 == q.d.2
    &&& if d == 0 {
        q.a.0 == x * s && q.c.0 == x * s && q.a.2 <= z * s && z * s + s <= q.c.2
    } else if d == 1 {
        q.a.0 == x * s + s && q.c.0 == x * s + s && q.c.2 <= z * s && z * s + s <= q.a.2
    } else if d == 2 {
        q.a.2 == z * s && q.c.2 == z * s && q.c.0 <= x * s && x * s + s <= q.a.0
    } else {
        q.a.2 == z * s + s && q.c.2 == z * s + s && q.a.0 <= x * s && x * s + s <= q.c.0
    }
}

pub open spec fn wall_shown(quads: Seq<Quad>, g: Cells, x: int, z: int, d: int, low: i16) -> bool {
    exists|i: int| 0 <= i < quads.len() && shows_wall(#[trigger] quads[i], g, x, z, d, low)
}

proof fn lemma_wall_end(g: Cells, edges: Seq<Option<Seq<i16>>>, d: int, a: int, b: int, e: int)
    requires
        b < e <= g.n,
        forall|k: int| b < k < e ==> #[trigger] same_wall(g, edges, d, a, b, k),
    ensures
        e <= wall_end(g, edges, d, a, b, e) <= g.n,
        forall|k: int| b < k < wall_end(g, edges, d, a, b, e) ==> #[trigger] same_wall(g, edges, d, a, b, k),
    decreases g.n - e,
{
    if e < g.n && same_wall(g, edges, d, a, b, e) {
        lemma_wall_end(g, edges, d, a, b, e + 1);
    }
}

proof fn lemma_wall(g: Cells, edges: Seq<Option<Seq<i16>>>, d: int, a: int, b: int, e: int, k: int)
    requires
        whole(g),
        0 <= d < 4,
        0 <= a < g.n,
        0 <= b <= k < e <= g.n,
        k == b || same_wall(g, edges, d, a, b, k),
    ensures
        ({
            let (x, z) = (line_x(d, a, k), line_z(d, a, k));
            let cell = g.at(line_x(d, a, b), line_z(d, a, b));
            let low = beyond(g, edges, line_x(d, a, b), line_z(d, a, b), d);
            shows_wall(wall_quad(g.n, d, a, b, e, low, cell), g, x, z, d, beyond(g, edges, x, z, d))
        }),
{
    let s = 16int / g.n;
    lemma_step(g);
    assert(0 <= b * s <= k * s && k * s + s <= e * s <= 16 && 0 <= a * s && a * s + s <= 16) by (nonlinear_arith)
        requires
            0 <= b <= k < e <= g.n,
            0 <= a < g.n,
            s * g.n == 16,
            s >= 1,
    ;
}

proof fn lemma_walls(g: Cells, edges: Seq<Option<Seq<i16>>>, d: int, a: int, b: int, k: int)
    requires
        whole(g),
        0 <= d < 4,
        0 <= a < g.n,
        0 <= b <= k < g.n,
        beyond(g, edges, line_x(d, a, k), line_z(d, a, k), d) < g.at(line_x(d, a, k), line_z(d, a, k)).height,
    ensures
        wall_shown(
            walls(g, edges, d, a, b), g, line_x(d, a, k), line_z(d, a, k), d, beyond(g, edges, line_x(d, a, k), line_z(d, a, k), d)),
    decreases g.n - b,
{
    let (x, z) = (line_x(d, a, k), line_z(d, a, k));
    let low_k = beyond(g, edges, x, z, d);
    let cell = g.at(line_x(d, a, b), line_z(d, a, b));
    let low = beyond(g, edges, line_x(d, a, b), line_z(d, a, b), d);
    lemma_wall_end(g, edges, d, a, b, b + 1);
    let e = wall_end(g, edges, d, a, b, b + 1);
    let all = walls(g, edges, d, a, b);
    if low >= cell.height {
        assert(k != b);
        lemma_walls(g, edges, d, a, b + 1, k);
    } else {
        let q = wall_quad(g.n, d, a, b, e, low, cell);
        let rest = walls(g, edges, d, a, e);
        assert(all == seq![q] + rest);
        if k < e {
            assert(k == b || same_wall(g, edges, d, a, b, k));
            lemma_wall(g, edges, d, a, b, e, k);
            assert(all[0] == q);
        } else {
            lemma_walls(g, edges, d, a, e, k);
            let i = choose|i: int| 0 <= i < rest.len() && shows_wall(#[trigger] rest[i], g, x, z, d, low_k);
            assert(all[i + 1] == rest[i]);
        }
    }
}

proof fn lemma_lines(g: Cells, edges: Seq<Option<Seq<i16>>>, d: int, from: int, a: int, k: int)
    requires
        whole(g),
        0 <= d < 4,
        0 <= from <= a < g.n,
        0 <= k < g.n,
        beyond(g, edges, line_x(d, a, k), line_z(d, a, k), d) < g.at(line_x(d, a, k), line_z(d, a, k)).height,
    ensures
        wall_shown(
            wall_lines(g, edges, d, from), g, line_x(d, a, k), line_z(d, a, k), d, beyond(
                g, edges, line_x(d, a, k), line_z(d, a, k), d)),
    decreases g.n - from,
{
    let (x, z) = (line_x(d, a, k), line_z(d, a, k));
    let low = beyond(g, edges, x, z, d);
    let (first, rest) = (walls(g, edges, d, from, 0), wall_lines(g, edges, d, from + 1));
    let all = wall_lines(g, edges, d, from);
    assert(all == first + rest);
    if from == a {
        lemma_walls(g, edges, d, a, 0, k);
        let i = choose|i: int| 0 <= i < first.len() && shows_wall(#[trigger] first[i], g, x, z, d, low);
        assert(all[i] == first[i]);
    } else {
        lemma_lines(g, edges, d, from + 1, a, k);
        let i = choose|i: int| 0 <= i < rest.len() && shows_wall(#[trigger] rest[i], g, x, z, d, low);
        assert(all[first.len() + i] == rest[i]);
    }
}

proof fn lemma_directions(g: Cells, edges: Seq<Option<Seq<i16>>>, from: int, d: int, a: int, k: int)
    requires
        whole(g),
        0 <= from <= d < 4,
        0 <= a < g.n,
        0 <= k < g.n,
        beyond(g, edges, line_x(d, a, k), line_z(d, a, k), d) < g.at(line_x(d, a, k), line_z(d, a, k)).height,
    ensures
        wall_shown(
            all_walls(g, edges, from), g, line_x(d, a, k), line_z(d, a, k), d, beyond(
                g, edges, line_x(d, a, k), line_z(d, a, k), d)),
    decreases 4 - from,
{
    let (x, z) = (line_x(d, a, k), line_z(d, a, k));
    let low = beyond(g, edges, x, z, d);
    let (first, rest) = (wall_lines(g, edges, from, 0), all_walls(g, edges, from + 1));
    let all = all_walls(g, edges, from);
    assert(all == first + rest);
    if from == d {
        lemma_lines(g, edges, d, 0, a, k);
        let i = choose|i: int| 0 <= i < first.len() && shows_wall(#[trigger] first[i], g, x, z, d, low);
        assert(all[i] == first[i]);
    } else {
        lemma_directions(g, edges, from + 1, d, a, k);
        let i = choose|i: int| 0 <= i < rest.len() && shows_wall(#[trigger] rest[i], g, x, z, d, low);
        assert(all[first.len() + i] == rest[i]);
    }
}

/// Wherever it is lower beyond a cell than at it, a wall shows the step.
pub proof fn law_walls_show_every_step(g: Cells, edges: Seq<Option<Seq<i16>>>, x: int, z: int, d: int, low: i16)
    requires
        whole(g),
        0 <= x < g.n,
        0 <= z < g.n,
        0 <= d < 4,
        low == beyond(g, edges, x, z, d),
    ensures
        height_beyond(g, edges, x, z, d, low),
        low < g.at(x, z).height ==> wall_shown(all_walls(g, edges, 0), g, x, z, d, low),
{
    lemma_beyond(g, edges, x, z, d);
    if low < g.at(x, z).height {
        if d < 2 {
            assert(line_x(d, x, z) == x && line_z(d, x, z) == z);
            lemma_directions(g, edges, 0, d, x, z);
        } else {
            assert(line_x(d, z, x) == x && line_z(d, z, x) == z);
            lemma_directions(g, edges, 0, d, z, x);
        }
    }
}

/// Which way a quad faces: the cross product of its sides.
pub open spec fn facing(q: Quad) -> (int, int, int) {
    let (ux, uy, uz) = (q.b.0 - q.a.0, q.b.1 - q.a.1, q.b.2 - q.a.2);
    let (vx, vy, vz) = (q.c.0 - q.b.0, q.c.1 - q.b.1, q.c.2 - q.b.2);
    (uy * vz - uz * vy, uz * vx - ux * vz, ux * vy - uy * vx)
}

/// Tops face up.
pub proof fn law_tops_face_up(q: Quad, g: Cells, x: int, z: int)
    requires
        whole(g),
        shows_top(q, g, x, z),
    ensures
        facing(q).0 == 0 && facing(q).1 > 0 && facing(q).2 == 0,
{
    lemma_step(g);
    let (ux, uy, uz) = (q.b.0 - q.a.0, q.b.1 - q.a.1, q.b.2 - q.a.2);
    let (vx, vy, vz) = (q.c.0 - q.b.0, q.c.1 - q.b.1, q.c.2 - q.b.2);
    assert(uy * vz == 0 && uz * vy == 0 && ux * vz == 0 && ux * vy == 0 && uy * vx == 0 && uz * vx > 0) by (nonlinear_arith)
        requires
            ux == 0,
            uy == 0,
            vy == 0,
            vz == 0,
            uz > 0,
            vx > 0,
    ;
}

/// Cells along a side and blocks along a cell make up a chunk.
proof fn lemma_step(g: Cells)
    requires
        whole(g),
    ensures
        (16int / g.n) * g.n == 16,
        16int / g.n >= 1,
{
    let (n, s) = (g.n, 16int / g.n);
    if n == 1 {
        assert(s == 16) by (nonlinear_arith)
            requires
                n == 1,
                s == 16int / n,
        ;
    }
    if n == 2 {
        assert(s == 8) by (nonlinear_arith)
            requires
                n == 2,
                s == 16int / n,
        ;
    }
    if n == 4 {
        assert(s == 4) by (nonlinear_arith)
            requires
                n == 4,
                s == 16int / n,
        ;
    }
    if n == 8 {
        assert(s == 2) by (nonlinear_arith)
            requires
                n == 8,
                s == 16int / n,
        ;
    }
    if n == 16 {
        assert(s == 1) by (nonlinear_arith)
            requires
                n == 16,
                s == 16int / n,
        ;
    }
    assert(s * n == 16) by (nonlinear_arith)
        requires
            n == 1 && s == 16 || n == 2 && s == 8 || n == 4 && s == 4 || n == 8 && s == 2 || n == 16 && s == 1,
    ;
}

/// A cell is drawn by the tallest of its columns.
pub proof fn law_cells_draw_their_tallest<F: Fn(Ask) -> u64>(f: F, p: Palette, cols: Columns, n: int, cell: int, k: nat)
    ensures
        ({
            let d = drawn_cell(f, p, cols, n, cell, k);
            &&& forall|c: int| #![trigger cols.height[c]]
                0 <= c < k && cell_index(cols.side, n, c) == cell ==> cols.height[c] <= d.height
            &&& d.height > i16::MIN ==> exists|c: int| #![trigger cols.height[c]]
                0 <= c < k && cell_index(cols.side, n, c) == cell && d.height == cols.height[c] && d.colour == column_colour(
                    f, p, cols.top[c], cols.depth[c], cols.floor[c], cols.biome[c])
        }),
    decreases k,
{
    if k > 0 {
        law_cells_draw_their_tallest(f, p, cols, n, cell, (k - 1) as nat);
        let d = drawn_cell(f, p, cols, n, cell, k);
        let before = drawn_cell(f, p, cols, n, cell, (k - 1) as nat);
        let c = k - 1;
        if cell_index(cols.side, n, c) == cell && cols.height[c] > before.height {
            assert(d.height == cols.height[c]);
        } else if before.height > i16::MIN {
            let e = choose|e: int| #![trigger cols.height[e]]
                0 <= e < k - 1 && cell_index(cols.side, n, e) == cell && before.height == cols.height[e] && before.colour
                    == column_colour(f, p, cols.top[e], cols.depth[e], cols.floor[e], cols.biome[e]);
            assert(d.height == cols.height[e]);
        }
    }
}

/// The tallest column of an edge cell: a neighbour's columns next to us, as
/// deep as its cell is wide.
proof fn lemma_edge_tallest(cols: Columns, per: int, dir: int, i: int, m: nat)
    requires
        m >= 1,
    ensures
        forall|k: int| 0 <= k < m ==> edge_tallest(cols, per, dir, i, m) >= cols.height[#[trigger] edge_column(cols.side, per, dir, i, k)],
        exists|k: int| 0 <= k < m && edge_tallest(cols, per, dir, i, m) == cols.height[#[trigger] edge_column(cols.side, per, dir, i, k)],
    decreases m,
{
    if m > 1 {
        lemma_edge_tallest(cols, per, dir, i, (m - 1) as nat);
        let before = edge_tallest(cols, per, dir, i, (m - 1) as nat);
        let k = choose|k: int| 0 <= k < m - 1 && before == cols.height[#[trigger] edge_column(cols.side, per, dir, i, k)];
        let c = edge_column(cols.side, per, dir, i, m - 1);
        if cols.height[c] > before {
            assert(edge_tallest(cols, per, dir, i, m) == cols.height[edge_column(cols.side, per, dir, i, m - 1)]);
        } else {
            assert(edge_tallest(cols, per, dir, i, m) == cols.height[edge_column(cols.side, per, dir, i, k)]);
        }
    } else {
        reveal_with_fuel(edge_tallest, 2);
        assert(edge_tallest(cols, per, dir, i, m) == cols.height[edge_column(cols.side, per, dir, i, 0)]);
    }
}

/// The lowest of the edge cells across one of ours.
proof fn lemma_edge_lowest(cols: Columns, g: int, dir: int, n: int, k: int, m: nat)
    ensures
        forall|i: int|
            0 <= i < m && #[trigger] overlap(i, g, k, n) ==> edge_lowest(cols, g, dir, n, k, m) <= edge_tallest(
                cols, cols.side / g, dir, i, ((cols.side / g) * (cols.side / g)) as nat),
        edge_lowest(cols, g, dir, n, k, m) < i16::MAX ==> exists|i: int|
            0 <= i < m && #[trigger] overlap(i, g, k, n) && edge_lowest(cols, g, dir, n, k, m) == edge_tallest(
                cols, cols.side / g, dir, i, ((cols.side / g) * (cols.side / g)) as nat),
    decreases m,
{
    if m > 0 {
        lemma_edge_lowest(cols, g, dir, n, k, (m - 1) as nat);
        let per = cols.side / g;
        let before = edge_lowest(cols, g, dir, n, k, (m - 1) as nat);
        let h = edge_tallest(cols, per, dir, m - 1, (per * per) as nat);
        let now = edge_lowest(cols, g, dir, n, k, m);
        if overlap(m - 1, g, k, n) && h < before {
            assert(now == h);
        } else if now < i16::MAX {
            let i = choose|i: int|
                0 <= i < m - 1 && #[trigger] overlap(i, g, k, n) && before == edge_tallest(
                    cols, cols.side / g, dir, i, ((cols.side / g) * (cols.side / g)) as nat);
            assert(overlap(i, g, k, n));
        }
    }
}

/// A neighbour's edge shows to each of our cells the lowest of its own cells
/// that it shares blocks with, so that a wall down to it leaves no gap.
pub proof fn law_edges_show_the_lowest(cols: Columns, scale: int, dir: int, n: int, k: int, i: int)
    requires
        0 <= k < n,
        0 <= i < cells_along(cols.side, scale),
        i * (16int / cells_along(cols.side, scale)) < (k + 1) * (16int / n),
        k * (16int / n) < (i + 1) * (16int / cells_along(cols.side, scale)),
        cols.side / cells_along(cols.side, scale) >= 1,
    ensures
        ({
            let g = cells_along(cols.side, scale);
            let per = cols.side / g;
            let low = edge_of(cols, scale, dir, n)[k];
            // Some column of their cell is as high as what is shown, or higher.
            &&& exists|m: int| 0 <= m < per * per && low <= cols.height[#[trigger] edge_column(cols.side, per, dir, i, m)]
            &&& low < i16::MAX ==> exists|j: int, m: int|
                0 <= j < g && 0 <= m < per * per && overlap(j, g, k, n) && low == cols.height[#[trigger] edge_column(
                    cols.side, per, dir, j, m)]
        }),
{
    let g = cells_along(cols.side, scale);
    let per = cols.side / g;
    let all = (per * per) as nat;
    assert(per * per >= 1) by (nonlinear_arith)
        requires
            per >= 1,
    ;
    let low = edge_of(cols, scale, dir, n)[k];
    lemma_edge_lowest(cols, g, dir, n, k, g as nat);
    assert(overlap(i, g, k, n));
    lemma_edge_tallest(cols, per, dir, i, all);
    let m = choose|m: int| 0 <= m < all && edge_tallest(cols, per, dir, i, all) == cols.height[#[trigger] edge_column(
        cols.side, per, dir, i, m)];
    assert(low <= cols.height[edge_column(cols.side, per, dir, i, m)]);
    if low < i16::MAX {
        let j = choose|j: int|
            0 <= j < g && #[trigger] overlap(j, g, k, n) && low == edge_tallest(cols, per, dir, j, all);
        lemma_edge_tallest(cols, per, dir, j, all);
        let q = choose|q: int| 0 <= q < all && edge_tallest(cols, per, dir, j, all) == cols.height[#[trigger] edge_column(
            cols.side, per, dir, j, q)];
        assert(low == cols.height[edge_column(cols.side, per, dir, j, q)]);
    }
}

/// The columns of an edge: a full record's on the side that faces us, the
/// last along x to our west, the first to our east, and so along z.
pub proof fn law_edges_face_us(dir: int, i: int)
    requires
        0 <= i < 16,
        0 <= dir < 4,
    ensures
        edge_column(16, 1, 0, i, 0) == 15 + i * 16,
        edge_column(16, 1, 1, i, 0) == i * 16,
        edge_column(16, 1, 2, i, 0) == i + 15 * 16,
        edge_column(16, 1, 3, i, 0) == i,
{
    assert(i * 1 == i && 0int / 1 == 0 && 0int % 1 == 0);
}

} // verus!
