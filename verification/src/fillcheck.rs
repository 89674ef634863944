//! The fused fill computes the density that the tree itself has.

use vstd::prelude::*;
use crate::aquifer26::{block_at, filled, Substance, Waters};
use crate::arith::{holds, low, reply, Ask, ZERO};
use crate::df26::{
    block_sampled, cell_fill, cells_in, corner_lattice, lattice, marked_range, on_cells, one, rows_with, sampled, sampled_rows,
    sound, strict_max, two, within, Binary, Lattice, Node, Slab, Unary,
};
use crate::dfcache::agrees;
use crate::dfparts::{
    beside_corners, by_block, by_cells, honest, law_caches_stay_honest, law_cells_sample_parts_alike,
    law_needed_rows_are_the_wholes, of_blocks, parts_alike,
};
use crate::dfsample::{lemma_cell_of, lemma_index, solid};
use crate::fill26::{
    abs_of, cells_of, combined, five_grids, max_of, min_of, noodle_of, plan_of, scale_of, shape_of, squeeze_of, sum_of, Plan, Shape,
    FLUID_UPDATE_BIT, MINUS_MILLION_32, SIXTY_FOUR_32, THREE_HALVES_32,
};
use crate::volume::Volume;

verus! {

/// A volume of blocks that are not themselves the corners of cells.
pub open spec fn between_corners(v: Lattice, s: Shape) -> bool {
    v.tx == 1 && v.ty == 1 && v.tz == 1 && !on_cells(v, s.cell_xz as int, s.cell_y as int)
}

/// An interpolated input over blocks.
proof fn lemma_interpolated<F: Fn(Ask) -> u64>(f: F, n: Node, v: Lattice, xz: i32, h: i32, inner: Node, c: Seq<Slab>)
    requires
        cells_of(n) == Some((xz, h, inner)),
        v.tx == 1 && v.ty == 1 && v.tz == 1,
        !on_cells(v, xz as int, h as int),
    ensures
        sampled(f, n, v, c) == block_sampled(f, inner, v, xz, h, c),
{
}

/// The constants of the noodle part are the very numbers that it is
/// recognised by.
pub open spec fn plain_noodle(n: Node) -> bool {
    n matches Node::RangeChoice { min_inclusive, max_exclusive, when_in_range, when_out_of_range, .. } && {
        &&& min_inclusive == MINUS_MILLION_32
        &&& max_exclusive == 0
        &&& *when_in_range == Node::Constant(SIXTY_FOUR_32)
        &&& sum_of(*when_out_of_range) matches Some((_, scaled)) && (scale_of(scaled) matches Some((_, factor)) && factor
            == THREE_HALVES_32)
    }
}

/// The constants of the overworld shape are the very numbers.
pub open spec fn plain_shape(n: Node) -> bool {
    sum_of(n) matches Some((low_part, _)) && (min_of(low_part) matches Some((_, noodle)) && plain_noodle(noodle))
}

/// Beyond the noodles: the thickness plus 1.5 times the larger ridge.
pub open spec fn beyond<F: Fn(Ask) -> u64>(f: F, thick: u32, a: u32, b: u32) -> u32 {
    low(
        f,
        Ask::Add32(
            thick,
            low(f, Ask::Mul32(strict_max(f, low(f, Ask::Abs32(a)), low(f, Ask::Abs32(b))), THREE_HALVES_32)),
        ),
    )
}

/// The part of the noodles that lies out of range, sampled over blocks.
proof fn lemma_beyond<F: Fn(Ask) -> u64>(f: F, o: Node, v: Lattice, xz: i32, h: i32, t: Node, a: Node, b: Node, c: Seq<Slab>, i: int)
    requires
        sum_of(o) matches Some((thick, scaled)) && cells_of(thick) == Some((xz, h, t)) && (scale_of(scaled) matches Some((ridges, k)) && k
            == THREE_HALVES_32 && (max_of(ridges) matches Some((p, q)) && (abs_of(p) matches Some(x) && cells_of(x) == Some(
            (xz, h, a))) && (abs_of(q) matches Some(y) && cells_of(y) == Some((xz, h, b))))),
        v.tx == 1 && v.ty == 1 && v.tz == 1,
        !on_cells(v, xz as int, h as int),
        0 <= i < v.count(),
    ensures
        ({
            let w = corner_lattice(v, xz as int, h as int);
            let (tb, d) = sampled(f, t, w, c);
            let (ab, e) = sampled(f, a, w, d);
            let (bb, _) = sampled(f, b, w, e);
            sampled(f, o, v, c).0[i] == beyond(
                f,
                cell_fill(f, tb, w, v, xz, h, i),
                cell_fill(f, ab, w, v, xz, h, i),
                cell_fill(f, bb, w, v, xz, h, i),
            )
        }),
{
    let (thick, scaled) = sum_of(o).unwrap();
    let (ridges, _) = scale_of(scaled).unwrap();
    let (p, q) = max_of(ridges).unwrap();
    let (x, y) = (abs_of(p).unwrap(), abs_of(q).unwrap());
    let w = corner_lattice(v, xz as int, h as int);
    let (tb, d) = sampled(f, t, w, c);
    let (ab, e) = sampled(f, a, w, d);
    lemma_interpolated(f, thick, v, xz, h, t, c);
    lemma_interpolated(f, x, v, xz, h, a, d);
    lemma_interpolated(f, y, v, xz, h, b, e);
    let n = v.count() as nat;
    let (pb, pd) = sampled(f, p, v, d);
    assert(pb[i] == one(f, Unary::Abs, sampled(f, x, v, d).0[i]));
    let qb = sampled(f, q, v, pd).0;
    assert(qb[i] == one(f, Unary::Abs, sampled(f, y, v, e).0[i]));
    let rb = sampled(f, ridges, v, d).0;
    assert(rb[i] == two(f, Binary::Max, pb[i], qb[i]));
    let sb = sampled(f, scaled, v, d).0;
    assert(sb[i] == one(f, Unary::MulConst(THREE_HALVES_32), rb[i]));
    assert(sampled(f, o, v, c).0[i] == two(f, Binary::Add, sampled(f, thick, v, c).0[i], sb[i]));
}

/// A block lies outside of the noodles' range, by the toggle's corners.
pub open spec fn lies_outside<F: Fn(Ask) -> u64>(f: F, tb: Seq<u32>, w: Lattice, v: Lattice, xz: i32, h: i32, i: int) -> bool {
    !within(f, cell_fill(f, tb, w, v, xz, h, i), MINUS_MILLION_32, 0)
}

/// Which blocks the toggle takes in.
proof fn lemma_toggle<F: Fn(Ask) -> u64>(f: F, n: Node, v: Lattice, xz: i32, h: i32, t: Node, c: Seq<Slab>)
    requires
        cells_of(n) == Some((xz, h, t)),
        v.tx == 1 && v.ty == 1 && v.tz == 1,
        !on_cells(v, xz as int, h as int),
    ensures
        ({
            let w = corner_lattice(v, xz as int, h as int);
            let (tb, d) = sampled(f, t, w, c);
            let (m, e) = marked_range(f, n, v, c, MINUS_MILLION_32, 0);
            &&& e == d
            &&& m.len() == v.count() as nat
            &&& forall|j: int| 0 <= j < v.count() ==> #[trigger] m[j] == !lies_outside(f, tb, w, v, xz, h, j)
        }),
{
    lemma_interpolated(f, n, v, xz, h, t, c);
}

/// The noodle part over blocks: 64 where the toggle takes a block in, else
/// what lies beyond.
proof fn lemma_noodle<F: Fn(Ask) -> u64>(
    f: F, n: Node, v: Lattice, xz: i32, h: i32, t: Node, thick: Node, a: Node, b: Node, c: Seq<Slab>, i: int,
    inputs: Map<usize, Node>,
)
    requires
        sound(n),
        agrees(n, inputs),
        honest(f, c, inputs),
        plain_noodle(n),
        noodle_of(f, n) matches Some((x, y, z, u)) && cells_of(x) == Some((xz, h, t)) && cells_of(y) == Some((xz, h, thick))
            && cells_of(z) == Some((xz, h, a)) && cells_of(u) == Some((xz, h, b)),
        solid(v),
        -0x8000_0000 <= v.y <= 0x7fff_ffff,
        v.tx == 1 && v.ty == 1 && v.tz == 1,
        !on_cells(v, xz as int, h as int),
        0 <= i < v.count(),
        v.sy >= 16 ==> parts_alike(f, *n->when_out_of_range, v, inputs),
    ensures
        ({
            let w = corner_lattice(v, xz as int, h as int);
            let (tb, d) = sampled(f, t, w, c);
            let (kb, e) = sampled(f, thick, w, d);
            let (ab, g) = sampled(f, a, w, e);
            let (bb, _) = sampled(f, b, w, g);
            sampled(f, n, v, c).0[i] == (if lies_outside(f, tb, w, v, xz, h, i) {
                beyond(
                    f,
                    cell_fill(f, kb, w, v, xz, h, i),
                    cell_fill(f, ab, w, v, xz, h, i),
                    cell_fill(f, bb, w, v, xz, h, i),
                )
            } else {
                SIXTY_FOUR_32
            })
        }),
{
    let w = corner_lattice(v, xz as int, h as int);
    let (tb, d) = sampled(f, t, w, c);
    let choice = *n->choice;
    let o = *n->when_out_of_range;
    lemma_toggle(f, choice, v, xz, h, t, c);
    let (m, e) = marked_range(f, choice, v, c, MINUS_MILLION_32, 0);
    let need_in = rows_with(m, v, true);
    let need_out = rows_with(m, v, false);
    lemma_beyond(f, o, v, xz, h, thick, a, b, d, i);
    assert(honest(f, d, inputs)) by {
        lemma_interpolated(f, choice, v, xz, h, t, c);
        law_caches_stay_honest(f, choice, v, c, inputs);
    }
    let by_rows = v.sy >= 16 && v.ty == 1;
    lemma_index(v, i);
    let rb = sampled(f, n, v, c).0;
    if m[i] {
        assert(need_in[v.iy(i)]);
        assert(need_in.contains(true));
    } else {
        assert(m[i] == false);
        assert(need_out[v.iy(i)]);
        assert(need_out.contains(true));
        law_needed_rows_are_the_wholes(f, o, need_out, by_rows, v, d, i, inputs);
    }
    if !need_in.contains(true) {
        assert(rb == sampled(f, o, v, d).0);
    } else if !need_out.contains(true) {
        assert(rb == sampled(f, Node::Constant(SIXTY_FOUR_32), v, d).0);
    } else {
        let k = sampled_rows(f, Node::Constant(SIXTY_FOUR_32), need_in, by_rows, v, d);
        assert(k.0[i] == SIXTY_FOUR_32 && k.1 == d);
        assert(rb[i] == (if m[i] { SIXTY_FOUR_32 } else { sampled_rows(f, o, need_out, by_rows, v, d).0[i] }));
    }
}

/// A fill without shortcuts samples every corner, and mixes the density of
/// every block.
pub(crate) proof fn lemma_plain_plan<F: Fn(Ask) -> u64>(f: F, s: Shape, waters: Waters, vol: Volume, skip_air: bool, i: int)
    requires
        s.cell_xz > 0,
        s.cell_y > 0,
        vol.fits(),
        0 <= i < vol.count(),
    ensures
        ({
            let p = plan_of(f, s, waters, vol, None, true, skip_air);
            let v = lattice(vol);
            let w = corner_lattice(v, s.cell_xz as int, s.cell_y as int);
            &&& p.grid == w
            &&& p.blocks == v
            &&& p.shape == s
            &&& p.beard is None
            &&& p.grids == five_grids(f, s, w)
            &&& p.filled(f, i).0 == p.mixed(f, i)
        }),
{
    let v = lattice(vol);
    let w = corner_lattice(v, s.cell_xz as int, s.cell_y as int);
    let p = plan_of(f, s, waters, vol, None, true, skip_air);
    assert(solid(v));
    assert(v.count() == vol.count());
    lemma_index(v, i);
    lemma_cell_of(v.y, v.sy, s.cell_y as int, v.iy(i));
    assert(w.sy <= cells_in(v.y, v.sy, s.cell_y as int) + 1);
    assert(p.grid == w);
    assert(p.cell(i).1 < p.air_from);
}

/// The tree over blocks: the squeezed main part and the noodle part, the
/// smaller one, and no structure.
proof fn lemma_tree<F: Fn(Ask) -> u64>(f: F, n: Node, s: Shape, v: Lattice, i: int)
    requires
        shape_of(f, n) == Some(s),
        between_corners(v, s),
        0 <= i < v.count(),
    ensures
        ({
            let w = corner_lattice(v, s.cell_xz as int, s.cell_y as int);
            let (mb, d) = sampled(f, s.main, w, Seq::empty());
            let noodle = min_of(sum_of(n).unwrap().0).unwrap().1;
            &&& sampled(f, n, v, Seq::empty()).0[i] == two(
                f,
                Binary::Add,
                two(
                    f,
                    Binary::Min,
                    one(f, Unary::Squeeze, cell_fill(f, mb, w, v, s.cell_xz, s.cell_y, i)),
                    sampled(f, noodle, v, d).0[i],
                ),
                0,
            )
            &&& noodle_of(f, noodle) matches Some((x, y, z, u)) && cells_of(x) == Some((s.cell_xz, s.cell_y, s.toggle)) && cells_of(y)
                == Some((s.cell_xz, s.cell_y, s.thickness)) && cells_of(z) == Some((s.cell_xz, s.cell_y, s.ridge_a)) && cells_of(u)
                == Some((s.cell_xz, s.cell_y, s.ridge_b))
        }),
{
    let (low_part, beard) = sum_of(n).unwrap();
    let (sq, noodle) = min_of(low_part).unwrap();
    let main_i = squeeze_of(sq).unwrap();
    let none = Seq::<Slab>::empty();
    lemma_interpolated(f, main_i, v, s.cell_xz, s.cell_y, s.main, none);
    let (sqb, d) = sampled(f, sq, v, none);
    let (rb, e) = sampled(f, noodle, v, d);
    let (lb, g) = sampled(f, low_part, v, none);
    assert(lb[i] == two(f, Binary::Min, sqb[i], rb[i]));
    assert(sampled(f, beard, v, g).0[i] == 0);
    assert(sampled(f, n, v, none).0[i] == two(f, Binary::Add, lb[i], sampled(f, beard, v, g).0[i]));
}

/// The five grids, one after the other.
proof fn lemma_grids<F: Fn(Ask) -> u64>(f: F, s: Shape, w: Lattice)
    ensures
        ({
            let (mb, d) = sampled(f, s.main, w, Seq::empty());
            let (tb, e) = sampled(f, s.toggle, w, d);
            let (kb, g) = sampled(f, s.thickness, w, e);
            let (ab, k) = sampled(f, s.ridge_a, w, g);
            let (bb, _) = sampled(f, s.ridge_b, w, k);
            let all = five_grids(f, s, w);
            &&& all[0] == mb
            &&& all[1] == tb
            &&& all[2] == kb
            &&& all[3] == ab
            &&& all[4] == bb
        }),
{
}

/// What lies beyond is mixed alike where the ridges are numbers.
proof fn lemma_mixed<F: Fn(Ask) -> u64>(f: F, main: u32, toggle: u32, thick: u32, a: u32, b: u32)
    requires
        !holds(f, Ask::Nan32(low(f, Ask::Abs32(a)))),
        !holds(f, Ask::Nan32(low(f, Ask::Abs32(b)))),
    ensures
        combined(f, main, toggle, thick, a, b, 0) == two(
            f,
            Binary::Add,
            two(
                f,
                Binary::Min,
                one(f, Unary::Squeeze, main),
                if !within(f, toggle, MINUS_MILLION_32, 0) { beyond(f, thick, a, b) } else { SIXTY_FOUR_32 },
            ),
            0,
        ),
{
}

/// Both ridges of a block are numbers.
pub open spec fn ridges_are_numbers<F: Fn(Ask) -> u64>(f: F, p: Plan, i: int) -> bool {
    &&& !holds(f, Ask::Nan32(low(f, Ask::Abs32(p.input(f, 3, i)))))
    &&& !holds(f, Ask::Nan32(low(f, Ask::Abs32(p.input(f, 4, i)))))
}

/// The part of the overworld shape beyond the noodles.
pub open spec fn beyond_part(n: Node) -> Node {
    *min_of(sum_of(n).unwrap().0).unwrap().1->when_out_of_range
}

/// The parts of a sound tree are sound.
pub(crate) proof fn lemma_beyond_sound<F: Fn(Ask) -> u64>(f: F, n: Node, s: Shape, inputs: Map<usize, Node>)
    requires
        shape_of(f, n) == Some(s),
        sound(n),
        agrees(n, inputs),
    ensures
        ({
            let (low_part, _) = sum_of(n).unwrap();
            let (sq, noodle) = min_of(low_part).unwrap();
            let main_i = squeeze_of(sq).unwrap();
            &&& sound(main_i) && agrees(main_i, inputs)
            &&& sound(noodle) && agrees(noodle, inputs)
            &&& sound(beyond_part(n)) && agrees(beyond_part(n), inputs)
            &&& s.cell_xz > 0 && s.cell_y > 0
        }),
{
    let (low_part, _) = sum_of(n).unwrap();
    let (sq, noodle) = min_of(low_part).unwrap();
    assert(sound(low_part) && agrees(low_part, inputs));
    assert(sound(sq) && agrees(sq, inputs));
    assert(sound(noodle) && agrees(noodle, inputs));
}

/// What lies beyond the noodles samples parts alike where its inputs go by
/// blocks and eight rows are filled by cells.
pub proof fn law_noodles_sample_parts_alike<F: Fn(Ask) -> u64>(f: F, n: Node, s: Shape, v: Lattice, inputs: Map<usize, Node>)
    requires
        shape_of(f, n) == Some(s),
        sound(n),
        agrees(n, inputs),
        s.cell_xz > 0,
        s.cell_y > 1,
        8int % (s.cell_y as int) == 0,
        by_block(f, s.thickness),
        by_block(f, s.ridge_a),
        by_block(f, s.ridge_b),
        of_blocks(v),
        beside_corners(v, s.cell_xz as int),
    ensures
        parts_alike(f, beyond_part(n), v, inputs),
{
    let o = beyond_part(n);
    let (thick, scaled) = sum_of(o).unwrap();
    let (ridges, _) = scale_of(scaled).unwrap();
    let (p, q) = max_of(ridges).unwrap();
    let (x, y) = (abs_of(p).unwrap(), abs_of(q).unwrap());
    assert(by_cells(f, thick, v) && by_cells(f, x, v) && by_cells(f, y, v));
    assert(by_cells(f, p, v) && by_cells(f, q, v));
    assert(by_cells(f, ridges, v));
    assert(by_cells(f, scaled, v));
    assert(by_cells(f, o, v));
    lemma_beyond_sound(f, n, s, inputs);
    law_cells_sample_parts_alike(f, o, v, inputs);
}

/// Away from structures, a fused fill that takes no shortcut gives each
/// block, bit by bit, the density that the tree has there, as long as the
/// block's ridges are numbers. In a volume of sixteen rows or more the tree
/// samples what lies beyond the noodles by rows, which has to sample parts
/// alike.
pub proof fn law_fused_density_is_the_trees<F: Fn(Ask) -> u64>(
    f: F, n: Node, s: Shape, waters: Waters, vol: Volume, skip_air: bool, i: int, inputs: Map<usize, Node>,
)
    requires
        shape_of(f, n) == Some(s),
        sound(n),
        agrees(n, inputs),
        plain_shape(n),
        vol.fits(),
        between_corners(lattice(vol), s),
        vol.size@[1] >= 16 ==> parts_alike(f, beyond_part(n), lattice(vol), inputs),
        0 <= i < vol.count(),
        ridges_are_numbers(f, plan_of(f, s, waters, vol, None, true, skip_air), i),
    ensures
        plan_of(f, s, waters, vol, None, true, skip_air).filled(f, i).0 == sampled(f, n, lattice(vol), Seq::empty()).0[i],
{
    let v = lattice(vol);
    let (xz, h) = (s.cell_xz, s.cell_y);
    let w = corner_lattice(v, xz as int, h as int);
    let p = plan_of(f, s, waters, vol, None, true, skip_air);
    let d = sampled(f, s.main, w, Seq::empty()).1;
    lemma_beyond_sound(f, n, s, inputs);
    lemma_plain_plan(f, s, waters, vol, skip_air, i);
    lemma_tree(f, n, s, v, i);
    lemma_grids(f, s, w);
    let noodle = min_of(sum_of(n).unwrap().0).unwrap().1;
    assert(solid(v) && v.count() == vol.count());
    assert(honest(f, d, inputs)) by {
        let main_i = squeeze_of(min_of(sum_of(n).unwrap().0).unwrap().0).unwrap();
        lemma_interpolated(f, main_i, v, xz, h, s.main, Seq::empty());
        law_caches_stay_honest(f, main_i, v, Seq::empty(), inputs);
    }
    lemma_noodle(f, noodle, v, xz, h, s.toggle, s.thickness, s.ridge_a, s.ridge_b, d, i, inputs);
    lemma_mixed(f, p.input(f, 0, i), p.input(f, 1, i), p.input(f, 2, i), p.input(f, 3, i), p.input(f, 4, i));
}

/// A substance's number without the mark of a fluid to be updated.
pub open spec fn without_update(id: u8) -> u8 {
    if id >= FLUID_UPDATE_BIT { (id - FLUID_UPDATE_BIT) as u8 } else { id }
}

/// A positive number stays positive when it is widened.
pub open spec fn widens_positive<F: Fn(Ask) -> u64>(f: F, d: u32) -> bool {
    holds(f, Ask::Less32(0, d)) ==> holds(f, Ask::Less64(ZERO, reply(f, Ask::Widen(d))))
}

/// Under the same conditions the fused fill gives each block the substance
/// that a fill by the tree gives it, and marks for an update none but water
/// and lava.
pub proof fn law_fused_substance_is_the_trees<F: Fn(Ask) -> u64>(
    f: F, n: Node, s: Shape, waters: Waters, vol: Volume, skip_air: bool, i: int, inputs: Map<usize, Node>,
)
    requires
        shape_of(f, n) == Some(s),
        sound(n),
        agrees(n, inputs),
        plain_shape(n),
        vol.fits(),
        between_corners(lattice(vol), s),
        vol.size@[1] >= 16 ==> parts_alike(f, beyond_part(n), lattice(vol), inputs),
        0 <= i < vol.count(),
        ridges_are_numbers(f, plan_of(f, s, waters, vol, None, true, skip_air), i),
        widens_positive(f, sampled(f, n, lattice(vol), Seq::empty()).0[i]),
    ensures
        ({
            let id = plan_of(f, s, waters, vol, None, true, skip_air).filled(f, i).1;
            let by_tree = filled(f, waters, vol, sampled(f, n, lattice(vol), Seq::empty()).0, i).0;
            &&& without_update(id) == Substance::id(by_tree)
            &&& id >= FLUID_UPDATE_BIT ==> by_tree == Some(Substance::Water) || by_tree == Some(Substance::Lava)
        }),
{
    law_fused_density_is_the_trees(f, n, s, waters, vol, skip_air, i, inputs);
    lemma_beyond_sound(f, n, s, inputs);
    lemma_plain_plan(f, s, waters, vol, skip_air, i);
    let v = lattice(vol);
    let p = plan_of(f, s, waters, vol, None, true, skip_air);
    let d = sampled(f, n, v, Seq::empty()).0[i];
    assert(p.filled(f, i).0 == d && p.mixed(f, i) == d);
    assert(block_at(vol, i) == (v.at_x(i), v.at_y(i), v.at_z(i)));
    assert(p.waters == waters);
    assert(solid(v));
    lemma_index(v, i);
    lemma_cell_of(v.y, v.sy, s.cell_y as int, v.iy(i));
    assert(p.cell(i).1 < p.air_from && !p.skip_solid);
}

} // verus!
