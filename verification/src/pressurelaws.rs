//! The grid of aquifer cells, and the pressure between them.

use vstd::prelude::*;
use vstd::arithmetic::power2::{lemma2_to64, lemma2_to64_rest, pow2};
use crate::aquifer26::{anchor_of, cell_around, location, offset_x, offset_z, pressure_gradient, Waters, FIVE_HALVES, TEN};
use crate::arith::{reply, Ask, HALF, THREE, THREE_HALVES, TWO, ZERO};
use crate::df26::wrapped;
use crate::numbers::{
    correct64, is64, lemma_abs64, lemma_add64, lemma_bits64, lemma_exact64, lemma_finer64, lemma_int64, lemma_known64, lemma_mul64,
    lemma_order64, lemma_sub64, lemma_shrink64, lemma_zero64, one64, worth64,
};
use crate::xoroshiro::{chosen_of, drawn, XoroshiroRandomSource, TRIES};

verus! {

/// A bounded draw of the wide source lies below its bound.
pub proof fn law_wide_bounded_draws_lie_below(g: XoroshiroRandomSource, bound: int, tries: nat)
    requires
        0 < bound < 0x1_0000_0000,
    ensures
        0 <= drawn(g, bound, tries).0 < bound,
    decreases tries,
{
    lemma_chosen((g.long() % 0x1_0000_0000) as int, g.stepped(), bound, tries);
}

proof fn lemma_chosen(bits: int, g: XoroshiroRandomSource, bound: int, tries: nat)
    requires
        0 <= bits < 0x1_0000_0000,
        0 < bound < 0x1_0000_0000,
    ensures
        0 <= chosen_of(bits, g, bound, tries).0 < bound,
    decreases tries,
{
    let m = bits * bound;
    assert(0 <= m / 0x1_0000_0000 < bound) by (nonlinear_arith)
        requires
            m == bits * bound,
            0 <= bits < 0x1_0000_0000,
            0 < bound,
    ;
    if tries > 0 {
        lemma_chosen((g.long() % 0x1_0000_0000) as int, g.stepped(), bound, (tries - 1) as nat);
    }
}

/// The centre of a cell lies in the cell: up to nine blocks in along x and z,
/// up to eight along y.
pub proof fn law_centres_lie_in_their_cells(w: Waters, gx: i32, gy: i32, gz: i32)
    requires
        -0x7ff_0000 < gx < 0x7ff_0000 && -0x7ff_0000 < gy < 0x7ff_0000 && -0x7ff_0000 < gz < 0x7ff_0000,
    ensures
        ({
            let (x, y, z) = location(w, gx, gy, gz);
            16 * gx <= x <= 16 * gx + 9 && 12 * gy <= y <= 12 * gy + 8 && 16 * gz <= z <= 16 * gz + 9
        }),
{
    reveal(location);
    let first = w.factory.generator(gx, gy, gz);
    law_wide_bounded_draws_lie_below(first, 10, TRIES as nat);
    let g = drawn(first, 10, TRIES as nat).1;
    law_wide_bounded_draws_lie_below(g, 9, TRIES as nat);
    let h = drawn(g, 9, TRIES as nat).1;
    law_wide_bounded_draws_lie_below(h, 10, TRIES as nat);
}

/// A block is placed among twelve cells: the two along x and along z, and the
/// three along y, that are nearest to it.
pub proof fn law_twelve_cells_surround(x: int, y: int, z: int, dx: int, dy: int, dz: int)
    requires
        -0x7fff_0000 < x < 0x7fff_0000 && -0x7fff_0000 < y < 0x7fff_0000 && -0x7fff_0000 < z < 0x7fff_0000,
        0 <= dx <= 1 && -1 <= dy <= 1 && 0 <= dz <= 1,
    ensures
        ({
            let (a, b, c) = anchor_of(x, y, z);
            &&& 16 * a + 5 <= x <= 16 * a + 20 && 12 * b - 1 <= y <= 12 * b + 10 && 16 * c + 5 <= z <= 16 * c + 20
            &&& exists|k: int| 0 <= k < 12 && #[trigger] cell_around((a, b, c), k) == ((a + dx) as i32, (b + dy) as i32, (c + dz) as i32)
        }),
{
    let (a, b, c) = anchor_of(x, y, z);
    let k = dx * 6 + (dy + 1) * 2 + dz;
    assert(k / 6 == dx && (k / 2) % 3 - 1 == dy && k % 2 == dz);
    assert(cell_around((a, b, c), k) == ((a + dx) as i32, (b + dy) as i32, (c + dz) as i32));
}

/// A chunk whose surface counts for a cell.
pub open spec fn counts_around(dx: int, dz: int) -> bool {
    -1 <= dz <= 1 && dx <= 1 && dx >= if dz == 0 { -3int } else { -2 }
}

/// The surfaces of thirteen chunks count, each once, and a cell's own first:
/// its row from three chunks back to one ahead, and the rows beside it from
/// two back to one ahead.
pub proof fn law_thirteen_surfaces_count(i: int, j: int, dx: int, dz: int)
    requires
        0 <= i < 13,
        0 <= j < 13,
        counts_around(dx, dz),
    ensures
        counts_around(offset_x(i), offset_z(i)),
        offset_x(i) == offset_x(j) && offset_z(i) == offset_z(j) ==> i == j,
        exists|k: int| 0 <= k < 13 && #[trigger] offset_x(k) == dx && offset_z(k) == dz,
        offset_x(0) == 0 && offset_z(0) == 0,
{
    let k = if dz == -1 {
        dx + 3
    } else if dz == 1 {
        dx + 11
    } else if dx == 0 {
        0
    } else if dx == 1 {
        8
    } else {
        dx + 8
    };
    assert(offset_x(k) == dx && offset_z(k) == dz);
}

/// A quotient that is whole.
proof fn lemma_ratio<F: Fn(Ask) -> u64>(f: F, a: u64, b: u64, n: int, m: int, q: int, k: int)
    requires
        correct64(f),
        is64(a, n, k),
        is64(b, m, k),
        m > 0,
        n == q * m,
        -0x20_0000_0000_0000 < q < 0x20_0000_0000_0000,
    ensures
        is64(reply(f, Ask::Div64(a, b)), q, 0),
{
    reveal(correct64);
    let p = pow2((1074 - k) as nat) as int;
    vstd::arithmetic::power2::lemma_pow2_pos((1074 - k) as nat);
    let u = one64();
    assert(m * p > 0) by (nonlinear_arith)
        requires
            m > 0,
            p > 0,
    ;
    assert(((q * m) * p) * u == (q * u) * (m * p)) by (nonlinear_arith);
    lemma_exact64(reply(f, Ask::Div64(a, b)), worth64(a) * u, worth64(b), q, 1074);
}

/// The pressure at a height between two levels: how far the middle of the
/// block lies from the level that is nearer, in halves of a block, is taken
/// over two and a half outside of both levels; inside, above the middle of
/// both, over one and a half. From the middle down it counts three blocks
/// more, and over three, or outside over ten.
pub proof fn law_pressure_between_levels<F: Fn(Ask) -> u64>(f: F, y: i32, l1: i32, l2: i32, q: int)
    requires
        correct64(f),
        -0x1000_0000 < y < 0x1000_0000 && -0x1000_0000 < l1 < 0x1000_0000 && -0x1000_0000 < l2 < 0x1000_0000,
        0 <= q < 0x1000_0000,
    ensures
        ({
            let above = 2 * y + 1 - (l1 + l2);
            let (lower, upper) = if l1 < l2 { (l1, l2) } else { (l2, l1) };
            let inward = if above > 0 { 2 * upper - (2 * y + 1) } else { 2 * y + 1 - 2 * lower };
            let p = pressure_gradient(f, y, l1, l2);
            &&& above > 0 && inward == 3 * q ==> is64(p, q, 0)
            &&& above > 0 && inward == -5 * q ==> is64(p, -q, 0)
            &&& above <= 0 && inward + 6 == 6 * q ==> is64(p, q, 0)
            &&& above <= 0 && inward + 6 == -20 * q ==> is64(p, -q, 0)
        }),
{
    lemma2_to64();
    lemma2_to64_rest();
    lemma_known64();
    let diff = if l1 < l2 { l2 - l1 } else { l1 - l2 };
    let sum = l1 + l2;
    lemma_int64(f, wrapped(sum));
    let total = reply(f, Ask::FromInt64(wrapped(sum)));
    lemma_mul64(f, HALF, total, 1, sum, 1, 0);
    let average = reply(f, Ask::Mul64(HALF, total));
    lemma_int64(f, y);
    let height = reply(f, Ask::FromInt64(y));
    lemma_finer64(height, y as int, 0, 1);
    lemma_add64(f, height, HALF, y * 2, 1, 1);
    let middle = reply(f, Ask::Add64(height, HALF));
    let a = 2 * y + 1 - sum;
    lemma_sub64(f, middle, average, y * 2 + 1, sum, 1);
    let above = reply(f, Ask::Sub64(middle, average));
    lemma_int64(f, wrapped(diff));
    let whole = reply(f, Ask::FromInt64(wrapped(diff)));
    lemma_shrink64(f, whole, TWO, diff as int, 0, 1);
    let base = reply(f, Ask::Div64(whole, TWO));
    lemma_abs64(f, above, a, 1);
    let size = if a < 0 { -a } else { a };
    lemma_sub64(f, base, reply(f, Ask::Abs64(above)), diff as int, size, 1);
    let inward = reply(f, Ask::Sub64(base, reply(f, Ask::Abs64(above))));
    let n = diff - size;
    lemma_zero64(1);
    lemma_order64(f, ZERO, above, 0, a, 1);
    lemma_bits64(THREE_HALVES, 3, 1, 51);
    lemma_bits64(FIVE_HALVES, 5, 1, 50);
    lemma_bits64(THREE, 3, 0, 51);
    lemma_bits64(TEN, 10, 0, 49);
    lemma_finer64(THREE, 3, 0, 1);
    lemma_finer64(TEN, 10, 0, 1);
    if a > 0 {
        lemma_add64(f, ZERO, inward, 0, n, 1);
        let c = reply(f, Ask::Add64(ZERO, inward));
        lemma_order64(f, ZERO, c, 0, n, 1);
        if n == 3 * q && n > 0 {
            lemma_ratio(f, c, THREE_HALVES, n, 3, q, 1);
        }
        if n == -5 * q {
            lemma_ratio(f, c, FIVE_HALVES, n, 5, -q, 1);
        }
    } else {
        lemma_add64(f, THREE, inward, 6, n, 1);
        let c = reply(f, Ask::Add64(THREE, inward));
        lemma_order64(f, ZERO, c, 0, 6 + n, 1);
        if 6 + n == 6 * q && 6 + n > 0 {
            lemma_ratio(f, c, THREE, 6 + n, 6, q, 1);
        }
        if 6 + n == -20 * q {
            lemma_ratio(f, c, TEN, 6 + n, 20, -q, 1);
        }
    }
}

} // verus!
