//! Climates: what coordinates are worth, how far a climate lies from a
//! region, and what a search keeps.

use vstd::prelude::*;
use vstd::arithmetic::power2::{lemma2_to64, pow2};
use crate::arith::{low, reply, Ask};
use crate::climate::{quantized, QUANTIZATION_FACTOR};
use crate::numbers::{correct32, finite32, is32, lemma_bits32, lemma_mul32, one32, worth32};
use crate::rtree::{far, found, gap, has_leaf, scanned, tame, tame_box, Parameter, Tree};

verus! {

/// Singles are cut to whole numbers towards zero.
pub open spec fn cuts_singles<F: Fn(Ask) -> u64>(f: F) -> bool {
    forall|a: u32|
        finite32(a) && -0x8000_0000 * one32() <= worth32(a) <= 0x8000_0000 * one32() ==> (#[trigger] reply(f, Ask::ToLong32(a))) as i64
            == (if worth32(a) < 0 { -(-worth32(a) / one32()) } else { worth32(a) / one32() })
}

/// A coordinate counts ten thousandths, cut towards zero.
pub proof fn law_coordinates_count_ten_thousandths<F: Fn(Ask) -> u64>(f: F, coord: u32, n: int, k: nat)
    requires
        correct32(f),
        cuts_singles(f),
        is32(coord, n, k as int),
        k <= 20,
        -0x600 < n < 0x600,
    ensures
        quantized(f, coord) == if n < 0 { -((-n * 10000) / (pow2(k) as int)) } else { (n * 10000) / (pow2(k) as int) },
{
    lemma2_to64();
    lemma_bits32(QUANTIZATION_FACTOR, 10000, 0, 10);
    lemma_mul32(f, coord, QUANTIZATION_FACTOR, n, 10000, k as int, 0);
    let m = low(f, Ask::Mul32(coord, QUANTIZATION_FACTOR));
    let p = pow2((149 - k) as nat) as int;
    let e = pow2(k) as int;
    vstd::arithmetic::power2::lemma_pow2_pos((149 - k) as nat);
    vstd::arithmetic::power2::lemma_pow2_pos(k);
    vstd::arithmetic::power2::lemma_pow2_adds(k, (149 - k) as nat);
    let v = n * 10000;
    assert(e * p == one32());
    assert((v < 0) == (v * p < 0) && -(v * p) == (-v) * p) by (nonlinear_arith)
        requires
            p > 0,
    ;
    assert(-0x8000_0000 * (e * p) <= v * p <= 0x8000_0000 * (e * p)) by (nonlinear_arith)
        requires
            -0x8000_0000 <= v <= 0x8000_0000,
            e >= 1,
            p > 0,
    ;
    assert(p * v == v * p && p * (-v) == (-v) * p && p * e == e * p) by (nonlinear_arith);
    let w = if v < 0 { -v } else { v };
    assert(w * p >= 0) by (nonlinear_arith)
        requires
            w >= 0,
            p > 0,
    ;
    vstd::arithmetic::div_mod::lemma_div_denominator(w * p, p, e);
    vstd::arithmetic::div_mod::lemma_div_by_multiple(w, p);
}

/// The way from a coordinate to an interval: no longer than to any number in
/// it, and as long as to the one that it is held to.
pub proof fn law_gap_is_the_way(p: Parameter, target: i64, v: i64)
    requires
        p.min <= v <= p.max,
        tame(p.min) && tame(p.max) && tame(target),
    ensures
        0 <= gap(p, target),
        gap(p, target) <= way(v as int, target as int),
        gap(p, target) == way(held(p, target), target as int),
{
}

/// How far two numbers are apart.
pub open spec fn way(a: int, b: int) -> int {
    if a < b { b - a } else { a - b }
}

/// A coordinate held to an interval.
pub open spec fn held(p: Parameter, target: i64) -> int {
    if target < p.min {
        p.min as int
    } else if target > p.max {
        p.max as int
    } else {
        target as int
    }
}

/// The square of the way along an axis.
pub open spec fn squared_way(space: Seq<Parameter>, target: Seq<i64>, d: int) -> int {
    way(held(space[d], target[d]), target[d] as int) * way(held(space[d], target[d]), target[d] as int)
}

/// How far a climate lies from a region: the squares of the ways along the
/// seven axes, added up.
pub proof fn law_far_is_the_sum_of_squares(space: Seq<Parameter>, target: Seq<i64>)
    requires
        tame_box(space),
        forall|d: int| 0 <= d < 7 ==> (#[trigger] space[d]).min <= space[d].max,
        target.len() == 7,
        forall|d: int| 0 <= d < 7 ==> tame(#[trigger] target[d]),
    ensures
        far(space, target, 7) == squared_way(space, target, 0) + squared_way(space, target, 1) + squared_way(space, target, 2)
            + squared_way(space, target, 3) + squared_way(space, target, 4) + squared_way(space, target, 5) + squared_way(space, target, 6),
{
    reveal_with_fuel(far, 8);
    lemma_axis(space, target, 0);
    lemma_axis(space, target, 1);
    lemma_axis(space, target, 2);
    lemma_axis(space, target, 3);
    lemma_axis(space, target, 4);
    lemma_axis(space, target, 5);
    lemma_axis(space, target, 6);
}

proof fn lemma_axis(space: Seq<Parameter>, target: Seq<i64>, d: int)
    requires
        tame_box(space),
        0 <= d < 7,
        space[d].min <= space[d].max,
        target.len() == 7,
        tame(target[d]),
    ensures
        gap(space[d], target[d]).wrapping_mul(gap(space[d], target[d])) == squared_way(space, target, d),
        0 <= squared_way(space, target, d) <= 0x1000_0000_0000_0000,
{
    assert(tame(space[d].min));
    let g = gap(space[d], target[d]);
    assert(0 <= g * g <= 0x1000_0000_0000_0000) by (nonlinear_arith)
        requires
            0 <= g <= 0x4000_0000,
    ;
}

/// A search that starts from a region as near as every other keeps it.
pub proof fn law_ties_keep_the_candidate(spaces: Seq<Seq<Parameter>>, t: Tree, target: Seq<i64>, c: int)
    requires
        t is Sub,
        forall|id: int| #[trigger] has_leaf(t, id) ==> far(spaces[c], target, 7) <= far(spaces[id], target, 7),
    ensures
        found(spaces, t, target, Some(c)) == Some(c),
    decreases t, 0nat,
{
    let kids = t->1;
    assert forall|k: int, id: int| 0 <= k < kids.len() && #[trigger] has_leaf(kids[k], id) implies far(spaces[c], target, 7) <= far(
        spaces[id], target, 7) by {
        assert(has_leaf(t, id));
    }
    lemma_scan_keeps(spaces, kids, 0, target, c);
}

proof fn lemma_scan_keeps(spaces: Seq<Seq<Parameter>>, kids: Seq<Tree>, i: int, target: Seq<i64>, c: int)
    requires
        0 <= i <= kids.len(),
        forall|k: int, id: int|
            0 <= k < kids.len() && #[trigger] has_leaf(kids[k], id) ==> far(spaces[c], target, 7) <= far(spaces[id], target, 7),
    ensures
        scanned(spaces, kids, i, target, Some(c), far(spaces[c], target, 7)) == Some(c),
    decreases kids, kids.len() - i,
{
    if i < kids.len() {
        lemma_scan_keeps(spaces, kids, i + 1, target, c);
        if kids[i] is Sub {
            law_ties_keep_the_candidate(spaces, kids[i], target, c);
        } else {
            assert(has_leaf(kids[i], kids[i]->Leaf_0));
        }
    }
}

} // verus!
