//! The bounds of single operations hold their values, where the elementary
//! answers grow with what they are asked of.

use vstd::prelude::*;
use crate::arith::{holds, lerped32, low, Ask, ONE_32};
use crate::boundcheck::{blended, fits, keeps_order, lemma_anything, lemma_less, lemma_total, lemma_transitive, lerp_holds, number};
use crate::bounds26::{
    anything, binary_bound, enclosed, hulled, lerp_bound, mapped, multiplied, negated, sized, unary_bound, unsure, INFINITY_32, MINUS_INFINITY_32,
};
use crate::df26::{clamped32, one, two, Binary, Unary};

verus! {

/// A number that is not infinite.
pub open spec fn finite<F: Fn(Ask) -> u64>(f: F, v: u32) -> bool {
    holds(f, Ask::Less32(MINUS_INFINITY_32, v)) && holds(f, Ask::Less32(v, INFINITY_32))
}

/// One number is at most another.
pub open spec fn le<F: Fn(Ask) -> u64>(f: F, a: u32, b: u32) -> bool {
    holds(f, Ask::LessEq32(a, b))
}

/// Two numbers are the same, up to the sign of zero.
pub open spec fn level<F: Fn(Ask) -> u64>(f: F, a: u32, b: u32) -> bool {
    le(f, a, b) && le(f, b, a)
}

/// The elementary answers grow with what they are asked of: sums with either
/// part, negatives against it, products with one part by the sign of the
/// other; the smaller of two is no smaller than what is below both, and the
/// larger no larger than what is above both. Zero adds nothing.
#[verifier::opaque]
pub open spec fn grows<F: Fn(Ask) -> u64>(f: F) -> bool {
    &&& forall|a: u32, b: u32| #[trigger] holds(f, Ask::Less32(a, b)) ==> le(f, a, b)
    &&& forall|a: u32, b: u32, c: u32, d: u32|
        le(f, a, b) && le(f, c, d) && number(f, low(f, Ask::Add32(a, c))) && number(f, low(f, Ask::Add32(b, d))) ==> #[trigger] le(
            f, low(f, Ask::Add32(a, c)), low(f, Ask::Add32(b, d)))
    &&& forall|a: u32, b: u32| le(f, a, b) ==> #[trigger] le(f, low(f, Ask::Neg32(b)), low(f, Ask::Neg32(a)))
    &&& forall|v: u32| number(f, #[trigger] low(f, Ask::Neg32(v))) == number(f, v)
    &&& forall|a: u32, b: u32|
        number(f, #[trigger] low(f, Ask::Sub32(a, b))) ==> low(f, Ask::Sub32(a, b)) == low(f, Ask::Add32(a, low(f, Ask::Neg32(b))))
    &&& forall|a: u32, b: u32, c: u32|
        le(f, a, b) && le(f, 0, c) && number(f, low(f, Ask::Mul32(a, c))) && number(f, low(f, Ask::Mul32(b, c))) ==> #[trigger] le(
            f, low(f, Ask::Mul32(a, c)), low(f, Ask::Mul32(b, c)))
    &&& forall|a: u32, b: u32, c: u32|
        le(f, a, b) && le(f, c, 0) && number(f, low(f, Ask::Mul32(a, c))) && number(f, low(f, Ask::Mul32(b, c))) ==> #[trigger] le(
            f, low(f, Ask::Mul32(b, c)), low(f, Ask::Mul32(a, c)))
    &&& forall|a: u32, b: u32| number(f, a) && number(f, b) ==> #[trigger] low(f, Ask::Mul32(a, b)) == low(f, Ask::Mul32(b, a))
    &&& forall|a: u32, b: u32| finite(f, a) && finite(f, b) ==> number(f, #[trigger] low(f, Ask::Mul32(a, b)))
    &&& forall|a: u32, b: u32| holds(f, Ask::Equal32(a, 0)) && finite(f, b) ==> level(f, #[trigger] low(f, Ask::Mul32(a, b)), 0)
    &&& forall|a: u32, b: u32, x: u32| le(f, x, a) && le(f, x, b) ==> #[trigger] le(f, x, low(f, Ask::Min32(a, b)))
    &&& forall|a: u32, b: u32, x: u32| le(f, a, x) && le(f, b, x) ==> #[trigger] le(f, low(f, Ask::Max32(a, b)), x)
    &&& forall|v: u32| le(f, 0, v) ==> level(f, #[trigger] low(f, Ask::Abs32(v)), v)
    &&& forall|v: u32| le(f, v, 0) ==> level(f, #[trigger] low(f, Ask::Abs32(v)), low(f, Ask::Neg32(v)))
    &&& level(f, 0, low(f, Ask::Neg32(0)))
    &&& number(f, 0)
    &&& forall|a: u32, b: u32| finite(f, a) && finite(f, b) ==> number(f, #[trigger] low(f, Ask::Sub32(a, b)))
    &&& forall|a: u32, b: u32| finite(f, a) && level(f, b, 0) ==> level(f, #[trigger] low(f, Ask::Add32(a, b)), a)
    &&& forall|a: u32, b: u32| #[trigger] holds(f, Ask::Equal32(a, b)) ==> level(f, a, b)
}

/// An operation on one value stays within the bounds that it has for some
/// bounds of the value.
pub open spec fn unary_holds<F: Fn(Ask) -> u64>(f: F, op: Unary, a: (u32, u32)) -> bool {
    forall|v: u32| number(f, v) && fits(f, a, v) && number(f, one(f, op, v)) ==> fits(f, unary_bound(f, op, a), #[trigger] one(f, op, v))
}

/// An operation on two values stays within the bounds that it has for some
/// bounds of the values.
pub open spec fn binary_holds<F: Fn(Ask) -> u64>(f: F, op: Binary, a: (u32, u32), b: (u32, u32)) -> bool {
    forall|u: u32, v: u32|
        number(f, u) && number(f, v) && fits(f, a, u) && fits(f, b, v) && number(f, two(f, op, u, v)) ==> fits(
            f, binary_bound(f, op, a, b), #[trigger] two(f, op, u, v))
}

/// Bounds are unknown, or finite.
pub open spec fn tight<F: Fn(Ask) -> u64>(f: F, a: (u32, u32)) -> bool {
    unsure(f, a) || (finite(f, a.0) && finite(f, a.1))
}

proof fn lemma_sum<F: Fn(Ask) -> u64>(f: F, a: (u32, u32), b: (u32, u32), u: u32, v: u32)
    requires
        keeps_order(f),
        grows(f),
        fits(f, a, u),
        fits(f, b, v),
        number(f, low(f, Ask::Add32(u, v))),
    ensures
        fits(f, crate::bounds26::added(f, a, b), low(f, Ask::Add32(u, v))),
{
    lemma_anything(f, low(f, Ask::Add32(u, v)));
    if !unsure(f, a) && !unsure(f, b) {
        reveal(grows);
        let (lo, hi) = (low(f, Ask::Add32(a.0, b.0)), low(f, Ask::Add32(a.1, b.1)));
        if number(f, lo) && number(f, hi) {
            assert(le(f, lo, low(f, Ask::Add32(u, v))));
            assert(le(f, low(f, Ask::Add32(u, v)), hi));
        }
    }
}

proof fn lemma_negated<F: Fn(Ask) -> u64>(f: F, a: (u32, u32), v: u32)
    requires
        keeps_order(f),
        grows(f),
        !unsure(f, a),
        fits(f, a, v),
    ensures
        fits(f, negated(f, a), low(f, Ask::Neg32(v))),
{
    reveal(grows);
    assert(le(f, a.0, v) && le(f, v, a.1));
    assert(le(f, low(f, Ask::Neg32(v)), low(f, Ask::Neg32(a.0))));
    assert(le(f, low(f, Ask::Neg32(a.1)), low(f, Ask::Neg32(v))));
}

/// The negative of unknown bounds is unknown or holds the negative: what is
/// negated is a number.
proof fn lemma_negated_any<F: Fn(Ask) -> u64>(f: F, a: (u32, u32), v: u32)
    requires
        keeps_order(f),
        grows(f),
        number(f, v),
        fits(f, a, v),
    ensures
        fits(f, negated(f, a), low(f, Ask::Neg32(v))),
{
    if !unsure(f, a) {
        lemma_negated(f, a, v);
    } else {
        reveal(grows);
    }
}

proof fn lemma_enclosed<F: Fn(Ask) -> u64>(f: F, vals: Seq<u32>, n: nat, j: int)
    requires
        keeps_order(f),
        n <= vals.len(),
        forall|i: int| 0 <= i < vals.len() ==> number(f, #[trigger] vals[i]),
        number(f, INFINITY_32),
        number(f, MINUS_INFINITY_32),
        forall|a: u32, b: u32| number(f, a) && number(f, b) ==> number(f, #[trigger] low(f, Ask::Min32(a, b))),
        forall|a: u32, b: u32| number(f, a) && number(f, b) ==> number(f, #[trigger] low(f, Ask::Max32(a, b))),
    ensures
        number(f, enclosed(f, vals, n).0),
        number(f, enclosed(f, vals, n).1),
        0 <= j < n ==> le(f, enclosed(f, vals, n).0, vals[j]) && le(f, vals[j], enclosed(f, vals, n).1),
    decreases n,
{
    if n > 0 {
        lemma_enclosed(f, vals, (n - 1) as nat, j);
        let (lo, hi) = enclosed(f, vals, (n - 1) as nat);
        let v = vals[n - 1];
        let (a, b) = enclosed(f, vals, n);
        assert(le(f, a, lo) && le(f, a, v) && le(f, hi, b) && le(f, v, b)) by {
            reveal(keeps_order);
        }
        if 0 <= j < n - 1 {
            lemma_transitive(f, a, lo, vals[j]);
            lemma_transitive(f, vals[j], hi, b);
        }
    }
}

/// The smaller and the larger of two numbers are numbers, and so are the
/// infinities.
proof fn lemma_numbers<F: Fn(Ask) -> u64>(f: F)
    requires
        keeps_order(f),
        grows(f),
    ensures
        number(f, INFINITY_32),
        number(f, MINUS_INFINITY_32),
        forall|a: u32, b: u32| number(f, a) && number(f, b) ==> number(f, #[trigger] low(f, Ask::Min32(a, b))),
        forall|a: u32, b: u32| number(f, a) && number(f, b) ==> number(f, #[trigger] low(f, Ask::Max32(a, b))),
{
    reveal(keeps_order);
    assert(number(f, 0)) by {
        reveal(grows);
    }
    assert(holds(f, Ask::LessEq32(MINUS_INFINITY_32, 0)) && holds(f, Ask::LessEq32(0, INFINITY_32)));
}

/// Bounds of some values hold each of them, and what lies between two.
proof fn lemma_hull<F: Fn(Ask) -> u64>(f: F, vals: Seq<u32>, i: int, j: int, v: u32)
    requires
        keeps_order(f),
        grows(f),
        0 <= i < vals.len(),
        0 <= j < vals.len(),
        le(f, vals[i], v),
        le(f, v, vals[j]),
    ensures
        fits(f, hulled(f, vals), v),
{
    lemma_total(f, vals[i], v);
    lemma_anything(f, v);
    if forall|k: int| 0 <= k < vals.len() ==> number(f, #[trigger] vals[k]) {
        lemma_numbers(f);
        lemma_enclosed(f, vals, vals.len(), i);
        lemma_enclosed(f, vals, vals.len(), j);
        let (lo, hi) = enclosed(f, vals, vals.len());
        lemma_transitive(f, lo, vals[i], v);
        lemma_transitive(f, v, vals[j], hi);
        assert(hulled(f, vals) == (lo, hi));
    } else {
        let k = choose|k: int| 0 <= k < vals.len() && !number(f, #[trigger] vals[k]);
        assert(holds(f, Ask::Nan32(vals[k])));
        assert(hulled(f, vals) == anything());
    }
}

/// Of two numbers one is at most the other.
proof fn lemma_either<F: Fn(Ask) -> u64>(f: F, a: u32, b: u32)
    requires
        keeps_order(f),
        grows(f),
        number(f, a),
        number(f, b),
    ensures
        le(f, a, b) || le(f, b, a),
{
    lemma_total(f, a, b);
    reveal(grows);
}

/// What lies between finite numbers is finite.
proof fn lemma_finite<F: Fn(Ask) -> u64>(f: F, a: u32, v: u32, b: u32)
    requires
        keeps_order(f),
        grows(f),
        finite(f, a),
        finite(f, b),
        le(f, a, v),
        le(f, v, b),
    ensures
        finite(f, v),
{
    lemma_numbers(f);
    lemma_less(f, v, b, INFINITY_32);
    lemma_total(f, v, b);
    lemma_total(f, v, MINUS_INFINITY_32);
    lemma_total(f, a, MINUS_INFINITY_32);
    if !holds(f, Ask::Less32(MINUS_INFINITY_32, v)) {
        assert(le(f, v, MINUS_INFINITY_32));
        lemma_transitive(f, a, v, MINUS_INFINITY_32);
    }
}

/// A product with one part fixed lies between those at the ends of the
/// other.
proof fn lemma_scaled<F: Fn(Ask) -> u64>(f: F, a: u32, x: u32, b: u32, c: u32) -> (r: bool)
    requires
        keeps_order(f),
        grows(f),
        finite(f, a) && finite(f, x) && finite(f, b) && finite(f, c),
        le(f, a, x),
        le(f, x, b),
    ensures
        ({
            let (p, v, q) = (low(f, Ask::Mul32(a, c)), low(f, Ask::Mul32(x, c)), low(f, Ask::Mul32(b, c)));
            if r { le(f, p, v) && le(f, v, q) } else { le(f, q, v) && le(f, v, p) }
        }),
{
    reveal(grows);
    lemma_total(f, a, x);
    lemma_total(f, c, c);
    assert(number(f, c)) by {
        reveal(keeps_order);
    }
    lemma_either(f, 0, c);
    let (p, v, q) = (low(f, Ask::Mul32(a, c)), low(f, Ask::Mul32(x, c)), low(f, Ask::Mul32(b, c)));
    assert(number(f, p) && number(f, v) && number(f, q));
    if le(f, 0, c) {
        assert(le(f, p, v) && le(f, v, q));
        true
    } else {
        assert(le(f, q, v) && le(f, v, p));
        false
    }
}

proof fn lemma_product<F: Fn(Ask) -> u64>(f: F, a: (u32, u32), b: (u32, u32), u: u32, v: u32)
    requires
        keeps_order(f),
        grows(f),
        tight(f, a),
        tight(f, b),
        number(f, low(f, Ask::Mul32(u, v))),
        fits(f, a, u),
        fits(f, b, v),
    ensures
        fits(f, multiplied(f, a, b), low(f, Ask::Mul32(u, v))),
{
    let m = low(f, Ask::Mul32(u, v));
    lemma_anything(f, m);
    if !unsure(f, a) && !unsure(f, b) {
        let vals = seq![
            low(f, Ask::Mul32(a.0, b.0)),
            low(f, Ask::Mul32(a.0, b.1)),
            low(f, Ask::Mul32(a.1, b.0)),
            low(f, Ask::Mul32(a.1, b.1)),
        ];
        let (i, j) = lemma_corners(f, a, b, u, v);
        lemma_hull(f, vals, i, j, m);
    }
}

proof fn lemma_commutes<F: Fn(Ask) -> u64>(f: F, a: u32, b: u32)
    requires
        keeps_order(f),
        grows(f),
        finite(f, a),
        finite(f, b),
    ensures
        low(f, Ask::Mul32(a, b)) == low(f, Ask::Mul32(b, a)),
{
    assert(number(f, a) && number(f, b)) by {
        reveal(keeps_order);
    }
    reveal(grows);
}

/// The smaller of two values.
proof fn lemma_min<F: Fn(Ask) -> u64>(f: F, a: (u32, u32), b: (u32, u32), u: u32, v: u32)
    requires
        keeps_order(f),
        grows(f),
        !unsure(f, a),
        !unsure(f, b),
        fits(f, a, u),
        fits(f, b, v),
    ensures
        fits(f, (low(f, Ask::Min32(a.0, b.0)), low(f, Ask::Min32(a.1, b.1))), low(f, Ask::Min32(u, v))),
{
    let (lo, m, hi) = (low(f, Ask::Min32(a.0, b.0)), low(f, Ask::Min32(u, v)), low(f, Ask::Min32(a.1, b.1)));
    lemma_total(f, a.0, u);
    lemma_total(f, b.0, v);
    assert(le(f, lo, a.0) && le(f, lo, b.0) && le(f, m, u) && le(f, m, v)) by {
        reveal(keeps_order);
    }
    lemma_transitive(f, lo, a.0, u);
    lemma_transitive(f, lo, b.0, v);
    lemma_transitive(f, m, u, a.1);
    lemma_transitive(f, m, v, b.1);
    reveal(grows);
    assert(le(f, lo, m) && le(f, m, hi));
}

/// The larger of two values.
proof fn lemma_max<F: Fn(Ask) -> u64>(f: F, a: (u32, u32), b: (u32, u32), u: u32, v: u32)
    requires
        keeps_order(f),
        grows(f),
        !unsure(f, a),
        !unsure(f, b),
        fits(f, a, u),
        fits(f, b, v),
    ensures
        fits(f, (low(f, Ask::Max32(a.0, b.0)), low(f, Ask::Max32(a.1, b.1))), low(f, Ask::Max32(u, v))),
{
    let (lo, m, hi) = (low(f, Ask::Max32(a.0, b.0)), low(f, Ask::Max32(u, v)), low(f, Ask::Max32(a.1, b.1)));
    lemma_total(f, a.0, u);
    lemma_total(f, b.0, v);
    lemma_total(f, u, a.1);
    lemma_total(f, v, b.1);
    assert(le(f, a.1, hi) && le(f, b.1, hi) && le(f, u, m) && le(f, v, m)) by {
        reveal(keeps_order);
    }
    lemma_transitive(f, a.0, u, m);
    lemma_transitive(f, b.0, v, m);
    lemma_transitive(f, u, a.1, hi);
    lemma_transitive(f, v, b.1, hi);
    reveal(grows);
    assert(le(f, lo, m) && le(f, m, hi));
}

proof fn lemma_size<F: Fn(Ask) -> u64>(f: F, a: (u32, u32), v: u32)
    requires
        keeps_order(f),
        grows(f),
        number(f, v),
        number(f, low(f, Ask::Abs32(v))),
        fits(f, a, v),
    ensures
        fits(f, sized(f, a), low(f, Ask::Abs32(v))),
{
    let m = low(f, Ask::Abs32(v));
    lemma_anything(f, m);
    if !unsure(f, a) {
        let n = low(f, Ask::Neg32(v));
        assert(number(f, 0) && (le(f, 0, v) ==> level(f, m, v)) && (le(f, v, 0) ==> level(f, m, n)) && level(
            f, 0, low(f, Ask::Neg32(0)))) by {
            reveal(grows);
        }
        lemma_either(f, 0, v);
        if le(f, 0, a.0) {
            lemma_transitive(f, 0, a.0, v);
            lemma_transitive(f, a.0, v, m);
            lemma_transitive(f, m, v, a.1);
        } else if le(f, a.1, 0) {
            lemma_transitive(f, v, a.1, 0);
            lemma_negated(f, a, v);
            let b = negated(f, a);
            if !unsure(f, b) {
                lemma_transitive(f, b.0, n, m);
                lemma_transitive(f, m, n, b.1);
            }
        } else {
            let far = low(f, Ask::Neg32(a.0));
            let hi = low(f, Ask::Max32(far, a.1));
            assert(le(f, a.0, v) && le(f, v, a.1));
            assert(le(f, n, far)) by {
                reveal(grows);
            }
            lemma_total(f, n, far);
            lemma_total(f, v, a.1);
            assert(le(f, far, hi) && le(f, a.1, hi)) by {
                reveal(keeps_order);
            }
            if le(f, 0, v) {
                lemma_transitive(f, 0, v, m);
                lemma_transitive(f, m, v, a.1);
                lemma_transitive(f, m, a.1, hi);
            } else {
                assert(le(f, low(f, Ask::Neg32(0)), n)) by {
                    reveal(grows);
                }
                lemma_transitive(f, 0, low(f, Ask::Neg32(0)), n);
                lemma_transitive(f, 0, n, m);
                lemma_transitive(f, m, n, far);
                lemma_transitive(f, m, far, hi);
            }
        }
    }
}

/// A value held between two bounds grows with the value.
proof fn lemma_clamp_grows<F: Fn(Ask) -> u64>(f: F, min: u32, max: u32, a: u32, b: u32)
    requires
        keeps_order(f),
        grows(f),
        le(f, min, max),
        le(f, a, b),
    ensures
        le(f, clamped32(f, a, min, max), clamped32(f, b, min, max)),
{
    lemma_total(f, a, b);
    lemma_total(f, min, max);
    lemma_total(f, min, a);
    lemma_total(f, min, b);
    if holds(f, Ask::Less32(b, min)) {
        lemma_less(f, a, b, min);
        assert(le(f, min, min)) by {
            reveal(keeps_order);
        }
    } else if holds(f, Ask::Less32(a, min)) {
        assert(le(f, min, b));
        reveal(grows);
    } else {
        let m = low(f, Ask::Min32(a, max));
        assert(le(f, m, a) && le(f, m, max)) by {
            reveal(keeps_order);
        }
        lemma_transitive(f, m, a, b);
        reveal(grows);
    }
}

proof fn lemma_clamp<F: Fn(Ask) -> u64>(f: F, min: u32, max: u32, a: (u32, u32), v: u32)
    requires
        keeps_order(f),
        grows(f),
        le(f, min, max),
        number(f, clamped32(f, v, min, max)),
        fits(f, a, v),
    ensures
        fits(f, mapped(f, Unary::Clamp(min, max), a), clamped32(f, v, min, max)),
{
    let m = clamped32(f, v, min, max);
    lemma_anything(f, m);
    if !unsure(f, a) {
        lemma_clamp_grows(f, min, max, a.0, v);
        lemma_clamp_grows(f, min, max, v, a.1);
        let vals = seq![clamped32(f, a.0, min, max), clamped32(f, a.1, min, max)];
        assert(vals =~= seq![
            crate::bounds26::mapped_end(f, Unary::Clamp(min, max), a.0), crate::bounds26::mapped_end(f, Unary::Clamp(min, max), a.1)]);
        lemma_hull(f, vals, 0, 1, m);
    }
}

/// An operation on one value whose bounds hold for every value between
/// bounds: sums, differences, negatives, absolute values, the smaller and the
/// larger, values held in a range, and products between finite bounds.
pub open spec fn plain_unary<F: Fn(Ask) -> u64>(f: F, op: Unary, a: (u32, u32)) -> bool {
    match op {
        Unary::AddConst(c) => number(f, c),
        Unary::ConstMinus(c) => number(f, c),
        Unary::MulConst(c) => finite(f, c) && tight(f, a),
        Unary::MinConst(c) => number(f, c),
        Unary::MaxConst(c) => number(f, c),
        Unary::Abs => true,
        Unary::Negate => true,
        Unary::Clamp(min, max) => le(f, min, max),
        _ => false,
    }
}

/// The same of operations on two values.
pub open spec fn plain_binary<F: Fn(Ask) -> u64>(f: F, op: Binary, a: (u32, u32), b: (u32, u32)) -> bool {
    match op {
        Binary::Add => true,
        Binary::Sub => true,
        Binary::Mul => tight(f, a) && tight(f, b),
        Binary::Min => true,
        Binary::Max => true,
        _ => false,
    }
}

proof fn lemma_same<F: Fn(Ask) -> u64>(f: F, c: u32)
    requires
        keeps_order(f),
        number(f, c),
    ensures
        fits(f, (c, c), c),
{
    reveal(keeps_order);
}

/// Such operations on one value stay within their bounds.
pub proof fn law_plain_unary_holds<F: Fn(Ask) -> u64>(f: F, op: Unary, a: (u32, u32))
    requires
        keeps_order(f),
        grows(f),
        plain_unary(f, op, a),
    ensures
        unary_holds(f, op, a),
{
    assert forall|v: u32| number(f, v) && fits(f, a, v) && number(f, one(f, op, v)) implies fits(
        f, unary_bound(f, op, a), #[trigger] one(f, op, v)) by {
        lemma_anything(f, one(f, op, v));
        match op {
            Unary::AddConst(c) => {
                lemma_same(f, c);
                lemma_sum(f, a, (c, c), v, c);
            },
            Unary::ConstMinus(c) => {
                lemma_same(f, c);
                lemma_negated_any(f, a, v);
                reveal(grows);
                lemma_sum(f, (c, c), negated(f, a), c, low(f, Ask::Neg32(v)));
            },
            Unary::MulConst(c) => {
                assert(number(f, c)) by {
                    reveal(keeps_order);
                }
                lemma_same(f, c);
                lemma_product(f, a, (c, c), v, c);
            },
            Unary::MinConst(c) => {
                lemma_same(f, c);
                if !unsure(f, a) {
                    lemma_min(f, a, (c, c), v, c);
                }
            },
            Unary::MaxConst(c) => {
                lemma_same(f, c);
                if !unsure(f, a) {
                    lemma_max(f, a, (c, c), v, c);
                }
            },
            Unary::Abs => lemma_size(f, a, v),
            Unary::Negate => {
                if !unsure(f, a) {
                    lemma_negated(f, a, v);
                }
            },
            Unary::Clamp(min, max) => lemma_clamp(f, min, max, a, v),
            _ => {},
        }
    }
}

/// Such operations on two values stay within their bounds.
pub proof fn law_plain_binary_holds<F: Fn(Ask) -> u64>(f: F, op: Binary, a: (u32, u32), b: (u32, u32))
    requires
        keeps_order(f),
        grows(f),
        plain_binary(f, op, a, b),
    ensures
        binary_holds(f, op, a, b),
{
    assert forall|u: u32, v: u32|
        number(f, u) && number(f, v) && fits(f, a, u) && fits(f, b, v) && number(f, two(f, op, u, v)) implies fits(
        f, binary_bound(f, op, a, b), #[trigger] two(f, op, u, v)) by {
        lemma_anything(f, two(f, op, u, v));
        match op {
            Binary::Add => lemma_sum(f, a, b, u, v),
            Binary::Sub => {
                lemma_negated_any(f, b, v);
                reveal(grows);
                lemma_sum(f, a, negated(f, b), u, low(f, Ask::Neg32(v)));
            },
            Binary::Mul => lemma_product(f, a, b, u, v),
            Binary::Min => {
                if !unsure(f, a) && !unsure(f, b) {
                    lemma_min(f, a, b, u, v);
                }
            },
            Binary::Max => {
                if !unsure(f, a) && !unsure(f, b) {
                    lemma_max(f, a, b, u, v);
                }
            },
            _ => {},
        }
    }
}

/// A product that is cut short at zero stays within its bounds.
pub proof fn law_cut_products_hold<F: Fn(Ask) -> u64>(f: F, a: (u32, u32), b: (u32, u32), u: u32, v: u32)
    requires
        keeps_order(f),
        grows(f),
        tight(f, a),
        tight(f, b),
        fits(f, a, u),
        fits(f, b, v),
        holds(f, Ask::Equal32(u, 0)),
    ensures
        fits(f, binary_bound(f, Binary::Mul, a, b), 0),
{
    assert(number(f, 0)) by {
        reveal(grows);
    }
    lemma_anything(f, 0);
    if !unsure(f, a) && !unsure(f, b) {
        lemma_finite(f, b.0, v, b.1);
        let m = low(f, Ask::Mul32(u, v));
        assert(level(f, m, 0)) by {
            reveal(grows);
        }
        lemma_total(f, m, 0);
        lemma_product(f, a, b, u, v);
        let c = multiplied(f, a, b);
        if !unsure(f, c) {
            lemma_transitive(f, c.0, m, 0);
            lemma_transitive(f, 0, m, c.1);
        }
    }
}

/// An interpolation from one known value, between finite bounds and short of
/// its far end. From a first value that varies, and at the far end itself,
/// rounding can lead out of the bounds.
pub open spec fn plain_lerp<F: Fn(Ask) -> u64>(f: F, a: (u32, u32), b: (u32, u32), c: (u32, u32)) -> bool {
    unsure(f, a) || unsure(f, b) || unsure(f, c) || {
        &&& finite(f, a.0) && finite(f, a.1) && finite(f, b.0) && finite(f, c.0) && finite(f, c.1)
        &&& b.0 == b.1
        &&& finite(f, low(f, Ask::Sub32(c.0, b.0))) && finite(f, low(f, Ask::Sub32(c.1, b.0)))
        &&& holds(f, Ask::Less32(a.1, ONE_32))
    }
}

/// The places of the corners below and above a product.
proof fn lemma_corners<F: Fn(Ask) -> u64>(f: F, a: (u32, u32), b: (u32, u32), u: u32, v: u32) -> (r: (int, int))
    requires
        keeps_order(f),
        grows(f),
        finite(f, a.0) && finite(f, a.1) && finite(f, b.0) && finite(f, b.1),
        le(f, a.0, u) && le(f, u, a.1),
        le(f, b.0, v) && le(f, v, b.1),
    ensures
        ({
            let vals = seq![
                low(f, Ask::Mul32(a.0, b.0)),
                low(f, Ask::Mul32(a.0, b.1)),
                low(f, Ask::Mul32(a.1, b.0)),
                low(f, Ask::Mul32(a.1, b.1)),
            ];
            let m = low(f, Ask::Mul32(u, v));
            0 <= r.0 < 4 && 0 <= r.1 < 4 && le(f, vals[r.0], m) && le(f, m, vals[r.1])
        }),
{
    let m = low(f, Ask::Mul32(u, v));
    lemma_finite(f, a.0, u, a.1);
    lemma_finite(f, b.0, v, b.1);
    let vals = seq![
        low(f, Ask::Mul32(a.0, b.0)),
        low(f, Ask::Mul32(a.0, b.1)),
        low(f, Ask::Mul32(a.1, b.0)),
        low(f, Ask::Mul32(a.1, b.1)),
    ];
    let (p, q) = (low(f, Ask::Mul32(a.0, v)), low(f, Ask::Mul32(a.1, v)));
    lemma_commutes(f, a.0, v);
    lemma_commutes(f, a.1, v);
    lemma_commutes(f, a.0, b.0);
    lemma_commutes(f, a.0, b.1);
    lemma_commutes(f, a.1, b.0);
    lemma_commutes(f, a.1, b.1);
    let along = lemma_scaled(f, a.0, u, a.1, v);
    let first = lemma_scaled(f, b.0, v, b.1, a.0);
    let second = lemma_scaled(f, b.0, v, b.1, a.1);
    // The places of the ends below and above the products with the ends of `a`.
    let (p_lo, p_hi) = if first { (0int, 1int) } else { (1int, 0int) };
    let (q_lo, q_hi) = if second { (2int, 3int) } else { (3int, 2int) };
    assert(le(f, vals[p_lo], p) && le(f, p, vals[p_hi]));
    assert(le(f, vals[q_lo], q) && le(f, q, vals[q_hi]));
    if along {
        lemma_transitive(f, vals[p_lo], p, m);
        lemma_transitive(f, m, q, vals[q_hi]);
        (p_lo, q_hi)
    } else {
        lemma_transitive(f, vals[q_lo], q, m);
        lemma_transitive(f, m, p, vals[p_hi]);
        (q_lo, p_hi)
    }
}

/// A difference from one known value.
proof fn lemma_difference<F: Fn(Ask) -> u64>(f: F, b: u32, c: (u32, u32), u: u32, v: u32)
    requires
        keeps_order(f),
        grows(f),
        finite(f, b) && finite(f, u) && finite(f, v) && finite(f, c.0) && finite(f, c.1),
        level(f, b, u),
        le(f, c.0, v) && le(f, v, c.1),
    ensures
        le(f, low(f, Ask::Sub32(c.0, b)), low(f, Ask::Sub32(v, u))),
        le(f, low(f, Ask::Sub32(v, u)), low(f, Ask::Sub32(c.1, b))),
{
    reveal(grows);
    let (n, m) = (low(f, Ask::Neg32(b)), low(f, Ask::Neg32(u)));
    assert(le(f, n, m) && le(f, m, n));
    let (lo, d, hi) = (low(f, Ask::Sub32(c.0, b)), low(f, Ask::Sub32(v, u)), low(f, Ask::Sub32(c.1, b)));
    assert(number(f, lo) && number(f, d) && number(f, hi));
    assert(lo == low(f, Ask::Add32(c.0, n)) && d == low(f, Ask::Add32(v, m)) && hi == low(f, Ask::Add32(c.1, n)));
}

/// Such an interpolation stays within its bounds.
proof fn lemma_lerp_inside<F: Fn(Ask) -> u64>(f: F, a: (u32, u32), b: (u32, u32), c: (u32, u32), t: u32, u: u32, v: u32)
    requires
        keeps_order(f),
        grows(f),
        plain_lerp(f, a, b, c),
        !unsure(f, a) && !unsure(f, b) && !unsure(f, c),
        fits(f, a, t) && fits(f, b, u) && fits(f, c, v),
        number(f, lerped32(f, t, u, v)),
    ensures
        fits(f, lerp_bound(f, a, b, c), lerped32(f, t, u, v)),
{
    let r = lerped32(f, t, u, v);
    lemma_anything(f, r);
    lemma_finite(f, a.0, t, a.1);
    lemma_finite(f, b.0, u, b.1);
    lemma_finite(f, c.0, v, c.1);
    lemma_difference(f, b.0, c, u, v);
    let d = (low(f, Ask::Sub32(c.0, b.0)), low(f, Ask::Sub32(c.1, b.0)));
    let m = low(f, Ask::Mul32(t, low(f, Ask::Sub32(v, u))));
    let (i, j) = lemma_corners(f, a, d, t, low(f, Ask::Sub32(v, u)));
    let corners = seq![
        low(f, Ask::Mul32(a.0, d.0)),
        low(f, Ask::Mul32(a.0, d.1)),
        low(f, Ask::Mul32(a.1, d.0)),
        low(f, Ask::Mul32(a.1, d.1)),
    ];
    let vals = seq![
        lerped32(f, a.0, b.0, c.0),
        lerped32(f, a.0, b.0, c.1),
        lerped32(f, a.0, b.1, c.0),
        lerped32(f, a.0, b.1, c.1),
        lerped32(f, a.1, b.0, c.0),
        lerped32(f, a.1, b.0, c.1),
        lerped32(f, a.1, b.1, c.0),
        lerped32(f, a.1, b.1, c.1),
    ];
    assert(lerp_bound(f, a, b, c) == hulled(f, vals));
    if forall|k: int| 0 <= k < vals.len() ==> number(f, #[trigger] vals[k]) {
        let p = if i < 2 { i } else { i + 2 };
        let q = if j < 2 { j } else { j + 2 };
        assert(number(f, vals[p]) && number(f, vals[q]));
        assert(vals[p] == low(f, Ask::Add32(b.0, corners[i])));
        assert(vals[q] == low(f, Ask::Add32(b.0, corners[j])));
        assert(r == low(f, Ask::Add32(u, m)));
        assert(le(f, vals[p], r) && le(f, r, vals[q])) by {
            reveal(grows);
        }
        lemma_hull(f, vals, p, q, r);
    } else {
        let k = choose|k: int| 0 <= k < vals.len() && !number(f, #[trigger] vals[k]);
        assert(holds(f, Ask::Nan32(vals[k])));
        assert(hulled(f, vals) == anything());
    }
}

/// The bounds of such an interpolation hold what it gives.
pub proof fn law_plain_lerp_holds<F: Fn(Ask) -> u64>(f: F, a: (u32, u32), b: (u32, u32), c: (u32, u32))
    requires
        keeps_order(f),
        grows(f),
        plain_lerp(f, a, b, c),
    ensures
        lerp_holds(f, a, b, c),
{
    assert forall|t: u32, u: u32, v: u32|
        fits(f, a, t) && fits(f, b, u) && fits(f, c, v) && number(f, blended(f, t, u, v)) implies fits(
        f, lerp_bound(f, a, b, c), #[trigger] blended(f, t, u, v)) by {
        lemma_anything(f, blended(f, t, u, v));
        if !unsure(f, a) && !unsure(f, b) && !unsure(f, c) {
            lemma_lerp_ends(f, a, b, c, t, u, v);
        }
    }
}

proof fn lemma_lerp_ends<F: Fn(Ask) -> u64>(f: F, a: (u32, u32), b: (u32, u32), c: (u32, u32), t: u32, u: u32, v: u32)
    requires
        keeps_order(f),
        grows(f),
        plain_lerp(f, a, b, c),
        !unsure(f, a) && !unsure(f, b) && !unsure(f, c),
        fits(f, a, t) && fits(f, b, u) && fits(f, c, v),
        number(f, blended(f, t, u, v)),
    ensures
        fits(f, lerp_bound(f, a, b, c), blended(f, t, u, v)),
{
    lemma_finite(f, b.0, u, b.1);
    lemma_finite(f, c.0, v, c.1);
    if holds(f, Ask::Equal32(t, 0)) {
        lemma_difference(f, b.0, c, u, v);
        let d = low(f, Ask::Sub32(v, u));
        lemma_finite(f, low(f, Ask::Sub32(c.0, b.0)), d, low(f, Ask::Sub32(c.1, b.0)));
        let r = lerped32(f, t, u, v);
        assert(level(f, low(f, Ask::Mul32(t, d)), 0) && level(f, r, u)) by {
            reveal(grows);
        }
        lemma_total(f, r, u);
        lemma_lerp_inside(f, a, b, c, t, u, v);
        let (lo, hi) = lerp_bound(f, a, b, c);
        if !unsure(f, (lo, hi)) {
            lemma_transitive(f, lo, r, u);
            lemma_transitive(f, u, r, hi);
        }
    } else {
        if holds(f, Ask::Equal32(t, ONE_32)) {
            assert(level(f, t, ONE_32)) by {
                reveal(grows);
            }
            lemma_less(f, t, a.1, ONE_32);
            lemma_total(f, ONE_32, t);
        }
        lemma_lerp_inside(f, a, b, c, t, u, v);
    }
}

} // verus!
