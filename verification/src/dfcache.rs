//! The point cache changes no value.

use std::sync::Arc;
use vstd::prelude::*;
use crate::arith::{bisect, holds, Ask, ONE_32};
use crate::df26::{
    evaluated, probed, search_top, selected, slab_value, spline_evaluated, surface_at, Axis, Mode, Node, Points, Spline,
};

verus! {

/// Every cache of a tree holds the input that its id stands for.
pub open spec fn agrees(n: Node, inputs: Map<usize, Node>) -> bool
    decreases n, 0nat,
{
    match n {
        Node::Unary { input, .. } => agrees(*input, inputs),
        Node::Binary { left, right, .. } => agrees(*left, inputs) && agrees(*right, inputs),
        Node::Noise { shift_x, shift_y, shift_z, .. } => {
            &&& (shift_x matches Some(c) ==> agrees(*c, inputs))
            &&& (shift_y matches Some(c) ==> agrees(*c, inputs))
            &&& (shift_z matches Some(c) ==> agrees(*c, inputs))
        },
        Node::Lerp { alpha, first, second } => agrees(*alpha, inputs) && agrees(*first, inputs) && agrees(*second, inputs),
        Node::RangeChoice { choice, when_in_range, when_out_of_range, .. } => agrees(*choice, inputs) && agrees(
            *when_in_range, inputs) && agrees(*when_out_of_range, inputs),
        Node::IntervalSelect { selector, functions, .. } => {
            &&& agrees(*selector, inputs)
            &&& forall|i: int| 0 <= i < functions@.len() ==> agrees(*#[trigger] functions@[i], inputs)
        },
        Node::Cache { id, cached } => inputs.contains_key(id) && inputs[id] == *cached && agrees(*cached, inputs),
        Node::BlendDensity(i) => agrees(*i, inputs),
        Node::Interpolated { corners, .. } => agrees(*corners, inputs),
        Node::Slice { whole, .. } => agrees(*whole, inputs),
        Node::FindTopSurface { density, upper_bound, .. } => agrees(*density, inputs) && agrees(*upper_bound, inputs),
        Node::Spline(sp) => agrees_spline(sp, inputs),
        _ => true,
    }
}

pub open spec fn agrees_spline(sp: Spline, inputs: Map<usize, Node>) -> bool
    decreases sp, 0nat,
{
    match sp {
        Spline::Constant(_) => true,
        Spline::Multipoint { coordinate, values, .. } => {
            &&& agrees(*coordinate, inputs)
            &&& forall|i: int| 0 <= i < values@.len() ==> agrees_spline(#[trigger] values@[i], inputs)
        },
    }
}

/// A cache that remembers, with no value yet.
pub open spec fn fresh(p: Points) -> Points {
    Points { enabled: true, entries: Map::empty(), slabs: p.slabs }
}

/// A node's value at a block, whatever was asked before.
pub open spec fn value_at<F: Fn(Ask) -> u64>(f: F, n: Node, x: i32, y: i32, z: i32, p: Points) -> u32 {
    evaluated(f, n, x, y, z, Mode::Point, fresh(p)).0
}

/// Every remembered value is the one that its input has there, at a block
/// that no volume answers for.
pub open spec fn truthful<F: Fn(Ask) -> u64>(f: F, p: Points, inputs: Map<usize, Node>) -> bool {
    &&& p.enabled
    &&& forall|id: usize| #[trigger]
        p.entries.contains_key(id) ==> inputs.contains_key(id) && p.entries[id].1 == value_at(
            f, inputs[id], p.entries[id].0.0, p.entries[id].0.1, p.entries[id].0.2, p) && slab_value(
            p.slabs, id, p.entries[id].0.0 as int, p.entries[id].0.1 as int, p.entries[id].0.2 as int) is None
}

proof fn lemma_fresh<F: Fn(Ask) -> u64>(f: F, p: Points, inputs: Map<usize, Node>)
    requires
        p.enabled,
    ensures
        truthful(f, fresh(p), inputs),
        fresh(fresh(p)) == fresh(p),
{
}

/// The node that a reference leads to.
pub open spec fn inner(n: Arc<Node>) -> Node {
    *n
}

/// The cache changes no value: evaluation at a point gives the same from
/// any truthful cache as from one without values, and leaves the cache
/// truthful over the same volumes.
pub proof fn law_cache_is_neutral<F: Fn(Ask) -> u64>(
    f: F, n: Node, x: i32, y: i32, z: i32, p: Points, inputs: Map<usize, Node>,
)
    requires
        agrees(n, inputs),
        truthful(f, p, inputs),
    ensures
        ({
            let r = evaluated(f, n, x, y, z, Mode::Point, p);
            &&& r.0 == value_at(f, n, x, y, z, p)
            &&& truthful(f, r.1, inputs)
            &&& r.1.slabs == p.slabs
        }),
    decreases n, 3nat, 0int,
{
    let o = fresh(p);
    lemma_fresh(f, p, inputs);
    match n {
        Node::Unary { .. } => lemma_unary(f, n, x, y, z, p, o, inputs),
        Node::Binary { .. } => lemma_binary(f, n, x, y, z, p, o, inputs),
        Node::Lerp { .. } => lemma_lerp(f, n, x, y, z, p, o, inputs),
        Node::RangeChoice { .. } => lemma_range(f, n, x, y, z, p, o, inputs),
        Node::IntervalSelect { .. } => lemma_select(f, n, x, y, z, p, o, inputs),
        Node::Cache { .. } => lemma_cache(f, n, x, y, z, p, o, inputs),
        Node::BlendDensity(_) => lemma_blend(f, n, x, y, z, p, o, inputs),
        Node::Interpolated { .. } => lemma_cells(f, n, x, y, z, p, o, inputs),
        Node::Slice { .. } => lemma_slice(f, n, x, y, z, p, o, inputs),
        Node::FindTopSurface { .. } => lemma_surface(f, n, x, y, z, p, o, inputs),
        Node::Spline(_) => lemma_spline_node(f, n, x, y, z, p, o, inputs),
        Node::Noise { .. } => lemma_noise(f, n, x, y, z, p, o, inputs),
        _ => {},
    }
}

proof fn lemma_unary<F: Fn(Ask) -> u64>(
    f: F, n: Node, x: i32, y: i32, z: i32, p: Points, o: Points, inputs: Map<usize, Node>,
)
    requires
        n is Unary,
        agrees(n, inputs),
        truthful(f, p, inputs),
        o == fresh(p),
    ensures
        ({
            let r = evaluated(f, n, x, y, z, Mode::Point, p);
            let s = evaluated(f, n, x, y, z, Mode::Point, o);
            &&& r.0 == s.0
            &&& truthful(f, r.1, inputs)
            &&& r.1.slabs == p.slabs
        }),
    decreases n, 2nat, 0int,
{
    lemma_fresh(f, p, inputs);
    match n {
        Node::Unary { input, .. } => {
            lemma_both(f, inner(input), x, y, z, p, o, inputs);
        },
        _ => {},
    }
}

proof fn lemma_binary<F: Fn(Ask) -> u64>(
    f: F, n: Node, x: i32, y: i32, z: i32, p: Points, o: Points, inputs: Map<usize, Node>,
)
    requires
        n is Binary,
        agrees(n, inputs),
        truthful(f, p, inputs),
        o == fresh(p),
    ensures
        ({
            let r = evaluated(f, n, x, y, z, Mode::Point, p);
            let s = evaluated(f, n, x, y, z, Mode::Point, o);
            &&& r.0 == s.0
            &&& truthful(f, r.1, inputs)
            &&& r.1.slabs == p.slabs
        }),
    decreases n, 2nat, 0int,
{
    lemma_fresh(f, p, inputs);
    match n {
        Node::Binary { left, right, .. } => {
            lemma_both(f, inner(left), x, y, z, p, o, inputs);
            let (q, u) = (evaluated(f, inner(left), x, y, z, Mode::Point, p).1, evaluated(f, inner(left), x, y, z, Mode::Point, o).1);
            lemma_both(f, inner(right), x, y, z, q, u, inputs);
        },
        _ => {},
    }
}

#[verifier::rlimit(60)]
proof fn lemma_lerp<F: Fn(Ask) -> u64>(
    f: F, n: Node, x: i32, y: i32, z: i32, p: Points, o: Points, inputs: Map<usize, Node>,
)
    requires
        n is Lerp,
        agrees(n, inputs),
        truthful(f, p, inputs),
        o == fresh(p),
    ensures
        ({
            let r = evaluated(f, n, x, y, z, Mode::Point, p);
            let s = evaluated(f, n, x, y, z, Mode::Point, o);
            &&& r.0 == s.0
            &&& truthful(f, r.1, inputs)
            &&& r.1.slabs == p.slabs
        }),
    decreases n, 2nat, 0int,
{
    lemma_fresh(f, p, inputs);
    match n {
        Node::Lerp { alpha, first, second } => {
            lemma_both(f, inner(alpha), x, y, z, p, o, inputs);
            let (q, u) = (evaluated(f, inner(alpha), x, y, z, Mode::Point, p).1, evaluated(f, inner(alpha), x, y, z, Mode::Point, o).1);
            let v = evaluated(f, inner(alpha), x, y, z, Mode::Point, p).0;
            if holds(f, Ask::Equal32(v, 0)) {
                lemma_both(f, inner(first), x, y, z, q, u, inputs);
            } else if holds(f, Ask::Equal32(v, ONE_32)) {
                lemma_both(f, inner(second), x, y, z, q, u, inputs);
            } else {
                lemma_both(f, inner(first), x, y, z, q, u, inputs);
                let (r, w) = (
                    evaluated(f, inner(first), x, y, z, Mode::Point, q).1,
                    evaluated(f, inner(first), x, y, z, Mode::Point, u).1,
                );
                lemma_both(f, inner(second), x, y, z, r, w, inputs);
            }
        },
        _ => {},
    }
}

proof fn lemma_range<F: Fn(Ask) -> u64>(
    f: F, n: Node, x: i32, y: i32, z: i32, p: Points, o: Points, inputs: Map<usize, Node>,
)
    requires
        n is RangeChoice,
        agrees(n, inputs),
        truthful(f, p, inputs),
        o == fresh(p),
    ensures
        ({
            let r = evaluated(f, n, x, y, z, Mode::Point, p);
            let s = evaluated(f, n, x, y, z, Mode::Point, o);
            &&& r.0 == s.0
            &&& truthful(f, r.1, inputs)
            &&& r.1.slabs == p.slabs
        }),
    decreases n, 2nat, 0int,
{
    lemma_fresh(f, p, inputs);
    match n {
        Node::RangeChoice { choice, when_in_range, when_out_of_range, .. } => {
            lemma_both(f, inner(choice), x, y, z, p, o, inputs);
            let (q, u) = (evaluated(f, inner(choice), x, y, z, Mode::Point, p).1, evaluated(f, inner(choice), x, y, z, Mode::Point, o).1);
            lemma_both(f, inner(when_in_range), x, y, z, q, u, inputs);
            lemma_both(f, inner(when_out_of_range), x, y, z, q, u, inputs);
        },
        _ => {},
    }
}

proof fn lemma_select<F: Fn(Ask) -> u64>(
    f: F, n: Node, x: i32, y: i32, z: i32, p: Points, o: Points, inputs: Map<usize, Node>,
)
    requires
        n is IntervalSelect,
        agrees(n, inputs),
        truthful(f, p, inputs),
        o == fresh(p),
    ensures
        ({
            let r = evaluated(f, n, x, y, z, Mode::Point, p);
            let s = evaluated(f, n, x, y, z, Mode::Point, o);
            &&& r.0 == s.0
            &&& truthful(f, r.1, inputs)
            &&& r.1.slabs == p.slabs
        }),
    decreases n, 2nat, 0int,
{
    lemma_fresh(f, p, inputs);
    match n {
        Node::IntervalSelect { selector, thresholds, functions } => {
            lemma_both(f, inner(selector), x, y, z, p, o, inputs);
            let (q, u) = (evaluated(f, inner(selector), x, y, z, Mode::Point, p).1, evaluated(f, inner(selector), x, y, z, Mode::Point, o).1);
            let i = selected(f, thresholds@, evaluated(f, inner(selector), x, y, z, Mode::Point, p).0, 0);
            if 0 <= i < functions@.len() {
                assert(agrees(inner(functions@[i]), inputs));
                assert(decreases_to!(n => n->IntervalSelect_functions));
                assert(decreases_to!(functions@ => functions@[i]));
                lemma_both(f, inner(functions@[i]), x, y, z, q, u, inputs);
            }
        },
        _ => {},
    }
}

#[verifier::rlimit(60)]
proof fn lemma_cache<F: Fn(Ask) -> u64>(
    f: F, n: Node, x: i32, y: i32, z: i32, p: Points, o: Points, inputs: Map<usize, Node>,
)
    requires
        n is Cache,
        agrees(n, inputs),
        truthful(f, p, inputs),
        o == fresh(p),
    ensures
        ({
            let r = evaluated(f, n, x, y, z, Mode::Point, p);
            let s = evaluated(f, n, x, y, z, Mode::Point, o);
            &&& r.0 == s.0
            &&& truthful(f, r.1, inputs)
            &&& r.1.slabs == p.slabs
        }),
    decreases n, 2nat, 0int,
{
    lemma_fresh(f, p, inputs);
    match n {
        Node::Cache { id, cached } => {
            lemma_both(f, inner(cached), x, y, z, p, o, inputs);
            let r = evaluated(f, inner(cached), x, y, z, Mode::Point, p);
            let s = evaluated(f, inner(cached), x, y, z, Mode::Point, o);
            if slab_value(p.slabs, id, x as int, y as int, z as int) is None {
                lemma_remembers(f, id, inner(cached), x, y, z, r.0, r.1, inputs);
                lemma_remembers(f, id, inner(cached), x, y, z, s.0, s.1, inputs);
            }
        },
        _ => {},
    }
}

proof fn lemma_blend<F: Fn(Ask) -> u64>(
    f: F, n: Node, x: i32, y: i32, z: i32, p: Points, o: Points, inputs: Map<usize, Node>,
)
    requires
        n is BlendDensity,
        agrees(n, inputs),
        truthful(f, p, inputs),
        o == fresh(p),
    ensures
        ({
            let r = evaluated(f, n, x, y, z, Mode::Point, p);
            let s = evaluated(f, n, x, y, z, Mode::Point, o);
            &&& r.0 == s.0
            &&& truthful(f, r.1, inputs)
            &&& r.1.slabs == p.slabs
        }),
    decreases n, 2nat, 0int,
{
    lemma_fresh(f, p, inputs);
    match n {
        Node::BlendDensity(i) => {
            lemma_both(f, inner(i), x, y, z, p, o, inputs);
        },
        _ => {},
    }
}

proof fn lemma_cells<F: Fn(Ask) -> u64>(
    f: F, n: Node, x: i32, y: i32, z: i32, p: Points, o: Points, inputs: Map<usize, Node>,
)
    requires
        n is Interpolated,
        agrees(n, inputs),
        truthful(f, p, inputs),
        o == fresh(p),
    ensures
        ({
            let r = evaluated(f, n, x, y, z, Mode::Point, p);
            let s = evaluated(f, n, x, y, z, Mode::Point, o);
            &&& r.0 == s.0
            &&& truthful(f, r.1, inputs)
            &&& r.1.slabs == p.slabs
        }),
    decreases n, 2nat, 0int,
{
    lemma_fresh(f, p, inputs);
    match n {
        Node::Interpolated { corners, .. } => {
            lemma_both(f, inner(corners), x, y, z, p, o, inputs);
        },
        _ => {},
    }
}

proof fn lemma_slice<F: Fn(Ask) -> u64>(
    f: F, n: Node, x: i32, y: i32, z: i32, p: Points, o: Points, inputs: Map<usize, Node>,
)
    requires
        n is Slice,
        agrees(n, inputs),
        truthful(f, p, inputs),
        o == fresh(p),
    ensures
        ({
            let r = evaluated(f, n, x, y, z, Mode::Point, p);
            let s = evaluated(f, n, x, y, z, Mode::Point, o);
            &&& r.0 == s.0
            &&& truthful(f, r.1, inputs)
            &&& r.1.slabs == p.slabs
        }),
    decreases n, 2nat, 0int,
{
    lemma_fresh(f, p, inputs);
    match n {
        Node::Slice { along, coordinate, whole } => {
            match along {
                Axis::X => lemma_both(f, inner(whole), coordinate, y, z, p, o, inputs),
                Axis::Y => lemma_both(f, inner(whole), x, coordinate, z, p, o, inputs),
                Axis::Z => lemma_both(f, inner(whole), x, y, coordinate, p, o, inputs),
            }
        },
        _ => {},
    }
}

proof fn lemma_surface<F: Fn(Ask) -> u64>(
    f: F, n: Node, x: i32, y: i32, z: i32, p: Points, o: Points, inputs: Map<usize, Node>,
)
    requires
        n is FindTopSurface,
        agrees(n, inputs),
        truthful(f, p, inputs),
        o == fresh(p),
    ensures
        ({
            let r = evaluated(f, n, x, y, z, Mode::Point, p);
            let s = evaluated(f, n, x, y, z, Mode::Point, o);
            &&& r.0 == s.0
            &&& truthful(f, r.1, inputs)
            &&& r.1.slabs == p.slabs
        }),
    decreases n, 2nat, 0int,
{
    lemma_fresh(f, p, inputs);
    match n {
        Node::FindTopSurface { density, upper_bound, lower_bound, cell_height } => {
            lemma_both(f, inner(upper_bound), x, 0, z, p, o, inputs);
            let r = evaluated(f, inner(upper_bound), x, 0, z, Mode::Point, p);
            let s = evaluated(f, inner(upper_bound), x, 0, z, Mode::Point, o);
            let top = search_top(f, r.0, cell_height);
            assert(evaluated(f, n, x, y, z, Mode::Point, p) == surface_at(
                f, inner(density), x, z, r.0, lower_bound, cell_height, r.1));
            assert(evaluated(f, n, x, y, z, Mode::Point, o) == surface_at(
                f, inner(density), x, z, s.0, lower_bound, cell_height, s.1));
            lemma_probes(f, inner(density), x, z, top as int, lower_bound, cell_height, r.1, s.1, inputs);
        },
        _ => {},
    }
}

proof fn lemma_spline_node<F: Fn(Ask) -> u64>(
    f: F, n: Node, x: i32, y: i32, z: i32, p: Points, o: Points, inputs: Map<usize, Node>,
)
    requires
        n is Spline,
        agrees(n, inputs),
        truthful(f, p, inputs),
        o == fresh(p),
    ensures
        ({
            let r = evaluated(f, n, x, y, z, Mode::Point, p);
            let s = evaluated(f, n, x, y, z, Mode::Point, o);
            &&& r.0 == s.0
            &&& truthful(f, r.1, inputs)
            &&& r.1.slabs == p.slabs
        }),
    decreases n, 2nat, 0int,
{
    lemma_fresh(f, p, inputs);
    match n {
        Node::Spline(sp) => {
            lemma_spline(f, sp, x, y, z, p, o, inputs);
        },
        _ => {},
    }
}

/// Remembering an input's value leaves a cache truthful.
proof fn lemma_remembers<F: Fn(Ask) -> u64>(
    f: F, id: usize, n: Node, x: i32, y: i32, z: i32, v: u32, p: Points, inputs: Map<usize, Node>,
)
    requires
        truthful(f, p, inputs),
        inputs.contains_key(id),
        inputs[id] == n,
        v == value_at(f, n, x, y, z, p),
        slab_value(p.slabs, id, x as int, y as int, z as int) is None,
    ensures
        truthful(f, Points { entries: p.entries.insert(id, ((x, y, z), v)), ..p }, inputs),
{
    let kept = Points { entries: p.entries.insert(id, ((x, y, z), v)), ..p };
    assert(fresh(kept) == fresh(p));
    assert forall|k: usize| #[trigger] kept.entries.contains_key(k) implies inputs.contains_key(k) && kept.entries[k].1 == value_at(
        f, inputs[k], kept.entries[k].0.0, kept.entries[k].0.1, kept.entries[k].0.2, kept) && slab_value(
        kept.slabs, k, kept.entries[k].0.0 as int, kept.entries[k].0.1 as int, kept.entries[k].0.2 as int) is None by {
        if k != id {
            assert(p.entries.contains_key(k));
        }
    }
}

/// Two truthful caches over the same volumes give the same value.
proof fn lemma_both<F: Fn(Ask) -> u64>(
    f: F, n: Node, x: i32, y: i32, z: i32, p: Points, o: Points, inputs: Map<usize, Node>,
)
    requires
        agrees(n, inputs),
        truthful(f, p, inputs),
        truthful(f, o, inputs),
        p.slabs == o.slabs,
    ensures
        ({
            let r = evaluated(f, n, x, y, z, Mode::Point, p);
            let s = evaluated(f, n, x, y, z, Mode::Point, o);
            &&& r.0 == s.0
            &&& r.0 == value_at(f, n, x, y, z, p)
            &&& truthful(f, r.1, inputs)
            &&& truthful(f, s.1, inputs)
            &&& r.1.slabs == p.slabs
            &&& s.1.slabs == p.slabs
        }),
    decreases n, 4nat, 0int,
{
    law_cache_is_neutral(f, n, x, y, z, p, inputs);
    law_cache_is_neutral(f, n, x, y, z, o, inputs);
    assert(fresh(p) == fresh(o));
}

proof fn lemma_noise<F: Fn(Ask) -> u64>(
    f: F, n: Node, x: i32, y: i32, z: i32, p: Points, o: Points, inputs: Map<usize, Node>,
)
    requires
        n is Noise,
        agrees(n, inputs),
        truthful(f, p, inputs),
        truthful(f, o, inputs),
        p.slabs == o.slabs,
    ensures
        ({
            let r = evaluated(f, n, x, y, z, Mode::Point, p);
            let s = evaluated(f, n, x, y, z, Mode::Point, o);
            &&& r.0 == s.0
            &&& truthful(f, r.1, inputs)
            &&& r.1.slabs == p.slabs
        }),
    decreases n, 2nat, 0int,
{
    if let Node::Noise { shift_x, shift_y, shift_z, .. } = n {
        let (q, u) = match shift_x {
            Some(c) => {
                lemma_both(f, inner(c), x, y, z, p, o, inputs);
                (evaluated(f, inner(c), x, y, z, Mode::Point, p).1, evaluated(f, inner(c), x, y, z, Mode::Point, o).1)
            },
            None => (p, o),
        };
        let (r, v) = match shift_z {
            Some(c) => {
                lemma_both(f, inner(c), x, y, z, q, u, inputs);
                (evaluated(f, inner(c), x, y, z, Mode::Point, q).1, evaluated(f, inner(c), x, y, z, Mode::Point, u).1)
            },
            None => (q, u),
        };
        if let Some(c) = shift_y {
            lemma_both(f, inner(c), x, y, z, r, v, inputs);
        }
    }
}

proof fn lemma_probes<F: Fn(Ask) -> u64>(
    f: F, n: Node, x: i32, z: i32, probe: int, lower: i32, step: i32, p: Points, o: Points, inputs: Map<usize, Node>,
)
    requires
        agrees(n, inputs),
        truthful(f, p, inputs),
        truthful(f, o, inputs),
        p.slabs == o.slabs,
    ensures
        ({
            let r = probed(f, n, x, z, probe, lower, step, p);
            let s = probed(f, n, x, z, probe, lower, step, o);
            &&& r.0 == s.0
            &&& truthful(f, r.1, inputs)
            &&& r.1.slabs == p.slabs
        }),
    decreases n, 5nat, if probe < lower { 0int } else { probe - lower + 1 },
{
    if probe >= lower && step > 0 {
        lemma_both(f, n, x, probe as i32, z, p, o, inputs);
        let q = evaluated(f, n, x, probe as i32, z, Mode::Point, p).1;
        let u = evaluated(f, n, x, probe as i32, z, Mode::Point, o).1;
        lemma_probes(f, n, x, z, probe - step, lower, step, q, u, inputs);
    }
}

pub(crate) proof fn lemma_spline<F: Fn(Ask) -> u64>(
    f: F, sp: Spline, x: i32, y: i32, z: i32, p: Points, o: Points, inputs: Map<usize, Node>,
)
    requires
        agrees_spline(sp, inputs),
        truthful(f, p, inputs),
        truthful(f, o, inputs),
        p.slabs == o.slabs,
    ensures
        ({
            let r = spline_evaluated(f, sp, x, y, z, Mode::Point, p);
            let s = spline_evaluated(f, sp, x, y, z, Mode::Point, o);
            &&& r.0 == s.0
            &&& truthful(f, r.1, inputs)
            &&& truthful(f, s.1, inputs)
            &&& r.1.slabs == p.slabs
            &&& s.1.slabs == p.slabs
        }),
    decreases sp, 6nat, 0int,
{
    if let Spline::Multipoint { coordinate, locations, values, .. } = sp {
        lemma_both(f, inner(coordinate), x, y, z, p, o, inputs);
        let input = evaluated(f, inner(coordinate), x, y, z, Mode::Point, p).0;
        let (q, u) = (evaluated(f, inner(coordinate), x, y, z, Mode::Point, p).1, evaluated(f, inner(coordinate), x, y, z, Mode::Point, o).1);
        let k = bisect(f, locations@, input, 0, locations@.len() as int);
        let last = locations@.len() - 1;
        assert(decreases_to!(sp => sp->Multipoint_values));
        if k <= 0 && values@.len() > 0 {
            assert(agrees_spline(values@[0], inputs));
            assert(decreases_to!(values@ => values@[0]));
            lemma_spline(f, values@[0], x, y, z, q, u, inputs);
        } else if k > last && 0 <= last < values@.len() {
            assert(agrees_spline(values@[last], inputs));
            assert(decreases_to!(values@ => values@[last]));
            lemma_spline(f, values@[last], x, y, z, q, u, inputs);
        } else if 0 < k < values@.len() {
            assert(agrees_spline(values@[k - 1], inputs));
            assert(agrees_spline(values@[k], inputs));
            assert(decreases_to!(values@ => values@[k - 1]));
            assert(decreases_to!(values@ => values@[k]));
            lemma_spline(f, values@[k - 1], x, y, z, q, u, inputs);
            let (r, v) = (
                spline_evaluated(f, values@[k - 1], x, y, z, Mode::Point, q).1,
                spline_evaluated(f, values@[k - 1], x, y, z, Mode::Point, u).1,
            );
            lemma_spline(f, values@[k], x, y, z, r, v, inputs);
        }
    }
}

} // verus!
