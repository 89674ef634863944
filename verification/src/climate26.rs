//! The biome stage: the nearest-parameter search that the multi-noise biome
//! source answers with.

use vstd::prelude::*;
use crate::arith::{answers, Ask};
use crate::climate::{quantize_coord, quantized};
use crate::order::{lists, order_of, places, stable_order};
use crate::rtree::{
    all_measured, best_axis, boxes, far, find_best_axis, first_bucket, found, gap, has_leaf, join, join_nodes, joined,
    joined_trees, largest_power, lemma_best_axis, lemma_found_from, lemma_found_some, lemma_joined_leaves, lemma_sorted_small,
    middles, named, number, part, power_below, scanned, search, shaped, sort_by_total, sorted_small, sound, space_distance,
    tame, tame_box, tame_boxes, total_cost, tree_space, upright, RNode, Space, Tree,
};

pub use crate::biome26::BiomeStage;
pub use crate::rtree::Parameter;

verus! {

/// Children of a tree node.
pub const CHILDREN_PER_NODE: usize = 19;

/// The dimension the depth function drives; every other climate value is a
/// function of x and z alone.
pub const DEPTH_DIMENSION: usize = 4;

/// A climate value in the units that boxes are measured in.
pub fn quantize<F: Fn(Ask) -> u64>(coord: u32, f: &F) -> (r: i64)
    requires
        answers(*f),
    ensures
        r == quantized(*f, coord),
{
    quantize_coord(coord, f)
}

/// Consecutive buckets of `b` boxes.
pub open spec fn buckets(ids: Seq<int>, b: int) -> Seq<Seq<int>>
    decreases ids.len(),
{
    if ids.len() == 0 || b <= 0 {
        Seq::empty()
    } else {
        let m = first_bucket(ids.len() as int, b);
        seq![ids.take(m)] + buckets(ids.skip(m), b)
    }
}

/// The order of buckets by the middles of the boxes around them.
pub open spec fn bucket_keys(spaces: Seq<Seq<Parameter>>, parts: Seq<Seq<int>>, axis: int) -> Seq<Seq<i64>> {
    Seq::new(parts.len(), |i: int| middles(joined(spaces, parts[i], parts[i].len()), axis, true))
}

/// The tree over some boxes, at most `depth` levels deep: up to nineteen
/// hang below one node, by the distance of their middles from zero. More
/// are cut along the axis whose buckets cost least, each bucket the largest
/// power of nineteen below their number; the buckets are put in the order
/// of their middles' distance from zero on that axis, and each becomes a
/// tree.
pub open spec fn built(spaces: Seq<Seq<Parameter>>, ids: Seq<int>, depth: nat) -> Tree
    decreases depth,
{
    if ids.len() <= 1 || depth == 0 {
        Tree::Leaf(ids[0])
    } else if ids.len() <= 19 {
        let o = sorted_small(spaces, ids);
        Tree::Sub(joined(spaces, o, o.len()), Seq::new(o.len(), |i: int| Tree::Leaf(o[i])))
    } else {
        let b = power_below(19, ids.len() as int);
        let best = best_axis(spaces, ids, b, 7);
        let parts = buckets(best.at, b);
        let o = order_of(bucket_keys(spaces, parts, best.axis));
        let kids = Seq::new(parts.len(), |i: int| built(spaces, parts[o[i]], (depth - 1) as nat));
        Tree::Sub(joined_trees(spaces, kids, kids.len()), kids)
    }
}

/// Cut boxes into consecutive buckets.
fn bucketize(ids: &Vec<usize>, b: usize, Ghost(count): Ghost<nat>) -> (r: Vec<Vec<usize>>)
    requires
        b >= 1,
        named(ids@, count),
    ensures
        r@.map_values(|v: Vec<usize>| places(v@)) == buckets(places(ids@), b as int),
        forall|k: int| 0 <= k < r@.len() ==> named((#[trigger] r@[k])@, count) && 1 <= r@[k]@.len() <= b,
        ids@.len() >= 1 ==> r@.len() >= 1,
{
    let ghost ip = places(ids@);
    let ghost view = |v: Vec<usize>| places(v@);
    let ghost all = buckets(ip, b as int);
    let mut r: Vec<Vec<usize>> = Vec::new();
    let mut at: usize = 0;
    proof {
        assert(ip.skip(0) =~= ip);
        assert(r@.map_values(view) + all =~= all);
    }
    while at < ids.len()
        invariant
            b >= 1,
            named(ids@, count),
            ip == places(ids@),
            at <= ids@.len(),
            view == (|v: Vec<usize>| places(v@)),
            all == r@.map_values(view) + buckets(ip.skip(at as int), b as int),
            at > 0 ==> r@.len() >= 1,
            forall|k: int| 0 <= k < r@.len() ==> named((#[trigger] r@[k])@, count) && 1 <= r@[k]@.len() <= b,
        decreases ids.len() - at,
    {
        let left: usize = ids.len() - at;
        let m: usize = if b < left { b } else { left };
        let bucket: Vec<usize> = part(ids, at, at + m);
        let ghost rest = ip.skip(at as int);
        let ghost before = r@;
        proof {
            assert(rest.take(m as int) =~= places(bucket@));
            assert(rest.skip(m as int) =~= ip.skip(at + m));
            assert(named(bucket@, count));
        }
        r.push(bucket);
        proof {
            assert(r@.map_values(view) =~= before.map_values(view).push(places(bucket@)));
            assert(all =~= r@.map_values(view) + buckets(ip.skip(at + m), b as int));
        }
        at = at + m;
    }
    proof { assert(r@.map_values(view) + Seq::<Seq<int>>::empty() =~= r@.map_values(view)); }
    r
}

proof fn lemma_width_bound(space: Seq<Parameter>, k: nat)
    requires
        tame_box(space),
        k <= 7,
    ensures
        0 <= crate::rtree::width(space, k) <= k * 0x4000_0000,
    decreases k,
{
    if k > 0 {
        lemma_width_bound(space, (k - 1) as nat);
        assert(tame(space[k - 1].min) && tame(space[k - 1].max));
    }
}

proof fn lemma_joined_tame(spaces: Seq<Seq<Parameter>>, ids: Seq<int>, n: nat)
    requires
        tame_boxes(spaces),
        1 <= n <= ids.len(),
        forall|i: int| 0 <= i < ids.len() ==> 0 <= #[trigger] ids[i] < spaces.len(),
    ensures
        tame_box(joined(spaces, ids, n)),
    decreases n,
{
    assert(tame_box(spaces[ids[0]]));
    if n > 1 {
        lemma_joined_tame(spaces, ids, (n - 1) as nat);
        assert(tame_box(spaces[ids[n - 1]]));
        let (a, b) = (joined(spaces, ids, (n - 1) as nat), spaces[ids[n - 1]]);
        assert forall|d: int| 0 <= d < 7 implies tame((#[trigger] joined(spaces, ids, n)[d]).min) && tame(
            joined(spaces, ids, n)[d].max) by {
            assert(tame(a[d].min) && tame(b[d].min));
        }
    }
}

/// Buckets of tame boxes never cost the largest number.
proof fn lemma_cost_bound(spaces: Seq<Seq<Parameter>>, ids: Seq<int>, b: int)
    requires
        tame_boxes(spaces),
        b >= 1,
        forall|i: int| 0 <= i < ids.len() ==> 0 <= #[trigger] ids[i] < spaces.len(),
        ids.len() <= 0x2000_0000,
    ensures
        0 <= total_cost(spaces, ids, b) <= ids.len() * 0x2_0000_0000,
    decreases ids.len(),
{
    if ids.len() > 0 {
        let m = first_bucket(ids.len() as int, b);
        let (first, rest) = (ids.take(m), ids.skip(m));
        assert forall|i: int| 0 <= i < rest.len() implies 0 <= #[trigger] rest[i] < spaces.len() by {
            assert(rest[i] == ids[i + m]);
        }
        assert forall|i: int| 0 <= i < first.len() implies 0 <= #[trigger] first[i] < spaces.len() by {
            assert(first[i] == ids[i]);
        }
        lemma_cost_bound(spaces, rest, b);
        lemma_joined_tame(spaces, first, m as nat);
        lemma_width_bound(joined(spaces, first, m as nat), 7);
    }
}

/// Tame boxes have a best axis.
proof fn lemma_has_best(spaces: Seq<Seq<Parameter>>, ids: Seq<int>, b: int)
    requires
        tame_boxes(spaces),
        b >= 1,
        forall|i: int| 0 <= i < ids.len() ==> 0 <= #[trigger] ids[i] < spaces.len(),
        1 <= ids.len() <= 0x2000_0000,
    ensures
        best_axis(spaces, ids, b, 7).at.len() == ids.len(),
{
    reveal_with_fuel(best_axis, 8);
    let zero = best_axis(spaces, ids, b, 0);
    let one = best_axis(spaces, ids, b, 1);
    crate::rtree::lemma_sorted_by(spaces, ids, 0, false);
    let order = crate::rtree::sorted_by(spaces, ids, 0, false);
    assert forall|i: int| 0 <= i < order.len() implies 0 <= #[trigger] order[i] < spaces.len() by {
        assert(order.contains(order[i]));
        let j = choose|j: int| 0 <= j < ids.len() && ids[j] == order[i];
        assert(0 <= ids[j] < spaces.len());
    }
    lemma_cost_bound(spaces, order, b);
    assert(one.at == order);
    lemma_best_at_stays(spaces, ids, b, 1, 7);
    lemma_best_axis(spaces, ids, b, 7);
}

proof fn lemma_best_at_stays(spaces: Seq<Seq<Parameter>>, ids: Seq<int>, b: int, d: nat, e: nat)
    requires
        d <= e,
        best_axis(spaces, ids, b, d).at.len() > 0,
        ids.len() > 0,
    ensures
        best_axis(spaces, ids, b, e).at.len() > 0,
    decreases e,
{
    if d < e {
        lemma_best_at_stays(spaces, ids, b, d, (e - 1) as nat);
        lemma_best_axis(spaces, ids, b, e);
        let before = best_axis(spaces, ids, b, (e - 1) as nat);
        crate::rtree::lemma_sorted_by(spaces, before.order, e - 1, false);
        lemma_best_axis(spaces, ids, b, (e - 1) as nat);
    }
}

/// Build the tree over some boxes, as far as there is always an axis to cut
/// them along.
fn build(spaces: &Vec<Space>, ids: &Vec<usize>, Ghost(depth): Ghost<nat>) -> (r: Option<RNode>)
    requires
        1 <= ids@.len() <= depth,
        named(ids@, spaces@.len()),
    ensures
        r is Some <==> sound(boxes(spaces@), built(boxes(spaces@), places(ids@), depth)),
        r matches Some(node) ==> shaped(node, built(boxes(spaces@), places(ids@), depth), spaces@.len()),
    decreases ids@.len(),
{
    let ghost sp = boxes(spaces@);
    let ghost ip = places(ids@);
    let n: usize = ids.len();
    proof {
        assert forall|i: int| 0 <= i < ip.len() implies 0 <= #[trigger] ip[i] < sp.len() by {
            assert(ids@[i] < spaces@.len());
        }
    }
    if n == 1 {
        return Some(RNode::Leaf { id: ids[0] });
    }
    if n <= CHILDREN_PER_NODE {
        let o: Vec<usize> = sort_by_total(spaces, ids);
        let ghost op = places(o@);
        let space: Space = join(spaces, &o, 0, o.len());
        proof { assert(op.subrange(0, op.len() as int) =~= op); }
        let mut children: Vec<RNode> = Vec::new();
        let mut i: usize = 0;
        while i < o.len()
            invariant
                i <= o@.len(),
                children@.len() == i,
                named(o@, spaces@.len()),
                op == places(o@),
                forall|k: int| 0 <= k < i ==> shaped(#[trigger] children@[k], Tree::Leaf(op[k]), spaces@.len()),
            decreases o.len() - i,
        {
            children.push(RNode::Leaf { id: o[i] });
            i += 1;
        }
        proof { lemma_few_sound(sp, ip, depth); }
        return Some(RNode::Sub { space, children });
    }
    let b: usize = largest_power(19, n);
    let (_, axis, at) = find_best_axis(spaces, ids, b);
    let ghost best = best_axis(sp, ip, b as int, 7);
    if at.len() == 0 {
        proof {
            assert(best.at.len() == 0);
            assert(buckets(best.at, b as int).len() == 0);
        }
        return None;
    }
    let parts: Vec<Vec<usize>> = bucketize(&at, b, Ghost(spaces@.len()));
    let ghost view = |v: Vec<usize>| places(v@);
    let ghost parts_p = parts@.map_values(view);
    let mut keys: Vec<Vec<i64>> = Vec::new();
    while keys.len() < parts.len()
        invariant
            sp == boxes(spaces@),
            axis < 7,
            view == (|v: Vec<usize>| places(v@)),
            parts_p == parts@.map_values(view),
            forall|k: int| 0 <= k < parts@.len() ==> named((#[trigger] parts@[k])@, spaces@.len()) && 1 <= parts@[k]@.len() <= b,
            keys@.len() <= parts@.len(),
            forall|k: int|
                0 <= k < keys@.len() ==> (#[trigger] keys@[k])@ == middles(
                    joined(sp, parts_p[k], parts_p[k].len()), axis as int, true),
        decreases parts.len() - keys.len(),
    {
        let k: usize = keys.len();
        let bucket: &Vec<usize> = &parts[k];
        let space: Space = join(spaces, bucket, 0, bucket.len());
        proof {
            assert(parts_p[k as int] == places(bucket@));
            assert(places(bucket@).subrange(0, bucket@.len() as int) =~= places(bucket@));
        }
        keys.push(crate::rtree::keys_of(&space, axis, true));
    }
    proof { assert(lists(keys@) =~= bucket_keys(sp, parts_p, axis as int)); }
    let order: Vec<usize> = stable_order(&keys, 7);
    let ghost o = places(order@);
    let ghost kids = Seq::new(parts_p.len(), |i: int| built(sp, parts_p[o[i]], (depth - 1) as nat));
    let mut children: Vec<RNode> = Vec::new();
    while children.len() < order.len()
        invariant
            sp == boxes(spaces@),
            n == ids@.len(),
            n <= depth,
            ip == places(ids@),
            n > CHILDREN_PER_NODE,
            b == power_below(19, n as int),
            best == best_axis(sp, ip, b as int, 7),
            parts_p == buckets(best.at, b as int),
            o == order_of(bucket_keys(sp, parts_p, best.axis)),
            1 <= b < n,
            view == (|v: Vec<usize>| places(v@)),
            parts_p == parts@.map_values(view),
            forall|k: int| 0 <= k < parts@.len() ==> named((#[trigger] parts@[k])@, spaces@.len()) && 1 <= parts@[k]@.len() <= b,
            o == places(order@),
            order@.len() == parts@.len(),
            lists(keys@).len() == parts@.len(),
            crate::order::is_order(lists(keys@), o),
            kids == Seq::new(parts_p.len(), |i: int| built(sp, parts_p[o[i]], (depth - 1) as nat)),
            children@.len() <= order@.len(),
            forall|k: int| 0 <= k < children@.len() ==> shaped(#[trigger] children@[k], kids[k], spaces@.len()),
            forall|k: int| 0 <= k < children@.len() ==> sound(sp, #[trigger] kids[k]),
        decreases order.len() - children.len(),
    {
        let k: usize = children.len();
        proof {
            assert(0 <= o[k as int] < lists(keys@).len());
            assert(o[k as int] == order@[k as int]);
        }
        let bucket: &Vec<usize> = &parts[order[k]];
        proof { assert(parts_p[o[k as int]] == places(bucket@)); }
        let child: RNode = match build(spaces, bucket, Ghost((depth - 1) as nat)) {
            Some(child) => child,
            None => {
                proof {
                    let t = built(sp, ip, depth);
                    assert(t is Sub && t->Sub_1 =~= kids);
                    assert(!sound(sp, kids[k as int]));
                }
                return None;
            },
        };
        let ghost before = children@;
        children.push(child);
        proof {
            assert(kids[k as int] == built(sp, parts_p[o[k as int]], (depth - 1) as nat));
            assert forall|j: int| 0 <= j < children@.len() implies shaped(#[trigger] children@[j], kids[j], spaces@.len()) by {
                if j < before.len() {
                    assert(children@[j] == before[j]);
                }
            }
        }
    }
    let space: Space = join_nodes(&children, spaces, Ghost(kids));
    proof {
        let t = built(sp, ip, depth);
        assert(parts_p == buckets(best.at, b as int));
        assert(t is Sub && t->Sub_1 =~= kids);
        assert(t == Tree::Sub(joined_trees(sp, kids, kids.len()), kids));
    }
    Some(RNode::Sub { space, children })
}

/// Buckets lose no box.
proof fn lemma_buckets(ids: Seq<int>, b: int)
    requires
        b >= 1,
    ensures
        ids.len() >= 1 ==> buckets(ids, b).len() >= 1,
        forall|k: int|
            0 <= k < buckets(ids, b).len() ==> 1 <= (#[trigger] buckets(ids, b)[k]).len() <= b && forall|i: int|
                0 <= i < buckets(ids, b)[k].len() ==> ids.contains(#[trigger] buckets(ids, b)[k][i]),
        forall|x: int| #[trigger]
            ids.contains(x) ==> exists|k: int| 0 <= k < buckets(ids, b).len() && (#[trigger] buckets(ids, b)[k]).contains(x),
    decreases ids.len(),
{
    if ids.len() > 0 {
        let m = first_bucket(ids.len() as int, b);
        let (first, rest) = (ids.take(m), ids.skip(m));
        lemma_buckets(rest, b);
        let all = buckets(ids, b);
        let others = buckets(rest, b);
        assert(all == seq![first] + others);
        assert forall|k: int| 0 <= k < all.len() implies 1 <= (#[trigger] all[k]).len() <= b && forall|i: int|
            0 <= i < all[k].len() ==> ids.contains(#[trigger] all[k][i]) by {
            if k == 0 {
                assert forall|i: int| 0 <= i < first.len() implies ids.contains(#[trigger] first[i]) by {
                    assert(ids[i] == first[i]);
                }
            } else {
                assert(all[k] == others[k - 1]);
                assert forall|i: int| 0 <= i < all[k].len() implies ids.contains(#[trigger] all[k][i]) by {
                    assert(rest.contains(others[k - 1][i]));
                    let j = choose|j: int| 0 <= j < rest.len() && rest[j] == others[k - 1][i];
                    assert(ids[j + m] == rest[j]);
                }
            }
        }
        assert forall|x: int| #[trigger] ids.contains(x) implies exists|k: int|
            0 <= k < all.len() && (#[trigger] all[k]).contains(x) by {
            let i = choose|i: int| 0 <= i < ids.len() && ids[i] == x;
            if i < m {
                assert(first[i] == x);
                assert(all[0].contains(x));
            } else {
                assert(rest[i - m] == x);
                assert(rest.contains(x));
                let k = choose|k: int| 0 <= k < others.len() && (#[trigger] others[k]).contains(x);
                assert(all[k + 1] == others[k]);
                assert(all[k + 1].contains(x));
            }
        }
    }
}

/// A tree over few boxes is sound.
proof fn lemma_few_sound(spaces: Seq<Seq<Parameter>>, ids: Seq<int>, depth: nat)
    requires
        1 <= ids.len() <= depth,
        ids.len() <= 19,
        forall|i: int| 0 <= i < ids.len() ==> 0 <= #[trigger] ids[i] < spaces.len(),
    ensures
        sound(spaces, built(spaces, ids, depth)),
{
    if ids.len() > 1 {
        let t = built(spaces, ids, depth);
        lemma_sorted_small(spaces, ids);
        let o = sorted_small(spaces, ids);
        let kids = Seq::new(o.len(), |i: int| Tree::Leaf(o[i]));
        lemma_joined_leaves(spaces, o, kids, o.len());
        assert forall|k: int| 0 <= k < kids.len() implies sound(spaces, #[trigger] kids[k]) by {
            assert(o.contains(o[k]));
            let j = choose|j: int| 0 <= j < ids.len() && ids[j] == o[k];
            assert(0 <= ids[j] < spaces.len());
        }
        assert(t->Sub_1 =~= kids);
    }
}

/// A sound tree over some boxes has every one of them as a leaf.
proof fn lemma_built(spaces: Seq<Seq<Parameter>>, ids: Seq<int>, depth: nat)
    requires
        1 <= ids.len() <= depth,
        sound(spaces, built(spaces, ids, depth)),
    ensures
        forall|id: int| ids.contains(id) ==> #[trigger] has_leaf(built(spaces, ids, depth), id),
    decreases depth,
{
    let t = built(spaces, ids, depth);
    if ids.len() == 1 {
    } else if ids.len() <= 19 {
        lemma_sorted_small(spaces, ids);
        let o = sorted_small(spaces, ids);
        let kids = Seq::new(o.len(), |i: int| Tree::Leaf(o[i]));
        assert(t->Sub_1 =~= kids);
        assert forall|id: int| ids.contains(id) implies #[trigger] has_leaf(t, id) by {
            assert(o.contains(id));
            let k = choose|k: int| 0 <= k < o.len() && o[k] == id;
            assert(has_leaf(kids[k], id));
            assert(t is Sub);
        }
    } else {
        let n = ids.len() as int;
        let b = power_below(19, n);
        lemma_power(n, 1);
        lemma_best_axis(spaces, ids, b, 7);
        let best = best_axis(spaces, ids, b, 7);
        let parts = buckets(best.at, b);
        lemma_buckets(best.at, b);
        let keys = bucket_keys(spaces, parts, best.axis);
        crate::order::lemma_order_exists(keys, 7);
        let o = order_of(keys);
        crate::order::lemma_order_covers(keys, 7, o);
        let kids = Seq::new(parts.len(), |i: int| built(spaces, parts[o[i]], (depth - 1) as nat));
        assert(t is Sub && t->Sub_1 == kids);
        assert(best.at.len() > 0) by {
            if best.at.len() == 0 {
                assert(parts.len() == 0);
                assert(kids.len() == 0);
            }
        }
        assert forall|id: int| ids.contains(id) implies #[trigger] has_leaf(t, id) by {
            assert(best.at.contains(id));
            let q = choose|q: int| 0 <= q < parts.len() && (#[trigger] parts[q]).contains(id);
            assert(o.contains(q));
            let k = choose|k: int| 0 <= k < o.len() && o[k] == q;
            assert(kids[k] == built(spaces, parts[q], (depth - 1) as nat));
            assert(sound(spaces, kids[k]));
            lemma_built(spaces, parts[q], (depth - 1) as nat);
            assert(has_leaf(kids[k], id));
        }
    }
}

/// A tree over tame boxes is sound.
proof fn lemma_tame_sound(spaces: Seq<Seq<Parameter>>, ids: Seq<int>, depth: nat)
    requires
        1 <= ids.len() <= depth,
        ids.len() <= 0x2000_0000,
        tame_boxes(spaces),
        forall|i: int| 0 <= i < ids.len() ==> 0 <= #[trigger] ids[i] < spaces.len(),
    ensures
        sound(spaces, built(spaces, ids, depth)),
    decreases depth,
{
    if ids.len() <= 19 {
        lemma_few_sound(spaces, ids, depth);
    } else {
        let t = built(spaces, ids, depth);
        let n = ids.len() as int;
        let b = power_below(19, n);
        lemma_power(n, 1);
        lemma_has_best(spaces, ids, b);
        lemma_best_axis(spaces, ids, b, 7);
        let best = best_axis(spaces, ids, b, 7);
        let parts = buckets(best.at, b);
        lemma_buckets(best.at, b);
        let keys = bucket_keys(spaces, parts, best.axis);
        crate::order::lemma_order_exists(keys, 7);
        let o = order_of(keys);
        crate::order::lemma_order_covers(keys, 7, o);
        let kids = Seq::new(parts.len(), |i: int| built(spaces, parts[o[i]], (depth - 1) as nat));
        assert(t is Sub && t->Sub_1 == kids);
        assert forall|k: int| 0 <= k < kids.len() implies sound(spaces, #[trigger] kids[k]) by {
            assert(0 <= o[k] < keys.len());
            let p = parts[o[k]];
            assert forall|i: int| 0 <= i < p.len() implies 0 <= #[trigger] p[i] < spaces.len() by {
                assert(best.at.contains(p[i]));
                assert(ids.contains(p[i]));
                let j = choose|j: int| 0 <= j < ids.len() && ids[j] == p[i];
                assert(0 <= ids[j] < spaces.len());
            }
            lemma_tame_sound(spaces, p, (depth - 1) as nat);
            assert(kids[k] == built(spaces, p, (depth - 1) as nat));
        }
    }
}

proof fn lemma_power(n: int, p: int)
    requires
        1 <= p < n,
    ensures
        p <= crate::rtree::power_from(19, n, p) < n,
    decreases n - p,
{
    if p < p * 19 && p * 19 < n {
        lemma_power(n, p * 19);
    }
}

/// A node of the flat tree: its children are the run `first..last`.
struct FlatNode {
    space: Space,
    first: usize,
    last: usize,
    leaf: Option<usize>,
}

/// A flat node and those below it have a tree's shape.
spec fn flattened(flat: Seq<FlatNode>, at: int, t: Tree, spaces: Seq<Seq<Parameter>>) -> bool
    decreases t,
{
    &&& 0 <= at < flat.len()
    &&& flat[at].space@ == tree_space(spaces, t)
    &&& match t {
        Tree::Leaf(id) => flat[at].leaf == Some(id as usize) && 0 <= id < spaces.len() && spaces.len() <= usize::MAX,
        Tree::Sub(_, kids) => {
            &&& flat[at].leaf is None
            &&& flat[at].first + kids.len() == flat[at].last
            &&& flat[at].last <= flat.len()
            &&& forall|k: int| 0 <= k < kids.len() ==> flattened(flat, flat[at].first + k, #[trigger] kids[k], spaces)
        },
    }
}

/// More nodes behind leave the earlier ones as they are.
proof fn lemma_flattened_extends(a: Seq<FlatNode>, b: Seq<FlatNode>, at: int, t: Tree, spaces: Seq<Seq<Parameter>>)
    requires
        flattened(a, at, t, spaces),
        a.len() <= b.len(),
        forall|i: int| 0 <= i < a.len() ==> b[i] == a[i],
    ensures
        flattened(b, at, t, spaces),
    decreases t,
{
    if let Tree::Sub(_, kids) = t {
        assert forall|k: int| 0 <= k < kids.len() implies flattened(b, b[at].first + k, #[trigger] kids[k], spaces) by {
            assert(flattened(a, a[at].first + k, kids[k], spaces));
            lemma_flattened_extends(a, b, a[at].first + k, kids[k], spaces);
        }
    }
}

/// A node as it goes into the flat tree, its children below already there.
fn flat_node(node: &RNode, spaces: &Vec<Space>, run: (usize, usize), Ghost(t): Ghost<Tree>) -> (r: FlatNode)
    requires
        shaped(*node, t, spaces@.len()),
    ensures
        r.space@ == tree_space(boxes(spaces@), t),
        match t {
            Tree::Leaf(id) => r.leaf == Some(id as usize),
            Tree::Sub(_, _) => r.leaf is None && r.first == run.0 && r.last == run.1,
        },
{
    match node {
        RNode::Leaf { id } => FlatNode { space: spaces[*id], first: 0, last: 0, leaf: Some(*id) },
        RNode::Sub { space, children } => FlatNode { space: *space, first: run.0, last: run.1, leaf: None },
    }
}

/// Append a node's children as one run, those below each first.
fn flatten_children(node: &RNode, spaces: &Vec<Space>, flat: &mut Vec<FlatNode>, Ghost(t): Ghost<Tree>) -> (r: (usize, usize))
    requires
        shaped(*node, t, spaces@.len()),
        sound(boxes(spaces@), t),
    ensures
        final(flat)@.len() >= old(flat)@.len(),
        forall|i: int| 0 <= i < old(flat)@.len() ==> #[trigger] final(flat)@[i] == old(flat)@[i],
        match t {
            Tree::Leaf(_) => true,
            Tree::Sub(_, kids) => {
                &&& r.0 + kids.len() == r.1
                &&& r.1 <= final(flat)@.len()
                &&& forall|k: int|
                    0 <= k < kids.len() ==> flattened(final(flat)@, r.0 + k, #[trigger] kids[k], boxes(spaces@))
            },
        },
    decreases *node,
{
    let ghost start = flat@;
    let ghost sp = boxes(spaces@);
    match node {
        RNode::Leaf { id } => (0, 0),
        RNode::Sub { space: _, children } => {
            let ghost kids = t->Sub_1;
            let mut runs: Vec<(usize, usize)> = Vec::new();
            while runs.len() < children.len()
                invariant
                    *node matches RNode::Sub { children: c, .. } && c == *children,
                    sp == boxes(spaces@),
                    runs@.len() <= children@.len(),
                    children@.len() == kids.len(),
                    forall|k: int| 0 <= k < kids.len() ==> shaped(#[trigger] children@[k], kids[k], spaces@.len()),
                    forall|k: int| 0 <= k < kids.len() ==> sound(sp, #[trigger] kids[k]),
                    flat@.len() >= start.len(),
                    forall|i: int| 0 <= i < start.len() ==> #[trigger] flat@[i] == start[i],
                    forall|k: int| 0 <= k < runs@.len() ==> hangs(flat@, #[trigger] runs@[k], kids[k], sp),
                decreases children.len() - runs.len(),
            {
                let i: usize = runs.len();
                let ghost before = flat@;
                proof {
                    assert(decreases_to!(*node => node->Sub_children));
                    assert(decreases_to!(children@ => children@[i as int]));
                    assert(shaped(children@[i as int], kids[i as int], spaces@.len()));
                }
                let run: (usize, usize) = flatten_children(&children[i], spaces, flat, Ghost(kids[i as int]));
                let ghost runs0 = runs@;
                runs.push(run);
                proof {
                    assert forall|k: int| 0 <= k < runs@.len() implies hangs(flat@, #[trigger] runs@[k], kids[k], sp) by {
                        if k < i {
                            assert(runs@[k] == runs0[k]);
                            lemma_hangs_extends(before, flat@, runs0[k], kids[k], sp);
                        }
                    }
                }
            }
            let first: usize = flat.len();
            let count: usize = spaces.len();
            let mut i: usize = 0;
            let ghost below = flat@;
            while i < children.len()
                invariant
                    sp == boxes(spaces@),
                    i <= children@.len(),
                    runs@.len() == children@.len(),
                    children@.len() == kids.len(),
                    forall|k: int| 0 <= k < kids.len() ==> shaped(#[trigger] children@[k], kids[k], spaces@.len()),
                    forall|k: int| 0 <= k < kids.len() ==> sound(sp, #[trigger] kids[k]),
                    count == sp.len(),
                    below.len() == first,
                    start.len() <= first,
                    flat@.len() == first + i,
                    forall|j: int| 0 <= j < first ==> #[trigger] flat@[j] == below[j],
                    forall|k: int| 0 <= k < runs@.len() ==> hangs(below, #[trigger] runs@[k], kids[k], sp),
                    forall|k: int| 0 <= k < i ==> flattened(flat@, first + k, #[trigger] kids[k], sp),
                decreases children.len() - i,
            {
                let ghost before = flat@;
                proof { assert(shaped(children@[i as int], kids[i as int], spaces@.len())); }
                let node: FlatNode = flat_node(&children[i], spaces, runs[i], Ghost(kids[i as int]));
                flat.push(node);
                proof {
                    assert(hangs(below, runs@[i as int], kids[i as int], sp));
                    lemma_hangs_extends(below, flat@, runs@[i as int], kids[i as int], sp);
                    let kid = kids[i as int];
                    assert(sound(sp, kid));
                    assert(flat@[first + i] == node);
                    assert(flattened(flat@, first + i, kid, sp)) by {
                        match kid {
                            Tree::Leaf(id) => {
                                assert(0 <= id < count);
                            },
                            Tree::Sub(_, grand) => {
                                assert(node.first == runs@[i as int].0);
                            },
                        }
                    }
                    assert forall|k: int| 0 <= k < i + 1 implies flattened(flat@, first + k, #[trigger] kids[k], sp) by {
                        if k < i {
                            lemma_flattened_extends(before, flat@, first + k, kids[k], sp);
                        }
                    }
                }
                i += 1;
            }
            (first, flat.len())
        },
    }
}

/// The children of a tree stand in a run.
spec fn hangs(flat: Seq<FlatNode>, run: (usize, usize), t: Tree, spaces: Seq<Seq<Parameter>>) -> bool {
    match t {
        Tree::Leaf(_) => true,
        Tree::Sub(_, kids) => {
            &&& run.0 + kids.len() == run.1
            &&& run.1 <= flat.len()
            &&& forall|k: int| 0 <= k < kids.len() ==> flattened(flat, run.0 + k, #[trigger] kids[k], spaces)
        },
    }
}

proof fn lemma_hangs_extends(a: Seq<FlatNode>, b: Seq<FlatNode>, run: (usize, usize), t: Tree, spaces: Seq<Seq<Parameter>>)
    requires
        hangs(a, run, t, spaces),
        a.len() <= b.len(),
        forall|i: int| 0 <= i < a.len() ==> b[i] == a[i],
    ensures
        hangs(b, run, t, spaces),
{
    if let Tree::Sub(_, kids) = t {
        assert forall|k: int| 0 <= k < kids.len() implies flattened(b, run.0 + k, #[trigger] kids[k], spaces) by {
            assert(flattened(a, run.0 + k, kids[k], spaces));
            lemma_flattened_extends(a, b, run.0 + k, kids[k], spaces);
        }
    }
}

/// What keeps a biome stage from being made.
#[derive(Debug)]
pub enum BiomeError {
    /// There are no parameters.
    Empty,
    /// However the parameters are cut up, the pieces are too large to be
    /// told apart by their size.
    TooWide,
}

/// Per block column memo of a search: a node's distance over every
/// dimension but depth, computed on first visit in the column. `stamp`
/// marks which column the value belongs to.
pub struct ColumnSearch {
    stamp: Vec<u32>,
    partial: Vec<i64>,
    current: u32,
    target: [i64; 7],
}

impl Default for ColumnSearch {
    fn default() -> (r: ColumnSearch)
        ensures
            r.wf(),
    {
        ColumnSearch { stamp: Vec::new(), partial: Vec::new(), current: 0, target: [0;7] }
    }
}

impl ColumnSearch {
    /// No value is stamped later than now.
    pub closed spec fn wf(&self) -> bool {
        &&& self.stamp@.len() == self.partial@.len()
        &&& forall|n: int| 0 <= n < self.stamp@.len() ==> #[trigger] self.stamp@[n] <= self.current
    }

    /// The column's target.
    pub closed spec fn column_target(&self) -> Seq<i64> {
        self.target@
    }
}

/// The sum of squared distances on every axis but depth.
spec fn level_far(space: Seq<Parameter>, target: Seq<i64>, k: nat) -> i64
    decreases k,
{
    if k == 0 {
        0
    } else {
        let d = gap(space[k - 1], target[k - 1]);
        let before = level_far(space, target, (k - 1) as nat);
        if k - 1 == 4 { before } else { before.wrapping_add(d.wrapping_mul(d)) }
    }
}

/// Sums that wrap come to the same in any order.
proof fn lemma_level_far(space: Seq<Parameter>, target: Seq<i64>, depth: i64, k: nat)
    requires
        target.len() == 7,
        k <= 7,
    ensures
        far(space, target.update(4, depth), k) == (if k > 4 {
            level_far(space, target, k).wrapping_add(gap(space[4], depth).wrapping_mul(gap(space[4], depth)))
        } else {
            level_far(space, target, k)
        }),
    decreases k,
{
    if k > 0 {
        lemma_level_far(space, target, depth, (k - 1) as nat);
        let a = level_far(space, target, (k - 1) as nat);
        let b = gap(space[4], depth).wrapping_mul(gap(space[4], depth));
        let d = gap(space[k - 1], target[k - 1]);
        let c = d.wrapping_mul(d);
        assert(a.wrapping_add(b).wrapping_add(c) == a.wrapping_add(c).wrapping_add(b));
    }
}

/// The nearest-parameter tree over biome indices.
pub struct RTree {
    root: RNode,
    spaces: Vec<Space>,
    values: Vec<u16>,
    /// The same tree, flat; its root comes last.
    flat: Vec<FlatNode>,
}

/// The tree over numbered boxes.
pub open spec fn tree_over(spaces: Seq<Seq<Parameter>>) -> Tree {
    built(spaces, Seq::new(spaces.len(), |i: int| i), spaces.len())
}

/// Boxes that a tree can be built over: at every level there is an axis
/// along which they can be cut.
pub open spec fn buildable(spaces: Seq<Seq<Parameter>>) -> bool {
    spaces.len() >= 1 && sound(spaces, tree_over(spaces))
}

impl RTree {
    /// The boxes, by leaf.
    pub closed spec fn regions(&self) -> Seq<Seq<Parameter>> {
        boxes(self.spaces@)
    }

    /// The biome of each leaf.
    pub closed spec fn biomes(&self) -> Seq<u16> {
        self.values@
    }

    pub closed spec fn wf(&self) -> bool {
        &&& buildable(self.regions())
        &&& self.values@.len() == self.spaces@.len()
        &&& shaped(self.root, tree_over(self.regions()), self.spaces@.len())
        &&& self.flat@.len() >= 1
        &&& flattened(self.flat@, self.flat@.len() - 1, tree_over(self.regions()), self.regions())
    }

    /// A column's memo fits this tree.
    pub closed spec fn ready(&self, col: ColumnSearch) -> bool {
        &&& col.wf()
        &&& col.stamp@.len() == self.flat@.len()
        &&& forall|n: int|
            0 <= n < self.flat@.len() && #[trigger] col.stamp@[n] == col.current ==> col.partial@[n] == level_far(
                self.flat@[n].space@, col.target@, 7)
    }

    /// There is a biome per box, and the boxes could be built over.
    pub proof fn lemma_counts(&self)
        requires
            self.wf(),
        ensures
            self.biomes().len() == self.regions().len(),
            buildable(self.regions()),
    {
    }

    /// Build from (parameter point, biome index) pairs in registry order.
    pub fn new(values: &[(Space, u16)]) -> (r: Result<RTree, BiomeError>)
        ensures
            match r {
                Ok(t) => {
                    &&& buildable(values@.map_values(|v: (Space, u16)| v.0@))
                    &&& t.wf()
                    &&& t.regions() == values@.map_values(|v: (Space, u16)| v.0@)
                    &&& t.biomes() == values@.map_values(|v: (Space, u16)| v.1)
                },
                Err(BiomeError::Empty) => values@.len() == 0,
                Err(BiomeError::TooWide) => values@.len() >= 1 && !buildable(values@.map_values(|v: (Space, u16)| v.0@)),
            },
    {
        let n: usize = values.len();
        if n == 0 {
            return Err(BiomeError::Empty);
        }
        let ghost given = values@.map_values(|v: (Space, u16)| v.0@);
        let mut spaces: Vec<Space> = Vec::new();
        let mut kept: Vec<u16> = Vec::new();
        let mut ids: Vec<usize> = Vec::new();
        while spaces.len() < n
            invariant
                n == values@.len(),
                spaces@.len() <= n,
                kept@.len() == spaces@.len(),
                ids@.len() == spaces@.len(),
                forall|k: int| 0 <= k < spaces@.len() ==> (#[trigger] spaces@[k])@ == values@[k].0@,
                forall|k: int| 0 <= k < spaces@.len() ==> #[trigger] kept@[k] == values@[k].1,
                forall|k: int| 0 <= k < spaces@.len() ==> #[trigger] ids@[k] == k,
            decreases n - spaces.len(),
        {
            let (space, biome) = values[spaces.len()];
            ids.push(spaces.len());
            spaces.push(space);
            kept.push(biome);
        }
        let ghost sp = boxes(spaces@);
        proof {
            assert(sp =~= given);
            assert(places(ids@) =~= Seq::new(sp.len(), |i: int| i));
        }
        let root: RNode = match build(&spaces, &ids, Ghost(spaces@.len())) {
            Some(root) => root,
            None => return Err(BiomeError::TooWide),
        };
        let ghost t = tree_over(sp);
        let count: usize = spaces.len();
        let mut flat: Vec<FlatNode> = Vec::new();
        let run: (usize, usize) = flatten_children(&root, &spaces, &mut flat, Ghost(t));
        let ghost below = flat@;
        let node: FlatNode = flat_node(&root, &spaces, run, Ghost(t));
        flat.push(node);
        proof {
            assert(hangs(below, run, t, sp));
            lemma_hangs_extends(below, flat@, run, t, sp);
            assert(flattened(flat@, flat@.len() - 1, t, sp));
        }
        let r = RTree { root, spaces, values: kept, flat };
        proof {
            assert(r.regions() == given);
            assert(r.biomes() =~= values@.map_values(|v: (Space, u16)| v.1));
        }
        Ok(r)
    }

    /// Start a column: `target` in every dimension but depth.
    pub fn column(&self, target: &[i64; 7], col: &mut ColumnSearch)
        requires
            self.wf(),
            old(col).wf(),
        ensures
            self.ready(*final(col)),
            final(col).column_target() == target@,
    {
        let n: usize = self.flat.len();
        if col.stamp.len() != n || col.current == u32::MAX {
            let mut stamp: Vec<u32> = Vec::new();
            let mut partial: Vec<i64> = Vec::new();
            while stamp.len() < n
                invariant
                    stamp@.len() <= n,
                    partial@.len() == stamp@.len(),
                    forall|i: int| 0 <= i < stamp@.len() ==> #[trigger] stamp@[i] == 0,
                decreases n - stamp.len(),
            {
                stamp.push(0);
                partial.push(0);
            }
            col.stamp = stamp;
            col.partial = partial;
            col.current = 0;
        }
        let ghost before = *col;
        col.current = col.current + 1;
        col.target = *target;
        proof {
            assert forall|i: int| 0 <= i < n && #[trigger] col.stamp@[i] == col.current implies false by {
                assert(before.stamp@[i] <= before.current);
            }
        }
    }

    /// Node distance for the column's target at `depth`: the six fixed
    /// dimensions from the column memo plus the depth term.
    fn node_distance(&self, col: &mut ColumnSearch, n: usize, depth: i64) -> (r: i64)
        requires
            self.wf(),
            self.ready(*old(col)),
            n < self.flat@.len(),
        ensures
            self.ready(*final(col)),
            final(col).column_target() == old(col).column_target(),
            r == far(self.flat@[n as int].space@, old(col).target@.update(4, depth), 7),
    {
        let ghost before = *col;
        let space: Space = self.flat[n].space;
        if col.stamp[n] != col.current {
            let mut d: i64 = 0;
            let mut i: usize = 0;
            while i < 7
                invariant
                    i <= 7,
                    d == level_far(space@, col.target@, i as nat),
                decreases 7 - i,
            {
                if i != DEPTH_DIMENSION {
                    let x: i64 = space[i].distance(col.target[i]);
                    d = d.wrapping_add(x.wrapping_mul(x));
                }
                i += 1;
            }
            col.partial.set(n, d);
            col.stamp.set(n, col.current);
            proof {
                assert forall|k: int| 0 <= k < self.flat@.len() && #[trigger] col.stamp@[k] == col.current implies col.partial@[k]
                    == level_far(self.flat@[k].space@, col.target@, 7) by {
                    if k != n {
                        assert(before.stamp@[k] == col.stamp@[k]);
                    }
                }
            }
        }
        proof {
            assert(col.stamp@[n as int] == col.current);
            lemma_level_far(space@, col.target@, depth, 7);
        }
        let dd: i64 = space[DEPTH_DIMENSION].distance(depth);
        col.partial[n].wrapping_add(dd.wrapping_mul(dd))
    }

    /// Search below a node of the flat tree.
    fn go(&self, col: &mut ColumnSearch, n: usize, depth: i64, candidate: Option<usize>, Ghost(t): Ghost<Tree>) -> (r: Option<usize>)
        requires
            self.wf(),
            self.ready(*old(col)),
            flattened(self.flat@, n as int, t, self.regions()),
            candidate matches Some(c) ==> c < self.spaces@.len(),
        ensures
            self.ready(*final(col)),
            final(col).column_target() == old(col).column_target(),
            number(r) == found(self.regions(), t, old(col).column_target().update(4, depth), number(candidate)),
            r matches Some(l) ==> l < self.spaces@.len(),
        decreases t,
    {
        let ghost sp = self.regions();
        let ghost target = col.target@.update(4, depth);
        if let Some(leaf) = self.flat[n].leaf {
            return Some(leaf);
        }
        let ghost kids = t->Sub_1;
        let first: usize = self.flat[n].first;
        let last: usize = self.flat[n].last;
        let mut at_depth: [i64; 7] = col.target;
        at_depth[4] = depth;
        proof { assert(at_depth@ =~= target); }
        let mut least: i64 = match candidate {
            Some(c) => space_distance(&self.spaces[c], &at_depth),
            None => i64::MAX,
        };
        let mut closest: Option<usize> = candidate;
        let ghost whole = found(sp, t, target, number(candidate));
        let mut child: usize = first;
        while child < last
            invariant
                self.wf(),
                self.ready(*col),
                col.column_target() == old(col).column_target(),
                target == old(col).column_target().update(4, depth),
                at_depth@ == target,
                sp == self.regions(),
                t is Sub,
                kids == t->Sub_1,
                first <= child <= last <= self.flat@.len(),
                first + kids.len() == last,
                forall|k: int| 0 <= k < kids.len() ==> flattened(self.flat@, first + k, #[trigger] kids[k], sp),
                closest matches Some(c) ==> c < self.spaces@.len(),
                whole == found(sp, t, target, number(candidate)),
                whole == scanned(sp, kids, child - first, target, number(closest), least),
            decreases last - child,
        {
            let ghost kid = kids[child - first];
            proof {
                assert(flattened(self.flat@, first + (child - first), kid, sp));
                assert(decreases_to!(t => t->Sub_1));
                assert(decreases_to!(kids => kids[child - first]));
            }
            let d: i64 = self.node_distance(col, child, depth);
            if least > d {
                match self.go(col, child, depth, closest, Ghost(kid)) {
                    Some(l) => {
                        let leaf_distance: i64 = space_distance(&self.spaces[l], &at_depth);
                        if least > leaf_distance {
                            least = leaf_distance;
                            closest = Some(l);
                        }
                    },
                    None => {},
                }
            }
            child += 1;
        }
        closest
    }

    /// The leaf that a search ends with.
    pub open spec fn nearest(&self, target: Seq<i64>, candidate: Option<usize>) -> Option<int> {
        found(self.regions(), tree_over(self.regions()), target, number(candidate))
    }

    /// `find` on the flat tree with the column memo: the same walk, same
    /// comparisons, same answer.
    pub fn find_in_column(&self, col: &mut ColumnSearch, depth: i64, candidate: Option<usize>) -> (r: Option<usize>)
        requires
            self.wf(),
            self.ready(*old(col)),
            candidate matches Some(c) ==> c < self.regions().len(),
        ensures
            self.ready(*final(col)),
            final(col).column_target() == old(col).column_target(),
            number(r) == self.nearest(old(col).column_target().update(4, depth), candidate),
            r matches Some(l) ==> l < self.regions().len(),
    {
        self.go(col, self.flat.len() - 1, depth, candidate, Ghost(tree_over(self.regions())))
    }

    /// The leaf closest to `target`, starting from the previous result;
    /// nothing where there is none and no leaf is nearer than the largest
    /// number.
    pub fn find(&self, target: &[i64; 7], candidate: Option<usize>) -> (r: Option<usize>)
        requires
            self.wf(),
            candidate matches Some(c) ==> c < self.regions().len(),
        ensures
            number(r) == self.nearest(target@, candidate),
            r matches Some(l) ==> l < self.regions().len(),
    {
        search(&self.root, &self.spaces, target, candidate, Ghost(tree_over(self.regions())))
    }

    /// `search` on the flat tree with the column memo: the same walk, same
    /// comparisons, same answer.
    pub fn search_in_column(&self, col: &mut ColumnSearch, depth: i64, candidate: Option<usize>) -> (r: usize)
        requires
            self.wf(),
            self.ready(*old(col)),
            candidate matches Some(c) ==> c < self.regions().len(),
            self.nearest(old(col).column_target().update(4, depth), candidate) is Some,
        ensures
            self.ready(*final(col)),
            final(col).column_target() == old(col).column_target(),
            self.nearest(old(col).column_target().update(4, depth), candidate) == Some(r as int),
            r < self.regions().len(),
    {
        match self.find_in_column(col, depth, candidate) {
            Some(l) => l,
            None => 0,
        }
    }

    /// The leaf closest to `target`, starting from the previous result.
    pub fn search(&self, target: &[i64; 7], candidate: Option<usize>) -> (r: usize)
        requires
            self.wf(),
            candidate matches Some(c) ==> c < self.regions().len(),
            self.nearest(target@, candidate) is Some,
        ensures
            self.nearest(target@, candidate) == Some(r as int),
            r < self.regions().len(),
    {
        match self.find(target, candidate) {
            Some(l) => l,
            None => 0,
        }
    }

    /// The biome of a leaf.
    pub fn value(&self, leaf: usize) -> (r: u16)
        requires
            self.wf(),
            leaf < self.regions().len(),
        ensures
            r == self.biomes()[leaf as int],
    {
        self.values[leaf]
    }
}

/// Boxes with coordinates far from the ends of the numbers can be built
/// over.
pub proof fn law_tame_boxes_build(spaces: Seq<Seq<Parameter>>)
    requires
        tame_boxes(spaces),
        1 <= spaces.len() <= 0x2000_0000,
    ensures
        buildable(spaces),
{
    lemma_tame_sound(spaces, Seq::new(spaces.len(), |i: int| i), spaces.len());
}

/// A search ends with a leaf where the squared distances from its target
/// add up within 64 bits, and wherever it has something to start from.
pub proof fn law_search_finds(spaces: Seq<Seq<Parameter>>, target: Seq<i64>, candidate: Option<int>)
    requires
        buildable(spaces),
        candidate matches Some(c) ==> 0 <= c < spaces.len(),
        candidate is Some || all_measured(spaces, target),
    ensures
        found(spaces, tree_over(spaces), target, candidate) matches Some(l) && 0 <= l < spaces.len(),
{
    if candidate is Some {
        lemma_found_from(spaces, tree_over(spaces), target, candidate);
    } else {
        lemma_found_some(spaces, tree_over(spaces), target, candidate);
    }
}

/// What a search ends with is as near to the target as every region, and
/// as near as the candidate it started from, as far as there is more than
/// one region. The squared distances from the target add up within 64 bits.
pub proof fn law_search_is_nearest(spaces: Seq<Seq<Parameter>>, target: Seq<i64>, candidate: Option<int>, id: int)
    requires
        buildable(spaces),
        forall|i: int| 0 <= i < spaces.len() ==> upright(#[trigger] spaces[i]),
        all_measured(spaces, target),
        candidate matches Some(c) ==> 0 <= c < spaces.len(),
        0 <= id < spaces.len(),
    ensures
        found(spaces, tree_over(spaces), target, candidate) is Some,
        far(spaces[found(spaces, tree_over(spaces), target, candidate)->0], target, 7) <= far(spaces[id], target, 7),
{
    let ids = Seq::new(spaces.len(), |i: int| i);
    lemma_built(spaces, ids, spaces.len());
    assert(ids[id] == id);
    assert(ids.contains(id));
    crate::rtree::law_found_is_nearest(spaces, tree_over(spaces), target, candidate, id);
}

} // verus!
