//! The climate parameter system: intervals, points, targets, and the
//! seven-dimensional nearest-neighbour tree that maps a climate sample
//! (temperature, humidity, continentalness, erosion, depth, weirdness) to a
//! biome.
//!
//! Climate coordinates are quantized by a factor of 10,000 to 64-bit
//! integers. Each biome lives in a region of the six climate axes; the tree
//! finds the region nearest to a sample. The seventh dimension is an offset
//! that biomes use as a tie-breaker.

use vstd::prelude::*;
use crate::arith::{answers, holds, low, reply, Ask};
use crate::order::places;
use crate::rtree::{
    all_measured, join_nodes, search, shaped, RNode, best_axis, boxes, far, find_best_axis, first_bucket, found, gap, has_leaf, joined,
    joined_trees, largest_power, lemma_best_axis, lemma_joined_leaves, lemma_sorted_by, lemma_sorted_small, named, part,
    power_below, sort_by_center, sort_by_total, sorted_by, sorted_small, sound, upright, Space, Tree,
};

pub use crate::rtree::Parameter;

verus! {

/// Children of a tree node.
pub const CHILDREN_PER_NODE: usize = 6;

/// Ten thousand, as a single.
pub const QUANTIZATION_FACTOR: u32 = 0x461C_4000;

/// A coordinate times ten thousand, cut to an integer.
pub open spec fn quantized<F: Fn(Ask) -> u64>(f: F, coord: u32) -> i64 {
    reply(f, Ask::ToLong32(low(f, Ask::Mul32(coord, QUANTIZATION_FACTOR)))) as i64
}

/// A coordinate times ten thousand, cut to an integer.
pub fn quantize_coord<F: Fn(Ask) -> u64>(coord: u32, f: &F) -> (r: i64)
    requires
        answers(*f),
    ensures
        r == quantized(*f, coord),
{
    let m: u32 = f(Ask::Mul32(coord, QUANTIZATION_FACTOR)) as u32;
    f(Ask::ToLong32(m)) as i64
}

/// A quantized coordinate as a number again.
pub fn unquantize_coord<F: Fn(Ask) -> u64>(coord: i64, f: &F) -> (r: u32)
    requires
        answers(*f),
    ensures
        r == low(*f, Ask::Div32(low(*f, Ask::FromLong32(coord)), QUANTIZATION_FACTOR)),
{
    let v: u32 = f(Ask::FromLong32(coord)) as u32;
    f(Ask::Div32(v, QUANTIZATION_FACTOR)) as u32
}

impl Parameter {
    /// The interval of one coordinate.
    pub fn point<F: Fn(Ask) -> u64>(coord: u32, f: &F) -> (r: Parameter)
        requires
            answers(*f),
        ensures
            r.min == quantized(*f, coord),
            r.max == quantized(*f, coord),
    {
        let q: i64 = quantize_coord(coord, f);
        Parameter { min: q, max: q }
    }

    /// The interval between two coordinates.
    pub fn span<F: Fn(Ask) -> u64>(min: u32, max: u32, f: &F) -> (r: Parameter)
        requires
            answers(*f),
            holds(*f, Ask::LessEq32(min, max)),
        ensures
            r.min == quantized(*f, min),
            r.max == quantized(*f, max),
    {
        Parameter { min: quantize_coord(min, f), max: quantize_coord(max, f) }
    }
}

/// A region of climate space and an offset.
#[derive(Clone, Copy, Debug, PartialEq, Eq)]
pub struct ParameterPoint {
    pub temperature: Parameter,
    pub humidity: Parameter,
    pub continentalness: Parameter,
    pub erosion: Parameter,
    pub depth: Parameter,
    pub weirdness: Parameter,
    pub offset: i64,
}

impl ParameterPoint {
    /// A region from its six intervals and a quantized offset.
    pub fn new(
        temperature: Parameter, humidity: Parameter, continentalness: Parameter, erosion: Parameter, depth: Parameter,
        weirdness: Parameter, offset: i64,
    ) -> (r: ParameterPoint)
        ensures
            r == (ParameterPoint { temperature, humidity, continentalness, erosion, depth, weirdness, offset }),
    {
        ParameterPoint { temperature, humidity, continentalness, erosion, depth, weirdness, offset }
    }

    /// The seven intervals, the offset as a point.
    pub open spec fn space(self) -> Seq<Parameter> {
        seq![
            self.temperature,
            self.humidity,
            self.continentalness,
            self.erosion,
            self.depth,
            self.weirdness,
            Parameter { min: self.offset, max: self.offset },
        ]
    }

    fn parameter_space(&self) -> (r: Space)
        ensures
            r@ == self.space(),
    {
        let r: Space = [
            self.temperature,
            self.humidity,
            self.continentalness,
            self.erosion,
            self.depth,
            self.weirdness,
            Parameter { min: self.offset, max: self.offset },
        ];
        proof { assert(r@ =~= self.space()); }
        r
    }

    /// The sum of squared distances to a target, and the square of the
    /// offset.
    pub fn fitness(&self, target: TargetPoint) -> (r: i64)
        ensures
            r == fit(self.space().take(6), target.coordinates(), 6).wrapping_add(self.offset.wrapping_mul(self.offset)),
    {
        proof {
            reveal_with_fuel(fit, 7);
            assert(self.space().take(6) =~= seq![
                self.temperature, self.humidity, self.continentalness, self.erosion, self.depth, self.weirdness]);
        }
        let mut sum: i64 = 0;
        sum = sum.wrapping_add(square(self.temperature.distance(target.temperature)));
        sum = sum.wrapping_add(square(self.humidity.distance(target.humidity)));
        sum = sum.wrapping_add(square(self.continentalness.distance(target.continentalness)));
        sum = sum.wrapping_add(square(self.erosion.distance(target.erosion)));
        sum = sum.wrapping_add(square(self.depth.distance(target.depth)));
        sum = sum.wrapping_add(square(self.weirdness.distance(target.weirdness)));
        sum = sum.wrapping_add(square(self.offset));
        sum
    }
}

/// The sum of squared distances on the first `k` axes.
pub open spec fn fit(space: Seq<Parameter>, target: Seq<i64>, k: nat) -> i64
    decreases k,
{
    if k == 0 {
        0
    } else {
        let d = gap(space[k - 1], target[k - 1]);
        fit(space, target, (k - 1) as nat).wrapping_add(d.wrapping_mul(d))
    }
}

fn square(x: i64) -> (r: i64)
    ensures
        r == x.wrapping_mul(x),
{
    x.wrapping_mul(x)
}

/// A sample of the six climate axes.
#[derive(Clone, Copy, Debug, PartialEq, Eq)]
pub struct TargetPoint {
    pub temperature: i64,
    pub humidity: i64,
    pub continentalness: i64,
    pub erosion: i64,
    pub depth: i64,
    pub weirdness: i64,
}

impl TargetPoint {
    pub fn new(temperature: i64, humidity: i64, continentalness: i64, erosion: i64, depth: i64, weirdness: i64) -> (r: TargetPoint)
        ensures
            r == (TargetPoint { temperature, humidity, continentalness, erosion, depth, weirdness }),
    {
        TargetPoint { temperature, humidity, continentalness, erosion, depth, weirdness }
    }

    /// A sample from six numbers, quantized.
    pub fn from_floats<F: Fn(Ask) -> u64>(
        temperature: u32, humidity: u32, continentalness: u32, erosion: u32, depth: u32, weirdness: u32, f: &F,
    ) -> (r: TargetPoint)
        requires
            answers(*f),
        ensures
            r == (TargetPoint {
                temperature: quantized(*f, temperature),
                humidity: quantized(*f, humidity),
                continentalness: quantized(*f, continentalness),
                erosion: quantized(*f, erosion),
                depth: quantized(*f, depth),
                weirdness: quantized(*f, weirdness),
            }),
    {
        TargetPoint {
            temperature: quantize_coord(temperature, f),
            humidity: quantize_coord(humidity, f),
            continentalness: quantize_coord(continentalness, f),
            erosion: quantize_coord(erosion, f),
            depth: quantize_coord(depth, f),
            weirdness: quantize_coord(weirdness, f),
        }
    }

    /// The coordinates, with a zero for the offset.
    pub open spec fn coordinates(self) -> Seq<i64> {
        seq![self.temperature, self.humidity, self.continentalness, self.erosion, self.depth, self.weirdness, 0]
    }

    /// The coordinates, with a zero for the offset.
    pub fn to_array(self) -> (r: [i64; 7])
        ensures
            r@ == self.coordinates(),
    {
        let r: [i64; 7] = [
            self.temperature,
            self.humidity,
            self.continentalness,
            self.erosion,
            self.depth,
            self.weirdness,
            0,
        ];
        proof { assert(r@ =~= self.coordinates()); }
        r
    }
}

/// The tree over some boxes, at most `depth` levels deep: up to six hang
/// below one node, by the distance of their middles from zero. More are
/// sorted along the axis whose buckets cost least, each bucket the largest
/// power of six below their number, and each bucket becomes a tree.
pub open spec fn built(spaces: Seq<Seq<Parameter>>, ids: Seq<int>, depth: nat) -> Tree
    decreases depth, 0nat,
{
    if ids.len() <= 1 || depth == 0 {
        Tree::Leaf(ids[0])
    } else if ids.len() <= 6 {
        let o = sorted_small(spaces, ids);
        Tree::Sub(joined(spaces, o, o.len()), Seq::new(o.len(), |i: int| Tree::Leaf(o[i])))
    } else {
        let b = power_below(6, ids.len() as int);
        let best = best_axis(spaces, ids, b, 7);
        let kids = built_buckets(spaces, sorted_by(spaces, best.order, best.axis, true), b, (depth - 1) as nat);
        Tree::Sub(joined_trees(spaces, kids, kids.len()), kids)
    }
}

/// The trees over consecutive buckets of `b` boxes.
pub open spec fn built_buckets(spaces: Seq<Seq<Parameter>>, ids: Seq<int>, b: int, depth: nat) -> Seq<Tree>
    decreases depth, 1 + ids.len(),
{
    if ids.len() == 0 || b <= 0 {
        Seq::empty()
    } else {
        let m = first_bucket(ids.len() as int, b);
        seq![built(spaces, ids.take(m), depth)] + built_buckets(spaces, ids.skip(m), b, depth)
    }
}

/// Build the tree over some boxes.
fn build(spaces: &Vec<Space>, ids: &Vec<usize>, Ghost(depth): Ghost<nat>) -> (r: RNode)
    requires
        1 <= ids@.len() <= depth,
        named(ids@, spaces@.len()),
    ensures
        shaped(r, built(boxes(spaces@), places(ids@), depth), spaces@.len()),
    decreases ids@.len(), 0nat,
{
    let ghost sp = boxes(spaces@);
    let n: usize = ids.len();
    if n == 1 {
        return RNode::Leaf { id: ids[0] };
    }
    if n <= CHILDREN_PER_NODE {
        let o: Vec<usize> = sort_by_total(spaces, ids);
        let ghost op = places(o@);
        let space: Space = crate::rtree::join(spaces, &o, 0, o.len());
        proof { assert(op.subrange(0, op.len() as int) =~= op); }
        let mut children: Vec<RNode> = Vec::new();
        let mut i: usize = 0;
        while i < o.len()
            invariant
                i <= o@.len(),
                children@.len() == i,
                named(o@, spaces@.len()),
                op == places(o@),
                forall|k: int| 0 <= k < i ==> shaped(#[trigger] children@[k], Tree::Leaf(op[k]), spaces@.len()),
            decreases o.len() - i,
        {
            children.push(RNode::Leaf { id: o[i] });
            i += 1;
        }
        return RNode::Sub { space, children };
    }
    let b: usize = largest_power(6, n);
    let (order, axis, _) = find_best_axis(spaces, ids, b);
    let sorted: Vec<usize> = sort_by_center(spaces, &order, axis, true);
    let ghost sorted_p = places(sorted@);
    let ghost kids = built_buckets(sp, sorted_p, b as int, (depth - 1) as nat);
    let children: Vec<RNode> = build_buckets(spaces, &sorted, b, Ghost((depth - 1) as nat));
    let space: Space = join_nodes(&children, spaces, Ghost(kids));
    RNode::Sub { space, children }
}

/// Build the trees over consecutive buckets.
fn build_buckets(spaces: &Vec<Space>, ids: &Vec<usize>, b: usize, Ghost(depth): Ghost<nat>) -> (r: Vec<RNode>)
    requires
        1 <= b < ids@.len(),
        b <= depth,
        named(ids@, spaces@.len()),
    ensures
        ({
            let kids = built_buckets(boxes(spaces@), places(ids@), b as int, depth);
            &&& r@.len() == kids.len()
            &&& r@.len() >= 1
            &&& forall|k: int| 0 <= k < kids.len() ==> shaped(#[trigger] r@[k], kids[k], spaces@.len())
        }),
    decreases b, 1nat,
{
    let ghost sp = boxes(spaces@);
    let ghost ip = places(ids@);
    let ghost kids = built_buckets(sp, ip, b as int, depth);
    let mut r: Vec<RNode> = Vec::new();
    let mut at: usize = 0;
    let ghost mut done: Seq<Tree> = Seq::empty();
    proof {
        assert(ip.skip(0) =~= ip);
        assert(done + kids =~= kids);
    }
    while at < ids.len()
        invariant
            1 <= b < ids@.len(),
            b <= depth,
            named(ids@, spaces@.len()),
            sp == boxes(spaces@),
            ip == places(ids@),
            at <= ids@.len(),
            kids == done + built_buckets(sp, ip.skip(at as int), b as int, depth),
            r@.len() == done.len(),
            at > 0 ==> r@.len() >= 1,
            forall|k: int| 0 <= k < done.len() ==> shaped(#[trigger] r@[k], done[k], spaces@.len()),
        decreases ids.len() - at,
    {
        let left: usize = ids.len() - at;
        let m: usize = if b < left { b } else { left };
        let bucket: Vec<usize> = part(ids, at, at + m);
        let ghost rest = ip.skip(at as int);
        proof {
            assert(rest.take(m as int) =~= places(bucket@));
            assert(rest.skip(m as int) =~= ip.skip(at + m));
        }
        let node: RNode = build(spaces, &bucket, Ghost(depth));
        let ghost t = built(sp, rest.take(m as int), depth);
        let ghost before = r@;
        r.push(node);
        proof {
            assert(kids =~= done.push(t) + built_buckets(sp, ip.skip(at + m), b as int, depth));
            done = done.push(t);
            assert forall|k: int| 0 <= k < done.len() implies shaped(#[trigger] r@[k], done[k], spaces@.len()) by {
                if k < before.len() {
                    assert(r@[k] == before[k]);
                }
            }
        }
        at = at + m;
    }
    proof { assert(done + Seq::<Tree>::empty() =~= done); }
    r
}

/// The nearest-neighbour index over regions and their values.
pub struct RTree<T> {
    root: RNode,
    spaces: Vec<Space>,
    values: Vec<T>,
}

impl<T> RTree<T> {
    /// The regions, in the order they were given.
    pub closed spec fn regions(&self) -> Seq<Seq<Parameter>> {
        boxes(self.spaces@)
    }

    /// The values, in the order they were given.
    pub closed spec fn entries(&self) -> Seq<T> {
        self.values@
    }

    /// The tree over the regions.
    pub open spec fn tree(&self) -> Tree {
        built(self.regions(), Seq::new(self.regions().len(), |i: int| i), self.regions().len())
    }

    pub closed spec fn wf(&self) -> bool {
        &&& self.spaces@.len() >= 1
        &&& self.values@.len() == self.spaces@.len()
        &&& shaped(self.root, self.tree(), self.spaces@.len())
    }

    /// The number of the entry that a search ends with.
    pub open spec fn nearest(&self, target: TargetPoint) -> Option<int> {
        found(self.regions(), self.tree(), target.coordinates(), None)
    }

    /// Build the index over some entries.
    pub fn new(values: Vec<(ParameterPoint, T)>) -> (r: RTree<T>)
        requires
            values@.len() >= 1,
        ensures
            r.wf(),
            r.regions() == values@.map_values(|v: (ParameterPoint, T)| v.0.space()),
            r.entries() == values@.map_values(|v: (ParameterPoint, T)| v.1),
    {
        let mut rest: Vec<(ParameterPoint, T)> = values;
        let ghost all = rest@;
        let n: usize = rest.len();
        let mut spaces: Vec<Space> = Vec::new();
        let mut kept: Vec<T> = Vec::new();
        let mut ids: Vec<usize> = Vec::new();
        proof { assert(all.skip(0) =~= all); }
        while rest.len() > 0
            invariant
                n == all.len(),
                spaces@.len() <= n,
                rest@ == all.skip(spaces@.len() as int),
                kept@.len() == spaces@.len(),
                ids@.len() == spaces@.len(),
                forall|k: int| 0 <= k < spaces@.len() ==> (#[trigger] spaces@[k])@ == all[k].0.space(),
                forall|k: int| 0 <= k < spaces@.len() ==> #[trigger] kept@[k] == all[k].1,
                forall|k: int| 0 <= k < spaces@.len() ==> #[trigger] ids@[k] == k,
            decreases rest.len(),
        {
            let ghost k = spaces@.len() as int;
            let (p, v) = rest.remove(0);
            proof {
                assert(all.skip(k)[0] == all[k]);
                assert(all.skip(k).remove(0) =~= all.skip(k + 1));
            }
            ids.push(spaces.len());
            spaces.push(p.parameter_space());
            kept.push(v);
        }
        let root: RNode = build(&spaces, &ids, Ghost(spaces@.len()));
        let r = RTree { root, spaces, values: kept };
        proof {
            assert(places(ids@) =~= Seq::new(r.regions().len(), |i: int| i));
            assert(r.regions() =~= all.map_values(|v: (ParameterPoint, T)| v.0.space()));
            assert(r.entries() =~= all.map_values(|v: (ParameterPoint, T)| v.1));
        }
        r
    }

    /// The value of the nearest region.
    pub fn find_value(&self, target: TargetPoint) -> (r: &T)
        requires
            self.wf(),
            self.nearest(target) is Some,
        ensures
            0 <= self.nearest(target)->0 < self.entries().len(),
            *r == self.entries()[self.nearest(target)->0],
    {
        let coordinates: [i64; 7] = target.to_array();
        match search(&self.root, &self.spaces, &coordinates, None, Ghost(self.tree())) {
            Some(leaf) => &self.values[leaf],
            None => &self.values[0],
        }
    }
}

/// The size of a bucket for `n` nodes: the largest power of six below `n`.
pub fn expected_bucket_size(n: usize) -> (r: usize)
    ensures
        r == power_below(6, n as int),
        n >= 2 ==> 1 <= r < n <= r * 6,
{
    largest_power(6, n)
}

/// The tree over some boxes is sound and has every one of them as a leaf.
proof fn lemma_built(spaces: Seq<Seq<Parameter>>, ids: Seq<int>, depth: nat)
    requires
        1 <= ids.len() <= depth,
        forall|i: int| 0 <= i < ids.len() ==> 0 <= #[trigger] ids[i] < spaces.len(),
    ensures
        sound(spaces, built(spaces, ids, depth)),
        forall|id: int| ids.contains(id) ==> #[trigger] has_leaf(built(spaces, ids, depth), id),
    decreases depth, 0nat,
{
    let t = built(spaces, ids, depth);
    if ids.len() == 1 {
    } else if ids.len() <= 6 {
        lemma_sorted_small(spaces, ids);
        let o = sorted_small(spaces, ids);
        let kids = Seq::new(o.len(), |i: int| Tree::Leaf(o[i]));
        lemma_joined_leaves(spaces, o, kids, o.len());
        assert forall|k: int| 0 <= k < kids.len() implies sound(spaces, #[trigger] kids[k]) by {
            assert(o.contains(o[k]));
            let j = choose|j: int| 0 <= j < ids.len() && ids[j] == o[k];
            assert(0 <= ids[j] < spaces.len());
        }
        assert(t->Sub_1 =~= kids);
        assert forall|id: int| ids.contains(id) implies #[trigger] has_leaf(t, id) by {
            assert(o.contains(id));
            let k = choose|k: int| 0 <= k < o.len() && o[k] == id;
            assert(has_leaf(kids[k], id));
            assert(t is Sub);
        }
    } else {
        let n = ids.len() as int;
        let b = power_below(6, n);
        lemma_power(n, 1);
        lemma_best_axis(spaces, ids, b, 7);
        let best = best_axis(spaces, ids, b, 7);
        let f = sorted_by(spaces, best.order, best.axis, true);
        lemma_sorted_by(spaces, best.order, best.axis, true);
        assert forall|i: int| 0 <= i < f.len() implies 0 <= #[trigger] f[i] < spaces.len() by {
            assert(f.contains(f[i]));
            assert(best.order.contains(f[i]));
            let j = choose|j: int| 0 <= j < ids.len() && ids[j] == f[i];
            assert(0 <= ids[j] < spaces.len());
        }
        lemma_built_buckets(spaces, f, b, (depth - 1) as nat);
        let kids = built_buckets(spaces, f, b, (depth - 1) as nat);
        assert(t is Sub && t->Sub_1 == kids);
        assert forall|id: int| ids.contains(id) implies #[trigger] has_leaf(t, id) by {
            assert(best.order.contains(id));
            assert(f.contains(id));
            let k = choose|k: int| 0 <= k < kids.len() && has_leaf(#[trigger] kids[k], id);
            assert(has_leaf(kids[k], id));
        }
    }
}

proof fn lemma_built_buckets(spaces: Seq<Seq<Parameter>>, ids: Seq<int>, b: int, depth: nat)
    requires
        1 <= b <= depth,
        ids.len() >= 1,
        forall|i: int| 0 <= i < ids.len() ==> 0 <= #[trigger] ids[i] < spaces.len(),
    ensures
        built_buckets(spaces, ids, b, depth).len() >= 1,
        forall|k: int|
            0 <= k < built_buckets(spaces, ids, b, depth).len() ==> sound(
                spaces, #[trigger] built_buckets(spaces, ids, b, depth)[k]),
        forall|id: int| #[trigger]
            ids.contains(id) ==> exists|k: int|
                0 <= k < built_buckets(spaces, ids, b, depth).len() && has_leaf(
                    #[trigger] built_buckets(spaces, ids, b, depth)[k],
                    id,
                ),
    decreases depth, 1 + ids.len(),
{
    let m = first_bucket(ids.len() as int, b);
    let (first, rest) = (ids.take(m), ids.skip(m));
    let kids = built_buckets(spaces, ids, b, depth);
    let others = built_buckets(spaces, rest, b, depth);
    lemma_built(spaces, first, depth);
    assert(kids == seq![built(spaces, first, depth)] + others);
    if rest.len() > 0 {
        lemma_built_buckets(spaces, rest, b, depth);
    }
    assert forall|k: int| 0 <= k < kids.len() implies sound(spaces, #[trigger] kids[k]) by {
        if k > 0 {
            assert(kids[k] == others[k - 1]);
        }
    }
    assert forall|id: int| #[trigger] ids.contains(id) implies exists|k: int|
        0 <= k < kids.len() && has_leaf(#[trigger] kids[k], id) by {
        let i = choose|i: int| 0 <= i < ids.len() && ids[i] == id;
        if i < m {
            assert(first[i] == id);
            assert(first.contains(id));
            assert(has_leaf(kids[0], id));
        } else {
            assert(rest[i - m] == id);
            assert(rest.contains(id));
            let k = choose|k: int| 0 <= k < others.len() && has_leaf(#[trigger] others[k], id);
            assert(kids[k + 1] == others[k]);
            assert(has_leaf(kids[k + 1], id));
        }
    }
}

proof fn lemma_power(n: int, p: int)
    requires
        1 <= p < n,
    ensures
        p <= crate::rtree::power_from(6, n, p) < n,
    decreases n - p,
{
    if p < p * 6 && p * 6 < n {
        lemma_power(n, p * 6);
    }
}

/// Where the squared distances from a target add up within 64 bits a search
/// always ends with an entry, and no entry is nearer to the target than it
/// is.
pub proof fn law_nearest_entry<T>(tree: RTree<T>, target: TargetPoint, id: int)
    requires
        tree.regions().len() >= 1,
        all_measured(tree.regions(), target.coordinates()),
        forall|i: int| 0 <= i < tree.regions().len() ==> upright(#[trigger] tree.regions()[i]),
        0 <= id < tree.regions().len(),
    ensures
        tree.nearest(target) is Some,
        far(tree.regions()[tree.nearest(target)->0], target.coordinates(), 7) <= far(
            tree.regions()[id], target.coordinates(), 7),
{
    let n = tree.regions().len();
    let ids = Seq::new(n, |i: int| i);
    lemma_built(tree.regions(), ids, n);
    assert(ids[id] == id);
    assert(ids.contains(id));
    crate::rtree::law_found_is_nearest(tree.regions(), tree.tree(), target.coordinates(), None, id);
}

/// From such a target a search always ends with an entry, upside-down
/// intervals or not.
pub proof fn law_search_finds<T>(tree: RTree<T>, target: TargetPoint)
    requires
        tree.regions().len() >= 1,
        all_measured(tree.regions(), target.coordinates()),
    ensures
        tree.nearest(target) is Some,
{
    let n = tree.regions().len();
    let ids = Seq::new(n, |i: int| i);
    lemma_built(tree.regions(), ids, n);
    crate::rtree::lemma_found_some(tree.regions(), tree.tree(), target.coordinates(), None);
}

} // verus!
