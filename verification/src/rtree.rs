//! Boxes in climate space, and what search trees over them are made of.
//! Arithmetic wraps at 64 bits.

use vstd::prelude::*;
use crate::order::{lists, order_of, places, stable_order, uniform};

verus! {

/// A closed quantized interval.
#[derive(Clone, Copy, Debug, PartialEq, Eq, Structural)]
pub struct Parameter {
    pub min: i64,
    pub max: i64,
}

/// An interval on every axis.
pub type Space = [Parameter; 7];

/// Distance from a value to an interval: nothing inside, else the gap to
/// the nearest edge.
pub open spec fn gap(p: Parameter, target: i64) -> i64 {
    let above = target.wrapping_sub(p.max);
    let below = p.min.wrapping_sub(target);
    if above > 0 { above } else if below > 0 { below } else { 0 }
}

/// The smallest interval around two.
pub open spec fn spanned(a: Parameter, b: Parameter) -> Parameter {
    Parameter { min: if b.min < a.min { b.min } else { a.min }, max: if b.max > a.max { b.max } else { a.max } }
}

/// Half of a number, rounded towards zero.
pub open spec fn half(x: i64) -> int {
    if x >= 0 { x as int / 2 } else { -(-x / 2) }
}

/// The middle of an interval.
pub open spec fn middle(p: Parameter) -> i64 {
    half(p.min.wrapping_add(p.max)) as i64
}

/// A number without its sign.
pub open spec fn magnitude(x: i64) -> i64 {
    if x < 0 { 0i64.wrapping_sub(x) } else { x }
}

impl Parameter {
    pub fn new(min: i64, max: i64) -> (r: Parameter)
        ensures
            r.min == min,
            r.max == max,
    {
        Parameter { min, max }
    }

    /// Interval distance: nothing inside, else the gap to the nearest edge.
    pub fn distance(self, target: i64) -> (r: i64)
        ensures
            r == gap(self, target),
            self.min <= self.max && i64::MIN <= target - self.max <= i64::MAX && i64::MIN <= self.min - target <= i64::MAX
                ==> r == (if target > self.max {
                target - self.max
            } else if target < self.min {
                self.min - target
            } else {
                0
            }),
    {
        let above: i64 = target.wrapping_sub(self.max);
        let below: i64 = self.min.wrapping_sub(target);
        if above > 0 {
            above
        } else if below > 0 {
            below
        } else {
            0
        }
    }

    /// The interval extended to another, where there is one.
    pub fn span_with(self, other: Option<Parameter>) -> (r: Parameter)
        ensures
            r == (match other {
                Some(o) => spanned(self, o),
                None => self,
            }),
    {
        match other {
            None => self,
            Some(o) => Parameter {
                min: if o.min < self.min { o.min } else { self.min },
                max: if o.max > self.max { o.max } else { self.max },
            },
        }
    }

    /// The middle of the interval, rounded towards zero.
    pub fn center(self) -> (r: i64)
        ensures
            r == middle(self),
    {
        let sum: i64 = self.min.wrapping_add(self.max);
        sum / 2
    }
}

fn unsigned(x: i64) -> (r: i64)
    ensures
        r == magnitude(x),
{
    if x < 0 { 0i64.wrapping_sub(x) } else { x }
}

/// Sum of squared distances on the first `k` axes.
pub open spec fn far(space: Seq<Parameter>, target: Seq<i64>, k: nat) -> i64
    decreases k,
{
    if k == 0 {
        0
    } else {
        let d = gap(space[k - 1], target[k - 1]);
        far(space, target, (k - 1) as nat).wrapping_add(d.wrapping_mul(d))
    }
}

/// Sum of squared distances on all axes.
pub fn space_distance(space: &Space, target: &[i64; 7]) -> (r: i64)
    ensures
        r == far(space@, target@, 7),
{
    let mut r: i64 = 0;
    let mut k: usize = 0;
    while k < 7
        invariant
            k <= 7,
            r == far(space@, target@, k as nat),
        decreases 7 - k,
    {
        let d: i64 = space[k].distance(target[k]);
        r = r.wrapping_add(d.wrapping_mul(d));
        k += 1;
    }
    r
}

/// The smallest box around two.
pub open spec fn merged(a: Seq<Parameter>, b: Seq<Parameter>) -> Seq<Parameter> {
    Seq::new(7, |d: int| spanned(a[d], b[d]))
}

/// The smallest box around two.
pub fn merge_spaces(a: &Space, b: &Space) -> (r: Space)
    ensures
        r@ == merged(a@, b@),
{
    let mut r: Space = *a;
    let mut d: usize = 0;
    while d < 7
        invariant
            d <= 7,
            forall|i: int| 0 <= i < d ==> #[trigger] r@[i] == spanned(a@[i], b@[i]),
            forall|i: int| d <= i < 7 ==> #[trigger] r@[i] == a@[i],
        decreases 7 - d,
    {
        r[d] = a[d].span_with(Some(b[d]));
        d += 1;
    }
    proof { assert(r@ =~= merged(a@, b@)); }
    r
}

/// The boxes as lists of intervals.
pub open spec fn boxes(v: Seq<Space>) -> Seq<Seq<Parameter>> {
    v.map_values(|s: Space| s@)
}

/// The smallest box around the first `n` of some boxes, named by number.
pub open spec fn joined(spaces: Seq<Seq<Parameter>>, ids: Seq<int>, n: nat) -> Seq<Parameter>
    decreases n,
{
    if n <= 1 {
        spaces[ids[0]]
    } else {
        merged(joined(spaces, ids, (n - 1) as nat), spaces[ids[n - 1]])
    }
}

/// Numbers of boxes that exist.
pub open spec fn named(ids: Seq<usize>, count: nat) -> bool {
    forall|i: int| 0 <= i < ids.len() ==> #[trigger] ids[i] < count
}

/// The smallest box around the boxes `from..to`.
pub fn join(spaces: &Vec<Space>, ids: &Vec<usize>, from: usize, to: usize) -> (r: Space)
    requires
        from < to <= ids@.len(),
        named(ids@, spaces@.len()),
    ensures
        r@ == joined(boxes(spaces@), places(ids@).subrange(from as int, to as int), (to - from) as nat),
{
    let ghost sp = boxes(spaces@);
    let ghost part = places(ids@).subrange(from as int, to as int);
    let mut r: Space = spaces[ids[from]];
    let mut i: usize = from + 1;
    proof { assert(part[0] == ids@[from as int]); }
    while i < to
        invariant
            sp == boxes(spaces@),
            part == places(ids@).subrange(from as int, to as int),
            from < i <= to <= ids@.len(),
            named(ids@, spaces@.len()),
            r@ == joined(sp, part, (i - from) as nat),
        decreases to - i,
    {
        proof { assert(part[i - from] == ids@[i as int]); }
        r = merge_spaces(&r, &spaces[ids[i]]);
        i += 1;
    }
    r
}

/// A middle, with or without its sign.
pub open spec fn middle_key(p: Parameter, absolute: bool) -> i64 {
    if absolute { magnitude(middle(p)) } else { middle(p) }
}

/// The middles of a box from axis `d` on, cyclically.
pub open spec fn middles(space: Seq<Parameter>, d: int, absolute: bool) -> Seq<i64> {
    Seq::new(7, |o: int| middle_key(space[(d + o) % 7], absolute))
}

/// The sum of the first `k` middles without their signs.
pub open spec fn total_middle(space: Seq<Parameter>, k: nat) -> i64
    decreases k,
{
    if k == 0 {
        0
    } else {
        total_middle(space, (k - 1) as nat).wrapping_add(magnitude(middle(space[k - 1])))
    }
}

/// Some numbers put into the order of their keys.
pub open spec fn arranged(ids: Seq<int>, keys: Seq<Seq<i64>>) -> Seq<int> {
    Seq::new(ids.len(), |i: int| ids[order_of(keys)[i]])
}

/// Boxes in the stable order of their middles, on axis `d` first.
pub open spec fn sorted_by(spaces: Seq<Seq<Parameter>>, ids: Seq<int>, d: int, absolute: bool) -> Seq<int> {
    arranged(ids, Seq::new(ids.len(), |i: int| middles(spaces[ids[i]], d, absolute)))
}

/// Boxes in the stable order of their middles' distance from zero.
pub open spec fn sorted_small(spaces: Seq<Seq<Parameter>>, ids: Seq<int>) -> Seq<int> {
    arranged(ids, Seq::new(ids.len(), |i: int| seq![total_middle(spaces[ids[i]], 7)]))
}

/// Put numbers into the order of their keys.
fn arrange(ids: &Vec<usize>, keys: &Vec<Vec<i64>>, n: usize) -> (r: Vec<usize>)
    requires
        ids@.len() == keys@.len(),
        uniform(lists(keys@), n as int),
    ensures
        places(r@) == arranged(places(ids@), lists(keys@)),
        r@.len() == ids@.len(),
        forall|c: nat| named(ids@, c) ==> #[trigger] named(r@, c),
{
    let order: Vec<usize> = stable_order(keys, n);
    let mut r: Vec<usize> = Vec::new();
    while r.len() < order.len()
        invariant
            ids@.len() == keys@.len(),
            order@.len() == ids@.len(),
            crate::order::is_order(lists(keys@), places(order@)),
            r@.len() <= order@.len(),
            forall|i: int| 0 <= i < r@.len() ==> #[trigger] r@[i] == ids@[order@[i] as int],
            forall|c: nat| named(ids@, c) ==> #[trigger] named(r@, c),
        decreases order.len() - r.len(),
    {
        let k: usize = r.len();
        proof { assert(0 <= places(order@)[k as int] < lists(keys@).len()); }
        let ghost before = r@;
        r.push(ids[order[k]]);
        proof {
            assert forall|c: nat| named(ids@, c) implies #[trigger] named(r@, c) by {
                assert(named(before, c));
                assert(ids@[order@[k as int] as int] < c);
            }
        }
    }
    proof { assert(places(r@) =~= arranged(places(ids@), lists(keys@))); }
    r
}

/// The middles of a box from axis `d` on, cyclically.
pub fn keys_of(space: &Space, d: usize, absolute: bool) -> (one: Vec<i64>)
    requires
        d < 7,
    ensures
        one@ == middles(space@, d as int, absolute),
{
    let mut one: Vec<i64> = Vec::new();
    while one.len() < 7
        invariant
            d < 7,
            one@.len() <= 7,
            forall|o: int| 0 <= o < one@.len() ==> #[trigger] one@[o] == middle_key(space@[(d + o) % 7], absolute),
        decreases 7 - one.len(),
    {
        let c: i64 = space[(d + one.len()) % 7].center();
        one.push(if absolute { unsigned(c) } else { c });
    }
    proof { assert(one@ =~= middles(space@, d as int, absolute)); }
    one
}

/// Boxes in the stable order of their middles, on axis `d` first.
pub fn sort_by_center(spaces: &Vec<Space>, ids: &Vec<usize>, d: usize, absolute: bool) -> (r: Vec<usize>)
    requires
        d < 7,
        named(ids@, spaces@.len()),
    ensures
        places(r@) == sorted_by(boxes(spaces@), places(ids@), d as int, absolute),
        r@.len() == ids@.len(),
        named(r@, spaces@.len()),
{
    let ghost sp = boxes(spaces@);
    let mut keys: Vec<Vec<i64>> = Vec::new();
    while keys.len() < ids.len()
        invariant
            sp == boxes(spaces@),
            d < 7,
            named(ids@, spaces@.len()),
            keys@.len() <= ids@.len(),
            forall|i: int|
                0 <= i < keys@.len() ==> (#[trigger] keys@[i])@ == middles(sp[ids@[i] as int], d as int, absolute),
        decreases ids.len() - keys.len(),
    {
        let space: Space = spaces[ids[keys.len()]];
        let one: Vec<i64> = keys_of(&space, d, absolute);
        keys.push(one);
    }
    proof {
        assert(lists(keys@) =~= Seq::new(ids@.len(), |i: int| middles(sp[places(ids@)[i]], d as int, absolute)));
    }
    arrange(ids, &keys, 7)
}

/// Boxes in the stable order of their middles' distance from zero.
pub fn sort_by_total(spaces: &Vec<Space>, ids: &Vec<usize>) -> (r: Vec<usize>)
    requires
        named(ids@, spaces@.len()),
    ensures
        places(r@) == sorted_small(boxes(spaces@), places(ids@)),
        r@.len() == ids@.len(),
        named(r@, spaces@.len()),
{
    let ghost sp = boxes(spaces@);
    let mut keys: Vec<Vec<i64>> = Vec::new();
    while keys.len() < ids.len()
        invariant
            sp == boxes(spaces@),
            named(ids@, spaces@.len()),
            keys@.len() <= ids@.len(),
            forall|i: int|
                0 <= i < keys@.len() ==> (#[trigger] keys@[i])@ == seq![total_middle(sp[ids@[i] as int], 7)],
        decreases ids.len() - keys.len(),
    {
        let space: Space = spaces[ids[keys.len()]];
        let mut total: i64 = 0;
        let mut k: usize = 0;
        while k < 7
            invariant
                k <= 7,
                total == total_middle(space@, k as nat),
            decreases 7 - k,
        {
            total = total.wrapping_add(unsigned(space[k].center()));
            k += 1;
        }
        let mut one: Vec<i64> = Vec::new();
        one.push(total);
        proof { assert(one@ =~= seq![total_middle(space@, 7)]); }
        keys.push(one);
    }
    proof {
        assert(lists(keys@) =~= Seq::new(ids@.len(), |i: int| seq![total_middle(sp[places(ids@)[i]], 7)]));
    }
    arrange(ids, &keys, 1)
}

/// The sum of the first `k` widths of a box.
pub open spec fn width(space: Seq<Parameter>, k: nat) -> i64
    decreases k,
{
    if k == 0 {
        0
    } else {
        width(space, (k - 1) as nat).wrapping_add(magnitude(space[k - 1].max.wrapping_sub(space[k - 1].min)))
    }
}

/// What a box costs: the sum of its widths.
fn cost(space: &Space) -> (r: i64)
    ensures
        r == width(space@, 7),
{
    let mut r: i64 = 0;
    let mut k: usize = 0;
    while k < 7
        invariant
            k <= 7,
            r == width(space@, k as nat),
        decreases 7 - k,
    {
        r = r.wrapping_add(unsigned(space[k].max.wrapping_sub(space[k].min)));
        k += 1;
    }
    r
}

/// The length of the first bucket.
pub open spec fn first_bucket(len: int, b: int) -> int {
    if b < len { b } else { len }
}

/// What buckets of `b` boxes each cost.
pub open spec fn total_cost(spaces: Seq<Seq<Parameter>>, ids: Seq<int>, b: int) -> i64
    decreases ids.len(),
{
    if ids.len() == 0 || b <= 0 {
        0
    } else {
        let m = first_bucket(ids.len() as int, b);
        width(joined(spaces, ids.take(m), m as nat), 7).wrapping_add(total_cost(spaces, ids.skip(m), b))
    }
}

/// What buckets of `b` boxes from `from` on cost.
pub fn buckets_cost(spaces: &Vec<Space>, ids: &Vec<usize>, from: usize, b: usize) -> (r: i64)
    requires
        from <= ids@.len(),
        named(ids@, spaces@.len()),
        b >= 1,
    ensures
        r == total_cost(boxes(spaces@), places(ids@).skip(from as int), b as int),
    decreases ids@.len() - from,
{
    if from == ids.len() {
        return 0;
    }
    let ghost rest = places(ids@).skip(from as int);
    let left: usize = ids.len() - from;
    let m: usize = if b < left { b } else { left };
    let space: Space = join(spaces, ids, from, from + m);
    proof {
        assert(rest.take(m as int) =~= places(ids@).subrange(from as int, from + m));
        assert(rest.skip(m as int) =~= places(ids@).skip(from + m));
    }
    cost(&space).wrapping_add(buckets_cost(spaces, ids, from + m, b))
}

/// The best axis so far to cut boxes along.
pub ghost struct Best {
    /// The boxes, sorted along each axis in turn.
    pub order: Seq<int>,
    pub cost: i64,
    pub axis: int,
    /// The boxes as they were sorted along the best axis.
    pub at: Seq<int>,
}

/// The best of the first `d` axes: the one whose buckets cost least, the
/// first of equals.
pub open spec fn best_axis(spaces: Seq<Seq<Parameter>>, ids: Seq<int>, b: int, d: nat) -> Best
    decreases d,
{
    if d == 0 {
        Best { order: ids, cost: i64::MAX, axis: 0, at: Seq::empty() }
    } else {
        let before = best_axis(spaces, ids, b, (d - 1) as nat);
        let order = sorted_by(spaces, before.order, d - 1, false);
        let total = total_cost(spaces, order, b);
        if before.cost > total {
            Best { order, cost: total, axis: d - 1, at: order }
        } else {
            Best { order, ..before }
        }
    }
}

/// The best axis to cut boxes along: the boxes as sorted last, the axis,
/// and the boxes as sorted along it.
pub fn find_best_axis(spaces: &Vec<Space>, ids: &Vec<usize>, b: usize) -> (r: (Vec<usize>, usize, Vec<usize>))
    requires
        named(ids@, spaces@.len()),
        b >= 1,
    ensures
        ({
            let best = best_axis(boxes(spaces@), places(ids@), b as int, 7);
            &&& places(r.0@) == best.order
            &&& r.1 == best.axis
            &&& places(r.2@) == best.at
        }),
        r.0@.len() == ids@.len(),
        r.1 < 7,
        named(r.0@, spaces@.len()),
        named(r.2@, spaces@.len()),
        r.2@.len() == 0 || r.2@.len() == ids@.len(),
{
    let ghost sp = boxes(spaces@);
    let mut order: Vec<usize> = Vec::new();
    let mut i: usize = 0;
    while i < ids.len()
        invariant
            i <= ids@.len(),
            order@ == ids@.take(i as int),
        decreases ids.len() - i,
    {
        order.push(ids[i]);
        proof { assert(ids@.take(i + 1) =~= order@); }
        i += 1;
    }
    proof { assert(order@ =~= ids@); }
    let mut min_cost: i64 = i64::MAX;
    let mut axis: usize = 0;
    let mut at: Vec<usize> = Vec::new();
    proof { assert(places(at@) =~= Seq::empty()); }
    let mut d: usize = 0;
    while d < 7
        invariant
            d <= 7,
            b >= 1,
            sp == boxes(spaces@),
            named(ids@, spaces@.len()),
            named(order@, spaces@.len()),
            named(at@, spaces@.len()),
            order@.len() == ids@.len(),
            at@.len() == 0 || at@.len() == ids@.len(),
            axis < 7,
            ({
                let best = best_axis(sp, places(ids@), b as int, d as nat);
                &&& places(order@) == best.order
                &&& min_cost == best.cost
                &&& axis == best.axis
                &&& places(at@) == best.at
            }),
        decreases 7 - d,
    {
        order = sort_by_center(spaces, &order, d, false);
        let total: i64 = buckets_cost(spaces, &order, 0, b);
        proof { assert(places(order@).skip(0) =~= places(order@)); }
        if min_cost > total {
            min_cost = total;
            axis = d;
            at = part(&order, 0, order.len());
            proof { assert(at@ =~= order@); }
        }
        d += 1;
    }
    (order, axis, at)
}

/// The numbers `from..to`.
pub fn part(ids: &Vec<usize>, from: usize, to: usize) -> (r: Vec<usize>)
    requires
        from <= to <= ids@.len(),
    ensures
        r@ == ids@.subrange(from as int, to as int),
{
    let mut r: Vec<usize> = Vec::new();
    let mut i: usize = from;
    while i < to
        invariant
            from <= i <= to <= ids@.len(),
            r@ == ids@.subrange(from as int, i as int),
        decreases to - i,
    {
        r.push(ids[i]);
        proof { assert(ids@.subrange(from as int, i + 1) =~= r@); }
        i += 1;
    }
    r
}

/// The largest power of `base` below `n`, from `p` on.
pub open spec fn power_from(base: int, n: int, p: int) -> int
    decreases n - p,
{
    if p < p * base < n { power_from(base, n, p * base) } else { p }
}

/// The largest power of `base` below `n`; nothing when there is none.
pub open spec fn power_below(base: int, n: int) -> int {
    if n <= 1 { 0 } else { power_from(base, n, 1) }
}

/// The largest power of `base` below `n`; nothing when there is none.
pub fn largest_power(base: usize, n: usize) -> (r: usize)
    requires
        2 <= base <= 32,
    ensures
        r == power_below(base as int, n as int),
        n >= 2 ==> 1 <= r < n <= r * base,
{
    if n <= 1 {
        return 0;
    }
    let mut p: usize = 1;
    let most: usize = (n - 1) / base;
    while p <= most
        invariant
            2 <= base <= 32,
            n >= 2,
            most == (n - 1) / (base as int),
            1 <= p < n,
            power_from(base as int, n as int, p as int) == power_from(base as int, n as int, 1),
        decreases n - p,
    {
        proof {
            assert(p < p * base < n) by (nonlinear_arith)
                requires
                    1 <= p <= most,
                    2 <= base,
                    most == (n - 1) / (base as int),
            ;
        }
        p = p * base;
    }
    proof {
        assert(p * base >= n) by (nonlinear_arith)
            requires
                p > most,
                2 <= base,
                most == (n - 1) / (base as int),
        ;
    }
    p
}

/// A search tree over numbered boxes.
pub ghost enum Tree {
    Leaf(int),
    Sub(Seq<Parameter>, Seq<Tree>),
}

/// The box of a tree.
pub open spec fn tree_space(spaces: Seq<Seq<Parameter>>, t: Tree) -> Seq<Parameter> {
    match t {
        Tree::Leaf(id) => spaces[id],
        Tree::Sub(space, _) => space,
    }
}

/// The smallest box around the first `n` trees.
pub open spec fn joined_trees(spaces: Seq<Seq<Parameter>>, kids: Seq<Tree>, n: nat) -> Seq<Parameter>
    decreases n,
{
    if n <= 1 {
        tree_space(spaces, kids[0])
    } else {
        merged(joined_trees(spaces, kids, (n - 1) as nat), tree_space(spaces, kids[n - 1]))
    }
}

/// The leaf a search ends with: the tree's own, or what the walk over its
/// children finds. Nothing when there is no candidate and no leaf is nearer
/// than the largest number.
pub open spec fn found(spaces: Seq<Seq<Parameter>>, t: Tree, target: Seq<i64>, candidate: Option<int>) -> Option<int>
    decreases t, 0nat,
{
    match t {
        Tree::Leaf(id) => Some(id),
        Tree::Sub(_, kids) => {
            let least = match candidate {
                Some(c) => far(spaces[c], target, 7),
                None => i64::MAX,
            };
            scanned(spaces, kids, 0, target, candidate, least)
        },
    }
}

/// The walk over the children from `i` on, with the closest leaf so far and
/// its distance: a child nearer than that is searched.
pub open spec fn scanned(
    spaces: Seq<Seq<Parameter>>, kids: Seq<Tree>, i: int, target: Seq<i64>, closest: Option<int>, least: i64,
) -> Option<int>
    decreases kids, kids.len() - i,
{
    if i < 0 || i >= kids.len() {
        closest
    } else if least > far(tree_space(spaces, kids[i]), target, 7) {
        match found(spaces, kids[i], target, closest) {
            Some(leaf) => {
                let d = far(spaces[leaf], target, 7);
                if least > d {
                    scanned(spaces, kids, i + 1, target, Some(leaf), d)
                } else {
                    scanned(spaces, kids, i + 1, target, closest, least)
                }
            },
            None => scanned(spaces, kids, i + 1, target, closest, least),
        }
    } else {
        scanned(spaces, kids, i + 1, target, closest, least)
    }
}

/// A leaf as a number.
pub open spec fn number(leaf: Option<usize>) -> Option<int> {
    match leaf {
        Some(l) => Some(l as int),
        None => None,
    }
}


/// A tree over boxes that exist, each inner node the smallest box around
/// its children.
pub open spec fn sound(spaces: Seq<Seq<Parameter>>, t: Tree) -> bool
    decreases t,
{
    match t {
        Tree::Leaf(id) => 0 <= id < spaces.len(),
        Tree::Sub(space, kids) => {
            &&& kids.len() >= 1
            &&& space == joined_trees(spaces, kids, kids.len())
            &&& forall|k: int| 0 <= k < kids.len() ==> sound(spaces, #[trigger] kids[k])
        },
    }
}

/// A box is among the leaves of a tree.
pub open spec fn has_leaf(t: Tree, id: int) -> bool
    decreases t,
{
    match t {
        Tree::Leaf(i) => i == id,
        Tree::Sub(_, kids) => exists|k: int| 0 <= k < kids.len() && has_leaf(#[trigger] kids[k], id),
    }
}

/// Coordinates far from the ends of the numbers.
pub open spec fn tame(v: i64) -> bool {
    -0x2000_0000 <= v <= 0x2000_0000
}

/// A box of such coordinates.
pub open spec fn tame_box(space: Seq<Parameter>) -> bool {
    space.len() == 7 && forall|d: int| 0 <= d < 7 ==> tame((#[trigger] space[d]).min) && tame(space[d].max)
}

/// Boxes of such coordinates, every one.
pub open spec fn tame_boxes(spaces: Seq<Seq<Parameter>>) -> bool {
    forall|i: int| 0 <= i < spaces.len() ==> tame_box(#[trigger] spaces[i])
}

/// How far a number lies outside an interval, on either side.
pub open spec fn outside(p: Parameter, target: i64) -> int {
    let above = target - p.max;
    let below = p.min - target;
    if above > 0 && above >= below { above } else if below > 0 { below } else { 0 }
}

/// The sum of the squares of these distances on the first `k` axes.
pub open spec fn spread(space: Seq<Parameter>, target: Seq<i64>, k: nat) -> int
    decreases k,
{
    if k == 0 {
        0
    } else {
        let d = outside(space[k - 1], target[k - 1]);
        spread(space, target, (k - 1) as nat) + d * d
    }
}

/// The differences on an axis fit 64 bits.
pub open spec fn in_range(p: Parameter, target: i64) -> bool {
    target - p.max >= i64::MIN && p.min - target >= i64::MIN
}

/// The distance of a target from a box fits 64 bits, and is not the largest
/// number.
pub open spec fn measured(space: Seq<Parameter>, target: Seq<i64>) -> bool {
    &&& space.len() == 7
    &&& forall|d: int| 0 <= d < 7 ==> in_range(#[trigger] space[d], target[d])
    &&& spread(space, target, 7) < i64::MAX
}

/// So does its distance from every box.
pub open spec fn all_measured(spaces: Seq<Seq<Parameter>>, target: Seq<i64>) -> bool {
    forall|i: int| 0 <= i < spaces.len() ==> measured(#[trigger] spaces[i], target)
}

/// No interval is upside down.
pub open spec fn upright(space: Seq<Parameter>) -> bool {
    forall|d: int| 0 <= d < 7 ==> (#[trigger] space[d]).min <= space[d].max
}

proof fn lemma_square(a: int, b: int)
    requires
        0 <= a <= b,
    ensures
        0 <= a * a <= b * b,
        b <= b * b,
{
    assert(0 <= a * a <= b * b && b <= b * b) by (nonlinear_arith)
        requires
            0 <= a <= b,
    ;
}

proof fn lemma_spread_grows(space: Seq<Parameter>, target: Seq<i64>, k: nat, n: nat)
    requires
        k <= n,
    ensures
        0 <= spread(space, target, k) <= spread(space, target, n),
    decreases n,
{
    if n > 0 {
        let d = outside(space[n - 1], target[n - 1]);
        lemma_square(d, d);
        if k < n {
            lemma_spread_grows(space, target, k, (n - 1) as nat);
        } else {
            lemma_spread_grows(space, target, (n - 1) as nat, (n - 1) as nat);
        }
    }
}

/// A distance that fits 64 bits does not wrap.
pub proof fn lemma_far(space: Seq<Parameter>, target: Seq<i64>, k: nat)
    requires
        measured(space, target),
        k <= 7,
    ensures
        0 <= far(space, target, k) <= spread(space, target, k) < i64::MAX,
        upright(space) ==> far(space, target, k) == spread(space, target, k),
    decreases k,
{
    lemma_spread_grows(space, target, k, 7);
    if k > 0 {
        lemma_far(space, target, (k - 1) as nat);
        let (p, t) = (space[k - 1], target[k - 1]);
        assert(in_range(p, t));
        let (g, o) = (gap(p, t), outside(p, t));
        lemma_square(o, o);
        lemma_spread_grows(space, target, (k - 1) as nat, 7);
        assert(o * o <= spread(space, target, k));
        assert(0 <= g <= o);
        lemma_square(g as int, o);
        assert(g * g == (g as int) * (g as int));
        assert(g.wrapping_mul(g) == g * g);
    }
}

/// A box within another spreads no less.
proof fn lemma_spread_within(inner: Seq<Parameter>, outer: Seq<Parameter>, target: Seq<i64>, k: nat)
    requires
        forall|d: int| 0 <= d < 7 ==> outer[d].min <= (#[trigger] inner[d]).min && inner[d].max <= outer[d].max,
        k <= 7,
    ensures
        spread(outer, target, k) <= spread(inner, target, k),
    decreases k,
{
    if k > 0 {
        lemma_spread_within(inner, outer, target, (k - 1) as nat);
        let (p, q) = (inner[k - 1], outer[k - 1]);
        assert(q.min <= p.min && p.max <= q.max);
        lemma_square(outside(q, target[k - 1]), outside(p, target[k - 1]));
    }
}

/// The box around trees holds each, and is as upright as they are.
proof fn lemma_joined_holds(spaces: Seq<Seq<Parameter>>, kids: Seq<Tree>, n: nat, k: int)
    requires
        1 <= n <= kids.len(),
        0 <= k < n,
        forall|j: int| 0 <= j < kids.len() ==> tree_space(spaces, #[trigger] kids[j]).len() == 7,
    ensures
        joined_trees(spaces, kids, n).len() == 7,
        forall|d: int|
            0 <= d < 7 ==> joined_trees(spaces, kids, n)[d].min <= (#[trigger] tree_space(spaces, kids[k])[d]).min
                && tree_space(spaces, kids[k])[d].max <= joined_trees(spaces, kids, n)[d].max,
        (forall|j: int| 0 <= j < kids.len() ==> upright(tree_space(spaces, #[trigger] kids[j]))) ==> upright(
            joined_trees(spaces, kids, n)),
    decreases n,
{
    assert(tree_space(spaces, kids[0]).len() == 7);
    if n > 1 {
        assert(tree_space(spaces, kids[n - 1]).len() == 7);
        if k == n - 1 {
            lemma_joined_holds(spaces, kids, (n - 1) as nat, 0);
        } else {
            lemma_joined_holds(spaces, kids, (n - 1) as nat, k);
        }
        let before = joined_trees(spaces, kids, (n - 1) as nat);
        let last = tree_space(spaces, kids[n - 1]);
        let all = joined_trees(spaces, kids, n);
        assert forall|d: int| 0 <= d < 7 implies all[d].min <= (#[trigger] tree_space(spaces, kids[k])[d]).min
            && tree_space(spaces, kids[k])[d].max <= all[d].max by {
        }
        if forall|j: int| 0 <= j < kids.len() ==> upright(tree_space(spaces, #[trigger] kids[j])) {
            assert(upright(last));
            assert forall|d: int| 0 <= d < 7 implies (#[trigger] all[d]).min <= all[d].max by {
                assert(before[d].min <= before[d].max && last[d].min <= last[d].max);
            }
        }
    }
}

/// The distance of the box around trees fits where those of their boxes do.
proof fn lemma_joined_measured(spaces: Seq<Seq<Parameter>>, kids: Seq<Tree>, n: nat, target: Seq<i64>)
    requires
        1 <= n <= kids.len(),
        forall|j: int| 0 <= j < kids.len() ==> measured(tree_space(spaces, #[trigger] kids[j]), target),
    ensures
        measured(joined_trees(spaces, kids, n), target),
    decreases n,
{
    assert(measured(tree_space(spaces, kids[0]), target));
    if n > 1 {
        assert forall|j: int| 0 <= j < kids.len() implies tree_space(spaces, #[trigger] kids[j]).len() == 7 by {
            assert(measured(tree_space(spaces, kids[j]), target));
        }
        lemma_joined_measured(spaces, kids, (n - 1) as nat, target);
        lemma_joined_holds(spaces, kids, n, n - 1);
        let before = joined_trees(spaces, kids, (n - 1) as nat);
        let last = tree_space(spaces, kids[n - 1]);
        let all = joined_trees(spaces, kids, n);
        assert(measured(last, target));
        assert forall|d: int| 0 <= d < 7 implies in_range(#[trigger] all[d], target[d]) by {
            assert(in_range(before[d], target[d]) && in_range(last[d], target[d]));
        }
        assert forall|d: int| 0 <= d < 7 implies all[d].min <= (#[trigger] last[d]).min && last[d].max <= all[d].max by {
        }
        lemma_spread_within(last, all, target, 7);
    }
}

/// The box of a sound tree is as upright as its leaves.
pub proof fn lemma_tree_box(spaces: Seq<Seq<Parameter>>, t: Tree)
    requires
        sound(spaces, t),
        forall|i: int| 0 <= i < spaces.len() ==> (#[trigger] spaces[i]).len() == 7,
    ensures
        tree_space(spaces, t).len() == 7,
        (forall|i: int| 0 <= i < spaces.len() ==> upright(#[trigger] spaces[i])) ==> upright(tree_space(spaces, t)),
    decreases t,
{
    match t {
        Tree::Leaf(i) => {
            assert(spaces[i].len() == 7);
        },
        Tree::Sub(space, kids) => {
            assert forall|j: int| 0 <= j < kids.len() implies tree_space(spaces, #[trigger] kids[j]).len() == 7 && ((forall|i: int|
                0 <= i < spaces.len() ==> upright(#[trigger] spaces[i])) ==> upright(tree_space(spaces, kids[j]))) by {
                assert(sound(spaces, kids[j]));
                lemma_tree_box(spaces, kids[j]);
            }
            lemma_joined_holds(spaces, kids, kids.len(), 0);
        },
    }
}

/// The distance of the box of a sound tree fits where those of its leaves
/// do.
pub proof fn lemma_tree_measured(spaces: Seq<Seq<Parameter>>, t: Tree, target: Seq<i64>)
    requires
        sound(spaces, t),
        all_measured(spaces, target),
    ensures
        measured(tree_space(spaces, t), target),
    decreases t,
{
    match t {
        Tree::Leaf(i) => {
            assert(measured(spaces[i], target));
        },
        Tree::Sub(space, kids) => {
            assert forall|j: int| 0 <= j < kids.len() implies measured(tree_space(spaces, #[trigger] kids[j]), target) by {
                assert(sound(spaces, kids[j]));
                lemma_tree_measured(spaces, kids[j], target);
            }
            lemma_joined_measured(spaces, kids, kids.len(), target);
        },
    }
}

/// The box of a sound tree holds each of its leaves.
pub proof fn lemma_leaf_within(spaces: Seq<Seq<Parameter>>, t: Tree, id: int)
    requires
        sound(spaces, t),
        forall|i: int| 0 <= i < spaces.len() ==> (#[trigger] spaces[i]).len() == 7,
        has_leaf(t, id),
    ensures
        0 <= id < spaces.len(),
        forall|d: int|
            0 <= d < 7 ==> tree_space(spaces, t)[d].min <= (#[trigger] spaces[id][d]).min && spaces[id][d].max <= tree_space(
                spaces, t)[d].max,
    decreases t,
{
    match t {
        Tree::Leaf(i) => {},
        Tree::Sub(space, kids) => {
            let k = choose|k: int| 0 <= k < kids.len() && has_leaf(#[trigger] kids[k], id);
            assert(sound(spaces, kids[k]));
            lemma_leaf_within(spaces, kids[k], id);
            assert forall|j: int| 0 <= j < kids.len() implies tree_space(spaces, #[trigger] kids[j]).len() == 7 by {
                assert(sound(spaces, kids[j]));
                lemma_tree_box(spaces, kids[j]);
            }
            lemma_joined_holds(spaces, kids, kids.len(), k);
            assert forall|d: int| 0 <= d < 7 implies space[d].min <= (#[trigger] spaces[id][d]).min && spaces[id][d].max
                <= space[d].max by {
                assert(tree_space(spaces, kids[k])[d].min <= spaces[id][d].min);
            }
        },
    }
}

/// A search of a sound tree that starts from a leaf ends with one.
pub proof fn lemma_found_from(spaces: Seq<Seq<Parameter>>, t: Tree, target: Seq<i64>, candidate: Option<int>)
    requires
        sound(spaces, t),
        candidate matches Some(c) && 0 <= c < spaces.len(),
    ensures
        found(spaces, t, target, candidate) matches Some(l) && 0 <= l < spaces.len(),
    decreases t, 0nat, 0nat,
{
    if let Tree::Sub(_, kids) = t {
        lemma_scanned_from(spaces, kids, 0, target, candidate, far(spaces[candidate->0], target, 7));
    }
}

proof fn lemma_scanned_from(
    spaces: Seq<Seq<Parameter>>, kids: Seq<Tree>, i: int, target: Seq<i64>, closest: Option<int>, least: i64,
)
    requires
        0 <= i <= kids.len(),
        forall|k: int| 0 <= k < kids.len() ==> sound(spaces, #[trigger] kids[k]),
        closest matches Some(c) && 0 <= c < spaces.len(),
    ensures
        scanned(spaces, kids, i, target, closest, least) matches Some(l) && 0 <= l < spaces.len(),
    decreases kids, kids.len() - i, 1nat,
{
    if i < kids.len() {
        assert(sound(spaces, kids[i]));
        if least > far(tree_space(spaces, kids[i]), target, 7) {
            lemma_found_from(spaces, kids[i], target, closest);
            let leaf = found(spaces, kids[i], target, closest)->0;
            let d = far(spaces[leaf], target, 7);
            lemma_scanned_from(spaces, kids, i + 1, target, Some(leaf), d);
        }
        lemma_scanned_from(spaces, kids, i + 1, target, closest, least);
    }
}

/// A search of a sound tree over measured boxes ends with a leaf of the tree or
/// the candidate.
pub proof fn lemma_found_some(spaces: Seq<Seq<Parameter>>, t: Tree, target: Seq<i64>, candidate: Option<int>)
    requires
        sound(spaces, t),
        all_measured(spaces, target),
        candidate matches Some(c) ==> 0 <= c < spaces.len(),
    ensures
        found(spaces, t, target, candidate) matches Some(l) && 0 <= l < spaces.len() && (has_leaf(t, l) || candidate == Some(l)),
    decreases t, 0nat, 0nat,
{
    match t {
        Tree::Leaf(_) => {},
        Tree::Sub(_, kids) => {
            let least = match candidate {
                Some(c) => far(spaces[c], target, 7),
                None => i64::MAX,
            };
            lemma_scanned_some(spaces, kids, 0, target, candidate, least);
            let l = found(spaces, t, target, candidate)->0;
            if candidate != Some(l) {
                assert(exists|k: int| 0 <= k < kids.len() && has_leaf(#[trigger] kids[k], l));
            }
        },
    }
}

proof fn lemma_scanned_some(
    spaces: Seq<Seq<Parameter>>, kids: Seq<Tree>, i: int, target: Seq<i64>, closest: Option<int>, least: i64,
)
    requires
        0 <= i <= kids.len(),
        forall|k: int| 0 <= k < kids.len() ==> sound(spaces, #[trigger] kids[k]),
        all_measured(spaces, target),
        closest matches Some(c) ==> 0 <= c < spaces.len() && least == far(spaces[c], target, 7),
        closest is None ==> least == i64::MAX && i < kids.len(),
    ensures
        scanned(spaces, kids, i, target, closest, least) matches Some(l) && 0 <= l < spaces.len() && (closest == Some(l)
            || exists|k: int| 0 <= k < kids.len() && has_leaf(#[trigger] kids[k], l)),
    decreases kids, kids.len() - i, 1nat,
{
    if i < kids.len() {
        assert(sound(spaces, kids[i]));
        lemma_tree_measured(spaces, kids[i], target);
        lemma_far(tree_space(spaces, kids[i]), target, 7);
        if least > far(tree_space(spaces, kids[i]), target, 7) {
            lemma_found_some(spaces, kids[i], target, closest);
            let leaf = found(spaces, kids[i], target, closest)->0;
            let d = far(spaces[leaf], target, 7);
            assert(measured(spaces[leaf], target));
            lemma_far(spaces[leaf], target, 7);
            if least > d {
                lemma_scanned_some(spaces, kids, i + 1, target, Some(leaf), d);
                let l = scanned(spaces, kids, i + 1, target, Some(leaf), d)->0;
                if l == leaf && closest != Some(l) {
                    assert(has_leaf(kids[i], l));
                }
            } else {
                lemma_scanned_some(spaces, kids, i + 1, target, closest, least);
            }
        } else {
            lemma_scanned_some(spaces, kids, i + 1, target, closest, least);
        }
    }
}

/// What a search ends with is as near as every leaf of the tree; where the
/// tree is no leaf itself, also as near as the candidate.
pub proof fn law_found_is_nearest(spaces: Seq<Seq<Parameter>>, t: Tree, target: Seq<i64>, candidate: Option<int>, id: int)
    requires
        sound(spaces, t),
        all_measured(spaces, target),
        forall|i: int| 0 <= i < spaces.len() ==> upright(#[trigger] spaces[i]),
        candidate matches Some(c) ==> 0 <= c < spaces.len(),
        has_leaf(t, id) || (t is Sub && candidate == Some(id)),
    ensures
        found(spaces, t, target, candidate) is Some,
        far(spaces[found(spaces, t, target, candidate)->0], target, 7) <= far(spaces[id], target, 7),
    decreases t, 0nat, 0nat,
{
    match t {
        Tree::Leaf(_) => {},
        Tree::Sub(_, kids) => {
            let least = match candidate {
                Some(c) => far(spaces[c], target, 7),
                None => i64::MAX,
            };
            lemma_scanned_nearest(spaces, kids, 0, target, candidate, least, id);
        },
    }
}

proof fn lemma_scanned_nearest(
    spaces: Seq<Seq<Parameter>>, kids: Seq<Tree>, i: int, target: Seq<i64>, closest: Option<int>, least: i64, id: int,
)
    requires
        0 <= i <= kids.len(),
        forall|k: int| 0 <= k < kids.len() ==> sound(spaces, #[trigger] kids[k]),
        all_measured(spaces, target),
        forall|i: int| 0 <= i < spaces.len() ==> upright(#[trigger] spaces[i]),
        closest matches Some(c) ==> 0 <= c < spaces.len() && least == far(spaces[c], target, 7),
        closest is None ==> least == i64::MAX && i < kids.len(),
    ensures
        scanned(spaces, kids, i, target, closest, least) is Some,
        far(spaces[scanned(spaces, kids, i, target, closest, least)->0], target, 7) <= least,
        (exists|k: int| i <= k < kids.len() && has_leaf(#[trigger] kids[k], id)) ==> far(
            spaces[scanned(spaces, kids, i, target, closest, least)->0],
            target,
            7,
        ) <= far(spaces[id], target, 7),
    decreases kids, kids.len() - i, 1nat,
{
    if i < kids.len() {
        assert(sound(spaces, kids[i]));
        lemma_tree_measured(spaces, kids[i], target);
        lemma_far(tree_space(spaces, kids[i]), target, 7);
        let near = far(tree_space(spaces, kids[i]), target, 7);
        if has_leaf(kids[i], id) {
            assert forall|j: int| 0 <= j < spaces.len() implies (#[trigger] spaces[j]).len() == 7 by {
                assert(measured(spaces[j], target));
            }
            lemma_leaf_within(spaces, kids[i], id);
            lemma_tree_box(spaces, kids[i]);
            assert(measured(spaces[id], target) && upright(spaces[id]));
            lemma_spread_within(spaces[id], tree_space(spaces, kids[i]), target, 7);
            lemma_far(spaces[id], target, 7);
        }
        if least > near {
            lemma_found_some(spaces, kids[i], target, closest);
            let leaf = found(spaces, kids[i], target, closest)->0;
            let d = far(spaces[leaf], target, 7);
            assert(measured(spaces[leaf], target));
            lemma_far(spaces[leaf], target, 7);
            if has_leaf(kids[i], id) {
                law_found_is_nearest(spaces, kids[i], target, closest, id);
            }
            if least > d {
                lemma_scanned_nearest(spaces, kids, i + 1, target, Some(leaf), d, id);
            } else {
                lemma_scanned_nearest(spaces, kids, i + 1, target, closest, least, id);
            }
        } else {
            lemma_scanned_nearest(spaces, kids, i + 1, target, closest, least, id);
        }
        if exists|k: int| i <= k < kids.len() && has_leaf(#[trigger] kids[k], id) {
            let k = choose|k: int| i <= k < kids.len() && has_leaf(#[trigger] kids[k], id);
            if k > i {
                assert(i + 1 <= k && has_leaf(kids[k], id));
            }
        }
    }
}

/// Arranging moves numbers about and loses none.
pub proof fn lemma_arranged(ids: Seq<int>, keys: Seq<Seq<i64>>, n: int)
    requires
        keys.len() == ids.len(),
        uniform(keys, n),
    ensures
        arranged(ids, keys).len() == ids.len(),
        forall|x: int| #[trigger] arranged(ids, keys).contains(x) <==> ids.contains(x),
{
    crate::order::lemma_order_exists(keys, n);
    let o = order_of(keys);
    crate::order::lemma_order_covers(keys, n, o);
    let a = arranged(ids, keys);
    assert forall|x: int| #[trigger] a.contains(x) <==> ids.contains(x) by {
        if a.contains(x) {
            let i = choose|i: int| 0 <= i < a.len() && a[i] == x;
            assert(0 <= o[i] < keys.len());
            assert(ids[o[i]] == x);
        }
        if ids.contains(x) {
            let j = choose|j: int| 0 <= j < ids.len() && ids[j] == x;
            assert(o.contains(j));
            let i = choose|i: int| 0 <= i < o.len() && o[i] == j;
            assert(a[i] == x);
        }
    }
}

/// Sorting along an axis loses no box.
pub proof fn lemma_sorted_by(spaces: Seq<Seq<Parameter>>, ids: Seq<int>, d: int, absolute: bool)
    ensures
        sorted_by(spaces, ids, d, absolute).len() == ids.len(),
        forall|x: int| #[trigger] sorted_by(spaces, ids, d, absolute).contains(x) <==> ids.contains(x),
{
    lemma_arranged(ids, Seq::new(ids.len(), |i: int| middles(spaces[ids[i]], d, absolute)), 7);
}

/// Sorting by distance from zero loses no box.
pub proof fn lemma_sorted_small(spaces: Seq<Seq<Parameter>>, ids: Seq<int>)
    ensures
        sorted_small(spaces, ids).len() == ids.len(),
        forall|x: int| #[trigger] sorted_small(spaces, ids).contains(x) <==> ids.contains(x),
{
    lemma_arranged(ids, Seq::new(ids.len(), |i: int| seq![total_middle(spaces[ids[i]], 7)]), 1);
}

/// Looking for the best axis loses no box.
pub proof fn lemma_best_axis(spaces: Seq<Seq<Parameter>>, ids: Seq<int>, b: int, d: nat)
    ensures
        best_axis(spaces, ids, b, d).order.len() == ids.len(),
        forall|x: int| #[trigger] best_axis(spaces, ids, b, d).order.contains(x) <==> ids.contains(x),
        best_axis(spaces, ids, b, d).at.len() > 0 ==> best_axis(spaces, ids, b, d).at.len() == ids.len(),
        best_axis(spaces, ids, b, d).at.len() > 0 ==> forall|x: int|
            #[trigger] best_axis(spaces, ids, b, d).at.contains(x) <==> ids.contains(x),
    decreases d,
{
    if d > 0 {
        lemma_best_axis(spaces, ids, b, (d - 1) as nat);
        let before = best_axis(spaces, ids, b, (d - 1) as nat);
        lemma_sorted_by(spaces, before.order, d - 1, false);
        let order = sorted_by(spaces, before.order, d - 1, false);
        assert forall|x: int| #[trigger] order.contains(x) <==> ids.contains(x) by {
            assert(order.contains(x) <==> before.order.contains(x));
        }
    }
}

/// The smallest box around leaves is the one around their numbers.
pub proof fn lemma_joined_leaves(spaces: Seq<Seq<Parameter>>, ids: Seq<int>, kids: Seq<Tree>, n: nat)
    requires
        n <= ids.len(),
        kids.len() == ids.len(),
        forall|k: int| 0 <= k < ids.len() ==> #[trigger] kids[k] == Tree::Leaf(ids[k]),
        ids.len() >= 1,
    ensures
        joined(spaces, ids, n) == joined_trees(spaces, kids, n),
    decreases n,
{
    assert(kids[0] == Tree::Leaf(ids[0]));
    if n > 1 {
        lemma_joined_leaves(spaces, ids, kids, (n - 1) as nat);
        assert(kids[n - 1] == Tree::Leaf(ids[n - 1]));
    }
}

/// A node of a search tree over numbered boxes.
pub enum RNode {
    Leaf { id: usize },
    Sub { space: Space, children: Vec<RNode> },
}

/// A node has a tree's shape.
pub open spec fn shaped(node: RNode, t: Tree, count: nat) -> bool
    decreases node,
{
    match (node, t) {
        (RNode::Leaf { id }, Tree::Leaf(i)) => id == i && id < count,
        (RNode::Sub { space, children }, Tree::Sub(around, kids)) => {
            &&& space@ == around
            &&& children@.len() == kids.len()
            &&& forall|k: int| 0 <= k < children@.len() ==> shaped(#[trigger] children@[k], kids[k], count)
        },
        _ => false,
    }
}

pub fn node_space(node: &RNode, spaces: &Vec<Space>, Ghost(t): Ghost<Tree>) -> (r: Space)
    requires
        shaped(*node, t, spaces@.len()),
    ensures
        r@ == tree_space(boxes(spaces@), t),
{
    match node {
        RNode::Leaf { id } => spaces[*id],
        RNode::Sub { space, .. } => *space,
    }
}

/// The smallest box around some nodes.
pub fn join_nodes(children: &Vec<RNode>, spaces: &Vec<Space>, Ghost(kids): Ghost<Seq<Tree>>) -> (r: Space)
    requires
        children@.len() == kids.len(),
        kids.len() >= 1,
        forall|k: int| 0 <= k < kids.len() ==> shaped(#[trigger] children@[k], kids[k], spaces@.len()),
    ensures
        r@ == joined_trees(boxes(spaces@), kids, kids.len()),
{
    let ghost sp = boxes(spaces@);
    let mut r: Space = node_space(&children[0], spaces, Ghost(kids[0]));
    let mut i: usize = 1;
    while i < children.len()
        invariant
            sp == boxes(spaces@),
            children@.len() == kids.len(),
            1 <= i <= kids.len(),
            forall|k: int| 0 <= k < kids.len() ==> shaped(#[trigger] children@[k], kids[k], spaces@.len()),
            r@ == joined_trees(sp, kids, i as nat),
        decreases children.len() - i,
    {
        let s: Space = node_space(&children[i], spaces, Ghost(kids[i as int]));
        r = merge_spaces(&r, &s);
        i += 1;
    }
    r
}

/// Search a node.
pub fn search(
    node: &RNode, spaces: &Vec<Space>, target: &[i64; 7], candidate: Option<usize>, Ghost(t): Ghost<Tree>,
) -> (r: Option<usize>)
    requires
        shaped(*node, t, spaces@.len()),
        candidate matches Some(c) ==> c < spaces@.len(),
    ensures
        match r {
            Some(leaf) => found(boxes(spaces@), t, target@, number(candidate)) == Some(leaf as int) && leaf < spaces@.len(),
            None => found(boxes(spaces@), t, target@, number(candidate)) is None,
        },
    decreases *node,
{
    let ghost sp = boxes(spaces@);
    match node {
        RNode::Leaf { id } => Some(*id),
        RNode::Sub { space: _, children } => {
            let ghost kids = t->Sub_1;
            let mut least: i64 = match candidate {
                Some(c) => space_distance(&spaces[c], target),
                None => i64::MAX,
            };
            let mut closest: Option<usize> = candidate;
            let ghost whole = found(sp, t, target@, number(candidate));
            let mut i: usize = 0;
            while i < children.len()
                invariant
                    *node matches RNode::Sub { children: c, .. } && c == *children,
                    sp == boxes(spaces@),
                    i <= children@.len(),
                    children@.len() == kids.len(),
                    forall|k: int| 0 <= k < kids.len() ==> shaped(#[trigger] children@[k], kids[k], spaces@.len()),
                    closest matches Some(c) ==> c < spaces@.len(),
                    whole == scanned(sp, kids, i as int, target@, number(closest), least),
                    whole == found(sp, t, target@, number(candidate)),
                decreases children.len() - i,
            {
                let child: &RNode = &children[i];
                let ghost kid = kids[i as int];
                let space: Space = node_space(child, spaces, Ghost(kid));
                let d: i64 = space_distance(&space, target);
                if least > d {
                    proof {
                        assert(decreases_to!(*node => node->Sub_children));
                        assert(decreases_to!(children@ => children@[i as int]));
                    }
                    match search(child, spaces, target, closest, Ghost(kid)) {
                        Some(leaf) => {
                            let leaf_distance: i64 = space_distance(&spaces[leaf], target);
                            if least > leaf_distance {
                                least = leaf_distance;
                                closest = Some(leaf);
                            }
                        },
                        None => {},
                    }
                }
                i += 1;
            }
            closest
        },
    }
}

} // verus!
