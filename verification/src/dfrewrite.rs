//! Slicing of density functions along axes they do not depend on.

use std::collections::HashMap;
use std::sync::Arc;
use vstd::prelude::*;
use crate::df26::{Axis, Node, Spline};
use crate::dfcache::{agrees, agrees_spline, inner};
use crate::dfeval::copy_values;
use crate::dfmodel::{
    all_knots_of, extends, func_of, funcs_of, knots_of, lemma_agrees_grows, lemma_agrees_spline_grows, lemma_all_knots,
    lemma_funcs, maybe_func, Func, Knots,
};

verus! {

pub const AXIS_X: u8 = 1;

pub const AXIS_Y: u8 = 2;

pub const AXIS_Z: u8 = 4;

pub const ALL_AXES: u8 = 7;

/// A set of axes.
#[derive(Clone, Copy, Debug, PartialEq, Eq, Structural)]
pub struct Axes {
    pub x: bool,
    pub y: bool,
    pub z: bool,
}

impl Axes {
    pub open spec fn none() -> Axes {
        Axes { x: false, y: false, z: false }
    }

    pub open spec fn every() -> Axes {
        Axes { x: true, y: true, z: true }
    }

    pub open spec fn only(a: Axis) -> Axes {
        Axes { x: a is X, y: a is Y, z: a is Z }
    }

    /// Either has it.
    pub open spec fn or(self, o: Axes) -> Axes {
        Axes { x: self.x || o.x, y: self.y || o.y, z: self.z || o.z }
    }

    /// The first has it and the second has not.
    pub open spec fn without(self, o: Axes) -> Axes {
        Axes { x: self.x && !o.x, y: self.y && !o.y, z: self.z && !o.z }
    }

    /// The set as bits.
    pub open spec fn code(self) -> int {
        (if self.x { AXIS_X as int } else { 0 }) + (if self.y { AXIS_Y as int } else { 0 }) + (if self.z { AXIS_Z as int } else { 0 })
    }

    /// The set that bits stand for.
    pub open spec fn decoded(bits: u8) -> Axes {
        Axes { x: bits % 2 == 1, y: (bits / 2) % 2 == 1, z: (bits / 4) % 2 == 1 }
    }

    fn join(self, o: Axes) -> (r: Axes)
        ensures
            r == self.or(o),
    {
        Axes { x: self.x || o.x, y: self.y || o.y, z: self.z || o.z }
    }

    fn minus(self, o: Axes) -> (r: Axes)
        ensures
            r == self.without(o),
    {
        Axes { x: self.x && !o.x, y: self.y && !o.y, z: self.z && !o.z }
    }

    fn of(a: Axis) -> (r: Axes)
        ensures
            r == Axes::only(a),
    {
        Axes { x: a == Axis::X, y: a == Axis::Y, z: a == Axis::Z }
    }

    pub(crate) fn all() -> (r: Axes)
        ensures
            r == Axes::every(),
    {
        Axes { x: true, y: true, z: true }
    }
}

/// A double is zero.
pub open spec fn is_zero(v: u64) -> bool {
    v == 0 || v == 0x8000_0000_0000_0000
}

/// The axes of a shift that may be nothing.
pub open spec fn maybe_domain(n: Option<Box<Func>>) -> Axes
    decreases n, 0nat,
{
    match n {
        Some(n) => domain(*n),
        None => Axes::none(),
    }
}

/// Which block axes a function depends on.
pub open spec fn domain(n: Func) -> Axes
    decreases n, 0nat,
{
    match n {
        Func::Constant(_) => Axes::none(),
        Func::Unary { input, .. } => domain(*input),
        Func::Binary { left, right, .. } => domain(*left).or(domain(*right)),
        Func::Noise { xz_scale, y_scale, shift_x, shift_y, shift_z, .. } => {
            let own = Axes { x: !is_zero(xz_scale), y: !is_zero(y_scale), z: !is_zero(xz_scale) };
            own.or(maybe_domain(shift_x)).or(maybe_domain(shift_y)).or(maybe_domain(shift_z))
        },
        Func::ShiftB(_) => Axes { x: true, y: false, z: true },
        Func::BlendAlpha => Axes { x: true, y: false, z: true },
        Func::BlendOffset => Axes { x: true, y: false, z: true },
        Func::Beardifier => Axes::every(),
        Func::DistanceToPoint { .. } => Axes::every(),
        Func::Gradient { axis, .. } => Axes::only(axis),
        Func::Lerp { alpha, first, second } => domain(*alpha).or(domain(*first)).or(domain(*second)),
        Func::RangeChoice { choice, when_in_range, when_out_of_range, .. } => domain(*choice).or(domain(*when_in_range)).or(
            domain(*when_out_of_range)),
        Func::IntervalSelect { selector, functions, .. } => domain(*selector).or(domains(functions, functions.len())),
        Func::Cache { cached, .. } => domain(*cached),
        Func::BlendDensity(i) => domain(*i),
        Func::Interpolated { corners, .. } => domain(*corners),
        Func::Slice { along, whole, .. } => domain(*whole).without(Axes::only(along)),
        Func::FindTopSurface { density, upper_bound, .. } => domain(*density).or(domain(*upper_bound)).without(
            Axes::only(Axis::Y)),
        Func::Spline(k) => knots_domain(k),
    }
}

/// The axes of the first `n` functions.
pub open spec fn domains(s: Seq<Func>, n: nat) -> Axes
    decreases s, n,
{
    if n == 0 || n > s.len() { Axes::none() } else { domains(s, (n - 1) as nat).or(domain(s[n - 1])) }
}

/// The axes of a spline's coordinates.
pub open spec fn knots_domain(k: Knots) -> Axes
    decreases k, 0nat,
{
    match k {
        Knots::Constant(_) => Axes::none(),
        Knots::Multipoint { coordinate, values, .. } => domain(*coordinate).or(all_knots_domain(values, values.len())),
    }
}

pub open spec fn all_knots_domain(s: Seq<Knots>, n: nat) -> Axes
    decreases s, n,
{
    if n == 0 || n > s.len() { Axes::none() } else { all_knots_domain(s, (n - 1) as nat).or(knots_domain(s[n - 1])) }
}

/// The axes that slices at the top of a function have removed already.
pub open spec fn removed_axes(n: Func) -> Axes
    decreases n,
{
    match n {
        Func::Slice { along, whole, .. } => Axes::only(along).or(removed_axes(*whole)),
        _ => Axes::none(),
    }
}

/// A function sliced at zero along an axis, if asked for.
pub open spec fn sliced(n: Func, along: Axis, wanted: bool) -> Func {
    if wanted { Func::Slice { along, coordinate: 0, whole: Box::new(n) } } else { n }
}

/// A function rewritten below a parent that depends on some axes: sliced
/// along those that it does not depend on itself.
pub open spec fn rewritten(n: Func, parent: Axes) -> Func
    decreases n, 1nat,
{
    if n is Constant || n is Gradient {
        n
    } else {
        let axes = domain(n);
        let inner = children(n, axes);
        if parent == axes {
            inner
        } else {
            let gone = parent.without(axes).without(removed_axes(inner));
            sliced(sliced(sliced(inner, Axis::X, gone.x), Axis::Z, gone.z), Axis::Y, gone.y)
        }
    }
}

pub open spec fn maybe_rewritten(n: Option<Box<Func>>, axes: Axes) -> Option<Box<Func>>
    decreases n, 2nat,
{
    match n {
        Some(n) => Some(Box::new(rewritten(*n, axes))),
        None => None,
    }
}

/// A function with its inputs rewritten. The input of a cache is rewritten
/// as a root of its own.
pub open spec fn children(n: Func, axes: Axes) -> Func
    decreases n, 0nat,
{
    match n {
        Func::Unary { op, input } => Func::Unary { op, input: Box::new(rewritten(*input, axes)) },
        Func::Binary { combine, left, right } => Func::Binary {
            combine,
            left: Box::new(rewritten(*left, axes)),
            right: Box::new(rewritten(*right, axes)),
        },
        Func::Noise { stack, xz_scale, y_scale, shift_x, shift_y, shift_z } => Func::Noise {
            stack,
            xz_scale,
            y_scale,
            shift_x: maybe_rewritten(shift_x, axes),
            shift_y: maybe_rewritten(shift_y, axes),
            shift_z: maybe_rewritten(shift_z, axes),
        },
        Func::Lerp { alpha, first, second } => Func::Lerp {
            alpha: Box::new(rewritten(*alpha, axes)),
            first: Box::new(rewritten(*first, axes)),
            second: Box::new(rewritten(*second, axes)),
        },
        Func::RangeChoice { choice, min_inclusive, max_exclusive, when_in_range, when_out_of_range } => Func::RangeChoice {
            choice: Box::new(rewritten(*choice, axes)),
            min_inclusive,
            max_exclusive,
            when_in_range: Box::new(rewritten(*when_in_range, axes)),
            when_out_of_range: Box::new(rewritten(*when_out_of_range, axes)),
        },
        Func::IntervalSelect { selector, thresholds, functions } => Func::IntervalSelect {
            selector: Box::new(rewritten(*selector, axes)),
            thresholds,
            functions: all_rewritten(functions, axes, functions.len()),
        },
        Func::Cache { id, cached } => Func::Cache { id, cached: Box::new(rewritten(*cached, Axes::every())) },
        Func::BlendDensity(i) => Func::BlendDensity(Box::new(rewritten(*i, axes))),
        Func::Interpolated { cell_size_xz, cell_size_y, corners } => Func::Interpolated {
            cell_size_xz,
            cell_size_y,
            corners: Box::new(rewritten(*corners, axes)),
        },
        Func::Slice { along, coordinate, whole } => Func::Slice { along, coordinate, whole: Box::new(rewritten(*whole, axes)) },
        Func::FindTopSurface { density, upper_bound, lower_bound, cell_height } => Func::FindTopSurface {
            density: Box::new(rewritten(*density, axes)),
            upper_bound: Box::new(rewritten(*upper_bound, axes)),
            lower_bound,
            cell_height,
        },
        Func::Spline(k) => Func::Spline(knots_rewritten(k, axes)),
        _ => n,
    }
}

/// The first `n` functions rewritten.
pub open spec fn all_rewritten(s: Seq<Func>, axes: Axes, n: nat) -> Seq<Func>
    decreases s, n,
{
    if n == 0 || n > s.len() {
        Seq::empty()
    } else {
        all_rewritten(s, axes, (n - 1) as nat).push(rewritten(s[n - 1], axes))
    }
}

/// A spline with its coordinates rewritten.
pub open spec fn knots_rewritten(k: Knots, axes: Axes) -> Knots
    decreases k, 0nat,
{
    match k {
        Knots::Constant(_) => k,
        Knots::Multipoint { key, coordinate, locations, values, derivatives } => Knots::Multipoint {
            key,
            coordinate: Box::new(rewritten(*coordinate, axes)),
            locations,
            values: all_knots_rewritten(values, axes, values.len()),
            derivatives,
        },
    }
}

pub open spec fn all_knots_rewritten(s: Seq<Knots>, axes: Axes, n: nat) -> Seq<Knots>
    decreases s, n,
{
    if n == 0 || n > s.len() {
        Seq::empty()
    } else {
        all_knots_rewritten(s, axes, (n - 1) as nat).push(knots_rewritten(s[n - 1], axes))
    }
}

/// Another reference to the same value, by `Arc::clone`: nothing is copied,
/// both lead to the same value.
#[verifier::external_body]
pub(crate) fn share<T>(n: &Arc<T>) -> (r: Arc<T>)
    ensures
        r == *n,
{
    n.clone()
}

impl Node {
    /// Which block axes the value depends on, as bits.
    pub fn domain_axes(&self) -> (r: u8)
        ensures
            r == domain(func_of(*self)).code(),
    {
        let a = self.axes();
        (if a.x { AXIS_X } else { 0 }) + (if a.y { AXIS_Y } else { 0 }) + (if a.z { AXIS_Z } else { 0 })
    }

    fn axes(&self) -> (r: Axes)
        ensures
            r == domain(func_of(*self)),
        decreases *self,
    {
        match self {
            Node::Constant(_) => Axes { x: false, y: false, z: false },
            Node::Unary { input, .. } => input.axes(),
            Node::Binary { left, right, .. } => left.axes().join(right.axes()),
            Node::Noise { xz_scale, y_scale, shift_x, shift_y, shift_z, .. } => {
                let flat: bool = *xz_scale == 0 || *xz_scale == 0x8000_0000_0000_0000;
                let level: bool = *y_scale == 0 || *y_scale == 0x8000_0000_0000_0000;
                let a = Axes { x: !flat, y: !level, z: !flat };
                a.join(Node::maybe_axes(shift_x)).join(Node::maybe_axes(shift_y)).join(Node::maybe_axes(shift_z))
            },
            Node::ShiftB(_) => Axes { x: true, y: false, z: true },
            Node::BlendAlpha => Axes { x: true, y: false, z: true },
            Node::BlendOffset => Axes { x: true, y: false, z: true },
            Node::Beardifier => Axes::all(),
            Node::DistanceToPoint { .. } => Axes::all(),
            Node::Gradient { axis, .. } => Axes::of(*axis),
            Node::Lerp { alpha, first, second } => alpha.axes().join(first.axes()).join(second.axes()),
            Node::RangeChoice { choice, when_in_range, when_out_of_range, .. } => choice.axes().join(
                when_in_range.axes()).join(when_out_of_range.axes()),
            Node::IntervalSelect { selector, functions, .. } => {
                let own = selector.axes();
                let mut a = Axes { x: false, y: false, z: false };
                let mut i: usize = 0;
                let ghost fs = funcs_of(functions@, functions@.len());
                proof { lemma_funcs(functions@, functions@.len()); }
                while i < functions.len()
                    invariant
                        i <= functions@.len(),
                        *self matches Node::IntervalSelect { functions: g, .. } && g == *functions,
                        fs.len() == functions@.len(),
                        forall|k: int| 0 <= k < fs.len() ==> #[trigger] fs[k] == func_of(*functions@[k]),
                        a == domains(fs, i as nat),
                    decreases functions.len() - i,
                {
                    proof {
                        assert(decreases_to!(*self => self->IntervalSelect_functions));
                        assert(decreases_to!(functions@ => functions@[i as int]));
                        assert(fs[i as int] == func_of(*functions@[i as int]));
                    }
                    a = a.join(functions[i].axes());
                    i += 1;
                }
                own.join(a)
            },
            Node::Cache { cached, .. } => cached.axes(),
            Node::BlendDensity(i) => i.axes(),
            Node::Interpolated { corners, .. } => corners.axes(),
            Node::Slice { along, whole, .. } => whole.axes().minus(Axes::of(*along)),
            Node::FindTopSurface { density, upper_bound, .. } => density.axes().join(upper_bound.axes()).minus(
                Axes::of(Axis::Y)),
            Node::Spline(sp) => sp.axes(),
        }
    }

    fn maybe_axes(n: &Option<Arc<Node>>) -> (r: Axes)
        ensures
            r == maybe_domain(maybe_func(*n)),
        decreases *n,
    {
        match n {
            Some(n) => n.axes(),
            None => Axes { x: false, y: false, z: false },
        }
    }

    fn existing_removed_axes(&self) -> (r: Axes)
        ensures
            r == removed_axes(func_of(*self)),
        decreases *self,
    {
        match self {
            Node::Slice { along, whole, .. } => Axes::of(*along).join(whole.existing_removed_axes()),
            _ => Axes { x: false, y: false, z: false },
        }
    }
}

impl Spline {
    fn axes(&self) -> (r: Axes)
        ensures
            r == knots_domain(knots_of(*self)),
        decreases *self,
    {
        match self {
            Spline::Constant(_) => Axes { x: false, y: false, z: false },
            Spline::Multipoint { coordinate, values, .. } => {
                let own = coordinate.axes();
                let mut a = Axes { x: false, y: false, z: false };
                let mut i: usize = 0;
                let ghost fs = all_knots_of(values@, values@.len());
                proof { lemma_all_knots(values@, values@.len()); }
                while i < values.len()
                    invariant
                        i <= values@.len(),
                        *self matches Spline::Multipoint { values: g, .. } && g == *values,
                        fs.len() == values@.len(),
                        forall|k: int| 0 <= k < fs.len() ==> #[trigger] fs[k] == knots_of(values@[k]),
                        a == all_knots_domain(fs, i as nat),
                    decreases values.len() - i,
                {
                    proof {
                        assert(decreases_to!(*self => self->Multipoint_values));
                        assert(decreases_to!(values@ => values@[i as int]));
                        assert(fs[i as int] == knots_of(values@[i as int]));
                    }
                    a = a.join(values[i].axes());
                    i += 1;
                }
                own.join(a)
            },
        }
    }
}

/// A function sliced at zero along an axis, if asked for.
fn slice_along(n: Arc<Node>, along: Axis, wanted: bool) -> (r: Arc<Node>)
    ensures
        func_of(*r) == sliced(func_of(*n), along, wanted),
        forall|m: Map<usize, Node>| agrees(*n, m) ==> #[trigger] agrees(*r, m),
{
    if wanted { Arc::new(Node::Slice { along, coordinate: 0, whole: n }) } else { n }
}

/// Rewrites density functions so that parts that do not depend on an axis
/// are sampled on a slab and spread along it. The input of a cache is
/// rewritten once and shared.
pub struct SliceUniformAxes {
    done: HashMap<usize, Arc<Node>>,
}

impl Default for SliceUniformAxes {
    fn default() -> (r: SliceUniformAxes)
        ensures
            r.outputs() == Map::<usize, Node>::empty(),
            forall|inputs: Map<usize, Node>| #[trigger] r.follows(inputs),
    {
        SliceUniformAxes::new()
    }
}

impl SliceUniformAxes {
    /// The rewritten inputs of caches, by the caches' ids.
    pub closed spec fn outputs(&self) -> Map<usize, Node> {
        Map::new(|id: usize| self.done@.contains_key(id), |id: usize| *self.done@[id])
    }

    /// What was rewritten so far are inputs among these.
    pub closed spec fn follows(&self, inputs: Map<usize, Node>) -> bool {
        forall|id: usize| #[trigger]
            self.done@.contains_key(id) ==> {
                &&& inputs.contains_key(id)
                &&& func_of(*self.done@[id]) == rewritten(func_of(inputs[id]), Axes::every())
                &&& agrees(*self.done@[id], self.outputs())
            }
    }

    pub fn new() -> (r: SliceUniformAxes)
        ensures
            r.outputs() == Map::<usize, Node>::empty(),
            forall|inputs: Map<usize, Node>| #[trigger] r.follows(inputs),
    {
        let r = SliceUniformAxes { done: HashMap::new() };
        proof { assert(r.outputs() =~= Map::empty()); }
        r
    }

    /// Inputs may come in.
    pub proof fn lemma_follows_more(&self, a: Map<usize, Node>, b: Map<usize, Node>)
        requires
            self.follows(a),
            extends(a, b),
        ensures
            self.follows(b),
    {
        assert forall|id: usize| #[trigger] self.done@.contains_key(id) implies b.contains_key(id) && func_of(*self.done@[id])
            == rewritten(func_of(b[id]), Axes::every()) by {
            assert(a.contains_key(id));
        }
    }

    /// What a step keeps.
    pub open spec fn went_on(&self, o: &SliceUniformAxes, inputs: Map<usize, Node>) -> bool {
        self.follows(inputs) && extends(o.outputs(), self.outputs())
    }

    /// Rewrite a function below a parent that depends on some axes (a root
    /// depends on all).
    pub fn rewrite(&mut self, n: &Arc<Node>, parent_axes: u8) -> (r: Arc<Node>)
        requires
            exists|inputs: Map<usize, Node>| agrees(**n, inputs) && #[trigger] old(self).follows(inputs),
        ensures
            func_of(*r) == rewritten(func_of(**n), Axes::decoded(parent_axes)),
            agrees(*r, final(self).outputs()),
            extends(old(self).outputs(), final(self).outputs()),
            exists|inputs: Map<usize, Node>|
                agrees(**n, inputs) && #[trigger] old(self).follows(inputs) && final(self).follows(inputs),
    {
        let ghost inputs = choose|inputs: Map<usize, Node>| agrees(**n, inputs) && #[trigger] old(self).follows(inputs);
        let parent = Axes { x: parent_axes % 2 == 1, y: (parent_axes / 2) % 2 == 1, z: (parent_axes / 4) % 2 == 1 };
        self.rewrite_below(n, parent, Ghost(inputs))
    }

    pub(crate) fn rewrite_below(&mut self, n: &Arc<Node>, parent: Axes, Ghost(inputs): Ghost<Map<usize, Node>>) -> (r: Arc<Node>)
        requires
            agrees(**n, inputs),
            old(self).follows(inputs),
        ensures
            func_of(*r) == rewritten(func_of(**n), parent),
            agrees(*r, final(self).outputs()),
            final(self).went_on(old(self), inputs),
        decreases **n, 1nat, 0nat,
    {
        match &**n {
            Node::Constant(_) => return share(n),
            Node::Gradient { .. } => return share(n),
            _ => {},
        }
        let axes = n.axes();
        let mut r = self.rewrite_children(n, axes, Ghost(inputs));
        if parent != axes {
            let gone = parent.minus(axes).minus(r.existing_removed_axes());
            r = slice_along(r, Axis::X, gone.x);
            r = slice_along(r, Axis::Z, gone.z);
            r = slice_along(r, Axis::Y, gone.y);
        }
        r
    }

    /// A function with its inputs rewritten.
    fn rewrite_children(&mut self, n: &Arc<Node>, axes: Axes, Ghost(inputs): Ghost<Map<usize, Node>>) -> (r: Arc<Node>)
        requires
            agrees(**n, inputs),
            old(self).follows(inputs),
        ensures
            func_of(*r) == children(func_of(**n), axes),
            agrees(*r, final(self).outputs()),
            final(self).went_on(old(self), inputs),
        decreases **n, 0nat, 1nat,
    {
        match &**n {
            Node::Unary { op, input } => {
                let i = self.rewrite_below(input, axes, Ghost(inputs));
                Arc::new(Node::Unary { op: *op, input: i })
            },
            Node::Binary { combine, left, right } => {
                let p = self.rewrite_below(left, axes, Ghost(inputs));
                let ghost o = self.outputs();
                let q = self.rewrite_below(right, axes, Ghost(inputs));
                proof { lemma_agrees_grows(inner(p), o, self.outputs()); }
                Arc::new(Node::Binary { combine: *combine, left: p, right: q })
            },
            Node::Noise { .. } => self.rewrite_noise(n, axes, Ghost(inputs)),
            Node::Lerp { .. } => self.rewrite_lerp(n, axes, Ghost(inputs)),
            Node::RangeChoice { .. } => self.rewrite_choice(n, axes, Ghost(inputs)),
            Node::IntervalSelect { .. } => self.rewrite_selection(n, axes, Ghost(inputs)),
            Node::Cache { .. } => self.rewrite_cache(n, axes, Ghost(inputs)),
            Node::BlendDensity(i) => {
                let i = self.rewrite_below(i, axes, Ghost(inputs));
                Arc::new(Node::BlendDensity(i))
            },
            Node::Interpolated { cell_size_xz, cell_size_y, corners } => {
                let i = self.rewrite_below(corners, axes, Ghost(inputs));
                Arc::new(Node::Interpolated { cell_size_xz: *cell_size_xz, cell_size_y: *cell_size_y, corners: i })
            },
            Node::Slice { along, coordinate, whole } => {
                let i = self.rewrite_below(whole, axes, Ghost(inputs));
                Arc::new(Node::Slice { along: *along, coordinate: *coordinate, whole: i })
            },
            Node::FindTopSurface { density, upper_bound, lower_bound, cell_height } => {
                let p = self.rewrite_below(density, axes, Ghost(inputs));
                let ghost o = self.outputs();
                let q = self.rewrite_below(upper_bound, axes, Ghost(inputs));
                proof { lemma_agrees_grows(inner(p), o, self.outputs()); }
                Arc::new(
                    Node::FindTopSurface {
                        density: p,
                        upper_bound: q,
                        lower_bound: *lower_bound,
                        cell_height: *cell_height,
                    },
                )
            },
            Node::Spline(sp) => {
                let s = self.rewrite_spline(sp, axes, Ghost(inputs));
                Arc::new(Node::Spline(s))
            },
            Node::Constant(_) => share(n),
            Node::ShiftB(_) => share(n),
            Node::Gradient { .. } => share(n),
            Node::BlendAlpha => share(n),
            Node::BlendOffset => share(n),
            Node::Beardifier => share(n),
            Node::DistanceToPoint { .. } => share(n),
        }
    }

    fn rewrite_maybe(&mut self, n: &Option<Arc<Node>>, axes: Axes, Ghost(inputs): Ghost<Map<usize, Node>>) -> (r: Option<
        Arc<Node>,
    >)
        requires
            n matches Some(c) ==> agrees(**c, inputs),
            old(self).follows(inputs),
        ensures
            maybe_func(r) == maybe_rewritten(maybe_func(*n), axes),
            r matches Some(c) ==> agrees(*c, final(self).outputs()),
            final(self).went_on(old(self), inputs),
        decreases *n, 2nat, 0nat,
    {
        match n {
            Some(c) => Some(self.rewrite_below(c, axes, Ghost(inputs))),
            None => None,
        }
    }

    fn rewrite_noise(&mut self, n: &Arc<Node>, axes: Axes, Ghost(inputs): Ghost<Map<usize, Node>>) -> (r: Arc<Node>)
        requires
            **n is Noise,
            agrees(**n, inputs),
            old(self).follows(inputs),
        ensures
            func_of(*r) == children(func_of(**n), axes),
            agrees(*r, final(self).outputs()),
            final(self).went_on(old(self), inputs),
        decreases **n, 0nat, 0nat,
    {
        match &**n {
            Node::Noise { stack, xz_scale, y_scale, shift_x, shift_y, shift_z } => {
                let x = self.rewrite_maybe(shift_x, axes, Ghost(inputs));
                let ghost o = self.outputs();
                let y = self.rewrite_maybe(shift_y, axes, Ghost(inputs));
                let ghost p = self.outputs();
                let z = self.rewrite_maybe(shift_z, axes, Ghost(inputs));
                let ghost q = self.outputs();
                proof {
                    if x is Some {
                        lemma_agrees_grows(inner(x->Some_0), o, q);
                    }
                    if y is Some {
                        lemma_agrees_grows(inner(y->Some_0), p, q);
                    }
                }
                Arc::new(
                    Node::Noise {
                        stack: *stack,
                        xz_scale: *xz_scale,
                        y_scale: *y_scale,
                        shift_x: x,
                        shift_y: y,
                        shift_z: z,
                    },
                )
            },
            _ => share(n),
        }
    }

    fn rewrite_lerp(&mut self, n: &Arc<Node>, axes: Axes, Ghost(inputs): Ghost<Map<usize, Node>>) -> (r: Arc<Node>)
        requires
            **n is Lerp,
            agrees(**n, inputs),
            old(self).follows(inputs),
        ensures
            func_of(*r) == children(func_of(**n), axes),
            agrees(*r, final(self).outputs()),
            final(self).went_on(old(self), inputs),
        decreases **n, 0nat, 0nat,
    {
        match &**n {
            Node::Lerp { alpha, first, second } => {
                let a = self.rewrite_below(alpha, axes, Ghost(inputs));
                let ghost o = self.outputs();
                let b = self.rewrite_below(first, axes, Ghost(inputs));
                let ghost p = self.outputs();
                let c = self.rewrite_below(second, axes, Ghost(inputs));
                proof {
                    lemma_agrees_grows(inner(a), o, self.outputs());
                    lemma_agrees_grows(inner(b), p, self.outputs());
                }
                Arc::new(Node::Lerp { alpha: a, first: b, second: c })
            },
            _ => share(n),
        }
    }

    fn rewrite_choice(&mut self, n: &Arc<Node>, axes: Axes, Ghost(inputs): Ghost<Map<usize, Node>>) -> (r: Arc<Node>)
        requires
            **n is RangeChoice,
            agrees(**n, inputs),
            old(self).follows(inputs),
        ensures
            func_of(*r) == children(func_of(**n), axes),
            agrees(*r, final(self).outputs()),
            final(self).went_on(old(self), inputs),
        decreases **n, 0nat, 0nat,
    {
        match &**n {
            Node::RangeChoice { choice, min_inclusive, max_exclusive, when_in_range, when_out_of_range } => {
                let a = self.rewrite_below(choice, axes, Ghost(inputs));
                let ghost o = self.outputs();
                let b = self.rewrite_below(when_in_range, axes, Ghost(inputs));
                let ghost p = self.outputs();
                let c = self.rewrite_below(when_out_of_range, axes, Ghost(inputs));
                proof {
                    lemma_agrees_grows(inner(a), o, self.outputs());
                    lemma_agrees_grows(inner(b), p, self.outputs());
                }
                Arc::new(
                    Node::RangeChoice {
                        choice: a,
                        min_inclusive: *min_inclusive,
                        max_exclusive: *max_exclusive,
                        when_in_range: b,
                        when_out_of_range: c,
                    },
                )
            },
            _ => share(n),
        }
    }

    fn rewrite_cache(&mut self, n: &Arc<Node>, axes: Axes, Ghost(inputs): Ghost<Map<usize, Node>>) -> (r: Arc<Node>)
        requires
            **n is Cache,
            agrees(**n, inputs),
            old(self).follows(inputs),
        ensures
            func_of(*r) == children(func_of(**n), axes),
            agrees(*r, final(self).outputs()),
            final(self).went_on(old(self), inputs),
        decreases **n, 0nat, 0nat,
    {
        match &**n {
            Node::Cache { id, cached } => {
                if !self.done.contains_key(id) {
                    let i = self.rewrite_below(cached, Axes::all(), Ghost(inputs));
                    if !self.done.contains_key(id) {
                        let ghost o = self.outputs();
                        let ghost before = self.done@;
                        self.done.insert(*id, i);
                        proof {
                            let p = self.outputs();
                            assert(extends(o, p));
                            assert forall|k: usize| #[trigger] self.done@.contains_key(k) implies agrees(*self.done@[k], p) by {
                                if k == *id {
                                    lemma_agrees_grows(inner(i), o, p);
                                } else {
                                    assert(before.contains_key(k));
                                    lemma_agrees_grows(inner(before[k]), o, p);
                                }
                            }
                            assert(self.follows(inputs));
                        }
                    }
                }
                let i = match self.done.get(id) {
                    Some(i) => share(i),
                    None => share(cached),
                };
                proof {
                    assert(self.done@.contains_key(*id));
                    assert(self.outputs().contains_key(*id));
                }
                Arc::new(Node::Cache { id: *id, cached: i })
            },
            _ => share(n),
        }
    }

    fn rewrite_selection(&mut self, n: &Arc<Node>, axes: Axes, Ghost(inputs): Ghost<Map<usize, Node>>) -> (r: Arc<Node>)
        requires
            **n is IntervalSelect,
            agrees(**n, inputs),
            old(self).follows(inputs),
        ensures
            func_of(*r) == children(func_of(**n), axes),
            agrees(*r, final(self).outputs()),
            final(self).went_on(old(self), inputs),
        decreases **n, 0nat, 0nat,
    {
        match &**n {
            Node::IntervalSelect { selector, thresholds, functions } => {
                let s = self.rewrite_below(selector, axes, Ghost(inputs));
                let ghost so = self.outputs();
                let ghost fs = funcs_of(functions@, functions@.len());
                proof { lemma_funcs(functions@, functions@.len()); }
                let mut out: Vec<Arc<Node>> = Vec::new();
                let mut i: usize = 0;
                while i < functions.len()
                    invariant
                        i <= functions@.len(),
                        out@.len() == i,
                        **n matches Node::IntervalSelect { functions: g, .. } && g == *functions,
                        agrees(**n, inputs),
                        self.went_on(old(self), inputs),
                        extends(so, self.outputs()),
                        fs.len() == functions@.len(),
                        forall|k: int| 0 <= k < fs.len() ==> #[trigger] fs[k] == func_of(*functions@[k]),
                        forall|k: int| 0 <= k < i ==> agrees(*#[trigger] out@[k], self.outputs()),
                        funcs_of(out@, i as nat) == all_rewritten(fs, axes, i as nat),
                    decreases functions.len() - i,
                {
                    proof {
                        assert(decreases_to!(**n => n->IntervalSelect_functions));
                        assert(decreases_to!(functions@ => functions@[i as int]));
                        assert(agrees(*functions@[i as int], inputs));
                        assert(fs[i as int] == func_of(*functions@[i as int]));
                    }
                    let ghost o = self.outputs();
                    let ghost before = out@;
                    let r = self.rewrite_below(&functions[i], axes, Ghost(inputs));
                    out.push(r);
                    proof {
                        assert forall|k: int| 0 <= k < i + 1 implies agrees(*#[trigger] out@[k], self.outputs()) by {
                            if k < i {
                                assert(out@[k] == before[k]);
                                lemma_agrees_grows(inner(before[k]), o, self.outputs());
                            }
                        }
                        lemma_funcs_prefix(before, out@, i as nat);
                        assert(funcs_of(out@, (i + 1) as nat) == funcs_of(out@, i as nat).push(func_of(*out@[i as int])));
                    }
                    i += 1;
                }
                proof { lemma_agrees_grows(inner(s), so, self.outputs()); }
                Arc::new(Node::IntervalSelect { selector: s, thresholds: copy_values(thresholds), functions: out })
            },
            _ => share(n),
        }
    }

    fn rewrite_spline(&mut self, sp: &Spline, axes: Axes, Ghost(inputs): Ghost<Map<usize, Node>>) -> (r: Spline)
        requires
            agrees_spline(*sp, inputs),
            old(self).follows(inputs),
        ensures
            knots_of(r) == knots_rewritten(knots_of(*sp), axes),
            agrees_spline(r, final(self).outputs()),
            final(self).went_on(old(self), inputs),
        decreases *sp, 1nat, 0nat,
    {
        match sp {
            Spline::Constant(c) => Spline::Constant(*c),
            Spline::Multipoint { key, coordinate, locations, values, derivatives } => {
                let s = self.rewrite_below(coordinate, axes, Ghost(inputs));
                let ghost so = self.outputs();
                let ghost fs = all_knots_of(values@, values@.len());
                proof { lemma_all_knots(values@, values@.len()); }
                let mut out: Vec<Spline> = Vec::new();
                let mut i: usize = 0;
                while i < values.len()
                    invariant
                        i <= values@.len(),
                        out@.len() == i,
                        *sp matches Spline::Multipoint { values: g, .. } && g == *values,
                        agrees_spline(*sp, inputs),
                        self.went_on(old(self), inputs),
                        extends(so, self.outputs()),
                        fs.len() == values@.len(),
                        forall|k: int| 0 <= k < fs.len() ==> #[trigger] fs[k] == knots_of(values@[k]),
                        forall|k: int| 0 <= k < i ==> agrees_spline(#[trigger] out@[k], self.outputs()),
                        all_knots_of(out@, i as nat) == all_knots_rewritten(fs, axes, i as nat),
                    decreases values.len() - i,
                {
                    proof {
                        assert(decreases_to!(*sp => sp->Multipoint_values));
                        assert(decreases_to!(values@ => values@[i as int]));
                        assert(agrees_spline(values@[i as int], inputs));
                        assert(fs[i as int] == knots_of(values@[i as int]));
                    }
                    let ghost o = self.outputs();
                    let ghost before = out@;
                    let r = self.rewrite_spline(&values[i], axes, Ghost(inputs));
                    out.push(r);
                    proof {
                        assert forall|k: int| 0 <= k < i + 1 implies agrees_spline(#[trigger] out@[k], self.outputs()) by {
                            if k < i {
                                assert(out@[k] == before[k]);
                                lemma_agrees_spline_grows(before[k], o, self.outputs());
                            }
                        }
                        lemma_knots_prefix(before, out@, i as nat);
                        assert(all_knots_of(out@, (i + 1) as nat) == all_knots_of(out@, i as nat).push(
                            knots_of(out@[i as int])));
                    }
                    i += 1;
                }
                proof { lemma_agrees_grows(inner(s), so, self.outputs()); }
                Spline::Multipoint {
                    key: *key,
                    coordinate: s,
                    locations: copy_values(locations),
                    values: out,
                    derivatives: copy_values(derivatives),
                }
            },
        }
    }
}

/// Functions of the first nodes depend on those alone.
pub(crate) proof fn lemma_funcs_prefix(a: Seq<Arc<Node>>, b: Seq<Arc<Node>>, n: nat)
    requires
        n <= a.len(),
        n <= b.len(),
        forall|k: int| 0 <= k < n ==> #[trigger] a[k] == b[k],
    ensures
        funcs_of(a, n) == funcs_of(b, n),
    decreases n,
{
    if n > 0 {
        lemma_funcs_prefix(a, b, (n - 1) as nat);
        assert(a[n - 1] == b[n - 1]);
    }
}

pub(crate) proof fn lemma_knots_prefix(a: Seq<Spline>, b: Seq<Spline>, n: nat)
    requires
        n <= a.len(),
        n <= b.len(),
        forall|k: int| 0 <= k < n ==> #[trigger] a[k] == b[k],
    ensures
        all_knots_of(a, n) == all_knots_of(b, n),
    decreases n,
{
    if n > 0 {
        lemma_knots_prefix(a, b, (n - 1) as nat);
        assert(a[n - 1] == b[n - 1]);
    }
}

} // verus!
