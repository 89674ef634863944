//! Checks of density functions before they are evaluated.

use std::sync::Arc;
use vstd::prelude::*;
use crate::df26::{affordable, affordable_spline, roomy, sound, sound_spline, Axis, Node, Spline};

verus! {

/// Counts or steps along each axis.
pub type Triple = (u128, u128, u128);

/// Counts or steps as integers.
pub open spec fn ints(s: (u128, u128, u128)) -> (int, int, int) {
    (s.0 as int, s.1 as int, s.2 as int)
}

/// A buffer of these counts fits.
fn is_roomy(s: Triple) -> (r: bool)
    ensures
        r == roomy(ints(s)),
{
    if s.0 > 0x100_0000_0000 || s.1 > 0x100_0000_0000 || s.2 > 0x100_0000_0000 {
        return false;
    }
    proof {
        assert(s.0 * s.1 <= 0x1_0000_0000_0000_0000_0000) by (nonlinear_arith)
            requires
                s.0 <= 0x100_0000_0000,
                s.1 <= 0x100_0000_0000,
        ;
        assert((s.0 * s.1) * s.2 <= 0x100_0000_0000_0000_0000_0000_0000_0000) by (nonlinear_arith)
            requires
                0 <= s.0 * s.1 <= 0x1_0000_0000_0000_0000_0000,
                s.2 <= 0x100_0000_0000,
        ;
    }
    s.0 * s.1 * s.2 <= usize::MAX as u128
}

impl Node {
    /// Whether the tree can be evaluated.
    pub fn is_sound(&self) -> (r: bool)
        ensures
            r == sound(*self),
        decreases *self, 0nat,
    {
        match self {
            Node::Unary { input, .. } => input.is_sound(),
            Node::Binary { left, right, .. } => left.is_sound() && right.is_sound(),
            Node::Noise { shift_x, shift_y, shift_z, .. } => Node::maybe_sound(shift_x) && Node::maybe_sound(shift_y)
                && Node::maybe_sound(shift_z),
            Node::Gradient { from_coordinate, to_coordinate, .. } => *from_coordinate != *to_coordinate,
            Node::Lerp { alpha, first, second } => alpha.is_sound() && first.is_sound() && second.is_sound(),
            Node::RangeChoice { choice, when_in_range, when_out_of_range, .. } => choice.is_sound()
                && when_in_range.is_sound() && when_out_of_range.is_sound(),
            Node::IntervalSelect { selector, thresholds, functions } => {
                if functions.len() == 0 || functions.len() - 1 != thresholds.len() || !selector.is_sound() {
                    return false;
                }
                let mut i: usize = 0;
                while i < functions.len()
                    invariant
                        i <= functions@.len(),
                        *self matches Node::IntervalSelect { functions: g, .. } && g == *functions,
                        forall|k: int| 0 <= k < i ==> sound(*#[trigger] functions@[k]),
                    decreases functions.len() - i,
                {
                    proof {
                        assert(decreases_to!(*self => self->IntervalSelect_functions));
                        assert(decreases_to!(functions@ => functions@[i as int]));
                    }
                    if !functions[i].is_sound() {
                        proof { assert(!sound(*functions@[i as int])); }
                        return false;
                    }
                    i += 1;
                }
                true
            },
            Node::Cache { cached, .. } => cached.is_sound(),
            Node::BlendDensity(i) => i.is_sound(),
            Node::Interpolated { cell_size_xz, cell_size_y, corners } => *cell_size_xz > 0 && *cell_size_y > 0
                && corners.is_sound() && corners.is_affordable(
                (2, 2, 2), (*cell_size_xz as u128, *cell_size_y as u128, *cell_size_xz as u128)),
            Node::Slice { whole, .. } => whole.is_sound(),
            Node::FindTopSurface { density, upper_bound, cell_height, .. } => *cell_height > 0 && density.is_sound()
                && upper_bound.is_sound(),
            Node::Spline(sp) => sp.is_sound(),
            _ => true,
        }
    }

    fn maybe_sound(n: &Option<Arc<Node>>) -> (r: bool)
        ensures
            r == (*n matches Some(c) ==> sound(*c)),
        decreases *n, 1nat,
    {
        match n {
            Some(c) => c.is_sound(),
            None => true,
        }
    }

    /// Whether the tree can be sampled on volumes of these counts and
    /// steps.
    pub fn is_affordable(&self, s: Triple, t: Triple) -> (r: bool)
        requires
            t.0 <= 0x7fff_ffff && t.1 <= 0x7fff_ffff && t.2 <= 0x7fff_ffff,
        ensures
            sound(*self) ==> r == affordable(*self, ints(s), ints(t)),
            r ==> roomy(ints(s)),
        decreases *self, 0nat,
    {
        if !is_roomy(s) {
            return false;
        }
        match self {
            Node::Unary { input, .. } => input.is_affordable(s, t),
            Node::Binary { left, right, .. } => left.is_affordable(s, t) && right.is_affordable(s, t),
            Node::Noise { shift_x, shift_y, shift_z, .. } => Node::maybe_affordable(shift_x, s, t) && Node::maybe_affordable(
                shift_y, s, t) && Node::maybe_affordable(shift_z, s, t),
            Node::Lerp { alpha, first, second } => alpha.is_affordable(s, t) && first.is_affordable(s, t)
                && second.is_affordable(s, t),
            Node::RangeChoice { choice, when_in_range, when_out_of_range, .. } => choice.is_affordable(s, t)
                && when_in_range.is_affordable(s, t) && when_out_of_range.is_affordable(s, t),
            Node::IntervalSelect { selector, functions, .. } => {
                if !selector.is_affordable(s, t) {
                    return false;
                }
                let mut i: usize = 0;
                while i < functions.len()
                    invariant
                        i <= functions@.len(),
                        t.0 <= 0x7fff_ffff && t.1 <= 0x7fff_ffff && t.2 <= 0x7fff_ffff,
                        *self matches Node::IntervalSelect { functions: g, .. } && g == *functions,
                        sound(*self) ==> forall|k: int|
                            0 <= k < i ==> affordable(*#[trigger] functions@[k], ints(s), ints(t)),
                    decreases functions.len() - i,
                {
                    proof {
                        assert(decreases_to!(*self => self->IntervalSelect_functions));
                        assert(decreases_to!(functions@ => functions@[i as int]));
                        assert(sound(*self) ==> sound(*functions@[i as int]));
                    }
                    if !functions[i].is_affordable(s, t) {
                        proof { assert(sound(*self) ==> !affordable(*functions@[i as int], ints(s), ints(t))); }
                        return false;
                    }
                    i += 1;
                }
                true
            },
            Node::Cache { cached, .. } => cached.is_affordable(s, t),
            Node::BlendDensity(i) => i.is_affordable(s, t),
            Node::Interpolated { cell_size_xz, cell_size_y, corners } => {
                if *cell_size_xz <= 0 || *cell_size_y <= 0 {
                    return false;
                }
                let (wide, tall): (u128, u128) = (*cell_size_xz as u128, *cell_size_y as u128);
                proof {
                    lemma_scaled(s.0 as int, t.0 as int);
                    lemma_scaled(s.1 as int, t.1 as int);
                    lemma_scaled(s.2 as int, t.2 as int);
                }
                let b: Triple = (s.0 * t.0, s.1 * t.1, s.2 * t.2);
                if !is_roomy(b) || !corners.is_affordable(s, t) {
                    return false;
                }
                corners.is_affordable((b.0 / wide + 3, b.1 / tall + 3, b.2 / wide + 3), (wide, tall, wide))
            },
            Node::Slice { along, whole, .. } => {
                let cut: Triple = match along {
                    Axis::X => (1, s.1, s.2),
                    Axis::Y => (s.0, 1, s.2),
                    Axis::Z => (s.0, s.1, 1),
                };
                whole.is_affordable(cut, t)
            },
            Node::FindTopSurface { upper_bound, .. } => s.1 == 1 && upper_bound.is_affordable(s, t),
            Node::Spline(sp) => sp.is_affordable(s, t),
            _ => true,
        }
    }

    fn maybe_affordable(n: &Option<Arc<Node>>, s: Triple, t: Triple) -> (r: bool)
        requires
            t.0 <= 0x7fff_ffff && t.1 <= 0x7fff_ffff && t.2 <= 0x7fff_ffff,
        ensures
            (*n matches Some(c) ==> sound(*c)) ==> r == (*n matches Some(c) ==> affordable(*c, ints(s), ints(t))),
        decreases *n, 1nat,
    {
        match n {
            Some(c) => c.is_affordable(s, t),
            None => true,
        }
    }
}

proof fn lemma_scaled(s: int, t: int)
    requires
        0 <= s <= 0x100_0000_0000,
        0 <= t <= 0x7fff_ffff,
    ensures
        0 <= s * t <= 0x8000_0000_0000_0000_0000,
{
    assert(0 <= s * t <= 0x8000_0000_0000_0000_0000) by (nonlinear_arith)
        requires
            0 <= s <= 0x100_0000_0000,
            0 <= t <= 0x7fff_ffff,
    ;
}

impl Spline {
    fn is_sound(&self) -> (r: bool)
        ensures
            r == sound_spline(*self),
        decreases *self, 0nat,
    {
        match self {
            Spline::Constant(_) => true,
            Spline::Multipoint { coordinate, locations, values, derivatives, .. } => {
                if locations.len() == 0 || values.len() != locations.len() || derivatives.len() != locations.len()
                    || !coordinate.is_sound() {
                    return false;
                }
                let mut i: usize = 0;
                while i < values.len()
                    invariant
                        i <= values@.len(),
                        *self matches Spline::Multipoint { values: g, .. } && g == *values,
                        forall|k: int| 0 <= k < i ==> sound_spline(#[trigger] values@[k]),
                    decreases values.len() - i,
                {
                    proof {
                        assert(decreases_to!(*self => self->Multipoint_values));
                        assert(decreases_to!(values@ => values@[i as int]));
                    }
                    if !values[i].is_sound() {
                        proof { assert(!sound_spline(values@[i as int])); }
                        return false;
                    }
                    i += 1;
                }
                true
            },
        }
    }

    fn is_affordable(&self, s: Triple, t: Triple) -> (r: bool)
        requires
            t.0 <= 0x7fff_ffff && t.1 <= 0x7fff_ffff && t.2 <= 0x7fff_ffff,
        ensures
            sound_spline(*self) ==> r == affordable_spline(*self, ints(s), ints(t)),
        decreases *self, 0nat,
    {
        match self {
            Spline::Constant(_) => true,
            Spline::Multipoint { coordinate, values, .. } => {
                if !coordinate.is_affordable(s, t) {
                    return false;
                }
                let mut i: usize = 0;
                while i < values.len()
                    invariant
                        i <= values@.len(),
                        t.0 <= 0x7fff_ffff && t.1 <= 0x7fff_ffff && t.2 <= 0x7fff_ffff,
                        *self matches Spline::Multipoint { values: g, .. } && g == *values,
                        sound_spline(*self) ==> forall|k: int|
                            0 <= k < i ==> affordable_spline(#[trigger] values@[k], ints(s), ints(t)),
                    decreases values.len() - i,
                {
                    proof {
                        assert(decreases_to!(*self => self->Multipoint_values));
                        assert(decreases_to!(values@ => values@[i as int]));
                        assert(sound_spline(*self) ==> sound_spline(values@[i as int]));
                    }
                    if !values[i].is_affordable(s, t) {
                        proof { assert(sound_spline(*self) ==> !affordable_spline(values@[i as int], ints(s), ints(t))); }
                        return false;
                    }
                    i += 1;
                }
                true
            },
        }
    }
}

} // verus!
