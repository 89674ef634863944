//! Evaluating density function trees, point by point and over volumes.

use std::collections::HashMap;
use vstd::prelude::*;
use crate::arith::{answers, hermite, interval, lerp32, linear_extend, Ask, ONE_32};
use crate::df26::{
    adopted, binary, cell_around, choose_axis, direct, direct_spline, distance_to, evaluated, forgetful, gradient, in_range,
    inside_cell, lattice, noise_point, one, probed, select, shift_b_value, shift_coordinate, slab_of, slab_value, sound,
    sound_spline, spline_evaluated, surface_at, unary, without_id, wrap, Axis, Binary, Mode, Node, Points, Slab, Spline, Unary,
};
use crate::volume::{floor_mod, Volume};

verus! {

/// The values of a cached input over a volume.
pub struct KeptSlab {
    pub id: usize,
    pub vol: Volume,
    pub buf: Vec<u32>,
}

/// The slabs that kept ones stand for.
pub open spec fn slabs(kept: Seq<KeptSlab>) -> Seq<Slab> {
    kept.map_values(|k: KeptSlab| Slab { id: k.id, vol: lattice(k.vol), buf: k.buf@ })
}

/// Every kept slab has a value per element.
pub open spec fn whole_slabs(kept: Seq<KeptSlab>) -> bool {
    forall|k: int| 0 <= k < kept.len() ==> (#[trigger] kept[k]).vol.fits() && kept[k].buf@.len() == kept[k].vol.count()
}

/// Single-entry point cache per cached input, and volume buffers a point
/// query may be answered from.
pub struct PointCache {
    pub enabled: bool,
    pub entries: HashMap<usize, ((i32, i32, i32), u32)>,
    pub kept: Vec<KeptSlab>,
}

impl View for PointCache {
    type V = Points;

    open spec fn view(&self) -> Points {
        Points { enabled: self.enabled, entries: self.entries@, slabs: slabs(self.kept@) }
    }
}

/// Volumes sampled so far, of cached inputs.
pub struct SampleCtx {
    pub kept: Vec<KeptSlab>,
}

impl View for SampleCtx {
    type V = Seq<Slab>;

    open spec fn view(&self) -> Seq<Slab> {
        slabs(self.kept@)
    }
}

impl Default for SampleCtx {
    fn default() -> (r: SampleCtx)
        ensures
            r@ == Seq::<Slab>::empty(),
            r.wf(),
    {
        let r = SampleCtx { kept: Vec::new() };
        proof { assert(r@ =~= Seq::empty()); }
        r
    }
}

impl SampleCtx {
    pub open spec fn wf(&self) -> bool {
        whole_slabs(self.kept@)
    }
}

impl PointCache {
    pub open spec fn wf(&self) -> bool {
        whole_slabs(self.kept@)
    }

    /// A cache that remembers.
    pub fn new() -> (r: PointCache)
        ensures
            r@ == (Points { enabled: true, entries: Map::empty(), slabs: Seq::empty() }),
            r.wf(),
    {
        let r = PointCache { enabled: true, entries: HashMap::new(), kept: Vec::new() };
        proof {
            assert(r@.slabs =~= Seq::empty());
            assert(r@.entries =~= Map::empty());
        }
        r
    }

    /// A cache that remembers nothing.
    pub fn disabled() -> (r: PointCache)
        ensures
            r@ == forgetful(),
            r.wf(),
    {
        let r = PointCache { enabled: false, entries: HashMap::new(), kept: Vec::new() };
        proof {
            assert(r@.slabs =~= Seq::empty());
            assert(r@.entries =~= Map::empty());
        }
        r
    }

    /// Adopt the volume buffers of a sampling context (latest per cached
    /// input).
    pub fn adopt_volumes(&mut self, ctx: &SampleCtx)
        requires
            old(self).wf(),
            ctx.wf(),
        ensures
            final(self).wf(),
            final(self)@ == (Points { slabs: adopted(old(self)@.slabs, ctx@, ctx@.len()), ..old(self)@ }),
    {
        let ghost start = self@;
        let mut i: usize = 0;
        while i < ctx.kept.len()
            invariant
                i <= ctx.kept@.len(),
                self.wf(),
                ctx.wf(),
                self@ == (Points { slabs: adopted(start.slabs, ctx@, i as nat), ..start }),
            decreases ctx.kept.len() - i,
        {
            let id: usize = ctx.kept[i].id;
            let ghost before = self.kept@;
            let mut rest: Vec<KeptSlab> = Vec::new();
            let mut old_kept: Vec<KeptSlab> = Vec::new();
            std::mem::swap(&mut old_kept, &mut self.kept);
            let n: usize = old_kept.len();
            let mut k: usize = 0;
            proof {
                assert(before.skip(0) =~= before);
                assert(slabs(rest@) =~= without_id(slabs(before), id, 0));
            }
            while k < n
                invariant
                    n == before.len(),
                    k <= n,
                    old_kept@ == before.skip(k as int),
                    whole_slabs(before),
                    whole_slabs(rest@),
                    slabs(rest@) == without_id(slabs(before), id, k as nat),
                decreases n - k,
            {
                let one: KeptSlab = old_kept.remove(0);
                let ghost rest0 = rest@;
                proof {
                    assert(before.skip(k as int)[0] == before[k as int]);
                    assert(before.skip(k as int).remove(0) =~= before.skip(k + 1));
                    assert(slabs(before)[k as int].id == one.id);
                }
                if one.id != id {
                    rest.push(one);
                    proof {
                        assert(slabs(rest@) =~= slabs(rest0).push(slabs(before)[k as int]));
                    }
                }
                k += 1;
            }
            let taken: KeptSlab = copy_slab(&ctx.kept[i]);
            let ghost rest0 = rest@;
            rest.push(taken);
            proof {
                assert(slabs(rest@) =~= slabs(rest0).push(ctx@[i as int]));
            }
            self.kept = rest;
            i += 1;
        }
    }

    /// The value that the first slab of a cached input holds for a block.
    fn volume_hit(&self, id: usize, x: i32, y: i32, z: i32) -> (r: Option<u32>)
        requires
            self.wf(),
        ensures
            r == slab_value(self@.slabs, id, x as int, y as int, z as int),
    {
        let ghost all = self@.slabs;
        let mut k: usize = 0;
        while k < self.kept.len()
            invariant
                all == slabs(self.kept@),
                self.wf(),
                k <= self.kept@.len(),
                slab_of(all, id, 0) == slab_of(all, id, k as int),
            decreases self.kept.len() - k,
        {
            proof { assert(all[k as int] == (Slab { id: self.kept@[k as int].id, vol: lattice(self.kept@[k as int].vol), buf: self.kept@[k as int].buf@ })); }
            if self.kept[k].id == id {
                let vol: Volume = self.kept[k].vol;
                proof {
                    assert(self.kept@[k as int].vol.fits());
                }
                return match vol.index_of_block(x, y, z) {
                    Some(i) => Some(self.kept[k].buf[i]),
                    None => None,
                };
            }
            k += 1;
        }
        None
    }
}

pub(crate) fn copy_values(v: &Vec<u32>) -> (r: Vec<u32>)
    ensures
        r@ == v@,
{
    let mut r: Vec<u32> = Vec::new();
    while r.len() < v.len()
        invariant
            r@.len() <= v@.len(),
            r@ == v@.take(r@.len() as int),
        decreases v.len() - r.len(),
    {
        let ghost k = r@.len() as int;
        r.push(v[r.len()]);
        proof { assert(v@.take(k + 1) =~= r@); }
    }
    proof { assert(r@ =~= v@); }
    r
}

fn copy_slab(s: &KeptSlab) -> (r: KeptSlab)
    ensures
        r.id == s.id,
        r.vol == s.vol,
        r.buf@ == s.buf@,
{
    KeptSlab { id: s.id, vol: s.vol, buf: copy_values(&s.buf) }
}

/// A value inside a cell, from its corner buffer.
fn mix_cell<F: Fn(Ask) -> u64>(f: &F, b: &Vec<u32>, x: i32, y: i32, z: i32, cell_xz: i32, cell_y: i32) -> (r: u32)
    requires
        answers(*f),
        b@.len() == 8,
        cell_xz > 0,
        cell_y > 0,
    ensures
        r == inside_cell(*f, b@, x, y, z, cell_xz, cell_y),
{
    let wide: u32 = f(Ask::FromInt32(cell_xz)) as u32;
    let tall: u32 = f(Ask::FromInt32(cell_y)) as u32;
    let ax: u32 = f(Ask::FromInt32(floor_mod(x, cell_xz))) as u32;
    let ax: u32 = f(Ask::Div32(ax, wide)) as u32;
    let ay: u32 = f(Ask::FromInt32(floor_mod(y, cell_y))) as u32;
    let ay: u32 = f(Ask::Div32(ay, tall)) as u32;
    let az: u32 = f(Ask::FromInt32(floor_mod(z, cell_xz))) as u32;
    let az: u32 = f(Ask::Div32(az, wide)) as u32;
    let p: u32 = lerp32(f, ax, b[0], b[2]);
    let q: u32 = lerp32(f, ax, b[1], b[3]);
    let near: u32 = lerp32(f, ay, p, q);
    let p: u32 = lerp32(f, ax, b[4], b[6]);
    let q: u32 = lerp32(f, ax, b[5], b[7]);
    let away: u32 = lerp32(f, ay, p, q);
    lerp32(f, az, near, away)
}

/// The corner volume of the cell that holds a block.
fn cell_volume(x: i32, y: i32, z: i32, cell_xz: i32, cell_y: i32) -> (r: Volume)
    requires
        cell_xz > 0,
        cell_y > 0,
    ensures
        lattice(r) == cell_around(x, y, z, cell_xz, cell_y),
        r.fits(),
        r.count() == 8,
{
    let xi: i32 = floor_mod(x, cell_xz);
    let yi: i32 = floor_mod(y, cell_y);
    let zi: i32 = floor_mod(z, cell_xz);
    let r = Volume {
        size: [2, 2, 2],
        min: [wrap(x as i128 - xi as i128), wrap(y as i128 - yi as i128), wrap(z as i128 - zi as i128)],
        step: [cell_xz, cell_y, cell_xz],
    };
    proof {
        assert(2int * 2 * 2 == 8) by (nonlinear_arith);
    }
    r
}

/// A node without inputs whose value needs no volume.
pub open spec fn is_leaf(n: Node) -> bool {
    n is Constant || n is ShiftB || n is Gradient || n is BlendAlpha || n is BlendOffset || n is Beardifier
        || n is DistanceToPoint
}

impl Node {
    /// Evaluate at a block position along the given path.
    pub fn eval<F: Fn(Ask) -> u64>(&self, x: i32, y: i32, z: i32, mode: Mode, f: &F) -> (r: u32)
        requires
            answers(*f),
            sound(*self),
            mode is Volume ==> direct(*self),
        ensures
            r == evaluated(*f, *self, x, y, z, mode, forgetful()).0,
    {
        let mut pc = PointCache::disabled();
        self.eval_with(x, y, z, mode, &mut pc, f)
    }

    /// `eval` with the single-entry point cache kept per cached input (a
    /// repeated query at the same position is answered from memory).
    pub fn eval_with<F: Fn(Ask) -> u64>(&self, x: i32, y: i32, z: i32, mode: Mode, pc: &mut PointCache, f: &F) -> (r: u32)
        requires
            answers(*f),
            sound(*self),
            mode is Volume ==> direct(*self),
            old(pc).wf(),
        ensures
            (r, final(pc)@) == evaluated(*f, *self, x, y, z, mode, old(pc)@),
            final(pc).wf(),
        decreases *self, 1nat, 0nat,
    {
        match self {
            Node::Constant(_) => self.eval_leaf(x, y, z, mode, f),
            Node::Unary { .. } => self.eval_unary(x, y, z, mode, pc, f),
            Node::Binary { .. } => self.eval_binary(x, y, z, mode, pc, f),
            Node::Noise { .. } => self.eval_noise(x, y, z, mode, pc, f),
            Node::ShiftB(_) => self.eval_leaf(x, y, z, mode, f),
            Node::Gradient { .. } => self.eval_leaf(x, y, z, mode, f),
            Node::Lerp { .. } => self.eval_lerp(x, y, z, mode, pc, f),
            Node::RangeChoice { .. } => self.eval_range_choice(x, y, z, mode, pc, f),
            Node::IntervalSelect { .. } => self.eval_interval_select(x, y, z, mode, pc, f),
            Node::Cache { .. } => self.eval_cache(x, y, z, mode, pc, f),
            Node::BlendDensity(_) => self.eval_blend(x, y, z, mode, pc, f),
            Node::BlendAlpha => self.eval_leaf(x, y, z, mode, f),
            Node::BlendOffset => self.eval_leaf(x, y, z, mode, f),
            Node::Beardifier => self.eval_leaf(x, y, z, mode, f),
            Node::Interpolated { .. } => self.eval_interpolated(x, y, z, mode, pc, f),
            Node::Slice { .. } => self.eval_slice(x, y, z, mode, pc, f),
            Node::FindTopSurface { .. } => self.eval_surface(x, y, z, mode, pc, f),
            Node::DistanceToPoint { .. } => self.eval_leaf(x, y, z, mode, f),
            Node::Spline(_) => self.eval_spline(x, y, z, mode, pc, f),
        }
    }

    /// Evaluate a combination of two.
    fn eval_binary<F: Fn(Ask) -> u64>(&self, x: i32, y: i32, z: i32, mode: Mode, pc: &mut PointCache, f: &F) -> (r: u32)
        requires
            answers(*f),
            sound(*self),
            mode is Volume ==> direct(*self),
            old(pc).wf(),
            *self is Binary,
        ensures
            (r, final(pc)@) == evaluated(*f, *self, x, y, z, mode, old(pc)@),
            final(pc).wf(),
        decreases *self, 0nat, 0nat,
    {
        match self {
            Node::Binary { combine, left, right } => {
                let a: u32 = left.eval_with(x, y, z, mode, pc, f);
                let stops: bool = match mode {
                    Mode::Point => match combine {
                        Binary::Mul => f(Ask::Equal32(a, 0)) != 0,
                        Binary::Div => f(Ask::Equal32(a, 0)) != 0,
                        _ => false,
                    },
                    Mode::Volume => false,
                };
                if stops {
                    0
                } else {
                    let b: u32 = right.eval_with(x, y, z, mode, pc, f);
                    binary(f, *combine, a, b)
                }
            },
            _ => 0,
        }
    }

    /// Evaluate a noise.
    fn eval_noise<F: Fn(Ask) -> u64>(&self, x: i32, y: i32, z: i32, mode: Mode, pc: &mut PointCache, f: &F) -> (r: u32)
        requires
            answers(*f),
            sound(*self),
            mode is Volume ==> direct(*self),
            old(pc).wf(),
            *self is Noise,
        ensures
            (r, final(pc)@) == evaluated(*f, *self, x, y, z, mode, old(pc)@),
            final(pc).wf(),
        decreases *self, 0nat, 0nat,
    {
        match self {
            Node::Noise { stack, xz_scale, y_scale, shift_x, shift_y, shift_z } => {
                if shift_x.is_none() && shift_y.is_none() && shift_z.is_none() {
                    match mode {
                        Mode::Volume => f(
                            Ask::StackBlock {
                                stack: *stack,
                                bx: x,
                                by: y,
                                bz: z,
                                xz_scale: *xz_scale,
                                y_scale: *y_scale,
                                amplitude: ONE_32,
                            },
                        ) as u32,
                        Mode::Point => noise_point(f, *stack, *xz_scale, *y_scale, x, y, z),
                    }
                } else {
                    let sx: u32 = match shift_x {
                        Some(s) => s.eval_with(x, y, z, mode, pc, f),
                        None => 0,
                    };
                    let sz: u32 = match shift_z {
                        Some(s) => s.eval_with(x, y, z, mode, pc, f),
                        None => 0,
                    };
                    let ny: u64 = match shift_y {
                        Some(s) => {
                            let v: u32 = s.eval_with(x, y, z, mode, pc, f);
                            shift_coordinate(f, y, *y_scale, v)
                        },
                        None => {
                            let v: u64 = f(Ask::FromInt64(y));
                            f(Ask::Mul64(v, *y_scale))
                        },
                    };
                    let nx: u64 = shift_coordinate(f, x, *xz_scale, sx);
                    let nz: u64 = shift_coordinate(f, z, *xz_scale, sz);
                    f(Ask::Stack { stack: *stack, x: nx, y: ny, z: nz }) as u32
                }
            },
            _ => 0,
        }
    }

    /// Evaluate a mix.
    fn eval_lerp<F: Fn(Ask) -> u64>(&self, x: i32, y: i32, z: i32, mode: Mode, pc: &mut PointCache, f: &F) -> (r: u32)
        requires
            answers(*f),
            sound(*self),
            mode is Volume ==> direct(*self),
            old(pc).wf(),
            *self is Lerp,
        ensures
            (r, final(pc)@) == evaluated(*f, *self, x, y, z, mode, old(pc)@),
            final(pc).wf(),
        decreases *self, 0nat, 0nat,
    {
        match self {
            Node::Lerp { alpha, first, second } => {
                let a: u32 = alpha.eval_with(x, y, z, mode, pc, f);
                if f(Ask::Equal32(a, 0)) != 0 {
                    first.eval_with(x, y, z, mode, pc, f)
                } else if f(Ask::Equal32(a, ONE_32)) != 0 {
                    second.eval_with(x, y, z, mode, pc, f)
                } else {
                    let u: u32 = first.eval_with(x, y, z, mode, pc, f);
                    let v: u32 = second.eval_with(x, y, z, mode, pc, f);
                    lerp32(f, a, u, v)
                }
            },
            _ => 0,
        }
    }

    /// Evaluate a choice by range.
    fn eval_range_choice<F: Fn(Ask) -> u64>(&self, x: i32, y: i32, z: i32, mode: Mode, pc: &mut PointCache, f: &F) -> (r: u32)
        requires
            answers(*f),
            sound(*self),
            mode is Volume ==> direct(*self),
            old(pc).wf(),
            *self is RangeChoice,
        ensures
            (r, final(pc)@) == evaluated(*f, *self, x, y, z, mode, old(pc)@),
            final(pc).wf(),
        decreases *self, 0nat, 0nat,
    {
        match self {
            Node::RangeChoice { choice, min_inclusive, max_exclusive, when_in_range, when_out_of_range } => {
                let v: u32 = choice.eval_with(x, y, z, mode, pc, f);
                if in_range(f, v, *min_inclusive, *max_exclusive) {
                    when_in_range.eval_with(x, y, z, mode, pc, f)
                } else {
                    when_out_of_range.eval_with(x, y, z, mode, pc, f)
                }
            },
            _ => 0,
        }
    }

    /// Evaluate a choice by intervals.
    fn eval_interval_select<F: Fn(Ask) -> u64>(&self, x: i32, y: i32, z: i32, mode: Mode, pc: &mut PointCache, f: &F) -> (r: u32)
        requires
            answers(*f),
            sound(*self),
            mode is Volume ==> direct(*self),
            old(pc).wf(),
            *self is IntervalSelect,
        ensures
            (r, final(pc)@) == evaluated(*f, *self, x, y, z, mode, old(pc)@),
            final(pc).wf(),
        decreases *self, 0nat, 0nat,
    {
        match self {
            Node::IntervalSelect { selector, thresholds, functions } => {
                let v: u32 = selector.eval_with(x, y, z, mode, pc, f);
                let i: usize = select(f, thresholds, v);
                proof {
                    assert(decreases_to!(*self => self->IntervalSelect_functions));
                    assert(decreases_to!(functions@ => functions@[i as int]));
                    assert(sound(*functions@[i as int]));
                }
                functions[i].eval_with(x, y, z, mode, pc, f)
            },
            _ => 0,
        }
    }

    /// Evaluate a cached input.
    fn eval_cache<F: Fn(Ask) -> u64>(&self, x: i32, y: i32, z: i32, mode: Mode, pc: &mut PointCache, f: &F) -> (r: u32)
        requires
            answers(*f),
            sound(*self),
            mode is Volume ==> direct(*self),
            old(pc).wf(),
            *self is Cache,
        ensures
            (r, final(pc)@) == evaluated(*f, *self, x, y, z, mode, old(pc)@),
            final(pc).wf(),
        decreases *self, 0nat, 0nat,
    {
        match self {
            Node::Cache { id, cached } => {
                if !pc.enabled {
                    return cached.eval_with(x, y, z, mode, pc, f);
                }
                if let Some(entry) = pc.entries.get(id) {
                    let (at, v): ((i32, i32, i32), u32) = *entry;
                    if at.0 == x && at.1 == y && at.2 == z && f(Ask::Nan32(v)) == 0 {
                        return v;
                    }
                }
                if let Some(v) = pc.volume_hit(*id, x, y, z) {
                    return v;
                }
                let v: u32 = cached.eval_with(x, y, z, mode, pc, f);
                pc.entries.insert(*id, ((x, y, z), v));
                v
            },
            _ => 0,
        }
    }

    /// Evaluate cell interpolation.
    fn eval_interpolated<F: Fn(Ask) -> u64>(&self, x: i32, y: i32, z: i32, mode: Mode, pc: &mut PointCache, f: &F) -> (r: u32)
        requires
            answers(*f),
            sound(*self),
            mode is Volume ==> direct(*self),
            old(pc).wf(),
            *self is Interpolated,
        ensures
            (r, final(pc)@) == evaluated(*f, *self, x, y, z, mode, old(pc)@),
            final(pc).wf(),
        decreases *self, 0nat, 0nat,
    {
        match self {
            Node::Interpolated { cell_size_xz, cell_size_y, corners } => {
                let (wide, tall): (i32, i32) = (*cell_size_xz, *cell_size_y);
                if floor_mod(x, wide) == 0 && floor_mod(y, tall) == 0 && floor_mod(z, wide) == 0 {
                    return corners.eval_with(x, y, z, Mode::Point, pc, f);
                }
                let vol: Volume = cell_volume(x, y, z, wide, tall);
                let mut ctx = SampleCtx::default();
                let b: Vec<u32> = corners.sample_volume_ctx(
                    &vol, &mut ctx, f, Ghost((2int, 2int, 2int)));
                mix_cell(f, &b, x, y, z, wide, tall)
            },
            _ => 0,
        }
    }

    /// Evaluate a slice.
    fn eval_slice<F: Fn(Ask) -> u64>(&self, x: i32, y: i32, z: i32, mode: Mode, pc: &mut PointCache, f: &F) -> (r: u32)
        requires
            answers(*f),
            sound(*self),
            mode is Volume ==> direct(*self),
            old(pc).wf(),
            *self is Slice,
        ensures
            (r, final(pc)@) == evaluated(*f, *self, x, y, z, mode, old(pc)@),
            final(pc).wf(),
        decreases *self, 0nat, 0nat,
    {
        match self {
            Node::Slice { along, coordinate, whole } => match along {
                Axis::X => whole.eval_with(*coordinate, y, z, mode, pc, f),
                Axis::Y => whole.eval_with(x, *coordinate, z, mode, pc, f),
                Axis::Z => whole.eval_with(x, y, *coordinate, mode, pc, f),
            },
            _ => 0,
        }
    }

    /// Evaluate an operation on one value.
    fn eval_unary<F: Fn(Ask) -> u64>(&self, x: i32, y: i32, z: i32, mode: Mode, pc: &mut PointCache, f: &F) -> (r: u32)
        requires
            answers(*f),
            sound(*self),
            mode is Volume ==> direct(*self),
            old(pc).wf(),
            *self is Unary,
        ensures
            (r, final(pc)@) == evaluated(*f, *self, x, y, z, mode, old(pc)@),
            final(pc).wf(),
        decreases *self, 0nat, 0nat,
    {
        match self {
            Node::Unary { op, input } => {
                let v: u32 = input.eval_with(x, y, z, mode, pc, f);
                unary(f, *op, v)
            },
            _ => 0,
        }
    }

    /// Evaluate a search for a surface.
    fn eval_surface<F: Fn(Ask) -> u64>(&self, x: i32, y: i32, z: i32, mode: Mode, pc: &mut PointCache, f: &F) -> (r: u32)
        requires
            answers(*f),
            sound(*self),
            mode is Volume ==> direct(*self),
            old(pc).wf(),
            *self is FindTopSurface,
        ensures
            (r, final(pc)@) == evaluated(*f, *self, x, y, z, mode, old(pc)@),
            final(pc).wf(),
        decreases *self, 0nat, 0nat,
    {
        match self {
            Node::FindTopSurface { density, upper_bound, lower_bound, cell_height } => {
                let upper: u32 = upper_bound.eval_with(x, 0, z, mode, pc, f);
                density.find_surface_from(x, z, upper, *lower_bound, *cell_height, pc, f)
            },
            _ => 0,
        }
    }

    /// Evaluate a spline.
    fn eval_spline<F: Fn(Ask) -> u64>(&self, x: i32, y: i32, z: i32, mode: Mode, pc: &mut PointCache, f: &F) -> (r: u32)
        requires
            answers(*f),
            sound(*self),
            mode is Volume ==> direct(*self),
            old(pc).wf(),
            *self is Spline,
        ensures
            (r, final(pc)@) == evaluated(*f, *self, x, y, z, mode, old(pc)@),
            final(pc).wf(),
        decreases *self, 0nat, 0nat,
    {
        match self {
            Node::Spline(sp) => sp.sample(x, y, z, mode, pc, f),
            _ => 0,
        }
    }

    /// Evaluate a blended density.
    fn eval_blend<F: Fn(Ask) -> u64>(&self, x: i32, y: i32, z: i32, mode: Mode, pc: &mut PointCache, f: &F) -> (r: u32)
        requires
            answers(*f),
            sound(*self),
            mode is Volume ==> direct(*self),
            old(pc).wf(),
            *self is BlendDensity,
        ensures
            (r, final(pc)@) == evaluated(*f, *self, x, y, z, mode, old(pc)@),
            final(pc).wf(),
        decreases *self, 0nat, 0nat,
    {
        match self {
            Node::BlendDensity(i) => i.eval_with(x, y, z, mode, pc, f),
            _ => 0,
        }
    }

    /// Evaluate a node without inputs.
    pub(crate) fn eval_leaf<F: Fn(Ask) -> u64>(&self, x: i32, y: i32, z: i32, mode: Mode, f: &F) -> (r: u32)
        requires
            answers(*f),
            sound(*self),
            is_leaf(*self),
        ensures
            forall|p: Points| #[trigger] evaluated(*f, *self, x, y, z, mode, p) == (r, p),
    {
        match self {
            Node::Constant(c) => *c,
            Node::ShiftB(stack) => shift_b_value(f, *stack, mode, x, z),
            Node::Gradient { axis, tiling, from_coordinate, to_coordinate, from_value, factor } => {
                let c: i32 = choose_axis(*axis, x, y, z);
                gradient(f, *tiling, *from_coordinate, *to_coordinate, *from_value, *factor, c)
            },
            Node::BlendAlpha => ONE_32,
            Node::BlendOffset => 0,
            Node::Beardifier => 0,
            Node::DistanceToPoint { metric, x: px, y: py, z: pz } => distance_to(f, *metric, *px, *py, *pz, x, y, z),
            _ => 0,
        }
    }

    /// The surface below a bound: this density probed downwards by whole
    /// cells.
    pub fn find_surface_from<F: Fn(Ask) -> u64>(
        &self, x: i32, z: i32, upper: u32, lower_bound: i32, cell_height: i32, pc: &mut PointCache, f: &F,
    ) -> (r: u32)
        requires
            answers(*f),
            sound(*self),
            cell_height > 0,
            old(pc).wf(),
        ensures
            (r, final(pc)@) == surface_at(*f, *self, x, z, upper, lower_bound, cell_height, old(pc)@),
            final(pc).wf(),
        decreases *self, 2nat, 0nat,
    {
        let h: u32 = f(Ask::FromInt32(cell_height)) as u32;
        let q: u32 = f(Ask::Div32(upper, h)) as u32;
        let w: u64 = f(Ask::Widen(q));
        let w: u64 = f(Ask::Floor64(w));
        let cells: i32 = f(Ask::ToInt64(w)) as i32;
        proof {
            assert(-0x4000_0000_0000_0000 <= cells * cell_height <= 0x4000_0000_0000_0000) by (nonlinear_arith)
                requires
                    -0x8000_0000 <= cells <= 0x7fff_ffff,
                    -0x8000_0000 <= cell_height <= 0x7fff_ffff,
            ;
        }
        let top: i32 = wrap(cells as i128 * cell_height as i128);
        if top <= lower_bound {
            return f(Ask::FromInt32(lower_bound)) as u32;
        }
        let mut probe: i64 = top as i64;
        let ghost whole = probed(*f, *self, x, z, top as int, lower_bound, cell_height, pc@);
        while probe >= lower_bound as i64
            invariant
                answers(*f),
                sound(*self),
                cell_height > 0,
                pc.wf(),
                probe <= top,
                probe >= lower_bound - cell_height,
                whole == probed(*f, *self, x, z, probe as int, lower_bound, cell_height, pc@),
                whole == surface_at(*f, *self, x, z, upper, lower_bound, cell_height, old(pc)@),
            decreases probe - lower_bound + cell_height,
        {
            let v: u32 = self.eval_with(x, probe as i32, z, Mode::Point, pc, f);
            if f(Ask::Less32(0, v)) != 0 {
                return f(Ask::FromInt32(probe as i32)) as u32;
            }
            probe = probe - cell_height as i64;
        }
        f(Ask::FromInt32(lower_bound)) as u32
    }
}

impl Spline {
    /// The spline at a block position.
    pub fn sample<F: Fn(Ask) -> u64>(&self, x: i32, y: i32, z: i32, mode: Mode, pc: &mut PointCache, f: &F) -> (r: u32)
        requires
            answers(*f),
            sound_spline(*self),
            mode is Volume ==> direct_spline(*self),
            old(pc).wf(),
        ensures
            (r, final(pc)@) == spline_evaluated(*f, *self, x, y, z, mode, old(pc)@),
            final(pc).wf(),
        decreases *self, 0nat, 0nat,
    {
        match self {
            Spline::Constant(c) => *c,
            Spline::Multipoint { key: _, coordinate, locations, values, derivatives } => {
                let input: u32 = coordinate.eval_with(x, y, z, mode, pc, f);
                let k: usize = interval(f, locations, input);
                let last: usize = locations.len() - 1;
                proof {
                    assert(decreases_to!(*self => self->Multipoint_values));
                }
                if k == 0 {
                    proof {
                        assert(decreases_to!(values@ => values@[0]));
                        assert(sound_spline(values@[0]));
                    }
                    let v: u32 = values[0].sample(x, y, z, mode, pc, f);
                    return linear_extend(f, input, locations[0], v, derivatives[0]);
                }
                if k > last {
                    proof {
                        assert(decreases_to!(values@ => values@[last as int]));
                        assert(sound_spline(values@[last as int]));
                    }
                    let v: u32 = values[last].sample(x, y, z, mode, pc, f);
                    return linear_extend(f, input, locations[last], v, derivatives[last]);
                }
                proof {
                    assert(decreases_to!(values@ => values@[k - 1]));
                    assert(decreases_to!(values@ => values@[k as int]));
                    assert(sound_spline(values@[k - 1]));
                    assert(sound_spline(values@[k as int]));
                }
                let a: u32 = values[k - 1].sample(x, y, z, mode, pc, f);
                let b: u32 = values[k].sample(x, y, z, mode, pc, f);
                hermite(f, input, locations[k - 1], locations[k], a, b, derivatives[k - 1], derivatives[k])
            },
        }
    }
}

} // verus!
