//! Carving the blocks of a surfaced chunk: the runs of a mask are hollowed
//! out or flooded, and the dirt below carved grass gets a top again.

use vstd::prelude::*;
use crate::aquifer26::{metered, substance_at, Aquifer, Substance, Waters};
use crate::arith::{answers, Ask, ZERO};
use crate::carvers26::{column_runs, lemma_run_end, mask_runs, plain_runs, run_end, CarverStage, CarvingMask, Cells};
use crate::lod26::ChunkBlocks;
use crate::volume::Volume;

verus! {

/// One change to a chunk's blocks. Whoever keeps the chunk's heights and its
/// list of blocks to revisit performs them in order.
#[derive(Clone, Copy, Debug, PartialEq, Eq, Structural)]
pub enum Edit {
    /// A carved block becomes air or a fluid; it is not revisited for that.
    Carve { x: usize, y: i32, z: usize, id: u16 },
    /// A fluid that has to be updated later.
    Mark { x: usize, y: i32, z: usize },
    /// Dirt gets a top block.
    Top { x: usize, y: i32, z: usize, id: u16 },
}

/// What one pass did.
#[derive(Clone, Copy, Debug, PartialEq, Eq, Structural)]
pub struct CarveStats {
    pub aquifer_calls: u64,
    pub carved: u64,
    pub top_material_calls: u64,
}

/// The palette, as far as carving goes.
#[derive(Debug)]
pub struct CarvePalette {
    pub air: u16,
    pub water: u16,
    pub lava: u16,
    /// By palette id: whether a block is a fluid.
    pub fluid: Vec<bool>,
}

impl CarvePalette {
    pub open spec fn wf(&self) -> bool {
        &&& self.air < self.fluid@.len()
        &&& self.water < self.fluid@.len()
        &&& self.lava < self.fluid@.len()
    }

    pub open spec fn id_of(&self, s: Substance) -> u16 {
        match s {
            Substance::Air => self.air,
            Substance::Water => self.water,
            Substance::Lava => self.lava,
        }
    }
}

/// A surface names a top for a block of a chunk that some edits were made
/// to: x, y, z, and whether a fluid lies on it.
pub open spec fn names_top<T: Fn(&Vec<Edit>, usize, i32, usize, bool) -> Option<u16>>(
    t: T, edits: Seq<Edit>, x: usize, y: i32, z: usize, fluid: bool, r: Option<u16>,
) -> bool {
    exists|v: Vec<Edit>| v@ == edits && #[trigger] call_ensures(t, (&v, x, y, z, fluid), r)
}

/// The top that a surface gives to a block, if it gives one.
pub open spec fn top_of<T: Fn(&Vec<Edit>, usize, i32, usize, bool) -> Option<u16>>(
    t: T, edits: Seq<Edit>, x: usize, y: i32, z: usize, fluid: bool,
) -> Option<u16> {
    choose|r: Option<u16>| names_top(t, edits, x, y, z, fluid, r)
}

/// A surface answers for every block, always alike, and out of a palette of
/// `n` ids.
pub open spec fn surfaces<T: Fn(&Vec<Edit>, usize, i32, usize, bool) -> Option<u16>>(t: T, n: int) -> bool {
    &&& forall|v: Vec<Edit>, x: usize, y: i32, z: usize, fluid: bool| #[trigger] call_requires(t, (&v, x, y, z, fluid))
    &&& forall|v: Vec<Edit>, x: usize, y: i32, z: usize, fluid: bool, r: Option<u16>| #[trigger]
        call_ensures(t, (&v, x, y, z, fluid), r) ==> {
            &&& r == top_of(t, v@, x, y, z, fluid)
            &&& r matches Some(id) ==> id < n
        }
}

/// What a pass goes by and does not change.
pub ghost struct Ground {
    pub uncarvable: Seq<bool>,
    pub grass: Seq<bool>,
    pub dirt: Seq<bool>,
    pub palette: CarvePalette,
    pub vol: Volume,
    pub waters: Waters,
}

/// What a pass changes.
pub ghost struct Carving {
    pub ids: Seq<u16>,
    pub edits: Seq<Edit>,
    pub aquifer_calls: int,
    pub carved: int,
    pub top_material_calls: int,
    /// The aquifer's meters.
    pub meters: (usize, usize, usize),
    /// Whether the last fluid that the aquifer was asked for has to be
    /// updated.
    pub scheduled: bool,
    /// Grass was met in this run.
    pub grass: bool,
}

impl Ground {
    /// The place of a block of the chunk in its buffer.
    pub open spec fn place(self, x: int, y: int, z: int) -> int {
        self.vol.place(x, y - self.vol.min@[1], z)
    }

    /// After a block became a substance.
    pub open spec fn hollowed(self, x: usize, y: i32, z: usize, s: Substance, c: Carving) -> Carving {
        let id = self.palette.id_of(s);
        let edits = c.edits.push(Edit::Carve { x, y, z, id });
        Carving {
            ids: c.ids.update(self.place(x as int, y as int, z as int), id),
            edits: if c.scheduled && self.palette.fluid@[id as int] { edits.push(Edit::Mark { x, y, z }) } else { edits },
            carved: c.carved + 1,
            ..c
        }
    }

    /// After the block below a carved one was seen to.
    pub open spec fn topped<T: Fn(&Vec<Edit>, usize, i32, usize, bool) -> Option<u16>>(
        self, t: T, x: usize, y: i32, z: usize, fluid: bool, c: Carving,
    ) -> Carving {
        let at = self.place(x as int, y as int, z as int);
        if c.grass && self.dirt[c.ids[at] as int] {
            let d = Carving { top_material_calls: c.top_material_calls + 1, ..c };
            match top_of(t, c.edits, x, y, z, fluid) {
                Some(id) => Carving { ids: c.ids.update(at, id), edits: c.edits.push(Edit::Top { x, y, z, id }), ..d },
                None => d,
            }
        } else {
            c
        }
    }

    /// After one block of a run.
    pub open spec fn block<F: Fn(Ask) -> u64, T: Fn(&Vec<Edit>, usize, i32, usize, bool) -> Option<u16>>(
        self, f: F, t: T, x: usize, y: i32, z: usize, c: Carving,
    ) -> Carving {
        let old = c.ids[self.place(x as int, y as int, z as int)] as int;
        if self.uncarvable[old] {
            c
        } else {
            let (wx, wz) = ((self.vol.min@[0] + x) as i32, (self.vol.min@[2] + z) as i32);
            let (s, scheduled) = substance_at(f, self.waters, wx, y, wz, ZERO);
            let d = Carving {
                grass: c.grass || self.grass[old],
                aquifer_calls: c.aquifer_calls + 1,
                meters: metered(f, self.waters, wx, y, wz, ZERO, c.meters),
                scheduled,
                ..c
            };
            match s {
                None => d,
                Some(s) => self.topped(
                    t, x, (y - 1) as i32, z, self.palette.fluid@[self.palette.id_of(s) as int], self.hollowed(x, y, z, s, d)),
            }
        }
    }

    /// After the rest of a run, from `y` down to its bottom.
    pub open spec fn run<F: Fn(Ask) -> u64, T: Fn(&Vec<Edit>, usize, i32, usize, bool) -> Option<u16>>(
        self, f: F, t: T, x: int, z: int, bottom: int, y: int, c: Carving,
    ) -> Carving
        decreases y - bottom + 1,
    {
        if y < bottom {
            c
        } else {
            self.run(f, t, x, z, bottom, y - 1, self.block(f, t, x as usize, y as i32, z as usize, c))
        }
    }

    /// After the first `n` of some runs: each is walked from its top, and
    /// starts with no grass met.
    pub open spec fn runs<F: Fn(Ask) -> u64, T: Fn(&Vec<Edit>, usize, i32, usize, bool) -> Option<u16>>(
        self, f: F, t: T, runs: Seq<(int, int, int, int)>, n: nat, c: Carving,
    ) -> Carving
        decreases n,
    {
        if n == 0 {
            c
        } else {
            let (x, z, bottom, top) = runs[n - 1];
            let before = self.runs(f, t, runs, (n - 1) as nat, c);
            self.run(f, t, x, z, bottom, top, Carving { grass: false, ..before })
        }
    }

    /// Every table holds an entry for every palette id.
    pub open spec fn wf(self) -> bool {
        let n = self.palette.fluid@.len();
        &&& self.palette.wf()
        &&& self.uncarvable.len() == n && self.grass.len() == n && self.dirt.len() == n
    }
}

/// How many blocks some runs hold.
spec fn total(runs: Seq<(int, int, int, int)>, n: nat) -> int
    decreases n,
{
    if n == 0 { 0 } else { total(runs, (n - 1) as nat) + (runs[n - 1].3 - runs[n - 1].2 + 1) }
}

/// A run lies in a chunk, between two heights.
spec fn run_fits(r: (int, int, int, int), bottom: int, top: int) -> bool {
    0 <= r.0 < 16 && 0 <= r.1 < 16 && bottom <= r.2 <= r.3 <= top
}

proof fn lemma_total_joined(a: Seq<(int, int, int, int)>, b: Seq<(int, int, int, int)>, n: nat)
    requires
        n <= b.len(),
    ensures
        total(a + b, a.len() + n) == total(a, a.len()) + total(b, n),
    decreases n,
{
    if n > 0 {
        lemma_total_joined(a, b, (n - 1) as nat);
        assert((a + b)[a.len() + n - 1] == b[n - 1]);
        assert((a.len() + n - 1) as nat == a.len() + (n - 1) as nat);
    } else {
        lemma_total_kept(a, b, a.len());
    }
}

proof fn lemma_total_kept(a: Seq<(int, int, int, int)>, b: Seq<(int, int, int, int)>, n: nat)
    requires
        n <= a.len(),
    ensures
        total(a + b, n) == total(a, n),
    decreases n,
{
    if n > 0 {
        lemma_total_kept(a, b, (n - 1) as nat);
        assert((a + b)[n - 1] == a[n - 1]);
    }
}

proof fn lemma_column_fits(m: Cells, x: int, z: int, y: int, bottom: int, top: int)
    requires
        0 <= x < 16,
        0 <= z < 16,
        bottom <= y <= top + 1,
    ensures
        forall|i: int|
            0 <= i < column_runs(m, x, z, y, top).len() ==> run_fits(#[trigger] column_runs(m, x, z, y, top)[i], bottom, top),
        total(column_runs(m, x, z, y, top), column_runs(m, x, z, y, top).len()) <= top - y + 1,
    decreases top - y + 1,
{
    let runs = column_runs(m, x, z, y, top);
    if y <= top {
        if !m.contains((x, y, z)) {
            lemma_column_fits(m, x, z, y + 1, bottom, top);
        } else {
            lemma_run_end(m, x, z, y, top);
            let e = run_end(m, x, z, y, top);
            let one = seq![(x, z, y, e)];
            let rest = column_runs(m, x, z, e + 1, top);
            lemma_column_fits(m, x, z, e + 1, bottom, top);
            assert(runs == one + rest);
            lemma_total_joined(one, rest, rest.len());
            assert(total(one, 1) == total(one, 0) + (one[0].3 - one[0].2 + 1));
            assert forall|i: int| 0 <= i < runs.len() implies run_fits(#[trigger] runs[i], bottom, top) by {
                if i > 0 {
                    assert(runs[i] == rest[i - 1]);
                }
            }
        }
    }
}

proof fn lemma_mask_fits(m: Cells, bottom: int, top: int, n: nat)
    requires
        n <= 256,
        bottom <= top + 1,
    ensures
        forall|i: int|
            0 <= i < mask_runs(m, bottom, top, n).len() ==> run_fits(#[trigger] mask_runs(m, bottom, top, n)[i], bottom, top),
        total(mask_runs(m, bottom, top, n), mask_runs(m, bottom, top, n).len()) <= n * (top - bottom + 1),
    decreases n,
{
    if n > 0 {
        lemma_mask_fits(m, bottom, top, (n - 1) as nat);
        let a = mask_runs(m, bottom, top, (n - 1) as nat);
        let b = column_runs(m, (n - 1) / 16, (n - 1) % 16, bottom, top);
        lemma_column_fits(m, (n - 1) / 16, (n - 1) % 16, bottom, bottom, top);
        lemma_total_joined(a, b, b.len());
        let runs = mask_runs(m, bottom, top, n);
        assert(runs == a + b);
        assert((n - 1) * (top - bottom + 1) + (top - bottom + 1) == n * (top - bottom + 1)) by (nonlinear_arith);
        assert forall|i: int| 0 <= i < runs.len() implies run_fits(#[trigger] runs[i], bottom, top) by {
            if i < a.len() {
                assert(runs[i] == a[i]);
            } else {
                assert(runs[i] == b[i - a.len()]);
            }
        }
    }
}

proof fn lemma_total_below(runs: Seq<(int, int, int, int)>, bottom: int, top: int, n: nat)
    requires
        n <= runs.len(),
        forall|i: int| 0 <= i < runs.len() ==> run_fits(#[trigger] runs[i], bottom, top),
    ensures
        0 <= total(runs, n) <= total(runs, runs.len()),
    decreases runs.len() - n,
{
    if n < runs.len() {
        lemma_total_below(runs, bottom, top, n + 1);
        assert(run_fits(runs[n as int], bottom, top));
        lemma_total_counts(runs, bottom, top, n);
    } else {
        lemma_total_counts(runs, bottom, top, n);
    }
}

proof fn lemma_total_counts(runs: Seq<(int, int, int, int)>, bottom: int, top: int, n: nat)
    requires
        n <= runs.len(),
        forall|i: int| 0 <= i < runs.len() ==> run_fits(#[trigger] runs[i], bottom, top),
    ensures
        0 <= total(runs, n),
    decreases n,
{
    if n > 0 {
        lemma_total_counts(runs, bottom, top, (n - 1) as nat);
        assert(run_fits(runs[n - 1], bottom, top));
    }
}

/// Every id is one of a palette of `n`.
pub open spec fn in_palette(ids: Seq<u16>, n: int) -> bool {
    forall|i: int| 0 <= i < ids.len() ==> #[trigger] ids[i] < n
}

/// The state of a pass.
pub open spec fn carving(chunk: ChunkBlocks, aquifer: Aquifer, stats: CarveStats, edits: Seq<Edit>, grass: bool) -> Carving {
    Carving {
        ids: chunk.ids@,
        edits,
        aquifer_calls: stats.aquifer_calls as int,
        carved: stats.carved as int,
        top_material_calls: stats.top_material_calls as int,
        meters: aquifer.meters(),
        scheduled: aquifer.scheduled(),
        grass,
    }
}

impl CarverStage {
    /// What a pass of this stage goes by.
    pub open spec fn ground(&self, palette: CarvePalette, vol: Volume, waters: Waters) -> Ground {
        Ground { uncarvable: self.uncarvable@, grass: self.grass@, dirt: self.dirt@, palette, vol, waters }
    }

    /// Carve a surfaced chunk by a mask: every run from its top down. A
    /// block of the mask that may be carved becomes what the aquifer says of
    /// it, and stays where that is nothing. Once grass was met in a run, the
    /// dirt below a carved block gets the top that the surface names.
    ///
    /// The chunk's ids are changed. Its heights are not: the edits that are
    /// returned, in order, say what happened.
    pub fn apply<F: Fn(Ask) -> u64, T: Fn(&Vec<Edit>, usize, i32, usize, bool) -> Option<u16>>(
        &self, chunk: &mut ChunkBlocks, palette: &CarvePalette, mask: &CarvingMask, aquifer: &mut Aquifer, top: &T, f: &F,
    ) -> (r: (CarveStats, Vec<Edit>))
        requires
            answers(*f),
            old(aquifer).wf(*f),
            mask.wf(),
            old(chunk).wf(),
            old(chunk).vol.min@[1] < mask.bottom() <= mask.top() + 1,
            mask.top() < old(chunk).vol.min@[1] + old(chunk).vol.size@[1],
            self.ground(*palette, old(chunk).vol, old(aquifer).waters()).wf(),
            in_palette(old(chunk).ids@, palette.fluid@.len() as int),
            surfaces(*top, palette.fluid@.len() as int),
        ensures
            final(chunk).wf(),
            final(chunk).vol == old(chunk).vol,
            final(chunk).surface_height == old(chunk).surface_height,
            in_palette(final(chunk).ids@, palette.fluid@.len() as int),
            final(aquifer).wf(*f),
            final(aquifer).waters() == old(aquifer).waters(),
            old(aquifer).remembered().subset_of(final(aquifer).remembered()),
            ({
                let runs = mask_runs(mask@, mask.bottom(), mask.top(), 256);
                let none = CarveStats { aquifer_calls: 0, carved: 0, top_material_calls: 0 };
                let end = self.ground(*palette, old(chunk).vol, old(aquifer).waters()).runs(
                    *f, *top, runs, runs.len(), carving(*old(chunk), *old(aquifer), none, Seq::empty(), false));
                carving(*final(chunk), *final(aquifer), r.0, r.1@, end.grass) == end
            }),
    {
        let mut stats = CarveStats { aquifer_calls: 0, carved: 0, top_material_calls: 0 };
        let mut edits: Vec<Edit> = Vec::new();
        let runs: Vec<(usize, usize, i32, i32)> = mask.runs();
        let ghost g = self.ground(*palette, chunk.vol, aquifer.waters());
        let ghost start = carving(*chunk, *aquifer, stats, Seq::empty(), false);
        let ghost plain = mask_runs(mask@, mask.bottom(), mask.top(), 256);
        let ghost (lo, hi) = (mask.bottom(), mask.top());
        let ghost (known, heights) = (aquifer.remembered(), chunk.surface_height);
        let ghost mut grassy = false;
        proof {
            assert(edits@ =~= Seq::empty());
            lemma_mask_fits(mask@, lo, hi, 256);
            assert(256 * (hi - lo + 1) <= chunk.vol.count()) by {
                let rows = chunk.vol.size@[1] as int;
                assert(16 * rows * 16 == 256 * rows);
            }
        }
        let mut k: usize = 0;
        while k < runs.len()
            invariant
                k <= runs@.len(),
                answers(*f),
                surfaces(*top, palette.fluid@.len() as int),
                plain_runs(runs@) == plain,
                plain.len() == runs@.len(),
                forall|i: int| 0 <= i < plain.len() ==> run_fits(#[trigger] plain[i], lo, hi),
                total(plain, plain.len()) <= usize::MAX,
                g == self.ground(*palette, chunk.vol, aquifer.waters()),
                g.wf(),
                chunk.wf(),
                chunk.surface_height == heights,
                chunk.vol.min@[1] < lo,
                hi < chunk.vol.min@[1] + chunk.vol.size@[1],
                in_palette(chunk.ids@, palette.fluid@.len() as int),
                aquifer.wf(*f),
                known.subset_of(aquifer.remembered()),
                stats.carved <= stats.aquifer_calls && stats.top_material_calls <= stats.aquifer_calls,
                stats.aquifer_calls <= total(plain, k as nat),
                carving(*chunk, *aquifer, stats, edits@, grassy) == g.runs(*f, *top, plain, k as nat, start),
            decreases runs.len() - k,
        {
            let (x, z, bottom, high): (usize, usize, i32, i32) = runs[k];
            let mut grass = false;
            let mut y: i32 = high;
            proof {
                assert(plain[k as int] == (x as int, z as int, bottom as int, high as int));
                assert(run_fits(plain[k as int], lo, hi));
                lemma_total_below(plain, lo, hi, (k + 1) as nat);
            }
            let ghost before = carving(*chunk, *aquifer, stats, edits@, false);
            while y >= bottom
                invariant
                    k < runs@.len(),
                    answers(*f),
                    surfaces(*top, palette.fluid@.len() as int),
                    x < 16 && z < 16,
                    lo <= bottom <= high <= hi,
                    bottom - 1 <= y <= high,
                    g == self.ground(*palette, chunk.vol, aquifer.waters()),
                    g.wf(),
                    chunk.wf(),
                    chunk.surface_height == heights,
                    chunk.vol.min@[1] < lo,
                    hi < chunk.vol.min@[1] + chunk.vol.size@[1],
                    in_palette(chunk.ids@, palette.fluid@.len() as int),
                    aquifer.wf(*f),
                    known.subset_of(aquifer.remembered()),
                    stats.carved <= stats.aquifer_calls && stats.top_material_calls <= stats.aquifer_calls,
                    total(plain, (k + 1) as nat) == total(plain, k as nat) + (high - bottom + 1),
                    total(plain, (k + 1) as nat) <= usize::MAX,
                    stats.aquifer_calls <= total(plain, k as nat) + (high - y),
                    g.run(*f, *top, x as int, z as int, bottom as int, high as int, before) == g.run(
                        *f, *top, x as int, z as int, bottom as int, y as int, carving(*chunk, *aquifer, stats, edits@, grass)),
                decreases y - bottom + 1,
            {
                self.carve_block(chunk, palette, aquifer, x, y, z, &mut grass, &mut stats, &mut edits, top, f);
                y -= 1;
            }
            proof { grassy = grass; }
            k += 1;
        }
        (stats, edits)
    }

    /// One block of a run.
    fn carve_block<F: Fn(Ask) -> u64, T: Fn(&Vec<Edit>, usize, i32, usize, bool) -> Option<u16>>(
        &self, chunk: &mut ChunkBlocks, palette: &CarvePalette, aquifer: &mut Aquifer, x: usize, y: i32, z: usize,
        grass: &mut bool, stats: &mut CarveStats, edits: &mut Vec<Edit>, top: &T, f: &F,
    )
        requires
            answers(*f),
            old(aquifer).wf(*f),
            old(chunk).wf(),
            x < 16,
            z < 16,
            old(chunk).vol.min@[1] < y < old(chunk).vol.min@[1] + old(chunk).vol.size@[1],
            self.ground(*palette, old(chunk).vol, old(aquifer).waters()).wf(),
            in_palette(old(chunk).ids@, palette.fluid@.len() as int),
            surfaces(*top, palette.fluid@.len() as int),
            old(stats).carved <= old(stats).aquifer_calls,
            old(stats).top_material_calls <= old(stats).aquifer_calls,
            old(stats).aquifer_calls < u64::MAX,
        ensures
            final(chunk).wf(),
            final(chunk).vol == old(chunk).vol,
            final(chunk).surface_height == old(chunk).surface_height,
            in_palette(final(chunk).ids@, palette.fluid@.len() as int),
            final(aquifer).wf(*f),
            final(aquifer).waters() == old(aquifer).waters(),
            old(aquifer).remembered().subset_of(final(aquifer).remembered()),
            final(stats).carved <= final(stats).aquifer_calls,
            final(stats).top_material_calls <= final(stats).aquifer_calls,
            final(stats).aquifer_calls <= old(stats).aquifer_calls + 1,
            carving(*final(chunk), *final(aquifer), *final(stats), final(edits)@, *final(grass)) == self.ground(
                *palette, old(chunk).vol, old(aquifer).waters()).block(
                *f, *top, x, y, z, carving(*old(chunk), *old(aquifer), *old(stats), old(edits)@, *old(grass))),
    {
        let ghost g = self.ground(*palette, chunk.vol, aquifer.waters());
        let here: usize = chunk.vol.index(x, (y as i64 - chunk.vol.min[1] as i64) as usize, z);
        let old_id: usize = chunk.ids[here] as usize;
        proof { assert(here == g.place(x as int, y as int, z as int)); }
        if self.uncarvable[old_id] {
            return;
        }
        if self.grass[old_id] {
            *grass = true;
        }
        let (wx, wz): (i32, i32) = (chunk.vol.min[0] + x as i32, chunk.vol.min[2] + z as i32);
        stats.aquifer_calls = stats.aquifer_calls + 1;
        match aquifer.compute_substance(wx, y, wz, ZERO, f) {
            None => {},
            Some(s) => {
                let id: u16 = match s {
                    Substance::Air => palette.air,
                    Substance::Water => palette.water,
                    Substance::Lava => palette.lava,
                };
                let fluid: bool = palette.fluid[id as usize];
                stats.carved = stats.carved + 1;
                chunk.ids.set(here, id);
                edits.push(Edit::Carve { x, y, z, id });
                if aquifer.update_scheduled() && fluid {
                    edits.push(Edit::Mark { x, y, z });
                }
                let below: usize = chunk.vol.index(x, (y as i64 - 1 - chunk.vol.min[1] as i64) as usize, z);
                proof { assert(below == g.place(x as int, y - 1, z as int)); }
                if *grass && self.dirt[chunk.ids[below] as usize] {
                    stats.top_material_calls = stats.top_material_calls + 1;
                    if let Some(id) = top(edits, x, y - 1, z, fluid) {
                        chunk.ids.set(below, id);
                        edits.push(Edit::Top { x, y: y - 1, z, id });
                    }
                }
            },
        }
    }
}

/// A chunk that a run from `bottom` to `top` fits, and the block below it.
pub open spec fn holds_runs(vol: Volume, bottom: int, top: int) -> bool {
    &&& vol.fits()
    &&& vol.size@[0] == 16 && vol.size@[2] == 16
    &&& vol.min@[1] < bottom && top < vol.min@[1] + vol.size@[1] && top <= i32::MAX
}

proof fn lemma_block_keeps<F: Fn(Ask) -> u64, T: Fn(&Vec<Edit>, usize, i32, usize, bool) -> Option<u16>>(
    g: Ground, f: F, t: T, x: usize, y: i32, z: usize, c: Carving, p: int,
)
    requires
        holds_runs(g.vol, y as int, y as int),
        x < 16,
        z < 16,
        c.ids.len() == g.vol.count(),
        0 <= p < c.ids.len(),
        g.uncarvable[c.ids[p] as int],
        !g.dirt[c.ids[p] as int],
    ensures
        g.block(f, t, x, y, z, c).ids.len() == c.ids.len(),
        g.block(f, t, x, y, z, c).ids[p] == c.ids[p],
{
    g.vol.lemma_place(x as int, y - g.vol.min@[1], z as int);
    g.vol.lemma_place(x as int, y - 1 - g.vol.min@[1], z as int);
}

proof fn lemma_run_keeps<F: Fn(Ask) -> u64, T: Fn(&Vec<Edit>, usize, i32, usize, bool) -> Option<u16>>(
    g: Ground, f: F, t: T, x: int, z: int, bottom: int, y: int, c: Carving, p: int,
)
    requires
        holds_runs(g.vol, bottom, y),
        0 <= x < 16,
        0 <= z < 16,
        c.ids.len() == g.vol.count(),
        0 <= p < c.ids.len(),
        g.uncarvable[c.ids[p] as int],
        !g.dirt[c.ids[p] as int],
    ensures
        g.run(f, t, x, z, bottom, y, c).ids.len() == c.ids.len(),
        g.run(f, t, x, z, bottom, y, c).ids[p] == c.ids[p],
    decreases y - bottom + 1,
{
    if y >= bottom {
        lemma_block_keeps(g, f, t, x as usize, y as i32, z as usize, c, p);
        lemma_run_keeps(g, f, t, x, z, bottom, y - 1, g.block(f, t, x as usize, y as i32, z as usize, c), p);
    }
}

proof fn lemma_runs_keep<F: Fn(Ask) -> u64, T: Fn(&Vec<Edit>, usize, i32, usize, bool) -> Option<u16>>(
    g: Ground, f: F, t: T, runs: Seq<(int, int, int, int)>, bottom: int, top: int, n: nat, c: Carving, p: int,
)
    requires
        holds_runs(g.vol, bottom, top),
        n <= runs.len(),
        forall|i: int| 0 <= i < runs.len() ==> run_fits(#[trigger] runs[i], bottom, top),
        c.ids.len() == g.vol.count(),
        0 <= p < c.ids.len(),
        g.uncarvable[c.ids[p] as int],
        !g.dirt[c.ids[p] as int],
    ensures
        g.runs(f, t, runs, n, c).ids.len() == c.ids.len(),
        g.runs(f, t, runs, n, c).ids[p] == c.ids[p],
    decreases n,
{
    if n > 0 {
        lemma_runs_keep(g, f, t, runs, bottom, top, (n - 1) as nat, c, p);
        let before = g.runs(f, t, runs, (n - 1) as nat, c);
        let (x, z, low, high) = runs[n - 1];
        assert(run_fits(runs[n - 1], bottom, top));
        lemma_run_keeps(g, f, t, x, z, low, high, (Carving { grass: false, ..before }), p);
    }
}

/// A block that is never carved, and is no dirt, stays what it is, whatever
/// the mask holds.
pub proof fn law_uncarvable_blocks_stay<F: Fn(Ask) -> u64, T: Fn(&Vec<Edit>, usize, i32, usize, bool) -> Option<u16>>(
    g: Ground, f: F, t: T, m: Cells, bottom: int, top: int, c: Carving, p: int,
)
    requires
        holds_runs(g.vol, bottom, top),
        bottom <= top + 1,
        c.ids.len() == g.vol.count(),
        0 <= p < c.ids.len(),
        g.uncarvable[c.ids[p] as int],
        !g.dirt[c.ids[p] as int],
    ensures
        ({
            let runs = mask_runs(m, bottom, top, 256);
            g.runs(f, t, runs, runs.len(), c).ids[p] == c.ids[p]
        }),
{
    let runs = mask_runs(m, bottom, top, 256);
    lemma_mask_fits(m, bottom, top, 256);
    lemma_runs_keep(g, f, t, runs, bottom, top, runs.len(), c, p);
}

} // verus!
