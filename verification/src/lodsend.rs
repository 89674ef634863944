//! What a player was sent, and what to send next.

use vstd::prelude::*;
use crate::chunkmap::ChunkMap;
use crate::lodregion::{has_bit, slot_bit};
use crate::lodstore::{after_count, region_in_world, trimmed, walk, Level, LodStore, Stored};

verus! {

/// A chunk lies on the ring `r` around a centre and within `far` of it.
pub open spec fn on_ring(dx: int, dz: int, r: int, far: int) -> bool {
    (dx == r || dx == -r || dz == r || dz == -r) && dx * dx + dz * dz <= far * far
}

/// The first `n` chunks of a ring's row that count, west to east.
pub open spec fn ring_row(cx: int, cz: int, far: int, r: int, dz: int, n: nat) -> Seq<(i32, i32)>
    decreases n,
{
    if n == 0 {
        Seq::empty()
    } else {
        let rest = ring_row(cx, cz, far, r, dz, (n - 1) as nat);
        let dx = n - 1 - r;
        if on_ring(dx, dz, r, far) { rest.push(((cx + dx) as i32, (cz + dz) as i32)) } else { rest }
    }
}

/// The first `n` rows of a ring, north to south.
pub open spec fn ring(cx: int, cz: int, far: int, r: int, n: nat) -> Seq<(i32, i32)>
    decreases n,
{
    if n == 0 {
        Seq::empty()
    } else {
        ring(cx, cz, far, r, (n - 1) as nat) + ring_row(cx, cz, far, r, n - 1 - r, (2 * r + 1) as nat)
    }
}

/// The first `n` rings, the nearest first.
pub open spec fn rings(cx: int, cz: int, far: int, n: nat) -> Seq<(i32, i32)>
    decreases n,
{
    if n == 0 {
        Seq::empty()
    } else {
        rings(cx, cz, far, (n - 1) as nat) + ring(cx, cz, far, n - 1, (2 * (n - 1) + 1) as nat)
    }
}

/// The chunks within `far` of a centre, the nearest ring first.
pub open spec fn disc_of(cx: int, cz: int, far: int) -> Seq<(i32, i32)> {
    rings(cx, cz, far, if far < 0 { 0 } else { (far + 1) as nat })
}

/// A centre with every chunk within `far` in the world.
pub open spec fn disc_in_world(cx: i32, cz: i32, far: i32) -> bool {
    far >= 0 ==> {
        &&& i32::MIN <= cx - far
        &&& cx + far <= i32::MAX
        &&& i32::MIN <= cz - far
        &&& cz + far <= i32::MAX
    }
}

proof fn lemma_square(a: int, far: int)
    requires
        -far <= a <= far,
    ensures
        0 <= a * a <= far * far,
{
    assert(0 <= a * a <= far * far) by (nonlinear_arith)
        requires
            -far <= a <= far,
    ;
}

proof fn lemma_square_bound(far: int)
    requires
        -0x8000_0000 <= far <= 0x7fff_ffff,
    ensures
        0 <= far * far <= 0x4000_0000_0000_0000,
        far >= 0 ==> far * far < 0x4000_0000_0000_0000,
{
    if far >= 0 {
        assert(far * far < 0x4000_0000_0000_0000) by (nonlinear_arith)
            requires
                0 <= far <= 0x7fff_ffff,
        ;
    }
    assert(0 <= far * far <= 0x4000_0000_0000_0000) by (nonlinear_arith)
        requires
            -0x8000_0000 <= far <= 0x7fff_ffff,
    ;
}

/// The chunks within `far` of a centre, the nearest ring first.
pub fn disc(cx: i32, cz: i32, far: i32) -> (out: Vec<(i32, i32)>)
    requires
        disc_in_world(cx, cz, far),
    ensures
        out@ == disc_of(cx as int, cz as int, far as int),
{
    let mut out: Vec<(i32, i32)> = Vec::new();
    if far < 0 {
        return out;
    }
    proof { lemma_square_bound(far as int); }
    let far2: i64 = far as i64 * far as i64;
    let mut r: i64 = 0;
    while r <= far as i64
        invariant
            far >= 0,
            disc_in_world(cx, cz, far),
            far2 == far * far,
            far2 < 0x4000_0000_0000_0000,
            0 <= r <= far + 1,
            out@ == rings(cx as int, cz as int, far as int, r as nat),
        decreases far + 1 - r,
    {
        let ghost before = out@;
        let mut dz: i64 = -r;
        proof { assert(before + ring(cx as int, cz as int, far as int, r as int, 0) =~= before); }
        while dz <= r
            invariant
                far >= 0,
                disc_in_world(cx, cz, far),
                far2 == far * far,
                far2 < 0x4000_0000_0000_0000,
                0 <= r <= far,
                -r <= dz <= r + 1,
                out@ == before + ring(cx as int, cz as int, far as int, r as int, (dz + r) as nat),
            decreases r + 1 - dz,
        {
            let ghost row = out@;
            let mut dx: i64 = -r;
            proof { assert(row + ring_row(cx as int, cz as int, far as int, r as int, dz as int, 0) =~= row); }
            while dx <= r
                invariant
                    far >= 0,
                    disc_in_world(cx, cz, far),
                    far2 == far * far,
                    far2 < 0x4000_0000_0000_0000,
                    0 <= r <= far,
                    -r <= dz <= r,
                    -r <= dx <= r + 1,
                    out@ == row + ring_row(cx as int, cz as int, far as int, r as int, dz as int, (dx + r) as nat),
                decreases r + 1 - dx,
            {
                proof {
                    lemma_square(dx as int, far as int);
                    lemma_square(dz as int, far as int);
                }
                let ghost now = out@;
                if (dx == r || dx == -r || dz == r || dz == -r) && dx * dx + dz * dz <= far2 {
                    out.push(((cx as i64 + dx) as i32, (cz as i64 + dz) as i32));
                }
                proof {
                    assert(row + ring_row(cx as int, cz as int, far as int, r as int, dz as int, (dx + 1 + r) as nat) =~= out@);
                }
                dx += 1;
            }
            proof {
                assert(before + ring(cx as int, cz as int, far as int, r as int, (dz + 1 + r) as nat) =~= out@);
            }
            dz += 1;
        }
        r += 1;
    }
    out
}

/// What one player holds.
pub ghost struct Sent {
    pub sent: Map<(i32, i32), Level>,
    pub seen: u64,
    pub exhausted: Option<((i32, i32, i32, i32), u64)>,
}

/// The chunks of a list, out of what was sent.
pub open spec fn forget(sent: Map<(i32, i32), Level>, chunks: Seq<(i32, i32)>, n: nat) -> Map<(i32, i32), Level>
    decreases n,
{
    if n == 0 {
        sent
    } else {
        forget(sent, chunks, (n - 1) as nat).remove(chunks[n - 1])
    }
}

/// A distance on one axis.
pub open spec fn apart(a: int, b: int) -> int {
    if a < b { b - a } else { a - b }
}

/// The chunks within `keep` of a centre on both axes.
pub open spec fn nearby(sent: Map<(i32, i32), Level>, cx: int, cz: int, keep: int) -> Map<(i32, i32), Level> {
    sent.restrict(sent.dom().filter(|p: (i32, i32)| apart(p.0 as int, cx) <= keep && apart(p.1 as int, cz) <= keep))
}

/// Twice a distance, as far as 32 bits go.
pub open spec fn doubled(far: i32) -> int {
    if far + far > i32::MAX {
        i32::MAX as int
    } else if far + far < i32::MIN {
        i32::MIN as int
    } else {
        far + far
    }
}

/// Twice a distance, as far as 32 bits go.
fn double(far: i32) -> (r: i32)
    ensures
        r == doubled(far),
{
    if far > 0x3fff_ffff {
        i32::MAX
    } else if far < -0x4000_0000 {
        i32::MIN
    } else {
        far + far
    }
}

/// The candidates of a walk: full within `near`, coarse beyond.
pub open spec fn wanted(cx: int, cz: int, far: int, near: int) -> Seq<(i32, i32, bool)> {
    disc_of(cx, cz, far).map_values(
        |p: (i32, i32)| (p.0, p.1, (p.0 - cx) * (p.0 - cx) + (p.1 - cz) * (p.1 - cz) <= near * near),
    )
}

/// What was taken, marked as sent.
pub open spec fn marked(sent: Map<(i32, i32), Level>, taken: Seq<((i32, i32), Level)>, n: nat) -> Map<(i32, i32), Level>
    decreases n,
{
    if n == 0 {
        sent
    } else {
        marked(sent, taken, (n - 1) as nat).insert(taken[n - 1].0, taken[n - 1].1)
    }
}

impl Sent {
    /// Refreshed chunks go out again.
    pub open spec fn caught_up(self, store: Stored) -> Sent {
        let log = trimmed(store.refreshed);
        let list = after_count(log, self.seen, log.len());
        Sent { sent: forget(self.sent, list, list.len()), seen: store.generation, ..self }
    }
}

/// The chunks of a region whose bits are set, marked as held in full.
pub open spec fn marked_slots(sent: Map<(i32, i32), Level>, rx: i32, rz: i32, bitmap: Seq<u8>, n: nat) -> Map<(i32, i32), Level>
    decreases n,
{
    if n == 0 {
        sent
    } else {
        let rest = marked_slots(sent, rx, rz, bitmap, (n - 1) as nat);
        let s = n - 1;
        if slot_bit(bitmap, s) {
            rest.insert(((rx * 32 + s % 32) as i32, (rz * 32 + s / 32) as i32), Level::Full)
        } else {
            rest
        }
    }
}

/// What one player already holds. The walk hands out the nearest records
/// they lack; chunks without a record are not marked, so they go out once
/// surfaced.
pub struct SendTracker {
    sent: ChunkMap<Level>,
    /// Store count up to which refreshed chunks have been forgotten.
    seen: u64,
    /// Centre, distances and store generation of the last walk, if it found
    /// nothing to send.
    exhausted: Option<((i32, i32, i32, i32), u64)>,
}

impl View for SendTracker {
    type V = Sent;

    closed spec fn view(&self) -> Sent {
        Sent { sent: self.sent@, seen: self.seen, exhausted: self.exhausted }
    }
}

impl Default for SendTracker {
    fn default() -> (r: SendTracker)
        ensures
            r@ == (Sent { sent: Map::empty(), seen: 0, exhausted: None }),
    {
        SendTracker { sent: ChunkMap::new(), seen: 0, exhausted: None }
    }
}

impl SendTracker {
    pub fn new() -> (r: SendTracker)
        ensures
            r@ == (Sent { sent: Map::empty(), seen: 0, exhausted: None }),
    {
        SendTracker { sent: ChunkMap::new(), seen: 0, exhausted: None }
    }

    /// Forget what is farther than `keep` from a centre.
    fn prune(&mut self, cx: i32, cz: i32, keep: i32)
        ensures
            final(self)@ == (Sent { sent: nearby(old(self)@.sent, cx as int, cz as int, keep as int), ..old(self)@ }),
    {
        let ghost start = self.sent@;
        let chunks: Vec<(i32, i32)> = self.sent.chunks();
        let ghost near = |p: (i32, i32)| apart(p.0 as int, cx as int) <= keep && apart(p.1 as int, cz as int) <= keep;
        let mut i: usize = 0;
        while i < chunks.len()
            invariant
                i <= chunks@.len(),
                near == (|p: (i32, i32)| apart(p.0 as int, cx as int) <= keep && apart(p.1 as int, cz as int) <= keep),
                forall|p: (i32, i32)| #[trigger] chunks@.contains(p) <==> start.contains_key(p),
                forall|p: (i32, i32)| #[trigger]
                    self.sent@.contains_key(p) ==> start.contains_key(p) && self.sent@[p] == start[p],
                forall|p: (i32, i32)| start.contains_key(p) && #[trigger] near(p) ==> self.sent@.contains_key(p),
                forall|k: int| 0 <= k < i ==> near(#[trigger] chunks@[k]) || !self.sent@.contains_key(chunks@[k]),
                self.seen == old(self).seen,
                self.exhausted == old(self).exhausted,
            decreases chunks.len() - i,
        {
            let (x, z) = chunks[i];
            let dx: i64 = if x < cx { cx as i64 - x as i64 } else { x as i64 - cx as i64 };
            let dz: i64 = if z < cz { cz as i64 - z as i64 } else { z as i64 - cz as i64 };
            if !(dx <= keep as i64 && dz <= keep as i64) {
                proof { assert(!near(chunks@[i as int])); }
                self.sent.remove(x, z);
            } else {
                proof { assert(near(chunks@[i as int])); }
            }
            i += 1;
        }
        proof {
            let want = nearby(start, cx as int, cz as int, keep as int);
            assert forall|p: (i32, i32)| self.sent@.contains_key(p) <==> want.contains_key(p) by {
                if start.contains_key(p) {
                    assert(chunks@.contains(p));
                    let k = choose|k: int| 0 <= k < chunks@.len() && chunks@[k] == p;
                    assert(near(chunks@[k]) || !self.sent@.contains_key(chunks@[k]));
                    if near(p) {
                    }
                }
            }
            assert(self.sent@ =~= want);
        }
    }

    /// Append up to `max` entries for a player at chunk (cx, cz), nearest
    /// first within `far`: full records within `near`, coarse ones beyond;
    /// returns how many. Records more than 2 x far away are forgotten so a
    /// returning player gets them again.
    pub fn batch(&mut self, store: &mut LodStore, cx: i32, cz: i32, far: i32, near: i32, max: usize, out: &mut Vec<u8>) -> (r: usize)
        requires
            old(store).wf(),
            disc_in_world(cx, cz, far),
        ensures
            final(store).wf(),
            exists|at: int| batched(
                old(self)@, final(self)@, old(store)@, final(store)@, (cx, cz, far, near), max as nat, 0, old(out)@, final(out)@,
                r as int, at,
            ),
    {
        let (r, at) = self.batch_from(store, cx, cz, far, near, 0, max, out);
        r
    }

    /// A batch whose walk starts at candidate `from`: how many entries were
    /// appended, and the candidate the walk came to. Where that is not the
    /// last and fewer than `max` were appended, the candidate's region has
    /// to be handed to the store; the walk goes on from there.
    pub fn batch_from(
        &mut self, store: &mut LodStore, cx: i32, cz: i32, far: i32, near: i32, from: usize, max: usize, out: &mut Vec<u8>,
    ) -> (r: (usize, usize))
        requires
            old(store).wf(),
            disc_in_world(cx, cz, far),
        ensures
            final(store).wf(),
            batched(
                old(self)@, final(self)@, old(store)@, final(store)@, (cx, cz, far, near), max as nat, from as int, old(out)@,
                final(out)@, r.0 as int, r.1 as int,
            ),
    {
        let ghost before = self@;
        let ghost s0 = store@;
        let ghost head = out@;
        let (refreshed, now) = store.refreshed_since(self.seen);
        let mut i: usize = 0;
        while i < refreshed.len()
            invariant
                i <= refreshed@.len(),
                self.sent@ == forget(before.sent, refreshed@, i as nat),
                self.seen == before.seen,
                self.exhausted == before.exhausted,
            decreases refreshed.len() - i,
        {
            let (x, z) = refreshed[i];
            self.sent.remove(x, z);
            i += 1;
        }
        self.seen = now;
        let ghost caught = before.caught_up(s0);
        proof { assert(self@ == caught); }
        let generation: u64 = store.generation();
        if let Some(((ex, ez, ef, en), g)) = self.exhausted {
            if ex == cx && ez == cz && ef == far && en == near && g == generation {
                proof { assert(head + Seq::<u8>::empty() =~= head); }
                return (0, from);
            }
        }
        let keep: i32 = double(far);
        self.prune(cx, cz, keep);
        proof { lemma_square_bound(near as int); }
        let near2: i64 = near as i64 * near as i64;
        let chunks: Vec<(i32, i32)> = disc(cx, cz, far);
        let mut candidates: Vec<(i32, i32, bool)> = Vec::new();
        let ghost want = wanted(cx as int, cz as int, far as int, near as int);
        while candidates.len() < chunks.len()
            invariant
                candidates@.len() <= chunks@.len(),
                chunks@ == disc_of(cx as int, cz as int, far as int),
                near2 == near * near,
                near2 <= 0x4000_0000_0000_0000,
                want == wanted(cx as int, cz as int, far as int, near as int),
                candidates@ == want.take(candidates@.len() as int),
            decreases chunks.len() - candidates.len(),
        {
            let ghost k = candidates@.len() as int;
            let (x, z) = chunks[candidates.len()];
            let dx: i128 = x as i128 - cx as i128;
            let dz: i128 = z as i128 - cz as i128;
            proof {
                lemma_wide_square(dx as int);
                lemma_wide_square(dz as int);
            }
            let full: bool = dx * dx + dz * dz <= near2 as i128;
            candidates.push((x, z, full));
            proof {
                assert(want[k] == (x, z, full));
                assert(candidates@ =~= want.take(k + 1));
            }
        }
        proof { assert(candidates@ =~= want); }
        if from > candidates.len() {
            self.exhausted = None;
            proof { assert(head + Seq::<u8>::empty() =~= head); }
            return (0, from);
        }
        let ghost pruned = self@.sent;
        let (taken, at) = store.take_batch(&candidates, &self.sent, from, max, out);
        let mut i: usize = 0;
        while i < taken.len()
            invariant
                i <= taken@.len(),
                self.sent@ == marked(pruned, taken@, i as nat),
                self.seen == caught.seen,
                self.exhausted == caught.exhausted,
            decreases taken.len() - i,
        {
            let ((x, z), level) = taken[i];
            self.sent.insert(x, z, level);
            i += 1;
        }
        self.exhausted = if from == 0 && taken.len() == 0 && at == candidates.len() {
            Some(((cx, cz, far, near), generation))
        } else {
            None
        };
        (taken.len(), at)
    }

    /// The client already holds these chunks of a region in full; do not
    /// send them again.
    pub fn mark_have(&mut self, rx: i32, rz: i32, bitmap: &[u8])
        requires
            region_in_world(rx, rz),
        ensures
            final(self)@ == (Sent {
                sent: marked_slots(old(self)@.sent, rx, rz, bitmap@, 1024),
                seen: old(self)@.seen,
                exhausted: None,
            }),
    {
        let ghost start = self.sent@;
        let mut slot: usize = 0;
        while slot < 1024
            invariant
                slot <= 1024,
                region_in_world(rx, rz),
                self.sent@ == marked_slots(start, rx, rz, bitmap@, slot as nat),
                self.seen == old(self).seen,
            decreases 1024 - slot,
        {
            if has_bit(bitmap, slot) {
                self.sent.insert(rx * 32 + (slot % 32) as i32, rz * 32 + (slot / 32) as i32, Level::Full);
            }
            slot += 1;
        }
        self.exhausted = None;
    }

    /// How many chunks count as sent.
    pub fn sent_count(&self) -> (r: usize)
        ensures
            r == self@.sent.dom().len(),
            self@.sent.dom().finite(),
    {
        proof { self.sent.lemma_finite(); }
        self.sent.len()
    }
}

proof fn lemma_wide_square(a: int)
    requires
        -0x1_0000_0000 <= a <= 0x1_0000_0000,
    ensures
        0 <= a * a <= 0x1_0000_0000_0000_0000,
{
    assert(0 <= a * a <= 0x1_0000_0000_0000_0000) by (nonlinear_arith)
        requires
            -0x1_0000_0000 <= a <= 0x1_0000_0000,
    ;
}

/// What a batch for (centre x, centre z, far, near) does: refreshed chunks
/// are forgotten; where the last walk had the same centre and distances and
/// found nothing at this generation there is nothing to do; otherwise far
/// chunks are forgotten, and the walk's entries go out and are marked. A walk
/// over all candidates that came to the end without any is remembered until
/// the next one.
pub open spec fn batched(
    before: Sent, after: Sent, s0: Stored, s1: Stored, place: (i32, i32, i32, i32), max: nat, from: int, head: Seq<u8>,
    out: Seq<u8>, count: int, at: int,
) -> bool {
    let (cx, cz, far, near) = place;
    let caught = before.caught_up(s0);
    let s = Stored { refreshed: trimmed(s0.refreshed), ..s0 };
    let list = wanted(cx as int, cz as int, far as int, near as int);
    if caught.exhausted == Some((place, s0.generation)) {
        after == caught && s1 == s && out == head && count == 0 && at == from
    } else {
        let sent = nearby(caught.sent, cx as int, cz as int, doubled(far));
        if from > list.len() {
            after == (Sent { sent, exhausted: None, ..caught }) && s1 == s && out == head && count == 0 && at == from
        } else {
            let w = walk(s, list, sent, max, from, (list.len() - from) as nat);
            &&& s1 == w.store
            &&& out == head + w.bytes
            &&& count == w.taken.len()
            &&& at == w.at
            &&& after == (Sent {
                sent: marked(sent, w.taken, w.taken.len()),
                seen: caught.seen,
                exhausted: if from == 0 && w.taken.len() == 0 && w.at == list.len() {
                    Some((place, s0.generation))
                } else {
                    None
                },
            })
        }
    }
}

} // verus!
