//! The records of one world, by region.
//!
//! The store decides what is kept, what is read and what is written; the
//! caller moves the bytes. Before a chunk of a region that is not loaded is
//! looked at, the caller hands over the region's file with `load`; regions
//! that were put out to make room are collected with `take_writes`.

use vstd::prelude::*;
use crate::bytes::{le, push_le};
use crate::chunkmap::ChunkMap;
use crate::lod26::{
    coarse_bytes, record_bytes, shorts, shows, tallest, unsigned, CoarseLod, ColumnLod, COLUMNS, STAGE_FINAL,
    STAGE_SURFACE,
};
use crate::lodregion::{
    holds_records, is_region_file, law_region_round_trip, law_written_file_is_whole, make_bitmap, present, readable, region_bytes,
    region_of, region_slot, same_record, slot_of, RegionLod,
};

verus! {

/// Regions kept in memory; the oldest loaded is written out and dropped
/// past this.
pub const MAX_REGIONS: usize = 256;

/// Refreshed chunks the log keeps.
pub const LOG_LIMIT: usize = 65536;

/// Flag bit: the entry carries a coarse record instead of a full one.
pub const BATCH_COARSE: u32 = 256;

/// Bytes of a full-record entry.
pub const BATCH_ENTRY_BYTES: usize = 2316;

/// Bytes of a coarse-record entry.
pub const COARSE_ENTRY_BYTES: usize = 156;

/// How much of a chunk a client was sent, or holds.
#[derive(Clone, Copy, PartialEq, Eq, Structural, PartialOrd, Ord, Debug)]
pub enum Level {
    Coarse,
    Full,
}

/// A region in memory.
pub ghost struct Held {
    pub key: (i32, i32),
    pub records: Seq<Option<ColumnLod>>,
    pub dirty: bool,
    /// The region's file, if there is one, has been handed over.
    pub whole: bool,
}

impl Held {
    /// The region may leave memory: nothing is lost by writing it, or there
    /// is nothing to write.
    pub open spec fn may_go(self) -> bool {
        self.whole || !self.dirty
    }

    /// The region after it was written; one whose file was not handed over
    /// is not written.
    pub open spec fn written(self) -> Held {
        Held { dirty: self.dirty && !self.whole, ..self }
    }
}

/// The first region from `i` on that may leave memory.
pub open spec fn first_to_go(regions: Seq<Held>, i: int) -> Option<int>
    decreases regions.len() - i,
{
    if i >= regions.len() {
        None
    } else if regions[i].may_go() {
        Some(i)
    } else {
        first_to_go(regions, i + 1)
    }
}

/// Records, and where there is none those of another list.
pub open spec fn merged(records: Seq<Option<ColumnLod>>, under: Seq<Option<ColumnLod>>) -> Seq<Option<ColumnLod>> {
    Seq::new(1024, |s: int| if records[s] is Some { records[s] } else { under[s] })
}

/// The counts of a log rise and do not pass `now`.
pub open spec fn rising(log: Seq<(u64, (i32, i32))>, now: u64) -> bool {
    &&& forall|i: int, j: int| 0 <= i < j < log.len() ==> (#[trigger] log[i]).0 < (#[trigger] log[j]).0
    &&& forall|i: int| 0 <= i < log.len() ==> (#[trigger] log[i]).0 <= now
}

/// A region without records.
pub open spec fn no_records() -> Seq<Option<ColumnLod>> {
    Seq::new(1024, |s: int| None::<ColumnLod>)
}

/// Where a region stands among the first `n`.
pub open spec fn find_region(regions: Seq<Held>, key: (i32, i32), n: nat) -> Option<int>
    decreases n,
{
    if n == 0 {
        None
    } else if regions[n - 1].key == key {
        Some(n - 1)
    } else {
        find_region(regions, key, (n - 1) as nat)
    }
}

/// What a store holds.
pub ghost struct Stored {
    /// Digest that region files are tagged with.
    pub hash: Seq<u8>,
    pub max_regions: usize,
    /// Whether there is a directory to persist to.
    pub persists: bool,
    /// The regions in memory, the one loaded first first.
    pub regions: Seq<Held>,
    /// Inserts and refreshes so far.
    pub generation: u64,
    /// Chunks whose record was replaced, with the count at that time.
    pub refreshed: Seq<(u64, (i32, i32))>,
    /// Region files to be written.
    pub outbox: Seq<((i32, i32), Seq<u8>)>,
}

impl Stored {
    pub open spec fn wf(self) -> bool {
        &&& self.max_regions >= 1
        &&& self.hash.len() == 16
        &&& rising(self.refreshed, self.generation)
        &&& forall|i: int| 0 <= i < self.regions.len() ==> (#[trigger] self.regions[i]).records.len() == 1024
        &&& forall|i: int, j: int|
            0 <= i < j < self.regions.len() ==> (#[trigger] self.regions[i]).key != (#[trigger] self.regions[j]).key
    }

    /// Where a region stands in memory.
    pub open spec fn find(self, key: (i32, i32)) -> Option<int> {
        find_region(self.regions, key, self.regions.len())
    }

    /// The record of a chunk, as far as memory goes.
    pub open spec fn record(self, x: i32, z: i32) -> Option<ColumnLod> {
        match self.find(region_of(x, z)) {
            Some(i) => self.regions[i].records[slot_of(x, z)],
            None => None,
        }
    }

    /// A region is in memory, with what its file held.
    pub open spec fn knows(self, key: (i32, i32)) -> bool {
        self.find(key) matches Some(i) && self.regions[i].whole
    }

    /// The store without a region, which is written if it has changes.
    pub open spec fn without(self, i: int) -> Stored {
        let h = self.regions[i];
        Stored {
            regions: self.regions.remove(i),
            outbox: if h.dirty { self.outbox.push((h.key, region_bytes(h.records, self.hash))) } else { self.outbox },
            ..self
        }
    }

    /// The store with room for one more region: past the bound the oldest is
    /// written and dropped. Without a directory every region stays, and so
    /// does one with changes whose file was not handed over.
    pub open spec fn with_room(self) -> Stored
        decreases self.regions.len(),
    {
        if !self.persists || self.regions.len() < self.max_regions {
            self
        } else {
            match first_to_go(self.regions, 0) {
                Some(i) => if 0 <= i < self.regions.len() { self.without(i).with_room() } else { self },
                None => self,
            }
        }
    }

    /// The store with a region in memory whose file was not handed over;
    /// without a directory there is none.
    pub open spec fn loaded(self, key: (i32, i32)) -> Stored {
        if self.find(key) is Some {
            self
        } else {
            let room = self.with_room();
            Stored {
                regions: room.regions.push(Held { key, records: no_records(), dirty: false, whole: !self.persists }),
                ..room
            }
        }
    }

    /// The store after a region's file, which holds some records, was handed
    /// over. What is in memory already stays.
    pub open spec fn with_file(self, key: (i32, i32), records: Seq<Option<ColumnLod>>) -> Stored {
        match self.find(key) {
            Some(i) => {
                let h = self.regions[i];
                if h.whole {
                    self
                } else {
                    Stored {
                        regions: self.regions.update(i, Held { records: merged(h.records, records), whole: true, ..h }),
                        ..self
                    }
                }
            },
            None => {
                let room = self.with_room();
                Stored { regions: room.regions.push(Held { key, records, dirty: false, whole: true }), ..room }
            },
        }
    }

    /// The store with a record in a loaded region replaced.
    pub open spec fn replaced(self, x: i32, z: i32, r: ColumnLod) -> Stored {
        let i = self.find(region_of(x, z))->0;
        let held = self.regions[i];
        Stored {
            regions: self.regions.update(
                i,
                Held { records: held.records.update(slot_of(x, z), Some(r)), dirty: true, ..held },
            ),
            generation: (self.generation + 1) as u64,
            ..self
        }
    }
}

/// A region's records came out of a file, or there are none because the
/// file is missing, foreign or torn.
pub open spec fn came_from(records: Seq<Option<ColumnLod>>, file: Option<Seq<u8>>, hash: Seq<u8>) -> bool {
    match file {
        Some(b) => if is_region_file(b) && b.subrange(6, 22) == hash && readable(b) {
            holds_records(records, b)
        } else {
            records == no_records()
        },
        None => records == no_records(),
    }
}

/// A store after a region's file, or that there is none, was handed over.
pub open spec fn handed_over(s: Stored, t: Stored, key: (i32, i32), file: Option<Seq<u8>>) -> bool {
    exists|records: Seq<Option<ColumnLod>>| #[trigger] came_from(records, file, s.hash) && t == s.with_file(key, records)
}

proof fn lemma_first_to_go(regions: Seq<Held>, i: int)
    requires
        0 <= i <= regions.len(),
    ensures
        match first_to_go(regions, i) {
            Some(k) => i <= k < regions.len() && regions[k].may_go() && forall|j: int| i <= j < k ==> !(#[trigger] regions[j]).may_go(),
            None => forall|j: int| i <= j < regions.len() ==> !(#[trigger] regions[j]).may_go(),
        },
    decreases regions.len() - i,
{
    if i < regions.len() && !regions[i].may_go() {
        lemma_first_to_go(regions, i + 1);
    }
}

pub(crate) proof fn lemma_find(regions: Seq<Held>, key: (i32, i32), n: nat)
    requires
        n <= regions.len(),
    ensures
        match find_region(regions, key, n) {
            Some(i) => 0 <= i < n && regions[i].key == key,
            None => forall|i: int| 0 <= i < n ==> (#[trigger] regions[i]).key != key,
        },
    decreases n,
{
    if n > 0 && regions[n - 1].key != key {
        lemma_find(regions, key, (n - 1) as nat);
    }
}

/// The place of a region is the only one with its key.
pub(crate) proof fn lemma_find_is(s: Stored, key: (i32, i32), i: int)
    requires
        s.wf(),
        0 <= i < s.regions.len(),
        s.regions[i].key == key,
    ensures
        s.find(key) == Some(i),
{
    lemma_find(s.regions, key, s.regions.len());
    if let Some(j) = s.find(key) {
        if j < i {
            assert(s.regions[j].key != s.regions[i].key);
        } else if i < j {
            assert(s.regions[i].key != s.regions[j].key);
        }
    }
}

/// The records of one world, by region.
pub struct LodStore {
    /// Digest of the palette names and biome ids; a region file built under
    /// another set is discarded.
    hash: [u8; 16],
    /// Regions kept in memory before the oldest is written and dropped.
    max_regions: usize,
    dir: Option<String>,
    /// Regions in memory, in load order, and whether their file was handed
    /// over.
    regions: Vec<((i32, i32), RegionLod, bool)>,
    /// Bumped per insert and refresh so a sender's walk knows when to look again.
    generation: u64,
    /// Chunks whose record was replaced after being possibly sent, with the
    /// count at that time.
    refreshed: Vec<(u64, (i32, i32))>,
    /// Region files to be written.
    outbox: Vec<((i32, i32), Vec<u8>)>,
}

impl View for LodStore {
    type V = Stored;

    closed spec fn view(&self) -> Stored {
        Stored {
            hash: self.hash@,
            max_regions: self.max_regions,
            persists: self.dir is Some,
            regions: self.regions@.map_values(
                |r: ((i32, i32), RegionLod, bool)| Held { key: r.0, records: r.1.records@, dirty: r.1.dirty, whole: r.2 },
            ),
            generation: self.generation,
            refreshed: self.refreshed@,
            outbox: self.outbox@.map_values(|w: ((i32, i32), Vec<u8>)| (w.0, w.1@)),
        }
    }
}

impl LodStore {
    /// The store is consistent.
    pub open spec fn wf(&self) -> bool {
        self@.wf()
    }

    pub fn new(hash: [u8; 16]) -> (r: LodStore)
        ensures
            r.wf(),
            r@.hash == hash@,
            r@.max_regions == MAX_REGIONS,
            !r@.persists,
            r@.regions == Seq::<Held>::empty(),
            r@.generation == 0,
            r@.refreshed == Seq::<(u64, (i32, i32))>::empty(),
            r@.outbox == Seq::<((i32, i32), Seq<u8>)>::empty(),
    {
        LodStore::with_max_regions(hash, MAX_REGIONS)
    }

    /// A store that keeps `max_regions` regions in memory, at least one.
    pub fn with_max_regions(hash: [u8; 16], max_regions: usize) -> (r: LodStore)
        ensures
            r.wf(),
            r@.hash == hash@,
            r@.max_regions == (if max_regions == 0 { 1 } else { max_regions as int }),
            !r@.persists,
            r@.regions == Seq::<Held>::empty(),
            r@.generation == 0,
            r@.refreshed == Seq::<(u64, (i32, i32))>::empty(),
            r@.outbox == Seq::<((i32, i32), Seq<u8>)>::empty(),
    {
        let r = LodStore {
            hash,
            max_regions: if max_regions == 0 { 1 } else { max_regions },
            dir: None,
            regions: Vec::new(),
            generation: 0,
            refreshed: Vec::new(),
            outbox: Vec::new(),
        };
        proof {
            assert(r@.regions =~= Seq::<Held>::empty());
            assert(r@.outbox =~= Seq::<((i32, i32), Seq<u8>)>::empty());
        }
        r
    }

    /// Name the directory; regions touched before this stay in memory until
    /// the next flush.
    pub fn set_dir(&mut self, dir: String)
        requires
            old(self).wf(),
        ensures
            final(self).wf(),
            final(self)@ == (Stored { persists: true, ..old(self)@ }),
            final(self).dir_name() == Some(dir),
    {
        self.dir = Some(dir);
    }

    /// The directory that was named.
    pub closed spec fn dir_name(&self) -> Option<String> {
        self.dir
    }

    /// The directory that was named.
    pub fn dir(&self) -> (r: Option<&str>)
        ensures
            r is Some <==> self.dir_name() is Some,
            r matches Some(d) ==> d@ == self.dir_name()->0@,
    {
        match &self.dir {
            Some(d) => Some(d.as_str()),
            None => None,
        }
    }

    /// Where a region stands in memory.
    fn position(&self, key: (i32, i32)) -> (r: Option<usize>)
        requires
            self.wf(),
        ensures
            match r {
                Some(i) => i < self.regions@.len() && self@.find(key) == Some(i as int) && self@.regions[i as int].key == key,
                None => self@.find(key) is None,
            },
    {
        let ghost all = self@.regions;
        let mut n: usize = self.regions.len();
        while n > 0
            invariant
                all == self@.regions,
                n <= self.regions@.len(),
                find_region(all, key, n as nat) == self@.find(key),
            decreases n,
        {
            let k: (i32, i32) = self.regions[n - 1].0;
            proof { assert(all[n - 1].key == k); }
            if k.0 == key.0 && k.1 == key.1 {
                return Some(n - 1);
            }
            n -= 1;
        }
        None
    }

    /// Whether a region is in memory with what its file held. Where it is
    /// not and there is a directory, its file has to be handed over.
    pub fn is_loaded(&self, rx: i32, rz: i32) -> (r: bool)
        requires
            self.wf(),
        ensures
            r == self@.knows((rx, rz)),
    {
        match self.position((rx, rz)) {
            Some(i) => self.regions[i].2,
            None => false,
        }
    }

    /// The oldest region that may leave memory.
    fn oldest(&self) -> (r: Option<usize>)
        ensures
            match r {
                Some(i) => i < self.regions@.len() && first_to_go(self@.regions, 0) == Some(i as int),
                None => first_to_go(self@.regions, 0) is None,
            },
    {
        let mut i: usize = 0;
        while i < self.regions.len()
            invariant
                i <= self.regions@.len(),
                first_to_go(self@.regions, 0) == first_to_go(self@.regions, i as int),
            decreases self.regions.len() - i,
        {
            proof {
                assert(self@.regions[i as int].dirty == self.regions@[i as int].1.dirty);
                assert(self@.regions[i as int].whole == self.regions@[i as int].2);
            }
            if self.regions[i].2 || !self.regions[i].1.dirty {
                return Some(i);
            }
            i += 1;
        }
        None
    }

    /// Drop a region, to be written if it has changes.
    fn drop_region(&mut self, i: usize)
        requires
            old(self).wf(),
            i < old(self).regions@.len(),
        ensures
            final(self).wf(),
            final(self)@ == old(self)@.without(i as int),
            final(self).dir_name() == old(self).dir_name(),
            final(self).regions@.len() == old(self).regions@.len() - 1,
    {
        let ghost before = self@;
        let (key, region, whole) = self.regions.remove(i);
        proof {
            assert(before.regions[i as int] == (Held { key, records: region.records@, dirty: region.dirty, whole }));
            assert(self@.regions =~= before.regions.remove(i as int));
            lemma_without(before, i as int);
        }
        if region.dirty {
            let bytes: Vec<u8> = region.encode(&self.hash);
            let ghost mid = self@;
            self.outbox.push((key, bytes));
            proof {
                assert(self@.outbox =~= mid.outbox.push((key, bytes@)));
            }
        }
    }

    /// Make room for one more region.
    fn make_room(&mut self)
        requires
            old(self).wf(),
        ensures
            final(self).wf(),
            final(self)@ == old(self)@.with_room(),
            final(self).dir_name() == old(self).dir_name(),
    {
        let ghost start = self@;
        if self.dir.is_none() {
            return;
        }
        while self.regions.len() >= self.max_regions
            invariant
                self.wf(),
                self.dir is Some,
                self.dir_name() == old(self).dir_name(),
                self@.with_room() == start.with_room(),
            ensures
                self.wf(),
                self.dir_name() == old(self).dir_name(),
                self@ == start.with_room(),
            decreases self.regions.len(),
        {
            match self.oldest() {
                Some(i) => self.drop_region(i),
                None => break,
            }
        }
    }

    /// Hand over a region's file, or that there is none. A region that was
    /// in memory without it keeps its records and gets those of the other
    /// chunks; one that had it stays as it is.
    pub fn load(&mut self, rx: i32, rz: i32, file: Option<&[u8]>)
        requires
            old(self).wf(),
        ensures
            final(self).wf(),
            final(self).dir_name() == old(self).dir_name(),
            handed_over(
                old(self)@,
                final(self)@,
                (rx, rz),
                match file {
                    Some(b) => Some(b@),
                    None => None,
                },
            ),
    {
        let ghost start = self@;
        let ghost given: Option<Seq<u8>> = match file {
            Some(b) => Some(b@),
            None => None,
        };
        let mut region: RegionLod = match file {
            Some(bytes) => match RegionLod::parse(bytes, &self.hash) {
                Some(region) => region,
                None => RegionLod::empty(),
            },
            None => RegionLod::empty(),
        };
        let ghost records = region.records@;
        proof { assert(came_from(records, given, start.hash)); }
        match self.position((rx, rz)) {
            Some(i) => {
                proof { assert(self.regions@[i as int].2 == start.regions[i as int].whole); }
                if self.regions[i].2 {
                    return;
                }
                self.fill_in(i, region);
                proof { assert(self@ == start.with_file((rx, rz), records)); }
            },
            None => {
                self.make_room();
                let ghost room = self@;
                self.regions.push(((rx, rz), region, true));
                proof {
                    let held = Held { key: (rx, rz), records, dirty: false, whole: true };
                    assert(self@.regions =~= room.regions.push(held));
                    lemma_with_room(start, (rx, rz));
                    lemma_pushed(room, held);
                    assert(self@ == start.with_file((rx, rz), records));
                }
            },
        }
    }

    /// The empty slots of a region get what its file holds.
    fn fill_in(&mut self, i: usize, mut file: RegionLod)
        requires
            old(self).wf(),
            i < old(self).regions@.len(),
            file.records@.len() == 1024,
        ensures
            final(self).wf(),
            final(self).dir_name() == old(self).dir_name(),
            ({
                let h = old(self)@.regions[i as int];
                final(self)@ == (Stored {
                    regions: old(self)@.regions.update(
                        i as int, Held { records: merged(h.records, file.records@), whole: true, ..h }),
                    ..old(self)@
                })
            }),
    {
        let ghost before = self@;
        let ghost under = file.records@;
        let (key, region, whole) = self.regions.remove(i);
        let ghost h = before.regions[i as int];
        proof { assert(h == (Held { key, records: region.records@, dirty: region.dirty, whole })); }
        let mut s: usize = 0;
        while s < 1024
            invariant
                s <= 1024,
                region.records@ == h.records,
                h.records.len() == 1024,
                under.len() == 1024,
                file.records@.len() == 1024,
                forall|k: int| 0 <= k < s ==> #[trigger] file.records@[k] == merged(h.records, under)[k],
                forall|k: int| s <= k < 1024 ==> #[trigger] file.records@[k] == under[k],
            decreases 1024 - s,
        {
            if let Some(r) = region.records[s] {
                file.records.set(s, Some(r));
            }
            s += 1;
        }
        proof { assert(file.records@ =~= merged(h.records, under)); }
        file.dirty = region.dirty;
        let ghost now = Held { key, records: file.records@, dirty: file.dirty, whole: true };
        self.regions.insert(i, (key, file, true));
        proof {
            assert(self@.regions =~= before.regions.update(i as int, now));
            lemma_updated(before, i as int, now);
        }
    }

    /// Make sure a chunk's region is in memory; one that was not handed
    /// over has no file.
    fn ensure_loaded(&mut self, key: (i32, i32)) -> (r: usize)
        requires
            old(self).wf(),
        ensures
            final(self).wf(),
            final(self)@ == old(self)@.loaded(key),
            final(self).dir_name() == old(self).dir_name(),
            final(self)@.find(key) == Some(r as int),
            r < final(self).regions@.len(),
            final(self)@.generation == old(self)@.generation,
            final(self)@.refreshed == old(self)@.refreshed,
    {
        if let Some(i) = self.position(key) {
            return i;
        }
        let ghost start = self@;
        self.make_room();
        let ghost room = self@;
        let whole: bool = self.dir.is_none();
        let region = RegionLod::empty();
        self.regions.push((key, region, whole));
        proof {
            let held = Held { key, records: no_records(), dirty: false, whole };
            lemma_with_room(start, key);
            assert(self@.regions =~= room.regions.push(held));
            lemma_pushed(room, held);
            lemma_find_is(self@, key, room.regions.len() as int);
        }
        self.regions.len() - 1
    }

    /// The record of a chunk; its region is loaded on the way.
    pub fn get(&mut self, chunk_x: i32, chunk_z: i32) -> (r: Option<ColumnLod>)
        requires
            old(self).wf(),
        ensures
            final(self).wf(),
            final(self)@ == old(self)@.loaded(region_of(chunk_x, chunk_z)),
            r == final(self)@.record(chunk_x, chunk_z),
            final(self).dir_name() == old(self).dir_name(),
    {
        let (key, slot) = region_slot(chunk_x, chunk_z);
        let i: usize = self.ensure_loaded(key);
        proof { assert(self@.regions[i as int].records == self.regions@[i as int].1.records@); }
        self.regions[i].1.records[slot]
    }

    /// The stage of a chunk's record, or None without one.
    pub fn stage(&mut self, chunk_x: i32, chunk_z: i32) -> (r: Option<u8>)
        requires
            old(self).wf(),
        ensures
            final(self).wf(),
            final(self)@ == old(self)@.loaded(region_of(chunk_x, chunk_z)),
            r == (match final(self)@.record(chunk_x, chunk_z) {
                Some(v) => Some(v.stage),
                None => None,
            }),
    {
        match self.get(chunk_x, chunk_z) {
            Some(v) => Some(v.stage),
            None => None,
        }
    }

    /// Put a record into a loaded region.
    fn put(&mut self, chunk_x: i32, chunk_z: i32, i: usize, record: ColumnLod)
        requires
            old(self).wf(),
            old(self)@.find(region_of(chunk_x, chunk_z)) == Some(i as int),
            i < old(self).regions@.len(),
            old(self)@.generation < u64::MAX,
        ensures
            final(self).wf(),
            final(self)@ == old(self)@.replaced(chunk_x, chunk_z, record),
            final(self).dir_name() == old(self).dir_name(),
    {
        let (key, slot) = region_slot(chunk_x, chunk_z);
        let ghost before = self@;
        let ghost raw = self.regions@;
        proof { assert(before.regions[i as int].records == raw[i as int].1.records@); }
        let (k, mut region, whole) = self.regions.remove(i);
        region.records.set(slot, Some(record));
        region.dirty = true;
        self.regions.insert(i, (k, region, whole));
        self.generation = self.generation + 1;
        proof {
            let held = Held { key: k, records: region.records@, dirty: true, whole };
            assert(self@.regions =~= before.regions.update(i as int, held));
            assert(held.records =~= before.regions[i as int].records.update(slot as int, Some(record)));
            lemma_updated(before, i as int, held);
        }
    }

    /// Keep a chunk's record.
    pub fn insert(&mut self, chunk_x: i32, chunk_z: i32, record: ColumnLod)
        requires
            old(self).wf(),
            old(self)@.generation < u64::MAX,
        ensures
            final(self).wf(),
            final(self)@ == old(self)@.loaded(region_of(chunk_x, chunk_z)).replaced(chunk_x, chunk_z, record),
            final(self)@.generation == old(self)@.generation + 1,
            final(self).dir_name() == old(self).dir_name(),
    {
        let (key, _) = region_slot(chunk_x, chunk_z);
        let i: usize = self.ensure_loaded(key);
        self.put(chunk_x, chunk_z, i, record);
    }

    /// Count of inserts and refreshes so far.
    pub fn generation(&self) -> (r: u64)
        ensures
            r == self@.generation,
    {
        self.generation
    }

    /// Region files that are to be written; asking empties the list.
    pub fn take_writes(&mut self) -> (r: Vec<((i32, i32), Vec<u8>)>)
        requires
            old(self).wf(),
        ensures
            final(self).wf(),
            final(self)@ == (Stored { outbox: Seq::empty(), ..old(self)@ }),
            r@.map_values(|w: ((i32, i32), Vec<u8>)| (w.0, w.1@)) == old(self)@.outbox,
            final(self).dir_name() == old(self).dir_name(),
    {
        let mut r: Vec<((i32, i32), Vec<u8>)> = Vec::new();
        std::mem::swap(&mut r, &mut self.outbox);
        proof { assert(self@.outbox =~= Seq::empty()); }
        r
    }
}

/// The chunks of the first `n` log entries that came after a count.
pub open spec fn after_count(log: Seq<(u64, (i32, i32))>, since: u64, n: nat) -> Seq<(i32, i32)>
    decreases n,
{
    if n == 0 {
        Seq::empty()
    } else {
        let rest = after_count(log, since, (n - 1) as nat);
        if log[n - 1].0 > since { rest.push(log[n - 1].1) } else { rest }
    }
}

/// The last entries of a log.
pub open spec fn trimmed(log: Seq<(u64, (i32, i32))>) -> Seq<(u64, (i32, i32))> {
    if log.len() > LOG_LIMIT { log.skip(log.len() - LOG_LIMIT) } else { log }
}

/// The records of a region's first `n` slots with their chunks.
pub open spec fn listed(records: Seq<Option<ColumnLod>>, rx: i32, rz: i32, n: int) -> Seq<(i32, i32, ColumnLod)>
    decreases n,
{
    if n <= 0 {
        Seq::empty()
    } else {
        let rest = listed(records, rx, rz, n - 1);
        match records[n - 1] {
            Some(r) => rest.push(((rx * 32 + (n - 1) % 32) as i32, (rz * 32 + (n - 1) / 32) as i32, r)),
            None => rest,
        }
    }
}

/// A region lists at most one record per slot.
pub proof fn lemma_listed_len(records: Seq<Option<ColumnLod>>, rx: i32, rz: i32, n: int)
    requires
        n >= 0,
    ensures
        listed(records, rx, rz, n).len() <= n,
    decreases n,
{
    if n > 0 {
        lemma_listed_len(records, rx, rz, n - 1);
    }
}

/// The files of the changed regions among the first `n`, as far as what the
/// files held is known.
pub open spec fn changed(regions: Seq<Held>, hash: Seq<u8>, n: nat) -> Seq<((i32, i32), Seq<u8>)>
    decreases n,
{
    if n == 0 {
        Seq::empty()
    } else {
        let rest = changed(regions, hash, (n - 1) as nat);
        let r = regions[n - 1];
        if r.dirty && r.whole { rest.push((r.key, region_bytes(r.records, hash))) } else { rest }
    }
}

/// A region's coordinates whose chunks are chunks of the world.
pub open spec fn region_in_world(rx: i32, rz: i32) -> bool {
    -0x0400_0000 <= rx < 0x0400_0000 && -0x0400_0000 <= rz < 0x0400_0000
}

/// A record refreshed from a finished chunk.
pub open spec fn refreshed_record(
    r: ColumnLod, before: Option<ColumnLod>, heights: Seq<i16>, tops: Seq<u16>, depths: Seq<u8>, floors: Seq<u16>,
) -> bool {
    &&& r.stage == STAGE_FINAL
    &&& r.height@ == heights
    &&& r.top@ == tops
    &&& r.depth@ == depths
    &&& r.floor@ == floors
    &&& match before {
        Some(b) => r.biome@ == b.biome@,
        None => forall|c: int| 0 <= c < 256 ==> #[trigger] r.biome@[c] == 0,
    }
}

impl LodStore {
    /// Replace heights and tops from the finished chunk, keeping the
    /// biomes; the record becomes `STAGE_FINAL` and every sender forgets it
    /// was sent. A chunk without a record gets one with unknown biomes
    /// (index 0).
    pub fn refresh(
        &mut self, chunk_x: i32, chunk_z: i32, heights: &[i16; COLUMNS], tops: &[u16; COLUMNS], depths: &[u8; COLUMNS],
        floors: &[u16; COLUMNS],
    )
        requires
            old(self).wf(),
            old(self)@.generation < u64::MAX,
        ensures
            final(self).wf(),
            final(self).dir_name() == old(self).dir_name(),
            ({
                let t = old(self)@.loaded(region_of(chunk_x, chunk_z));
                let r = final(self)@.record(chunk_x, chunk_z);
                &&& r is Some
                &&& refreshed_record(r->0, t.record(chunk_x, chunk_z), heights@, tops@, depths@, floors@)
                &&& final(self)@ == (Stored {
                    refreshed: t.refreshed.push(((t.generation + 1) as u64, (chunk_x, chunk_z))),
                    ..t.replaced(chunk_x, chunk_z, r->0)
                })
            }),
    {
        let (key, slot) = region_slot(chunk_x, chunk_z);
        let i: usize = self.ensure_loaded(key);
        let ghost t = self@;
        proof { assert(self@.regions[i as int].records == self.regions@[i as int].1.records@); }
        let mut record: ColumnLod = match self.regions[i].1.records[slot] {
            Some(r) => r,
            None => ColumnLod::empty(STAGE_SURFACE),
        };
        record.height = *heights;
        record.top = *tops;
        record.depth = *depths;
        record.floor = *floors;
        record.stage = STAGE_FINAL;
        self.put(chunk_x, chunk_z, i, record);
        proof {
            let u = self@;
            lemma_find(t.regions, key, t.regions.len());
            assert(u.regions[i as int].key == key);
            lemma_find_is(u, key, i as int);
            assert(u.record(chunk_x, chunk_z) == Some(record));
        }
        let ghost u = self@;
        self.refreshed.push((self.generation, (chunk_x, chunk_z)));
        proof {
            assert(self@.regions == u.regions);
            assert(self@.find(key) == u.find(key));
            let log = self@.refreshed;
            assert forall|i: int, j: int| 0 <= i < j < log.len() implies (#[trigger] log[i]).0 < (#[trigger] log[j]).0 by {
                assert(log[i] == t.refreshed[i]);
            }
        }
    }

    /// Chunks refreshed after count `since`, and the count now; the log is
    /// trimmed to its last entries.
    pub fn refreshed_since(&mut self, since: u64) -> (r: (Vec<(i32, i32)>, u64))
        requires
            old(self).wf(),
        ensures
            final(self).wf(),
            final(self)@ == (Stored { refreshed: trimmed(old(self)@.refreshed), ..old(self)@ }),
            final(self).dir_name() == old(self).dir_name(),
            r.0@ == after_count(final(self)@.refreshed, since, final(self)@.refreshed.len()),
            r.1 == old(self)@.generation,
    {
        let ghost start = self@;
        let n: usize = self.refreshed.len();
        if n > LOG_LIMIT {
            let tail: Vec<(u64, (i32, i32))> = self.refreshed.split_off(n - LOG_LIMIT);
            self.refreshed = tail;
            proof { assert(self.refreshed@ =~= trimmed(start.refreshed)); }
        }
        let mut out: Vec<(i32, i32)> = Vec::new();
        let mut i: usize = 0;
        while i < self.refreshed.len()
            invariant
                i <= self.refreshed@.len(),
                out@ == after_count(self.refreshed@, since, i as nat),
            decreases self.refreshed.len() - i,
        {
            let (count, chunk) = self.refreshed[i];
            if count > since {
                out.push(chunk);
            }
            i += 1;
        }
        (out, self.generation)
    }

    /// Every record of a region as (chunk x, chunk z, record).
    pub fn region_records(&mut self, rx: i32, rz: i32) -> (r: Vec<(i32, i32, ColumnLod)>)
        requires
            old(self).wf(),
            region_in_world(rx, rz),
        ensures
            final(self).wf(),
            final(self)@ == old(self)@.loaded((rx, rz)),
            final(self).dir_name() == old(self).dir_name(),
            r@ == listed(final(self)@.regions[final(self)@.find((rx, rz))->0].records, rx, rz, 1024),
    {
        let i: usize = self.ensure_loaded((rx, rz));
        let ghost records = self@.regions[i as int].records;
        proof { assert(records == self.regions@[i as int].1.records@); }
        let mut out: Vec<(i32, i32, ColumnLod)> = Vec::new();
        let mut slot: usize = 0;
        while slot < 1024
            invariant
                slot <= 1024,
                i < self.regions@.len(),
                records == self.regions@[i as int].1.records@,
                records.len() == 1024,
                region_in_world(rx, rz),
                out@ == listed(records, rx, rz, slot as int),
            decreases 1024 - slot,
        {
            if let Some(r) = self.regions[i].1.records[slot] {
                out.push((rx * 32 + (slot % 32) as i32, rz * 32 + (slot / 32) as i32, r));
            }
            slot += 1;
        }
        out
    }

    /// One bit per chunk slot (x + z * 32) of a region, set where a record
    /// exists (`final_only`: only records refreshed from the finished
    /// chunk).
    pub fn present_bitmap(&mut self, rx: i32, rz: i32, final_only: bool) -> (r: Vec<u8>)
        requires
            old(self).wf(),
        ensures
            final(self).wf(),
            final(self)@ == old(self)@.loaded((rx, rz)),
            final(self).dir_name() == old(self).dir_name(),
            r@.len() == 128,
            forall|s: int|
                0 <= s < 1024 ==> #[trigger] crate::lodregion::slot_bit(r@, s) == reported(
                    final(self)@.regions[final(self)@.find((rx, rz))->0].records[s], final_only),
    {
        let i: usize = self.ensure_loaded((rx, rz));
        let ghost records = self@.regions[i as int].records;
        proof { assert(records == self.regions@[i as int].1.records@); }
        let mut flags: Vec<bool> = Vec::new();
        while flags.len() < 1024
            invariant
                flags@.len() <= 1024,
                i < self.regions@.len(),
                records == self.regions@[i as int].1.records@,
                records.len() == 1024,
                forall|s: int| 0 <= s < flags@.len() ==> #[trigger] flags@[s] == reported(records[s], final_only),
            decreases 1024 - flags.len(),
        {
            let flag: bool = match self.regions[i].1.records[flags.len()] {
                Some(r) => !final_only || r.stage == STAGE_FINAL,
                None => false,
            };
            flags.push(flag);
        }
        let r: Vec<u8> = make_bitmap(&flags);
        proof {
            let f = |s: int| flags@[s];
            assert forall|s: int| 0 <= s < 1024 implies #[trigger] crate::lodregion::slot_bit(r@, s) == reported(
                records[s], final_only) by {
                crate::lodregion::lemma_bitmap_of(f, s);
                assert(f(s) == flags@[s]);
            }
        }
        r
    }

    /// Chunks with a record in a chunk's region.
    pub fn region_count(&mut self, chunk_x: i32, chunk_z: i32) -> (r: usize)
        requires
            old(self).wf(),
        ensures
            final(self).wf(),
            final(self)@ == old(self)@.loaded(region_of(chunk_x, chunk_z)),
            final(self).dir_name() == old(self).dir_name(),
            r == present(
                final(self)@.regions[final(self)@.find(region_of(chunk_x, chunk_z))->0].records, 1024),
    {
        let (key, _) = region_slot(chunk_x, chunk_z);
        let i: usize = self.ensure_loaded(key);
        proof { assert(self@.regions[i as int].records == self.regions@[i as int].1.records@); }
        self.regions[i].1.count()
    }

    /// The files of every changed region, which then count as written; one
    /// that could not be written is marked with `mark_changed`. Without a
    /// directory there are none and the records stay in memory. A region
    /// whose file was not handed over waits for it.
    pub fn flush(&mut self) -> (r: Vec<((i32, i32), Vec<u8>)>)
        requires
            old(self).wf(),
        ensures
            final(self).wf(),
            final(self).dir_name() == old(self).dir_name(),
            ({
                let s = old(self)@;
                if s.persists {
                    &&& r@.map_values(|w: ((i32, i32), Vec<u8>)| (w.0, w.1@)) == changed(s.regions, s.hash, s.regions.len())
                    &&& final(self)@ == (Stored {
                        regions: s.regions.map_values(|h: Held| h.written()),
                        ..s
                    })
                } else {
                    r@.len() == 0 && final(self)@ == s
                }
            }),
    {
        let mut out: Vec<((i32, i32), Vec<u8>)> = Vec::new();
        if self.dir.is_none() {
            return out;
        }
        let ghost s = self@;
        let n: usize = self.regions.len();
        let mut kept: Vec<((i32, i32), RegionLod, bool)> = Vec::new();
        let mut rest: Vec<((i32, i32), RegionLod, bool)> = Vec::new();
        std::mem::swap(&mut rest, &mut self.regions);
        let ghost raw = rest@;
        let mut i: usize = 0;
        proof {
            assert(out@.map_values(|w: ((i32, i32), Vec<u8>)| (w.0, w.1@)) =~= changed(s.regions, s.hash, 0));
            assert(raw.skip(0) =~= raw);
        }
        while i < n
            invariant
                n == raw.len(),
                n == s.regions.len(),
                i <= n,
                s.wf(),
                s.hash == self.hash@,
                rest@ == raw.skip(i as int),
                kept@.len() == i,
                forall|k: int|
                    0 <= k < n ==> #[trigger] s.regions[k] == (Held {
                        key: raw[k].0,
                        records: raw[k].1.records@,
                        dirty: raw[k].1.dirty,
                        whole: raw[k].2,
                    }),
                forall|k: int|
                    0 <= k < i ==> (#[trigger] kept@[k]).0 == raw[k].0 && kept@[k].1.records@ == raw[k].1.records@
                        && kept@[k].1.dirty == (raw[k].1.dirty && !raw[k].2) && kept@[k].2 == raw[k].2,
                out@.map_values(|w: ((i32, i32), Vec<u8>)| (w.0, w.1@)) == changed(s.regions, s.hash, i as nat),
                self.max_regions == s.max_regions,
                self.generation == s.generation,
                self.refreshed@ == s.refreshed,
                self.outbox@.map_values(|w: ((i32, i32), Vec<u8>)| (w.0, w.1@)) == s.outbox,
                self.dir == old(self).dir,
            decreases n - i,
        {
            let (key, mut region, whole) = rest.remove(0);
            proof {
                assert(raw.skip(i as int)[0] == raw[i as int]);
                assert(raw.skip(i as int).remove(0) =~= raw.skip(i + 1));
                assert(s.regions[i as int].records.len() == 1024);
            }
            if region.dirty && whole {
                let bytes: Vec<u8> = region.encode(&self.hash);
                let ghost before = out@;
                out.push((key, bytes));
                proof {
                    assert(out@.map_values(|w: ((i32, i32), Vec<u8>)| (w.0, w.1@)) =~= before.map_values(
                        |w: ((i32, i32), Vec<u8>)| (w.0, w.1@)).push((key, bytes@)));
                }
            }
            region.dirty = region.dirty && !whole;
            kept.push((key, region, whole));
            i += 1;
        }
        self.regions = kept;
        proof {
            let t = s.regions.map_values(|h: Held| h.written());
            assert(self@.regions =~= t);
            assert forall|a: int, b: int| 0 <= a < b < t.len() implies (#[trigger] t[a]).key != (#[trigger] t[b]).key by {
                assert(s.regions[a].key != s.regions[b].key);
            }
            assert forall|a: int| 0 <= a < t.len() implies (#[trigger] t[a]).records.len() == 1024 by {
                assert(s.regions[a].records.len() == 1024);
            }
        }
        out
    }
}

impl Stored {
    /// The store with a region to be written again.
    pub open spec fn with_change(self, key: (i32, i32)) -> Stored {
        match self.find(key) {
            Some(i) => Stored { regions: self.regions.update(i, Held { dirty: true, ..self.regions[i] }), ..self },
            None => self,
        }
    }
}

impl LodStore {
    /// A region's file could not be written: it has changes still, and the
    /// next flush writes it.
    pub fn mark_changed(&mut self, rx: i32, rz: i32)
        requires
            old(self).wf(),
        ensures
            final(self).wf(),
            final(self)@ == old(self)@.with_change((rx, rz)),
            final(self).dir_name() == old(self).dir_name(),
    {
        let ghost before = self@;
        if let Some(i) = self.position((rx, rz)) {
            let (key, mut region, whole) = self.regions.remove(i);
            let ghost h = before.regions[i as int];
            proof { assert(h == (Held { key, records: region.records@, dirty: region.dirty, whole })); }
            region.dirty = true;
            self.regions.insert(i, (key, region, whole));
            proof {
                let now = Held { dirty: true, ..h };
                assert(self@.regions =~= before.regions.update(i as int, now));
                lemma_updated(before, i as int, now);
            }
        }
    }
}

/// Whether a slot is reported.
pub open spec fn reported(r: Option<ColumnLod>, final_only: bool) -> bool {
    match r {
        Some(v) => !final_only || v.stage == STAGE_FINAL,
        None => false,
    }
}

/// The value that a coarse cell shows of a record.
pub open spec fn cell_height(r: ColumnLod, cell: int) -> i16 {
    match tallest(r, cell, 256) {
        Some(c) => r.height@[c],
        None => i16::MIN,
    }
}

/// A 16-bit value of a coarse cell's column.
pub open spec fn cell_value(r: ColumnLod, column: Seq<u16>, cell: int) -> u16 {
    match tallest(r, cell, 256) {
        Some(c) => column[c],
        None => 0,
    }
}

/// The water depth that a coarse cell shows.
pub open spec fn cell_depth(r: ColumnLod, cell: int) -> u8 {
    match tallest(r, cell, 256) {
        Some(c) => r.depth@[c],
        None => 0,
    }
}

/// The bytes of the coarse form of a record.
pub open spec fn coarse_body(r: ColumnLod) -> Seq<u8> {
    shorts(unsigned(Seq::new(16, |cell: int| cell_height(r, cell)))) + shorts(
        Seq::new(16, |cell: int| cell_value(r, r.top@, cell)),
    ) + Seq::new(16, |cell: int| cell_depth(r, cell)) + shorts(
        Seq::new(16, |cell: int| cell_value(r, r.floor@, cell)),
    ) + shorts(Seq::new(16, |cell: int| cell_value(r, r.biome@, cell)))
}

proof fn lemma_coarse_body(r: ColumnLod, c: CoarseLod)
    requires
        forall|cell: int| #![trigger tallest(r, cell, 256)] 0 <= cell < 16 ==> shows(c, r, cell, tallest(r, cell, 256)),
    ensures
        coarse_bytes(c) == coarse_body(r),
{
    assert forall|cell: int| 0 <= cell < 16 implies #[trigger] c.height@[cell] == cell_height(r, cell) && c.top@[cell]
        == cell_value(r, r.top@, cell) && c.depth@[cell] == cell_depth(r, cell) && c.floor@[cell] == cell_value(
        r, r.floor@, cell) && c.biome@[cell] == cell_value(r, r.biome@, cell) by {
        assert(shows(c, r, cell, tallest(r, cell, 256)));
    }
    assert(c.height@ =~= Seq::new(16, |cell: int| cell_height(r, cell)));
    assert(c.top@ =~= Seq::new(16, |cell: int| cell_value(r, r.top@, cell)));
    assert(c.depth@ =~= Seq::new(16, |cell: int| cell_depth(r, cell)));
    assert(c.floor@ =~= Seq::new(16, |cell: int| cell_value(r, r.floor@, cell)));
    assert(c.biome@ =~= Seq::new(16, |cell: int| cell_value(r, r.biome@, cell)));
}

/// The bytes of a batch entry's header.
pub open spec fn header_bytes(x: i32, z: i32, flags: int) -> Seq<u8> {
    le((x as u32) as int, 4) + le((z as u32) as int, 4) + le(flags, 4)
}

/// The bytes of a batch entry for a chunk's record.
pub open spec fn entry_bytes(x: i32, z: i32, r: ColumnLod, full: bool) -> Seq<u8> {
    if full {
        header_bytes(x, z, r.stage as int) + record_bytes(r)
    } else {
        header_bytes(x, z, r.stage + BATCH_COARSE) + coarse_body(r)
    }
}

/// A chunk was sent at least as fully as it is wanted.
pub open spec fn was_sent(sent: Map<(i32, i32), Level>, x: i32, z: i32, full: bool) -> bool {
    sent.contains_key((x, z)) && (full ==> sent[(x, z)] is Full)
}

/// A walk over candidates for a batch.
pub ghost struct Walk {
    pub store: Stored,
    pub bytes: Seq<u8>,
    pub taken: Seq<((i32, i32), Level)>,
    /// Candidates looked at.
    pub at: int,
    /// The walk has ended: it took as many as it may, or it met a region
    /// whose file has to be handed over first.
    pub ended: bool,
}

impl Walk {
    /// The walk one candidate further.
    pub open spec fn step(self, c: (i32, i32, bool), sent: Map<(i32, i32), Level>, max: nat) -> Walk {
        let (x, z, full) = c;
        if self.ended || self.taken.len() >= max {
            Walk { ended: true, ..self }
        } else if was_sent(sent, x, z, full) {
            Walk { at: self.at + 1, ..self }
        } else if self.store.persists && !self.store.knows(region_of(x, z)) {
            Walk { ended: true, ..self }
        } else {
            let store = self.store.loaded(region_of(x, z));
            match store.record(x, z) {
                Some(r) => Walk {
                    store,
                    bytes: self.bytes + entry_bytes(x, z, r, full),
                    taken: self.taken.push(((x, z), if full { Level::Full } else { Level::Coarse })),
                    at: self.at + 1,
                    ended: false,
                },
                None => Walk { store, at: self.at + 1, ..self },
            }
        }
    }
}

/// The walk over the first `n` candidates after `from`.
pub open spec fn walk(
    s: Stored, candidates: Seq<(i32, i32, bool)>, sent: Map<(i32, i32), Level>, max: nat, from: int, n: nat,
) -> Walk
    decreases n,
{
    if n == 0 {
        Walk { store: s, bytes: Seq::empty(), taken: Seq::empty(), at: from, ended: false }
    } else {
        walk(s, candidates, sent, max, from, (n - 1) as nat).step(candidates[from + n - 1], sent, max)
    }
}

proof fn lemma_walk_ended(
    s: Stored, candidates: Seq<(i32, i32, bool)>, sent: Map<(i32, i32), Level>, max: nat, from: int, n: nat, m: nat,
)
    requires
        n < m,
        from + m <= candidates.len(),
        walk(s, candidates, sent, max, from, n).step(candidates[from + n], sent, max).ended,
    ensures
        walk(s, candidates, sent, max, from, m) == (Walk { ended: true, ..walk(s, candidates, sent, max, from, n) }),
    decreases m,
{
    if m > n + 1 {
        lemma_walk_ended(s, candidates, sent, max, from, n, (m - 1) as nat);
    }
}

/// Append a 32-bit signed number.
fn push_int(out: &mut Vec<u8>, v: i32)
    ensures
        final(out)@ == old(out)@ + le((v as u32) as int, 4),
{
    push_le(out, (v as u32) as u64, 4);
}

impl LodStore {
    /// Append entries for the candidates (chunk x, chunk z, whether full)
    /// from `from` on that were not sent, up to `max`; the chunks taken,
    /// and the candidate the walk came to. A walk over a store with a
    /// directory stops at a candidate whose region is not in memory: its
    /// file has to be handed over first.
    pub fn take_batch(
        &mut self, candidates: &Vec<(i32, i32, bool)>, sent: &ChunkMap<Level>, from: usize, max: usize, out: &mut Vec<u8>,
    ) -> (r: (Vec<((i32, i32), Level)>, usize))
        requires
            old(self).wf(),
            from <= candidates@.len(),
        ensures
            final(self).wf(),
            final(self).dir_name() == old(self).dir_name(),
            ({
                let w = walk(old(self)@, candidates@, sent@, max as nat, from as int, (candidates@.len() - from) as nat);
                &&& final(self)@ == w.store
                &&& final(out)@ == old(out)@ + w.bytes
                &&& r.0@ == w.taken
                &&& r.1 == w.at
                &&& r.1 <= candidates@.len()
            }),
    {
        let ghost start = self@;
        let ghost head = out@;
        let ghost total = (candidates@.len() - from) as nat;
        let mut taken: Vec<((i32, i32), Level)> = Vec::new();
        let mut i: usize = from;
        proof { assert(out@ =~= head + Seq::<u8>::empty()); }
        while i < candidates.len()
            invariant
                from <= i <= candidates@.len(),
                total == candidates@.len() - from,
                start == old(self)@,
                head == old(out)@,
                self.wf(),
                self.dir_name() == old(self).dir_name(),
                ({
                    let w = walk(start, candidates@, sent@, max as nat, from as int, (i - from) as nat);
                    &&& self@ == w.store
                    &&& out@ == head + w.bytes
                    &&& taken@ == w.taken
                    &&& i == w.at
                    &&& !w.ended
                }),
            decreases candidates.len() - i,
        {
            let (x, z, full) = candidates[i];
            let ghost n = (i - from) as nat;
            let ghost w = walk(start, candidates@, sent@, max as nat, from as int, n);
            proof {
                assert(candidates@[from + n] == (x, z, full));
                assert(walk(start, candidates@, sent@, max as nat, from as int, n + 1) == w.step((x, z, full), sent@, max as nat));
            }
            if taken.len() >= max {
                proof { lemma_walk_ended(start, candidates@, sent@, max as nat, from as int, n, total); }
                return (taken, i);
            }
            let had: bool = match sent.get(x, z) {
                Some(level) => match level {
                    Level::Full => true,
                    Level::Coarse => !full,
                },
                None => false,
            };
            if !had {
                let (key, slot) = region_slot(x, z);
                if self.dir.is_some() && !self.is_loaded(key.0, key.1) {
                    proof { lemma_walk_ended(start, candidates@, sent@, max as nat, from as int, n, total); }
                    return (taken, i);
                }
                if let Some(record) = self.get(x, z) {
                    let ghost before = out@;
                    push_int(out, x);
                    push_int(out, z);
                    if full {
                        push_le(out, record.stage as u64, 4);
                        record.write_to(out);
                        taken.push(((x, z), Level::Full));
                    } else {
                        push_le(out, record.stage as u64 + 256, 4);
                        let coarse = CoarseLod::of(&record);
                        coarse.write_to(out);
                        proof { lemma_coarse_body(record, coarse); }
                        taken.push(((x, z), Level::Coarse));
                    }
                    proof {
                        assert(out@ =~= before + entry_bytes(x, z, record, full));
                        assert(head + (w.bytes + entry_bytes(x, z, record, full)) =~= out@);
                    }
                }
            }
            i += 1;
        }
        (taken, i)
    }
}

/// What was put into a store is what it gives back.
pub proof fn law_insert_then_get(s: Stored, x: i32, z: i32, r: ColumnLod)
    requires
        s.wf(),
        s.generation < u64::MAX,
    ensures
        s.loaded(region_of(x, z)).replaced(x, z, r).record(x, z) == Some(r),
{
    let key = region_of(x, z);
    lemma_loaded(s, key);
    let t = s.loaded(key);
    lemma_find(t.regions, key, t.regions.len());
    let i = t.find(key)->0;
    let u = t.replaced(x, z, r);
    assert(u.regions[i].key == key);
    lemma_replaced_wf(t, x, z, r);
    lemma_find_is(u, key, i);
}

/// Putting in one chunk's record leaves the other chunks of loaded regions
/// as they are.
pub proof fn law_insert_keeps_others(s: Stored, x: i32, z: i32, r: ColumnLod, px: i32, pz: i32)
    requires
        s.wf(),
        s.generation < u64::MAX,
        s.find(region_of(x, z)) is Some,
        (px, pz) != (x, z),
    ensures
        s.replaced(x, z, r).record(px, pz) == s.record(px, pz),
{
    let key = region_of(x, z);
    let k2 = region_of(px, pz);
    lemma_find(s.regions, key, s.regions.len());
    lemma_find(s.regions, k2, s.regions.len());
    let u = s.replaced(x, z, r);
    lemma_replaced_wf(s, x, z, r);
    let i = s.find(key)->0;
    if let Some(j) = s.find(k2) {
        assert(u.regions[j].key == k2);
        lemma_find_is(u, k2, j);
        if i == j {
            if slot_of(px, pz) == slot_of(x, z) {
                crate::lodregion::law_region_slot_determines((px, pz), (x, z));
            }
        }
    } else {
        lemma_find(u.regions, k2, u.regions.len());
        if let Some(j) = u.find(k2) {
            assert(s.regions[j].key == k2);
        }
    }
}

/// A store without one of its regions is consistent.
proof fn lemma_without(s: Stored, i: int)
    requires
        s.wf(),
        0 <= i < s.regions.len(),
    ensures
        s.without(i).wf(),
        forall|j: int| 0 <= j < s.without(i).regions.len() ==> s.regions.contains(#[trigger] s.without(i).regions[j]),
{
    let t = s.without(i);
    assert forall|j: int| 0 <= j < t.regions.len() implies s.regions.contains(#[trigger] t.regions[j]) && t.regions[j].records.len()
        == 1024 by {
        let k = if j < i { j } else { j + 1 };
        assert(t.regions[j] == s.regions[k]);
    }
    assert forall|a: int, b: int| 0 <= a < b < t.regions.len() implies (#[trigger] t.regions[a]).key != (
    #[trigger] t.regions[b]).key by {
        let ka = if a < i { a } else { a + 1 };
        let kb = if b < i { b } else { b + 1 };
        assert(t.regions[a] == s.regions[ka] && t.regions[b] == s.regions[kb]);
    }
}

/// Making room brings in no region, and leaves all but the regions and the
/// files to be written.
pub(crate) proof fn lemma_with_room(s: Stored, key: (i32, i32))
    requires
        s.wf(),
        s.find(key) is None,
    ensures
        s.with_room().wf(),
        s.with_room().find(key) is None,
        s.with_room() == (Stored { regions: s.with_room().regions, outbox: s.with_room().outbox, ..s }),
    decreases s.regions.len(),
{
    lemma_first_to_go(s.regions, 0);
    if s.persists && s.regions.len() >= s.max_regions {
        if let Some(i) = first_to_go(s.regions, 0) {
            let t = s.without(i);
            lemma_without(s, i);
            lemma_find(s.regions, key, s.regions.len());
            lemma_find(t.regions, key, t.regions.len());
            if let Some(j) = t.find(key) {
                assert(s.regions.contains(t.regions[j]));
            }
            lemma_with_room(t, key);
        }
    }
}

/// A store with a region changed is consistent.
pub(crate) proof fn lemma_updated(s: Stored, i: int, h: Held)
    requires
        s.wf(),
        0 <= i < s.regions.len(),
        h.key == s.regions[i].key,
        h.records.len() == 1024,
    ensures
        (Stored { regions: s.regions.update(i, h), ..s }).wf(),
{
    let u = s.regions.update(i, h);
    assert forall|a: int, b: int| 0 <= a < b < u.len() implies (#[trigger] u[a]).key != (#[trigger] u[b]).key by {
        assert(s.regions[a].key != s.regions[b].key);
    }
    assert forall|a: int| 0 <= a < u.len() implies (#[trigger] u[a]).records.len() == 1024 by {
        assert(s.regions[a].records.len() == 1024);
    }
}

/// A store with one more region is consistent.
pub(crate) proof fn lemma_pushed(s: Stored, h: Held)
    requires
        s.wf(),
        s.find(h.key) is None,
        h.records.len() == 1024,
    ensures
        (Stored { regions: s.regions.push(h), ..s }).wf(),
{
    lemma_find(s.regions, h.key, s.regions.len());
    let u = s.regions.push(h);
    assert forall|a: int, b: int| 0 <= a < b < u.len() implies (#[trigger] u[a]).key != (#[trigger] u[b]).key by {
        assert(u[a] == s.regions[a]);
    }
}

pub(crate) proof fn lemma_loaded(s: Stored, key: (i32, i32))
    requires
        s.wf(),
    ensures
        s.loaded(key).wf(),
        s.loaded(key).find(key) is Some,
        s.loaded(key) == (Stored { regions: s.loaded(key).regions, outbox: s.loaded(key).outbox, ..s }),
{
    lemma_find(s.regions, key, s.regions.len());
    if s.find(key) is None {
        let room = s.with_room();
        lemma_with_room(s, key);
        let t = s.loaded(key);
        lemma_pushed(room, t.regions[room.regions.len() as int]);
        lemma_find_is(t, key, room.regions.len() as int);
    }
}

pub(crate) proof fn lemma_replaced_wf(s: Stored, x: i32, z: i32, r: ColumnLod)
    requires
        s.wf(),
        s.generation < u64::MAX,
        s.find(region_of(x, z)) is Some,
    ensures
        s.replaced(x, z, r).wf(),
{
    lemma_find(s.regions, region_of(x, z), s.regions.len());
    let u = s.replaced(x, z, r);
    let i = s.find(region_of(x, z))->0;
    lemma_updated(s, i, u.regions[i]);
}

/// The records of a region come back as they were when its file, as a store
/// with the same hash writes it, is loaded; a store with another hash takes
/// none of them.
pub proof fn law_written_region_loads_back(records: Seq<Option<ColumnLod>>, hash: Seq<u8>, other: Seq<u8>, back: Seq<Option<ColumnLod>>)
    requires
        records.len() == 1024,
        hash.len() == 16,
        came_from(back, Some(region_bytes(records, hash)), other),
    ensures
        other == hash ==> forall|s: int| #![trigger back[s]] 0 <= s < 1024 ==> match records[s] {
            Some(r) => back[s] matches Some(q) && same_record(q, r),
            None => back[s] is None,
        },
        other != hash ==> back == no_records(),
{
    law_written_file_is_whole(records, hash);
    if other == hash {
        law_region_round_trip(records, hash, back);
    }
}

} // verus!
