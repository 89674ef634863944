//! The records that a client received.

use vstd::prelude::*;
use crate::bytes::{from_le, le, read_le};
use crate::chunkmap::ChunkMap;
use crate::lod26::{
    coarse_bytes, record_bytes, CoarseLod, ColumnLod, RecordRef, COARSE_BYTES, RECORD_BYTES, STAGE_FINAL,
};
use crate::lodregion::{has_bit, lemma_bitmap_of, make_bitmap, region_of, region_slot, slot_bit};
use crate::lodstore::{changed, handed_over, header_bytes, listed, region_in_world, reported, Held, LodStore, Stored};
use crate::sort::{bag, sort_by_key};

verus! {

/// Regions the client keeps in memory from disk beyond its records.
pub const CLIENT_DISK_REGIONS: usize = 64;

/// What an entry carries.
pub ghost enum Body {
    Full(ColumnLod),
    Coarse(CoarseLod),
}

/// An entry of a batch.
pub ghost struct Entry {
    pub x: i32,
    pub z: i32,
    pub flags: u32,
    pub body: Body,
}

/// The flag that marks a coarse entry.
pub open spec fn is_coarse(flags: int) -> bool {
    (flags / 256) % 2 == 1
}

impl Entry {
    /// The flags tell the body; a full record takes its stage from them.
    pub open spec fn wf(self) -> bool {
        match self.body {
            Body::Full(r) => !is_coarse(self.flags as int) && r.stage == self.flags % 256,
            Body::Coarse(_) => is_coarse(self.flags as int),
        }
    }

    pub open spec fn bytes(self) -> Seq<u8> {
        header_bytes(self.x, self.z, self.flags as int) + match self.body {
            Body::Full(r) => record_bytes(r),
            Body::Coarse(c) => coarse_bytes(c),
        }
    }
}

/// The bytes of the first `n` entries.
pub open spec fn batch_bytes(entries: Seq<Entry>, n: nat) -> Seq<u8>
    decreases n,
{
    if n == 0 {
        Seq::empty()
    } else {
        batch_bytes(entries, (n - 1) as nat) + entries[n - 1].bytes()
    }
}

/// The bytes are these entries.
pub open spec fn carries(entries: Seq<Entry>, b: Seq<u8>) -> bool {
    &&& b == batch_bytes(entries, entries.len())
    &&& forall|i: int| 0 <= i < entries.len() ==> (#[trigger] entries[i]).wf()
}

/// Bytes of the body after a header at `at`.
pub open spec fn body_size(b: Seq<u8>, at: int) -> int {
    if is_coarse(from_le(b.subrange(at + 8, at + 12))) { COARSE_BYTES as int } else { RECORD_BYTES as int }
}

/// How many whole entries the bytes from `at` on hold; none when the last
/// is torn.
pub open spec fn whole_entries(b: Seq<u8>, at: int) -> Option<nat>
    decreases b.len() - at,
{
    if at >= b.len() {
        Some(0)
    } else if at + 12 > b.len() || at + 12 + body_size(b, at) > b.len() {
        None
    } else {
        match whole_entries(b, at + 12 + body_size(b, at)) {
            Some(n) => Some(n + 1),
            None => None,
        }
    }
}

/// What a client holds.
pub ghost struct Client {
    pub records: Map<(i32, i32), ColumnLod>,
    /// Outer-ring records at one cell per 4x4 columns.
    pub coarse: Map<(i32, i32), CoarseLod>,
    /// Records that landed in each region.
    pub generations: Map<(i32, i32), u64>,
    pub cap: nat,
    /// Regions whose file records are in memory.
    pub warmed: Set<(i32, i32)>,
    pub disk: Option<Stored>,
}

/// How many records have landed in a region.
pub open spec fn landed(generations: Map<(i32, i32), u64>, key: (i32, i32)) -> u64 {
    if generations.contains_key(key) { generations[key] } else { 0 }
}

/// `n` more records landed in a region.
pub open spec fn bumped(generations: Map<(i32, i32), u64>, key: (i32, i32), n: int) -> Map<(i32, i32), u64> {
    generations.insert(key, (landed(generations, key) + n) as u64)
}

impl Client {
    /// The client with one more entry. A coarse entry for a chunk held in
    /// full is ignored; a full one replaces the coarse record and is kept on
    /// disk as well.
    pub open spec fn with_entry(self, e: Entry) -> Client {
        let key = (e.x, e.z);
        match e.body {
            Body::Coarse(c) => if self.records.contains_key(key) {
                self
            } else {
                Client {
                    coarse: self.coarse.insert(key, c),
                    generations: bumped(self.generations, region_of(e.x, e.z), 1),
                    ..self
                }
            },
            Body::Full(r) => Client {
                records: self.records.insert(key, r),
                coarse: self.coarse.remove(key),
                generations: bumped(self.generations, region_of(e.x, e.z), 1),
                disk: match self.disk {
                    Some(s) => Some(s.loaded(region_of(e.x, e.z)).replaced(e.x, e.z, r)),
                    None => None,
                },
                ..self
            },
        }
    }

    /// The client with the first `n` entries.
    pub open spec fn with_entries(self, entries: Seq<Entry>, n: nat) -> Client
        decreases n,
    {
        if n == 0 {
            self
        } else {
            self.with_entries(entries, (n - 1) as nat).with_entry(entries[n - 1])
        }
    }

    /// The counters can take `n` more records.
    pub open spec fn can_count(self, n: int) -> bool {
        &&& forall|p: (i32, i32)| #[trigger] self.generations.contains_key(p) ==> self.generations[p] + n <= u64::MAX
        &&& self.disk matches Some(s) ==> s.generation + n <= u64::MAX
    }
}

/// The square of the distance between two chunks.
pub open spec fn away(p: (i32, i32), c: (i32, i32)) -> int {
    (p.0 - c.0) * (p.0 - c.0) + (p.1 - c.1) * (p.1 - c.1)
}

/// Of the chunks of a map `n` are left, and none that went is nearer to the
/// centre than one that stayed.
pub open spec fn kept_nearest<V>(before: Map<(i32, i32), V>, after: Map<(i32, i32), V>, n: nat, c: (i32, i32)) -> bool {
    &&& after.submap_of(before)
    &&& after.dom().len() == n
    &&& forall|p: (i32, i32), q: (i32, i32)|
        before.contains_key(p) && !after.contains_key(p) && after.contains_key(q) ==> #[trigger] away(p, c) >= #[trigger] away(q, c)
}

/// The client after records past its bounds went: over the cap the nearest
/// half of the cap stays. A region that lost a record may be warmed again.
pub open spec fn bounded(before: Client, after: Client, c: (i32, i32)) -> bool {
    &&& after.generations == before.generations
    &&& after.cap == before.cap
    &&& after.disk == before.disk
    &&& if before.records.dom().len() > before.cap {
        &&& kept_nearest(before.records, after.records, before.cap / 2, c)
        &&& forall|k: (i32, i32)|
            #[trigger] after.warmed.contains(k) <==> before.warmed.contains(k) && !lost(before.records, after.records, k)
    } else {
        after.records == before.records && after.warmed == before.warmed
    }
    &&& if before.coarse.dom().len() > before.cap * 8 {
        kept_nearest(before.coarse, after.coarse, (before.cap * 8) / 2, c)
    } else {
        after.coarse == before.coarse
    }
}

/// A region lost a record.
pub open spec fn lost<V>(before: Map<(i32, i32), V>, after: Map<(i32, i32), V>, key: (i32, i32)) -> bool {
    exists|p: (i32, i32)| #[trigger] before.contains_key(p) && !after.contains_key(p) && region_of(p.0, p.1) == key
}

proof fn lemma_square(a: int)
    requires
        -0x1_0000_0000 <= a <= 0x1_0000_0000,
    ensures
        0 <= a * a <= 0x1_0000_0000_0000_0000,
{
    assert(0 <= a * a <= 0x1_0000_0000_0000_0000) by (nonlinear_arith)
        requires
            -0x1_0000_0000 <= a <= 0x1_0000_0000,
    ;
}

/// Drop the farthest chunks until `keep` are left; the chunks that went.
fn evict<V>(map: &mut ChunkMap<V>, keep: usize, cx: i32, cz: i32) -> (gone: Vec<(i32, i32)>)
    requires
        old(map)@.dom().len() >= keep,
    ensures
        kept_nearest(old(map)@, final(map)@, keep as nat, (cx, cz)),
        forall|p: (i32, i32)| #[trigger]
            gone@.contains(p) <==> old(map)@.contains_key(p) && !final(map)@.contains_key(p),
{
    let ghost start = map@;
    let chunks: Vec<(i32, i32)> = map.chunks();
    let mut pairs: Vec<(i128, (i32, i32))> = Vec::new();
    while pairs.len() < chunks.len()
        invariant
            pairs@.len() <= chunks@.len(),
            forall|i: int| 0 <= i < pairs@.len() ==> (#[trigger] pairs@[i]).1 == chunks@[i],
            forall|i: int| 0 <= i < pairs@.len() ==> (#[trigger] pairs@[i]).0 == -away(pairs@[i].1, (cx, cz)),
        decreases chunks.len() - pairs.len(),
    {
        let (x, z) = chunks[pairs.len()];
        let dx: i128 = x as i128 - cx as i128;
        let dz: i128 = z as i128 - cz as i128;
        proof {
            lemma_square(dx as int);
            lemma_square(dz as int);
        }
        pairs.push((-(dx * dx + dz * dz), (x, z)));
    }
    let sorted: Vec<(i128, (i32, i32))> = sort_by_key(&pairs);
    let ghost order = sorted@.map_values(|q: (i128, (i32, i32))| q.1);
    proof { lemma_sorted_chunks(chunks@, pairs@, sorted@, (cx, cz)); }
    let drop: usize = sorted.len() - keep;
    let mut gone: Vec<(i32, i32)> = Vec::new();
    while gone.len() < drop
        invariant
            order == sorted@.map_values(|q: (i128, (i32, i32))| q.1),
            order.no_duplicates(),
            drop <= order.len(),
            gone@.len() <= drop,
            gone@ == order.take(gone@.len() as int),
            start.dom().finite(),
            forall|p: (i32, i32)| #[trigger] order.contains(p) <==> start.contains_key(p),
            forall|p: (i32, i32)| #[trigger] map@.contains_key(p) <==> start.contains_key(p) && !gone@.contains(p),
            forall|p: (i32, i32)| #[trigger] map@.contains_key(p) ==> map@[p] == start[p],
            map@.dom().finite(),
            map@.dom().len() == start.dom().len() - gone@.len(),
        decreases drop - gone.len(),
    {
        let ghost i = gone@.len() as int;
        let (x, z) = sorted[gone.len()].1;
        proof {
            assert(order[i] == (x, z));
            assert(order.contains((x, z)));
            assert(!gone@.contains((x, z)));
            assert(map@.contains_key((x, z)));
        }
        let ghost before = gone@;
        map.remove(x, z);
        gone.push((x, z));
        proof {
            assert(gone@ =~= order.take(i + 1));
            assert forall|p: (i32, i32)| #[trigger] gone@.contains(p) <==> before.contains(p) || p == (x, z) by {
                if before.contains(p) {
                    let k = choose|k: int| 0 <= k < before.len() && before[k] == p;
                    assert(gone@[k] == p);
                }
                assert(gone@[i] == (x, z));
            }
        }
    }
    proof {
        assert forall|p: (i32, i32), q: (i32, i32)|
            start.contains_key(p) && !map@.contains_key(p) && map@.contains_key(q) implies #[trigger] away(p, (cx, cz))
            >= #[trigger] away(q, (cx, cz)) by {
            assert(gone@.contains(p));
            let k = choose|k: int| 0 <= k < gone@.len() && gone@[k] == p;
            assert(order.contains(q));
            let m = choose|m: int| 0 <= m < order.len() && order[m] == q;
            if m < drop {
                assert(gone@[m] == q);
                assert(gone@.contains(q));
            }
            assert(order[k] == p);
            assert(sorted@[k].1 == p && sorted@[m].1 == q);
            assert(sorted@[k].0 <= sorted@[m].0);
        }
        assert(map@.submap_of(start));
        assert forall|p: (i32, i32)| #[trigger] gone@.contains(p) implies start.contains_key(p) && !map@.contains_key(p) by {
            let k = choose|k: int| 0 <= k < gone@.len() && gone@[k] == p;
            assert(order[k] == p);
            assert(order.contains(p));
            if map@.contains_key(p) {
                assert(!gone@.contains(p));
            }
        }
        assert forall|p: (i32, i32)| start.contains_key(p) && !map@.contains_key(p) implies #[trigger] gone@.contains(p) by {
            assert(map@.contains_key(p) <==> start.contains_key(p) && !gone@.contains(p));
        }
    }
    gone
}

/// Sorted pairs list the chunks they were made of.
proof fn lemma_sorted_chunks(
    chunks: Seq<(i32, i32)>, pairs: Seq<(i128, (i32, i32))>, sorted: Seq<(i128, (i32, i32))>, c: (i32, i32),
)
    requires
        chunks.no_duplicates(),
        pairs.len() == chunks.len(),
        forall|i: int| 0 <= i < pairs.len() ==> (#[trigger] pairs[i]).1 == chunks[i],
        forall|i: int| 0 <= i < pairs.len() ==> (#[trigger] pairs[i]).0 == -away(pairs[i].1, c),
        bag(sorted) == bag(pairs),
        sorted.len() == pairs.len(),
    ensures
        ({
            let order = sorted.map_values(|q: (i128, (i32, i32))| q.1);
            &&& order.no_duplicates()
            &&& forall|p: (i32, i32)| #[trigger] order.contains(p) <==> chunks.contains(p)
            &&& forall|i: int| 0 <= i < sorted.len() ==> (#[trigger] sorted[i]).0 == -away(sorted[i].1, c)
        }),
{
    broadcast use vstd::seq_lib::group_to_multiset_ensures;
    let order = sorted.map_values(|q: (i128, (i32, i32))| q.1);
    assert(pairs.no_duplicates()) by {
        assert forall|i: int, j: int| 0 <= i < pairs.len() && 0 <= j < pairs.len() && i != j implies pairs[i] != pairs[j] by {
            assert(chunks[i] != chunks[j]);
        }
    }
    pairs.lemma_multiset_has_no_duplicates();
    assert forall|q: (i128, (i32, i32))| bag(sorted).contains(q) implies bag(sorted).count(q) == 1 by {
        assert(pairs.to_multiset().contains(q));
    }
    sorted.lemma_multiset_has_no_duplicates_conv();
    assert forall|q: (i128, (i32, i32))| sorted.contains(q) <==> pairs.contains(q) by {
        assert(sorted.contains(q) <==> sorted.to_multiset().count(q) > 0);
        assert(pairs.contains(q) <==> pairs.to_multiset().count(q) > 0);
    }
    assert forall|i: int| 0 <= i < sorted.len() implies (#[trigger] sorted[i]).0 == -away(sorted[i].1, c) by {
        assert(sorted.contains(sorted[i]));
        assert(pairs.contains(sorted[i]));
    }
    assert forall|i: int, j: int| 0 <= i < order.len() && 0 <= j < order.len() && i != j implies order[i] != order[j] by {
        assert(sorted[i] != sorted[j]);
        assert(sorted[i].0 == -away(sorted[i].1, c));
        assert(sorted[j].0 == -away(sorted[j].1, c));
    }
    assert forall|p: (i32, i32)| #[trigger] order.contains(p) <==> chunks.contains(p) by {
        if order.contains(p) {
            let i = choose|i: int| 0 <= i < order.len() && order[i] == p;
            assert(sorted.contains(sorted[i]));
            let k = choose|k: int| 0 <= k < pairs.len() && pairs[k] == sorted[i];
            assert(chunks[k] == p);
        }
        if chunks.contains(p) {
            let k = choose|k: int| 0 <= k < chunks.len() && chunks[k] == p;
            assert(pairs.contains(pairs[k]));
            let i = choose|i: int| 0 <= i < sorted.len() && sorted[i] == pairs[k];
            assert(order[i] == p);
        }
    }
}

/// Read a 32-bit signed number.
fn read_int(bytes: &[u8], at: usize) -> (r: i32)
    requires
        at + 4 <= bytes@.len(),
    ensures
        le((r as u32) as int, 4) == bytes@.subrange(at as int, at + 4),
{
    let v: u64 = read_le(bytes, at, 4);
    proof {
        crate::bytes::lemma_capacities();
        crate::bytes::lemma_signed32(v as u32);
    }
    #[verifier::truncate]
    let r: i32 = (v as u32) as i32;
    r
}

/// Records a list brings in where there was none.
pub open spec fn filled_in(
    records: Map<(i32, i32), ColumnLod>, list: Seq<(i32, i32, ColumnLod)>, n: nat,
) -> Map<(i32, i32), ColumnLod>
    decreases n,
{
    if n == 0 {
        records
    } else {
        let rest = filled_in(records, list, (n - 1) as nat);
        let (x, z, r) = list[n - 1];
        if rest.contains_key((x, z)) { rest } else { rest.insert((x, z), r) }
    }
}

/// How many records a list brings in where there was none.
pub open spec fn fills(records: Map<(i32, i32), ColumnLod>, list: Seq<(i32, i32, ColumnLod)>, n: nat) -> nat
    decreases n,
{
    if n == 0 {
        0
    } else {
        let (x, z, r) = list[n - 1];
        fills(records, list, (n - 1) as nat) + if filled_in(records, list, (n - 1) as nat).contains_key((x, z)) {
            0nat
        } else {
            1nat
        }
    }
}

/// The files of a store's changed regions, those put out first.
pub open spec fn pending(s: Stored) -> Seq<((i32, i32), Seq<u8>)> {
    if s.persists { changed(s.regions, s.hash, s.regions.len()) } else { Seq::empty() }
}

/// A store with every region written.
pub open spec fn written(s: Stored) -> Stored {
    if s.persists {
        Stored { regions: s.regions.map_values(|h: Held| h.written()), ..s }
    } else {
        s
    }
}

/// Files to be written, as bytes.
pub open spec fn files(v: Seq<((i32, i32), Vec<u8>)>) -> Seq<((i32, i32), Seq<u8>)> {
    v.map_values(|w: ((i32, i32), Vec<u8>)| (w.0, w.1@))
}

/// The records a client received, bounded; the farthest from the last
/// centre go first when the bound is passed.
pub struct ClientStore {
    records: ChunkMap<ColumnLod>,
    /// Bumped per 32x32 chunk region on every record that lands in it, so a
    /// mesh knows it is stale.
    generations: ChunkMap<u64>,
    cap: usize,
    /// Region files under the client's own directory, written through and
    /// read back on approach.
    disk: Option<LodStore>,
    /// Regions whose file records have been loaded into memory.
    warmed: ChunkMap<bool>,
    /// Outer-ring records at one cell per 4x4 columns; a full record
    /// replaces one.
    coarse: ChunkMap<CoarseLod>,
}

impl View for ClientStore {
    type V = Client;

    closed spec fn view(&self) -> Client {
        Client {
            records: self.records@,
            coarse: self.coarse@,
            generations: self.generations@,
            cap: self.cap as nat,
            warmed: self.warmed@.dom(),
            disk: match self.disk {
                Some(d) => Some(d@),
                None => None,
            },
        }
    }
}

impl ClientStore {
    pub open spec fn wf(&self) -> bool {
        &&& self@.cap >= 1
        &&& self@.disk matches Some(s) ==> s.wf()
    }

    pub fn new(cap: usize) -> (r: ClientStore)
        ensures
            r.wf(),
            r@ == (Client {
                records: Map::empty(),
                coarse: Map::empty(),
                generations: Map::empty(),
                cap: if cap == 0 { 1 } else { cap as nat },
                warmed: Set::empty(),
                disk: None,
            }),
    {
        let r = ClientStore {
            records: ChunkMap::new(),
            generations: ChunkMap::new(),
            cap: if cap == 0 { 1 } else { cap },
            disk: None,
            warmed: ChunkMap::new(),
            coarse: ChunkMap::new(),
        };
        proof { assert(r@.warmed =~= Set::empty()); }
        r
    }

    /// Persist under `dir`, whose files are tagged with `hash` (the world
    /// id).
    pub fn open(&mut self, dir: String, hash: [u8; 16])
        requires
            old(self).wf(),
        ensures
            final(self).wf(),
            final(self)@.disk is Some,
            ({
                let s = final(self)@.disk->0;
                &&& s.hash == hash@
                &&& s.max_regions == CLIENT_DISK_REGIONS
                &&& s.persists
                &&& s.regions == Seq::<Held>::empty()
                &&& s.generation == 0
                &&& s.outbox == Seq::<((i32, i32), Seq<u8>)>::empty()
            }),
            final(self)@ == (Client { warmed: Set::empty(), disk: final(self)@.disk, ..old(self)@ }),
    {
        let mut store = LodStore::with_max_regions(hash, CLIENT_DISK_REGIONS);
        store.set_dir(dir);
        self.disk = Some(store);
        self.warmed.clear();
        proof { assert(self@.warmed =~= Set::empty()); }
    }

    /// Whether a region's file has to be handed over before the region is
    /// looked at.
    pub fn needs_file(&self, rx: i32, rz: i32) -> (r: bool)
        requires
            self.wf(),
        ensures
            r == (self@.disk matches Some(s) && !s.knows((rx, rz))),
    {
        match &self.disk {
            Some(d) => !d.is_loaded(rx, rz),
            None => false,
        }
    }

    /// Hand over a region's file, or that there is none. Records of the
    /// region that are held already stay.
    pub fn load(&mut self, rx: i32, rz: i32, file: Option<&[u8]>)
        requires
            old(self).wf(),
        ensures
            final(self).wf(),
            final(self)@ == (Client { disk: final(self)@.disk, ..old(self)@ }),
            old(self)@.disk is None ==> final(self)@.disk is None,
            old(self)@.disk matches Some(s) ==> {
                &&& final(self)@.disk matches Some(t)
                &&& handed_over(
                    s,
                    t,
                    (rx, rz),
                    match file {
                        Some(b) => Some(b@),
                        None => None,
                    },
                )
            },
    {
        match &mut self.disk {
            Some(d) => d.load(rx, rz, file),
            None => {},
        }
    }

    /// Bring a region's file records into memory once; returns how many
    /// came in. A region whose file was not handed over waits for it.
    pub fn warm(&mut self, rx: i32, rz: i32) -> (r: usize)
        requires
            old(self).wf(),
            region_in_world(rx, rz),
            old(self)@.can_count(1024),
        ensures
            final(self).wf(),
            ({
                let c = old(self)@;
                match c.disk {
                    None => r == 0 && final(self)@ == c,
                    Some(s) => if c.warmed.contains((rx, rz)) || !s.knows((rx, rz)) {
                        r == 0 && final(self)@ == c
                    } else {
                        let list = listed(s.regions[s.find((rx, rz))->0].records, rx, rz, 1024);
                        &&& r == fills(c.records, list, list.len())
                        &&& final(self)@ == (Client {
                            records: filled_in(c.records, list, list.len()),
                            warmed: c.warmed.insert((rx, rz)),
                            generations: if r > 0 { bumped(c.generations, (rx, rz), r as int) } else { c.generations },
                            ..c
                        })
                    },
                }
            }),
    {
        let ghost c = self@;
        if self.disk.is_none() || self.warmed.contains(rx, rz) || self.needs_file(rx, rz) {
            return 0;
        }
        self.warmed.insert(rx, rz, true);
        proof { assert(self.warmed@.dom() =~= c.warmed.insert((rx, rz))); }
        let list: Vec<(i32, i32, ColumnLod)> = match &mut self.disk {
            Some(d) => d.region_records(rx, rz),
            None => Vec::new(),
        };
        let ghost t = c.disk->0;
        proof {
            crate::lodstore::lemma_listed_len(t.regions[t.find((rx, rz))->0].records, rx, rz, 1024);
        }
        let mut count: usize = 0;
        let mut i: usize = 0;
        while i < list.len()
            invariant
                i <= list@.len(),
                list@.len() <= 1024,
                count <= i,
                count == fills(c.records, list@, i as nat),
                self.records@ == filled_in(c.records, list@, i as nat),
                self.generations@ == c.generations,
                self.coarse@ == c.coarse,
                self.cap == c.cap,
                self.warmed@.dom() == c.warmed.insert((rx, rz)),
                self.disk is Some,
                self.disk->0@ == t,
            decreases list.len() - i,
        {
            let (x, z, record) = list[i];
            if !self.records.contains(x, z) {
                self.records.insert(x, z, record);
                count += 1;
            }
            i += 1;
        }
        if count > 0 {
            self.bump((rx, rz), count as u64);
        }
        count
    }

    /// Count records that landed in a region.
    fn bump(&mut self, key: (i32, i32), n: u64)
        requires
            landed(old(self)@.generations, key) + n <= u64::MAX,
        ensures
            final(self)@ == (Client { generations: bumped(old(self)@.generations, key, n as int), ..old(self)@ }),
    {
        let have: u64 = match self.generations.get(key.0, key.1) {
            Some(v) => *v,
            None => 0,
        };
        self.generations.insert(key.0, key.1, have + n);
    }

    /// One bit per chunk of a region the client holds in its final form, on
    /// disk or in memory; generator-surface records are left out so the
    /// finished ones replace them.
    pub fn have(&mut self, rx: i32, rz: i32) -> (r: Vec<u8>)
        requires
            old(self).wf(),
            region_in_world(rx, rz),
        ensures
            final(self).wf(),
            final(self)@ == (Client {
                disk: match old(self)@.disk {
                    Some(s) => Some(s.loaded((rx, rz))),
                    None => None,
                },
                ..old(self)@
            }),
            r@.len() == 128,
            forall|s: int|
                0 <= s < 1024 ==> #[trigger] slot_bit(r@, s) == (disk_reports(final(self)@.disk, rx, rz, s) || memory_reports(
                    old(self)@.records, rx, rz, s)),
    {
        let ghost c = self@;
        let on_disk: Vec<u8> = match &mut self.disk {
            Some(d) => d.present_bitmap(rx, rz, true),
            None => Vec::new(),
        };
        proof {
            assert forall|s: int| 0 <= s < 1024 implies #[trigger] slot_bit(on_disk@, s) == disk_reports(
                self@.disk, rx, rz, s) by {}
        }
        let mut flags: Vec<bool> = Vec::new();
        while flags.len() < 1024
            invariant
                flags@.len() <= 1024,
                region_in_world(rx, rz),
                self.records@ == c.records,
                forall|s: int| 0 <= s < 1024 ==> #[trigger] slot_bit(on_disk@, s) == disk_reports(self@.disk, rx, rz, s),
                forall|s: int|
                    0 <= s < flags@.len() ==> #[trigger] flags@[s] == (disk_reports(self@.disk, rx, rz, s) || memory_reports(
                        c.records, rx, rz, s)),
            decreases 1024 - flags.len(),
        {
            let s: usize = flags.len();
            let x: i32 = rx * 32 + (s % 32) as i32;
            let z: i32 = rz * 32 + (s / 32) as i32;
            let here: bool = match self.records.get(x, z) {
                Some(r) => r.stage == STAGE_FINAL,
                None => false,
            };
            let there: bool = has_bit(on_disk.as_slice(), s);
            proof {
                assert(slot_bit(on_disk@, s as int) == disk_reports(self@.disk, rx, rz, s as int));
                assert(here == memory_reports(c.records, rx, rz, s as int));
            }
            flags.push(here || there);
        }
        let r: Vec<u8> = make_bitmap(&flags);
        proof {
            let f = |s: int| flags@[s];
            assert forall|s: int| 0 <= s < 1024 implies #[trigger] slot_bit(r@, s) == (disk_reports(
                self@.disk, rx, rz, s) || memory_reports(c.records, rx, rz, s)) by {
                lemma_bitmap_of(f, s);
                assert(f(s) == flags@[s]);
            }
        }
        r
    }

    /// The files of the changed regions, which then count as written.
    pub fn flush(&mut self) -> (r: Vec<((i32, i32), Vec<u8>)>)
        requires
            old(self).wf(),
        ensures
            final(self).wf(),
            files(r@) == (match old(self)@.disk {
                Some(s) => pending(s),
                None => Seq::empty(),
            }),
            final(self)@ == (Client {
                disk: match old(self)@.disk {
                    Some(s) => Some(written(s)),
                    None => None,
                },
                ..old(self)@
            }),
    {
        let r: Vec<((i32, i32), Vec<u8>)> = match &mut self.disk {
            Some(d) => d.flush(),
            None => Vec::new(),
        };
        proof {
            if r@.len() == 0 {
                assert(files(r@) =~= Seq::empty());
            }
        }
        r
    }

    /// A region's file could not be written: the next flush writes it.
    pub fn mark_changed(&mut self, rx: i32, rz: i32)
        requires
            old(self).wf(),
        ensures
            final(self).wf(),
            final(self)@ == (Client {
                disk: match old(self)@.disk {
                    Some(s) => Some(s.with_change((rx, rz))),
                    None => None,
                },
                ..old(self)@
            }),
    {
        match &mut self.disk {
            Some(d) => d.mark_changed(rx, rz),
            None => {},
        }
    }

    /// The files of regions that were put out of memory.
    pub fn take_writes(&mut self) -> (r: Vec<((i32, i32), Vec<u8>)>)
        requires
            old(self).wf(),
        ensures
            final(self).wf(),
            files(r@) == (match old(self)@.disk {
                Some(s) => s.outbox,
                None => Seq::empty(),
            }),
            final(self)@ == (Client {
                disk: match old(self)@.disk {
                    Some(s) => Some(Stored { outbox: Seq::empty(), ..s }),
                    None => None,
                },
                ..old(self)@
            }),
    {
        let r: Vec<((i32, i32), Vec<u8>)> = match &mut self.disk {
            Some(d) => d.take_writes(),
            None => Vec::new(),
        };
        proof {
            if r@.len() == 0 {
                assert(files(r@) =~= Seq::empty());
            }
        }
        r
    }

    /// How many records have landed in a region since the store was
    /// cleared.
    pub fn region_generation(&self, rx: i32, rz: i32) -> (r: u64)
        ensures
            r == landed(self@.generations, (rx, rz)),
    {
        match self.generations.get(rx, rz) {
            Some(v) => *v,
            None => 0,
        }
    }

    /// Take a batch as a sender writes it; None leaves the store unchanged
    /// when the bytes are not whole entries. (cx, cz) is the player's
    /// chunk, the centre eviction measures from.
    pub fn put_batch(&mut self, bytes: &[u8], cx: i32, cz: i32) -> (r: Option<usize>)
        requires
            old(self).wf(),
            old(self)@.can_count(bytes@.len() as int),
            old(self)@.cap * 8 <= usize::MAX,
        ensures
            final(self).wf(),
            match r {
                None => whole_entries(bytes@, 0) is None && final(self)@ == old(self)@,
                Some(n) => {
                    &&& whole_entries(bytes@, 0) == Some(n as nat)
                    &&& exists|entries: Seq<Entry>| #[trigger]
                        carries(entries, bytes@) && entries.len() == n && bounded(
                            old(self)@.with_entries(entries, entries.len()),
                            final(self)@,
                            (cx, cz),
                        )
                },
            },
    {
        let count: usize = match count_entries(bytes) {
            Some(n) => n,
            None => return None,
        };
        let ghost c0 = self@;
        let ghost entries: Seq<Entry> = Seq::empty();
        let end: usize = bytes.len();
        let mut at: usize = 0;
        let mut left: usize = count;
        proof {
            assert(bytes@.take(0) =~= batch_bytes(entries, 0));
        }
        while at < end
            invariant
                end == bytes@.len(),
                at <= end,
                self.wf(),
                self@.cap == c0.cap,
                self@.can_count(left as int),
                whole_entries(bytes@, at as int) == Some(left as nat),
                entries.len() + left == count,
                bytes@.take(at as int) == batch_bytes(entries, entries.len()),
                forall|i: int| 0 <= i < entries.len() ==> (#[trigger] entries[i]).wf(),
                self@ == c0.with_entries(entries, entries.len()),
            decreases end - at,
        {
            let ghost before = self@;
            let ghost done = entries;
            let x: i32 = read_int(bytes, at);
            let z: i32 = read_int(bytes, at + 4);
            let flags: u64 = read_le(bytes, at + 8, 4);
            proof {
                crate::bytes::lemma_capacities();
                assert(bytes@.subrange(at + 4, at + 4 + 4) =~= bytes@.subrange(at + 4, at + 8));
                assert(bytes@.subrange(at + 8, at + 8 + 4) =~= bytes@.subrange(at + 8, at + 12));
                assert(header_bytes(x, z, flags as int) =~= bytes@.subrange(at as int, at + 12));
            }
            let (key, _) = region_slot(x, z);
            if (flags / 256) % 2 == 1 {
                let record = CoarseLod::read_at(bytes, at + 12);
                let ghost e = Entry { x, z, flags: flags as u32, body: Body::Coarse(record) };
                if !self.records.contains(x, z) {
                    self.coarse.insert(x, z, record);
                    self.bump(key, 1);
                }
                proof {
                    entries = done.push(e);
                    assert(e.bytes() =~= bytes@.subrange(at as int, at + 12 + 144));
                    assert(self@ == before.with_entry(e));
                }
                at = at + 12 + COARSE_BYTES;
            } else {
                let mut record = ColumnLod::read_at(bytes, at + 12);
                record.stage = (flags % 256) as u8;
                let ghost e = Entry { x, z, flags: flags as u32, body: Body::Full(record) };
                match &mut self.disk {
                    Some(d) => d.insert(x, z, record),
                    None => {},
                }
                self.coarse.remove(x, z);
                self.records.insert(x, z, record);
                self.bump(key, 1);
                proof {
                    entries = done.push(e);
                    assert(e.bytes() =~= bytes@.subrange(at as int, at + 12 + 2304));
                    assert(self@ == before.with_entry(e));
                }
                at = at + 12 + RECORD_BYTES;
            }
            proof {
                assert(done =~= entries.take(done.len() as int));
                lemma_entries_prefix(c0, done, entries, done.len());
                let e = entries[done.len() as int];
                assert(bytes@.take(at as int) =~= bytes@.take(at - e.bytes().len()) + e.bytes());
                assert(self@ == c0.with_entries(entries, entries.len()));
            }
            left = left - 1;
        }
        proof {
            assert(bytes@.take(end as int) =~= bytes@);
            assert(carries(entries, bytes@));
        }
        let ghost mid = self@;
        self.bound(cx, cz);
        Some(count)
    }

    /// Drop the farthest records past the bounds.
    fn bound(&mut self, cx: i32, cz: i32)
        requires
            old(self).wf(),
            old(self)@.cap * 8 <= usize::MAX,
        ensures
            final(self).wf(),
            bounded(old(self)@, final(self)@, (cx, cz)),
    {
        let ghost c = self@;
        if self.records.len() > self.cap {
            let gone: Vec<(i32, i32)> = evict(&mut self.records, self.cap / 2, cx, cz);
            let mut i: usize = 0;
            while i < gone.len()
                invariant
                    i <= gone@.len(),
                    self.cap == c.cap,
                    self.generations@ == c.generations,
                    self.coarse@ == c.coarse,
                    self@.disk == c.disk,
                    kept_nearest(c.records, self.records@, c.cap / 2, (cx, cz)),
                    forall|p: (i32, i32)| #[trigger]
                        gone@.contains(p) <==> c.records.contains_key(p) && !self.records@.contains_key(p),
                    forall|k: (i32, i32)|
                        #[trigger] self.warmed@.contains_key(k) <==> c.warmed.contains(k) && !gone_from(gone@, k, i as int),
                decreases gone.len() - i,
            {
                let (x, z) = gone[i];
                let (key, _) = region_slot(x, z);
                let ghost before = self.warmed@;
                self.warmed.remove(key.0, key.1);
                proof {
                    assert forall|k: (i32, i32)| #[trigger] self.warmed@.contains_key(k) <==> c.warmed.contains(k) && !gone_from(
                        gone@, k, i + 1) by {
                        assert(gone_from(gone@, k, i + 1) <==> gone_from(gone@, k, i as int) || k == key) by {
                            if gone_from(gone@, k, i as int) {
                                let j = choose|j: int| 0 <= j < i && region_of((#[trigger] gone@[j]).0, gone@[j].1) == k;
                                assert(region_of(gone@[j].0, gone@[j].1) == k);
                            }
                            assert(region_of(gone@[i as int].0, gone@[i as int].1) == key);
                        }
                        assert(before.contains_key(k) <==> c.warmed.contains(k) && !gone_from(gone@, k, i as int));
                    }
                }
                i += 1;
            }
            proof {
                assert forall|k: (i32, i32)| gone_from(gone@, k, gone@.len() as int) <==> #[trigger] lost(
                    c.records, self.records@, k) by {
                    if gone_from(gone@, k, gone@.len() as int) {
                        let j = choose|j: int| 0 <= j < gone@.len() && region_of((#[trigger] gone@[j]).0, gone@[j].1) == k;
                        assert(gone@.contains(gone@[j]));
                        assert(c.records.contains_key(gone@[j]));
                    }
                    if lost(c.records, self.records@, k) {
                        let p = choose|p: (i32, i32)| #[trigger] c.records.contains_key(p) && !self.records@.contains_key(p)
                            && region_of(p.0, p.1) == k;
                        assert(gone@.contains(p));
                        let j = choose|j: int| 0 <= j < gone@.len() && gone@[j] == p;
                        assert(region_of(gone@[j].0, gone@[j].1) == k);
                    }
                }
                assert forall|k: (i32, i32)| #[trigger] self@.warmed.contains(k) <==> c.warmed.contains(k) && !lost(
                    c.records, self.records@, k) by {
                    assert(self.warmed@.contains_key(k) <==> c.warmed.contains(k) && !gone_from(gone@, k, gone@.len() as int));
                }
            }
        }
        let coarse_cap: usize = self.cap * 8;
        if self.coarse.len() > coarse_cap {
            evict(&mut self.coarse, coarse_cap / 2, cx, cz);
        }
    }

    /// Whatever the client holds for a chunk, the full record first.
    pub fn get_any(&self, cx: i32, cz: i32) -> (r: Option<RecordRef<'_>>)
        ensures
            match r {
                Some(RecordRef::Full(v)) => self@.records.contains_key((cx, cz)) && *v == self@.records[(cx, cz)],
                Some(RecordRef::Coarse(v)) => !self@.records.contains_key((cx, cz)) && self@.coarse.contains_key((cx, cz))
                    && *v == self@.coarse[(cx, cz)],
                None => !self@.records.contains_key((cx, cz)) && !self@.coarse.contains_key((cx, cz)),
            },
    {
        if let Some(full) = self.records.get(cx, cz) {
            return Some(RecordRef::Full(full));
        }
        match self.coarse.get(cx, cz) {
            Some(c) => Some(RecordRef::Coarse(c)),
            None => None,
        }
    }

    /// How many coarse records are held.
    pub fn coarse_len(&self) -> (r: usize)
        ensures
            r == self@.coarse.dom().len(),
    {
        self.coarse.len()
    }

    /// The full record of a chunk.
    pub fn get(&self, cx: i32, cz: i32) -> (r: Option<&ColumnLod>)
        ensures
            r is Some <==> self@.records.contains_key((cx, cz)),
            r matches Some(v) ==> *v == self@.records[(cx, cz)],
    {
        self.records.get(cx, cz)
    }

    /// How many full records are held.
    pub fn len(&self) -> (r: usize)
        ensures
            r == self@.records.dom().len(),
    {
        self.records.len()
    }

    /// Whether no full record is held.
    pub fn is_empty(&self) -> (r: bool)
        ensures
            r == (self@.records.dom().len() == 0),
    {
        self.records.len() == 0
    }

    /// Forget everything; the files still to be written, first those of
    /// regions put out of memory.
    pub fn clear(&mut self) -> (r: (Vec<((i32, i32), Vec<u8>)>, Vec<((i32, i32), Vec<u8>)>))
        requires
            old(self).wf(),
        ensures
            final(self).wf(),
            final(self)@ == (Client {
                records: Map::empty(),
                coarse: Map::empty(),
                generations: Map::empty(),
                cap: old(self)@.cap,
                warmed: Set::empty(),
                disk: None,
            }),
            files(r.0@) == (match old(self)@.disk {
                Some(s) => s.outbox,
                None => Seq::empty(),
            }),
            files(r.1@) == (match old(self)@.disk {
                Some(s) => pending(s),
                None => Seq::empty(),
            }),
    {
        let out: Vec<((i32, i32), Vec<u8>)> = self.take_writes();
        let rest: Vec<((i32, i32), Vec<u8>)> = self.flush();
        self.records.clear();
        self.coarse.clear();
        self.generations.clear();
        self.disk = None;
        self.warmed.clear();
        proof { assert(self@.warmed =~= Set::empty()); }
        (out, rest)
    }
}

/// A region of one of the first `n` chunks.
spec fn gone_from(gone: Seq<(i32, i32)>, key: (i32, i32), n: int) -> bool {
    exists|j: int| 0 <= j < n && region_of((#[trigger] gone[j]).0, gone[j].1) == key
}

/// A chunk of a region that disk reports in its final form.
pub open spec fn disk_reports(disk: Option<Stored>, rx: i32, rz: i32, s: int) -> bool {
    match disk {
        Some(t) => reported(t.regions[t.find((rx, rz))->0].records[s], true),
        None => false,
    }
}

/// A chunk of a region that is in memory in its final form.
pub open spec fn memory_reports(records: Map<(i32, i32), ColumnLod>, rx: i32, rz: i32, s: int) -> bool {
    let p = ((rx * 32 + s % 32) as i32, (rz * 32 + s / 32) as i32);
    records.contains_key(p) && records[p].stage == STAGE_FINAL
}

/// A 32-bit signed number in bytes.
pub open spec fn int_at(b: Seq<u8>, at: int) -> i32 {
    (from_le(b.subrange(at, at + 4)) as u32) as i32
}

/// The regions of the full entries from `at` on.
pub open spec fn full_regions(b: Seq<u8>, at: int) -> Set<(i32, i32)>
    decreases b.len() - at,
{
    if at >= b.len() || at + 12 > b.len() || at + 12 + body_size(b, at) > b.len() {
        Set::empty()
    } else {
        let rest = full_regions(b, at + 12 + body_size(b, at));
        if is_coarse(from_le(b.subrange(at + 8, at + 12))) {
            rest
        } else {
            rest.insert(region_of(int_at(b, at), int_at(b, at + 4)))
        }
    }
}

/// The regions whose files have to be handed over before a batch is put:
/// those of its full entries, each once. None when the bytes are not whole
/// entries.
pub fn regions_of_batch(bytes: &[u8]) -> (r: Option<Vec<(i32, i32)>>)
    ensures
        r is Some <==> whole_entries(bytes@, 0) is Some,
        r matches Some(v) ==> v@.no_duplicates() && v@.to_set() == full_regions(bytes@, 0),
{
    if count_entries(bytes).is_none() {
        return None;
    }
    let end: usize = bytes.len();
    let mut at: usize = 0;
    let mut out: Vec<(i32, i32)> = Vec::new();
    proof { assert(out@.to_set().union(full_regions(bytes@, 0)) =~= full_regions(bytes@, 0)); }
    while at < end
        invariant
            end == bytes@.len(),
            at <= end,
            whole_entries(bytes@, at as int) is Some,
            out@.no_duplicates(),
            out@.to_set().union(full_regions(bytes@, at as int)) == full_regions(bytes@, 0),
        decreases end - at,
    {
        let x: i32 = read_int(bytes, at);
        let z: i32 = read_int(bytes, at + 4);
        let flags: u64 = read_le(bytes, at + 8, 4);
        let ghost b = bytes@;
        proof {
            crate::bytes::lemma_capacities();
            assert(b.subrange(at + 4, at + 4 + 4) =~= b.subrange(at + 4, at + 8));
            assert(b.subrange(at + 8, at + 8 + 4) =~= b.subrange(at + 8, at + 12));
            crate::bytes::lemma_from_le_of_le((x as u32) as int, 4);
            crate::bytes::lemma_from_le_of_le((z as u32) as int, 4);
            crate::lodwire::lemma_unsigned(x);
            crate::lodwire::lemma_unsigned(z);
            assert(int_at(b, at as int) == x && int_at(b, at + 4) == z);
        }
        if (flags / 256) % 2 == 1 {
            at = at + 12 + COARSE_BYTES;
        } else {
            let (key, _) = region_slot(x, z);
            let ghost before = out@;
            let ghost rest = full_regions(b, at + 12 + RECORD_BYTES);
            if !is_listed(&out, key) {
                out.push(key);
            }
            proof {
                assert(out@.to_set() =~= before.to_set().insert(key)) by {
                    assert forall|k: (i32, i32)| out@.contains(k) <==> before.contains(k) || k == key by {
                        if before.contains(k) {
                            let i = choose|i: int| 0 <= i < before.len() && before[i] == k;
                            assert(out@[i] == k);
                        }
                        if !before.contains(key) {
                            assert(out@[before.len() as int] == key);
                        }
                    }
                }
                assert(out@.to_set().union(rest) =~= before.to_set().union(rest.insert(key)));
            }
            at = at + 12 + RECORD_BYTES;
        }
    }
    proof { assert(out@.to_set() =~= out@.to_set().union(Set::empty())); }
    Some(out)
}

fn is_listed(list: &Vec<(i32, i32)>, key: (i32, i32)) -> (r: bool)
    ensures
        r == list@.contains(key),
{
    let mut i: usize = 0;
    while i < list.len()
        invariant
            i <= list@.len(),
            forall|k: int| 0 <= k < i ==> #[trigger] list@[k] != key,
        decreases list.len() - i,
    {
        if list[i].0 == key.0 && list[i].1 == key.1 {
            proof { assert(list@[i as int] == key); }
            return true;
        }
        i += 1;
    }
    false
}

/// Count the entries of a batch; none when it is torn.
fn count_entries(bytes: &[u8]) -> (r: Option<usize>)
    ensures
        match r {
            Some(n) => whole_entries(bytes@, 0) == Some(n as nat) && n <= bytes@.len(),
            None => whole_entries(bytes@, 0) is None,
        },
{
    let end: usize = bytes.len();
    let mut at: usize = 0;
    let mut count: usize = 0;
    while at < end
        invariant
            end == bytes@.len(),
            at <= end,
            count <= at,
            whole_entries(bytes@, 0) == (match whole_entries(bytes@, at as int) {
                Some(n) => Some(n + count as nat),
                None => None,
            }),
        decreases end - at,
    {
        if end - at < 12 {
            return None;
        }
        let flags: u64 = read_le(bytes, at + 8, 4);
        proof { assert(bytes@.subrange(at + 8, at + 8 + 4) =~= bytes@.subrange(at + 8, at + 12)); }
        let body: usize = if (flags / 256) % 2 == 1 { COARSE_BYTES } else { RECORD_BYTES };
        if end - at - 12 < body {
            return None;
        }
        at = at + 12 + body;
        count += 1;
    }
    Some(count)
}

/// One more entry leaves what the earlier ones did.
proof fn lemma_entries_prefix(c: Client, a: Seq<Entry>, b: Seq<Entry>, n: nat)
    requires
        n <= a.len() <= b.len(),
        a == b.take(a.len() as int),
    ensures
        c.with_entries(a, n) == c.with_entries(b, n),
        batch_bytes(a, n) == batch_bytes(b, n),
    decreases n,
{
    if n > 0 {
        lemma_entries_prefix(c, a, b, (n - 1) as nat);
        assert(a[n - 1] == b[n - 1]);
    }
}

} // verus!
