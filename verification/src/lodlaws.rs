//! What stores, senders and clients keep over any sequence of calls.

use vstd::prelude::*;
use crate::lod26::{CoarseLod, ColumnLod};
use crate::lodclient::{bounded, Body, Client, Entry};
use crate::lodregion::{region_of, slot_bit, slot_of};
use crate::lodsend::{apart, batched, doubled, forget, marked, marked_slots, nearby, wanted, Sent};
use crate::lodstore::{
    after_count, changed, law_insert_keeps_others, law_insert_then_get, lemma_find, lemma_find_is, lemma_loaded, lemma_pushed,
    lemma_replaced_wf, lemma_updated, lemma_with_room, region_in_world, rising, trimmed, walk, was_sent, Held, Level, Stored,
    LOG_LIMIT,
};

verus! {

/// A call of a store.
pub ghost enum StoreCall {
    /// A record is put in.
    Insert(i32, i32, ColumnLod),
    /// A record is refreshed, and is this one then.
    Refresh(i32, i32, ColumnLod),
    /// A region is looked at.
    Look((i32, i32)),
    /// A region's file is handed over with its records.
    HandOver((i32, i32), Seq<Option<ColumnLod>>),
    Flush,
    TakeWrites,
    /// The refreshed chunks are asked for.
    Refreshed,
    /// A region could not be written.
    Change((i32, i32)),
}

impl Stored {
    /// The store after a call.
    pub open spec fn called(self, c: StoreCall) -> Stored {
        match c {
            StoreCall::Insert(x, z, r) => self.loaded(region_of(x, z)).replaced(x, z, r),
            StoreCall::Refresh(x, z, r) => {
                let t = self.loaded(region_of(x, z));
                Stored { refreshed: t.refreshed.push(((t.generation + 1) as u64, (x, z))), ..t.replaced(x, z, r) }
            },
            StoreCall::Look(key) => self.loaded(key),
            StoreCall::HandOver(key, records) => self.with_file(key, records),
            StoreCall::Flush => if self.persists {
                Stored { regions: self.regions.map_values(|h: Held| h.written()), ..self }
            } else {
                self
            },
            StoreCall::TakeWrites => Stored { outbox: Seq::empty(), ..self },
            StoreCall::Refreshed => Stored { refreshed: trimmed(self.refreshed), ..self },
            StoreCall::Change(key) => self.with_change(key),
        }
    }

    /// The store after the first `n` of some calls.
    pub open spec fn after(self, calls: Seq<StoreCall>, n: nat) -> Stored
        decreases n,
    {
        if n == 0 { self } else { self.after(calls, (n - 1) as nat).called(calls[n - 1]) }
    }
}

/// Records that are handed over are those of a region.
pub open spec fn fits(c: StoreCall) -> bool {
    c matches StoreCall::HandOver(_, records) ==> records.len() == 1024
}

/// Every call keeps a store consistent; all but inserts and refreshes keep
/// its count, and all but refreshes its log, as far as that is not trimmed.
proof fn lemma_called(s: Stored, c: StoreCall)
    requires
        s.wf(),
        s.generation < u64::MAX,
        fits(c),
    ensures
        s.called(c).wf(),
        s.called(c).persists == s.persists,
        s.generation <= s.called(c).generation <= s.generation + 1,
        match c {
            StoreCall::Refresh(x, z, _) => s.called(c).generation == s.generation + 1 && s.called(c).refreshed == s.refreshed.push(
                ((s.generation + 1) as u64, (x, z))),
            StoreCall::Refreshed => s.called(c).refreshed == trimmed(s.refreshed),
            _ => s.called(c).refreshed == s.refreshed,
        },
{
    let t = s.called(c);
    match c {
        StoreCall::Insert(x, z, r) => {
            lemma_loaded(s, region_of(x, z));
            lemma_replaced_wf(s.loaded(region_of(x, z)), x, z, r);
        },
        StoreCall::Refresh(x, z, r) => {
            lemma_loaded(s, region_of(x, z));
            lemma_replaced_wf(s.loaded(region_of(x, z)), x, z, r);
            assert(rising(t.refreshed, t.generation));
        },
        StoreCall::Look(key) => lemma_loaded(s, key),
        StoreCall::HandOver(key, records) => {
            lemma_find(s.regions, key, s.regions.len());
            match s.find(key) {
                Some(i) => {
                    if !s.regions[i].whole {
                        lemma_updated(s, i, t.regions[i]);
                    }
                },
                None => {
                    lemma_with_room(s, key);
                    let room = s.with_room();
                    lemma_pushed(room, t.regions[room.regions.len() as int]);
                },
            }
        },
        StoreCall::Flush => lemma_called_wf(s, c),
        StoreCall::TakeWrites => {},
        StoreCall::Refreshed => {
            let log = t.refreshed;
            let k = s.refreshed.len() - log.len();
            assert forall|i: int, j: int| 0 <= i < j < log.len() implies (#[trigger] log[i]).0 < (#[trigger] log[j]).0 by {
                assert(log[i] == s.refreshed[i + k] && log[j] == s.refreshed[j + k]);
            }
            assert forall|i: int| 0 <= i < log.len() implies (#[trigger] log[i]).0 <= t.generation by {
                assert(log[i] == s.refreshed[i + k]);
            }
        },
        StoreCall::Change(key) => {
            lemma_find(s.regions, key, s.regions.len());
            if let Some(i) = s.find(key) {
                lemma_updated(s, i, t.regions[i]);
            }
        },
    }
}

/// A flush keeps a store consistent.
proof fn lemma_called_wf(s: Stored, c: StoreCall)
    requires
        s.wf(),
        c is Flush,
    ensures
        s.called(c).wf(),
{
    let t = s.called(c);
    assert forall|a: int, b: int| 0 <= a < b < t.regions.len() implies (#[trigger] t.regions[a]).key != (
    #[trigger] t.regions[b]).key by {
        assert(s.regions[a].key != s.regions[b].key);
    }
    assert forall|a: int| 0 <= a < t.regions.len() implies (#[trigger] t.regions[a]).records.len() == 1024 by {
        assert(s.regions[a].records.len() == 1024);
    }
}

/// A store stays consistent, whatever is called.
proof fn lemma_after(s: Stored, calls: Seq<StoreCall>, n: nat)
    requires
        s.wf(),
        n <= calls.len(),
        s.generation + n < u64::MAX,
        forall|i: int| 0 <= i < calls.len() ==> fits(#[trigger] calls[i]),
    ensures
        s.after(calls, n).wf(),
        s.after(calls, n).persists == s.persists,
        s.generation <= s.after(calls, n).generation <= s.generation + n,
    decreases n,
{
    if n > 0 {
        lemma_after(s, calls, (n - 1) as nat);
        assert(fits(calls[n - 1]));
        lemma_called(s.after(calls, (n - 1) as nat), calls[n - 1]);
    }
}

/// What the first `n` calls leave of a chunk, which was `start` before: the
/// last record that was put in or refreshed.
pub open spec fn last_record(start: Option<ColumnLod>, calls: Seq<StoreCall>, x: i32, z: i32, n: nat) -> Option<ColumnLod>
    decreases n,
{
    if n == 0 {
        start
    } else {
        let rest = last_record(start, calls, x, z, (n - 1) as nat);
        match calls[n - 1] {
            StoreCall::Insert(a, b, r) => if (a, b) == (x, z) { Some(r) } else { rest },
            StoreCall::Refresh(a, b, r) => if (a, b) == (x, z) { Some(r) } else { rest },
            _ => rest,
        }
    }
}

/// Looking at a region without a directory leaves every record.
proof fn lemma_look_keeps(s: Stored, key: (i32, i32), x: i32, z: i32)
    requires
        s.wf(),
        !s.persists,
    ensures
        s.loaded(key).record(x, z) == s.record(x, z),
{
    let k = region_of(x, z);
    lemma_find(s.regions, key, s.regions.len());
    lemma_find(s.regions, k, s.regions.len());
    lemma_loaded(s, key);
    if s.find(key) is None {
        let t = s.loaded(key);
        lemma_find(t.regions, k, t.regions.len());
        lemma_slot(x, z);
        match s.find(k) {
            Some(i) => {
                assert(t.regions[i] == s.regions[i]);
                lemma_find_is(t, k, i);
            },
            None => {
                if let Some(j) = t.find(k) {
                    if j < s.regions.len() {
                        assert(t.regions[j] == s.regions[j]);
                    }
                }
            },
        }
    }
}

proof fn lemma_slot(x: i32, z: i32)
    ensures
        0 <= slot_of(x, z) < 1024,
{
}

/// Another file handed over leaves a record.
proof fn lemma_file_keeps(s: Stored, key: (i32, i32), records: Seq<Option<ColumnLod>>, x: i32, z: i32)
    requires
        s.wf(),
        !s.persists,
        records.len() == 1024,
        region_of(x, z) != key,
    ensures
        s.with_file(key, records).record(x, z) == s.record(x, z),
{
    let k = region_of(x, z);
    let t = s.with_file(key, records);
    lemma_find(s.regions, key, s.regions.len());
    lemma_find(s.regions, k, s.regions.len());
    lemma_find(t.regions, k, t.regions.len());
    if s.generation < u64::MAX {
        lemma_called(s, StoreCall::HandOver(key, records));
    }
    if let Some(i) = s.find(k) {
        assert(t.regions[i] == s.regions[i]);
        assert(t.find(k) == Some(i)) by {
            if let Some(j) = t.find(k) {
                if j < s.regions.len() {
                    assert(s.regions[j].key == k);
                    lemma_find_is(s, k, j);
                }
            }
        }
    } else {
        if let Some(j) = t.find(k) {
            if j < s.regions.len() {
                assert(s.regions[j].key == k);
            }
        }
    }
}

/// Without a directory a store gives back of a chunk what was last put in
/// or refreshed, whatever is called for other chunks; only a file that is
/// handed over for the chunk's own region could bring in another record.
pub proof fn law_memory_keeps_the_last(s: Stored, calls: Seq<StoreCall>, x: i32, z: i32, n: nat)
    requires
        s.wf(),
        !s.persists,
        n <= calls.len(),
        s.generation + n < u64::MAX,
        forall|i: int| 0 <= i < calls.len() ==> fits(#[trigger] calls[i]),
        forall|i: int| 0 <= i < calls.len() ==> !((#[trigger] calls[i]) matches StoreCall::HandOver(k, _) && k == region_of(x, z)),
    ensures
        s.after(calls, n).record(x, z) == last_record(s.record(x, z), calls, x, z, n),
    decreases n,
{
    if n > 0 {
        law_memory_keeps_the_last(s, calls, x, z, (n - 1) as nat);
        lemma_after(s, calls, (n - 1) as nat);
        let b = s.after(calls, (n - 1) as nat);
        let c = calls[n - 1];
        assert(fits(c));
        match c {
            StoreCall::Insert(p, q, r) => lemma_put_keeps(b, p, q, r, x, z),
            StoreCall::Refresh(p, q, r) => {
                lemma_put_keeps(b, p, q, r, x, z);
                let t = b.called(StoreCall::Insert(p, q, r));
                assert(b.called(c).regions == t.regions);
                assert(b.called(c).record(x, z) == t.record(x, z));
            },
            StoreCall::Look(key) => lemma_look_keeps(b, key, x, z),
            StoreCall::HandOver(key, records) => lemma_file_keeps(b, key, records, x, z),
            StoreCall::Flush => {},
            StoreCall::TakeWrites => {
                assert(b.called(c).record(x, z) == b.record(x, z));
            },
            StoreCall::Refreshed => {
                assert(b.called(c).record(x, z) == b.record(x, z));
            },
            StoreCall::Change(key) => {
                let k = region_of(x, z);
                let t = b.called(c);
                lemma_called(b, c);
                lemma_find(b.regions, key, b.regions.len());
                lemma_find(b.regions, k, b.regions.len());
                lemma_find(t.regions, k, t.regions.len());
                if let Some(i) = b.find(k) {
                    assert(t.regions[i].records == b.regions[i].records);
                    lemma_find_is(t, k, i);
                } else {
                    if let Some(j) = t.find(k) {
                        assert(b.regions[j].key == k);
                    }
                }
            },
        }
    }
}

proof fn lemma_put_keeps(s: Stored, p: i32, q: i32, r: ColumnLod, x: i32, z: i32)
    requires
        s.wf(),
        !s.persists,
        s.generation < u64::MAX,
    ensures
        s.loaded(region_of(p, q)).replaced(p, q, r).record(x, z) == (if (p, q) == (x, z) { Some(r) } else { s.record(x, z) }),
{
    lemma_loaded(s, region_of(p, q));
    if (p, q) == (x, z) {
        law_insert_then_get(s, x, z, r);
    } else {
        lemma_look_keeps(s, region_of(p, q), x, z);
        law_insert_keeps_others(s.loaded(region_of(p, q)), p, q, r, x, z);
    }
}

/// The chunks that the first `n` calls refresh, in order.
pub open spec fn refreshes(calls: Seq<StoreCall>, n: nat) -> Seq<(i32, i32)>
    decreases n,
{
    if n == 0 {
        Seq::empty()
    } else {
        match calls[n - 1] {
            StoreCall::Refresh(x, z, _) => refreshes(calls, (n - 1) as nat).push((x, z)),
            _ => refreshes(calls, (n - 1) as nat),
        }
    }
}

proof fn lemma_none_after(log: Seq<(u64, (i32, i32))>, since: u64, n: nat)
    requires
        n <= log.len(),
        rising(log, since),
    ensures
        after_count(log, since, n) == Seq::<(i32, i32)>::empty(),
    decreases n,
{
    if n > 0 {
        lemma_none_after(log, since, (n - 1) as nat);
        assert(log[n - 1].0 <= since);
    }
}

proof fn lemma_after_prefix(log: Seq<(u64, (i32, i32))>, e: (u64, (i32, i32)), since: u64, n: nat)
    requires
        n <= log.len(),
    ensures
        after_count(log.push(e), since, n) == after_count(log, since, n),
    decreases n,
{
    if n > 0 {
        lemma_after_prefix(log, e, since, (n - 1) as nat);
    }
}

/// Asked with an earlier count, a store lists exactly the chunks that were
/// refreshed since, in order and as often as they were, as long as its log
/// was not trimmed; and asking again lists the same.
pub proof fn law_refreshes_are_listed(s: Stored, calls: Seq<StoreCall>, n: nat)
    requires
        s.wf(),
        n <= calls.len(),
        s.generation + n < u64::MAX,
        s.refreshed.len() + refreshes(calls, n).len() <= LOG_LIMIT,
        forall|i: int| 0 <= i < calls.len() ==> fits(#[trigger] calls[i]),
    ensures
        ({
            let log = trimmed(s.after(calls, n).refreshed);
            &&& after_count(log, s.generation, log.len()) == refreshes(calls, n)
            &&& log == s.after(calls, n).refreshed
            &&& trimmed(log) == log
            &&& log.len() == s.refreshed.len() + refreshes(calls, n).len()
        }),
    decreases n,
{
    if n == 0 {
        lemma_none_after(s.refreshed, s.generation, s.refreshed.len());
    } else {
        law_refreshes_are_listed(s, calls, (n - 1) as nat);
        lemma_after(s, calls, (n - 1) as nat);
        let b = s.after(calls, (n - 1) as nat);
        let c = calls[n - 1];
        assert(fits(c));
        lemma_called(b, c);
        if let StoreCall::Refresh(x, z, _) = c {
            lemma_after_prefix(b.refreshed, ((b.generation + 1) as u64, (x, z)), s.generation, b.refreshed.len());
        }
    }
}

/// The regions that have changes and whose file was handed over, among the
/// first `n`.
pub open spec fn to_write(regions: Seq<Held>, n: nat) -> nat
    decreases n,
{
    if n == 0 {
        0
    } else {
        to_write(regions, (n - 1) as nat) + if regions[n - 1].dirty && regions[n - 1].whole { 1nat } else { 0nat }
    }
}

proof fn lemma_changed(regions: Seq<Held>, hash: Seq<u8>, n: nat)
    requires
        n <= regions.len(),
    ensures
        changed(regions, hash, n).len() == to_write(regions, n),
        changed(regions.map_values(|h: Held| h.written()), hash, n) == Seq::<((i32, i32), Seq<u8>)>::empty(),
    decreases n,
{
    if n > 0 {
        lemma_changed(regions, hash, (n - 1) as nat);
    }
}

/// A flush gives a file for every region that has changes, as far as its
/// file was handed over; flushed again at once, a store has none to give;
/// and no record changes.
pub proof fn law_flush_writes_once(s: Stored, x: i32, z: i32)
    requires
        s.wf(),
    ensures
        ({
            let t = s.called(StoreCall::Flush);
            &&& changed(s.regions, s.hash, s.regions.len()).len() == to_write(s.regions, s.regions.len())
            &&& s.persists ==> changed(t.regions, t.hash, t.regions.len()) == Seq::<((i32, i32), Seq<u8>)>::empty()
            &&& t.called(StoreCall::Flush) == t
            &&& t.find(region_of(x, z)) == s.find(region_of(x, z))
            &&& t.record(x, z) == s.record(x, z)
        }),
{
    let t = s.called(StoreCall::Flush);
    lemma_changed(s.regions, s.hash, s.regions.len());
    assert(t.called(StoreCall::Flush).regions =~= t.regions);
    let k = region_of(x, z);
    lemma_find(s.regions, k, s.regions.len());
    lemma_find(t.regions, k, t.regions.len());
    lemma_called_wf(s, StoreCall::Flush);
    match s.find(k) {
        Some(i) => {
            assert(t.regions[i].key == k);
            lemma_find_is(t, k, i);
        },
        None => {
            if let Some(j) = t.find(k) {
                assert(s.regions[j].key == k);
            }
        },
    }
}

/// What a client holds of a chunk, the full record first.
pub open spec fn held(c: Client, p: (i32, i32)) -> Option<Body> {
    if c.records.contains_key(p) {
        Some(Body::Full(c.records[p]))
    } else if c.coarse.contains_key(p) {
        Some(Body::Coarse(c.coarse[p]))
    } else {
        None
    }
}

/// What the first `n` entries leave of a chunk, of which `start` was held
/// before: the last full entry; without one, the last coarse one.
pub open spec fn last_entry(start: Option<Body>, entries: Seq<Entry>, p: (i32, i32), n: nat) -> Option<Body>
    decreases n,
{
    if n == 0 {
        start
    } else {
        let rest = last_entry(start, entries, p, (n - 1) as nat);
        let e = entries[n - 1];
        if (e.x, e.z) != p || (e.body is Coarse && (rest matches Some(Body::Full(_)))) { rest } else { Some(e.body) }
    }
}

/// What the first `n` batches leave of a chunk of an empty client.
pub open spec fn last_of_batches(batches: Seq<Seq<Entry>>, p: (i32, i32), n: nat) -> Option<Body>
    decreases n,
{
    if n == 0 {
        None
    } else {
        last_entry(last_of_batches(batches, p, (n - 1) as nat), batches[n - 1], p, batches[n - 1].len())
    }
}

proof fn lemma_entries(c: Client, entries: Seq<Entry>, p: (i32, i32), n: nat)
    requires
        n <= entries.len(),
    ensures
        held(c.with_entries(entries, n), p) == last_entry(held(c, p), entries, p, n),
    decreases n,
{
    if n > 0 {
        lemma_entries(c, entries, p, (n - 1) as nat);
    }
}

/// A client took a batch and stayed within its bounds.
pub open spec fn took(before: Client, after: Client, batch: Seq<Entry>, centre: (i32, i32)) -> bool {
    let c = before.with_entries(batch, batch.len());
    &&& bounded(c, after, centre)
    &&& c.records.dom().len() <= c.cap
    &&& c.coarse.dom().len() <= c.cap * 8
}

/// A client that was fed by batches alone and stayed within its bounds holds
/// of each chunk the last full record that it was given, even where a
/// coarse one came later, and without one the last coarse record.
pub proof fn law_client_holds_the_last(
    states: Seq<Client>, batches: Seq<Seq<Entry>>, centres: Seq<(i32, i32)>, p: (i32, i32), n: nat,
)
    requires
        n <= batches.len(),
        states.len() == batches.len() + 1,
        centres.len() == batches.len(),
        states[0].records == Map::<(i32, i32), ColumnLod>::empty(),
        states[0].coarse == Map::<(i32, i32), CoarseLod>::empty(),
        forall|i: int| 0 <= i < batches.len() ==> took(states[i], states[i + 1], #[trigger] batches[i], centres[i]),
    ensures
        held(states[n as int], p) == last_of_batches(batches, p, n),
    decreases n,
{
    if n > 0 {
        law_client_holds_the_last(states, batches, centres, p, (n - 1) as nat);
        let b = batches[n - 1];
        assert(took(states[n - 1], states[n as int], b, centres[n - 1]));
        lemma_entries(states[n - 1], b, p, b.len());
    }
}

/// The chunk of a region's slot.
pub open spec fn slot_chunk(rx: i32, rz: i32, s: int) -> (i32, i32) {
    ((rx * 32 + s % 32) as i32, (rz * 32 + s / 32) as i32)
}

/// A bitmap's first `n` bits mark a chunk.
pub open spec fn marks(rx: i32, rz: i32, bitmap: Seq<u8>, n: int, p: (i32, i32)) -> bool {
    region_of(p.0, p.1) == (rx, rz) && slot_of(p.0, p.1) < n && slot_bit(bitmap, slot_of(p.0, p.1))
}

/// How many of the first `n` bits mark a chunk that was not tracked.
pub open spec fn newly(sent: Map<(i32, i32), Level>, rx: i32, rz: i32, bitmap: Seq<u8>, n: nat) -> nat
    decreases n,
{
    if n == 0 {
        0
    } else {
        newly(sent, rx, rz, bitmap, (n - 1) as nat) + if slot_bit(bitmap, n - 1) && !sent.contains_key(slot_chunk(rx, rz, n - 1)) {
            1nat
        } else {
            0nat
        }
    }
}

proof fn lemma_slot_chunk(rx: i32, rz: i32, s: int)
    requires
        region_in_world(rx, rz),
        0 <= s < 1024,
    ensures
        ({
            let p = slot_chunk(rx, rz, s);
            region_of(p.0, p.1) == (rx, rz) && slot_of(p.0, p.1) == s
        }),
{
}

proof fn lemma_marked_slots(sent: Map<(i32, i32), Level>, rx: i32, rz: i32, bitmap: Seq<u8>, n: nat)
    requires
        region_in_world(rx, rz),
        n <= 1024,
        sent.dom().finite(),
    ensures
        ({
            let m = marked_slots(sent, rx, rz, bitmap, n);
            &&& m.dom().finite()
            &&& m.dom().len() == sent.dom().len() + newly(sent, rx, rz, bitmap, n)
            &&& forall|p: (i32, i32)| #[trigger] m.contains_key(p) <==> sent.contains_key(p) || marks(rx, rz, bitmap, n as int, p)
            &&& forall|p: (i32, i32)| #[trigger]
                m.contains_key(p) ==> m[p] == (if marks(rx, rz, bitmap, n as int, p) { Level::Full } else { sent[p] })
        }),
    decreases n,
{
    if n > 0 {
        lemma_marked_slots(sent, rx, rz, bitmap, (n - 1) as nat);
        let before = marked_slots(sent, rx, rz, bitmap, (n - 1) as nat);
        let m = marked_slots(sent, rx, rz, bitmap, n);
        let c = slot_chunk(rx, rz, n - 1);
        lemma_slot_chunk(rx, rz, n - 1);
        assert forall|p: (i32, i32)| marks(rx, rz, bitmap, n as int, p) <==> marks(rx, rz, bitmap, n - 1, p) || (p == c && slot_bit(
            bitmap, n - 1)) by {
            if marks(rx, rz, bitmap, n as int, p) && slot_of(p.0, p.1) == n - 1 {
                crate::lodregion::law_region_slot_determines(p, c);
            }
        }
        assert(before.contains_key(c) <==> sent.contains_key(c));
        if slot_bit(bitmap, n - 1) {
            assert(m == before.insert(c, Level::Full));
            assert(m.dom() =~= before.dom().insert(c));
        }
    }
}

/// Marking what a client has tracks the chunks of the set bits, and no
/// other, as sent in full; as many more are tracked as were not before.
pub proof fn law_marked_chunks_are_held(sent: Map<(i32, i32), Level>, rx: i32, rz: i32, bitmap: Seq<u8>, p: (i32, i32))
    requires
        region_in_world(rx, rz),
        sent.dom().finite(),
    ensures
        ({
            let m = marked_slots(sent, rx, rz, bitmap, 1024);
            &&& m.dom().len() == sent.dom().len() + newly(sent, rx, rz, bitmap, 1024)
            &&& m.contains_key(p) <==> sent.contains_key(p) || marks(rx, rz, bitmap, 1024, p)
            &&& marks(rx, rz, bitmap, 1024, p) ==> m[p] == Level::Full
            &&& sent.contains_key(p) && !marks(rx, rz, bitmap, 1024, p) ==> m[p] == sent[p]
        }),
{
    lemma_marked_slots(sent, rx, rz, bitmap, 1024);
}

/// A batch: the player's and the store's state before and after, centre and
/// distances, the bound, where the walk starts, the bytes before and after,
/// how many entries went out and where the walk came to.
pub ghost struct Round {
    pub before: Sent,
    pub after: Sent,
    pub s0: Stored,
    pub s1: Stored,
    pub place: (i32, i32, i32, i32),
    pub max: nat,
    pub from: int,
    pub head: Seq<u8>,
    pub out: Seq<u8>,
    pub count: int,
    pub at: int,
}

impl Round {
    pub open spec fn happens(self) -> bool {
        batched(
            self.before, self.after, self.s0, self.s1, self.place, self.max, self.from, self.head, self.out, self.count, self.at)
    }

    /// The chunks that were refreshed since the last batch.
    pub open spec fn refreshed(self) -> Seq<(i32, i32)> {
        let log = trimmed(self.s0.refreshed);
        after_count(log, self.before.seen, log.len())
    }

    /// The chunks that go out, with how fully.
    pub open spec fn sends(self) -> Seq<((i32, i32), Level)> {
        let (cx, cz, far, near) = self.place;
        let caught = self.before.caught_up(self.s0);
        let list = wanted(cx as int, cz as int, far as int, near as int);
        if caught.exhausted == Some((self.place, self.s0.generation)) || self.from > list.len() {
            Seq::empty()
        } else {
            let s = Stored { refreshed: trimmed(self.s0.refreshed), ..self.s0 };
            let sent = nearby(caught.sent, cx as int, cz as int, doubled(far));
            walk(s, list, sent, self.max, self.from, (list.len() - self.from) as nat).taken
        }
    }

    /// A chunk is neither sent anew because it was refreshed, nor forgotten
    /// because it is far away.
    pub open spec fn keeps(self, p: (i32, i32)) -> bool {
        &&& !self.refreshed().contains(p)
        &&& apart(p.0 as int, self.place.0 as int) <= doubled(self.place.2)
        &&& apart(p.1 as int, self.place.1 as int) <= doubled(self.place.2)
    }
}

/// A player counts as holding a chunk in full.
pub open spec fn has_full(s: Sent, p: (i32, i32)) -> bool {
    s.sent.contains_key(p) && s.sent[p] is Full
}

proof fn lemma_walk_passes(
    s: Stored, candidates: Seq<(i32, i32, bool)>, sent: Map<(i32, i32), Level>, max: nat, from: int, n: nat, p: (i32, i32),
)
    requires
        sent.contains_key(p),
        sent[p] is Full,
    ensures
        forall|i: int|
            0 <= i < walk(s, candidates, sent, max, from, n).taken.len() ==> (#[trigger] walk(
                s, candidates, sent, max, from, n).taken[i]).0 != p,
    decreases n,
{
    if n > 0 {
        lemma_walk_passes(s, candidates, sent, max, from, (n - 1) as nat, p);
        let w = walk(s, candidates, sent, max, from, (n - 1) as nat);
        let c = candidates[from + n - 1];
        let next = w.step(c, sent, max);
        assert(walk(s, candidates, sent, max, from, n) == next);
        assert((c.0, c.1) == p ==> next.taken == w.taken);
        assert forall|i: int| 0 <= i < next.taken.len() implies (#[trigger] next.taken[i]).0 != p by {
            if i < w.taken.len() {
                assert(next.taken[i] == w.taken[i]);
            }
        }
    }
}

proof fn lemma_marked_keeps(sent: Map<(i32, i32), Level>, taken: Seq<((i32, i32), Level)>, n: nat, p: (i32, i32))
    requires
        n <= taken.len(),
        sent.contains_key(p),
        forall|i: int| 0 <= i < taken.len() ==> (#[trigger] taken[i]).0 != p,
    ensures
        marked(sent, taken, n).contains_key(p),
        marked(sent, taken, n)[p] == sent[p],
    decreases n,
{
    if n > 0 {
        lemma_marked_keeps(sent, taken, (n - 1) as nat, p);
    }
}

proof fn lemma_forget_keeps(sent: Map<(i32, i32), Level>, chunks: Seq<(i32, i32)>, n: nat, p: (i32, i32))
    requires
        n <= chunks.len(),
        sent.contains_key(p),
        !chunks.contains(p),
    ensures
        forget(sent, chunks, n).contains_key(p),
        forget(sent, chunks, n)[p] == sent[p],
    decreases n,
{
    if n > 0 {
        lemma_forget_keeps(sent, chunks, (n - 1) as nat, p);
        assert(chunks[n - 1] != p);
    }
}

/// A batch does not send a chunk that the player holds in full, unless it
/// was refreshed or is forgotten; and the player holds it in full after it.
pub proof fn law_held_chunk_is_not_sent(r: Round, p: (i32, i32))
    requires
        r.happens(),
        has_full(r.before, p),
        r.keeps(p),
    ensures
        forall|i: int| 0 <= i < r.sends().len() ==> (#[trigger] r.sends()[i]).0 != p,
        r.count == r.sends().len(),
        has_full(r.after, p),
{
    let (cx, cz, far, near) = r.place;
    let caught = r.before.caught_up(r.s0);
    lemma_forget_keeps(r.before.sent, r.refreshed(), r.refreshed().len(), p);
    let sent = nearby(caught.sent, cx as int, cz as int, doubled(far));
    assert(sent.contains_key(p) && sent[p] is Full);
    let list = wanted(cx as int, cz as int, far as int, near as int);
    let s = Stored { refreshed: trimmed(r.s0.refreshed), ..r.s0 };
    if caught.exhausted != Some((r.place, r.s0.generation)) && r.from <= list.len() {
        let n = (list.len() - r.from) as nat;
        lemma_walk_passes(s, list, sent, r.max, r.from, n, p);
        let taken = walk(s, list, sent, r.max, r.from, n).taken;
        lemma_marked_keeps(sent, taken, taken.len(), p);
    }
}

/// A chunk that a player holds in full is in no later batch, as long as it
/// is neither refreshed nor forgotten. Between two batches nothing is
/// forgotten: what is marked meanwhile is held in full too.
pub proof fn law_held_chunk_is_in_no_later_batch(rounds: Seq<Round>, p: (i32, i32), n: nat)
    requires
        n < rounds.len(),
        has_full(rounds[0].before, p),
        forall|i: int| 0 <= i < rounds.len() ==> (#[trigger] rounds[i]).happens() && rounds[i].keeps(p),
        forall|i: int| 0 <= i < rounds.len() - 1 && has_full((#[trigger] rounds[i]).after, p) ==> has_full(rounds[i + 1].before, p),
    ensures
        forall|i: int| 0 <= i < rounds[n as int].sends().len() ==> (#[trigger] rounds[n as int].sends()[i]).0 != p,
        has_full(rounds[n as int].after, p),
    decreases n,
{
    if n > 0 {
        law_held_chunk_is_in_no_later_batch(rounds, p, (n - 1) as nat);
        assert(has_full(rounds[n - 1].after, p));
    }
    assert(rounds[n as int].happens() && rounds[n as int].keeps(p));
    law_held_chunk_is_not_sent(rounds[n as int], p);
}

/// The regions of candidates are in memory, with what their files held.
pub open spec fn ready(s: Stored, candidates: Seq<(i32, i32, bool)>) -> bool {
    s.persists ==> forall|j: int| 0 <= j < candidates.len() ==> s.knows(region_of((#[trigger] candidates[j]).0, candidates[j].1))
}

/// A candidate has a record that was not sent as fully as it is wanted.
pub open spec fn lacked(c: (i32, i32, bool), sent: Map<(i32, i32), Level>, s: Stored) -> bool {
    !was_sent(sent, c.0, c.1, c.2) && s.record(c.0, c.1) is Some
}

/// The chunks that lack among the first `n` candidates, in their order, with
/// how fully they are wanted.
pub open spec fn lacking(candidates: Seq<(i32, i32, bool)>, sent: Map<(i32, i32), Level>, s: Stored, n: nat) -> Seq<((i32, i32), Level)>
    decreases n,
{
    if n == 0 {
        Seq::empty()
    } else {
        let rest = lacking(candidates, sent, s, (n - 1) as nat);
        let c = candidates[n - 1];
        if lacked(c, sent, s) { rest.push(((c.0, c.1), if c.2 { Level::Full } else { Level::Coarse })) } else { rest }
    }
}

/// As much of a list as may be taken.
pub open spec fn up_to(list: Seq<((i32, i32), Level)>, max: nat) -> Seq<((i32, i32), Level)> {
    if list.len() <= max { list } else { list.take(max as int) }
}

/// Looking at a region without a directory keeps what is known.
proof fn lemma_look_knows(s: Stored, key: (i32, i32), k: (i32, i32))
    requires
        s.wf(),
        !s.persists,
    ensures
        s.knows(k) ==> s.loaded(key).knows(k),
        s.find(key) is None ==> s.loaded(key).knows(key),
{
    lemma_find(s.regions, key, s.regions.len());
    lemma_find(s.regions, k, s.regions.len());
    lemma_loaded(s, key);
    let t = s.loaded(key);
    if s.find(key) is None {
        lemma_find_is(t, key, s.regions.len() as int);
        if let Some(i) = s.find(k) {
            assert(t.regions[i] == s.regions[i]);
            lemma_find_is(t, k, i);
        }
    }
}

/// A walk over regions in memory keeps the store's records, what it knows,
/// its count and its log.
proof fn lemma_walk_store(
    s: Stored, candidates: Seq<(i32, i32, bool)>, sent: Map<(i32, i32), Level>, max: nat, n: nat, x: i32, z: i32,
)
    requires
        s.wf(),
        ready(s, candidates),
        n <= candidates.len(),
    ensures
        ({
            let t = walk(s, candidates, sent, max, 0, n).store;
            &&& t.wf() && t.persists == s.persists && t.generation == s.generation && t.refreshed == s.refreshed
            &&& t.record(x, z) == s.record(x, z)
            &&& s.knows(region_of(x, z)) ==> t.knows(region_of(x, z))
            &&& s.persists ==> t == s
        }),
    decreases n,
{
    if n > 0 {
        lemma_walk_store(s, candidates, sent, max, (n - 1) as nat, x, z);
        let w = walk(s, candidates, sent, max, 0, (n - 1) as nat);
        let c = candidates[n - 1];
        let key = region_of(c.0, c.1);
        lemma_loaded(w.store, key);
        if s.persists {
            assert(s.knows(key));
        } else {
            lemma_look_keeps(w.store, key, x, z);
            lemma_look_knows(w.store, key, region_of(x, z));
        }
    }
}

/// A walk over regions in memory takes the chunks that lack, in order, as
/// many as it may; it comes to the end unless it took as many as it may.
proof fn lemma_walk_takes(s: Stored, candidates: Seq<(i32, i32, bool)>, sent: Map<(i32, i32), Level>, max: nat, n: nat)
    requires
        s.wf(),
        ready(s, candidates),
        n <= candidates.len(),
    ensures
        ({
            let w = walk(s, candidates, sent, max, 0, n);
            &&& w.taken == up_to(lacking(candidates, sent, s, n), max)
            &&& w.ended ==> w.taken.len() >= max && w.at < n
            &&& !w.ended ==> w.at == n
        }),
    decreases n,
{
    if n > 0 {
        lemma_walk_takes(s, candidates, sent, max, (n - 1) as nat);
        let w = walk(s, candidates, sent, max, 0, (n - 1) as nat);
        let c = candidates[n - 1];
        lemma_walk_store(s, candidates, sent, max, (n - 1) as nat, c.0, c.1);
        let key = region_of(c.0, c.1);
        lemma_loaded(w.store, key);
        if s.persists {
            assert(s.knows(key));
        } else {
            lemma_look_keeps(w.store, key, c.0, c.1);
        }
        let (a, b) = (lacking(candidates, sent, s, (n - 1) as nat), lacking(candidates, sent, s, n));
        assert(walk(s, candidates, sent, max, 0, n) == w.step(c, sent, max));
        if b != a {
            assert(b == a.push(((c.0, c.1), if c.2 { Level::Full } else { Level::Coarse })));
            assert(b.take(max as int) =~= a.take(max as int) || a.len() < max);
        }
        assert(w.step(c, sent, max).taken =~= up_to(b, max));
    }
}

/// Where a walk took nothing and came to the end, every candidate was sent
/// as fully as it is wanted, or its region is in memory without a record.
pub open spec fn nothing_left(candidates: Seq<(i32, i32, bool)>, sent: Map<(i32, i32), Level>, s: Stored) -> bool {
    forall|j: int|
        0 <= j < candidates.len() ==> was_sent(sent, (#[trigger] candidates[j]).0, candidates[j].1, candidates[j].2) || (s.record(
            candidates[j].0, candidates[j].1) is None && s.knows(region_of(candidates[j].0, candidates[j].1)))
}

/// What a player's walks remember holds of a store: where the last one found
/// nothing and the store has the same count still, there is nothing left to
/// send there, and nothing to forget.
pub open spec fn true_of(t: Sent, s: Stored) -> bool {
    t.exhausted matches Some((place, g)) ==> {
        &&& g <= s.generation
        &&& t.seen == g
        &&& g == s.generation ==> {
            &&& nothing_left(wanted(place.0 as int, place.1 as int, place.2 as int, place.3 as int), t.sent, s)
            &&& nearby(t.sent, place.0 as int, place.1 as int, doubled(place.2)) == t.sent
        }
    }
}

proof fn lemma_nothing_lacks(candidates: Seq<(i32, i32, bool)>, sent: Map<(i32, i32), Level>, s: Stored, n: nat)
    requires
        nothing_left(candidates, sent, s),
        n <= candidates.len(),
    ensures
        lacking(candidates, sent, s, n) == Seq::<((i32, i32), Level)>::empty(),
    decreases n,
{
    if n > 0 {
        lemma_nothing_lacks(candidates, sent, s, (n - 1) as nat);
        let c = candidates[n - 1];
        assert(was_sent(sent, c.0, c.1, c.2) || s.record(c.0, c.1) is None);
    }
}

proof fn lemma_lacks(candidates: Seq<(i32, i32, bool)>, sent: Map<(i32, i32), Level>, s: Stored, n: nat, j: int)
    requires
        0 <= j < n <= candidates.len(),
        lacking(candidates, sent, s, n).len() == 0,
    ensures
        !lacked(candidates[j], sent, s),
    decreases n,
{
    if j < n - 1 {
        lemma_lacks(candidates, sent, s, (n - 1) as nat, j);
    }
}

/// After a walk to the end every candidate that was not sent is known.
proof fn lemma_walk_knows(s: Stored, candidates: Seq<(i32, i32, bool)>, sent: Map<(i32, i32), Level>, max: nat, n: nat, j: int)
    requires
        s.wf(),
        ready(s, candidates),
        0 <= j < n <= candidates.len(),
        !walk(s, candidates, sent, max, 0, n).ended,
        whole_in_memory(s),
    ensures
        ({
            let c = candidates[j];
            was_sent(sent, c.0, c.1, c.2) || walk(s, candidates, sent, max, 0, n).store.knows(region_of(c.0, c.1))
        }),
        whole_in_memory(walk(s, candidates, sent, max, 0, n).store),
    decreases n,
{
    let w = walk(s, candidates, sent, max, 0, (n - 1) as nat);
    let c = candidates[n - 1];
    let key = region_of(c.0, c.1);
    assert(walk(s, candidates, sent, max, 0, n) == w.step(c, sent, max));
    lemma_walk_store(s, candidates, sent, max, (n - 1) as nat, c.0, c.1);
    if n > 1 {
        lemma_walk_knows(s, candidates, sent, max, (n - 1) as nat, if j < n - 1 { j } else { 0 });
    }
    lemma_loaded(w.store, key);
    lemma_find(w.store.regions, key, w.store.regions.len());
    let d = candidates[j];
    if s.persists {
        lemma_walk_store(s, candidates, sent, max, n, d.0, d.1);
        assert(s.knows(region_of(d.0, d.1)));
    } else {
        lemma_look_knows(w.store, key, region_of(d.0, d.1));
    }
}

/// Without a directory every region in memory is whole.
pub open spec fn whole_in_memory(s: Stored) -> bool {
    !s.persists ==> forall|i: int| 0 <= i < s.regions.len() ==> (#[trigger] s.regions[i]).whole
}

proof fn lemma_nothing_forgotten(t: Sent, s: Stored)
    requires
        s.wf(),
        true_of(t, s),
        t.exhausted matches Some((_, g)) && g == s.generation,
    ensures
        t.caught_up(s) == t,
{
    let log = trimmed(s.refreshed);
    lemma_trimmed_rises(s);
    lemma_none_after(log, t.seen, log.len());
    assert(forget(t.sent, Seq::<(i32, i32)>::empty(), 0) == t.sent);
}

proof fn lemma_trimmed_rises(s: Stored)
    requires
        s.wf(),
    ensures
        rising(trimmed(s.refreshed), s.generation),
{
    let log = trimmed(s.refreshed);
    let k = s.refreshed.len() - log.len();
    assert forall|i: int, j: int| 0 <= i < j < log.len() implies (#[trigger] log[i]).0 < (#[trigger] log[j]).0 by {
        assert(log[i] == s.refreshed[i + k] && log[j] == s.refreshed[j + k]);
    }
    assert forall|i: int| 0 <= i < log.len() implies (#[trigger] log[i]).0 <= s.generation by {
        assert(log[i] == s.refreshed[i + k]);
    }
}

impl Round {
    /// What the player counts as holding when the walk starts: refreshed
    /// chunks and far ones are forgotten.
    pub open spec fn kept_track_of(self) -> Map<(i32, i32), Level> {
        nearby(self.before.caught_up(self.s0).sent, self.place.0 as int, self.place.1 as int, doubled(self.place.2))
    }

    /// The chunks within reach that have a record and are not tracked at
    /// their level, the nearest ring first.
    pub open spec fn owed(self) -> Seq<((i32, i32), Level)> {
        let list = self.candidates();
        lacking(list, self.kept_track_of(), self.s0, list.len())
    }

    /// The chunks within reach, with whether the full record is wanted.
    pub open spec fn candidates(self) -> Seq<(i32, i32, bool)> {
        wanted(self.place.0 as int, self.place.1 as int, self.place.2 as int, self.place.3 as int)
    }
}

/// The log does not matter to what is lacking.
proof fn lemma_same_lacking(candidates: Seq<(i32, i32, bool)>, sent: Map<(i32, i32), Level>, s: Stored, t: Stored, n: nat)
    requires
        s.regions == t.regions,
        n <= candidates.len(),
    ensures
        lacking(candidates, sent, s, n) == lacking(candidates, sent, t, n),
    decreases n,
{
    if n > 0 {
        lemma_same_lacking(candidates, sent, s, t, (n - 1) as nat);
        let c = candidates[n - 1];
        assert(s.find(region_of(c.0, c.1)) == t.find(region_of(c.0, c.1)));
    }
}

/// On a store whose regions are in memory a batch sends as many of the
/// chunks that the player lacks as it may, in their order, and marks exactly
/// these; what it remembers stays true. Chunks that were forgotten because
/// they were far away go out again.
pub proof fn law_batch_sends_what_lacks(r: Round)
    requires
        r.happens(),
        r.from == 0,
        r.s0.wf(),
        ready(r.s0, r.candidates()),
        whole_in_memory(r.s0),
        true_of(r.before, r.s0),
    ensures
        r.count == (if r.owed().len() <= r.max { r.owed().len() as int } else { r.max as int }),
        r.sends() == up_to(r.owed(), r.max),
        r.after.sent == marked(r.kept_track_of(), r.sends(), r.sends().len()),
        true_of(r.after, r.s1),
        whole_in_memory(r.s1),
{
    let list = r.candidates();
    let caught = r.before.caught_up(r.s0);
    let s = Stored { refreshed: trimmed(r.s0.refreshed), ..r.s0 };
    lemma_trimmed_rises(r.s0);
    assert(s.wf());
    assert forall|key: (i32, i32)| r.s0.find(key) == #[trigger] s.find(key) by {}
    assert forall|key: (i32, i32)| r.s0.knows(key) implies #[trigger] s.knows(key) by {
        assert(r.s0.find(key) == s.find(key));
    }
    assert(ready(s, list)) by {
        if s.persists {
            assert forall|j: int| 0 <= j < list.len() implies s.knows(region_of((#[trigger] list[j]).0, list[j].1)) by {
                assert(r.s0.knows(region_of(list[j].0, list[j].1)));
            }
        }
    }
    if caught.exhausted == Some((r.place, r.s0.generation)) {
        lemma_nothing_forgotten(r.before, r.s0);
        lemma_nothing_lacks(list, r.before.sent, r.s0, list.len());
        assert(marked(r.kept_track_of(), r.sends(), 0) == r.kept_track_of());
        assert forall|j: int| 0 <= j < list.len() implies was_sent(r.after.sent, (#[trigger] list[j]).0, list[j].1, list[j].2) || (
        r.s1.record(list[j].0, list[j].1) is None && r.s1.knows(region_of(list[j].0, list[j].1))) by {
            assert(r.s0.find(region_of(list[j].0, list[j].1)) == s.find(region_of(list[j].0, list[j].1)));
        }
    } else {
        let sent = r.kept_track_of();
        lemma_walk_takes(s, list, sent, r.max, list.len());
        lemma_same_lacking(list, sent, r.s0, s, list.len());
        let w = walk(s, list, sent, r.max, 0, list.len());
        lemma_walk_store(s, list, sent, r.max, list.len(), 0, 0);
        lemma_whole_after(s, list, sent, r.max, list.len());
        if w.taken.len() == 0 && w.at == list.len() {
            assert(marked(sent, w.taken, 0) == sent);
            assert(nearby(sent, r.place.0 as int, r.place.1 as int, doubled(r.place.2)) =~= sent);
            assert forall|j: int| 0 <= j < list.len() implies was_sent(sent, (#[trigger] list[j]).0, list[j].1, list[j].2) || (
            w.store.record(list[j].0, list[j].1) is None && w.store.knows(region_of(list[j].0, list[j].1))) by {
                lemma_walk_knows(s, list, sent, r.max, list.len(), j);
                lemma_walk_store(s, list, sent, r.max, list.len(), list[j].0, list[j].1);
                if r.max > 0 {
                    lemma_lacks(list, sent, s, list.len(), j);
                }
            }
        }
    }
}

proof fn lemma_whole_after(s: Stored, candidates: Seq<(i32, i32, bool)>, sent: Map<(i32, i32), Level>, max: nat, n: nat)
    requires
        s.wf(),
        ready(s, candidates),
        n <= candidates.len(),
        whole_in_memory(s),
    ensures
        whole_in_memory(walk(s, candidates, sent, max, 0, n).store),
    decreases n,
{
    if n > 0 {
        lemma_whole_after(s, candidates, sent, max, (n - 1) as nat);
        lemma_walk_store(s, candidates, sent, max, (n - 1) as nat, 0, 0);
    }
}

/// What a player's walks remember stays true of a store without a directory,
/// whatever is called of it.
pub proof fn law_memory_of_walks_stays_true(t: Sent, s: Stored, c: StoreCall)
    requires
        s.wf(),
        !s.persists,
        s.generation < u64::MAX,
        fits(c),
        whole_in_memory(s),
        true_of(t, s),
    ensures
        true_of(t, s.called(c)),
        whole_in_memory(s.called(c)),
{
    lemma_called(s, c);
    let u = s.called(c);
    assert(whole_in_memory(u)) by {
        match c {
            StoreCall::Insert(x, z, _) => {
                lemma_find(s.regions, region_of(x, z), s.regions.len());
                lemma_loaded(s, region_of(x, z));
            },
            StoreCall::Refresh(x, z, _) => {
                lemma_find(s.regions, region_of(x, z), s.regions.len());
                lemma_loaded(s, region_of(x, z));
            },
            StoreCall::HandOver(key, _) => lemma_find(s.regions, key, s.regions.len()),
            StoreCall::Change(key) => lemma_find(s.regions, key, s.regions.len()),
            _ => {},
        }
    }
    if let Some((place, g)) = t.exhausted {
        if g == u.generation {
            let list = wanted(place.0 as int, place.1 as int, place.2 as int, place.3 as int);
            assert(g == s.generation);
            assert forall|j: int| 0 <= j < list.len() implies was_sent(t.sent, (#[trigger] list[j]).0, list[j].1, list[j].2) || (u.record(
                list[j].0, list[j].1) is None && u.knows(region_of(list[j].0, list[j].1))) by {
                if !was_sent(t.sent, list[j].0, list[j].1, list[j].2) {
                    lemma_known_stays(s, c, list[j].0, list[j].1);
                }
            }
        }
    }
}

/// Without a directory a known region stays known, and a call that keeps the
/// count keeps its records.
proof fn lemma_known_stays(s: Stored, c: StoreCall, x: i32, z: i32)
    requires
        s.wf(),
        !s.persists,
        s.generation < u64::MAX,
        fits(c),
        s.called(c).generation == s.generation,
        s.knows(region_of(x, z)),
    ensures
        s.called(c).knows(region_of(x, z)),
        s.called(c).record(x, z) == s.record(x, z),
{
    let k = region_of(x, z);
    let u = s.called(c);
    lemma_called(s, c);
    lemma_find(s.regions, k, s.regions.len());
    lemma_find(u.regions, k, u.regions.len());
    match c {
        StoreCall::Insert(p, q, _) => lemma_loaded(s, region_of(p, q)),
        StoreCall::Refresh(p, q, _) => lemma_loaded(s, region_of(p, q)),
        StoreCall::Look(key) => {
            lemma_look_keeps(s, key, x, z);
            lemma_look_knows(s, key, k);
        },
        StoreCall::HandOver(key, records) => {
            lemma_find(s.regions, key, s.regions.len());
            let i = s.find(k)->0;
            if s.find(key) is None {
                assert(u.regions[i] == s.regions[i]);
                lemma_find_is(u, k, i);
            } else if key != k {
                assert(u.regions[i] == s.regions[i]);
                lemma_find_is(u, k, i);
            }
        },
        StoreCall::Change(key) => {
            lemma_find(s.regions, key, s.regions.len());
            let i = s.find(k)->0;
            assert(u.regions[i].key == k && u.regions[i].records == s.regions[i].records && u.regions[i].whole);
            lemma_find_is(u, k, i);
        },
        StoreCall::Flush => {},
        StoreCall::TakeWrites => {
            assert(u.find(k) == s.find(k));
        },
        StoreCall::Refreshed => {
            assert(u.find(k) == s.find(k));
        },
    }
}

} // verus!
