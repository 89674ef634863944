//! What a sender writes into a batch is what the client reads out of it.

use vstd::prelude::*;
use crate::bytes::{lemma_capacities, lemma_from_le_of_le, lemma_le_len, le};
use crate::lod26::{coarse_bytes, law_record_bytes_determine, record_bytes, ColumnLod};
use crate::lodclient::{batch_bytes, body_size, carries, full_regions, int_at, Body, Entry};
use crate::lodregion::region_of;
use crate::lodstore::{coarse_body, entry_bytes, header_bytes, walk, was_sent, Level, Stored};

verus! {

/// A record that a sender writes.
pub ghost struct Sending {
    pub x: i32,
    pub z: i32,
    pub record: ColumnLod,
    pub full: bool,
}

impl Sending {
    pub open spec fn bytes(self) -> Seq<u8> {
        entry_bytes(self.x, self.z, self.record, self.full)
    }
}

/// The bytes of the first `n` records.
pub open spec fn sent_bytes(l: Seq<Sending>, n: nat) -> Seq<u8>
    decreases n,
{
    if n == 0 { Seq::empty() } else { sent_bytes(l, (n - 1) as nat) + l[n - 1].bytes() }
}

/// The records that a walk over candidates takes.
pub open spec fn sendings(
    s: Stored, candidates: Seq<(i32, i32, bool)>, sent: Map<(i32, i32), Level>, max: nat, from: int, n: nat,
) -> Seq<Sending>
    decreases n,
{
    if n == 0 {
        Seq::empty()
    } else {
        let before = sendings(s, candidates, sent, max, from, (n - 1) as nat);
        let w = walk(s, candidates, sent, max, from, (n - 1) as nat);
        let (x, z, full) = candidates[from + n - 1];
        if w.ended || w.taken.len() >= max || was_sent(sent, x, z, full) || (w.store.persists && !w.store.knows(region_of(x, z))) {
            before
        } else {
            match w.store.loaded(region_of(x, z)).record(x, z) {
                Some(record) => before.push(Sending { x, z, record, full }),
                None => before,
            }
        }
    }
}

/// The first records' bytes stay the same where more follow.
proof fn lemma_sent_prefix(l: Seq<Sending>, s: Sending, n: nat)
    requires
        n <= l.len(),
    ensures
        sent_bytes(l.push(s), n) == sent_bytes(l, n),
    decreases n,
{
    if n > 0 {
        lemma_sent_prefix(l, s, (n - 1) as nat);
    }
}

/// A walk's bytes are those of the records it takes, in the order in which
/// it takes them.
pub proof fn law_walk_writes_its_records(
    s: Stored, candidates: Seq<(i32, i32, bool)>, sent: Map<(i32, i32), Level>, max: nat, from: int, n: nat,
)
    ensures
        ({
            let l = sendings(s, candidates, sent, max, from, n);
            let w = walk(s, candidates, sent, max, from, n);
            &&& w.bytes == sent_bytes(l, l.len())
            &&& w.taken == l.map_values(|x: Sending| ((x.x, x.z), if x.full { Level::Full } else { Level::Coarse }))
        }),
    decreases n,
{
    let level = |x: Sending| ((x.x, x.z), if x.full { Level::Full } else { Level::Coarse });
    if n == 0 {
        assert(sendings(s, candidates, sent, max, from, 0).map_values(level) =~= Seq::empty());
    } else {
        law_walk_writes_its_records(s, candidates, sent, max, from, (n - 1) as nat);
        let before = sendings(s, candidates, sent, max, from, (n - 1) as nat);
        let l = sendings(s, candidates, sent, max, from, n);
        if l != before {
            lemma_sent_prefix(before, l.last(), before.len());
            assert(l.map_values(level) =~= before.map_values(level).push(level(l.last())));
        }
    }
}

/// The bytes of entries, the first one split off.
proof fn lemma_batch_front(e: Seq<Entry>, n: nat)
    requires
        1 <= n <= e.len(),
    ensures
        batch_bytes(e, n) == e[0].bytes() + batch_bytes(e.skip(1), (n - 1) as nat),
    decreases n,
{
    if n == 1 {
        assert(batch_bytes(e, 0) =~= Seq::empty());
        assert(batch_bytes(e, 1) =~= e[0].bytes() + batch_bytes(e.skip(1), 0));
    } else {
        lemma_batch_front(e, (n - 1) as nat);
        assert(e.skip(1)[n - 2] == e[n - 1]);
        assert(batch_bytes(e, n) =~= e[0].bytes() + batch_bytes(e.skip(1), (n - 1) as nat));
    }
}

/// The bytes of records, the first one split off.
proof fn lemma_sent_front(l: Seq<Sending>, n: nat)
    requires
        1 <= n <= l.len(),
    ensures
        sent_bytes(l, n) == l[0].bytes() + sent_bytes(l.skip(1), (n - 1) as nat),
    decreases n,
{
    if n == 1 {
        assert(sent_bytes(l, 0) =~= Seq::empty());
        assert(sent_bytes(l, 1) =~= l[0].bytes() + sent_bytes(l.skip(1), 0));
    } else {
        lemma_sent_front(l, (n - 1) as nat);
        assert(l.skip(1)[n - 2] == l[n - 1]);
        assert(sent_bytes(l, n) =~= l[0].bytes() + sent_bytes(l.skip(1), (n - 1) as nat));
    }
}

/// A header is told by its bytes.
proof fn lemma_header(x: i32, z: i32, flags: int, x2: i32, z2: i32, flags2: int)
    requires
        0 <= flags < 0x1_0000_0000,
        0 <= flags2 < 0x1_0000_0000,
        header_bytes(x, z, flags) == header_bytes(x2, z2, flags2),
    ensures
        x == x2,
        z == z2,
        flags == flags2,
        header_bytes(x, z, flags).len() == 12,
{
    lemma_header_len(x, z, flags);
    lemma_header_len(x2, z2, flags2);
    let (a, b) = (header_bytes(x, z, flags), header_bytes(x2, z2, flags2));
    assert(a.subrange(0, 4) =~= le((x as u32) as int, 4));
    assert(b.subrange(0, 4) =~= le((x2 as u32) as int, 4));
    assert(a.subrange(4, 8) =~= le((z as u32) as int, 4));
    assert(b.subrange(4, 8) =~= le((z2 as u32) as int, 4));
    assert(a.subrange(8, 12) =~= le(flags, 4));
    assert(b.subrange(8, 12) =~= le(flags2, 4));
    lemma_capacities();
    lemma_from_le_of_le((x as u32) as int, 4);
    lemma_from_le_of_le((x2 as u32) as int, 4);
    lemma_from_le_of_le((z as u32) as int, 4);
    lemma_from_le_of_le((z2 as u32) as int, 4);
    lemma_from_le_of_le(flags, 4);
    lemma_from_le_of_le(flags2, 4);
    lemma_unsigned(x);
    lemma_unsigned(x2);
    lemma_unsigned(z);
    lemma_unsigned(z2);
}

pub(crate) proof fn lemma_unsigned(v: i32)
    ensures
        (v as u32) as i32 == v,
{
    assert((v as u32) as i32 == v) by (bit_vector);
}

proof fn lemma_header_len(x: i32, z: i32, flags: int)
    ensures
        header_bytes(x, z, flags).len() == 12,
        le((x as u32) as int, 4).len() == 4,
        le((z as u32) as int, 4).len() == 4,
        le(flags, 4).len() == 4,
{
    lemma_le_len((x as u32) as int, 4);
    lemma_le_len((z as u32) as int, 4);
    lemma_le_len(flags, 4);
}

/// One of the entries is a full record of a region.
pub open spec fn has_full(entries: Seq<Entry>, key: (i32, i32)) -> bool {
    exists|i: int| 0 <= i < entries.len() && full_in(#[trigger] entries[i], key)
}

/// An entry is a full record of a region.
pub open spec fn full_in(e: Entry, key: (i32, i32)) -> bool {
    e.body is Full && region_of(e.x, e.z) == key
}

proof fn lemma_full_regions(entries: Seq<Entry>, head: Seq<u8>, tail: Seq<u8>, key: (i32, i32))
    requires
        carries(entries, tail),
    ensures
        full_regions(head + tail, head.len() as int).contains(key) <==> has_full(entries, key),
    decreases entries.len(),
{
    let b = head + tail;
    let at = head.len() as int;
    if entries.len() > 0 {
        lemma_batch_front(entries, entries.len());
        let e = entries[0];
        assert(e.wf());
        let body = match e.body {
            Body::Full(r) => record_bytes(r),
            Body::Coarse(c) => coarse_bytes(c),
        };
        let rest = entries.skip(1);
        let more = batch_bytes(rest, rest.len());
        lemma_header_len(e.x, e.z, e.flags as int);
        assert(e.bytes() =~= header_bytes(e.x, e.z, e.flags as int) + body);
        assert(b.subrange(at, at + 4) =~= le((e.x as u32) as int, 4));
        assert(b.subrange(at + 4, at + 8) =~= le((e.z as u32) as int, 4));
        assert(b.subrange(at + 8, at + 12) =~= le(e.flags as int, 4));
        lemma_capacities();
        lemma_from_le_of_le((e.x as u32) as int, 4);
        lemma_from_le_of_le((e.z as u32) as int, 4);
        lemma_from_le_of_le(e.flags as int, 4);
        lemma_unsigned(e.x);
        lemma_unsigned(e.z);
        assert(b.subrange(at + 4, at + 4 + 4) =~= b.subrange(at + 4, at + 8));
        assert(int_at(b, at) == e.x && int_at(b, at + 4) == e.z);
        assert(body.len() == body_size(b, at));
        let next = head + e.bytes();
        assert(next + more =~= b);
        assert forall|i: int| 0 <= i < rest.len() implies (#[trigger] rest[i]).wf() by {
            assert(rest[i] == entries[i + 1]);
        }
        lemma_full_regions(rest, next, more, key);
        assert(has_full(entries, key) <==> full_in(e, key) || has_full(rest, key)) by {
            if has_full(rest, key) {
                let i = choose|i: int| 0 <= i < rest.len() && full_in(#[trigger] rest[i], key);
                assert(full_in(entries[i + 1], key));
            }
            if has_full(entries, key) {
                let i = choose|i: int| 0 <= i < entries.len() && full_in(#[trigger] entries[i], key);
                if i > 0 {
                    assert(rest[i - 1] == entries[i]);
                }
            }
        }
    }
}

/// The regions that a batch's bytes name are those of its full entries.
pub proof fn law_batch_names_its_regions(entries: Seq<Entry>, bytes: Seq<u8>, key: (i32, i32))
    requires
        carries(entries, bytes),
    ensures
        full_regions(bytes, 0).contains(key) <==> has_full(entries, key),
{
    assert(Seq::<u8>::empty() + bytes =~= bytes);
    lemma_full_regions(entries, Seq::empty(), bytes, key);
}

/// The client reads a record as the sender wrote it: the chunk, the stage,
/// and every column, or the coarse cells of the record.
pub open spec fn reads_as(e: Entry, s: Sending) -> bool {
    &&& e.x == s.x
    &&& e.z == s.z
    &&& e.flags % 256 == s.record.stage
    &&& match e.body {
        Body::Full(r) => s.full && r.stage == s.record.stage && r.height@ == s.record.height@ && r.top@ == s.record.top@ && r.biome@
            == s.record.biome@ && r.depth@ == s.record.depth@ && r.floor@ == s.record.floor@,
        Body::Coarse(c) => !s.full && coarse_bytes(c) == coarse_body(s.record),
    }
}

/// The client reads exactly the records that a sender wrote, in order.
#[verifier::spinoff_prover]
#[verifier::rlimit(60)]
pub proof fn law_client_reads_what_was_sent(l: Seq<Sending>, entries: Seq<Entry>)
    requires
        carries(entries, sent_bytes(l, l.len())),
    ensures
        entries.len() == l.len(),
        forall|i: int| 0 <= i < l.len() ==> reads_as(#[trigger] entries[i], l[i]),
    decreases l.len(),
{
    let b = sent_bytes(l, l.len());
    if l.len() == 0 {
        if entries.len() > 0 {
            lemma_batch_front(entries, entries.len());
            lemma_header_len(entries[0].x, entries[0].z, entries[0].flags as int);
            assert(b.len() >= 12);
        }
    } else {
        lemma_sent_front(l, l.len());
        let s = l[0];
        let flags = if s.full { s.record.stage as int } else { s.record.stage + 256 };
        lemma_header_len(s.x, s.z, flags);
        let body = if s.full { record_bytes(s.record) } else { coarse_body(s.record) };
        assert(s.bytes() =~= header_bytes(s.x, s.z, flags) + body);
        if entries.len() == 0 {
            assert(batch_bytes(entries, 0).len() == 0);
            assert(b.len() >= 12);
        } else {
            lemma_batch_front(entries, entries.len());
            let e = entries[0];
            assert(e.wf());
            let other = match e.body {
                Body::Full(r) => record_bytes(r),
                Body::Coarse(c) => coarse_bytes(c),
            };
            lemma_header_len(e.x, e.z, e.flags as int);
            assert(e.bytes() =~= header_bytes(e.x, e.z, e.flags as int) + other);
            assert(b.subrange(0, 12) =~= header_bytes(s.x, s.z, flags));
            assert(b.subrange(0, 12) =~= header_bytes(e.x, e.z, e.flags as int));
            lemma_header(s.x, s.z, flags, e.x, e.z, e.flags as int);
            let n = body.len() as int;
            assert(other.len() == n);
            assert(b.subrange(12, 12 + n) =~= body);
            assert(b.subrange(12, 12 + n) =~= other);
            if let Body::Full(r) = e.body {
                law_record_bytes_determine(r, s.record);
            }
            assert(reads_as(e, s));
            let (rest_l, rest_e) = (l.skip(1), entries.skip(1));
            assert(b.skip(12 + n) =~= sent_bytes(rest_l, rest_l.len()));
            assert(b.skip(12 + n) =~= batch_bytes(rest_e, rest_e.len()));
            assert forall|i: int| 0 <= i < rest_e.len() implies (#[trigger] rest_e[i]).wf() by {
                assert(rest_e[i] == entries[i + 1]);
            }
            law_client_reads_what_was_sent(rest_l, rest_e);
            assert forall|i: int| 0 <= i < l.len() implies reads_as(#[trigger] entries[i], l[i]) by {
                if i > 0 {
                    assert(reads_as(rest_e[i - 1], rest_l[i - 1]));
                }
            }
        }
    }
}

} // verus!
