//! Region files: the records of 32x32 chunks.

use vstd::prelude::*;
use crate::lod26::{dry, law_record_bytes_determine, record_bytes, shorts, unsigned, ColumnLod, STAGE_SURFACE};
use crate::volume::{floor_div, floor_mod};

verus! {

/// Everything before the records: prefix, bitmap, stages.
pub const HEADER_BYTES: usize = 1174;

/// `PLOD`.
pub open spec fn magic() -> Seq<u8> {
    seq![0x50u8, 0x4Cu8, 0x4Fu8, 0x44u8]
}

/// The value of one bit of a byte.
pub open spec fn weight(k: int) -> int {
    if k == 0 {
        1
    } else if k == 1 {
        2
    } else if k == 2 {
        4
    } else if k == 3 {
        8
    } else if k == 4 {
        16
    } else if k == 5 {
        32
    } else if k == 6 {
        64
    } else {
        128
    }
}

fn bit_weight(k: usize) -> (r: u8)
    requires
        k < 8,
    ensures
        r == weight(k as int),
{
    if k == 0 {
        1
    } else if k == 1 {
        2
    } else if k == 2 {
        4
    } else if k == 3 {
        8
    } else if k == 4 {
        16
    } else if k == 5 {
        32
    } else if k == 6 {
        64
    } else {
        128
    }
}

/// Whether a bit of a byte is set.
pub open spec fn bit_of(b: u8, k: int) -> bool {
    (b as int / weight(k)) % 2 == 1
}

/// Whether the bit of a slot is set; a slot beyond the bytes has none.
pub open spec fn slot_bit(bitmap: Seq<u8>, slot: int) -> bool {
    0 <= slot / 8 < bitmap.len() && bit_of(bitmap[slot / 8], slot % 8)
}

/// Whether the bit of a slot is set.
pub fn has_bit(bitmap: &[u8], slot: usize) -> (r: bool)
    ensures
        r == slot_bit(bitmap@, slot as int),
{
    let j: usize = slot / 8;
    if j >= bitmap.len() {
        return false;
    }
    (bitmap[j] / bit_weight(slot % 8)) % 2 == 1
}

/// The byte whose bits say which of eight things hold.
pub open spec fn byte_of(f: spec_fn(int) -> bool, n: int) -> int
    decreases n,
{
    if n <= 0 { 0 } else { byte_of(f, n - 1) + (if f(n - 1) { weight(n - 1) } else { 0 }) }
}

/// Each bit of such a byte says what its thing is.
proof fn lemma_byte_of(f: spec_fn(int) -> bool, k: int)
    requires
        0 <= k < 8,
    ensures
        0 <= byte_of(f, 8) < 256,
        bit_of(byte_of(f, 8) as u8, k) == f(k),
{
    reveal_with_fuel(byte_of, 9);
}

/// The low bits of a byte stay below its next weight.
proof fn lemma_byte_bound(f: spec_fn(int) -> bool, n: int)
    requires
        0 <= n <= 8,
    ensures
        0 <= byte_of(f, n),
        n < 8 ==> byte_of(f, n) < weight(n),
        n == 8 ==> byte_of(f, n) < 256,
{
    reveal_with_fuel(byte_of, 9);
}

/// The bitmap of the slots for which something holds.
pub open spec fn bitmap_of(f: spec_fn(int) -> bool) -> Seq<u8> {
    Seq::new(128, |j: int| byte_of(|k: int| f(8 * j + k), 8) as u8)
}

/// Each bit of a bitmap says what its slot is.
pub proof fn lemma_bitmap_of(f: spec_fn(int) -> bool, slot: int)
    requires
        0 <= slot < 1024,
    ensures
        slot_bit(bitmap_of(f), slot) == f(slot),
{
    let j = slot / 8;
    let g = |k: int| f(8 * j + k);
    lemma_byte_of(g, slot % 8);
    assert(8 * j + slot % 8 == slot);
    assert(bitmap_of(f)[j] == byte_of(g, 8) as u8);
}

/// Make a bitmap from flags.
pub fn make_bitmap(flags: &Vec<bool>) -> (r: Vec<u8>)
    requires
        flags@.len() == 1024,
    ensures
        r@ == bitmap_of(|s: int| flags@[s]),
{
    let mut r: Vec<u8> = Vec::new();
    let ghost f = |s: int| flags@[s];
    while r.len() < 128
        invariant
            flags@.len() == 1024,
            f == (|s: int| flags@[s]),
            r@.len() <= 128,
            r@ == bitmap_of(f).take(r@.len() as int),
        decreases 128 - r.len(),
    {
        let j: usize = r.len();
        let ghost g = |k: int| f(8 * j + k);
        let mut b: u16 = 0;
        let mut k: usize = 0;
        while k < 8
            invariant
                j < 128,
                flags@.len() == 1024,
                f == (|s: int| flags@[s]),
                g == (|k: int| f(8 * j + k)),
                k <= 8,
                b == byte_of(g, k as int),
            decreases 8 - k,
        {
            proof { lemma_byte_bound(g, k as int); }
            if flags[8 * j + k] {
                b = b + bit_weight(k) as u16;
            }
            k += 1;
        }
        proof {
            lemma_byte_bound(g, 8);
            assert(bitmap_of(f)[j as int] == byte_of(g, 8) as u8);
        }
        r.push(b as u8);
        proof { assert(r@ =~= bitmap_of(f).take(j + 1)); }
    }
    proof { assert(bitmap_of(f).take(128) =~= bitmap_of(f)); }
    r
}

/// The region of a chunk.
pub open spec fn region_of(x: i32, z: i32) -> (i32, i32) {
    ((x as int / 32) as i32, (z as int / 32) as i32)
}

/// The slot of a chunk in its region.
pub open spec fn slot_of(x: i32, z: i32) -> int {
    x as int % 32 + (z as int % 32) * 32
}

/// The region of a chunk, and its slot there.
pub fn region_slot(chunk_x: i32, chunk_z: i32) -> (r: ((i32, i32), usize))
    ensures
        r.0 == region_of(chunk_x, chunk_z),
        r.1 == slot_of(chunk_x, chunk_z),
        r.1 < 1024,
{
    let key: (i32, i32) = (floor_div(chunk_x, 32), floor_div(chunk_z, 32));
    (key, (floor_mod(chunk_x, 32) + floor_mod(chunk_z, 32) * 32) as usize)
}

/// A chunk is told by its region and slot.
pub proof fn law_region_slot_determines(a: (i32, i32), b: (i32, i32))
    requires
        region_of(a.0, a.1) == region_of(b.0, b.1),
        slot_of(a.0, a.1) == slot_of(b.0, b.1),
    ensures
        a == b,
{
}

/// The slots below `n` whose bits are set, in ascending order.
pub open spec fn set_slots(bitmap: Seq<u8>, n: int) -> Seq<int>
    decreases n,
{
    if n <= 0 {
        Seq::empty()
    } else {
        let rest = set_slots(bitmap, n - 1);
        if slot_bit(bitmap, n - 1) { rest.push(n - 1) } else { rest }
    }
}

/// Set slots are in range, distinct, and all there.
pub proof fn lemma_set_slots(bitmap: Seq<u8>, n: int)
    requires
        n >= 0,
    ensures
        set_slots(bitmap, n).len() <= n,
        forall|i: int| 0 <= i < set_slots(bitmap, n).len() ==> 0 <= #[trigger] set_slots(bitmap, n)[i] < n && slot_bit(
            bitmap, set_slots(bitmap, n)[i]),
        forall|i: int, j: int|
            0 <= i < j < set_slots(bitmap, n).len() ==> #[trigger] set_slots(bitmap, n)[i] < #[trigger] set_slots(
                bitmap, n)[j],
        forall|s: int| 0 <= s < n && #[trigger] slot_bit(bitmap, s) ==> set_slots(bitmap, n).contains(s),
    decreases n,
{
    if n > 0 {
        lemma_set_slots(bitmap, n - 1);
        let a = set_slots(bitmap, n - 1);
        let b = set_slots(bitmap, n);
        assert forall|s: int| 0 <= s < n && #[trigger] slot_bit(bitmap, s) implies b.contains(s) by {
            if s < n - 1 {
                assert(a.contains(s));
                let i = choose|i: int| 0 <= i < a.len() && a[i] == s;
                assert(b[i] == s);
            } else {
                assert(b[b.len() - 1] == s);
            }
        }
        assert forall|i: int| 0 <= i < b.len() implies 0 <= #[trigger] b[i] < n && slot_bit(bitmap, b[i]) by {
            if i < a.len() {
                assert(b[i] == a[i]);
            }
        }
        assert forall|i: int, j: int| 0 <= i < j < b.len() implies #[trigger] b[i] < #[trigger] b[j] by {
            assert(b[i] == a[i]);
            if j < a.len() {
                assert(b[j] == a[j]);
            }
        }
    }
}

/// The version of a file.
pub open spec fn file_version(b: Seq<u8>) -> int {
    b[4] + 256 * b[5]
}

/// Where the records of a version start.
pub open spec fn records_start(version: int) -> int {
    if version == 1 { 150 } else { 1174 }
}

/// The size of a record of a version.
pub open spec fn record_size(version: int) -> int {
    if version == 3 { 2304 } else { 1536 }
}

/// The slots a file has records for.
pub open spec fn file_slots(b: Seq<u8>) -> Seq<int> {
    set_slots(b.subrange(22, 150), 1024)
}

/// A version that is understood, and all of its records there.
pub open spec fn readable(b: Seq<u8>) -> bool {
    let v = file_version(b);
    &&& 1 <= v <= 3
    &&& v == 3 ==> b.len() >= 1174
    &&& file_slots(b).len() > 0 ==> b.len() >= records_start(v) + file_slots(b).len() * record_size(v)
}

/// A record is the `i`-th of a file.
pub open spec fn is_record(b: Seq<u8>, i: int, slot: int, r: ColumnLod) -> bool {
    let v = file_version(b);
    let at = records_start(v) + i * record_size(v);
    if v == 3 {
        r.stage == b[150 + slot] && record_bytes(r) == b.subrange(at, at + 2304)
    } else {
        r.stage == STAGE_SURFACE && dry(r) && shorts(unsigned(r.height@)) + shorts(r.top@) + shorts(r.biome@)
            == b.subrange(at, at + 1536)
    }
}

/// A list holds the records of a file by slot.
pub open spec fn lists_records(list: Seq<(usize, ColumnLod)>, b: Seq<u8>) -> bool {
    &&& list.len() == file_slots(b).len()
    &&& forall|i: int|
        0 <= i < list.len() ==> (#[trigger] list[i]).0 == file_slots(b)[i] && is_record(b, i, file_slots(b)[i], list[i].1)
}

/// Long enough for a bitmap, and ours.
pub open spec fn is_region_file(b: Seq<u8>) -> bool {
    b.len() >= 150 && b.subrange(0, 4) == magic()
}

fn starts_with_magic(bytes: &[u8]) -> (r: bool)
    requires
        bytes@.len() >= 4,
    ensures
        r == (bytes@.subrange(0, 4) == magic()),
{
    let r: bool = bytes[0] == 0x50 && bytes[1] == 0x4C && bytes[2] == 0x4F && bytes[3] == 0x44;
    proof {
        if r {
            assert(bytes@.subrange(0, 4) =~= magic());
        } else {
            assert(magic()[0] == 0x50 && magic()[1] == 0x4C && magic()[2] == 0x4F && magic()[3] == 0x44);
            assert(bytes@.subrange(0, 4)[0] == bytes@[0] && bytes@.subrange(0, 4)[1] == bytes@[1] && bytes@.subrange(0, 4)[2]
                == bytes@[2] && bytes@.subrange(0, 4)[3] == bytes@[3]);
        }
    }
    r
}

/// Records of a region file by slot (x + z * 32); the hash is not checked.
pub fn region_records(bytes: &[u8]) -> (r: Option<Vec<(usize, ColumnLod)>>)
    ensures
        r is Some <==> is_region_file(bytes@) && readable(bytes@),
        r matches Some(v) ==> lists_records(v@, bytes@),
{
    if bytes.len() < 150 || !starts_with_magic(bytes) {
        return None;
    }
    region_records_any(bytes)
}

/// Records by slot of a version 1 (no stages, all generator surface), 2 (no
/// water depth) or 3 file. Records from older files count as the
/// generator's stage, so the next load refreshes them.
fn region_records_any(bytes: &[u8]) -> (r: Option<Vec<(usize, ColumnLod)>>)
    requires
        bytes@.len() >= 150,
    ensures
        r is Some <==> readable(bytes@),
        r matches Some(v) ==> lists_records(v@, bytes@),
{
    let ghost b = bytes@;
    let version: u16 = bytes[4] as u16 + (bytes[5] as u16) * 256;
    if version < 1 || version > 3 {
        return None;
    }
    if version == 3 && bytes.len() < HEADER_BYTES {
        return None;
    }
    let start: usize = if version == 1 { 150 } else { 1174 };
    let size: usize = if version == 3 { 2304 } else { 1536 };
    let bitmap: &[u8] = vstd::slice::slice_subrange(bytes, 22, 150);
    let end: usize = bytes.len();
    let mut out: Vec<(usize, ColumnLod)> = Vec::new();
    let mut slot: usize = 0;
    while slot < 1024
        invariant
            b == bytes@,
            end == b.len(),
            end >= 150,
            version == file_version(b),
            1 <= version <= 3,
            version == 3 ==> end >= 1174,
            start == records_start(version as int),
            size == record_size(version as int),
            bitmap@ == b.subrange(22, 150),
            slot <= 1024,
            out@.len() == set_slots(bitmap@, slot as int).len(),
            out@.len() <= slot,
            out@.len() > 0 ==> start + out@.len() * size <= end,
            forall|i: int|
                0 <= i < out@.len() ==> (#[trigger] out@[i]).0 == set_slots(bitmap@, slot as int)[i] && is_record(
                    b, i, set_slots(bitmap@, slot as int)[i], out@[i].1),
        decreases 1024 - slot,
    {
        if has_bit(bitmap, slot) {
            let n: usize = out.len();
            let ghost before = out@;
            proof {
                lemma_more_slots(bitmap@, slot + 1, 1024);
                assert(n * size <= 1024 * 2304 && 0 <= n * size) by (nonlinear_arith)
                    requires
                        0 <= n <= 1024,
                        0 <= size <= 2304,
                ;
                assert((n + 1) * size == n * size + size) by (nonlinear_arith);
            }
            let off: usize = n * size;
            let room: bool = end >= start && end - start >= off && end - start - off >= size;
            if !room {
                proof {
                    let total = file_slots(b).len();
                    assert((n + 1) * size <= total * size) by (nonlinear_arith)
                        requires
                            n + 1 <= total,
                            size >= 0,
                    ;
                }
                return None;
            }
            let at: usize = start + off;
            let mut r: ColumnLod = if version == 3 {
                ColumnLod::read_at(bytes, at)
            } else {
                ColumnLod::read_at_v2(bytes, at)
            };
            if version == 3 {
                r.stage = bytes[150 + slot];
            }
            out.push((slot, r));
            proof {
                let s0 = set_slots(bitmap@, slot as int);
                let s1 = set_slots(bitmap@, slot + 1);
                assert(s1 == s0.push(slot as int));
                assert(is_record(b, n as int, slot as int, r));
                assert forall|i: int| 0 <= i < out@.len() implies (#[trigger] out@[i]).0 == s1[i] && is_record(
                    b, i, s1[i], out@[i].1) by {
                    if i < n {
                        assert(out@[i] == before[i]);
                    }
                }
            }
        }
        slot += 1;
    }
    proof {
        assert(readable(b)) by {
            assert(file_slots(b).len() == out@.len());
        }
    }
    Some(out)
}

/// More slots hold more set bits.
proof fn lemma_more_slots(bitmap: Seq<u8>, m: int, n: int)
    requires
        0 <= m <= n,
    ensures
        set_slots(bitmap, m).len() <= set_slots(bitmap, n).len(),
    decreases n,
{
    if m < n {
        lemma_more_slots(bitmap, m, n - 1);
    }
}

/// The bytes of the records in the first `n` slots.
pub open spec fn bodies(records: Seq<Option<ColumnLod>>, n: int) -> Seq<u8>
    decreases n,
{
    if n <= 0 {
        Seq::empty()
    } else {
        match records[n - 1] {
            Some(r) => bodies(records, n - 1) + record_bytes(r),
            None => bodies(records, n - 1),
        }
    }
}

/// The stage a slot is marked with.
pub open spec fn stage_mark(r: Option<ColumnLod>) -> u8 {
    match r {
        Some(v) => v.stage,
        None => 0,
    }
}

/// The bytes of a region file.
pub open spec fn region_bytes(records: Seq<Option<ColumnLod>>, hash: Seq<u8>) -> Seq<u8> {
    magic() + seq![3u8, 0u8] + hash + bitmap_of(|s: int| records[s] is Some) + Seq::new(
        1024, |s: int| stage_mark(records[s])) + bodies(records, 1024)
}

/// A 32x32 chunk region of records, present or not per chunk.
pub struct RegionLod {
    pub records: Vec<Option<ColumnLod>>,
    pub dirty: bool,
}

impl RegionLod {
    /// One slot per chunk.
    pub open spec fn wf(&self) -> bool {
        self.records@.len() == 1024
    }

    /// A region without records.
    pub fn empty() -> (r: RegionLod)
        ensures
            r.wf(),
            r.records@ == Seq::new(1024, |s: int| None::<ColumnLod>),
            !r.dirty,
    {
        let mut records: Vec<Option<ColumnLod>> = Vec::new();
        while records.len() < 1024
            invariant
                records@.len() <= 1024,
                forall|s: int| 0 <= s < records@.len() ==> #[trigger] records@[s] is None,
            decreases 1024 - records.len(),
        {
            records.push(None);
        }
        proof { assert(records@ =~= Seq::new(1024, |s: int| None::<ColumnLod>)); }
        RegionLod { records, dirty: false }
    }

    /// Parse a region file; None when it is not ours, another version, or
    /// built under a different palette or biome list.
    pub fn parse(bytes: &[u8], hash: &[u8; 16]) -> (r: Option<RegionLod>)
        ensures
            r is Some <==> is_region_file(bytes@) && bytes@.subrange(6, 22) == hash@ && readable(bytes@),
            r matches Some(v) ==> v.wf() && !v.dirty && holds_records(v.records@, bytes@),
    {
        if bytes.len() < 150 || !starts_with_magic(bytes) {
            return None;
        }
        let mut i: usize = 0;
        while i < 16
            invariant
                i <= 16,
                bytes@.len() >= 150,
                bytes@.subrange(6, 22).take(i as int) == hash@.take(i as int),
            decreases 16 - i,
        {
            if bytes[6 + i] != hash[i] {
                proof {
                    assert(bytes@.subrange(6, 22)[i as int] == bytes@[6 + i]);
                }
                return None;
            }
            proof {
                assert(bytes@.subrange(6, 22).take(i + 1) =~= bytes@.subrange(6, 22).take(i as int).push(bytes@[6 + i]));
                assert(hash@.take(i + 1) =~= hash@.take(i as int).push(hash@[i as int]));
            }
            i += 1;
        }
        proof {
            assert(bytes@.subrange(6, 22).take(16) =~= bytes@.subrange(6, 22));
            assert(hash@.take(16) =~= hash@);
        }
        let list: Vec<(usize, ColumnLod)> = match region_records_any(bytes) {
            Some(list) => list,
            None => {
                return None;
            },
        };
        let ghost slots = file_slots(bytes@);
        proof { lemma_set_slots(bytes@.subrange(22, 150), 1024); }
        let mut region = RegionLod::empty();
        let mut k: usize = 0;
        while k < list.len()
            invariant
                k <= list@.len(),
                region.wf(),
                !region.dirty,
                slots == file_slots(bytes@),
                lists_records(list@, bytes@),
                forall|i: int| 0 <= i < slots.len() ==> 0 <= #[trigger] slots[i] < 1024,
                forall|i: int, j: int| 0 <= i < j < slots.len() ==> #[trigger] slots[i] < #[trigger] slots[j],
                forall|i: int| 0 <= i < k ==> region.records@[#[trigger] slots[i]] == Some(list@[i].1),
                forall|s: int|
                    0 <= s < 1024 && (forall|i: int| 0 <= i < k ==> slots[i] != s) ==> #[trigger] region.records@[s] is None,
            decreases list.len() - k,
        {
            let (slot, record) = list[k];
            let ghost before = region.records@;
            proof {
                assert(list@[k as int].0 == slots[k as int]);
                assert(0 <= slots[k as int] < 1024);
            }
            region.records.set(slot, Some(record));
            proof {
                assert forall|i: int| 0 <= i < k + 1 implies region.records@[#[trigger] slots[i]] == Some(list@[i].1) by {
                    if i < k {
                        assert(slots[i] < slots[k as int]);
                    }
                }
                assert forall|s: int|
                    0 <= s < 1024 && (forall|i: int| 0 <= i < k + 1 ==> slots[i] != s) implies #[trigger] region.records@[s] is None by {
                    assert(slots[k as int] != s);
                    assert(region.records@[s] == before[s]);
                    assert forall|i: int| 0 <= i < k implies slots[i] != s by {}
                }
            }
            k += 1;
        }
        proof {
            assert forall|s: int| 0 <= s < 1024 && !slots.contains(s) implies #[trigger] region.records@[s] is None by {
                assert forall|i: int| 0 <= i < k implies slots[i] != s by {
                    if slots[i] == s {
                        assert(slots.contains(s));
                    }
                }
            }
        }
        Some(region)
    }

    /// The bytes of the region's file.
    pub fn encode(&self, hash: &[u8; 16]) -> (r: Vec<u8>)
        requires
            self.wf(),
        ensures
            r@ == region_bytes(self.records@, hash@),
    {
        let mut flags: Vec<bool> = Vec::new();
        while flags.len() < 1024
            invariant
                self.wf(),
                flags@.len() <= 1024,
                forall|s: int| 0 <= s < flags@.len() ==> #[trigger] flags@[s] == self.records@[s] is Some,
            decreases 1024 - flags.len(),
        {
            flags.push(self.records[flags.len()].is_some());
        }
        let bitmap: Vec<u8> = make_bitmap(&flags);
        proof {
            lemma_bitmap_same(|s: int| flags@[s], |s: int| self.records@[s] is Some);
        }
        let mut out: Vec<u8> = Vec::new();
        out.push(0x50);
        out.push(0x4C);
        out.push(0x4F);
        out.push(0x44);
        out.push(3);
        out.push(0);
        proof { assert(out@ =~= magic() + seq![3u8, 0u8]); }
        let ghost p0 = out@;
        let mut i: usize = 0;
        while i < 16
            invariant
                i <= 16,
                out@ == p0 + hash@.take(i as int),
            decreases 16 - i,
        {
            out.push(hash[i]);
            proof { assert(out@ =~= p0 + hash@.take(i + 1)); }
            i += 1;
        }
        proof { assert(hash@.take(16) =~= hash@); }
        let ghost p1 = out@;
        let mut j: usize = 0;
        while j < 128
            invariant
                j <= 128,
                bitmap@.len() == 128,
                out@ == p1 + bitmap@.take(j as int),
            decreases 128 - j,
        {
            out.push(bitmap[j]);
            proof { assert(out@ =~= p1 + bitmap@.take(j + 1)); }
            j += 1;
        }
        proof { assert(bitmap@.take(128) =~= bitmap@); }
        let ghost p2 = out@;
        let ghost stages = Seq::new(1024, |s: int| stage_mark(self.records@[s]));
        let mut k: usize = 0;
        while k < 1024
            invariant
                k <= 1024,
                self.wf(),
                stages == Seq::new(1024, |s: int| stage_mark(self.records@[s])),
                out@ == p2 + stages.take(k as int),
            decreases 1024 - k,
        {
            let mark: u8 = match &self.records[k] {
                Some(r) => r.stage,
                None => 0,
            };
            out.push(mark);
            proof {
                assert(stages[k as int] == mark);
                assert(out@ =~= p2 + stages.take(k + 1));
            }
            k += 1;
        }
        proof { assert(stages.take(1024) =~= stages); }
        let ghost p3 = out@;
        let mut n: usize = 0;
        proof { assert(p3 + bodies(self.records@, 0) =~= p3); }
        while n < 1024
            invariant
                n <= 1024,
                self.wf(),
                out@ == p3 + bodies(self.records@, n as int),
            decreases 1024 - n,
        {
            if let Some(r) = &self.records[n] {
                r.write_to(&mut out);
                proof { assert(out@ =~= p3 + bodies(self.records@, n + 1)); }
            }
            n += 1;
        }
        proof { assert(out@ =~= region_bytes(self.records@, hash@)); }
        out
    }

    /// How many records the region has.
    pub fn count(&self) -> (r: usize)
        requires
            self.wf(),
        ensures
            r == present(self.records@, 1024),
    {
        let mut r: usize = 0;
        let mut i: usize = 0;
        while i < 1024
            invariant
                self.wf(),
                i <= 1024,
                r <= i,
                r == present(self.records@, i as int),
            decreases 1024 - i,
        {
            if self.records[i].is_some() {
                r += 1;
            }
            i += 1;
        }
        r
    }
}

/// How many of the first `n` slots have a record.
pub open spec fn present(records: Seq<Option<ColumnLod>>, n: int) -> nat
    decreases n,
{
    if n <= 0 { 0 } else { present(records, n - 1) + (if records[n - 1] is Some { 1nat } else { 0nat }) }
}

/// Bitmaps of the same slots are the same.
proof fn lemma_bitmap_same(f: spec_fn(int) -> bool, g: spec_fn(int) -> bool)
    requires
        forall|s: int| 0 <= s < 1024 ==> #[trigger] f(s) == g(s),
    ensures
        bitmap_of(f) == bitmap_of(g),
{
    assert forall|j: int| 0 <= j < 128 implies bitmap_of(f)[j] == bitmap_of(g)[j] by {
        let a = |k: int| f(8 * j + k);
        let b = |k: int| g(8 * j + k);
        lemma_byte_same(a, b, 8);
    }
    assert(bitmap_of(f) =~= bitmap_of(g));
}

proof fn lemma_byte_same(f: spec_fn(int) -> bool, g: spec_fn(int) -> bool, n: int)
    requires
        forall|k: int| 0 <= k < n ==> #[trigger] f(k) == g(k),
    ensures
        byte_of(f, n) == byte_of(g, n),
    decreases n,
{
    if n > 0 {
        lemma_byte_same(f, g, n - 1);
        assert(f(n - 1) == g(n - 1));
    }
}

/// A region holds the records of a file, each in its slot, and no others.
pub open spec fn holds_records(records: Seq<Option<ColumnLod>>, b: Seq<u8>) -> bool {
    &&& records.len() == 1024
    &&& forall|i: int|
        0 <= i < file_slots(b).len() ==> ((#[trigger] records[file_slots(b)[i]]) matches Some(r) && is_record(
            b, i, file_slots(b)[i], r))
    &&& forall|s: int| 0 <= s < 1024 && !file_slots(b).contains(s) ==> #[trigger] records[s] is None
}

proof fn lemma_record_len(r: ColumnLod)
    ensures
        record_bytes(r).len() == 2304,
{
    assert(shorts(unsigned(r.height@)).len() == 512);
    assert(shorts(r.top@).len() == 512);
    assert(shorts(r.biome@).len() == 512);
    assert(shorts(r.floor@).len() == 512);
}

/// The records of a file stand one after the other, in slot order.
proof fn lemma_bodies(records: Seq<Option<ColumnLod>>, n: int, s: int)
    requires
        0 <= s < n,
        records[s] is Some,
    ensures
        bodies(records, n).len() == present(records, n) * 2304,
        present(records, s) < present(records, n),
        bodies(records, n).subrange(present(records, s) as int * 2304, present(records, s) as int * 2304 + 2304) == record_bytes(
            records[s]->0),
    decreases n,
{
    lemma_bodies_len(records, n);
    lemma_bodies_len(records, n - 1);
    let p = present(records, s) as int;
    if s == n - 1 {
        lemma_record_len(records[s]->0);
        assert(bodies(records, n).subrange(p * 2304, p * 2304 + 2304) =~= record_bytes(records[s]->0));
    } else {
        lemma_bodies(records, n - 1, s);
        let a = bodies(records, n - 1);
        assert(a.len() == present(records, n - 1) * 2304);
        assert(bodies(records, n).subrange(p * 2304, p * 2304 + 2304) =~= a.subrange(p * 2304, p * 2304 + 2304));
    }
}

proof fn lemma_bodies_len(records: Seq<Option<ColumnLod>>, n: int)
    ensures
        bodies(records, n).len() == present(records, n) * 2304,
    decreases n,
{
    if n > 0 {
        lemma_bodies_len(records, n - 1);
        if let Some(r) = records[n - 1] {
            lemma_record_len(r);
        }
    }
}

/// The slot with the `i`-th set bit is the `i`-th with a record.
proof fn lemma_slot_order(records: Seq<Option<ColumnLod>>, bitmap: Seq<u8>, n: int)
    requires
        0 <= n <= 1024,
        forall|s: int| 0 <= s < 1024 ==> #[trigger] slot_bit(bitmap, s) == records[s] is Some,
    ensures
        set_slots(bitmap, n).len() == present(records, n),
        forall|i: int| 0 <= i < set_slots(bitmap, n).len() ==> present(records, #[trigger] set_slots(bitmap, n)[i]) == i,
    decreases n,
{
    if n > 0 {
        lemma_slot_order(records, bitmap, n - 1);
        assert(slot_bit(bitmap, n - 1) == records[n - 1] is Some);
        let a = set_slots(bitmap, n - 1);
        let b = set_slots(bitmap, n);
        assert forall|i: int| 0 <= i < b.len() implies present(records, #[trigger] b[i]) == i by {
            if i < a.len() {
                assert(b[i] == a[i]);
            }
        }
    }
}

/// What two records have in common when one was written and read back.
pub open spec fn same_record(a: ColumnLod, b: ColumnLod) -> bool {
    &&& a.stage == b.stage
    &&& a.height@ == b.height@
    &&& a.top@ == b.top@
    &&& a.biome@ == b.biome@
    &&& a.depth@ == b.depth@
    &&& a.floor@ == b.floor@
}

/// A region file that was written is one, carries the hash it was written
/// with, and is not torn.
pub proof fn law_written_file_is_whole(records: Seq<Option<ColumnLod>>, hash: Seq<u8>)
    requires
        records.len() == 1024,
        hash.len() == 16,
    ensures
        is_region_file(region_bytes(records, hash)),
        region_bytes(records, hash).subrange(6, 22) == hash,
        readable(region_bytes(records, hash)),
{
    let b = region_bytes(records, hash);
    let f = |s: int| records[s] is Some;
    let bitmap = bitmap_of(f);
    let body = bodies(records, 1024);
    assert(b.subrange(0, 4) =~= magic());
    assert(b.subrange(6, 22) =~= hash);
    assert(b.subrange(22, 150) =~= bitmap);
    assert(b[4] == 3 && b[5] == 0);
    assert forall|s: int| 0 <= s < 1024 implies #[trigger] slot_bit(bitmap, s) == records[s] is Some by {
        lemma_bitmap_of(f, s);
    }
    lemma_slot_order(records, bitmap, 1024);
    lemma_set_slots(bitmap, 1024);
    lemma_bodies_len(records, 1024);
    assert(b.len() == 1174 + body.len());
}

/// A region file that was written is read back as it was: every record
/// with its stage in its slot, and no others.
pub proof fn law_region_round_trip(records: Seq<Option<ColumnLod>>, hash: Seq<u8>, back: Seq<Option<ColumnLod>>)
    requires
        records.len() == 1024,
        hash.len() == 16,
        holds_records(back, region_bytes(records, hash)),
    ensures
        forall|s: int| #![trigger back[s]] 0 <= s < 1024 ==> match records[s] {
            Some(r) => back[s] matches Some(q) && same_record(q, r),
            None => back[s] is None,
        },
{
    let b = region_bytes(records, hash);
    let f = |s: int| records[s] is Some;
    let bitmap = bitmap_of(f);
    let stages = Seq::new(1024, |s: int| stage_mark(records[s]));
    let body = bodies(records, 1024);
    assert(b.subrange(0, 4) =~= magic());
    assert(b.subrange(6, 22) =~= hash);
    assert(b.subrange(22, 150) =~= bitmap);
    assert(b[4] == 3 && b[5] == 0);
    assert forall|s: int| 0 <= s < 1024 implies #[trigger] slot_bit(bitmap, s) == records[s] is Some by {
        lemma_bitmap_of(f, s);
    }
    lemma_slot_order(records, bitmap, 1024);
    lemma_set_slots(bitmap, 1024);
    lemma_bodies_len(records, 1024);
    let slots = file_slots(b);
    assert(b.len() == 1174 + body.len());
    assert(readable(b));
    assert forall|s: int| #![trigger back[s]] 0 <= s < 1024 implies match records[s] {
        Some(r) => back[s] matches Some(q) && same_record(q, r),
        None => back[s] is None,
    } by {
        if records[s] is Some {
            assert(slot_bit(bitmap, s));
            let i = choose|i: int| 0 <= i < slots.len() && slots[i] == s;
            assert(back[slots[i]] is Some);
            let q = back[s]->0;
            let r = records[s]->0;
            assert(is_record(b, i, s, q));
            assert(present(records, slots[i]) == i);
            lemma_bodies(records, 1024, s);
            assert(b.subrange(1174 + i * 2304, 1174 + i * 2304 + 2304) =~= body.subrange(i * 2304, i * 2304 + 2304));
            assert(b[150 + s] == stages[s]);
            law_record_bytes_determine(q, r);
        } else {
            if slots.contains(s) {
                let i = choose|i: int| 0 <= i < slots.len() && slots[i] == s;
                assert(slot_bit(bitmap, slots[i]));
            }
        }
    }
}

} // verus!
