//! Far-view columns: one surface height, top block and biome per column,
//! read off the surface pass.

use vstd::prelude::*;
use crate::volume::{floor_div, Volume};

verus! {

/// Columns of a chunk.
pub const COLUMNS: usize = 256;

/// Bytes of one chunk record: four 16-bit values and one byte per column.
pub const RECORD_BYTES: usize = 2304;

/// Record bytes of version 1 and 2 files: no water depth or floor.
pub const RECORD_BYTES_V2: usize = 1536;

/// The generator's surface.
pub const STAGE_SURFACE: u8 = 0;

/// Refreshed from the finished chunk (trees, snow, placed blocks).
pub const STAGE_FINAL: u8 = 1;

/// One chunk's columns, `x + z * 16`.
#[derive(Clone, Copy, PartialEq, Eq, Debug)]
pub struct ColumnLod {
    /// `STAGE_SURFACE` from the generator, `STAGE_FINAL` once refreshed
    /// from the finished chunk.
    pub stage: u8,
    /// First-available height: the top non-air block plus one, the lowest
    /// block for an empty column.
    pub height: [i16; COLUMNS],
    /// Palette id of the block under `height`; air for an empty column.
    pub top: [u16; COLUMNS],
    /// Biome index of the quart holding the top block.
    pub biome: [u16; COLUMNS],
    /// Water blocks from `height` down to the floor, 0 for a dry column
    /// (255 at most).
    pub depth: [u8; COLUMNS],
    /// Palette id of the block under the water; `top` for a dry column.
    pub floor: [u16; COLUMNS],
}

/// One of the two bytes of a 16-bit value, the low one first.
pub open spec fn short_byte(v: u16, k: int) -> u8 {
    if k == 0 { (v % 256) as u8 } else { (v / 256) as u8 }
}

/// The bytes of 16-bit values, one after the other.
pub open spec fn shorts(s: Seq<u16>) -> Seq<u8> {
    Seq::new(2 * s.len(), |i: int| short_byte(s[i / 2], i % 2))
}

/// The bits of signed 16-bit values.
pub open spec fn unsigned(s: Seq<i16>) -> Seq<u16> {
    Seq::new(s.len(), |i: int| s[i] as u16)
}

/// The bytes of a record: heights, tops, biomes, depths, floors.
pub open spec fn record_bytes(r: ColumnLod) -> Seq<u8> {
    shorts(unsigned(r.height@)) + shorts(r.top@) + shorts(r.biome@) + r.depth@ + shorts(r.floor@)
}

/// Every column dry, the floor its top.
pub open spec fn dry(r: ColumnLod) -> bool {
    r.floor@ == r.top@ && forall|c: int| 0 <= c < 256 ==> #[trigger] r.depth@[c] == 0
}

/// Append the bytes of 16-bit values.
fn push_shorts(out: &mut Vec<u8>, s: &[u16])
    ensures
        final(out)@ == old(out)@ + shorts(s@),
{
    let ghost start = out@;
    let mut i: usize = 0;
    proof { assert(start + shorts(s@.take(0)) =~= start); }
    while i < s.len()
        invariant
            i <= s@.len(),
            out@ == start + shorts(s@.take(i as int)),
        decreases s.len() - i,
    {
        let v: u16 = s[i];
        out.push((v % 256) as u8);
        out.push((v / 256) as u8);
        proof {
            let a = shorts(s@.take(i as int));
            let b = shorts(s@.take(i + 1));
            assert(b =~= a + seq![(v % 256) as u8, (v / 256) as u8]);
            assert(out@ =~= start + b);
        }
        i += 1;
    }
    proof { assert(s@.take(i as int) =~= s@); }
}

/// The signed reading of 16 bits.
proof fn lemma_signed16(v: u16)
    ensures
        (v as i16) as u16 == v,
{
    assert((v as i16) as u16 == v) by (bit_vector);
}

/// A signed value and its bits.
proof fn lemma_unsigned16(v: i16)
    ensures
        (v as u16) as i16 == v,
{
    assert((v as u16) as i16 == v) by (bit_vector);
}

/// The 16-bit value at `at`.
fn read_short(bytes: &[u8], at: usize) -> (r: u16)
    requires
        at + 1 < bytes@.len(),
    ensures
        short_byte(r, 0) == bytes@[at as int],
        short_byte(r, 1) == bytes@[at + 1],
{
    bytes[at] as u16 + (bytes[at + 1] as u16) * 256
}

/// Bytes spell 16-bit values if each pair does.
proof fn lemma_shorts_at(s: Seq<u16>, b: Seq<u8>, at: int)
    requires
        0 <= at,
        at + 2 * s.len() <= b.len(),
        forall|c: int| 0 <= c < s.len() ==> short_byte(#[trigger] s[c], 0) == b[at + 2 * c] && short_byte(s[c], 1) == b[at + 2
            * c + 1],
    ensures
        shorts(s) == b.subrange(at, at + 2 * s.len()),
{
    let t = b.subrange(at, at + 2 * s.len());
    assert forall|i: int| 0 <= i < 2 * s.len() implies shorts(s)[i] == t[i] by {
        let v = s[i / 2];
        assert(short_byte(v, 0) == b[at + 2 * (i / 2)]);
    }
    assert(shorts(s) =~= t);
}

/// Equal bytes spell equal values.
pub proof fn lemma_shorts_injective(s: Seq<u16>, t: Seq<u16>)
    requires
        shorts(s) == shorts(t),
    ensures
        s == t,
{
    assert(s.len() == t.len()) by {
        assert(shorts(s).len() == 2 * s.len());
        assert(shorts(t).len() == 2 * t.len());
    }
    assert forall|c: int| 0 <= c < s.len() implies s[c] == t[c] by {
        assert((2 * c) / 2 == c && (2 * c) % 2 == 0 && (2 * c + 1) / 2 == c && (2 * c + 1) % 2 == 1);
        assert(0 <= 2 * c && 2 * c + 1 < 2 * s.len() && 2 * c + 1 < 2 * t.len());
        assert(shorts(s)[2 * c] == short_byte(s[c], 0) && shorts(s)[2 * c + 1] == short_byte(s[c], 1));
        assert(shorts(t)[2 * c] == short_byte(t[c], 0) && shorts(t)[2 * c + 1] == short_byte(t[c], 1));
        assert(shorts(s)[2 * c] == shorts(t)[2 * c]);
        assert(shorts(s)[2 * c + 1] == shorts(t)[2 * c + 1]);
        let (a, b) = (s[c], t[c]);
        assert(short_byte(a, 0) == short_byte(b, 0) && short_byte(a, 1) == short_byte(b, 1));
        assert(a % 256 == b % 256 && a / 256 == b / 256);
        assert(a == 256 * (a / 256) + a % 256);
        assert(b == 256 * (b / 256) + b % 256);
    }
    assert(s =~= t);
}

impl ColumnLod {
    /// A record of zeros.
    pub fn empty(stage: u8) -> (r: ColumnLod)
        ensures
            r.stage == stage,
            forall|c: int| 0 <= c < 256 ==> #[trigger] r.height@[c] == 0,
            forall|c: int| 0 <= c < 256 ==> #[trigger] r.top@[c] == 0,
            forall|c: int| 0 <= c < 256 ==> #[trigger] r.biome@[c] == 0,
            forall|c: int| 0 <= c < 256 ==> #[trigger] r.depth@[c] == 0,
            forall|c: int| 0 <= c < 256 ==> #[trigger] r.floor@[c] == 0,
    {
        ColumnLod {
            stage,
            height: [0;256],
            top: [0;256],
            biome: [0;256],
            depth: [0;256],
            floor: [0;256],
        }
    }

    /// The record as ints: heights, then tops, then biomes.
    pub fn to_ints(&self) -> (r: Vec<i32>)
        ensures
            r@.len() == 768,
            forall|c: int| 0 <= c < 256 ==> #[trigger] r@[c] == self.height@[c],
            forall|c: int| 0 <= c < 256 ==> #[trigger] r@[256 + c] == self.top@[c],
            forall|c: int| 0 <= c < 256 ==> #[trigger] r@[512 + c] == self.biome@[c],
    {
        let mut r: Vec<i32> = Vec::new();
        while r.len() < 768
            invariant
                r@.len() <= 768,
                forall|i: int| 0 <= i < r@.len() ==> #[trigger] r@[i] == (if i < 256 {
                    self.height@[i] as i32
                } else if i < 512 {
                    self.top@[i - 256] as i32
                } else {
                    self.biome@[i - 512] as i32
                }),
            decreases 768 - r.len(),
        {
            let i: usize = r.len();
            let v: i32 = if i < 256 {
                self.height[i] as i32
            } else if i < 512 {
                self.top[i - 256] as i32
            } else {
                self.biome[i - 512] as i32
            };
            r.push(v);
        }
        r
    }

    /// Append the record's bytes as a batch entry or region file carries
    /// them.
    pub fn write_to_public(&self, out: &mut Vec<u8>)
        ensures
            final(out)@ == old(out)@ + record_bytes(*self),
    {
        self.write_to(out);
    }

    pub(crate) fn write_to(&self, out: &mut Vec<u8>)
        ensures
            final(out)@ == old(out)@ + record_bytes(*self),
    {
        let ghost start = out@;
        let mut heights: Vec<u16> = Vec::new();
        while heights.len() < 256
            invariant
                heights@.len() <= 256,
                forall|c: int| 0 <= c < heights@.len() ==> #[trigger] heights@[c] == self.height@[c] as u16,
            decreases 256 - heights.len(),
        {
            heights.push(self.height[heights.len()] as u16);
        }
        proof { assert(heights@ =~= unsigned(self.height@)); }
        push_shorts(out, heights.as_slice());
        push_shorts(out, self.top.as_slice());
        push_shorts(out, self.biome.as_slice());
        let ghost mid = out@;
        let mut i: usize = 0;
        while i < 256
            invariant
                i <= 256,
                out@ == mid + self.depth@.take(i as int),
            decreases 256 - i,
        {
            out.push(self.depth[i]);
            proof { assert(mid + self.depth@.take(i + 1) =~= out@); }
            i += 1;
        }
        proof { assert(self.depth@.take(256) =~= self.depth@); }
        push_shorts(out, self.floor.as_slice());
        proof { assert(out@ =~= start + record_bytes(*self)); }
    }

    /// The record that starts the bytes, as the generator's stage.
    pub fn read_from(bytes: &[u8]) -> (r: Option<ColumnLod>)
        ensures
            r is Some <==> bytes@.len() >= RECORD_BYTES,
            r matches Some(v) ==> v.stage == STAGE_SURFACE && record_bytes(v) == bytes@.take(RECORD_BYTES as int),
    {
        if bytes.len() < RECORD_BYTES {
            return None;
        }
        let r = ColumnLod::read_at(bytes, 0);
        proof { assert(bytes@.subrange(0, RECORD_BYTES as int) =~= bytes@.take(RECORD_BYTES as int)); }
        Some(r)
    }

    /// The record at `at`.
    pub(crate) fn read_at(bytes: &[u8], at: usize) -> (r: ColumnLod)
        requires
            at + RECORD_BYTES <= bytes@.len(),
        ensures
            r.stage == STAGE_SURFACE,
            record_bytes(r) == bytes@.subrange(at as int, at + RECORD_BYTES),
    {
        let end: usize = bytes.len();
        let mut r = ColumnLod::read_at_v2(bytes, at);
        let ghost first = r;
        let depth_at: usize = at + 1536;
        let floor_at: usize = at + 1792;
        let mut c: usize = 0;
        while c < 256
            invariant
                c <= 256,
                end == bytes@.len(),
                at + RECORD_BYTES <= end,
                depth_at == at + 1536,
                floor_at == at + 1792,
                r.stage == first.stage,
                r.height == first.height,
                r.top == first.top,
                r.biome == first.biome,
                forall|k: int| 0 <= k < c ==> #[trigger] r.depth@[k] == bytes@[depth_at + k],
                forall|k: int|
                    0 <= k < c ==> short_byte(#[trigger] r.floor@[k], 0) == bytes@[floor_at + 2 * k] && short_byte(
                        r.floor@[k], 1) == bytes@[floor_at + 2 * k + 1],
            decreases 256 - c,
        {
            r.depth[c] = bytes[depth_at + c];
            r.floor[c] = read_short(bytes, floor_at + 2 * c);
            c += 1;
        }
        proof {
            let b = bytes@;
            lemma_shorts_at(r.floor@, b, floor_at as int);
            assert(r.depth@ =~= b.subrange(depth_at as int, depth_at + 256));
            assert(record_bytes(r) =~= b.subrange(at as int, at + RECORD_BYTES)) by {
                assert(shorts(unsigned(r.height@)) + shorts(r.top@) + shorts(r.biome@) == b.subrange(at as int, at + 1536));
            }
        }
        r
    }

    /// A record without water depth (version 1 and 2 files) at `at`: every
    /// column dry, the floor its top.
    pub(crate) fn read_at_v2(bytes: &[u8], at: usize) -> (r: ColumnLod)
        requires
            at + RECORD_BYTES_V2 <= bytes@.len(),
        ensures
            r.stage == STAGE_SURFACE,
            dry(r),
            shorts(unsigned(r.height@)) + shorts(r.top@) + shorts(r.biome@) == bytes@.subrange(
                at as int, at + RECORD_BYTES_V2),
    {
        let end: usize = bytes.len();
        let mut r = ColumnLod::empty(STAGE_SURFACE);
        let mut c: usize = 0;
        while c < 256
            invariant
                c <= 256,
                end == bytes@.len(),
                at + RECORD_BYTES_V2 <= end,
                r.stage == STAGE_SURFACE,
                forall|k: int| 0 <= k < 256 ==> #[trigger] r.depth@[k] == 0,
                forall|k: int| 0 <= k < c ==> #[trigger] r.floor@[k] == r.top@[k],
                forall|k: int|
                    0 <= k < c ==> short_byte((#[trigger] r.height@[k]) as u16, 0) == bytes@[at + 2 * k] && short_byte(
                        r.height@[k] as u16, 1) == bytes@[at + 2 * k + 1],
                forall|k: int|
                    0 <= k < c ==> short_byte(#[trigger] r.top@[k], 0) == bytes@[at + 512 + 2 * k] && short_byte(
                        r.top@[k], 1) == bytes@[at + 512 + 2 * k + 1],
                forall|k: int|
                    0 <= k < c ==> short_byte(#[trigger] r.biome@[k], 0) == bytes@[at + 1024 + 2 * k] && short_byte(
                        r.biome@[k], 1) == bytes@[at + 1024 + 2 * k + 1],
            decreases 256 - c,
        {
            let h: u16 = read_short(bytes, at + 2 * c);
            proof { lemma_signed16(h); }
            r.height[c] = h as i16;
            let t: u16 = read_short(bytes, at + 512 + 2 * c);
            r.top[c] = t;
            r.floor[c] = t;
            r.biome[c] = read_short(bytes, at + 1024 + 2 * c);
            c += 1;
        }
        proof {
            let b = bytes@;
            assert(r.floor@ =~= r.top@);
            lemma_shorts_at(unsigned(r.height@), b, at as int);
            lemma_shorts_at(r.top@, b, at + 512);
            lemma_shorts_at(r.biome@, b, at + 1024);
            assert(shorts(unsigned(r.height@)) + shorts(r.top@) + shorts(r.biome@) =~= b.subrange(
                at as int, at + RECORD_BYTES_V2));
        }
        r
    }
}

/// Two records with the same bytes differ in their stage at most: nothing
/// else is lost on the way to disk and back.
pub proof fn law_record_bytes_determine(a: ColumnLod, b: ColumnLod)
    requires
        record_bytes(a) == record_bytes(b),
    ensures
        a.height@ == b.height@,
        a.top@ == b.top@,
        a.biome@ == b.biome@,
        a.depth@ == b.depth@,
        a.floor@ == b.floor@,
{
    let x = record_bytes(a);
    let y = record_bytes(b);
    assert(shorts(unsigned(a.height@)) =~= x.subrange(0, 512));
    assert(shorts(unsigned(b.height@)) =~= y.subrange(0, 512));
    assert(shorts(a.top@) =~= x.subrange(512, 1024));
    assert(shorts(b.top@) =~= y.subrange(512, 1024));
    assert(shorts(a.biome@) =~= x.subrange(1024, 1536));
    assert(shorts(b.biome@) =~= y.subrange(1024, 1536));
    assert(a.depth@ =~= x.subrange(1536, 1792));
    assert(b.depth@ =~= y.subrange(1536, 1792));
    assert(shorts(a.floor@) =~= x.subrange(1792, 2304));
    assert(shorts(b.floor@) =~= y.subrange(1792, 2304));
    lemma_shorts_injective(unsigned(a.height@), unsigned(b.height@));
    lemma_shorts_injective(a.top@, b.top@);
    lemma_shorts_injective(a.biome@, b.biome@);
    lemma_shorts_injective(a.floor@, b.floor@);
    assert forall|c: int| 0 <= c < 256 implies a.height@[c] == b.height@[c] by {
        lemma_unsigned16(a.height@[c]);
        lemma_unsigned16(b.height@[c]);
        assert(unsigned(a.height@)[c] == unsigned(b.height@)[c]);
    }
    assert(a.height@ =~= b.height@);
}

/// Cells of a coarse record.
pub const COARSE_CELLS: usize = 16;

/// Bytes of a coarse record over the wire: height, top, depth, floor and
/// biome per cell.
pub const COARSE_BYTES: usize = 144;

/// A chunk at one cell per 4x4 columns, the tallest column of each: what
/// the outer rings get over the wire, `x + z * 4`. Kept in memory only.
#[derive(Clone, Copy, PartialEq, Eq, Debug)]
pub struct CoarseLod {
    pub height: [i16; COARSE_CELLS],
    pub top: [u16; COARSE_CELLS],
    pub depth: [u8; COARSE_CELLS],
    pub floor: [u16; COARSE_CELLS],
    pub biome: [u16; COARSE_CELLS],
}

/// The bytes of a coarse record: heights, tops, depths, floors, biomes.
pub open spec fn coarse_bytes(r: CoarseLod) -> Seq<u8> {
    shorts(unsigned(r.height@)) + shorts(r.top@) + r.depth@ + shorts(r.floor@) + shorts(r.biome@)
}

/// The cell of a column.
pub open spec fn cell_of(c: int) -> int {
    (c % 16) / 4 + ((c / 16) / 4) * 4
}

/// The tallest of the first `n` columns of a cell, the first of equals;
/// none while every one lies at the lowest height there is.
pub open spec fn tallest(r: ColumnLod, cell: int, n: int) -> Option<int>
    decreases n,
{
    if n <= 0 {
        None
    } else {
        let before = tallest(r, cell, n - 1);
        let c = n - 1;
        let level = match before {
            Some(b) => r.height@[b] as int,
            None => i16::MIN as int,
        };
        if cell_of(c) == cell && r.height@[c] > level { Some(c) } else { before }
    }
}

/// A cell shows its tallest column, or the lowest height and zeros.
pub open spec fn shows(coarse: CoarseLod, r: ColumnLod, cell: int, column: Option<int>) -> bool {
    match column {
        Some(c) => {
            &&& coarse.height@[cell] == r.height@[c]
            &&& coarse.top@[cell] == r.top@[c]
            &&& coarse.depth@[cell] == r.depth@[c]
            &&& coarse.floor@[cell] == r.floor@[c]
            &&& coarse.biome@[cell] == r.biome@[c]
        },
        None => {
            &&& coarse.height@[cell] == i16::MIN
            &&& coarse.top@[cell] == 0
            &&& coarse.depth@[cell] == 0
            &&& coarse.floor@[cell] == 0
            &&& coarse.biome@[cell] == 0
        },
    }
}

/// The tallest column of a cell is one of its columns, and none of its
/// columns is taller.
pub proof fn law_tallest_wins(r: ColumnLod, cell: int, n: int, k: int)
    requires
        0 <= k < n <= 256,
        cell_of(k) == cell,
    ensures
        match tallest(r, cell, n) {
            Some(c) => 0 <= c < n && cell_of(c) == cell && r.height@[c] >= r.height@[k],
            None => r.height@[k] == i16::MIN,
        },
    decreases n,
{
    lemma_tallest_in(r, cell, n);
    if k < n - 1 {
        law_tallest_wins(r, cell, n - 1, k);
    } else {
        lemma_tallest_in(r, cell, n - 1);
    }
}

proof fn lemma_tallest_in(r: ColumnLod, cell: int, n: int)
    ensures
        tallest(r, cell, n) matches Some(c) ==> 0 <= c < n && cell_of(c) == cell,
    decreases n,
{
    if n > 0 {
        lemma_tallest_in(r, cell, n - 1);
    }
}

impl CoarseLod {
    /// A record of zeros.
    pub fn empty() -> (r: CoarseLod)
        ensures
            forall|c: int| 0 <= c < 16 ==> #[trigger] r.height@[c] == 0,
            forall|c: int| 0 <= c < 16 ==> #[trigger] r.top@[c] == 0,
            forall|c: int| 0 <= c < 16 ==> #[trigger] r.depth@[c] == 0,
            forall|c: int| 0 <= c < 16 ==> #[trigger] r.floor@[c] == 0,
            forall|c: int| 0 <= c < 16 ==> #[trigger] r.biome@[c] == 0,
    {
        CoarseLod { height: [0;16], top: [0;16], depth: [0;16], floor: [0;16], biome: [0;16] }
    }

    /// The coarse form of a record.
    pub fn of(rec: &ColumnLod) -> (r: CoarseLod)
        ensures
            forall|cell: int| #![trigger tallest(*rec, cell, 256)] 0 <= cell < 16 ==> shows(
                r, *rec, cell, tallest(*rec, cell, 256)),
    {
        let mut r = CoarseLod { height: [i16::MIN;16], top: [0;16], depth: [0;16], floor: [0;16], biome: [0;16] };
        let mut c: usize = 0;
        while c < 256
            invariant
                c <= 256,
                forall|cell: int| #![trigger tallest(*rec, cell, c as int)] 0 <= cell < 16 ==> shows(
                    r, *rec, cell, tallest(*rec, cell, c as int)),
            decreases 256 - c,
        {
            let cell: usize = (c % 16) / 4 + ((c / 16) / 4) * 4;
            let ghost before = r;
            proof {
                assert(0 <= cell < 16);
                assert(shows(r, *rec, cell as int, tallest(*rec, cell as int, c as int)));
                lemma_tallest_in(*rec, cell as int, c as int);
            }
            if rec.height[c] > r.height[cell] {
                r.height[cell] = rec.height[c];
                r.top[cell] = rec.top[c];
                r.depth[cell] = rec.depth[c];
                r.floor[cell] = rec.floor[c];
                r.biome[cell] = rec.biome[c];
            }
            proof {
                assert forall|k: int| #![trigger tallest(*rec, k, c + 1)] 0 <= k < 16 implies shows(
                    r, *rec, k, tallest(*rec, k, c + 1)) by {
                    assert(shows(before, *rec, k, tallest(*rec, k, c as int)));
                }
            }
            c += 1;
        }
        r
    }

    pub(crate) fn write_to(&self, out: &mut Vec<u8>)
        ensures
            final(out)@ == old(out)@ + coarse_bytes(*self),
    {
        let ghost start = out@;
        let mut heights: Vec<u16> = Vec::new();
        while heights.len() < 16
            invariant
                heights@.len() <= 16,
                forall|c: int| 0 <= c < heights@.len() ==> #[trigger] heights@[c] == self.height@[c] as u16,
            decreases 16 - heights.len(),
        {
            heights.push(self.height[heights.len()] as u16);
        }
        proof { assert(heights@ =~= unsigned(self.height@)); }
        push_shorts(out, heights.as_slice());
        push_shorts(out, self.top.as_slice());
        let ghost mid = out@;
        let mut i: usize = 0;
        while i < 16
            invariant
                i <= 16,
                out@ == mid + self.depth@.take(i as int),
            decreases 16 - i,
        {
            out.push(self.depth[i]);
            proof { assert(mid + self.depth@.take(i + 1) =~= out@); }
            i += 1;
        }
        proof { assert(self.depth@.take(16) =~= self.depth@); }
        push_shorts(out, self.floor.as_slice());
        push_shorts(out, self.biome.as_slice());
        proof { assert(out@ =~= start + coarse_bytes(*self)); }
    }

    /// Append the record's bytes as a batch entry carries them.
    pub fn write_to_public(&self, out: &mut Vec<u8>)
        ensures
            final(out)@ == old(out)@ + coarse_bytes(*self),
    {
        self.write_to(out);
    }

    /// The coarse record that starts the bytes.
    pub fn read_from(bytes: &[u8]) -> (r: Option<CoarseLod>)
        ensures
            r is Some <==> bytes@.len() >= COARSE_BYTES,
            r matches Some(v) ==> coarse_bytes(v) == bytes@.take(COARSE_BYTES as int),
    {
        if bytes.len() < COARSE_BYTES {
            return None;
        }
        let r = CoarseLod::read_at(bytes, 0);
        proof { assert(bytes@.subrange(0, COARSE_BYTES as int) =~= bytes@.take(COARSE_BYTES as int)); }
        Some(r)
    }

    /// The coarse record at `at`.
    pub(crate) fn read_at(bytes: &[u8], at: usize) -> (r: CoarseLod)
        requires
            at + COARSE_BYTES <= bytes@.len(),
        ensures
            coarse_bytes(r) == bytes@.subrange(at as int, at + COARSE_BYTES),
    {
        let end: usize = bytes.len();
        let mut r = CoarseLod::empty();
        let mut c: usize = 0;
        while c < 16
            invariant
                c <= 16,
                end == bytes@.len(),
                at + COARSE_BYTES <= end,
                forall|k: int|
                    0 <= k < c ==> short_byte((#[trigger] r.height@[k]) as u16, 0) == bytes@[at + 2 * k] && short_byte(
                        r.height@[k] as u16, 1) == bytes@[at + 2 * k + 1],
                forall|k: int|
                    0 <= k < c ==> short_byte(#[trigger] r.top@[k], 0) == bytes@[at + 32 + 2 * k] && short_byte(
                        r.top@[k], 1) == bytes@[at + 32 + 2 * k + 1],
                forall|k: int| 0 <= k < c ==> #[trigger] r.depth@[k] == bytes@[at + 64 + k],
                forall|k: int|
                    0 <= k < c ==> short_byte(#[trigger] r.floor@[k], 0) == bytes@[at + 80 + 2 * k] && short_byte(
                        r.floor@[k], 1) == bytes@[at + 80 + 2 * k + 1],
                forall|k: int|
                    0 <= k < c ==> short_byte(#[trigger] r.biome@[k], 0) == bytes@[at + 112 + 2 * k] && short_byte(
                        r.biome@[k], 1) == bytes@[at + 112 + 2 * k + 1],
            decreases 16 - c,
        {
            let h: u16 = read_short(bytes, at + 2 * c);
            proof { lemma_signed16(h); }
            r.height[c] = h as i16;
            r.top[c] = read_short(bytes, at + 32 + 2 * c);
            r.depth[c] = bytes[at + 64 + c];
            r.floor[c] = read_short(bytes, at + 80 + 2 * c);
            r.biome[c] = read_short(bytes, at + 112 + 2 * c);
            c += 1;
        }
        proof {
            let b = bytes@;
            lemma_shorts_at(unsigned(r.height@), b, at as int);
            lemma_shorts_at(r.top@, b, at + 32);
            assert(r.depth@ =~= b.subrange(at + 64, at + 80));
            lemma_shorts_at(r.floor@, b, at + 80);
            lemma_shorts_at(r.biome@, b, at + 112);
            assert(coarse_bytes(r) =~= b.subrange(at as int, at + COARSE_BYTES));
        }
        r
    }
}

/// Two coarse records with the same bytes hold the same.
pub proof fn law_coarse_bytes_determine(a: CoarseLod, b: CoarseLod)
    requires
        coarse_bytes(a) == coarse_bytes(b),
    ensures
        a.height@ == b.height@,
        a.top@ == b.top@,
        a.depth@ == b.depth@,
        a.floor@ == b.floor@,
        a.biome@ == b.biome@,
{
    let x = coarse_bytes(a);
    let y = coarse_bytes(b);
    assert(shorts(unsigned(a.height@)) =~= x.subrange(0, 32));
    assert(shorts(unsigned(b.height@)) =~= y.subrange(0, 32));
    assert(shorts(a.top@) =~= x.subrange(32, 64));
    assert(shorts(b.top@) =~= y.subrange(32, 64));
    assert(a.depth@ =~= x.subrange(64, 80));
    assert(b.depth@ =~= y.subrange(64, 80));
    assert(shorts(a.floor@) =~= x.subrange(80, 112));
    assert(shorts(b.floor@) =~= y.subrange(80, 112));
    assert(shorts(a.biome@) =~= x.subrange(112, 144));
    assert(shorts(b.biome@) =~= y.subrange(112, 144));
    lemma_shorts_injective(unsigned(a.height@), unsigned(b.height@));
    lemma_shorts_injective(a.top@, b.top@);
    lemma_shorts_injective(a.floor@, b.floor@);
    lemma_shorts_injective(a.biome@, b.biome@);
    assert forall|c: int| 0 <= c < 16 implies a.height@[c] == b.height@[c] by {
        lemma_unsigned16(a.height@[c]);
        lemma_unsigned16(b.height@[c]);
        assert(unsigned(a.height@)[c] == unsigned(b.height@)[c]);
    }
    assert(a.height@ =~= b.height@);
}

/// A record as the client holds it: every column, or the coarse cells of
/// an outer ring.
#[derive(Clone, Copy)]
pub enum RecordRef<'a> {
    Full(&'a ColumnLod),
    Coarse(&'a CoarseLod),
}

/// What the surface pass is configured with, as far as records go.
#[derive(Clone, Copy, Debug)]
pub struct SurfaceConfig {
    /// Palette id of air.
    pub air: u16,
    /// Palette id of water.
    pub water: u16,
}

/// The blocks of a surfaced chunk.
#[derive(Debug)]
pub struct ChunkBlocks {
    /// Every block of the chunk.
    pub vol: Volume,
    /// First-available height per column, `x + z * 16`.
    pub surface_height: Vec<i32>,
    /// Palette id per block, in buffer order.
    pub ids: Vec<u16>,
}

impl ChunkBlocks {
    /// A 16x16 chunk with a height per column and an id per block.
    pub open spec fn wf(&self) -> bool {
        &&& self.vol.fits()
        &&& self.vol.in_world()
        &&& self.vol.size@[0] == 16
        &&& self.vol.size@[2] == 16
        &&& self.vol.step@[0] == 1 && self.vol.step@[1] == 1 && self.vol.step@[2] == 1
        &&& self.surface_height@.len() == 256
        &&& self.ids@.len() == self.vol.count()
        &&& forall|c: int| 0 <= c < 256 ==> #[trigger] self.surface_height@[c] > i32::MIN
    }

    /// The block at a height of a column; air above and below the chunk.
    pub open spec fn block_at(&self, cfg: SurfaceConfig, x: int, y: int, z: int) -> u16 {
        let row = y - self.vol.min@[1];
        if 0 <= row < self.vol.size@[1] { self.ids@[self.vol.place(x, row, z)] } else { cfg.air }
    }

    pub fn get(&self, cfg: &SurfaceConfig, x: usize, y: i32, z: usize) -> (r: u16)
        requires
            self.wf(),
            x < 16,
            z < 16,
        ensures
            r == self.block_at(*cfg, x as int, y as int, z as int),
    {
        let row: i64 = y as i64 - self.vol.min[1] as i64;
        if row < 0 || row as u64 >= self.vol.size[1] as u64 {
            return cfg.air;
        }
        let i: usize = self.vol.index(x, row as usize, z);
        self.ids[i]
    }
}

/// Biome indices per quart (4x4x4 blocks) of a chunk's neighbourhood.
#[derive(Debug)]
pub struct QuartGrid {
    /// First quart per axis.
    pub min: [i32; 3],
    /// Quarts per axis.
    pub size: [usize; 3],
    /// Biome index per quart, `(qx + qz * size_x) * size_y + qy`.
    pub ids: Vec<u16>,
}

impl QuartGrid {
    pub open spec fn wf(&self) -> bool {
        &&& self.size@[0] > 0 && self.size@[1] > 0 && self.size@[2] > 0
        &&& self.count() <= usize::MAX
        &&& self.ids@.len() == self.count()
    }

    pub open spec fn count(&self) -> int {
        self.size@[0] * self.size@[1] * self.size@[2]
    }

    /// A coordinate moved into the grid.
    pub open spec fn nearest(&self, axis: int, q: int) -> int {
        if q < self.min@[axis] {
            0
        } else if q - self.min@[axis] >= self.size@[axis] {
            self.size@[axis] - 1
        } else {
            q - self.min@[axis]
        }
    }

    /// The biome of a quart; one outside the grid has that of the nearest
    /// quart inside.
    pub open spec fn biome_at(&self, qx: int, qy: int, qz: int) -> u16 {
        self.ids@[self.nearest(1, qy) + (self.nearest(0, qx) + self.nearest(2, qz) * self.size@[0]) * self.size@[1]]
    }

    fn clamp_to(&self, axis: usize, q: i32) -> (r: usize)
        requires
            self.wf(),
            axis < 3,
        ensures
            r == self.nearest(axis as int, q as int),
            r < self.size@[axis as int],
    {
        if q < self.min[axis] {
            return 0;
        }
        let d: u64 = (q as i64 - self.min[axis] as i64) as u64;
        if d >= self.size[axis] as u64 {
            self.size[axis] - 1
        } else {
            d as usize
        }
    }

    pub fn get(&self, qx: i32, qy: i32, qz: i32) -> (r: u16)
        requires
            self.wf(),
        ensures
            r == self.biome_at(qx as int, qy as int, qz as int),
    {
        let x: usize = self.clamp_to(0, qx);
        let y: usize = self.clamp_to(1, qy);
        let z: usize = self.clamp_to(2, qz);
        let vol: Volume = Volume { size: self.size, min: self.min, step: [1, 1, 1] };
        let i: usize = vol.index(x, y, z);
        self.ids[i]
    }
}

/// How many blocks from `y` down are water.
pub open spec fn water_run(chunk: ChunkBlocks, cfg: SurfaceConfig, x: int, y: int, z: int) -> nat
    decreases y - chunk.vol.min@[1] + 1,
{
    if y < chunk.vol.min@[1] || chunk.block_at(cfg, x, y, z) != cfg.water {
        0
    } else {
        1 + water_run(chunk, cfg, x, y - 1, z)
    }
}

/// One column of a surfaced chunk's record.
pub open spec fn column_of(r: ColumnLod, cfg: SurfaceConfig, chunk: ChunkBlocks, grid: QuartGrid, x: int, z: int) -> bool {
    let c = x + z * 16;
    let h = chunk.surface_height@[c];
    let y = h - 1;
    let top = chunk.block_at(cfg, x, y, z);
    &&& r.height@[c] == h as i16
    &&& r.top@[c] == top
    &&& r.biome@[c] == grid.biome_at(
        (chunk.vol.min@[0] + x) / 4, y / 4, (chunk.vol.min@[2] + z) / 4)
    &&& if top == cfg.water {
        let deep = 1 + water_run(chunk, cfg, x, y - 1, z);
        let below = y - deep;
        &&& r.depth@[c] == (if deep > 255 { 255 } else { deep })
        &&& r.floor@[c] == (if below >= chunk.vol.min@[1] { chunk.block_at(cfg, x, below, z) } else { cfg.water })
    } else {
        r.depth@[c] == 0 && r.floor@[c] == top
    }
}

impl ColumnLod {
    /// The record of a surfaced chunk.
    pub fn from_chunk(cfg: &SurfaceConfig, chunk: &ChunkBlocks, grid: &QuartGrid) -> (r: ColumnLod)
        requires
            chunk.wf(),
            grid.wf(),
        ensures
            r.stage == STAGE_SURFACE,
            forall|x: int, z: int| #![trigger column_of(r, *cfg, *chunk, *grid, x, z)] 0 <= x < 16 && 0 <= z < 16 ==> column_of(
                r, *cfg, *chunk, *grid, x, z),
    {
        let mut r = ColumnLod::empty(STAGE_SURFACE);
        let min_y: i32 = chunk.vol.min[1];
        let mut c: usize = 0;
        while c < 256
            invariant
                c <= 256,
                chunk.wf(),
                grid.wf(),
                min_y == chunk.vol.min@[1],
                r.stage == STAGE_SURFACE,
                forall|k: int| c <= k < 256 ==> #[trigger] r.depth@[k] == 0,
                forall|k: int| #![trigger r.height@[k]] 0 <= k < c ==> column_of(r, *cfg, *chunk, *grid, k % 16, k / 16),
            decreases 256 - c,
        {
            let x: usize = c % 16;
            let z: usize = c / 16;
            let h: i32 = chunk.surface_height[c];
            let top_y: i32 = h - 1;
            let ghost before = r;
            let top: u16 = chunk.get(cfg, x, top_y, z);
            proof {
                lemma_columns(*chunk);
            }
            let bx: i32 = chunk.vol.min[0] + x as i32;
            let bz: i32 = chunk.vol.min[2] + z as i32;
            let biome: u16 = grid.get(floor_div(bx, 4), floor_div(top_y, 4), floor_div(bz, 4));
            r.height[c] = h as i16;
            r.top[c] = top;
            r.biome[c] = biome;
            r.floor[c] = top;
            if top == cfg.water {
                let mut y: i64 = top_y as i64 - 1;
                let mut depth: u64 = 1;
                while y >= min_y as i64 && chunk.get(cfg, x, y as i32, z) == cfg.water
                    invariant
                        chunk.wf(),
                        x < 16,
                        z < 16,
                        min_y == chunk.vol.min@[1],
                        i32::MIN - 2 <= y <= top_y - 1,
                        depth == top_y - y,
                        depth + water_run(*chunk, *cfg, x as int, y as int, z as int) == 1 + water_run(
                            *chunk, *cfg, x as int, top_y - 1, z as int),
                    decreases y - min_y + 1,
                {
                    depth += 1;
                    y -= 1;
                }
                r.depth[c] = if depth > 255 { 255 } else { depth as u8 };
                r.floor[c] = if y >= min_y as i64 { chunk.get(cfg, x, y as i32, z) } else { cfg.water };
            }
            proof {
                assert(c == x + z * 16);
                assert(column_of(r, *cfg, *chunk, *grid, x as int, z as int));
                assert forall|k: int| #![trigger r.height@[k]] 0 <= k < c + 1 implies column_of(
                    r, *cfg, *chunk, *grid, k % 16, k / 16) by {
                    if k < c {
                        assert(before.height@[k] == r.height@[k]);
                        assert(column_of(before, *cfg, *chunk, *grid, k % 16, k / 16));
                        assert(k % 16 + (k / 16) * 16 == k);
                    }
                }
            }
            c += 1;
        }
        proof {
            assert forall|x: int, z: int| #![trigger column_of(r, *cfg, *chunk, *grid, x, z)] 0 <= x < 16 && 0 <= z
                < 16 implies column_of(r, *cfg, *chunk, *grid, x, z) by {
                let k = x + z * 16;
                assert(k % 16 == x && k / 16 == z);
                let _ = r.height@[k];
            }
        }
        r
    }
}

/// The columns of a chunk lie in the world.
proof fn lemma_columns(chunk: ChunkBlocks)
    requires
        chunk.wf(),
    ensures
        chunk.vol.min@[0] + 15 <= i32::MAX,
        chunk.vol.min@[2] + 15 <= i32::MAX,
{
    assert(chunk.vol.last_block(0) == chunk.vol.min@[0] + 16 * 1 - 1);
    assert(chunk.vol.last_block(2) == chunk.vol.min@[2] + 16 * 1 - 1);
}

} // verus!
