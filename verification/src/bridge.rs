//! What crosses the border to the game: calls and answers as plain
//! numbers.

use vstd::prelude::*;
use crate::json::{tree, tree_in, Json};
use crate::lod26::COLUMNS;
use crate::lodmesh26::Bounds;
use crate::scheduler::{Limits, Stage, Submitted};

verus! {

/// The stage with a number.
pub fn stage_of(stage: i32) -> (r: Option<Stage>)
    ensures
        r is Some <==> 0 <= stage <= 3,
        r matches Some(s) ==> s.code() == stage,
{
    if 0 <= stage && stage <= 255 { Stage::from_u8(stage as u8) } else { None }
}

/// Limits as the game asks for them; at least one job may run.
pub fn limits_of(max_features: i32, max_inflight: i32) -> (r: Limits)
    ensures
        r.max_features == (if max_features < 1 { 1 } else { max_features as int }),
        r.max_inflight == (if max_inflight < 1 { 1 } else { max_inflight as int }),
{
    Limits {
        max_features: if max_features < 1 { 1 } else { max_features as usize },
        max_inflight: if max_inflight < 1 { 1 } else { max_inflight as usize },
    }
}

/// A registered job as one number: its own number, then whether it may run
/// in the lowest bit.
pub fn ticket_code(s: Submitted) -> (r: i64)
    requires
        s.seq <= 0x3fff_ffff_ffff_ffff,
    ensures
        r == s.seq * 2 + (if s.granted { 1int } else { 0int }),
{
    (s.seq * 2 + (if s.granted { 1 } else { 0 })) as i64
}

/// The number of the job and whether it may run can be told from the code.
pub proof fn law_ticket_code_tells_all(s: Submitted, code: i64)
    requires
        code == s.seq * 2 + (if s.granted { 1int } else { 0int }),
    ensures
        code / 2 == s.seq,
        code % 2 == 1 <==> s.granted,
{
}

/// A byte of a number, the lowest first.
pub open spec fn byte_of(c: i32, k: int) -> u8 {
    (((c as u32) >> ((8 * k) as u32)) % 256) as u8
}

/// Colours, each red, green, blue and alpha, from numbers that hold alpha,
/// red, green and blue from the top byte down.
pub fn colours_of(argb: &Vec<i32>) -> (r: Vec<[u8; 4]>)
    ensures
        r@.len() == argb@.len(),
        forall|i: int| 0 <= i < r@.len() ==> (#[trigger] r@[i])@ == seq![
            byte_of(argb@[i], 2),
            byte_of(argb@[i], 1),
            byte_of(argb@[i], 0),
            byte_of(argb@[i], 3),
        ],
{
    let mut r: Vec<[u8; 4]> = Vec::new();
    while r.len() < argb.len()
        invariant
            r@.len() <= argb@.len(),
            forall|i: int| 0 <= i < r@.len() ==> (#[trigger] r@[i])@ == seq![
                byte_of(argb@[i], 2),
                byte_of(argb@[i], 1),
                byte_of(argb@[i], 0),
                byte_of(argb@[i], 3),
            ],
        decreases argb.len() - r.len(),
    {
        let c: u32 = argb[r.len()] as u32;
        let one: [u8; 4] = [
            ((c >> 16u32) % 256) as u8,
            ((c >> 8u32) % 256) as u8,
            ((c >> 0u32) % 256) as u8,
            ((c >> 24u32) % 256) as u8,
        ];
        proof {
            assert(one@ =~= seq![
                byte_of(argb@[r@.len() as int], 2),
                byte_of(argb@[r@.len() as int], 1),
                byte_of(argb@[r@.len() as int], 0),
                byte_of(argb@[r@.len() as int], 3),
            ]);
        }
        r.push(one);
    }
    r
}

/// The palette id of water; none where the number is no id.
pub fn water_id(water: i32) -> (r: u16)
    ensures
        r == (if 0 <= water <= 0xffff { water as u16 } else { u16::MAX }),
{
    if 0 <= water && water <= 0xffff { water as u16 } else { u16::MAX }
}

/// The nearest number of a range.
pub open spec fn nearest(v: int, min: int, max: int) -> int {
    if v < min {
        min
    } else if v > max {
        max
    } else {
        v
    }
}

/// The columns of a finished chunk.
pub struct Columns {
    pub heights: [i16; 256],
    pub tops: [u16; 256],
    pub depths: [u8; 256],
    pub floors: [u16; 256],
}

/// The columns of a finished chunk from numbers: each the nearest that
/// fits; nothing where there is not one number per column.
pub fn columns_of(heights: &Vec<i32>, tops: &Vec<i32>, depths: &Vec<i32>, floors: &Vec<i32>) -> (r: Option<Columns>)
    ensures
        r is Some <==> heights@.len() == COLUMNS && tops@.len() == COLUMNS && depths@.len() == COLUMNS && floors@.len() == COLUMNS,
        r matches Some(c) ==> {
            &&& forall|i: int| 0 <= i < 256 ==> #[trigger] c.heights@[i] == nearest(heights@[i] as int, i16::MIN as int, i16::MAX as int)
            &&& forall|i: int| 0 <= i < 256 ==> #[trigger] c.tops@[i] == nearest(tops@[i] as int, 0, 0xffff)
            &&& forall|i: int| 0 <= i < 256 ==> #[trigger] c.depths@[i] == nearest(depths@[i] as int, 0, 255)
            &&& forall|i: int| 0 <= i < 256 ==> #[trigger] c.floors@[i] == nearest(floors@[i] as int, 0, 0xffff)
        },
{
    if heights.len() != COLUMNS || tops.len() != COLUMNS || depths.len() != COLUMNS || floors.len() != COLUMNS {
        return None;
    }
    let mut c = Columns { heights: [0;256], tops: [0;256], depths: [0;256], floors: [0;256] };
    let mut i: usize = 0;
    while i < COLUMNS
        invariant
            i <= 256,
            heights@.len() == 256 && tops@.len() == 256 && depths@.len() == 256 && floors@.len() == 256,
            forall|k: int| 0 <= k < i ==> #[trigger] c.heights@[k] == nearest(heights@[k] as int, i16::MIN as int, i16::MAX as int),
            forall|k: int| 0 <= k < i ==> #[trigger] c.tops@[k] == nearest(tops@[k] as int, 0, 0xffff),
            forall|k: int| 0 <= k < i ==> #[trigger] c.depths@[k] == nearest(depths@[k] as int, 0, 255),
            forall|k: int| 0 <= k < i ==> #[trigger] c.floors@[k] == nearest(floors@[k] as int, 0, 0xffff),
        decreases 256 - i,
    {
        c.heights[i] = clamp_to(heights[i], -32768, 32767) as i16;
        c.tops[i] = clamp_to(tops[i], 0, 0xffff) as u16;
        c.depths[i] = clamp_to(depths[i], 0, 255) as u8;
        c.floors[i] = clamp_to(floors[i], 0, 0xffff) as u16;
        i += 1;
    }
    Some(c)
}

fn clamp_to(v: i32, min: i32, max: i32) -> (r: i32)
    ensures
        r == nearest(v as int, min as int, max as int),
{
    if v < min {
        min
    } else if v > max {
        max
    } else {
        v
    }
}

/// Sixteen bits as an unsigned number.
pub open spec fn unsigned(y: i16) -> int {
    if y < 0 { y + 0x1_0000 } else { y as int }
}

/// A mesh as one number: its length in bytes, then the lowest and the
/// highest y in sixteen bits each. Nothing to draw is zero.
pub fn mesh_code(len: usize, bounds: Bounds) -> (r: u64)
    requires
        len <= 0xffff_ffff,
    ensures
        r == (if len == 0 {
            0
        } else {
            len + unsigned(bounds.min_y) * 0x1_0000_0000 + unsigned(bounds.max_y) * 0x1_0000_0000_0000
        }),
{
    if len == 0 {
        return 0;
    }
    let lo: u64 = if bounds.min_y < 0 { (bounds.min_y as i64 + 0x1_0000) as u64 } else { bounds.min_y as u64 };
    let hi: u64 = if bounds.max_y < 0 { (bounds.max_y as i64 + 0x1_0000) as u64 } else { bounds.max_y as u64 };
    len as u64 + lo * 0x1_0000_0000 + hi * 0x1_0000_0000_0000
}

/// Indices as the game hands them over; nothing where one does not fit
/// sixteen bits.
pub fn indices_of(v: &Vec<i32>) -> (r: Option<Vec<u16>>)
    ensures
        r is Some <==> forall|i: int| 0 <= i < v@.len() ==> 0 <= #[trigger] v@[i] <= 0xffff,
        r matches Some(x) ==> x@.len() == v@.len() && forall|i: int| 0 <= i < v@.len() ==> #[trigger] x@[i] == v@[i],
{
    let mut r: Vec<u16> = Vec::new();
    while r.len() < v.len()
        invariant
            r@.len() <= v@.len(),
            forall|i: int| 0 <= i < r@.len() ==> #[trigger] r@[i] == v@[i],
            forall|i: int| 0 <= i < r@.len() ==> 0 <= #[trigger] v@[i] <= 0xffff,
        decreases v.len() - r.len(),
    {
        let x: i32 = v[r.len()];
        if x < 0 || x > 0xffff {
            return None;
        }
        r.push(x as u16);
    }
    Some(r)
}

/// The sections that a batch can touch as one number, the lowest in the low
/// half; -1 where the batch is refused.
pub fn plan_code(range: Option<(usize, usize)>) -> (r: i32)
    requires
        range matches Some(p) ==> p.0 <= 0xffff && p.1 <= 0x7fff,
    ensures
        r == (match range {
            Some(p) => p.0 + p.1 * 0x1_0000,
            None => -1,
        }),
{
    match range {
        Some(p) => (p.0 + p.1 * 0x1_0000) as i32,
        None => -1,
    }
}

/// A document that the game hands over, with its kind and identifier.
pub open spec fn is_document(d: (String, String, Json), kind: String, id: String, body: String) -> bool {
    &&& d.0@ == kind@
    &&& d.1@ == id@
    &&& tree_in(body@) == Some(tree(d.2))
}

/// Documents from parallel lists; nothing where the lists differ in length
/// or a text is no document.
pub fn documents_of(kinds: &Vec<String>, ids: &Vec<String>, bodies: &Vec<String>) -> (r: Option<Vec<(String, String, Json)>>)
    ensures
        r is Some <==> kinds@.len() == ids@.len() && ids@.len() == bodies@.len() && forall|i: int|
            0 <= i < bodies@.len() ==> tree_in((#[trigger] bodies@[i])@) is Some,
        r matches Some(d) ==> d@.len() == bodies@.len() && forall|i: int|
            0 <= i < bodies@.len() ==> is_document(#[trigger] d@[i], kinds@[i], ids@[i], bodies@[i]),
{
    if kinds.len() != ids.len() || ids.len() != bodies.len() {
        return None;
    }
    let mut r: Vec<(String, String, Json)> = Vec::new();
    while r.len() < bodies.len()
        invariant
            kinds@.len() == ids@.len() && ids@.len() == bodies@.len(),
            r@.len() <= bodies@.len(),
            forall|i: int| 0 <= i < r@.len() ==> is_document(#[trigger] r@[i], kinds@[i], ids@[i], bodies@[i]),
            forall|i: int| 0 <= i < r@.len() ==> tree_in((#[trigger] bodies@[i])@) is Some,
        decreases bodies.len() - r.len(),
    {
        let i: usize = r.len();
        match Json::parse(bodies[i].as_str()) {
            None => {
                proof { assert(tree_in(bodies@[i as int]@) is None); }
                return None;
            },
            Some(j) => r.push((kinds[i].clone(), ids[i].clone(), j)),
        }
    }
    Some(r)
}

} // verus!
