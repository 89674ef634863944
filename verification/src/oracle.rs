//! Readers for the files that the game's probes write.
//!
//! A density probe has a header line with the world seed, then lines
//! `key x y z hexbits decimal`; `key` is a router name (`final_density`,
//! `erosion`, ...) or `noise:<identifier>`. A chunk probe holds one chunk
//! column of density, a surface probe one chunk after its surface was built.

use vstd::prelude::*;
use crate::df26::{wrap, wrapped};
use crate::scan::{
    after_prefix, begins, blank, chars_of, fields_of, find_fields, find_lines, find_words, is_blank, lines_of, number_in, piece,
    pieces, read_number, reads, spans_in, text_between, words_from,
};
use crate::text::same_text;

verus! {

/// Why a file could not be read.
#[derive(Clone, Copy, Debug, PartialEq, Eq, Structural)]
pub enum OracleError {
    Empty,
    /// The first line is no header.
    BadHeader,
    /// The header lacks something.
    Missing,
    /// A number is none, or out of its range.
    Number,
    /// A line has too few fields.
    Fields,
    /// A line is of no known kind.
    BadLine,
    /// Some lines have a substance and some have none.
    Substance,
    /// There are not as many values as announced.
    Count,
}

#[derive(Debug)]
pub struct OracleHeader {
    pub seed: i64,
    pub settings: String,
    pub min_y: i32,
    pub height: i32,
}

#[derive(Debug)]
pub struct OracleSample {
    pub key: String,
    pub x: i32,
    pub y: i32,
    pub z: i32,
    pub bits: u32,
}

impl OracleSample {
    /// The value's bits.
    pub fn value(&self) -> (r: u32)
        ensures
            r == self.bits,
    {
        self.bits
    }
}

#[derive(Debug)]
pub struct Oracle {
    pub header: OracleHeader,
    pub samples: Vec<OracleSample>,
}

/// A header as a value; what is missing is nothing.
pub ghost struct Header {
    pub seed: Option<int>,
    pub settings: Option<Seq<char>>,
    pub min_y: Option<int>,
    pub height: Option<int>,
}

/// A sample as a value.
pub ghost struct Sample {
    pub key: Seq<char>,
    pub x: int,
    pub y: int,
    pub z: int,
    pub bits: int,
}

impl View for OracleHeader {
    type V = Header;

    open spec fn view(&self) -> Header {
        Header {
            seed: Some(self.seed as int),
            settings: Some(self.settings@),
            min_y: Some(self.min_y as int),
            height: Some(self.height as int),
        }
    }
}

impl View for OracleSample {
    type V = Sample;

    open spec fn view(&self) -> Sample {
        Sample { key: self.key@, x: self.x as int, y: self.y as int, z: self.z as int, bits: self.bits as int }
    }
}

/// A 32-bit integer, a 64-bit one, and 32 bits in hexadecimal.
pub open spec fn int32(s: Seq<char>) -> Option<int> {
    number_in(s, 10, i32::MIN as int, i32::MAX as int)
}

pub open spec fn int64(s: Seq<char>) -> Option<int> {
    number_in(s, 10, i64::MIN as int, i64::MAX as int)
}

pub open spec fn hex32(s: Seq<char>) -> Option<int> {
    number_in(s, 16, 0, u32::MAX as int)
}

fn read_int32(s: &Vec<char>, p: (usize, usize)) -> (r: Option<i32>)
    requires
        p.0 <= p.1 <= s@.len(),
    ensures
        r is Some <==> int32(piece(s@, p)) is Some,
        r matches Some(v) ==> int32(piece(s@, p)) == Some(v as int),
{
    match read_number(s, p, 10, -0x8000_0000, 0x7fff_ffff) {
        Some(v) => Some(v as i32),
        None => None,
    }
}

fn read_int64(s: &Vec<char>, p: (usize, usize)) -> (r: Option<i64>)
    requires
        p.0 <= p.1 <= s@.len(),
    ensures
        r is Some <==> int64(piece(s@, p)) is Some,
        r matches Some(v) ==> int64(piece(s@, p)) == Some(v as int),
{
    match read_number(s, p, 10, -0x8000_0000_0000_0000, 0x7fff_ffff_ffff_ffff) {
        Some(v) => Some(v as i64),
        None => None,
    }
}

fn read_hex32(s: &Vec<char>, p: (usize, usize)) -> (r: Option<u32>)
    requires
        p.0 <= p.1 <= s@.len(),
    ensures
        r is Some <==> hex32(piece(s@, p)) is Some,
        r matches Some(v) ==> hex32(piece(s@, p)) == Some(v as int),
{
    match read_number(s, p, 16, 0, 0xffff_ffff) {
        Some(v) => Some(v as u32),
        None => None,
    }
}

/// The header of a density probe from field `i` on: names and values in
/// turn, the last of a name counts.
pub open spec fn header_from(f: Seq<Seq<char>>, i: int, h: Header) -> Result<Header, OracleError>
    decreases f.len() - i,
{
    if i < 0 || i + 1 >= f.len() {
        Ok(h)
    } else {
        let (name, v) = (f[i], f[i + 1]);
        if name == "seed"@ {
            if int64(v) is None { Err(OracleError::Number) } else { header_from(f, i + 2, Header { seed: int64(v), ..h }) }
        } else if name == "settings"@ {
            header_from(f, i + 2, Header { settings: Some(v), ..h })
        } else if name == "min_y"@ {
            if int32(v) is None { Err(OracleError::Number) } else { header_from(f, i + 2, Header { min_y: int32(v), ..h }) }
        } else if name == "height"@ {
            if int32(v) is None { Err(OracleError::Number) } else { header_from(f, i + 2, Header { height: int32(v), ..h }) }
        } else {
            header_from(f, i + 2, h)
        }
    }
}

/// Nothing is known of a header yet.
pub open spec fn no_header() -> Header {
    Header { seed: None, settings: None, min_y: None, height: None }
}

/// The header of a density probe.
pub open spec fn header_in(line: Seq<char>) -> Result<Header, OracleError> {
    let f = fields_of(line, ' ');
    if f[0] != "#"@ || f.len() < 9 {
        Err(OracleError::BadHeader)
    } else {
        match header_from(f, 1, no_header()) {
            Err(e) => Err(e),
            Ok(h) => if h.seed is None || h.settings is None || h.min_y is None || h.height is None {
                Err(OracleError::Missing)
            } else {
                Ok(h)
            },
        }
    }
}

/// A line of a density probe; nothing of a blank one.
pub open spec fn sample_in(line: Seq<char>) -> Result<Option<Sample>, OracleError> {
    let f = fields_of(line, ' ');
    if is_blank(line) {
        Ok(None)
    } else if f.len() < 5 {
        Err(OracleError::Fields)
    } else {
        match (int32(f[1]), int32(f[2]), int32(f[3]), hex32(f[4])) {
            (Some(x), Some(y), Some(z), Some(bits)) => Ok(Some(Sample { key: f[0], x, y, z, bits })),
            _ => Err(OracleError::Number),
        }
    }
}

/// The samples of the lines up to the `n`-th, after the first.
pub open spec fn samples_in(lines: Seq<Seq<char>>, n: nat) -> Result<Seq<Sample>, OracleError>
    decreases n,
{
    if n <= 1 {
        Ok(Seq::empty())
    } else {
        match samples_in(lines, (n - 1) as nat) {
            Err(e) => Err(e),
            Ok(before) => match sample_in(lines[n - 1]) {
                Err(e) => Err(e),
                Ok(None) => Ok(before),
                Ok(Some(x)) => Ok(before.push(x)),
            },
        }
    }
}

/// A density probe.
pub open spec fn oracle_in(text: Seq<char>) -> Result<(Header, Seq<Sample>), OracleError> {
    let lines = lines_of(text);
    if lines.len() == 0 {
        Err(OracleError::Empty)
    } else {
        match header_in(lines[0]) {
            Err(e) => Err(e),
            Ok(h) => match samples_in(lines, lines.len()) {
                Err(e) => Err(e),
                Ok(s) => Ok((h, s)),
            },
        }
    }
}

proof fn lemma_samples_fail(lines: Seq<Seq<char>>, m: nat, n: nat)
    requires
        1 <= m <= n,
        samples_in(lines, m) is Err,
    ensures
        samples_in(lines, n) == samples_in(lines, m),
    decreases n,
{
    if m < n {
        lemma_samples_fail(lines, m, (n - 1) as nat);
    }
}

/// The samples as values.
pub open spec fn sample_values(v: Seq<OracleSample>) -> Seq<Sample> {
    v.map_values(|s: OracleSample| s@)
}

fn read_sample(s: &Vec<char>, p: (usize, usize)) -> (r: Result<Option<OracleSample>, OracleError>)
    requires
        p.0 <= p.1 <= s@.len(),
    ensures
        match r {
            Ok(Some(x)) => sample_in(piece(s@, p)) == Ok::<Option<Sample>, OracleError>(Some(x@)),
            Ok(None) => sample_in(piece(s@, p)) == Ok::<Option<Sample>, OracleError>(None),
            Err(e) => sample_in(piece(s@, p)) == Err::<Option<Sample>, OracleError>(e),
        },
{
    if blank(s, p) {
        return Ok(None);
    }
    let f: Vec<(usize, usize)> = find_fields(s, p, ' ');
    let ghost g = pieces(s@, f@);
    if f.len() < 5 {
        return Err(OracleError::Fields);
    }
    proof {
        assert(g[0] == piece(s@, f@[0]) && g[1] == piece(s@, f@[1]) && g[2] == piece(s@, f@[2]) && g[3] == piece(s@, f@[3]) && g[4]
            == piece(s@, f@[4]));
    }
    match (read_int32(s, f[1]), read_int32(s, f[2]), read_int32(s, f[3]), read_hex32(s, f[4])) {
        (Some(x), Some(y), Some(z), Some(bits)) => {
            let key: String = text_between(s, f[0].0, f[0].1);
            Ok(Some(OracleSample { key, x, y, z, bits }))
        },
        _ => Err(OracleError::Number),
    }
}

fn parse_header(s: &Vec<char>, p: (usize, usize)) -> (r: Result<OracleHeader, OracleError>)
    requires
        p.0 <= p.1 <= s@.len(),
    ensures
        match r {
            Ok(h) => header_in(piece(s@, p)) == Ok::<Header, OracleError>(h@),
            Err(e) => header_in(piece(s@, p)) == Err::<Header, OracleError>(e),
        },
{
    let f: Vec<(usize, usize)> = find_fields(s, p, ' ');
    let ghost g = pieces(s@, f@);
    proof { assert(g[0] == piece(s@, f@[0])); }
    if !reads(s, f[0], "#") || f.len() < 9 {
        return Err(OracleError::BadHeader);
    }
    let mut seed: Option<i64> = None;
    let mut settings: Option<(usize, usize)> = None;
    let mut min_y: Option<i32> = None;
    let mut height: Option<i32> = None;
    let ghost mut h = no_header();
    let mut i: usize = 1;
    while i < f.len() - 1
        invariant
            1 <= i <= f@.len(),
            f@.len() >= 9,
            g == fields_of(piece(s@, p), ' '),
            g[0] == "#"@,
            spans_in(f@, s@.len() as int),
            g == pieces(s@, f@),
            header_from(g, 1, no_header()) == header_from(g, i as int, h),
            h.seed is Some <==> seed is Some,
            seed matches Some(v) ==> h.seed == Some(v as int),
            h.settings is Some <==> settings is Some,
            settings matches Some(q) ==> q.0 <= q.1 && q.1 <= s@.len() && h.settings == Some(piece(s@, q)),
            h.min_y is Some <==> min_y is Some,
            min_y matches Some(v) ==> h.min_y == Some(v as int),
            h.height is Some <==> height is Some,
            height matches Some(v) ==> h.height == Some(v as int),
        decreases f.len() - i,
    {
        let (name, v) = (f[i], f[i + 1]);
        proof { assert(g[i as int] == piece(s@, name) && g[i + 1] == piece(s@, v)); }
        if reads(s, name, "seed") {
            match read_int64(s, v) {
                None => return Err(OracleError::Number),
                Some(x) => seed = Some(x),
            }
            proof { h = Header { seed: int64(piece(s@, v)), ..h }; }
        } else if reads(s, name, "settings") {
            settings = Some(v);
            proof { h = Header { settings: Some(piece(s@, v)), ..h }; }
        } else if reads(s, name, "min_y") {
            match read_int32(s, v) {
                None => return Err(OracleError::Number),
                Some(x) => min_y = Some(x),
            }
            proof { h = Header { min_y: int32(piece(s@, v)), ..h }; }
        } else if reads(s, name, "height") {
            match read_int32(s, v) {
                None => return Err(OracleError::Number),
                Some(x) => height = Some(x),
            }
            proof { h = Header { height: int32(piece(s@, v)), ..h }; }
        }
        if f.len() - i <= 2 {
            proof { assert(header_from(g, i + 2, h) == Ok::<Header, OracleError>(h)); }
            i = f.len();
        } else {
            i += 2;
        }
    }
    match (seed, settings, min_y, height) {
        (Some(seed), Some(q), Some(min_y), Some(height)) => {
            let settings: String = text_between(s, q.0, q.1);
            Ok(OracleHeader { seed, settings, min_y, height })
        },
        _ => Err(OracleError::Missing),
    }
}

impl Oracle {
    /// Read a density probe.
    pub fn parse(text: &str) -> (r: Result<Oracle, OracleError>)
        ensures
            match r {
                Ok(o) => oracle_in(text@) == Ok::<(Header, Seq<Sample>), OracleError>((o.header@, sample_values(o.samples@))),
                Err(e) => oracle_in(text@) == Err::<(Header, Seq<Sample>), OracleError>(e),
            },
    {
        let s: Vec<char> = chars_of(text);
        let lines: Vec<(usize, usize)> = find_lines(&s);
        let ghost l = pieces(s@, lines@);
        if lines.len() == 0 {
            return Err(OracleError::Empty);
        }
        proof { assert(l[0] == piece(s@, lines@[0])); }
        let header = match parse_header(&s, lines[0]) {
            Err(e) => return Err(e),
            Ok(h) => h,
        };
        let mut samples: Vec<OracleSample> = Vec::new();
        let mut n: usize = 1;
        proof { assert(sample_values(samples@) =~= Seq::empty()); }
        while n < lines.len()
            invariant
                1 <= n <= lines@.len(),
                spans_in(lines@, s@.len() as int),
                l == pieces(s@, lines@),
                l.len() == lines@.len(),
                samples_in(l, n as nat) == Ok::<Seq<Sample>, OracleError>(sample_values(samples@)),
                s@ == text@,
                l == lines_of(text@),
                header_in(l[0]) == Ok::<Header, OracleError>(header@),
            decreases lines.len() - n,
        {
            proof { assert(l[n as int] == piece(s@, lines@[n as int])); }
            let ghost before = samples@;
            match read_sample(&s, lines[n]) {
                Err(e) => {
                    proof { lemma_samples_fail(l, (n + 1) as nat, l.len()); }
                    return Err(e);
                },
                Ok(None) => {},
                Ok(Some(x)) => {
                    samples.push(x);
                    proof { assert(sample_values(samples@) =~= sample_values(before).push(x@)); }
                },
            }
            n += 1;
        }
        Ok(Oracle { header, samples })
    }
}

/// An aquifer cell: index, location, and level and fluid if known.
pub type DebugCell = (usize, (i32, i32, i32), Option<(i32, u8)>);

/// A chunk probe: one chunk column of density in buffer order.
#[derive(Debug)]
pub struct ChunkOracle {
    pub seed: i64,
    pub chunk_x: i32,
    pub chunk_z: i32,
    pub min_y: i32,
    pub height: i32,
    pub sea_level: Option<i32>,
    pub bits: Vec<u32>,
    /// The substance per value where the probe wrote one.
    pub substance: Vec<u8>,
    /// First grid cell, grid size along x and z, and the height above which
    /// no cell matters.
    pub aq_grid: Option<([i32; 3], i32, i32, i32)>,
    pub aq_cells: Vec<DebugCell>,
    /// Quart corner and surface level.
    pub aq_surfaces: Vec<(i32, i32, i32)>,
    /// Cell index, then the bits of floodedness, exclusion and spread, each
    /// cached and not.
    pub aq_probes: Vec<(usize, [(u32, u32); 3])>,
}

/// What a line of a chunk probe says.
pub enum ChunkItem {
    Nothing,
    Value { bits: u32, substance: Option<u8> },
    Grid(([i32; 3], i32, i32, i32)),
    Cell(DebugCell),
    Surface((i32, i32, i32)),
    Probe((usize, [(u32, u32); 3])),
}

/// What a line says, as a value.
#[allow(inconsistent_fields)]
pub ghost enum Item {
    Nothing,
    Value { bits: int, substance: Option<int> },
    Grid(Seq<int>),
    Cell { index: int, at: (int, int, int), status: Option<(int, int)> },
    Surface(int, int, int),
    Probe { index: int, bits: Seq<int> },
}

/// The numbers of a grid line and of a probe line.
pub open spec fn grid_numbers(g: ([i32; 3], i32, i32, i32)) -> Seq<int> {
    seq![g.0@[0] as int, g.0@[1] as int, g.0@[2] as int, g.1 as int, g.2 as int, g.3 as int]
}

pub open spec fn probe_numbers(p: [(u32, u32); 3]) -> Seq<int> {
    seq![p@[0].0 as int, p@[0].1 as int, p@[1].0 as int, p@[1].1 as int, p@[2].0 as int, p@[2].1 as int]
}

pub open spec fn cell_item(c: DebugCell) -> Item {
    Item::Cell {
        index: c.0 as int,
        at: (c.1.0 as int, c.1.1 as int, c.1.2 as int),
        status: match c.2 {
            Some((l, k)) => Some((l as int, k as int)),
            None => None,
        },
    }
}

impl View for ChunkItem {
    type V = Item;

    open spec fn view(&self) -> Item {
        match *self {
            ChunkItem::Nothing => Item::Nothing,
            ChunkItem::Value { bits, substance } => Item::Value {
                bits: bits as int,
                substance: match substance {
                    Some(s) => Some(s as int),
                    None => None,
                },
            },
            ChunkItem::Grid(g) => Item::Grid(grid_numbers(g)),
            ChunkItem::Cell(c) => cell_item(c),
            ChunkItem::Surface(s) => Item::Surface(s.0 as int, s.1 as int, s.2 as int),
            ChunkItem::Probe(p) => Item::Probe { index: p.0 as int, bits: probe_numbers(p.1) },
        }
    }
}

pub open spec fn small(s: Seq<char>) -> Option<int> {
    number_in(s, 10, 0, 255)
}

pub open spec fn index_in(s: Seq<char>) -> Option<int> {
    number_in(s, 10, 0, usize::MAX as int)
}

/// An aquifer line by its fields.
pub open spec fn aquifer_item(f: Seq<Seq<char>>) -> Result<Item, OracleError> {
    if f[0] == "grid"@ && f.len() >= 8 {
        match (int32(f[1]), int32(f[2]), int32(f[3]), int32(f[4]), int32(f[5]), int32(f[7])) {
            (Some(a), Some(b), Some(c), Some(d), Some(e), Some(g)) => Ok(Item::Grid(seq![a, b, c, d, e, g])),
            _ => Err(OracleError::Number),
        }
    } else if f[0] == "cell"@ && f.len() >= 6 {
        match (index_in(f[1]), int32(f[2]), int32(f[3]), int32(f[4])) {
            (Some(index), Some(x), Some(y), Some(z)) => if f[5] == "none"@ {
                Ok(Item::Cell { index, at: (x, y, z), status: None })
            } else if f.len() < 7 {
                Err(OracleError::Fields)
            } else {
                match (int32(f[5]), small(f[6])) {
                    (Some(l), Some(k)) => Ok(Item::Cell { index, at: (x, y, z), status: Some((l, k)) }),
                    _ => Err(OracleError::Number),
                }
            },
            _ => Err(OracleError::Number),
        }
    } else if f[0] == "surface"@ && f.len() >= 4 {
        match (int32(f[1]), int32(f[2]), int32(f[3])) {
            (Some(a), Some(b), Some(c)) => Ok(Item::Surface(a, b, c)),
            _ => Err(OracleError::Number),
        }
    } else if f[0] == "probe"@ && f.len() >= 8 {
        match (index_in(f[1]), hex32(f[2]), hex32(f[3]), hex32(f[4]), hex32(f[5]), hex32(f[6]), hex32(f[7])) {
            (Some(index), Some(a), Some(b), Some(c), Some(d), Some(e), Some(g)) => Ok(
                Item::Probe { index, bits: seq![a, b, c, d, e, g] },
            ),
            _ => Err(OracleError::Number),
        }
    } else {
        Err(OracleError::BadLine)
    }
}

/// A line of a chunk probe.
#[verifier::opaque]
pub open spec fn chunk_item(line: Seq<char>) -> Result<Item, OracleError> {
    if line.len() == 0 {
        Ok(Item::Nothing)
    } else if begins(line, "aq "@) {
        aquifer_item(fields_of(line.skip("aq "@.len() as int), ' '))
    } else {
        let f = fields_of(line, ' ');
        match hex32(f[0]) {
            None => Err(OracleError::Number),
            Some(bits) => if f.len() < 2 {
                Ok(Item::Value { bits, substance: None })
            } else {
                match small(f[1]) {
                    None => Err(OracleError::Number),
                    Some(k) => Ok(Item::Value { bits, substance: Some(k) }),
                }
            },
        }
    }
}

fn read_small(s: &Vec<char>, p: (usize, usize)) -> (r: Option<u8>)
    requires
        p.0 <= p.1 <= s@.len(),
    ensures
        r is Some <==> small(piece(s@, p)) is Some,
        r matches Some(v) ==> small(piece(s@, p)) == Some(v as int),
{
    match read_number(s, p, 10, 0, 255) {
        Some(v) => Some(v as u8),
        None => None,
    }
}

fn read_index(s: &Vec<char>, p: (usize, usize)) -> (r: Option<usize>)
    requires
        p.0 <= p.1 <= s@.len(),
    ensures
        r is Some <==> index_in(piece(s@, p)) is Some,
        r matches Some(v) ==> index_in(piece(s@, p)) == Some(v as int),
{
    match read_number(s, p, 10, 0, usize::MAX as i128) {
        Some(v) => Some(v as usize),
        None => None,
    }
}

/// An item that was read, or why not.
pub open spec fn item_result(r: Result<ChunkItem, OracleError>) -> Result<Item, OracleError> {
    match r {
        Ok(x) => Ok(x@),
        Err(e) => Err(e),
    }
}

fn read_aquifer_item(s: &Vec<char>, p: (usize, usize)) -> (r: Result<ChunkItem, OracleError>)
    requires
        p.0 <= p.1 <= s@.len(),
    ensures
        item_result(r) == aquifer_item(fields_of(piece(s@, p), ' ')),
{
    let f: Vec<(usize, usize)> = find_fields(s, p, ' ');
    let ghost g = pieces(s@, f@);
    proof {
        assert forall|i: int| 0 <= i < f@.len() implies #[trigger] g[i] == piece(s@, f@[i]) by {}
        assert(g.len() == f@.len());
        assert(g[0] == piece(s@, f@[0]));
    }
    let n: usize = f.len();
    if reads(s, f[0], "grid") && n >= 8 {
        proof { assert(g[1] == piece(s@, f@[1]) && g[2] == piece(s@, f@[2]) && g[3] == piece(s@, f@[3]) && g[4] == piece(s@, f@[4]) && g[5] == piece(s@, f@[5]) && g[7] == piece(s@, f@[7])); }
        return match (
            read_int32(s, f[1]),
            read_int32(s, f[2]),
            read_int32(s, f[3]),
            read_int32(s, f[4]),
            read_int32(s, f[5]),
            read_int32(s, f[7]),
        ) {
            (Some(a), Some(b), Some(c), Some(d), Some(e), Some(k)) => {
                let min: [i32; 3] = [a, b, c];
                proof { assert(grid_numbers((min, d, e, k)) =~= seq![a as int, b as int, c as int, d as int, e as int, k as int]); }
                Ok(ChunkItem::Grid((min, d, e, k)))
            },
            _ => Err(OracleError::Number),
        };
    }
    if reads(s, f[0], "cell") && n >= 6 {
        proof { assert(g[1] == piece(s@, f@[1]) && g[2] == piece(s@, f@[2]) && g[3] == piece(s@, f@[3]) && g[4] == piece(s@, f@[4]) && g[5] == piece(s@, f@[5])); }
        return match (read_index(s, f[1]), read_int32(s, f[2]), read_int32(s, f[3]), read_int32(s, f[4])) {
            (Some(index), Some(x), Some(y), Some(z)) => {
                if reads(s, f[5], "none") {
                    Ok(ChunkItem::Cell((index, (x, y, z), None)))
                } else if n < 7 {
                    Err(OracleError::Fields)
                } else {
                    proof { assert(g[6] == piece(s@, f@[6])); }
                    match (read_int32(s, f[5]), read_small(s, f[6])) {
                        (Some(l), Some(k)) => Ok(ChunkItem::Cell((index, (x, y, z), Some((l, k))))),
                        _ => Err(OracleError::Number),
                    }
                }
            },
            _ => Err(OracleError::Number),
        };
    }
    if reads(s, f[0], "surface") && n >= 4 {
        proof { assert(g[1] == piece(s@, f@[1]) && g[2] == piece(s@, f@[2]) && g[3] == piece(s@, f@[3])); }
        return match (read_int32(s, f[1]), read_int32(s, f[2]), read_int32(s, f[3])) {
            (Some(a), Some(b), Some(c)) => Ok(ChunkItem::Surface((a, b, c))),
            _ => Err(OracleError::Number),
        };
    }
    if reads(s, f[0], "probe") && n >= 8 {
        proof { assert(g[1] == piece(s@, f@[1]) && g[2] == piece(s@, f@[2]) && g[3] == piece(s@, f@[3]) && g[4] == piece(s@, f@[4]) && g[5] == piece(s@, f@[5]) && g[6] == piece(s@, f@[6]) && g[7] == piece(s@, f@[7])); }
        return match (
            read_index(s, f[1]),
            read_hex32(s, f[2]),
            read_hex32(s, f[3]),
            read_hex32(s, f[4]),
            read_hex32(s, f[5]),
            read_hex32(s, f[6]),
            read_hex32(s, f[7]),
        ) {
            (Some(index), Some(a), Some(b), Some(c), Some(d), Some(e), Some(k)) => {
                let bits: [(u32, u32); 3] = [(a, b), (c, d), (e, k)];
                proof { assert(probe_numbers(bits) =~= seq![a as int, b as int, c as int, d as int, e as int, k as int]); }
                Ok(ChunkItem::Probe((index, bits)))
            },
            _ => Err(OracleError::Number),
        };
    }
    Err(OracleError::BadLine)
}

fn read_item(s: &Vec<char>, p: (usize, usize)) -> (r: Result<ChunkItem, OracleError>)
    requires
        p.0 <= p.1 <= s@.len(),
    ensures
        item_result(r) == chunk_item(piece(s@, p)),
{
    proof { reveal(chunk_item); }
    if p.0 == p.1 {
        return Ok(ChunkItem::Nothing);
    }
    if let Some(q) = after_prefix(s, p, "aq ") {
        return read_aquifer_item(s, q);
    }
    let f: Vec<(usize, usize)> = find_fields(s, p, ' ');
    let ghost g = pieces(s@, f@);
    proof { assert(g[0] == piece(s@, f@[0])); }
    match read_hex32(s, f[0]) {
        None => Err(OracleError::Number),
        Some(bits) => {
            if f.len() < 2 {
                return Ok(ChunkItem::Value { bits, substance: None });
            }
            proof { assert(g[1] == piece(s@, f@[1])); }
            match read_small(s, f[1]) {
                None => Err(OracleError::Number),
                Some(k) => Ok(ChunkItem::Value { bits, substance: Some(k) }),
            }
        },
    }
}

/// What the lines of a chunk probe add up to.
pub ghost struct Lines {
    pub bits: Seq<int>,
    pub substance: Seq<int>,
    pub grid: Option<Seq<int>>,
    pub cells: Seq<Item>,
    pub surfaces: Seq<Item>,
    pub probes: Seq<Item>,
}

impl Lines {
    pub open spec fn none() -> Lines {
        Lines {
            bits: Seq::empty(),
            substance: Seq::empty(),
            grid: None,
            cells: Seq::empty(),
            surfaces: Seq::empty(),
            probes: Seq::empty(),
        }
    }

    pub open spec fn with(self, x: Item) -> Lines {
        match x {
            Item::Nothing => self,
            Item::Value { bits, substance } => Lines {
                bits: self.bits.push(bits),
                substance: match substance {
                    Some(k) => self.substance.push(k),
                    None => self.substance,
                },
                ..self
            },
            Item::Grid(g) => Lines { grid: Some(g), ..self },
            Item::Cell { .. } => Lines { cells: self.cells.push(x), ..self },
            Item::Surface(_, _, _) => Lines { surfaces: self.surfaces.push(x), ..self },
            Item::Probe { .. } => Lines { probes: self.probes.push(x), ..self },
        }
    }
}

/// The lines up to the `n`-th, after the first.
pub open spec fn chunk_lines(lines: Seq<Seq<char>>, n: nat) -> Result<Lines, OracleError>
    decreases n,
{
    if n <= 1 {
        Ok(Lines::none())
    } else {
        match chunk_lines(lines, (n - 1) as nat) {
            Err(e) => Err(e),
            Ok(before) => match chunk_item(lines[n - 1]) {
                Err(e) => Err(e),
                Ok(x) => Ok(before.with(x)),
            },
        }
    }
}

/// The place of a word among fields, from `k` on.
pub open spec fn word_place(f: Seq<Seq<char>>, w: Seq<char>, k: int) -> Option<int>
    decreases f.len() - k,
{
    if k < 0 || k >= f.len() {
        None
    } else if f[k] == w {
        Some(k)
    } else {
        word_place(f, w, k + 1)
    }
}

/// A first line is the header of a chunk probe.
pub open spec fn chunk_header(f: Seq<Seq<char>>) -> bool {
    f.len() >= 10 && f[0] == "#"@ && f[1] == "seed"@ && f[3] == "chunk"@ && f[6] == "min_y"@ && f[8] == "height"@
}

/// The sea level of a header, if it has one.
pub open spec fn sea_level_in(f: Seq<Seq<char>>) -> Result<Option<int>, OracleError> {
    match word_place(f, "sea_level"@, 0) {
        None => Ok(None),
        Some(k) => if k + 1 >= f.len() {
            Err(OracleError::Missing)
        } else {
            match int32(f[k + 1]) {
                None => Err(OracleError::Number),
                Some(v) => Ok(Some(v)),
            }
        },
    }
}

/// A chunk probe as a value: seed, chunk, lowest block, height, sea level
/// and lines.
pub ghost struct ChunkProbe {
    pub seed: int,
    pub chunk: (int, int),
    pub min_y: int,
    pub height: int,
    pub sea_level: Option<int>,
    pub lines: Lines,
}

pub open spec fn chunk_probe_in(text: Seq<char>) -> Result<ChunkProbe, OracleError> {
    let lines = lines_of(text);
    if lines.len() == 0 {
        Err(OracleError::Empty)
    } else {
        let f = fields_of(lines[0], ' ');
        if !chunk_header(f) {
            Err(OracleError::BadHeader)
        } else {
            match sea_level_in(f) {
                Err(e) => Err(e),
                Ok(sea_level) => match chunk_lines(lines, lines.len()) {
                    Err(e) => Err(e),
                    Ok(l) => if l.substance.len() != 0 && l.substance.len() != l.bits.len() {
                        Err(OracleError::Substance)
                    } else {
                        match (int64(f[2]), int32(f[4]), int32(f[5]), int32(f[7]), int32(f[9])) {
                            (Some(seed), Some(x), Some(z), Some(min_y), Some(height)) => Ok(
                                ChunkProbe { seed, chunk: (x, z), min_y, height, sea_level, lines: l },
                            ),
                            _ => Err(OracleError::Number),
                        }
                    },
                },
            }
        }
    }
}

impl ChunkOracle {
    #[verifier::opaque]
    pub open spec fn lines(&self) -> Lines {
        Lines {
            bits: self.bits@.map_values(|b: u32| b as int),
            substance: self.substance@.map_values(|b: u8| b as int),
            grid: match self.aq_grid {
                Some(g) => Some(grid_numbers(g)),
                None => None,
            },
            cells: self.aq_cells@.map_values(|c: DebugCell| cell_item(c)),
            surfaces: self.aq_surfaces@.map_values(|s: (i32, i32, i32)| Item::Surface(s.0 as int, s.1 as int, s.2 as int)),
            probes: self.aq_probes@.map_values(
                |p: (usize, [(u32, u32); 3])| Item::Probe { index: p.0 as int, bits: probe_numbers(p.1) }),
        }
    }

    pub open spec fn probe(&self) -> ChunkProbe {
        ChunkProbe {
            seed: self.seed as int,
            chunk: (self.chunk_x as int, self.chunk_z as int),
            min_y: self.min_y as int,
            height: self.height as int,
            sea_level: match self.sea_level {
                Some(v) => Some(v as int),
                None => None,
            },
            lines: self.lines(),
        }
    }

    fn take(&mut self, x: ChunkItem)
        ensures
            final(self).lines() == old(self).lines().with(x@),
    {
        proof { reveal(ChunkOracle::lines); }
        let ghost before = self.lines();
        match x {
            ChunkItem::Nothing => {},
            ChunkItem::Value { bits, substance } => {
                self.bits.push(bits);
                if let Some(k) = substance {
                    self.substance.push(k);
                }
            },
            ChunkItem::Grid(g) => self.aq_grid = Some(g),
            ChunkItem::Cell(c) => self.aq_cells.push(c),
            ChunkItem::Surface(s) => self.aq_surfaces.push(s),
            ChunkItem::Probe(p) => self.aq_probes.push(p),
        }
        proof {
            let (now, want) = (self.lines(), before.with(x@));
            assert(now.bits =~= want.bits);
            assert(now.substance =~= want.substance);
            assert(now.cells =~= want.cells);
            assert(now.surfaces =~= want.surfaces);
            assert(now.probes =~= want.probes);
        }
    }

    fn read_lines(s: &Vec<char>, lines: &Vec<(usize, usize)>) -> (r: Result<ChunkOracle, OracleError>)
        requires
            spans_in(lines@, s@.len() as int),
            lines@.len() >= 1,
        ensures
            match r {
                Ok(o) => chunk_lines(pieces(s@, lines@), lines@.len()) == Ok::<Lines, OracleError>(o.lines()),
                Err(e) => chunk_lines(pieces(s@, lines@), lines@.len()) == Err::<Lines, OracleError>(e),
            },
    {
        let ghost l = pieces(s@, lines@);
        let mut o = ChunkOracle {
            seed: 0,
            chunk_x: 0,
            chunk_z: 0,
            min_y: 0,
            height: 0,
            sea_level: None,
            bits: Vec::new(),
            substance: Vec::new(),
            aq_grid: None,
            aq_cells: Vec::new(),
            aq_surfaces: Vec::new(),
            aq_probes: Vec::new(),
        };
        proof {
            reveal(ChunkOracle::lines);
            let now = o.lines();
            assert(now.bits =~= Seq::empty());
            assert(now.substance =~= Seq::empty());
            assert(now.cells =~= Seq::empty());
            assert(now.surfaces =~= Seq::empty());
            assert(now.probes =~= Seq::empty());
        }
        let mut n: usize = 1;
        while n < lines.len()
            invariant
                1 <= n <= lines@.len(),
                spans_in(lines@, s@.len() as int),
                l == pieces(s@, lines@),
                l.len() == lines@.len(),
                chunk_lines(l, n as nat) == Ok::<Lines, OracleError>(o.lines()),
            decreases lines.len() - n,
        {
            proof { assert(l[n as int] == piece(s@, lines@[n as int])); }
            match read_item(s, lines[n]) {
                Err(e) => {
                    proof { lemma_chunk_fails(l, (n + 1) as nat, l.len()); }
                    return Err(e);
                },
                Ok(x) => o.take(x),
            }
            n += 1;
        }
        Ok(o)
    }

    /// Read a chunk probe.
    pub fn parse(text: &str) -> (r: Result<ChunkOracle, OracleError>)
        ensures
            match r {
                Ok(o) => chunk_probe_in(text@) == Ok::<ChunkProbe, OracleError>(o.probe()),
                Err(e) => chunk_probe_in(text@) == Err::<ChunkProbe, OracleError>(e),
            },
    {
        let s: Vec<char> = chars_of(text);
        let lines: Vec<(usize, usize)> = find_lines(&s);
        let ghost l = pieces(s@, lines@);
        if lines.len() == 0 {
            return Err(OracleError::Empty);
        }
        proof { assert(l[0] == piece(s@, lines@[0])); }
        let f: Vec<(usize, usize)> = find_fields(&s, lines[0], ' ');
        let ghost g = pieces(s@, f@);
        proof { assert forall|i: int| 0 <= i < f@.len() implies #[trigger] g[i] == piece(s@, f@[i]) by {} }
        if f.len() < 10 {
            return Err(OracleError::BadHeader);
        }
        proof {
            assert(g[0] == piece(s@, f@[0]) && g[1] == piece(s@, f@[1]) && g[2] == piece(s@, f@[2]) && g[3] == piece(s@, f@[3]) && g[4]
                == piece(s@, f@[4]));
            assert(g[5] == piece(s@, f@[5]) && g[6] == piece(s@, f@[6]) && g[7] == piece(s@, f@[7]) && g[8] == piece(s@, f@[8]) && g[9]
                == piece(s@, f@[9]));
        }
        if !reads(&s, f[0], "#") || !reads(&s, f[1], "seed") || !reads(&s, f[3], "chunk") || !reads(&s, f[6], "min_y") || !reads(
            &s, f[8], "height") {
            return Err(OracleError::BadHeader);
        }
        let sea_level: Option<i32> = match read_sea_level(&s, &f) {
            Err(e) => return Err(e),
            Ok(v) => v,
        };
        let mut o = match ChunkOracle::read_lines(&s, &lines) {
            Err(e) => return Err(e),
            Ok(o) => o,
        };
        let ghost done = o.lines();
        proof { reveal(ChunkOracle::lines); }
        if o.substance.len() != 0 && o.substance.len() != o.bits.len() {
            return Err(OracleError::Substance);
        }
        match (read_int64(&s, f[2]), read_int32(&s, f[4]), read_int32(&s, f[5]), read_int32(&s, f[7]), read_int32(&s, f[9])) {
            (Some(seed), Some(x), Some(z), Some(min_y), Some(height)) => {
                o.seed = seed;
                o.chunk_x = x;
                o.chunk_z = z;
                o.min_y = min_y;
                o.height = height;
                o.sea_level = sea_level;
                proof { assert(o.lines() == done); }
                Ok(o)
            },
            _ => Err(OracleError::Number),
        }
    }
}

fn read_sea_level(s: &Vec<char>, f: &Vec<(usize, usize)>) -> (r: Result<Option<i32>, OracleError>)
    requires
        spans_in(f@, s@.len() as int),
    ensures
        match r {
            Ok(Some(v)) => sea_level_in(pieces(s@, f@)) == Ok::<Option<int>, OracleError>(Some(v as int)),
            Ok(None) => sea_level_in(pieces(s@, f@)) == Ok::<Option<int>, OracleError>(None),
            Err(e) => sea_level_in(pieces(s@, f@)) == Err::<Option<int>, OracleError>(e),
        },
{
    let ghost g = pieces(s@, f@);
    let mut k: usize = 0;
    while k < f.len()
        invariant
            k <= f@.len(),
            spans_in(f@, s@.len() as int),
            g == pieces(s@, f@),
            word_place(g, "sea_level"@, 0) == word_place(g, "sea_level"@, k as int),
        decreases f.len() - k,
    {
        proof { assert(g[k as int] == piece(s@, f@[k as int])); }
        if reads(s, f[k], "sea_level") {
            if k >= f.len() - 1 {
                return Err(OracleError::Missing);
            }
            proof { assert(g[k + 1] == piece(s@, f@[k + 1])); }
            return match read_int32(s, f[k + 1]) {
                None => Err(OracleError::Number),
                Some(v) => Ok(Some(v)),
            };
        }
        k += 1;
    }
    Ok(None)
}

proof fn lemma_chunk_fails(lines: Seq<Seq<char>>, m: nat, n: nat)
    requires
        1 <= m <= n,
        chunk_lines(lines, m) is Err,
    ensures
        chunk_lines(lines, n) == chunk_lines(lines, m),
    decreases n,
{
    if m < n {
        lemma_chunk_fails(lines, m, (n - 1) as nat);
    }
}

/// A surface probe: one chunk between its surface and the carvers.
#[derive(Debug)]
pub struct SurfaceOracle {
    pub seed: i64,
    pub chunk_x: i32,
    pub chunk_z: i32,
    /// Whether the chunk had no structures and no blending, if the probe
    /// says so.
    pub eligible: Option<bool>,
    pub min_y: i32,
    pub height: i32,
    /// A block state per palette id.
    pub palette: Vec<String>,
    pub biomes: Vec<String>,
    pub quart_min_y: i32,
    pub quart_count: usize,
    /// A biome index per quart.
    pub quarts: Vec<u16>,
    /// First free heights over the surface and over the ocean floor, along
    /// x, then z.
    pub surface_height: Vec<i32>,
    pub floor_height: Vec<i32>,
    /// A palette id per block; the highest bit marks post-processing.
    pub blocks: Vec<u16>,
    /// Structure pieces in their flat layout, when the chunk had any.
    pub beard: Option<Vec<i32>>,
}

/// Names and values of a header.
pub type Pairs = Seq<(Seq<char>, Seq<char>)>;

/// The header of a surface probe from word `i` on. A chunk has two values.
pub open spec fn pairs_from(f: Seq<Seq<char>>, i: int, acc: Pairs) -> Result<Pairs, OracleError>
    decreases f.len() - i,
{
    if i < 0 || i + 1 >= f.len() {
        Ok(acc)
    } else if f[i] == "chunk"@ {
        if i + 2 >= f.len() {
            Err(OracleError::Missing)
        } else {
            pairs_from(f, i + 3, acc.push(("chunk_x"@, f[i + 1])).push(("chunk_z"@, f[i + 2])))
        }
    } else {
        pairs_from(f, i + 2, acc.push((f[i], f[i + 1])))
    }
}

/// The last value of a name among the first `n` pairs.
pub open spec fn value_of(p: Pairs, name: Seq<char>, n: nat) -> Option<Seq<char>>
    decreases n,
{
    if n == 0 {
        None
    } else if p[n - 1].0 == name {
        Some(p[n - 1].1)
    } else {
        value_of(p, name, (n - 1) as nat)
    }
}

/// The integer of a name.
pub open spec fn pair_int(p: Pairs, name: Seq<char>) -> Result<int, OracleError> {
    match value_of(p, name, p.len()) {
        None => Err(OracleError::Missing),
        Some(v) => match int64(v) {
            None => Err(OracleError::Number),
            Some(x) => Ok(x),
        },
    }
}

/// The names that a header must have, in the order they are looked up.
pub open spec fn needed(i: int) -> Seq<char> {
    if i == 0 {
        "chunk_x"@
    } else if i == 1 {
        "chunk_z"@
    } else if i == 2 {
        "min_y"@
    } else if i == 3 {
        "height"@
    } else if i == 4 {
        "palette"@
    } else if i == 5 {
        "biomes"@
    } else if i == 6 {
        "quart_min_y"@
    } else {
        "quart_count"@
    }
}

/// The first `n` integers that a header must have.
pub open spec fn needed_ints(p: Pairs, n: nat) -> Result<Seq<int>, OracleError>
    decreases n,
{
    if n == 0 {
        Ok(Seq::empty())
    } else {
        match needed_ints(p, (n - 1) as nat) {
            Err(e) => Err(e),
            Ok(before) => match pair_int(p, needed(n - 1)) {
                Err(e) => Err(e),
                Ok(v) => Ok(before.push(v)),
            },
        }
    }
}

/// The numbers of words; nothing where one is none.
pub open spec fn word_numbers(w: Seq<Seq<char>>, min: int, max: int) -> Option<Seq<int>> {
    if forall|i: int| 0 <= i < w.len() ==> number_in(#[trigger] w[i], 10, min, max) is Some {
        Some(Seq::new(w.len(), |i: int| number_in(w[i], 10, min, max).unwrap()))
    } else {
        None
    }
}

/// What the lines of a surface probe add up to.
pub ghost struct Surface {
    pub palette: Seq<Seq<char>>,
    pub biomes: Seq<Seq<char>>,
    pub quarts: Seq<int>,
    pub surface: Seq<int>,
    pub floor: Seq<int>,
    pub blocks: Seq<int>,
    pub beard: Option<Seq<int>>,
}

impl Surface {
    pub open spec fn none() -> Surface {
        Surface {
            palette: Seq::empty(),
            biomes: Seq::empty(),
            quarts: Seq::empty(),
            surface: Seq::new(256, |i: int| 0),
            floor: Seq::new(256, |i: int| 0),
            blocks: Seq::empty(),
            beard: None,
        }
    }

    /// With one more line.
    #[verifier::opaque]
    pub open spec fn with(self, line: Seq<char>) -> Result<Surface, OracleError> {
        if begins(line, "palette "@) {
            Ok(Surface { palette: self.palette.push(line.skip("palette "@.len() as int)), ..self })
        } else if begins(line, "beard "@) {
            match word_numbers(words_from(line.skip("beard "@.len() as int), 0), i32::MIN as int, i32::MAX as int) {
                None => Err(OracleError::Number),
                Some(v) => Ok(Surface { beard: Some(v), ..self }),
            }
        } else if begins(line, "biome "@) {
            Ok(Surface { biomes: self.biomes.push(line.skip("biome "@.len() as int)), ..self })
        } else if begins(line, "quarts "@) {
            match word_numbers(words_from(line.skip("quarts "@.len() as int), 0), 0, 65535) {
                None => Err(OracleError::Number),
                Some(v) => Ok(Surface { quarts: v, ..self }),
            }
        } else if begins(line, "heights "@) {
            match word_numbers(words_from(line.skip("heights "@.len() as int), 0), i32::MIN as int, i32::MAX as int) {
                None => Err(OracleError::Number),
                Some(v) => if v.len() != 4 || v[0] < 0 || v[1] < 0 || v[0] + v[1] * 16 >= 256 {
                    Err(OracleError::BadLine)
                } else {
                    Ok(
                        Surface {
                            surface: self.surface.update(v[0] + v[1] * 16, v[2]),
                            floor: self.floor.update(v[0] + v[1] * 16, v[3]),
                            ..self
                        },
                    )
                },
            }
        } else if line.len() != 0 {
            match number_in(line, 10, 0, 65535) {
                None => Err(OracleError::Number),
                Some(v) => Ok(Surface { blocks: self.blocks.push(v), ..self }),
            }
        } else {
            Ok(self)
        }
    }
}

/// The lines up to the `n`-th, after the first.
pub open spec fn surface_lines(lines: Seq<Seq<char>>, n: nat) -> Result<Surface, OracleError>
    decreases n,
{
    if n <= 1 {
        Ok(Surface::none())
    } else {
        match surface_lines(lines, (n - 1) as nat) {
            Err(e) => Err(e),
            Ok(before) => before.with(lines[n - 1]),
        }
    }
}

/// A surface probe as a value: seed, whether the chunk was eligible, the
/// header's integers, and lines.
pub ghost struct SurfaceProbe {
    pub seed: int,
    pub eligible: Option<bool>,
    pub ints: Seq<int>,
    pub lines: Surface,
}

pub open spec fn surface_probe_in(text: Seq<char>) -> Result<SurfaceProbe, OracleError> {
    let lines = lines_of(text);
    if lines.len() == 0 {
        Err(OracleError::Empty)
    } else {
        match pairs_from(words_from(lines[0], 0), 1, Seq::empty()) {
            Err(e) => Err(e),
            Ok(p) => match needed_ints(p, 8) {
                Err(e) => Err(e),
                Ok(ints) => match surface_lines(lines, lines.len()) {
                    Err(e) => Err(e),
                    Ok(l) => if l.palette.len() != ints[4] || l.biomes.len() != ints[5] || l.quarts.len() != 36 * ints[7]
                        || l.blocks.len() != 256 * wrapped(ints[3]) {
                        Err(OracleError::Count)
                    } else {
                        Ok(
                            SurfaceProbe {
                                seed: match pair_int(p, "seed"@) {
                                    Ok(v) => v,
                                    Err(_) => 0,
                                },
                                eligible: match pair_int(p, "eligible"@) {
                                    Ok(v) => Some(v != 0),
                                    Err(_) => None,
                                },
                                ints,
                                lines: l,
                            },
                        )
                    },
                },
            },
        }
    }
}

/// The texts of strings.
pub open spec fn string_texts(v: Seq<String>) -> Seq<Seq<char>> {
    v.map_values(|s: String| s@)
}

impl SurfaceOracle {
    #[verifier::opaque]
    pub open spec fn lines(&self) -> Surface {
        Surface {
            palette: string_texts(self.palette@),
            biomes: string_texts(self.biomes@),
            quarts: self.quarts@.map_values(|v: u16| v as int),
            surface: self.surface_height@.map_values(|v: i32| v as int),
            floor: self.floor_height@.map_values(|v: i32| v as int),
            blocks: self.blocks@.map_values(|v: u16| v as int),
            beard: match self.beard {
                Some(b) => Some(b@.map_values(|v: i32| v as int)),
                None => None,
            },
        }
    }

    /// The oracle holds what a probe says.
    pub open spec fn says(&self, p: SurfaceProbe) -> bool {
        &&& self.lines() == p.lines
        &&& self.seed == p.seed
        &&& self.eligible == p.eligible
        &&& self.chunk_x == wrapped(p.ints[0])
        &&& self.chunk_z == wrapped(p.ints[1])
        &&& self.min_y == wrapped(p.ints[2])
        &&& self.height == wrapped(p.ints[3])
        &&& self.quart_min_y == wrapped(p.ints[6])
        &&& self.quart_count == p.ints[7]
    }
}

/// Spans of a header's names and values; a name may be one of its own.
struct Names {
    names: Vec<(bool, bool, (usize, usize), (usize, usize))>,
}

/// A name: one of the two of a chunk, or a span.
spec fn name_text(s: Seq<char>, n: (bool, bool, (usize, usize), (usize, usize))) -> Seq<char> {
    if n.0 { "chunk_x"@ } else if n.1 { "chunk_z"@ } else { piece(s, n.2) }
}

impl Names {
    spec fn pairs(&self, s: Seq<char>) -> Pairs {
        self.names@.map_values(|n: (bool, bool, (usize, usize), (usize, usize))| (name_text(s, n), piece(s, n.3)))
    }

    spec fn fits(&self, n: int) -> bool {
        forall|i: int| 0 <= i < self.names@.len() ==> {
            let x = #[trigger] self.names@[i];
            x.2.0 <= x.2.1 && x.2.1 <= n && x.3.0 <= x.3.1 && x.3.1 <= n
        }
    }

    fn integer(&self, s: &Vec<char>, name: &str) -> (r: Result<i64, OracleError>)
        requires
            self.fits(s@.len() as int),
        ensures
            match r {
                Ok(v) => pair_int(self.pairs(s@), name@) == Ok::<int, OracleError>(v as int),
                Err(e) => pair_int(self.pairs(s@), name@) == Err::<int, OracleError>(e),
            },
    {
        let ghost p = self.pairs(s@);
        let mut n: usize = self.names.len();
        while n > 0
            invariant
                n <= self.names@.len(),
                self.fits(s@.len() as int),
                p == self.pairs(s@),
                value_of(p, name@, p.len()) == value_of(p, name@, n as nat),
            decreases n,
        {
            let x = self.names[n - 1];
            proof { assert(p[n - 1] == (name_text(s@, x), piece(s@, x.3))); }
            let same: bool = if x.0 {
                same_text(name, "chunk_x")
            } else if x.1 {
                same_text(name, "chunk_z")
            } else {
                reads(s, x.2, name)
            };
            if same {
                return match read_int64(s, x.3) {
                    None => Err(OracleError::Number),
                    Some(v) => Ok(v),
                };
            }
            n -= 1;
        }
        Err(OracleError::Missing)
    }

    fn read(s: &Vec<char>, f: &Vec<(usize, usize)>) -> (r: Result<Names, OracleError>)
        requires
            spans_in(f@, s@.len() as int),
        ensures
            match r {
                Ok(n) => n.fits(s@.len() as int) && pairs_from(pieces(s@, f@), 1, Seq::empty()) == Ok::<Pairs, OracleError>(
                    n.pairs(s@)),
                Err(e) => pairs_from(pieces(s@, f@), 1, Seq::empty()) == Err::<Pairs, OracleError>(e),
            },
    {
        let ghost g = pieces(s@, f@);
        let mut n = Names { names: Vec::new() };
        let total: usize = f.len();
        let mut i: usize = 1;
        proof { assert(n.pairs(s@) =~= Seq::empty()); }
        while i < total && total - i >= 2
            invariant
                1 <= i,
                total == f@.len(),
                i <= total || total == 0,
                spans_in(f@, s@.len() as int),
                g == pieces(s@, f@),
                n.fits(s@.len() as int),
                pairs_from(g, 1, Seq::empty()) == pairs_from(g, i as int, n.pairs(s@)),
            decreases total - i,
        {
            proof { assert(g[i as int] == piece(s@, f@[i as int]) && g[i + 1] == piece(s@, f@[i + 1])); }
            let ghost before = n.pairs(s@);
            if reads(s, f[i], "chunk") {
                if total - i < 3 {
                    return Err(OracleError::Missing);
                }
                proof { assert(g[i + 2] == piece(s@, f@[i + 2])); }
                n.names.push((true, false, f[i], f[i + 1]));
                n.names.push((false, true, f[i], f[i + 2]));
                proof {
                    assert(n.pairs(s@) =~= before.push(("chunk_x"@, g[i + 1])).push(("chunk_z"@, g[i + 2])));
                }
                i += 3;
            } else {
                n.names.push((false, false, f[i], f[i + 1]));
                proof { assert(n.pairs(s@) =~= before.push((g[i as int], g[i + 1]))); }
                i += 2;
            }
        }
        Ok(n)
    }
}

fn needed_name(i: usize) -> (r: &'static str)
    ensures
        r@ == needed(i as int),
{
    if i == 0 {
        "chunk_x"
    } else if i == 1 {
        "chunk_z"
    } else if i == 2 {
        "min_y"
    } else if i == 3 {
        "height"
    } else if i == 4 {
        "palette"
    } else if i == 5 {
        "biomes"
    } else if i == 6 {
        "quart_min_y"
    } else {
        "quart_count"
    }
}

proof fn lemma_needed_fails(p: Pairs, m: nat, n: nat)
    requires
        m <= n,
        needed_ints(p, m) is Err,
    ensures
        needed_ints(p, n) == needed_ints(p, m),
    decreases n,
{
    if m < n {
        lemma_needed_fails(p, m, (n - 1) as nat);
    }
}

/// Numbers of 64 bits as integers.
spec fn wide_ints(v: Seq<i64>) -> Seq<int> {
    v.map_values(|x: i64| x as int)
}

fn read_needed(s: &Vec<char>, names: &Names) -> (r: Result<Vec<i64>, OracleError>)
    requires
        names.fits(s@.len() as int),
    ensures
        match r {
            Ok(v) => v@.len() == 8 && needed_ints(names.pairs(s@), 8) == Ok::<Seq<int>, OracleError>(wide_ints(v@)),
            Err(e) => needed_ints(names.pairs(s@), 8) == Err::<Seq<int>, OracleError>(e),
        },
{
    let ghost p = names.pairs(s@);
    let mut v: Vec<i64> = Vec::new();
    let mut i: usize = 0;
    proof { assert(wide_ints(v@) =~= Seq::empty()); }
    while i < 8
        invariant
            i <= 8,
            names.fits(s@.len() as int),
            p == names.pairs(s@),
            v@.len() == i,
            needed_ints(p, i as nat) == Ok::<Seq<int>, OracleError>(wide_ints(v@)),
        decreases 8 - i,
    {
        let ghost before = v@;
        match names.integer(s, needed_name(i)) {
            Err(e) => {
                proof { lemma_needed_fails(p, (i + 1) as nat, 8); }
                return Err(e);
            },
            Ok(x) => {
                v.push(x);
                proof { assert(wide_ints(v@) =~= wide_ints(before).push(x as int)); }
            },
        }
        i += 1;
    }
    Ok(v)
}

fn read_ints(s: &Vec<char>, p: (usize, usize)) -> (r: Option<Vec<i32>>)
    requires
        p.0 <= p.1 <= s@.len(),
    ensures
        ({
            let x = word_numbers(words_from(piece(s@, p), 0), i32::MIN as int, i32::MAX as int);
            &&& r is Some <==> x is Some
            &&& r matches Some(v) ==> x == Some(v@.map_values(|v: i32| v as int))
        }),
{
    let w: Vec<(usize, usize)> = find_words(s, p);
    let ghost g = pieces(s@, w@);
    let mut v: Vec<i32> = Vec::new();
    let mut i: usize = 0;
    while i < w.len()
        invariant
            i <= w@.len(),
            spans_in(w@, s@.len() as int),
            g == pieces(s@, w@),
            g == words_from(piece(s@, p), 0),
            v@.len() == i,
            forall|k: int| 0 <= k < i ==> number_in(#[trigger] g[k], 10, i32::MIN as int, i32::MAX as int) == Some(v@[k] as int),
        decreases w.len() - i,
    {
        proof { assert(g[i as int] == piece(s@, w@[i as int])); }
        match read_int32(s, w[i]) {
            None => {
                proof { assert(number_in(g[i as int], 10, i32::MIN as int, i32::MAX as int) is None); }
                return None;
            },
            Some(x) => v.push(x),
        }
        i += 1;
    }
    proof {
        let x = word_numbers(g, i32::MIN as int, i32::MAX as int);
        assert(x->Some_0 =~= v@.map_values(|v: i32| v as int));
    }
    Some(v)
}

fn read_shorts(s: &Vec<char>, p: (usize, usize)) -> (r: Option<Vec<u16>>)
    requires
        p.0 <= p.1 <= s@.len(),
    ensures
        ({
            let x = word_numbers(words_from(piece(s@, p), 0), 0, 65535);
            &&& r is Some <==> x is Some
            &&& r matches Some(v) ==> x == Some(v@.map_values(|v: u16| v as int))
        }),
{
    let w: Vec<(usize, usize)> = find_words(s, p);
    let ghost g = pieces(s@, w@);
    let mut v: Vec<u16> = Vec::new();
    let mut i: usize = 0;
    while i < w.len()
        invariant
            i <= w@.len(),
            spans_in(w@, s@.len() as int),
            g == pieces(s@, w@),
            g == words_from(piece(s@, p), 0),
            v@.len() == i,
            forall|k: int| 0 <= k < i ==> number_in(#[trigger] g[k], 10, 0, 65535) == Some(v@[k] as int),
        decreases w.len() - i,
    {
        proof { assert(g[i as int] == piece(s@, w@[i as int])); }
        match read_number(s, w[i], 10, 0, 65535) {
            None => {
                proof { assert(number_in(g[i as int], 10, 0, 65535) is None); }
                return None;
            },
            Some(x) => v.push(x as u16),
        }
        i += 1;
    }
    proof {
        let x = word_numbers(g, 0, 65535);
        assert(x->Some_0 =~= v@.map_values(|v: u16| v as int));
    }
    Some(v)
}

proof fn lemma_surface_fails(lines: Seq<Seq<char>>, m: nat, n: nat)
    requires
        1 <= m <= n,
        surface_lines(lines, m) is Err,
    ensures
        surface_lines(lines, n) == surface_lines(lines, m),
    decreases n,
{
    if m < n {
        lemma_surface_fails(lines, m, (n - 1) as nat);
    }
}

impl SurfaceOracle {
    spec fn level(&self) -> bool {
        self.surface_height@.len() == 256 && self.floor_height@.len() == 256
    }

    /// Take one more line.
    fn take(&mut self, s: &Vec<char>, p: (usize, usize)) -> (r: Result<(), OracleError>)
        requires
            p.0 <= p.1 <= s@.len(),
            old(self).level(),
        ensures
            match r {
                Ok(_) => final(self).level() && old(self).lines().with(piece(s@, p)) == Ok::<Surface, OracleError>(
                    final(self).lines()),
                Err(e) => old(self).lines().with(piece(s@, p)) == Err::<Surface, OracleError>(e),
            },
    {
        proof {
            reveal(Surface::with);
            reveal(SurfaceOracle::lines);
        }
        let ghost before = self.lines();
        let ghost line = piece(s@, p);
        if let Some(q) = after_prefix(s, p, "palette ") {
            self.palette.push(text_between(s, q.0, q.1));
            proof { assert(self.lines().palette =~= before.palette.push(piece(s@, q))); }
        } else if let Some(q) = after_prefix(s, p, "beard ") {
            match read_ints(s, q) {
                None => return Err(OracleError::Number),
                Some(v) => self.beard = Some(v),
            }
        } else if let Some(q) = after_prefix(s, p, "biome ") {
            self.biomes.push(text_between(s, q.0, q.1));
            proof { assert(self.lines().biomes =~= before.biomes.push(piece(s@, q))); }
        } else if let Some(q) = after_prefix(s, p, "quarts ") {
            match read_shorts(s, q) {
                None => return Err(OracleError::Number),
                Some(v) => self.quarts = v,
            }
        } else if let Some(q) = after_prefix(s, p, "heights ") {
            match read_ints(s, q) {
                None => return Err(OracleError::Number),
                Some(v) => {
                    let ghost w = v@.map_values(|v: i32| v as int);
                    if v.len() != 4 || v[0] < 0 || v[1] < 0 || v[0] as i64 + v[1] as i64 * 16 >= 256 {
                        return Err(OracleError::BadLine);
                    }
                    let c: usize = (v[0] + v[1] * 16) as usize;
                    self.surface_height.set(c, v[2]);
                    self.floor_height.set(c, v[3]);
                    proof {
                        assert(w[0] == v@[0] && w[1] == v@[1] && w[2] == v@[2] && w[3] == v@[3]);
                        assert(self.lines().surface =~= before.surface.update(c as int, w[2]));
                        assert(self.lines().floor =~= before.floor.update(c as int, w[3]));
                    }
                },
            }
        } else if p.0 != p.1 {
            match read_number(s, p, 10, 0, 65535) {
                None => return Err(OracleError::Number),
                Some(v) => {
                    self.blocks.push(v as u16);
                    proof { assert(self.lines().blocks =~= before.blocks.push(v as int)); }
                },
            }
        }
        Ok(())
    }

    fn read_lines(s: &Vec<char>, lines: &Vec<(usize, usize)>) -> (r: Result<SurfaceOracle, OracleError>)
        requires
            spans_in(lines@, s@.len() as int),
            lines@.len() >= 1,
        ensures
            match r {
                Ok(o) => surface_lines(pieces(s@, lines@), lines@.len()) == Ok::<Surface, OracleError>(o.lines()),
                Err(e) => surface_lines(pieces(s@, lines@), lines@.len()) == Err::<Surface, OracleError>(e),
            },
    {
        let ghost l = pieces(s@, lines@);
        let mut flat: Vec<i32> = Vec::new();
        let mut flat2: Vec<i32> = Vec::new();
        let mut i: usize = 0;
        while i < 256
            invariant
                i <= 256,
                flat@.len() == i && flat2@.len() == i,
                forall|k: int| 0 <= k < i ==> #[trigger] flat@[k] == 0,
                forall|k: int| 0 <= k < i ==> #[trigger] flat2@[k] == 0,
            decreases 256 - i,
        {
            flat.push(0);
            flat2.push(0);
            i += 1;
        }
        let mut o = SurfaceOracle {
            seed: 0,
            chunk_x: 0,
            chunk_z: 0,
            eligible: None,
            min_y: 0,
            height: 0,
            palette: Vec::new(),
            biomes: Vec::new(),
            quart_min_y: 0,
            quart_count: 0,
            quarts: Vec::new(),
            surface_height: flat,
            floor_height: flat2,
            blocks: Vec::new(),
            beard: None,
        };
        proof {
            reveal(SurfaceOracle::lines);
            let (now, want) = (o.lines(), Surface::none());
            assert(now.palette =~= want.palette);
            assert(now.biomes =~= want.biomes);
            assert(now.quarts =~= want.quarts);
            assert(now.surface =~= want.surface);
            assert(now.floor =~= want.floor);
            assert(now.blocks =~= want.blocks);
        }
        let mut n: usize = 1;
        while n < lines.len()
            invariant
                1 <= n <= lines@.len(),
                spans_in(lines@, s@.len() as int),
                l == pieces(s@, lines@),
                l.len() == lines@.len(),
                o.level(),
                surface_lines(l, n as nat) == Ok::<Surface, OracleError>(o.lines()),
            decreases lines.len() - n,
        {
            proof { assert(l[n as int] == piece(s@, lines@[n as int])); }
            match o.take(s, lines[n]) {
                Err(e) => {
                    proof { lemma_surface_fails(l, (n + 1) as nat, l.len()); }
                    return Err(e);
                },
                Ok(_) => {},
            }
            n += 1;
        }
        Ok(o)
    }

    /// Read a surface probe.
    pub fn parse(text: &str) -> (r: Result<SurfaceOracle, OracleError>)
        ensures
            match r {
                Ok(o) => surface_probe_in(text@) matches Ok(p) && o.says(p),
                Err(e) => surface_probe_in(text@) == Err::<SurfaceProbe, OracleError>(e),
            },
    {
        let s: Vec<char> = chars_of(text);
        let lines: Vec<(usize, usize)> = find_lines(&s);
        let ghost l = pieces(s@, lines@);
        if lines.len() == 0 {
            return Err(OracleError::Empty);
        }
        proof { assert(l[0] == piece(s@, lines@[0])); }
        let f: Vec<(usize, usize)> = find_words(&s, lines[0]);
        let names = match Names::read(&s, &f) {
            Err(e) => return Err(e),
            Ok(n) => n,
        };
        let ints: Vec<i64> = match read_needed(&s, &names) {
            Err(e) => return Err(e),
            Ok(v) => v,
        };
        let ghost w = wide_ints(ints@);
        proof {
            assert(w[0] == ints@[0] && w[1] == ints@[1] && w[2] == ints@[2] && w[3] == ints@[3]);
            assert(w[4] == ints@[4] && w[5] == ints@[5] && w[6] == ints@[6] && w[7] == ints@[7]);
        }
        let seed: i64 = match names.integer(&s, "seed") {
            Ok(v) => v,
            Err(_) => 0,
        };
        let eligible: Option<bool> = match names.integer(&s, "eligible") {
            Ok(v) => Some(v != 0),
            Err(_) => None,
        };
        let mut o = match SurfaceOracle::read_lines(&s, &lines) {
            Err(e) => return Err(e),
            Ok(o) => o,
        };
        let height: i32 = wrap(ints[3] as i128);
        let ghost done = o.lines();
        proof { reveal(SurfaceOracle::lines); }
        if o.palette.len() as i128 != ints[4] as i128 || o.biomes.len() as i128 != ints[5] as i128 || o.quarts.len() as i128 != 36
            * ints[7] as i128 || o.blocks.len() as i128 != 256 * height as i128 {
            return Err(OracleError::Count);
        }
        o.seed = seed;
        o.eligible = eligible;
        o.chunk_x = wrap(ints[0] as i128);
        o.chunk_z = wrap(ints[1] as i128);
        o.min_y = wrap(ints[2] as i128);
        o.height = height;
        o.quart_min_y = wrap(ints[6] as i128);
        o.quart_count = ints[7] as usize;
        proof { assert(o.lines() == done); }
        Ok(o)
    }
}

} // verus!
