//! The byte form of a density function tree.

use vstd::prelude::*;
use vstd::utf8::{decode_utf8, encode_utf8, valid_utf8};
use crate::arith::{answers, Ask};
use crate::bytes::{capacity, from_le, le, lemma_capacities, lemma_signed32, read_le};
use crate::density::{
    sound, sound_spline, spline_bounds, DensityFunction, DfSpline, LazyBlendedNoise, LazyEndIsland, MarkerKind,
    RarityValueMapper,
};
use crate::opcode;

verus! {

/// Why bytes are not a tree.
#[derive(Clone, Copy, Debug, PartialEq, Eq, Structural)]
pub enum ParseError {
    TruncatedByte,
    TruncatedShort,
    TruncatedInt,
    TruncatedSingle,
    TruncatedDouble,
    /// A name of this many bytes runs over the end.
    TruncatedName(usize),
    /// A name is not UTF-8.
    InvalidName,
    UnknownRarity(u8),
    UnknownMarker(u8),
    UnknownOpcode { opcode: u8, offset: usize },
    UnknownSplineOpcode { opcode: u8, offset: usize },
    /// A spline without a point.
    EmptySpline,
    /// Bytes are left after the tree.
    Trailing { parsed: usize, len: usize },
}

/// A name: its length in two bytes, then its characters.
pub open spec fn encode_name(name: Seq<char>) -> Seq<u8> {
    le(encode_utf8(name).len() as int, 2) + encode_utf8(name)
}

pub open spec fn encode_marker(kind: MarkerKind) -> u8 {
    match kind {
        MarkerKind::Interpolated => opcode::MARKER_INTERPOLATED,
        MarkerKind::FlatCache => opcode::MARKER_FLAT_CACHE,
        MarkerKind::Cache2D => opcode::MARKER_CACHE_2D,
        MarkerKind::CacheOnce => opcode::MARKER_CACHE_ONCE,
        MarkerKind::CacheAllInCell => opcode::MARKER_CACHE_ALL_IN_CELL,
    }
}

pub open spec fn encode_rarity(r: RarityValueMapper) -> u8 {
    match r {
        RarityValueMapper::Type1 => opcode::RARITY_TYPE1,
        RarityValueMapper::Type2 => opcode::RARITY_TYPE2,
    }
}

/// A signed 32-bit number.
pub open spec fn encode_int(v: i32) -> Seq<u8> {
    le((v as u32) as int, 4)
}

/// Single precision numbers, one after the other.
pub open spec fn encode_singles(s: Seq<u32>) -> Seq<u8>
    decreases s.len(),
{
    if s.len() == 0 { Seq::empty() } else { encode_singles(s.drop_last()) + le(s.last() as int, 4) }
}

/// Double precision numbers, one after the other.
pub open spec fn encode_doubles(s: Seq<u64>) -> Seq<u8>
    decreases s.len(),
{
    if s.len() == 0 { Seq::empty() } else { encode_doubles(s.drop_last()) + le(s.last() as int, 8) }
}

/// The bytes of a tree.
pub open spec fn encode(df: DensityFunction) -> Seq<u8>
    decreases df, 0nat,
{
    match df {
        DensityFunction::Constant(v) => seq![opcode::CONSTANT] + le(v as int, 8),
        DensityFunction::Add(a, b) => seq![opcode::ADD] + encode(*a) + encode(*b),
        DensityFunction::Mul(a, b) => seq![opcode::MUL] + encode(*a) + encode(*b),
        DensityFunction::Min(a, b) => seq![opcode::MIN] + encode(*a) + encode(*b),
        DensityFunction::Max(a, b) => seq![opcode::MAX] + encode(*a) + encode(*b),
        DensityFunction::Abs(x) => seq![opcode::ABS] + encode(*x),
        DensityFunction::Square(x) => seq![opcode::SQUARE] + encode(*x),
        DensityFunction::Cube(x) => seq![opcode::CUBE] + encode(*x),
        DensityFunction::HalfNegative(x) => seq![opcode::HALF_NEGATIVE] + encode(*x),
        DensityFunction::QuarterNegative(x) => seq![opcode::QUARTER_NEGATIVE] + encode(*x),
        DensityFunction::Invert(x) => seq![opcode::INVERT] + encode(*x),
        DensityFunction::Squeeze(x) => seq![opcode::SQUEEZE] + encode(*x),
        DensityFunction::Clamp { input, min, max } => {
            seq![opcode::CLAMP] + encode(*input) + le(min as int, 8) + le(max as int, 8)
        },
        DensityFunction::YClampedGradient { from_y, to_y, from_value, to_value } => {
            seq![opcode::Y_CLAMPED_GRADIENT] + encode_int(from_y) + encode_int(to_y) + le(from_value as int, 8) + le(
                to_value as int, 8)
        },
        DensityFunction::RangeChoice { input, min_inclusive, max_exclusive, when_in_range, when_out_of_range } => {
            seq![opcode::RANGE_CHOICE] + encode(*input) + le(min_inclusive as int, 8) + le(max_exclusive as int, 8)
                + encode(*when_in_range) + encode(*when_out_of_range)
        },
        DensityFunction::Marker { kind, wrapped } => seq![opcode::MARKER, encode_marker(kind)] + encode(*wrapped),
        DensityFunction::Noise { noise_name, xz_scale, y_scale } => {
            seq![opcode::NOISE] + encode_name(noise_name@) + le(xz_scale as int, 8) + le(y_scale as int, 8)
        },
        DensityFunction::Shift { noise_name } => seq![opcode::SHIFT] + encode_name(noise_name@),
        DensityFunction::ShiftA { noise_name } => seq![opcode::SHIFT_A] + encode_name(noise_name@),
        DensityFunction::ShiftB { noise_name } => seq![opcode::SHIFT_B] + encode_name(noise_name@),
        DensityFunction::ShiftedNoise { shift_x, shift_y, shift_z, xz_scale, y_scale, noise_name } => {
            seq![opcode::SHIFTED_NOISE] + encode(*shift_x) + encode(*shift_y) + encode(*shift_z) + le(
                xz_scale as int, 8) + le(y_scale as int, 8) + encode_name(noise_name@)
        },
        DensityFunction::WeirdScaledSampler { input, noise_name, rarity_value_mapper } => {
            seq![opcode::WEIRD_SCALED_SAMPLER] + encode(*input) + encode_name(noise_name@) + seq![
                encode_rarity(rarity_value_mapper),
            ]
        },
        DensityFunction::Spline(s) => seq![opcode::SPLINE] + encode_spline(*s),
        DensityFunction::BlendedNoise(b) => {
            seq![opcode::BLENDED_NOISE] + le(b.xz_scale as int, 8) + le(b.y_scale as int, 8) + le(
                b.xz_factor as int, 8) + le(b.y_factor as int, 8) + le(b.smear_scale_multiplier as int, 8)
        },
        DensityFunction::FindTopSurface { density, upper_bound, lower_bound, cell_height } => {
            seq![opcode::FIND_TOP_SURFACE] + encode(*density) + encode(*upper_bound) + encode_int(lower_bound)
                + encode_int(cell_height)
        },
        DensityFunction::EndIsland(_) => seq![opcode::END_ISLAND],
        DensityFunction::IntervalSelect { input, thresholds, functions } => {
            seq![opcode::INTERVAL_SELECT] + encode(*input) + le(thresholds@.len() as int, 2) + encode_doubles(
                thresholds@) + encode_all(functions@, functions@.len())
        },
    }
}

/// The bytes of the first `n` trees.
pub open spec fn encode_all(s: Seq<DensityFunction>, n: nat) -> Seq<u8>
    decreases s, n,
{
    if n == 0 || n > s.len() { Seq::empty() } else { encode_all(s, (n - 1) as nat) + encode(s[n - 1]) }
}

/// The bytes of a spline.
pub open spec fn encode_spline(s: DfSpline) -> Seq<u8>
    decreases s, 0nat,
{
    match s {
        DfSpline::Constant(v) => seq![opcode::SPLINE_CONSTANT] + le(v as int, 4),
        DfSpline::Multipoint { coordinate, locations, values, derivatives, .. } => {
            seq![opcode::SPLINE_MULTIPOINT] + encode(*coordinate) + le(locations@.len() as int, 2) + encode_singles(
                locations@) + encode_singles(derivatives@) + encode_splines(values@, values@.len())
        },
    }
}

/// The bytes of the first `n` splines.
pub open spec fn encode_splines(s: Seq<DfSpline>, n: nat) -> Seq<u8>
    decreases s, n,
{
    if n == 0 || n > s.len() { Seq::empty() } else { encode_splines(s, (n - 1) as nat) + encode_spline(s[n - 1]) }
}

/// Where a number of `n` bytes from `at` ends.
pub open spec fn number_end(b: Seq<u8>, at: int, n: nat, e: ParseError) -> Result<int, ParseError> {
    if at + n <= b.len() { Ok(at + n) } else { Err(e) }
}

/// Where a name from `at` ends.
pub open spec fn name_end(b: Seq<u8>, at: int) -> Result<int, ParseError> {
    if at + 2 > b.len() {
        Err(ParseError::TruncatedShort)
    } else {
        let n = from_le(b.subrange(at as int, at + 2));
        if at + 2 + n > b.len() {
            Err(ParseError::TruncatedName(n as usize))
        } else if !valid_utf8(b.subrange(at + 2, at + 2 + n)) {
            Err(ParseError::InvalidName)
        } else {
            Ok(at + 2 + n)
        }
    }
}

/// Where a tree from `at` ends, or the first thing that is wrong with it.
pub open spec fn node_end(b: Seq<u8>, at: int) -> Result<int, ParseError>
    decreases b.len() - at, 0nat, 0nat,
{
    if at >= b.len() {
        Err(ParseError::TruncatedByte)
    } else {
        let tag = b[at as int];
        if tag == opcode::CONSTANT {
            number_end(b, at + 1, 8, ParseError::TruncatedDouble)
        } else if opcode::ADD <= tag <= opcode::MAX {
            nodes_end(b, at + 1, 2)
        } else if opcode::ABS <= tag <= opcode::SQUEEZE {
            nodes_end(b, at + 1, 1)
        } else if tag == opcode::CLAMP {
            match nodes_end(b, at + 1, 1) {
                Ok(e) => number_end(b, e, 16, ParseError::TruncatedDouble),
                Err(x) => Err(x),
            }
        } else if tag == opcode::Y_CLAMPED_GRADIENT {
            match number_end(b, at + 1, 8, ParseError::TruncatedInt) {
                Ok(e) => number_end(b, e, 16, ParseError::TruncatedDouble),
                Err(x) => Err(x),
            }
        } else if tag == opcode::RANGE_CHOICE {
            match nodes_end(b, at + 1, 1) {
                Ok(e) => match number_end(b, e, 16, ParseError::TruncatedDouble) {
                    Ok(d) => if d > at { nodes_end(b, d, 2) } else { Err(ParseError::TruncatedByte) },
                    Err(x) => Err(x),
                },
                Err(x) => Err(x),
            }
        } else if tag == opcode::MARKER {
            if at + 1 >= b.len() {
                Err(ParseError::TruncatedByte)
            } else if b[at + 1] > opcode::MARKER_CACHE_ALL_IN_CELL {
                Err(ParseError::UnknownMarker(b[at + 1]))
            } else {
                nodes_end(b, at + 2, 1)
            }
        } else if tag == opcode::NOISE {
            match name_end(b, at + 1) {
                Ok(e) => number_end(b, e, 16, ParseError::TruncatedDouble),
                Err(x) => Err(x),
            }
        } else if opcode::SHIFT <= tag <= opcode::SHIFT_B {
            name_end(b, at + 1)
        } else if tag == opcode::SHIFTED_NOISE {
            match nodes_end(b, at + 1, 3) {
                Ok(e) => match number_end(b, e, 16, ParseError::TruncatedDouble) {
                    Ok(d) => name_end(b, d),
                    Err(x) => Err(x),
                },
                Err(x) => Err(x),
            }
        } else if tag == opcode::WEIRD_SCALED_SAMPLER {
            match nodes_end(b, at + 1, 1) {
                Ok(e) => match name_end(b, e) {
                    Ok(d) => if d >= b.len() {
                        Err(ParseError::TruncatedByte)
                    } else if b[d as int] > opcode::RARITY_TYPE2 {
                        Err(ParseError::UnknownRarity(b[d as int]))
                    } else {
                        Ok(d + 1)
                    },
                    Err(x) => Err(x),
                },
                Err(x) => Err(x),
            }
        } else if tag == opcode::SPLINE {
            splines_end(b, at + 1, 1)
        } else if tag == opcode::BLENDED_NOISE {
            number_end(b, at + 1, 40, ParseError::TruncatedDouble)
        } else if tag == opcode::FIND_TOP_SURFACE {
            match nodes_end(b, at + 1, 2) {
                Ok(e) => number_end(b, e, 8, ParseError::TruncatedInt),
                Err(x) => Err(x),
            }
        } else if tag == opcode::END_ISLAND {
            Ok(at + 1)
        } else if tag == opcode::INTERVAL_SELECT {
            match nodes_end(b, at + 1, 1) {
                Ok(e) => if e + 2 > b.len() {
                    Err(ParseError::TruncatedShort)
                } else {
                    let n = from_le(b.subrange(e as int, e + 2)) as nat;
                    match number_end(b, e + 2, 8 * n, ParseError::TruncatedDouble) {
                        Ok(d) => if d > at { nodes_end(b, d, n + 1) } else { Err(ParseError::TruncatedByte) },
                        Err(x) => Err(x),
                    }
                },
                Err(x) => Err(x),
            }
        } else {
            Err(ParseError::UnknownOpcode { opcode: tag, offset: at as usize })
        }
    }
}

/// Where `k` trees from `at` end.
pub open spec fn nodes_end(b: Seq<u8>, at: int, k: nat) -> Result<int, ParseError>
    decreases b.len() - at, 1nat, k,
{
    if k == 0 {
        Ok(at)
    } else {
        match node_end(b, at) {
            Ok(e) => if at < e <= b.len() { nodes_end(b, e, (k - 1) as nat) } else { Err(ParseError::TruncatedByte) },
            Err(x) => Err(x),
        }
    }
}

/// Where a spline from `at` ends.
pub open spec fn spline_end(b: Seq<u8>, at: int) -> Result<int, ParseError>
    decreases b.len() - at, 0nat, 0nat,
{
    if at >= b.len() {
        Err(ParseError::TruncatedByte)
    } else if b[at as int] == opcode::SPLINE_CONSTANT {
        number_end(b, at + 1, 4, ParseError::TruncatedSingle)
    } else if b[at as int] == opcode::SPLINE_MULTIPOINT {
        match nodes_end(b, at + 1, 1) {
            Ok(e) => if e + 2 > b.len() {
                Err(ParseError::TruncatedShort)
            } else {
                let n = from_le(b.subrange(e as int, e + 2)) as nat;
                match number_end(b, e + 2, 8 * n, ParseError::TruncatedSingle) {
                    Ok(d) => if n == 0 {
                        Err(ParseError::EmptySpline)
                    } else if d > at {
                        splines_end(b, d, n)
                    } else {
                        Err(ParseError::TruncatedByte)
                    },
                    Err(x) => Err(x),
                }
            },
            Err(x) => Err(x),
        }
    } else {
        Err(ParseError::UnknownSplineOpcode { opcode: b[at as int], offset: at as usize })
    }
}

/// Where `k` splines from `at` end.
pub open spec fn splines_end(b: Seq<u8>, at: int, k: nat) -> Result<int, ParseError>
    decreases b.len() - at, 1nat, k,
{
    if k == 0 {
        Ok(at)
    } else {
        match spline_end(b, at) {
            Ok(e) => if at < e <= b.len() { splines_end(b, e, (k - 1) as nat) } else { Err(ParseError::TruncatedByte) },
            Err(x) => Err(x),
        }
    }
}

/// Every spline of the tree carries the bounds of its knots.
pub open spec fn bounded<F: Fn(Ask) -> u64>(f: F, df: DensityFunction) -> bool
    decreases df,
{
    match df {
        DensityFunction::Add(a, b) => bounded(f, *a) && bounded(f, *b),
        DensityFunction::Mul(a, b) => bounded(f, *a) && bounded(f, *b),
        DensityFunction::Min(a, b) => bounded(f, *a) && bounded(f, *b),
        DensityFunction::Max(a, b) => bounded(f, *a) && bounded(f, *b),
        DensityFunction::Abs(x) => bounded(f, *x),
        DensityFunction::Square(x) => bounded(f, *x),
        DensityFunction::Cube(x) => bounded(f, *x),
        DensityFunction::HalfNegative(x) => bounded(f, *x),
        DensityFunction::QuarterNegative(x) => bounded(f, *x),
        DensityFunction::Invert(x) => bounded(f, *x),
        DensityFunction::Squeeze(x) => bounded(f, *x),
        DensityFunction::Clamp { input, .. } => bounded(f, *input),
        DensityFunction::RangeChoice { input, when_in_range, when_out_of_range, .. } => {
            bounded(f, *input) && bounded(f, *when_in_range) && bounded(f, *when_out_of_range)
        },
        DensityFunction::Marker { wrapped, .. } => bounded(f, *wrapped),
        DensityFunction::ShiftedNoise { shift_x, shift_y, shift_z, .. } => {
            bounded(f, *shift_x) && bounded(f, *shift_y) && bounded(f, *shift_z)
        },
        DensityFunction::WeirdScaledSampler { input, .. } => bounded(f, *input),
        DensityFunction::IntervalSelect { input, functions, .. } => {
            &&& bounded(f, *input)
            &&& forall|i: int| 0 <= i < functions@.len() ==> bounded(f, #[trigger] functions@[i])
        },
        DensityFunction::Spline(s) => bounded_spline(f, *s),
        DensityFunction::FindTopSurface { density, upper_bound, .. } => bounded(f, *density) && bounded(f, *upper_bound),
        _ => true,
    }
}

/// The spline and the splines in it carry the bounds of their knots.
pub open spec fn bounded_spline<F: Fn(Ask) -> u64>(f: F, s: DfSpline) -> bool
    decreases s,
{
    match s {
        DfSpline::Constant(_) => true,
        DfSpline::Multipoint { coordinate, locations, values, derivatives, min_value, max_value } => {
            &&& bounded(f, *coordinate)
            &&& forall|i: int| 0 <= i < values@.len() ==> bounded_spline(f, #[trigger] values@[i])
            &&& (min_value, max_value) == spline_bounds(f, *coordinate, locations@, values@, derivatives@)
        },
    }
}

/// What reading a part from `at` gives: where the grammar says it ends and
/// what is encoded there, or the grammar's error.
pub open spec fn read_well<T>(
    r: Result<(T, usize), ParseError>, b: Seq<u8>, at: int, end: Result<int, ParseError>, bytes_of: spec_fn(T) -> Seq<u8>,
) -> bool {
    match r {
        Ok((v, e)) => end == Ok::<int, ParseError>(e as int) && at < e <= b.len() && b.subrange(at, e as int) == bytes_of(v),
        Err(x) => end == Err::<int, ParseError>(x),
    }
}

/// `std::str::from_utf8`, copied to a string: the text that UTF-8 bytes
/// spell, or nothing when they are not UTF-8.
#[verifier::external_body]
fn utf8_text(bytes: &[u8]) -> (r: Option<String>)
    ensures
        r is Some <==> valid_utf8(bytes@),
        r matches Some(s) ==> s@ == decode_utf8(bytes@),
{
    std::str::from_utf8(bytes).ok().map(|s| s.to_string())
}

/// A number of 4 or 8 bytes.
fn read_number(bytes: &[u8], at: usize, n: usize, e: ParseError) -> (r: Result<(u64, usize), ParseError>)
    requires
        n == 4 || n == 8,
        at <= bytes@.len(),
    ensures
        match r {
            Ok((v, end)) => {
                &&& number_end(bytes@, at as int, n as nat, e) == Ok::<int, ParseError>(end as int)
                &&& end == at + n
                &&& end <= bytes@.len()
                &&& le(v as int, n as nat) == bytes@.subrange(at as int, end as int)
                &&& v < capacity(n as nat)
            },
            Err(x) => x == e && at + n > bytes@.len(),
        },
{
    if bytes.len() - at < n {
        return Err(e);
    }
    let v: u64 = read_le(bytes, at, n);
    Ok((v, at + n))
}

fn read_double(bytes: &[u8], at: usize) -> (r: Result<(u64, usize), ParseError>)
    requires
        at <= bytes@.len(),
    ensures
        read_well(
            r, bytes@, at as int, number_end(bytes@, at as int, 8, ParseError::TruncatedDouble),
            |v: u64| le(v as int, 8)),
        r matches Ok((_, e)) ==> e == at + 8,
        r is Err ==> at + 8 > bytes@.len(),
{
    read_number(bytes, at, 8, ParseError::TruncatedDouble)
}

fn read_int(bytes: &[u8], at: usize) -> (r: Result<(i32, usize), ParseError>)
    requires
        at <= bytes@.len(),
    ensures
        read_well(
            r, bytes@, at as int, number_end(bytes@, at as int, 4, ParseError::TruncatedInt),
            |v: i32| encode_int(v)),
        r matches Ok((_, e)) ==> e == at + 4,
        r is Err ==> at + 4 > bytes@.len(),
{
    let (v, e) = read_number(bytes, at, 4, ParseError::TruncatedInt)?;
    proof {
        lemma_capacities();
        lemma_signed32(v as u32);
    }
    Ok(((v as u32) as i32, e))
}

fn read_single(bytes: &[u8], at: usize) -> (r: Result<(u32, usize), ParseError>)
    requires
        at <= bytes@.len(),
    ensures
        read_well(
            r, bytes@, at as int, number_end(bytes@, at as int, 4, ParseError::TruncatedSingle),
            |v: u32| le(v as int, 4)),
        r matches Ok((_, e)) ==> e == at + 4,
        r is Err ==> at + 4 > bytes@.len(),
{
    let (v, e) = read_number(bytes, at, 4, ParseError::TruncatedSingle)?;
    proof { lemma_capacities(); }
    Ok((v as u32, e))
}

fn read_short(bytes: &[u8], at: usize) -> (r: Result<(usize, usize), ParseError>)
    requires
        at <= bytes@.len(),
    ensures
        match r {
            Ok((n, e)) => {
                &&& e == at + 2
                &&& e <= bytes@.len()
                &&& n == from_le(bytes@.subrange(at as int, at + 2))
                &&& n < 0x1_0000
                &&& le(n as int, 2) == bytes@.subrange(at as int, at + 2)
            },
            Err(x) => x == ParseError::TruncatedShort && at + 2 > bytes@.len(),
        },
{
    if bytes.len() - at < 2 {
        return Err(ParseError::TruncatedShort);
    }
    let v: u64 = read_le(bytes, at, 2);
    proof { lemma_capacities(); }
    Ok((v as usize, at + 2))
}

fn read_name(bytes: &[u8], at: usize) -> (r: Result<(String, usize), ParseError>)
    requires
        at <= bytes@.len(),
    ensures
        read_well(r, bytes@, at as int, name_end(bytes@, at as int), |s: String| encode_name(s@)),
{
    let (n, start) = read_short(bytes, at)?;
    if bytes.len() - start < n {
        return Err(ParseError::TruncatedName(n));
    }
    let end: usize = start + n;
    let part: &[u8] = vstd::slice::slice_subrange(bytes, start, end);
    match utf8_text(part) {
        None => Err(ParseError::InvalidName),
        Some(s) => {
            proof {
                vstd::utf8::decode_utf8_encode_utf8(part@);
                assert(bytes@.subrange(at as int, end as int) =~= bytes@.subrange(at as int, at + 2) + part@);
            }
            Ok((s, end))
        },
    }
}

/// Two adjacent parts make one.
proof fn lemma_join(b: Seq<u8>, i: int, j: int, k: int)
    requires
        0 <= i <= j <= k <= b.len(),
    ensures
        b.subrange(i, k) == b.subrange(i, j) + b.subrange(j, k),
{
    assert(b.subrange(i, k) =~= b.subrange(i, j) + b.subrange(j, k));
}

fn read_doubles(bytes: &[u8], at: usize, n: usize) -> (r: Result<(Vec<u64>, usize), ParseError>)
    requires
        at <= bytes@.len(),
        n < 0x1_0000,
    ensures
        match r {
            Ok((v, e)) => {
                &&& e == at + 8 * n
                &&& e <= bytes@.len()
                &&& v@.len() == n
                &&& bytes@.subrange(at as int, e as int) == encode_doubles(v@)
            },
            Err(x) => x == ParseError::TruncatedDouble && at + 8 * n > bytes@.len(),
        },
{
    let mut v: Vec<u64> = Vec::new();
    let mut c: usize = at;
    proof { assert(bytes@.subrange(at as int, at as int) =~= encode_doubles(v@)); }
    while v.len() < n
        invariant
            n < 0x1_0000,
            v@.len() <= n,
            c == at + 8 * v@.len(),
            c <= bytes@.len(),
            bytes@.subrange(at as int, c as int) == encode_doubles(v@),
        decreases n - v.len(),
    {
        let (x, e) = read_double(bytes, c)?;
        proof {
            lemma_join(bytes@, at as int, c as int, e as int);
            assert(v@.push(x).drop_last() =~= v@);
        }
        v.push(x);
        c = e;
    }
    Ok((v, c))
}

fn read_singles(bytes: &[u8], at: usize, n: usize) -> (r: Result<(Vec<u32>, usize), ParseError>)
    requires
        at <= bytes@.len(),
        n < 0x1_0000,
    ensures
        match r {
            Ok((v, e)) => {
                &&& e == at + 4 * n
                &&& e <= bytes@.len()
                &&& v@.len() == n
                &&& bytes@.subrange(at as int, e as int) == encode_singles(v@)
            },
            Err(x) => x == ParseError::TruncatedSingle && at + 4 * n > bytes@.len(),
        },
{
    let mut v: Vec<u32> = Vec::new();
    let mut c: usize = at;
    proof { assert(bytes@.subrange(at as int, at as int) =~= encode_singles(v@)); }
    while v.len() < n
        invariant
            n < 0x1_0000,
            v@.len() <= n,
            c == at + 4 * v@.len(),
            c <= bytes@.len(),
            bytes@.subrange(at as int, c as int) == encode_singles(v@),
        decreases n - v.len(),
    {
        let (x, e) = read_single(bytes, c)?;
        proof {
            lemma_join(bytes@, at as int, c as int, e as int);
            assert(v@.push(x).drop_last() =~= v@);
        }
        v.push(x);
        c = e;
    }
    Ok((v, c))
}

/// Read one tree.
fn parse_one<F: Fn(Ask) -> u64>(bytes: &[u8], at: usize, f: &F) -> (r: Result<(Box<DensityFunction>, usize), ParseError>)
    requires
        answers(*f),
        at <= bytes@.len(),
    ensures
        read_well(r, bytes@, at as int, nodes_end(bytes@, at as int, 1), |d: Box<DensityFunction>| encode(*d)),
        r matches Ok((d, _)) ==> sound(*d) && bounded(*f, *d),
    decreases bytes@.len() - at, 3nat,
{
    let (x, e) = parse_node(bytes, at, f)?;
    proof { assert(nodes_end(bytes@, e as int, 0) == Ok::<int, ParseError>(e as int)); }
    Ok((Box::new(x), e))
}

/// Read two trees.
fn parse_two<F: Fn(Ask) -> u64>(bytes: &[u8], at: usize, f: &F) -> (r: Result<
    ((Box<DensityFunction>, Box<DensityFunction>), usize),
    ParseError,
>)
    requires
        answers(*f),
        at <= bytes@.len(),
    ensures
        read_well(
            r, bytes@, at as int, nodes_end(bytes@, at as int, 2),
            |d: (Box<DensityFunction>, Box<DensityFunction>)| encode(*d.0) + encode(*d.1)),
        r matches Ok((d, _)) ==> sound(*d.0) && bounded(*f, *d.0) && sound(*d.1) && bounded(*f, *d.1),
    decreases bytes@.len() - at, 3nat,
{
    let (x, e) = parse_node(bytes, at, f)?;
    let (y, d) = parse_one(bytes, e, f)?;
    proof {
        lemma_join(bytes@, at as int, e as int, d as int);
    }
    Ok(((Box::new(x), y), d))
}

/// Read a sum, product, minimum or maximum.
fn parse_binary<F: Fn(Ask) -> u64>(bytes: &[u8], at: usize, f: &F) -> (r: Result<(DensityFunction, usize), ParseError>)
    requires
        answers(*f),
        at < bytes@.len(),
        opcode::ADD <= bytes@[at as int] <= opcode::MAX,
    ensures
        read_well(r, bytes@, at as int, node_end(bytes@, at as int), |d: DensityFunction| encode(d)),
        r matches Ok((d, _)) ==> sound(d) && bounded(*f, d),
    decreases bytes@.len() - at, 1nat,
{
    let ghost b = bytes@;
    let tag: u8 = bytes[at];
    let c: usize = at + 1;
    let ((x, y), e) = parse_two(bytes, c, f)?;
    let ghost (gx, gy) = (encode(*x), encode(*y));
    let df = if tag == opcode::ADD {
        DensityFunction::Add(x, y)
    } else if tag == opcode::MUL {
        DensityFunction::Mul(x, y)
    } else if tag == opcode::MIN {
        DensityFunction::Min(x, y)
    } else {
        DensityFunction::Max(x, y)
    };
    proof {
        assert(b.subrange(c as int, e as int) == gx + gy);
        assert(encode(df) =~= seq![tag] + (gx + gy));
        assert(b.subrange(at as int, e as int) =~= encode(df));
    }
    Ok((df, e))
}

/// Read a transformation of one tree.
fn parse_unary<F: Fn(Ask) -> u64>(bytes: &[u8], at: usize, f: &F) -> (r: Result<(DensityFunction, usize), ParseError>)
    requires
        answers(*f),
        at < bytes@.len(),
        opcode::ABS <= bytes@[at as int] <= opcode::SQUEEZE,
    ensures
        read_well(r, bytes@, at as int, node_end(bytes@, at as int), |d: DensityFunction| encode(d)),
        r matches Ok((d, _)) ==> sound(d) && bounded(*f, d),
    decreases bytes@.len() - at, 1nat,
{
    let ghost b = bytes@;
    let tag: u8 = bytes[at];
    let c: usize = at + 1;
    let (x, e) = parse_one(bytes, c, f)?;
    let df = if tag == opcode::ABS {
        DensityFunction::Abs(x)
    } else if tag == opcode::SQUARE {
        DensityFunction::Square(x)
    } else if tag == opcode::CUBE {
        DensityFunction::Cube(x)
    } else if tag == opcode::HALF_NEGATIVE {
        DensityFunction::HalfNegative(x)
    } else if tag == opcode::QUARTER_NEGATIVE {
        DensityFunction::QuarterNegative(x)
    } else if tag == opcode::INVERT {
        DensityFunction::Invert(x)
    } else {
        DensityFunction::Squeeze(x)
    };
    proof { assert(b.subrange(at as int, e as int) =~= encode(df)); }
    Ok((df, e))
}

/// Read a clamp.
fn parse_clamp<F: Fn(Ask) -> u64>(bytes: &[u8], at: usize, f: &F) -> (r: Result<(DensityFunction, usize), ParseError>)
    requires
        answers(*f),
        at < bytes@.len(),
        bytes@[at as int] == opcode::CLAMP,
    ensures
        read_well(r, bytes@, at as int, node_end(bytes@, at as int), |d: DensityFunction| encode(d)),
        r matches Ok((d, _)) ==> sound(d) && bounded(*f, d),
    decreases bytes@.len() - at, 1nat,
{
    let ghost b = bytes@;
    let tag: u8 = bytes[at];
    let c: usize = at + 1;
    let (x, e1) = parse_one(bytes, c, f)?;
    let (min, e2) = read_double(bytes, e1)?;
    let (max, e3) = read_double(bytes, e2)?;
    let df = DensityFunction::Clamp { input: x, min, max };
    proof { assert(b.subrange(at as int, e3 as int) =~= encode(df)); }
    Ok((df, e3))
}

/// Read a gradient.
fn parse_gradient<F: Fn(Ask) -> u64>(bytes: &[u8], at: usize, f: &F) -> (r: Result<(DensityFunction, usize), ParseError>)
    requires
        answers(*f),
        at < bytes@.len(),
        bytes@[at as int] == opcode::Y_CLAMPED_GRADIENT,
    ensures
        read_well(r, bytes@, at as int, node_end(bytes@, at as int), |d: DensityFunction| encode(d)),
        r matches Ok((d, _)) ==> sound(d) && bounded(*f, d),
    decreases bytes@.len() - at, 1nat,
{
    let ghost b = bytes@;
    let tag: u8 = bytes[at];
    let c: usize = at + 1;
    let (from_y, e1) = read_int(bytes, c)?;
    let (to_y, e2) = read_int(bytes, e1)?;
    let (from_value, e3) = read_double(bytes, e2)?;
    let (to_value, e4) = read_double(bytes, e3)?;
    let df = DensityFunction::YClampedGradient { from_y, to_y, from_value, to_value };
    proof { assert(b.subrange(at as int, e4 as int) =~= encode(df)); }
    Ok((df, e4))
}

/// Read a choice by range.
fn parse_range_choice<F: Fn(Ask) -> u64>(bytes: &[u8], at: usize, f: &F) -> (r: Result<(DensityFunction, usize), ParseError>)
    requires
        answers(*f),
        at < bytes@.len(),
        bytes@[at as int] == opcode::RANGE_CHOICE,
    ensures
        read_well(r, bytes@, at as int, node_end(bytes@, at as int), |d: DensityFunction| encode(d)),
        r matches Ok((d, _)) ==> sound(d) && bounded(*f, d),
    decreases bytes@.len() - at, 1nat,
{
    let ghost b = bytes@;
    let tag: u8 = bytes[at];
    let c: usize = at + 1;
    let (x, e1) = parse_one(bytes, c, f)?;
    let (min_inclusive, e2) = read_double(bytes, e1)?;
    let (max_exclusive, e3) = read_double(bytes, e2)?;
    let ((y, z), e4) = parse_two(bytes, e3, f)?;
    let ghost (gx, gy, gz) = (encode(*x), encode(*y), encode(*z));
    let df = DensityFunction::RangeChoice {
        input: x,
        min_inclusive,
        max_exclusive,
        when_in_range: y,
        when_out_of_range: z,
    };
    proof {
        assert(b.subrange(e3 as int, e4 as int) == gy + gz);
        assert(encode(df) =~= seq![tag] + gx + le(min_inclusive as int, 8) + le(max_exclusive as int, 8) + (gy + gz));
        assert(b.subrange(at as int, e4 as int) =~= encode(df));
    }
    Ok((df, e4))
}

/// Read a marker.
fn parse_marker<F: Fn(Ask) -> u64>(bytes: &[u8], at: usize, f: &F) -> (r: Result<(DensityFunction, usize), ParseError>)
    requires
        answers(*f),
        at < bytes@.len(),
        bytes@[at as int] == opcode::MARKER,
    ensures
        read_well(r, bytes@, at as int, node_end(bytes@, at as int), |d: DensityFunction| encode(d)),
        r matches Ok((d, _)) ==> sound(d) && bounded(*f, d),
    decreases bytes@.len() - at, 1nat,
{
    let ghost b = bytes@;
    let tag: u8 = bytes[at];
    let c: usize = at + 1;
    if c >= bytes.len() {
        return Err(ParseError::TruncatedByte);
    }
    let kind: MarkerKind = read_marker_kind(bytes[c])?;
    let (x, e) = parse_one(bytes, c + 1, f)?;
    let df = DensityFunction::Marker { kind, wrapped: x };
    proof { assert(b.subrange(at as int, e as int) =~= encode(df)); }
    Ok((df, e))
}

/// Read a noise or an offset noise.
fn parse_noise<F: Fn(Ask) -> u64>(bytes: &[u8], at: usize, f: &F) -> (r: Result<(DensityFunction, usize), ParseError>)
    requires
        answers(*f),
        at < bytes@.len(),
        opcode::NOISE <= bytes@[at as int] <= opcode::SHIFT_B,
    ensures
        read_well(r, bytes@, at as int, node_end(bytes@, at as int), |d: DensityFunction| encode(d)),
        r matches Ok((d, _)) ==> sound(d) && bounded(*f, d),
    decreases bytes@.len() - at, 1nat,
{
    let ghost b = bytes@;
    let tag: u8 = bytes[at];
    let c: usize = at + 1;
    let (noise_name, e1) = read_name(bytes, c)?;
    if tag == opcode::NOISE {
        let (xz_scale, e2) = read_double(bytes, e1)?;
        let (y_scale, e3) = read_double(bytes, e2)?;
        let df = DensityFunction::Noise { noise_name, xz_scale, y_scale };
        proof { assert(b.subrange(at as int, e3 as int) =~= encode(df)); }
        return Ok((df, e3));
    }
    let df = if tag == opcode::SHIFT {
        DensityFunction::Shift { noise_name }
    } else if tag == opcode::SHIFT_A {
        DensityFunction::ShiftA { noise_name }
    } else {
        DensityFunction::ShiftB { noise_name }
    };
    proof { assert(b.subrange(at as int, e1 as int) =~= encode(df)); }
    Ok((df, e1))
}

/// Read a shifted noise.
#[verifier::rlimit(80)]
fn parse_shifted_noise<F: Fn(Ask) -> u64>(bytes: &[u8], at: usize, f: &F) -> (r: Result<(DensityFunction, usize), ParseError>)
    requires
        answers(*f),
        at < bytes@.len(),
        bytes@[at as int] == opcode::SHIFTED_NOISE,
    ensures
        read_well(r, bytes@, at as int, node_end(bytes@, at as int), |d: DensityFunction| encode(d)),
        r matches Ok((d, _)) ==> sound(d) && bounded(*f, d),
    decreases bytes@.len() - at, 1nat,
{
    let ghost b = bytes@;
    let tag: u8 = bytes[at];
    let c: usize = at + 1;
    let (x, e1) = parse_node(bytes, c, f)?;
    let ((y, z), e3) = parse_two(bytes, e1, f)?;
    let ghost (gx, gy, gz) = (encode(x), encode(*y), encode(*z));
    let (xz_scale, e4) = read_double(bytes, e3)?;
    let (y_scale, e5) = read_double(bytes, e4)?;
    let (noise_name, e6) = read_name(bytes, e5)?;
    let ghost name = encode_name(noise_name@);
    let df = DensityFunction::ShiftedNoise { shift_x: Box::new(x), shift_y: y, shift_z: z, xz_scale, y_scale, noise_name };
    proof {
        assert(b.subrange(e1 as int, e3 as int) == gy + gz);
        assert(encode(df) =~= seq![tag] + gx + (gy + gz) + le(xz_scale as int, 8) + le(y_scale as int, 8) + name);
        assert(b.subrange(at as int, e6 as int) =~= encode(df));
    }
    Ok((df, e6))
}

/// Read a scaled sampler.
fn parse_weird<F: Fn(Ask) -> u64>(bytes: &[u8], at: usize, f: &F) -> (r: Result<(DensityFunction, usize), ParseError>)
    requires
        answers(*f),
        at < bytes@.len(),
        bytes@[at as int] == opcode::WEIRD_SCALED_SAMPLER,
    ensures
        read_well(r, bytes@, at as int, node_end(bytes@, at as int), |d: DensityFunction| encode(d)),
        r matches Ok((d, _)) ==> sound(d) && bounded(*f, d),
    decreases bytes@.len() - at, 1nat,
{
    let ghost b = bytes@;
    let tag: u8 = bytes[at];
    let c: usize = at + 1;
    let (x, e1) = parse_one(bytes, c, f)?;
    let (noise_name, e2) = read_name(bytes, e1)?;
    if e2 >= bytes.len() {
        return Err(ParseError::TruncatedByte);
    }
    let rarity_value_mapper: RarityValueMapper = if bytes[e2] == opcode::RARITY_TYPE1 {
        RarityValueMapper::Type1
    } else if bytes[e2] == opcode::RARITY_TYPE2 {
        RarityValueMapper::Type2
    } else {
        return Err(ParseError::UnknownRarity(bytes[e2]));
    };
    let df = DensityFunction::WeirdScaledSampler { input: x, noise_name, rarity_value_mapper };
    let e3: usize = e2 + 1;
    proof { assert(b.subrange(at as int, e3 as int) =~= encode(df)); }
    Ok((df, e3))
}

/// Read the blended noise.
fn parse_blended<F: Fn(Ask) -> u64>(bytes: &[u8], at: usize, f: &F) -> (r: Result<(DensityFunction, usize), ParseError>)
    requires
        answers(*f),
        at < bytes@.len(),
        bytes@[at as int] == opcode::BLENDED_NOISE,
    ensures
        read_well(r, bytes@, at as int, node_end(bytes@, at as int), |d: DensityFunction| encode(d)),
        r matches Ok((d, _)) ==> sound(d) && bounded(*f, d),
    decreases bytes@.len() - at, 1nat,
{
    let ghost b = bytes@;
    let tag: u8 = bytes[at];
    let c: usize = at + 1;
    let (xz_scale, e1) = read_double(bytes, c)?;
    let (y_scale, e2) = read_double(bytes, e1)?;
    let (xz_factor, e3) = read_double(bytes, e2)?;
    let (y_factor, e4) = read_double(bytes, e3)?;
    let (smear, e5) = read_double(bytes, e4)?;
    let df = DensityFunction::BlendedNoise(LazyBlendedNoise::new(xz_scale, y_scale, xz_factor, y_factor, smear));
    proof { assert(b.subrange(at as int, e5 as int) =~= encode(df)); }
    Ok((df, e5))
}

/// Read a surface search.
fn parse_find_top<F: Fn(Ask) -> u64>(bytes: &[u8], at: usize, f: &F) -> (r: Result<(DensityFunction, usize), ParseError>)
    requires
        answers(*f),
        at < bytes@.len(),
        bytes@[at as int] == opcode::FIND_TOP_SURFACE,
    ensures
        read_well(r, bytes@, at as int, node_end(bytes@, at as int), |d: DensityFunction| encode(d)),
        r matches Ok((d, _)) ==> sound(d) && bounded(*f, d),
    decreases bytes@.len() - at, 1nat,
{
    let ghost b = bytes@;
    let tag: u8 = bytes[at];
    let c: usize = at + 1;
    let ((x, y), e2) = parse_two(bytes, c, f)?;
    let ghost (gx, gy) = (encode(*x), encode(*y));
    let (lower_bound, e3) = read_int(bytes, e2)?;
    let (cell_height, e4) = read_int(bytes, e3)?;
    let df = DensityFunction::FindTopSurface { density: x, upper_bound: y, lower_bound, cell_height };
    proof {
        assert(b.subrange(c as int, e2 as int) == gx + gy);
        assert(encode(df) =~= seq![tag] + (gx + gy) + encode_int(lower_bound) + encode_int(cell_height));
        assert(b.subrange(at as int, e4 as int) =~= encode(df));
    }
    Ok((df, e4))
}

/// Read a choice by thresholds.
fn parse_interval<F: Fn(Ask) -> u64>(bytes: &[u8], at: usize, f: &F) -> (r: Result<(DensityFunction, usize), ParseError>)
    requires
        answers(*f),
        at < bytes@.len(),
        bytes@[at as int] == opcode::INTERVAL_SELECT,
    ensures
        read_well(r, bytes@, at as int, node_end(bytes@, at as int), |d: DensityFunction| encode(d)),
        r matches Ok((d, _)) ==> sound(d) && bounded(*f, d),
    decreases bytes@.len() - at, 1nat,
{
    let ghost b = bytes@;
    let tag: u8 = bytes[at];
    let c: usize = at + 1;
    let (x, e1) = parse_one(bytes, c, f)?;
    let (n, e2) = read_short(bytes, e1)?;
    let (thresholds, e3) = read_doubles(bytes, e2, n)?;
    let (functions, e4) = parse_nodes(bytes, e3, n + 1, f)?;
    let df = DensityFunction::IntervalSelect { input: x, thresholds, functions };
    proof { assert(b.subrange(at as int, e4 as int) =~= encode(df)); }
    Ok((df, e4))
}

/// Read a tree.
fn parse_node<F: Fn(Ask) -> u64>(bytes: &[u8], at: usize, f: &F) -> (r: Result<(DensityFunction, usize), ParseError>)
    requires
        answers(*f),
        at <= bytes@.len(),
    ensures
        read_well(r, bytes@, at as int, node_end(bytes@, at as int), |d: DensityFunction| encode(d)),
        r matches Ok((d, _)) ==> sound(d) && bounded(*f, d),
    decreases bytes@.len() - at, 2nat,
{
    let ghost b = bytes@;
    if at >= bytes.len() {
        return Err(ParseError::TruncatedByte);
    }
    let tag: u8 = bytes[at];
    let c: usize = at + 1;
    if tag == opcode::CONSTANT {
        let (v, e) = read_double(bytes, c)?;
        let df = DensityFunction::Constant(v);
        proof { assert(b.subrange(at as int, e as int) =~= encode(df)); }
        Ok((df, e))
    } else if tag <= opcode::MAX {
        parse_binary(bytes, at, f)
    } else if tag <= opcode::SQUEEZE {
        parse_unary(bytes, at, f)
    } else if tag == opcode::CLAMP {
        parse_clamp(bytes, at, f)
    } else if tag == opcode::Y_CLAMPED_GRADIENT {
        parse_gradient(bytes, at, f)
    } else if tag == opcode::RANGE_CHOICE {
        parse_range_choice(bytes, at, f)
    } else if tag == opcode::MARKER {
        parse_marker(bytes, at, f)
    } else if tag <= opcode::SHIFT_B {
        parse_noise(bytes, at, f)
    } else if tag == opcode::SHIFTED_NOISE {
        parse_shifted_noise(bytes, at, f)
    } else if tag == opcode::WEIRD_SCALED_SAMPLER {
        parse_weird(bytes, at, f)
    } else if tag == opcode::SPLINE {
        let (s, e) = parse_spline(bytes, c, f)?;
        let df = DensityFunction::Spline(Box::new(s));
        proof {
            assert(splines_end(b, c as int, 1) == Ok::<int, ParseError>(e as int)) by {
                assert(splines_end(b, e as int, 0) == Ok::<int, ParseError>(e as int));
            }
            assert(b.subrange(at as int, e as int) =~= encode(df));
        }
        Ok((df, e))
    } else if tag == opcode::BLENDED_NOISE {
        parse_blended(bytes, at, f)
    } else if tag == opcode::FIND_TOP_SURFACE {
        parse_find_top(bytes, at, f)
    } else if tag == opcode::END_ISLAND {
        let df = DensityFunction::EndIsland(LazyEndIsland::new());
        proof { assert(b.subrange(at as int, c as int) =~= encode(df)); }
        Ok((df, c))
    } else if tag == opcode::INTERVAL_SELECT {
        parse_interval(bytes, at, f)
    } else {
        Err(ParseError::UnknownOpcode { opcode: tag, offset: at })
    }
}

fn read_marker_kind(v: u8) -> (r: Result<MarkerKind, ParseError>)
    ensures
        match r {
            Ok(k) => encode_marker(k) == v && v <= opcode::MARKER_CACHE_ALL_IN_CELL,
            Err(x) => v > opcode::MARKER_CACHE_ALL_IN_CELL && x == ParseError::UnknownMarker(v),
        },
{
    if v == opcode::MARKER_INTERPOLATED {
        Ok(MarkerKind::Interpolated)
    } else if v == opcode::MARKER_FLAT_CACHE {
        Ok(MarkerKind::FlatCache)
    } else if v == opcode::MARKER_CACHE_2D {
        Ok(MarkerKind::Cache2D)
    } else if v == opcode::MARKER_CACHE_ONCE {
        Ok(MarkerKind::CacheOnce)
    } else if v == opcode::MARKER_CACHE_ALL_IN_CELL {
        Ok(MarkerKind::CacheAllInCell)
    } else {
        Err(ParseError::UnknownMarker(v))
    }
}

/// Read trees one after the other.
fn parse_nodes<F: Fn(Ask) -> u64>(bytes: &[u8], at: usize, n: usize, f: &F) -> (r: Result<
    (Vec<DensityFunction>, usize),
    ParseError,
>)
    requires
        answers(*f),
        at <= bytes@.len(),
    ensures
        match r {
            Ok((v, e)) => {
                &&& nodes_end(bytes@, at as int, n as nat) == Ok::<int, ParseError>(e as int)
                &&& at + n <= e <= bytes@.len()
                &&& v@.len() == n
                &&& bytes@.subrange(at as int, e as int) == encode_all(v@, v@.len())
                &&& forall|i: int| 0 <= i < v@.len() ==> sound(#[trigger] v@[i]) && bounded(*f, v@[i])
            },
            Err(x) => nodes_end(bytes@, at as int, n as nat) == Err::<int, ParseError>(x),
        },
    decreases bytes@.len() - at, 4nat,
{
    let mut v: Vec<DensityFunction> = Vec::new();
    let mut c: usize = at;
    proof { assert(bytes@.subrange(at as int, at as int) =~= encode_all(v@, 0)); }
    while v.len() < n
        invariant
            answers(*f),
            v@.len() <= n,
            at + v@.len() <= c <= bytes@.len(),
            bytes@.subrange(at as int, c as int) == encode_all(v@, v@.len()),
            nodes_end(bytes@, at as int, n as nat) == nodes_end(bytes@, c as int, (n - v@.len()) as nat),
            forall|i: int| 0 <= i < v@.len() ==> sound(#[trigger] v@[i]) && bounded(*f, v@[i]),
        decreases n - v.len(),
    {
        let (x, e) = parse_node(bytes, c, f)?;
        let ghost before = v@;
        v.push(x);
        proof {
            lemma_join(bytes@, at as int, c as int, e as int);
            lemma_encode_all_prefix(before, v@, before.len());
        }
        c = e;
    }
    Ok((v, c))
}

proof fn lemma_encode_all_prefix(s: Seq<DensityFunction>, t: Seq<DensityFunction>, n: nat)
    requires
        n <= s.len(),
        s.len() <= t.len(),
        forall|i: int| 0 <= i < n ==> s[i] == t[i],
    ensures
        encode_all(s, n) == encode_all(t, n),
    decreases n,
{
    if n > 0 {
        lemma_encode_all_prefix(s, t, (n - 1) as nat);
        assert(s[n - 1] == t[n - 1]);
    }
}

proof fn lemma_encode_splines_prefix(s: Seq<DfSpline>, t: Seq<DfSpline>, n: nat)
    requires
        n <= s.len(),
        s.len() <= t.len(),
        forall|i: int| 0 <= i < n ==> s[i] == t[i],
    ensures
        encode_splines(s, n) == encode_splines(t, n),
    decreases n,
{
    if n > 0 {
        lemma_encode_splines_prefix(s, t, (n - 1) as nat);
        assert(s[n - 1] == t[n - 1]);
    }
}

/// Read a spline.
fn parse_spline<F: Fn(Ask) -> u64>(bytes: &[u8], at: usize, f: &F) -> (r: Result<(DfSpline, usize), ParseError>)
    requires
        answers(*f),
        at <= bytes@.len(),
    ensures
        read_well(r, bytes@, at as int, spline_end(bytes@, at as int), |s: DfSpline| encode_spline(s)),
        r matches Ok((s, _)) ==> sound_spline(s) && bounded_spline(*f, s),
    decreases bytes@.len() - at, 2nat,
{
    let ghost b = bytes@;
    if at >= bytes.len() {
        return Err(ParseError::TruncatedByte);
    }
    let tag: u8 = bytes[at];
    let c: usize = at + 1;
    if tag == opcode::SPLINE_CONSTANT {
        let (v, e) = read_single(bytes, c)?;
        let s = DfSpline::Constant(v);
        proof { assert(b.subrange(at as int, e as int) =~= encode_spline(s)); }
        Ok((s, e))
    } else if tag == opcode::SPLINE_MULTIPOINT {
        let (coordinate, e1) = parse_one(bytes, c, f)?;
        let (n, e2) = read_short(bytes, e1)?;
        let (locations, e3) = read_singles(bytes, e2, n)?;
        let (derivatives, e4) = read_singles(bytes, e3, n)?;
        if n == 0 {
            return Err(ParseError::EmptySpline);
        }
        let mut values: Vec<DfSpline> = Vec::new();
        let mut d: usize = e4;
        proof { assert(b.subrange(e4 as int, e4 as int) =~= encode_splines(values@, 0)); }
        while values.len() < n
            invariant
                answers(*f),
                b == bytes@,
                at < e4,
                values@.len() <= n,
                e4 + values@.len() <= d <= bytes@.len(),
                b.subrange(e4 as int, d as int) == encode_splines(values@, values@.len()),
                splines_end(b, e4 as int, n as nat) == splines_end(b, d as int, (n - values@.len()) as nat),
                splines_end(b, e4 as int, n as nat) is Err ==> spline_end(b, at as int) == splines_end(
                    b, e4 as int, n as nat),
                forall|i: int| 0 <= i < values@.len() ==> sound_spline(#[trigger] values@[i]) && bounded_spline(
                    *f, values@[i]),
            decreases n - values.len(),
        {
            let (x, e) = parse_spline(bytes, d, f)?;
            let ghost before = values@;
            values.push(x);
            proof {
                lemma_join(b, e4 as int, d as int, e as int);
                lemma_encode_splines_prefix(before, values@, before.len());
            }
            d = e;
        }
        let s = DfSpline::new_multipoint(*coordinate, locations, values, derivatives, f);
        proof {
            assert(b.subrange(at as int, d as int) =~= seq![tag] + b.subrange(c as int, e1 as int) + b.subrange(
                e1 as int, e2 as int) + b.subrange(e2 as int, e3 as int) + b.subrange(e3 as int, e4 as int) + b.subrange(
                e4 as int, d as int));
        }
        Ok((s, d))
    } else {
        Err(ParseError::UnknownSplineOpcode { opcode: tag, offset: at })
    }
}

/// Read bytes that are a tree and nothing else.
pub fn parse_bytecode<F: Fn(Ask) -> u64>(bytes: &[u8], f: &F) -> (r: Result<DensityFunction, ParseError>)
    requires
        answers(*f),
    ensures
        match r {
            Ok(d) => bytes@ == encode(d) && sound(d) && bounded(*f, d) && node_end(bytes@, 0) == Ok::<int, ParseError>(
                bytes@.len() as int),
            Err(x) => match node_end(bytes@, 0) {
                Ok(e) => e != bytes@.len() && x == (ParseError::Trailing {
                    parsed: e as usize,
                    len: bytes@.len() as usize,
                }),
                Err(y) => x == y,
            },
        },
{
    let (d, e) = parse_node(bytes, 0, f)?;
    if e != bytes.len() {
        return Err(ParseError::Trailing { parsed: e, len: bytes.len() });
    }
    proof { assert(bytes@.subrange(0, bytes@.len() as int) =~= bytes@); }
    Ok(d)
}

} // verus!
