//! Written trees can be read: the bytes of a tree parse to their end.

use vstd::prelude::*;
use vstd::utf8::encode_utf8;
use crate::bytecode::{
    encode, encode_all, encode_doubles, encode_int, encode_marker, encode_name, encode_rarity, encode_singles, encode_spline,
    encode_splines, name_end, node_end, nodes_end, spline_end, splines_end, ParseError,
};
use crate::bytes::{from_le, le, lemma_capacities, lemma_from_le_of_le, lemma_le_len};
use crate::density::{DensityFunction, DfSpline};
use crate::opcode;

verus! {

/// A name whose length fits two bytes.
pub open spec fn short_name(name: Seq<char>) -> bool {
    encode_utf8(name).len() <= 0xffff
}

/// A tree whose names and lists fit the format: one function more than
/// thresholds, and a value and a slope per knot.
pub open spec fn writable(df: DensityFunction) -> bool
    decreases df,
{
    match df {
        DensityFunction::Constant(_) => true,
        DensityFunction::Add(a, b) => writable(*a) && writable(*b),
        DensityFunction::Mul(a, b) => writable(*a) && writable(*b),
        DensityFunction::Min(a, b) => writable(*a) && writable(*b),
        DensityFunction::Max(a, b) => writable(*a) && writable(*b),
        DensityFunction::Abs(x) => writable(*x),
        DensityFunction::Square(x) => writable(*x),
        DensityFunction::Cube(x) => writable(*x),
        DensityFunction::HalfNegative(x) => writable(*x),
        DensityFunction::QuarterNegative(x) => writable(*x),
        DensityFunction::Invert(x) => writable(*x),
        DensityFunction::Squeeze(x) => writable(*x),
        DensityFunction::Clamp { input, .. } => writable(*input),
        DensityFunction::YClampedGradient { .. } => true,
        DensityFunction::RangeChoice { input, when_in_range, when_out_of_range, .. } => {
            writable(*input) && writable(*when_in_range) && writable(*when_out_of_range)
        },
        DensityFunction::Marker { wrapped, .. } => writable(*wrapped),
        DensityFunction::Noise { noise_name, .. } => short_name(noise_name@),
        DensityFunction::Shift { noise_name } => short_name(noise_name@),
        DensityFunction::ShiftA { noise_name } => short_name(noise_name@),
        DensityFunction::ShiftB { noise_name } => short_name(noise_name@),
        DensityFunction::ShiftedNoise { shift_x, shift_y, shift_z, noise_name, .. } => {
            writable(*shift_x) && writable(*shift_y) && writable(*shift_z) && short_name(noise_name@)
        },
        DensityFunction::WeirdScaledSampler { input, noise_name, .. } => writable(*input) && short_name(noise_name@),
        DensityFunction::IntervalSelect { input, thresholds, functions } => {
            &&& writable(*input)
            &&& thresholds@.len() <= 0xffff
            &&& functions@.len() == thresholds@.len() + 1
            &&& forall|i: int| 0 <= i < functions@.len() ==> writable(#[trigger] functions@[i])
        },
        DensityFunction::Spline(s) => writable_spline(*s),
        DensityFunction::BlendedNoise(_) => true,
        DensityFunction::FindTopSurface { density, upper_bound, .. } => writable(*density) && writable(*upper_bound),
        DensityFunction::EndIsland(_) => true,
    }
}

pub open spec fn writable_spline(s: DfSpline) -> bool
    decreases s,
{
    match s {
        DfSpline::Constant(_) => true,
        DfSpline::Multipoint { coordinate, locations, values, derivatives, .. } => {
            &&& writable(*coordinate)
            &&& 1 <= locations@.len() <= 0xffff
            &&& values@.len() == locations@.len()
            &&& derivatives@.len() == locations@.len()
            &&& forall|i: int| 0 <= i < values@.len() ==> writable_spline(#[trigger] values@[i])
        },
    }
}

/// Bytes stand at a place.
spec fn stands(b: Seq<u8>, at: int, s: Seq<u8>) -> bool {
    0 <= at && at + s.len() <= b.len() && b.subrange(at, at + s.len()) == s
}

/// What stands at a place stands there piece by piece.
proof fn lemma_pieces(b: Seq<u8>, at: int, s: Seq<u8>, t: Seq<u8>)
    requires
        stands(b, at, s + t),
    ensures
        stands(b, at, s),
        stands(b, at + s.len(), t),
        (s + t).len() == s.len() + t.len(),
{
    let w = b.subrange(at, at + (s + t).len());
    assert(b.subrange(at, at + s.len()) =~= w.subrange(0, s.len() as int));
    assert((s + t).subrange(0, s.len() as int) =~= s);
    assert(b.subrange(at + s.len(), at + s.len() + t.len()) =~= w.subrange(s.len() as int, (s.len() + t.len()) as int));
    assert((s + t).subrange(s.len() as int, (s.len() + t.len()) as int) =~= t);
}

/// A byte that stands at a place.
proof fn lemma_tag(b: Seq<u8>, at: int, tag: u8, t: Seq<u8>)
    requires
        stands(b, at, seq![tag] + t),
    ensures
        at < b.len(),
        b[at] == tag,
        stands(b, at + 1, t),
        (seq![tag] + t).len() == 1 + t.len(),
{
    lemma_pieces(b, at, seq![tag], t);
    assert(b.subrange(at, at + 1)[0] == b[at]);
}

/// One tree is a row.
proof fn lemma_one_end(b: Seq<u8>, at: int, e: int)
    requires
        node_end(b, at) == Ok::<int, ParseError>(e),
        at < e <= b.len(),
    ensures
        nodes_end(b, at, 1) == Ok::<int, ParseError>(e),
{
    assert(nodes_end(b, e, 0) == Ok::<int, ParseError>(e));
}

/// A row of trees and one more.
proof fn lemma_nodes_more(b: Seq<u8>, at: int, k: nat, e: int, g: int)
    requires
        nodes_end(b, at, k) == Ok::<int, ParseError>(e),
        node_end(b, e) == Ok::<int, ParseError>(g),
        e < g <= b.len(),
    ensures
        nodes_end(b, at, k + 1) == Ok::<int, ParseError>(g),
    decreases k,
{
    if k == 0 {
        lemma_one_end(b, e, g);
    } else {
        let n = node_end(b, at)->Ok_0;
        lemma_nodes_more(b, n, (k - 1) as nat, e, g);
    }
}

/// A row of splines and one more.
proof fn lemma_splines_more(b: Seq<u8>, at: int, k: nat, e: int, g: int)
    requires
        splines_end(b, at, k) == Ok::<int, ParseError>(e),
        spline_end(b, e) == Ok::<int, ParseError>(g),
        e < g <= b.len(),
    ensures
        splines_end(b, at, k + 1) == Ok::<int, ParseError>(g),
    decreases k,
{
    if k == 0 {
        assert(splines_end(b, g, 0) == Ok::<int, ParseError>(g));
    } else {
        let n = spline_end(b, at)->Ok_0;
        lemma_splines_more(b, n, (k - 1) as nat, e, g);
    }
}

/// A name that stands at a place.
proof fn lemma_name(b: Seq<u8>, at: int, name: Seq<char>)
    requires
        short_name(name),
        stands(b, at, encode_name(name)),
    ensures
        name_end(b, at) == Ok::<int, ParseError>(at + encode_name(name).len()),
        encode_name(name).len() >= 2,
{
    let s = encode_utf8(name);
    let n = s.len() as int;
    lemma_le_len(n, 2);
    lemma_pieces(b, at, le(n, 2), s);
    lemma_capacities();
    lemma_from_le_of_le(n, 2);
    vstd::utf8::encode_utf8_valid_utf8(name);
    assert(b.subrange(at, at + 2) == le(n, 2));
    assert(b.subrange(at + 2, at + 2 + n) == s);
}

proof fn lemma_doubles_len(s: Seq<u64>)
    ensures
        encode_doubles(s).len() == 8 * s.len(),
    decreases s.len(),
{
    if s.len() > 0 {
        lemma_doubles_len(s.drop_last());
        lemma_le_len(s.last() as int, 8);
    }
}

proof fn lemma_singles_len(s: Seq<u32>)
    ensures
        encode_singles(s).len() == 4 * s.len(),
    decreases s.len(),
{
    if s.len() > 0 {
        lemma_singles_len(s.drop_last());
        lemma_le_len(s.last() as int, 4);
    }
}

/// A count of two bytes that stands at a place.
proof fn lemma_count(b: Seq<u8>, at: int, n: int)
    requires
        0 <= n <= 0xffff,
        stands(b, at, le(n, 2)),
    ensures
        at + 2 <= b.len(),
        from_le(b.subrange(at, at + 2)) == n,
        le(n, 2).len() == 2,
{
    lemma_le_len(n, 2);
    lemma_capacities();
    lemma_from_le_of_le(n, 2);
}

/// The first `n` trees of a row that stand at a place.
proof fn lemma_row(b: Seq<u8>, at: int, s: Seq<DensityFunction>, n: nat)
    requires
        n <= s.len(),
        forall|i: int| 0 <= i < s.len() ==> writable(#[trigger] s[i]),
        stands(b, at, encode_all(s, n)),
    ensures
        nodes_end(b, at, n) == Ok::<int, ParseError>(at + encode_all(s, n).len()),
    decreases s, n,
{
    if n > 0 {
        let before = encode_all(s, (n - 1) as nat);
        lemma_pieces(b, at, before, encode(s[n - 1]));
        lemma_row(b, at, s, (n - 1) as nat);
        lemma_tree(b, at + before.len(), s[n - 1]);
        lemma_nodes_more(b, at, (n - 1) as nat, at + before.len(), at + before.len() + encode(s[n - 1]).len());
    }
}

/// The first `n` splines of a row that stand at a place.
proof fn lemma_spline_row(b: Seq<u8>, at: int, s: Seq<DfSpline>, n: nat)
    requires
        n <= s.len(),
        forall|i: int| 0 <= i < s.len() ==> writable_spline(#[trigger] s[i]),
        stands(b, at, encode_splines(s, n)),
    ensures
        splines_end(b, at, n) == Ok::<int, ParseError>(at + encode_splines(s, n).len()),
    decreases s, n,
{
    if n > 0 {
        let before = encode_splines(s, (n - 1) as nat);
        lemma_pieces(b, at, before, encode_spline(s[n - 1]));
        lemma_spline_row(b, at, s, (n - 1) as nat);
        lemma_spline(b, at + before.len(), s[n - 1]);
        lemma_splines_more(b, at, (n - 1) as nat, at + before.len(), at + before.len() + encode_spline(s[n - 1]).len());
    }
}

/// A spline that stands at a place.
proof fn lemma_spline(b: Seq<u8>, at: int, s: DfSpline)
    requires
        writable_spline(s),
        stands(b, at, encode_spline(s)),
    ensures
        spline_end(b, at) == Ok::<int, ParseError>(at + encode_spline(s).len()),
        encode_spline(s).len() >= 1,
    decreases s, 1nat,
{
    match s {
        DfSpline::Constant(v) => {
            lemma_tag(b, at, opcode::SPLINE_CONSTANT, le(v as int, 4));
            lemma_le_len(v as int, 4);
        },
        DfSpline::Multipoint { coordinate, locations, values, derivatives, .. } => {
            let n = locations@.len() as int;
            let (c, k, l, d, r) = (
                encode(*coordinate), le(n, 2), encode_singles(locations@), encode_singles(derivatives@), encode_splines(
                    values@, values@.len()),
            );
            let t = seq![opcode::SPLINE_MULTIPOINT];
            assert(encode_spline(s) =~= t + (c + (k + (l + (d + r)))));
            lemma_tag(b, at, opcode::SPLINE_MULTIPOINT, c + (k + (l + (d + r))));
            lemma_pieces(b, at + 1, c, k + (l + (d + r)));
            let e = at + 1 + c.len();
            lemma_pieces(b, e, k, l + (d + r));
            lemma_count(b, e, n);
            lemma_pieces(b, e + 2, l, d + r);
            lemma_singles_len(locations@);
            lemma_singles_len(derivatives@);
            lemma_pieces(b, e + 2 + l.len(), d, r);
            lemma_tree(b, at + 1, *coordinate);
            lemma_one_end(b, at + 1, e);
            lemma_spline_row(b, e + 2 + 8 * n, values@, values@.len());
        },
    }
}

/// A tag, a tree that is part of another, and a rest.
proof fn lemma_headed(b: Seq<u8>, at: int, tag: u8, whole: DensityFunction, x: DensityFunction, rest: Seq<u8>)
    requires
        decreases_to!(whole => x),
        writable(x),
        stands(b, at, seq![tag] + (encode(x) + rest)),
    ensures
        at < b.len(),
        b[at] == tag,
        nodes_end(b, at + 1, 1) == Ok::<int, ParseError>(at + 1 + encode(x).len()),
        encode(x).len() >= 1,
        stands(b, at + 1 + encode(x).len(), rest),
    decreases whole, 0nat,
{
    lemma_tag(b, at, tag, encode(x) + rest);
    lemma_pieces(b, at + 1, encode(x), rest);
    lemma_tree(b, at + 1, x);
    lemma_one_end(b, at + 1, at + 1 + encode(x).len());
}

/// A tag and one tree.
proof fn lemma_single(b: Seq<u8>, at: int, tag: u8, whole: DensityFunction, x: DensityFunction)
    requires
        decreases_to!(whole => x),
        writable(x),
        encode(whole) == seq![tag] + encode(x),
        stands(b, at, encode(whole)),
    ensures
        at < b.len(),
        b[at] == tag,
        nodes_end(b, at + 1, 1) == Ok::<int, ParseError>(at + encode(whole).len()),
    decreases whole, 0nat,
{
    let none = Seq::<u8>::empty();
    assert(encode(whole) =~= seq![tag] + (encode(x) + none));
    lemma_tag(b, at, tag, encode(x) + none);
    lemma_pieces(b, at + 1, encode(x), none);
    lemma_tree(b, at + 1, x);
    lemma_one_end(b, at + 1, at + 1 + encode(x).len());
}

/// A tag and two trees.
proof fn lemma_pair(b: Seq<u8>, at: int, tag: u8, whole: DensityFunction, x: DensityFunction, y: DensityFunction)
    requires
        decreases_to!(whole => x),
        decreases_to!(whole => y),
        writable(x),
        writable(y),
        encode(whole) == seq![tag] + encode(x) + encode(y),
        stands(b, at, encode(whole)),
    ensures
        at < b.len(),
        b[at] == tag,
        nodes_end(b, at + 1, 2) == Ok::<int, ParseError>(at + encode(whole).len()),
    decreases whole, 0nat,
{
    let none = Seq::<u8>::empty();
    assert(encode(whole) =~= seq![tag] + (encode(x) + (encode(y) + none)));
    lemma_tag(b, at, tag, encode(x) + (encode(y) + none));
    lemma_pieces(b, at + 1, encode(x), encode(y) + none);
    lemma_tree(b, at + 1, x);
    let e = at + 1 + encode(x).len();
    lemma_one_end(b, at + 1, e);
    lemma_pieces(b, e, encode(y), none);
    lemma_tree(b, e, y);
    lemma_nodes_more(b, at + 1, 1, e, e + encode(y).len());
}

/// A tree that stands at a place.
proof fn lemma_tree(b: Seq<u8>, at: int, df: DensityFunction)
    requires
        writable(df),
        stands(b, at, encode(df)),
    ensures
        node_end(b, at) == Ok::<int, ParseError>(at + encode(df).len()),
        encode(df).len() >= 1,
    decreases df, 1nat,
{
    let s = encode(df);
    match df {
        DensityFunction::Constant(v) => {
            lemma_tag(b, at, opcode::CONSTANT, le(v as int, 8));
            lemma_le_len(v as int, 8);
        },
        DensityFunction::Add(x, y) => lemma_pair(b, at, opcode::ADD, df, *x, *y),
        DensityFunction::Mul(x, y) => lemma_pair(b, at, opcode::MUL, df, *x, *y),
        DensityFunction::Min(x, y) => lemma_pair(b, at, opcode::MIN, df, *x, *y),
        DensityFunction::Max(x, y) => lemma_pair(b, at, opcode::MAX, df, *x, *y),
        DensityFunction::Abs(x) => lemma_single(b, at, opcode::ABS, df, *x),
        DensityFunction::Square(x) => lemma_single(b, at, opcode::SQUARE, df, *x),
        DensityFunction::Cube(x) => lemma_single(b, at, opcode::CUBE, df, *x),
        DensityFunction::HalfNegative(x) => lemma_single(b, at, opcode::HALF_NEGATIVE, df, *x),
        DensityFunction::QuarterNegative(x) => lemma_single(b, at, opcode::QUARTER_NEGATIVE, df, *x),
        DensityFunction::Invert(x) => lemma_single(b, at, opcode::INVERT, df, *x),
        DensityFunction::Squeeze(x) => lemma_single(b, at, opcode::SQUEEZE, df, *x),
        DensityFunction::Clamp { input, min, max } => {
            let rest = le(min as int, 8) + le(max as int, 8);
            lemma_le_len(min as int, 8);
            lemma_le_len(max as int, 8);
            assert(s =~= seq![opcode::CLAMP] + (encode(*input) + rest));
            lemma_headed(b, at, opcode::CLAMP, df, *input, rest);
        },
        DensityFunction::YClampedGradient { from_y, to_y, from_value, to_value } => {
            lemma_le_len((from_y as u32) as int, 4);
            lemma_le_len((to_y as u32) as int, 4);
            lemma_le_len(from_value as int, 8);
            lemma_le_len(to_value as int, 8);
            let rest = encode_int(from_y) + encode_int(to_y) + le(from_value as int, 8) + le(to_value as int, 8);
            assert(s =~= seq![opcode::Y_CLAMPED_GRADIENT] + rest);
            lemma_tag(b, at, opcode::Y_CLAMPED_GRADIENT, rest);
        },
        DensityFunction::Marker { kind, wrapped } => {
            let mark = encode_marker(kind);
            assert(s =~= seq![opcode::MARKER] + (seq![mark] + encode(*wrapped)));
            lemma_tag(b, at, opcode::MARKER, seq![mark] + encode(*wrapped));
            lemma_tag(b, at + 1, mark, encode(*wrapped));
            lemma_tree(b, at + 2, *wrapped);
            lemma_one_end(b, at + 2, at + 2 + encode(*wrapped).len());
        },
        DensityFunction::Shift { noise_name } => {
            lemma_tag(b, at, opcode::SHIFT, encode_name(noise_name@));
            lemma_name(b, at + 1, noise_name@);
        },
        DensityFunction::ShiftA { noise_name } => {
            lemma_tag(b, at, opcode::SHIFT_A, encode_name(noise_name@));
            lemma_name(b, at + 1, noise_name@);
        },
        DensityFunction::ShiftB { noise_name } => {
            lemma_tag(b, at, opcode::SHIFT_B, encode_name(noise_name@));
            lemma_name(b, at + 1, noise_name@);
        },
        DensityFunction::BlendedNoise(n) => {
            lemma_le_len(n.xz_scale as int, 8);
            lemma_le_len(n.y_scale as int, 8);
            lemma_le_len(n.xz_factor as int, 8);
            lemma_le_len(n.y_factor as int, 8);
            lemma_le_len(n.smear_scale_multiplier as int, 8);
            let rest = le(n.xz_scale as int, 8) + le(n.y_scale as int, 8) + le(n.xz_factor as int, 8) + le(n.y_factor as int, 8) + le(
                n.smear_scale_multiplier as int, 8);
            assert(s =~= seq![opcode::BLENDED_NOISE] + rest);
            lemma_tag(b, at, opcode::BLENDED_NOISE, rest);
        },
        DensityFunction::EndIsland(_) => {
            assert(s =~= seq![opcode::END_ISLAND] + Seq::<u8>::empty());
            lemma_tag(b, at, opcode::END_ISLAND, Seq::empty());
        },
        DensityFunction::Spline(x) => {
            lemma_tag(b, at, opcode::SPLINE, encode_spline(*x));
            lemma_spline(b, at + 1, *x);
            let e = at + 1 + encode_spline(*x).len();
            assert(splines_end(b, e, 0) == Ok::<int, ParseError>(e));
            assert(splines_end(b, at + 1, 1) == Ok::<int, ParseError>(e));
        },
        DensityFunction::Noise { noise_name, xz_scale, y_scale } => {
            lemma_le_len(xz_scale as int, 8);
            lemma_le_len(y_scale as int, 8);
            let name = encode_name(noise_name@);
            let rest = le(xz_scale as int, 8) + le(y_scale as int, 8);
            assert(s =~= seq![opcode::NOISE] + (name + rest));
            lemma_tag(b, at, opcode::NOISE, name + rest);
            lemma_pieces(b, at + 1, name, rest);
            lemma_name(b, at + 1, noise_name@);
        },
        DensityFunction::RangeChoice { .. } => lemma_range(b, at, df),
        DensityFunction::ShiftedNoise { .. } => lemma_shifted(b, at, df),
        DensityFunction::WeirdScaledSampler { .. } => lemma_weird(b, at, df),
        DensityFunction::FindTopSurface { .. } => lemma_surface(b, at, df),
        DensityFunction::IntervalSelect { .. } => lemma_select(b, at, df),
    }
}

/// A choice by range that stands at a place.
proof fn lemma_range(b: Seq<u8>, at: int, df: DensityFunction)
    requires
        writable(df),
        stands(b, at, encode(df)),
        df is RangeChoice,
    ensures
        node_end(b, at) == Ok::<int, ParseError>(at + encode(df).len()),
        encode(df).len() >= 1,
    decreases df, 0nat,
{
    let s = encode(df);
    if let DensityFunction::RangeChoice { input, min_inclusive, max_exclusive, when_in_range, when_out_of_range } = df {
        lemma_le_len(min_inclusive as int, 8);
        lemma_le_len(max_exclusive as int, 8);
        let none = Seq::<u8>::empty();
        let (x, p, q) = (encode(*input), encode(*when_in_range), encode(*when_out_of_range));
        let d = le(min_inclusive as int, 8) + le(max_exclusive as int, 8);
        assert(s =~= seq![opcode::RANGE_CHOICE] + (x + (d + (p + (q + none)))));
        lemma_tag(b, at, opcode::RANGE_CHOICE, x + (d + (p + (q + none))));
        lemma_pieces(b, at + 1, x, d + (p + (q + none)));
        lemma_tree(b, at + 1, *input);
        let e = at + 1 + x.len();
        lemma_one_end(b, at + 1, e);
        lemma_pieces(b, e, d, p + (q + none));
        let g = e + 16;
        lemma_pieces(b, g, p, q + none);
        lemma_tree(b, g, *when_in_range);
        lemma_one_end(b, g, g + p.len());
        lemma_pieces(b, g + p.len(), q, none);
        lemma_tree(b, g + p.len(), *when_out_of_range);
        lemma_nodes_more(b, g, 1, g + p.len(), g + p.len() + q.len());
    }
}

/// A shifted noise that stands at a place.
proof fn lemma_shifted(b: Seq<u8>, at: int, df: DensityFunction)
    requires
        writable(df),
        stands(b, at, encode(df)),
        df is ShiftedNoise,
    ensures
        node_end(b, at) == Ok::<int, ParseError>(at + encode(df).len()),
        encode(df).len() >= 1,
    decreases df, 0nat,
{
    let s = encode(df);
    if let DensityFunction::ShiftedNoise { shift_x, shift_y, shift_z, xz_scale, y_scale, noise_name } = df {
        lemma_le_len(xz_scale as int, 8);
        lemma_le_len(y_scale as int, 8);
        let (x, y, z) = (encode(*shift_x), encode(*shift_y), encode(*shift_z));
        let d = le(xz_scale as int, 8) + le(y_scale as int, 8);
        let name = encode_name(noise_name@);
        assert(s =~= seq![opcode::SHIFTED_NOISE] + (x + (y + (z + (d + name)))));
        lemma_tag(b, at, opcode::SHIFTED_NOISE, x + (y + (z + (d + name))));
        lemma_pieces(b, at + 1, x, y + (z + (d + name)));
        lemma_tree(b, at + 1, *shift_x);
        let e = at + 1 + x.len();
        lemma_one_end(b, at + 1, e);
        lemma_pieces(b, e, y, z + (d + name));
        lemma_tree(b, e, *shift_y);
        lemma_nodes_more(b, at + 1, 1, e, e + y.len());
        lemma_pieces(b, e + y.len(), z, d + name);
        lemma_tree(b, e + y.len(), *shift_z);
        let g = e + y.len() + z.len();
        lemma_nodes_more(b, at + 1, 2, e + y.len(), g);
        lemma_pieces(b, g, d, name);
        lemma_name(b, g + 16, noise_name@);
    }
}

/// A scaled sampler that stands at a place.
proof fn lemma_weird(b: Seq<u8>, at: int, df: DensityFunction)
    requires
        writable(df),
        stands(b, at, encode(df)),
        df is WeirdScaledSampler,
    ensures
        node_end(b, at) == Ok::<int, ParseError>(at + encode(df).len()),
        encode(df).len() >= 1,
    decreases df, 0nat,
{
    let s = encode(df);
    if let DensityFunction::WeirdScaledSampler { input, noise_name, rarity_value_mapper } = df {
        let (x, name) = (encode(*input), encode_name(noise_name@));
        let r = encode_rarity(rarity_value_mapper);
        assert(s =~= seq![opcode::WEIRD_SCALED_SAMPLER] + (x + (name + (seq![r] + Seq::<u8>::empty()))));
        lemma_tag(b, at, opcode::WEIRD_SCALED_SAMPLER, x + (name + (seq![r] + Seq::<u8>::empty())));
        lemma_pieces(b, at + 1, x, name + (seq![r] + Seq::<u8>::empty()));
        lemma_tree(b, at + 1, *input);
        let e = at + 1 + x.len();
        lemma_one_end(b, at + 1, e);
        lemma_pieces(b, e, name, seq![r] + Seq::<u8>::empty());
        lemma_name(b, e, noise_name@);
        lemma_tag(b, e + name.len(), r, Seq::empty());
    }
}

/// A search for the surface that stands at a place.
proof fn lemma_surface(b: Seq<u8>, at: int, df: DensityFunction)
    requires
        writable(df),
        stands(b, at, encode(df)),
        df is FindTopSurface,
    ensures
        node_end(b, at) == Ok::<int, ParseError>(at + encode(df).len()),
        encode(df).len() >= 1,
    decreases df, 0nat,
{
    let s = encode(df);
    if let DensityFunction::FindTopSurface { density, upper_bound, lower_bound, cell_height } = df {
        lemma_le_len((lower_bound as u32) as int, 4);
        lemma_le_len((cell_height as u32) as int, 4);
        let (x, y) = (encode(*density), encode(*upper_bound));
        let d = encode_int(lower_bound) + encode_int(cell_height);
        assert(s =~= seq![opcode::FIND_TOP_SURFACE] + (x + (y + d)));
        lemma_tag(b, at, opcode::FIND_TOP_SURFACE, x + (y + d));
        lemma_pieces(b, at + 1, x, y + d);
        lemma_tree(b, at + 1, *density);
        let e = at + 1 + x.len();
        lemma_one_end(b, at + 1, e);
        lemma_pieces(b, e, y, d);
        lemma_tree(b, e, *upper_bound);
        lemma_nodes_more(b, at + 1, 1, e, e + y.len());
    }
}

/// A selection by intervals that stands at a place.
proof fn lemma_select(b: Seq<u8>, at: int, df: DensityFunction)
    requires
        writable(df),
        stands(b, at, encode(df)),
        df is IntervalSelect,
    ensures
        node_end(b, at) == Ok::<int, ParseError>(at + encode(df).len()),
        encode(df).len() >= 1,
    decreases df, 0nat,
{
    let s = encode(df);
    if let DensityFunction::IntervalSelect { input, thresholds, functions } = df {
        let n = thresholds@.len() as int;
        let (x, k, d, r) = (encode(*input), le(n, 2), encode_doubles(thresholds@), encode_all(functions@, functions@.len()));
        assert(s =~= seq![opcode::INTERVAL_SELECT] + (x + (k + (d + r))));
        lemma_tag(b, at, opcode::INTERVAL_SELECT, x + (k + (d + r)));
        lemma_pieces(b, at + 1, x, k + (d + r));
        lemma_tree(b, at + 1, *input);
        let e = at + 1 + x.len();
        lemma_one_end(b, at + 1, e);
        lemma_pieces(b, e, k, d + r);
        lemma_count(b, e, n);
        lemma_doubles_len(thresholds@);
        lemma_pieces(b, e + 2, d, r);
        lemma_row(b, e + 2 + 8 * n, functions@, functions@.len());
    }
}

/// The bytes of a tree are read as a tree up to their end, so that parsing
/// them succeeds, and gives a tree with the same bytes.
pub proof fn law_written_trees_parse(df: DensityFunction)
    requires
        writable(df),
    ensures
        node_end(encode(df), 0) == Ok::<int, ParseError>(encode(df).len() as int),
{
    let b = encode(df);
    assert(b.subrange(0, b.len() as int) =~= b);
    lemma_tree(b, 0, df);
}

} // verus!
