//! Ore features over a packed view of the region of chunks around one.
//!
//! Every placed feature reseeds its random source from the decoration seed,
//! so the ores of a chunk depend on nothing but the blocks they read.

use std::collections::HashMap;
use vstd::prelude::*;
use crate::arith::{answers, holds, lerp64, lerped64, low, reply, Ask, HALF, MINUS_ONE, ONE, ONE_32, TWO, ZERO};
use crate::beard26::SIXTEEN;
use crate::bitrandom::{below, between, next_int_bound, random_between_inclusive, single, BitSource, DOUBLE_UNIT};
use crate::carvers26::{can_lie_between, can_slope, floor_of, floored_int, mth_sin, table_sin, PI_32};
use crate::df26::{wrap, wrapped};
use crate::lod26::QuartGrid;
use crate::volume::{floor_div, floor_mod};
use crate::xoroshiro::XoroshiroRandomSource;

verus! {

/// A world generation random source: draws are derived from the high bits
/// of the 128-bit generator.
#[derive(Clone, Copy, Debug)]
pub struct WorldgenRandom {
    pub inner: XoroshiroRandomSource,
}

impl WorldgenRandom {
    /// The source of a seed.
    pub open spec fn seeded(seed: i64) -> WorldgenRandom {
        WorldgenRandom { inner: XoroshiroRandomSource::upgraded(seed) }
    }

    pub fn from_seed(seed: i64) -> (r: WorldgenRandom)
        ensures
            r == WorldgenRandom::seeded(seed),
    {
        WorldgenRandom { inner: XoroshiroRandomSource::from_legacy_seed(seed) }
    }

    /// A number below a bound.
    pub fn next_int_bounded(&mut self, bound: i32) -> (r: i32)
        requires
            bound > 0,
        ensures
            (r, *final(self)) == below(*old(self), bound),
            0 <= r < bound,
    {
        next_int_bound(self, bound)
    }

    /// A single in `[0, 1)`.
    pub fn next_float<F: Fn(Ask) -> u64>(&mut self, f: &F) -> (r: u32)
        requires
            answers(*f),
        ensures
            (r, *final(self)) == single(*f, *old(self)),
    {
        crate::bitrandom::next_float(self, f)
    }

    /// A double in `[0, 1)` from 53 bits.
    pub open spec fn double<F: Fn(Ask) -> u64>(self, f: F) -> (u64, WorldgenRandom) {
        let (upper, s) = self.drawn(26);
        let (lower, t) = s.drawn(27);
        (
            reply(f, Ask::Mul64(reply(f, Ask::FromLong64((upper * 0x800_0000 + lower) as i64)), DOUBLE_UNIT)),
            t,
        )
    }

    pub fn next_double<F: Fn(Ask) -> u64>(&mut self, f: &F) -> (r: u64)
        requires
            answers(*f),
        ensures
            (r, *final(self)) == old(self).double(*f),
    {
        let upper: i32 = self.next(26);
        let lower: i32 = self.next(27);
        let both: i64 = upper as i64 * 0x800_0000 + lower as i64;
        let w: u64 = f(Ask::FromLong64(both));
        f(Ask::Mul64(w, DOUBLE_UNIT))
    }
}

impl BitSource for WorldgenRandom {
    open spec fn drawn(self, bits: u32) -> (i32, WorldgenRandom) {
        ((self.inner.long() >> ((64 - bits) as u64)) as i32, WorldgenRandom { inner: self.inner.stepped() })
    }

    fn next(&mut self, bits: u32) -> (r: i32) {
        let v: u64 = self.inner.next_long();
        let shift: u64 = (64 - bits) as u64;
        proof {
            assert(shift >= 33 && shift <= 63 ==> (v >> shift) <= 0x7fff_ffff) by (bit_vector);
        }
        (v >> shift) as i32
    }
}

/// The step between neighbouring singles at numbers of some magnitude: one
/// up to where 24 bits no longer hold them, then twice as much for each bit
/// more.
pub open spec fn grain(magnitude: int) -> int
    decreases magnitude,
{
    if magnitude <= 0x100_0000 { 1 } else { 2 * grain((magnitude + 1) / 2) }
}

/// The single nearest to a whole number, of two the one with the even last
/// digit.
pub open spec fn nearest_single(n: int) -> int {
    let g = grain(if n < 0 { -n } else { n });
    let (q, r) = (n / g, n % g);
    if 2 * r < g || (2 * r == g && q % 2 == 0) { q * g } else { (q + 1) * g }
}

/// How far an ore of some size reaches: one more than an eighth of its size,
/// halved, rounded up. The size and the sum are singles.
pub open spec fn radius_of(size: int) -> int {
    (nearest_single(nearest_single(size) + 8) + 15) / 16
}

fn grain_of(magnitude: i64) -> (r: i64)
    requires
        0 <= magnitude <= 0x1_0000_0000,
    ensures
        r == grain(magnitude as int),
        1 <= r <= 0x100,
{
    let mut m: i64 = magnitude;
    let mut g: i64 = 1;
    while m > 0x100_0000
        invariant
            0 <= m <= 0x1_0000_0000,
            g == 1 || g == 2 || g == 4 || g == 8 || g == 16 || g == 32 || g == 64 || g == 128 || g == 256,
            (m - 1) * g < 0x1_0000_0000,
            grain(magnitude as int) == g * grain(m as int),
        decreases m,
    {
        let ghost (m0, g0) = (m as int, g as int);
        proof {
            assert(g0 * grain(m0) == (g0 * 2) * grain((m0 + 1) / 2)) by (nonlinear_arith)
                requires
                    grain(m0) == 2 * grain((m0 + 1) / 2),
            ;
        }
        m = (m + 1) / 2;
        g = g * 2;
    }
    g
}

/// A quotient, rounded down.
fn down(n: i64, g: i64) -> (r: i64)
    requires
        -0x2_0000_0000 <= n <= 0x2_0000_0000,
        1 <= g <= 0x100,
    ensures
        r == n as int / g as int,
        n - g < r * g <= n,
{
    let r: i64 = if n >= 0 { n / g } else { -((g - 1 - n) / g) };
    proof {
        let (a, b) = (n as int, g as int);
        if a < 0 {
            let up = (b - 1 - a) / b;
            vstd::arithmetic::div_mod::lemma_fundamental_div_mod(b - 1 - a, b);
            let rest = b - 1 - (b - 1 - a) % b;
            assert(a == (-up) * b + rest) by (nonlinear_arith)
                requires
                    b - 1 - a == b * up + (b - 1 - a) % b,
                    rest == b - 1 - (b - 1 - a) % b,
            ;
            vstd::arithmetic::div_mod::lemma_fundamental_div_mod_converse(a, b, -up, rest);
        }
        vstd::arithmetic::div_mod::lemma_fundamental_div_mod(a, b);
        assert(b * r == r * b) by (nonlinear_arith);
    }
    r
}

fn to_single(n: i64) -> (r: i64)
    requires
        -0x1_0000_0000 <= n <= 0x1_0000_0000,
    ensures
        r == nearest_single(n as int),
        n - 0x100 <= r <= n + 0x100,
{
    let g: i64 = grain_of(if n < 0 { -n } else { n });
    let q: i64 = down(n, g);
    let rest: i64 = n - q * g;
    proof {
        vstd::arithmetic::div_mod::lemma_fundamental_div_mod(n as int, g as int);
        assert(g * q == q * g && (q + 1) * g == q * g + g) by (nonlinear_arith);
    }
    if 2 * rest < g || (2 * rest == g && q % 2 == 0) { n - rest } else { n - rest + g }
}

pub fn max_radius(size: i32) -> (r: i32)
    ensures
        r == radius_of(size as int),
        0 <= size <= 0x10_0000 ==> r == (size + 23) / 16,
{
    let v: i64 = to_single(to_single(size as i64) + 8);
    down(v + 15, 16) as i32
}

/// A set of bits that grows as needed, in words.
pub struct BitSet {
    words: HashMap<u64, u64>,
}

impl Default for BitSet {
    fn default() -> (r: BitSet)
        ensures
            r@ == Set::<u64>::empty(),
    {
        let r = BitSet { words: HashMap::new() };
        proof { assert(r@ =~= Set::empty()); }
        r
    }
}

/// A bit of a word.
pub open spec fn bit_of(word: u64, b: u64) -> bool {
    word & (1u64 << b) != 0
}

impl View for BitSet {
    type V = Set<u64>;

    closed spec fn view(&self) -> Set<u64> {
        Set::new(|i: u64| self.words@.contains_key((i / 64) as u64) && bit_of(self.words@[(i / 64) as u64], (i % 64) as u64))
    }
}

impl BitSet {
    /// Set a bit; whether it was set already.
    pub fn set(&mut self, bit: u64) -> (was: bool)
        ensures
            was == old(self)@.contains(bit),
            final(self)@ == old(self)@.insert(bit),
    {
        let word: u64 = bit / 64;
        let w: u64 = match self.words.get(&word) {
            Some(w) => *w,
            None => 0,
        };
        let b: u64 = bit % 64;
        let mask: u64 = 1u64 << b;
        let was: bool = w & mask != 0;
        let ghost before = self.words@;
        self.words.insert(word, w | mask);
        proof {
            assert forall|k: u64| k < 64 implies !#[trigger] bit_of(0, k) by {
                assert(0u64 & (1u64 << k) == 0) by (bit_vector);
            }
            assert forall|i: u64| self@.contains(i) <==> old(self)@.insert(bit).contains(i) by {
                let k = (i % 64) as u64;
                if i / 64 == word {
                    assert(k < 64 && b < 64 ==> ((w | (1u64 << b)) & (1u64 << k) != 0) == (k == b || w & (1u64 << k) != 0))
                        by (bit_vector);
                    assert(bit_of(w | mask, k) == (k == b || bit_of(w, k)));
                    if !before.contains_key(word) {
                        assert(!bit_of(0, k));
                    }
                }
            }
            assert(self@ =~= old(self)@.insert(bit));
            assert(was == bit_of(w, b));
            if !before.contains_key(word) {
                assert(!bit_of(0, b));
            }
        }
        was
    }
}

pub const REGION_CHUNKS: usize = 9;

/// Height map data: nine bits per column, seven columns per number.
pub const HEIGHT_LONGS: usize = 37;

/// States that were written are kept in the view from here up, above every
/// state id of the game.
pub const WRITTEN_BASE: u16 = 64511;

/// 65535.
pub const NO_BLOCK: u16 = 65535;

/// A test on a block and its height.
pub enum RuleTest {
    AlwaysTrue,
    /// Membership per block index.
    Tag(Vec<bool>),
    Block(u16),
    Height { min: i32, max: i32 },
    Not(Box<RuleTest>),
    AllOf(Vec<RuleTest>),
    AnyOf(Vec<RuleTest>),
}

/// A block passes a test.
pub open spec fn passes(t: RuleTest, block: u16, y: int) -> bool
    decreases t,
{
    match t {
        RuleTest::AlwaysTrue => true,
        RuleTest::Tag(m) => block < m@.len() && m@[block as int],
        RuleTest::Block(b) => b == block,
        RuleTest::Height { min, max } => min <= y <= max,
        RuleTest::Not(r) => !passes(*r, block, y),
        RuleTest::AllOf(rs) => forall|i: int| 0 <= i < rs@.len() ==> passes(#[trigger] rs@[i], block, y),
        RuleTest::AnyOf(rs) => exists|i: int| 0 <= i < rs@.len() && passes(#[trigger] rs@[i], block, y),
    }
}

impl RuleTest {
    pub fn test(&self, block: u16, y: i32) -> (r: bool)
        ensures
            r == passes(*self, block, y as int),
        decreases *self,
    {
        match self {
            RuleTest::AlwaysTrue => true,
            RuleTest::Tag(m) => (block as usize) < m.len() && m[block as usize],
            RuleTest::Block(b) => *b == block,
            RuleTest::Height { min, max } => *min <= y && y <= *max,
            RuleTest::Not(r) => !r.test(block, y),
            RuleTest::AllOf(rs) => {
                let mut i: usize = 0;
                while i < rs.len()
                    invariant
                        i <= rs@.len(),
                        *self matches RuleTest::AllOf(g) && g == *rs,
                        forall|k: int| 0 <= k < i ==> passes(#[trigger] rs@[k], block, y as int),
                    decreases rs.len() - i,
                {
                    proof {
                        assert(decreases_to!(*self => self->AllOf_0));
                        assert(decreases_to!(rs@ => rs@[i as int]));
                    }
                    if !rs[i].test(block, y) {
                        proof { assert(!passes(rs@[i as int], block, y as int)); }
                        return false;
                    }
                    i += 1;
                }
                true
            },
            RuleTest::AnyOf(rs) => {
                let mut i: usize = 0;
                while i < rs.len()
                    invariant
                        i <= rs@.len(),
                        *self matches RuleTest::AnyOf(g) && g == *rs,
                        forall|k: int| 0 <= k < i ==> !passes(#[trigger] rs@[k], block, y as int),
                    decreases rs.len() - i,
                {
                    proof {
                        assert(decreases_to!(*self => self->AnyOf_0));
                        assert(decreases_to!(rs@ => rs@[i as int]));
                    }
                    if rs[i].test(block, y) {
                        proof { assert(passes(rs@[i as int], block, y as int)); }
                        return true;
                    }
                    i += 1;
                }
                false
            },
        }
    }
}

/// An integer drawn in some way.
#[derive(Clone, Copy, Debug)]
pub enum IntProvider {
    Constant(i32),
    Uniform { min: i32, max: i32 },
}

impl IntProvider {
    pub open spec fn wf(self) -> bool {
        self matches IntProvider::Uniform { min, max } ==> min <= max && max - min < i32::MAX
    }

    pub open spec fn drawn(self, r: WorldgenRandom) -> (int, WorldgenRandom) {
        match self {
            IntProvider::Constant(v) => (v as int, r),
            IntProvider::Uniform { min, max } => between(r, min as int, max as int),
        }
    }

    pub fn sample(&self, random: &mut WorldgenRandom) -> (r: i32)
        requires
            self.wf(),
        ensures
            (r as int, *final(random)) == self.drawn(*old(random)),
    {
        match *self {
            IntProvider::Constant(v) => v,
            IntProvider::Uniform { min, max } => random_between_inclusive(random, min, max),
        }
    }
}

/// A height drawn in some way.
#[derive(Clone, Copy, Debug)]
pub enum HeightProvider {
    Constant(i32),
    Uniform { min: i32, max: i32 },
    Trapezoid { min: i32, max: i32, plateau: i32 },
}

impl HeightProvider {
    /// Whatever is drawn, the sums stay within 32 bits.
    pub open spec fn wf(self) -> bool {
        match self {
            HeightProvider::Constant(_) => true,
            HeightProvider::Uniform { min, max } => can_lie_between(min, max),
            HeightProvider::Trapezoid { min, max, plateau } => can_slope(min, max, plateau),
        }
    }

    pub open spec fn drawn(self, r: WorldgenRandom) -> (int, WorldgenRandom) {
        match self {
            HeightProvider::Constant(y) => (y as int, r),
            HeightProvider::Uniform { min, max } => if min > max {
                (min as int, r)
            } else {
                between(r, min as int, max as int)
            },
            HeightProvider::Trapezoid { min, max, plateau } => {
                let range = max - min;
                if min > max {
                    (min as int, r)
                } else if plateau >= range {
                    between(r, min as int, max as int)
                } else {
                    let start = (range - plateau) / 2;
                    let (a, s) = between(r, 0, range - start);
                    let (b, t) = between(s, 0, start);
                    (min + a + b, t)
                }
            },
        }
    }

    pub fn sample(&self, random: &mut WorldgenRandom) -> (r: i32)
        requires
            self.wf(),
        ensures
            (r as int, *final(random)) == self.drawn(*old(random)),
    {
        match *self {
            HeightProvider::Constant(y) => y,
            HeightProvider::Uniform { min, max } => {
                if min > max { min } else { random_between_inclusive(random, min, max) }
            },
            HeightProvider::Trapezoid { min, max, plateau } => {
                if min > max {
                    return min;
                }
                let range: i32 = max - min;
                if plateau >= range {
                    return random_between_inclusive(random, min, max);
                }
                let start: i32 = (range - plateau) / 2;
                let end: i32 = range - start;
                let a: i32 = random_between_inclusive(random, 0, end);
                let b: i32 = random_between_inclusive(random, 0, start);
                min + a + b
            },
        }
    }

    /// The lowest and the highest height that can be drawn.
    pub fn bounds(&self) -> (r: (i32, i32))
        ensures
            match *self {
                HeightProvider::Constant(y) => r == (y, y),
                HeightProvider::Uniform { min, max } => r == (min, if max > min { max } else { min }),
                HeightProvider::Trapezoid { min, max, .. } => r == (min, if max > min { max } else { min }),
            },
    {
        match *self {
            HeightProvider::Constant(y) => (y, y),
            HeightProvider::Uniform { min, max } => (min, if max > min { max } else { min }),
            HeightProvider::Trapezoid { min, max, .. } => (min, if max > min { max } else { min }),
        }
    }
}

/// A batch handed over by the game before its sections are known.
pub struct OreBatch {
    pub seeds: Vec<i64>,
    pub placed: Vec<u16>,
    pub grid: QuartGrid,
}

/// Why a section or a region cannot be made.
#[derive(Clone, Copy, Debug, PartialEq, Eq, Structural)]
pub enum RegionError {
    /// A section of one state needs a palette of one entry.
    PaletteSize,
    /// There are more than sixteen bits per block.
    Bits,
    /// The storage is too short.
    Storage,
    /// There is not one height map per chunk.
    Heights,
    /// There is no such section.
    OutOfRange,
}

/// One section as the game stores it: bit storage over a palette of state
/// ids (an empty palette means that the storage holds the ids).
pub struct Section {
    bits: u32,
    raw: Vec<u64>,
    palette: Vec<u16>,
    /// Filled on the first write.
    decoded: Option<Vec<u16>>,
}

/// The value at a place of packed storage.
pub open spec fn unpacked(raw: Seq<u64>, bits: u32, i: int) -> u64 {
    let per_long = 64int / (bits as int);
    let shift = (i % per_long) * bits;
    (raw[i / per_long] >> (shift as u64)) & (((1u64 << (bits as u64)) - 1) as u64)
}

/// The state that stored data hold for a block.
pub open spec fn stored(bits: u32, raw: Seq<u64>, palette: Seq<u16>, i: int) -> u16 {
    if bits == 0 {
        palette[0]
    } else {
        let v = unpacked(raw, bits, i);
        if palette.len() == 0 {
            v as u16
        } else if v < palette.len() {
            palette[v as int]
        } else {
            NO_BLOCK
        }
    }
}

/// Why data make no section.
pub open spec fn section_error(bits: u32, raw: Seq<u64>, palette: Seq<u16>) -> Option<RegionError> {
    if bits == 0 {
        if palette.len() != 1 { Some(RegionError::PaletteSize) } else { None }
    } else if bits > 16 {
        Some(RegionError::Bits)
    } else if raw.len() * (64int / (bits as int)) < 4096 {
        Some(RegionError::Storage)
    } else {
        None
    }
}

impl View for Section {
    type V = Seq<u16>;

    /// The states of the blocks, y slowest, then z, then x.
    closed spec fn view(&self) -> Seq<u16> {
        match self.decoded {
            Some(d) => d@,
            None => Seq::new(4096, |i: int| stored(self.bits, self.raw@, self.palette@, i)),
        }
    }
}

impl Section {
    pub closed spec fn wf(&self) -> bool {
        &&& section_error(self.bits, self.raw@, self.palette@) is None
        &&& (self.decoded matches Some(d) ==> d@.len() == 4096)
    }

    pub fn new(bits: u32, raw: Vec<u64>, palette: Vec<u16>) -> (r: Result<Section, RegionError>)
        ensures
            match r {
                Ok(s) => {
                    &&& section_error(bits, raw@, palette@) is None
                    &&& s.wf()
                    &&& s@ == Seq::new(4096, |i: int| stored(bits, raw@, palette@, i))
                },
                Err(e) => section_error(bits, raw@, palette@) == Some(e),
            },
    {
        if bits == 0 {
            if palette.len() != 1 {
                return Err(RegionError::PaletteSize);
            }
        } else if bits > 16 {
            return Err(RegionError::Bits);
        } else {
            let per: u64 = (64 / bits) as u64;
            let n: usize = raw.len();
            proof {
                assert(1 <= per <= 64) by (nonlinear_arith)
                    requires
                        per == 64int / (bits as int),
                        1 <= bits <= 16,
                ;
                if n >= 4096 {
                    assert(n * per >= 4096) by (nonlinear_arith)
                        requires
                            n >= 4096,
                            per >= 1,
                    ;
                } else {
                    assert(n * per <= 4096 * 64) by (nonlinear_arith)
                        requires
                            0 <= n < 4096,
                            1 <= per <= 64,
                    ;
                }
            }
            if n < 4096 && (n as u64) * per < 4096 {
                return Err(RegionError::Storage);
            }
        }
        let s = Section { bits, raw, palette, decoded: None };
        Ok(s)
    }

    fn get_stored(&self, index: usize) -> (r: u16)
        requires
            self.wf(),
            index < 4096,
        ensures
            r == stored(self.bits, self.raw@, self.palette@, index as int),
    {
        if self.bits == 0 {
            return self.palette[0];
        }
        let bits: u32 = self.bits;
        let per: usize = (64 / bits) as usize;
        proof {
            vstd::arithmetic::div_mod::lemma_fundamental_div_mod(64, bits as int);
            let n = self.raw@.len() as int;
            assert(1 <= per <= 64) by (nonlinear_arith)
                requires
                    per == 64int / (bits as int),
                    1 <= bits <= 16,
            ;
            vstd::arithmetic::div_mod::lemma_fundamental_div_mod(index as int, per as int);
            let q = index as int / per as int;
            let m = index as int % per as int;
            assert(q < n) by (nonlinear_arith)
                requires
                    index == per * q + m,
                    0 <= m,
                    index < 4096,
                    n * per >= 4096,
                    per >= 1,
            ;
            assert(per * bits <= 64) by (nonlinear_arith)
                requires
                    64 == bits * (64int / (bits as int)) + 64int % (bits as int),
                    0 <= 64int % (bits as int),
                    per == 64int / (bits as int),
            ;
            assert(0 <= m * bits <= 63) by (nonlinear_arith)
                requires
                    0 <= m < per,
                    per * bits <= 64,
                    1 <= bits,
            ;
            let b = bits as u64;
            assert(1 <= b <= 16 ==> (1u64 << b) >= 2) by (bit_vector);
        }
        let word: u64 = self.raw[index / per];
        let shift: u64 = ((index % per) as u32 * bits) as u64;
        let v: u64 = (word >> shift) & ((1u64 << (bits as u64)) - 1);
        if self.palette.len() == 0 {
            v as u16
        } else if v < self.palette.len() as u64 {
            self.palette[v as usize]
        } else {
            NO_BLOCK
        }
    }

    /// The state at a place.
    pub fn get(&self, index: usize) -> (r: u16)
        requires
            self.wf(),
            index < 4096,
        ensures
            r == self@[index as int],
    {
        match &self.decoded {
            Some(d) => d[index],
            None => self.get_stored(index),
        }
    }

    /// Give a place a state.
    pub fn set(&mut self, index: usize, state: u16)
        requires
            old(self).wf(),
            index < 4096,
        ensures
            final(self).wf(),
            final(self)@ == old(self)@.update(index as int, state),
    {
        let ghost all = self@;
        let mut d: Vec<u16> = Vec::new();
        let mut i: usize = 0;
        while i < 4096
            invariant
                i <= 4096,
                self.wf(),
                all == self@,
                all.len() == 4096,
                d@.len() == i,
                forall|k: int| 0 <= k < i ==> #[trigger] d@[k] == all[k],
            decreases 4096 - i,
        {
            d.push(self.get(i));
            i += 1;
        }
        d.set(index, state);
        self.decoded = Some(d);
        proof { assert(self@ =~= all.update(index as int, state)); }
    }
}

/// A write the game applies: chunk slot and section, the position in it
/// packed as x, y, z from the low bits up, and the palette id.
#[derive(Clone, Copy, Debug, PartialEq, Eq, Structural)]
pub struct Write {
    pub slot: u32,
    pub packed: u16,
    pub state: u16,
}

/// The chunks around one, as sections the game handed over.
pub struct Region {
    pub chunk_x: i32,
    pub chunk_z: i32,
    min_y: i32,
    height: i32,
    /// By chunk slot, then from the bottom up.
    sections: Vec<Option<Section>>,
    /// The first free height per column, by chunk slot.
    ocean_floor: Vec<i32>,
    pub writes: Vec<Write>,
}

/// The region as a value.
pub ghost struct Around {
    pub chunk_x: int,
    pub chunk_z: int,
    pub min_y: int,
    pub height: int,
    pub sections: Seq<Option<Seq<u16>>>,
    pub floors: Seq<i32>,
    pub writes: Seq<Write>,
}

/// The height that height map data hold for a column.
pub open spec fn raw_height(heights: Seq<i64>, slot: int, i: int) -> int {
    ((heights[slot * 37 + i / 7] as u64 >> (((i % 7) * 9) as u64)) & 511u64) as int
}

impl Around {
    pub open spec fn section_count(self) -> int {
        self.height / 16
    }

    /// The chunk slot of a block column.
    pub open spec fn slot(self, x: int, z: int) -> Option<int> {
        let (dx, dz) = (x / 16 - self.chunk_x + 1, z / 16 - self.chunk_z + 1);
        if 0 <= dx < 3 && 0 <= dz < 3 { Some(dz * 3 + dx) } else { None }
    }

    /// A height lies outside of the world.
    pub open spec fn beyond(self, y: int) -> bool {
        y < self.min_y || y >= self.min_y + self.height
    }

    /// The section of a block and its place there.
    pub open spec fn home(self, x: int, y: int, z: int) -> Option<(int, int)> {
        match self.slot(x, z) {
            Some(s) => if self.beyond(y) {
                None
            } else {
                Some(
                    (
                        s * self.section_count() + (y - self.min_y) / 16,
                        (y % 16) * 256 + (z % 16) * 16 + x % 16,
                    ),
                )
            },
            None => None,
        }
    }

    /// The state at a block.
    pub open spec fn state(self, x: int, y: int, z: int) -> Option<u16> {
        match self.home(x, y, z) {
            Some((i, k)) => match self.sections[i] {
                Some(s) => Some(s[k]),
                None => None,
            },
            None => None,
        }
    }

    /// With a palette id written: it is kept counted down from the top.
    pub open spec fn with(self, x: int, y: int, z: int, state: u16) -> Around {
        match self.home(x, y, z) {
            Some((i, k)) => match self.sections[i] {
                Some(s) => Around {
                    sections: self.sections.update(i, Some(s.update(k, (NO_BLOCK - state) as u16))),
                    writes: self.writes.push(
                        Write {
                            slot: (i / self.section_count() + (i % self.section_count()) * 16) as u32,
                            packed: ((z % 16) * 256 + (y % 16) * 16 + x % 16) as u16,
                            state,
                        },
                    ),
                    ..self
                },
                None => self,
            },
            None => self,
        }
    }

    /// The first free height of a column; below the world where there is
    /// no chunk.
    pub open spec fn floor(self, x: int, z: int) -> int {
        match self.slot(x, z) {
            Some(s) => self.floors[s * 256 + (z % 16) * 16 + x % 16] as int,
            None => self.min_y - 1,
        }
    }
}

/// The states of a section that may be missing.
pub open spec fn states_of(s: Option<Section>) -> Option<Seq<u16>> {
    match s {
        Some(s) => Some(s@),
        None => None,
    }
}

impl View for Region {
    type V = Around;

    closed spec fn view(&self) -> Around {
        Around {
            chunk_x: self.chunk_x as int,
            chunk_z: self.chunk_z as int,
            min_y: self.min_y as int,
            height: self.height as int,
            sections: self.sections@.map_values(|s: Option<Section>| states_of(s)),
            floors: self.ocean_floor@,
            writes: self.writes@,
        }
    }
}

impl Region {
    pub closed spec fn wf(&self) -> bool {
        &&& 0 <= self.height
        &&& self.height % 16 == 0
        &&& self.sections@.len() == 9 * (self.height as int / 16)
        &&& self.ocean_floor@.len() == 2304
        &&& forall|i: int| 0 <= i < self.sections@.len() ==> (#[trigger] self.sections@[i] matches Some(s) ==> s.wf())
        &&& forall|i: int| 0 <= i < self.sections@.len() ==> (#[trigger] self.sections@[i] matches Some(s) ==> s@.len() == 4096)
    }

    /// A region holds the sections of nine chunks, each with every state,
    /// and their floors.
    pub proof fn lemma_sections(&self)
        requires
            self.wf(),
        ensures
            self@.sections.len() == 9 * self@.section_count(),
            self@.floors.len() == 2304,
            forall|i: int| 0 <= i < self@.sections.len() ==> (#[trigger] self@.sections[i] matches Some(s) ==> s.len() == 4096),
    {
        assert forall|i: int| 0 <= i < self@.sections.len() implies (#[trigger] self@.sections[i] matches Some(s) ==> s.len() == 4096) by {
            assert(self@.sections[i] == states_of(self.sections@[i]));
        }
    }

    /// A region around a chunk. `heights` are the raw height maps of the
    /// nine chunks, in slot order.
    pub fn new(chunk_x: i32, chunk_z: i32, min_y: i32, height: i32, heights: &[i64]) -> (r: Result<Region, RegionError>)
        requires
            0 <= height,
            height % 16 == 0,
            min_y <= i32::MAX - 511,
        ensures
            match r {
                Ok(g) => {
                    &&& heights@.len() == 333
                    &&& g.wf()
                    &&& g@.chunk_x == chunk_x && g@.chunk_z == chunk_z && g@.min_y == min_y && g@.height == height
                    &&& g@.sections == Seq::new((9 * (height as int / 16)) as nat, |i: int| None::<Seq<u16>>)
                    &&& g@.floors == Seq::new(2304, |i: int| (raw_height(heights@, i / 256, i % 256) + min_y) as i32)
                    &&& g@.writes == Seq::<Write>::empty()
                },
                Err(e) => heights@.len() != 333 && e == RegionError::Heights,
            },
    {
        if heights.len() != REGION_CHUNKS * HEIGHT_LONGS {
            return Err(RegionError::Heights);
        }
        let mut floor: Vec<i32> = Vec::new();
        let mut i: usize = 0;
        while i < 2304
            invariant
                i <= 2304,
                heights@.len() == 333,
                min_y <= i32::MAX - 511,
                floor@.len() == i,
                forall|k: int| 0 <= k < i ==> #[trigger] floor@[k] == (raw_height(heights@, k / 256, k % 256) + min_y) as i32,
            decreases 2304 - i,
        {
            let (slot, c): (usize, usize) = (i / 256, i % 256);
            let word: u64 = heights[slot * 37 + c / 7] as u64;
            let shift: u64 = ((c % 7) * 9) as u64;
            let v: u64 = (word >> shift) & 511u64;
            proof {
                let w = word >> shift;
                assert((w & 511u64) <= 511) by (bit_vector);
            }
            floor.push(v as i32 + min_y);
            i += 1;
        }
        let n: usize = 9 * (height / 16) as usize;
        let mut sections: Vec<Option<Section>> = Vec::new();
        let mut k: usize = 0;
        while k < n
            invariant
                k <= n,
                sections@.len() == k,
                forall|j: int| 0 <= j < k ==> #[trigger] sections@[j] is None,
            decreases n - k,
        {
            sections.push(None);
            k += 1;
        }
        let g = Region { chunk_x, chunk_z, min_y, height, sections, ocean_floor: floor, writes: Vec::new() };
        proof {
            assert(g@.sections =~= Seq::new((9 * (height as int / 16)) as nat, |i: int| None::<Seq<u16>>));
            assert(g@.floors =~= Seq::new(2304, |i: int| (raw_height(heights@, i / 256, i % 256) + min_y) as i32));
            assert(g@.writes =~= Seq::empty());
        }
        Ok(g)
    }

    /// Install a section: `slot` is the chunk slot, sections count from the
    /// bottom.
    pub fn install(&mut self, slot: usize, section: usize, data: Section) -> (r: Result<(), RegionError>)
        requires
            old(self).wf(),
            data.wf(),
            data@.len() == 4096,
        ensures
            final(self).wf(),
            match r {
                Ok(_) => {
                    &&& slot < 9 && section < old(self)@.section_count()
                    &&& final(self)@ == (Around {
                        sections: old(self)@.sections.update(
                            slot * old(self)@.section_count() + section, Some(data@)),
                        ..old(self)@
                    })
                },
                Err(e) => {
                    &&& !(slot < 9 && section < old(self)@.section_count())
                    &&& e == RegionError::OutOfRange
                    &&& final(self)@ == old(self)@
                },
            },
    {
        let count: usize = (self.height / 16) as usize;
        if slot >= REGION_CHUNKS || section >= count {
            return Err(RegionError::OutOfRange);
        }
        proof {
            assert(slot * count + section < 9 * count && 0 <= slot * count) by (nonlinear_arith)
                requires
                    0 <= slot <= 8,
                    0 <= section < count,
            ;
        }
        let ghost before = self@;
        let i: usize = slot * count + section;
        self.sections.set(i, Some(data));
        proof {
            assert(self@.sections =~= before.sections.update(i as int, Some(data@)));
        }
        Ok(())
    }

    /// The chunk slot of a block column.
    pub fn slot_of(&self, x: i32, z: i32) -> (r: Option<usize>)
        ensures
            r is Some <==> self@.slot(x as int, z as int) is Some,
            r matches Some(s) ==> self@.slot(x as int, z as int) == Some(s as int) && s < 9,
    {
        let dx: i64 = floor_div(x, 16) as i64 - self.chunk_x as i64 + 1;
        let dz: i64 = floor_div(z, 16) as i64 - self.chunk_z as i64 + 1;
        if 0 <= dx && dx < 3 && 0 <= dz && dz < 3 { Some((dz * 3 + dx) as usize) } else { None }
    }

    pub fn outside_build_height(&self, y: i32) -> (r: bool)
        ensures
            r == self@.beyond(y as int),
    {
        y < self.min_y || y as i64 >= self.min_y as i64 + self.height as i64
    }

    /// Whether features may write to a block column.
    pub fn can_write(&self, x: i32, z: i32) -> (r: bool)
        ensures
            r == (self@.slot(x as int, z as int) is Some),
    {
        self.slot_of(x, z).is_some()
    }

    /// The first free height of a column.
    pub fn ocean_floor_height(&self, x: i32, z: i32) -> (r: i32)
        requires
            self.wf(),
            self@.min_y > i32::MIN,
        ensures
            r == self@.floor(x as int, z as int),
    {
        match self.slot_of(x, z) {
            Some(s) => self.ocean_floor[s * 256 + floor_mod(z, 16) as usize * 16 + floor_mod(x, 16) as usize],
            None => self.min_y - 1,
        }
    }

    fn section_index(&self, x: i32, y: i32, z: i32) -> (r: Option<(usize, usize)>)
        requires
            self.wf(),
        ensures
            r is Some <==> self@.home(x as int, y as int, z as int) is Some,
            r matches Some(p) ==> self@.home(x as int, y as int, z as int) == Some((p.0 as int, p.1 as int)) && p.0
                < self.sections@.len() && p.1 < 4096,
    {
        if self.outside_build_height(y) {
            return None;
        }
        match self.slot_of(x, z) {
            None => None,
            Some(s) => {
                let count: usize = (self.height / 16) as usize;
                let section: usize = ((y as i64 - self.min_y as i64) / 16) as usize;
                let n: usize = self.sections.len();
                proof {
                    assert(s * count + section < 9 * count && 0 <= s * count) by (nonlinear_arith)
                        requires
                            0 <= s <= 8,
                            0 <= section < count,
                    ;
                }
                let k: usize = floor_mod(y, 16) as usize * 256 + floor_mod(z, 16) as usize * 16 + floor_mod(x, 16) as usize;
                Some((s * count + section, k))
            },
        }
    }

    /// The state at a block; nothing where there is no section.
    pub fn get(&self, x: i32, y: i32, z: i32) -> (r: Option<u16>)
        requires
            self.wf(),
        ensures
            r == self@.state(x as int, y as int, z as int),
    {
        match self.section_index(x, y, z) {
            None => None,
            Some((i, k)) => {
                proof { assert(self@.sections[i as int] == states_of(self.sections@[i as int])); }
                match &self.sections[i] {
                    Some(s) => Some(s.get(k)),
                    None => None,
                }
            },
        }
    }

    /// Record a write and apply it to the view; `state` is a palette id.
    pub fn set(&mut self, x: i32, y: i32, z: i32, state: u16)
        requires
            old(self).wf(),
        ensures
            final(self).wf(),
            final(self)@ == old(self)@.with(x as int, y as int, z as int, state),
    {
        let (i, k) = match self.section_index(x, y, z) {
            None => return,
            Some(p) => p,
        };
        let ghost before = *self;
        let count: usize = (self.height / 16) as usize;
        proof {
            assert(self@.sections[i as int] == states_of(self.sections@[i as int]));
            assert(count >= 1) by {
                if count == 0 {
                    assert(self.sections@.len() == 0);
                }
            }
        }
        if self.sections[i].is_none() {
            return;
        }
        match &mut self.sections[i] {
            None => {},
            Some(s) => s.set(k, NO_BLOCK - state),
        }
        proof {
            assert(self@.sections =~= before@.sections.update(
                i as int, Some(before@.sections[i as int]->Some_0.update(k as int, (NO_BLOCK - state) as u16))));
            vstd::arithmetic::div_mod::lemma_fundamental_div_mod(i as int, count as int);
            let q = i as int / count as int;
            assert(q < 9) by (nonlinear_arith)
                requires
                    i == count * q + i as int % (count as int),
                    0 <= i as int % (count as int),
                    i < 9 * count,
                    count >= 1,
            ;
        }
        let slot: u32 = (i / count) as u32 + (i % count) as u32 * 16;
        let packed: u16 = (floor_mod(z, 16) * 256 + floor_mod(y, 16) * 16 + floor_mod(x, 16)) as u16;
        self.writes.push(Write { slot, packed, state });
        proof { assert(self@ =~= before@.with(x as int, y as int, z as int, state)); }
    }
}

/// A region as it can be: whole sections, of as many blocks as there are.
pub open spec fn whole(r: Around) -> bool {
    &&& r.height >= 0
    &&& r.height % 16 == 0
    &&& r.min_y % 16 == 0
    &&& r.sections.len() == 9 * r.section_count()
    &&& forall|i: int| 0 <= i < r.sections.len() ==> (#[trigger] r.sections[i] matches Some(s) ==> s.len() == 4096)
}

proof fn lemma_home(r: Around, x: int, y: int, z: int)
    requires
        r.home(x, y, z) is Some,
        whole(r),
    ensures
        ({
            let (i, k) = r.home(x, y, z)->Some_0;
            let s = r.slot(x, z)->Some_0;
            &&& 0 <= i < r.sections.len() && 0 <= k < 4096
            &&& i / r.section_count() == s
            &&& i % r.section_count() == (y - r.min_y) / 16
            &&& k / 256 == y % 16
            &&& (k / 16) % 16 == z % 16
            &&& k % 16 == x % 16
        }),
{
    let n = r.section_count();
    let s = r.slot(x, z)->Some_0;
    let a = (y - r.min_y) / 16;
    assert(0 <= s <= 8);
    assert(0 <= a < n);
    assert(0 <= s * n && s * n + a < 9 * n) by (nonlinear_arith)
        requires
            0 <= s <= 8,
            0 <= a < n,
    ;
    vstd::arithmetic::div_mod::lemma_fundamental_div_mod_converse(s * n + a, n, s, a);
}

/// Blocks have homes of their own.
proof fn lemma_apart(r: Around, x: int, y: int, z: int, x2: int, y2: int, z2: int)
    requires
        whole(r),
        r.home(x, y, z) is Some,
        r.home(x, y, z) == r.home(x2, y2, z2),
    ensures
        x == x2 && y == y2 && z == z2,
{
    lemma_home(r, x, y, z);
    lemma_home(r, x2, y2, z2);
    assert((y - r.min_y) / 16 == (y2 - r.min_y) / 16);
    assert(r.slot(x, z) == r.slot(x2, z2));
    let (s, t) = (r.slot(x, z)->Some_0, r.slot(x2, z2)->Some_0);
    assert(s / 3 == z / 16 - r.chunk_z + 1 && s % 3 == x / 16 - r.chunk_x + 1);
    assert(t / 3 == z2 / 16 - r.chunk_z + 1 && t % 3 == x2 / 16 - r.chunk_x + 1);
}

/// A block keeps what was written to it last, and other blocks keep what
/// they had.
pub proof fn law_write_then_read(r: Around, x: int, y: int, z: int, state: u16, x2: int, y2: int, z2: int)
    requires
        whole(r),
        r.state(x, y, z) is Some,
    ensures
        r.with(x, y, z, state).state(x, y, z) == Some((NO_BLOCK - state) as u16),
        (x2, y2, z2) != (x, y, z) ==> r.with(x, y, z, state).state(x2, y2, z2) == r.state(x2, y2, z2),
{
    lemma_home(r, x, y, z);
    let w = r.with(x, y, z, state);
    assert(w.home(x, y, z) == r.home(x, y, z) && w.home(x2, y2, z2) == r.home(x2, y2, z2));
    if r.home(x2, y2, z2) is Some {
        lemma_home(r, x2, y2, z2);
        if r.home(x2, y2, z2) == r.home(x, y, z) {
            lemma_apart(r, x, y, z, x2, y2, z2);
        }
    }
}

/// A step of a placement.
#[derive(Clone, Copy, Debug)]
pub enum Modifier {
    Count(IntProvider),
    InSquare,
    HeightRange(HeightProvider),
    Biome,
    Rarity(i32),
}

/// What an ore replaces, and by which palette id.
pub struct Target {
    pub rule: RuleTest,
    pub state: u16,
}

/// An ore: its targets, size, and the chance to be dropped next to air.
pub struct OreFeature {
    pub targets: Vec<Target>,
    pub size: i32,
    pub discard_chance: u32,
}

/// An ore and how it is placed; the sections it can read or write.
pub struct PlacedOre {
    pub feature: OreFeature,
    pub placement: Vec<Modifier>,
    pub section_lo: usize,
    pub section_hi: usize,
}

/// The ores of a world, and what is known of its blocks.
pub struct OreStage {
    pub placed_ids: Vec<String>,
    pub placed: Vec<PlacedOre>,
    /// Whether a biome has an ore.
    pub biome_has: Vec<Vec<bool>>,
    /// The block index per state id, and whether it is air.
    pub state_block: Vec<u16>,
    pub state_air: Vec<bool>,
    /// The block index per palette id.
    pub palette_block: Vec<u16>,
    pub min_y: i32,
    pub section_count: usize,
}

/// A random source and the region that ores are placed in.
pub ghost struct Ground {
    pub random: WorldgenRandom,
    pub region: Around,
}

/// A ball of an ore: its centre and radius.
#[derive(Clone, Copy)]
pub struct Ball {
    pub x: u64,
    pub y: u64,
    pub z: u64,
    pub r: u64,
}

/// The ends of an ore's axis.
#[derive(Clone, Copy)]
pub struct Ends {
    pub x0: u64,
    pub x1: u64,
    pub z0: u64,
    pub z1: u64,
    pub y0: u64,
    pub y1: u64,
}

/// The corner and the extent of the box an ore is tried in.
#[derive(Clone, Copy)]
pub struct Frame {
    pub x: i64,
    pub y: i64,
    pub z: i64,
    pub wide: i64,
    pub tall: i64,
}

impl Frame {
    pub open spec fn wf(self) -> bool {
        &&& -0x4_0000_0000 <= self.x <= 0x7fff_ffff
        &&& -0x4_0000_0000 <= self.y <= 0x7fff_ffff
        &&& -0x4_0000_0000 <= self.z <= 0x7fff_ffff
        &&& -0x2_0000_0000 <= self.wide <= 0x2_0000_0000
        &&& 0 <= self.tall <= 0x1000_0000
    }

    /// The number of a block in the box.
    pub open spec fn number(self, x: int, y: int, z: int) -> u64 {
        (((x - self.x) + (y - self.y) * self.wide + (z - self.z) * self.wide * self.tall) % 0x1_0000_0000_0000_0000) as u64
    }
}

impl OreStage {
    /// The block index of a state.
    pub open spec fn block(&self, state: u16) -> u16 {
        if state >= WRITTEN_BASE {
            let p = NO_BLOCK - state;
            if p < self.palette_block@.len() { self.palette_block@[p] } else { NO_BLOCK }
        } else if state < self.state_block@.len() {
            self.state_block@[state as int]
        } else {
            NO_BLOCK
        }
    }

    pub open spec fn airy(&self, state: u16) -> bool {
        state < WRITTEN_BASE && state < self.state_air@.len() && self.state_air@[state as int]
    }

    fn block_of(&self, state: u16) -> (r: u16)
        ensures
            r == self.block(state),
    {
        if state >= WRITTEN_BASE {
            let p: usize = (NO_BLOCK - state) as usize;
            return if p < self.palette_block.len() { self.palette_block[p] } else { NO_BLOCK };
        }
        if (state as usize) < self.state_block.len() { self.state_block[state as usize] } else { NO_BLOCK }
    }

    fn is_air(&self, state: u16) -> (r: bool)
        ensures
            r == self.airy(state),
    {
        state < WRITTEN_BASE && (state as usize) < self.state_air.len() && self.state_air[state as usize]
    }

    /// There is air at a block, or nothing known.
    pub open spec fn open_at(&self, g: Around, x: int, y: int, z: int) -> bool {
        match g.state(wrapped(x) as int, wrapped(y) as int, wrapped(z) as int) {
            Some(s) => self.airy(s),
            None => true,
        }
    }

    /// A block touches air.
    pub open spec fn exposed(&self, g: Around, x: int, y: int, z: int) -> bool {
        ||| self.open_at(g, x, y - 1, z)
        ||| self.open_at(g, x, y + 1, z)
        ||| self.open_at(g, x, y, z - 1)
        ||| self.open_at(g, x, y, z + 1)
        ||| self.open_at(g, x - 1, y, z)
        ||| self.open_at(g, x + 1, y, z)
    }

    fn is_open(&self, region: &Region, x: i64, y: i64, z: i64) -> (r: bool)
        requires
            region.wf(),
        ensures
            r == self.open_at(region@, x as int, y as int, z as int),
    {
        match region.get(wrap(x as i128), wrap(y as i128), wrap(z as i128)) {
            Some(s) => self.is_air(s),
            None => true,
        }
    }

    fn adjacent_to_air(&self, region: &Region, x: i32, y: i32, z: i32) -> (r: bool)
        requires
            region.wf(),
        ensures
            r == self.exposed(region@, x as int, y as int, z as int),
    {
        let (x, y, z): (i64, i64, i64) = (x as i64, y as i64, z as i64);
        self.is_open(region, x, y - 1, z) || self.is_open(region, x, y + 1, z) || self.is_open(region, x, y, z - 1) || self.is_open(
            region, x, y, z + 1) || self.is_open(region, x - 1, y, z) || self.is_open(region, x + 1, y, z)
    }

    /// Whether an ore goes to a block, and the source afterwards.
    pub open spec fn suits<F: Fn(Ask) -> u64>(
        &self, f: F, o: OreFeature, t: Target, block: u16, g: Ground, x: int, y: int, z: int,
    ) -> (bool, WorldgenRandom) {
        if !passes(t.rule, block, y) {
            (false, g.random)
        } else if holds(f, Ask::LessEq32(o.discard_chance, 0)) {
            (true, g.random)
        } else if holds(f, Ask::LessEq32(ONE_32, o.discard_chance)) {
            (!self.exposed(g.region, x, y, z), g.random)
        } else {
            let (u, s) = single(f, g.random);
            (holds(f, Ask::LessEq32(o.discard_chance, u)) || !self.exposed(g.region, x, y, z), s)
        }
    }

    fn can_place_ore<F: Fn(Ask) -> u64>(
        &self, o: &OreFeature, t: &Target, block: u16, random: &mut WorldgenRandom, region: &Region, x: i32, y: i32, z: i32, f: &F,
    ) -> (r: bool)
        requires
            answers(*f),
            region.wf(),
        ensures
            (r, *final(random)) == self.suits(
                *f, *o, *t, block, (Ground { random: *old(random), region: region@ }), x as int, y as int, z as int),
    {
        if !t.rule.test(block, y) {
            return false;
        }
        if f(Ask::LessEq32(o.discard_chance, 0)) != 0 {
            return true;
        }
        if f(Ask::LessEq32(ONE_32, o.discard_chance)) != 0 {
            return !self.adjacent_to_air(region, x, y, z);
        }
        let u: u32 = random.next_float(f);
        f(Ask::LessEq32(o.discard_chance, u)) != 0 || !self.adjacent_to_air(region, x, y, z)
    }

    /// The ground after the targets of an ore, from the `i`-th on, were
    /// tried at a block: the first that suits is placed.
    pub open spec fn tried<F: Fn(Ask) -> u64>(
        &self, f: F, o: OreFeature, i: int, block: u16, g: Ground, x: int, y: int, z: int,
    ) -> Ground
        decreases o.targets@.len() - i,
    {
        if i < 0 || i >= o.targets@.len() {
            g
        } else {
            let (fits, s) = self.suits(f, o, o.targets@[i], block, g, x, y, z);
            if fits {
                Ground { random: s, region: g.region.with(x, y, z, o.targets@[i].state) }
            } else {
                self.tried(f, o, i + 1, block, Ground { random: s, ..g }, x, y, z)
            }
        }
    }

    fn try_targets<F: Fn(Ask) -> u64>(
        &self, o: &OreFeature, block: u16, random: &mut WorldgenRandom, region: &mut Region, x: i32, y: i32, z: i32, f: &F,
    )
        requires
            answers(*f),
            old(region).wf(),
        ensures
            final(region).wf(),
            final(region)@.min_y == old(region)@.min_y,
            (Ground { random: *final(random), region: final(region)@ }) == self.tried(
                *f, *o, 0, block, (Ground { random: *old(random), region: old(region)@ }), x as int, y as int, z as int),
    {
        let ghost result = self.tried(
            *f, *o, 0, block, Ground { random: *random, region: region@ }, x as int, y as int, z as int);
        let mut i: usize = 0;
        while i < o.targets.len()
            invariant
                answers(*f),
                region.wf(),
                region@.min_y == old(region)@.min_y,
                i <= o.targets@.len(),
                result == self.tried(
                    *f, *o, 0, block, (Ground { random: *old(random), region: old(region)@ }), x as int, y as int, z as int),
                result == self.tried(
                    *f, *o, i as int, block, (Ground { random: *random, region: region@ }), x as int, y as int, z as int),
            decreases o.targets.len() - i,
        {
            if self.can_place_ore(o, &o.targets[i], block, random, region, x, y, z, f) {
                region.set(x, y, z, o.targets[i].state);
                return;
            }
            i += 1;
        }
    }
}

/// A ball of an ore, its radius drawn.
pub open spec fn ball_drawn<F: Fn(Ask) -> u64>(f: F, e: Ends, size: int, i: int, r: WorldgenRandom) -> (Ball, WorldgenRandom) {
    let whole = low(f, Ask::FromInt32(size as i32));
    let step = low(f, Ask::Div32(low(f, Ask::FromInt32(i as i32)), whole));
    let t = reply(f, Ask::Widen(step));
    let (d, s) = r.double(f);
    let ss = reply(f, Ask::Div64(reply(f, Ask::Mul64(d, reply(f, Ask::FromInt64(size as i32)))), SIXTEEN));
    let wave = table_sin(f, reply(f, Ask::Widen(low(f, Ask::Mul32(PI_32, step)))));
    let swell = reply(f, Ask::Widen(low(f, Ask::Add32(wave, ONE_32))));
    let r1 = reply(f, Ask::Add64(reply(f, Ask::Mul64(swell, ss)), ONE));
    (
        Ball { x: lerped64(f, t, e.x0, e.x1), y: lerped64(f, t, e.y0, e.y1), z: lerped64(f, t, e.z0, e.z1), r: reply(f, Ask::Div64(r1, TWO)) },
        s,
    )
}

/// The first `n` balls of an ore.
pub open spec fn balls<F: Fn(Ask) -> u64>(f: F, e: Ends, size: int, r: WorldgenRandom, n: nat) -> (Seq<Ball>, WorldgenRandom)
    decreases n,
{
    if n == 0 {
        (Seq::empty(), r)
    } else {
        let (before, s) = balls(f, e, size, r, (n - 1) as nat);
        let (b, t) = ball_drawn(f, e, size, n - 1, s);
        (before.push(b), t)
    }
}

/// Of two balls of which one lies in the other, the inner one goes.
pub open spec fn settled_pair<F: Fn(Ask) -> u64>(f: F, d: Seq<Ball>, i: int, j: int) -> Seq<Ball> {
    let (a, b) = (d[i], d[j]);
    let dx = reply(f, Ask::Sub64(a.x, b.x));
    let dy = reply(f, Ask::Sub64(a.y, b.y));
    let dz = reply(f, Ask::Sub64(a.z, b.z));
    let dr = reply(f, Ask::Sub64(a.r, b.r));
    let far = reply(
        f,
        Ask::Add64(
            reply(f, Ask::Add64(reply(f, Ask::Mul64(dx, dx)), reply(f, Ask::Mul64(dy, dy)))),
            reply(f, Ask::Mul64(dz, dz)),
        ),
    );
    if holds(f, Ask::LessEq64(b.r, ZERO)) || !holds(f, Ask::Less64(far, reply(f, Ask::Mul64(dr, dr)))) {
        d
    } else if holds(f, Ask::Less64(ZERO, dr)) {
        d.update(j, Ball { r: MINUS_ONE, ..b })
    } else {
        d.update(i, Ball { r: MINUS_ONE, ..a })
    }
}

/// A ball against those from the `j`-th on.
pub open spec fn settled_row<F: Fn(Ask) -> u64>(f: F, d: Seq<Ball>, i: int, j: int) -> Seq<Ball>
    decreases d.len() - j,
{
    if j < 0 || j >= d.len() || i < 0 || i >= d.len() { d } else { settled_row(f, settled_pair(f, d, i, j), i, j + 1) }
}

/// The balls from the `i`-th on against those after them.
pub open spec fn settled_all<F: Fn(Ask) -> u64>(f: F, d: Seq<Ball>, i: int) -> Seq<Ball>
    decreases d.len() - i,
{
    if i < 0 || i + 1 >= d.len() {
        d
    } else if holds(f, Ask::LessEq64(d[i].r, ZERO)) {
        settled_all(f, d, i + 1)
    } else {
        let n = settled_row(f, d, i, i + 1);
        if n.len() == d.len() { settled_all(f, n, i + 1) } else { n }
    }
}

proof fn lemma_row_len<F: Fn(Ask) -> u64>(f: F, d: Seq<Ball>, i: int, j: int)
    ensures
        settled_row(f, d, i, j).len() == d.len(),
    decreases d.len() - j,
{
    if !(j < 0 || j >= d.len() || i < 0 || i >= d.len()) {
        lemma_row_len(f, settled_pair(f, d, i, j), i, j + 1);
    }
}

fn draw_ball<F: Fn(Ask) -> u64>(f: &F, e: Ends, size: i32, i: i32, random: &mut WorldgenRandom) -> (r: Ball)
    requires
        answers(*f),
    ensures
        (r, *final(random)) == ball_drawn(*f, e, size as int, i as int, *old(random)),
{
    let whole: u32 = f(Ask::FromInt32(size)) as u32;
    let part: u32 = f(Ask::FromInt32(i)) as u32;
    let step: u32 = f(Ask::Div32(part, whole)) as u32;
    let t: u64 = f(Ask::Widen(step));
    let x: u64 = lerp64(f, t, e.x0, e.x1);
    let y: u64 = lerp64(f, t, e.y0, e.y1);
    let z: u64 = lerp64(f, t, e.z0, e.z1);
    let d: u64 = random.next_double(f);
    let w: u64 = f(Ask::FromInt64(size));
    let p: u64 = f(Ask::Mul64(d, w));
    let ss: u64 = f(Ask::Div64(p, SIXTEEN));
    let a: u32 = f(Ask::Mul32(PI_32, step)) as u32;
    let angle: u64 = f(Ask::Widen(a));
    let wave: u32 = mth_sin(f, angle);
    let up: u32 = f(Ask::Add32(wave, ONE_32)) as u32;
    let swell: u64 = f(Ask::Widen(up));
    let q: u64 = f(Ask::Mul64(swell, ss));
    let r1: u64 = f(Ask::Add64(q, ONE));
    let r: u64 = f(Ask::Div64(r1, TWO));
    Ball { x, y, z, r }
}

fn settle<F: Fn(Ask) -> u64>(f: &F, d: &mut Vec<Ball>)
    requires
        answers(*f),
    ensures
        final(d)@ == settled_all(*f, old(d)@, 0),
        final(d)@.len() == old(d)@.len(),
{
    let n: usize = d.len();
    let ghost result = settled_all(*f, d@, 0);
    let mut i: usize = 0;
    while i < n && n - i >= 2
        invariant
            answers(*f),
            n == d@.len(),
            i <= n,
            result == settled_all(*f, d@, i as int),
        decreases n - i,
    {
        if f(Ask::LessEq64(d[i].r, ZERO)) == 0 {
            let ghost row = settled_row(*f, d@, i as int, i + 1);
            proof { lemma_row_len(*f, d@, i as int, i + 1); }
            let mut j: usize = i + 1;
            while j < n
                invariant
                    answers(*f),
                    n == d@.len(),
                    i < j <= n,
                    row == settled_row(*f, d@, i as int, j as int),
                decreases n - j,
            {
                let (a, b) = (d[i], d[j]);
                if f(Ask::LessEq64(b.r, ZERO)) == 0 {
                    let dx: u64 = f(Ask::Sub64(a.x, b.x));
                    let dy: u64 = f(Ask::Sub64(a.y, b.y));
                    let dz: u64 = f(Ask::Sub64(a.z, b.z));
                    let dr: u64 = f(Ask::Sub64(a.r, b.r));
                    let xx: u64 = f(Ask::Mul64(dx, dx));
                    let yy: u64 = f(Ask::Mul64(dy, dy));
                    let zz: u64 = f(Ask::Mul64(dz, dz));
                    let xy: u64 = f(Ask::Add64(xx, yy));
                    let far: u64 = f(Ask::Add64(xy, zz));
                    let rr: u64 = f(Ask::Mul64(dr, dr));
                    if f(Ask::Less64(far, rr)) != 0 {
                        if f(Ask::Less64(ZERO, dr)) != 0 {
                            d.set(j, Ball { r: MINUS_ONE, ..b });
                        } else {
                            d.set(i, Ball { r: MINUS_ONE, ..a });
                        }
                    }
                }
                j += 1;
            }
        }
        i += 1;
    }
}

/// The ground, and which blocks of the box were tried.
pub ghost struct Pile {
    pub ground: Ground,
    pub tested: Set<u64>,
}

/// How far a block lies out of a ball, in radii.
pub open spec fn away<F: Fn(Ask) -> u64>(f: F, block: int, centre: u64, r: u64) -> u64 {
    let middle = reply(f, Ask::Add64(reply(f, Ask::FromInt64(block as i32)), HALF));
    reply(f, Ask::Div64(reply(f, Ask::Sub64(middle, centre)), r))
}

fn away_by<F: Fn(Ask) -> u64>(f: &F, block: i32, centre: u64, r: u64) -> (d: u64)
    requires
        answers(*f),
    ensures
        d == away(*f, block as int, centre, r),
{
    let b: u64 = f(Ask::FromInt64(block));
    let m: u64 = f(Ask::Add64(b, HALF));
    let e: u64 = f(Ask::Sub64(m, centre));
    f(Ask::Div64(e, r))
}

/// A sum with a square.
pub open spec fn plus_square<F: Fn(Ask) -> u64>(f: F, sum: u64, d: u64) -> u64 {
    reply(f, Ask::Add64(sum, reply(f, Ask::Mul64(d, d))))
}

fn add_square<F: Fn(Ask) -> u64>(f: &F, sum: u64, d: u64) -> (r: u64)
    requires
        answers(*f),
    ensures
        r == plus_square(*f, sum, d),
{
    let s: u64 = f(Ask::Mul64(d, d));
    f(Ask::Add64(sum, s))
}

/// The first and the last block of a ball along an axis, not before the
/// box.
pub open spec fn ball_first<F: Fn(Ask) -> u64>(f: F, centre: u64, r: u64, start: int) -> int {
    let v = floor_of(f, reply(f, Ask::Sub64(centre, r))) as int;
    if v > start { v } else { start }
}

pub open spec fn ball_last<F: Fn(Ask) -> u64>(f: F, centre: u64, r: u64, start: int) -> int {
    let v = floor_of(f, reply(f, Ask::Add64(centre, r))) as int;
    let a = ball_first(f, centre, r, start);
    if v > a { v } else { a }
}

fn ball_range<F: Fn(Ask) -> u64>(f: &F, centre: u64, r: u64, start: i64) -> (p: (i32, i32))
    requires
        answers(*f),
        start <= i32::MAX,
    ensures
        p.0 == ball_first(*f, centre, r, start as int),
        p.1 == ball_last(*f, centre, r, start as int),
        p.0 <= p.1,
        start <= p.0,
{
    let lo: u64 = f(Ask::Sub64(centre, r));
    let hi: u64 = f(Ask::Add64(centre, r));
    let a: i32 = floored_int(f, lo);
    let b: i32 = floored_int(f, hi);
    let first: i32 = if a as i64 > start { a } else { start as i32 };
    (first, if b > first { b } else { first })
}

impl OreStage {
    /// After one block was tried; `flat` is how far out it lies along x and
    /// y.
    #[verifier::opaque]
    pub open spec fn block_tried<F: Fn(Ask) -> u64>(
        &self, f: F, o: OreFeature, b: Ball, fr: Frame, flat: u64, p: Pile, x: int, y: int, z: int,
    ) -> Pile {
        let out = plus_square(f, flat, away(f, z, b.z, b.r));
        let k = fr.number(x, y, z);
        if holds(f, Ask::LessEq64(ONE, out)) || p.ground.region.beyond(y) || p.tested.contains(k) {
            p
        } else {
            let q = Pile { tested: p.tested.insert(k), ..p };
            match p.ground.region.state(x, y, z) {
                None => q,
                Some(s) => Pile { ground: self.tried(f, o, 0, self.block(s), p.ground, x, y, z), ..q },
            }
        }
    }

    pub open spec fn z_run<F: Fn(Ask) -> u64>(
        &self, f: F, o: OreFeature, b: Ball, fr: Frame, flat: u64, p: Pile, x: int, y: int, z: int, last: int,
    ) -> Pile
        decreases last - z + 1,
    {
        if z > last {
            p
        } else {
            self.z_run(f, o, b, fr, flat, self.block_tried(f, o, b, fr, flat, p, x, y, z), x, y, z + 1, last)
        }
    }

    pub open spec fn y_run<F: Fn(Ask) -> u64>(
        &self, f: F, o: OreFeature, b: Ball, fr: Frame, xx: u64, p: Pile, x: int, y: int, last: int,
    ) -> Pile
        decreases last - y + 1,
    {
        if y > last {
            p
        } else {
            let flat = plus_square(f, xx, away(f, y, b.y, b.r));
            let next = if holds(f, Ask::LessEq64(ONE, flat)) {
                p
            } else {
                self.z_run(
                    f, o, b, fr, flat, p, x, y, ball_first(f, b.z, b.r, fr.z as int), ball_last(f, b.z, b.r, fr.z as int))
            };
            self.y_run(f, o, b, fr, xx, next, x, y + 1, last)
        }
    }

    pub open spec fn x_run<F: Fn(Ask) -> u64>(
        &self, f: F, o: OreFeature, b: Ball, fr: Frame, p: Pile, x: int, last: int,
    ) -> Pile
        decreases last - x + 1,
    {
        if x > last {
            p
        } else {
            let d = away(f, x, b.x, b.r);
            let xx = reply(f, Ask::Mul64(d, d));
            let next = if holds(f, Ask::LessEq64(ONE, xx)) {
                p
            } else {
                self.y_run(
                    f, o, b, fr, xx, p, x, ball_first(f, b.y, b.r, fr.y as int), ball_last(f, b.y, b.r, fr.y as int))
            };
            self.x_run(f, o, b, fr, next, x + 1, last)
        }
    }

    /// The balls from the `i`-th on; those that went are left out.
    pub open spec fn ball_run<F: Fn(Ask) -> u64>(&self, f: F, o: OreFeature, d: Seq<Ball>, fr: Frame, p: Pile, i: int) -> Pile
        decreases d.len() - i,
    {
        if i < 0 || i >= d.len() {
            p
        } else {
            let b = d[i];
            let next = if holds(f, Ask::Less64(b.r, ZERO)) {
                p
            } else {
                self.x_run(
                    f, o, b, fr, p, ball_first(f, b.x, b.r, fr.x as int), ball_last(f, b.x, b.r, fr.x as int))
            };
            self.ball_run(f, o, d, fr, next, i + 1)
        }
    }

    /// The ground after an ore was placed along its axis.
    pub open spec fn ore_placed<F: Fn(Ask) -> u64>(&self, f: F, o: OreFeature, e: Ends, fr: Frame, g: Ground) -> Ground {
        let (d, s) = balls(f, e, o.size as int, g.random, o.size as nat);
        let p = Pile { ground: Ground { random: s, ..g }, tested: Set::empty() };
        self.ball_run(f, o, settled_all(f, d, 0), fr, p, 0).ground
    }

    fn try_block<F: Fn(Ask) -> u64>(
        &self, o: &OreFeature, b: Ball, fr: Frame, flat: u64, x: i32, y: i32, z: i32, random: &mut WorldgenRandom,
        region: &mut Region, tested: &mut BitSet, f: &F,
    )
        requires
            answers(*f),
            old(region).wf(),
            fr.wf(),
            fr.x <= x && fr.y <= y && fr.z <= z,
        ensures
            final(region).wf(),
            final(region)@.min_y == old(region)@.min_y,
            pile(*final(random), *final(region), *final(tested)) == self.block_tried(
                *f, *o, b, fr, flat, pile(*old(random), *old(region), *old(tested)), x as int, y as int, z as int),
    {
        proof { reveal(OreStage::block_tried); }
        let d: u64 = away_by(f, z, b.z, b.r);
        let out: u64 = add_square(f, flat, d);
        if f(Ask::LessEq64(ONE, out)) != 0 || region.outside_build_height(y) {
            return;
        }
        let k: u64 = number_of(fr, x, y, z);
        let ghost before = tested@;
        if tested.set(k) {
            proof { assert(tested@ =~= before); }
            return;
        }
        if !region.can_write(x, z) {
            proof { assert(region@.state(x as int, y as int, z as int) is None); }
            return;
        }
        match region.get(x, y, z) {
            None => {},
            Some(s) => {
                let block: u16 = self.block_of(s);
                self.try_targets(o, block, random, region, x, y, z, f);
            },
        }
    }

    fn run_z<F: Fn(Ask) -> u64>(
        &self, o: &OreFeature, b: Ball, fr: Frame, flat: u64, x: i32, y: i32, random: &mut WorldgenRandom, region: &mut Region,
        tested: &mut BitSet, f: &F,
    )
        requires
            answers(*f),
            old(region).wf(),
            fr.wf(),
            fr.x <= x && fr.y <= y,
        ensures
            final(region).wf(),
            final(region)@.min_y == old(region)@.min_y,
            pile(*final(random), *final(region), *final(tested)) == self.z_run(
                *f, *o, b, fr, flat, pile(*old(random), *old(region), *old(tested)), x as int, y as int, ball_first(
                    *f, b.z, b.r, fr.z as int), ball_last(*f, b.z, b.r, fr.z as int)),
    {
        let (first, last): (i32, i32) = ball_range(f, b.z, b.r, fr.z);
        let ghost result = self.z_run(
            *f, *o, b, fr, flat, pile(*random, *region, *tested), x as int, y as int, first as int, last as int);
        let mut z: i64 = first as i64;
        while z <= last as i64
            invariant
                answers(*f),
                region.wf(),
                region@.min_y == old(region)@.min_y,
                fr.wf(),
                fr.x <= x && fr.y <= y && fr.z <= first,
                first <= z <= last + 1,
                result == self.z_run(
                    *f, *o, b, fr, flat, pile(*random, *region, *tested), x as int, y as int, z as int, last as int),
            decreases last + 1 - z,
        {
            self.try_block(o, b, fr, flat, x, y, z as i32, random, region, tested, f);
            z += 1;
        }
    }

    fn run_y<F: Fn(Ask) -> u64>(
        &self, o: &OreFeature, b: Ball, fr: Frame, xx: u64, x: i32, random: &mut WorldgenRandom, region: &mut Region,
        tested: &mut BitSet, f: &F,
    )
        requires
            answers(*f),
            old(region).wf(),
            fr.wf(),
            fr.x <= x,
        ensures
            final(region).wf(),
            final(region)@.min_y == old(region)@.min_y,
            pile(*final(random), *final(region), *final(tested)) == self.y_run(
                *f, *o, b, fr, xx, pile(*old(random), *old(region), *old(tested)), x as int, ball_first(
                    *f, b.y, b.r, fr.y as int), ball_last(*f, b.y, b.r, fr.y as int)),
    {
        let (first, last): (i32, i32) = ball_range(f, b.y, b.r, fr.y);
        let ghost result = self.y_run(
            *f, *o, b, fr, xx, pile(*random, *region, *tested), x as int, first as int, last as int);
        let mut y: i64 = first as i64;
        while y <= last as i64
            invariant
                answers(*f),
                region.wf(),
                region@.min_y == old(region)@.min_y,
                fr.wf(),
                fr.x <= x && fr.y <= first,
                first <= y <= last + 1,
                result == self.y_run(
                    *f, *o, b, fr, xx, pile(*random, *region, *tested), x as int, y as int, last as int),
            decreases last + 1 - y,
        {
            let d: u64 = away_by(f, y as i32, b.y, b.r);
            let flat: u64 = add_square(f, xx, d);
            if f(Ask::LessEq64(ONE, flat)) == 0 {
                self.run_z(o, b, fr, flat, x, y as i32, random, region, tested, f);
            }
            y += 1;
        }
    }

    fn run_x<F: Fn(Ask) -> u64>(
        &self, o: &OreFeature, b: Ball, fr: Frame, random: &mut WorldgenRandom, region: &mut Region, tested: &mut BitSet, f: &F,
    )
        requires
            answers(*f),
            old(region).wf(),
            fr.wf(),
        ensures
            final(region).wf(),
            final(region)@.min_y == old(region)@.min_y,
            pile(*final(random), *final(region), *final(tested)) == self.x_run(
                *f, *o, b, fr, pile(*old(random), *old(region), *old(tested)), ball_first(*f, b.x, b.r, fr.x as int), ball_last(
                    *f, b.x, b.r, fr.x as int)),
    {
        let (first, last): (i32, i32) = ball_range(f, b.x, b.r, fr.x);
        let ghost result = self.x_run(*f, *o, b, fr, pile(*random, *region, *tested), first as int, last as int);
        let mut x: i64 = first as i64;
        while x <= last as i64
            invariant
                answers(*f),
                region.wf(),
                region@.min_y == old(region)@.min_y,
                fr.wf(),
                fr.x <= first,
                first <= x <= last + 1,
                result == self.x_run(*f, *o, b, fr, pile(*random, *region, *tested), x as int, last as int),
            decreases last + 1 - x,
        {
            let d: u64 = away_by(f, x as i32, b.x, b.r);
            let xx: u64 = f(Ask::Mul64(d, d));
            if f(Ask::LessEq64(ONE, xx)) == 0 {
                self.run_y(o, b, fr, xx, x as i32, random, region, tested, f);
            }
            x += 1;
        }
    }

    /// Place an ore along its axis.
    fn do_place<F: Fn(Ask) -> u64>(
        &self, o: &OreFeature, e: Ends, fr: Frame, random: &mut WorldgenRandom, region: &mut Region, f: &F,
    )
        requires
            answers(*f),
            old(region).wf(),
            fr.wf(),
            0 <= o.size,
        ensures
            final(region).wf(),
            final(region)@.min_y == old(region)@.min_y,
            (Ground { random: *final(random), region: final(region)@ }) == self.ore_placed(
                *f, *o, e, fr, (Ground { random: *old(random), region: old(region)@ })),
    {
        let ghost start = *random;
        let mut d: Vec<Ball> = Vec::new();
        let mut i: i32 = 0;
        while i < o.size
            invariant
                answers(*f),
                0 <= i <= o.size,
                (d@, *random) == balls(*f, e, o.size as int, start, i as nat),
            decreases o.size - i,
        {
            let b = draw_ball(f, e, o.size, i, random);
            d.push(b);
            i += 1;
        }
        settle(f, &mut d);
        let mut tested = BitSet::default();
        let ghost result = self.ball_run(*f, *o, d@, fr, pile(*random, *region, tested), 0);
        let mut k: usize = 0;
        while k < d.len()
            invariant
                answers(*f),
                region.wf(),
                region@.min_y == old(region)@.min_y,
                fr.wf(),
                k <= d@.len(),
                result == self.ball_run(*f, *o, d@, fr, pile(*random, *region, tested), k as int),
            decreases d.len() - k,
        {
            let b = d[k];
            if f(Ask::Less64(b.r, ZERO)) == 0 {
                self.run_x(o, b, fr, random, region, &mut tested, f);
            }
            k += 1;
        }
    }

    /// The ends of an ore's axis at an origin, and the source afterwards.
    pub open spec fn axis<F: Fn(Ask) -> u64>(&self, f: F, size: int, at: (int, int, int), r: WorldgenRandom) -> (Ends, WorldgenRandom) {
        let (u, s) = single(f, r);
        let dir = reply(f, Ask::Widen(low(f, Ask::Mul32(u, PI_32))));
        let spread = reply(f, Ask::Widen(low(f, Ask::Div32(low(f, Ask::FromInt32(size as i32)), EIGHT_32))));
        let dx = reply(f, Ask::Mul64(reply(f, Ask::Sin64(dir)), spread));
        let dz = reply(f, Ask::Mul64(reply(f, Ask::Cos64(dir)), spread));
        let ox = reply(f, Ask::FromInt64(wrapped(at.0)));
        let oz = reply(f, Ask::FromInt64(wrapped(at.2)));
        let (a, t) = below(s, 3);
        let (b, v) = below(t, 3);
        (
            Ends {
                x0: reply(f, Ask::Add64(ox, dx)),
                x1: reply(f, Ask::Sub64(ox, dx)),
                z0: reply(f, Ask::Add64(oz, dz)),
                z1: reply(f, Ask::Sub64(oz, dz)),
                y0: reply(f, Ask::FromInt64(wrapped(at.1 + a - 2))),
                y1: reply(f, Ask::FromInt64(wrapped(at.1 + b - 2))),
            },
            v,
        )
    }

    /// The box of an ore at an origin.
    pub open spec fn frame_at(&self, size: int, at: (int, int, int)) -> Frame {
        let ceil = (size + 7) / 8;
        let r = radius_of(size);
        Frame {
            x: (at.0 - ceil - r) as i64,
            y: (at.1 - 2 - r) as i64,
            z: (at.2 - ceil - r) as i64,
            wide: (2 * (ceil + r)) as i64,
            tall: (2 * (2 + r)) as i64,
        }
    }

    /// A column of the box reaches up to its bottom.
    pub open spec fn grounded(&self, g: Around, fr: Frame) -> bool {
        exists|x: int, z: int|
            fr.x <= x <= fr.x + fr.wide && fr.z <= z <= fr.z + fr.wide && fr.y <= #[trigger] g.floor(
                wrapped(x) as int, wrapped(z) as int)
    }

    /// The ground after an ore was placed at an origin.
    pub open spec fn ore_at<F: Fn(Ask) -> u64>(&self, f: F, o: OreFeature, at: (int, int, int), g: Ground) -> Ground {
        let (e, s) = self.axis(f, o.size as int, at, g.random);
        let fr = self.frame_at(o.size as int, at);
        let n = Ground { random: s, ..g };
        if self.grounded(g.region, fr) { self.ore_placed(f, o, e, fr, n) } else { n }
    }
}

/// The pile of exec parts.
spec fn pile(random: WorldgenRandom, region: Region, tested: BitSet) -> Pile {
    Pile { ground: Ground { random, region: region@ }, tested: tested@ }
}

/// 8, as a single.
pub const EIGHT_32: u32 = 0x4100_0000;

fn number_of(fr: Frame, x: i32, y: i32, z: i32) -> (r: u64)
    requires
        fr.wf(),
    ensures
        r == fr.number(x as int, y as int, z as int),
{
    let (a, b, c): (i128, i128, i128) = (x as i128 - fr.x as i128, y as i128 - fr.y as i128, z as i128 - fr.z as i128);
    let (w, t): (i128, i128) = (fr.wide as i128, fr.tall as i128);
    proof {
        assert(-0x10_0000_0000_0000_0000 <= b * w <= 0x10_0000_0000_0000_0000) by (nonlinear_arith)
            requires
                -0x8_0000_0000 <= b <= 0x8_0000_0000,
                -0x2_0000_0000 <= w <= 0x2_0000_0000,
        ;
        assert(-0x10_0000_0000_0000_0000 <= c * w <= 0x10_0000_0000_0000_0000) by (nonlinear_arith)
            requires
                -0x8_0000_0000 <= c <= 0x8_0000_0000,
                -0x2_0000_0000 <= w <= 0x2_0000_0000,
        ;
        let d = c * w;
        assert(-0x100_0000_0000_0000_0000_0000_0000 <= d * t <= 0x100_0000_0000_0000_0000_0000_0000) by (nonlinear_arith)
            requires
                -0x10_0000_0000_0000_0000 <= d <= 0x10_0000_0000_0000_0000,
                0 <= t <= 0x1000_0000,
        ;
    }
    let v: i128 = a + b * w + c * w * t;
    let up: i128 = v + 0x1_0000_0000_0000_0000_0000_0000_0000;
    let m: i128 = up % 0x1_0000_0000_0000_0000;
    proof {
        assert(up >= 0);
        assert((v + 0x1_0000_0000_0000_0000_0000_0000_0000) % 0x1_0000_0000_0000_0000 == v as int % 0x1_0000_0000_0000_0000);
    }
    m as u64
}

impl OreStage {
    /// Sizes and placements are as they can be, and biomes know of every
    /// ore.
    pub open spec fn wf(&self) -> bool {
        &&& forall|i: int| 0 <= i < self.placed@.len() ==> placeable(#[trigger] self.placed@[i])
        &&& forall|b: int| 0 <= b < self.biome_has@.len() ==> (#[trigger] self.biome_has@[b])@.len() == self.placed@.len()
    }

    /// Place an ore at an origin.
    fn place<F: Fn(Ask) -> u64>(
        &self, o: &OreFeature, at: (i32, i32, i32), random: &mut WorldgenRandom, region: &mut Region, f: &F,
    )
        requires
            answers(*f),
            old(region).wf(),
            old(region)@.min_y > i32::MIN,
            0 <= o.size <= 64,
        ensures
            final(region).wf(),
            final(region)@.min_y == old(region)@.min_y,
            (Ground { random: *final(random), region: final(region)@ }) == self.ore_at(
                *f, *o, (at.0 as int, at.1 as int, at.2 as int), (Ground { random: *old(random), region: old(region)@ })),
    {
        let ghost pos = (at.0 as int, at.1 as int, at.2 as int);
        let u: u32 = random.next_float(f);
        let a: u32 = f(Ask::Mul32(u, PI_32)) as u32;
        let dir: u64 = f(Ask::Widen(a));
        let whole: u32 = f(Ask::FromInt32(o.size)) as u32;
        let part: u32 = f(Ask::Div32(whole, EIGHT_32)) as u32;
        let spread: u64 = f(Ask::Widen(part));
        let sine: u64 = f(Ask::Sin64(dir));
        let cosine: u64 = f(Ask::Cos64(dir));
        let dx: u64 = f(Ask::Mul64(sine, spread));
        let dz: u64 = f(Ask::Mul64(cosine, spread));
        let ox: u64 = f(Ask::FromInt64(wrap(at.0 as i128)));
        let oz: u64 = f(Ask::FromInt64(wrap(at.2 as i128)));
        let p: i32 = random.next_int_bounded(3);
        let q: i32 = random.next_int_bounded(3);
        let e = Ends {
            x0: f(Ask::Add64(ox, dx)),
            x1: f(Ask::Sub64(ox, dx)),
            z0: f(Ask::Add64(oz, dz)),
            z1: f(Ask::Sub64(oz, dz)),
            y0: f(Ask::FromInt64(wrap(at.1 as i128 + p as i128 - 2))),
            y1: f(Ask::FromInt64(wrap(at.1 as i128 + q as i128 - 2))),
        };
        let ceil: i64 = ((o.size + 7) / 8) as i64;
        let r: i64 = max_radius(o.size) as i64;
        let fr = Frame {
            x: at.0 as i64 - ceil - r,
            y: at.1 as i64 - 2 - r,
            z: at.2 as i64 - ceil - r,
            wide: 2 * (ceil + r),
            tall: 2 * (2 + r),
        };
        proof { assert(fr == self.frame_at(o.size as int, pos)); }
        if is_grounded(region, fr, Ghost(*self)) {
            self.do_place(o, e, fr, random, region, f);
        }
    }
}

/// An ore of a size that can be, placed in ways that can be.
pub open spec fn placeable(p: PlacedOre) -> bool {
    &&& 0 <= p.feature.size <= 64
    &&& forall|i: int| 0 <= i < p.placement@.len() ==> match #[trigger] p.placement@[i] {
        Modifier::Count(c) => c.wf(),
        Modifier::HeightRange(h) => h.wf(),
        _ => true,
    }
}

fn is_grounded(region: &Region, fr: Frame, Ghost(stage): Ghost<OreStage>) -> (r: bool)
    requires
        region.wf(),
        region@.min_y > i32::MIN,
        fr.wf(),
    ensures
        r == stage.grounded(region@, fr),
{
    let mut x: i64 = fr.x;
    while x <= fr.x + fr.wide
        invariant
            region.wf(),
            region@.min_y > i32::MIN,
            fr.wf(),
            fr.x <= x,
            forall|i: int, j: int|
                fr.x <= i < x && fr.z <= j <= fr.z + fr.wide ==> fr.y > #[trigger] region@.floor(
                    wrapped(i) as int, wrapped(j) as int),
        decreases fr.x + fr.wide + 1 - x,
    {
        let mut z: i64 = fr.z;
        while z <= fr.z + fr.wide
            invariant
                region.wf(),
                region@.min_y > i32::MIN,
                fr.wf(),
                fr.x <= x <= fr.x + fr.wide,
                fr.z <= z,
                forall|i: int, j: int|
                    fr.x <= i < x && fr.z <= j <= fr.z + fr.wide ==> fr.y > #[trigger] region@.floor(
                        wrapped(i) as int, wrapped(j) as int),
                forall|j: int| fr.z <= j < z ==> fr.y > #[trigger] region@.floor(wrapped(x as int) as int, wrapped(j) as int),
            decreases fr.z + fr.wide + 1 - z,
        {
            if fr.y <= region.ocean_floor_height(wrap(x as i128), wrap(z as i128)) as i64 {
                return true;
            }
            z += 1;
        }
        x += 1;
    }
    false
}

impl OreStage {
    /// The ground after the steps of a placement from the `index`-th on,
    /// depth first, and then the ore.
    pub open spec fn modified<F: Fn(Ask) -> u64>(
        &self, f: F, ore: PlacedOre, which: int, index: int, at: (int, int, int), g: Ground,
    ) -> Ground
        decreases ore.placement@.len() - index, 0nat, 0nat,
    {
        if index < 0 || index >= ore.placement@.len() {
            self.ore_at(f, ore.feature, at, g)
        } else {
            match ore.placement@[index] {
                Modifier::Count(c) => {
                    let (n, s) = c.drawn(g.random);
                    self.repeated(f, ore, which, index + 1, at, Ground { random: s, ..g }, if n > 0 { n as nat } else { 0 })
                },
                Modifier::InSquare => {
                    let (x, s) = below(g.random, 16);
                    let (z, t) = below(s, 16);
                    self.modified(
                        f, ore, which, index + 1, (wrapped(at.0 + x) as int, at.1, wrapped(at.2 + z) as int), Ground { random: t, ..g })
                },
                Modifier::HeightRange(h) => {
                    let (y, s) = h.drawn(g.random);
                    self.modified(f, ore, which, index + 1, (at.0, y, at.2), Ground { random: s, ..g })
                },
                Modifier::Biome => {
                    let b = (reply(f, Ask::Biome { x: at.0 as i32, y: at.1 as i32, z: at.2 as i32 }) % 0x1_0000) as int;
                    if b < self.biome_has@.len() && which < self.biome_has@[b]@.len() && self.biome_has@[b]@[which] {
                        self.modified(f, ore, which, index + 1, at, g)
                    } else {
                        g
                    }
                },
                Modifier::Rarity(chance) => {
                    let (u, s) = single(f, g.random);
                    let most = low(f, Ask::Div32(ONE_32, low(f, Ask::FromInt32(chance))));
                    let n = Ground { random: s, ..g };
                    if holds(f, Ask::Less32(u, most)) { self.modified(f, ore, which, index + 1, at, n) } else { n }
                },
            }
        }
    }

    /// The same, `n` times.
    pub open spec fn repeated<F: Fn(Ask) -> u64>(
        &self, f: F, ore: PlacedOre, which: int, index: int, at: (int, int, int), g: Ground, n: nat,
    ) -> Ground
        decreases ore.placement@.len() - index, 1nat, n,
    {
        if n == 0 {
            g
        } else {
            self.repeated(f, ore, which, index, at, self.modified(f, ore, which, index, at, g), (n - 1) as nat)
        }
    }

    /// Run the steps of a placement and place the ore.
    fn modify<F: Fn(Ask) -> u64>(
        &self, ore: &PlacedOre, which: usize, index: usize, at: (i32, i32, i32), random: &mut WorldgenRandom, region: &mut Region, f: &F,
    )
        requires
            answers(*f),
            self.wf(),
            placeable(*ore),
            old(region).wf(),
            old(region)@.min_y > i32::MIN,
            index <= ore.placement@.len(),
            which < self.placed@.len(),
        ensures
            final(region).wf(),
            final(region)@.min_y == old(region)@.min_y,
            (Ground { random: *final(random), region: final(region)@ }) == self.modified(
                *f, *ore, which as int, index as int, (at.0 as int, at.1 as int, at.2 as int), (Ground {
                    random: *old(random),
                    region: old(region)@,
                })),
        decreases ore.placement@.len() - index,
    {
        if index >= ore.placement.len() {
            self.place(&ore.feature, at, random, region, f);
            return;
        }
        let ghost pos = (at.0 as int, at.1 as int, at.2 as int);
        let step = ore.placement[index];
        proof { assert(ore.placement@[index as int] == step); }
        match step {
            Modifier::Count(c) => {
                let n: i32 = c.sample(random);
                let mut left: i32 = if n > 0 { n } else { 0 };
                let ghost result = self.repeated(
                    *f, *ore, which as int, index + 1, pos, Ground { random: *random, region: region@ }, left as nat);
                while left > 0
                    invariant
                        answers(*f),
                        self.wf(),
                        placeable(*ore),
                        region.wf(),
                        region@.min_y == old(region)@.min_y,
                        region@.min_y > i32::MIN,
                        index < ore.placement@.len(),
                        index < usize::MAX,
                        which < self.placed@.len(),
                        pos == (at.0 as int, at.1 as int, at.2 as int),
                        0 <= left,
                        result == self.repeated(
                            *f, *ore, which as int, index + 1, pos, (Ground { random: *random, region: region@ }), left as nat),
                    decreases left,
                {
                    self.modify(ore, which, index + 1, at, random, region, f);
                    left -= 1;
                }
            },
            Modifier::InSquare => {
                let x: i32 = random.next_int_bounded(16);
                let z: i32 = random.next_int_bounded(16);
                let next: (i32, i32, i32) = (wrap(at.0 as i128 + x as i128), at.1, wrap(at.2 as i128 + z as i128));
                self.modify(ore, which, index + 1, next, random, region, f);
            },
            Modifier::HeightRange(h) => {
                let y: i32 = h.sample(random);
                self.modify(ore, which, index + 1, (at.0, y, at.2), random, region, f);
            },
            Modifier::Biome => {
                let b: usize = (f(Ask::Biome { x: at.0, y: at.1, z: at.2 }) % 0x1_0000) as usize;
                if b < self.biome_has.len() && which < self.biome_has[b].len() && self.biome_has[b][which] {
                    self.modify(ore, which, index + 1, at, random, region, f);
                }
            },
            Modifier::Rarity(chance) => {
                let u: u32 = random.next_float(f);
                let c: u32 = f(Ask::FromInt32(chance)) as u32;
                let most: u32 = f(Ask::Div32(ONE_32, c)) as u32;
                if f(Ask::Less32(u, most)) != 0 {
                    self.modify(ore, which, index + 1, at, random, region, f);
                }
            },
        }
    }

    /// The region after the first `n` ores of a batch, each with a source
    /// of its own. An ore that is not known is left out.
    pub open spec fn batched<F: Fn(Ask) -> u64>(&self, f: F, seeds: Seq<i64>, placed: Seq<u16>, r: Around, n: nat) -> Around
        decreases n,
    {
        if n == 0 {
            r
        } else {
            let before = self.batched(f, seeds, placed, r, (n - 1) as nat);
            let p = placed[n - 1] as int;
            if p < self.placed@.len() {
                let g = Ground { random: WorldgenRandom::seeded(seeds[n - 1]), region: before };
                let at = (wrapped(r.chunk_x * 16) as int, self.min_y as int, wrapped(r.chunk_z * 16) as int);
                self.modified(f, self.placed@[p], p, 0, at, g).region
            } else {
                before
            }
        }
    }

    /// Run a batch over a region, in the order the game gave it.
    pub fn apply<F: Fn(Ask) -> u64>(&self, batch: &OreBatch, region: &mut Region, f: &F)
        requires
            answers(*f),
            self.wf(),
            old(region).wf(),
            old(region)@.min_y > i32::MIN,
        ensures
            final(region).wf(),
            ({
                let (s, p) = (batch.seeds@, batch.placed@);
                final(region)@ == self.batched(*f, s, p, old(region)@, if s.len() < p.len() { s.len() } else { p.len() })
            }),
    {
        let n: usize = if batch.seeds.len() < batch.placed.len() { batch.seeds.len() } else { batch.placed.len() };
        let at: (i32, i32, i32) = (wrap(region.chunk_x as i128 * 16), self.min_y, wrap(region.chunk_z as i128 * 16));
        let mut i: usize = 0;
        while i < n
            invariant
                answers(*f),
                self.wf(),
                i <= n,
                n <= batch.seeds@.len() && n <= batch.placed@.len(),
                region.wf(),
                region@.min_y > i32::MIN,
                at == (wrapped(old(region)@.chunk_x * 16), self.min_y, wrapped(old(region)@.chunk_z * 16)),
                region@ == self.batched(*f, batch.seeds@, batch.placed@, old(region)@, i as nat),
            decreases n - i,
        {
            let p: usize = batch.placed[i] as usize;
            if p < self.placed.len() {
                let mut random = WorldgenRandom::from_seed(batch.seeds[i]);
                proof { assert(placeable(self.placed@[p as int])); }
                self.modify(&self.placed[p], p, 0, at, &mut random, region, f);
            }
            i += 1;
        }
    }

    /// The sections that the first `n` ores of a batch can touch; nothing
    /// where there are none.
    pub open spec fn span(&self, placed: Seq<u16>, n: nat) -> Option<(usize, usize)>
        decreases n,
    {
        if n == 0 {
            None
        } else {
            let o = self.placed@[placed[n - 1] as int];
            match self.span(placed, (n - 1) as nat) {
                None => Some((o.section_lo, o.section_hi)),
                Some((lo, hi)) => Some(
                    (
                        if o.section_lo < lo { o.section_lo } else { lo },
                        if o.section_hi > hi { o.section_hi } else { hi },
                    ),
                ),
            }
        }
    }

    /// The sections that a batch can touch, from the bottom; nothing for an
    /// empty one, or where an ore is not known.
    pub fn plan(&self, batch: &OreBatch) -> (r: Option<(usize, usize)>)
        ensures
            (exists|i: int| 0 <= i < batch.placed@.len() && #[trigger] batch.placed@[i] >= self.placed@.len()) ==> r is None,
            (forall|i: int| 0 <= i < batch.placed@.len() ==> #[trigger] batch.placed@[i] < self.placed@.len()) ==> r == self.span(
                batch.placed@, batch.placed@.len()),
    {
        let mut range: Option<(usize, usize)> = None;
        let mut i: usize = 0;
        while i < batch.placed.len()
            invariant
                i <= batch.placed@.len(),
                forall|k: int| 0 <= k < i ==> #[trigger] batch.placed@[k] < self.placed@.len(),
                range == self.span(batch.placed@, i as nat),
            decreases batch.placed.len() - i,
        {
            let p: usize = batch.placed[i] as usize;
            if p >= self.placed.len() {
                proof { assert(batch.placed@[i as int] >= self.placed@.len()); }
                return None;
            }
            let (a, b): (usize, usize) = (self.placed[p].section_lo, self.placed[p].section_hi);
            range = Some(
                match range {
                    None => (a, b),
                    Some((lo, hi)) => (if a < lo { a } else { lo }, if b > hi { b } else { hi }),
                },
            );
            i += 1;
        }
        range
    }

    pub fn section_count(&self) -> (r: usize)
        ensures
            r == self.section_count,
    {
        self.section_count
    }
}

} // verus!
