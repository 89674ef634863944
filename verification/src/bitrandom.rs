//! Random numbers that are derived from a source of bits.

use vstd::prelude::*;
use crate::arith::{answers, low, Ask};
use crate::xoroshiro::TRIES;

verus! {

/// 2^-24 as a single.
pub const FLOAT_UNIT: u32 = 0x3380_0000;

/// What a draw of 53 bits is scaled by: about 2^-53.
pub const DOUBLE_UNIT: u64 = 0x3CA0_0000_0000_0000;

/// Yields up to 32 bits at a time.
pub trait BitSource: Sized {
    /// The bits drawn, as a signed number, and the source afterwards.
    spec fn drawn(self, bits: u32) -> (i32, Self);

    /// The next bits.
    fn next(&mut self, bits: u32) -> (r: i32)
        requires
            1 <= bits <= 32,
        ensures
            (r, *final(self)) == old(self).drawn(bits),
            bits <= 31 ==> r >= 0,
    ;
}

/// What 31 bits give below a bound; nothing where they fall into the short
/// part.
pub open spec fn accepted(sample: i32, bound: i32) -> Option<i32> {
    if bound & ((bound - 1) as i32) == 0 {
        Some((bound * sample / 0x8000_0000) as i32)
    } else if sample - sample as int % bound as int + (bound - 1) <= i32::MAX {
        Some((sample as int % bound as int) as i32)
    } else {
        None
    }
}

/// A number below a bound, and the source afterwards; what falls into the
/// short part is drawn again.
pub open spec fn bounded<R: BitSource>(r: R, bound: i32, tries: nat) -> (i32, R)
    decreases tries,
{
    let (sample, s) = r.drawn(31);
    match accepted(sample, bound) {
        Some(v) => (v, s),
        None => if tries == 0 { (0, s) } else { bounded(s, bound, (tries - 1) as nat) },
    }
}

/// A number below a bound.
pub open spec fn below<R: BitSource>(r: R, bound: i32) -> (i32, R) {
    bounded(r, bound, TRIES as nat)
}

/// A number below a bound.
pub fn next_int_bound<R: BitSource>(random: &mut R, bound: i32) -> (r: i32)
    requires
        bound > 0,
    ensures
        (r, *final(random)) == below(*old(random), bound),
        0 <= r < bound,
{
    let ghost start = *random;
    let mut tries: u64 = TRIES;
    loop
        invariant
            bound > 0,
            bounded(start, bound, TRIES as nat) == bounded(*random, bound, tries as nat),
            start == *old(random),
        decreases tries,
    {
        let sample: i32 = random.next(31);
        if bound & (bound - 1) == 0 {
            proof {
                assert(0 <= bound * sample && bound * sample / 0x8000_0000 < bound) by (nonlinear_arith)
                    requires
                        0 < bound <= 0x7fff_ffff,
                        0 <= sample <= 0x7fff_ffff,
                ;
                assert(bound * sample <= 0x7fff_ffff * 0x7fff_ffff) by (nonlinear_arith)
                    requires
                        0 < bound <= 0x7fff_ffff,
                        0 <= sample <= 0x7fff_ffff,
                ;
            }
            return (bound as i64 * sample as i64 / 0x8000_0000) as i32;
        }
        let modulo: i32 = sample % bound;
        if sample as i64 - modulo as i64 + (bound as i64 - 1) <= i32::MAX as i64 {
            return modulo;
        }
        if tries == 0 {
            return 0;
        }
        tries = tries - 1;
    }
}

/// A single in `[0, 1)`.
pub open spec fn single<R: BitSource, F: Fn(Ask) -> u64>(f: F, r: R) -> (u32, R) {
    let (v, s) = r.drawn(24);
    (low(f, Ask::Mul32(low(f, Ask::FromInt32(v)), FLOAT_UNIT)), s)
}

pub fn next_float<R: BitSource, F: Fn(Ask) -> u64>(random: &mut R, f: &F) -> (r: u32)
    requires
        answers(*f),
    ensures
        (r, *final(random)) == single(*f, *old(random)),
{
    let v: i32 = random.next(24);
    let w: u32 = f(Ask::FromInt32(v)) as u32;
    f(Ask::Mul32(w, FLOAT_UNIT)) as u32
}

/// A number between two, both included.
pub open spec fn between<R: BitSource>(r: R, min: int, max: int) -> (int, R) {
    let (v, s) = below(r, (max - min + 1) as i32);
    (v + min, s)
}

pub fn random_between_inclusive<R: BitSource>(random: &mut R, min: i32, max: i32) -> (r: i32)
    requires
        min <= max,
        max - min + 1 <= i32::MAX,
    ensures
        (r as int, *final(random)) == between(*old(random), min as int, max as int),
        min <= r <= max,
{
    let v: i32 = next_int_bound(random, max - min + 1);
    v + min
}

/// A source that yields the high bits of a 48-bit congruential generator.
#[derive(Clone, Copy, Debug)]
pub struct LegacyRandomSource {
    pub seed: u64,
}

/// The modulus of the generator.
pub const MODULUS: u64 = 0x1_0000_0000_0000;

/// Its multiplier, which seeds are scrambled with too.
pub const MULTIPLIER: u64 = 0x5_DEEC_E66D;

impl LegacyRandomSource {
    /// The state that a seed leads to.
    pub open spec fn seeded(seed: i64) -> LegacyRandomSource {
        LegacyRandomSource { seed: ((seed as u64) ^ MULTIPLIER) % MODULUS }
    }

    /// The next state.
    pub open spec fn stepped(self) -> LegacyRandomSource {
        LegacyRandomSource { seed: self.seed.wrapping_mul(MULTIPLIER).wrapping_add(0xB) % MODULUS }
    }

    /// 64 bits from two draws.
    pub open spec fn long(self) -> (i64, LegacyRandomSource) {
        let (hi, s) = self.drawn(32);
        let (lo, t) = s.drawn(32);
        (((hi as u64) << 32u64).wrapping_add(lo as u64) as i64, t)
    }

    /// The state for a chunk and a world seed.
    pub open spec fn for_chunk(seed: i64, x: i32, z: i32) -> LegacyRandomSource {
        let (a, s) = LegacyRandomSource::seeded(seed).long();
        let (b, _) = s.long();
        LegacyRandomSource::seeded(
            (((x as u64).wrapping_mul(a as u64)) ^ ((z as u64).wrapping_mul(b as u64)) ^ (seed as u64)) as i64,
        )
    }

    pub fn new(seed: i64) -> (r: LegacyRandomSource)
        ensures
            r == LegacyRandomSource::seeded(seed),
    {
        LegacyRandomSource { seed: ((seed as u64) ^ MULTIPLIER) % MODULUS }
    }

    pub fn next_long(&mut self) -> (r: i64)
        ensures
            (r, *final(self)) == old(self).long(),
    {
        let hi: i32 = self.next(32);
        let lo: i32 = self.next(32);
        ((hi as u64) << 32u64).wrapping_add(lo as u64) as i64
    }

    /// Seed for a chunk.
    pub fn set_large_feature_seed(&mut self, seed: i64, x: i32, z: i32)
        ensures
            *final(self) == LegacyRandomSource::for_chunk(seed, x, z),
    {
        let mut r = LegacyRandomSource::new(seed);
        let a: i64 = r.next_long();
        let b: i64 = r.next_long();
        let s: u64 = ((x as u64).wrapping_mul(a as u64)) ^ ((z as u64).wrapping_mul(b as u64)) ^ (seed as u64);
        *self = LegacyRandomSource::new(s as i64);
    }
}

impl BitSource for LegacyRandomSource {
    open spec fn drawn(self, bits: u32) -> (i32, LegacyRandomSource) {
        let s = self.stepped();
        ((s.seed >> ((48 - bits) as u64)) as i32, s)
    }

    fn next(&mut self, bits: u32) -> (r: i32) {
        let s: u64 = self.seed.wrapping_mul(MULTIPLIER).wrapping_add(0xB) % MODULUS;
        self.seed = s;
        let shift: u64 = (48 - bits) as u64;
        proof {
            assert(shift >= 17 && s < 0x1_0000_0000_0000 ==> (s >> shift) <= 0x7fff_ffff) by (bit_vector);
        }
        (s >> shift) as i32
    }
}

} // verus!
