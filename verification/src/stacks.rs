//! The noise stacks of a world, made from where they come from.

use vstd::prelude::*;
use crate::arith::{answers, Ask};
use crate::loader::{Loader, NoiseOrigin};
use crate::noise26::NoiseParameters26;
use crate::perlin26::{after_noises, fbm_layer, first_strength, from_hash, hashes, named, NameHash, NoiseStack};
use crate::xoroshiro::{XoroshiroPositionalRandomFactory, XoroshiroRandomSource};

verus! {

/// How strong the limits of the blended terrain noise are, 65535 / 65536.
pub const LIMIT_STRENGTH: u64 = 0x3FEF_FFE0_0000_0000;

/// How strong its main noise is, 12.75.
pub const MAIN_STRENGTH: u64 = 0x4029_8000_0000_0000;

/// A fractal sum that a generator makes.
pub open spec fn is_fbm<F: Fn(Ask) -> u64>(f: F, s: NoiseStack, r: XoroshiroRandomSource, octaves: int, smear: u64, strength: u64) -> bool {
    &&& s.layers@.len() == octaves
    &&& forall|i: int| 0 <= i < s.layers@.len() ==> #[trigger] fbm_layer(
        f, s.layers@[i], r, smear, first_strength(f, strength, octaves), i as nat)
}

/// A part of the blended terrain noise. One generator makes the lower
/// limit, the upper limit and the main noise, in this order.
pub open spec fn is_blended<F: Fn(Ask) -> u64>(f: F, s: NoiseStack, r: XoroshiroRandomSource, part: int, limit: u64, main: u64) -> bool {
    if part == 0 {
        is_fbm(f, s, r, 16, limit, LIMIT_STRENGTH)
    } else if part == 1 {
        is_fbm(f, s, after_noises(r, 16), 16, limit, LIMIT_STRENGTH)
    } else {
        is_fbm(f, s, after_noises(after_noises(r, 16), 16), 8, main, MAIN_STRENGTH)
    }
}

impl NoiseParameters26 {
    /// Whether there is one modifier per octave, or none at all.
    pub fn is_sound(&self) -> (r: bool)
        ensures
            r == self@.wf(),
    {
        0 <= self.octave_count && (self.amplitude_modifiers.len() == 0 || self.amplitude_modifiers.len() as u64
            == self.octave_count as u64)
    }
}

/// The factory that every noise of a world is seeded from.
pub open spec fn root_of(seed: i64) -> XoroshiroPositionalRandomFactory {
    let r = XoroshiroRandomSource::upgraded(seed);
    XoroshiroPositionalRandomFactory { lo: r.long(), hi: r.stepped().long() }
}

impl Loader {
    /// The world's root random factory.
    pub fn root_factory(&self) -> (r: XoroshiroPositionalRandomFactory)
        ensures
            r == root_of(self.world_seed()),
    {
        let mut random = XoroshiroRandomSource::from_legacy_seed(self.seed());
        random.fork_positional()
    }
}

impl NoiseOrigin {
    /// Make the stack. `name` is the hash of the noise's full name, `terrain`
    /// that of the blended terrain noise, and `h` hashes an octave's name;
    /// nothing for a noise without one modifier per octave.
    pub fn make<F: Fn(Ask) -> u64, H: Fn(i32) -> NameHash>(
        &self, root: &XoroshiroPositionalRandomFactory, name: NameHash, terrain: NameHash, h: &H, f: &F,
    ) -> (r: Option<NoiseStack>)
        requires
            answers(*f),
            hashes(*h),
        ensures
            match *self {
                NoiseOrigin::Named { parameters, .. } => match r {
                    Some(s) => parameters@.wf() && parameters.makes(*f, *h, named(*root, name), s),
                    None => !parameters@.wf(),
                },
                NoiseOrigin::Blended { part, limit_smear, main_smear } => r matches Some(s) && is_blended(
                    *f, s, named(*root, terrain), part as int, limit_smear, main_smear),
            },
    {
        match self {
            NoiseOrigin::Named { parameters, .. } => {
                if !parameters.is_sound() {
                    return None;
                }
                Some(parameters.instantiate(root, name, h, f))
            },
            NoiseOrigin::Blended { part, limit_smear, main_smear } => {
                let mut random = from_hash(root, terrain);
                let lower = NoiseStack::create_fbm(&mut random, -15, *limit_smear, LIMIT_STRENGTH, f);
                if *part == 0 {
                    return Some(lower);
                }
                let upper = NoiseStack::create_fbm(&mut random, -15, *limit_smear, LIMIT_STRENGTH, f);
                if *part == 1 {
                    return Some(upper);
                }
                Some(NoiseStack::create_fbm(&mut random, -7, *main_smear, MAIN_STRENGTH, f))
            },
        }
    }
}

} // verus!
