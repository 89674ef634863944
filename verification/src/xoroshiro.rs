//! The game's 128-bit generator.

use vstd::prelude::*;

verus! {

/// Rotation of 64 bits to the left.
pub open spec fn rotated(x: u64, k: u64) -> u64 {
    (x << k) | (x >> ((64 - k) as u64))
}

pub fn rotate(x: u64, k: u64) -> (r: u64)
    requires
        0 < k < 64,
    ensures
        r == rotated(x, k),
{
    (x << k) | (x >> (64 - k))
}

/// The state of a generator.
#[derive(Clone, Copy, Debug, PartialEq, Eq)]
pub struct XoroshiroRandomSource {
    pub lo: u64,
    pub hi: u64,
}

/// A state that is not all zeros.
pub open spec fn settled(lo: u64, hi: u64) -> XoroshiroRandomSource {
    if lo == 0 && hi == 0 {
        XoroshiroRandomSource { lo: 0x9E37_79B9_7F4A_7C15, hi: 0x6A09_E667_F3BC_C909 }
    } else {
        XoroshiroRandomSource { lo, hi }
    }
}

/// The bits of a number mixed.
pub open spec fn mixed(z: u64) -> u64 {
    let a = (z ^ (z >> 30u64)).wrapping_mul(0xBF58_476D_1CE4_E5B9u64);
    let b = (a ^ (a >> 27u64)).wrapping_mul(0x94D0_49BB_1331_11EBu64);
    b ^ (b >> 31u64)
}

fn mix(z: u64) -> (r: u64)
    ensures
        r == mixed(z),
{
    let a: u64 = (z ^ (z >> 30u64)).wrapping_mul(0xBF58_476D_1CE4_E5B9u64);
    let b: u64 = (a ^ (a >> 27u64)).wrapping_mul(0x94D0_49BB_1331_11EBu64);
    b ^ (b >> 31u64)
}

impl XoroshiroRandomSource {
    /// The number a state yields.
    pub open spec fn long(self) -> u64 {
        rotated(self.lo.wrapping_add(self.hi), 17).wrapping_add(self.lo)
    }

    /// The state after one number.
    pub open spec fn stepped(self) -> XoroshiroRandomSource {
        let x = self.hi ^ self.lo;
        XoroshiroRandomSource { lo: rotated(self.lo, 49) ^ x ^ (x << 21u64), hi: rotated(x, 28) }
    }

    /// The state that a 64-bit seed is spread to.
    pub open spec fn upgraded(seed: i64) -> XoroshiroRandomSource {
        let lo = (seed as u64) ^ 0x6A09_E667_F3BC_C909u64;
        settled(mixed(lo), mixed(lo.wrapping_add(0x9E37_79B9_7F4A_7C15u64)))
    }

    /// A generator from a 64-bit seed.
    pub fn from_legacy_seed(seed: i64) -> (r: XoroshiroRandomSource)
        ensures
            r == XoroshiroRandomSource::upgraded(seed),
    {
        let lo: u64 = (seed as u64) ^ 0x6A09_E667_F3BC_C909u64;
        XoroshiroRandomSource::new(mix(lo), mix(lo.wrapping_add(0x9E37_79B9_7F4A_7C15u64)))
    }

    /// A factory from the next two numbers.
    pub fn fork_positional(&mut self) -> (r: XoroshiroPositionalRandomFactory)
        ensures
            r == (XoroshiroPositionalRandomFactory { lo: old(self).long(), hi: old(self).stepped().long() }),
            *final(self) == old(self).stepped().stepped(),
    {
        let lo: u64 = self.next_long();
        let hi: u64 = self.next_long();
        XoroshiroPositionalRandomFactory { lo, hi }
    }

    /// A generator from two seeds.
    pub fn new(lo: u64, hi: u64) -> (r: XoroshiroRandomSource)
        ensures
            r == settled(lo, hi),
    {
        if lo == 0 && hi == 0 {
            XoroshiroRandomSource { lo: 0x9E37_79B9_7F4A_7C15, hi: 0x6A09_E667_F3BC_C909 }
        } else {
            XoroshiroRandomSource { lo, hi }
        }
    }

    /// The next 64 bits.
    pub fn next_long(&mut self) -> (r: u64)
        ensures
            r == old(self).long(),
            *final(self) == old(self).stepped(),
    {
        let (s0, s1): (u64, u64) = (self.lo, self.hi);
        let r: u64 = rotate(s0.wrapping_add(s1), 17).wrapping_add(s0);
        let x: u64 = s1 ^ s0;
        self.lo = rotate(s0, 49) ^ x ^ (x << 21u64);
        self.hi = rotate(x, 28);
        r
    }

    /// The next 32 bits.
    pub fn next_int(&mut self) -> (r: u32)
        ensures
            r == old(self).long() % 0x1_0000_0000,
            *final(self) == old(self).stepped(),
    {
        (self.next_long() % 0x1_0000_0000) as u32
    }

    /// A number below `bound`, without bias: 32 bits scaled up; a draw whose
    /// remainder falls into the short part is drawn again.
    pub fn next_int_bounded(&mut self, bound: u32) -> (r: u32)
        requires
            bound > 0,
        ensures
            (r as int, *final(self)) == drawn(*old(self), bound as int, TRIES as nat),
            r < bound,
    {
        let short: u64 = (0x1_0000_0000 - bound as u64) % bound as u64;
        let ghost start = *self;
        let mut tries: u64 = TRIES;
        let mut bits: u32 = self.next_int();
        proof {
            assert(0 <= bits * bound <= 0xffff_ffff * 0xffff_ffff) by (nonlinear_arith)
                requires
                    0 <= bits <= 0xffff_ffff,
                    0 <= bound <= 0xffff_ffff,
            ;
        }
        let mut m: u64 = bits as u64 * bound as u64;
        while m % 0x1_0000_0000 < short && tries > 0
            invariant
                bound > 0,
                short == (0x1_0000_0000 - bound) % (bound as int),
                m == bits * bound,
                m <= 0xffff_ffff * 0xffff_ffff,
                drawn(start, bound as int, TRIES as nat) == chosen_of(bits as int, *self, bound as int, tries as nat),
            decreases tries,
        {
            bits = self.next_int();
            proof {
                assert(0 <= bits * bound <= 0xffff_ffff * 0xffff_ffff) by (nonlinear_arith)
                    requires
                        0 <= bits <= 0xffff_ffff,
                        0 <= bound <= 0xffff_ffff,
                ;
            }
            m = bits as u64 * bound as u64;
            tries = tries - 1;
        }
        proof {
            assert(m / 0x1_0000_0000 < bound) by (nonlinear_arith)
                requires
                    m == bits * bound,
                    bits <= 0xffff_ffff,
                    bound > 0,
            ;
        }
        (m / 0x1_0000_0000) as u32
    }
}

/// How often a bounded draw is repeated at most.
pub const TRIES: u64 = 0x7fff_ffff_ffff_ffff;

/// A number below `bound` and the state after it.
pub open spec fn drawn(g: XoroshiroRandomSource, bound: int, tries: nat) -> (int, XoroshiroRandomSource) {
    chosen_of((g.long() % 0x1_0000_0000) as int, g.stepped(), bound, tries)
}

/// What 32 bits give, or the draws after them.
pub open spec fn chosen_of(bits: int, g: XoroshiroRandomSource, bound: int, tries: nat) -> (int, XoroshiroRandomSource)
    decreases tries,
{
    let m = bits * bound;
    if m % 0x1_0000_0000 < (0x1_0000_0000 - bound) % bound && tries > 0 {
        chosen_of((g.long() % 0x1_0000_0000) as int, g.stepped(), bound, (tries - 1) as nat)
    } else {
        (m / 0x1_0000_0000, g)
    }
}

/// A number made of a position.
pub open spec fn position_seed(x: i32, y: i32, z: i32) -> u64 {
    let a = sign_extended((x as u32).wrapping_mul(3129871u32));
    let b = sign_extended(z as u32).wrapping_mul(116129781u64);
    let l = a ^ b ^ sign_extended(y as u32);
    let m = l.wrapping_mul(l).wrapping_mul(42317861u64).wrapping_add(l.wrapping_mul(11u64));
    if m >= 0x8000_0000_0000_0000 { (m >> 16u64) | 0xffff_0000_0000_0000 } else { m >> 16u64 }
}

/// 32 bits with their sign carried up to 64.
pub open spec fn sign_extended(v: u32) -> u64 {
    if v >= 0x8000_0000 { (v + 0xffff_ffff_0000_0000) as u64 } else { v as u64 }
}

fn sign_extend(v: u32) -> (r: u64)
    ensures
        r == sign_extended(v),
{
    if v >= 0x8000_0000 { v as u64 + 0xffff_ffff_0000_0000 } else { v as u64 }
}

fn seed_of_position(x: i32, y: i32, z: i32) -> (r: u64)
    ensures
        r == position_seed(x, y, z),
{
    let a: u64 = sign_extend((x as u32).wrapping_mul(3129871));
    let b: u64 = sign_extend(z as u32).wrapping_mul(116129781);
    let l: u64 = a ^ b ^ sign_extend(y as u32);
    let m: u64 = l.wrapping_mul(l).wrapping_mul(42317861).wrapping_add(l.wrapping_mul(11));
    if m >= 0x8000_0000_0000_0000 { (m >> 16u64) | 0xffff_0000_0000_0000 } else { m >> 16u64 }
}

/// Generators by position.
#[derive(Clone, Copy, Debug, PartialEq, Eq)]
pub struct XoroshiroPositionalRandomFactory {
    pub lo: u64,
    pub hi: u64,
}

impl XoroshiroPositionalRandomFactory {
    pub open spec fn generator(self, x: i32, y: i32, z: i32) -> XoroshiroRandomSource {
        settled(position_seed(x, y, z) ^ self.lo, self.hi)
    }

    /// The generator of a position.
    pub fn at(&self, x: i32, y: i32, z: i32) -> (r: XoroshiroRandomSource)
        ensures
            r == self.generator(x, y, z),
    {
        XoroshiroRandomSource::new(seed_of_position(x, y, z) ^ self.lo, self.hi)
    }
}

} // verus!
