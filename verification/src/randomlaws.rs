//! What random sources yield: steps that can be undone, draws that are even,
//! numbers that lie where they are asked for.

use vstd::prelude::*;
use vstd::arithmetic::div_mod::{lemma_fundamental_div_mod, lemma_mod_multiples_vanish, lemma_small_mod};
use vstd::arithmetic::power2::{lemma2_to64, pow2};
use crate::bitrandom::{accepted, below, between, bounded, BitSource, LegacyRandomSource, MODULUS, MULTIPLIER};
use crate::ores26::WorldgenRandom;
use crate::xoroshiro::{chosen_of, drawn, mixed, position_seed, rotated, sign_extended, XoroshiroPositionalRandomFactory, XoroshiroRandomSource, TRIES};

verus! {

/// What multiplies with the multiplier to one.
pub const BACKWARDS: u64 = 0xDFE0_5BCB_1365;

/// A step of the small source can be undone.
pub proof fn law_small_steps_are_undone(s: LegacyRandomSource)
    requires
        s.seed < MODULUS,
    ensures
        s.stepped().seed < MODULUS,
        ((s.stepped().seed - 11) * BACKWARDS) % (MODULUS as int) == s.seed,
{
    let x = s.seed as int;
    let m = 0x1_0000_0000_0000_0000int;
    let c = 0x1_0000_0000_0000int;
    let p = x * 0x5_DEEC_E66D;
    let a = s.seed.wrapping_mul(MULTIPLIER);
    assert(a == p % m) by {
        assert(s.seed as nat * MULTIPLIER as nat == p);
    }
    lemma_fundamental_div_mod(p, m);
    let b = a.wrapping_add(0xB);
    lemma_fundamental_div_mod(b as int, c);
    let q = s.stepped().seed as int;
    let (i, j) = (p / m, b as int / c);
    let carry = if a + 11 >= m { 1int } else { 0 };
    assert(q == p + 11 - c * (0x1_0000 * i + 0x1_0000 * carry + j));
    let k = 0x1_0000 * i + 0x1_0000 * carry + j;
    assert(0x5_DEEC_E66D * 0xDFE0_5BCB_1365 == 1 + c * 0x5_2255_86E9);
    let w = 0x5_2255_86E9 * x - k * 0xDFE0_5BCB_1365;
    assert((q - 11) * 0xDFE0_5BCB_1365 == c * w + x) by (nonlinear_arith)
        requires
            q - 11 == x * 0x5_DEEC_E66D - c * k,
            0x5_DEEC_E66D * 0xDFE0_5BCB_1365 == 1 + c * 0x5_2255_86E9,
            w == 0x5_2255_86E9 * x - k * 0xDFE0_5BCB_1365,
    ;
    lemma_mod_multiples_vanish(w, x, c);
    lemma_small_mod(x as nat, c as nat);
}

/// Bits that are drawn are the upper ones of 48.
pub proof fn law_small_draws_are_upper_bits(s: LegacyRandomSource, bits: u32)
    requires
        1 <= bits <= 32,
    ensures
        ({
            let (v, t) = s.drawn(bits);
            let n = if bits == 32 { v as u32 as int } else { v as int };
            &&& t == s.stepped()
            &&& n * pow2((48 - bits) as nat) <= t.seed < (n + 1) * pow2((48 - bits) as nat)
            &&& bits < 32 ==> 0 <= v
        }),
{
    let t = s.stepped();
    let k = (48 - bits) as u64;
    let x = t.seed;
    let y = x >> k;
    vstd::bits::lemma_u64_shr_is_div(x, k);
    assert(16 <= k <= 47 && x < 0x1_0000_0000_0000 ==> (x >> k) <= 0xffff_ffff && (k >= 17 ==> (x >> k) <= 0x7fff_ffff)) by (bit_vector);
    assert(y <= 0xffff_ffff ==> (y as i32) as u32 == y) by (bit_vector);
    vstd::arithmetic::power2::lemma_pow2_pos(k as nat);
    let p = pow2(k as nat) as int;
    lemma_fundamental_div_mod(x as int, p);
    assert((y + 1) * p == y * p + p && p * y == y * p) by (nonlinear_arith);
}

/// A signed number in 64 bits.
proof fn lemma_unsigned(v: i64)
    ensures
        v as u64 == if v < 0 { v + 0x1_0000_0000_0000_0000 } else { v as int },
{
    assert(v < 0 ==> (v as u64) as int == v + 0x1_0000_0000_0000_0000) by (bit_vector);
}

proof fn lemma_unsigned32(v: i32)
    ensures
        v as u64 == if v < 0 { v + 0x1_0000_0000_0000_0000 } else { v as int },
{
    assert(v < 0 ==> (v as u64) as int == v + 0x1_0000_0000_0000_0000) by (bit_vector);
}

proof fn lemma_signed(v: u64)
    ensures
        v as i64 == if v >= 0x8000_0000_0000_0000 { v - 0x1_0000_0000_0000_0000 } else { v as int },
{
    assert(v >= 0x8000_0000_0000_0000 ==> (v as i64) as int == v - 0x1_0000_0000_0000_0000) by (bit_vector);
}

/// 64 bits are two draws of 32: the first in the upper half.
pub proof fn law_longs_join_two_draws(s: LegacyRandomSource)
    ensures
        ({
            let (hi, t) = s.drawn(32);
            let (lo, u) = t.drawn(32);
            let (v, w) = s.long();
            &&& w == u
            &&& (v - hi * 0x1_0000_0000 - lo) % 0x1_0000_0000_0000_0000 == 0
        }),
{
    let (hi, t) = s.drawn(32);
    lemma_joined(hi, t.drawn(32).0);
}

proof fn lemma_joined(hi: i32, lo: i32)
    ensures
        (((hi as u64) << 32u64).wrapping_add(lo as u64) as i64 - hi * 0x1_0000_0000 - lo) % 0x1_0000_0000_0000_0000 == 0,
{
    let m = 0x1_0000_0000_0000_0000int;
    let h = hi as u64;
    let l = lo as u64;
    assert(h << 32u64 == (h % 0x1_0000_0000) * 0x1_0000_0000) by (bit_vector);
    let up = h << 32u64;
    let sum = up.wrapping_add(l);
    let a = if hi < 0 { 1int } else { 0 };
    let b = if lo < 0 { 1int } else { 0 };
    lemma_unsigned32(hi);
    lemma_unsigned32(lo);
    lemma_signed(sum);
    assert(h == hi + a * m && l == lo + b * m);
    lemma_fundamental_div_mod(h as int, 0x1_0000_0000);
    let g = h as int / 0x1_0000_0000;
    assert(up == (hi + a * m - 0x1_0000_0000 * g) * 0x1_0000_0000);
    let c = if up + l >= m { 1int } else { 0 };
    let d = if sum >= 0x8000_0000_0000_0000 { 1int } else { 0 };
    let k = a * 0x1_0000_0000 - g + b - c - d;
    assert(sum as i64 - hi * 0x1_0000_0000 - lo == m * k);
    lemma_mod_multiples_vanish(k, 0, m);
}

/// Of 31 bits, those below the greatest multiple of a bound give the
/// remainder, the rest is drawn again; a power of two takes equal runs of
/// them instead.
pub proof fn law_bounded_draws_are_even(sample: i32, bound: i32)
    requires
        0 <= sample,
        0 < bound,
    ensures
        bound & ((bound - 1) as i32) != 0 ==> (accepted(sample, bound) is None <==> sample >= 0x8000_0000int / (bound as int) * bound),
        bound & ((bound - 1) as i32) != 0 ==> (accepted(sample, bound) matches Some(v) ==> 0 <= v < bound && (sample - v) % (bound as int)
            == 0),
        bound & ((bound - 1) as i32) == 0 ==> (accepted(sample, bound) matches Some(v) && v * 0x8000_0000 <= sample * bound < (v + 1)
            * 0x8000_0000),
{
    let (s, b) = (sample as int, bound as int);
    if bound & ((bound - 1) as i32) == 0 {
        let p = b * s;
        assert(0 <= p && p / 0x8000_0000 < b && p == s * b) by (nonlinear_arith)
            requires
                0 < b,
                0 <= s < 0x8000_0000,
                p == b * s,
        ;
        lemma_fundamental_div_mod(p, 0x8000_0000);
    } else {
        lemma_fundamental_div_mod(s, b);
        lemma_fundamental_div_mod(0x8000_0000, b);
        let (q, r) = (s / b, s % b);
        let n = 0x8000_0000int / b;
        assert(b * q == s - r && n * b == b * n);
        assert((b * (q + 1) <= 0x8000_0000) == (s < n * b)) by (nonlinear_arith)
            requires
                b > 0,
                s == b * q + r,
                0 <= r < b,
                n * b <= 0x8000_0000 < n * b + b,
        ;
        assert(b * (q + 1) == b * q + b) by (nonlinear_arith);
        lemma_mod_multiples_vanish(q, 0, b);
    }
}

/// A source of which no draw of 31 bits is below zero.
pub open spec fn unsigned<R: BitSource>() -> bool {
    forall|q: R| 0 <= (#[trigger] q.drawn(31)).0
}

/// What is drawn below a bound lies there.
pub proof fn law_bounded_draws_lie_below<R: BitSource>(r: R, bound: i32, tries: nat)
    requires
        unsigned::<R>(),
        bound > 0,
    ensures
        0 <= bounded(r, bound, tries).0 < bound,
    decreases tries,
{
    let (sample, s) = r.drawn(31);
    law_bounded_draws_are_even(sample, bound);
    if bound & ((bound - 1) as i32) == 0 {
        let v = accepted(sample, bound)->0;
        assert(0 <= v < bound) by (nonlinear_arith)
            requires
                v * 0x8000_0000 <= sample * bound < (v + 1) * 0x8000_0000,
                0 <= sample < 0x8000_0000,
                0 < bound,
        ;
    }
    if accepted(sample, bound) is None && tries > 0 {
        law_bounded_draws_lie_below(s, bound, (tries - 1) as nat);
    }
}

/// Both sources draw numbers that are not below zero.
pub proof fn law_sources_are_unsigned()
    ensures
        unsigned::<LegacyRandomSource>(),
        unsigned::<WorldgenRandom>(),
{
    assert forall|q: LegacyRandomSource| 0 <= (#[trigger] q.drawn(31)).0 by {
        law_small_draws_are_upper_bits(q, 31);
    }
    assert forall|q: WorldgenRandom| 0 <= (#[trigger] q.drawn(31)).0 by {
        law_wide_draws_are_upper_bits(q, 31);
    }
}

/// A number between two lies there, both ends included.
pub proof fn law_draws_lie_between<R: BitSource>(r: R, min: int, max: int)
    requires
        unsigned::<R>(),
        min <= max,
        max - min < i32::MAX,
    ensures
        min <= between(r, min, max).0 <= max,
        between(r, min, max).0 - min == below(r, (max - min + 1) as i32).0,
{
    law_bounded_draws_lie_below(r, (max - min + 1) as i32, TRIES as nat);
}

/// Bits that are drawn are the upper ones of 64.
pub proof fn law_wide_draws_are_upper_bits(s: WorldgenRandom, bits: u32)
    requires
        1 <= bits <= 31,
    ensures
        ({
            let (v, t) = s.drawn(bits);
            &&& v * pow2((64 - bits) as nat) <= s.inner.long() < (v + 1) * pow2((64 - bits) as nat)
            &&& 0 <= v
            &&& t.inner == s.inner.stepped()
        }),
{
    let k = (64 - bits) as u64;
    let x = s.inner.long();
    let y = x >> k;
    vstd::bits::lemma_u64_shr_is_div(x, k);
    assert(33 <= k <= 63 ==> (x >> k) <= 0x7fff_ffff) by (bit_vector);
    vstd::arithmetic::power2::lemma_pow2_pos(k as nat);
    let p = pow2(k as nat) as int;
    lemma_fundamental_div_mod(x as int, p);
    assert((y + 1) * p == y * p + p && p * y == y * p) by (nonlinear_arith);
}

/// Seeds by chunk: the world's seed itself at the origin; a number more for
/// each chunk along x, another for each along z, both mixed in by exclusive
/// or.
pub proof fn law_chunk_seeds(seed: i64, x: i32, z: i32)
    ensures
        ({
            let (a, s) = LegacyRandomSource::seeded(seed).long();
            let (b, _) = s.long();
            let at = |x: i32, z: i32| LegacyRandomSource::for_chunk(seed, x, z).seed;
            let along_x = |x: i32| (at(x, 0) ^ at(0, 0)) as int;
            let along_z = |z: i32| (at(0, z) ^ at(0, 0)) as int;
            &&& LegacyRandomSource::for_chunk(seed, 0, 0) == LegacyRandomSource::seeded(seed)
            &&& at(x, z) ^ at(x, 0) == at(0, z) ^ at(0, 0)
            &&& (along_x(x) - x * a) % (MODULUS as int) == 0
            &&& (along_z(z) - z * b) % (MODULUS as int) == 0
        }),
{
    let (a, s) = LegacyRandomSource::seeded(seed).long();
    let (b, _) = s.long();
    let (p, q, g, k) = ((x as u64).wrapping_mul(a as u64), (z as u64).wrapping_mul(b as u64), seed as u64, MULTIPLIER);
    assert((0i32 as u64).wrapping_mul(a as u64) == 0) by {
        assert(0nat * (a as u64) as nat == 0);
    }
    assert((0i32 as u64).wrapping_mul(b as u64) == 0) by {
        assert(0nat * (b as u64) as nat == 0);
    }
    assert(forall|v: u64| ((#[trigger] (v as i64)) as u64) == v) by {
        assert forall|v: u64| ((#[trigger] (v as i64)) as u64) == v by {
            assert((v as i64) as u64 == v) by (bit_vector);
        }
    }
    assert(((0u64 ^ 0u64 ^ g) as i64) as u64 == 0u64 ^ 0u64 ^ g && 0u64 ^ 0u64 ^ g == g) by (bit_vector);
    assert(((p ^ q ^ g) ^ k) % 0x1_0000_0000_0000u64 ^ ((p ^ 0u64 ^ g) ^ k) % 0x1_0000_0000_0000u64 == ((0u64 ^ q ^ g) ^ k)
        % 0x1_0000_0000_0000u64 ^ ((0u64 ^ 0u64 ^ g) ^ k) % 0x1_0000_0000_0000u64) by (bit_vector);
    assert(((p ^ 0u64 ^ g) ^ k) % 0x1_0000_0000_0000u64 ^ ((0u64 ^ 0u64 ^ g) ^ k) % 0x1_0000_0000_0000u64 == p % 0x1_0000_0000_0000u64)
        by (bit_vector);
    assert(((0u64 ^ q ^ g) ^ k) % 0x1_0000_0000_0000u64 ^ ((0u64 ^ 0u64 ^ g) ^ k) % 0x1_0000_0000_0000u64 == q % 0x1_0000_0000_0000u64)
        by (bit_vector);
    lemma_product(x, a);
    lemma_product(z, b);
}

/// A product of 64 bits, cut to 48.
proof fn lemma_product(x: i32, a: i64)
    ensures
        ((x as u64).wrapping_mul(a as u64) as int % 0x1_0000_0000_0000 - x * a) % 0x1_0000_0000_0000 == 0,
{
    let m = 0x1_0000_0000_0000_0000int;
    let c = 0x1_0000_0000_0000int;
    let (u, v) = (x as u64, a as u64);
    let i = if x < 0 { 1int } else { 0 };
    let j = if a < 0 { 1int } else { 0 };
    lemma_unsigned32(x);
    lemma_unsigned(a);
    assert(u == x + i * m && v == a + j * m);
    let p = u as int * v as int;
    assert(u.wrapping_mul(v) == p % m) by {
        assert(u as nat * v as nat == p);
    }
    lemma_fundamental_div_mod(p, m);
    lemma_fundamental_div_mod(p % m, c);
    let (d, e) = (p / m, (p % m) / c);
    let w = x * j + i * a + i * j * m - d;
    assert(p == x * a + m * (x * j + i * a + i * j * m)) by (nonlinear_arith)
        requires
            p == (x + i * m) * (a + j * m),
    ;
    assert(m * (x * j + i * a + i * j * m) - m * d == m * w) by (nonlinear_arith)
        requires
            w == x * j + i * a + i * j * m - d,
    ;
    assert((p % m) % c - x * a == c * (0x1_0000 * w - e));
    lemma_mod_multiples_vanish(0x1_0000 * w - e, 0, c);
}

/// A step of the wide source can be undone, and what it yields tells the sum
/// of the two halves.
pub proof fn law_wide_steps_are_undone(g: XoroshiroRandomSource)
    ensures
        ({
            let n = g.stepped();
            let both = rotated(n.hi, 36);
            let lo = rotated(n.lo ^ both ^ (both << 21u64), 15);
            &&& g.lo == lo
            &&& g.hi == both ^ lo
            &&& rotated(g.long().wrapping_sub(g.lo), 47) == g.lo.wrapping_add(g.hi)
        }),
{
    let (a, b) = (g.lo, g.hi);
    let n = g.stepped();
    let (c, d) = (n.lo, n.hi);
    let both = rotated(d, 36);
    assert(both == a ^ b) by {
        let x = b ^ a;
        assert(d == (x << 28u64) | (x >> 36u64));
        assert(d == (x << 28u64) | (x >> 36u64) ==> (d << 36u64) | (d >> 28u64) == x) by (bit_vector);
        assert(b ^ a == a ^ b) by (bit_vector);
    }
    let x = a ^ b;
    assert(b ^ a == x) by (bit_vector)
        requires
            x == a ^ b,
    ;
    assert(c == ((a << 49u64) | (a >> 15u64)) ^ x ^ (x << 21u64));
    let y = c ^ x ^ (x << 21u64);
    assert(((y << 15u64) | (y >> 49u64)) == a) by (bit_vector)
        requires
            c == ((a << 49u64) | (a >> 15u64)) ^ x ^ (x << 21u64),
            y == c ^ x ^ (x << 21u64),
    ;
    assert(x ^ a == b) by (bit_vector)
        requires
            x == a ^ b,
    ;
    let s = a.wrapping_add(b);
    let r = rotated(s, 17);
    assert(r.wrapping_add(a).wrapping_sub(a) == r);
    assert(r == (s << 17u64) | (s >> 47u64));
    assert((r << 47u64) | (r >> 17u64) == s) by (bit_vector)
        requires
            r == (s << 17u64) | (s >> 47u64),
    ;
}

/// What multiplies with the second multiplier of the mixing to one, and with
/// the first.
pub const UNMIX_SECOND: u64 = 0x3196_42B2_D24D_8EC3;

pub const UNMIX_FIRST: u64 = 0x96DE_1B17_3F11_9089;

/// The way back from mixed bits.
pub open spec fn unmixed(z: u64) -> u64 {
    let b = (z ^ (z >> 31u64) ^ (z >> 62u64)).wrapping_mul(UNMIX_SECOND);
    let a = (b ^ (b >> 27u64) ^ (b >> 54u64)).wrapping_mul(UNMIX_FIRST);
    a ^ (a >> 30u64) ^ (a >> 60u64)
}

/// Mixing can be undone.
pub proof fn law_mixing_is_undone(z: u64)
    ensures
        unmixed(mixed(z)) == z,
{
    let y = z ^ (z >> 30u64);
    let a = y.wrapping_mul(0xBF58_476D_1CE4_E5B9u64);
    let x = a ^ (a >> 27u64);
    let b = x.wrapping_mul(0x94D0_49BB_1331_11EBu64);
    let c = b ^ (b >> 31u64);
    assert(mixed(z) == c);
    assert(c ^ (c >> 31u64) ^ (c >> 62u64) == b) by (bit_vector)
        requires
            c == b ^ (b >> 31u64),
    ;
    lemma_unmultiplied(x, 0x94D0_49BB_1331_11EB, UNMIX_SECOND);
    assert(x ^ (x >> 27u64) ^ (x >> 54u64) == a) by (bit_vector)
        requires
            x == a ^ (a >> 27u64),
    ;
    lemma_unmultiplied(y, 0xBF58_476D_1CE4_E5B9, UNMIX_FIRST);
    assert(y ^ (y >> 30u64) ^ (y >> 60u64) == z) by (bit_vector)
        requires
            y == z ^ (z >> 30u64),
    ;
}

proof fn lemma_unmultiplied(x: u64, c: u64, d: u64)
    requires
        (c * d) % 0x1_0000_0000_0000_0000 == 1,
    ensures
        x.wrapping_mul(c).wrapping_mul(d) == x,
{
    let m = 0x1_0000_0000_0000_0000int;
    let (u, v, w) = (x as int, c as int, d as int);
    assert(x as nat * c as nat == u * v);
    let y = x.wrapping_mul(c);
    lemma_fundamental_div_mod(u * v, m);
    lemma_fundamental_div_mod(v * w, m);
    assert(y as nat * d as nat == y as int * w);
    let (i, k) = ((u * v) / m, (v * w) / m);
    assert(y as int * w == m * (u * k - i * w) + u) by (nonlinear_arith)
        requires
            y as int == u * v - m * i,
            v * w == m * k + 1,
    ;
    lemma_mod_multiples_vanish(u * k - i * w, u, m);
    lemma_small_mod(x as nat, m as nat);
}

/// A seed of 64 bits is spread to both halves: unmixed, the lower is the
/// seed with the digits of the square root of two mixed in, and the upper
/// lies a golden ratio above.
pub proof fn law_seeds_are_spread(seed: i64)
    ensures
        ({
            let g = XoroshiroRandomSource::upgraded(seed);
            let (lo, hi) = (unmixed(g.lo), unmixed(g.hi));
            &&& hi == lo.wrapping_add(0x9E37_79B9_7F4A_7C15u64)
            &&& lo ^ 0x6A09_E667_F3BC_C909u64 == seed as u64
        }),
{
    let s = seed as u64;
    let lo = s ^ 0x6A09_E667_F3BC_C909u64;
    let hi = lo.wrapping_add(0x9E37_79B9_7F4A_7C15u64);
    law_mixing_is_undone(lo);
    law_mixing_is_undone(hi);
    assert((s ^ 0x6A09_E667_F3BC_C909u64) ^ 0x6A09_E667_F3BC_C909u64 == s) by (bit_vector);
    if mixed(lo) == 0 && mixed(hi) == 0 {
        assert(lo == hi);
    }
}

/// A bounded draw of the wide source takes equal runs of 32 bits; what falls
/// into the short part is drawn again.
pub proof fn law_wide_bounded_draws_are_even(bits: int, g: XoroshiroRandomSource, bound: int, tries: nat)
    requires
        0 <= bits < 0x1_0000_0000,
        0 < bound < 0x1_0000_0000,
        tries > 0,
    ensures
        ({
            let (v, h) = chosen_of(bits, g, bound, tries);
            let rest = (bits * bound) % 0x1_0000_0000;
            &&& rest < 0x1_0000_0000int % bound ==> (v, h) == drawn(g, bound, (tries - 1) as nat)
            &&& rest >= 0x1_0000_0000int % bound ==> h == g && v * 0x1_0000_0000 <= bits * bound < (v + 1) * 0x1_0000_0000
        }),
{
    let m = bits * bound;
    lemma_fundamental_div_mod(m, 0x1_0000_0000);
    assert((0x1_0000_0000 - bound) % bound == 0x1_0000_0000int % bound) by {
        lemma_mod_multiples_vanish(-1, 0x1_0000_0000, bound);
        assert(bound * -1 + 0x1_0000_0000 == 0x1_0000_0000 - bound) by (nonlinear_arith);
    }
}

proof fn lemma_origin()
    ensures
        position_seed(0, 0, 0) == 0,
{
    assert(0u64 ^ 0u64 ^ 0u64 == 0) by (bit_vector);
    assert(0u64 >> 16u64 == 0) by (bit_vector);
    let l = sign_extended((0i32 as u32).wrapping_mul(3129871u32)) ^ sign_extended(0i32 as u32).wrapping_mul(116129781u64) ^ sign_extended(
        0i32 as u32);
    assert(l == 0);
}

/// Generators by position share the upper half, and the lower halves of two
/// positions differ alike in every factory.
pub proof fn law_positions_part_generators(
    p: XoroshiroPositionalRandomFactory, q: XoroshiroPositionalRandomFactory, x: i32, y: i32, z: i32, u: i32, v: i32, w: i32,
)
    requires
        p.hi != 0 && q.hi != 0,
    ensures
        p.generator(x, y, z).hi == p.hi,
        p.generator(x, y, z).lo ^ p.generator(u, v, w).lo == q.generator(x, y, z).lo ^ q.generator(u, v, w).lo,
        p.generator(0, 0, 0).lo == p.lo,
{
    let (a, b, c, d) = (position_seed(x, y, z), position_seed(u, v, w), p.lo, q.lo);
    assert((a ^ c) ^ (b ^ c) == (a ^ d) ^ (b ^ d)) by (bit_vector);
    lemma_origin();
    assert(0u64 ^ c == c) by (bit_vector);
}

proof fn lemma_carried(v: u32)
    ensures
        sign_extended(v) == ((v as i32) as i64) as u64,
{
    assert(v < 0x8000_0000 ==> ((v as i32) as i64) as u64 == v) by (bit_vector);
    assert(v >= 0x8000_0000 ==> ((v as i32) as i64) as u64 == v + 0xffff_ffff_0000_0000) by (bit_vector);
}

/// The seed of a position on the vertical axis is a parabola of the height,
/// over two to the power of 16, rounded down.
pub proof fn law_vertical_seeds_are_a_parabola(y: i32)
    requires
        -0x1_0000 < y < 0x1_0000,
    ensures
        ({
            let n = position_seed(0, y, 0) as i64;
            n * 0x1_0000 <= y * (42317861 * y + 11) < (n + 1) * 0x1_0000
        }),
{
    let l = sign_extended(y as u32);
    lemma_carried(y as u32);
    assert((((y as u32) as i32) as i64) as u64 == (y as i64) as u64) by (bit_vector);
    lemma_unsigned(y as i64);
    assert((0i32 as u32).wrapping_mul(3129871u32) == 0 && 0u64.wrapping_mul(116129781u64) == 0);
    assert(0u64 ^ 0u64 ^ l == l) by (bit_vector);
    let m = 0x1_0000_0000_0000_0000int;
    let (v, k) = (y as int, if y < 0 { 1int } else { 0 });
    assert(l == v + k * m);
    let a = l.wrapping_mul(l);
    let square = v * v;
    assert(0 <= square < 0x1_0000_0000) by (nonlinear_arith)
        requires
            square == v * v,
            -0x1_0000 < v < 0x1_0000,
    ;
    assert(a == square) by {
        assert(l as nat * l as nat == square + m * (2 * k * v + k * k * m)) by (nonlinear_arith)
            requires
                l == v + k * m,
                square == v * v,
        ;
        lemma_mod_multiples_vanish(2 * k * v + k * k * m, square, m);
        lemma_small_mod(square as nat, m as nat);
    }
    let b = a.wrapping_mul(42317861u64);
    assert(b == square * 42317861) by {
        assert(a as nat * 42317861u64 as nat == square * 42317861);
        lemma_small_mod((square * 42317861) as nat, m as nat);
    }
    let c = l.wrapping_mul(11u64);
    assert(c == if v < 0 { v * 11 + m } else { v * 11 }) by {
        assert(l as nat * 11u64 as nat == l * 11);
        let r = if v < 0 { v * 11 + m } else { v * 11 };
        lemma_mod_multiples_vanish(10 * k, r, m);
        lemma_small_mod(r as nat, m as nat);
    }
    let d = b.wrapping_add(c);
    let e = square * 42317861 + v * 11;
    assert(e == v * (42317861 * v + 11)) by (nonlinear_arith)
        requires
            e == square * 42317861 + v * 11,
            square == v * v,
    ;
    assert(e >= 0) by (nonlinear_arith)
        requires
            e == v * (42317861 * v + 11),
    ;
    assert(d == e);
    vstd::bits::lemma_u64_shr_is_div(d, 16);
    lemma2_to64();
    lemma_fundamental_div_mod(e, 0x1_0000);
    lemma_signed(d >> 16u64);
}

/// A step along x or z turns the bits of the height: the seed is that of
/// another height on the vertical axis.
pub proof fn law_seeds_turn_the_height(x: i32, y: i32, z: i32, u: i32, v: i32)
    requires
        u as u32 == (x as u32).wrapping_mul(3129871u32),
        v == z * 116129781,
    ensures
        position_seed(x, y, z) == position_seed(0, y ^ u ^ v, 0),
{
    lemma_carried((x as u32).wrapping_mul(3129871u32));
    lemma_carried(z as u32);
    lemma_carried(y as u32);
    let h = y ^ u ^ v;
    lemma_carried(h as u32);
    let (a, b, c) = (u as u32, v as u32, y as u32);
    assert((0i32 as u32).wrapping_mul(3129871u32) == 0 && 0u64.wrapping_mul(116129781u64) == 0);
    let w = sign_extended(z as u32);
    assert((((z as u32) as i32) as i64) as u64 == (z as i64) as u64) by (bit_vector);
    lemma_unsigned(z as i64);
    let m = 0x1_0000_0000_0000_0000int;
    let k = if z < 0 { 1int } else { 0 };
    let t = w.wrapping_mul(116129781u64);
    assert(t == (v as i64) as u64) by {
        assert(w as nat * 116129781u64 as nat == w * 116129781);
        let r = if v < 0 { v + m } else { v as int };
        assert(w * 116129781 == m * (116129780 * k) + r);
        lemma_mod_multiples_vanish(116129780 * k, r, m);
        lemma_small_mod(r as nat, m as nat);
        lemma_unsigned(v as i64);
    }
    let g = sign_extended(u as u32) ^ t ^ sign_extended(y as u32);
    let f = 0u64 ^ 0u64 ^ sign_extended(h as u32);
    assert((((u as u32) as i32) as i64) as u64 ^ (v as i64) as u64 ^ (((y as u32) as i32) as i64) as u64 == 0u64 ^ 0u64 ^ ((((y ^ u
        ^ v) as u32) as i32) as i64) as u64) by (bit_vector);
    assert(g == f);
}

/// Heights that ores are drawn at lie between the ends. A trapezoid is the
/// sum of two even draws, whose ranges together make up the whole and differ
/// by the plateau.
pub proof fn law_ore_heights(h: crate::ores26::HeightProvider, r: WorldgenRandom)
    requires
        h.wf(),
    ensures
        match h {
            crate::ores26::HeightProvider::Constant(y) => h.drawn(r) == (y as int, r),
            crate::ores26::HeightProvider::Uniform { min, max } => if min > max {
                h.drawn(r) == (min as int, r)
            } else {
                &&& min <= h.drawn(r).0 <= max
                &&& h.drawn(r).0 - min == below(r, (max - min + 1) as i32).0
            },
            crate::ores26::HeightProvider::Trapezoid { min, max, plateau } => if min > max {
                h.drawn(r) == (min as int, r)
            } else if plateau >= max - min {
                &&& min <= h.drawn(r).0 <= max
                &&& h.drawn(r).0 - min == below(r, (max - min + 1) as i32).0
            } else {
                &&& min <= h.drawn(r).0 <= max
                &&& exists|a: i32, b: i32| #[trigger] sloped(h.drawn(r).0 - min, r, a, b, max - min, plateau as int)
            },
        },
{
    law_sources_are_unsigned();
    match h {
        crate::ores26::HeightProvider::Uniform { min, max } => {
            if min <= max {
                law_draws_lie_between(r, min as int, max as int);
            }
        },
        crate::ores26::HeightProvider::Trapezoid { min, max, plateau } => {
            if min <= max {
                if plateau >= max - min {
                    law_draws_lie_between(r, min as int, max as int);
                } else {
                    lemma_slope(r, min as int, max as int, plateau as int);
                    let start = (max - min - plateau) / 2;
                    assert(sloped(
                        h.drawn(r).0 - min, r, (max - min - start + 1) as i32, (start + 1) as i32, max - min, plateau as int));
                }
            }
        },
        _ => {},
    }
}

/// A number is the sum of two draws below two bounds, which count the whole
/// range together, and differ by a plateau or by one more.
pub open spec fn sloped<R: BitSource>(n: int, r: R, a: i32, b: i32, range: int, plateau: int) -> bool {
    &&& n == below(r, a).0 + below(below(r, a).1, b).0
    &&& (a - 1) + (b - 1) == range
    &&& plateau <= a - b <= plateau + 1
}

proof fn lemma_slope<R: BitSource>(r: R, min: int, max: int, plateau: int)
    requires
        unsigned::<R>(),
        i32::MIN <= min <= max <= i32::MAX,
        plateau < max - min,
        ({
            let range = max - min;
            let start = (range - plateau) / 2;
            range <= i32::MAX && range - plateau <= i32::MAX && start <= range && range - start < i32::MAX
        }),
    ensures
        ({
            let range = max - min;
            let start = (range - plateau) / 2;
            let (a, s) = between(r, 0, range - start);
            let (b, _) = between(s, 0, start);
            &&& sloped(a + b, r, (range - start + 1) as i32, (start + 1) as i32, range, plateau)
            &&& 0 <= a + b <= range
        }),
{
    let range = max - min;
    let start = (range - plateau) / 2;
    law_draws_lie_between(r, 0, range - start);
    let (_, s) = between(r, 0, range - start);
    law_draws_lie_between(s, 0, start);
}

/// Heights that carvers start at, in the same way; towards the bottom, each
/// draw lies below the one before.
pub proof fn law_carver_heights(h: crate::carvers26::HeightProvider, r: LegacyRandomSource)
    requires
        h.wf(),
    ensures
        match h {
            crate::carvers26::HeightProvider::Constant(y) => h.drawn(r) == (y as int, r),
            crate::carvers26::HeightProvider::Uniform { min, max } => if min > max {
                h.drawn(r) == (min as int, r)
            } else {
                &&& min <= h.drawn(r).0 <= max
                &&& h.drawn(r).0 - min == below(r, (max - min + 1) as i32).0
            },
            crate::carvers26::HeightProvider::Trapezoid { min, max, plateau } => if min > max {
                h.drawn(r) == (min as int, r)
            } else if plateau >= max - min {
                &&& min <= h.drawn(r).0 <= max
                &&& h.drawn(r).0 - min == below(r, (max - min + 1) as i32).0
            } else {
                &&& min <= h.drawn(r).0 <= max
                &&& exists|a: i32, b: i32| #[trigger] sloped(h.drawn(r).0 - min, r, a, b, max - min, plateau as int)
            },
            crate::carvers26::HeightProvider::BiasedToBottom { min, max, inner } => if max - min < inner {
                h.drawn(r) == (min as int, r)
            } else {
                let first = below(r, (max - min - inner + 1) as i32);
                &&& min <= h.drawn(r).0 < min + inner + first.0
                &&& h.drawn(r).0 < max
                &&& h.drawn(r).1 == below(first.1, (first.0 + inner) as i32).1
            },
            crate::carvers26::HeightProvider::VeryBiasedToBottom { min, max, inner } => if max - min < inner {
                h.drawn(r) == (min as int, r)
            } else {
                min <= h.drawn(r).0 && (inner >= 1 ==> h.drawn(r).0 < max + inner)
            },
        },
{
    law_sources_are_unsigned();
    match h {
        crate::carvers26::HeightProvider::Uniform { min, max } => {
            if min <= max {
                law_draws_lie_between(r, min as int, max as int);
            }
        },
        crate::carvers26::HeightProvider::Trapezoid { min, max, plateau } => {
            if min <= max {
                if plateau >= max - min {
                    law_draws_lie_between(r, min as int, max as int);
                } else {
                    lemma_slope(r, min as int, max as int, plateau as int);
                    let start = (max - min - plateau) / 2;
                    assert(sloped(
                        h.drawn(r).0 - min, r, (max - min - start + 1) as i32, (start + 1) as i32, max - min, plateau as int));
                }
            }
        },
        crate::carvers26::HeightProvider::BiasedToBottom { min, max, inner } => {
            if max - min >= inner {
                if max - min - inner < i32::MAX {
                    law_bounded_draws_lie_below(r, (max - min - inner + 1) as i32, TRIES as nat);
                    let (a, s) = below(r, (max - min - inner + 1) as i32);
                    law_bounded_draws_lie_below(s, (a + inner) as i32, TRIES as nat);
                }
            }
        },
        crate::carvers26::HeightProvider::VeryBiasedToBottom { min, max, inner } => {
            if max - min >= inner {
                if min + inner < max {
                    law_draws_lie_between(r, min + inner, max as int);
                }
                let (a, s) = crate::carvers26::between_or(r, min + inner, max as int);
                if min < a - 1 {
                    law_draws_lie_between(s, min as int, a - 1);
                }
                let (b, t) = crate::carvers26::between_or(s, min as int, a - 1);
                if min < b - 1 + inner {
                    law_draws_lie_between(t, min as int, b - 1 + inner);
                }
            }
        },
        _ => {},
    }
}

/// Counts that carvers draw lie between the ends; towards the bottom they lie
/// no higher than an even draw, and than a draw towards the bottom.
pub proof fn law_carver_counts(p: crate::carvers26::IntProvider, r: LegacyRandomSource)
    requires
        p.wf(),
    ensures
        match p {
            crate::carvers26::IntProvider::Constant(v) => p.drawn(r) == (v as int, r),
            crate::carvers26::IntProvider::Uniform { min, max } => min <= p.drawn(r).0 <= max && p.drawn(r).0 - min == below(
                r, (max - min + 1) as i32).0,
            crate::carvers26::IntProvider::BiasedToBottom { min, max } => {
                let even = crate::carvers26::IntProvider::Uniform { min, max }.drawn(r);
                &&& min <= p.drawn(r).0 <= even.0 <= max
                &&& p.drawn(r) == crate::carvers26::IntProvider::Uniform { min, max: even.0 as i32 }.drawn(even.1)
            },
            crate::carvers26::IntProvider::VeryBiasedToBottom { min, max } => {
                let once = crate::carvers26::IntProvider::BiasedToBottom { min, max }.drawn(r);
                &&& min <= p.drawn(r).0 <= once.0 <= max
                &&& p.drawn(r) == crate::carvers26::IntProvider::Uniform { min, max: once.0 as i32 }.drawn(once.1)
            },
        },
{
    law_sources_are_unsigned();
    match p {
        crate::carvers26::IntProvider::Uniform { min, max } => {
            law_draws_lie_between(r, min as int, max as int);
        },
        crate::carvers26::IntProvider::BiasedToBottom { min, max } => {
            law_draws_lie_between(r, min as int, max as int);
            let even = between(r, min as int, max as int);
            law_draws_lie_between(even.1, min as int, even.0);
        },
        crate::carvers26::IntProvider::VeryBiasedToBottom { min, max } => {
            law_draws_lie_between(r, min as int, max as int);
            let even = between(r, min as int, max as int);
            law_draws_lie_between(even.1, min as int, even.0);
            let once = between(even.1, min as int, even.0);
            law_draws_lie_between(once.1, min as int, once.0);
        },
        _ => {},
    }
}

} // verus!
