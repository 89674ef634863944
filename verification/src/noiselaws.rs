//! What noise parameters plan: octaves twice as fast and half as strong as
//! the one before, and two layers of each.

use vstd::prelude::*;
use vstd::arithmetic::power2::{lemma2_to64, pow2};
use crate::arith::{low, reply, Ask, HALF, TWO};
use crate::dfrewrite::is_zero;
use crate::noise26::{layered, OctaveInfo, Parameters, INPUT_FACTOR, STANDARD_DEVIATION, TARGET_DEVIATION, TENTH};
use crate::numbers::{correct, correct64, is32, is64, lemma_bits64, lemma_known64, lemma_mul64, lemma_narrow};

verus! {

/// From octave to octave the frequency doubles and the amplitude halves.
pub proof fn law_octaves_double<F: Fn(Ask) -> u64>(f: F, p: Parameters, i: nat, q: int, a: int, k: int, l: int)
    requires
        correct64(f),
        is64(p.wave(f, 0).0, q, k),
        is64(p.wave(f, 0).1, a, l),
        -0x1_0000 < q < 0x1_0000,
        -0x20_0000_0000_0000 < a < 0x20_0000_0000_0000,
        i <= 32,
        l <= 900,
    ensures
        is64(p.wave(f, i).0, q * pow2(i), k),
        is64(p.wave(f, i).1, a, l + i),
    decreases i,
{
    lemma2_to64();
    lemma_known64();
    if i > 0 {
        law_octaves_double(f, p, (i - 1) as nat, q, a, k, l);
        let (u, v) = p.wave(f, (i - 1) as nat);
        let e = pow2((i - 1) as nat) as int;
        vstd::arithmetic::power2::lemma_pow2_unfold(i);
        assert(e <= 0x8000_0000) by {
            if i - 1 < 31 {
                vstd::arithmetic::power2::lemma_pow2_strictly_increases((i - 1) as nat, 31);
            }
        }
        vstd::arithmetic::power2::lemma_pow2_pos((i - 1) as nat);
        assert((q * e) * 2 == q * (2 * e) && -0x20_0000_0000_0000 < (q * e) * 2 < 0x20_0000_0000_0000) by (nonlinear_arith)
            requires
                -0x1_0000 < q < 0x1_0000,
                1 <= e <= 0x8000_0000,
        ;
        lemma_mul64(f, u, TWO, q * e, 2, k, 0);
        lemma_mul64(f, v, HALF, a, 1, l + i - 1, 1);
    } else {
        assert(q * pow2(0) == q);
    }
}

/// An octave is planned for each modifier that is not zero, in order: its
/// index counts from the first octave, its strength is the octave's by the
/// modifier.
pub proof fn law_octaves_by_modifier<F: Fn(Ask) -> u64>(f: F, p: Parameters, n: nat)
    ensures
        ({
            let o = p.octaves(f, (n + 1) as nat);
            let before = p.octaves(f, n);
            let m = p.modifier(n as int);
            if is_zero(m) {
                o == before
            } else {
                &&& o.len() == before.len() + 1
                &&& o.take(before.len() as int) == before
                &&& o.last().frequency == p.wave(f, n).0
                &&& o.last().amplitude == reply(f, Ask::Mul64(p.wave(f, n).1, m))
                &&& (i32::MIN <= p.base_octave + n <= i32::MAX ==> o.last().octave_index == p.base_octave + n)
            }
        }),
        p.modifiers.len() == 0 ==> !is_zero(p.modifier(n as int)),
{
    let before = p.octaves(f, n);
    assert(p.octaves(f, (n + 1) as nat).take(before.len() as int) =~= before || is_zero(p.modifier(n as int)));
}

/// Each octave has two layers of the same strength, one of either noise; the
/// second runs faster by 1.0181268882175227.
pub proof fn law_octaves_have_two_layers<F: Fn(Ask) -> u64>(f: F, o: Seq<OctaveInfo>, factor: u64, n: nat, j: int, q: int, k: int, a: int, b: int, l: int)
    requires
        correct(f),
        n <= o.len(),
        0 <= j < n,
        is64(o[j].frequency, q, k) && 0 <= q <= 1 && k <= 900,
        is64(factor, a, l) && is64(o[j].amplitude, b, l) && l <= 70,
        -0x100_0000 < a * b < 0x100_0000,
    ensures
        ({
            let p = layered(f, o, factor, n);
            let (x, y) = (p[2 * j], p[2 * j + 1]);
            &&& p.len() == 2 * n
            &&& !x.second && y.second
            &&& x.octave_index == o[j].octave_index && y.octave_index == o[j].octave_index
            &&& x.frequency == o[j].frequency
            &&& is64(y.frequency, q * 4_585_235_874_392_318, k + 52)
            &&& is32(x.amplitude, a * b, 2 * l) && y.amplitude == x.amplitude
        }),
        // The nearest that doubles come to the factor.
        -5_000_000_000_000_000 <= 10_000_000_000_000_000 * 4_585_235_874_392_318 - 10_181_268_882_175_227
            * 0x10_0000_0000_0000 <= 5_000_000_000_000_000,
    decreases n,
{
    lemma_layers(f, o, factor, n, j);
    lemma2_to64();
    lemma_bits64(INPUT_FACTOR, 4_585_235_874_392_318, 52, 0);
    lemma_mul64(f, o[j].frequency, INPUT_FACTOR, q, 4_585_235_874_392_318, k, 52);
    lemma_mul64(f, factor, o[j].amplitude, a, b, l, l);
    lemma_narrow(f, reply(f, Ask::Mul64(factor, o[j].amplitude)), a * b, 2 * l);
}

proof fn lemma_layers<F: Fn(Ask) -> u64>(f: F, o: Seq<OctaveInfo>, factor: u64, n: nat, j: int)
    requires
        n <= o.len(),
        0 <= j < n,
    ensures
        ({
            let p = layered(f, o, factor, n);
            let amplitude = low(f, Ask::Narrow(reply(f, Ask::Mul64(factor, o[j].amplitude))));
            &&& p.len() == 2 * n
            &&& p[2 * j].octave_index == o[j].octave_index && !p[2 * j].second && p[2 * j].frequency == o[j].frequency
            &&& p[2 * j].amplitude == amplitude && p[2 * j + 1].amplitude == amplitude
            &&& p[2 * j + 1].octave_index == o[j].octave_index && p[2 * j + 1].second
            &&& p[2 * j + 1].frequency == reply(f, Ask::Mul64(o[j].frequency, INPUT_FACTOR))
        }),
    decreases n,
{
    lemma_count(f, o, factor, (n - 1) as nat);
    let before = layered(f, o, factor, (n - 1) as nat);
    let p = layered(f, o, factor, n);
    if j < n - 1 {
        lemma_layers(f, o, factor, (n - 1) as nat, j);
        assert(p[2 * j] == before[2 * j] && p[2 * j + 1] == before[2 * j + 1]);
    }
}

proof fn lemma_count<F: Fn(Ask) -> u64>(f: F, o: Seq<OctaveInfo>, factor: u64, n: nat)
    requires
        n <= o.len(),
    ensures
        layered(f, o, factor, n).len() == 2 * n,
    decreases n,
{
    if n > 0 {
        lemma_count(f, o, factor, (n - 1) as nat);
    }
}

/// The deviations that noises have and are brought to, and the tenth of
/// legacy noises, as near as doubles come.
pub proof fn law_deviations()
    ensures
        is64(TARGET_DEVIATION, 6_004_799_503_160_661, 54),
        -1 <= 3 * 6_004_799_503_160_661 - 0x40_0000_0000_0000 <= 1,
        is64(TENTH, 7_205_759_403_792_794, 56),
        -5 <= 10 * 7_205_759_403_792_794 - 0x100_0000_0000_0000 <= 5,
        is64(STANDARD_DEVIATION, 4_867_936_930_343_465, 54),
        -5_000_000_000_000_000 <= 10_000_000_000_000_000 * 4_867_936_930_343_465 - 2_702_247_831_245_211
            * 0x40_0000_0000_0000 <= 5_000_000_000_000_000,
{
    lemma2_to64();
    lemma_bits64(TARGET_DEVIATION, 6_004_799_503_160_661, 54, 0);
    lemma_bits64(TENTH, 7_205_759_403_792_794, 56, 0);
    lemma_bits64(STANDARD_DEVIATION, 4_867_936_930_343_465, 54, 0);
}

} // verus!
