//! What single and double precision numbers are worth, and what correct
//! arithmetic answers: the number that is nearest to the exact result.
//!
//! The worth of a single is counted in its least steps, the worth of a
//! double in its own. Laws about computations on numbers are stated over
//! these counts.

use vstd::prelude::*;
use vstd::arithmetic::power2::pow2;
use crate::arith::{holds, low, reply, Ask};

verus! {

/// The least steps in one: of singles, and of doubles.
pub open spec fn one32() -> int {
    pow2(149) as int
}

pub open spec fn one64() -> int {
    pow2(1074) as int
}

/// Steps of doubles in a step of singles.
pub open spec fn finer() -> int {
    pow2(925) as int
}

/// The parts of a single: its exponent and its fraction.
pub open spec fn exponent32(b: u32) -> int {
    (b as int / 0x80_0000) % 0x100
}

pub open spec fn fraction32(b: u32) -> int {
    b as int % 0x80_0000
}

/// What a single is worth without its sign.
pub open spec fn size32(b: u32) -> int {
    if exponent32(b) == 0 {
        fraction32(b)
    } else {
        (fraction32(b) + 0x80_0000) * pow2((exponent32(b) - 1) as nat)
    }
}

/// What a single is worth, in its least steps. Infinity is worth more than
/// every number.
pub open spec fn worth32(b: u32) -> int {
    if b >= 0x8000_0000 { -size32(b) } else { size32(b) }
}

/// A single that is a number, infinite or not.
pub open spec fn number32(b: u32) -> bool {
    exponent32(b) < 0xff || fraction32(b) == 0
}

pub open spec fn finite32(b: u32) -> bool {
    exponent32(b) < 0xff
}

/// The parts of a double.
pub open spec fn exponent64(b: u64) -> int {
    (b as int / 0x10_0000_0000_0000) % 0x800
}

pub open spec fn fraction64(b: u64) -> int {
    b as int % 0x10_0000_0000_0000
}

pub open spec fn size64(b: u64) -> int {
    if exponent64(b) == 0 {
        fraction64(b)
    } else {
        (fraction64(b) + 0x10_0000_0000_0000) * pow2((exponent64(b) - 1) as nat)
    }
}

/// What a double is worth, in its least steps.
pub open spec fn worth64(b: u64) -> int {
    if b >= 0x8000_0000_0000_0000 { -size64(b) } else { size64(b) }
}

pub open spec fn number64(b: u64) -> bool {
    exponent64(b) < 0x7ff || fraction64(b) == 0
}

pub open spec fn finite64(b: u64) -> bool {
    exponent64(b) < 0x7ff
}

/// A single is an exact result rounded: it lies on the same side of every
/// single as the result, which is `exact` parts of which `scale` make a
/// step.
pub open spec fn rounded32(r: u32, exact: int, scale: int) -> bool {
    &&& number32(r)
    &&& forall|c: u32|
        #![trigger worth32(c)]
        number32(c) ==> (exact <= worth32(c) * scale ==> worth32(r) <= worth32(c)) && (worth32(c) * scale <= exact ==> worth32(c)
            <= worth32(r))
}

pub open spec fn rounded64(r: u64, exact: int, scale: int) -> bool {
    &&& number64(r)
    &&& forall|c: u64|
        #![trigger worth64(c)]
        number64(c) ==> (exact <= worth64(c) * scale ==> worth64(r) <= worth64(c)) && (worth64(c) * scale <= exact ==> worth64(c)
            <= worth64(r))
}

/// The arithmetic on singles is correct: comparisons compare what numbers
/// are worth, and results are exact results rounded.
#[verifier::opaque]
pub open spec fn correct32<F: Fn(Ask) -> u64>(f: F) -> bool {
    &&& forall|a: u32, b: u32|
        number32(a) && number32(b) ==> #[trigger] holds(f, Ask::Less32(a, b)) == (worth32(a) < worth32(b))
    &&& forall|a: u32, b: u32|
        number32(a) && number32(b) ==> #[trigger] holds(f, Ask::LessEq32(a, b)) == (worth32(a) <= worth32(b))
    &&& forall|a: u32, b: u32|
        number32(a) && number32(b) ==> #[trigger] holds(f, Ask::Equal32(a, b)) == (worth32(a) == worth32(b))
    &&& forall|a: u32| number32(a) ==> !#[trigger] holds(f, Ask::Nan32(a))
    &&& forall|a: u32, b: u32|
        finite32(a) && finite32(b) ==> rounded32(#[trigger] low(f, Ask::Add32(a, b)), worth32(a) + worth32(b), 1)
    &&& forall|a: u32, b: u32|
        finite32(a) && finite32(b) ==> rounded32(#[trigger] low(f, Ask::Sub32(a, b)), worth32(a) - worth32(b), 1)
    &&& forall|a: u32, b: u32|
        finite32(a) && finite32(b) ==> rounded32(#[trigger] low(f, Ask::Mul32(a, b)), worth32(a) * worth32(b), one32())
    &&& forall|a: u32, b: u32|
        finite32(a) && finite32(b) && worth32(b) > 0 ==> rounded32(
            #[trigger] low(f, Ask::Div32(a, b)), worth32(a) * one32(), worth32(b))
    &&& forall|a: u32, b: u32|
        finite32(a) && finite32(b) && worth32(b) < 0 ==> rounded32(
            #[trigger] low(f, Ask::Div32(a, b)), -worth32(a) * one32(), -worth32(b))
    &&& forall|a: u32| number32(a) ==> number32(#[trigger] low(f, Ask::Neg32(a))) && worth32(low(f, Ask::Neg32(a))) == -worth32(a)
    &&& forall|a: u32|
        number32(a) ==> number32(#[trigger] low(f, Ask::Abs32(a))) && worth32(low(f, Ask::Abs32(a))) == (if worth32(a) < 0 {
            -worth32(a)
        } else {
            worth32(a)
        })
    &&& forall|a: u32, b: u32|
        number32(a) && number32(b) ==> number32(#[trigger] low(f, Ask::Min32(a, b))) && worth32(low(f, Ask::Min32(a, b))) == (
        if worth32(a) < worth32(b) { worth32(a) } else { worth32(b) })
    &&& forall|a: u32, b: u32|
        number32(a) && number32(b) ==> number32(#[trigger] low(f, Ask::Max32(a, b))) && worth32(low(f, Ask::Max32(a, b))) == (
        if worth32(a) < worth32(b) { worth32(b) } else { worth32(a) })
    &&& forall|a: u32|
        number32(a) && worth32(a) != 0 ==> number32(#[trigger] low(f, Ask::Signum32(a))) && worth32(low(f, Ask::Signum32(a))) == (
        if worth32(a) < 0 { -one32() } else { one32() })
    &&& forall|i: i32| rounded32(#[trigger] low(f, Ask::FromInt32(i)), i * one32(), 1)
    &&& forall|a: u64| finite64(a) ==> rounded32(#[trigger] low(f, Ask::Narrow(a)), worth64(a), finer())
}

/// The same of the arithmetic on doubles.
#[verifier::opaque]
pub open spec fn correct64<F: Fn(Ask) -> u64>(f: F) -> bool {
    &&& forall|a: u64, b: u64|
        number64(a) && number64(b) ==> #[trigger] holds(f, Ask::Less64(a, b)) == (worth64(a) < worth64(b))
    &&& forall|a: u64, b: u64|
        number64(a) && number64(b) ==> #[trigger] holds(f, Ask::LessEq64(a, b)) == (worth64(a) <= worth64(b))
    &&& forall|a: u64, b: u64|
        number64(a) && number64(b) ==> #[trigger] holds(f, Ask::Equal64(a, b)) == (worth64(a) == worth64(b))
    &&& forall|a: u64, b: u64|
        finite64(a) && finite64(b) ==> rounded64(#[trigger] reply(f, Ask::Add64(a, b)), worth64(a) + worth64(b), 1)
    &&& forall|a: u64, b: u64|
        finite64(a) && finite64(b) ==> rounded64(#[trigger] reply(f, Ask::Sub64(a, b)), worth64(a) - worth64(b), 1)
    &&& forall|a: u64, b: u64|
        finite64(a) && finite64(b) ==> rounded64(#[trigger] reply(f, Ask::Mul64(a, b)), worth64(a) * worth64(b), one64())
    &&& forall|a: u64, b: u64|
        finite64(a) && finite64(b) && worth64(b) > 0 ==> rounded64(
            #[trigger] reply(f, Ask::Div64(a, b)), worth64(a) * one64(), worth64(b))
    &&& forall|a: u64, b: u64|
        finite64(a) && finite64(b) && worth64(b) < 0 ==> rounded64(
            #[trigger] reply(f, Ask::Div64(a, b)), -worth64(a) * one64(), -worth64(b))
    &&& forall|a: u64| number64(a) ==> number64(#[trigger] reply(f, Ask::Neg64(a))) && worth64(reply(f, Ask::Neg64(a))) == -worth64(a)
    &&& forall|a: u64|
        number64(a) ==> number64(#[trigger] reply(f, Ask::Abs64(a))) && worth64(reply(f, Ask::Abs64(a))) == (if worth64(a) < 0 {
            -worth64(a)
        } else {
            worth64(a)
        })
    &&& forall|i: i32| rounded64(#[trigger] reply(f, Ask::FromInt64(i)), i * one64(), 1)
    &&& forall|a: u64|
        finite64(a) ==> finite64(#[trigger] reply(f, Ask::Floor64(a))) && worth64(reply(f, Ask::Floor64(a))) == (worth64(a) / one64())
            * one64()
    &&& forall|a: u64|
        finite64(a) ==> finite64(#[trigger] reply(f, Ask::Ceil64(a))) && worth64(reply(f, Ask::Ceil64(a))) == -((-worth64(a)) / one64())
            * one64()
    &&& forall|a: u64|
        finite64(a) && -0x8000_0000 * one64() <= worth64(a) < 0x8000_0000 * one64() ==> (#[trigger] low(f, Ask::ToInt64(a))) as i32 == (
        if worth64(a) < 0 { -(-worth64(a) / one64()) } else { worth64(a) / one64() })
    &&& forall|a: u64|
        finite64(a) && -0x8000_0000_0000_0000 * one64() <= worth64(a) < 0x8000_0000_0000_0000 * one64() ==> (#[trigger] reply(
            f, Ask::ToLong64(a))) as i64 == (if worth64(a) < 0 { -(-worth64(a) / one64()) } else { worth64(a) / one64() })
    &&& forall|a: u32|
        finite32(a) ==> finite64(#[trigger] reply(f, Ask::Widen(a))) && worth64(reply(f, Ask::Widen(a))) == worth32(a) * finer()
}

/// The arithmetic is correct on singles and doubles.
pub open spec fn correct<F: Fn(Ask) -> u64>(f: F) -> bool {
    correct32(f) && correct64(f)
}

/// A single is `n` parts of two to the power of `k`.
pub open spec fn is32(b: u32, n: int, k: int) -> bool {
    0 <= k <= 149 && finite32(b) && worth32(b) == n * pow2((149 - k) as nat)
}

/// A double is `n` parts of two to the power of `k`.
pub open spec fn is64(b: u64, n: int, k: int) -> bool {
    0 <= k <= 1074 && finite64(b) && worth64(b) == n * pow2((1074 - k) as nat)
}

/// Every count below two to the power of 24 of steps that are powers of two
/// is a single.
pub(crate) proof fn lemma_single(n: int, s: nat) -> (c: u32)
    requires
        -0x100_0000 < n < 0x100_0000,
        s <= 230,
    ensures
        finite32(c),
        worth32(c) == n * pow2(s),
    decreases s, (if n < 0 { 1nat } else { 0nat }),
{
    if n < 0 {
        let c = lemma_single(-n, s);
        vstd::arithmetic::power2::lemma_pow2_pos(s);
        assert(-(-n * pow2(s)) == n * pow2(s)) by (nonlinear_arith);
        assert(-n * pow2(s) > 0) by (nonlinear_arith)
            requires
                n < 0,
                pow2(s) > 0,
        ;
        if c >= 0x8000_0000 {
            assert(size32(c) >= 0) by {
                if exponent32(c) != 0 {
                    vstd::arithmetic::power2::lemma_pow2_pos((exponent32(c) - 1) as nat);
                    assert((fraction32(c) + 0x80_0000) * pow2((exponent32(c) - 1) as nat) >= 0) by (nonlinear_arith)
                        requires
                            fraction32(c) >= 0,
                            pow2((exponent32(c) - 1) as nat) > 0,
                    ;
                }
            }
        }
        let d = (c + 0x8000_0000) as u32;
        assert(exponent32(d) == exponent32(c) && fraction32(d) == fraction32(c));
        d
    } else if n >= 0x80_0000 {
        let c = ((s + 1) * 0x80_0000 + (n - 0x80_0000)) as u32;
        assert(exponent32(c) == s + 1 && fraction32(c) == n - 0x80_0000);
        c
    } else if s == 0 {
        assert(pow2(0) == 1) by {
            vstd::arithmetic::power2::lemma2_to64();
        }
        let c = n as u32;
        assert(exponent32(c) == 0 && fraction32(c) == n);
        c
    } else {
        vstd::arithmetic::power2::lemma_pow2_unfold(s);
        let c = lemma_single(2 * n, (s - 1) as nat);
        assert((2 * n) * pow2((s - 1) as nat) == n * pow2(s)) by (nonlinear_arith)
            requires
                pow2(s) == 2 * pow2((s - 1) as nat),
        ;
        c
    }
}

/// Every count below two to the power of 53 of such steps is a double.
pub(crate) proof fn lemma_double(n: int, s: nat) -> (c: u64)
    requires
        -0x20_0000_0000_0000 < n < 0x20_0000_0000_0000,
        s <= 1990,
    ensures
        finite64(c),
        worth64(c) == n * pow2(s),
    decreases s, (if n < 0 { 1nat } else { 0nat }),
{
    if n < 0 {
        let c = lemma_double(-n, s);
        vstd::arithmetic::power2::lemma_pow2_pos(s);
        assert(-(-n * pow2(s)) == n * pow2(s)) by (nonlinear_arith);
        assert(-n * pow2(s) > 0) by (nonlinear_arith)
            requires
                n < 0,
                pow2(s) > 0,
        ;
        if c >= 0x8000_0000_0000_0000 {
            assert(size64(c) >= 0) by {
                if exponent64(c) != 0 {
                    vstd::arithmetic::power2::lemma_pow2_pos((exponent64(c) - 1) as nat);
                    assert((fraction64(c) + 0x10_0000_0000_0000) * pow2((exponent64(c) - 1) as nat) >= 0) by (nonlinear_arith)
                        requires
                            fraction64(c) >= 0,
                            pow2((exponent64(c) - 1) as nat) > 0,
                    ;
                }
            }
        }
        let d = (c + 0x8000_0000_0000_0000) as u64;
        assert(exponent64(d) == exponent64(c) && fraction64(d) == fraction64(c));
        d
    } else if n >= 0x10_0000_0000_0000 {
        let c = ((s + 1) * 0x10_0000_0000_0000 + (n - 0x10_0000_0000_0000)) as u64;
        assert(exponent64(c) == s + 1 && fraction64(c) == n - 0x10_0000_0000_0000);
        c
    } else if s == 0 {
        assert(pow2(0) == 1) by {
            vstd::arithmetic::power2::lemma2_to64();
        }
        let c = n as u64;
        assert(exponent64(c) == 0 && fraction64(c) == n);
        c
    } else {
        vstd::arithmetic::power2::lemma_pow2_unfold(s);
        let c = lemma_double(2 * n, (s - 1) as nat);
        assert((2 * n) * pow2((s - 1) as nat) == n * pow2(s)) by (nonlinear_arith)
            requires
                pow2(s) == 2 * pow2((s - 1) as nat),
        ;
        c
    }
}

/// A number that is small enough is finite.
proof fn lemma_finite32(b: u32)
    requires
        number32(b),
        -0x100_0000 * pow2(230) < worth32(b) < 0x100_0000 * pow2(230),
    ensures
        finite32(b),
{
    if exponent32(b) == 0xff {
        vstd::arithmetic::power2::lemma_pow2_adds(24, 230);
        vstd::arithmetic::power2::lemma2_to64();
        vstd::arithmetic::power2::lemma_pow2_strictly_increases(230, 254);
        assert(size32(b) == 0x80_0000 * pow2(254));
        assert(pow2(24) == 0x100_0000);
        assert(pow2(254) == 0x100_0000 * pow2(230));
    }
}

proof fn lemma_finite64(b: u64)
    requires
        number64(b),
        -0x20_0000_0000_0000 * pow2(1990) < worth64(b) < 0x20_0000_0000_0000 * pow2(1990),
    ensures
        finite64(b),
{
    if exponent64(b) == 0x7ff {
        vstd::arithmetic::power2::lemma_pow2_adds(53, 1993);
        vstd::arithmetic::power2::lemma2_to64_rest();
        vstd::arithmetic::power2::lemma_pow2_strictly_increases(1990, 2046);
        vstd::arithmetic::power2::lemma_pow2_adds(56, 1990);
        assert(size64(b) == 0x10_0000_0000_0000 * pow2(2046));
        assert(pow2(2046) >= 0x20_0000_0000_0000 * pow2(1990));
    }
}

/// A result that is a single itself is exact.
pub(crate) proof fn lemma_exact32(r: u32, exact: int, scale: int, n: int, s: nat)
    requires
        rounded32(r, exact, scale),
        -0x100_0000 < n < 0x100_0000,
        s <= 229,
        exact == (n * pow2(s)) * scale,
    ensures
        finite32(r),
        worth32(r) == n * pow2(s),
{
    let c = lemma_single(n, s);
    assert(number32(c));
    assert(worth32(c) * scale == exact);
    vstd::arithmetic::power2::lemma_pow2_strictly_increases(s, 230);
    vstd::arithmetic::power2::lemma_pow2_pos(s);
    assert(-0x100_0000 * pow2(230) < n * pow2(s) < 0x100_0000 * pow2(230)) by (nonlinear_arith)
        requires
            -0x100_0000 < n < 0x100_0000,
            0 < pow2(s) < pow2(230),
    ;
    lemma_finite32(r);
}

pub(crate) proof fn lemma_exact64(r: u64, exact: int, scale: int, n: int, s: nat)
    requires
        rounded64(r, exact, scale),
        -0x20_0000_0000_0000 < n < 0x20_0000_0000_0000,
        s <= 1989,
        exact == (n * pow2(s)) * scale,
    ensures
        finite64(r),
        worth64(r) == n * pow2(s),
{
    let c = lemma_double(n, s);
    assert(number64(c));
    assert(worth64(c) * scale == exact);
    vstd::arithmetic::power2::lemma_pow2_strictly_increases(s, 1990);
    vstd::arithmetic::power2::lemma_pow2_pos(s);
    assert(-0x20_0000_0000_0000 * pow2(1990) < n * pow2(s) < 0x20_0000_0000_0000 * pow2(1990)) by (nonlinear_arith)
        requires
            -0x20_0000_0000_0000 < n < 0x20_0000_0000_0000,
            0 < pow2(s) < pow2(1990),
    ;
    lemma_finite64(r);
}

proof fn lemma_times(n: int, m: int, p: int, q: int)
    ensures
        (n * p) * (m * q) == (n * m) * (p * q),
{
    assert((n * p) * (m * q) == (n * m) * (p * q)) by (nonlinear_arith);
}


/// Exact sums, differences and products of such numbers, and quotients by
/// what divides them.
pub proof fn lemma_add32<F: Fn(Ask) -> u64>(f: F, a: u32, b: u32, n: int, m: int, k: int)
    requires
        correct32(f),
        is32(a, n, k),
        is32(b, m, k),
        -0x100_0000 < n + m < 0x100_0000,
    ensures
        is32(low(f, Ask::Add32(a, b)), n + m, k),
{
    reveal(correct32);
    let p = pow2((149 - k) as nat) as int;
    assert(n * p + m * p == ((n + m) * p) * 1) by (nonlinear_arith);
    lemma_exact32(low(f, Ask::Add32(a, b)), worth32(a) + worth32(b), 1, n + m, (149 - k) as nat);
}

pub proof fn lemma_sub32<F: Fn(Ask) -> u64>(f: F, a: u32, b: u32, n: int, m: int, k: int)
    requires
        correct32(f),
        is32(a, n, k),
        is32(b, m, k),
        -0x100_0000 < n - m < 0x100_0000,
    ensures
        is32(low(f, Ask::Sub32(a, b)), n - m, k),
{
    reveal(correct32);
    let p = pow2((149 - k) as nat) as int;
    assert(n * p - m * p == ((n - m) * p) * 1) by (nonlinear_arith);
    lemma_exact32(low(f, Ask::Sub32(a, b)), worth32(a) - worth32(b), 1, n - m, (149 - k) as nat);
}

pub proof fn lemma_mul32<F: Fn(Ask) -> u64>(f: F, a: u32, b: u32, n: int, m: int, j: int, k: int)
    requires
        correct32(f),
        is32(a, n, j),
        is32(b, m, k),
        j + k <= 149,
        -0x100_0000 < n * m < 0x100_0000,
    ensures
        is32(low(f, Ask::Mul32(a, b)), n * m, j + k),
{
    reveal(correct32);
    let (p, q) = (pow2((149 - j) as nat) as int, pow2((149 - k) as nat) as int);
    let r = pow2((149 - j - k) as nat) as int;
    vstd::arithmetic::power2::lemma_pow2_adds((149 - j) as nat, (149 - k) as nat);
    vstd::arithmetic::power2::lemma_pow2_adds((149 - j - k) as nat, 149);
    lemma_times(n, m, p, q);
    assert((n * m) * (r * one32()) == ((n * m) * r) * one32()) by (nonlinear_arith);
    lemma_exact32(low(f, Ask::Mul32(a, b)), worth32(a) * worth32(b), one32(), n * m, (149 - j - k) as nat);
}

pub proof fn lemma_div32<F: Fn(Ask) -> u64>(f: F, a: u32, b: u32, n: int, m: int, q: int, k: int)
    requires
        correct32(f),
        is32(a, n, k),
        is32(b, m, 0),
        m > 0,
        n == q * m,
        -0x100_0000 < q < 0x100_0000,
    ensures
        is32(low(f, Ask::Div32(a, b)), q, k),
{
    reveal(correct32);
    let p = pow2((149 - k) as nat) as int;
    vstd::arithmetic::power2::lemma_pow2_pos(149);
    assert(m * one32() > 0) by (nonlinear_arith)
        requires
            m > 0,
            one32() > 0,
    ;
    assert(((q * m) * p) * one32() == (q * p) * (m * one32())) by (nonlinear_arith);
    lemma_exact32(low(f, Ask::Div32(a, b)), worth32(a) * one32(), worth32(b), q, (149 - k) as nat);
}

pub proof fn lemma_int32<F: Fn(Ask) -> u64>(f: F, i: i32)
    requires
        correct32(f),
        -0x100_0000 < i < 0x100_0000,
    ensures
        is32(low(f, Ask::FromInt32(i)), i as int, 0),
{
    reveal(correct32);
    assert((i * one32()) * 1 == i * one32());
    lemma_exact32(low(f, Ask::FromInt32(i)), i * one32(), 1, i as int, 149);
}

pub proof fn lemma_neg32<F: Fn(Ask) -> u64>(f: F, a: u32, n: int, k: int)
    requires
        correct32(f),
        is32(a, n, k),
    ensures
        is32(low(f, Ask::Neg32(a)), -n, k),
{
    reveal(correct32);
    let p = pow2((149 - k) as nat) as int;
    assert(-(n * p) == (-n) * p) by (nonlinear_arith);
    lemma_opposite32(a, low(f, Ask::Neg32(a)));
}

/// The opposite of a finite number is finite.
proof fn lemma_opposite32(a: u32, b: u32)
    requires
        finite32(a),
        number32(b),
        worth32(b) == -worth32(a) || worth32(b) == worth32(a),
    ensures
        finite32(b),
{
    lemma_size32(a);
    if !finite32(b) {
        assert(size32(b) == 0x80_0000 * pow2(254));
        vstd::arithmetic::power2::lemma_pow2_pos(254);
    }
}

/// Finite numbers are smaller than infinity.
proof fn lemma_size32(a: u32)
    requires
        finite32(a),
    ensures
        0 <= size32(a) < 0x80_0000 * pow2(254),
{
    let e = exponent32(a);
    vstd::arithmetic::power2::lemma_pow2_pos(254);
    if e > 0 {
        vstd::arithmetic::power2::lemma_pow2_pos((e - 1) as nat);
        vstd::arithmetic::power2::lemma_pow2_unfold(e as nat);
        if e < 254 {
            vstd::arithmetic::power2::lemma_pow2_strictly_increases(e as nat, 254);
        }
        assert(0 <= (fraction32(a) + 0x80_0000) * pow2((e - 1) as nat) < 0x80_0000 * pow2(254)) by (nonlinear_arith)
            requires
                0 <= fraction32(a) < 0x80_0000,
                pow2(e as nat) == 2 * pow2((e - 1) as nat),
                0 < pow2(e as nat) <= pow2(254),
        ;
    }
}

/// Numbers are compared by their counts.
pub proof fn lemma_order32<F: Fn(Ask) -> u64>(f: F, a: u32, b: u32, n: int, m: int, k: int)
    requires
        correct32(f),
        is32(a, n, k),
        is32(b, m, k),
    ensures
        holds(f, Ask::Less32(a, b)) == (n < m),
        holds(f, Ask::LessEq32(a, b)) == (n <= m),
        holds(f, Ask::Equal32(a, b)) == (n == m),
{
    reveal(correct32);
    let p = pow2((149 - k) as nat) as int;
    vstd::arithmetic::power2::lemma_pow2_pos((149 - k) as nat);
    assert((n < m) == (n * p < m * p) && (n == m) == (n * p == m * p)) by (nonlinear_arith)
        requires
            p > 0,
    ;
}

/// The same number in smaller parts.
pub proof fn lemma_finer32(b: u32, n: int, k: int, d: nat)
    requires
        is32(b, n, k),
        k + d <= 149,
    ensures
        is32(b, n * pow2(d), k + d),
{
    vstd::arithmetic::power2::lemma_pow2_adds(d, (149 - k - d) as nat);
    let (p, q) = (pow2(d) as int, pow2((149 - k - d) as nat) as int);
    assert(n * (p * q) == (n * p) * q) by (nonlinear_arith);
}

/// A number by its bits: above zero, its fraction with the bit before it is
/// `n` times a power of two.
pub proof fn lemma_bits32(b: u32, n: int, k: int, t: nat)
    requires
        b < 0x8000_0000,
        0 < exponent32(b),
        finite32(b),
        0 <= k <= 149,
        fraction32(b) + 0x80_0000 == n * pow2(t),
        exponent32(b) - 1 + t == 149 - k,
    ensures
        is32(b, n, k),
{
    vstd::arithmetic::power2::lemma_pow2_adds(t, (exponent32(b) - 1) as nat);
    let (p, q) = (pow2(t) as int, pow2((exponent32(b) - 1) as nat) as int);
    assert(n * (p * q) == (n * p) * q) by (nonlinear_arith);
}

pub proof fn lemma_zero32(k: int)
    requires
        0 <= k <= 149,
    ensures
        is32(0, 0, k),
{
    assert(exponent32(0) == 0 && fraction32(0) == 0);
}

/// Exact sums, differences and products of such numbers, and quotients by
/// what divides them.
pub proof fn lemma_add64<F: Fn(Ask) -> u64>(f: F, a: u64, b: u64, n: int, m: int, k: int)
    requires
        correct64(f),
        is64(a, n, k),
        is64(b, m, k),
        -0x20_0000_0000_0000 < n + m < 0x20_0000_0000_0000,
    ensures
        is64(reply(f, Ask::Add64(a, b)), n + m, k),
{
    reveal(correct64);
    let p = pow2((1074 - k) as nat) as int;
    assert(n * p + m * p == ((n + m) * p) * 1) by (nonlinear_arith);
    lemma_exact64(reply(f, Ask::Add64(a, b)), worth64(a) + worth64(b), 1, n + m, (1074 - k) as nat);
}

pub proof fn lemma_sub64<F: Fn(Ask) -> u64>(f: F, a: u64, b: u64, n: int, m: int, k: int)
    requires
        correct64(f),
        is64(a, n, k),
        is64(b, m, k),
        -0x20_0000_0000_0000 < n - m < 0x20_0000_0000_0000,
    ensures
        is64(reply(f, Ask::Sub64(a, b)), n - m, k),
{
    reveal(correct64);
    let p = pow2((1074 - k) as nat) as int;
    assert(n * p - m * p == ((n - m) * p) * 1) by (nonlinear_arith);
    lemma_exact64(reply(f, Ask::Sub64(a, b)), worth64(a) - worth64(b), 1, n - m, (1074 - k) as nat);
}

pub proof fn lemma_mul64<F: Fn(Ask) -> u64>(f: F, a: u64, b: u64, n: int, m: int, j: int, k: int)
    requires
        correct64(f),
        is64(a, n, j),
        is64(b, m, k),
        j + k <= 1074,
        -0x20_0000_0000_0000 < n * m < 0x20_0000_0000_0000,
    ensures
        is64(reply(f, Ask::Mul64(a, b)), n * m, j + k),
{
    reveal(correct64);
    let (p, q) = (pow2((1074 - j) as nat) as int, pow2((1074 - k) as nat) as int);
    let r = pow2((1074 - j - k) as nat) as int;
    vstd::arithmetic::power2::lemma_pow2_adds((1074 - j) as nat, (1074 - k) as nat);
    vstd::arithmetic::power2::lemma_pow2_adds((1074 - j - k) as nat, 1074);
    lemma_times(n, m, p, q);
    assert((n * m) * (r * one64()) == ((n * m) * r) * one64()) by (nonlinear_arith);
    lemma_exact64(reply(f, Ask::Mul64(a, b)), worth64(a) * worth64(b), one64(), n * m, (1074 - j - k) as nat);
}

pub proof fn lemma_div64<F: Fn(Ask) -> u64>(f: F, a: u64, b: u64, n: int, m: int, q: int, k: int)
    requires
        correct64(f),
        is64(a, n, k),
        is64(b, m, 0),
        m > 0,
        n == q * m,
        -0x20_0000_0000_0000 < q < 0x20_0000_0000_0000,
    ensures
        is64(reply(f, Ask::Div64(a, b)), q, k),
{
    reveal(correct64);
    let p = pow2((1074 - k) as nat) as int;
    vstd::arithmetic::power2::lemma_pow2_pos(1074);
    assert(m * one64() > 0) by (nonlinear_arith)
        requires
            m > 0,
            one64() > 0,
    ;
    assert(((q * m) * p) * one64() == (q * p) * (m * one64())) by (nonlinear_arith);
    lemma_exact64(reply(f, Ask::Div64(a, b)), worth64(a) * one64(), worth64(b), q, (1074 - k) as nat);
}

pub proof fn lemma_int64<F: Fn(Ask) -> u64>(f: F, i: i32)
    requires
        correct64(f),
    ensures
        is64(reply(f, Ask::FromInt64(i)), i as int, 0),
{
    reveal(correct64);
    assert((i * one64()) * 1 == i * one64());
    lemma_exact64(reply(f, Ask::FromInt64(i)), i * one64(), 1, i as int, 1074);
}

pub proof fn lemma_neg64<F: Fn(Ask) -> u64>(f: F, a: u64, n: int, k: int)
    requires
        correct64(f),
        is64(a, n, k),
    ensures
        is64(reply(f, Ask::Neg64(a)), -n, k),
{
    reveal(correct64);
    let p = pow2((1074 - k) as nat) as int;
    assert(-(n * p) == (-n) * p) by (nonlinear_arith);
    lemma_opposite64(a, reply(f, Ask::Neg64(a)));
}

/// The opposite of a finite number is finite.
proof fn lemma_opposite64(a: u64, b: u64)
    requires
        finite64(a),
        number64(b),
        worth64(b) == -worth64(a) || worth64(b) == worth64(a),
    ensures
        finite64(b),
{
    lemma_size64(a);
    if !finite64(b) {
        assert(size64(b) == 0x10_0000_0000_0000 * pow2(2046));
        vstd::arithmetic::power2::lemma_pow2_pos(2046);
    }
}

/// Finite numbers are smaller than infinity.
proof fn lemma_size64(a: u64)
    requires
        finite64(a),
    ensures
        0 <= size64(a) < 0x10_0000_0000_0000 * pow2(2046),
{
    let e = exponent64(a);
    vstd::arithmetic::power2::lemma_pow2_pos(2046);
    if e > 0 {
        vstd::arithmetic::power2::lemma_pow2_pos((e - 1) as nat);
        vstd::arithmetic::power2::lemma_pow2_unfold(e as nat);
        if e < 2046 {
            vstd::arithmetic::power2::lemma_pow2_strictly_increases(e as nat, 2046);
        }
        assert(0 <= (fraction64(a) + 0x10_0000_0000_0000) * pow2((e - 1) as nat) < 0x10_0000_0000_0000 * pow2(2046)) by (nonlinear_arith)
            requires
                0 <= fraction64(a) < 0x10_0000_0000_0000,
                pow2(e as nat) == 2 * pow2((e - 1) as nat),
                0 < pow2(e as nat) <= pow2(2046),
        ;
    }
}

/// Numbers are compared by their counts.
pub proof fn lemma_order64<F: Fn(Ask) -> u64>(f: F, a: u64, b: u64, n: int, m: int, k: int)
    requires
        correct64(f),
        is64(a, n, k),
        is64(b, m, k),
    ensures
        holds(f, Ask::Less64(a, b)) == (n < m),
        holds(f, Ask::LessEq64(a, b)) == (n <= m),
        holds(f, Ask::Equal64(a, b)) == (n == m),
{
    reveal(correct64);
    let p = pow2((1074 - k) as nat) as int;
    vstd::arithmetic::power2::lemma_pow2_pos((1074 - k) as nat);
    assert((n < m) == (n * p < m * p) && (n == m) == (n * p == m * p)) by (nonlinear_arith)
        requires
            p > 0,
    ;
}

/// The same number in smaller parts.
pub proof fn lemma_finer64(b: u64, n: int, k: int, d: nat)
    requires
        is64(b, n, k),
        k + d <= 1074,
    ensures
        is64(b, n * pow2(d), k + d),
{
    vstd::arithmetic::power2::lemma_pow2_adds(d, (1074 - k - d) as nat);
    let (p, q) = (pow2(d) as int, pow2((1074 - k - d) as nat) as int);
    assert(n * (p * q) == (n * p) * q) by (nonlinear_arith);
}

/// A number by its bits: above zero, its fraction with the bit before it is
/// `n` times a power of two.
pub proof fn lemma_bits64(b: u64, n: int, k: int, t: nat)
    requires
        b < 0x8000_0000_0000_0000,
        0 < exponent64(b),
        finite64(b),
        0 <= k <= 1074,
        fraction64(b) + 0x10_0000_0000_0000 == n * pow2(t),
        exponent64(b) - 1 + t == 1074 - k,
    ensures
        is64(b, n, k),
{
    vstd::arithmetic::power2::lemma_pow2_adds(t, (exponent64(b) - 1) as nat);
    let (p, q) = (pow2(t) as int, pow2((exponent64(b) - 1) as nat) as int);
    assert(n * (p * q) == (n * p) * q) by (nonlinear_arith);
}

pub proof fn lemma_zero64(k: int)
    requires
        0 <= k <= 1074,
    ensures
        is64(0, 0, k),
{
    assert(exponent64(0) == 0 && fraction64(0) == 0);
}

/// A single as a double, and back.
pub proof fn lemma_widen<F: Fn(Ask) -> u64>(f: F, a: u32, n: int, k: int)
    requires
        correct64(f),
        is32(a, n, k),
    ensures
        is64(reply(f, Ask::Widen(a)), n, k),
{
    reveal(correct64);
    vstd::arithmetic::power2::lemma_pow2_adds((149 - k) as nat, 925);
    let (p, q) = (pow2((149 - k) as nat) as int, pow2(925) as int);
    assert(n * (p * q) == (n * p) * q) by (nonlinear_arith);
}

pub proof fn lemma_narrow<F: Fn(Ask) -> u64>(f: F, a: u64, n: int, k: int)
    requires
        correct32(f),
        is64(a, n, k),
        k <= 149,
        -0x100_0000 < n < 0x100_0000,
    ensures
        is32(low(f, Ask::Narrow(a)), n, k),
{
    reveal(correct32);
    vstd::arithmetic::power2::lemma_pow2_adds((149 - k) as nat, 925);
    let (p, q) = (pow2((149 - k) as nat) as int, pow2(925) as int);
    assert(n * (p * q) == (n * p) * q) by (nonlinear_arith);
    lemma_exact32(low(f, Ask::Narrow(a)), worth64(a), finer(), n, (149 - k) as nat);
}

/// The floor of a double, and the integer that it is.
pub proof fn lemma_floor64<F: Fn(Ask) -> u64>(f: F, a: u64, n: int, k: int)
    requires
        correct64(f),
        is64(a, n, k),
    ensures
        is64(reply(f, Ask::Floor64(a)), n / (pow2(k as nat) as int), 0),
{
    reveal(correct64);
    let (p, q) = (pow2((1074 - k) as nat) as int, pow2(k as nat) as int);
    vstd::arithmetic::power2::lemma_pow2_adds((1074 - k) as nat, k as nat);
    vstd::arithmetic::power2::lemma_pow2_pos((1074 - k) as nat);
    vstd::arithmetic::power2::lemma_pow2_pos(k as nat);
    assert((n * p) / (p * q) == n / q) by {
        vstd::arithmetic::div_mod::lemma_fundamental_div_mod(n, q);
        let (d, r) = (n / q, n % q);
        assert(n * p == d * (p * q) + r * p && 0 <= r * p < p * q) by (nonlinear_arith)
            requires
                n == q * d + r,
                0 <= r < q,
                p > 0,
        ;
        vstd::arithmetic::div_mod::lemma_fundamental_div_mod_converse(n * p, p * q, d, r * p);
    }
}

pub proof fn lemma_to_int64<F: Fn(Ask) -> u64>(f: F, a: u64, n: int)
    requires
        correct64(f),
        is64(a, n, 0),
        -0x8000_0000 <= n < 0x8000_0000,
    ensures
        low(f, Ask::ToInt64(a)) as i32 == n,
{
    reveal(correct64);
    let u = one64();
    vstd::arithmetic::power2::lemma_pow2_pos(1074);
    assert(-0x8000_0000 * u <= n * u < 0x8000_0000 * u) by (nonlinear_arith)
        requires
            -0x8000_0000 <= n < 0x8000_0000,
            u > 0,
    ;
    if n < 0 {
        assert(-(n * u) == (-n) * u) by (nonlinear_arith);
        assert(n * u < 0) by (nonlinear_arith)
            requires
                n < 0,
                u > 0,
        ;
        vstd::arithmetic::div_mod::lemma_div_by_multiple(-n, u);
    } else {
        assert(n * u >= 0) by (nonlinear_arith)
            requires
                n >= 0,
                u > 0,
        ;
        vstd::arithmetic::div_mod::lemma_div_by_multiple(n, u);
    }
}

/// The same number in larger parts.
pub proof fn lemma_coarser32(b: u32, n: int, k: int, d: nat)
    requires
        0 <= k,
        is32(b, n * pow2(d), k + d),
    ensures
        is32(b, n, k),
{
    vstd::arithmetic::power2::lemma_pow2_adds(d, (149 - k - d) as nat);
    let (p, q) = (pow2(d) as int, pow2((149 - k - d) as nat) as int);
    assert(n * (p * q) == (n * p) * q) by (nonlinear_arith);
}

pub proof fn lemma_abs64<F: Fn(Ask) -> u64>(f: F, a: u64, n: int, k: int)
    requires
        correct64(f),
        is64(a, n, k),
    ensures
        is64(reply(f, Ask::Abs64(a)), if n < 0 { -n } else { n }, k),
{
    reveal(correct64);
    let p = pow2((1074 - k) as nat) as int;
    vstd::arithmetic::power2::lemma_pow2_pos((1074 - k) as nat);
    assert((n < 0) == (n * p < 0) && -(n * p) == (-n) * p) by (nonlinear_arith)
        requires
            p > 0,
    ;
    lemma_opposite64(a, reply(f, Ask::Abs64(a)));
}

pub proof fn lemma_abs32<F: Fn(Ask) -> u64>(f: F, a: u32, n: int, k: int)
    requires
        correct32(f),
        is32(a, n, k),
    ensures
        is32(low(f, Ask::Abs32(a)), if n < 0 { -n } else { n }, k),
{
    reveal(correct32);
    let p = pow2((149 - k) as nat) as int;
    vstd::arithmetic::power2::lemma_pow2_pos((149 - k) as nat);
    assert((n < 0) == (n * p < 0) && -(n * p) == (-n) * p) by (nonlinear_arith)
        requires
            p > 0,
    ;
    lemma_opposite32(a, low(f, Ask::Abs32(a)));
}

/// A quotient by a power of two.
pub proof fn lemma_shrink64<F: Fn(Ask) -> u64>(f: F, a: u64, b: u64, n: int, k: int, d: nat)
    requires
        correct64(f),
        is64(a, n, k),
        is64(b, pow2(d) as int, 0),
        k + d <= 1074,
        -0x20_0000_0000_0000 < n < 0x20_0000_0000_0000,
    ensures
        is64(reply(f, Ask::Div64(a, b)), n, k + d),
{
    vstd::arithmetic::power2::lemma_pow2_pos(d);
    lemma_finer64(a, n, k, d);
    lemma_div64(f, a, b, n * pow2(d), pow2(d) as int, n, k + d);
}

pub proof fn lemma_shrink32<F: Fn(Ask) -> u64>(f: F, a: u32, b: u32, n: int, k: int, d: nat)
    requires
        correct32(f),
        is32(a, n, k),
        is32(b, pow2(d) as int, 0),
        k + d <= 149,
        -0x100_0000 < n < 0x100_0000,
    ensures
        is32(low(f, Ask::Div32(a, b)), n, k + d),
{
    vstd::arithmetic::power2::lemma_pow2_pos(d);
    lemma_finer32(a, n, k, d);
    lemma_div32(f, a, b, n * pow2(d), pow2(d) as int, n, k + d);
}

/// A single is the one nearest to a fraction.
pub open spec fn nearest32(b: u32, n: int, m: int) -> bool {
    &&& 0 < exponent32(b) < 0xff
    &&& b < 0x8000_0000
    &&& -m * pow2((exponent32(b) - 1) as nat) <= 2 * (m * worth32(b) - n * one32()) <= m * pow2((exponent32(b) - 1) as nat)
}

/// By its bits: `t` is what the step of the single is short of one.
pub proof fn lemma_nearest32(b: u32, n: int, m: int, t: nat)
    requires
        0 < exponent32(b) < 0xff,
        b < 0x8000_0000,
        exponent32(b) - 1 + t == 149,
        -m <= 2 * (m * (fraction32(b) + 0x80_0000) - n * pow2(t)) <= m,
    ensures
        nearest32(b, n, m),
{
    let p = pow2((exponent32(b) - 1) as nat) as int;
    let (v, q) = (fraction32(b) + 0x80_0000, pow2(t) as int);
    vstd::arithmetic::power2::lemma_pow2_adds((exponent32(b) - 1) as nat, t);
    vstd::arithmetic::power2::lemma_pow2_pos((exponent32(b) - 1) as nat);
    let d = 2 * (m * v - n * q);
    assert(2 * (m * (v * p) - n * (p * q)) == d * p) by (nonlinear_arith)
        requires
            d == 2 * (m * v - n * q),
    ;
    assert(-m * p <= d * p <= m * p) by (nonlinear_arith)
        requires
            -m <= d <= m,
            p > 0,
    ;
}

/// One, two and a half.
pub proof fn lemma_known64()
    ensures
        is64(crate::arith::ONE, 1, 0),
        is64(crate::arith::TWO, 2, 0),
        is64(crate::arith::HALF, 1, 1),
{
    vstd::arithmetic::power2::lemma2_to64_rest();
    vstd::arithmetic::power2::lemma2_to64();
    lemma_bits64(crate::arith::ONE, 1, 0, 52);
    lemma_bits64(crate::arith::TWO, 2, 0, 51);
    lemma_bits64(crate::arith::HALF, 1, 1, 52);
}

pub proof fn lemma_known32()
    ensures
        is32(crate::arith::ONE_32, 1, 0),
        is32(crate::df26::TWO_32, 2, 0),
        is32(crate::arith::HALF_32, 1, 1),
{
    vstd::arithmetic::power2::lemma2_to64();
    lemma_bits32(crate::arith::ONE_32, 1, 0, 23);
    lemma_bits32(crate::df26::TWO_32, 2, 0, 22);
    lemma_bits32(crate::arith::HALF_32, 1, 1, 23);
}

/// A rounded result lies between numbers that the exact one lies between.
pub proof fn lemma_between64(r: u64, exact: int, scale: int, lo: u64, hi: u64)
    requires
        rounded64(r, exact, scale),
        finite64(lo),
        finite64(hi),
        worth64(lo) * scale <= exact <= worth64(hi) * scale,
    ensures
        worth64(lo) <= worth64(r) <= worth64(hi),
        finite64(r),
{
    lemma_size64(lo);
    lemma_size64(hi);
    if exponent64(r) == 0x7ff {
        assert(size64(r) == 0x10_0000_0000_0000 * pow2(2046));
    }
}

pub proof fn lemma_between32(r: u32, exact: int, scale: int, lo: u32, hi: u32)
    requires
        rounded32(r, exact, scale),
        finite32(lo),
        finite32(hi),
        worth32(lo) * scale <= exact <= worth32(hi) * scale,
    ensures
        worth32(lo) <= worth32(r) <= worth32(hi),
        finite32(r),
{
    lemma_size32(lo);
    lemma_size32(hi);
    if exponent32(r) == 0xff {
        assert(size32(r) == 0x80_0000 * pow2(254));
    }
}

/// There is a double for every count of few digits.
pub proof fn lemma_some64(n: int, k: int) -> (c: u64)
    requires
        0 <= k <= 1074,
        -0x20_0000_0000_0000 < n < 0x20_0000_0000_0000,
    ensures
        is64(c, n, k),
{
    lemma_double(n, (1074 - k) as nat)
}

pub proof fn lemma_some32(n: int, k: int) -> (c: u32)
    requires
        0 <= k <= 149,
        -0x100_0000 < n < 0x100_0000,
    ensures
        is32(c, n, k),
{
    lemma_single(n, (149 - k) as nat)
}

/// What a number is worth, in parts of two to the power of `k`: at least
/// `lo` and at most `hi`.
pub open spec fn span64(b: u64, lo: int, hi: int, k: int) -> bool {
    0 <= k <= 1074 && finite64(b) && lo * pow2((1074 - k) as nat) <= worth64(b) <= hi * pow2((1074 - k) as nat)
}

pub proof fn lemma_span_add64<F: Fn(Ask) -> u64>(f: F, a: u64, b: u64, al: int, ah: int, bl: int, bh: int, k: int)
    requires
        correct64(f),
        span64(a, al, ah, k),
        span64(b, bl, bh, k),
        -0x20_0000_0000_0000 < al + bl && ah + bh < 0x20_0000_0000_0000,
    ensures
        span64(reply(f, Ask::Add64(a, b)), al + bl, ah + bh, k),
{
    reveal(correct64);
    let p = pow2((1074 - k) as nat) as int;
    vstd::arithmetic::power2::lemma_pow2_pos((1074 - k) as nat);
    assert(al * p + bl * p == (al + bl) * p && ah * p + bh * p == (ah + bh) * p) by (nonlinear_arith);
    assert(al + bl <= ah + bh) by (nonlinear_arith)
        requires
            (al + bl) * p <= (ah + bh) * p,
            p > 0,
    ;
    let (lo, hi) = (lemma_some64(al + bl, k), lemma_some64(ah + bh, k));
    lemma_between64(reply(f, Ask::Add64(a, b)), worth64(a) + worth64(b), 1, lo, hi);
}

pub proof fn lemma_span_sub64<F: Fn(Ask) -> u64>(f: F, a: u64, b: u64, al: int, ah: int, bl: int, bh: int, k: int)
    requires
        correct64(f),
        span64(a, al, ah, k),
        span64(b, bl, bh, k),
        -0x20_0000_0000_0000 < al - bh && ah - bl < 0x20_0000_0000_0000,
    ensures
        span64(reply(f, Ask::Sub64(a, b)), al - bh, ah - bl, k),
{
    reveal(correct64);
    let p = pow2((1074 - k) as nat) as int;
    vstd::arithmetic::power2::lemma_pow2_pos((1074 - k) as nat);
    assert(al * p - bh * p == (al - bh) * p && ah * p - bl * p == (ah - bl) * p) by (nonlinear_arith);
    assert(al - bh <= ah - bl) by (nonlinear_arith)
        requires
            (al - bh) * p <= (ah - bl) * p,
            p > 0,
    ;
    let (lo, hi) = (lemma_some64(al - bh, k), lemma_some64(ah - bl, k));
    lemma_between64(reply(f, Ask::Sub64(a, b)), worth64(a) - worth64(b), 1, lo, hi);
}

/// A product of numbers that are not negative.
pub proof fn lemma_span_mul64<F: Fn(Ask) -> u64>(f: F, a: u64, b: u64, al: int, ah: int, bl: int, bh: int, j: int, k: int)
    requires
        correct64(f),
        span64(a, al, ah, j),
        span64(b, bl, bh, k),
        0 <= al && 0 <= bl,
        j + k <= 1074,
        ah * bh < 0x20_0000_0000_0000,
    ensures
        span64(reply(f, Ask::Mul64(a, b)), al * bl, ah * bh, j + k),
{
    reveal(correct64);
    let (p, q) = (pow2((1074 - j) as nat) as int, pow2((1074 - k) as nat) as int);
    let r = pow2((1074 - j - k) as nat) as int;
    vstd::arithmetic::power2::lemma_pow2_pos((1074 - j) as nat);
    vstd::arithmetic::power2::lemma_pow2_pos((1074 - k) as nat);
    vstd::arithmetic::power2::lemma_pow2_pos((1074 - j - k) as nat);
    vstd::arithmetic::power2::lemma_pow2_adds((1074 - j) as nat, (1074 - k) as nat);
    vstd::arithmetic::power2::lemma_pow2_adds((1074 - j - k) as nat, 1074);
    let (x, y) = (worth64(a), worth64(b));
    assert(0 <= al * p && 0 <= bl * q && al <= ah && bl <= bh) by (nonlinear_arith)
        requires
            0 <= al,
            0 <= bl,
            p > 0,
            q > 0,
            al * p <= ah * p,
            bl * q <= bh * q,
    ;
    assert((al * p) * (bl * q) <= x * y <= (ah * p) * (bh * q)) by (nonlinear_arith)
        requires
            0 <= al * p <= x <= ah * p,
            0 <= bl * q <= y <= bh * q,
    ;
    assert(0 <= al * bl <= ah * bh) by (nonlinear_arith)
        requires
            0 <= al <= ah,
            0 <= bl <= bh,
    ;
    lemma_times(al, bl, p, q);
    lemma_times(ah, bh, p, q);
    let (m, n) = (al * bl, ah * bh);
    assert(m * (r * one64()) == (m * r) * one64() && n * (r * one64()) == (n * r) * one64()) by (nonlinear_arith);
    let (lo, hi) = (lemma_some64(m, j + k), lemma_some64(n, j + k));
    lemma_between64(reply(f, Ask::Mul64(a, b)), x * y, one64(), lo, hi);
}

/// Numbers of different spans are told apart.
pub proof fn lemma_span_order64<F: Fn(Ask) -> u64>(f: F, a: u64, b: u64, al: int, ah: int, bl: int, bh: int, k: int)
    requires
        correct64(f),
        span64(a, al, ah, k),
        span64(b, bl, bh, k),
    ensures
        ah < bl ==> holds(f, Ask::Less64(a, b)) && !holds(f, Ask::LessEq64(b, a)) && !holds(f, Ask::Less64(b, a)),
        ah <= bl ==> holds(f, Ask::LessEq64(a, b)) && !holds(f, Ask::Less64(b, a)),
{
    reveal(correct64);
    let p = pow2((1074 - k) as nat) as int;
    vstd::arithmetic::power2::lemma_pow2_pos((1074 - k) as nat);
    assert((ah < bl ==> ah * p < bl * p) && (ah <= bl ==> ah * p <= bl * p)) by (nonlinear_arith)
        requires
            p > 0,
    ;
}

/// A number is its own span.
pub proof fn lemma_span_of64(b: u64, n: int, k: int)
    requires
        is64(b, n, k),
    ensures
        span64(b, n, n, k),
{
}

/// The span of a double by its bits, that of a positive one.
pub proof fn lemma_span_bits64(b: u64, lo: int, hi: int, k: int, t: nat)
    requires
        b < 0x8000_0000_0000_0000,
        0 < exponent64(b),
        finite64(b),
        0 <= k <= 1074,
        lo * pow2(t) <= fraction64(b) + 0x10_0000_0000_0000 <= hi * pow2(t),
        exponent64(b) - 1 + t == 1074 - k,
    ensures
        span64(b, lo, hi, k),
{
    vstd::arithmetic::power2::lemma_pow2_adds(t, (exponent64(b) - 1) as nat);
    vstd::arithmetic::power2::lemma_pow2_pos((exponent64(b) - 1) as nat);
    let (p, q, v) = (pow2(t) as int, pow2((exponent64(b) - 1) as nat) as int, fraction64(b) + 0x10_0000_0000_0000);
    assert(lo * (p * q) <= v * q <= hi * (p * q)) by (nonlinear_arith)
        requires
            lo * p <= v <= hi * p,
            q > 0,
    ;
}

/// The same bits with the sign turned.
pub proof fn lemma_negative64(b: u64, lo: int, hi: int, k: int)
    requires
        b >= 0x8000_0000_0000_0000,
        span64((b - 0x8000_0000_0000_0000) as u64, lo, hi, k),
    ensures
        span64(b, -hi, -lo, k),
{
    let c = (b - 0x8000_0000_0000_0000) as u64;
    assert(exponent64(c) == exponent64(b) && fraction64(c) == fraction64(b));
    let p = pow2((1074 - k) as nat) as int;
    assert(-(hi * p) == (-hi) * p && -(lo * p) == (-lo) * p) by (nonlinear_arith);
}

/// The smaller and the larger of two singles.
pub proof fn lemma_extremes32<F: Fn(Ask) -> u64>(f: F, a: u32, b: u32, n: int, m: int, k: int)
    requires
        correct32(f),
        is32(a, n, k),
        is32(b, m, k),
    ensures
        is32(low(f, Ask::Min32(a, b)), if n < m { n } else { m }, k),
        is32(low(f, Ask::Max32(a, b)), if n < m { m } else { n }, k),
        !holds(f, Ask::Nan32(a)),
{
    reveal(correct32);
    let p = pow2((149 - k) as nat) as int;
    vstd::arithmetic::power2::lemma_pow2_pos((149 - k) as nat);
    assert((n < m) == (n * p < m * p)) by (nonlinear_arith)
        requires
            p > 0,
    ;
    let (c, d) = (low(f, Ask::Min32(a, b)), low(f, Ask::Max32(a, b)));
    if worth32(c) == worth32(a) {
        lemma_opposite32(a, c);
    } else {
        lemma_opposite32(b, c);
    }
    if worth32(d) == worth32(a) {
        lemma_opposite32(a, d);
    } else {
        lemma_opposite32(b, d);
    }
}

/// The ceiling of a double.
pub proof fn lemma_ceil64<F: Fn(Ask) -> u64>(f: F, a: u64, n: int, k: int)
    requires
        correct64(f),
        is64(a, n, k),
    ensures
        is64(reply(f, Ask::Ceil64(a)), -((-n) / (pow2(k as nat) as int)), 0),
{
    reveal(correct64);
    let (p, q) = (pow2((1074 - k) as nat) as int, pow2(k as nat) as int);
    vstd::arithmetic::power2::lemma_pow2_adds((1074 - k) as nat, k as nat);
    vstd::arithmetic::power2::lemma_pow2_pos((1074 - k) as nat);
    vstd::arithmetic::power2::lemma_pow2_pos(k as nat);
    let e = -n;
    assert((e * p) / (p * q) == e / q) by {
        vstd::arithmetic::div_mod::lemma_fundamental_div_mod(e, q);
        let (d, r) = (e / q, e % q);
        assert(e * p == d * (p * q) + r * p && 0 <= r * p < p * q) by (nonlinear_arith)
            requires
                e == q * d + r,
                0 <= r < q,
                p > 0,
        ;
        vstd::arithmetic::div_mod::lemma_fundamental_div_mod_converse(e * p, p * q, d, r * p);
    }
    assert(-(n * p) == e * p) by (nonlinear_arith)
        requires
            e == -n,
    ;
}

} // verus!
