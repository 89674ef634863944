//! Little-endian numbers in byte sequences.

use vstd::prelude::*;

verus! {

/// The `n` low bytes of a number, lowest first.
pub open spec fn le(v: int, n: nat) -> Seq<u8>
    decreases n,
{
    if n == 0 { Seq::empty() } else { seq![(v % 256) as u8] + le(v / 256, (n - 1) as nat) }
}

/// The number whose bytes these are, lowest first.
pub open spec fn from_le(s: Seq<u8>) -> int
    decreases s.len(),
{
    if s.len() == 0 { 0 } else { s[0] + 256 * from_le(s.skip(1)) }
}

/// How many numbers `n` bytes hold.
pub open spec fn capacity(n: nat) -> int
    decreases n,
{
    if n == 0 { 1 } else { 256 * capacity((n - 1) as nat) }
}

/// Two, four and eight bytes.
pub proof fn lemma_capacities()
    ensures
        capacity(1) == 0x100,
        capacity(2) == 0x1_0000,
        capacity(4) == 0x1_0000_0000,
        capacity(8) == 0x1_0000_0000_0000_0000,
{
    reveal_with_fuel(capacity, 9);
}

pub proof fn lemma_le_len(v: int, n: nat)
    ensures
        le(v, n).len() == n,
    decreases n,
{
    if n > 0 {
        lemma_le_len(v / 256, (n - 1) as nat);
    }
}

/// Reading back the bytes of a number gives the number.
pub proof fn lemma_from_le_of_le(v: int, n: nat)
    requires
        0 <= v < capacity(n),
    ensures
        from_le(le(v, n)) == v,
    decreases n,
{
    if n > 0 {
        lemma_from_le_of_le(v / 256, (n - 1) as nat);
        assert(le(v, n).skip(1) =~= le(v / 256, (n - 1) as nat));
    }
}

/// Writing the number that bytes were read as gives the bytes.
pub proof fn lemma_le_of_from_le(s: Seq<u8>)
    ensures
        le(from_le(s), s.len()) == s,
        0 <= from_le(s) < capacity(s.len()),
    decreases s.len(),
{
    if s.len() > 0 {
        let t = s.skip(1);
        lemma_le_of_from_le(t);
        let v = from_le(s);
        assert(v / 256 == from_le(t));
        assert(v % 256 == s[0]);
        assert(le(v, s.len()) =~= seq![s[0]] + t);
        assert(seq![s[0]] + t =~= s);
    } else {
        assert(le(0, 0) =~= s);
    }
}

/// The number in `n` bytes from `at`.
pub fn read_le(bytes: &[u8], at: usize, n: usize) -> (r: u64)
    requires
        n <= 8,
        at + n <= bytes@.len(),
    ensures
        r == from_le(bytes@.subrange(at as int, at + n)),
        r < capacity(n as nat),
        le(r as int, n as nat) == bytes@.subrange(at as int, at + n),
{
    let mut r: u64 = 0;
    let mut k: usize = n;
    let end: usize = bytes.len();
    let ghost all = bytes@.subrange(at as int, at + n);
    proof {
        assert(all.skip(n as int) =~= Seq::empty());
    }
    while k > 0
        invariant
            k <= n <= 8,
            end == bytes@.len(),
            at + n <= end,
            all == bytes@.subrange(at as int, at + n),
            r == from_le(all.skip(k as int)),
        decreases k,
    {
        let ghost t = all.skip(k as int);
        proof {
            lemma_le_of_from_le(t);
            lemma_capacity_grows((n - k) as nat, 7);
            lemma_capacities();
            reveal_with_fuel(capacity, 9);
            assert(all.skip(k - 1).skip(1) =~= t);
            assert(all.skip(k - 1)[0] == all[k - 1]);
        }
        r = r * 256 + bytes[at + k - 1] as u64;
        k -= 1;
    }
    proof {
        assert(all.skip(0) =~= all);
        lemma_le_of_from_le(all);
    }
    r
}

pub proof fn lemma_capacity_grows(m: nat, n: nat)
    requires
        m <= n,
    ensures
        1 <= capacity(m) <= capacity(n),
    decreases n,
{
    if m < n {
        lemma_capacity_grows(m, (n - 1) as nat);
    } else if n > 0 {
        lemma_capacity_grows((m - 1) as nat, (n - 1) as nat);
    }
}

/// Append the `n` low bytes of a number.
pub fn push_le(out: &mut Vec<u8>, v: u64, n: usize)
    ensures
        final(out)@ == old(out)@ + le(v as int, n as nat),
{
    let ghost start = out@;
    let mut rest: u64 = v;
    let mut k: usize = 0;
    proof { assert(start + le(v as int, n as nat) =~= start + le(rest as int, (n - k) as nat)); }
    while k < n
        invariant
            k <= n,
            start + le(v as int, n as nat) == out@ + le(rest as int, (n - k) as nat),
        decreases n - k,
    {
        let ghost before = out@;
        out.push((rest % 256) as u8);
        proof {
            assert(before + le(rest as int, (n - k) as nat) =~= out@ + le(rest as int / 256, (n - k - 1) as nat));
        }
        rest = rest / 256;
        k += 1;
    }
    proof { assert(out@ + le(rest as int, 0) =~= out@); }
}

/// The signed reading of 32 bits and back.
pub proof fn lemma_signed32(v: u32)
    ensures
        (v as i32) as u32 == v,
{
    assert((v as i32) as u32 == v) by (bit_vector);
}

} // verus!
