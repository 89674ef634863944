//! Which chunks are sent, in which order, and how coarse.

use vstd::prelude::*;
use crate::lodmesh26::{block_distance, scale_at_distance};
use crate::lodsend::{disc_of, on_ring, ring, ring_row, rings};

verus! {

/// The ring of a chunk around a centre.
pub open spec fn ring_of(p: (i32, i32), cx: int, cz: int) -> int {
    let (dx, dz) = (p.0 - cx, p.1 - cz);
    let (ax, az) = (if dx < 0 { -dx } else { dx }, if dz < 0 { -dz } else { dz });
    if ax < az { az } else { ax }
}

/// A chunk within a distance of a centre.
pub open spec fn near(p: (i32, i32), cx: int, cz: int, far: int) -> bool {
    (p.0 - cx) * (p.0 - cx) + (p.1 - cz) * (p.1 - cz) <= far * far
}

proof fn lemma_row(cx: int, cz: int, far: int, r: int, dz: int, n: nat)
    requires
        0 <= r,
        n <= 2 * r + 1,
        -r <= dz <= r,
        i32::MIN <= cx - r && cx + r <= i32::MAX && i32::MIN <= cz - r && cz + r <= i32::MAX,
    ensures
        ({
            let s = ring_row(cx, cz, far, r, dz, n);
            &&& s.no_duplicates()
            &&& forall|p: (i32, i32)| #[trigger] s.contains(p) ==> p.1 == cz + dz && p.0 < cx + n - r && ring_of(p, cx, cz) == r && near(p, cx, cz, far)
            &&& forall|p: (i32, i32)|
                p.1 == cz + dz && p.0 < cx + n - r && ring_of(p, cx, cz) == r && near(p, cx, cz, far) ==> #[trigger] s.contains(p)
        }),
    decreases n,
{
    if n > 0 {
        let rest = ring_row(cx, cz, far, r, dz, (n - 1) as nat);
        lemma_row(cx, cz, far, r, dz, (n - 1) as nat);
        let dx = n - 1 - r;
        let q = ((cx + dx) as i32, (cz + dz) as i32);
        let s = ring_row(cx, cz, far, r, dz, n);
        if on_ring(dx, dz, r, far) {
            lemma_pushed(rest, q);
        }
        assert forall|p: (i32, i32)|
            p.1 == cz + dz && p.0 < cx + n - r && ring_of(p, cx, cz) == r && near(p, cx, cz, far) implies #[trigger] s.contains(p) by {
            if p.0 == cx + dx {
                assert(p == q);
                assert(on_ring(dx, dz, r, far));
            } else {
                assert(rest.contains(p));
            }
        }
    }
}

proof fn lemma_pushed(rest: Seq<(i32, i32)>, q: (i32, i32))
    ensures
        forall|p: (i32, i32)| #[trigger] rest.push(q).contains(p) <==> rest.contains(p) || p == q,
        rest.no_duplicates() && !rest.contains(q) ==> rest.push(q).no_duplicates(),
{
    let s = rest.push(q);
    assert forall|p: (i32, i32)| #[trigger] s.contains(p) <==> rest.contains(p) || p == q by {
        if rest.contains(p) {
            let i = choose|i: int| 0 <= i < rest.len() && rest[i] == p;
            assert(s[i] == p);
        }
        assert(s[rest.len() as int] == q);
    }
}

proof fn lemma_joined(a: Seq<(i32, i32)>, b: Seq<(i32, i32)>)
    ensures
        forall|p: (i32, i32)| #[trigger] (a + b).contains(p) <==> a.contains(p) || b.contains(p),
        a.no_duplicates() && b.no_duplicates() && (forall|p: (i32, i32)| #[trigger] a.contains(p) ==> !b.contains(p))
            ==> (a + b).no_duplicates(),
{
    let s = a + b;
    assert forall|p: (i32, i32)| #[trigger] s.contains(p) <==> a.contains(p) || b.contains(p) by {
        if a.contains(p) {
            let i = choose|i: int| 0 <= i < a.len() && a[i] == p;
            assert(s[i] == p);
        }
        if b.contains(p) {
            let i = choose|i: int| 0 <= i < b.len() && b[i] == p;
            assert(s[a.len() + i] == p);
        }
    }
    if a.no_duplicates() && b.no_duplicates() && (forall|p: (i32, i32)| #[trigger] a.contains(p) ==> !b.contains(p)) {
        assert forall|i: int, j: int| 0 <= i < s.len() && 0 <= j < s.len() && i != j implies s[i] != s[j] by {
            if i < a.len() {
                assert(a.contains(s[i]));
            }
            if j < a.len() {
                assert(a.contains(s[j]));
            }
            if i >= a.len() {
                assert(b[i - a.len()] == s[i]);
                assert(b.contains(s[i]));
            }
            if j >= a.len() {
                assert(b[j - a.len()] == s[j]);
                assert(b.contains(s[j]));
            }
        }
    }
}

proof fn lemma_ring(cx: int, cz: int, far: int, r: int, n: nat)
    requires
        0 <= r,
        n <= 2 * r + 1,
        i32::MIN <= cx - r && cx + r <= i32::MAX && i32::MIN <= cz - r && cz + r <= i32::MAX,
    ensures
        ({
            let s = ring(cx, cz, far, r, n);
            &&& s.no_duplicates()
            &&& forall|p: (i32, i32)| #[trigger] s.contains(p) <==> p.1 < cz + n - r && ring_of(p, cx, cz) == r && near(p, cx, cz, far)
        }),
    decreases n,
{
    if n > 0 {
        lemma_ring(cx, cz, far, r, (n - 1) as nat);
        let before = ring(cx, cz, far, r, (n - 1) as nat);
        let row = ring_row(cx, cz, far, r, n - 1 - r, (2 * r + 1) as nat);
        lemma_row(cx, cz, far, r, n - 1 - r, (2 * r + 1) as nat);
        lemma_joined(before, row);
    }
}

/// The chunks of a view: all within a distance of its centre, each once, and
/// no ring before a nearer one.
pub proof fn law_discs_hold_what_is_near(cx: int, cz: int, far: int, p: (i32, i32), i: int, j: int)
    requires
        0 <= far,
        i32::MIN <= cx - far && cx + far <= i32::MAX && i32::MIN <= cz - far && cz + far <= i32::MAX,
    ensures
        disc_of(cx, cz, far).no_duplicates(),
        disc_of(cx, cz, far).contains(p) <==> near(p, cx, cz, far),
        0 <= i < j < disc_of(cx, cz, far).len() ==> ring_of(disc_of(cx, cz, far)[i], cx, cz) <= ring_of(
            disc_of(cx, cz, far)[j], cx, cz),
{
    lemma_rings(cx, cz, far, (far + 1) as nat);
    if near(p, cx, cz, far) {
        let (dx, dz) = (p.0 - cx, p.1 - cz);
        assert(-far <= dx <= far && -far <= dz <= far) by (nonlinear_arith)
            requires
                dx * dx + dz * dz <= far * far,
                far >= 0,
        ;
    }
}

proof fn lemma_rings(cx: int, cz: int, far: int, n: nat)
    requires
        n <= far + 1,
        i32::MIN <= cx - far && cx + far <= i32::MAX && i32::MIN <= cz - far && cz + far <= i32::MAX,
    ensures
        ({
            let s = rings(cx, cz, far, n);
            &&& s.no_duplicates()
            &&& forall|p: (i32, i32)| #[trigger] s.contains(p) <==> ring_of(p, cx, cz) < n && near(p, cx, cz, far)
            &&& forall|i: int, j: int| 0 <= i < j < s.len() ==> ring_of(#[trigger] s[i], cx, cz) <= ring_of(#[trigger] s[j], cx, cz)
        }),
    decreases n,
{
    if n > 0 {
        lemma_rings(cx, cz, far, (n - 1) as nat);
        let before = rings(cx, cz, far, (n - 1) as nat);
        let last = ring(cx, cz, far, n - 1, (2 * (n - 1) + 1) as nat);
        lemma_ring(cx, cz, far, n - 1, (2 * (n - 1) + 1) as nat);
        lemma_joined(before, last);
        let s = rings(cx, cz, far, n);
        assert forall|i: int, j: int| 0 <= i < j < s.len() implies ring_of(#[trigger] s[i], cx, cz) <= ring_of(
            #[trigger] s[j], cx, cz) by {
            assert(s.contains(s[i]));
            if j >= before.len() {
                assert(last[j - before.len()] == s[j]);
                assert(last.contains(s[j]));
            } else {
                assert(before[i] == s[i] && before[j] == s[j]);
            }
        }
    }
}

/// The distance from a chunk to a block of eight chunks: no longer than to
/// any of them, and as long as to one.
pub proof fn law_blocks_are_as_far_as_their_nearest(c: int, p: int, q: int)
    requires
        q / 8 == c / 8,
    ensures
        0 <= block_distance(c, p),
        block_distance(c, p) <= if p < q { q - p } else { p - q },
        exists|n: int| #[trigger] in_block(n, c) && block_distance(c, p) == if p < n { n - p } else { p - n },
{
    let b = (c / 8) * 8;
    let n = if p < b { b } else if p > b + 7 { b + 7 } else { p };
    assert(in_block(n, c));
}

/// A chunk of the same block of eight.
pub open spec fn in_block(n: int, c: int) -> bool {
    n / 8 == c / 8
}

/// Cells double with the distance: one of `s` blocks is drawn from twelve
/// chunks for each block of its width on, and up to twice as far; none is
/// smaller than one block or larger than a chunk.
pub proof fn law_cells_double_with_distance(d: int)
    requires
        0 <= d,
    ensures
        ({
            let s = scale_at_distance(d);
            &&& s == 1 || s == 2 || s == 4 || s == 8 || s == 16
            &&& s > 1 ==> 12 * s <= d
            &&& s < 16 ==> d < 24 * s
        }),
{
}

} // verus!
