//! A stable merge sort.

use vstd::multiset::Multiset;
use vstd::prelude::*;

verus! {

/// The keys do not descend.
pub open spec fn ascending<T>(s: Seq<(i128, T)>) -> bool {
    forall|i: int, j: int| 0 <= i <= j < s.len() ==> (#[trigger] s[i]).0 <= (#[trigger] s[j]).0
}

/// One element after another, as often as each occurs.
pub open spec fn bag<T>(s: Seq<T>) -> Multiset<T> {
    s.to_multiset()
}

/// The front of two ascending runs put together.
fn merge<T: Copy>(a: &Vec<(i128, T)>, b: &Vec<(i128, T)>) -> (r: Vec<(i128, T)>)
    requires
        ascending(a@),
        ascending(b@),
        a@.len() + b@.len() <= usize::MAX,
    ensures
        ascending(r@),
        bag(r@) == bag(a@).add(bag(b@)),
{
    let mut r: Vec<(i128, T)> = Vec::new();
    let mut i: usize = 0;
    let mut j: usize = 0;
    proof {
        assert(a@.take(0) =~= Seq::empty());
        assert(b@.take(0) =~= Seq::empty());
        assert(bag(r@) =~= bag(a@.take(0)).add(bag(b@.take(0)))) by {
            broadcast use vstd::seq_lib::group_to_multiset_ensures;
            assert(r@ =~= a@.take(0));
            assert(bag(a@.take(0)).len() == 0);
            assert(bag(b@.take(0)).len() == 0);
        }
    }
    while i < a.len() || j < b.len()
        invariant
            ascending(a@),
            ascending(b@),
            a@.len() + b@.len() <= usize::MAX,
            i <= a@.len(),
            j <= b@.len(),
            ascending(r@),
            forall|k: int, m: int| 0 <= k < r@.len() && i <= m < a@.len() ==> (#[trigger] r@[k]).0 <= (#[trigger] a@[m]).0,
            forall|k: int, m: int| 0 <= k < r@.len() && j <= m < b@.len() ==> (#[trigger] r@[k]).0 <= (#[trigger] b@[m]).0,
            bag(r@) == bag(a@.take(i as int)).add(bag(b@.take(j as int))),
        decreases a.len() - i + (b.len() - j),
    {
        let ghost before = r@;
        let from_a: bool = if i < a.len() {
            if j < b.len() { a[i].0 <= b[j].0 } else { true }
        } else {
            false
        };
        if from_a {
            proof {
                broadcast use vstd::seq_lib::group_to_multiset_ensures;
                assert(a@.take(i + 1) =~= a@.take(i as int).push(a@[i as int]));
                assert(bag(before.push(a@[i as int])) =~= bag(a@.take(i + 1)).add(bag(b@.take(j as int))));
            }
            r.push(a[i]);
            i += 1;
        } else {
            proof {
                broadcast use vstd::seq_lib::group_to_multiset_ensures;
                assert(b@.take(j + 1) =~= b@.take(j as int).push(b@[j as int]));
                assert(bag(before.push(b@[j as int])) =~= bag(a@.take(i as int)).add(bag(b@.take(j + 1))));
            }
            r.push(b[j]);
            j += 1;
        }
    }
    proof {
        assert(a@.take(a@.len() as int) =~= a@);
        assert(b@.take(b@.len() as int) =~= b@);
    }
    r
}

/// The elements in ascending order of their keys.
pub fn sort_by_key<T: Copy>(v: &Vec<(i128, T)>) -> (r: Vec<(i128, T)>)
    ensures
        ascending(r@),
        bag(r@) == bag(v@),
        r@.len() == v@.len(),
{
    let r: Vec<(i128, T)> = sort_part(v, 0, v.len());
    proof {
        broadcast use vstd::seq_lib::group_to_multiset_ensures;
        assert(v@.subrange(0, v@.len() as int) =~= v@);
        assert(r@.len() == bag(r@).len());
        assert(v@.len() == bag(v@).len());
    }
    r
}

fn sort_part<T: Copy>(v: &Vec<(i128, T)>, from: usize, to: usize) -> (r: Vec<(i128, T)>)
    requires
        from <= to <= v@.len(),
    ensures
        ascending(r@),
        bag(r@) == bag(v@.subrange(from as int, to as int)),
    decreases to - from,
{
    if to - from <= 1 {
        let mut r: Vec<(i128, T)> = Vec::new();
        if from < to {
            r.push(v[from]);
        }
        proof { assert(r@ =~= v@.subrange(from as int, to as int)); }
        return r;
    }
    let mid: usize = from + (to - from) / 2;
    let a: Vec<(i128, T)> = sort_part(v, from, mid);
    let b: Vec<(i128, T)> = sort_part(v, mid, to);
    proof {
        broadcast use vstd::seq_lib::group_to_multiset_ensures;
        assert(a@.len() == bag(a@).len());
        assert(b@.len() == bag(b@).len());
        let (s, t) = (v@.subrange(from as int, mid as int), v@.subrange(mid as int, to as int));
        assert(s.len() == bag(s).len());
        assert(t.len() == bag(t).len());
        assert(s + t =~= v@.subrange(from as int, to as int));
        vstd::seq_lib::lemma_multiset_commutative(s, t);
    }
    merge(&a, &b)
}

} // verus!
