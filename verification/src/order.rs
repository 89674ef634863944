//! Stable sorting by lists of keys.

use vstd::prelude::*;

verus! {

/// A list of keys comes strictly before another, from position `k` on.
pub open spec fn lex(a: Seq<i64>, b: Seq<i64>, k: int) -> bool
    decreases a.len() - k,
{
    if k >= a.len() {
        false
    } else if a[k] != b[k] {
        a[k] < b[k]
    } else {
        lex(a, b, k + 1)
    }
}

/// Element `i` comes before element `j`: by its keys, and among equal keys
/// by its place.
pub open spec fn comes_first(keys: Seq<Seq<i64>>, i: int, j: int) -> bool {
    lex(keys[i], keys[j], 0) || (!lex(keys[j], keys[i], 0) && i < j)
}

/// Every element has as many keys.
pub open spec fn uniform(keys: Seq<Seq<i64>>, n: int) -> bool {
    forall|i: int| 0 <= i < keys.len() ==> (#[trigger] keys[i]).len() == n
}

/// Places of elements, each before the next.
pub open spec fn in_order(keys: Seq<Seq<i64>>, o: Seq<int>) -> bool {
    &&& forall|i: int| 0 <= i < o.len() ==> 0 <= #[trigger] o[i] < keys.len()
    &&& forall|i: int, j: int| 0 <= i < j < o.len() ==> comes_first(keys, #[trigger] o[i], #[trigger] o[j])
}

/// The places of all elements, in order.
pub open spec fn is_order(keys: Seq<Seq<i64>>, o: Seq<int>) -> bool {
    o.len() == keys.len() && in_order(keys, o)
}

/// The stable order of elements by their keys.
pub open spec fn order_of(keys: Seq<Seq<i64>>) -> Seq<int> {
    choose|o: Seq<int>| is_order(keys, o)
}

proof fn lemma_lex_apart(a: Seq<i64>, b: Seq<i64>, k: int)
    requires
        a.len() == b.len(),
        0 <= k,
    ensures
        !(lex(a, b, k) && lex(b, a, k)),
        !lex(a, b, k) && !lex(b, a, k) ==> forall|m: int| k <= m < a.len() ==> a[m] == b[m],
    decreases a.len() - k,
{
    if k < a.len() && a[k] == b[k] {
        lemma_lex_apart(a, b, k + 1);
    }
}

proof fn lemma_lex_joins(a: Seq<i64>, b: Seq<i64>, c: Seq<i64>, k: int)
    requires
        a.len() == b.len() == c.len(),
        0 <= k,
        lex(a, b, k),
        lex(b, c, k),
    ensures
        lex(a, c, k),
    decreases a.len() - k,
{
    if k < a.len() && a[k] == b[k] && b[k] == c[k] {
        lemma_lex_joins(a, b, c, k + 1);
    }
}

/// One of two different elements comes first, and only one.
pub proof fn lemma_one_first(keys: Seq<Seq<i64>>, n: int, i: int, j: int)
    requires
        uniform(keys, n),
        0 <= i < keys.len(),
        0 <= j < keys.len(),
    ensures
        !(comes_first(keys, i, j) && comes_first(keys, j, i)),
        i != j ==> comes_first(keys, i, j) || comes_first(keys, j, i),
{
    lemma_lex_apart(keys[i], keys[j], 0);
}

pub proof fn lemma_first_joins(keys: Seq<Seq<i64>>, n: int, i: int, j: int, k: int)
    requires
        uniform(keys, n),
        0 <= i < keys.len(),
        0 <= j < keys.len(),
        0 <= k < keys.len(),
        comes_first(keys, i, j),
        comes_first(keys, j, k),
    ensures
        comes_first(keys, i, k),
{
    let (a, b, c) = (keys[i], keys[j], keys[k]);
    lemma_lex_apart(a, b, 0);
    lemma_lex_apart(b, c, 0);
    lemma_lex_apart(a, c, 0);
    if lex(a, b, 0) && lex(b, c, 0) {
        lemma_lex_joins(a, b, c, 0);
    } else if lex(a, b, 0) {
        assert(b =~= c);
    } else if lex(b, c, 0) {
        assert(a =~= b);
    } else {
        assert(a =~= b && b =~= c);
    }
}

/// Two lists in order of the same elements are the same.
proof fn lemma_same_order(keys: Seq<Seq<i64>>, n: int, a: Seq<int>, b: Seq<int>)
    requires
        uniform(keys, n),
        in_order(keys, a),
        in_order(keys, b),
        a.to_set() == b.to_set(),
        a.len() == b.len(),
    ensures
        a == b,
    decreases a.len(),
{
    if a.len() > 0 {
        assert(a.to_set().contains(a[0]));
        assert(b.to_set().contains(b[0]));
        assert(b.contains(a[0]) && a.contains(b[0]));
        let j = choose|j: int| 0 <= j < b.len() && b[j] == a[0];
        let i = choose|i: int| 0 <= i < a.len() && a[i] == b[0];
        if j > 0 {
            assert(comes_first(keys, b[0], b[j]));
            if i > 0 {
                assert(comes_first(keys, a[0], a[i]));
            }
            lemma_one_first(keys, n, a[0], b[0]);
        }
        assert(a[0] == b[0]);
        let (s, t) = (a.skip(1), b.skip(1));
        assert forall|x: int| s.to_set().contains(x) <==> t.to_set().contains(x) by {
            if s.contains(x) {
                let m = choose|m: int| 0 <= m < s.len() && s[m] == x;
                assert(a[m + 1] == x);
                assert(comes_first(keys, a[0], a[m + 1]));
                lemma_one_first(keys, n, a[0], x);
                assert(a.to_set().contains(x));
                assert(b.contains(x));
                let p = choose|p: int| 0 <= p < b.len() && b[p] == x;
                assert(p != 0);
                assert(t[p - 1] == x);
            }
            if t.contains(x) {
                let m = choose|m: int| 0 <= m < t.len() && t[m] == x;
                assert(b[m + 1] == x);
                assert(comes_first(keys, b[0], b[m + 1]));
                lemma_one_first(keys, n, b[0], x);
                assert(b.to_set().contains(x));
                assert(a.contains(x));
                let p = choose|p: int| 0 <= p < a.len() && a[p] == x;
                assert(p != 0);
                assert(s[p - 1] == x);
            }
        }
        assert(s.to_set() =~= t.to_set());
        lemma_same_order(keys, n, s, t);
        assert(a =~= seq![a[0]] + s);
        assert(b =~= seq![b[0]] + t);
    } else {
        assert(a =~= b);
    }
}

/// An order names every place once.
pub proof fn lemma_order_covers(keys: Seq<Seq<i64>>, n: int, o: Seq<int>)
    requires
        uniform(keys, n),
        is_order(keys, o),
    ensures
        o.no_duplicates(),
        o.to_set() == vstd::set_lib::set_int_range(0, keys.len() as int),
        forall|i: int| 0 <= i < keys.len() ==> #[trigger] o.contains(i),
{
    assert forall|i: int, j: int| 0 <= i < o.len() && 0 <= j < o.len() && i != j implies o[i] != o[j] by {
        if i < j {
            assert(comes_first(keys, o[i], o[j]));
        } else {
            assert(comes_first(keys, o[j], o[i]));
        }
        lemma_one_first(keys, n, o[i], o[j]);
    }
    o.unique_seq_to_set();
    let all = vstd::set_lib::set_int_range(0, keys.len() as int);
    vstd::set_lib::lemma_int_range(0, keys.len() as int);
    assert(o.to_set().subset_of(all));
    vstd::set_lib::lemma_subset_equality(o.to_set(), all);
    assert forall|i: int| 0 <= i < keys.len() implies #[trigger] o.contains(i) by {
        assert(all.contains(i));
        assert(o.to_set().contains(i));
    }
}

/// There is one order.
pub proof fn lemma_order_is(keys: Seq<Seq<i64>>, n: int, o: Seq<int>)
    requires
        uniform(keys, n),
        is_order(keys, o),
    ensures
        order_of(keys) == o,
{
    let c = order_of(keys);
    assert(is_order(keys, c));
    lemma_order_covers(keys, n, o);
    lemma_order_covers(keys, n, c);
    lemma_same_order(keys, n, c, o);
}

/// Where an element belongs in a list in order: after those before it.
spec fn place_for(keys: Seq<Seq<i64>>, o: Seq<int>, x: int, i: int) -> int
    decreases o.len() - i,
{
    if i < o.len() && comes_first(keys, o[i], x) { place_for(keys, o, x, i + 1) } else { i }
}

proof fn lemma_place_for(keys: Seq<Seq<i64>>, n: int, o: Seq<int>, x: int, i: int)
    requires
        uniform(keys, n),
        in_order(keys, o),
        0 <= x < keys.len(),
        0 <= i <= o.len(),
        forall|k: int| 0 <= k < i ==> comes_first(keys, #[trigger] o[k], x),
    ensures
        ({
            let p = place_for(keys, o, x, i);
            &&& i <= p <= o.len()
            &&& forall|k: int| 0 <= k < p ==> comes_first(keys, #[trigger] o[k], x)
            &&& forall|k: int| p <= k < o.len() && o[k] != x ==> comes_first(keys, x, #[trigger] o[k])
        }),
    decreases o.len() - i,
{
    if i < o.len() && comes_first(keys, o[i], x) {
        lemma_place_for(keys, n, o, x, i + 1);
    } else {
        assert forall|k: int| i <= k < o.len() && o[k] != x implies comes_first(keys, x, #[trigger] o[k]) by {
            lemma_one_first(keys, n, x, o[k]);
            if comes_first(keys, o[k], x) && k > i {
                assert(comes_first(keys, o[i], o[k]));
                lemma_first_joins(keys, n, o[i], o[k], x);
            }
        }
    }
}

proof fn lemma_prefix_order(keys: Seq<Seq<i64>>, n: int, m: nat) -> (o: Seq<int>)
    requires
        uniform(keys, n),
        m <= keys.len(),
    ensures
        o.len() == m,
        in_order(keys, o),
        forall|i: int| 0 <= i < o.len() ==> #[trigger] o[i] < m,
    decreases m,
{
    if m == 0 {
        Seq::empty()
    } else {
        let before = lemma_prefix_order(keys, n, (m - 1) as nat);
        let x = m - 1;
        lemma_place_for(keys, n, before, x, 0);
        let p = place_for(keys, before, x, 0);
        let o = before.insert(p, x);
        assert forall|i: int, j: int| 0 <= i < j < o.len() implies comes_first(keys, #[trigger] o[i], #[trigger] o[j]) by {
            if i < p {
                assert(o[i] == before[i]);
                if j > p {
                    assert(o[j] == before[j - 1]);
                } else if j < p {
                    assert(o[j] == before[j]);
                }
            } else if i == p {
                assert(o[j] == before[j - 1]);
            } else {
                assert(o[i] == before[i - 1] && o[j] == before[j - 1]);
            }
        }
        assert forall|i: int| 0 <= i < o.len() implies 0 <= #[trigger] o[i] < m by {
            if i < p {
                assert(o[i] == before[i]);
            } else if i > p {
                assert(o[i] == before[i - 1]);
            }
        }
        o
    }
}

/// There is an order.
pub proof fn lemma_order_exists(keys: Seq<Seq<i64>>, n: int)
    requires
        uniform(keys, n),
    ensures
        is_order(keys, order_of(keys)),
{
    let o = lemma_prefix_order(keys, n, keys.len());
    assert(is_order(keys, o));
}

/// The keys of elements.
pub open spec fn lists(keys: Seq<Vec<i64>>) -> Seq<Seq<i64>> {
    keys.map_values(|k: Vec<i64>| k@)
}

/// Places as numbers.
pub open spec fn places(o: Seq<usize>) -> Seq<int> {
    o.map_values(|i: usize| i as int)
}

/// Whether a list of keys comes strictly before another.
fn before(a: &Vec<i64>, b: &Vec<i64>) -> (r: bool)
    requires
        a@.len() == b@.len(),
    ensures
        r == lex(a@, b@, 0),
{
    let mut k: usize = 0;
    while k < a.len()
        invariant
            a@.len() == b@.len(),
            k <= a@.len(),
            lex(a@, b@, 0) == lex(a@, b@, k as int),
        decreases a.len() - k,
    {
        if a[k] != b[k] {
            return a[k] < b[k];
        }
        k += 1;
    }
    false
}

/// Two runs put together; the second holds later places.
fn merge(keys: &Vec<Vec<i64>>, a: &Vec<usize>, b: &Vec<usize>, mid: usize, n: usize) -> (r: Vec<usize>)
    requires
        uniform(lists(keys@), n as int),
        in_order(lists(keys@), places(a@)),
        in_order(lists(keys@), places(b@)),
        forall|i: int| 0 <= i < a@.len() ==> #[trigger] a@[i] < mid,
        forall|i: int| 0 <= i < b@.len() ==> mid <= #[trigger] b@[i],
        a@.len() + b@.len() <= usize::MAX,
    ensures
        in_order(lists(keys@), places(r@)),
        r@.len() == a@.len() + b@.len(),
        forall|k: int| 0 <= k < r@.len() ==> a@.contains(#[trigger] r@[k]) || b@.contains(r@[k]),
{
    let ghost ks = lists(keys@);
    let mut r: Vec<usize> = Vec::new();
    let mut i: usize = 0;
    let mut j: usize = 0;
    while i < a.len() || j < b.len()
        invariant
            ks == lists(keys@),
            uniform(ks, n as int),
            in_order(ks, places(a@)),
            in_order(ks, places(b@)),
            forall|i: int| 0 <= i < a@.len() ==> #[trigger] a@[i] < mid,
            forall|i: int| 0 <= i < b@.len() ==> mid <= #[trigger] b@[i],
            a@.len() + b@.len() <= usize::MAX,
            i <= a@.len(),
            j <= b@.len(),
            r@.len() == i + j,
            in_order(ks, places(r@)),
            forall|k: int, m: int|
                0 <= k < r@.len() && i <= m < a@.len() ==> comes_first(ks, #[trigger] r@[k] as int, #[trigger] a@[m] as int),
            forall|k: int, m: int|
                0 <= k < r@.len() && j <= m < b@.len() ==> comes_first(ks, #[trigger] r@[k] as int, #[trigger] b@[m] as int),
            forall|k: int| 0 <= k < r@.len() ==> a@.contains(#[trigger] r@[k]) || b@.contains(r@[k]),
        decreases a.len() - i + (b.len() - j),
    {
        proof {
            if i < a@.len() {
                assert(places(a@)[i as int] == a@[i as int]);
            }
            if j < b@.len() {
                assert(places(b@)[j as int] == b@[j as int]);
            }
        }
        let from_a: bool = if i < a.len() {
            if j < b.len() {
                proof {
                    assert(ks[a@[i as int] as int] == keys@[a@[i as int] as int]@);
                    assert(ks[b@[j as int] as int] == keys@[b@[j as int] as int]@);
                }
                !before(&keys[b[j]], &keys[a[i]])
            } else {
                true
            }
        } else {
            false
        };
        let ghost old_r = r@;
        if from_a {
            let x: usize = a[i];
            proof {
                assert(a@.contains(x));
                assert forall|m: int| j <= m < b@.len() implies comes_first(ks, x as int, #[trigger] b@[m] as int) by {
                    assert(comes_first(ks, x as int, b@[j as int] as int)) by {
                        lemma_lex_apart(ks[x as int], ks[b@[j as int] as int], 0);
                    }
                    if m > j {
                        assert(comes_first(ks, places(b@)[j as int], places(b@)[m]));
                        assert(places(b@)[m] == b@[m]);
                        lemma_first_joins(ks, n as int, x as int, b@[j as int] as int, b@[m] as int);
                    }
                }
                assert forall|m: int| i < m < a@.len() implies comes_first(ks, x as int, #[trigger] a@[m] as int) by {
                    assert(comes_first(ks, places(a@)[i as int], places(a@)[m]));
                }
            }
            r.push(x);
            i += 1;
        } else {
            let x: usize = b[j];
            proof {
                assert(b@.contains(x));
                assert forall|m: int| i <= m < a@.len() implies comes_first(ks, x as int, #[trigger] a@[m] as int) by {
                    if m > i {
                        assert(comes_first(ks, places(a@)[i as int], places(a@)[m]));
                        assert(places(a@)[m] == a@[m]);
                        lemma_first_joins(ks, n as int, x as int, a@[i as int] as int, a@[m] as int);
                    }
                }
                assert forall|m: int| j < m < b@.len() implies comes_first(ks, x as int, #[trigger] b@[m] as int) by {
                    assert(comes_first(ks, places(b@)[j as int], places(b@)[m]));
                }
            }
            r.push(x);
            j += 1;
        }
        proof {
            let p = places(r@);
            assert forall|k: int| 0 <= k < p.len() implies 0 <= #[trigger] p[k] < ks.len() by {
                if k < old_r.len() {
                    assert(places(old_r)[k] == p[k]);
                }
            }
            assert forall|k: int, m: int| 0 <= k < m < p.len() implies comes_first(ks, #[trigger] p[k], #[trigger] p[m]) by {
                assert(places(old_r)[k] == p[k]);
                assert(old_r[k] == p[k]);
                if m < old_r.len() {
                    assert(places(old_r)[m] == p[m]);
                }
            }
        }
    }
    r
}

/// The places `from..to` in order.
fn sort_range(keys: &Vec<Vec<i64>>, from: usize, to: usize, n: usize) -> (r: Vec<usize>)
    requires
        uniform(lists(keys@), n as int),
        from <= to <= keys@.len(),
    ensures
        in_order(lists(keys@), places(r@)),
        r@.len() == to - from,
        forall|k: int| 0 <= k < r@.len() ==> from <= #[trigger] r@[k] < to,
    decreases to - from,
{
    if to - from <= 1 {
        let mut r: Vec<usize> = Vec::new();
        if from < to {
            r.push(from);
        }
        return r;
    }
    let mid: usize = from + (to - from) / 2;
    let a: Vec<usize> = sort_range(keys, from, mid, n);
    let b: Vec<usize> = sort_range(keys, mid, to, n);
    let r: Vec<usize> = merge(keys, &a, &b, mid, n);
    proof {
        assert forall|k: int| 0 <= k < r@.len() implies from <= #[trigger] r@[k] < to by {
            if a@.contains(r@[k]) {
                let i = choose|i: int| 0 <= i < a@.len() && a@[i] == r@[k];
                assert(from <= a@[i] < mid);
            } else {
                let i = choose|i: int| 0 <= i < b@.len() && b@[i] == r@[k];
                assert(mid <= b@[i] < to);
            }
        }
    }
    r
}

/// The stable order of elements by their keys.
pub fn stable_order(keys: &Vec<Vec<i64>>, n: usize) -> (r: Vec<usize>)
    requires
        uniform(lists(keys@), n as int),
    ensures
        places(r@) == order_of(lists(keys@)),
        is_order(lists(keys@), places(r@)),
{
    let r: Vec<usize> = sort_range(keys, 0, keys.len(), n);
    proof { lemma_order_is(lists(keys@), n as int, places(r@)); }
    r
}

} // verus!
