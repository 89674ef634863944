//! Maps keyed by chunk.

use std::collections::HashMap;
use vstd::prelude::*;

verus! {

/// A chunk as one number.
pub open spec fn packed(p: (i32, i32)) -> u64 {
    ((p.0 + 0x8000_0000) * 0x1_0000_0000 + (p.1 + 0x8000_0000)) as u64
}

/// The chunk a number stands for.
pub open spec fn unpacked(k: u64) -> (i32, i32) {
    ((k / 0x1_0000_0000 - 0x8000_0000) as i32, (k % 0x1_0000_0000 - 0x8000_0000) as i32)
}

proof fn lemma_unpack_packed(p: (i32, i32))
    ensures
        unpacked(packed(p)) == p,
{
    let v = (p.0 + 0x8000_0000) * 0x1_0000_0000 + (p.1 + 0x8000_0000);
    assert(0 <= v < 0x1_0000_0000_0000_0000);
}

proof fn lemma_pack_unpacked(k: u64)
    ensures
        packed(unpacked(k)) == k,
{
}

fn pack(x: i32, z: i32) -> (r: u64)
    ensures
        r == packed((x, z)),
{
    ((x as i64 + 0x8000_0000) as u64) * 0x1_0000_0000 + ((z as i64 + 0x8000_0000) as u64)
}

fn unpack(k: u64) -> (r: (i32, i32))
    ensures
        r == unpacked(k),
{
    (((k / 0x1_0000_0000) as i64 - 0x8000_0000) as i32, ((k % 0x1_0000_0000) as i64 - 0x8000_0000) as i32)
}

/// Values by chunk.
pub struct ChunkMap<V> {
    map: HashMap<u64, V>,
}

impl<V> View for ChunkMap<V> {
    type V = Map<(i32, i32), V>;

    closed spec fn view(&self) -> Map<(i32, i32), V> {
        Map::new(|p: (i32, i32)| self.map@.contains_key(packed(p)), |p: (i32, i32)| self.map@[packed(p)])
    }
}

impl<V> ChunkMap<V> {
    /// No chunk has a value.
    pub fn new() -> (r: ChunkMap<V>)
        ensures
            r@ == Map::<(i32, i32), V>::empty(),
    {
        let r = ChunkMap { map: HashMap::new() };
        proof { assert(r@ =~= Map::empty()); }
        r
    }

    /// How many values are kept.
    pub closed spec fn count(&self) -> nat {
        self.map@.dom().len()
    }

    /// The chunks with a value are finitely many.
    pub proof fn lemma_finite(&self)
        ensures
            self@.dom().finite(),
            self@.dom().len() == self.count(),
    {
        let f = |k: u64| unpacked(k);
        let x = self.map@.dom();
        assert forall|a: u64, b: u64| x.contains(a) && x.contains(b) && #[trigger] f(a) == #[trigger] f(b) implies a == b by {
            lemma_pack_unpacked(a);
            lemma_pack_unpacked(b);
        }
        assert forall|p: (i32, i32)| x.map(f).contains(p) <==> self@.dom().contains(p) by {
            lemma_unpack_packed(p);
            if x.map(f).contains(p) {
                let k = choose|k: u64| x.contains(k) && p == f(k);
                lemma_pack_unpacked(k);
            }
            if self@.dom().contains(p) {
                assert(f(packed(p)) == p);
                assert(x.contains(packed(p)));
            }
        }
        assert(x.map(f) =~= self@.dom());
        vstd::set_lib::lemma_map_size(x, self@.dom(), f);
    }

    /// The value of a chunk.
    pub fn get(&self, x: i32, z: i32) -> (r: Option<&V>)
        ensures
            r is Some <==> self@.contains_key((x, z)),
            r matches Some(v) ==> *v == self@[(x, z)],
    {
        self.map.get(&pack(x, z))
    }

    /// Whether a chunk has a value.
    pub fn contains(&self, x: i32, z: i32) -> (r: bool)
        ensures
            r == self@.contains_key((x, z)),
    {
        self.map.contains_key(&pack(x, z))
    }

    /// Give a chunk a value; the one it had comes back.
    pub fn insert(&mut self, x: i32, z: i32, v: V) -> (r: Option<V>)
        ensures
            final(self)@ == old(self)@.insert((x, z), v),
            r == (if old(self)@.contains_key((x, z)) { Some(old(self)@[(x, z)]) } else { None }),
    {
        let ghost before = self@;
        let r = self.map.insert(pack(x, z), v);
        proof {
            assert forall|p: (i32, i32)| #[trigger] packed(p) == packed((x, z)) implies p == (x, z) by {
                lemma_unpack_packed(p);
                lemma_unpack_packed((x, z));
            }
            assert(self@ =~= before.insert((x, z), v));
        }
        r
    }

    /// Take a chunk's value out.
    pub fn remove(&mut self, x: i32, z: i32) -> (r: Option<V>)
        ensures
            final(self)@ == old(self)@.remove((x, z)),
            r == (if old(self)@.contains_key((x, z)) { Some(old(self)@[(x, z)]) } else { None }),
    {
        let ghost before = self@;
        let r = self.map.remove(&pack(x, z));
        proof {
            assert forall|p: (i32, i32)| #[trigger] packed(p) == packed((x, z)) implies p == (x, z) by {
                lemma_unpack_packed(p);
                lemma_unpack_packed((x, z));
            }
            assert(self@ =~= before.remove((x, z)));
        }
        r
    }

    /// How many chunks have a value.
    pub fn len(&self) -> (r: usize)
        ensures
            r == self@.dom().len(),
            self@.dom().finite(),
    {
        proof { self.lemma_finite(); }
        self.map.len()
    }

    /// Take every value out.
    pub fn clear(&mut self)
        ensures
            final(self)@ == Map::<(i32, i32), V>::empty(),
    {
        self.map.clear();
        proof { assert(self@ =~= Map::empty()); }
    }

    /// The chunks with a value, in no particular order.
    pub fn chunks(&self) -> (r: Vec<(i32, i32)>)
        ensures
            r@.no_duplicates(),
            forall|p: (i32, i32)| #[trigger] r@.contains(p) <==> self@.contains_key(p),
            r@.len() == self@.dom().len(),
            self@.dom().finite(),
    {
        let mut r: Vec<(i32, i32)> = Vec::new();
        let ghost mut seen: Seq<u64> = Seq::empty();
        for k in it: self.map.keys()
            invariant
                r@.len() == it.index(),
                seen == it.seq().unref().take(it.index() as int),
                forall|i: int| 0 <= i < r@.len() ==> #[trigger] r@[i] == unpacked(seen[i]),
                it.seq().unref().to_set() == self.map@.dom(),
                it.seq().no_duplicates(),
                it.seq().len() == self.map@.dom().len(),
                seen.no_duplicates(),
                seen.to_set().subset_of(self.map@.dom()),
        {
            let ghost n = it.index() as int;
            let ghost all = it.seq().unref();
            proof {
                assert(all[n] == *k);
                assert(all.take(n + 1) =~= seen.push(*k));
                assert forall|i: int, j: int| 0 <= i < n + 1 && 0 <= j < n + 1 && i != j implies seen.push(*k)[i] != seen.push(
                    *k)[j] by {
                    assert(all[i] == *it.seq()[i] && all[j] == *it.seq()[j]);
                }
                assert forall|x: u64| seen.push(*k).to_set().contains(x) implies self.map@.dom().contains(x) by {
                    let i = choose|i: int| 0 <= i < n + 1 && seen.push(*k)[i] == x;
                    assert(all[i] == x);
                    assert(all.to_set().contains(x));
                }
                seen = seen.push(*k);
            }
            r.push(unpack(*k));
        }
        proof {
            self.lemma_finite();
            seen.unique_seq_to_set();
            vstd::set_lib::lemma_subset_equality(seen.to_set(), self.map@.dom());
            assert forall|i: int, j: int| 0 <= i < r@.len() && 0 <= j < r@.len() && i != j implies r@[i] != r@[j] by {
                lemma_pack_unpacked(seen[i]);
                lemma_pack_unpacked(seen[j]);
            }
            assert forall|p: (i32, i32)| #[trigger] r@.contains(p) <==> self@.contains_key(p) by {
                lemma_unpack_packed(p);
                if r@.contains(p) {
                    let i = choose|i: int| 0 <= i < r@.len() && r@[i] == p;
                    lemma_pack_unpacked(seen[i]);
                    assert(seen.to_set().contains(seen[i]));
                }
                if self@.contains_key(p) {
                    assert(seen.to_set().contains(packed(p)));
                    let i = choose|i: int| 0 <= i < seen.len() && seen[i] == packed(p);
                    assert(r@[i] == p);
                }
            }
        }
        r
    }
}

} // verus!
