//! Jobs waiting to run, in priority order.

use vstd::prelude::*;
use crate::scheduler::Job;

verus! {

/// Priority key: lower ticket level first (closer to a player), then
/// submission order. Fully ordered, so two runs with the same request
/// stream scan waiters in the same order.
#[derive(Clone, Copy, PartialEq, Eq, Structural, Debug)]
pub struct Key {
    pub level: i32,
    pub seq: u64,
}

impl Key {
    /// The priority order.
    pub open spec fn before(self, other: Key) -> bool {
        self.level < other.level || (self.level == other.level && self.seq < other.seq)
    }

    fn is_before(&self, other: &Key) -> (r: bool)
        ensures
            r == self.before(*other),
    {
        self.level < other.level || (self.level == other.level && self.seq < other.seq)
    }
}

/// Waiters in strictly ascending priority order.
pub open spec fn ordered(w: Seq<(Key, Job)>) -> bool {
    forall|i: int, j: int| 0 <= i < j < w.len() ==> (#[trigger] w[i]).0.before((#[trigger] w[j]).0)
}

/// Whether some waiter has the key.
pub open spec fn has_key(w: Seq<(Key, Job)>, key: Key) -> bool {
    exists|i: int| 0 <= i < w.len() && (#[trigger] w[i]).0 == key
}

#[derive(Debug)]
pub struct WaitQueue {
    waiting: Vec<(Key, Job)>,
}

impl View for WaitQueue {
    type V = Seq<(Key, Job)>;

    closed spec fn view(&self) -> Seq<(Key, Job)> {
        self.waiting@
    }
}

impl Default for WaitQueue {
    /// Nobody waits.
    fn default() -> (r: WaitQueue)
        ensures
            r@ == Seq::<(Key, Job)>::empty(),
    {
        WaitQueue { waiting: Vec::new() }
    }
}

impl WaitQueue {
    /// The first position whose key is not before `key`.
    fn position(&self, key: &Key) -> (r: usize)
        requires
            ordered(self@),
        ensures
            r <= self@.len(),
            forall|i: int| 0 <= i < r ==> (#[trigger] self@[i]).0.before(*key),
            forall|i: int| r <= i < self@.len() ==> !(#[trigger] self@[i]).0.before(*key),
            r == slot(self@, *key),
    {
        let mut i: usize = 0;
        while i < self.waiting.len() && self.waiting[i].0.is_before(key)
            invariant
                i <= self@.len(),
                self.waiting@ == self@,
                forall|j: int| 0 <= j < i ==> (#[trigger] self@[j]).0.before(*key),
            decreases self.waiting.len() - i,
        {
            i += 1;
        }
        proof {
            assert forall|j: int| i <= j < self@.len() implies !(#[trigger] self@[j]).0.before(*key) by {
                if i < j {
                    assert(self@[i as int].0.before(self@[j].0));
                }
            }
            lemma_slot(self@, *key, i as int);
        }
        i
    }

    /// Queue a job; a job queued under the same key is replaced.
    pub fn push(&mut self, key: Key, job: Job)
        requires
            ordered(old(self)@),
        ensures
            ordered(final(self)@),
            final(self)@ == inserted(old(self)@, key, job),
            forall|k: Key| #[trigger] has_key(final(self)@, k) <==> has_key(old(self)@, k) || k == key,
    {
        let p: usize = self.position(&key);
        let ghost before = self@;
        if p < self.waiting.len() && self.waiting[p].0 == key {
            self.waiting.set(p, (key, job));
        } else {
            self.waiting.insert(p, (key, job));
        }
        proof {
            assert(self@ == inserted(before, key, job));
            assert forall|k: Key| #[trigger] has_key(self@, k) <==> has_key(before, k) || k == key by {
                if has_key(before, k) {
                    let i = choose|i: int| 0 <= i < before.len() && (#[trigger] before[i]).0 == k;
                    let q = if i < p || before.len() == self@.len() { i } else { i + 1 };
                    assert(self@[q].0 == k);
                }
                if k == key {
                    assert(self@[p as int].0 == key);
                }
                if has_key(self@, k) && k != key {
                    let i = choose|i: int| 0 <= i < self@.len() && (#[trigger] self@[i]).0 == k;
                    let q = if i < p || before.len() == self@.len() { i } else { i - 1 };
                    assert(before[q].0 == k);
                }
            }
        }
    }

    /// Take the job queued under the key out of the queue.
    pub fn remove(&mut self, key: &Key) -> (r: Option<Job>)
        requires
            ordered(old(self)@),
        ensures
            ordered(final(self)@),
            r is Some <==> has_key(old(self)@, *key),
            r matches Some(job) ==> exists|p: int| {
                &&& 0 <= p < old(self)@.len()
                &&& #[trigger] old(self)@[p] == (*key, job)
                &&& final(self)@ == old(self)@.remove(p)
            },
            r is None ==> final(self)@ == old(self)@,
    {
        let p: usize = self.position(key);
        if p < self.waiting.len() && self.waiting[p].0 == *key {
            let ghost before = self@;
            let (_, job) = self.waiting.remove(p);
            proof {
                assert(before[p as int] == (*key, job));
                assert(has_key(before, *key));
            }
            Some(job)
        } else {
            proof {
                if has_key(self@, *key) {
                    let i = choose|i: int| 0 <= i < self@.len() && (#[trigger] self@[i]).0 == *key;
                    if p < i {
                        assert(self@[p as int].0.before(self@[i].0));
                    }
                }
            }
            None
        }
    }

    /// Waiters in priority order.
    pub fn iter(&self) -> (r: Vec<(Key, Job)>)
        ensures
            r@ == self@,
    {
        let mut r: Vec<(Key, Job)> = Vec::new();
        let mut i: usize = 0;
        while i < self.waiting.len()
            invariant
                i <= self.waiting.len(),
                r@ == self@.subrange(0, i as int),
            decreases self.waiting.len() - i,
        {
            r.push(self.waiting[i]);
            i += 1;
        }
        proof { assert(self@.subrange(0, i as int) =~= self@); }
        r
    }

    /// Jobs waiting.
    pub fn len(&self) -> (r: usize)
        ensures
            r == self@.len(),
    {
        self.waiting.len()
    }
}

/// How many waiters come before the key.
pub open spec fn slot(w: Seq<(Key, Job)>, key: Key) -> nat
    decreases w.len(),
{
    if w.len() == 0 || w.last().0.before(key) { w.len() } else { slot(w.drop_last(), key) }
}

/// The queue with a job placed where its key belongs, over the one that has
/// its key if there is one.
pub open spec fn inserted(w: Seq<(Key, Job)>, key: Key, job: Job) -> Seq<(Key, Job)> {
    let p = slot(w, key) as int;
    if p < w.len() && w[p].0 == key { w.update(p, (key, job)) } else { w.insert(p, (key, job)) }
}

proof fn lemma_slot(w: Seq<(Key, Job)>, key: Key, p: int)
    requires
        0 <= p <= w.len(),
        forall|i: int| 0 <= i < p ==> (#[trigger] w[i]).0.before(key),
        forall|i: int| p <= i < w.len() ==> !(#[trigger] w[i]).0.before(key),
    ensures
        slot(w, key) == p,
    decreases w.len(),
{
    if p < w.len() {
        assert(!w[w.len() - 1].0.before(key));
        assert forall|i: int| p <= i < w.drop_last().len() implies !(#[trigger] w.drop_last()[i]).0.before(key) by {
            assert(w.drop_last()[i] == w[i]);
        }
        assert forall|i: int| 0 <= i < p implies (#[trigger] w.drop_last()[i]).0.before(key) by {
            assert(w.drop_last()[i] == w[i]);
        }
        lemma_slot(w.drop_last(), key, p);
    } else if w.len() > 0 {
        assert(w[w.len() - 1].0.before(key));
    }
}

/// The slot of a key splits an ordered queue.
pub proof fn lemma_slot_splits(w: Seq<(Key, Job)>, key: Key)
    requires
        ordered(w),
    ensures
        slot(w, key) <= w.len(),
        forall|i: int| 0 <= i < slot(w, key) ==> (#[trigger] w[i]).0.before(key),
        forall|i: int| slot(w, key) <= i < w.len() ==> !(#[trigger] w[i]).0.before(key),
    decreases w.len(),
{
    if w.len() > 0 {
        if w.last().0.before(key) {
            assert forall|i: int| 0 <= i < w.len() implies (#[trigger] w[i]).0.before(key) by {
                if i < w.len() - 1 {
                    assert(w[i].0.before(w[w.len() - 1].0));
                }
            }
        } else {
            assert forall|i: int, j: int| 0 <= i < j < w.drop_last().len() implies (#[trigger] w.drop_last()[i]).0.before(
                (#[trigger] w.drop_last()[j]).0) by {
                assert(w[i].0.before(w[j].0));
            }
            lemma_slot_splits(w.drop_last(), key);
            assert forall|i: int| 0 <= i < slot(w, key) implies (#[trigger] w[i]).0.before(key) by {
                assert(w.drop_last()[i] == w[i]);
            }
            assert forall|i: int| slot(w, key) <= i < w.len() implies !(#[trigger] w[i]).0.before(key) by {
                if i < w.len() - 1 {
                    assert(w.drop_last()[i] == w[i]);
                }
            }
        }
    }
}

} // verus!
