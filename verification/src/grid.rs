//! Chunks with a job currently running.

use vstd::prelude::*;

verus! {

/// Write radius 1 on both sides: zones overlap iff distance <= 2.
pub const FEATURE_EXCLUSION: i32 = 2;

/// What runs at one moment: the chunks of the FEATURES jobs, and the
/// stage and chunk of every center-only job.
pub ghost struct Active {
    pub features: Set<(i32, i32)>,
    pub center: Set<(u8, i32, i32)>,
}

/// Absolute value.
pub open spec fn magnitude(d: int) -> int {
    if d < 0 { -d } else { d }
}

/// Whether two chunks lie within the exclusion distance on the chessboard.
pub open spec fn close(a: (i32, i32), b: (i32, i32)) -> bool {
    magnitude(a.0 - b.0) <= FEATURE_EXCLUSION && magnitude(a.1 - b.1) <= FEATURE_EXCLUSION
}

impl Active {
    /// No running FEATURES job is close to the chunk.
    pub open spec fn features_free(self, cx: i32, cz: i32) -> bool {
        forall|p: (i32, i32)| #[trigger] self.features.contains(p) ==> !close(p, (cx, cz))
    }

    /// The center-only stage does not run on the chunk.
    pub open spec fn center_free(self, stage: u8, cx: i32, cz: i32) -> bool {
        !self.center.contains((stage, cx, cz))
    }

    /// Jobs running, of any stage.
    pub open spec fn total(self) -> nat {
        self.features.len() + self.center.len()
    }

    /// Both sets are finite.
    pub open spec fn finite(self) -> bool {
        self.features.finite() && self.center.finite()
    }
}

/// Chunks with a job currently running, per stage class.
#[derive(Debug)]
pub struct Grid {
    /// FEATURES jobs: exclusion by chessboard distance.
    features: Vec<(i32, i32)>,
    /// Center-only stages: exclusion by exact chunk.
    center: Vec<(u8, i32, i32)>,
}

impl View for Grid {
    type V = Active;

    closed spec fn view(&self) -> Active {
        Active { features: self.features@.to_set(), center: self.center@.to_set() }
    }
}

impl Default for Grid {
    /// Nothing runs.
    fn default() -> (r: Grid)
        ensures
            r.wf(),
            r@.features == Set::<(i32, i32)>::empty(),
            r@.center == Set::<(u8, i32, i32)>::empty(),
    {
        let r = Grid { features: Vec::new(), center: Vec::new() };
        proof {
            assert(r@.features =~= Set::<(i32, i32)>::empty());
            assert(r@.center =~= Set::<(u8, i32, i32)>::empty());
        }
        r
    }
}

impl Grid {
    /// No chunk is listed twice.
    pub closed spec fn wf(&self) -> bool {
        self.features@.no_duplicates() && self.center@.no_duplicates()
    }

    /// What a well-formed grid holds is finite.
    pub proof fn lemma_finite(&self)
        requires
            self.wf(),
        ensures
            self@.finite(),
    {
        self.features@.unique_seq_to_set();
        self.center@.unique_seq_to_set();
    }

    /// Whether a FEATURES job may run on the chunk as far as running
    /// FEATURES jobs are concerned.
    pub fn features_free(&self, cx: i32, cz: i32) -> (r: bool)
        ensures
            r == self@.features_free(cx, cz),
    {
        let mut i: usize = 0;
        while i < self.features.len()
            invariant
                i <= self.features.len(),
                forall|j: int| 0 <= j < i ==> !close(#[trigger] self.features@[j], (cx, cz)),
            decreases self.features.len() - i,
        {
            let (ax, az) = self.features[i];
            let dx: i64 = ax as i64 - cx as i64;
            let dz: i64 = az as i64 - cz as i64;
            let exclusion: i64 = FEATURE_EXCLUSION as i64;
            if -exclusion <= dx && dx <= exclusion && -exclusion <= dz && dz <= exclusion {
                proof {
                    assert(close(self.features@[i as int], (cx, cz)));
                    assert(self@.features.contains(self.features@[i as int]));
                }
                return false;
            }
            i += 1;
        }
        proof {
            assert forall|p: (i32, i32)| #[trigger] self@.features.contains(p) implies !close(p, (cx, cz)) by {
                let j = choose|j: int| 0 <= j < self.features@.len() && self.features@[j] == p;
                assert(!close(self.features@[j], (cx, cz)));
            }
        }
        true
    }

    fn find_features(&self, cx: i32, cz: i32) -> (r: Option<usize>)
        ensures
            r matches Some(i) ==> i < self.features@.len() && self.features@[i as int] == (cx, cz),
            r is None ==> !self@.features.contains((cx, cz)),
    {
        let mut i: usize = 0;
        while i < self.features.len()
            invariant
                i <= self.features.len(),
                forall|j: int| 0 <= j < i ==> #[trigger] self.features@[j] != (cx, cz),
            decreases self.features.len() - i,
        {
            let (ax, az) = self.features[i];
            if ax == cx && az == cz {
                return Some(i);
            }
            i += 1;
        }
        None
    }

    fn find_center(&self, stage: u8, cx: i32, cz: i32) -> (r: Option<usize>)
        ensures
            r matches Some(i) ==> i < self.center@.len() && self.center@[i as int] == (stage, cx, cz),
            r is None ==> !self@.center.contains((stage, cx, cz)),
    {
        let mut i: usize = 0;
        while i < self.center.len()
            invariant
                i <= self.center.len(),
                forall|j: int| 0 <= j < i ==> #[trigger] self.center@[j] != (stage, cx, cz),
            decreases self.center.len() - i,
        {
            let (s, ax, az) = self.center[i];
            if s == stage && ax == cx && az == cz {
                return Some(i);
            }
            i += 1;
        }
        None
    }

    /// Whether the center-only stage is not running on the chunk.
    pub fn center_free(&self, stage: u8, cx: i32, cz: i32) -> (r: bool)
        ensures
            r == self@.center_free(stage, cx, cz),
    {
        match self.find_center(stage, cx, cz) {
            Some(i) => {
                proof { assert(self@.center.contains(self.center@[i as int])); }
                false
            },
            None => true,
        }
    }

    /// Record a FEATURES job; false when its chunk already had one.
    pub fn insert_features(&mut self, cx: i32, cz: i32) -> (r: bool)
        requires
            old(self).wf(),
        ensures
            final(self).wf(),
            final(self)@.features == old(self)@.features.insert((cx, cz)),
            final(self)@.center == old(self)@.center,
            r == !old(self)@.features.contains((cx, cz)),
    {
        match self.find_features(cx, cz) {
            Some(i) => {
                proof {
                    assert(self@.features.contains(self.features@[i as int]));
                    assert(self@.features =~= self@.features.insert((cx, cz)));
                }
                false
            },
            None => {
                let ghost before = self.features@;
                self.features.push((cx, cz));
                proof {
                    lemma_push(before, (cx, cz));
                }
                true
            },
        }
    }

    /// Forget a FEATURES job; false when its chunk had none.
    pub fn remove_features(&mut self, cx: i32, cz: i32) -> (r: bool)
        requires
            old(self).wf(),
        ensures
            final(self).wf(),
            final(self)@.features == old(self)@.features.remove((cx, cz)),
            final(self)@.center == old(self)@.center,
            r == old(self)@.features.contains((cx, cz)),
    {
        match self.find_features(cx, cz) {
            Some(i) => {
                let ghost before = self.features@;
                proof { assert(self@.features.contains(self.features@[i as int])); }
                self.features.remove(i);
                proof {
                    lemma_remove(before, i as int);
                }
                true
            },
            None => {
                proof { assert(self@.features =~= self@.features.remove((cx, cz))); }
                false
            },
        }
    }

    /// Record a center-only job; false when it was already running.
    pub fn insert_center(&mut self, stage: u8, cx: i32, cz: i32) -> (r: bool)
        requires
            old(self).wf(),
        ensures
            final(self).wf(),
            final(self)@.center == old(self)@.center.insert((stage, cx, cz)),
            final(self)@.features == old(self)@.features,
            r == !old(self)@.center.contains((stage, cx, cz)),
    {
        match self.find_center(stage, cx, cz) {
            Some(i) => {
                proof {
                    assert(self@.center.contains(self.center@[i as int]));
                    assert(self@.center =~= self@.center.insert((stage, cx, cz)));
                }
                false
            },
            None => {
                let ghost before = self.center@;
                self.center.push((stage, cx, cz));
                proof {
                    lemma_push(before, (stage, cx, cz));
                }
                true
            },
        }
    }

    /// Forget a center-only job; false when it was not running.
    pub fn remove_center(&mut self, stage: u8, cx: i32, cz: i32) -> (r: bool)
        requires
            old(self).wf(),
        ensures
            final(self).wf(),
            final(self)@.center == old(self)@.center.remove((stage, cx, cz)),
            final(self)@.features == old(self)@.features,
            r == old(self)@.center.contains((stage, cx, cz)),
    {
        match self.find_center(stage, cx, cz) {
            Some(i) => {
                let ghost before = self.center@;
                proof { assert(self@.center.contains(self.center@[i as int])); }
                self.center.remove(i);
                proof {
                    lemma_remove(before, i as int);
                }
                true
            },
            None => {
                proof { assert(self@.center =~= self@.center.remove((stage, cx, cz))); }
                false
            },
        }
    }

    /// FEATURES jobs running.
    pub fn active_features(&self) -> (r: usize)
        requires
            self.wf(),
        ensures
            r == self@.features.len(),
    {
        proof { self.features@.unique_seq_to_set(); }
        self.features.len()
    }

    /// Jobs of any stage running.
    pub fn active_total(&self) -> (r: usize)
        requires
            self.wf(),
            self@.total() <= usize::MAX,
        ensures
            r == self@.total(),
    {
        proof {
            self.features@.unique_seq_to_set();
            self.center@.unique_seq_to_set();
        }
        self.features.len() + self.center.len()
    }
}

/// Appending a value that is not in a duplicate-free sequence.
proof fn lemma_push<A>(s: Seq<A>, a: A)
    requires
        s.no_duplicates(),
        !s.to_set().contains(a),
    ensures
        s.push(a).no_duplicates(),
        s.push(a).to_set() == s.to_set().insert(a),
{
    assert forall|x: A| s.push(a).to_set().contains(x) <==> #[trigger] s.to_set().insert(a).contains(x) by {
        if s.to_set().contains(x) {
            let i = choose|i: int| 0 <= i < s.len() && s[i] == x;
            assert(s.push(a)[i] == x);
        }
        assert(s.push(a)[s.len() as int] == a);
    }
    assert(s.push(a).to_set() =~= s.to_set().insert(a));
    assert forall|i: int, j: int| 0 <= i < s.push(a).len() && 0 <= j < s.push(a).len() && i != j
        implies s.push(a)[i] != s.push(a)[j] by {
        if i < s.len() { assert(s.to_set().contains(s[i])); }
        if j < s.len() { assert(s.to_set().contains(s[j])); }
    }
}

/// Dropping one position of a duplicate-free sequence.
proof fn lemma_remove<A>(s: Seq<A>, i: int)
    requires
        s.no_duplicates(),
        0 <= i < s.len(),
    ensures
        s.remove(i).no_duplicates(),
        s.remove(i).to_set() == s.to_set().remove(s[i]),
{
    assert forall|x: A| s.remove(i).to_set().contains(x) <==> #[trigger] s.to_set().remove(s[i]).contains(x) by {
        if s.to_set().contains(x) && x != s[i] {
            let j = choose|j: int| 0 <= j < s.len() && s[j] == x;
            let k = if j < i { j } else { j - 1 };
            assert(s.remove(i)[k] == x);
        }
        if s.remove(i).contains(x) {
            let j = choose|j: int| 0 <= j < s.remove(i).len() && s.remove(i)[j] == x;
            let k = if j < i { j } else { j + 1 };
            assert(s[k] == x);
        }
    }
    assert(s.remove(i).to_set() =~= s.to_set().remove(s[i]));
}

} // verus!
