//! Admission of chunk generation stages.
//!
//! No two FEATURES jobs with overlapping write zones run at once, a
//! center-only stage runs once per chunk, and both limits hold. The
//! scheduler only decides; whoever runs the jobs holds it behind a lock.

use std::collections::HashSet;
use vstd::prelude::*;
use crate::grid::{Active, Grid, close};
use crate::queue::{Key, WaitQueue, has_key, inserted, lemma_slot_splits, ordered, slot};

verus! {

/// The four stages that would otherwise share one serial worldgen thread.
/// Their order is part of the calling convention; never reorder.
#[derive(Clone, Copy, PartialEq, Eq, Structural, Hash, Debug)]
pub enum Stage {
    StructureStarts,
    StructureReferences,
    Features,
    Spawn,
}

impl Stage {
    /// The stage's number.
    pub open spec fn code(self) -> u8 {
        match self {
            Stage::StructureStarts => 0,
            Stage::StructureReferences => 1,
            Stage::Features => 2,
            Stage::Spawn => 3,
        }
    }

    /// The stage with this number, if there is one.
    pub fn from_u8(v: u8) -> (r: Option<Stage>)
        ensures
            r is Some <==> v <= 3,
            r matches Some(s) ==> s.code() == v,
    {
        match v {
            0 => Some(Stage::StructureStarts),
            1 => Some(Stage::StructureReferences),
            2 => Some(Stage::Features),
            3 => Some(Stage::Spawn),
            _ => None,
        }
    }

    fn number(self) -> (r: u8)
        ensures
            r == self.code(),
    {
        match self {
            Stage::StructureStarts => 0,
            Stage::StructureReferences => 1,
            Stage::Features => 2,
            Stage::Spawn => 3,
        }
    }
}

#[derive(Clone, Copy, PartialEq, Eq, Structural, Hash, Debug)]
pub struct Job {
    pub stage: Stage,
    pub cx: i32,
    pub cz: i32,
}

#[derive(Clone, Copy, PartialEq, Eq, Structural, Debug)]
pub struct Limits {
    /// Max FEATURES jobs running at once.
    pub max_features: usize,
    /// Max jobs of any stage running at once (memory bound: each holds a
    /// 3x3 of chunks).
    pub max_inflight: usize,
}

impl Limits {
    /// One core is left to the game, at most 16 are taken; twice as many
    /// jobs may be in flight.
    pub fn for_cores(cores: usize) -> (r: Limits)
        ensures
            r.max_features == (if cores <= 2 { 1 } else if cores >= 17 { 16 } else { cores - 1 }),
            r.max_inflight == 2 * r.max_features,
    {
        let features: usize = if cores <= 2 { 1 } else if cores >= 17 { 16 } else { cores - 1 };
        Limits { max_features: features, max_inflight: features * 2 }
    }
}

/// Ticket of a running job; pass it to `release`.
#[derive(Clone, Copy, PartialEq, Eq, Structural, Debug)]
pub struct Ticket {
    job: Job,
    seq: u64,
}

impl Ticket {
    /// The job the ticket was given for.
    pub closed spec fn job_of(self) -> Job {
        self.job
    }

    /// The number under which the job was registered.
    pub closed spec fn seq_of(self) -> u64 {
        self.seq
    }

    pub fn seq(&self) -> (r: u64)
        ensures
            r == self.seq_of(),
    {
        self.seq
    }

    /// Rebuild a ticket from parts that were kept elsewhere.
    pub fn from_parts(job: Job, seq: u64) -> (r: Ticket)
        ensures
            r.job_of() == job,
            r.seq_of() == seq,
    {
        Ticket { job, seq }
    }
}

/// Result of registering a job.
#[derive(Clone, Copy, PartialEq, Eq, Structural, Debug)]
pub struct Submitted {
    pub seq: u64,
    pub granted: bool,
}

impl Active {
    /// The running jobs together with one more.
    pub open spec fn with(self, job: Job) -> Active {
        if job.stage == Stage::Features {
            Active { features: self.features.insert((job.cx, job.cz)), ..self }
        } else {
            Active { center: self.center.insert((job.stage.code(), job.cx, job.cz)), ..self }
        }
    }

    /// The running jobs without one.
    pub open spec fn without(self, job: Job) -> Active {
        if job.stage == Stage::Features {
            Active { features: self.features.remove((job.cx, job.cz)), ..self }
        } else {
            Active { center: self.center.remove((job.stage.code(), job.cx, job.cz)), ..self }
        }
    }

    /// Whether the job runs.
    pub open spec fn runs(self, job: Job) -> bool {
        if job.stage == Stage::Features {
            self.features.contains((job.cx, job.cz))
        } else {
            self.center.contains((job.stage.code(), job.cx, job.cz))
        }
    }

    /// Whether the job may start beside the running ones.
    pub open spec fn admits(self, limits: Limits, job: Job) -> bool {
        &&& self.total() < limits.max_inflight
        &&& if job.stage == Stage::Features {
            self.features.len() < limits.max_features && self.features_free(job.cx, job.cz)
        } else {
            self.center_free(job.stage.code(), job.cx, job.cz)
        }
    }

    /// No two FEATURES jobs overlap, and both limits hold.
    pub open spec fn safe(self, limits: Limits) -> bool {
        &&& self.finite()
        &&& self.features.len() <= limits.max_features
        &&& self.total() <= limits.max_inflight
        &&& forall|a: (i32, i32), b: (i32, i32)| #[trigger]
            self.features.contains(a) && #[trigger] self.features.contains(b) && a != b ==> !close(a, b)
    }
}

/// One greedy scan of the waiters: what runs, who still waits, and who was
/// admitted, in order.
pub ghost struct Pass {
    pub active: Active,
    pub left: Seq<(Key, Job)>,
    pub admitted: Seq<(Key, Job)>,
}

/// The scan of the first `n` waiters: each is admitted if it may start
/// beside the running jobs and the ones admitted before it.
pub open spec fn scan(limits: Limits, active: Active, w: Seq<(Key, Job)>, n: nat) -> Pass
    decreases n,
{
    if n == 0 {
        Pass { active, left: Seq::empty(), admitted: Seq::empty() }
    } else {
        let p = scan(limits, active, w, (n - 1) as nat);
        let (key, job) = w[n - 1];
        if p.active.admits(limits, job) {
            Pass { active: p.active.with(job), left: p.left, admitted: p.admitted.push((key, job)) }
        } else {
            Pass { left: p.left.push((key, job)), ..p }
        }
    }
}

/// The numbers of the admitted jobs whose callers do not block.
pub open spec fn handed_back(admitted: Seq<(Key, Job)>, blocking: Set<u64>) -> Seq<u64>
    decreases admitted.len(),
{
    if admitted.len() == 0 {
        Seq::empty()
    } else {
        let rest = handed_back(admitted.drop_last(), blocking);
        if blocking.contains(admitted.last().0.seq) { rest } else { rest.push(admitted.last().0.seq) }
    }
}

/// The numbers of the admitted jobs.
pub open spec fn numbers(admitted: Seq<(Key, Job)>) -> Seq<u64> {
    admitted.map_values(|kj: (Key, Job)| kj.0.seq)
}

/// Whether some waiter has the number.
pub open spec fn waits(w: Seq<(Key, Job)>, seq: u64) -> bool {
    exists|i: int| 0 <= i < w.len() && (#[trigger] w[i]).0.seq == seq
}

/// What the scheduler holds.
pub ghost struct Admission {
    pub limits: Limits,
    pub active: Active,
    pub waiting: Seq<(Key, Job)>,
    /// Numbers of waiting jobs whose callers block.
    pub blocking: Set<u64>,
    /// Numbers of admitted jobs whose callers have not taken notice yet.
    pub granted: Set<u64>,
    /// Number of the next job.
    pub next_seq: u64,
    /// Numbers in the order of admission.
    pub log: Seq<u64>,
}

impl Admission {
    /// The waiters are ordered, their numbers are distinct and given out,
    /// and only waiters block.
    pub open spec fn queued(self) -> bool {
        &&& ordered(self.waiting)
        &&& forall|i: int| 0 <= i < self.waiting.len() ==> (#[trigger] self.waiting[i]).0.seq < self.next_seq
        &&& forall|i: int, j: int|
            0 <= i < j < self.waiting.len() ==> (#[trigger] self.waiting[i]).0.seq != (#[trigger] self.waiting[j]).0.seq
        &&& forall|s: u64| #[trigger] self.blocking.contains(s) ==> waits(self.waiting, s)
    }

    /// The log lists each admission once, and nobody in it still waits.
    pub open spec fn logged(self) -> bool {
        &&& self.log.no_duplicates()
        &&& forall|i: int| 0 <= i < self.log.len() ==> #[trigger] self.log[i] < self.next_seq && !waits(
            self.waiting, self.log[i])
        &&& forall|s: u64| #[trigger] self.granted.contains(s) ==> self.log.contains(s)
    }

    /// No waiter may start: everything that could run does.
    pub open spec fn settled(self) -> bool {
        forall|i: int| 0 <= i < self.waiting.len() ==> !self.active.admits(self.limits, (#[trigger] self.waiting[i]).1)
    }

    /// What holds between any two calls.
    pub open spec fn valid(self) -> bool {
        &&& self.limits.max_features >= 1
        &&& self.limits.max_inflight >= 1
        &&& self.active.safe(self.limits)
        &&& self.queued()
        &&& self.logged()
        &&& self.settled()
    }

    /// The state with the next job queued.
    pub open spec fn parked(self, job: Job, level: i32, blocks: bool) -> Admission {
        Admission {
            waiting: inserted(self.waiting, Key { level, seq: self.next_seq }, job),
            blocking: if blocks { self.blocking.insert(self.next_seq) } else { self.blocking },
            next_seq: (self.next_seq + 1) as u64,
            ..self
        }
    }

    /// The state with the next job running.
    pub open spec fn started(self, job: Job) -> Admission {
        Admission {
            active: self.active.with(job),
            next_seq: (self.next_seq + 1) as u64,
            log: self.log.push(self.next_seq),
            ..self
        }
    }

    /// The state with a job's zone free and nobody admitted for it yet.
    pub open spec fn freed(self, job: Job) -> Admission {
        Admission { active: self.active.without(job), ..self }
    }

    /// The state after a greedy scan of all waiters.
    pub open spec fn passed(self) -> Admission {
        let p = scan(self.limits, self.active, self.waiting, self.waiting.len());
        Admission {
            active: p.active,
            waiting: p.left,
            blocking: self.blocking.filter(|s: u64| !numbers(p.admitted).contains(s)),
            granted: self.granted.union(self.blocking.filter(|s: u64| numbers(p.admitted).contains(s))),
            log: self.log + numbers(p.admitted),
            ..self
        }
    }
}

/// Fewer running jobs admit whatever more running jobs admit.
proof fn lemma_admits_antitone(limits: Limits, a: Active, b: Active, job: Job)
    requires
        a.features.subset_of(b.features),
        a.center.subset_of(b.center),
        b.finite(),
        b.admits(limits, job),
    ensures
        a.admits(limits, job),
{
    vstd::set_lib::lemma_len_subset(a.features, b.features);
    vstd::set_lib::lemma_len_subset(a.center, b.center);
}

/// Starting a job that is admitted keeps the running jobs safe.
proof fn lemma_with_safe(limits: Limits, a: Active, job: Job)
    requires
        a.safe(limits),
        a.admits(limits, job),
    ensures
        a.with(job).safe(limits),
        !a.runs(job),
{
    let p = (job.cx, job.cz);
    let b = a.with(job);
    if job.stage == Stage::Features {
        if a.features.contains(p) {
            assert(close(p, p));
        }
        assert forall|x: (i32, i32), y: (i32, i32)| #[trigger]
            b.features.contains(x) && #[trigger] b.features.contains(y) && x != y implies !close(x, y) by {
            if x == p {
                assert(a.features.contains(y));
                assert(!close(y, p));
            } else if y == p {
                assert(a.features.contains(x));
                assert(!close(x, p));
            } else {
                assert(a.features.contains(x) && a.features.contains(y));
            }
        }
    }
}

/// A scan only adds running jobs, keeps them safe, and leaves nobody
/// waiting who may start.
proof fn lemma_scan(limits: Limits, active: Active, w: Seq<(Key, Job)>, n: nat)
    requires
        active.safe(limits),
        n <= w.len(),
    ensures
        ({
            let p = scan(limits, active, w, n);
            &&& p.active.safe(limits)
            &&& active.features.subset_of(p.active.features)
            &&& active.center.subset_of(p.active.center)
            &&& forall|i: int| 0 <= i < p.left.len() ==> !p.active.admits(limits, (#[trigger] p.left[i]).1)
        }),
    decreases n,
{
    if n > 0 {
        lemma_scan(limits, active, w, (n - 1) as nat);
        let q = scan(limits, active, w, (n - 1) as nat);
        let p = scan(limits, active, w, n);
        let job = w[n - 1].1;
        if q.active.admits(limits, job) {
            lemma_with_safe(limits, q.active, job);
            assert forall|i: int| 0 <= i < p.left.len() implies !p.active.admits(limits, (#[trigger] p.left[i]).1) by {
                if p.active.admits(limits, p.left[i].1) {
                    lemma_admits_antitone(limits, q.active, p.active, p.left[i].1);
                }
            }
        } else {
            assert forall|i: int| 0 <= i < p.left.len() implies !p.active.admits(limits, (#[trigger] p.left[i]).1) by {
                if i < q.left.len() {
                    assert(p.left[i] == q.left[i]);
                }
            }
        }
    }
}

/// A scan splits the waiters into two parts, both in their old order.
proof fn lemma_scan_splits(limits: Limits, active: Active, w: Seq<(Key, Job)>, n: nat)
    requires
        n <= w.len(),
    ensures
        ({
            let p = scan(limits, active, w, n);
            &&& p.left.len() + p.admitted.len() == n
            &&& forall|i: int| 0 <= i < p.left.len() ==> w.take(n as int).contains(#[trigger] p.left[i])
            &&& forall|i: int| 0 <= i < p.admitted.len() ==> w.take(n as int).contains(#[trigger] p.admitted[i])
            &&& forall|i: int| 0 <= i < n ==> p.left.contains(#[trigger] w[i]) || p.admitted.contains(w[i])
            &&& ordered(w) ==> ordered(p.left) && ordered(p.admitted)
            &&& ordered(w) ==> forall|i: int, j: int|
                0 <= i < p.left.len() && 0 <= j < p.admitted.len() ==> #[trigger] p.left[i] != #[trigger] p.admitted[j]
        }),
    decreases n,
{
    let p = scan(limits, active, w, n);
    if n > 0 {
        lemma_scan_splits(limits, active, w, (n - 1) as nat);
        let q = scan(limits, active, w, (n - 1) as nat);
        let x = w[n - 1];
        let t = w.take(n as int);
        let u = w.take(n - 1);
        assert(t[n - 1] == x);
        assert forall|y: (Key, Job)| u.contains(y) implies t.contains(y) by {
            let k = choose|k: int| 0 <= k < u.len() && u[k] == y;
            assert(t[k] == y);
        }
        assert forall|y: (Key, Job)| u.contains(y) && ordered(w) implies y.0.before(x.0) by {
            let k = choose|k: int| 0 <= k < u.len() && u[k] == y;
            assert(w[k].0.before(w[n - 1].0));
        }
        if q.active.admits(limits, x.1) {
            assert(p.admitted == q.admitted.push(x));
            assert(p.admitted[q.admitted.len() as int] == x);
            assert forall|i: int| 0 <= i < p.admitted.len() implies t.contains(#[trigger] p.admitted[i]) by {
                if i < q.admitted.len() {
                    assert(p.admitted[i] == q.admitted[i]);
                }
            }
            assert forall|i: int| 0 <= i < n implies p.left.contains(#[trigger] w[i]) || p.admitted.contains(w[i]) by {
                if i < n - 1 && q.admitted.contains(w[i]) {
                    let k = choose|k: int| 0 <= k < q.admitted.len() && q.admitted[k] == w[i];
                    assert(p.admitted[k] == w[i]);
                }
            }
        } else {
            assert(p.left == q.left.push(x));
            assert(p.left[q.left.len() as int] == x);
            assert forall|i: int| 0 <= i < p.left.len() implies t.contains(#[trigger] p.left[i]) by {
                if i < q.left.len() {
                    assert(p.left[i] == q.left[i]);
                }
            }
            assert forall|i: int| 0 <= i < n implies p.left.contains(#[trigger] w[i]) || p.admitted.contains(w[i]) by {
                if i < n - 1 && q.left.contains(w[i]) {
                    let k = choose|k: int| 0 <= k < q.left.len() && q.left[k] == w[i];
                    assert(p.left[k] == w[i]);
                }
            }
        }
    }
}

/// A scan of settled waiters with one newcomer among them admits the
/// newcomer or nobody.
proof fn lemma_scan_newcomer(limits: Limits, active: Active, w: Seq<(Key, Job)>, p: int, x: (Key, Job), n: nat)
    requires
        active.safe(limits),
        0 <= p <= w.len(),
        n <= w.len() + 1,
        forall|i: int| 0 <= i < w.len() ==> !active.admits(limits, (#[trigger] w[i]).1),
    ensures
        scan(limits, active, w.insert(p, x), n) == (if n > p && active.admits(limits, x.1) {
            Pass { active: active.with(x.1), left: w.take(n - 1), admitted: seq![x] }
        } else {
            Pass { active, left: w.insert(p, x).take(n as int), admitted: Seq::empty() }
        }),
    decreases n,
{
    let v = w.insert(p, x);
    let s = scan(limits, active, v, n);
    if n == 0 {
        assert(v.take(0) =~= Seq::empty());
    } else {
        lemma_scan_newcomer(limits, active, w, p, x, (n - 1) as nat);
        let q = scan(limits, active, v, (n - 1) as nat);
        let y = v[n - 1];
        if n - 1 == p {
            assert(y == x);
            if active.admits(limits, x.1) {
                assert(s.left =~= w.take(n - 1));
                assert(s.admitted =~= seq![x]);
            } else {
                assert(s.left =~= v.take(n as int));
            }
        } else {
            let k = if n - 1 < p { n - 1 } else { n - 2 };
            assert(y == w[k]);
            if n - 1 > p && active.admits(limits, x.1) {
                lemma_with_safe(limits, active, x.1);
                if q.active.admits(limits, y.1) {
                    lemma_admits_antitone(limits, active, q.active, y.1);
                }
                assert(s.left =~= w.take(n - 1));
            } else {
                assert(s.left =~= v.take(n as int));
            }
        }
    }
}

/// A scan of consistent waiters leaves a valid state, whatever was running.
proof fn lemma_passed_valid(s: Admission)
    requires
        s.limits.max_features >= 1,
        s.limits.max_inflight >= 1,
        s.active.safe(s.limits),
        s.queued(),
        s.logged(),
    ensures
        s.passed().valid(),
{
    let w = s.waiting;
    let n = w.len();
    lemma_scan(s.limits, s.active, w, n);
    lemma_scan_splits(s.limits, s.active, w, n);
    let p = scan(s.limits, s.active, w, n);
    let t = s.passed();
    assert(w.take(n as int) =~= w);
    assert forall|i: int| 0 <= i < p.left.len() implies (#[trigger] p.left[i]).0.seq < s.next_seq by {
        let k = choose|k: int| 0 <= k < w.len() && w[k] == p.left[i];
        assert(w[k].0.seq < s.next_seq);
    }
    assert forall|i: int, j: int| 0 <= i < j < p.left.len() implies (#[trigger] p.left[i]).0.seq != (
    #[trigger] p.left[j]).0.seq by {
        assert(p.left[i].0.before(p.left[j].0));
        lemma_same_number(s, p.left[i], p.left[j]);
    }
    assert forall|i: int, j: int| 0 <= i < j < p.admitted.len() implies (#[trigger] p.admitted[i]).0.seq != (
    #[trigger] p.admitted[j]).0.seq by {
        assert(p.admitted[i].0.before(p.admitted[j].0));
        lemma_same_number(s, p.admitted[i], p.admitted[j]);
    }
    let nums = numbers(p.admitted);
    assert forall|x: u64| #[trigger] t.blocking.contains(x) implies waits(p.left, x) by {
        let k = choose|k: int| 0 <= k < w.len() && (#[trigger] w[k]).0.seq == x;
        if p.admitted.contains(w[k]) {
            let j = choose|j: int| 0 <= j < p.admitted.len() && p.admitted[j] == w[k];
            assert(nums[j] == x);
        } else {
            assert(p.left.contains(w[k]));
            let j = choose|j: int| 0 <= j < p.left.len() && p.left[j] == w[k];
            assert(p.left[j].0.seq == x);
        }
    }
    assert forall|i: int| 0 <= i < t.log.len() implies #[trigger] t.log[i] < s.next_seq && !waits(p.left, t.log[i]) by {
        if i < s.log.len() {
            assert(t.log[i] == s.log[i]);
            if waits(p.left, s.log[i]) {
                let j = choose|j: int| 0 <= j < p.left.len() && (#[trigger] p.left[j]).0.seq == s.log[i];
                let k = choose|k: int| 0 <= k < w.len() && w[k] == p.left[j];
                assert(w[k].0.seq == s.log[i]);
                assert(waits(w, s.log[i]));
            }
        } else {
            let a = p.admitted[i - s.log.len()];
            assert(t.log[i] == a.0.seq);
            let k = choose|k: int| 0 <= k < w.len() && w[k] == a;
            assert(w[k].0.seq < s.next_seq);
            if waits(p.left, a.0.seq) {
                let j = choose|j: int| 0 <= j < p.left.len() && (#[trigger] p.left[j]).0.seq == a.0.seq;
                lemma_same_number(s, p.left[j], a);
            }
        }
    }
    assert forall|i: int, j: int| 0 <= i < t.log.len() && 0 <= j < t.log.len() && i != j implies t.log[i] != t.log[j] by {
        let m = s.log.len();
        if i < m && j >= m {
            lemma_logged_differs(s, i, p.admitted[j - m]);
        } else if i >= m && j < m {
            lemma_logged_differs(s, j, p.admitted[i - m]);
        } else if i >= m && j >= m {
            if i < j {
                assert(p.admitted[i - m].0.seq != p.admitted[j - m].0.seq);
            } else {
                assert(p.admitted[j - m].0.seq != p.admitted[i - m].0.seq);
            }
        } else {
            assert(s.log[i] != s.log[j]);
        }
    }
    assert forall|x: u64| #[trigger] t.granted.contains(x) implies t.log.contains(x) by {
        if s.granted.contains(x) {
            assert(s.log.contains(x));
            let i = choose|i: int| 0 <= i < s.log.len() && s.log[i] == x;
            assert(t.log[i] == x);
        } else {
            let j = choose|j: int| 0 <= j < nums.len() && nums[j] == x;
            assert(t.log[s.log.len() + j] == x);
        }
    }
}

/// Two waiters with one number are one.
proof fn lemma_same_number(s: Admission, a: (Key, Job), b: (Key, Job))
    requires
        s.queued(),
        s.waiting.contains(a),
        s.waiting.contains(b),
    ensures
        a.0.seq == b.0.seq ==> a == b,
{
    let w = s.waiting;
    let i = choose|i: int| 0 <= i < w.len() && w[i] == a;
    let j = choose|j: int| 0 <= j < w.len() && w[j] == b;
    if i < j {
        assert(w[i].0.seq != w[j].0.seq);
    } else if j < i {
        assert(w[j].0.seq != w[i].0.seq);
    }
}

proof fn lemma_logged_differs(s: Admission, i: int, a: (Key, Job))
    requires
        s.logged(),
        0 <= i < s.log.len(),
        s.waiting.contains(a),
    ensures
        s.log[i] != a.0.seq,
{
    let k = choose|k: int| 0 <= k < s.waiting.len() && s.waiting[k] == a;
    assert(s.waiting[k].0.seq == a.0.seq);
    assert(waits(s.waiting, a.0.seq));
    assert(!waits(s.waiting, s.log[i]));
}

/// Queueing the next job keeps the queue and the log consistent.
proof fn lemma_parked(s: Admission, job: Job, level: i32, blocks: bool)
    requires
        s.queued(),
        s.logged(),
        s.next_seq < u64::MAX,
    ensures
        s.parked(job, level, blocks).queued(),
        s.parked(job, level, blocks).logged(),
        s.parked(job, level, blocks).waiting == s.waiting.insert(
            slot(s.waiting, Key { level, seq: s.next_seq }) as int,
            (Key { level, seq: s.next_seq }, job),
        ),
        slot(s.waiting, Key { level, seq: s.next_seq }) <= s.waiting.len(),
{
    let w = s.waiting;
    let key = Key { level, seq: s.next_seq };
    let x = (key, job);
    let p = slot(w, key) as int;
    let t = s.parked(job, level, blocks);
    lemma_slot_splits(w, key);
    if p < w.len() {
        assert(w[p].0.seq < s.next_seq);
    }
    let v = w.insert(p, x);
    assert(t.waiting == v);
    assert(v[p] == x);
    assert forall|i: int| 0 <= i < v.len() && i != p implies (#[trigger] v[i]) == w[if i < p { i } else { i - 1 }] by {}
    assert forall|i: int, j: int| 0 <= i < j < v.len() implies (#[trigger] v[i]).0.before((#[trigger] v[j]).0) by {
        if i == p {
            assert(!w[j - 1].0.before(key));
            assert(w[j - 1].0.seq < s.next_seq);
        } else if j == p {
            assert(w[i].0.before(key));
        } else {
            let a = if i < p { i } else { i - 1 };
            let b = if j < p { j } else { j - 1 };
            assert(w[a].0.before(w[b].0));
        }
    }
    assert forall|i: int| 0 <= i < v.len() implies (#[trigger] v[i]).0.seq < t.next_seq by {
        if i != p {
            assert(w[if i < p { i } else { i - 1 }].0.seq < s.next_seq);
        }
    }
    assert forall|i: int, j: int| 0 <= i < j < v.len() implies (#[trigger] v[i]).0.seq != (#[trigger] v[j]).0.seq by {
        let a = if i < p { i } else { i - 1 };
        let b = if j < p { j } else { j - 1 };
        if i == p {
            assert(w[b].0.seq < s.next_seq);
        } else if j == p {
            assert(w[a].0.seq < s.next_seq);
        } else {
            assert(w[a].0.seq != w[b].0.seq);
        }
    }
    assert forall|n: u64| #[trigger] t.blocking.contains(n) implies waits(v, n) by {
        if n == s.next_seq {
            assert(v[p].0.seq == n);
        } else {
            assert(s.blocking.contains(n));
            let k = choose|k: int| 0 <= k < w.len() && (#[trigger] w[k]).0.seq == n;
            assert(v[if k < p { k } else { k + 1 }].0.seq == n);
        }
    }
    assert forall|i: int| 0 <= i < t.log.len() implies #[trigger] t.log[i] < t.next_seq && !waits(v, t.log[i]) by {
        if waits(v, t.log[i]) {
            let k = choose|k: int| 0 <= k < v.len() && (#[trigger] v[k]).0.seq == t.log[i];
            if k != p {
                assert(w[if k < p { k } else { k - 1 }].0.seq == t.log[i]);
                assert(waits(w, s.log[i]));
            }
        }
    }
}

/// A scan right after a job was queued in a valid state: the job starts if
/// it is admitted, and nobody else does.
proof fn lemma_parked_passed(s: Admission, job: Job, level: i32, blocks: bool)
    requires
        s.valid(),
        s.next_seq < u64::MAX,
    ensures
        ({
            let key = Key { level, seq: s.next_seq };
            let t = s.parked(job, level, blocks);
            let p = scan(t.limits, t.active, t.waiting, t.waiting.len());
            if s.active.admits(s.limits, job) {
                p == (Pass { active: s.active.with(job), left: s.waiting, admitted: seq![(key, job)] })
            } else {
                p == (Pass { active: s.active, left: t.waiting, admitted: Seq::empty() })
            }
        }),
{
    let key = Key { level, seq: s.next_seq };
    let w = s.waiting;
    let x = (key, job);
    let p = slot(w, key) as int;
    lemma_parked(s, job, level, blocks);
    lemma_scan_newcomer(s.limits, s.active, w, p, x, (w.len() + 1) as nat);
    assert(w.take(w.len() as int) =~= w);
    assert(w.insert(p, x).take((w.len() + 1) as int) =~= w.insert(p, x));
}

/// Decides which jobs run.
pub struct Scheduler {
    limits: Limits,
    grid: Grid,
    waiting: WaitQueue,
    /// Numbers of blocking `acquire` callers, so grants for them go to
    /// `granted` instead of the caller's return value.
    blocking: HashSet<u64>,
    granted: HashSet<u64>,
    next_seq: u64,
    /// Grant order since creation.
    grant_log: Vec<u64>,
}

impl View for Scheduler {
    type V = Admission;

    closed spec fn view(&self) -> Admission {
        Admission {
            limits: self.limits,
            active: self.grid@,
            waiting: self.waiting@,
            blocking: self.blocking@,
            granted: self.granted@,
            next_seq: self.next_seq,
            log: self.grant_log@,
        }
    }
}

impl Scheduler {
    /// What holds between any two calls.
    pub closed spec fn wf(&self) -> bool {
        self.grid.wf() && self@.valid()
    }

    /// A well-formed scheduler is in a valid state.
    pub proof fn lemma_valid(&self)
        requires
            self.wf(),
        ensures
            self@.valid(),
    {
    }

    /// Nothing runs and nobody waits.
    pub fn new(limits: Limits) -> (r: Scheduler)
        requires
            limits.max_features >= 1,
            limits.max_inflight >= 1,
        ensures
            r.wf(),
            r@.limits == limits,
            r@.active.features == Set::<(i32, i32)>::empty(),
            r@.active.center == Set::<(u8, i32, i32)>::empty(),
            r@.waiting == Seq::<(Key, Job)>::empty(),
            r@.blocking == Set::<u64>::empty(),
            r@.granted == Set::<u64>::empty(),
            r@.next_seq == 0,
            r@.log == Seq::<u64>::empty(),
    {
        Scheduler {
            limits,
            grid: Grid::default(),
            waiting: WaitQueue::default(),
            blocking: HashSet::new(),
            granted: HashSet::new(),
            next_seq: 0,
            grant_log: Vec::new(),
        }
    }

    /// Whether the job may start beside the running ones.
    fn admits(&self, job: Job) -> (r: bool)
        requires
            self.grid.wf(),
            self@.active.safe(self@.limits),
        ensures
            r == self@.active.admits(self@.limits, job),
    {
        if self.grid.active_total() >= self.limits.max_inflight {
            return false;
        }
        if job.stage == Stage::Features {
            self.grid.active_features() < self.limits.max_features && self.grid.features_free(job.cx, job.cz)
        } else {
            self.grid.center_free(job.stage.number(), job.cx, job.cz)
        }
    }

    /// Greedy scan in priority order; admit every waiter that is
    /// conflict-free against the active set plus earlier admits this pass.
    /// Returns the numbers admitted for non-blocking submitters.
    fn grant_pass(&mut self) -> (r: Vec<u64>)
        requires
            old(self).grid.wf(),
            old(self)@.active.safe(old(self)@.limits),
            old(self)@.queued(),
        ensures
            final(self).grid.wf(),
            final(self)@ == old(self)@.passed(),
            r@ == handed_back(
                scan(
                    old(self)@.limits,
                    old(self)@.active,
                    old(self)@.waiting,
                    old(self)@.waiting.len(),
                ).admitted,
                old(self)@.blocking,
            ),
    {
        let ghost s = self@;
        let items: Vec<(Key, Job)> = self.waiting.iter();
        let mut out: Vec<u64> = Vec::new();
        let mut i: usize = 0;
        while i < items.len()
            invariant
                i <= items.len(),
                items@ == s.waiting,
                s == old(self)@,
                s.queued(),
                s.active.safe(s.limits),
                self.grid.wf(),
                self@.limits == s.limits,
                self@.next_seq == s.next_seq,
                ({
                    let p = scan(s.limits, s.active, s.waiting, i as nat);
                    let nums = numbers(p.admitted);
                    &&& self@.active == p.active
                    &&& self@.waiting == p.left + s.waiting.skip(i as int)
                    &&& self@.blocking == s.blocking.filter(|x: u64| !nums.contains(x))
                    &&& self@.granted == s.granted.union(s.blocking.filter(|x: u64| nums.contains(x)))
                    &&& self@.log == s.log + nums
                    &&& out@ == handed_back(p.admitted, s.blocking)
                }),
            decreases items.len() - i,
        {
            let (key, job) = items[i];
            let ghost p = scan(s.limits, s.active, s.waiting, i as nat);
            let ghost q = scan(s.limits, s.active, s.waiting, (i + 1) as nat);
            let ghost w = self@.waiting;
            proof {
                lemma_scan(s.limits, s.active, s.waiting, i as nat);
                lemma_scan_splits(s.limits, s.active, s.waiting, i as nat);
                assert(s.waiting.skip(i as int)[0] == (key, job));
                assert(w[p.left.len() as int] == (key, job));
                lemma_rest_ordered(s, i as nat);
            }
            if self.admits(job) {
                let ghost before = self@;
                let _ = self.waiting.remove(&key);
                proof {
                    assert(has_key(w, key));
                    let k = choose|k: int| {
                        &&& 0 <= k < w.len()
                        &&& (#[trigger] w[k]).0 == key
                        &&& self@.waiting == w.remove(k)
                    };
                    let m = p.left.len() as int;
                    if k < m {
                        assert(w[k].0.before(w[m].0));
                    } else if k > m {
                        assert(w[m].0.before(w[k].0));
                    }
                    assert(w.remove(m) =~= p.left + s.waiting.skip(i + 1));
                }
                if job.stage == Stage::Features {
                    self.grid.insert_features(job.cx, job.cz);
                } else {
                    self.grid.insert_center(job.stage.number(), job.cx, job.cz);
                }
                let blocks: bool = self.blocking.remove(&key.seq);
                if blocks {
                    self.granted.insert(key.seq);
                } else {
                    out.push(key.seq);
                }
                self.grant_log.push(key.seq);
                proof {
                    let a = numbers(p.admitted);
                    let b = numbers(q.admitted);
                    assert(q.admitted == p.admitted.push((key, job)));
                    assert(b =~= a.push(key.seq));
                    assert(b[a.len() as int] == key.seq);
                    assert forall|x: u64| b.contains(x) <==> a.contains(x) || x == key.seq by {
                        if a.contains(x) {
                            let j = choose|j: int| 0 <= j < a.len() && a[j] == x;
                            assert(b[j] == x);
                        }
                    }
                    if a.contains(key.seq) {
                        let j = choose|j: int| 0 <= j < a.len() && a[j] == key.seq;
                        let k = choose|k: int| 0 <= k < i && s.waiting.take(i as int)[k] == p.admitted[j];
                        assert(s.waiting[k].0.seq != s.waiting[i as int].0.seq);
                    }
                    assert(blocks == s.blocking.contains(key.seq));
                    assert(self@.blocking =~= s.blocking.filter(|x: u64| !b.contains(x)));
                    assert(self@.granted =~= s.granted.union(s.blocking.filter(|x: u64| b.contains(x))));
                    assert(self@.log =~= s.log + b);
                    assert(q.admitted.drop_last() =~= p.admitted);
                    assert(self@.active == q.active);
                }
            } else {
                proof {
                    assert(q.left + s.waiting.skip(i + 1) =~= w);
                }
            }
            i += 1;
        }
        proof {
            let n = s.waiting.len();
            let p = scan(s.limits, s.active, s.waiting, n);
            assert(p.left + s.waiting.skip(n as int) =~= p.left);
        }
        out
    }

    /// Queue the next job and scan: it runs if it is admitted, waits if not.
    fn register(&mut self, job: Job, level: i32, blocks: bool) -> (r: Vec<u64>)
        requires
            old(self).wf(),
            old(self)@.next_seq < u64::MAX,
        ensures
            final(self).wf(),
            ({
                let s = old(self)@;
                if s.active.admits(s.limits, job) {
                    let t = s.started(job);
                    &&& final(self)@ == (if blocks { Admission { granted: s.granted.insert(s.next_seq), ..t } } else { t })
                    &&& r@ == (if blocks { Seq::<u64>::empty() } else { seq![s.next_seq] })
                } else {
                    &&& final(self)@ == s.parked(job, level, blocks)
                    &&& r@ == Seq::<u64>::empty()
                }
            }),
    {
        let ghost s = self@;
        let ghost t = s.parked(job, level, blocks);
        let seq: u64 = self.next_seq;
        let key: Key = Key { level, seq };
        self.next_seq = seq + 1;
        self.waiting.push(key, job);
        if blocks {
            self.blocking.insert(seq);
        }
        proof {
            lemma_parked(s, job, level, blocks);
            lemma_parked_passed(s, job, level, blocks);
            lemma_passed_valid(t);
            assert(self@ == t);
        }
        let r = self.grant_pass();
        proof {
            let p = scan(t.limits, t.active, t.waiting, t.waiting.len());
            let nums = numbers(p.admitted);
            reveal_with_fuel(handed_back, 2);
            if s.blocking.contains(seq) {
                let k = choose|k: int| 0 <= k < s.waiting.len() && (#[trigger] s.waiting[k]).0.seq == seq;
                assert(s.waiting[k].0.seq < s.next_seq);
            }
            if s.active.admits(s.limits, job) {
                assert(nums =~= seq![seq]);
                assert(nums[0] == seq);
                assert(p.admitted.drop_last() =~= Seq::empty());
                assert(self@.log =~= s.log.push(seq));
                assert(self@.blocking =~= s.blocking);
                assert(self@.granted =~= (if blocks { s.granted.insert(seq) } else { s.granted }));
            } else {
                assert(nums =~= Seq::empty());
                assert(self@.log =~= s.log);
                assert(self@.blocking =~= t.blocking);
                assert(self@.granted =~= s.granted);
            }
        }
        r
    }

    /// Register a job for a caller that blocks until it may run. `level` is
    /// the chunk's ticket level; lower runs first. Unless it was granted at
    /// once, the caller waits until `claim` says that it was.
    pub fn acquire(&mut self, job: Job, level: i32) -> (r: Submitted)
        requires
            old(self).wf(),
            old(self)@.next_seq < u64::MAX,
        ensures
            final(self).wf(),
            r.seq == old(self)@.next_seq,
            r.granted == old(self)@.active.admits(old(self)@.limits, job),
            final(self)@ == (if r.granted {
                old(self)@.started(job)
            } else {
                old(self)@.parked(job, level, true)
            }),
    {
        let ghost s = self@;
        let seq: u64 = self.next_seq;
        let _ = self.register(job, level, true);
        let granted: bool = self.claim(seq);
        proof {
            if s.granted.contains(seq) {
                assert(s.log.contains(seq));
                let i = choose|i: int| 0 <= i < s.log.len() && s.log[i] == seq;
                assert(s.log[i] < s.next_seq);
            }
            assert(s.granted.insert(seq).remove(seq) =~= s.granted);
            assert(s.granted.remove(seq) =~= s.granted);
        }
        Submitted { seq, granted }
    }

    /// Whether a blocking caller's job was admitted since it was
    /// registered; says so once.
    pub fn claim(&mut self, seq: u64) -> (r: bool)
        requires
            old(self).wf(),
        ensures
            final(self).wf(),
            r == old(self)@.granted.contains(seq),
            final(self)@ == (Admission { granted: old(self)@.granted.remove(seq), ..old(self)@ }),
    {
        let r: bool = self.granted.remove(&seq);
        r
    }

    /// Register the job and return whether it may run now. If not, it
    /// stays queued and its number comes back from a later `release`.
    pub fn submit(&mut self, job: Job, level: i32) -> (r: Submitted)
        requires
            old(self).wf(),
            old(self)@.next_seq < u64::MAX,
        ensures
            final(self).wf(),
            r.seq == old(self)@.next_seq,
            r.granted == old(self)@.active.admits(old(self)@.limits, job),
            final(self)@ == (if r.granted {
                old(self)@.started(job)
            } else {
                old(self)@.parked(job, level, false)
            }),
    {
        let seq: u64 = self.next_seq;
        let granted: Vec<u64> = self.register(job, level, false);
        Submitted { seq, granted: granted.len() > 0 }
    }

    /// Non-blocking variant: Some if granted now, None if it would wait
    /// (and nothing is queued).
    pub fn try_acquire(&mut self, job: Job, level: i32) -> (r: Option<Ticket>)
        requires
            old(self).wf(),
            old(self)@.next_seq < u64::MAX,
        ensures
            final(self).wf(),
            r is Some <==> old(self)@.active.admits(old(self)@.limits, job),
            r matches Some(t) ==> t.job_of() == job && t.seq_of() == old(self)@.next_seq,
            final(self)@ == (if r is Some {
                old(self)@.started(job)
            } else {
                Admission { next_seq: (old(self)@.next_seq + 1) as u64, ..old(self)@ }
            }),
    {
        let ghost s = self@;
        let seq: u64 = self.next_seq;
        let key: Key = Key { level, seq };
        let granted: Vec<u64> = self.register(job, level, false);
        if granted.len() > 0 {
            Some(Ticket { job, seq })
        } else {
            let ghost w = self@.waiting;
            let ghost m = slot(s.waiting, key) as int;
            proof {
                lemma_parked(s, job, level, false);
                assert(w[m] == (key, job));
                assert(has_key(w, key));
            }
            let _ = self.waiting.remove(&key);
            proof {
                let k = choose|k: int| {
                    &&& 0 <= k < w.len()
                    &&& (#[trigger] w[k]).0 == key
                    &&& self@.waiting == w.remove(k)
                };
                if k < m {
                    assert(w[k].0.before(w[m].0));
                } else if k > m {
                    assert(w[m].0.before(w[k].0));
                }
                assert(w.remove(m) =~= s.waiting);
                lemma_next_seq(s);
            }
            None
        }
    }

    /// Free the job's zone. Returns the numbers of submitted jobs that may
    /// run now; blocking callers learn of it by `claim` instead.
    pub fn release(&mut self, t: Ticket) -> (r: Vec<u64>)
        requires
            old(self).wf(),
        ensures
            final(self).wf(),
            final(self)@ == old(self)@.freed(t.job_of()).passed(),
            ({
                let s = old(self)@.freed(t.job_of());
                r@ == handed_back(scan(s.limits, s.active, s.waiting, s.waiting.len()).admitted, s.blocking)
            }),
    {
        let ghost s = self@;
        if t.job.stage == Stage::Features {
            self.grid.remove_features(t.job.cx, t.job.cz);
        } else {
            self.grid.remove_center(t.job.stage.number(), t.job.cx, t.job.cz);
        }
        proof {
            lemma_without_safe(s.limits, s.active, t.job);
            assert(self@ == s.freed(t.job));
            lemma_passed_valid(s.freed(t.job));
        }
        self.grant_pass()
    }

    /// Jobs running.
    pub fn active(&self) -> (r: usize)
        requires
            self.wf(),
        ensures
            r == self@.active.total(),
    {
        self.grid.active_total()
    }

    /// Jobs waiting.
    pub fn waiting(&self) -> (r: usize)
        ensures
            r == self@.waiting.len(),
    {
        self.waiting.len()
    }

    /// The numbers granted so far, in order.
    pub fn grant_log(&self) -> (r: Vec<u64>)
        ensures
            r@ == self@.log,
    {
        let mut r: Vec<u64> = Vec::new();
        let mut i: usize = 0;
        while i < self.grant_log.len()
            invariant
                i <= self.grant_log.len(),
                r@ == self@.log.take(i as int),
            decreases self.grant_log.len() - i,
        {
            r.push(self.grant_log[i]);
            i += 1;
        }
        proof { assert(self@.log.take(i as int) =~= self@.log); }
        r
    }
}

/// Stopping a job keeps the running jobs safe.
proof fn lemma_without_safe(limits: Limits, a: Active, job: Job)
    requires
        a.safe(limits),
    ensures
        a.without(job).safe(limits),
{
    let b = a.without(job);
    vstd::set_lib::lemma_len_subset(b.features, a.features);
    vstd::set_lib::lemma_len_subset(b.center, a.center);
    assert forall|x: (i32, i32), y: (i32, i32)| #[trigger]
        b.features.contains(x) && #[trigger] b.features.contains(y) && x != y implies !close(x, y) by {
        assert(a.features.contains(x) && a.features.contains(y));
    }
}

/// Skipping a number keeps a state valid.
proof fn lemma_next_seq(s: Admission)
    requires
        s.valid(),
        s.next_seq < u64::MAX,
    ensures
        (Admission { next_seq: (s.next_seq + 1) as u64, ..s }).valid(),
{
    let t = Admission { next_seq: (s.next_seq + 1) as u64, ..s };
    assert forall|i: int| 0 <= i < t.waiting.len() implies (#[trigger] t.waiting[i]).0.seq < t.next_seq by {
        assert(s.waiting[i].0.seq < s.next_seq);
    }
    assert forall|i: int| 0 <= i < t.log.len() implies #[trigger] t.log[i] < t.next_seq && !waits(
        t.waiting, t.log[i]) by {
        assert(s.log[i] < s.next_seq);
    }
}

/// What is left of a scan's prefix, followed by the waiters not scanned
/// yet, is in priority order.
proof fn lemma_rest_ordered(s: Admission, n: nat)
    requires
        s.queued(),
        n <= s.waiting.len(),
    ensures
        ordered(scan(s.limits, s.active, s.waiting, n).left + s.waiting.skip(n as int)),
{
    let p = scan(s.limits, s.active, s.waiting, n);
    let w = s.waiting;
    lemma_scan_splits(s.limits, s.active, w, n);
    let v = p.left + w.skip(n as int);
    let m = p.left.len();
    assert forall|i: int, j: int| 0 <= i < j < v.len() implies (#[trigger] v[i]).0.before((#[trigger] v[j]).0) by {
        if j < m {
            assert(p.left[i].0.before(p.left[j].0));
        } else if i < m {
            let k = choose|k: int| 0 <= k < n && w.take(n as int)[k] == p.left[i];
            assert(w[k].0.before(w[j - m + n].0));
        } else {
            assert(w[i - m + n].0.before(w[j - m + n].0));
        }
    }
}

/// In every valid state, no two running FEATURES jobs lie within the
/// exclusion distance of each other, and neither limit is exceeded.
pub proof fn law_no_overlap(s: Admission, a: (i32, i32), b: (i32, i32))
    requires
        s.valid(),
        s.active.features.contains(a),
        s.active.features.contains(b),
        a != b,
    ensures
        !close(a, b),
        s.active.features.len() <= s.limits.max_features,
        s.active.total() <= s.limits.max_inflight,
{
}

/// Nobody waits who could run: in every valid state each waiter is held
/// back by a limit or by a running job.
pub proof fn law_work_conserving(s: Admission, i: int)
    requires
        s.valid(),
        0 <= i < s.waiting.len(),
    ensures
        !s.active.admits(s.limits, s.waiting[i].1),
{
}

/// Freeing a zone admits waiters in priority order, and a waiter that stays
/// behind could not start beside what runs afterwards.
pub proof fn law_release_in_priority_order(s: Admission, job: Job)
    requires
        s.valid(),
    ensures
        ({
            let f = s.freed(job);
            let p = scan(f.limits, f.active, f.waiting, f.waiting.len());
            &&& ordered(p.admitted)
            &&& ordered(p.left)
            &&& f.passed().log == s.log + numbers(p.admitted)
            &&& f.passed().valid()
        }),
{
    lemma_without_safe(s.limits, s.active, job);
    let f = s.freed(job);
    lemma_scan_splits(f.limits, f.active, f.waiting, f.waiting.len());
    lemma_passed_valid(f);
}

/// The first waiter in priority order is admitted whenever it may start
/// beside the running jobs.
pub proof fn law_first_in_line_is_admitted(s: Admission)
    requires
        s.waiting.len() > 0,
        s.active.admits(s.limits, s.waiting[0].1),
    ensures
        ({
            let p = scan(s.limits, s.active, s.waiting, s.waiting.len());
            p.admitted.len() > 0 && p.admitted[0] == s.waiting[0]
        }),
{
    lemma_first_admitted(s.limits, s.active, s.waiting, s.waiting.len());
}

proof fn lemma_first_admitted(limits: Limits, active: Active, w: Seq<(Key, Job)>, n: nat)
    requires
        1 <= n <= w.len(),
        active.admits(limits, w[0].1),
    ensures
        scan(limits, active, w, n).admitted.len() > 0,
        scan(limits, active, w, n).admitted[0] == w[0],
    decreases n,
{
    if n > 1 {
        lemma_first_admitted(limits, active, w, (n - 1) as nat);
    } else {
        reveal_with_fuel(scan, 2);
    }
}

/// A scan loses nobody: every waiter is either admitted or still waits,
/// and never both.
pub proof fn law_scan_partitions(s: Admission, i: int)
    requires
        s.queued(),
        0 <= i < s.waiting.len(),
    ensures
        ({
            let p = scan(s.limits, s.active, s.waiting, s.waiting.len());
            &&& p.left.contains(s.waiting[i]) <==> !p.admitted.contains(s.waiting[i])
            &&& p.left.len() + p.admitted.len() == s.waiting.len()
        }),
{
    let n = s.waiting.len();
    let p = scan(s.limits, s.active, s.waiting, n);
    lemma_scan_splits(s.limits, s.active, s.waiting, n);
    if p.left.contains(s.waiting[i]) && p.admitted.contains(s.waiting[i]) {
        let a = choose|a: int| 0 <= a < p.left.len() && p.left[a] == s.waiting[i];
        let b = choose|b: int| 0 <= b < p.admitted.len() && p.admitted[b] == s.waiting[i];
        assert(p.left[a] != p.admitted[b]);
    }
}

/// A job that was granted and is released at once leaves the running jobs
/// as they were.
pub proof fn law_release_undoes_grant(s: Admission, job: Job)
    requires
        s.valid(),
        s.active.admits(s.limits, job),
    ensures
        s.active.with(job).without(job) == s.active,
{
    lemma_with_safe(s.limits, s.active, job);
    assert(s.active.with(job).without(job).features =~= s.active.features);
    assert(s.active.with(job).without(job).center =~= s.active.center);
}

/// A call of a scheduler.
pub ghost enum Call {
    Submit(Job, i32),
    Acquire(Job, i32),
    TryAcquire(Job, i32),
    Claim(u64),
    Release(Job),
}

impl Admission {
    /// Nothing has been registered yet.
    pub open spec fn fresh(self, limits: Limits) -> bool {
        &&& self.limits == limits
        &&& self.active.features == Set::<(i32, i32)>::empty()
        &&& self.active.center == Set::<(u8, i32, i32)>::empty()
        &&& self.waiting == Seq::<(Key, Job)>::empty()
        &&& self.blocking == Set::<u64>::empty()
        &&& self.granted == Set::<u64>::empty()
        &&& self.next_seq == 0
        &&& self.log == Seq::<u64>::empty()
    }

    /// The state after a call.
    pub open spec fn called(self, c: Call) -> Admission {
        match c {
            Call::Submit(job, level) => if self.active.admits(self.limits, job) {
                self.started(job)
            } else {
                self.parked(job, level, false)
            },
            Call::Acquire(job, level) => if self.active.admits(self.limits, job) {
                self.started(job)
            } else {
                self.parked(job, level, true)
            },
            Call::TryAcquire(job, _) => if self.active.admits(self.limits, job) {
                self.started(job)
            } else {
                Admission { next_seq: (self.next_seq + 1) as u64, ..self }
            },
            Call::Claim(seq) => Admission { granted: self.granted.remove(seq), ..self },
            Call::Release(job) => self.freed(job).passed(),
        }
    }

    /// The state after the first `n` of some calls.
    pub open spec fn after(self, calls: Seq<Call>, n: nat) -> Admission
        decreases n,
    {
        if n == 0 { self } else { self.after(calls, (n - 1) as nat).called(calls[n - 1]) }
    }
}

proof fn lemma_registered(s: Admission, job: Job, level: i32, blocks: bool)
    requires
        s.valid(),
        s.next_seq < u64::MAX,
    ensures
        s.active.admits(s.limits, job) ==> s.started(job).valid(),
        !s.active.admits(s.limits, job) ==> s.parked(job, level, blocks).valid(),
{
    let quiet = s.parked(job, level, false);
    lemma_parked(s, job, level, false);
    lemma_parked_passed(s, job, level, false);
    lemma_passed_valid(quiet);
    lemma_parked(s, job, level, blocks);
    let seq = s.next_seq;
    if s.blocking.contains(seq) {
        let k = choose|k: int| 0 <= k < s.waiting.len() && (#[trigger] s.waiting[k]).0.seq == seq;
        assert(s.waiting[k].0.seq < s.next_seq);
    }
    let p = scan(quiet.limits, quiet.active, quiet.waiting, quiet.waiting.len());
    let nums = numbers(p.admitted);
    if s.active.admits(s.limits, job) {
        assert(nums =~= seq![seq]);
        assert(nums[0] == seq);
        assert(quiet.passed().log =~= s.log.push(seq));
        assert(quiet.passed().blocking =~= s.blocking);
        assert(quiet.passed().granted =~= s.granted);
        assert(quiet.passed() == s.started(job));
    } else {
        assert(nums =~= Seq::empty());
        assert(quiet.passed().log =~= s.log);
        assert(quiet.passed().blocking =~= quiet.blocking);
        assert(quiet.passed().granted =~= s.granted);
        assert(quiet.passed() == quiet);
    }
}

proof fn lemma_called(s: Admission, c: Call)
    requires
        s.valid(),
        s.next_seq < u64::MAX,
    ensures
        s.called(c).valid(),
        s.called(c).next_seq <= s.next_seq + 1,
        s.log.is_prefix_of(s.called(c).log),
{
    match c {
        Call::Submit(job, level) => lemma_registered(s, job, level, false),
        Call::Acquire(job, level) => lemma_registered(s, job, level, true),
        Call::TryAcquire(job, level) => {
            lemma_registered(s, job, level, false);
            lemma_next_seq(s);
        },
        Call::Claim(_) => {},
        Call::Release(job) => {
            lemma_without_safe(s.limits, s.active, job);
            lemma_passed_valid(s.freed(job));
        },
    }
}

/// Schedulers that start alike and get the same calls grant the same jobs in
/// the same order.
pub proof fn law_equal_calls_give_equal_logs(s: Admission, t: Admission, limits: Limits, calls: Seq<Call>)
    requires
        s.fresh(limits),
        t.fresh(limits),
    ensures
        s.after(calls, calls.len()).log == t.after(calls, calls.len()).log,
        s.after(calls, calls.len()) == t.after(calls, calls.len()),
{
    assert(s == t);
}

/// Whatever is called, the log lists each granted number once, and only
/// numbers that were given out; what it lists stays as it is, and later
/// grants come after it.
pub proof fn law_log_lists_each_grant_once(s: Admission, limits: Limits, calls: Seq<Call>, m: nat, n: nat)
    requires
        s.fresh(limits),
        limits.max_features >= 1,
        limits.max_inflight >= 1,
        m <= n <= calls.len(),
        calls.len() < u64::MAX,
    ensures
        s.after(calls, n).valid(),
        s.after(calls, n).log.no_duplicates(),
        s.after(calls, n).next_seq <= n,
        forall|i: int| 0 <= i < s.after(calls, n).log.len() ==> #[trigger] s.after(calls, n).log[i] < s.after(calls, n).next_seq,
        s.after(calls, m).log.is_prefix_of(s.after(calls, n).log),
    decreases n,
{
    if n == 0 {
        assert(s.active.features.len() == 0 && s.active.center.len() == 0);
    } else {
        if m < n {
            law_log_lists_each_grant_once(s, limits, calls, m, (n - 1) as nat);
        } else {
            law_log_lists_each_grant_once(s, limits, calls, 0, (n - 1) as nat);
        }
        let before = s.after(calls, (n - 1) as nat);
        lemma_called(before, calls[n - 1]);
        let (a, b, c) = (s.after(calls, m).log, before.log, s.after(calls, n).log);
        if m < n {
            assert(a =~= b.take(a.len() as int) && b =~= c.take(b.len() as int));
            assert(a =~= c.take(a.len() as int));
        }
    }
}

} // verus!
