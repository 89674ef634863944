use painite::grid::Grid;
use painite::queue::{Key, WaitQueue};
use painite::scheduler::{Job, Limits, Scheduler, Stage, Submitted, Ticket};

fn feat(cx: i32, cz: i32) -> Job {
    Job { stage: Stage::Features, cx, cz }
}

fn lim(f: usize, t: usize) -> Limits {
    Limits { max_features: f, max_inflight: t }
}

#[test]
fn features_exclusion_is_chessboard_radius_two() {
    let mut g = Grid::default();
    assert!(g.insert_features(0, 0));
    for (x, z) in [(1, 0), (2, 2), (-2, 1), (0, -2)] {
        assert!(!g.features_free(x, z), "({x},{z}) overlaps");
    }
    for (x, z) in [(3, 0), (-3, 3), (0, 3), (3, -3)] {
        assert!(g.features_free(x, z), "({x},{z}) is clear");
    }
    assert!(g.remove_features(0, 0));
    assert!(g.features_free(1, 0));
}

#[test]
fn center_stages_do_not_block_each_other() {
    let mut g = Grid::default();
    assert!(g.insert_center(0, 5, 5));
    assert!(!g.center_free(0, 5, 5));
    assert!(g.center_free(1, 5, 5));
    assert!(g.center_free(0, 6, 5));
    assert!(g.features_free(5, 5));
}

#[test]
fn grid_counts_what_runs() {
    let mut g = Grid::default();
    assert!(g.insert_features(4, 4));
    assert!(!g.insert_features(4, 4), "already there");
    assert!(g.insert_center(2, 4, 4));
    assert!(!g.insert_center(2, 4, 4));
    assert_eq!(g.active_features(), 1);
    assert_eq!(g.active_total(), 2);
    assert!(!g.remove_center(3, 4, 4), "another stage");
    assert!(g.remove_center(2, 4, 4));
    assert!(!g.remove_features(5, 4));
    assert_eq!(g.active_total(), 1);
}

#[test]
fn overlapping_features_wait_and_then_run() {
    let mut s = Scheduler::new(lim(8, 16));
    let a = s.try_acquire(feat(0, 0), 33).expect("first grant");
    assert!(s.try_acquire(feat(2, 0), 33).is_none(), "distance 2 blocks");
    let b = s.try_acquire(feat(6, 0), 33).expect("distance 6 clear");
    s.release(a);
    let c = s.try_acquire(feat(2, 0), 33).expect("clear after release");
    s.release(b);
    s.release(c);
    assert_eq!(s.active(), 0);
}

#[test]
fn center_stage_same_chunk_excluded_other_stage_not() {
    let mut s = Scheduler::new(lim(8, 16));
    let j = Job { stage: Stage::StructureStarts, cx: 1, cz: 1 };
    let a = s.try_acquire(j, 33).unwrap();
    assert!(s.try_acquire(j, 33).is_none());
    let b = s.try_acquire(Job { stage: Stage::Spawn, cx: 1, cz: 1 }, 33).unwrap();
    s.release(a);
    s.release(b);
}

#[test]
fn limits_hold() {
    let mut s = Scheduler::new(lim(2, 3));
    let a = s.try_acquire(feat(0, 0), 33).unwrap();
    let b = s.try_acquire(feat(10, 0), 33).unwrap();
    assert!(s.try_acquire(feat(20, 0), 33).is_none(), "max_features");
    let c = s.try_acquire(Job { stage: Stage::Spawn, cx: 0, cz: 0 }, 33).unwrap();
    assert!(s.try_acquire(Job { stage: Stage::Spawn, cx: 9, cz: 9 }, 33).is_none(), "max_inflight");
    s.release(a);
    s.release(b);
    s.release(c);
}

#[test]
fn lower_level_admitted_first_after_release() {
    // One job holds (0,0) with max_features 1. Two blocking callers queue
    // while it runs: level 40 far away, level 30 adjacent. On release both
    // are clear; the level-30 job must be granted first.
    let mut s = Scheduler::new(lim(1, 16));
    let mut order: Vec<i32> = Vec::new();
    let hold = s.try_acquire(feat(0, 0), 33).unwrap();
    let mut callers: Vec<(Job, i32, Submitted)> = Vec::new();
    for (job, level) in [(feat(10, 10), 40), (feat(1, 1), 30)] {
        let r = s.acquire(job, level);
        assert!(!r.granted);
        callers.push((job, level, r));
        assert_eq!(s.waiting(), callers.len());
    }
    s.release(hold);
    while !callers.is_empty() {
        let ready = callers.iter().position(|c| s.claim(c.2.seq)).expect("some caller was let in");
        let (job, level, r) = callers.remove(ready);
        order.push(level);
        s.release(Ticket::from_parts(job, r.seq));
    }
    assert_eq!(order, vec![30, 40]);
    assert_eq!(s.grant_log().len(), 3);
}

#[test]
fn submit_parks_conflicts_and_release_hands_them_back() {
    let mut s = Scheduler::new(lim(4, 8));
    let a = s.submit(feat(0, 0), 30);
    assert!(a.granted);
    let b = s.submit(feat(1, 0), 30);
    assert!(!b.granted, "distance 1 must park");
    let c = s.submit(feat(9, 0), 30);
    assert!(c.granted, "far away runs at once");
    assert_eq!(s.waiting(), 1);
    let freed = s.release(Ticket::from_parts(feat(0, 0), a.seq));
    assert_eq!(freed, vec![b.seq]);
    assert_eq!(s.waiting(), 0);
    assert!(s.release(Ticket::from_parts(feat(1, 0), b.seq)).is_empty());
    assert!(s.release(Ticket::from_parts(feat(9, 0), c.seq)).is_empty());
    assert_eq!(s.active(), 0);
}

#[test]
fn release_grants_are_conflict_free_among_themselves() {
    let mut s = Scheduler::new(lim(4, 8));
    let a = s.submit(feat(0, 0), 30);
    let parked: Vec<Submitted> = [1, 2, -1, -2].iter().map(|&x| s.submit(feat(x, 0), 30)).collect();
    assert!(parked.iter().all(|p| !p.granted), "all within 2 of (0,0)");
    let freed = s.release(Ticket::from_parts(feat(0, 0), a.seq));
    // Greedy in seq order: (1,0) first, then only (-2,0) is 3 away from it.
    assert_eq!(freed, vec![parked[0].seq, parked[3].seq]);
}

/// Eight callers in turn, each registering a job, waiting for it and
/// finishing it, 400 times.
#[test]
fn stress_no_overlap_and_no_deadlock() {
    let mut s = Scheduler::new(Limits::for_cores(8));
    let mut random: Vec<u32> = (0..8u32).map(|t| (t + 1).wrapping_mul(2654435761)).collect();
    let mut rounds = [0i32; 8];
    // What each caller waits for or runs.
    let mut waits: Vec<Option<(Job, u64)>> = vec![None; 8];
    let mut runs: Vec<Option<(Job, u64)>> = vec![None; 8];
    let mut max_seen = 0;
    let mut idle = 0;
    while idle < 8 {
        idle = 0;
        for t in 0..8 {
            if let Some((job, seq)) = runs[t] {
                runs[t] = None;
                s.release(Ticket::from_parts(job, seq));
            } else if let Some((job, seq)) = waits[t] {
                if s.claim(seq) {
                    waits[t] = None;
                    runs[t] = Some((job, seq));
                }
            } else if rounds[t] < 400 {
                let mut x = random[t];
                x ^= x << 13;
                x ^= x >> 17;
                x ^= x << 5;
                random[t] = x;
                let job = feat((x % 12) as i32, ((x >> 8) % 12) as i32);
                let r = s.acquire(job, rounds[t] % 5 + 30);
                rounds[t] += 1;
                if r.granted {
                    runs[t] = Some((job, r.seq));
                } else {
                    waits[t] = Some((job, r.seq));
                }
            } else {
                idle += 1;
            }
            let active: Vec<Job> = runs.iter().flatten().map(|r| r.0).collect();
            for (i, a) in active.iter().enumerate() {
                for b in &active[i + 1..] {
                    assert!((a.cx - b.cx).abs().max((a.cz - b.cz).abs()) > 2, "two jobs overlap");
                }
            }
            max_seen = active.len().max(max_seen);
        }
    }
    assert!(max_seen <= 7, "max_features for 8 cores is 7");
    assert_eq!(s.active(), 0);
    assert_eq!(s.waiting(), 0);
    assert_eq!(s.grant_log().len(), 8 * 400);
}

#[test]
fn limits_follow_the_cores() {
    assert_eq!(Limits::for_cores(1), lim(1, 2));
    assert_eq!(Limits::for_cores(8), lim(7, 14));
    assert_eq!(Limits::for_cores(64), lim(16, 32));
}

#[test]
fn stages_have_numbers() {
    assert_eq!(Stage::from_u8(0), Some(Stage::StructureStarts));
    assert_eq!(Stage::from_u8(1), Some(Stage::StructureReferences));
    assert_eq!(Stage::from_u8(2), Some(Stage::Features));
    assert_eq!(Stage::from_u8(3), Some(Stage::Spawn));
    assert_eq!(Stage::from_u8(4), None);
}

#[test]
fn queue_walks_by_level_and_number() {
    let mut q = WaitQueue::default();
    q.push(Key { level: 40, seq: 1 }, feat(0, 0));
    q.push(Key { level: 30, seq: 7 }, feat(1, 0));
    q.push(Key { level: 30, seq: 3 }, feat(2, 0));
    let order: Vec<u64> = q.iter().iter().map(|e| e.0.seq).collect();
    assert_eq!(order, vec![3, 7, 1]);
    assert_eq!(q.remove(&Key { level: 30, seq: 7 }), Some(feat(1, 0)));
    assert_eq!(q.remove(&Key { level: 30, seq: 7 }), None);
    assert_eq!(q.len(), 2);
}

#[test]
fn tickets_carry_their_number() {
    assert_eq!(Ticket::from_parts(feat(1, 2), 17).seq(), 17);
}

#[test]
fn a_finished_job_lets_waiters_in_by_level() {
    let mut s = Scheduler::new(lim(1, 4));
    let a = s.submit(feat(0, 0), 10);
    let b = s.submit(feat(50, 0), 35);
    let c = s.submit(feat(90, 0), 31);
    assert!(a.granted && !b.granted && !c.granted);
    assert_eq!(s.release(Ticket::from_parts(feat(0, 0), a.seq)), vec![c.seq]);
    assert_eq!(s.waiting(), 1);
}

#[test]
fn equal_calls_give_equal_logs_that_only_grow() {
    let (mut a, mut b) = (Scheduler::new(lim(2, 3)), Scheduler::new(lim(2, 3)));
    let mut running: Vec<(Job, u64)> = Vec::new();
    let mut jobs: Vec<Job> = Vec::new();
    let mut before: Vec<u64> = Vec::new();
    for i in 0..60i32 {
        let job = feat((i * 7) % 11, (i * 5) % 13);
        jobs.push(job);
        let (p, q) = (a.submit(job, 30 + i % 4), b.submit(job, 30 + i % 4));
        assert_eq!((p.seq, p.granted), (q.seq, q.granted));
        assert_eq!(p.seq, i as u64);
        if p.granted {
            running.push((job, p.seq));
        }
        if i % 3 == 2 && !running.is_empty() {
            let (job, seq) = running.remove(0);
            let (p, q) = (a.release(Ticket::from_parts(job, seq)), b.release(Ticket::from_parts(job, seq)));
            assert_eq!(p, q);
            for seq in p {
                running.push((jobs[seq as usize], seq));
            }
        }
        let log = a.grant_log();
        assert_eq!(log, b.grant_log());
        assert_eq!(&log[..before.len()], &before[..], "what is logged stays");
        before = log;
    }
    let mut once = before.clone();
    once.sort();
    once.dedup();
    assert_eq!(once.len(), before.len(), "each number once");
}
