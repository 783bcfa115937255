//! Replicas that commit, meet, and break off meeting, in many orders.

use sod::engine::MemEngine;
use sod::store::MemLog;
use sod::{sync_pair, Frame, Msg, Replica, ReplicaId, Session};

type Sod = Replica<MemEngine, MemLog>;

fn id(i: usize) -> ReplicaId {
    ReplicaId([i as u8 + 1; 16])
}

fn mesh(n: usize) -> Vec<Sod> {
    (0..n)
        .map(|i| Replica::open(id(i), MemLog::new(), MemEngine::new()).unwrap())
        .collect()
}

fn two(all: &mut [Sod], i: usize, j: usize) -> (&mut Sod, &mut Sod) {
    let (low, high) = all.split_at_mut(i.max(j));
    if i < j {
        (&mut low[i], &mut high[0])
    } else {
        (&mut high[0], &mut low[j])
    }
}

/// Deliver to `a` only the first `k` frames that it lacks of `b`'s.
fn meet_partly(a: &mut Sod, b: &mut Sod, k: usize) {
    let mut s = Session::new(1);
    let hello = Session::new(1).hello(a);
    let out = Session::new(1).on_msg(b, hello).unwrap();
    let mut left = k;
    for m in out {
        if let Msg::Frames(mut frames) = m {
            frames.truncate(left);
            left -= frames.len();
            s.on_msg(a, Msg::Frames(frames)).unwrap();
        }
    }
}

fn assert_honest(all: &[Sod]) {
    for r in all {
        assert_eq!(r.poisoned().len(), 0);
        for (o, origin) in all.iter().enumerate() {
            let own: &[Frame] = origin.frames_after(&id(o), 0);
            assert!(own.starts_with(r.frames_after(&id(o), 0)));
        }
    }
}

#[test]
fn every_history_stays_honest_and_two_rounds_converge() {
    for seed in 1..40u64 {
        let mut x = seed;
        let mut draw = |n: usize| {
            x = x.wrapping_mul(6364136223846793005).wrapping_add(1442695040888963407);
            ((x >> 33) % n as u64) as usize
        };
        let n = 2 + draw(4);
        let mut all = mesh(n);
        for t in 0..60u64 {
            let (i, j) = (draw(n), draw(n));
            match draw(3) {
                0 => {
                    all[i].commit(vec![(vec![draw(5) as u8], 1 - 2 * (t as i64 % 2))], t).unwrap();
                }
                1 if i != j => {
                    let (a, b) = two(&mut all, i, j);
                    sync_pair(a, b, 1).unwrap();
                }
                2 if i != j => {
                    let k = draw(4);
                    let (a, b) = two(&mut all, i, j);
                    meet_partly(a, b, k);
                }
                _ => {}
            }
            assert_honest(&all);
        }
        let held: Vec<Vec<Frame>> =
            (0..n).map(|i| all[i].frames_after(&id(i), 0).to_vec()).collect();
        for _ in 0..2 {
            for j in 1..n {
                let (hub, other) = two(&mut all, 0, j);
                sync_pair(hub, other, 1).unwrap();
            }
        }
        assert_honest(&all);
        for r in &all {
            for (o, own) in held.iter().enumerate() {
                assert_eq!(r.frames_after(&id(o), 0), own.as_slice());
            }
            assert_eq!(r.vector(), all[0].vector());
            assert_eq!(r.watermark(), all[0].watermark());
            assert_eq!(r.engine().view_bytes(), all[0].engine().view_bytes());
        }
    }
}
