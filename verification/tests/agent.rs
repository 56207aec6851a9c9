//! Random legal play, the learner's cadence, and the replay ring buffer.

use gardogs::{observe_transition, random_legal, LearnSchedule, RandomAgent, Replay};
use rand::{Rng, SeedableRng};
use rand_chacha::ChaCha8Rng;

#[test]
fn random_legal_only_picks_legal_actions() {
    let mask = vec![false, true, false, false, true, false];
    let mut rng = ChaCha8Rng::seed_from_u64(3);
    let mut seen = [false; 6];
    for _ in 0..200 {
        let i = random_legal(&mask, &mut rng);
        assert!(mask[i]);
        seen[i] = true;
    }
    // Both legal actions come up.
    assert!(seen[1] && seen[4]);
}

#[test]
fn random_legal_with_a_single_choice() {
    let mask = vec![true, false, false];
    let mut rng = ChaCha8Rng::seed_from_u64(0);
    for _ in 0..20 {
        assert_eq!(random_legal(&mask, &mut rng), 0);
    }
}

#[test]
fn random_agent_is_reproducible() {
    let mask = vec![true, true, false, true, true, true, false, true];
    let mut a = RandomAgent::new(9);
    let mut b = RandomAgent::new(9);
    let xs: Vec<usize> = (0..50).map(|_| a.act(&mask)).collect();
    let ys: Vec<usize> = (0..50).map(|_| b.act(&mask)).collect();
    assert_eq!(xs, ys);
    assert!(xs.iter().all(|&i| mask[i]));
}

#[test]
fn learning_waits_for_warmup_and_cadence() {
    let mut s = LearnSchedule::new(3, 2, 2);
    // Buffer below warmup: never learn.
    assert!(!s.observe(1));
    assert!(!s.observe(2));
    // Warmed up: learn on every second env step (steps 3, 4, ...).
    assert!(!s.observe(3)); // env step 3
    assert!(s.observe(4)); // env step 4
    assert_eq!(s.env_steps, 4);
    assert!(!s.learned()); // optimiser step 1
    assert!(s.learned()); // optimiser step 2: sync the target net
    assert_eq!(s.opt_steps, 2);
}

#[test]
fn replay_overwrites_the_oldest_once_full() {
    let mut r: Replay<u32> = Replay::new(3);
    assert!(r.is_empty());
    for t in 0..3 {
        r.push(t);
    }
    assert_eq!(r.len(), 3);
    r.push(3);
    r.push(4);
    assert_eq!(r.len(), 3);
    let mut rng = ChaCha8Rng::seed_from_u64(1);
    let sample = r.sample(100, &mut rng);
    assert_eq!(sample.len(), 100);
    // 0 and 1 were the oldest and have been overwritten.
    assert!(sample.iter().all(|&&x| x >= 2 && x <= 4));
    assert!(sample.iter().any(|&&x| x == 4));
}

#[test]
fn replay_sample_of_nothing() {
    let r: Replay<u8> = Replay::new(1);
    let mut rng = ChaCha8Rng::seed_from_u64(1);
    assert!(r.sample(0, &mut rng).is_empty());
}

#[test]
fn replay_keeps_the_last_cap_items() {
    let mut r: Replay<u32> = Replay::new(4);
    for n in 0..10u32 {
        r.push(n);
        assert_eq!(r.len(), ((n + 1) as usize).min(4));
    }
    let mut rng = ChaCha8Rng::seed_from_u64(5);
    let sample = r.sample(200, &mut rng);
    assert!(sample.iter().all(|&&x| (6..=9).contains(&x)));
    for k in 6..=9 {
        assert!(sample.iter().any(|&&x| x == k));
    }
}

#[test]
fn observing_a_transition_grows_the_buffer_and_keeps_the_cadence() {
    let mut r: Replay<u8> = Replay::new(3);
    let mut s = LearnSchedule::new(2, 2, 5);
    // One item: below warmup.
    assert!(!observe_transition(&mut r, &mut s, 1));
    assert_eq!((r.len(), s.env_steps), (1, 1));
    // Two items, env step 2: learn.
    assert!(observe_transition(&mut r, &mut s, 2));
    // Step 3 is off cadence, step 4 on it; the buffer stops at its capacity.
    assert!(!observe_transition(&mut r, &mut s, 3));
    assert!(observe_transition(&mut r, &mut s, 4));
    assert_eq!((r.len(), s.env_steps, s.opt_steps), (3, 4, 0));
}

#[test]
fn random_legal_is_the_draw_among_the_legal_indices() {
    let mask = vec![false, true, true, false, true, false, true];
    let legal = [1usize, 2, 4, 6];
    let mut rng = ChaCha8Rng::seed_from_u64(11);
    let mut twin = ChaCha8Rng::seed_from_u64(11);
    for _ in 0..50 {
        let i = random_legal(&mask, &mut rng);
        assert_eq!(i, legal[twin.gen_range(0..legal.len())]);
    }
}

#[test]
fn replay_sample_follows_the_generator() {
    let mut r: Replay<u32> = Replay::new(3);
    for t in [10u32, 20, 30] {
        r.push(t);
    }
    let mut rng = ChaCha8Rng::seed_from_u64(21);
    let mut twin = ChaCha8Rng::seed_from_u64(21);
    let sample = r.sample(40, &mut rng);
    let items = [10u32, 20, 30];
    for s in &sample {
        assert_eq!(**s, items[twin.gen_range(0..3)]);
    }
    // The two generators are left in the same state.
    assert_eq!(rng.gen_range(0..1000u32), twin.gen_range(0..1000u32));
}
