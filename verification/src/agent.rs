//! The integer side of the agents: a uniformly random legal player, and the
//! cadence at which the Double-DQN learner trains and syncs its target network.

use rand_chacha::ChaCha8Rng;
use vstd::prelude::*;

use crate::replay::Replay;
use crate::rng::{gen_index, index_draw, seed_rng, seeded_generator};

verus! {

/// The indices of the legal actions, in increasing order.
pub open spec fn legal_indices(mask: Seq<bool>) -> Seq<usize>
    decreases mask.len(),
{
    if mask.len() == 0 {
        Seq::empty()
    } else {
        let rest = legal_indices(mask.drop_last());
        if mask.last() {
            rest.push((mask.len() - 1) as usize)
        } else {
            rest
        }
    }
}

proof fn lemma_legal_indices(mask: Seq<bool>)
    requires
        mask.len() <= usize::MAX,
    ensures
        forall|k: int|
            0 <= k < legal_indices(mask).len() ==> (#[trigger] legal_indices(mask)[k]) < mask.len()
                && mask[legal_indices(mask)[k] as int],
        (exists|i: int| 0 <= i < mask.len() && mask[i]) ==> legal_indices(mask).len() > 0,
    decreases mask.len(),
{
    if mask.len() > 0 {
        lemma_legal_indices(mask.drop_last());
        if exists|i: int| 0 <= i < mask.len() && mask[i] {
            let i = choose|i: int| 0 <= i < mask.len() && mask[i];
            if i < mask.len() - 1 {
                assert(mask.drop_last()[i]);
            }
        }
    }
}

/// The legal indices are exactly the positions of the mask that are set, in
/// strictly increasing order: every set position is listed once, and nothing
/// else is.
pub proof fn law_legal_indices_are_the_set_positions(mask: Seq<bool>)
    requires
        mask.len() <= usize::MAX,
    ensures
        forall|k: int|
            0 <= k < legal_indices(mask).len() ==> (#[trigger] legal_indices(mask)[k]) < mask.len()
                && mask[legal_indices(mask)[k] as int],
        forall|i: int| 0 <= i < mask.len() && mask[i] ==> #[trigger] legal_indices(mask).contains(i as usize),
        forall|a: int, b: int|
            0 <= a < b < legal_indices(mask).len() ==> #[trigger] legal_indices(mask)[a] < #[trigger] legal_indices(
                mask,
            )[b],
    decreases mask.len(),
{
    lemma_legal_indices(mask);
    if mask.len() > 0 {
        let p = mask.drop_last();
        law_legal_indices_are_the_set_positions(p);
        let lp = legal_indices(p);
        let l = legal_indices(mask);
        assert forall|i: int| 0 <= i < mask.len() && mask[i] implies #[trigger] l.contains(i as usize) by {
            if i < mask.len() - 1 {
                assert(p[i]);
                assert(lp.contains(i as usize));
                let k = choose|k: int| 0 <= k < lp.len() && lp[k] == i as usize;
                assert(l[k] == lp[k]);
            } else {
                assert(l[l.len() - 1] == i as usize);
            }
        }
        assert forall|a: int, b: int| 0 <= a < b < l.len() implies #[trigger] l[a] < #[trigger] l[b] by {
            if mask.last() && b == l.len() - 1 {
                assert(l[a] == lp[a]);
                assert(lp[a] < p.len());
            } else {
                assert(l[a] == lp[a]);
                assert(l[b] == lp[b]);
            }
        }
    }
}

/// Pick a uniformly random legal action index (a legal index must exist):
/// one draw below the number of legal indices picks among them, in
/// increasing order.
pub fn random_legal(mask: &[bool], rng: &mut ChaCha8Rng) -> (idx: usize)
    requires
        exists|i: int| 0 <= i < mask@.len() && mask@[i],
    ensures
        idx < mask@.len(),
        mask@[idx as int],
        legal_indices(mask@).contains(idx),
        idx == legal_indices(mask@)[index_draw(*old(rng), legal_indices(mask@).len() as usize, usize::BITS).0 as int],
        *final(rng) == index_draw(*old(rng), legal_indices(mask@).len() as usize, usize::BITS).1,
{
    let mut legal: Vec<usize> = Vec::new();
    let n = mask.len();
    let mut i: usize = 0;
    while i < n
        invariant
            i <= n,
            n == mask@.len(),
            legal@ == legal_indices(mask@.take(i as int)),
        decreases n - i,
    {
        proof {
            assert(mask@.take(i + 1).drop_last() == mask@.take(i as int));
        }
        if mask[i] {
            legal.push(i);
        }
        i = i + 1;
    }
    proof {
        assert(mask@.take(n as int) == mask@);
        lemma_legal_indices(mask@);
    }
    let k = gen_index(rng, legal.len());
    legal[k]
}

/// Picks a uniformly random legal action. Seeded for reproducibility.
pub struct RandomAgent {
    rng: ChaCha8Rng,
}

impl RandomAgent {
    /// The generator the agent draws from.
    pub closed spec fn generator(&self) -> ChaCha8Rng {
        self.rng
    }

    /// An agent whose generator is ChaCha8 seeded with `seed`: two agents
    /// built from the same seed and shown the same masks make the same
    /// choices (see [`RandomAgent::act`]).
    pub fn new(seed: u64) -> (a: RandomAgent)
        ensures
            a.generator() == seeded_generator(seed),
    {
        RandomAgent { rng: seed_rng(seed) }
    }

    /// Choose a legal flat action index (NOOP is always legal in a game, so
    /// one exists). The choice is the agent's next draw among the legal
    /// indices, so it depends on the seed, the earlier calls and the mask
    /// alone.
    pub fn act(&mut self, mask: &[bool]) -> (idx: usize)
        requires
            exists|i: int| 0 <= i < mask@.len() && mask@[i],
        ensures
            idx < mask@.len(),
            mask@[idx as int],
            idx == legal_indices(mask@)[index_draw(old(self).generator(), legal_indices(mask@).len() as usize, usize::BITS).0 as int],
            final(self).generator() == index_draw(old(self).generator(), legal_indices(mask@).len() as usize, usize::BITS).1,
    {
        random_legal(mask, &mut self.rng)
    }
}

/// The step cadence of the learner: how many environment steps it has
/// observed and how many optimiser steps it has taken, and when each of
/// learning and target-network syncing is due.
pub struct LearnSchedule {
    pub env_steps: u64,
    pub opt_steps: u64,
    /// Fill the buffer this much before learning starts.
    pub warmup: usize,
    /// Run one optimiser step every this many env steps.
    pub train_every: u64,
    /// Sync the target net to the online net every this many optimiser steps.
    pub target_update_every: u64,
}

impl LearnSchedule {
    pub fn new(warmup: usize, train_every: u64, target_update_every: u64) -> (s: LearnSchedule)
        ensures
            s == (LearnSchedule { env_steps: 0, opt_steps: 0, warmup, train_every, target_update_every }),
    {
        LearnSchedule { env_steps: 0, opt_steps: 0, warmup, train_every, target_update_every }
    }

    /// One more environment step was stored; the buffer now holds
    /// `replay_len` items. Returns whether a learning step is due: once the
    /// buffer has warmed up, on every `train_every`-th env step.
    pub fn observe(&mut self, replay_len: usize) -> (learn: bool)
        requires
            old(self).env_steps < u64::MAX,
            replay_len < old(self).warmup || old(self).train_every > 0,
        ensures
            *final(self) == (LearnSchedule { env_steps: (old(self).env_steps + 1) as u64, ..*old(self) }),
            learn == (replay_len >= old(self).warmup && (old(self).env_steps + 1) % (old(self).train_every as int)
                == 0),
    {
        self.env_steps = self.env_steps + 1;
        if replay_len < self.warmup || self.env_steps % self.train_every != 0 {
            return false;
        }
        true
    }

    /// One optimiser step was taken. Returns whether the target network is
    /// due to be synced: on every `target_update_every`-th optimiser step.
    pub fn learned(&mut self) -> (sync: bool)
        requires
            old(self).opt_steps < u64::MAX,
            old(self).target_update_every > 0,
        ensures
            *final(self) == (LearnSchedule { opt_steps: (old(self).opt_steps + 1) as u64, ..*old(self) }),
            sync == ((old(self).opt_steps + 1) % (old(self).target_update_every as int) == 0),
    {
        self.opt_steps = self.opt_steps + 1;
        self.opt_steps % self.target_update_every == 0
    }
}


/// Store one transition and count one env step. Returns whether a learning
/// step is due: once the buffer, with the new transition in it, holds at
/// least `warmup` items, on every `train_every`-th env step. The buffer grows
/// by one up to its capacity.
pub fn observe_transition<T>(replay: &mut Replay<T>, schedule: &mut LearnSchedule, t: T) -> (learn: bool)
    requires
        old(replay)@.wf(),
        old(schedule).env_steps < u64::MAX,
        old(replay)@.push(t).buf.len() < old(schedule).warmup || old(schedule).train_every > 0,
    ensures
        final(replay)@.wf(),
        final(replay)@ == old(replay)@.push(t),
        final(replay)@.buf.len() == if old(replay)@.buf.len() < old(replay)@.cap {
            old(replay)@.buf.len() + 1
        } else {
            old(replay)@.cap
        },
        *final(schedule) == (LearnSchedule { env_steps: (old(schedule).env_steps + 1) as u64, ..*old(schedule) }),
        learn == (final(replay)@.buf.len() >= old(schedule).warmup && (old(schedule).env_steps + 1) % (
        old(schedule).train_every as int) == 0),
{
    proof {
        crate::replay::law_replay_keeps_most_recent(replay@, t);
    }
    replay.push(t);
    let n = replay.len();
    schedule.observe(n)
}

} // verus!
