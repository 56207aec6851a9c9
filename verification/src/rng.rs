//! The seeded ChaCha8 generator of `rand_chacha`, reached through two trusted
//! calls: seeding, and drawing an index below a bound.

use rand::Rng;
use rand::SeedableRng;
use rand_chacha::ChaCha8Rng;
use vstd::prelude::*;

verus! {

#[verifier::external_type_specification]
#[verifier::external_body]
pub struct ExChaCha8Rng(ChaCha8Rng);

/// The generator that `ChaCha8Rng::seed_from_u64(seed)` builds. Its state is
/// opaque here; `seed_from_u64` expands the seed deterministically (a PCG32
/// stream fills the ChaCha key), so the same seed always gives the same
/// generator.
pub uninterp spec fn seeded_generator(seed: u64) -> ChaCha8Rng;

/// Calls `rand_core::SeedableRng::seed_from_u64` for `ChaCha8Rng`. Claimed:
/// the generator is the one named by `seeded_generator(seed)`, that is, it
/// depends on the seed alone.
#[verifier::external_body]
pub(crate) fn seed_rng(seed: u64) -> (r: ChaCha8Rng)
    ensures
        r == seeded_generator(seed),
{
    ChaCha8Rng::seed_from_u64(seed)
}

/// What `rand::Rng::gen_range(0..n)` does to generator `g` on a machine
/// whose `usize` has `word_bits` bits: the index it draws, and the
/// generator's state afterwards. A ChaCha8 generator is deterministic, so the
/// draw depends on the generator, the bound and the word size alone (rand
/// samples `usize` ranges differently on 32- and 64-bit machines).
pub uninterp spec fn index_draw(g: ChaCha8Rng, n: usize, word_bits: u32) -> (usize, ChaCha8Rng);

/// Calls `rand::Rng::gen_range(0..n)` on the generator. `gen_range` panics on
/// an empty range, hence `n > 0`. Claimed: the draw lies in `0..n`, and the
/// index and the generator's new state are those named by `index_draw` for
/// the generator as it was, the bound and this machine's word size.
#[verifier::external_body]
pub(crate) fn gen_index(rng: &mut ChaCha8Rng, n: usize) -> (r: usize)
    requires
        n > 0,
    ensures
        r < n,
        (r, *final(rng)) == index_draw(*old(rng), n, usize::BITS),
{
    rng.gen_range(0..n)
}

/// The generator after `k` successive draws below `n`, starting from `g`.
pub open spec fn after_draws(g: ChaCha8Rng, n: usize, k: nat) -> ChaCha8Rng
    decreases k,
{
    if k == 0 {
        g
    } else {
        index_draw(after_draws(g, n, (k - 1) as nat), n, usize::BITS).1
    }
}

/// The indices that `k` successive draws below `n` give, starting from `g`.
pub open spec fn draws(g: ChaCha8Rng, n: usize, k: nat) -> Seq<usize> {
    Seq::new(k, |j: int| index_draw(after_draws(g, n, j as nat), n, usize::BITS).0)
}

} // verus!
