//! Experience replay: a fixed-capacity ring buffer of transitions, sampled in
//! random minibatches. Once full, each new transition overwrites the oldest.

use rand_chacha::ChaCha8Rng;
use vstd::prelude::*;

use crate::rng::{after_draws, draws, gen_index, index_draw};

verus! {

/// The model of a [`Replay`] buffer: its capacity, the stored items in
/// storage order, and the slot the next write goes to.
pub struct ReplayView<T> {
    pub cap: nat,
    pub buf: Seq<T>,
    pub pos: nat,
}

impl<T> ReplayView<T> {
    pub open spec fn wf(self) -> bool {
        &&& self.cap > 0
        &&& self.buf.len() <= self.cap
        &&& self.pos < self.cap
        &&& self.buf.len() < self.cap ==> self.pos == self.buf.len()
    }

    /// The stored items from oldest to newest.
    pub open spec fn history(self) -> Seq<T> {
        if self.buf.len() < self.cap {
            self.buf
        } else {
            self.buf.subrange(self.pos as int, self.cap as int) + self.buf.subrange(0, self.pos as int)
        }
    }

    /// The buffer after storing `t`: appended while there is room, otherwise
    /// written over the slot of the oldest item; the write slot moves on by
    /// one, wrapping around.
    pub open spec fn push(self, t: T) -> ReplayView<T> {
        ReplayView {
            cap: self.cap,
            buf: if self.buf.len() < self.cap { self.buf.push(t) } else { self.buf.update(self.pos as int, t) },
            pos: (self.pos + 1) % self.cap,
        }
    }
}

/// A fixed-capacity ring buffer. Once full, new items overwrite the oldest.
pub struct Replay<T> {
    cap: usize,
    buf: Vec<T>,
    pos: usize,
}

impl<T> View for Replay<T> {
    type V = ReplayView<T>;

    closed spec fn view(&self) -> ReplayView<T> {
        ReplayView { cap: self.cap as nat, buf: self.buf@, pos: self.pos as nat }
    }
}

impl<T> Replay<T> {
    /// An empty buffer holding at most `cap` items.
    pub fn new(cap: usize) -> (r: Replay<T>)
        requires
            cap > 0,
        ensures
            r@.wf(),
            r@ == (ReplayView::<T> { cap: cap as nat, buf: Seq::empty(), pos: 0 }),
    {
        Replay { cap, buf: Vec::with_capacity(cap), pos: 0 }
    }

    /// Number of stored items.
    pub fn len(&self) -> (n: usize)
        ensures
            n == self@.buf.len(),
    {
        self.buf.len()
    }

    pub fn is_empty(&self) -> (e: bool)
        ensures
            e == (self@.buf.len() == 0),
    {
        self.buf.len() == 0
    }

    /// Store `t` (see [`ReplayView::push`]).
    pub fn push(&mut self, t: T)
        requires
            old(self)@.wf(),
        ensures
            final(self)@.wf(),
            final(self)@ == old(self)@.push(t),
    {
        if self.buf.len() < self.cap {
            self.buf.push(t);
        } else {
            self.buf.set(self.pos, t);
        }
        proof {
            lemma_next_slot(self.pos as int, self.cap as int);
        }
        self.pos = (self.pos + 1) % self.cap;
    }

    /// Draw `batch` stored items uniformly at random, with replacement: item
    /// `k` is the stored item at the `k`-th successive draw below the number
    /// of stored items.
    pub fn sample(&self, batch: usize, rng: &mut ChaCha8Rng) -> (out: Vec<&T>)
        requires
            batch == 0 || self@.buf.len() > 0,
        ensures
            out@.len() == batch,
            forall|k: int| 0 <= k < batch ==> self@.buf.contains(*(#[trigger] out@[k])),
            forall|k: int|
                0 <= k < batch ==> *(#[trigger] out@[k]) == self@.buf[draws(
                    *old(rng),
                    self@.buf.len() as usize,
                    batch as nat,
                )[k] as int],
            *final(rng) == after_draws(*old(rng), self@.buf.len() as usize, batch as nat),
    {
        let ghost g0 = *rng;
        let n = self.buf.len();
        let mut out: Vec<&T> = Vec::new();
        let mut k: usize = 0;
        while k < batch
            invariant
                k <= batch,
                batch == 0 || n > 0,
                n == self@.buf.len(),
                out@.len() == k,
                *rng == after_draws(g0, n, k as nat),
                forall|q: int|
                    0 <= q < k ==> *(#[trigger] out@[q]) == self@.buf[draws(g0, n, k as nat)[q] as int]
                        && (draws(g0, n, k as nat)[q] as int) < n,
            decreases batch - k,
        {
            let ghost before = out@;
            let i = gen_index(rng, n);
            out.push(&self.buf[i]);
            proof {
                assert forall|q: int| 0 <= q < k + 1 implies *(#[trigger] out@[q]) == self@.buf[draws(
                    g0,
                    n,
                    (k + 1) as nat,
                )[q] as int] && (draws(g0, n, (k + 1) as nat)[q] as int) < n by {
                    assert(draws(g0, n, (k + 1) as nat)[q] == index_draw(after_draws(g0, n, q as nat), n, usize::BITS).0);
                    if q < k {
                        assert(draws(g0, n, k as nat)[q] == index_draw(after_draws(g0, n, q as nat), n, usize::BITS).0);
                        assert(out@[q] == before[q]);
                    }
                }
            }
            k = k + 1;
        }
        proof {
            assert forall|q: int| 0 <= q < batch implies self@.buf.contains(*(#[trigger] out@[q])) by {
                assert(self@.buf[draws(g0, n, batch as nat)[q] as int] == *out@[q]);
            }
        }
        out
    }
}

proof fn lemma_next_slot(i: int, n: int)
    requires
        0 <= i < n,
    ensures
        (i + 1) % n == if i + 1 < n { i + 1 } else { 0 },
{
    if i + 1 < n {
        vstd::arithmetic::div_mod::lemma_small_mod((i + 1) as nat, n as nat);
    } else {
        vstd::arithmetic::div_mod::lemma_mod_self_0(n);
    }
}

/// The ring buffer keeps the most recent items in arrival order: storing an
/// item appends it to the history, and once the buffer is full the oldest
/// item drops out. The history never exceeds the capacity.
pub proof fn law_replay_keeps_most_recent<T>(r: ReplayView<T>, t: T)
    requires
        r.wf(),
    ensures
        r.push(t).wf(),
        r.push(t).history() == if r.buf.len() < r.cap {
            r.history().push(t)
        } else {
            r.history().drop_first().push(t)
        },
        r.push(t).history().len() <= r.cap,
        r.push(t).buf.len() == if r.buf.len() < r.cap { r.buf.len() + 1 } else { r.cap },
        r.push(t).history().len() == r.push(t).buf.len(),
{
    let p = r.push(t);
    lemma_next_slot(r.pos as int, r.cap as int);
    assert(p.history().len() == p.buf.len());
    if r.buf.len() < r.cap {
        if r.buf.len() + 1 == r.cap {
            assert(p.pos == 0);
            assert(p.history() =~= p.buf.subrange(0, p.cap as int) + p.buf.subrange(0, 0));
        }
    } else {
        let n = r.cap as int;
        let i = r.pos as int;
        let h = r.history();
        if i + 1 < n {
            assert(p.pos == i + 1);
            assert(p.history() =~= h.drop_first().push(t));
        } else {
            assert(p.pos == 0);
            assert(p.history() =~= h.drop_first().push(t));
        }
    }
}


/// The buffer after storing each of `ts` in turn.
pub open spec fn push_all<T>(r: ReplayView<T>, ts: Seq<T>) -> ReplayView<T>
    decreases ts.len(),
{
    if ts.len() == 0 {
        r
    } else {
        push_all(r, ts.drop_last()).push(ts.last())
    }
}

/// Storing `n` items in a new buffer of capacity `cap` keeps the last
/// `min(n, cap)` of them, oldest first: once full, each new item overwrites
/// the oldest.
pub proof fn law_replay_keeps_last<T>(cap: nat, ts: Seq<T>)
    requires
        cap > 0,
    ensures
        ({
            let r = push_all(ReplayView { cap, buf: Seq::empty(), pos: 0 }, ts);
            let kept = if ts.len() < cap { ts.len() as int } else { cap as int };
            &&& r.wf()
            &&& r.cap == cap
            &&& r.buf.len() == kept
            &&& r.history() == ts.subrange(ts.len() - kept, ts.len() as int)
        }),
    decreases ts.len(),
{
    let e = ReplayView::<T> { cap, buf: Seq::empty(), pos: 0 };
    if ts.len() == 0 {
        assert(e.history() =~= ts.subrange(0, 0));
    } else {
        let p = ts.drop_last();
        law_replay_keeps_last(cap, p);
        let q = push_all(e, p);
        let t = ts.last();
        law_replay_keeps_most_recent(q, t);
        let n = ts.len() as int;
        if q.buf.len() < q.cap {
            assert(q.history().push(t) =~= ts.subrange(0, n));
        } else {
            assert(n - 1 >= cap);
            let h = q.history();
            assert(h == p.subrange(n - 1 - cap, n - 1));
            assert(h.len() == cap);
            assert forall|i: int| 0 <= i < cap implies #[trigger] h.drop_first().push(t)[i] == ts.subrange(n - cap, n)[i] by {
                if i + 1 < cap {
                    assert(h.drop_first().push(t)[i] == h[i + 1]);
                    assert(h[i + 1] == p[n - cap + i]);
                }
            }
            assert(h.drop_first().push(t) =~= ts.subrange(n - cap, n));
        }
    }
}

} // verus!
