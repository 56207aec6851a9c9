//! Laws of the game rules, stated over [`GameView`] and the spec functions
//! that the operations of [`crate::game::GameState`] are specified by.

use vstd::prelude::*;

use crate::game::{cell_index, swap_removed, group_due, lemma_decode_place, lemma_due_bounded, lemma_spawn_list_breeds, GameView, TickOutcome, WavePhase};
use crate::game::{dog_cells, DogSlot};
use crate::types::Action;

verus! {

/// The action mask is the source of truth: an action index is legal exactly
/// when applying its decoded action changes the game; an illegal one is
/// treated as NOOP and leaves the game as it was. NOOP is always legal.
pub proof fn law_mask_is_legality(v: GameView, i: int)
    requires
        v.wf(),
        0 <= i < v.action_count(),
    ensures
        v.mask()[i] == (i == 0 || v.apply(v.decode(i)) != v),
        !v.mask()[i] ==> v.apply(v.decode(i)) == v,
        v.mask()[0],
{
    if i != 0 {
        match v.decode(i) {
            Action::Noop => {},
            Action::Place { dog, cell } => {
                if v.place_ok(dog, cell) {
                    assert(v.apply(v.decode(i)).dogs.len() == v.dogs.len() + 1);
                }
            },
        }
    }
}

/// Every index below the action count other than NOOP decodes to a placement
/// of an existing breed on an existing buildable cell.
pub proof fn law_decode_in_range(v: GameView, i: int)
    requires
        v.wf(),
        0 < i < v.action_count(),
    ensures
        v.decode(i) matches Action::Place { dog, cell } && dog < v.dog_costs.len() && cell < v.buildable.len(),
{
    let b = v.buildable.len() as int;
    let n = v.dog_costs.len() as int;
    let j = i - 1;
    assert(b > 0) by {
        if b == 0 {
            assert(n * b == 0) by (nonlinear_arith)
                requires
                    b == 0,
            ;
        }
    }
    vstd::arithmetic::div_mod::lemma_fundamental_div_mod(j, b);
    let q = j / b;
    let r = j % b;
    assert(q < n) by (nonlinear_arith)
        requires
            j == b * q + r,
            0 <= r < b,
            0 <= j < n * b,
    ;
    assert(0 <= q) by (nonlinear_arith)
        requires
            j == b * q + r,
            0 <= r < b,
            0 <= j,
    ;
}

/// A placed action index round-trips: the index `1 + dog * buildable + k`
/// that names breed `dog` on buildable cell number `k` is an action index,
/// and it decodes back to that very placement.
pub proof fn law_place_index_roundtrip(v: GameView, dog: usize, k: int)
    requires
        v.wf(),
        dog < v.dog_costs.len(),
        0 <= k < v.buildable.len(),
    ensures
        1 + dog * v.buildable.len() + k < v.action_count(),
        v.decode(1 + dog * v.buildable.len() + k) == (Action::Place { dog, cell: k as usize }),
{
    let b = v.buildable.len() as int;
    let n = v.dog_costs.len() as int;
    assert(dog * b + k < n * b) by (nonlinear_arith)
        requires
            0 <= dog < n,
            0 <= k < b,
    ;
    lemma_decode_place(v, dog as int, k);
}

/// Two cells of one row width share a row-major index only if they are the
/// same cell.
proof fn lemma_cell_index_injective(w: usize, a: (usize, usize), b: (usize, usize))
    requires
        a.0 < w,
        b.0 < w,
        cell_index(w, a) == cell_index(w, b),
    ensures
        a == b,
{
    let ax = a.0 as int;
    let ay = a.1 as int;
    let bx = b.0 as int;
    let by = b.1 as int;
    let wi = w as int;
    if ay < by {
        vstd::arithmetic::mul::lemma_mul_inequality(ay + 1, by, wi);
        assert((ay + 1) * wi == ay * wi + wi) by (nonlinear_arith);
    } else if by < ay {
        vstd::arithmetic::mul::lemma_mul_inequality(by + 1, ay, wi);
        assert((by + 1) * wi == by * wi + wi) by (nonlinear_arith);
    }
}

/// The mask in terms of the dogs on the field: breed `d` may be placed on
/// buildable cell number `c` exactly when the game is not over, the breed is
/// affordable, and no dog stands on that cell.
pub proof fn law_mask_by_dogs(v: GameView, d: usize, c: usize)
    requires
        v.wf(),
        d < v.dog_costs.len(),
        c < v.buildable.len(),
    ensures
        1 + d * v.buildable.len() + c < v.action_count(),
        v.mask()[1 + d * v.buildable.len() + c] == (!v.done && v.money >= v.dog_costs[d as int] && !(exists|k: int|
            0 <= k < v.dogs.len() && (#[trigger] v.dogs[k]).cell == v.buildable[c as int])),
{
    law_place_index_roundtrip(v, d, c as int);
    let w = v.grid.width;
    let cell = v.buildable[c as int];
    crate::game::lemma_buildable_cells(v.grid);
    crate::game::lemma_cell_in_grid(cell.0, cell.1, w, v.grid.height);
    let i = cell_index(w, cell);
    let cells = dog_cells(v.dogs);
    assert(v.occupied[i] <==> exists|k: int| 0 <= k < cells.len() && cell_index(w, #[trigger] cells[k]) == i);
    if exists|k: int| 0 <= k < v.dogs.len() && (#[trigger] v.dogs[k]).cell == cell {
        let k = choose|k: int| 0 <= k < v.dogs.len() && (#[trigger] v.dogs[k]).cell == cell;
        assert(cells[k] == cell);
        assert(v.occupied[i]);
    }
    if v.occupied[i] {
        let k = choose|k: int| 0 <= k < cells.len() && cell_index(w, #[trigger] cells[k]) == i;
        assert(cells[k] == v.dogs[k].cell);
        lemma_cell_index_injective(w, v.dogs[k].cell, cell);
        assert(v.dogs[k].cell == cell);
    }
}

/// A cell that a dog was just placed on can no longer be built on, whatever
/// the breed: every action index naming that cell is now illegal.
pub proof fn law_occupied_cell_not_buildable(v: GameView, dog: usize, cell: usize, other: usize)
    requires
        v.wf(),
        v.place_ok(dog, cell),
        other < v.dog_costs.len(),
    ensures
        v.apply(Action::Place { dog, cell }).wf(),
        !v.apply(Action::Place { dog, cell }).legal(1 + other * v.buildable.len() + cell),
{
    let w = v.apply(Action::Place { dog, cell });
    crate::game::lemma_buildable_cells(v.grid);
    lemma_decode_place(w, other as int, cell as int);
    let c = v.buildable[cell as int];
    crate::game::lemma_cell_in_grid(c.0, c.1, v.grid.width, v.grid.height);
    assert(w.occupied[cell_index(v.grid.width, c)]);
    crate::game::lemma_place_keeps_occupancy(v.occupied, crate::game::dog_cells(v.dogs), v.grid.width, c);
    assert(crate::game::dog_cells(w.dogs) =~= crate::game::dog_cells(v.dogs).push(c));
    assert(w.wf()) by {
        assert forall|i: int| 0 <= i < w.dogs.len() implies {
            let d = #[trigger] w.dogs[i];
            &&& d.spec < w.dog_costs.len()
            &&& d.cell.0 < w.grid.width
            &&& d.cell.1 < w.grid.height
        } by {
            if i < v.dogs.len() {
                assert(w.dogs[i] == v.dogs[i]);
            }
        }
    }
}

/// A placement spends exactly the breed's cost out of the money on hand and
/// puts a dog of that breed, ready to fire, on that buildable cell; any other
/// action spends nothing.
pub proof fn law_spending(v: GameView, a: Action)
    requires
        v.wf(),
    ensures
        v.apply(a).money <= v.money,
        match a {
            Action::Place { dog, cell } => v.place_ok(dog, cell) ==> {
                &&& v.apply(a).money == v.money - v.dog_costs[dog as int]
                &&& v.apply(a).dogs == v.dogs.push(DogSlot { spec: dog, cell: v.buildable[cell as int], cooldown: 0 })
            },
            Action::Noop => v.apply(a) == v,
        },
{
}

/// Once the game is over it stays as it is: every action is treated as NOOP
/// and the mask allows NOOP only.
pub proof fn law_done_is_absorbing(v: GameView, a: Action, i: int)
    requires
        v.wf(),
        v.done,
        0 <= i < v.action_count(),
    ensures
        v.apply(a) == v,
        v.mask()[i] == (i == 0),
{
}

/// Resetting depends on the configuration only: two games with the same
/// configuration reset to the same state, whatever was played before (and
/// whatever the seed: the rules draw nothing at random). A reset game is
/// well formed and a second reset changes nothing.
pub proof fn law_reset_forgets_play(v: GameView, u: GameView)
    requires
        v.wf(),
        u.wf(),
        u.grid == v.grid,
        u.dog_costs == v.dog_costs,
        u.bounties == v.bounties,
        u.lives_costs == v.lives_costs,
        u.max_tracked == v.max_tracked,
        u.start_money == v.start_money,
        u.start_lives == v.start_lives,
        u.breather_ticks == v.breather_ticks,
        u.waves == v.waves,
        u.spawned.len() == v.spawned.len(),
    ensures
        u.reset_view() == v.reset_view(),
        v.reset_view().wf(),
        v.reset_view().reset_view() == v.reset_view(),
        v.reset_view().money == v.start_money,
        v.reset_view().lives == v.start_lives,
        v.reset_view().tick == 0,
        !v.reset_view().done,
        !v.reset_view().won,
        v.reset_view().enemies.len() == 0,
        v.reset_view().dogs.len() == 0,
        v.reset_view().wave_idx == 0,
        v.reset_view().wave_clock == 0,
        v.reset_view().phase == WavePhase::Spawning,
        forall|g: int| 0 <= g < v.reset_view().spawned.len() ==> #[trigger] v.reset_view().spawned[g] == 0,
        forall|i: int| 0 <= i < v.reset_view().occupied.len() ==> !#[trigger] v.reset_view().occupied[i],
        v.reset_view().mask() == Seq::new(v.action_count() as nat, |i: int| i == 0 || {
            let b = v.buildable.len() as int;
            v.start_money >= v.dog_costs[(i - 1) / b]
        }),
{
    assert(u.occupied.len() == v.occupied.len());
    assert(u.buildable == v.buildable);
    assert(u.reset_view().occupied =~= v.reset_view().occupied);
    assert(u.reset_view().spawned =~= v.reset_view().spawned);
    assert(v.reset_view().reset_view().occupied =~= v.reset_view().occupied);
    assert(v.reset_view().reset_view().spawned =~= v.reset_view().spawned);
    let r = v.reset_view();
    assert forall|i: int| 0 <= i < v.action_count() implies #[trigger] r.mask()[i] == (i == 0 || {
        let b = v.buildable.len() as int;
        v.start_money >= v.dog_costs[(i - 1) / b]
    }) by {
        if i > 0 {
            law_decode_in_range(r, i);
            crate::game::lemma_buildable_cells(v.grid);
            match r.decode(i) {
                Action::Place { dog, cell } => {
                    let c = v.buildable[cell as int];
                    crate::game::lemma_cell_in_grid(c.0, c.1, v.grid.width, v.grid.height);
                    assert(!r.occupied[cell_index(v.grid.width, c)]);
                    assert(dog as int == (i - 1) / (v.buildable.len() as int));
                },
                Action::Noop => {},
            }
        }
    }
    assert(r.mask() =~= Seq::new(v.action_count() as nat, |i: int| i == 0 || {
        let b = v.buildable.len() as int;
        v.start_money >= v.dog_costs[(i - 1) / b]
    }));
}

/// The end of a tick never gives lives back, never touches money, dogs or
/// the tick counter, and moves at most one wave forward. A game with no
/// lives left is lost; a game is won only by clearing every enemy of the
/// last wave.
pub proof fn law_end_of_tick(v: GameView)
    requires
        v.wf(),
        !v.done,
        v.waves.len() > 0,
    ensures
        ({
            let (w, o) = v.end_tick();
            &&& w.wf()
            &&& w.lives == v.lives
            &&& w.money == v.money
            &&& w.dogs == v.dogs
            &&& w.enemies == v.enemies
            &&& w.tick == v.tick
            &&& v.wave_idx <= w.wave_idx <= v.wave_idx + 1
            &&& (v.lives == 0 <==> o == TickOutcome::Lost)
            &&& (o == TickOutcome::Lost ==> w.done && !w.won)
            &&& (w.won <==> o == TickOutcome::GameWon)
            &&& (o == TickOutcome::GameWon ==> w.done && v.wave_idx + 1 == v.waves.len() && v.all_spawned()
                && v.enemies.len() == 0)
            &&& (!w.done ==> o == TickOutcome::Ongoing || o == TickOutcome::WaveSurvived)
            &&& (w.done && !w.won <==> w.lives == 0)
            &&& (w.won ==> w.lives >= 1)
        }),
{
    let (w, o) = v.end_tick();
    if v.lives != 0 {
        match v.phase {
            WavePhase::Spawning => {},
            WavePhase::Breather { ticks_left } => {
                assert(v.wave_idx + 1 < v.waves.len());
                if ticks_left - 1 == 0 {
                    assert forall|wi: int| 0 <= wi < w.waves.len() implies (#[trigger] w.waves[wi]).len() <= w.spawned.len() by {
                        assert(v.waves[wi].len() <= v.spawned.len());
                    }
                }
            },
        }
    }
}


/// Spawning follows the wave's script: no group releases more enemies than
/// it holds, every spawn released is due (its tick has come), and every breed
/// that appears is the breed of one of the current wave's groups.
pub proof fn law_spawns_follow_schedule(v: GameView)
    requires
        v.wf(),
        v.waves.len() > 0,
        v.phase == WavePhase::Spawning,
    ensures
        forall|g: int|
            0 <= g < v.current_groups().len() ==> {
                &&& v.spawned[g] <= #[trigger] v.after_spawn().spawned[g]
                &&& v.after_spawn().spawned[g] <= v.current_groups()[g].1.len()
                &&& forall|k: int|
                    v.spawned[g] <= k < v.after_spawn().spawned[g] ==> v.current_groups()[g].1[k] <= v.wave_clock
            },
        forall|i: int|
            0 <= i < v.spawns().len() ==> exists|g: int|
                0 <= g < v.current_groups().len() && (#[trigger] v.spawns()[i]) == v.current_groups()[g].0,
{
    let groups = v.current_groups();
    assert(groups.len() <= v.spawned.len());
    assert forall|g: int| 0 <= g < groups.len() implies {
        &&& v.spawned[g] <= #[trigger] v.after_spawn().spawned[g]
        &&& v.after_spawn().spawned[g] <= groups[g].1.len()
        &&& forall|k: int| v.spawned[g] <= k < v.after_spawn().spawned[g] ==> groups[g].1[k] <= v.wave_clock
    } by {
        lemma_due_bounded(groups[g].1, v.spawned[g] as int, v.wave_clock);
        assert(groups[g].1.len() <= u32::MAX);
        assert(v.after_spawn().spawned[g] == v.spawned[g] + group_due(groups, v.spawned, v.wave_clock, g));
    }
    lemma_spawn_list_breeds(groups, v.spawned, v.wave_clock, groups.len());
}


/// Taking an element out of a sequence by moving the last one into its place
/// removes exactly that element and keeps all the others.
proof fn lemma_swap_removed_multiset(s: Seq<usize>, i: int)
    requires
        0 <= i < s.len(),
    ensures
        swap_removed(s, i).to_multiset() == s.to_multiset().remove(s[i]),
        swap_removed(s, i).len() == s.len() - 1,
{
    broadcast use {
        vstd::multiset::group_multiset_axioms,
        vstd::seq_lib::to_multiset_update,
        vstd::seq_lib::to_multiset_build,
    };

    let last = s.last();
    let u = s.update(i, last);
    let d = u.drop_last();
    assert(u == d.push(last));
    assert(u.to_multiset() == d.to_multiset().insert(last));
    assert(u.to_multiset() == s.to_multiset().insert(last).remove(s[i]));
    assert(s.to_multiset().count(s[i]) > 0) by {
        vstd::seq_lib::to_multiset_contains(s, s[i]);
    }
    assert forall|x: usize| #[trigger] d.to_multiset().count(x) == s.to_multiset().remove(s[i]).count(x) by {
        assert(d.to_multiset().insert(last).count(x) == u.to_multiset().count(x));
    }
    assert(d.to_multiset() =~= s.to_multiset().remove(s[i]));
}

/// A kill or a leak takes exactly that enemy off the field and leaves every
/// other one on it. A kill pays the breed's bounty; a leak costs the breed's
/// lives (at most those left) and nothing else.
pub proof fn law_removal_keeps_the_rest(v: GameView, ei: int)
    requires
        v.wf(),
        0 <= ei < v.enemies.len(),
    ensures
        v.after_kill(ei).enemies.to_multiset() == v.enemies.to_multiset().remove(v.enemies[ei]),
        v.after_leak(ei).enemies.to_multiset() == v.enemies.to_multiset().remove(v.enemies[ei]),
        v.after_kill(ei).enemies.len() == v.enemies.len() - 1,
        v.after_kill(ei).money == v.money + v.bounties[v.enemies[ei] as int]
            || v.money + v.bounties[v.enemies[ei] as int] > u32::MAX,
        v.after_leak(ei).lives + v.leak_cost(ei) == v.lives,
        v.after_leak(ei).lives == 0 || v.leak_cost(ei) == v.lives_costs[v.enemies[ei] as int],
{
    lemma_swap_removed_multiset(v.enemies, ei);
}


/// What happens to one enemy during the movement phase of a tick: it is shot
/// down, or it reaches the door. The number is its position on the field at
/// that moment.
pub enum FieldEvent {
    Kill(usize),
    Leak(usize),
}

/// Can the event happen in state `v`: the enemy is on the field (and a
/// bounty still fits in the purse).
pub open spec fn event_ok(v: GameView, e: FieldEvent) -> bool {
    match e {
        FieldEvent::Kill(ei) => ei < v.enemies.len() && v.money + v.bounties[v.enemies[ei as int] as int] <= u32::MAX,
        FieldEvent::Leak(ei) => ei < v.enemies.len(),
    }
}

/// The state after one event.
pub open spec fn after_event(v: GameView, e: FieldEvent) -> GameView {
    match e {
        FieldEvent::Kill(ei) => v.after_kill(ei as int),
        FieldEvent::Leak(ei) => v.after_leak(ei as int),
    }
}

/// The state after a run of events, in order.
pub open spec fn after_events(v: GameView, es: Seq<FieldEvent>) -> GameView
    decreases es.len(),
{
    if es.len() == 0 {
        v
    } else {
        after_event(after_events(v, es.drop_last()), es.last())
    }
}

/// Can every event of the run happen, each in the state the earlier ones left?
pub open spec fn events_ok(v: GameView, es: Seq<FieldEvent>) -> bool
    decreases es.len(),
{
    es.len() == 0 || (events_ok(v, es.drop_last()) && event_ok(after_events(v, es.drop_last()), es.last()))
}

/// The breeds of the enemies the run kills, in order.
pub open spec fn killed(v: GameView, es: Seq<FieldEvent>) -> Seq<usize>
    decreases es.len(),
{
    if es.len() == 0 {
        Seq::empty()
    } else {
        let before = after_events(v, es.drop_last());
        match es.last() {
            FieldEvent::Kill(ei) => killed(v, es.drop_last()).push(before.enemies[ei as int]),
            FieldEvent::Leak(_) => killed(v, es.drop_last()),
        }
    }
}

/// The breeds of the enemies that reach the door during the run, in order.
pub open spec fn leaked(v: GameView, es: Seq<FieldEvent>) -> Seq<usize>
    decreases es.len(),
{
    if es.len() == 0 {
        Seq::empty()
    } else {
        let before = after_events(v, es.drop_last());
        match es.last() {
            FieldEvent::Kill(_) => leaked(v, es.drop_last()),
            FieldEvent::Leak(ei) => leaked(v, es.drop_last()).push(before.enemies[ei as int]),
        }
    }
}

/// The total of `costs` over a list of breeds.
pub open spec fn sum_of(costs: Seq<u32>, breeds: Seq<usize>) -> int
    decreases breeds.len(),
{
    if breeds.len() == 0 {
        0
    } else {
        sum_of(costs, breeds.drop_last()) + costs[breeds.last() as int]
    }
}

/// A kill or a leak keeps the game well formed.
proof fn lemma_event_keeps_wf(v: GameView, e: FieldEvent)
    requires
        v.wf(),
        event_ok(v, e),
    ensures
        after_event(v, e).wf(),
{
    let ei = match e {
        FieldEvent::Kill(ei) => ei,
        FieldEvent::Leak(ei) => ei,
    };
    let u = after_event(v, e);
    assert(u.enemies == swap_removed(v.enemies, ei as int));
    assert forall|i: int| 0 <= i < u.enemies.len() implies #[trigger] u.enemies[i] < u.bounties.len() by {
        if i == ei {
            assert(u.enemies[i] == v.enemies[v.enemies.len() - 1]);
        } else {
            assert(u.enemies[i] == v.enemies[i]);
        }
    }
}

/// The movement phase of a tick, as a run of kills and leaks: every killed
/// enemy pays its breed's bounty, every enemy at the door costs its breed's
/// lives (the lives never drop below zero), each such enemy leaves the field
/// and every other one stays, and nothing else changes.
pub proof fn law_field_events(v: GameView, es: Seq<FieldEvent>)
    requires
        v.wf(),
        events_ok(v, es),
    ensures
        ({
            let w = after_events(v, es);
            let lost = sum_of(v.lives_costs, leaked(v, es));
            &&& w.wf()
            &&& w.money == v.money + sum_of(v.bounties, killed(v, es))
            &&& w.lives == if lost < v.lives { v.lives - lost } else { 0 }
            &&& w.enemies.to_multiset().add(killed(v, es).to_multiset()).add(leaked(v, es).to_multiset())
                == v.enemies.to_multiset()
            &&& w.enemies.len() + killed(v, es).len() + leaked(v, es).len() == v.enemies.len()
            &&& w == (GameView { money: w.money, lives: w.lives, enemies: w.enemies, ..v })
        }),
    decreases es.len(),
{
    broadcast use {
        vstd::multiset::group_multiset_axioms,
        vstd::seq_lib::to_multiset_build,
        vstd::seq_lib::to_multiset_contains,
    };

    if es.len() > 0 {
        let p = es.drop_last();
        let e = es.last();
        law_field_events(v, p);
        let mid = after_events(v, p);
        lemma_event_keeps_wf(mid, e);
        let w = after_events(v, es);
        assert(w == after_event(mid, e));
        let kp = killed(v, p);
        let lp = leaked(v, p);
        let k = killed(v, es);
        let l = leaked(v, es);
        let ei = match e {
            FieldEvent::Kill(ei) => ei,
            FieldEvent::Leak(ei) => ei,
        } as int;
        let b = mid.enemies[ei];
        lemma_swap_removed_multiset(mid.enemies, ei);
        assert(mid.enemies.contains(b));
        assert(mid.enemies.to_multiset().count(b) > 0);
        assert(mid.bounties == v.bounties && mid.lives_costs == v.lives_costs);
        match e {
            FieldEvent::Kill(_) => {
                assert(k == kp.push(b));
                assert(l == lp);
                assert(sum_of(v.bounties, k) == sum_of(v.bounties, kp) + v.bounties[b as int]) by {
                    assert(k.drop_last() == kp);
                }
            },
            FieldEvent::Leak(_) => {
                assert(k == kp);
                assert(l == lp.push(b));
                assert(sum_of(v.lives_costs, l) == sum_of(v.lives_costs, lp) + v.lives_costs[b as int]) by {
                    assert(l.drop_last() == lp);
                }
            },
        }
        assert(w.enemies.to_multiset().add(k.to_multiset()).add(l.to_multiset()) =~= v.enemies.to_multiset());
    }
}


/// `n` ends of tick in a row, with nothing happening on the field between
/// them.
pub open spec fn end_ticks(v: GameView, n: nat) -> GameView
    decreases n,
{
    if n == 0 {
        v
    } else {
        end_ticks(v.end_tick().0, (n - 1) as nat)
    }
}

/// A breather with `t` ticks to go runs out after exactly `t` ends of tick,
/// and then the next wave begins from its start.
proof fn lemma_breather_runs_out(u: GameView, t: u32)
    requires
        u.phase == (WavePhase::Breather { ticks_left: t }),
        t >= 1,
        u.lives > 0,
    ensures
        end_ticks(u, t as nat) == (GameView {
            wave_idx: (u.wave_idx + 1) as usize,
            wave_clock: 0,
            spawned: Seq::new(u.spawned.len(), |i: int| 0u32),
            phase: WavePhase::Spawning,
            ..u
        }),
        forall|k: nat| 0 < k < t ==> (#[trigger] end_ticks(u, k)) == (GameView {
            phase: WavePhase::Breather { ticks_left: (t - k) as u32 },
            ..u
        }),
    decreases t,
{
    let u1 = u.end_tick().0;
    assert(end_ticks(u, 1) == end_ticks(u1, 0));
    if t > 1 {
        lemma_breather_runs_out(u1, (t - 1) as u32);
        assert forall|k: nat| 0 < k < t implies (#[trigger] end_ticks(u, k)) == (GameView {
            phase: WavePhase::Breather { ticks_left: (t - k) as u32 },
            ..u
        }) by {
            assert(end_ticks(u, k) == end_ticks(u1, (k - 1) as nat));
        }
    }
}

/// After a wave is survived, the breather lasts exactly the configured number
/// of ticks: until then the next wave has not begun, and at its end the next
/// wave begins with its clock and its spawn counters at zero, the rest of the
/// game as the wave left it.
pub proof fn law_breather_then_next_wave(v: GameView)
    requires
        v.wf(),
        !v.done,
        v.waves.len() > 0,
        v.end_tick().1 == TickOutcome::WaveSurvived,
    ensures
        ({
            let w = v.end_tick().0;
            &&& end_ticks(w, v.breather_ticks as nat) == (GameView {
                wave_idx: (v.wave_idx + 1) as usize,
                wave_clock: 0,
                spawned: Seq::new(v.spawned.len(), |i: int| 0u32),
                phase: WavePhase::Spawning,
                ..w
            })
            &&& forall|k: nat| k < v.breather_ticks ==> (#[trigger] end_ticks(w, k)).wave_idx == v.wave_idx
                && end_ticks(w, k).phase == (WavePhase::Breather { ticks_left: (v.breather_ticks - k) as u32 })
        }),
{
    let w = v.end_tick().0;
    lemma_breather_runs_out(w, v.breather_ticks);
    assert(end_ticks(w, 0) == w);
}


/// A legal placement followed by the field's kills and leaks: the new dog,
/// ready to fire, stands on its cell, and the money is what was on hand less
/// the breed's cost plus the bounties of the enemies killed.
pub proof fn law_placement_then_field(v: GameView, dog: usize, cell: usize, es: Seq<FieldEvent>)
    requires
        v.wf(),
        v.place_ok(dog, cell),
        events_ok(v.apply(Action::Place { dog, cell }), es),
    ensures
        ({
            let p = v.apply(Action::Place { dog, cell });
            let w = after_events(p, es);
            &&& w.wf()
            &&& w.dogs == v.dogs.push(DogSlot { spec: dog, cell: v.buildable[cell as int], cooldown: 0 })
            &&& w.money == v.money - v.dog_costs[dog as int] + sum_of(v.bounties, killed(p, es))
        }),
{
    law_occupied_cell_not_buildable(v, dog, cell, dog);
    law_field_events(v.apply(Action::Place { dog, cell }), es);
}


/// A wave is over only when every group of it has released all its spawns
/// and the field is empty: until then the end of a tick keeps the wave going
/// (same wave, still spawning, clock one further).
pub proof fn law_wave_ends_only_when_cleared(v: GameView)
    requires
        v.wf(),
        !v.done,
        v.waves.len() > 0,
    ensures
        ({
            let (w, o) = v.end_tick();
            let groups = v.waves[v.wave_idx as int];
            &&& (o == TickOutcome::WaveSurvived || o == TickOutcome::GameWon) ==> {
                &&& v.phase == WavePhase::Spawning
                &&& v.enemies.len() == 0
                &&& forall|g: int| 0 <= g < groups.len() ==> v.spawned[g] >= (#[trigger] groups[g]).1.len()
            }
            &&& (v.lives > 0 && v.phase == WavePhase::Spawning && (v.enemies.len() > 0 || exists|g: int|
                0 <= g < groups.len() && v.spawned[g] < (#[trigger] groups[g]).1.len())) ==> {
                &&& o == TickOutcome::Ongoing
                &&& w.wave_idx == v.wave_idx
                &&& w.phase == WavePhase::Spawning
                &&& (v.wave_clock < u32::MAX ==> w.wave_clock == v.wave_clock + 1)
                &&& w.spawned == v.spawned
            }
        }),
{
    let groups = v.waves[v.wave_idx as int];
    assert(groups == v.current_groups());
    if v.lives > 0 && v.phase == WavePhase::Spawning {
        if exists|g: int| 0 <= g < groups.len() && v.spawned[g] < (#[trigger] groups[g]).1.len() {
            let g = choose|g: int| 0 <= g < groups.len() && v.spawned[g] < (#[trigger] groups[g]).1.len();
            assert(!v.all_spawned());
        }
    }
    if v.all_spawned() {
        assert forall|g: int| 0 <= g < groups.len() implies v.spawned[g] >= (#[trigger] groups[g]).1.len() by {
            assert(v.current_groups()[g] == groups[g]);
        }
    }
}

} // verus!
