//! The integer rules of the game: placement, the mask, spawning, leaks, kills
//! and the wave schedule.

use gardogs::{
    count_buildable, target_hits, Action, GameState, GridConfig, Movement, ObsShape, SpawnSchedule, Target, TickOutcome,
};

fn grid() -> GridConfig {
    GridConfig { width: 8, height: 6, path_row: 3 }
}

/// The integer part of the minimal scenario: one dog breed costing 50, one
/// enemy breed, 100 money, 2 lives, a 10-tick breather and a single wave of
/// three cats due at ticks 0, 20 and 40.
fn minimal() -> GameState {
    GameState::new(
        grid(),
        vec![50],
        vec![10],
        vec![1],
        8,
        100,
        2,
        10,
        vec![vec![SpawnSchedule { enemy: 0, ticks: vec![0, 20, 40] }]],
    )
}

fn phase1_like() -> GameState {
    GameState::new(
        grid(),
        vec![50],
        vec![10],
        vec![1],
        8,
        100,
        10,
        30,
        vec![
            vec![SpawnSchedule { enemy: 0, ticks: vec![0, 20, 40, 60, 80] }],
            vec![SpawnSchedule { enemy: 0, ticks: vec![0, 15, 30] }],
        ],
    )
}

fn phase2_like() -> GameState {
    GameState::new(grid(), vec![50, 120, 80, 110], vec![10, 25, 12], vec![1, 2, 1], 10, 120, 12, 40, vec![vec![]])
}

#[test]
fn economy_blocks_unaffordable_placements() {
    let env = minimal();
    // Two dogs cost 100; with 100 money exactly two placements are affordable.
    let p1 = env.place_index(0, (0, 0)).unwrap();
    let p2 = env.place_index(0, (1, 0)).unwrap();
    let p3 = env.place_index(0, (2, 0)).unwrap();

    let mut env = env;
    assert!(env.action_mask()[p1]);
    env.apply_action(env.decode(p1));
    assert_eq!(env.money(), 50);

    assert!(env.action_mask()[p2], "second dog still affordable at 50");
    env.apply_action(env.decode(p2));
    assert_eq!(env.money(), 0);

    assert!(!env.action_mask()[p3], "no money left: further placements illegal");
}

#[test]
fn cannot_build_on_occupied_cell() {
    let mut env = minimal();
    let cell = env.place_index(0, (0, 0)).unwrap();
    env.apply_action(env.decode(cell));
    assert!(!env.action_mask()[cell], "an occupied cell must not be buildable again");
}

#[test]
fn phase2_observation_and_action_shapes() {
    let env = phase2_like();
    // path(48) + 4 dog planes(48*4) + 10 tracked * (2 + 3 enemy types) + 4 scalars
    assert_eq!(env.observation_shape(), ObsShape::Flat(294));
    // NOOP + 4 dog types * 40 buildable cells
    assert_eq!(env.action_count(), 1 + 4 * 40);
}

#[test]
fn phase1_shape_and_action_count() {
    let env = phase1_like();
    assert_eq!(env.observation_shape(), ObsShape::Flat(124));
    assert_eq!(env.action_count(), 41);
    assert_eq!(gardogs::obs_len(grid(), 1, 1, 8), 124);
}

#[test]
fn buildable_cells_skip_the_path_row() {
    let env = minimal();
    assert_eq!(env.buildable_len(), 40);
    assert_eq!(env.place_index(0, (0, 0)), Some(1));
    assert_eq!(env.place_index(0, (7, 2)), Some(24));
    // Row 4 follows row 2: the path row has no buildable cells.
    assert_eq!(env.place_index(0, (0, 4)), Some(25));
    assert_eq!(env.place_index(0, (3, 3)), None);
    assert_eq!(env.place_index(0, (8, 0)), None);
    assert_eq!(env.place_index(0, (7, 5)), Some(40));
}

#[test]
fn decode_round_trips_place_index() {
    let env = phase2_like();
    assert_eq!(env.decode(0), Action::Noop);
    let i = env.place_index(2, (5, 1)).unwrap();
    assert_eq!(i, 1 + 2 * 40 + 13);
    assert_eq!(env.decode(i), Action::Place { dog: 2, cell: 13 });
    assert_eq!(env.decode(160), Action::Place { dog: 3, cell: 39 });
}

#[test]
fn mask_allows_noop_and_affordable_free_cells() {
    let env = phase2_like();
    let mask = env.action_mask();
    assert_eq!(mask.len(), 161);
    assert!(mask[0]);
    // 120 money: terrier (50), mastiff (120), collie (80), shepherd (110) all affordable.
    assert!(mask.iter().all(|&m| m));

    let mut poor = GameState::new(grid(), vec![50, 120], vec![10], vec![1], 8, 60, 1, 10, vec![vec![]]);
    let m = poor.action_mask();
    assert!(m[1] && !m[41]);
    // After spending 50, nothing but NOOP is affordable.
    assert!(poor.apply_action(Action::Place { dog: 0, cell: 0 }));
    assert_eq!(poor.money(), 10);
    let m = poor.action_mask();
    assert!(m[0]);
    assert_eq!(m.iter().filter(|&&b| b).count(), 1);
}

#[test]
fn illegal_placements_are_noops() {
    let mut env = minimal();
    assert!(!env.apply_action(Action::Place { dog: 1, cell: 0 }));
    assert!(!env.apply_action(Action::Place { dog: 0, cell: 40 }));
    assert!(!env.apply_action(Action::Noop));
    assert_eq!(env.money(), 100);
    assert_eq!(env.dog_count(), 0);
    assert!(env.apply_action(Action::Place { dog: 0, cell: 3 }));
    assert!(!env.apply_action(Action::Place { dog: 0, cell: 3 }));
    assert_eq!(env.money(), 50);
    assert_eq!(env.dog_count(), 1);
    let d = env.dog(0);
    assert_eq!((d.spec, d.cell, d.cooldown), (0, (3, 0), 0));
}

#[test]
fn spawns_follow_the_schedule() {
    let mut env = GameState::new(
        grid(),
        vec![50],
        vec![10, 25],
        vec![1, 2],
        8,
        100,
        5,
        10,
        vec![vec![
            SpawnSchedule { enemy: 0, ticks: vec![0, 0, 3] },
            SpawnSchedule { enemy: 1, ticks: vec![1, 2] },
        ]],
    );
    // Tick 0: the first two of group 0 are due.
    assert!(env.due_breeds_valid());
    assert_eq!(env.spawn_due(), vec![0, 0]);
    assert_eq!(env.enemies_active(), 2);
    assert_eq!(env.end_tick(), TickOutcome::Ongoing);
    // Tick 1: group 1's first.
    assert_eq!(env.spawn_due(), vec![1]);
    assert_eq!(env.end_tick(), TickOutcome::Ongoing);
    // Tick 2: group 1's second.
    assert_eq!(env.spawn_due(), vec![1]);
    assert_eq!(env.end_tick(), TickOutcome::Ongoing);
    // Tick 3: group 0's last.
    assert_eq!(env.spawn_due(), vec![0]);
    assert_eq!(env.wave_clock(), 3);
    let field: Vec<usize> = (0..env.enemies_active()).map(|i| env.enemy(i)).collect();
    assert_eq!(field, vec![0, 0, 1, 1, 0]);
    // Everything spawned but enemies remain: the wave goes on.
    assert_eq!(env.end_tick(), TickOutcome::Ongoing);
    for _ in 0..5 {
        env.kill(0);
    }
    // 100 + 3 * 10 + 2 * 25.
    assert_eq!(env.money(), 180);
    // The field is clear: the only wave, so the game is won.
    assert_eq!(env.end_tick(), TickOutcome::GameWon);
    assert!(env.is_done() && env.won());
}

#[test]
fn a_missing_breed_is_reported_before_it_spawns() {
    let mut env = GameState::new(
        grid(),
        vec![50],
        vec![10],
        vec![1],
        8,
        100,
        5,
        10,
        vec![vec![SpawnSchedule { enemy: 0, ticks: vec![0] }, SpawnSchedule { enemy: 3, ticks: vec![2] }]],
    );
    assert!(env.due_breeds_valid());
    assert_eq!(env.spawn_due(), vec![0]);
    assert_eq!(env.end_tick(), TickOutcome::Ongoing);
    assert!(env.due_breeds_valid());
    assert_eq!(env.spawn_due(), Vec::<usize>::new());
    assert_eq!(env.end_tick(), TickOutcome::Ongoing);
    // Tick 2: the group naming breed 3 (of 1) is due.
    assert!(!env.due_breeds_valid());
}

#[test]
fn waves_advance_after_the_breather() {
    let mut env = GameState::new(
        grid(),
        vec![50],
        vec![10],
        vec![1],
        8,
        100,
        5,
        2,
        vec![
            vec![SpawnSchedule { enemy: 0, ticks: vec![0] }],
            vec![SpawnSchedule { enemy: 0, ticks: vec![1] }],
        ],
    );
    assert_eq!(env.spawn_due(), vec![0]);
    // An enemy is still on the field: the wave goes on.
    assert_eq!(env.end_tick(), TickOutcome::Ongoing);
    assert_eq!(env.spawn_due(), Vec::<usize>::new());
    env.kill(0);
    assert_eq!(env.end_tick(), TickOutcome::WaveSurvived);
    assert_eq!(env.breather_left(), Some(2));
    // Nothing spawns during a breather.
    assert_eq!(env.spawn_due(), Vec::<usize>::new());
    assert_eq!(env.end_tick(), TickOutcome::Ongoing);
    assert_eq!(env.breather_left(), Some(1));
    assert_eq!(env.end_tick(), TickOutcome::Ongoing);
    assert_eq!(env.breather_left(), None);
    assert_eq!(env.wave_idx(), 1);
    assert_eq!(env.wave_clock(), 0);
    assert_eq!(env.spawn_due(), Vec::<usize>::new());
    assert_eq!(env.end_tick(), TickOutcome::Ongoing);
    assert_eq!(env.spawn_due(), vec![0]);
    env.kill(0);
    assert_eq!(env.end_tick(), TickOutcome::GameWon);
    assert!(env.won());
}

#[test]
fn zero_breather_still_lasts_a_tick() {
    let mut env = GameState::new(
        grid(),
        vec![50],
        vec![10],
        vec![1],
        8,
        100,
        5,
        0,
        vec![vec![SpawnSchedule { enemy: 0, ticks: vec![] }], vec![SpawnSchedule { enemy: 0, ticks: vec![] }]],
    );
    assert_eq!(env.end_tick(), TickOutcome::WaveSurvived);
    assert_eq!(env.breather_left(), Some(1));
    assert_eq!(env.end_tick(), TickOutcome::Ongoing);
    assert_eq!(env.wave_idx(), 1);
}

#[test]
fn leaks_cost_lives_and_the_last_one_loses() {
    let mut env = GameState::new(
        grid(),
        vec![50],
        vec![10, 25],
        vec![1, 5],
        8,
        100,
        2,
        10,
        vec![vec![SpawnSchedule { enemy: 0, ticks: vec![0] }, SpawnSchedule { enemy: 1, ticks: vec![0] }]],
    );
    assert_eq!(env.spawn_due(), vec![0, 1]);
    assert_eq!(env.lives(), 2);
    assert_eq!(env.leak(0), 1);
    assert_eq!(env.lives(), 1);
    // The postman (breed 1) moved into slot 0. It costs 5, but only 1 is left.
    assert_eq!(env.enemy(0), 1);
    assert_eq!(env.leak(0), 1);
    assert_eq!(env.lives(), 0);
    assert_eq!(env.enemies_active(), 0);
    assert_eq!(env.end_tick(), TickOutcome::Lost);
    assert!(env.is_done());
    assert!(!env.won());
    // A finished game accepts no placement and allows only NOOP.
    assert!(!env.apply_action(Action::Place { dog: 0, cell: 0 }));
    let mask = env.action_mask();
    assert!(mask[0] && mask.iter().skip(1).all(|&m| !m));
}

#[test]
fn kills_pay_and_reloads_count_down() {
    let mut env = minimal();
    assert!(env.apply_action(Action::Place { dog: 0, cell: 9 }));
    assert_eq!(env.spawn_due(), vec![0]);
    env.kill(0);
    assert_eq!(env.money(), 60);
    assert_eq!(env.enemies_active(), 0);
    // A fresh dog is ready at once.
    assert!(env.cooldown_tick(0));
    env.reload(0, 5);
    assert_eq!(env.dog(0).cooldown, 5);
    for _ in 0..4 {
        assert!(!env.cooldown_tick(0));
    }
    assert!(env.cooldown_tick(0));
    // A zero period still waits one tick.
    env.reload(0, 0);
    assert_eq!(env.dog(0).cooldown, 1);
}

#[test]
fn reset_restores_the_start() {
    let mut env = minimal();
    env.apply_action(Action::Place { dog: 0, cell: 0 });
    env.spawn_due();
    env.leak(0);
    env.end_tick();
    env.finish_tick();
    assert_eq!(env.tick(), 1);
    env.reset(42);
    assert_eq!(env.money(), 100);
    assert_eq!(env.lives(), 2);
    assert_eq!(env.tick(), 0);
    assert_eq!(env.dog_count(), 0);
    assert_eq!(env.enemies_active(), 0);
    assert_eq!(env.wave_clock(), 0);
    assert!(!env.is_done());
    assert!(env.action_mask().iter().all(|&m| m));
    // The first cat is due again.
    assert_eq!(env.spawn_due(), vec![0]);
}

#[test]
fn dog_planes_mark_each_breed() {
    let mut env = GameState::new(grid(), vec![10, 10], vec![10], vec![1], 8, 100, 1, 10, vec![vec![]]);
    env.apply_action(Action::Place { dog: 0, cell: 0 });
    env.apply_action(Action::Place { dog: 1, cell: 25 });
    let p0 = env.dog_plane(0);
    let p1 = env.dog_plane(1);
    assert_eq!(p0.len(), 48);
    assert!(p0[0] && !p1[0]);
    // Buildable cell 25 is (1, 4): grid index 4 * 8 + 1.
    assert!(p1[33] && !p0[33]);
    assert_eq!(p0.iter().filter(|&&b| b).count(), 1);
}

#[test]
fn targeting_rules() {
    assert!(target_hits(Target::Ground, Movement::Ground));
    assert!(!target_hits(Target::Ground, Movement::Air));
    assert!(target_hits(Target::Air, Movement::Air));
    assert!(!target_hits(Target::Air, Movement::Ground));
    assert!(target_hits(Target::Both, Movement::Air));
    assert!(target_hits(Target::Both, Movement::Ground));
}

#[test]
fn mask_follows_the_dogs_on_the_field() {
    let mut env = phase2_like();
    let b = env.buildable_len();
    assert!(env.apply_action(Action::Place { dog: 1, cell: 5 }));
    let mask = env.action_mask();
    // No breed can be placed where a dog stands ...
    for d in 0..4 {
        assert!(!mask[1 + d * b + 5]);
    }
    // ... and a free cell stays open to every breed that is still affordable.
    assert_eq!(env.money(), 0);
    for d in 0..4 {
        assert!(!mask[1 + d * b + 6]);
    }
    let mut rich = GameState::new(grid(), vec![10, 20], vec![10], vec![1], 8, 100, 1, 10, vec![vec![]]);
    let b = rich.buildable_len();
    assert!(rich.apply_action(Action::Place { dog: 0, cell: 2 }));
    let mask = rich.action_mask();
    assert!(!mask[1 + 2] && !mask[1 + b + 2]);
    assert!(mask[1 + 3] && mask[1 + b + 3]);
}

#[test]
fn a_tick_of_kills_and_leaks_settles_money_and_lives() {
    let mut env = GameState::new(
        grid(),
        vec![50],
        vec![10, 25],
        vec![2, 3],
        8,
        100,
        4,
        10,
        vec![vec![
            SpawnSchedule { enemy: 0, ticks: vec![0, 0] },
            SpawnSchedule { enemy: 1, ticks: vec![0, 0] },
        ]],
    );
    assert!(env.apply_action(Action::Place { dog: 0, cell: 0 }));
    assert_eq!(env.money(), 50);
    assert_eq!(env.spawn_due(), vec![0, 0, 1, 1]);
    // Kill a cat and a postman, then both others reach the door.
    env.kill(0);
    assert_eq!(env.enemy(0), 1);
    env.kill(0);
    assert_eq!(env.money(), 50 + 10 + 25);
    assert_eq!(env.enemies_active(), 2);
    let first = env.enemy(0);
    assert_eq!(env.leak(0), if first == 0 { 2 } else { 3 });
    // The second leak would cost 2 or 3 but only what is left is taken.
    env.leak(0);
    assert_eq!(env.lives(), 0);
    assert_eq!(env.enemies_active(), 0);
    assert_eq!(env.dog_count(), 1);
    assert_eq!(env.end_tick(), TickOutcome::Lost);
    assert!(env.is_done() && !env.won());
}

#[test]
fn the_breather_lasts_its_configured_length() {
    let mut env = GameState::new(
        grid(),
        vec![50],
        vec![10],
        vec![1],
        8,
        100,
        5,
        4,
        vec![vec![SpawnSchedule { enemy: 0, ticks: vec![] }], vec![SpawnSchedule { enemy: 0, ticks: vec![0] }]],
    );
    assert_eq!(env.end_tick(), TickOutcome::WaveSurvived);
    for left in (1..=4).rev() {
        assert_eq!(env.breather_left(), Some(left));
        assert_eq!(env.wave_idx(), 0);
        assert_eq!(env.end_tick(), TickOutcome::Ongoing);
    }
    assert_eq!(env.breather_left(), None);
    assert_eq!(env.wave_idx(), 1);
    assert_eq!(env.wave_clock(), 0);
    assert_eq!(env.spawn_due(), vec![0]);
}

#[test]
fn buildable_count_skips_the_path_row() {
    assert_eq!(count_buildable(grid()), Some(40));
    assert_eq!(count_buildable(GridConfig { width: 8, height: 6, path_row: 9 }), Some(48));
    assert_eq!(count_buildable(GridConfig { width: usize::MAX, height: 3, path_row: 0 }), None);
    assert_eq!(count_buildable(GridConfig { width: 5, height: 0, path_row: 0 }), Some(0));
}
