//! The integer state of a game of Gardogs and the rules that change it.
//!
//! A [`GameState`] holds everything about a running game that is counted in
//! whole numbers: the garden and its buildable cells, which cells are taken,
//! the placed dogs and their reload counters, the roster of enemies on the
//! field (their breeds, in field order), money, lives, the wave schedule and
//! the terminal flags. The continuous part of the game (where each enemy is
//! along the path, how much health it has left) is driven by the caller, who
//! reports each event here: a kill or a leak of enemy `i`, the end of a tick.
//!
//! Given the same configuration and the same sequence of calls, every state
//! below is a function of the previous one: the contracts state each step
//! exactly, over the model [`GameView`].

use rand_chacha::ChaCha8Rng;
use vstd::prelude::*;

use crate::rng::{seed_rng, seeded_generator};
use crate::types::{Action, GridConfig, ObsShape};

verus! {

/// Reward for the tick in which the last life is lost.
pub const LOSS_PENALTY: i32 = -20;

/// Reward for clearing a wave.
pub const WAVE_BONUS: i32 = 10;

/// Extra reward for clearing the last wave.
pub const WIN_BONUS: i32 = 50;

/// A placed defender.
#[derive(Clone, Copy, Debug)]
pub struct DogSlot {
    /// Index of the dog's breed.
    pub spec: usize,
    /// The grid cell `(x, y)` it stands on.
    pub cell: (usize, usize),
    /// Ticks until it can fire again.
    pub cooldown: u32,
}

/// Where the game is in the wave schedule.
#[derive(Clone, Copy, Debug, PartialEq, Eq, Structural)]
pub enum WavePhase {
    /// Spawning the current wave (and waiting for it to be cleared).
    Spawning,
    /// Breather between waves; the next wave starts when it elapses.
    Breather { ticks_left: u32 },
}

/// What the end of a tick decided.
#[derive(Clone, Copy, Debug, PartialEq, Eq, Structural)]
pub enum TickOutcome {
    /// Nothing terminal and no wave cleared.
    Ongoing,
    /// The last life was lost: the game is over and lost.
    Lost,
    /// The current wave was cleared and a breather begins.
    WaveSurvived,
    /// The last wave was cleared: the game is over and won.
    GameWon,
}

/// One homogeneous burst of spawns within a wave: enemies of breed `enemy`,
/// the k-th of which is due at tick `ticks[k]` of the wave clock.
pub struct SpawnSchedule {
    pub enemy: usize,
    pub ticks: Vec<u32>,
}

/// The model of a [`GameState`].
pub struct GameView {
    pub grid: GridConfig,
    /// Cost of each dog breed.
    pub dog_costs: Seq<u32>,
    /// Money paid for killing each enemy breed.
    pub bounties: Seq<u32>,
    /// Lives each enemy breed costs when it reaches the door.
    pub lives_costs: Seq<u32>,
    pub max_tracked: usize,
    pub start_money: u32,
    pub start_lives: u32,
    /// Length of the breather between waves, in ticks (at least 1).
    pub breather_ticks: u32,
    /// Per wave, per spawn group: the breed and the due ticks.
    pub waves: Seq<Seq<(usize, Seq<u32>)>>,
    /// The buildable cells in their fixed order; an action's `cell` indexes this.
    pub buildable: Seq<(usize, usize)>,
    /// Per grid cell (row-major, `y * width + x`): does a dog stand here?
    pub occupied: Seq<bool>,
    pub dogs: Seq<DogSlot>,
    /// The breeds of the enemies on the field, in field order.
    pub enemies: Seq<usize>,
    pub money: u32,
    pub lives: u32,
    pub wave_idx: usize,
    /// Ticks since the current wave began spawning.
    pub wave_clock: u32,
    /// How many of each group of the current wave have spawned.
    pub spawned: Seq<u32>,
    pub phase: WavePhase,
    pub done: bool,
    pub won: bool,
    pub tick: u64,
}

// ---------------------------------------------------------------------------
// Geometry
// ---------------------------------------------------------------------------

/// Row `y` of the garden, left to right.
pub open spec fn row_cells(y: usize, width: usize) -> Seq<(usize, usize)> {
    Seq::new(width as nat, |x: int| (x as usize, y))
}

/// The buildable cells of the first `rows` rows, row-major, skipping the path row.
pub open spec fn buildable_rows(g: GridConfig, rows: nat) -> Seq<(usize, usize)>
    decreases rows,
{
    if rows == 0 {
        Seq::empty()
    } else {
        let y = (rows - 1) as usize;
        buildable_rows(g, (rows - 1) as nat) + if y == g.path_row {
            Seq::empty()
        } else {
            row_cells(y, g.width)
        }
    }
}

/// Every non-path cell of the garden, row by row, left to right.
pub open spec fn buildable_cells(g: GridConfig) -> Seq<(usize, usize)> {
    buildable_rows(g, g.height as nat)
}

/// How many cells are buildable: all cells but those of the path row.
pub open spec fn buildable_count(g: GridConfig) -> int {
    if g.path_row < g.height {
        (g.height - 1) * g.width
    } else {
        g.height * g.width
    }
}

/// Row-major index of a cell.
pub open spec fn cell_index(width: usize, c: (usize, usize)) -> int {
    c.1 * width + c.0
}

/// Length of the flat observation vector: a path plane, one presence plane
/// per dog breed, the nearest tracked enemies (progress, health and a one-hot
/// breed each), and four scalars (money, lives, wave, breather).
pub open spec fn spec_obs_len(g: GridConfig, dog_types: int, enemy_types: int, max_tracked: int) -> int {
    let cells = g.width * g.height;
    cells + cells * dog_types + max_tracked * (2 + enemy_types) + 4
}

pub(crate) proof fn lemma_cell_in_grid(x: usize, y: usize, w: usize, h: usize)
    requires
        x < w,
        y < h,
    ensures
        y * w + x < h * w,
        y * w + x < w * h,
{
    assert(y * w + x < h * w) by (nonlinear_arith)
        requires
            x < w,
            y < h,
    ;
    assert(h * w == w * h) by (nonlinear_arith);
}

proof fn lemma_buildable_rows(g: GridConfig, rows: nat)
    requires
        rows <= g.height,
    ensures
        buildable_rows(g, rows).len() == if g.path_row < rows {
            (rows - 1) * g.width
        } else {
            rows * g.width
        },
        forall|k: int|
            0 <= k < buildable_rows(g, rows).len() ==> {
                let c = #[trigger] buildable_rows(g, rows)[k];
                &&& c.0 < g.width
                &&& c.1 < rows
                &&& c.1 != g.path_row
            },
    decreases rows,
{
    if rows > 0 {
        lemma_buildable_rows(g, (rows - 1) as nat);
        let prev = buildable_rows(g, (rows - 1) as nat);
        let y = (rows - 1) as usize;
        let tail = if y == g.path_row {
            Seq::<(usize, usize)>::empty()
        } else {
            row_cells(y, g.width)
        };
        assert(buildable_rows(g, rows) == prev + tail);
        assert(rows * g.width == (rows - 1) * g.width + g.width) by (nonlinear_arith);
        if g.path_row < rows - 1 {
            assert((rows - 1) * g.width == (rows - 2) * g.width + g.width) by (nonlinear_arith)
                requires
                    rows >= 2,
            ;
        }
        assert forall|k: int| 0 <= k < buildable_rows(g, rows).len() implies {
            let c = #[trigger] buildable_rows(g, rows)[k];
            &&& c.0 < g.width
            &&& c.1 < rows
            &&& c.1 != g.path_row
        } by {
            if k < prev.len() {
                assert(buildable_rows(g, rows)[k] == prev[k]);
            } else {
                assert(buildable_rows(g, rows)[k] == tail[k - prev.len()]);
            }
        }
    }
}

/// The buildable cells: their number, and each lies in the garden off the path.
pub proof fn lemma_buildable_cells(g: GridConfig)
    ensures
        buildable_cells(g).len() == buildable_count(g),
        forall|k: int|
            0 <= k < buildable_cells(g).len() ==> {
                let c = #[trigger] buildable_cells(g)[k];
                &&& c.0 < g.width
                &&& c.1 < g.height
                &&& c.1 != g.path_row
            },
{
    lemma_buildable_rows(g, g.height as nat);
}

// ---------------------------------------------------------------------------
// The model's invariant and the placement rules
// ---------------------------------------------------------------------------

impl GameView {
    /// Number of dog breeds.
    pub open spec fn dog_types(self) -> nat {
        self.dog_costs.len()
    }

    /// How many distinct actions exist (including NOOP).
    pub open spec fn action_count(self) -> int {
        (1 + self.dog_costs.len() * self.buildable.len()) as int
    }

    /// The groups of the wave being played.
    pub open spec fn current_groups(self) -> Seq<(usize, Seq<u32>)> {
        self.waves[self.wave_idx as int]
    }

    pub open spec fn wf(self) -> bool {
        let cells = self.grid.width * self.grid.height;
        &&& cells <= usize::MAX
        &&& self.occupied.len() == cells
        &&& self.buildable == buildable_cells(self.grid)
        &&& self.action_count() <= usize::MAX
        &&& self.lives_costs.len() == self.bounties.len()
        &&& self.bounties.len() + 2 <= usize::MAX
        &&& spec_obs_len(self.grid, self.dog_costs.len() as int, self.bounties.len() as int, self.max_tracked as int) <= usize::MAX
        &&& forall|i: int| 0 <= i < self.enemies.len() ==> #[trigger] self.enemies[i] < self.bounties.len()
        &&& forall|i: int| 0 <= i < self.dogs.len() ==> {
            let d = #[trigger] self.dogs[i];
            &&& d.spec < self.dog_costs.len()
            &&& d.cell.0 < self.grid.width
            &&& d.cell.1 < self.grid.height
        }
        &&& self.breather_ticks >= 1
        &&& self.waves.len() <= usize::MAX
        &&& forall|w: int| 0 <= w < self.waves.len() ==> (#[trigger] self.waves[w]).len() <= self.spawned.len()
        &&& forall|w: int, g: int| 0 <= w < self.waves.len() && 0 <= g < self.waves[w].len()
            ==> (#[trigger] self.waves[w][g]).1.len() <= u32::MAX
        &&& if self.waves.len() == 0 { self.wave_idx == 0 } else { self.wave_idx < self.waves.len() }
        &&& spawn_counts_ok(self.waves, self.wave_idx, self.spawned)
        &&& self.phase matches WavePhase::Breather { ticks_left } ==> ticks_left >= 1 && self.wave_idx + 1 < self.waves.len()
        &&& occupancy_ok(self.occupied, dog_cells(self.dogs), self.grid.width)
        &&& self.won ==> self.done
        &&& self.won ==> self.lives >= 1 && self.enemies.len() == 0 && self.phase == WavePhase::Spawning
            && all_spawned_in(self.waves[self.wave_idx as int], self.spawned)
        &&& self.lives <= self.start_lives
    }

    /// The action addressed by flat index `idx`.
    pub open spec fn decode(self, idx: int) -> Action {
        if idx == 0 {
            Action::Noop
        } else {
            let b = self.buildable.len() as int;
            Action::Place { dog: ((idx - 1) / b) as usize, cell: ((idx - 1) % b) as usize }
        }
    }

    /// Can `dog` be placed on buildable cell number `cell` right now?
    /// (Game not over, breed and cell exist, affordable, cell free.)
    pub open spec fn place_ok(self, dog: usize, cell: usize) -> bool {
        &&& !self.done
        &&& dog < self.dog_costs.len()
        &&& cell < self.buildable.len()
        &&& self.money >= self.dog_costs[dog as int]
        &&& !self.occupied[cell_index(self.grid.width, self.buildable[cell as int])]
    }

    /// The state after placing `dog` on buildable cell number `cell`.
    pub open spec fn after_place(self, dog: usize, cell: usize) -> GameView {
        let c = self.buildable[cell as int];
        GameView {
            money: (self.money - self.dog_costs[dog as int]) as u32,
            occupied: self.occupied.update(cell_index(self.grid.width, c), true),
            dogs: self.dogs.push(DogSlot { spec: dog, cell: c, cooldown: 0 }),
            ..self
        }
    }

    /// Applying an action: a legal placement happens; anything else, NOOP
    /// included, leaves the state as it is.
    pub open spec fn apply(self, action: Action) -> GameView {
        match action {
            Action::Noop => self,
            Action::Place { dog, cell } => if self.place_ok(dog, cell) {
                self.after_place(dog, cell)
            } else {
                self
            },
        }
    }

    /// Is flat action `idx` legal right now?
    pub open spec fn legal(self, idx: int) -> bool {
        idx == 0 || (match self.decode(idx) {
            Action::Noop => true,
            Action::Place { dog, cell } => self.place_ok(dog, cell),
        })
    }

    /// The action mask: which flat action indices are legal right now.
    pub open spec fn mask(self) -> Seq<bool> {
        Seq::new(self.action_count() as nat, |i: int| self.legal(i))
    }

    /// The state after `reset`: the same configuration, nothing placed, the
    /// starting money and lives, the first wave about to spawn.
    pub open spec fn reset_view(self) -> GameView {
        GameView {
            occupied: Seq::new(self.occupied.len(), |i: int| false),
            dogs: Seq::empty(),
            enemies: Seq::empty(),
            money: self.start_money,
            lives: self.start_lives,
            wave_idx: 0,
            wave_clock: 0,
            spawned: Seq::new(self.spawned.len(), |i: int| 0u32),
            phase: WavePhase::Spawning,
            done: false,
            won: false,
            tick: 0,
            ..self
        }
    }
}

/// The cells the dogs stand on, dog by dog.
pub open spec fn dog_cells(dogs: Seq<DogSlot>) -> Seq<(usize, usize)> {
    dogs.map_values(|d: DogSlot| d.cell)
}

/// A grid cell is flagged occupied exactly when a dog stands on it.
pub open spec fn occupancy_ok(occupied: Seq<bool>, cells: Seq<(usize, usize)>, width: usize) -> bool {
    forall|i: int|
        0 <= i < occupied.len() ==> (#[trigger] occupied[i] <==> exists|k: int|
            0 <= k < cells.len() && cell_index(width, #[trigger] cells[k]) == i)
}

/// Has every group spawned in full?
pub open spec fn all_spawned_in(groups: Seq<(usize, Seq<u32>)>, spawned: Seq<u32>) -> bool {
    forall|g: int| 0 <= g < groups.len() ==> spawned[g] >= (#[trigger] groups[g]).1.len()
}

/// Placing a dog on cell `c` flags that cell and no other.
pub(crate) proof fn lemma_place_keeps_occupancy(occupied: Seq<bool>, cells: Seq<(usize, usize)>, width: usize, c: (usize, usize))
    requires
        occupancy_ok(occupied, cells, width),
        0 <= cell_index(width, c) < occupied.len(),
    ensures
        occupancy_ok(occupied.update(cell_index(width, c), true), cells.push(c), width),
{
    let o2 = occupied.update(cell_index(width, c), true);
    let c2 = cells.push(c);
    assert forall|i: int| 0 <= i < o2.len() implies (#[trigger] o2[i] <==> exists|k: int|
        0 <= k < c2.len() && cell_index(width, #[trigger] c2[k]) == i) by {
        if i == cell_index(width, c) {
            assert(c2[cells.len() as int] == c);
        } else {
            assert(o2[i] == occupied[i]);
            if exists|k: int| 0 <= k < c2.len() && cell_index(width, #[trigger] c2[k]) == i {
                let k = choose|k: int| 0 <= k < c2.len() && cell_index(width, #[trigger] c2[k]) == i;
                assert(k < cells.len());
                assert(c2[k] == cells[k]);
            }
            if exists|k: int| 0 <= k < cells.len() && cell_index(width, #[trigger] cells[k]) == i {
                let k = choose|k: int| 0 <= k < cells.len() && cell_index(width, #[trigger] cells[k]) == i;
                assert(c2[k] == cells[k]);
            }
        }
    }
}

/// Changing a dog's reload leaves every dog where it stands.
proof fn lemma_reload_keeps_cells(dogs: Seq<DogSlot>, di: int, cooldown: u32)
    requires
        0 <= di < dogs.len(),
    ensures
        dog_cells(dogs.update(di, DogSlot { cooldown, ..dogs[di] })) == dog_cells(dogs),
{
    assert(dog_cells(dogs.update(di, DogSlot { cooldown, ..dogs[di] })) =~= dog_cells(dogs));
}

/// No group of the current wave has spawned more than it holds.
pub open spec fn spawn_counts_ok(waves: Seq<Seq<(usize, Seq<u32>)>>, wave_idx: usize, spawned: Seq<u32>) -> bool {
    waves.len() > 0 ==> forall|g: int|
        0 <= g < waves[wave_idx as int].len() ==> spawned[g] <= (#[trigger] waves[wave_idx as int][g]).1.len()
}

/// The largest number of groups in any wave.
pub open spec fn max_groups(waves: Seq<Seq<(usize, Seq<u32>)>>, upto: nat) -> nat
    decreases upto,
{
    if upto == 0 {
        0
    } else {
        let m = max_groups(waves, (upto - 1) as nat);
        let here = waves[upto - 1].len();
        if here > m { here } else { m }
    }
}

pub open spec fn spawn_view(s: SpawnSchedule) -> (usize, Seq<u32>) {
    (s.enemy, s.ticks@)
}

pub open spec fn wave_view(w: Vec<SpawnSchedule>) -> Seq<(usize, Seq<u32>)> {
    w@.map_values(|s: SpawnSchedule| spawn_view(s))
}

/// The integer state of a game of Gardogs.
pub struct GameState {
    grid: GridConfig,
    dog_costs: Vec<u32>,
    bounties: Vec<u32>,
    lives_costs: Vec<u32>,
    max_tracked: usize,
    start_money: u32,
    start_lives: u32,
    breather_ticks: u32,
    waves: Vec<Vec<SpawnSchedule>>,
    buildable: Vec<(usize, usize)>,
    occupied: Vec<bool>,
    dogs: Vec<DogSlot>,
    enemies: Vec<usize>,
    money: u32,
    lives: u32,
    wave_idx: usize,
    wave_clock: u32,
    spawned: Vec<u32>,
    phase: WavePhase,
    done: bool,
    won: bool,
    tick: u64,
    /// Seeded by every reset. Reserved for stochastic rules; the current rules
    /// are fully deterministic without it.
    rng: ChaCha8Rng,
}

impl View for GameState {
    type V = GameView;

    closed spec fn view(&self) -> GameView {
        GameView {
            grid: self.grid,
            dog_costs: self.dog_costs@,
            bounties: self.bounties@,
            lives_costs: self.lives_costs@,
            max_tracked: self.max_tracked,
            start_money: self.start_money,
            start_lives: self.start_lives,
            breather_ticks: self.breather_ticks,
            waves: self.waves@.map_values(|w: Vec<SpawnSchedule>| wave_view(w)),
            buildable: self.buildable@,
            occupied: self.occupied@,
            dogs: self.dogs@,
            enemies: self.enemies@,
            money: self.money,
            lives: self.lives,
            wave_idx: self.wave_idx,
            wave_clock: self.wave_clock,
            spawned: self.spawned@,
            phase: self.phase,
            done: self.done,
            won: self.won,
            tick: self.tick,
        }
    }
}


/// `max_groups` bounds every wave's number of groups.
proof fn lemma_max_groups(waves: Seq<Seq<(usize, Seq<u32>)>>, upto: nat)
    requires
        upto <= waves.len(),
    ensures
        forall|w: int| 0 <= w < upto ==> (#[trigger] waves[w]).len() <= max_groups(waves, upto),
    decreases upto,
{
    if upto > 0 {
        lemma_max_groups(waves, (upto - 1) as nat);
    }
}

/// Set every flag to `false`.
fn clear_flags(v: &mut Vec<bool>)
    ensures
        final(v)@ == Seq::new(old(v)@.len(), |i: int| false),
{
    let n = v.len();
    let mut i: usize = 0;
    while i < n
        invariant
            i <= n,
            n == v.len(),
            forall|k: int| 0 <= k < i ==> v@[k] == false,
        decreases n - i,
    {
        v.set(i, false);
        i = i + 1;
    }
    assert(v@ == Seq::new(n as nat, |i: int| false));
}

/// Set every counter to 0.
fn zero_counts(v: &mut Vec<u32>)
    ensures
        final(v)@ == Seq::new(old(v)@.len(), |i: int| 0u32),
{
    let n = v.len();
    let mut i: usize = 0;
    while i < n
        invariant
            i <= n,
            n == v.len(),
            forall|k: int| 0 <= k < i ==> v@[k] == 0u32,
        decreases n - i,
    {
        v.set(i, 0);
        i = i + 1;
    }
    assert(v@ == Seq::new(n as nat, |i: int| 0u32));
}

impl GameState {
    /// The generator the game holds: reseeded by every reset.
    pub closed spec fn generator(&self) -> ChaCha8Rng {
        self.rng
    }

    /// Build the integer state of a game and reset it with seed 0.
    ///
    /// `breather_raw` is the breather in ticks as the configuration rounds it;
    /// a breather always lasts at least one tick. `waves[w][g]` lists, for each
    /// spawn of group `g` of wave `w`, the tick of the wave clock it is due at.
    pub fn new(
        grid: GridConfig,
        dog_costs: Vec<u32>,
        bounties: Vec<u32>,
        lives_costs: Vec<u32>,
        max_tracked: usize,
        start_money: u32,
        start_lives: u32,
        breather_raw: u32,
        waves: Vec<Vec<SpawnSchedule>>,
    ) -> (s: GameState)
        requires
            grid.width * grid.height <= usize::MAX,
            1 + dog_costs.len() * buildable_count(grid) <= usize::MAX,
            lives_costs.len() == bounties.len(),
            bounties.len() + 2 <= usize::MAX,
            spec_obs_len(grid, dog_costs.len() as int, bounties.len() as int, max_tracked as int) <= usize::MAX,
            forall|w: int, g: int|
                0 <= w < waves.len() && 0 <= g < waves[w].len() ==> (#[trigger] waves[w][g]).ticks.len() <= u32::MAX,
        ensures
            s@.wf(),
            s@ == (GameView {
                grid,
                dog_costs: dog_costs@,
                bounties: bounties@,
                lives_costs: lives_costs@,
                max_tracked,
                start_money,
                start_lives,
                breather_ticks: if breather_raw == 0 { 1 } else { breather_raw },
                waves: waves@.map_values(|w: Vec<SpawnSchedule>| wave_view(w)),
                buildable: buildable_cells(grid),
                occupied: Seq::new((grid.width * grid.height) as nat, |i: int| false),
                dogs: Seq::empty(),
                enemies: Seq::empty(),
                money: start_money,
                lives: start_lives,
                wave_idx: 0,
                wave_clock: 0,
                spawned: Seq::new(
                    max_groups(waves@.map_values(|w: Vec<SpawnSchedule>| wave_view(w)), waves.len() as nat),
                    |i: int| 0u32,
                ),
                phase: WavePhase::Spawning,
                done: false,
                won: false,
                tick: 0,
            }),
            s.generator() == seeded_generator(0),
    {
        let (w, h, pr) = (grid.width, grid.height, grid.path_row);
        proof {
            lemma_buildable_cells(grid);
        }

        // The buildable cells, row-major, skipping the path row.
        let mut buildable: Vec<(usize, usize)> = Vec::new();
        let mut y: usize = 0;
        while y < h
            invariant
                y <= h,
                w == grid.width,
                h == grid.height,
                pr == grid.path_row,
                buildable@ == buildable_rows(grid, y as nat),
            decreases h - y,
        {
            let ghost before = buildable@;
            if y != pr {
                let mut x: usize = 0;
                while x < w
                    invariant
                        x <= w,
                        w == grid.width,
                        buildable@ == before + row_cells(y, w).take(x as int),
                    decreases w - x,
                {
                    buildable.push((x, y));
                    proof {
                        assert(row_cells(y, w).take(x + 1) == row_cells(y, w).take(x as int).push((x, y)));
                    }
                    x = x + 1;
                }
                proof {
                    assert(row_cells(y, w).take(w as int) == row_cells(y, w));
                }
            }
            proof {
                assert(buildable_rows(grid, (y + 1) as nat) == buildable_rows(grid, y as nat) + if y
                    == grid.path_row {
                    Seq::<(usize, usize)>::empty()
                } else {
                    row_cells(y, grid.width)
                });
                if y == pr {
                    assert(before + Seq::<(usize, usize)>::empty() == before);
                }
            }
            y = y + 1;
        }

        // Nothing stands anywhere yet.
        let cells = w * h;
        let mut occupied: Vec<bool> = Vec::new();
        let mut i: usize = 0;
        while i < cells
            invariant
                i <= cells,
                occupied@ == Seq::new(i as nat, |k: int| false),
            decreases cells - i,
        {
            occupied.push(false);
            i = i + 1;
        }

        // Size the spawn counters to the largest wave.
        let ghost wv = waves@.map_values(|wave: Vec<SpawnSchedule>| wave_view(wave));
        let mut most: usize = 0;
        let mut k: usize = 0;
        while k < waves.len()
            invariant
                k <= waves.len(),
                wv == waves@.map_values(|wave: Vec<SpawnSchedule>| wave_view(wave)),
                most == max_groups(wv, k as nat),
            decreases waves.len() - k,
        {
            assert(wv[k as int].len() == waves[k as int].len());
            if waves[k].len() > most {
                most = waves[k].len();
            }
            k = k + 1;
        }
        let mut spawned: Vec<u32> = Vec::new();
        let mut j: usize = 0;
        while j < most
            invariant
                j <= most,
                spawned@ == Seq::new(j as nat, |q: int| 0u32),
            decreases most - j,
        {
            spawned.push(0);
            j = j + 1;
        }
        proof {
            lemma_max_groups(wv, waves.len() as nat);
            assert forall|a: int, g: int|
                0 <= a < wv.len() && 0 <= g < wv[a].len() implies (#[trigger] wv[a][g]).1.len() <= u32::MAX by {
                assert(wv[a][g] == spawn_view(waves[a][g]));
            }
        }

        let breather_ticks = if breather_raw == 0 { 1 } else { breather_raw };
        let mut s = GameState {
            grid,
            dog_costs,
            bounties,
            lives_costs,
            max_tracked,
            start_money,
            start_lives,
            breather_ticks,
            waves,
            buildable,
            occupied,
            dogs: Vec::new(),
            enemies: Vec::new(),
            money: 0,
            lives: 0,
            wave_idx: 0,
            wave_clock: 0,
            spawned,
            phase: WavePhase::Spawning,
            done: false,
            won: false,
            tick: 0,
            rng: seed_rng(0),
        };
        s.reset(0);
        proof {
            assert(s@.occupied == Seq::new((grid.width * grid.height) as nat, |i: int| false));
            assert(s@.spawned == Seq::new(max_groups(wv, wv.len()), |i: int| 0u32));
        }
        s
    }

    /// Start a fresh game: nothing placed, starting money and lives, the first
    /// wave about to spawn, and the generator reseeded with `seed`.
    pub fn reset(&mut self, seed: u64)
        requires
            old(self)@.wf(),
        ensures
            final(self)@ == old(self)@.reset_view(),
            final(self)@.wf(),
            final(self).generator() == seeded_generator(seed),
    {
        self.rng = seed_rng(seed);
        self.dogs.clear();
        self.enemies.clear();
        clear_flags(&mut self.occupied);
        self.money = self.start_money;
        self.lives = self.start_lives;
        self.wave_idx = 0;
        self.wave_clock = 0;
        zero_counts(&mut self.spawned);
        self.phase = WavePhase::Spawning;
        self.done = false;
        self.won = false;
        self.tick = 0;
        assert(self@.dogs == Seq::<DogSlot>::empty());
        assert(self@.enemies == Seq::<usize>::empty());
    }
}


impl GameState {
    pub fn money(&self) -> (m: u32)
        ensures
            m == self@.money,
    {
        self.money
    }

    pub fn lives(&self) -> (l: u32)
        ensures
            l == self@.lives,
    {
        self.lives
    }

    pub fn won(&self) -> (w: bool)
        ensures
            w == self@.won,
    {
        self.won
    }

    pub fn is_done(&self) -> (d: bool)
        ensures
            d == self@.done,
    {
        self.done
    }

    pub fn tick(&self) -> (t: u64)
        ensures
            t == self@.tick,
    {
        self.tick
    }

    /// Current wave index (0-based).
    pub fn wave_idx(&self) -> (w: usize)
        ensures
            w == self@.wave_idx,
    {
        self.wave_idx
    }

    /// Ticks since the current wave began spawning.
    pub fn wave_clock(&self) -> (c: u32)
        ensures
            c == self@.wave_clock,
    {
        self.wave_clock
    }

    /// Number of waves in the schedule.
    pub fn wave_count(&self) -> (n: usize)
        ensures
            n == self@.waves.len(),
    {
        self.waves.len()
    }

    /// Ticks left of the breather, or `None` while a wave is spawning.
    pub fn breather_left(&self) -> (b: Option<u32>)
        ensures
            b == (match self@.phase {
                WavePhase::Spawning => None,
                WavePhase::Breather { ticks_left } => Some(ticks_left),
            }),
    {
        match self.phase {
            WavePhase::Spawning => None,
            WavePhase::Breather { ticks_left } => Some(ticks_left),
        }
    }

    /// Number of dogs placed.
    pub fn dog_count(&self) -> (n: usize)
        ensures
            n == self@.dogs.len(),
    {
        self.dogs.len()
    }

    /// The `di`-th placed dog.
    pub fn dog(&self, di: usize) -> (d: DogSlot)
        requires
            di < self@.dogs.len(),
        ensures
            d == self@.dogs[di as int],
    {
        self.dogs[di]
    }

    /// Number of buildable cells.
    pub fn buildable_len(&self) -> (b: usize)
        ensures
            b == self@.buildable.len(),
    {
        self.buildable.len()
    }

    /// How many distinct actions exist (including NOOP): NOOP plus one
    /// placement per dog breed and buildable cell.
    pub fn action_count(&self) -> (n: usize)
        requires
            self@.wf(),
        ensures
            n == self@.action_count(),
    {
        1 + self.dog_costs.len() * self.buildable.len()
    }

    /// The shape of observations of this game: one flat vector.
    pub fn observation_shape(&self) -> (shape: ObsShape)
        requires
            self@.wf(),
        ensures
            shape == ObsShape::Flat(
                spec_obs_len(self@.grid, self@.dog_costs.len() as int, self@.bounties.len() as int, self@.max_tracked as int) as usize,
            ),
    {
        ObsShape::Flat(obs_len(self.grid, self.dog_costs.len(), self.bounties.len(), self.max_tracked))
    }

    /// Decode a flat action index into an [`Action`]: 0 is NOOP, and
    /// `1 + dog * buildable + cell` places `dog` on buildable cell `cell`.
    pub fn decode(&self, idx: usize) -> (a: Action)
        requires
            idx == 0 || self@.buildable.len() > 0,
        ensures
            a == self@.decode(idx as int),
    {
        if idx == 0 {
            Action::Noop
        } else {
            let i = idx - 1;
            let b = self.buildable.len();
            Action::Place { dog: i / b, cell: i % b }
        }
    }

    /// The position of grid cell `cell` among the buildable cells (its first
    /// occurrence), if it is buildable.
    pub fn cell_position(&self, cell: (usize, usize)) -> (r: Option<usize>)
        ensures
            match r {
                None => forall|k: int| 0 <= k < self@.buildable.len() ==> self@.buildable[k] != cell,
                Some(k) => k < self@.buildable.len() && self@.buildable[k as int] == cell && (forall|j: int|
                    0 <= j < k ==> self@.buildable[j] != cell),
            },
    {
        let b = self.buildable.len();
        let mut k: usize = 0;
        while k < b
            invariant
                k <= b,
                b == self@.buildable.len(),
                forall|j: int| 0 <= j < k ==> self@.buildable[j] != cell,
            decreases b - k,
        {
            let (bx, by) = self.buildable[k];
            if bx == cell.0 && by == cell.1 {
                return Some(k);
            }
            k = k + 1;
        }
        None
    }

    /// The flat action index that places `dog` on grid cell `cell`, if that
    /// cell is buildable. (When it is, the index must fit in a `usize`.)
    pub fn place_index(&self, dog: usize, cell: (usize, usize)) -> (r: Option<usize>)
        requires
            forall|k: int|
                0 <= k < self@.buildable.len() && self@.buildable[k] == cell && (forall|j: int|
                    0 <= j < k ==> self@.buildable[j] != cell) ==> 1 + dog * self@.buildable.len() + k
                    <= usize::MAX,
        ensures
            match r {
                None => forall|k: int| 0 <= k < self@.buildable.len() ==> self@.buildable[k] != cell,
                Some(i) => exists|k: int|
                    0 <= k < self@.buildable.len() && self@.buildable[k] == cell
                        && (forall|j: int| 0 <= j < k ==> self@.buildable[j] != cell)
                        && i == 1 + dog * self@.buildable.len() + k,
            },
    {
        match self.cell_position(cell) {
            None => None,
            Some(k) => {
                let b = self.buildable.len();
                proof {
                    lemma_mul_plus_lt(dog as int, k as int, b as int);
                }
                Some(1 + dog * b + k)
            },
        }
    }

    /// Which actions are legal right now (affordable, cell free, game not
    /// over), indexed by flat action index. NOOP is always legal.
    pub fn action_mask(&self) -> (mask: Vec<bool>)
        requires
            self@.wf(),
        ensures
            mask@ == self@.mask(),
    {
        let ghost v = self@;
        let b = self.buildable.len();
        let n = self.dog_costs.len();
        let w = self.grid.width;
        proof {
            lemma_buildable_cells(v.grid);
        }
        let mut mask: Vec<bool> = Vec::new();
        mask.push(true);
        let mut d: usize = 0;
        while d < n
            invariant
                v == self@,
                v.wf(),
                b == v.buildable.len(),
                n == v.dog_costs.len(),
                w == v.grid.width,
                d <= n,
                mask@.len() == 1 + d * b,
                forall|j: int| 0 <= j < mask@.len() ==> mask@[j] == v.legal(j),
            decreases n - d,
        {
            let affordable = self.money >= self.dog_costs[d];
            let mut c: usize = 0;
            while c < b
                invariant
                    v == self@,
                    v.wf(),
                    b == v.buildable.len(),
                    n == v.dog_costs.len(),
                    w == v.grid.width,
                    d < n,
                    c <= b,
                    affordable == (v.money >= v.dog_costs[d as int]),
                    mask@.len() == 1 + d * b + c,
                    forall|j: int| 0 <= j < mask@.len() ==> mask@[j] == v.legal(j),
                decreases b - c,
            {
                let (x, y) = self.buildable[c];
                proof {
                    lemma_buildable_cells(v.grid);
                    lemma_cell_in_grid(x, y, w, v.grid.height);
                    lemma_mul_plus_lt(d as int, c as int, b as int);
                    lemma_mul_plus_lt_bound(d as int, c as int, b as int, n as int);
                    lemma_decode_place(v, d as int, c as int);
                }
                let gi = y * w + x;
                mask.push(!self.done && affordable && !self.occupied[gi]);
                c = c + 1;
            }
            proof {
                assert((d + 1) * b == d * b + b) by (nonlinear_arith);
            }
            d = d + 1;
        }
        proof {
            assert(mask@ =~= v.mask());
        }
        mask
    }

    /// Apply an action. A legal placement spends the dog's cost, marks its
    /// cell taken and adds the dog (ready to fire); an illegal placement, or
    /// any action once the game is over, is treated as NOOP and changes nothing.
    /// Returns whether a dog was placed.
    pub fn apply_action(&mut self, action: Action) -> (placed: bool)
        requires
            old(self)@.wf(),
        ensures
            final(self)@.wf(),
            final(self)@ == old(self)@.apply(action),
            placed == (match action {
                Action::Noop => false,
                Action::Place { dog, cell } => old(self)@.place_ok(dog, cell),
            }),
    {
        let ghost v = self@;
        match action {
            Action::Noop => false,
            Action::Place { dog, cell } => {
                if self.done || dog >= self.dog_costs.len() || cell >= self.buildable.len() {
                    return false;
                }
                let (x, y) = self.buildable[cell];
                proof {
                    lemma_buildable_cells(v.grid);
                    lemma_cell_in_grid(x, y, self.grid.width, self.grid.height);
                }
                let gi = y * self.grid.width + x;
                let cost = self.dog_costs[dog];
                if self.money >= cost && !self.occupied[gi] {
                    self.money = self.money - cost;
                    self.occupied.set(gi, true);
                    self.dogs.push(DogSlot { spec: dog, cell: (x, y), cooldown: 0 });
                    proof {
                        assert(self@.dogs == v.dogs.push(DogSlot { spec: dog, cell: (x, y), cooldown: 0 }));
                        assert(self@ == v.after_place(dog, cell));
                        lemma_place_keeps_occupancy(v.occupied, dog_cells(v.dogs), v.grid.width, (x, y));
                        assert(dog_cells(self@.dogs) =~= dog_cells(v.dogs).push((x, y)));
                    }
                    true
                } else {
                    false
                }
            }
        }
    }
}

/// How many cells of `grid` are buildable (see [`buildable_count`]), or
/// `None` when that number does not fit in a `usize`.
pub fn count_buildable(grid: GridConfig) -> (n: Option<usize>)
    ensures
        match n {
            Some(k) => k == buildable_count(grid),
            None => buildable_count(grid) > usize::MAX,
        },
{
    let rows = if grid.path_row < grid.height { grid.height - 1 } else { grid.height };
    rows.checked_mul(grid.width)
}

/// Length of the flat observation vector (see [`spec_obs_len`]).
pub fn obs_len(grid: GridConfig, dog_types: usize, enemy_types: usize, max_tracked: usize) -> (n: usize)
    requires
        enemy_types + 2 <= usize::MAX,
        spec_obs_len(grid, dog_types as int, enemy_types as int, max_tracked as int) <= usize::MAX,
    ensures
        n == spec_obs_len(grid, dog_types as int, enemy_types as int, max_tracked as int),
{
    proof {
        assert(grid.width * grid.height <= grid.width * grid.height + grid.width * grid.height * dog_types) by (nonlinear_arith);
        assert(0 <= grid.width * grid.height * dog_types) by (nonlinear_arith);
        assert(0 <= max_tracked * (2 + enemy_types)) by (nonlinear_arith);
    }
    let cells = grid.width * grid.height;
    cells + cells * dog_types + max_tracked * (2 + enemy_types) + 4
}

proof fn lemma_mul_plus_lt(d: int, c: int, b: int)
    requires
        0 <= d,
        0 <= c < b,
    ensures
        0 <= d * b,
        d * b + c < d * b + b,
{
    assert(0 <= d * b) by (nonlinear_arith)
        requires
            0 <= d,
            0 <= b,
    ;
}

proof fn lemma_mul_plus_lt_bound(d: int, c: int, b: int, n: int)
    requires
        0 <= d < n,
        0 <= c < b,
    ensures
        d * b + c < n * b,
{
    assert(d * b + c < n * b) by (nonlinear_arith)
        requires
            0 <= d < n,
            0 <= c < b,
    ;
}

/// Flat index `1 + d * b + c` decodes to placing breed `d` on cell `c`.
pub(crate) proof fn lemma_decode_place(v: GameView, d: int, c: int)
    requires
        0 <= d,
        0 <= c < v.buildable.len(),
    ensures
        v.decode(1 + d * v.buildable.len() + c) == (Action::Place { dog: d as usize, cell: c as usize }),
{
    let b = v.buildable.len() as int;
    assert(0 <= d * b) by (nonlinear_arith)
        requires
            0 <= d,
            0 <= b,
    ;
    vstd::arithmetic::div_mod::lemma_fundamental_div_mod_converse(d * b + c, b, d, c);
    assert(1 + d * b + c - 1 == d * b + c);
}


// ---------------------------------------------------------------------------
// Spawning
// ---------------------------------------------------------------------------

/// How many spawns of a group are due, counting from spawn number `from`:
/// the run of consecutive due ticks not later than `clock`.
pub open spec fn due_from(ticks: Seq<u32>, from: int, clock: u32) -> nat
    decreases ticks.len() - from,
{
    if 0 <= from < ticks.len() && ticks[from] <= clock {
        1 + due_from(ticks, from + 1, clock)
    } else {
        0
    }
}

/// Spawns due in group `g`, given how many of it have spawned already.
pub open spec fn group_due(groups: Seq<(usize, Seq<u32>)>, spawned: Seq<u32>, clock: u32, g: int) -> nat {
    due_from(groups[g].1, spawned[g] as int, clock)
}

/// The breeds spawning in groups `0..upto`, group by group, in order.
pub open spec fn spawn_list(groups: Seq<(usize, Seq<u32>)>, spawned: Seq<u32>, clock: u32, upto: nat) -> Seq<usize>
    decreases upto,
{
    if upto == 0 {
        Seq::empty()
    } else {
        spawn_list(groups, spawned, clock, (upto - 1) as nat) + Seq::new(
            group_due(groups, spawned, clock, upto - 1),
            |i: int| groups[upto - 1].0,
        )
    }
}

/// `s` without its element `i`, the last element moved into its place.
pub open spec fn swap_removed<A>(s: Seq<A>, i: int) -> Seq<A> {
    s.update(i, s.last()).drop_last()
}

/// The spawn counters after the due spawns of every group.
pub open spec fn spawned_after(groups: Seq<(usize, Seq<u32>)>, spawned: Seq<u32>, clock: u32) -> Seq<u32> {
    Seq::new(
        spawned.len(),
        |g: int|
            if g < groups.len() {
                (spawned[g] + group_due(groups, spawned, clock, g)) as u32
            } else {
                spawned[g]
            },
    )
}

proof fn lemma_due_step(ticks: Seq<u32>, from: int, clock: u32)
    requires
        0 <= from < ticks.len(),
        ticks[from] <= clock,
    ensures
        due_from(ticks, from, clock) == 1 + due_from(ticks, from + 1, clock),
{
}

pub(crate) proof fn lemma_due_bounded(ticks: Seq<u32>, from: int, clock: u32)
    requires
        0 <= from <= ticks.len(),
    ensures
        from + due_from(ticks, from, clock) <= ticks.len(),
        forall|k: int| from <= k < from + due_from(ticks, from, clock) ==> ticks[k] <= clock,
    decreases ticks.len() - from,
{
    if from < ticks.len() && ticks[from] <= clock {
        lemma_due_bounded(ticks, from + 1, clock);
    }
}

/// Every breed in a spawn list is that of a group with a spawn due.
pub(crate) proof fn lemma_spawn_list_breeds(groups: Seq<(usize, Seq<u32>)>, spawned: Seq<u32>, clock: u32, upto: nat)
    requires
        upto <= groups.len(),
    ensures
        forall|i: int|
            0 <= i < spawn_list(groups, spawned, clock, upto).len() ==> exists|g: int|
                0 <= g < upto && group_due(groups, spawned, clock, g) > 0
                    && (#[trigger] spawn_list(groups, spawned, clock, upto)[i]) == groups[g].0,
    decreases upto,
{
    if upto > 0 {
        let prev = spawn_list(groups, spawned, clock, (upto - 1) as nat);
        let g = upto - 1;
        let tail = Seq::new(group_due(groups, spawned, clock, g), |i: int| groups[g].0);
        lemma_spawn_list_breeds(groups, spawned, clock, (upto - 1) as nat);
        assert(spawn_list(groups, spawned, clock, upto) == prev + tail);
        assert forall|i: int| 0 <= i < spawn_list(groups, spawned, clock, upto).len() implies exists|h: int|
            0 <= h < upto && group_due(groups, spawned, clock, h) > 0
                && (#[trigger] spawn_list(groups, spawned, clock, upto)[i]) == groups[h].0 by {
            if i < prev.len() {
                assert(spawn_list(groups, spawned, clock, upto)[i] == prev[i]);
                let h = choose|h: int|
                    0 <= h < upto - 1 && group_due(groups, spawned, clock, h) > 0 && (#[trigger] prev[i]) == groups[h].0;
                assert(0 <= h < upto && spawn_list(groups, spawned, clock, upto)[i] == groups[h].0);
            } else {
                assert(spawn_list(groups, spawned, clock, upto)[i] == tail[i - prev.len()]);
                assert(spawn_list(groups, spawned, clock, upto)[i] == groups[g].0);
            }
        }
    }
}

/// A wave whose groups have all spawned in full spawns nothing more.
proof fn lemma_nothing_left_to_spawn(groups: Seq<(usize, Seq<u32>)>, spawned: Seq<u32>, clock: u32, upto: nat)
    requires
        upto <= groups.len(),
        groups.len() <= spawned.len(),
        all_spawned_in(groups, spawned),
    ensures
        spawn_list(groups, spawned, clock, upto) == Seq::<usize>::empty(),
        upto == groups.len() ==> spawned_after(groups, spawned, clock) == spawned,
    decreases upto,
{
    if upto > 0 {
        lemma_nothing_left_to_spawn(groups, spawned, clock, (upto - 1) as nat);
        assert(group_due(groups, spawned, clock, upto - 1) == 0);
        assert(spawn_list(groups, spawned, clock, upto) =~= Seq::<usize>::empty());
    }
    if upto == groups.len() {
        assert forall|g: int| 0 <= g < groups.len() implies group_due(groups, spawned, clock, g) == 0 by {
            assert(spawned[g] >= groups[g].1.len());
        }
        assert(spawned_after(groups, spawned, clock) =~= spawned);
    }
}

/// Spawn the due enemies of one wave's groups, advancing their counters.
fn spawn_groups(groups: &Vec<SpawnSchedule>, spawned: &mut Vec<u32>, clock: u32) -> (out: Vec<usize>)
    requires
        groups.len() <= old(spawned).len(),
        forall|g: int| 0 <= g < groups.len() ==> (#[trigger] groups[g]).ticks.len() <= u32::MAX,
    ensures
        final(spawned)@ == spawned_after(wave_view(*groups), old(spawned)@, clock),
        out@ == spawn_list(wave_view(*groups), old(spawned)@, clock, groups.len() as nat),
{
    let ghost gv = wave_view(*groups);
    let ghost s0 = spawned@;
    let ng = groups.len();
    let mut out: Vec<usize> = Vec::new();
    let mut g: usize = 0;
    while g < ng
        invariant
            ng == groups.len(),
            gv == wave_view(*groups),
            ng <= s0.len(),
            g <= ng,
            forall|q: int| 0 <= q < ng ==> (#[trigger] groups[q]).ticks.len() <= u32::MAX,
            spawned@.len() == s0.len(),
            forall|q: int| 0 <= q < g ==> #[trigger] spawned@[q] == (s0[q] + group_due(gv, s0, clock, q)) as u32,
            forall|q: int| g <= q < s0.len() ==> #[trigger] spawned@[q] == s0[q],
            out@ == spawn_list(gv, s0, clock, g as nat),
        decreases ng - g,
    {
        let enemy = groups[g].enemy;
        let count = groups[g].ticks.len();
        assert(gv[g as int] == spawn_view(groups[g as int]));
        let ghost before = out@;
        let ghost k: nat = 0;
        while (spawned[g] as usize) < count && groups[g].ticks[spawned[g] as usize] <= clock
            invariant
                ng == groups.len(),
                gv == wave_view(*groups),
                g < ng,
                ng <= s0.len(),
                enemy == groups[g as int].enemy,
                count == groups[g as int].ticks.len(),
                count <= u32::MAX,
                gv[g as int] == spawn_view(groups[g as int]),
                spawned@.len() == s0.len(),
                forall|q: int| 0 <= q < g ==> #[trigger] spawned@[q] == (s0[q] + group_due(gv, s0, clock, q)) as u32,
                forall|q: int| g < q < s0.len() ==> #[trigger] spawned@[q] == s0[q],
                spawned@[g as int] == s0[g as int] + k,
                due_from(gv[g as int].1, s0[g as int] as int, clock) == k + due_from(
                    gv[g as int].1,
                    spawned@[g as int] as int,
                    clock,
                ),
                before == spawn_list(gv, s0, clock, g as nat),
                out@ == before + Seq::new(k, |i: int| enemy),
            decreases count - spawned@[g as int],
        {
            proof {
                lemma_due_step(gv[g as int].1, spawned@[g as int] as int, clock);
            }
            out.push(enemy);
            let next = spawned[g] + 1;
            spawned.set(g, next);
            proof {
                assert(out@ == before + Seq::new(k + 1, |i: int| enemy));
                k = k + 1;
            }
        }
        proof {
            assert(due_from(gv[g as int].1, spawned@[g as int] as int, clock) == 0);
            assert(group_due(gv, s0, clock, g as int) == k);
            assert(spawn_list(gv, s0, clock, (g + 1) as nat) == spawn_list(gv, s0, clock, g as nat) + Seq::new(
                group_due(gv, s0, clock, g as int),
                |i: int| gv[g as int].0,
            ));
            assert(out@ == spawn_list(gv, s0, clock, (g + 1) as nat));
        }
        g = g + 1;
    }
    assert(spawned@ == spawned_after(gv, s0, clock));
    out
}

// ---------------------------------------------------------------------------
// The end-of-tick rules
// ---------------------------------------------------------------------------

impl GameView {
    /// Has every group of the current wave spawned in full?
    pub open spec fn all_spawned(self) -> bool {
        all_spawned_in(self.current_groups(), self.spawned)
    }

    /// The state after this tick's due spawns (only while a wave is spawning).
    pub open spec fn after_spawn(self) -> GameView {
        match self.phase {
            WavePhase::Spawning => GameView {
                spawned: spawned_after(self.current_groups(), self.spawned, self.wave_clock),
                enemies: self.enemies + self.spawns(),
                ..self
            },
            WavePhase::Breather { .. } => self,
        }
    }

    /// The breeds that spawn this tick, in order.
    pub open spec fn spawns(self) -> Seq<usize> {
        match self.phase {
            WavePhase::Spawning => spawn_list(
                self.current_groups(),
                self.spawned,
                self.wave_clock,
                self.current_groups().len(),
            ),
            WavePhase::Breather { .. } => Seq::empty(),
        }
    }

    /// Does every group of the current wave that has a spawn due this tick
    /// name an existing breed?
    pub open spec fn spawn_breeds_ok(self) -> bool {
        self.phase == WavePhase::Spawning ==> forall|g: int|
            0 <= g < self.current_groups().len() && group_due(self.current_groups(), self.spawned, self.wave_clock, g)
                > 0 ==> (#[trigger] self.current_groups()[g]).0 < self.bounties.len()
    }

    /// The state after enemy `ei` is killed: its breed's bounty is paid and it
    /// leaves the field (the last enemy takes its place).
    pub open spec fn after_kill(self, ei: int) -> GameView {
        GameView {
            money: (self.money + self.bounties[self.enemies[ei] as int]) as u32,
            enemies: swap_removed(self.enemies, ei),
            ..self
        }
    }

    /// The lives enemy `ei` costs on reaching the door: its breed's cost, or
    /// whatever is left.
    pub open spec fn leak_cost(self, ei: int) -> u32 {
        let c = self.lives_costs[self.enemies[ei] as int];
        if c < self.lives { c } else { self.lives }
    }

    /// The state after enemy `ei` reaches the door: it costs lives and leaves
    /// the field (the last enemy takes its place).
    pub open spec fn after_leak(self, ei: int) -> GameView {
        GameView {
            lives: (self.lives - self.leak_cost(ei)) as u32,
            enemies: swap_removed(self.enemies, ei),
            ..self
        }
    }

    /// The end of a tick, once enemies have moved: a game with no lives left
    /// is lost; otherwise the wave clock runs while spawning, and a wave whose
    /// enemies have all spawned and none remain is survived (the last one wins
    /// the game, the others start a breather); a breather counts down and,
    /// when it elapses, the next wave begins.
    pub open spec fn end_tick(self) -> (GameView, TickOutcome) {
        if self.lives == 0 {
            (GameView { done: true, won: false, ..self }, TickOutcome::Lost)
        } else {
            match self.phase {
                WavePhase::Spawning => {
                    let clocked = GameView { wave_clock: (self.wave_clock + 1) as u32, ..self };
                    if self.all_spawned() && self.enemies.len() == 0 {
                        if self.wave_idx + 1 >= self.waves.len() {
                            (GameView { done: true, won: true, ..clocked }, TickOutcome::GameWon)
                        } else {
                            (
                                GameView {
                                    phase: WavePhase::Breather { ticks_left: self.breather_ticks },
                                    ..clocked
                                },
                                TickOutcome::WaveSurvived,
                            )
                        }
                    } else {
                        (clocked, TickOutcome::Ongoing)
                    }
                },
                WavePhase::Breather { ticks_left } => {
                    if ticks_left - 1 == 0 {
                        (
                            GameView {
                                wave_idx: (self.wave_idx + 1) as usize,
                                wave_clock: 0,
                                spawned: Seq::new(self.spawned.len(), |i: int| 0u32),
                                phase: WavePhase::Spawning,
                                ..self
                            },
                            TickOutcome::Ongoing,
                        )
                    } else {
                        (
                            GameView { phase: WavePhase::Breather { ticks_left: (ticks_left - 1) as u32 }, ..self },
                            TickOutcome::Ongoing,
                        )
                    }
                },
            }
        }
    }
}

impl GameState {
    /// Spawn this tick's due enemies: while a wave is spawning, every group
    /// releases each spawn whose due tick has come, in group order, onto the
    /// end of the field. Returns the breeds spawned, in order.
    pub fn spawn_due(&mut self) -> (out: Vec<usize>)
        requires
            old(self)@.wf(),
            old(self)@.waves.len() > 0,
            old(self)@.spawn_breeds_ok(),
        ensures
            final(self)@.wf(),
            final(self)@ == old(self)@.after_spawn(),
            out@ == old(self)@.spawns(),
    {
        let ghost v = self@;
        match self.phase {
            WavePhase::Spawning => {
                let wi = self.wave_idx;
                proof {
                    assert(v.waves[wi as int] == wave_view(self.waves@[wi as int]));
                    assert forall|g: int| 0 <= g < self.waves[wi as int].len() implies (#[trigger] self.waves[wi as int][g]).ticks.len() <= u32::MAX by {
                        assert(v.waves[wi as int][g] == spawn_view(self.waves[wi as int][g]));
                    }
                }
                let out = spawn_groups(&self.waves[wi], &mut self.spawned, self.wave_clock);
                append_all(&mut self.enemies, &out);
                proof {
                    assert(self@ == v.after_spawn());
                    let groups = v.current_groups();
                    assert forall|g: int| 0 <= g < groups.len() implies self@.spawned[g] <= (#[trigger] groups[g]).1.len() by {
                        lemma_due_bounded(groups[g].1, v.spawned[g] as int, v.wave_clock);
                    }
                    lemma_spawn_list_breeds(groups, v.spawned, v.wave_clock, groups.len());
                    if v.won {
                        lemma_nothing_left_to_spawn(groups, v.spawned, v.wave_clock, groups.len());
                        assert(self@.enemies =~= v.enemies);
                        assert(self@.spawned == v.spawned);
                    }
                    assert forall|i: int| 0 <= i < self@.enemies.len() implies #[trigger] self@.enemies[i] < self@.bounties.len() by {
                        if i >= v.enemies.len() {
                            assert(self@.enemies[i] == out@[i - v.enemies.len()]);
                        }
                    }
                }
                out
            },
            WavePhase::Breather { .. } => Vec::new(),
        }
    }

    /// Does every group of the current wave that has a spawn due this tick
    /// name an existing breed? (See [`GameView::spawn_breeds_ok`].)
    pub fn due_breeds_valid(&self) -> (ok: bool)
        requires
            self@.wf(),
            self@.waves.len() > 0,
        ensures
            ok == self@.spawn_breeds_ok(),
    {
        let ghost v = self@;
        match self.phase {
            WavePhase::Spawning => {
                let wi = self.wave_idx;
                let groups = &self.waves[wi];
                let ghost gv = v.current_groups();
                assert(gv == wave_view(*groups));
                let types = self.bounties.len();
                assert(gv.len() <= v.spawned.len());
                let mut g: usize = 0;
                while g < groups.len()
                    invariant
                        v == self@,
                        v.wf(),
                        gv == v.current_groups(),
                        gv == wave_view(*groups),
                        types == v.bounties.len(),
                        g <= groups.len(),
                        groups.len() <= v.spawned.len(),
                        v.phase == WavePhase::Spawning,
                        forall|q: int|
                            0 <= q < g && group_due(gv, v.spawned, v.wave_clock, q) > 0 ==> (#[trigger] gv[q]).0 < types,
                    decreases groups.len() - g,
                {
                    assert(gv[g as int] == spawn_view(groups[g as int]));
                    let sg = self.spawned[g] as usize;
                    let due = sg < groups[g].ticks.len() && groups[g].ticks[sg] <= self.wave_clock;
                    proof {
                        if sg < gv[g as int].1.len() && gv[g as int].1[sg as int] <= v.wave_clock {
                            lemma_due_step(gv[g as int].1, sg as int, v.wave_clock);
                        }
                    }
                    if due && groups[g].enemy >= types {
                        assert(group_due(gv, v.spawned, v.wave_clock, g as int) > 0);
                        assert(gv[g as int].0 >= types);
                        assert(v.current_groups()[g as int].0 >= v.bounties.len());
                        assert(!v.spawn_breeds_ok());
                        return false;
                    }
                    g = g + 1;
                }
                true
            },
            WavePhase::Breather { .. } => true,
        }
    }

    /// Count down dog `di`'s reload by one tick (not below zero); returns
    /// whether it is ready to fire.
    pub fn cooldown_tick(&mut self, di: usize) -> (ready: bool)
        requires
            old(self)@.wf(),
            di < old(self)@.dogs.len(),
        ensures
            final(self)@.wf(),
            ({
                let d = old(self)@.dogs[di as int];
                let c = if d.cooldown > 0 { (d.cooldown - 1) as u32 } else { 0u32 };
                &&& final(self)@ == GameView {
                    dogs: old(self)@.dogs.update(di as int, DogSlot { cooldown: c, ..d }),
                    ..old(self)@
                }
                &&& ready == (c == 0)
            }),
    {
        let mut d = self.dogs[di];
        if d.cooldown > 0 {
            d.cooldown = d.cooldown - 1;
        }
        proof {
            lemma_reload_keeps_cells(self@.dogs, di as int, d.cooldown);
        }
        self.dogs.set(di, d);
        d.cooldown == 0
    }

    /// Dog `di` fired: it must wait `period_raw` ticks (at least one) before
    /// firing again.
    pub fn reload(&mut self, di: usize, period_raw: u32)
        requires
            old(self)@.wf(),
            di < old(self)@.dogs.len(),
        ensures
            final(self)@.wf(),
            final(self)@ == (GameView {
                dogs: old(self)@.dogs.update(
                    di as int,
                    DogSlot { cooldown: if period_raw == 0 { 1 } else { period_raw }, ..old(self)@.dogs[di as int] },
                ),
                ..old(self)@
            }),
    {
        let mut d = self.dogs[di];
        d.cooldown = if period_raw == 0 { 1 } else { period_raw };
        proof {
            lemma_reload_keeps_cells(self@.dogs, di as int, d.cooldown);
        }
        self.dogs.set(di, d);
    }

    /// Number of enemies on the field.
    pub fn enemies_active(&self) -> (n: usize)
        ensures
            n == self@.enemies.len(),
    {
        self.enemies.len()
    }

    /// The breed of enemy `ei` on the field.
    pub fn enemy(&self, ei: usize) -> (breed: usize)
        requires
            ei < self@.enemies.len(),
        ensures
            breed == self@.enemies[ei as int],
    {
        self.enemies[ei]
    }

    /// Enemy `ei` was killed (see [`GameView::after_kill`]).
    pub fn kill(&mut self, ei: usize)
        requires
            old(self)@.wf(),
            ei < old(self)@.enemies.len(),
            old(self)@.money + old(self)@.bounties[old(self)@.enemies[ei as int] as int] <= u32::MAX,
        ensures
            final(self)@.wf(),
            final(self)@ == old(self)@.after_kill(ei as int),
    {
        let ghost v = self@;
        let breed = self.enemies.swap_remove(ei);
        self.money = self.money + self.bounties[breed];
        proof {
            assert forall|i: int| 0 <= i < self@.enemies.len() implies #[trigger] self@.enemies[i] < self@.bounties.len() by {
                if i == ei {
                    assert(self@.enemies[i] == v.enemies[v.enemies.len() - 1]);
                } else {
                    assert(self@.enemies[i] == v.enemies[i]);
                }
            }
        }
    }

    /// Enemy `ei` reached the door (see [`GameView::after_leak`]). Returns the
    /// lives lost.
    pub fn leak(&mut self, ei: usize) -> (lost: u32)
        requires
            old(self)@.wf(),
            ei < old(self)@.enemies.len(),
        ensures
            final(self)@.wf(),
            lost == old(self)@.leak_cost(ei as int),
            final(self)@ == old(self)@.after_leak(ei as int),
    {
        let ghost v = self@;
        let breed = self.enemies.swap_remove(ei);
        let cost = self.lives_costs[breed];
        let lost = if cost < self.lives { cost } else { self.lives };
        self.lives = self.lives - lost;
        proof {
            assert forall|i: int| 0 <= i < self@.enemies.len() implies #[trigger] self@.enemies[i] < self@.bounties.len() by {
                if i == ei {
                    assert(self@.enemies[i] == v.enemies[v.enemies.len() - 1]);
                } else {
                    assert(self@.enemies[i] == v.enemies[i]);
                }
            }
        }
        lost
    }

    /// Close the tick once enemies have moved (see [`GameView::end_tick`]).
    pub fn end_tick(&mut self) -> (outcome: TickOutcome)
        requires
            old(self)@.wf(),
            !old(self)@.done,
            old(self)@.waves.len() > 0,
            old(self)@.lives > 0 && old(self)@.phase == WavePhase::Spawning ==> old(self)@.wave_clock < u32::MAX,
        ensures
            final(self)@.wf(),
            (final(self)@, outcome) == old(self)@.end_tick(),
    {
        let ghost v = self@;
        if self.lives == 0 {
            self.done = true;
            self.won = false;
            assert(self@ == GameView { done: true, won: false, ..v });
            return TickOutcome::Lost;
        }
        match self.phase {
            WavePhase::Spawning => {
                self.wave_clock = self.wave_clock + 1;
                let wi = self.wave_idx;
                proof {
                    assert(v.waves[wi as int] == wave_view(self.waves@[wi as int]));
                    assert(v.waves[wi as int].len() <= v.spawned.len());
                }
                let all = all_spawned(&self.waves[wi], &self.spawned);
                proof {
                    assert(v.current_groups() == wave_view(self.waves@[wi as int]));
                    assert(all == v.all_spawned());
                    assert(self.wave_idx < self.waves.len());
                }
                if all && self.enemies.len() == 0 {
                    if self.wave_idx + 1 >= self.waves.len() {
                        self.done = true;
                        self.won = true;
                        TickOutcome::GameWon
                    } else {
                        self.phase = WavePhase::Breather { ticks_left: self.breather_ticks };
                        TickOutcome::WaveSurvived
                    }
                } else {
                    TickOutcome::Ongoing
                }
            },
            WavePhase::Breather { ticks_left } => {
                let left = ticks_left - 1;
                assert(v.wave_idx + 1 < v.waves.len());
                if left == 0 {
                    self.wave_idx = self.wave_idx + 1;
                    self.wave_clock = 0;
                    zero_counts(&mut self.spawned);
                    self.phase = WavePhase::Spawning;
                } else {
                    self.phase = WavePhase::Breather { ticks_left: left };
                }
                TickOutcome::Ongoing
            },
        }
    }

    /// The tick is over: count it.
    pub fn finish_tick(&mut self)
        requires
            old(self)@.wf(),
            old(self)@.tick < u64::MAX,
        ensures
            final(self)@.wf(),
            final(self)@ == (GameView { tick: (old(self)@.tick + 1) as u64, ..old(self)@ }),
    {
        self.tick = self.tick + 1;
    }

    /// The presence plane of breed `d`: per grid cell (row-major), whether a
    /// dog of that breed stands there.
    pub fn dog_plane(&self, d: usize) -> (plane: Vec<bool>)
        requires
            self@.wf(),
        ensures
            plane@.len() == self@.occupied.len(),
            forall|i: int|
                0 <= i < plane@.len() ==> (plane@[i] <==> exists|k: int|
                    0 <= k < self@.dogs.len() && (#[trigger] self@.dogs[k]).spec == d
                        && cell_index(self@.grid.width, self@.dogs[k].cell) == i),
    {
        let ghost v = self@;
        let cells = self.occupied.len();
        let w = self.grid.width;
        let mut plane: Vec<bool> = Vec::new();
        let mut i: usize = 0;
        while i < cells
            invariant
                i <= cells,
                plane@ == Seq::new(i as nat, |k: int| false),
            decreases cells - i,
        {
            plane.push(false);
            i = i + 1;
        }
        let n = self.dogs.len();
        let mut j: usize = 0;
        while j < n
            invariant
                v == self@,
                v.wf(),
                n == v.dogs.len(),
                w == v.grid.width,
                cells == v.occupied.len(),
                j <= n,
                plane@.len() == cells,
                forall|q: int|
                    0 <= q < cells ==> (plane@[q] <==> exists|k: int|
                        0 <= k < j && (#[trigger] v.dogs[k]).spec == d && cell_index(w, v.dogs[k].cell) == q),
            decreases n - j,
        {
            let dog = self.dogs[j];
            if dog.spec == d {
                proof {
                    lemma_cell_in_grid(dog.cell.0, dog.cell.1, w, v.grid.height);
                }
                let gi = dog.cell.1 * w + dog.cell.0;
                plane.set(gi, true);
                proof {
                    assert forall|q: int|
                        0 <= q < cells implies (plane@[q] <==> exists|k: int|
                            0 <= k < j + 1 && (#[trigger] v.dogs[k]).spec == d && cell_index(w, v.dogs[k].cell) == q) by {
                        if q == gi {
                            assert(v.dogs[j as int].spec == d && cell_index(w, v.dogs[j as int].cell) == q);
                        }
                    }
                }
            } else {
                proof {
                    assert forall|q: int|
                        0 <= q < cells implies (plane@[q] <==> exists|k: int|
                            0 <= k < j + 1 && (#[trigger] v.dogs[k]).spec == d && cell_index(w, v.dogs[k].cell) == q) by {
                        if exists|k: int| 0 <= k < j + 1 && (#[trigger] v.dogs[k]).spec == d && cell_index(w, v.dogs[k].cell) == q {
                            let k = choose|k: int| 0 <= k < j + 1 && (#[trigger] v.dogs[k]).spec == d && cell_index(w, v.dogs[k].cell) == q;
                            assert(k != j);
                        }
                    }
                }
            }
            j = j + 1;
        }
        plane
    }
}

/// Append every item of `src` to `dst`, in order.
fn append_all(dst: &mut Vec<usize>, src: &Vec<usize>)
    ensures
        final(dst)@ == old(dst)@ + src@,
{
    let mut k: usize = 0;
    while k < src.len()
        invariant
            k <= src@.len(),
            dst@ == old(dst)@ + src@.take(k as int),
        decreases src@.len() - k,
    {
        dst.push(src[k]);
        proof {
            assert(src@.take(k + 1) == src@.take(k as int).push(src@[k as int]));
        }
        k = k + 1;
    }
    assert(src@.take(src@.len() as int) == src@);
}

/// Has every group spawned in full?
fn all_spawned(groups: &Vec<SpawnSchedule>, spawned: &Vec<u32>) -> (all: bool)
    requires
        groups.len() <= spawned.len(),
    ensures
        all == forall|g: int|
            0 <= g < groups.len() ==> spawned@[g] >= (#[trigger] wave_view(*groups)[g]).1.len(),
{
    let ghost gv = wave_view(*groups);
    let mut g: usize = 0;
    while g < groups.len()
        invariant
            g <= groups.len(),
            groups.len() <= spawned.len(),
            gv == wave_view(*groups),
            forall|q: int| 0 <= q < g ==> spawned@[q] >= (#[trigger] gv[q]).1.len(),
        decreases groups.len() - g,
    {
        assert(gv[g as int] == spawn_view(groups[g as int]));
        if (spawned[g] as usize) < groups[g].ticks.len() {
            return false;
        }
        g = g + 1;
    }
    true
}

} // verus!
