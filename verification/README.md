# gardogs

A tower-defense game in which dogs defend a garden against waves of cats,
postmen and seagulls, played by a Double-DQN agent that learns from the score
alone.

## Layout

- `src/` — the verified library (Verus):
  - `types.rs`: targeting, movement, grid geometry, actions, observation shape.
  - `game.rs`: `GameState`, the whole integer state of a game — buildable
    cells, placement and the action mask, money, lives, dog reloads, the spawn
    schedule, the wave/breather cycle, win and loss — each operation specified
    exactly over the model `GameView`.
  - `laws.rs`: properties across operations (the mask is the legality of an
    action and speaks of the dogs on the field, occupied cells cannot be
    built on, spending, terminal states, reset, the end of a tick, the kills
    and leaks of a tick, the breather before the next wave, spawning).
  - `replay.rs`: the experience ring buffer and its keep-the-most-recent
    laws, for one store and for any number of them.
  - `checkpoint.rs`: the binary checkpoint format, with a proved round trip.
  - `agent.rs`: random legal play, the learner's train/sync cadence, and
    storing one observed transition.
  - `cli.rs`: flag parsing, decimal numbers, preset names, outcome words.
  - `rng.rs`: the two calls into `rand`/`rand_chacha`.
- `app/` — the driver program and everything that computes in floating point:
  game configurations, enemy motion and firing, observations, the neural
  network, the DQN learner and the training loop.
- `tests/` — tests of the library.
