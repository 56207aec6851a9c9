//! Gardogs: the verified rules of a tower-defense game in which dogs defend a
//! garden against waves of cats, postmen and seagulls, together with the
//! integer-valued machinery of its learning agent and driver.
//!
//! Modules:
//! - [`types`]: the shared vocabulary (targeting, movement, grid, actions).
//! - [`game`]: the integer state of a game: placement, economy, lives, waves.
//! - [`laws`]: what holds of the game rules across operations.
//! - [`rng`]: the seeded ChaCha8 generator, used through two trusted calls.
//! - [`agent`]: random legal play and the learner's step cadence.
//! - [`replay`]: the fixed-capacity experience ring buffer.
//! - [`checkpoint`]: the binary network checkpoint format.
//! - [`cli`]: command-line flag parsing for the driver program.

pub mod types;
pub mod rng;
pub mod game;
pub mod laws;
pub mod agent;
pub mod replay;
pub mod checkpoint;
pub mod cli;

pub use types::{target_hits, Action, GridConfig, Movement, ObsShape, Preset, Target};
pub use game::{count_buildable, obs_len, DogSlot, GameState, SpawnSchedule, TickOutcome, WavePhase, LOSS_PENALTY, WAVE_BONUS, WIN_BONUS};
pub use agent::{observe_transition, random_legal, LearnSchedule, RandomAgent};
pub use replay::Replay;
pub use checkpoint::{decode, encode, read_u32, write_u32, CheckpointError, LayerRecord};
pub use cli::{outcome_str, parse_u64, preset_by_name, FlagError, Flags};
