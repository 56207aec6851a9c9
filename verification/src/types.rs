//! The shared vocabulary of the game: what a dog can target, how an enemy
//! travels, the garden's geometry, the shape of observations and the actions.

use vstd::prelude::*;

verus! {

/// What a dog can shoot at. Seagulls (air) can only be hit by `Air`/`Both`.
#[derive(Clone, Copy, Debug, PartialEq, Eq, Structural)]
pub enum Target {
    Ground,
    Air,
    Both,
}

/// How an enemy travels. Ground enemies walk the path; air enemies fly straight
/// over it to the door (same 1-D progress axis, but only `Air`/`Both` dogs hit them).
#[derive(Clone, Copy, Debug, PartialEq, Eq, Structural)]
pub enum Movement {
    Ground,
    Air,
}

/// Whether a dog targeting `target` may hit an enemy moving by `movement`.
pub open spec fn spec_target_hits(target: Target, movement: Movement) -> bool {
    match target {
        Target::Both => true,
        Target::Ground => movement == Movement::Ground,
        Target::Air => movement == Movement::Air,
    }
}

/// Can a dog with `target` hit an enemy with this `movement`?
pub fn target_hits(target: Target, movement: Movement) -> (hits: bool)
    ensures
        hits == spec_target_hits(target, movement),
{
    match target {
        Target::Both => true,
        Target::Ground => movement == Movement::Ground,
        Target::Air => movement == Movement::Air,
    }
}

/// The garden geometry.
#[derive(Clone, Copy, Debug, PartialEq, Eq, Structural)]
pub struct GridConfig {
    pub width: usize,
    pub height: usize,
    /// The single row the path runs along (one straight lane).
    pub path_row: usize,
}

/// The shape of an observation: a flat vector, or stacked 2-D planes for a
/// convolutional network.
#[derive(Clone, Copy, Debug, PartialEq, Eq, Structural)]
pub enum ObsShape {
    Flat(usize),
    Planes { channels: usize, height: usize, width: usize },
}

/// A decision the agent can take on a tick.
///
/// Actions are also addressed by a flat index in `0..action_count` (NOOP is 0),
/// which is what the action mask is indexed by.
#[derive(Clone, Copy, Debug, PartialEq, Eq, Structural)]
pub enum Action {
    /// Do nothing this tick (let the game advance, save money).
    Noop,
    /// Place `dog` (a dog-spec index) on buildable cell `cell` (a buildable index).
    Place { dog: usize, cell: usize },
}

/// The built-in games that the driver program can select by name.
#[derive(Clone, Copy, Debug, PartialEq, Eq, Structural)]
pub enum Preset {
    Phase1,
    Phase2,
}

} // verus!
