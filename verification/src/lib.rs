//! Deterministic world model and simulation rules of the NEXUS world engine.
use vstd::prelude::*;

pub mod world;
pub mod pathfinding;
pub mod regions;
pub mod resources;
pub mod text;
pub mod inventory;
pub mod time;
pub mod entity;
pub mod events;
pub mod mind;
pub mod spatial;
pub mod exploration;
pub mod idset;
pub mod genealogy;
pub mod kinship;
pub mod benchmarking;
pub mod state_hash;
pub mod performance;
pub mod ties;
pub mod lifecycle;
pub mod action;
pub mod households;
pub mod perception;
pub mod partnerships;
pub mod transfers;
pub mod dependents;
pub mod social;
pub mod records;
pub mod sharing;
pub mod census;
pub mod clock;
pub mod chronicle;
pub mod interruptions;
pub mod conflicts;
pub mod planning;
pub mod movement;
pub mod engagement;
pub mod approach;

verus! {

} // verus!
