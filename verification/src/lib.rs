//! Dark Forest simulation core: the game's contract arithmetic, combat, the
//! per-player state machine, the memory-mapped cold slot store and the
//! structure-of-arrays entity store, all verified with Verus.

pub mod math_engine;
pub mod coldstore;
pub mod store;
pub mod battle_engine;
pub mod player;
pub mod gpu_compute;
pub mod engine;
