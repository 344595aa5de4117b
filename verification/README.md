# dark_forest

The core of a Dark Forest game simulator, verified with Verus.

## Layout

- `src/math_engine.rs` — the contract arithmetic: integer square root,
  upgrade prices, combat values, durability, tokens, jump costs, the combat
  formula, distances, and the global DFT state; with the growth laws.
- `src/player.rs` — a player's integer state (`Civilization`) as a state
  machine: collection, token regeneration, upgrades and daily upgrade
  rounds, attacks, rebuilding, invitations, daily counters; social-list and
  address helpers.
- `src/engine.rs` — the simulation's daily decisions: emission shares,
  alliance defense, strike planning, scanning range, and the energy market
  with its conservation law.
- `src/coldstore.rs` — the 128-byte-per-player memory-mapped cold store
  (over `memmap2::MmapMut`).
- `src/store.rs` — the structure-of-arrays entity store.
- `src/battle_engine.rs` — grouped battle resolution over the entity store.
- `src/gpu_compute.rs` — the per-cohort record of the GPU pass.
- `app/` — the simulator program: personalities and moods (floating point),
  randomness, alliances and diplomacy, the player tables, file mapping and
  the wgpu context, around calls into the library.
- `tests/` — tests of the library on concrete values.
