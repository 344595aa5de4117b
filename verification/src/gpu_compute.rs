//! The per-cohort record that the GPU compute pass reads and writes: one
//! cohort's head count, average system levels and totals. The GPU context
//! and the byte-level view of the record belong to the simulation driver.

use vstd::prelude::*;

verus! {

/// One cohort's aggregate state. Totals are split into low and high 64-bit
/// halves; the padding keeps the record's layout at 80 bytes.
#[derive(Clone, Copy, Debug)]
pub struct CohortGpu {
    pub count: u32,
    pub avg_collector_lv: u32,
    pub avg_weapon_lv: u32,
    pub avg_shield_lv: u32,
    pub avg_radar_lv: u32,
    pub avg_engine_lv: u32,
    pub _pad: [u32; 2],
    pub total_energy_lo: u64,
    pub total_energy_hi: u64,
    pub total_dft_lo: u64,
    pub total_dft_hi: u64,
    pub deaths: u32,
    pub upgrades: u32,
    pub _pad2: [u32; 2],
}

} // verus!
