//! Contract arithmetic of the game: integer square root, upgrade costs,
//! combat values, token buckets, jump costs, distances and the global
//! DFT emission state.

use vstd::prelude::*;
use vstd::string::StringSliceAdditionalSpecFns;

verus! {

// ─────────────────────────────────────────────────────────────
// Integer square root
// ─────────────────────────────────────────────────────────────

/// The floor of the square root of `x`, defined by counting up from 0.
pub open spec fn floor_sqrt(x: nat) -> nat
    decreases x,
{
    if x == 0 {
        0
    } else {
        let r = floor_sqrt((x - 1) as nat);
        if (r + 1) * (r + 1) <= x {
            r + 1
        } else {
            r
        }
    }
}

/// `r` is the integer square root of `x`.
pub open spec fn is_floor_sqrt(x: int, r: int) -> bool {
    0 <= r && r * r <= x && x < (r + 1) * (r + 1)
}

/// `floor_sqrt` meets its defining inequalities.
pub proof fn lemma_floor_sqrt_bounds(x: nat)
    ensures
        is_floor_sqrt(x as int, floor_sqrt(x) as int),
    decreases x,
{
    if x > 0 {
        lemma_floor_sqrt_bounds((x - 1) as nat);
        let r = floor_sqrt((x - 1) as nat);
        assert((r + 1) * (r + 1) < (r + 2) * (r + 2)) by (nonlinear_arith);
    }
}

/// The integer square root is unique.
pub proof fn lemma_floor_sqrt_unique(x: int, r1: int, r2: int)
    requires
        is_floor_sqrt(x, r1),
        is_floor_sqrt(x, r2),
    ensures
        r1 == r2,
{
    assert(r1 < r2 + 1) by (nonlinear_arith)
        requires
            0 <= r1,
            0 <= r2,
            r1 * r1 <= x,
            x < (r2 + 1) * (r2 + 1),
    ;
    assert(r2 < r1 + 1) by (nonlinear_arith)
        requires
            0 <= r1,
            0 <= r2,
            r2 * r2 <= x,
            x < (r1 + 1) * (r1 + 1),
    ;
}

/// Any value meeting the defining inequalities is `floor_sqrt`.
pub proof fn lemma_floor_sqrt_is(x: nat, r: int)
    requires
        is_floor_sqrt(x as int, r),
    ensures
        r == floor_sqrt(x),
{
    lemma_floor_sqrt_bounds(x);
    lemma_floor_sqrt_unique(x as int, r, floor_sqrt(x) as int);
}

/// The integer square root never decreases as its argument grows.
pub proof fn lemma_floor_sqrt_monotonic(x: nat, y: nat)
    requires
        x <= y,
    ensures
        floor_sqrt(x) <= floor_sqrt(y),
{
    lemma_floor_sqrt_bounds(x);
    lemma_floor_sqrt_bounds(y);
    let a = floor_sqrt(x) as int;
    let b = floor_sqrt(y) as int;
    assert(a <= b) by (nonlinear_arith)
        requires
            0 <= a,
            0 <= b,
            a * a <= x,
            x <= y,
            y < (b + 1) * (b + 1),
    ;
}

/// One Newton step from any positive guess never undershoots the root.
proof fn lemma_newton_not_below(x: int, w: int, s: int)
    requires
        is_floor_sqrt(x, s),
        w >= 1,
    ensures
        (x / w + w) / 2 >= s,
{
    let q = x / w;
    assert(x < (q + 1) * w) by (nonlinear_arith)
        requires
            w >= 1,
            q == x / w,
    ;
    if q + w < 2 * s {
        assert(4 * ((q + 1) * w) <= (q + 1 + w) * (q + 1 + w)) by (nonlinear_arith);
        assert((q + 1 + w) * (q + 1 + w) <= (2 * s) * (2 * s)) by (nonlinear_arith)
            requires
                0 <= q + 1 + w,
                q + 1 + w <= 2 * s,
        ;
        assert((2 * s) * (2 * s) == 4 * (s * s)) by (nonlinear_arith);
        assert(false);
    }
}

/// One Newton step from above the root strictly descends.
proof fn lemma_newton_descends(x: int, w: int, s: int)
    requires
        is_floor_sqrt(x, s),
        w > s,
    ensures
        (x / w + w) / 2 < w,
{
    assert(x < w * w) by (nonlinear_arith)
        requires
            x < (s + 1) * (s + 1),
            w >= s + 1,
            s >= 0,
    ;
    assert(x / w < w) by (nonlinear_arith)
        requires
            x < w * w,
            w >= 1,
            x >= 0,
    ;
}

/// One Newton step from the root itself moves up by at most one.
proof fn lemma_newton_at_root(x: int, s: int)
    requires
        is_floor_sqrt(x, s),
        s >= 1,
    ensures
        (x / s + s) / 2 <= s + 1,
{
    assert(x / s <= s + 2) by (nonlinear_arith)
        requires
            x < (s + 1) * (s + 1),
            s >= 1,
            x >= 0,
    ;
}

/// Integer square root: the largest `r` with `r * r <= x`.
pub fn isqrt(x: u128) -> (r: u128)
    ensures
        r == floor_sqrt(x as nat),
{
    if x == 0 {
        return 0;
    }
    let ghost s: int = floor_sqrt(x as nat) as int;
    proof {
        lemma_floor_sqrt_bounds(x as nat);
        assert(s < 0x1_0000_0000_0000_0000) by (nonlinear_arith)
            requires
                s >= 0,
                s * s <= x,
                x < 0x1_0000_0000_0000_0000_0000_0000_0000_0000,
        ;
        assert(s >= 1) by (nonlinear_arith)
            requires
                x >= 1,
                x < (s + 1) * (s + 1),
                s >= 0,
        ;
        assert(x / x == 1) by (nonlinear_arith)
            requires
                x >= 1,
        ;
        lemma_newton_not_below(x as int, x as int, s);
    }
    let mut z: u128 = x / 2 + x % 2;
    let mut y: u128 = x;
    while z < y
        invariant
            x >= 1,
            is_floor_sqrt(x as int, s),
            1 <= s < 0x1_0000_0000_0000_0000,
            s <= y <= x,
            s <= z <= 0x8000_0000_0000_0000_0000_0000_0000_0000,
            z == (x / y + y) / 2,
        decreases y,
    {
        y = z;
        proof {
            lemma_newton_not_below(x as int, z as int, s);
            if z > s {
                lemma_newton_descends(x as int, z as int, s);
            } else {
                lemma_newton_at_root(x as int, s);
            }
            if z >= 2 {
                assert(x / z <= x / 2) by (nonlinear_arith)
                    requires
                        z >= 2,
                        x >= 0,
                ;
            } else {
                assert(x < 4) by (nonlinear_arith)
                    requires
                        z == 1,
                        s <= z,
                        s >= 1,
                        x < (s + 1) * (s + 1),
                ;
            }
        }
        z = (x / z + z) / 2;
    }
    proof {
        if y > s {
            lemma_newton_descends(x as int, y as int, s);
        }
    }
    y
}


// ─────────────────────────────────────────────────────────────
// Game constants
// ─────────────────────────────────────────────────────────────

pub const INITIAL_ENERGY: u128 = 2000;
pub const INITIAL_HEALTH: u128 = 3000;
pub const INITIAL_SCAN_RANGE: u128 = 1000;
pub const MAX_HEALTH: u128 = 20000;

/// Daily DFT emission: 400 000 DFT in wei (10^18 wei per DFT).
pub const DAILY_DFT_EMISSION: u128 = 400_000_000_000_000_000_000_000;
/// Total DFT supply: ten years of daily emission, in wei.
pub const TOTAL_SUPPLY: u128 = 1_460_000_000_000_000_000_000_000_000;
pub const REFERRAL_REWARD: u128 = 150;
pub const NEWBIE_PROTECTION: u128 = 86400;

pub const ENTRY_FEE_MIN: u128 = 10_000_000_000_000_000;
pub const ENTRY_FEE_MAX: u128 = 50_000_000_000_000_000;

/// Upgrade cost coefficients: cost(N) = A * N * (N + B) / 100 wei.
pub const UP_A_COLLECTOR: u128 = 40_000_000_000_000_000_000;
pub const UP_A_WEAPON: u128 = 80_000_000_000_000_000_000;
pub const UP_A_SHIELD: u128 = 60_000_000_000_000_000_000;
pub const UP_A_RADAR: u128 = 64_000_000_000_000_000_000;
pub const UP_A_ENGINE: u128 = 48_000_000_000_000_000_000;

pub const UP_B_COLLECTOR: u128 = 8;
pub const UP_B_WEAPON: u128 = 12;
pub const UP_B_SHIELD: u128 = 9;
pub const UP_B_RADAR: u128 = 11;
pub const UP_B_ENGINE: u128 = 8;

pub const ENERGY_UP_BASE: u128 = 200;

pub const ENGINE_SPEED_BASE: u128 = 10;
pub const ENGINE_SPEED_PER_LV: u128 = 5;

/// Radar range: Range(N) = 1000 + 150 N + 5 N².
pub const RADAR_BASE: u128 = 1000;
pub const RADAR_LINEAR: u128 = 150;
pub const RADAR_QUAD: u128 = 5;

pub const ATK_BASE: u128 = 900;
pub const ATK_RATE: u128 = 10;
pub const DEF_BASE: u128 = 540;
pub const DEF_RATE: u128 = 6;
pub const SHIELD_HP_BASE: u128 = 3600;
pub const SHIELD_HP_RATE: u128 = 15;
pub const REGEN_BASE: u128 = 50;
pub const REGEN_RATE: u128 = 1;
pub const SHIELD_DMG_BONUS: u128 = 200;

pub const ATTACK_ENERGY_BASE: u128 = 1000;
pub const ATTACK_ENERGY_PER_LV: u128 = 2000;
/// Share of the defender's energy plundered on destruction, in basis points.
pub const PLUNDER_RATIO: u128 = 1500;
pub const DESTRUCTION_RATE: u128 = 4000;
pub const DOWNGRADE_DIVISOR: u128 = 10;
pub const SHIELD_REGEN_RATIO: u128 = 1;

pub const BASE_COLLECT: u128 = 3;
pub const COLLECT_BONUS: u128 = 10;
pub const DURABILITY_BASE: u128 = 86400;
pub const DURABILITY_PER_LV: u128 = 7200;
pub const REPAIR_COST_PER_SEC: u128 = 1;

pub const WEAPON_DUR_BASE: u128 = 500;
pub const WEAPON_DUR_PER_LV: u128 = 100;
pub const WEAPON_REPAIR_COST: u128 = 2;
pub const SHIELD_DUR_BASE: u128 = 259200;
pub const SHIELD_DUR_PER_LV: u128 = 172800;
pub const SHIELD_REPAIR_COST: u128 = 2;
pub const ENGINE_DUR_BASE: u128 = 50;
pub const ENGINE_DUR_PER_LV: u128 = 10;
pub const ENGINE_REPAIR_COST: u128 = 3;

pub const TOKEN_INTERVAL_MS_BASE: u128 = 300;
pub const TOKEN_INTERVAL_REDUCTION: u128 = 10;
pub const TOKEN_BASE_MAX: u128 = 3;
pub const TOKEN_MAX_CAP: u128 = 10;

pub const JUMP_ENERGY_BASE: u128 = 5000;
pub const JUMP_ENERGY_PER_SQRT: u128 = 5000;
pub const JUMP_ENERGY_MAX: u128 = 150000;
pub const JUMP_DFT_BASE: u128 = 3000;
pub const JUMP_DFT_PER_SQRT: u128 = 3000;
pub const JUMP_DFT_MAX: u128 = 100000;
pub const JUMP_COOLDOWN: u128 = 3600;
pub const TRACKING_RADAR_LV: u128 = 20;

pub const ALLIANCE_DEF_BONUS: u128 = 8;
pub const MAX_ALLIANCE_MEMBERS: usize = 25;

pub const SYS_COLLECTOR: usize = 0;
pub const SYS_WEAPON: usize = 1;
pub const SYS_SHIELD: usize = 2;
pub const SYS_RADAR: usize = 3;
pub const SYS_ENGINE: usize = 4;

/// Post-scarcity threshold: burned / minted in per mille.
pub const POST_SCARCITY_THRESHOLD: u128 = 970;

// ─────────────────────────────────────────────────────────────
// Global DFT emission / burn state
// ─────────────────────────────────────────────────────────────

#[derive(Clone, Copy, Debug)]
pub struct GlobalState {
    pub total_minted: u128,
    pub total_burned: u128,
    pub post_scarcity: bool,
    pub supply_exhausted: bool,
}

/// Burned share of the minted supply crosses the post-scarcity threshold.
pub open spec fn burn_ratio_reached(minted: int, burned: int) -> bool {
    burned * 1000 / minted >= POST_SCARCITY_THRESHOLD
}

impl GlobalState {
    /// The state after recording mint total `minted` and burn total `burned`.
    pub open spec fn updated(self, minted: u128, burned: u128) -> GlobalState {
        GlobalState {
            total_minted: minted,
            total_burned: burned,
            post_scarcity: if minted > 0 {
                burn_ratio_reached(minted as int, burned as int)
            } else {
                self.post_scarcity
            },
            supply_exhausted: minted >= TOTAL_SUPPLY,
        }
    }

    /// More DFT may still be minted.
    pub open spec fn minting_open(self) -> bool {
        self.total_minted < TOTAL_SUPPLY
    }

    pub fn new() -> (g: Self)
        ensures
            g.total_minted == 0,
            g.total_burned == 0,
            !g.post_scarcity,
            !g.supply_exhausted,
    {
        GlobalState { total_minted: 0, total_burned: 0, post_scarcity: false, supply_exhausted: false }
    }

    /// Records the running mint and burn totals and recomputes both flags.
    /// With nothing minted the post-scarcity flag keeps its old value.
    pub fn update(&mut self, minted: u128, burned: u128)
        requires
            minted > 0 ==> burned * 1000 <= u128::MAX,
        ensures
            *final(self) == old(self).updated(minted, burned),
    {
        self.total_minted = minted;
        self.total_burned = burned;
        self.supply_exhausted = minted >= TOTAL_SUPPLY;
        if minted > 0 {
            let ratio: u128 = burned * 1000 / minted;
            self.post_scarcity = ratio >= POST_SCARCITY_THRESHOLD;
        }
    }

    pub fn is_post_scarcity(&self) -> (r: bool)
        ensures
            r == self.post_scarcity,
    {
        self.post_scarcity
    }

    pub fn can_mint(&self) -> (r: bool)
        ensures
            r == self.minting_open(),
    {
        self.total_minted < TOTAL_SUPPLY
    }
}

/// After any update, minting stays open exactly when the supply is not
/// marked exhausted.
pub proof fn lemma_can_mint_iff_not_exhausted(g: GlobalState, minted: u128, burned: u128)
    ensures
        g.updated(minted, burned).minting_open() == !g.updated(minted, burned).supply_exhausted,
{
}

/// Once post-scarcity is reached it is kept by updates that report nothing
/// minted, and an update with the burned share at or above the threshold
/// always reaches it.
pub proof fn lemma_post_scarcity_update(g: GlobalState, minted: u128, burned: u128)
    ensures
        minted == 0 ==> g.updated(minted, burned).post_scarcity == g.post_scarcity,
        minted > 0 && burned * 1000 >= POST_SCARCITY_THRESHOLD * minted ==> g.updated(
            minted,
            burned,
        ).post_scarcity,
{
    if minted > 0 && burned * 1000 >= POST_SCARCITY_THRESHOLD * minted {
        let b = burned * 1000;
        assert(b / (minted as int) >= POST_SCARCITY_THRESHOLD) by (nonlinear_arith)
            requires
                b >= 970 * minted,
                minted > 0,
        ;
    }
}

// ─────────────────────────────────────────────────────────────
// System names
// ─────────────────────────────────────────────────────────────

/// Two strings hold the same characters (compared byte by byte).
pub fn str_eq(a: &str, b: &str) -> (r: bool)
    ensures
        r == (a@ == b@),
{
    broadcast use vstd::utf8::encode_utf8_decode_utf8;

    let ab: &[u8] = a.as_bytes();
    let bb: &[u8] = b.as_bytes();
    if ab.len() != bb.len() {
        return false;
    }
    let n: usize = ab.len();
    let mut i: usize = 0;
    while i < n
        invariant
            n == ab@.len(),
            n == bb@.len(),
            i <= n,
            ab@ == a.spec_bytes(),
            bb@ == b.spec_bytes(),
            forall|k: int| 0 <= k < i ==> ab@[k] == bb@[k],
        decreases n - i,
    {
        if ab[i] != bb[i] {
            return false;
        }
        i = i + 1;
    }
    assert(ab@ =~= bb@);
    assert(vstd::utf8::decode_utf8(a.spec_bytes()) == a@);
    assert(vstd::utf8::decode_utf8(b.spec_bytes()) == b@);
    true
}

/// Index of an upgradable system by name: collector 0, weapon 1, shield 2,
/// radar 3, engine 4; `None` for any other name.
pub open spec fn system_id(name: Seq<char>) -> Option<nat> {
    if name == "collector"@ {
        Some(0)
    } else if name == "weapon"@ {
        Some(1)
    } else if name == "shield"@ {
        Some(2)
    } else if name == "radar"@ {
        Some(3)
    } else if name == "engine"@ {
        Some(4)
    } else {
        None
    }
}

/// Looks a system name up; `None` for names that are not systems.
pub fn lookup_system(name: &str) -> (r: Option<u32>)
    ensures
        r matches Some(i) ==> system_id(name@) == Some(i as nat),
        r is None ==> system_id(name@) is None,
{
    if str_eq(name, "collector") {
        Some(0)
    } else if str_eq(name, "weapon") {
        Some(1)
    } else if str_eq(name, "shield") {
        Some(2)
    } else if str_eq(name, "radar") {
        Some(3)
    } else if str_eq(name, "engine") {
        Some(4)
    } else {
        None
    }
}

// ─────────────────────────────────────────────────────────────
// Upgrade costs
// ─────────────────────────────────────────────────────────────

/// The `A` coefficient of a system's DFT upgrade cost (0 for unknown names).
pub open spec fn upgrade_a(name: Seq<char>) -> int {
    let id = system_id(name);
    if id == Some(0nat) {
        UP_A_COLLECTOR as int
    } else if id == Some(1nat) {
        UP_A_WEAPON as int
    } else if id == Some(2nat) {
        UP_A_SHIELD as int
    } else if id == Some(3nat) {
        UP_A_RADAR as int
    } else if id == Some(4nat) {
        UP_A_ENGINE as int
    } else {
        0
    }
}

/// The `B` coefficient of a system's DFT upgrade cost (0 for unknown names).
pub open spec fn upgrade_b(name: Seq<char>) -> int {
    let id = system_id(name);
    if id == Some(0nat) {
        UP_B_COLLECTOR as int
    } else if id == Some(1nat) {
        UP_B_WEAPON as int
    } else if id == Some(2nat) {
        UP_B_SHIELD as int
    } else if id == Some(3nat) {
        UP_B_RADAR as int
    } else if id == Some(4nat) {
        UP_B_ENGINE as int
    } else {
        0
    }
}

/// DFT cost of upgrading a system from level `lv`: A * lv * (lv + B) / 100.
pub open spec fn upgrade_cost(name: Seq<char>, lv: int) -> int {
    upgrade_a(name) * lv * (lv + upgrade_b(name)) / 100
}

/// The upgrade cost's intermediate products fit in a `u128`.
pub open spec fn upgrade_cost_fits(name: Seq<char>, lv: int) -> bool {
    &&& lv + upgrade_b(name) <= u128::MAX
    &&& upgrade_a(name) * lv * (lv + upgrade_b(name)) <= u128::MAX
}

proof fn lemma_mul_grows(a: int, b: int)
    requires
        a >= 0,
        b >= 1,
    ensures
        a <= a * b,
{
    assert(a <= a * b) by (nonlinear_arith)
        requires
            a >= 0,
            b >= 1,
    ;
}

pub fn calc_upgrade_cost(system: &str, lv: u128) -> (r: u128)
    requires
        upgrade_cost_fits(system@, lv as int),
    ensures
        r == upgrade_cost(system@, lv as int),
{
    let id: Option<u32> = lookup_system(system);
    let (a, b): (u128, u128) = match id {
        Some(0) => (UP_A_COLLECTOR, UP_B_COLLECTOR),
        Some(1) => (UP_A_WEAPON, UP_B_WEAPON),
        Some(2) => (UP_A_SHIELD, UP_B_SHIELD),
        Some(3) => (UP_A_RADAR, UP_B_RADAR),
        Some(4) => (UP_A_ENGINE, UP_B_ENGINE),
        _ => (0, 0),
    };
    assert(a == upgrade_a(system@) && b == upgrade_b(system@));
    let s: u128 = lv + b;
    proof {
        if lv == 0 {
            assert(a * lv == 0) by (nonlinear_arith)
                requires
                    lv == 0,
            ;
        } else {
            lemma_mul_grows(a as int, lv as int);
        }
        if s >= 1 {
            lemma_mul_grows((a * lv) as int, s as int);
        } else {
            assert(a * lv == 0) by (nonlinear_arith)
                requires
                    lv == 0,
            ;
        }
    }
    a * lv * s / 100
}

/// Energy multiplier 2^id of a system's energy upgrade cost.
pub open spec fn energy_multiplier(id: nat) -> int {
    if id == 0 {
        1
    } else if id == 1 {
        2
    } else if id == 2 {
        4
    } else if id == 3 {
        8
    } else {
        16
    }
}

/// Energy cost of an upgrade: 200 * 2^id * (100 + 50 lv) / 100, where
/// unknown names use id 0.
pub open spec fn upgrade_energy(name: Seq<char>, lv: int) -> int {
    let id: nat = match system_id(name) {
        Some(i) => i,
        None => 0,
    };
    ENERGY_UP_BASE * energy_multiplier(id) * (100 + lv * 50) / 100
}

/// The energy cost's product `200 * 2^id * (100 + 50 lv)` fits in a `u128`.
pub open spec fn upgrade_energy_fits(name: Seq<char>, lv: int) -> bool {
    let id: nat = match system_id(name) {
        Some(i) => i,
        None => 0,
    };
    ENERGY_UP_BASE * energy_multiplier(id) * (100 + lv * 50) <= u128::MAX
}

pub fn calc_upgrade_energy(system: &str, lv: u128) -> (r: u128)
    requires
        upgrade_energy_fits(system@, lv as int),
    ensures
        r == upgrade_energy(system@, lv as int),
{
    let sys_id: u32 = match lookup_system(system) {
        Some(i) => i,
        None => 0,
    };
    assert(sys_id <= 4);
    let mult: u128 = 1u128 << sys_id;
    assert(mult == energy_multiplier(sys_id as nat)) by (bit_vector)
        requires
            sys_id <= 4,
            mult == 1u128 << sys_id,
    ;
    let base: u128 = ENERGY_UP_BASE * mult;
    assert(100 + lv * 50 <= base * (100 + lv * 50)) by (nonlinear_arith)
        requires
            base >= 200,
            lv >= 0,
    ;
    base * (100 + lv * 50) / 100
}

// ─────────────────────────────────────────────────────────────
// Combat values (quadratic in level)
// ─────────────────────────────────────────────────────────────

pub open spec fn attack_value(lv: int) -> int {
    ATK_BASE + ATK_RATE * lv * lv
}

pub open spec fn defense_value(lv: int) -> int {
    DEF_BASE + DEF_RATE * lv * lv
}

pub open spec fn shield_hp_value(lv: int) -> int {
    SHIELD_HP_BASE + SHIELD_HP_RATE * lv * lv
}

pub open spec fn shield_regen_value(lv: int) -> int {
    REGEN_BASE + REGEN_RATE * lv * lv
}

pub open spec fn radar_value(lv: int) -> int {
    RADAR_BASE + RADAR_LINEAR * lv + RADAR_QUAD * lv * lv
}

proof fn lemma_square_term_fits(rate: int, lv: int)
    requires
        rate >= 1,
        lv >= 0,
        rate * lv * lv <= u128::MAX,
    ensures
        rate * lv <= rate * lv * lv,
        0 <= rate * lv,
{
    assert(0 <= rate * lv) by (nonlinear_arith)
        requires
            rate >= 1,
            lv >= 0,
    ;
    if lv >= 1 {
        lemma_mul_grows(rate * lv, lv);
    } else {
        assert(rate * lv == 0);
    }
}

pub fn calc_attack(lv: u128) -> (r: u128)
    requires
        attack_value(lv as int) <= u128::MAX,
    ensures
        r == attack_value(lv as int),
{
    proof {
        lemma_square_term_fits(ATK_RATE as int, lv as int);
    }
    ATK_BASE + ATK_RATE * lv * lv
}

pub fn calc_defense(lv: u128) -> (r: u128)
    requires
        defense_value(lv as int) <= u128::MAX,
    ensures
        r == defense_value(lv as int),
{
    proof {
        lemma_square_term_fits(DEF_RATE as int, lv as int);
    }
    DEF_BASE + DEF_RATE * lv * lv
}

pub fn calc_shield_hp(lv: u128) -> (r: u128)
    requires
        shield_hp_value(lv as int) <= u128::MAX,
    ensures
        r == shield_hp_value(lv as int),
{
    proof {
        lemma_square_term_fits(SHIELD_HP_RATE as int, lv as int);
    }
    SHIELD_HP_BASE + SHIELD_HP_RATE * lv * lv
}

pub fn calc_shield_regen(lv: u128) -> (r: u128)
    requires
        shield_regen_value(lv as int) <= u128::MAX,
    ensures
        r == shield_regen_value(lv as int),
{
    proof {
        lemma_square_term_fits(REGEN_RATE as int, lv as int);
    }
    REGEN_BASE + REGEN_RATE * lv * lv
}

pub fn calc_radar(lv: u128) -> (r: u128)
    requires
        radar_value(lv as int) <= u128::MAX,
    ensures
        r == radar_value(lv as int),
{
    proof {
        lemma_square_term_fits(RADAR_QUAD as int, lv as int);
        assert(RADAR_LINEAR * lv <= 30 * (RADAR_QUAD * lv * lv) + 150) by (nonlinear_arith)
            requires
                lv >= 0,
        ;
    }
    RADAR_BASE + RADAR_LINEAR * lv + RADAR_QUAD * lv * lv
}

// ─────────────────────────────────────────────────────────────
// Linear per-level values
// ─────────────────────────────────────────────────────────────

/// `base` at levels 0 and 1, then `base + per_lv * (lv - 1)`.
pub open spec fn per_level(base: int, per_lv: int, lv: int) -> int {
    if lv <= 1 {
        base
    } else {
        base + per_lv * (lv - 1)
    }
}

pub fn calc_speed(lv: u128) -> (r: u128)
    requires
        per_level(ENGINE_SPEED_BASE as int, ENGINE_SPEED_PER_LV as int, lv as int) <= u128::MAX,
    ensures
        r == per_level(ENGINE_SPEED_BASE as int, ENGINE_SPEED_PER_LV as int, lv as int),
{
    if lv <= 1 {
        ENGINE_SPEED_BASE
    } else {
        ENGINE_SPEED_BASE + ENGINE_SPEED_PER_LV * (lv - 1)
    }
}

/// Energy collected per second: (3 + 10 * isqrt(lv - 1)) scaled by
/// (1000 + 2 * referrals) / 1000, with the square-root bonus only above
/// level 1.
pub open spec fn collect_base(lv: int) -> int {
    if lv <= 1 {
        BASE_COLLECT as int
    } else {
        BASE_COLLECT + COLLECT_BONUS * floor_sqrt((lv - 1) as nat)
    }
}

pub open spec fn collect_rate(lv: int, referrals: int) -> int {
    collect_base(lv) * (1000 + referrals * 2) / 1000
}

pub open spec fn collect_fits(lv: int, referrals: int) -> bool {
    collect_base(lv) * (1000 + referrals * 2) <= u128::MAX
}

pub fn calc_collect(lv: u128, referrals: u128) -> (r: u128)
    requires
        collect_fits(lv as int, referrals as int),
    ensures
        r == collect_rate(lv as int, referrals as int),
{
    let base: u128 = if lv <= 1 {
        BASE_COLLECT
    } else {
        let root: u128 = isqrt(lv - 1);
        proof {
            lemma_floor_sqrt_bounds((lv - 1) as nat);
            assert(root < 0x1_0000_0000_0000_0000) by (nonlinear_arith)
                requires
                    root * root <= lv - 1,
                    lv < 0x1_0000_0000_0000_0000_0000_0000_0000_0000,
                    root >= 0,
            ;
        }
        BASE_COLLECT + COLLECT_BONUS * root
    };
    assert(1000 + referrals * 2 <= base * (1000 + referrals * 2)) by (nonlinear_arith)
        requires
            base >= 1,
            referrals >= 0,
    ;
    base * (1000 + referrals * 2) / 1000
}

pub fn calc_max_durability(lv: u128) -> (r: u128)
    requires
        per_level(DURABILITY_BASE as int, DURABILITY_PER_LV as int, lv as int) <= u128::MAX,
    ensures
        r == per_level(DURABILITY_BASE as int, DURABILITY_PER_LV as int, lv as int),
{
    if lv <= 1 {
        DURABILITY_BASE
    } else {
        DURABILITY_BASE + DURABILITY_PER_LV * (lv - 1)
    }
}

/// Maximum durability of the weapon, shield and engine systems; 0 for any
/// other system id.
pub open spec fn system_durability(sys_id: int, lv: int) -> int {
    if sys_id == SYS_WEAPON {
        per_level(WEAPON_DUR_BASE as int, WEAPON_DUR_PER_LV as int, lv)
    } else if sys_id == SYS_SHIELD {
        per_level(SHIELD_DUR_BASE as int, SHIELD_DUR_PER_LV as int, lv)
    } else if sys_id == SYS_ENGINE {
        per_level(ENGINE_DUR_BASE as int, ENGINE_DUR_PER_LV as int, lv)
    } else {
        0
    }
}

pub fn calc_max_system_dur(sys_id: usize, lv: u128) -> (r: u128)
    requires
        system_durability(sys_id as int, lv as int) <= u128::MAX,
    ensures
        r == system_durability(sys_id as int, lv as int),
{
    if sys_id == SYS_WEAPON {
        if lv <= 1 {
            WEAPON_DUR_BASE
        } else {
            WEAPON_DUR_BASE + WEAPON_DUR_PER_LV * (lv - 1)
        }
    } else if sys_id == SYS_SHIELD {
        if lv <= 1 {
            SHIELD_DUR_BASE
        } else {
            SHIELD_DUR_BASE + SHIELD_DUR_PER_LV * (lv - 1)
        }
    } else if sys_id == SYS_ENGINE {
        if lv <= 1 {
            ENGINE_DUR_BASE
        } else {
            ENGINE_DUR_BASE + ENGINE_DUR_PER_LV * (lv - 1)
        }
    } else {
        0
    }
}

pub open spec fn attack_energy_cost(weapon_lv: int) -> int {
    ATTACK_ENERGY_BASE + ATTACK_ENERGY_PER_LV * weapon_lv
}

pub fn calc_attack_energy_cost(weapon_lv: u128) -> (r: u128)
    requires
        attack_energy_cost(weapon_lv as int) <= u128::MAX,
    ensures
        r == attack_energy_cost(weapon_lv as int),
{
    ATTACK_ENERGY_BASE + ATTACK_ENERGY_PER_LV * weapon_lv
}

// ─────────────────────────────────────────────────────────────
// Attack token bucket
// ─────────────────────────────────────────────────────────────

/// Token regeneration interval in milliseconds: 300 - 10 * lv, never below 100.
pub open spec fn token_interval(weapon_lv: int) -> int {
    let ms = TOKEN_INTERVAL_MS_BASE - weapon_lv * TOKEN_INTERVAL_REDUCTION;
    if ms < 100 {
        100
    } else {
        ms
    }
}

pub fn calc_token_regen_interval(weapon_lv: u128) -> (r: u128)
    requires
        weapon_lv * TOKEN_INTERVAL_REDUCTION <= u128::MAX,
    ensures
        r == token_interval(weapon_lv as int),
        100 <= r <= TOKEN_INTERVAL_MS_BASE,
{
    let ms: u128 = TOKEN_INTERVAL_MS_BASE.saturating_sub(weapon_lv * TOKEN_INTERVAL_REDUCTION);
    if ms < 100 {
        100
    } else {
        ms
    }
}

/// Token bucket size: 3 + lv / 10, capped at 10.
pub open spec fn max_tokens(weapon_lv: int) -> int {
    let cap = TOKEN_BASE_MAX + weapon_lv / 10;
    if cap > TOKEN_MAX_CAP {
        TOKEN_MAX_CAP as int
    } else {
        cap
    }
}

pub fn calc_max_tokens(weapon_lv: u128) -> (r: u128)
    ensures
        r == max_tokens(weapon_lv as int),
        TOKEN_BASE_MAX <= r <= TOKEN_MAX_CAP,
{
    let cap: u128 = TOKEN_BASE_MAX + weapon_lv / 10;
    if cap > TOKEN_MAX_CAP {
        TOKEN_MAX_CAP
    } else {
        cap
    }
}

// ─────────────────────────────────────────────────────────────
// Jump costs
// ─────────────────────────────────────────────────────────────

/// `base + per_sqrt * isqrt(jumps)`, capped at `max`.
pub open spec fn jump_cost(base: int, per_sqrt: int, max: int, jumps: nat) -> int {
    let cost = base + per_sqrt * floor_sqrt(jumps);
    if cost > max {
        max
    } else {
        cost
    }
}

proof fn lemma_root_below_2_64(x: u128, r: u128)
    requires
        r == floor_sqrt(x as nat),
    ensures
        r < 0x1_0000_0000_0000_0000,
{
    lemma_floor_sqrt_bounds(x as nat);
    assert(r < 0x1_0000_0000_0000_0000) by (nonlinear_arith)
        requires
            r * r <= x,
            x < 0x1_0000_0000_0000_0000_0000_0000_0000_0000,
            r >= 0,
    ;
}

pub fn calc_jump_energy_cost(jump_count: u128) -> (r: u128)
    ensures
        r == jump_cost(JUMP_ENERGY_BASE as int, JUMP_ENERGY_PER_SQRT as int, JUMP_ENERGY_MAX as int, jump_count as nat),
        r <= JUMP_ENERGY_MAX,
{
    let root: u128 = isqrt(jump_count);
    proof {
        lemma_root_below_2_64(jump_count, root);
    }
    let cost: u128 = JUMP_ENERGY_BASE + JUMP_ENERGY_PER_SQRT * root;
    if cost > JUMP_ENERGY_MAX {
        JUMP_ENERGY_MAX
    } else {
        cost
    }
}

pub fn calc_jump_dft_cost(jump_count: u128) -> (r: u128)
    ensures
        r == jump_cost(JUMP_DFT_BASE as int, JUMP_DFT_PER_SQRT as int, JUMP_DFT_MAX as int, jump_count as nat),
        r <= JUMP_DFT_MAX,
{
    let root: u128 = isqrt(jump_count);
    proof {
        lemma_root_below_2_64(jump_count, root);
    }
    let cost: u128 = JUMP_DFT_BASE + JUMP_DFT_PER_SQRT * root;
    if cost > JUMP_DFT_MAX {
        JUMP_DFT_MAX
    } else {
        cost
    }
}

// ─────────────────────────────────────────────────────────────
// Combat simulation
// ─────────────────────────────────────────────────────────────

#[derive(Debug, Clone)]
pub struct AttackResult {
    pub shield_dmg: u128,
    pub health_dmg: u128,
    pub remaining_shield: u128,
    pub remaining_health: u128,
    pub stolen_energy: u128,
    pub defender_destroyed: bool,
    pub attacker_energy_cost: u128,
}

/// Total defense of the target: its shield defense plus the alliance bonus.
pub open spec fn total_defense(def_shield: int, alliance_members: int) -> int {
    defense_value(def_shield) + alliance_members * ALLIANCE_DEF_BONUS
}

/// Raw shield damage: attack + 200 - defense, or 0 when that is not positive.
pub open spec fn raw_shield_damage(atk: int, defense: int) -> int {
    if atk + SHIELD_DMG_BONUS > defense {
        atk + SHIELD_DMG_BONUS - defense
    } else {
        0
    }
}

/// Raw health damage: twice the attack's excess over defense.
pub open spec fn raw_health_damage(atk: int, defense: int) -> int {
    if atk > defense {
        (atk - defense) * 2
    } else {
        0
    }
}

/// Shield damage after the shield absorbs what it can.
pub open spec fn absorbed_shield_damage(atk: int, defense: int, shield_hp: int) -> int {
    let sd = raw_shield_damage(atk, defense);
    if shield_hp < sd {
        shield_hp
    } else {
        sd
    }
}

/// Health damage including three times the shield overflow.
pub open spec fn total_health_damage(atk: int, defense: int, shield_hp: int) -> int {
    let sd = raw_shield_damage(atk, defense);
    let hd = raw_health_damage(atk, defense);
    if shield_hp < sd {
        hd + (sd - shield_hp) * 3
    } else {
        hd
    }
}

/// The outcome of one attack, as a function of the attacker's weapon level
/// and the defender's state.
pub open spec fn attack_outcome(
    att_weapon: int,
    def_shield: int,
    def_energy: int,
    def_health: int,
    def_shield_hp: int,
    alliance_members: int,
) -> AttackResult {
    let atk = attack_value(att_weapon);
    let defense = total_defense(def_shield, alliance_members);
    let sd = absorbed_shield_damage(atk, defense, def_shield_hp);
    let hd = total_health_damage(atk, defense, def_shield_hp);
    let rem_health = if def_health > hd {
        def_health - hd
    } else {
        0
    };
    let plunder = def_energy * PLUNDER_RATIO / 10000;
    AttackResult {
        shield_dmg: sd as u128,
        health_dmg: hd as u128,
        remaining_shield: (def_shield_hp - sd) as u128,
        remaining_health: rem_health as u128,
        stolen_energy: if rem_health == 0 {
            (if plunder > def_energy {
                def_energy
            } else {
                plunder
            }) as u128
        } else {
            0
        },
        defender_destroyed: rem_health == 0,
        attacker_energy_cost: attack_energy_cost(att_weapon) as u128,
    }
}

/// Every intermediate value of the combat formula fits in a `u128` (the
/// shield damage `attack + 200 - defense` among them, so the defense is at
/// most the attack plus 200); the plunder product is only computed for a
/// destroyed defender.
pub open spec fn attack_fits(
    att_weapon: int,
    def_shield: int,
    def_energy: int,
    def_health: int,
    def_shield_hp: int,
    alliance_members: int,
) -> bool {
    let atk = attack_value(att_weapon);
    let defense = total_defense(def_shield, alliance_members);
    &&& atk + SHIELD_DMG_BONUS <= u128::MAX
    &&& defense <= u128::MAX
    &&& defense <= atk + SHIELD_DMG_BONUS
    &&& attack_energy_cost(att_weapon) <= u128::MAX
    &&& total_health_damage(atk, defense, def_shield_hp) <= u128::MAX
    &&& def_health <= total_health_damage(atk, defense, def_shield_hp) ==> def_energy * PLUNDER_RATIO
        <= u128::MAX
}

/// Simulates one attack. Shield damage is attack + 200 - defense (the
/// defense may not exceed attack + 200); the shield absorbs up to its hit points and
/// the overflow hits health three-fold; a defender whose health reaches 0
/// is destroyed and loses 15% of its energy.
pub fn simulate_attack(
    att_weapon: u128,
    def_shield: u128,
    def_energy: u128,
    def_health: u128,
    def_shield_hp: u128,
    alliance_members: u128,
) -> (r: AttackResult)
    requires
        attack_fits(
            att_weapon as int,
            def_shield as int,
            def_energy as int,
            def_health as int,
            def_shield_hp as int,
            alliance_members as int,
        ),
    ensures
        r == attack_outcome(
            att_weapon as int,
            def_shield as int,
            def_energy as int,
            def_health as int,
            def_shield_hp as int,
            alliance_members as int,
        ),
{
    proof {
        lemma_square_term_fits(DEF_RATE as int, def_shield as int);
        assert(defense_value(def_shield as int) >= 0);
    }
    let atk: u128 = calc_attack(att_weapon);
    let defense: u128 = calc_defense(def_shield) + alliance_members * ALLIANCE_DEF_BONUS;
    let energy_cost: u128 = calc_attack_energy_cost(att_weapon);

    let shield_raw: u128 = atk + SHIELD_DMG_BONUS - defense;
    let health_raw: u128 = if atk > defense {
        (atk - defense) * 2
    } else {
        0
    };
    let (shield_dmg, health_dmg): (u128, u128) = if def_shield_hp < shield_raw {
        let overflow: u128 = shield_raw - def_shield_hp;
        (def_shield_hp, health_raw + overflow * 3)
    } else {
        (shield_raw, health_raw)
    };

    let remaining_shield: u128 = def_shield_hp.saturating_sub(shield_dmg);
    let remaining_health: u128 = def_health.saturating_sub(health_dmg);

    let (stolen, destroyed): (u128, bool) = if remaining_health == 0 {
        let s: u128 = def_energy * PLUNDER_RATIO / 10000;
        let s: u128 = if s > def_energy {
            def_energy
        } else {
            s
        };
        (s, true)
    } else {
        (0, false)
    };

    AttackResult {
        shield_dmg,
        health_dmg,
        remaining_shield,
        remaining_health,
        stolen_energy: stolen,
        defender_destroyed: destroyed,
        attacker_energy_cost: energy_cost,
    }
}

/// The shield loses exactly the shield damage, which never exceeds the
/// shield's hit points; the plunder never exceeds the defender's energy; a
/// defender is destroyed exactly when its health is used up, and only a
/// destroyed defender is plundered.
pub proof fn lemma_attack_outcome_consistent(
    att_weapon: int,
    def_shield: int,
    def_energy: int,
    def_health: int,
    def_shield_hp: int,
    alliance_members: int,
)
    requires
        att_weapon >= 0,
        def_shield >= 0,
        def_energy >= 0,
        def_health >= 0,
        def_shield_hp >= 0,
        alliance_members >= 0,
        attack_fits(att_weapon, def_shield, def_energy, def_health, def_shield_hp, alliance_members),
        def_shield_hp <= u128::MAX,
        def_energy <= u128::MAX,
        def_health <= u128::MAX,
    ensures
        ({
            let r = attack_outcome(
                att_weapon,
                def_shield,
                def_energy,
                def_health,
                def_shield_hp,
                alliance_members,
            );
            &&& r.shield_dmg <= def_shield_hp
            &&& r.remaining_shield + r.shield_dmg == def_shield_hp
            &&& r.stolen_energy <= def_energy
            &&& r.defender_destroyed <==> r.health_dmg >= def_health
            &&& r.defender_destroyed <==> r.remaining_health == 0
            &&& !r.defender_destroyed ==> r.stolen_energy == 0
            &&& r.remaining_health + r.health_dmg >= def_health
        }),
{
    let atk = attack_value(att_weapon);
    assert(atk >= 0) by (nonlinear_arith)
        requires
            att_weapon >= 0,
            atk == 900 + 10 * att_weapon * att_weapon,
    ;
    assert(defense_value(def_shield) >= 0) by (nonlinear_arith)
        requires
            def_shield >= 0,
    ;
    assert(def_energy * PLUNDER_RATIO / 10000 >= 0) by (nonlinear_arith)
        requires
            def_energy >= 0,
    ;
}

// ─────────────────────────────────────────────────────────────
// Distance
// ─────────────────────────────────────────────────────────────

/// Distance between two coordinates on one axis.
pub open spec fn axis_gap(a: int, b: int) -> int {
    if a >= b {
        a - b
    } else {
        b - a
    }
}

/// 2^127: an axis gap above it makes the distance `u128::MAX`.
pub open spec fn far_limit() -> int {
    0x8000_0000_0000_0000_0000_0000_0000_0000
}

/// Squared Euclidean distance.
pub open spec fn dist_sq(ax: int, ay: int, az: int, bx: int, by: int, bz: int) -> int {
    let dx = axis_gap(ax, bx);
    let dy = axis_gap(ay, by);
    let dz = axis_gap(az, bz);
    dx * dx + dy * dy + dz * dz
}

/// Some axis gap exceeds 2^127.
pub open spec fn is_far(ax: int, ay: int, az: int, bx: int, by: int, bz: int) -> bool {
    axis_gap(ax, bx) > far_limit() || axis_gap(ay, by) > far_limit() || axis_gap(az, bz) > far_limit()
}

/// The distance can be computed without overflow: either some gap is
/// beyond 2^127, or the squared distance fits in a `u128`.
pub open spec fn distance_defined(ax: int, ay: int, az: int, bx: int, by: int, bz: int) -> bool {
    is_far(ax, ay, az, bx, by, bz) || dist_sq(ax, ay, az, bx, by, bz) <= u128::MAX
}

/// 3D Euclidean distance rounded down; `u128::MAX` when an axis gap is
/// above 2^127.
pub open spec fn euclid_distance(ax: int, ay: int, az: int, bx: int, by: int, bz: int) -> int {
    if is_far(ax, ay, az, bx, by, bz) {
        u128::MAX as int
    } else {
        floor_sqrt(dist_sq(ax, ay, az, bx, by, bz) as nat) as int
    }
}

/// The magnitude of `a` as an unsigned value.
fn magnitude(a: i128) -> (r: u128)
    ensures
        r == (if a >= 0 {
            a as int
        } else {
            -(a as int)
        }),
{
    if a >= 0 {
        a as u128
    } else {
        ((-(a + 1)) as u128) + 1
    }
}

/// Gap between two coordinates, computed without signed overflow.
pub(crate) fn gap(a: i128, b: i128) -> (r: u128)
    ensures
        r == axis_gap(a as int, b as int),
{
    if (a >= 0) == (b >= 0) {
        if a >= b {
            (a - b) as u128
        } else {
            (b - a) as u128
        }
    } else {
        magnitude(a) + magnitude(b)
    }
}

/// 3D Euclidean distance (rounded down) between two points.
pub fn distance(ax: i128, ay: i128, az: i128, bx: i128, by: i128, bz: i128) -> (r: u128)
    requires
        distance_defined(ax as int, ay as int, az as int, bx as int, by as int, bz as int),
    ensures
        r == euclid_distance(ax as int, ay as int, az as int, bx as int, by as int, bz as int),
{
    let dx: u128 = gap(ax, bx);
    let dy: u128 = gap(ay, by);
    let dz: u128 = gap(az, bz);
    assert((1u128 << 127u32) == 0x8000_0000_0000_0000_0000_0000_0000_0000u128) by (bit_vector);
    if dx > (1u128 << 127u32) || dy > (1u128 << 127u32) || dz > (1u128 << 127u32) {
        return u128::MAX;
    }
    proof {
        assert(0 <= dx * dx && 0 <= dy * dy && 0 <= dz * dz) by (nonlinear_arith);
    }
    isqrt(dx * dx + dy * dy + dz * dz)
}

pub fn is_in_range(ax: i128, ay: i128, az: i128, bx: i128, by: i128, bz: i128, scan_range: u128) -> (r: bool)
    requires
        distance_defined(ax as int, ay as int, az as int, bx as int, by as int, bz as int),
    ensures
        r == (euclid_distance(ax as int, ay as int, az as int, bx as int, by as int, bz as int)
            <= scan_range),
{
    distance(ax, ay, az, bx, by, bz) <= scan_range
}

/// Distance is symmetric, and every point is at distance 0 from itself.
pub proof fn lemma_distance_symmetric(ax: int, ay: int, az: int, bx: int, by: int, bz: int)
    ensures
        euclid_distance(ax, ay, az, bx, by, bz) == euclid_distance(bx, by, bz, ax, ay, az),
        distance_defined(ax, ay, az, bx, by, bz) == distance_defined(bx, by, bz, ax, ay, az),
        euclid_distance(ax, ay, az, ax, ay, az) == 0,
{
    assert(axis_gap(ax, ax) == 0 && axis_gap(ay, ay) == 0 && axis_gap(az, az) == 0);
    assert(dist_sq(ax, ay, az, ax, ay, az) == 0);
    assert(floor_sqrt(0nat) == 0);
}


// ─────────────────────────────────────────────────────────────
// Growth laws
// ─────────────────────────────────────────────────────────────

/// Upgrades never cost a negative amount.
pub proof fn lemma_upgrade_cost_nonneg(name: Seq<char>, lv: int)
    requires
        lv >= 0,
    ensures
        upgrade_cost(name, lv) >= 0,
{
    let a = upgrade_a(name);
    let b = upgrade_b(name);
    assert(a * lv * (lv + b) >= 0) by (nonlinear_arith)
        requires
            a >= 0,
            b >= 0,
            lv >= 0,
    ;
}

/// Upgrading never gets cheaper as a system's level grows.
pub proof fn lemma_upgrade_cost_monotonic(name: Seq<char>, lv1: int, lv2: int)
    requires
        0 <= lv1 <= lv2,
    ensures
        upgrade_cost(name, lv1) <= upgrade_cost(name, lv2),
{
    let a = upgrade_a(name);
    let b = upgrade_b(name);
    assert(a >= 0 && b >= 0);
    assert(a * lv1 * (lv1 + b) <= a * lv2 * (lv2 + b)) by (nonlinear_arith)
        requires
            a >= 0,
            b >= 0,
            0 <= lv1 <= lv2,
    ;
    assert(a * lv1 * (lv1 + b) / 100 <= a * lv2 * (lv2 + b) / 100) by (nonlinear_arith)
        requires
            a * lv1 * (lv1 + b) <= a * lv2 * (lv2 + b),
    ;
}

/// Attack, defense, shield hit points, shield regeneration and radar range
/// never shrink as the level grows.
pub proof fn lemma_stats_monotonic(lv1: int, lv2: int)
    requires
        0 <= lv1 <= lv2,
    ensures
        attack_value(lv1) <= attack_value(lv2),
        defense_value(lv1) <= defense_value(lv2),
        shield_hp_value(lv1) <= shield_hp_value(lv2),
        shield_regen_value(lv1) <= shield_regen_value(lv2),
        radar_value(lv1) <= radar_value(lv2),
{
    assert(lv1 * lv1 <= lv2 * lv2) by (nonlinear_arith)
        requires
            0 <= lv1 <= lv2,
    ;
    assert forall|rate: int| rate >= 0 implies #[trigger] (rate * lv1 * lv1) <= rate * lv2 * lv2 && rate * lv1
        <= rate * lv2 by {
        assert(rate * lv1 * lv1 <= rate * lv2 * lv2 && rate * lv1 <= rate * lv2) by (nonlinear_arith)
            requires
                rate >= 0,
                0 <= lv1 <= lv2,
        ;
    }
    assert(ATK_RATE * lv1 * lv1 <= ATK_RATE * lv2 * lv2);
    assert(DEF_RATE * lv1 * lv1 <= DEF_RATE * lv2 * lv2);
    assert(SHIELD_HP_RATE * lv1 * lv1 <= SHIELD_HP_RATE * lv2 * lv2);
    assert(REGEN_RATE * lv1 * lv1 <= REGEN_RATE * lv2 * lv2);
    assert(RADAR_QUAD * lv1 * lv1 <= RADAR_QUAD * lv2 * lv2);
    assert(RADAR_LINEAR * lv1 <= RADAR_LINEAR * lv2);
}

/// Each jump costs at least as much as the one before, up to the cap.
pub proof fn lemma_jump_cost_monotonic(base: int, per_sqrt: int, max: int, j1: nat, j2: nat)
    requires
        per_sqrt >= 0,
        j1 <= j2,
    ensures
        jump_cost(base, per_sqrt, max, j1) <= jump_cost(base, per_sqrt, max, j2),
{
    lemma_floor_sqrt_monotonic(j1, j2);
    let r1 = floor_sqrt(j1) as int;
    let r2 = floor_sqrt(j2) as int;
    assert(per_sqrt * r1 <= per_sqrt * r2) by (nonlinear_arith)
        requires
            per_sqrt >= 0,
            r1 <= r2,
    ;
}

/// A stronger weapon never leaves the defender more health or more shield.
pub proof fn lemma_stronger_weapon_hits_harder(
    w1: int,
    w2: int,
    def_shield: int,
    def_energy: int,
    def_health: int,
    def_shield_hp: int,
    alliance_members: int,
)
    requires
        0 <= w1 <= w2,
        def_shield_hp >= 0,
        0 <= def_health <= u128::MAX,
    ensures
        attack_outcome(w2, def_shield, def_energy, def_health, def_shield_hp, alliance_members).remaining_health
            <= attack_outcome(w1, def_shield, def_energy, def_health, def_shield_hp, alliance_members).remaining_health,
        total_health_damage(
            attack_value(w1),
            total_defense(def_shield, alliance_members),
            def_shield_hp,
        ) <= total_health_damage(attack_value(w2), total_defense(def_shield, alliance_members), def_shield_hp),
        absorbed_shield_damage(
            attack_value(w1),
            total_defense(def_shield, alliance_members),
            def_shield_hp,
        ) <= absorbed_shield_damage(attack_value(w2), total_defense(def_shield, alliance_members), def_shield_hp),
{
    lemma_stats_monotonic(w1, w2);
}

} // verus!
