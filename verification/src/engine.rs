//! The simulation's daily decisions that are plain arithmetic: how the daily
//! DFT emission is shared, how much an alliance adds to a defense, which
//! targets an attacker queues strikes against, who is in scanning range, and
//! how the energy market clears. The driver around them (randomness,
//! personalities, the player tables) hands in plain values.

use vstd::prelude::*;
use crate::math_engine::{
    attack_energy_cost, attack_value, axis_gap, calc_attack, calc_attack_energy_cost, calc_defense,
    defense_value, gap, ALLIANCE_DEF_BONUS, MAX_ALLIANCE_MEMBERS, SHIELD_DMG_BONUS, TOTAL_SUPPLY,
};

verus! {

// ── Daily emission ──

/// DFT still to be minted before the total supply is reached.
pub open spec fn supply_left(total_minted: int) -> int {
    if TOTAL_SUPPLY > total_minted {
        TOTAL_SUPPLY - total_minted
    } else {
        0
    }
}

/// Each active player's share of the day's emission: the emission, capped
/// by the supply left, split evenly (rounded down); nothing when nobody is
/// active.
pub open spec fn emission_share_of(daily_emission: int, total_minted: int, active: int) -> int {
    let left = supply_left(total_minted);
    let actual = if daily_emission < left {
        daily_emission
    } else {
        left
    };
    if active > 0 {
        actual / active
    } else {
        0
    }
}

/// Each active player's share of the day's emission and the amount minted
/// in all (the share times the number of players).
pub fn emission_share(daily_emission: u128, total_minted: u128, active: usize) -> (r: (u128, u128))
    ensures
        r.0 == emission_share_of(daily_emission as int, total_minted as int, active as int),
        r.1 == r.0 * active,
        r.1 <= daily_emission,
        r.1 <= supply_left(total_minted as int),
{
    if active == 0 {
        return (0, 0);
    }
    let left: u128 = TOTAL_SUPPLY.saturating_sub(total_minted);
    let actual: u128 = if daily_emission < left {
        daily_emission
    } else {
        left
    };
    let share: u128 = actual / (active as u128);
    proof {
        assert(share * active <= actual) by (nonlinear_arith)
            requires
                share as int == (actual as int) / (active as int),
                active > 0,
                actual >= 0,
        ;
    }
    (share, share * (active as u128))
}

// ── Alliances ──

/// Defense an alliance adds to a member: eight per other living member.
pub open spec fn alliance_bonus_of(alive_members: int) -> int {
    if alive_members > 0 {
        (alive_members - 1) * ALLIANCE_DEF_BONUS
    } else {
        0
    }
}

pub fn alliance_def_bonus(alive_members: usize) -> (bonus: u128)
    ensures
        bonus == alliance_bonus_of(alive_members as int),
{
    (alive_members.saturating_sub(1) as u128) * ALLIANCE_DEF_BONUS
}

// ── Strike planning ──

/// Damage one strike deals through a defense: twice the attack's excess
/// over it, plus the shield damage (that excess plus 200); nothing when the
/// attack does not exceed the defense.
pub open spec fn strike_damage(weapon_lv: int, shield_lv: int, bonus: int) -> int {
    let atk = attack_value(weapon_lv);
    let def = defense_value(shield_lv) + bonus;
    if atk > def {
        (atk - def) * 2 + (atk + SHIELD_DMG_BONUS - def)
    } else {
        0
    }
}

/// Strikes needed to wear down health and shield, at most ten; one when a
/// strike does no damage.
pub open spec fn strikes_needed_for(weapon_lv: int, shield_lv: int, bonus: int, health: int, shield_hp: int) -> int {
    let dmg = strike_damage(weapon_lv, shield_lv, bonus);
    if dmg > 0 {
        let n = (health + shield_hp + dmg - 1) / dmg;
        if n < 10 {
            n
        } else {
            10
        }
    } else {
        1
    }
}

/// Every value the strike count computes fits in a `u128`.
pub open spec fn strikes_fit(weapon_lv: int, shield_lv: int, bonus: int, health: int, shield_hp: int) -> bool {
    let atk = attack_value(weapon_lv);
    let def = defense_value(shield_lv) + bonus;
    &&& atk <= u128::MAX
    &&& def <= u128::MAX
    &&& atk > def ==> {
        &&& atk + SHIELD_DMG_BONUS <= u128::MAX
        &&& strike_damage(weapon_lv, shield_lv, bonus) <= u128::MAX
        &&& health + shield_hp + strike_damage(weapon_lv, shield_lv, bonus) <= u128::MAX
    }
}

/// Number of strikes to focus on one target.
pub fn strikes_needed(weapon_lv: u128, shield_lv: u128, bonus: u128, health: u128, shield_hp: u128) -> (n: usize)
    requires
        strikes_fit(weapon_lv as int, shield_lv as int, bonus as int, health as int, shield_hp as int),
    ensures
        n == strikes_needed_for(weapon_lv as int, shield_lv as int, bonus as int, health as int, shield_hp as int),
{
    let atk: u128 = calc_attack(weapon_lv);
    let def: u128 = calc_defense(shield_lv) + bonus;
    let dmg: u128 = if atk > def {
        (atk - def) * 2 + (atk + SHIELD_DMG_BONUS - def)
    } else {
        0
    };
    if dmg > 0 {
        let n: u128 = (health + shield_hp + dmg - 1) / dmg;
        if n < 10 {
            n as usize
        } else {
            10
        }
    } else {
        1
    }
}

/// What an attacker knows of one candidate target, best first.
#[derive(Clone, Copy, Debug)]
pub struct StrikeCandidate {
    /// The caller's handle for the target.
    pub target: u32,
    pub shield_percent: u128,
    pub shield_lv: u128,
    pub health: u128,
    pub shield_hp: u128,
    /// Defense the target's alliance adds.
    pub alliance_bonus: u128,
}

/// The strikes planned from candidate `i` on, given those already planned
/// (`orders`, as candidate positions) and the targets already chosen.
///
/// Candidates are taken in order until the budget is spent. One whose
/// shield is above `threshold` is skipped; when the energy cannot pay for
/// one more strike, planning stops. A target gets one strike, or, when
/// focusing fire, as many as it takes to destroy it (at most ten, and never
/// beyond the budget); without focus a target already chosen is skipped.
pub open spec fn planned_strikes(
    c: Seq<StrikeCandidate>,
    i: int,
    orders: Seq<usize>,
    chosen: Seq<u32>,
    weapon_lv: u128,
    energy: u128,
    budget: usize,
    threshold: u128,
    focus: bool,
) -> Seq<usize>
    decreases c.len() - i,
{
    if i < 0 || i >= c.len() || orders.len() >= budget {
        orders
    } else if c[i].shield_percent > threshold {
        planned_strikes(c, i + 1, orders, chosen, weapon_lv, energy, budget, threshold, focus)
    } else if energy < attack_energy_cost(weapon_lv as int) * (orders.len() + 1) {
        orders
    } else if !focus && chosen.contains(c[i].target) {
        planned_strikes(c, i + 1, orders, chosen, weapon_lv, energy, budget, threshold, focus)
    } else {
        let n = if focus {
            strikes_needed_for(
                weapon_lv as int,
                c[i].shield_lv as int,
                c[i].alliance_bonus as int,
                c[i].health as int,
                c[i].shield_hp as int,
            )
        } else {
            1
        };
        let room = budget - orders.len();
        let k = if n < room {
            n
        } else {
            room
        };
        planned_strikes(
            c,
            i + 1,
            orders + Seq::new(k as nat, |_j: int| i as usize),
            chosen.push(c[i].target),
            weapon_lv,
            energy,
            budget,
            threshold,
            focus,
        )
    }
}

/// Every value the planner computes fits in a `u128`.
pub open spec fn plan_fits(c: Seq<StrikeCandidate>, weapon_lv: u128, budget: usize, focus: bool) -> bool {
    &&& attack_energy_cost(weapon_lv as int) * (budget + 1) <= u128::MAX
    &&& focus ==> forall|i: int|
        0 <= i < c.len() ==> strikes_fit(
            weapon_lv as int,
            (#[trigger] c[i]).shield_lv as int,
            c[i].alliance_bonus as int,
            c[i].health as int,
            c[i].shield_hp as int,
        )
}

fn chosen_contains(chosen: &Vec<u32>, target: u32) -> (r: bool)
    ensures
        r == chosen@.contains(target),
{
    let mut i: usize = 0;
    while i < chosen.len()
        invariant
            i <= chosen@.len(),
            forall|j: int| 0 <= j < i ==> chosen@[j] != target,
        decreases chosen@.len() - i,
    {
        if chosen[i] == target {
            return true;
        }
        i = i + 1;
    }
    false
}

/// Plans an attacker's strikes for the day over its ranked candidates; see
/// `planned_strikes`. Returns one candidate position per strike.
pub fn plan_strikes(
    weapon_lv: u128,
    energy: u128,
    budget: usize,
    threshold: u128,
    focus: bool,
    candidates: &Vec<StrikeCandidate>,
) -> (orders: Vec<usize>)
    requires
        plan_fits(candidates@, weapon_lv, budget, focus),
    ensures
        orders@ == planned_strikes(
            candidates@,
            0,
            Seq::empty(),
            Seq::empty(),
            weapon_lv,
            energy,
            budget,
            threshold,
            focus,
        ),
        orders@.len() <= budget,
{
    let ghost c = candidates@;
    let ghost goal = planned_strikes(c, 0, Seq::empty(), Seq::empty(), weapon_lv, energy, budget, threshold, focus);
    let mut orders: Vec<usize> = Vec::new();
    let mut chosen: Vec<u32> = Vec::new();
    let mut i: usize = 0;
    while i < candidates.len()
        invariant_except_break
            planned_strikes(c, i as int, orders@, chosen@, weapon_lv, energy, budget, threshold, focus) == goal,
        invariant
            c == candidates@,
            i <= c.len(),
            orders@.len() <= budget,
            plan_fits(c, weapon_lv, budget, focus),
            goal == planned_strikes(c, 0, Seq::empty(), Seq::empty(), weapon_lv, energy, budget, threshold, focus),
        ensures
            orders@ == goal,
        decreases c.len() - i,
    {
        if orders.len() >= budget {
            break;
        }
        let cand: StrikeCandidate = candidates[i];
        if cand.shield_percent <= threshold {
            proof {
                let e = attack_energy_cost(weapon_lv as int);
                assert(e <= e * (budget + 1)) by (nonlinear_arith)
                    requires
                        e >= 0,
                        budget >= 0,
                ;
            }
            let cost: u128 = calc_attack_energy_cost(weapon_lv);
            proof {
                assert(cost * (orders@.len() + 1) <= cost * (budget + 1)) by (nonlinear_arith)
                    requires
                        orders@.len() <= budget,
                        cost >= 0,
                ;
            }
            if energy < cost * (orders.len() as u128 + 1) {
                break;
            }
            if focus || !chosen_contains(&chosen, cand.target) {
                let n: usize = if focus {
                    assert(strikes_fit(
                        weapon_lv as int,
                        c[i as int].shield_lv as int,
                        c[i as int].alliance_bonus as int,
                        c[i as int].health as int,
                        c[i as int].shield_hp as int,
                    ));
                    strikes_needed(weapon_lv, cand.shield_lv, cand.alliance_bonus, cand.health, cand.shield_hp)
                } else {
                    1
                };
                let ghost base = orders@;
                let ghost k_goal: int = if n < budget - base.len() {
                    n as int
                } else {
                    budget - base.len()
                };
                let mut k: usize = 0;
                while k < n && orders.len() < budget
                    invariant
                        k <= n,
                        base.len() + k <= budget,
                        orders@.len() == base.len() + k,
                        orders@ == base + Seq::new(k as nat, |_j: int| i as usize),
                        k_goal == (if n < budget - base.len() {
                            n as int
                        } else {
                            budget - base.len()
                        }),
                        k <= k_goal,
                    decreases n - k,
                {
                    orders.push(i);
                    k = k + 1;
                    assert(orders@ =~= base + Seq::new(k as nat, |_j: int| i as usize));
                }
                assert(k == k_goal);
                chosen.push(cand.target);
            }
        }
        i = i + 1;
    }
    orders
}

/// Strikes only go to listed candidates whose shield is at or under the
/// threshold, never beyond the budget; and without focus fire the energy
/// pays for every planned strike.
pub proof fn lemma_planned_strikes_sound(
    c: Seq<StrikeCandidate>,
    i: int,
    orders: Seq<usize>,
    chosen: Seq<u32>,
    weapon_lv: u128,
    energy: u128,
    budget: usize,
    threshold: u128,
    focus: bool,
)
    requires
        c.len() <= usize::MAX,
        orders.len() <= budget,
        forall|k: int| 0 <= k < orders.len() ==> (#[trigger] orders[k]) < c.len() && c[orders[k] as int].shield_percent
            <= threshold,
        !focus ==> energy >= attack_energy_cost(weapon_lv as int) * orders.len(),
    ensures
        ({
            let r = planned_strikes(c, i, orders, chosen, weapon_lv, energy, budget, threshold, focus);
            &&& r.len() <= budget
            &&& forall|k: int| 0 <= k < r.len() ==> (#[trigger] r[k]) < c.len() && c[r[k] as int].shield_percent
                <= threshold
            &&& !focus ==> energy >= attack_energy_cost(weapon_lv as int) * r.len()
        }),
    decreases c.len() - i,
{
    if i < 0 || i >= c.len() || orders.len() >= budget {
    } else if c[i].shield_percent > threshold {
        lemma_planned_strikes_sound(c, i + 1, orders, chosen, weapon_lv, energy, budget, threshold, focus);
    } else if energy < attack_energy_cost(weapon_lv as int) * (orders.len() + 1) {
    } else if !focus && chosen.contains(c[i].target) {
        lemma_planned_strikes_sound(c, i + 1, orders, chosen, weapon_lv, energy, budget, threshold, focus);
    } else {
        let n = if focus {
            strikes_needed_for(
                weapon_lv as int,
                c[i].shield_lv as int,
                c[i].alliance_bonus as int,
                c[i].health as int,
                c[i].shield_hp as int,
            )
        } else {
            1
        };
        let room = budget - orders.len();
        let k = if n < room {
            n
        } else {
            room
        };
        let more = orders + Seq::new(k as nat, |_j: int| i as usize);
        assert forall|x: int| 0 <= x < more.len() implies (#[trigger] more[x]) < c.len() && c[more[x] as int].shield_percent
            <= threshold by {
            if x >= orders.len() {
                assert(more[x] == i as usize);
            } else {
                assert(more[x] == orders[x]);
            }
        }
        if !focus {
            assert(more.len() == orders.len() + 1);
        }
        lemma_planned_strikes_sound(
            c,
            i + 1,
            more,
            chosen.push(c[i].target),
            weapon_lv,
            energy,
            budget,
            threshold,
            focus,
        );
    }
}

// ── Alliance choices ──

/// Among the positions where `keep` holds, the last one with the largest
/// key, as `max_by_key` picks it; `None` when no position is kept.
pub fn last_max(keys: &Vec<u128>, keep: &Vec<bool>) -> (r: Option<usize>)
    requires
        keys@.len() == keep@.len(),
    ensures
        match r {
            None => forall|i: int| 0 <= i < keep@.len() ==> !(#[trigger] keep@[i]),
            Some(b) => {
                &&& b < keys@.len()
                &&& keep@[b as int]
                &&& forall|j: int| 0 <= j < keys@.len() && #[trigger] keep@[j] ==> keys@[j] <= keys@[b as int]
                &&& forall|j: int| b < j < keys@.len() && #[trigger] keep@[j] ==> keys@[j] < keys@[b as int]
            },
        },
{
    let mut best: Option<usize> = None;
    let mut i: usize = 0;
    while i < keys.len()
        invariant
            keys@.len() == keep@.len(),
            i <= keys@.len(),
            match best {
                None => forall|k: int| 0 <= k < i ==> !(#[trigger] keep@[k]),
                Some(b) => {
                    &&& b < i
                    &&& keep@[b as int]
                    &&& forall|j: int| 0 <= j < i && #[trigger] keep@[j] ==> keys@[j] <= keys@[b as int]
                    &&& forall|j: int| b < j < i && #[trigger] keep@[j] ==> keys@[j] < keys@[b as int]
                },
            },
        decreases keys@.len() - i,
    {
        if keep[i] {
            match best {
                None => {
                    best = Some(i);
                },
                Some(b) => {
                    if keys[i] >= keys[b] {
                        best = Some(i);
                    }
                },
            }
        }
        i = i + 1;
    }
    best
}

/// A small alliance may merge into a big one when their living members
/// together are at most twice the alliance size limit.
pub fn merge_allowed(big_alive: usize, small_alive: usize) -> (r: bool)
    ensures
        r == (big_alive + small_alive <= MAX_ALLIANCE_MEMBERS * 2),
{
    big_alive <= MAX_ALLIANCE_MEMBERS * 2 && small_alive <= MAX_ALLIANCE_MEMBERS * 2 - big_alive
}

// ── Scanning range ──

/// The squared distance is within the squared scanning range.
pub open spec fn in_scan(ax: int, ay: int, az: int, bx: int, by: int, bz: int, scan: int) -> bool {
    crate::math_engine::dist_sq(ax, ay, az, bx, by, bz) <= scan * scan
}

/// The coordinate differences fit in an `i128` and the squares in a `u128`.
pub open spec fn scan_fits(ax: int, ay: int, az: int, bx: int, by: int, bz: int, scan: int) -> bool {
    &&& i128::MIN <= ax - bx <= i128::MAX
    &&& i128::MIN <= ay - by <= i128::MAX
    &&& i128::MIN <= az - bz <= i128::MAX
    &&& crate::math_engine::dist_sq(ax, ay, az, bx, by, bz) <= u128::MAX
    &&& scan * scan <= u128::MAX
}

/// Whether `b` lies within `scan` of `a`, compared on squares.
pub fn within_scan(ax: i128, ay: i128, az: i128, bx: i128, by: i128, bz: i128, scan: u128) -> (r: bool)
    requires
        scan_fits(ax as int, ay as int, az as int, bx as int, by as int, bz as int, scan as int),
    ensures
        r == in_scan(ax as int, ay as int, az as int, bx as int, by as int, bz as int, scan as int),
{
    let dx: u128 = gap(ax, bx);
    let dy: u128 = gap(ay, by);
    let dz: u128 = gap(az, bz);
    proof {
        assert(0 <= dx * dx && 0 <= dy * dy && 0 <= dz * dz && 0 <= scan * scan) by (nonlinear_arith);
    }
    dx * dx + dy * dy + dz * dz <= scan * scan
}

// ── Single-target search ──

/// What a player searching for one target knows of a candidate, in the
/// order the candidates were found.
#[derive(Clone, Copy, Debug)]
pub struct TargetView {
    /// The searcher may attack it (another standing player, past newbie
    /// protection, not in the same alliance).
    pub targetable: bool,
    pub shield_percent: u128,
    pub energy: u128,
    pub dft: u128,
    pub weapon_lv: u128,
    /// Distance from the searcher.
    pub dist: u128,
    /// Score added for a grudge against it (0 when there is none).
    pub grudge: i64,
    /// Its alliance is at war with the searcher's.
    pub at_war: bool,
    /// It is the target the searcher focuses on.
    pub preferred: bool,
}

/// Division rounding toward zero, as Rust's integer division does.
pub open spec fn trunc_div(x: int, d: int) -> int {
    if x >= 0 {
        x / d
    } else {
        -((-x) / d)
    }
}

/// `x` clamped to the `i64` range.
pub open spec fn sat_i64(x: int) -> int {
    if x > i64::MAX {
        i64::MAX as int
    } else if x < i64::MIN {
        i64::MIN as int
    } else {
        x
    }
}

/// The score's terms in order of summation: shield gap, energy, DFT,
/// distance penalty, weapon penalty, grudge, war and focus bonuses; each
/// value is taken as an `i64` (truncating) as the game computes it.
pub open spec fn score_terms(v: TargetView) -> Seq<int> {
    seq![
        sat_i64(100 - (v.shield_percent as i64) as int) * 10,
        trunc_div((v.energy as i64) as int, 1000),
        trunc_div((v.dft as i64) as int, 10000),
        trunc_div(-((v.dist as i64) as int), 10),
        -((v.weapon_lv as i64) as int) * 5,
        v.grudge as int,
        if v.at_war {
            300
        } else {
            0
        },
        if v.preferred {
            500
        } else {
            0
        },
    ]
}

/// Sum of the first `n` terms.
pub open spec fn partial_score(v: TargetView, n: int) -> int
    decreases n,
{
    if n <= 0 {
        0
    } else {
        partial_score(v, n - 1) + score_terms(v)[n - 1]
    }
}

/// A candidate's score: the sum of its terms.
pub open spec fn target_score_of(v: TargetView) -> int {
    partial_score(v, 8)
}

/// Computing the score overflows nothing: the negated distance and weapon
/// level fit, the first term's product fits, and so does every partial
/// sum.
pub open spec fn score_fits(v: TargetView) -> bool {
    &&& (v.dist as i64) != i64::MIN
    &&& (v.weapon_lv as i64) != i64::MIN
    &&& forall|n: int| 1 <= n <= 8 ==> i64::MIN <= #[trigger] partial_score(v, n) <= i64::MAX
    &&& i64::MIN <= score_terms(v)[4] <= i64::MAX
}

/// Candidate `c` passes the search's filters.
pub open spec fn eligible(c: TargetView, threshold: u128, scan: u128) -> bool {
    c.targetable && c.shield_percent <= threshold && c.dist <= scan
}

/// Number of candidates among the first `n` that pass the filters.
pub open spec fn eligible_count(c: Seq<TargetView>, n: int, threshold: u128, scan: u128) -> nat
    decreases n,
{
    if n <= 0 {
        0
    } else {
        eligible_count(c, n - 1, threshold, scan) + if eligible(c[n - 1], threshold, scan) {
            1nat
        } else {
            0nat
        }
    }
}

fn trunc_div_i64(x: i64, d: u64) -> (r: i64)
    requires
        d >= 10,
    ensures
        r == trunc_div(x as int, d as int),
{
    if x >= 0 {
        ((x as u64) / d) as i64
    } else {
        let m: u128 = (-(x as i128)) as u128;
        let q: u128 = m / (d as u128);
        proof {
            assert(q <= m) by (nonlinear_arith)
                requires
                    q as int == (m as int) / (d as int),
                    d >= 10,
                    m >= 0,
            ;
        }
        (-(q as i128)) as i64
    }
}

/// A candidate's score.
pub fn target_score(v: &TargetView) -> (s: i64)
    requires
        score_fits(*v),
    ensures
        s == target_score_of(*v),
{
    let p: i64 = v.shield_percent as i64;
    let gap: i128 = 100 - (p as i128);
    let sat: i64 = if gap > i64::MAX as i128 {
        i64::MAX
    } else if gap < i64::MIN as i128 {
        i64::MIN
    } else {
        gap as i64
    };
    proof {
        reveal_with_fuel(partial_score, 9);
        assert(partial_score(*v, 1) == score_terms(*v)[0]);
        assert(i64::MIN <= partial_score(*v, 1) <= i64::MAX);
        assert(partial_score(*v, 2) == partial_score(*v, 1) + score_terms(*v)[1]);
        assert(i64::MIN <= partial_score(*v, 2) <= i64::MAX);
        assert(partial_score(*v, 3) == partial_score(*v, 2) + score_terms(*v)[2]);
        assert(i64::MIN <= partial_score(*v, 3) <= i64::MAX);
        assert(partial_score(*v, 4) == partial_score(*v, 3) + score_terms(*v)[3]);
        assert(i64::MIN <= partial_score(*v, 4) <= i64::MAX);
        assert(partial_score(*v, 5) == partial_score(*v, 4) + score_terms(*v)[4]);
        assert(i64::MIN <= partial_score(*v, 5) <= i64::MAX);
        assert(partial_score(*v, 6) == partial_score(*v, 5) + score_terms(*v)[5]);
        assert(i64::MIN <= partial_score(*v, 6) <= i64::MAX);
        assert(partial_score(*v, 7) == partial_score(*v, 6) + score_terms(*v)[6]);
        assert(i64::MIN <= partial_score(*v, 7) <= i64::MAX);
        assert(partial_score(*v, 8) == partial_score(*v, 7) + score_terms(*v)[7]);
        assert(i64::MIN <= partial_score(*v, 8) <= i64::MAX);
    }
    let mut score: i64 = sat * 10;
    score = score + trunc_div_i64(v.energy as i64, 1000);
    score = score + trunc_div_i64(v.dft as i64, 10000);
    let d: i64 = v.dist as i64;
    score = score + trunc_div_i64(-d, 10);
    let w: i64 = v.weapon_lv as i64;
    score = score + (-w) * 5;
    score = score + v.grudge;
    if v.at_war {
        score = score + 300;
    }
    if v.preferred {
        score = score + 500;
    }
    score
}

/// The best target among the candidates: of those that pass the filters
/// (attackable, shield at most `threshold` percent, within `scan`), the
/// first with the highest score; `None` when none passes.
pub fn best_target(cands: &Vec<TargetView>, threshold: u128, scan: u128) -> (r: Option<usize>)
    requires
        forall|i: int|
            0 <= i < cands@.len() && eligible(cands@[i], threshold, scan) ==> score_fits(#[trigger] cands@[i]),
        eligible_count(cands@, cands@.len() as int, threshold, scan) >= 2 ==> forall|i: int|
            0 <= i < cands@.len() && eligible(cands@[i], threshold, scan) ==> target_score_of(#[trigger] cands@[i])
                > i64::MIN,
    ensures
        match r {
            None => forall|i: int| 0 <= i < cands@.len() ==> !eligible(#[trigger] cands@[i], threshold, scan),
            Some(b) => {
                &&& b < cands@.len()
                &&& eligible(cands@[b as int], threshold, scan)
                &&& forall|j: int|
                    0 <= j < cands@.len() && eligible(#[trigger] cands@[j], threshold, scan) ==> target_score_of(
                        cands@[j],
                    ) <= target_score_of(cands@[b as int])
                &&& forall|j: int|
                    0 <= j < b && eligible(#[trigger] cands@[j], threshold, scan) ==> target_score_of(cands@[j])
                        < target_score_of(cands@[b as int])
            },
        },
{
    let mut best: Option<usize> = None;
    let mut best_score: i64 = 0;
    let mut i: usize = 0;
    while i < cands.len()
        invariant
            i <= cands@.len(),
            forall|k: int|
                0 <= k < cands@.len() && eligible(cands@[k], threshold, scan) ==> score_fits(#[trigger] cands@[k]),
            match best {
                None => forall|k: int| 0 <= k < i ==> !eligible(#[trigger] cands@[k], threshold, scan),
                Some(b) => {
                    &&& b < i
                    &&& eligible(cands@[b as int], threshold, scan)
                    &&& best_score == target_score_of(cands@[b as int])
                    &&& forall|j: int|
                        0 <= j < i && eligible(#[trigger] cands@[j], threshold, scan) ==> target_score_of(cands@[j])
                            <= best_score
                    &&& forall|j: int|
                        0 <= j < b && eligible(#[trigger] cands@[j], threshold, scan) ==> target_score_of(cands@[j])
                            < best_score
                },
            },
        decreases cands@.len() - i,
    {
        let c: TargetView = cands[i];
        if c.targetable && c.shield_percent <= threshold && c.dist <= scan {
            let sc: i64 = target_score(&c);
            match best {
                None => {
                    best = Some(i);
                    best_score = sc;
                },
                Some(_) => {
                    if sc > best_score {
                        best = Some(i);
                        best_score = sc;
                    }
                },
            }
        }
        i = i + 1;
    }
    best
}

// ── Energy market ──

/// Energy a player still needs for a day of `attacks` strikes.
pub open spec fn energy_shortfall_of(attacks: int, weapon_lv: int, energy: int) -> int {
    let need = attacks * attack_energy_cost(weapon_lv);
    if need > energy {
        need - energy
    } else {
        0
    }
}

pub fn energy_shortfall(attacks: usize, weapon_lv: u128, energy: u128) -> (r: u128)
    requires
        attack_energy_cost(weapon_lv as int) <= u128::MAX,
        attacks * attack_energy_cost(weapon_lv as int) <= u128::MAX,
    ensures
        r == energy_shortfall_of(attacks as int, weapon_lv as int, energy as int),
{
    let cost: u128 = calc_attack_energy_cost(weapon_lv);
    proof {
        assert(0 <= attacks * cost) by (nonlinear_arith)
            requires
                cost >= 0,
        ;
    }
    ((attacks as u128) * cost).saturating_sub(energy)
}

/// Smallest trade, and smallest remainder worth trading on.
pub const MARKET_MIN_TRADE: u128 = 100;

/// Largest single trade.
pub const MARKET_MAX_TRADE: u128 = 5000;

/// Energy burned per trade, in basis points of the trade.
pub const MARKET_BURN_BP: u128 = 500;

/// Market fee, in basis points of the DFT paid.
pub const MARKET_FEE_BP: u128 = 100;

/// Buyers served per day.
pub const MARKET_BUYERS_PER_DAY: usize = 10;

/// One side of the market: a participant (a position in the balance
/// tables) and the energy offered or needed.
#[derive(Clone, Copy, Debug)]
pub struct MarketOffer {
    pub who: usize,
    pub amount: u128,
}

/// The day's market totals: energy traded and burned, fees, trades.
#[derive(Clone, Copy, Debug)]
pub struct MarketDay {
    pub volume: u128,
    pub burned: u128,
    pub fees: u128,
    pub trades: usize,
}

/// Balances, energy sold per participant and the day's totals while the
/// market clears.
pub struct MarketBook {
    pub dft: Seq<u128>,
    pub energy: Seq<u128>,
    pub sold: Seq<u128>,
    pub day: MarketDay,
}

/// Sum of a table of balances.
pub open spec fn total(s: Seq<u128>) -> int
    decreases s.len(),
{
    if s.len() == 0 {
        0
    } else {
        total(s.drop_last()) + s.last()
    }
}

/// Size of a trade: what the buyer still needs, capped by what the seller
/// has left to offer and by the largest trade.
pub open spec fn trade_size(avail: int, rem: int) -> int {
    let cap = if avail < MARKET_MAX_TRADE {
        avail
    } else {
        MARKET_MAX_TRADE as int
    };
    if rem < cap {
        rem
    } else {
        cap
    }
}

/// Buyer `b`, still needing `rem`, meets seller `s`, who offered `offered`.
/// They trade when the seller has 100 or more left to offer, the buyer
/// needs 100 or more, the buyer can pay `trade * rate / 100` DFT and the
/// seller holds the energy. DFT goes from buyer to seller; the seller's
/// energy goes to the buyer less a 5% burn. Gives the new book, what the
/// buyer still needs and whether they traded; `None` when a value would
/// not fit.
pub open spec fn meet(book: MarketBook, b: int, rem: u128, s: int, offered: u128, rate: u128) -> Option<
    (MarketBook, u128, bool),
> {
    let avail: int = if offered > book.sold[s] {
        offered - book.sold[s]
    } else {
        0
    };
    if avail < MARKET_MIN_TRADE || rem < MARKET_MIN_TRADE {
        Some((book, rem, false))
    } else {
        let trade = trade_size(avail, rem as int);
        if trade < MARKET_MIN_TRADE {
            Some((book, rem, false))
        } else if trade * rate > u128::MAX {
            None
        } else {
            let cost = trade * rate / 100;
            if book.dft[b] < cost || book.energy[s] < trade {
                Some((book, rem, false))
            } else {
                let dft1 = book.dft.update(b, (book.dft[b] - cost) as u128);
                let burn = trade * MARKET_BURN_BP / 10000;
                let energy1 = book.energy.update(s, (book.energy[s] - trade) as u128);
                let fee = cost * MARKET_FEE_BP / 10000;
                if dft1[s] + cost > u128::MAX || energy1[b] + (trade - burn) > u128::MAX || book.day.burned + burn
                    > u128::MAX || book.day.fees + fee > u128::MAX || book.day.volume + trade > u128::MAX
                    || book.day.trades + 1 > usize::MAX || book.sold[s] + trade > u128::MAX {
                    None
                } else {
                    Some(
                        (
                            MarketBook {
                                dft: dft1.update(s, (dft1[s] + cost) as u128),
                                energy: energy1.update(b, (energy1[b] + (trade - burn)) as u128),
                                sold: book.sold.update(s, (book.sold[s] + trade) as u128),
                                day: MarketDay {
                                    volume: (book.day.volume + trade) as u128,
                                    burned: (book.day.burned + burn) as u128,
                                    fees: (book.day.fees + fee) as u128,
                                    trades: (book.day.trades + 1) as usize,
                                },
                            },
                            (rem - trade) as u128,
                            true,
                        ),
                    )
                }
            }
        }
    }
}

/// Buyer `b`, needing `rem`, goes through the sellers from position `j` on,
/// stopping once a trade leaves it needing less than 100.
pub open spec fn seller_pass(
    book: MarketBook,
    b: int,
    rem: u128,
    sells: Seq<MarketOffer>,
    j: int,
    rate: u128,
) -> Option<MarketBook>
    decreases sells.len() - j,
{
    if j < 0 || j >= sells.len() {
        Some(book)
    } else {
        match meet(book, b, rem, sells[j].who as int, sells[j].amount, rate) {
            None => None,
            Some((next, left, traded)) => if traded && left < MARKET_MIN_TRADE {
                Some(next)
            } else {
                seller_pass(next, b, left, sells, j + 1, rate)
            },
        }
    }
}

/// The first ten buyers, from position `i` on, each go through the sellers.
pub open spec fn buyer_pass(book: MarketBook, buys: Seq<MarketOffer>, i: int, sells: Seq<MarketOffer>, rate: u128) -> Option<
    MarketBook,
>
    decreases buys.len() - i,
{
    if i < 0 || i >= buys.len() || i >= MARKET_BUYERS_PER_DAY {
        Some(book)
    } else {
        match seller_pass(book, buys[i].who as int, buys[i].amount, sells, 0, rate) {
            None => None,
            Some(next) => buyer_pass(next, buys, i + 1, sells, rate),
        }
    }
}

/// The book before any trade.
pub open spec fn opening_book(dft: Seq<u128>, energy: Seq<u128>) -> MarketBook {
    MarketBook {
        dft,
        energy,
        sold: Seq::new(dft.len(), |_i: int| 0u128),
        day: MarketDay { volume: 0, burned: 0, fees: 0, trades: 0 },
    }
}

/// The day's market over the balances `dft` and `energy`.
pub open spec fn market_cleared(
    dft: Seq<u128>,
    energy: Seq<u128>,
    buys: Seq<MarketOffer>,
    sells: Seq<MarketOffer>,
    rate: u128,
) -> Option<MarketBook> {
    buyer_pass(opening_book(dft, energy), buys, 0, sells, rate)
}

/// Every offer names a participant of the tables.
pub open spec fn offers_valid(offers: Seq<MarketOffer>, n: int) -> bool {
    forall|i: int| 0 <= i < offers.len() ==> (#[trigger] offers[i]).who < n
}

/// The book is consistent: three tables of `n` entries.
pub open spec fn book_sized(book: MarketBook, n: int) -> bool {
    book.dft.len() == n && book.energy.len() == n && book.sold.len() == n
}

/// Lets buyer `b` (needing `need`) go through all sellers. Returns whether
/// every value fit; the tables are then the book after the pass.
fn serve_buyer(
    dft: &mut Vec<u128>,
    energy: &mut Vec<u128>,
    sold: &mut Vec<u128>,
    day: &mut MarketDay,
    b: usize,
    need: u128,
    sells: &Vec<MarketOffer>,
    rate: u128,
) -> (ok: bool)
    requires
        old(dft)@.len() == old(energy)@.len(),
        old(sold)@.len() == old(dft)@.len(),
        b < old(dft)@.len(),
        offers_valid(sells@, old(dft)@.len() as int),
    ensures
        ok == seller_pass(
            MarketBook { dft: old(dft)@, energy: old(energy)@, sold: old(sold)@, day: *old(day) },
            b as int,
            need,
            sells@,
            0,
            rate,
        ) is Some,
        ok ==> seller_pass(
            MarketBook { dft: old(dft)@, energy: old(energy)@, sold: old(sold)@, day: *old(day) },
            b as int,
            need,
            sells@,
            0,
            rate,
        ) == Some(MarketBook { dft: final(dft)@, energy: final(energy)@, sold: final(sold)@, day: *final(day) }),
{
    let ghost goal = seller_pass(
        MarketBook { dft: dft@, energy: energy@, sold: sold@, day: *day },
        b as int,
        need,
        sells@,
        0,
        rate,
    );
    let ghost n = dft@.len();
    let mut rem: u128 = need;
    let mut j: usize = 0;
    while j < sells.len()
        invariant_except_break
            seller_pass(
                MarketBook { dft: dft@, energy: energy@, sold: sold@, day: *day },
                b as int,
                rem,
                sells@,
                j as int,
                rate,
            ) == goal,
        invariant
            j <= sells@.len(),
            dft@.len() == n,
            energy@.len() == n,
            sold@.len() == n,
            b < n,
            offers_valid(sells@, n as int),
            goal == seller_pass(
                MarketBook { dft: old(dft)@, energy: old(energy)@, sold: old(sold)@, day: *old(day) },
                b as int,
                need,
                sells@,
                0,
                rate,
            ),
        ensures
            goal == Some(MarketBook { dft: dft@, energy: energy@, sold: sold@, day: *day }),
        decreases sells@.len() - j,
    {
        let ghost book = MarketBook { dft: dft@, energy: energy@, sold: sold@, day: *day };
        let s: usize = sells[j].who;
        let offered: u128 = sells[j].amount;
        assert(s < n) by {
            assert(sells@[j as int].who < n);
        }
        let avail: u128 = offered.saturating_sub(sold[s]);
        if avail >= MARKET_MIN_TRADE && rem >= MARKET_MIN_TRADE {
            let cap: u128 = if avail < MARKET_MAX_TRADE {
                avail
            } else {
                MARKET_MAX_TRADE
            };
            let trade: u128 = if rem < cap {
                rem
            } else {
                cap
            };
            if trade >= MARKET_MIN_TRADE {
                let priced: u128 = match trade.checked_mul(rate) {
                    Some(v) => v,
                    None => {
                        return false;
                    },
                };
                let cost: u128 = priced / 100;
                if dft[b] >= cost && energy[s] >= trade {
                    let paid: u128 = dft[b] - cost;
                    dft.set(b, paid);
                    let received: u128 = match dft[s].checked_add(cost) {
                        Some(v) => v,
                        None => {
                            return false;
                        },
                    };
                    dft.set(s, received);
                    let burn: u128 = trade * MARKET_BURN_BP / 10000;
                    let left: u128 = energy[s] - trade;
                    energy.set(s, left);
                    let got: u128 = match energy[b].checked_add(trade - burn) {
                        Some(v) => v,
                        None => {
                            return false;
                        },
                    };
                    energy.set(b, got);
                    let fee: u128 = cost * MARKET_FEE_BP / 10000;
                    let burned: u128 = match day.burned.checked_add(burn) {
                        Some(v) => v,
                        None => {
                            return false;
                        },
                    };
                    let fees: u128 = match day.fees.checked_add(fee) {
                        Some(v) => v,
                        None => {
                            return false;
                        },
                    };
                    let volume: u128 = match day.volume.checked_add(trade) {
                        Some(v) => v,
                        None => {
                            return false;
                        },
                    };
                    let trades: usize = match day.trades.checked_add(1) {
                        Some(v) => v,
                        None => {
                            return false;
                        },
                    };
                    let sold_now: u128 = match sold[s].checked_add(trade) {
                        Some(v) => v,
                        None => {
                            return false;
                        },
                    };
                    day.burned = burned;
                    day.fees = fees;
                    day.volume = volume;
                    day.trades = trades;
                    sold.set(s, sold_now);
                    rem = rem - trade;
                    if rem < MARKET_MIN_TRADE {
                        break;
                    }
                }
            }
        }
        j = j + 1;
    }
    true
}

/// A copy of a table of balances.
fn copy_table(v: &Vec<u128>) -> (r: Vec<u128>)
    ensures
        r@ == v@,
{
    let mut r: Vec<u128> = Vec::new();
    let mut i: usize = 0;
    while i < v.len()
        invariant
            i <= v@.len(),
            r@ == v@.subrange(0, i as int),
        decreases v@.len() - i,
    {
        r.push(v[i]);
        i = i + 1;
        assert(r@ =~= v@.subrange(0, i as int));
    }
    assert(v@.subrange(0, v@.len() as int) =~= v@);
    r
}

/// Clears the day's energy market over the balance tables `dft` and
/// `energy`: the first ten buyers, in order, go through the sellers, in
/// order; see `meet`. Returns the day's totals, or `None` (the tables
/// untouched) when a balance or total would not fit in its integer. The
/// DFT total is kept, and the energy total falls by exactly the burn.
pub fn clear_market(
    dft: &mut Vec<u128>,
    energy: &mut Vec<u128>,
    buys: &Vec<MarketOffer>,
    sells: &Vec<MarketOffer>,
    rate: u128,
) -> (day: Option<MarketDay>)
    requires
        old(dft)@.len() == old(energy)@.len(),
        offers_valid(buys@, old(dft)@.len() as int),
        offers_valid(sells@, old(dft)@.len() as int),
    ensures
        match market_cleared(old(dft)@, old(energy)@, buys@, sells@, rate) {
            None => day is None && final(dft)@ == old(dft)@ && final(energy)@ == old(energy)@,
            Some(book) => {
                &&& day == Some(book.day)
                &&& final(dft)@ == book.dft
                &&& final(energy)@ == book.energy
                &&& total(final(dft)@) == total(old(dft)@)
                &&& total(final(energy)@) + book.day.burned == total(old(energy)@)
            },
        },
{
    let ghost goal = market_cleared(dft@, energy@, buys@, sells@, rate);
    let ghost n = dft@.len();
    let mut d: Vec<u128> = copy_table(dft);
    let mut e: Vec<u128> = copy_table(energy);
    let mut sold: Vec<u128> = Vec::new();
    let mut k: usize = 0;
    while k < dft.len()
        invariant
            k <= dft@.len(),
            sold@ == Seq::new(k as nat, |_i: int| 0u128),
        decreases dft@.len() - k,
    {
        sold.push(0);
        k = k + 1;
        assert(sold@ =~= Seq::new(k as nat, |_i: int| 0u128));
    }
    let mut day: MarketDay = MarketDay { volume: 0, burned: 0, fees: 0, trades: 0 };
    assert(MarketBook { dft: d@, energy: e@, sold: sold@, day } == opening_book(dft@, energy@));
    let mut i: usize = 0;
    while i < buys.len() && i < MARKET_BUYERS_PER_DAY
        invariant
            buyer_pass(MarketBook { dft: d@, energy: e@, sold: sold@, day }, buys@, i as int, sells@, rate)
                == goal,
            goal == market_cleared(dft@, energy@, buys@, sells@, rate),
            i <= buys@.len(),
            d@.len() == n,
            e@.len() == n,
            sold@.len() == n,
            dft@.len() == n,
            offers_valid(buys@, n as int),
            offers_valid(sells@, n as int),
        decreases buys@.len() - i,
    {
        let b: usize = buys[i].who;
        assert(b < n) by {
            assert(buys@[i as int].who < n);
        }
        let ghost before = MarketBook { dft: d@, energy: e@, sold: sold@, day };
        let ok: bool = serve_buyer(&mut d, &mut e, &mut sold, &mut day, b, buys[i].amount, sells, rate);
        if !ok {
            return None;
        }
        proof {
            lemma_seller_pass_conserves(before, b as int, buys@[i as int].amount, sells@, 0, rate, n as int);
        }
        i = i + 1;
    }
    proof {
        lemma_market_conserves(dft@, energy@, buys@, sells@, rate);
    }
    *dft = d;
    *energy = e;
    Some(day)
}

// ── Market laws ──

proof fn lemma_total_update(s: Seq<u128>, i: int, v: u128)
    requires
        0 <= i < s.len(),
    ensures
        total(s.update(i, v)) == total(s) - s[i] + v,
    decreases s.len(),
{
    let t = s.update(i, v);
    if i == s.len() - 1 {
        assert(t.drop_last() =~= s.drop_last());
    } else {
        assert(t.drop_last() =~= s.drop_last().update(i, v));
        lemma_total_update(s.drop_last(), i, v);
    }
}

/// What a meeting keeps: table sizes, the DFT total, and the energy total
/// with what was burned.
proof fn lemma_meet_conserves(book: MarketBook, b: int, rem: u128, s: int, offered: u128, rate: u128, n: int)
    requires
        book_sized(book, n),
        0 <= b < n,
        0 <= s < n,
        meet(book, b, rem, s, offered, rate) is Some,
    ensures
        ({
            let (next, left, traded) = meet(book, b, rem, s, offered, rate).unwrap();
            &&& book_sized(next, n)
            &&& total(next.dft) == total(book.dft)
            &&& total(next.energy) + next.day.burned == total(book.energy) + book.day.burned
        }),
{
    let (next, left, traded) = meet(book, b, rem, s, offered, rate).unwrap();
    if traded {
        let avail: int = if offered > book.sold[s] {
            offered - book.sold[s]
        } else {
            0
        };
        let trade = trade_size(avail, rem as int);
        let cost = trade * rate / 100;
        let burn = trade * MARKET_BURN_BP / 10000;
        let dft1 = book.dft.update(b, (book.dft[b] - cost) as u128);
        let energy1 = book.energy.update(s, (book.energy[s] - trade) as u128);
        lemma_total_update(book.dft, b, (book.dft[b] - cost) as u128);
        lemma_total_update(dft1, s, (dft1[s] + cost) as u128);
        lemma_total_update(book.energy, s, (book.energy[s] - trade) as u128);
        lemma_total_update(energy1, b, (energy1[b] + (trade - burn)) as u128);
    }
}

proof fn lemma_seller_pass_conserves(
    book: MarketBook,
    b: int,
    rem: u128,
    sells: Seq<MarketOffer>,
    j: int,
    rate: u128,
    n: int,
)
    requires
        book_sized(book, n),
        0 <= b < n,
        offers_valid(sells, n),
        seller_pass(book, b, rem, sells, j, rate) is Some,
    ensures
        ({
            let next = seller_pass(book, b, rem, sells, j, rate).unwrap();
            &&& book_sized(next, n)
            &&& total(next.dft) == total(book.dft)
            &&& total(next.energy) + next.day.burned == total(book.energy) + book.day.burned
        }),
    decreases sells.len() - j,
{
    if 0 <= j < sells.len() {
        let s = sells[j].who as int;
        assert(sells[j].who < n);
        lemma_meet_conserves(book, b, rem, s, sells[j].amount, rate, n);
        let (next, left, traded) = meet(book, b, rem, s, sells[j].amount, rate).unwrap();
        if !(traded && left < MARKET_MIN_TRADE) {
            lemma_seller_pass_conserves(next, b, left, sells, j + 1, rate, n);
        }
    }
}

proof fn lemma_buyer_pass_conserves(
    book: MarketBook,
    buys: Seq<MarketOffer>,
    i: int,
    sells: Seq<MarketOffer>,
    rate: u128,
    n: int,
)
    requires
        book_sized(book, n),
        offers_valid(buys, n),
        offers_valid(sells, n),
        buyer_pass(book, buys, i, sells, rate) is Some,
    ensures
        ({
            let next = buyer_pass(book, buys, i, sells, rate).unwrap();
            &&& total(next.dft) == total(book.dft)
            &&& total(next.energy) + next.day.burned == total(book.energy) + book.day.burned
        }),
    decreases buys.len() - i,
{
    if 0 <= i < buys.len() && i < MARKET_BUYERS_PER_DAY {
        assert(buys[i].who < n);
        lemma_seller_pass_conserves(book, buys[i].who as int, buys[i].amount, sells, 0, rate, n);
        let next = seller_pass(book, buys[i].who as int, buys[i].amount, sells, 0, rate).unwrap();
        lemma_buyer_pass_conserves(next, buys, i + 1, sells, rate, n);
    }
}

/// The market creates and destroys no DFT: it only moves it from buyers to
/// sellers. Energy only moves from sellers to buyers, except the burn: what
/// the players hold afterwards plus the day's burn is what they held.
pub proof fn lemma_market_conserves(
    dft: Seq<u128>,
    energy: Seq<u128>,
    buys: Seq<MarketOffer>,
    sells: Seq<MarketOffer>,
    rate: u128,
)
    requires
        dft.len() == energy.len(),
        offers_valid(buys, dft.len() as int),
        offers_valid(sells, dft.len() as int),
        market_cleared(dft, energy, buys, sells, rate) is Some,
    ensures
        ({
            let book = market_cleared(dft, energy, buys, sells, rate).unwrap();
            &&& total(book.dft) == total(dft)
            &&& total(book.energy) + book.day.burned == total(energy)
        }),
{
    lemma_buyer_pass_conserves(opening_book(dft, energy), buys, 0, sells, rate, dft.len() as int);
}

/// The largest amount participant `p` offers for sale (0 without an offer).
pub open spec fn offered_by(sells: Seq<MarketOffer>, p: int) -> int
    decreases sells.len(),
{
    if sells.len() == 0 {
        0
    } else {
        let m = offered_by(sells.drop_last(), p);
        let o = sells.last();
        if o.who == p && o.amount > m {
            o.amount as int
        } else {
            m
        }
    }
}

/// No participant has sold more than the largest amount it offered.
pub open spec fn sold_within(book: MarketBook, sells: Seq<MarketOffer>, n: int) -> bool {
    forall|p: int| 0 <= p < n ==> #[trigger] book.sold[p] <= offered_by(sells, p)
}

/// Each offer of `p` is at most the largest one.
proof fn lemma_offer_at_most_largest(sells: Seq<MarketOffer>, j: int)
    requires
        0 <= j < sells.len(),
    ensures
        sells[j].amount <= offered_by(sells, sells[j].who as int),
        offered_by(sells, sells[j].who as int) >= 0,
    decreases sells.len(),
{
    let p = sells[j].who as int;
    if j < sells.len() - 1 {
        lemma_offer_at_most_largest(sells.drop_last(), j);
        assert(sells.drop_last()[j] == sells[j]);
    } else {
        lemma_offered_nonneg(sells.drop_last(), p);
    }
}

proof fn lemma_offered_nonneg(sells: Seq<MarketOffer>, p: int)
    ensures
        offered_by(sells, p) >= 0,
    decreases sells.len(),
{
    if sells.len() > 0 {
        lemma_offered_nonneg(sells.drop_last(), p);
    }
}

/// A meeting with the seller of offer `j` sells at most what that offer has
/// left, and moves energy away from no one but the seller, by exactly what
/// it sold.
proof fn lemma_meet_within_offer(book: MarketBook, b: int, rem: u128, sells: Seq<MarketOffer>, j: int, rate: u128, n: int)
    requires
        book_sized(book, n),
        0 <= b < n,
        0 <= j < sells.len(),
        offers_valid(sells, n),
        sold_within(book, sells, n),
        meet(book, b, rem, sells[j].who as int, sells[j].amount, rate) is Some,
    ensures
        ({
            let (next, left, traded) = meet(book, b, rem, sells[j].who as int, sells[j].amount, rate).unwrap();
            &&& book_sized(next, n)
            &&& sold_within(next, sells, n)
            &&& forall|p: int|
                0 <= p < n && p != b ==> #[trigger] next.energy[p] + next.sold[p] == book.energy[p] + book.sold[p]
        }),
{
    let s = sells[j].who as int;
    assert(sells[j].who < n);
    lemma_meet_conserves(book, b, rem, s, sells[j].amount, rate, n);
    lemma_offer_at_most_largest(sells, j);
    let (next, left, traded) = meet(book, b, rem, s, sells[j].amount, rate).unwrap();
    if traded {
        assert(next.sold[s] <= sells[j].amount);
        assert forall|p: int| 0 <= p < n implies #[trigger] next.sold[p] <= offered_by(sells, p) by {
            if p != s {
                assert(next.sold[p] == book.sold[p]);
            }
        }
    }
}

proof fn lemma_seller_pass_within_offers(
    book: MarketBook,
    b: int,
    rem: u128,
    sells: Seq<MarketOffer>,
    j: int,
    rate: u128,
    n: int,
)
    requires
        book_sized(book, n),
        0 <= b < n,
        offers_valid(sells, n),
        sold_within(book, sells, n),
        seller_pass(book, b, rem, sells, j, rate) is Some,
    ensures
        ({
            let next = seller_pass(book, b, rem, sells, j, rate).unwrap();
            &&& book_sized(next, n)
            &&& sold_within(next, sells, n)
            &&& forall|p: int|
                0 <= p < n && p != b ==> #[trigger] next.energy[p] + next.sold[p] == book.energy[p] + book.sold[p]
        }),
    decreases sells.len() - j,
{
    if 0 <= j < sells.len() {
        lemma_meet_within_offer(book, b, rem, sells, j, rate, n);
        let (next, left, traded) = meet(book, b, rem, sells[j].who as int, sells[j].amount, rate).unwrap();
        if !(traded && left < MARKET_MIN_TRADE) {
            lemma_seller_pass_within_offers(next, b, left, sells, j + 1, rate, n);
        }
    }
}

proof fn lemma_buyer_pass_within_offers(
    book: MarketBook,
    buys: Seq<MarketOffer>,
    i: int,
    sells: Seq<MarketOffer>,
    rate: u128,
    n: int,
)
    requires
        book_sized(book, n),
        offers_valid(buys, n),
        offers_valid(sells, n),
        sold_within(book, sells, n),
        buyer_pass(book, buys, i, sells, rate) is Some,
    ensures
        ({
            let next = buyer_pass(book, buys, i, sells, rate).unwrap();
            &&& book_sized(next, n)
            &&& sold_within(next, sells, n)
            &&& forall|p: int|
                0 <= p < n && (forall|k: int| 0 <= k < buys.len() ==> (#[trigger] buys[k]).who != p) ==> #[trigger] next.energy[p]
                    + next.sold[p] == book.energy[p] + book.sold[p]
        }),
    decreases buys.len() - i,
{
    if 0 <= i < buys.len() && i < MARKET_BUYERS_PER_DAY {
        assert(buys[i].who < n);
        let b = buys[i].who as int;
        lemma_seller_pass_within_offers(book, b, buys[i].amount, sells, 0, rate, n);
        let next = seller_pass(book, b, buys[i].amount, sells, 0, rate).unwrap();
        lemma_buyer_pass_within_offers(next, buys, i + 1, sells, rate, n);
    }
}

/// No seller sells more than it offered: over the day, what each
/// participant sells is at most the largest amount it put up for sale, and
/// a participant that does not buy gives up exactly what it sold, so its
/// energy falls by at most that amount.
pub proof fn lemma_market_respects_offers(
    dft: Seq<u128>,
    energy: Seq<u128>,
    buys: Seq<MarketOffer>,
    sells: Seq<MarketOffer>,
    rate: u128,
    p: int,
)
    requires
        dft.len() == energy.len(),
        offers_valid(buys, dft.len() as int),
        offers_valid(sells, dft.len() as int),
        market_cleared(dft, energy, buys, sells, rate) is Some,
        0 <= p < dft.len(),
    ensures
        ({
            let book = market_cleared(dft, energy, buys, sells, rate).unwrap();
            &&& book.sold[p] <= offered_by(sells, p)
            &&& (forall|k: int| 0 <= k < buys.len() ==> (#[trigger] buys[k]).who != p) ==> {
                &&& book.energy[p] <= energy[p]
                &&& energy[p] - book.energy[p] == book.sold[p]
                &&& energy[p] - book.energy[p] <= offered_by(sells, p)
            }
        }),
{
    let n = dft.len() as int;
    let start = opening_book(dft, energy);
    assert forall|q: int| 0 <= q < n implies #[trigger] start.sold[q] <= offered_by(sells, q) by {
        lemma_offered_nonneg(sells, q);
    }
    lemma_buyer_pass_within_offers(start, buys, 0, sells, rate, n);
    let book = market_cleared(dft, energy, buys, sells, rate).unwrap();
    assert(book.sold[p] <= offered_by(sells, p));
    if forall|k: int| 0 <= k < buys.len() ==> (#[trigger] buys[k]).who != p {
        assert(book.energy[p] + book.sold[p] == start.energy[p] + start.sold[p]);
        assert(start.sold[p] == 0);
    }
}

/// The day's totals agree with trades of 100 to 5000 energy each, 5% of
/// each (rounded down) burned.
pub open spec fn day_consistent(day: MarketDay) -> bool {
    &&& 100 * day.trades <= day.volume <= 5000 * day.trades
    &&& 20 * day.burned <= day.volume <= 20 * day.burned + 19 * day.trades
}

/// `p` sells nothing: no sell offer names it.
pub open spec fn not_selling(sells: Seq<MarketOffer>, p: int) -> bool {
    forall|j: int| 0 <= j < sells.len() ==> (#[trigger] sells[j]).who != p
}

/// `p` is not among the day's first ten buyers.
pub open spec fn not_served(buys: Seq<MarketOffer>, p: int) -> bool {
    forall|k: int| 0 <= k < buys.len() && k < MARKET_BUYERS_PER_DAY ==> (#[trigger] buys[k]).who != p
}

/// A meeting keeps the day's totals consistent and touches the balances of
/// no one but the buyer and the seller.
proof fn lemma_meet_frame(book: MarketBook, b: int, rem: u128, s: int, offered: u128, rate: u128, n: int)
    requires
        book_sized(book, n),
        0 <= b < n,
        0 <= s < n,
        day_consistent(book.day),
        meet(book, b, rem, s, offered, rate) is Some,
    ensures
        ({
            let (next, left, traded) = meet(book, b, rem, s, offered, rate).unwrap();
            &&& book_sized(next, n)
            &&& day_consistent(next.day)
            &&& forall|p: int|
                0 <= p < n && p != b && p != s ==> #[trigger] next.dft[p] == book.dft[p] && next.energy[p]
                    == book.energy[p]
        }),
{
    lemma_meet_conserves(book, b, rem, s, offered, rate, n);
    let (next, left, traded) = meet(book, b, rem, s, offered, rate).unwrap();
    if traded {
        let avail: int = if offered > book.sold[s] {
            offered - book.sold[s]
        } else {
            0
        };
        let trade = trade_size(avail, rem as int);
        let burn = trade * MARKET_BURN_BP / 10000;
        assert(100 <= trade <= 5000);
        assert(20 * burn <= trade <= 20 * burn + 19) by (nonlinear_arith)
            requires
                burn == trade * 500 / 10000,
                trade >= 0,
        ;
    }
}

proof fn lemma_seller_pass_frame(
    book: MarketBook,
    b: int,
    rem: u128,
    sells: Seq<MarketOffer>,
    j: int,
    rate: u128,
    n: int,
)
    requires
        book_sized(book, n),
        0 <= b < n,
        offers_valid(sells, n),
        day_consistent(book.day),
        seller_pass(book, b, rem, sells, j, rate) is Some,
    ensures
        ({
            let next = seller_pass(book, b, rem, sells, j, rate).unwrap();
            &&& book_sized(next, n)
            &&& day_consistent(next.day)
            &&& forall|p: int|
                0 <= p < n && p != b && not_selling(sells, p) ==> #[trigger] next.dft[p] == book.dft[p]
                    && next.energy[p] == book.energy[p]
        }),
    decreases sells.len() - j,
{
    if 0 <= j < sells.len() {
        let s = sells[j].who as int;
        assert(sells[j].who < n);
        lemma_meet_frame(book, b, rem, s, sells[j].amount, rate, n);
        let (next, left, traded) = meet(book, b, rem, s, sells[j].amount, rate).unwrap();
        if !(traded && left < MARKET_MIN_TRADE) {
            lemma_seller_pass_frame(next, b, left, sells, j + 1, rate, n);
        }
    }
}

/// Every participant in `0..n` that neither sells nor is among the first
/// ten buyers holds in `after` the balances it held in `before`.
pub open spec fn bystanders_kept(
    before: MarketBook,
    after: MarketBook,
    buys: Seq<MarketOffer>,
    sells: Seq<MarketOffer>,
    n: int,
) -> bool {
    forall|p: int|
        0 <= p < n && not_served(buys, p) && not_selling(sells, p) ==> #[trigger] after.dft[p] == before.dft[p]
            && after.energy[p] == before.energy[p]
}

proof fn lemma_buyer_pass_frame(
    book: MarketBook,
    buys: Seq<MarketOffer>,
    i: int,
    sells: Seq<MarketOffer>,
    rate: u128,
    n: int,
)
    requires
        book_sized(book, n),
        offers_valid(buys, n),
        offers_valid(sells, n),
        day_consistent(book.day),
        buyer_pass(book, buys, i, sells, rate) is Some,
    ensures
        day_consistent(buyer_pass(book, buys, i, sells, rate).unwrap().day),
        bystanders_kept(book, buyer_pass(book, buys, i, sells, rate).unwrap(), buys, sells, n),
    decreases buys.len() - i,
{
    if 0 <= i < buys.len() && i < MARKET_BUYERS_PER_DAY {
        assert(buys[i].who < n);
        let b = buys[i].who as int;
        lemma_seller_pass_frame(book, b, buys[i].amount, sells, 0, rate, n);
        let next = seller_pass(book, b, buys[i].amount, sells, 0, rate).unwrap();
        lemma_buyer_pass_frame(next, buys, i + 1, sells, rate, n);
        let last = buyer_pass(next, buys, i + 1, sells, rate).unwrap();
        assert(buyer_pass(book, buys, i, sells, rate).unwrap() == last);
        assert forall|p: int| 0 <= p < n && not_served(buys, p) && not_selling(sells, p) implies #[trigger] last.dft[p]
            == book.dft[p] && last.energy[p] == book.energy[p] by {
            assert(buys[i].who != p);
            assert(last.dft[p] == next.dft[p]);
        }
        assert(bystanders_kept(book, last, buys, sells, n));
    } else {
        assert(buyer_pass(book, buys, i, sells, rate).unwrap() == book);
    }
}

/// Trades are 100 to 5000 energy each and 5% of each is burned: over the
/// day, the volume lies between 100 and 5000 times the number of trades,
/// and the burn is a twentieth of the volume, less at most 19/20 per trade.
/// Only the first ten buyers and the sellers trade: a participant that is
/// neither keeps its DFT and its energy.
pub proof fn lemma_market_trades_and_bystanders(
    dft: Seq<u128>,
    energy: Seq<u128>,
    buys: Seq<MarketOffer>,
    sells: Seq<MarketOffer>,
    rate: u128,
    p: int,
)
    requires
        dft.len() == energy.len(),
        offers_valid(buys, dft.len() as int),
        offers_valid(sells, dft.len() as int),
        market_cleared(dft, energy, buys, sells, rate) is Some,
        0 <= p < dft.len(),
    ensures
        ({
            let book = market_cleared(dft, energy, buys, sells, rate).unwrap();
            &&& 100 * book.day.trades <= book.day.volume <= 5000 * book.day.trades
            &&& 20 * book.day.burned <= book.day.volume <= 20 * book.day.burned + 19 * book.day.trades
            &&& not_served(buys, p) && not_selling(sells, p) ==> book.dft[p] == dft[p] && book.energy[p] == energy[p]
        }),
{
    lemma_buyer_pass_frame(opening_book(dft, energy), buys, 0, sells, rate, dft.len() as int);
}

/// From `before` to `after`, participant `p` was paid for the energy it
/// sold at `rate` DFT per 100 energy, each trade's price rounded down: the
/// DFT it gained is at most the exact price, and short of it by less than
/// one per trade made in between.
pub open spec fn paid_at_rate(before: MarketBook, after: MarketBook, p: int, rate: u128) -> bool {
    let gain = after.dft[p] - before.dft[p];
    let sold = after.sold[p] - before.sold[p];
    &&& 100 * gain <= sold * rate
    &&& sold * rate <= 100 * gain + 99 * (after.day.trades - before.day.trades)
}

proof fn lemma_paid_compose(a: MarketBook, b: MarketBook, c: MarketBook, p: int, rate: u128)
    requires
        paid_at_rate(a, b, p, rate),
        paid_at_rate(b, c, p, rate),
    ensures
        paid_at_rate(a, c, p, rate),
{
    let s1 = b.sold[p] - a.sold[p];
    let s2 = c.sold[p] - b.sold[p];
    assert((s1 + s2) * rate == s1 * rate + s2 * rate) by (nonlinear_arith);
    assert(c.sold[p] - a.sold[p] == s1 + s2);
}

proof fn lemma_meet_priced(book: MarketBook, b: int, rem: u128, s: int, offered: u128, rate: u128, n: int)
    requires
        book_sized(book, n),
        0 <= b < n,
        0 <= s < n,
        meet(book, b, rem, s, offered, rate) is Some,
    ensures
        ({
            let (next, left, traded) = meet(book, b, rem, s, offered, rate).unwrap();
            &&& next.day.trades >= book.day.trades
            &&& forall|p: int| 0 <= p < n && p != b ==> #[trigger] paid_at_rate(book, next, p, rate)
        }),
{
    let (next, left, traded) = meet(book, b, rem, s, offered, rate).unwrap();
    if traded {
        let avail: int = if offered > book.sold[s] {
            offered - book.sold[s]
        } else {
            0
        };
        let trade = trade_size(avail, rem as int);
        let cost = trade * rate / 100;
        assert(100 * cost <= trade * rate <= 100 * cost + 99) by (nonlinear_arith)
            requires
                cost == trade * rate / 100,
                trade >= 0,
                rate >= 0,
        ;
        assert forall|p: int| 0 <= p < n && p != b implies #[trigger] paid_at_rate(book, next, p, rate) by {
            if p == s {
                assert(next.dft[p] - book.dft[p] == cost);
                assert(next.sold[p] - book.sold[p] == trade);
            } else {
                assert(next.dft[p] == book.dft[p]);
                assert(next.sold[p] == book.sold[p]);
                assert(0 * rate == 0) by (nonlinear_arith);
            }
        }
    } else {
        assert forall|p: int| 0 <= p < n && p != b implies #[trigger] paid_at_rate(book, next, p, rate) by {
            assert(0 * rate == 0) by (nonlinear_arith);
        }
    }
}

proof fn lemma_seller_pass_priced(
    book: MarketBook,
    b: int,
    rem: u128,
    sells: Seq<MarketOffer>,
    j: int,
    rate: u128,
    n: int,
)
    requires
        book_sized(book, n),
        0 <= b < n,
        offers_valid(sells, n),
        seller_pass(book, b, rem, sells, j, rate) is Some,
    ensures
        ({
            let next = seller_pass(book, b, rem, sells, j, rate).unwrap();
            &&& book_sized(next, n)
            &&& forall|p: int| 0 <= p < n && p != b ==> #[trigger] paid_at_rate(book, next, p, rate)
        }),
    decreases sells.len() - j,
{
    if 0 <= j < sells.len() {
        let s = sells[j].who as int;
        assert(sells[j].who < n);
        lemma_meet_conserves(book, b, rem, s, sells[j].amount, rate, n);
        lemma_meet_priced(book, b, rem, s, sells[j].amount, rate, n);
        let (next, left, traded) = meet(book, b, rem, s, sells[j].amount, rate).unwrap();
        if !(traded && left < MARKET_MIN_TRADE) {
            lemma_seller_pass_priced(next, b, left, sells, j + 1, rate, n);
            let last = seller_pass(next, b, left, sells, j + 1, rate).unwrap();
            assert forall|p: int| 0 <= p < n && p != b implies #[trigger] paid_at_rate(book, last, p, rate) by {
                assert(paid_at_rate(book, next, p, rate));
                assert(paid_at_rate(next, last, p, rate));
                lemma_paid_compose(book, next, last, p, rate);
            }
        }
    } else {
        assert forall|p: int| 0 <= p < n && p != b implies #[trigger] paid_at_rate(book, book, p, rate) by {
            assert(0 * rate == 0) by (nonlinear_arith);
        }
    }
}

proof fn lemma_buyer_pass_priced(
    book: MarketBook,
    buys: Seq<MarketOffer>,
    i: int,
    sells: Seq<MarketOffer>,
    rate: u128,
    n: int,
    p: int,
)
    requires
        book_sized(book, n),
        offers_valid(buys, n),
        offers_valid(sells, n),
        buyer_pass(book, buys, i, sells, rate) is Some,
        0 <= p < n,
        forall|k: int| 0 <= k < buys.len() ==> (#[trigger] buys[k]).who != p,
    ensures
        paid_at_rate(book, buyer_pass(book, buys, i, sells, rate).unwrap(), p, rate),
    decreases buys.len() - i,
{
    if 0 <= i < buys.len() && i < MARKET_BUYERS_PER_DAY {
        assert(buys[i].who < n);
        let b = buys[i].who as int;
        assert(b != p);
        lemma_seller_pass_priced(book, b, buys[i].amount, sells, 0, rate, n);
        let next = seller_pass(book, b, buys[i].amount, sells, 0, rate).unwrap();
        assert(paid_at_rate(book, next, p, rate));
        lemma_buyer_pass_priced(next, buys, i + 1, sells, rate, n, p);
        let last = buyer_pass(next, buys, i + 1, sells, rate).unwrap();
        lemma_paid_compose(book, next, last, p, rate);
    } else {
        assert(0 * rate == 0) by (nonlinear_arith);
    }
}

/// Sellers are paid at the day's rate: a participant that only sells
/// gains, for the energy `E` it gave up, at most `E * rate / 100` DFT, and
/// short of that by less than one DFT per trade of the day (each trade's
/// price is rounded down).
pub proof fn lemma_market_pays_sellers(
    dft: Seq<u128>,
    energy: Seq<u128>,
    buys: Seq<MarketOffer>,
    sells: Seq<MarketOffer>,
    rate: u128,
    p: int,
)
    requires
        dft.len() == energy.len(),
        offers_valid(buys, dft.len() as int),
        offers_valid(sells, dft.len() as int),
        market_cleared(dft, energy, buys, sells, rate) is Some,
        0 <= p < dft.len(),
        forall|k: int| 0 <= k < buys.len() ==> (#[trigger] buys[k]).who != p,
    ensures
        ({
            let book = market_cleared(dft, energy, buys, sells, rate).unwrap();
            let gain = book.dft[p] - dft[p];
            let given = energy[p] - book.energy[p];
            &&& 100 * gain <= given * rate
            &&& given * rate <= 100 * gain + 99 * book.day.trades
        }),
{
    let n = dft.len() as int;
    let start = opening_book(dft, energy);
    lemma_buyer_pass_priced(start, buys, 0, sells, rate, n, p);
    lemma_market_respects_offers(dft, energy, buys, sells, rate, p);
}

} // verus!
