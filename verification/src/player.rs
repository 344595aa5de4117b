//! A player's civilization: resources, system levels, durabilities, token
//! bucket and counters, with collection, upgrades, attacks and rebuilding.
//! Personality, emotions and the other fractional traits live with the
//! simulation driver, which hands their effect in as integer arguments.

use vstd::prelude::*;
use vstd::string::StringExecFns;
use crate::math_engine::{
    attack_energy_cost, attack_fits, attack_outcome, calc_attack_energy_cost, calc_max_durability,
    calc_max_tokens, calc_radar, calc_shield_hp, calc_shield_regen, calc_token_regen_interval,
    calc_upgrade_cost, shield_regen_value, REFERRAL_REWARD, SHIELD_REGEN_RATIO,
    calc_upgrade_energy, energy_multiplier, lemma_upgrade_cost_nonneg, lookup_system, max_tokens, per_level, radar_value, shield_hp_value,
    simulate_attack, str_eq, system_id, token_interval, upgrade_cost, upgrade_cost_fits, upgrade_energy, upgrade_energy_fits,
    AttackResult, DURABILITY_BASE, DURABILITY_PER_LV, ENGINE_DUR_BASE, INITIAL_ENERGY,
    INITIAL_HEALTH, MAX_HEALTH, NEWBIE_PROTECTION, SHIELD_DUR_BASE, TOKEN_BASE_MAX,
    WEAPON_DUR_BASE,
};

verus! {

#[derive(Debug)]
pub enum AttackOutcome {
    Fail,
    NewbieProtected,
    SameAlliance,
    LowEnergy,
    RateLimited,
    Success(AttackResult),
}

/// Both belong to the same alliance.
pub open spec fn same_alliance(a: Option<String>, b: Option<String>) -> bool {
    match (a, b) {
        (Some(x), Some(y)) => x@ == y@,
        _ => false,
    }
}

fn in_same_alliance(a: &Option<String>, b: &Option<String>) -> (r: bool)
    ensures
        r == same_alliance(*a, *b),
{
    match a {
        Some(x) => match b {
            Some(y) => str_eq(x.as_str(), y.as_str()),
            None => false,
        },
        None => false,
    }
}

#[derive(Debug, Clone)]
pub struct Civilization {
    pub id: String,
    pub address: String,
    pub name: String,
    pub generation: u64,
    pub personality_type: &'static str,
    pub rebirth_count: u32,
    pub consecutive_wins: u32,
    pub consecutive_losses: u32,
    pub quit_day: Option<u64>,
    pub last_quit_check: u64,
    pub energy: u128,
    pub dft: u128,
    pub health: u128,
    pub shield_hp: u128,
    pub max_health: u128,
    pub collector_lv: u128,
    pub weapon_lv: u128,
    pub shield_lv: u128,
    pub radar_lv: u128,
    pub engine_lv: u128,
    pub collector_durability: u128,
    pub weapon_durability: u128,
    pub shield_durability: u128,
    pub engine_durability: u128,
    pub x: i128,
    pub y: i128,
    pub z: i128,
    pub is_ruins: bool,
    pub creation_time: u128,
    pub last_collect_time: u128,
    pub last_jump_time: u128,
    pub jump_count: u128,
    pub referral_count: u128,
    pub attack_tokens: u128,
    pub max_attack_tokens: u128,
    pub last_token_time: u128,
    pub invites_remaining: u8,
    pub invited_by: Option<String>,
    pub attack_count_today: usize,
    pub last_attack_day: u128,
    pub total_energy_collected: u128,
    pub total_dft_spent: u128,
    pub total_dft_earned: u128,
    pub total_attacks: u128,
    pub total_victims: u128,
    pub total_deaths: u128,
    pub total_plundered: u128,
    pub total_rebuilds: u128,
    pub last_target_id: Option<String>,
    pub alliance_id: Option<String>,
    pub leave_cooldown_until: u128,
    pub days_since_last_attack: u64,
    pub days_since_last_death: u64,
    pub victims_last_week: u128,
    pub deaths_last_week: u128,
}

impl Civilization {
    /// A fresh level-1 civilization with starting resources.
    pub fn new(
        id: String,
        address: String,
        name: String,
        generation: u64,
        personality_type: &'static str,
        creation_time: u128,
        last_collect_time: u128,
        last_token_time: u128,
        invites: u8,
    ) -> (c: Self)
        ensures
            c.id == id,
            c.address == address,
            c.name == name,
            c.generation == generation,
            c.personality_type == personality_type,
            c.creation_time == creation_time,
            c.last_collect_time == last_collect_time,
            c.last_token_time == last_token_time,
            c.invites_remaining == invites,
            c.energy == INITIAL_ENERGY,
            c.dft == 0,
            c.health == INITIAL_HEALTH,
            c.shield_hp == shield_hp_value(1),
            c.max_health == MAX_HEALTH,
            c.collector_lv == 1 && c.weapon_lv == 1 && c.shield_lv == 1 && c.radar_lv == 1 && c.engine_lv == 1,
            c.collector_durability == DURABILITY_BASE,
            c.weapon_durability == WEAPON_DUR_BASE,
            c.shield_durability == SHIELD_DUR_BASE,
            c.engine_durability == ENGINE_DUR_BASE,
            c.x == 0 && c.y == 0 && c.z == 0,
            !c.is_ruins,
            c.last_jump_time == 0 && c.jump_count == 0 && c.referral_count == 0,
            c.attack_tokens == TOKEN_BASE_MAX,
            c.max_attack_tokens == TOKEN_BASE_MAX,
            c.invited_by is None,
            c.rebirth_count == 0 && c.consecutive_wins == 0 && c.consecutive_losses == 0,
            c.quit_day is None && c.last_quit_check == 0,
            c.attack_count_today == 0 && c.last_attack_day == 0,
            c.total_energy_collected == 0 && c.total_dft_spent == 0 && c.total_dft_earned == 0,
            c.total_attacks == 0 && c.total_victims == 0 && c.total_deaths == 0,
            c.total_plundered == 0 && c.total_rebuilds == 0,
            c.last_target_id is None && c.alliance_id is None && c.leave_cooldown_until == 0,
            c.days_since_last_attack == 0 && c.days_since_last_death == 0,
            c.victims_last_week == 0 && c.deaths_last_week == 0,
    {
        let shield_hp: u128 = calc_shield_hp(1);
        Civilization {
            id,
            address,
            name,
            generation,
            personality_type,
            rebirth_count: 0,
            consecutive_wins: 0,
            consecutive_losses: 0,
            quit_day: None,
            last_quit_check: 0,
            energy: INITIAL_ENERGY,
            dft: 0,
            health: INITIAL_HEALTH,
            shield_hp,
            max_health: MAX_HEALTH,
            collector_lv: 1,
            weapon_lv: 1,
            shield_lv: 1,
            radar_lv: 1,
            engine_lv: 1,
            collector_durability: DURABILITY_BASE,
            weapon_durability: WEAPON_DUR_BASE,
            shield_durability: SHIELD_DUR_BASE,
            engine_durability: ENGINE_DUR_BASE,
            x: 0,
            y: 0,
            z: 0,
            is_ruins: false,
            creation_time,
            last_collect_time,
            last_jump_time: 0,
            jump_count: 0,
            referral_count: 0,
            attack_tokens: TOKEN_BASE_MAX,
            max_attack_tokens: TOKEN_BASE_MAX,
            last_token_time,
            invites_remaining: invites,
            invited_by: None,
            attack_count_today: 0,
            last_attack_day: 0,
            total_energy_collected: 0,
            total_dft_spent: 0,
            total_dft_earned: 0,
            total_attacks: 0,
            total_victims: 0,
            total_deaths: 0,
            total_plundered: 0,
            total_rebuilds: 0,
            last_target_id: None,
            alliance_id: None,
            leave_cooldown_until: 0,
            days_since_last_attack: 0,
            days_since_last_death: 0,
            victims_last_week: 0,
            deaths_last_week: 0,
        }
    }

    pub fn scan_range(&self) -> (r: u128)
        requires
            radar_value(self.radar_lv as int) <= u128::MAX,
        ensures
            r == radar_value(self.radar_lv as int),
    {
        calc_radar(self.radar_lv)
    }

    /// Token regeneration interval in milliseconds.
    pub fn token_regen_interval(&self) -> (r: u128)
        requires
            self.weapon_lv * 10 <= u128::MAX,
        ensures
            r == token_interval(self.weapon_lv as int),
    {
        calc_token_regen_interval(self.weapon_lv)
    }

    /// Shield hit points as a percentage of the level's maximum.
    pub open spec fn spec_shield_percent(&self) -> int {
        self.shield_hp * 100 / shield_hp_value(self.shield_lv as int)
    }

    pub fn shield_percent(&self) -> (r: u128)
        requires
            shield_hp_value(self.shield_lv as int) <= u128::MAX,
            self.shield_hp * 100 <= u128::MAX,
        ensures
            r == self.spec_shield_percent(),
    {
        let max_hp: u128 = calc_shield_hp(self.shield_lv);
        if max_hp == 0 {
            return 0;
        }
        self.shield_hp * 100 / max_hp
    }

    /// Sum of the five system levels.
    pub open spec fn level_sum(&self) -> int {
        self.collector_lv + self.weapon_lv + self.shield_lv + self.radar_lv + self.engine_lv
    }

    pub fn total_level(&self) -> (r: u128)
        requires
            self.level_sum() <= u128::MAX,
        ensures
            r == self.level_sum(),
    {
        self.collector_lv + self.weapon_lv + self.shield_lv + self.radar_lv + self.engine_lv
    }

    /// Still under newbie protection at `current_time`.
    pub open spec fn newbie_at(&self, current_time: u128) -> bool {
        (if current_time > self.creation_time {
            current_time - self.creation_time
        } else {
            0
        }) < NEWBIE_PROTECTION
    }

    pub fn is_newbie(&self, current_time: u128) -> (r: bool)
        ensures
            r == self.newbie_at(current_time),
    {
        current_time.saturating_sub(self.creation_time) < NEWBIE_PROTECTION
    }

    pub fn is_quit(&self) -> (r: bool)
        ensures
            r == self.quit_day is Some,
    {
        self.quit_day.is_some()
    }

    // ── Energy collection ──

    /// The state after collecting at `current_time` with `rate` energy per
    /// second: up to the collector's remaining durability in seconds is
    /// collected since the last collection; ruins and past times change
    /// nothing.
    pub open spec fn collected(self, current_time: u128, rate: u128) -> Civilization {
        if self.is_ruins || current_time <= self.last_collect_time {
            self
        } else {
            let elapsed = current_time - self.last_collect_time;
            if self.collector_durability > 0 && rate > 0 {
                let ct = if elapsed < self.collector_durability {
                    elapsed
                } else {
                    self.collector_durability as int
                };
                let gained = ct * rate;
                Civilization {
                    energy: (self.energy + gained) as u128,
                    collector_durability: (self.collector_durability - ct) as u128,
                    total_energy_collected: (self.total_energy_collected + gained) as u128,
                    last_collect_time: current_time,
                    ..self
                }
            } else {
                Civilization { last_collect_time: current_time, ..self }
            }
        }
    }

    /// The collected energy fits in the counters.
    pub open spec fn collect_fits(self, current_time: u128, rate: u128) -> bool {
        !self.is_ruins && current_time > self.last_collect_time && self.collector_durability > 0 && rate > 0
            ==> {
            let elapsed = current_time - self.last_collect_time;
            let ct = if elapsed < self.collector_durability {
                elapsed
            } else {
                self.collector_durability as int
            };
            &&& self.energy + ct * rate <= u128::MAX
            &&& self.total_energy_collected + ct * rate <= u128::MAX
        }
    }

    /// Collects energy up to `current_time` at `rate` energy per second (the
    /// collector rate of the caller's effective collector level).
    pub fn collect_energy(&mut self, current_time: u128, _full_day: bool, rate: u128)
        requires
            old(self).collect_fits(current_time, rate),
        ensures
            *final(self) == old(self).collected(current_time, rate),
    {
        if self.is_ruins {
            return;
        }
        if current_time <= self.last_collect_time {
            return;
        }
        let elapsed: u128 = current_time - self.last_collect_time;
        if self.collector_durability > 0 && rate > 0 {
            let ct: u128 = if elapsed < self.collector_durability {
                elapsed
            } else {
                self.collector_durability
            };
            proof {
                assert(0 <= ct * rate) by (nonlinear_arith)
                    requires
                        ct >= 0,
                        rate >= 0,
                ;
            }
            let gained: u128 = ct * rate;
            self.energy = self.energy + gained;
            self.collector_durability = self.collector_durability - ct;
            self.total_energy_collected = self.total_energy_collected + gained;
        }
        self.last_collect_time = current_time;
    }

    // ── Attack tokens ──

    /// The state after regenerating tokens at `current_time`: one token per
    /// whole interval (in seconds, interval milliseconds / 100) since the
    /// last regeneration, up to the bucket size; ruins change nothing.
    pub open spec fn regenerated(self, current_time: u128) -> Civilization {
        if self.is_ruins {
            self
        } else {
            let iv = token_interval(self.weapon_lv as int) / 100;
            let elapsed = if current_time > self.last_token_time {
                current_time - self.last_token_time
            } else {
                0
            };
            if iv > 0 && elapsed >= iv {
                let t = self.attack_tokens + elapsed / iv;
                let m = max_tokens(self.weapon_lv as int);
                Civilization {
                    attack_tokens: (if t < m {
                        t
                    } else {
                        m
                    }) as u128,
                    last_token_time: current_time,
                    ..self
                }
            } else {
                self
            }
        }
    }

    pub open spec fn regen_fits(self, current_time: u128) -> bool {
        !self.is_ruins ==> {
            let iv = token_interval(self.weapon_lv as int) / 100;
            let elapsed = if current_time > self.last_token_time {
                current_time - self.last_token_time
            } else {
                0
            };
            &&& self.weapon_lv * 10 <= u128::MAX
            &&& iv > 0 ==> self.attack_tokens + elapsed / iv <= u128::MAX
        }
    }

    pub fn regen_tokens(&mut self, current_time: u128)
        requires
            old(self).regen_fits(current_time),
        ensures
            *final(self) == old(self).regenerated(current_time),
    {
        if self.is_ruins {
            return;
        }
        let interval_ms: u128 = self.token_regen_interval();
        let max_t: u128 = calc_max_tokens(self.weapon_lv);
        let elapsed: u128 = current_time.saturating_sub(self.last_token_time);
        let interval_s: u128 = interval_ms / 100;
        if interval_s > 0 && elapsed >= interval_s {
            let t: u128 = self.attack_tokens + elapsed / interval_s;
            self.attack_tokens = if t < max_t {
                t
            } else {
                max_t
            };
            self.last_token_time = current_time;
        }
    }

    // ── Upgrades ──

    /// Level of system `id` (0 collector, 1 weapon, 2 shield, 3 radar,
    /// 4 engine).
    pub open spec fn level_of(self, id: nat) -> u128 {
        if id == 0 {
            self.collector_lv
        } else if id == 1 {
            self.weapon_lv
        } else if id == 2 {
            self.shield_lv
        } else if id == 3 {
            self.radar_lv
        } else {
            self.engine_lv
        }
    }

    /// DFT price of an upgrade (free after post-scarcity).
    pub open spec fn upgrade_dft_price(name: Seq<char>, lv: int, post_scarcity: bool) -> int {
        if post_scarcity {
            0
        } else {
            upgrade_cost(name, lv)
        }
    }

    /// Energy price of an upgrade (tripled after post-scarcity).
    pub open spec fn upgrade_energy_price(name: Seq<char>, lv: int, post_scarcity: bool) -> int {
        if post_scarcity {
            upgrade_energy(name, lv) * 3
        } else {
            upgrade_energy(name, lv)
        }
    }

    /// Energy that must remain after an upgrade: half the reserve when
    /// burnt out.
    pub open spec fn kept_reserve(min_reserve: u128, burnt_out: bool) -> int {
        if burnt_out {
            (min_reserve / 2) as int
        } else {
            min_reserve as int
        }
    }

    /// The upgrade goes through: not in ruins, a known system at level 1 or
    /// more, enough DFT (unless post-scarcity) and enough energy above the
    /// reserve.
    pub open spec fn upgrade_allowed(
        self,
        name: Seq<char>,
        post_scarcity: bool,
        min_reserve: u128,
        burnt_out: bool,
    ) -> bool {
        &&& !self.is_ruins
        &&& system_id(name) is Some
        &&& self.level_of(system_id(name).unwrap()) >= 1
        &&& (post_scarcity || self.dft >= Self::upgrade_dft_price(
            name,
            self.level_of(system_id(name).unwrap()) as int,
            post_scarcity,
        ))
        &&& self.energy >= Self::upgrade_energy_price(
            name,
            self.level_of(system_id(name).unwrap()) as int,
            post_scarcity,
        ) + Self::kept_reserve(min_reserve, burnt_out)
    }

    /// The state after a successful upgrade: prices paid, the system one
    /// level up; a collector's durability and a shield's hit points are
    /// rescaled to the new maximum (or set to it when there was none).
    pub open spec fn upgraded(self, name: Seq<char>, post_scarcity: bool) -> Civilization {
        let id = system_id(name).unwrap();
        let lv = self.level_of(id);
        let dft_price = Self::upgrade_dft_price(name, lv as int, post_scarcity);
        let paid = Civilization {
            dft: if post_scarcity {
                self.dft
            } else {
                (self.dft - dft_price) as u128
            },
            energy: (self.energy - Self::upgrade_energy_price(name, lv as int, post_scarcity)) as u128,
            total_dft_spent: (self.total_dft_spent + dft_price) as u128,
            ..self
        };
        if id == 0 {
            let old_max = per_level(DURABILITY_BASE as int, DURABILITY_PER_LV as int, lv as int);
            let new_max = per_level(DURABILITY_BASE as int, DURABILITY_PER_LV as int, lv + 1);
            Civilization {
                collector_lv: (lv + 1) as u128,
                collector_durability: (if old_max > 0 && self.collector_durability > 0 {
                    self.collector_durability * new_max / old_max
                } else {
                    new_max
                }) as u128,
                ..paid
            }
        } else if id == 1 {
            Civilization { weapon_lv: (lv + 1) as u128, ..paid }
        } else if id == 2 {
            let old_max = shield_hp_value(lv as int);
            let new_max = shield_hp_value(lv + 1);
            Civilization {
                shield_lv: (lv + 1) as u128,
                shield_hp: (if old_max > 0 && self.shield_hp > 0 {
                    self.shield_hp * new_max / old_max
                } else {
                    new_max
                }) as u128,
                ..paid
            }
        } else if id == 3 {
            Civilization { radar_lv: (lv + 1) as u128, ..paid }
        } else {
            Civilization { engine_lv: (lv + 1) as u128, ..paid }
        }
    }

    /// Every price and rescaling that the upgrade computes fits in a `u128`.
    pub open spec fn upgrade_fits(
        self,
        name: Seq<char>,
        post_scarcity: bool,
        min_reserve: u128,
        burnt_out: bool,
    ) -> bool {
        let id = system_id(name).unwrap();
        let lv = self.level_of(id) as int;
        &&& (!self.is_ruins && system_id(name) is Some && lv >= 1) ==> {
            &&& (!post_scarcity ==> upgrade_cost_fits(name, lv))
            &&& upgrade_energy_fits(name, lv)
            &&& Self::upgrade_energy_price(name, lv, post_scarcity) + Self::kept_reserve(min_reserve, burnt_out)
                <= u128::MAX
        }
        &&& self.upgrade_allowed(name, post_scarcity, min_reserve, burnt_out) ==> {
            &&& self.total_dft_spent + Self::upgrade_dft_price(name, lv, post_scarcity) <= u128::MAX
            &&& lv + 1 <= u128::MAX
            &&& (id == 0 ==> {
                let new_max = per_level(DURABILITY_BASE as int, DURABILITY_PER_LV as int, lv + 1);
                &&& new_max <= u128::MAX
                &&& self.collector_durability * new_max <= u128::MAX
            })
            &&& (id == 2 ==> {
                &&& shield_hp_value(lv + 1) <= u128::MAX
                &&& self.shield_hp * shield_hp_value(lv + 1) <= u128::MAX
            })
        }
    }

    /// Tries one upgrade of the named system. `min_reserve` is the energy
    /// the player keeps back and `burnt_out` halves it. Returns whether it
    /// went through and the DFT paid.
    pub fn try_upgrade(
        &mut self,
        system: &str,
        _current_time: u128,
        is_post_scarcity: bool,
        min_reserve: u128,
        burnt_out: bool,
    ) -> (r: (bool, u128))
        requires
            old(self).upgrade_fits(system@, is_post_scarcity, min_reserve, burnt_out),
        ensures
            r.0 == old(self).upgrade_allowed(system@, is_post_scarcity, min_reserve, burnt_out),
            r.0 ==> r.1 == Self::upgrade_dft_price(
                system@,
                old(self).level_of(system_id(system@).unwrap()) as int,
                is_post_scarcity,
            ) && *final(self) == old(self).upgraded(system@, is_post_scarcity),
            !r.0 ==> r.1 == 0 && *final(self) == *old(self),
    {
        if self.is_ruins {
            return (false, 0);
        }
        let id: u32 = match lookup_system(system) {
            Some(i) => i,
            None => {
                return (false, 0);
            },
        };
        let lv: u128 = if id == 0 {
            self.collector_lv
        } else if id == 1 {
            self.weapon_lv
        } else if id == 2 {
            self.shield_lv
        } else if id == 3 {
            self.radar_lv
        } else {
            self.engine_lv
        };
        assert(lv == self.level_of(id as nat));
        if lv < 1 {
            return (false, 0);
        }
        let cost_dft: u128 = if is_post_scarcity {
            0
        } else {
            calc_upgrade_cost(system, lv)
        };
        let cost_energy: u128 = if is_post_scarcity {
            calc_upgrade_energy(system, lv) * 3
        } else {
            calc_upgrade_energy(system, lv)
        };
        if !is_post_scarcity && self.dft < cost_dft {
            return (false, 0);
        }
        let effective_min: u128 = if burnt_out {
            min_reserve / 2
        } else {
            min_reserve
        };
        if self.energy < cost_energy + effective_min {
            return (false, 0);
        }
        if !is_post_scarcity {
            self.dft = self.dft - cost_dft;
        }
        self.energy = self.energy.saturating_sub(cost_energy);
        self.total_dft_spent = self.total_dft_spent + cost_dft;
        if id == 0 {
            let old_max: u128 = calc_max_durability(self.collector_lv);
            self.collector_lv = self.collector_lv + 1;
            let new_max: u128 = calc_max_durability(self.collector_lv);
            self.collector_durability = if old_max > 0 && self.collector_durability > 0 {
                self.collector_durability * new_max / old_max
            } else {
                new_max
            };
        } else if id == 1 {
            self.weapon_lv = self.weapon_lv + 1;
        } else if id == 2 {
            proof {
                assert(shield_hp_value(lv as int) <= shield_hp_value(lv + 1)) by (nonlinear_arith)
                    requires
                        lv >= 0,
                ;
            }
            let old_max: u128 = calc_shield_hp(self.shield_lv);
            self.shield_lv = self.shield_lv + 1;
            let new_max: u128 = calc_shield_hp(self.shield_lv);
            self.shield_hp = if old_max > 0 && self.shield_hp > 0 {
                self.shield_hp * new_max / old_max
            } else {
                new_max
            };
        } else if id == 3 {
            self.radar_lv = self.radar_lv + 1;
        } else {
            self.engine_lv = self.engine_lv + 1;
        }
        (true, cost_dft)
    }

    // ── Attacks ──

    /// The attacker after paying for an attack and regenerating tokens.
    pub open spec fn paid_attack(self, current_time: u128) -> Civilization {
        Civilization {
            energy: (self.energy - attack_energy_cost(self.weapon_lv as int)) as u128,
            ..self
        }.regenerated(current_time)
    }

    /// Energy actually taken from the defender.
    pub open spec fn energy_taken(r: AttackResult, defender_energy: u128) -> int {
        if r.stolen_energy < defender_energy {
            r.stolen_energy as int
        } else {
            defender_energy as int
        }
    }

    /// DFT taken from the defender: 20% of its holdings.
    pub open spec fn dft_taken(defender_dft: u128) -> int {
        defender_dft * 2000 / 10000
    }

    /// Outcome and resulting (attacker, defender) of an attack at
    /// `current_time` with the defender's alliance bonus `bonus` and the
    /// effective weapon and shield levels `eff_weapon`, `eff_shield`.
    ///
    /// In order: either side in ruins fails; a protected newbie or a fellow
    /// alliance member is refused; without the energy cost the attack is
    /// refused; otherwise the cost is paid and tokens regenerate, and
    /// without a token the attack is rate-limited. Then a token is spent,
    /// combat resolves, the defender's shield and health take the damage,
    /// a destroyed defender loses up to 15% energy, always up to 20% DFT,
    /// and leaves its alliance; the defender's shield durability drops by
    /// one; the attacker's win streak grows.
    pub open spec fn attack_spec(
        self,
        target: Civilization,
        current_time: u128,
        bonus: u128,
        eff_weapon: u128,
        eff_shield: u128,
    ) -> (AttackOutcome, Civilization, Civilization) {
        if self.is_ruins || target.is_ruins {
            (AttackOutcome::Fail, self, target)
        } else if target.newbie_at(current_time) {
            (AttackOutcome::NewbieProtected, self, target)
        } else if same_alliance(self.alliance_id, target.alliance_id) {
            (AttackOutcome::SameAlliance, self, target)
        } else if self.energy < attack_energy_cost(self.weapon_lv as int) {
            (AttackOutcome::LowEnergy, self, target)
        } else {
            let a1 = self.paid_attack(current_time);
            if a1.attack_tokens == 0 {
                (AttackOutcome::RateLimited, a1, target)
            } else {
                let r = attack_outcome(
                    eff_weapon as int,
                    eff_shield as int,
                    target.energy as int,
                    target.health as int,
                    target.shield_hp as int,
                    bonus as int,
                );
                let steal = Self::energy_taken(r, target.energy);
                let dft = Self::dft_taken(target.dft);
                let a2 = Civilization {
                    attack_tokens: (a1.attack_tokens - 1) as u128,
                    total_attacks: (a1.total_attacks + 1) as u128,
                    energy: (a1.energy + steal) as u128,
                    total_plundered: (a1.total_plundered + steal) as u128,
                    dft: (a1.dft + dft) as u128,
                    total_dft_earned: (a1.total_dft_earned + dft) as u128,
                    total_victims: (if r.defender_destroyed {
                        a1.total_victims + 1
                    } else {
                        a1.total_victims as int
                    }) as u128,
                    consecutive_wins: (a1.consecutive_wins + 1) as u32,
                    consecutive_losses: 0,
                    ..a1
                };
                let t2 = Civilization {
                    shield_hp: r.remaining_shield,
                    health: r.remaining_health,
                    energy: (target.energy - steal) as u128,
                    dft: (target.dft - dft) as u128,
                    is_ruins: r.defender_destroyed,
                    alliance_id: if r.defender_destroyed {
                        None
                    } else {
                        target.alliance_id
                    },
                    total_deaths: (if r.defender_destroyed {
                        target.total_deaths + 1
                    } else {
                        target.total_deaths as int
                    }) as u128,
                    shield_durability: (if target.shield_durability > 0 {
                        target.shield_durability - 1
                    } else {
                        0
                    }) as u128,
                    ..target
                };
                (AttackOutcome::Success(r), a2, t2)
            }
        }
    }

    /// Every value the attack computes fits: the cost once it is computed,
    /// token regeneration once it is paid, and the combat and transfers once
    /// a token is there.
    pub open spec fn attack_target_fits(
        self,
        target: Civilization,
        current_time: u128,
        bonus: u128,
        eff_weapon: u128,
        eff_shield: u128,
    ) -> bool {
        let gated = !self.is_ruins && !target.is_ruins && !target.newbie_at(current_time) && !same_alliance(
            self.alliance_id,
            target.alliance_id,
        );
        &&& gated ==> attack_energy_cost(self.weapon_lv as int) <= u128::MAX
        &&& (gated && self.energy >= attack_energy_cost(self.weapon_lv as int)) ==> {
            let a0 = Civilization {
                energy: (self.energy - attack_energy_cost(self.weapon_lv as int)) as u128,
                ..self
            };
            let a1 = self.paid_attack(current_time);
            &&& a0.regen_fits(current_time)
            &&& a1.attack_tokens > 0 ==> {
                let r = attack_outcome(
                    eff_weapon as int,
                    eff_shield as int,
                    target.energy as int,
                    target.health as int,
                    target.shield_hp as int,
                    bonus as int,
                );
                let steal = Self::energy_taken(r, target.energy);
                let dft = Self::dft_taken(target.dft);
                &&& attack_fits(
                    eff_weapon as int,
                    eff_shield as int,
                    target.energy as int,
                    target.health as int,
                    target.shield_hp as int,
                    bonus as int,
                )
                &&& a1.total_attacks + 1 <= u128::MAX
                &&& target.dft * 2000 <= u128::MAX
                &&& a1.energy + steal <= u128::MAX
                &&& a1.total_plundered + steal <= u128::MAX
                &&& a1.dft + dft <= u128::MAX
                &&& a1.total_dft_earned + dft <= u128::MAX
                &&& r.defender_destroyed ==> a1.total_victims + 1 <= u128::MAX
                &&& r.defender_destroyed ==> target.total_deaths + 1 <= u128::MAX
                &&& a1.consecutive_wins + 1 <= u32::MAX
            }
        }
    }

    /// Attacks `target`; see `attack_spec`. `alliance_def_bonus` is the
    /// number of the defender's allies, and `eff_weapon` / `eff_shield` the
    /// effective levels of the attacker's weapon and the defender's shield.
    pub fn attack_target(
        &mut self,
        target: &mut Civilization,
        current_time: u128,
        alliance_def_bonus: u128,
        eff_weapon: u128,
        eff_shield: u128,
    ) -> (r: AttackOutcome)
        requires
            old(self).attack_target_fits(*old(target), current_time, alliance_def_bonus, eff_weapon, eff_shield),
        ensures
            (r, *final(self), *final(target)) == old(self).attack_spec(
                *old(target),
                current_time,
                alliance_def_bonus,
                eff_weapon,
                eff_shield,
            ),
    {
        if self.is_ruins || target.is_ruins {
            return AttackOutcome::Fail;
        }
        if target.is_newbie(current_time) {
            return AttackOutcome::NewbieProtected;
        }
        if in_same_alliance(&self.alliance_id, &target.alliance_id) {
            return AttackOutcome::SameAlliance;
        }
        let cost: u128 = calc_attack_energy_cost(self.weapon_lv);
        if self.energy < cost {
            return AttackOutcome::LowEnergy;
        }
        self.energy = self.energy - cost;
        self.regen_tokens(current_time);
        if self.attack_tokens == 0 {
            return AttackOutcome::RateLimited;
        }
        self.attack_tokens = self.attack_tokens - 1;
        self.total_attacks = self.total_attacks + 1;

        let result: AttackResult = simulate_attack(
            eff_weapon,
            eff_shield,
            target.energy,
            target.health,
            target.shield_hp,
            alliance_def_bonus,
        );
        target.shield_hp = result.remaining_shield;
        target.health = result.remaining_health;

        if result.stolen_energy > 0 {
            let steal: u128 = if result.stolen_energy < target.energy {
                result.stolen_energy
            } else {
                target.energy
            };
            target.energy = target.energy - steal;
            self.energy = self.energy + steal;
            self.total_plundered = self.total_plundered + steal;
        }
        let dft_plunder: u128 = target.dft * 2000 / 10000;
        if dft_plunder > 0 {
            let actual: u128 = if dft_plunder < target.dft {
                dft_plunder
            } else {
                target.dft
            };
            target.dft = target.dft - actual;
            self.dft = self.dft + actual;
            self.total_dft_earned = self.total_dft_earned + actual;
        }

        let destroyed: bool = result.defender_destroyed;
        if destroyed {
            target.is_ruins = true;
            target.alliance_id = None;
            self.total_victims = self.total_victims + 1;
            target.total_deaths = target.total_deaths + 1;
        }
        if target.shield_durability > 0 {
            target.shield_durability = target.shield_durability - 1;
        }
        self.consecutive_wins = self.consecutive_wins + 1;
        self.consecutive_losses = 0;
        AttackOutcome::Success(result)
    }
}


/// DFT a rebuild costs while tokens are scarce: 50 DFT in units of 10^-18.
pub const REBUILD_DFT_COST: u128 = 50_000_000_000_000_000_000;

/// Energy a rebuild costs while tokens are scarce (three times as much after).
pub const REBUILD_ENERGY_COST: u128 = 5000;

/// Total level from which a rebuild counts as a rebirth.
pub const REBIRTH_MIN_LEVEL: u128 = 50;

impl Civilization {
    // ── Rebuilding ──

    pub open spec fn rebuild_dft_price(is_post_scarcity: bool) -> int {
        if is_post_scarcity {
            0
        } else {
            REBUILD_DFT_COST as int
        }
    }

    pub open spec fn rebuild_energy_price(is_post_scarcity: bool) -> int {
        if is_post_scarcity {
            REBUILD_ENERGY_COST * 3
        } else {
            REBUILD_ENERGY_COST as int
        }
    }

    /// Only ruins rebuild, and only when both prices can be paid.
    pub open spec fn rebuild_allowed(self, is_post_scarcity: bool) -> bool {
        &&& self.is_ruins
        &&& self.dft >= Self::rebuild_dft_price(is_post_scarcity)
        &&& self.energy >= Self::rebuild_energy_price(is_post_scarcity)
    }

    /// The rebuilt civilization: prices paid, a rebirth counted from total
    /// level 50, half health, a quarter of the shield and of the collector's
    /// durability, newbie protection renewed from the last collection, one
    /// more rebuild and the losing streak reset.
    pub open spec fn rebuilt(self, is_post_scarcity: bool) -> Civilization {
        Civilization {
            dft: (self.dft - Self::rebuild_dft_price(is_post_scarcity)) as u128,
            energy: (self.energy - Self::rebuild_energy_price(is_post_scarcity)) as u128,
            rebirth_count: if self.level_sum() >= REBIRTH_MIN_LEVEL {
                (self.rebirth_count + 1) as u32
            } else {
                self.rebirth_count
            },
            is_ruins: false,
            health: MAX_HEALTH / 2,
            shield_hp: (shield_hp_value(self.shield_lv as int) / 4) as u128,
            collector_durability: (per_level(
                DURABILITY_BASE as int,
                DURABILITY_PER_LV as int,
                self.collector_lv as int,
            ) / 4) as u128,
            creation_time: self.last_collect_time,
            total_rebuilds: (self.total_rebuilds + 1) as u128,
            consecutive_losses: 0,
            ..self
        }
    }

    pub open spec fn rebuild_fits(self, is_post_scarcity: bool) -> bool {
        self.rebuild_allowed(is_post_scarcity) ==> {
            &&& self.level_sum() <= u128::MAX
            &&& self.level_sum() >= REBIRTH_MIN_LEVEL ==> self.rebirth_count + 1 <= u32::MAX
            &&& shield_hp_value(self.shield_lv as int) <= u128::MAX
            &&& per_level(DURABILITY_BASE as int, DURABILITY_PER_LV as int, self.collector_lv as int)
                <= u128::MAX
            &&& self.total_rebuilds + 1 <= u128::MAX
        }
    }

    /// Rebuilds ruins; returns whether it happened. A refused rebuild
    /// changes nothing.
    pub fn try_rebuild(&mut self, is_post_scarcity: bool) -> (r: bool)
        requires
            old(self).rebuild_fits(is_post_scarcity),
        ensures
            r == old(self).rebuild_allowed(is_post_scarcity),
            r ==> *final(self) == old(self).rebuilt(is_post_scarcity),
            !r ==> *final(self) == *old(self),
    {
        if !self.is_ruins {
            return false;
        }
        let cost_dft: u128 = if is_post_scarcity {
            0
        } else {
            REBUILD_DFT_COST
        };
        let cost_energy: u128 = REBUILD_ENERGY_COST * if is_post_scarcity {
            3
        } else {
            1
        };
        if !is_post_scarcity && self.dft < cost_dft {
            return false;
        }
        if self.energy < cost_energy {
            return false;
        }
        if !is_post_scarcity {
            self.dft = self.dft - cost_dft;
        }
        self.energy = self.energy - cost_energy;
        let was_high_level: bool = self.total_level() >= REBIRTH_MIN_LEVEL;
        if was_high_level {
            self.rebirth_count = self.rebirth_count + 1;
        }
        self.is_ruins = false;
        self.health = MAX_HEALTH / 2;
        self.shield_hp = calc_shield_hp(self.shield_lv) / 4;
        self.collector_durability = calc_max_durability(self.collector_lv) / 4;
        self.creation_time = self.last_collect_time;
        self.total_rebuilds = self.total_rebuilds + 1;
        self.consecutive_losses = 0;
        true
    }

    // ── Daily bookkeeping ──

    /// The day counters after one more day: both "days since" counters
    /// grow, the quit check is dated `day`, and after more than ten days
    /// without attacking both streaks are reset.
    pub open spec fn next_day(self, day: u64) -> Civilization {
        let since_attack = (self.days_since_last_attack + 1) as u64;
        Civilization {
            days_since_last_attack: since_attack,
            days_since_last_death: (self.days_since_last_death + 1) as u64,
            last_quit_check: day,
            consecutive_wins: if since_attack > 10 {
                0
            } else {
                self.consecutive_wins
            },
            consecutive_losses: if since_attack > 10 {
                0
            } else {
                self.consecutive_losses
            },
            ..self
        }
    }

    /// Advances the day counters; the daily mood update follows it.
    pub fn daily_counters(&mut self, day: u64)
        requires
            old(self).days_since_last_attack < u64::MAX,
            old(self).days_since_last_death < u64::MAX,
        ensures
            *final(self) == old(self).next_day(day),
    {
        self.days_since_last_attack = self.days_since_last_attack + 1;
        self.days_since_last_death = self.days_since_last_death + 1;
        self.last_quit_check = day;
        if self.days_since_last_attack > 10 {
            self.consecutive_wins = 0;
            self.consecutive_losses = 0;
        }
    }

    /// A player who quit while in ruins comes back: no longer quit, rebuilt
    /// with half health, a quarter shield and the starting energy.
    pub open spec fn returned(self) -> Civilization {
        Civilization {
            quit_day: None,
            is_ruins: false,
            health: MAX_HEALTH / 2,
            shield_hp: (shield_hp_value(self.shield_lv as int) / 4) as u128,
            energy: INITIAL_ENERGY,
            total_rebuilds: (self.total_rebuilds + 1) as u128,
            ..self
        }
    }

    /// Brings back a player who quit and lies in ruins; returns whether it
    /// did. Anyone else is left unchanged.
    pub fn return_from_quit(&mut self) -> (r: bool)
        requires
            old(self).quit_day is Some && old(self).is_ruins ==> {
                &&& shield_hp_value(old(self).shield_lv as int) <= u128::MAX
                &&& old(self).total_rebuilds + 1 <= u128::MAX
            },
        ensures
            r == (old(self).quit_day is Some && old(self).is_ruins),
            r ==> *final(self) == old(self).returned(),
            !r ==> *final(self) == *old(self),
    {
        if self.quit_day.is_none() || !self.is_ruins {
            return false;
        }
        self.quit_day = None;
        self.is_ruins = false;
        self.health = MAX_HEALTH / 2;
        self.shield_hp = calc_shield_hp(self.shield_lv) / 4;
        self.energy = INITIAL_ENERGY;
        self.total_rebuilds = self.total_rebuilds + 1;
        true
    }
}

/// Energy an inviter receives for each accepted invitation.
pub const INVITER_ENERGY_REWARD: u128 = 1000;

/// DFT (in units of 10^-18) an invited player starts with on top: 200 DFT.
pub const INVITEE_DFT_BONUS: u128 = 200_000_000_000_000_000_000;

/// DFT (in units of 10^-18) an inviter receives per invitation.
pub const INVITER_DFT_REWARD: u128 = 150_000_000_000_000_000_000;

/// Shield regeneration ticks applied per day.
pub const SHIELD_REGEN_TICKS: u128 = 12;

/// The system names of an upgrade plan.
pub open spec fn plan_names(plan: Seq<&str>) -> Seq<Seq<char>> {
    plan.map_values(|s: &str| s@)
}

impl Civilization {
    // ── Daily upkeep ──

    /// The state after the daily shield regeneration: a damaged (but not
    /// broken) shield below its maximum regains twelve regeneration ticks,
    /// capped at the maximum, for as much energy, when the energy is there.
    pub open spec fn shield_regenerated(self) -> Civilization {
        let max_hp = shield_hp_value(self.shield_lv as int);
        let regen = shield_regen_value(self.shield_lv as int) * SHIELD_REGEN_TICKS;
        let cost = regen * SHIELD_REGEN_RATIO;
        if self.shield_hp > 0 && self.shield_hp < max_hp && self.energy >= cost {
            Civilization {
                energy: (self.energy - cost) as u128,
                shield_hp: (if self.shield_hp + regen < max_hp {
                    self.shield_hp + regen
                } else {
                    max_hp
                }) as u128,
                ..self
            }
        } else {
            self
        }
    }

    pub open spec fn shield_regen_fits(self) -> bool {
        self.shield_hp > 0 ==> {
            &&& shield_hp_value(self.shield_lv as int) <= u128::MAX
            &&& self.shield_hp < shield_hp_value(self.shield_lv as int) ==> {
                &&& shield_regen_value(self.shield_lv as int) * SHIELD_REGEN_TICKS <= u128::MAX
                &&& self.shield_hp + shield_regen_value(self.shield_lv as int) * SHIELD_REGEN_TICKS
                    <= u128::MAX
            }
        }
    }

    /// Regenerates the shield for one day.
    pub fn regen_shield(&mut self)
        requires
            old(self).shield_regen_fits(),
        ensures
            *final(self) == old(self).shield_regenerated(),
    {
        if self.shield_hp > 0 {
            let max_hp: u128 = calc_shield_hp(self.shield_lv);
            if self.shield_hp < max_hp {
                let regen: u128 = calc_shield_regen(self.shield_lv) * SHIELD_REGEN_TICKS;
                let cost: u128 = regen * SHIELD_REGEN_RATIO;
                if self.energy >= cost {
                    self.energy = self.energy - cost;
                    let hp: u128 = self.shield_hp + regen;
                    self.shield_hp = if hp < max_hp {
                        hp
                    } else {
                        max_hp
                    };
                }
            }
        }
    }

    /// Receives a share of the daily DFT emission.
    pub fn receive_emission(&mut self, share: u128)
        requires
            old(self).dft + share <= u128::MAX,
            old(self).total_dft_earned + share <= u128::MAX,
        ensures
            *final(self) == (Civilization {
                dft: (old(self).dft + share) as u128,
                total_dft_earned: (old(self).total_dft_earned + share) as u128,
                ..*old(self)
            }),
    {
        self.dft = self.dft + share;
        self.total_dft_earned = self.total_dft_earned + share;
    }

    // ── Invitations ──

    /// Can still invite: an invitation left, standing and not quit.
    pub open spec fn can_invite(self) -> bool {
        self.invites_remaining > 0 && !self.is_ruins && self.quit_day is None
    }

    /// The inviter after an accepted invitation: one invitation used, one
    /// more referral, and the DFT and energy reward.
    pub open spec fn invited(self) -> Civilization {
        Civilization {
            invites_remaining: (self.invites_remaining - 1) as u8,
            referral_count: (self.referral_count + 1) as u128,
            dft: (self.dft + INVITER_DFT_REWARD) as u128,
            energy: (self.energy + INVITER_ENERGY_REWARD) as u128,
            ..self
        }
    }

    /// Uses one invitation and collects its reward; returns whether the
    /// invitation could be made (otherwise nothing changes).
    pub fn use_invite(&mut self) -> (r: bool)
        requires
            old(self).can_invite() ==> {
                &&& old(self).referral_count + 1 <= u128::MAX
                &&& old(self).dft + INVITER_DFT_REWARD <= u128::MAX
                &&& old(self).energy + INVITER_ENERGY_REWARD <= u128::MAX
            },
        ensures
            r == old(self).can_invite(),
            r ==> *final(self) == old(self).invited(),
            !r ==> *final(self) == *old(self),
    {
        if self.invites_remaining == 0 || self.is_ruins || self.quit_day.is_some() {
            return false;
        }
        self.invites_remaining = self.invites_remaining - 1;
        self.referral_count = self.referral_count + 1;
        self.dft = self.dft + REFERRAL_REWARD * 1_000_000_000_000_000_000;
        self.energy = self.energy + INVITER_ENERGY_REWARD;
        true
    }

    /// Credits the starting bonus of an invited player.
    pub fn receive_invite_bonus(&mut self)
        requires
            old(self).dft + INVITEE_DFT_BONUS <= u128::MAX,
        ensures
            *final(self) == (Civilization { dft: (old(self).dft + INVITEE_DFT_BONUS) as u128, ..*old(self) }),
    {
        self.dft = self.dft + INVITEE_DFT_BONUS;
    }

    // ── Targeting ──

    /// `other` may be attacked by this player at `current_time`: another
    /// player, standing, not quit, past newbie protection and not in the
    /// same alliance.
    pub open spec fn targetable(self, other: Civilization, current_time: u128) -> bool {
        &&& other.id@ != self.id@
        &&& !other.is_ruins
        &&& other.quit_day is None
        &&& !other.newbie_at(current_time)
        &&& !same_alliance(self.alliance_id, other.alliance_id)
    }

    pub fn can_target(&self, other: &Civilization, current_time: u128) -> (r: bool)
        ensures
            r == self.targetable(*other, current_time),
    {
        !str_eq(other.id.as_str(), self.id.as_str()) && !other.is_ruins && !other.is_quit() && !other.is_newbie(
            current_time,
        ) && !in_same_alliance(&self.alliance_id, &other.alliance_id)
    }

    // ── Daily upgrades ──

    /// The first upgrade along `plan`, from position `i` on, that goes
    /// through: the upgraded state and the DFT it cost.
    pub open spec fn first_upgrade(
        self,
        plan: Seq<Seq<char>>,
        i: int,
        post_scarcity: bool,
        min_reserve: u128,
        burnt_out: bool,
    ) -> Option<(Civilization, int)>
        decreases plan.len() - i,
    {
        if i < 0 || i >= plan.len() {
            None
        } else if self.upgrade_allowed(plan[i], post_scarcity, min_reserve, burnt_out) {
            Some(
                (
                    self.upgraded(plan[i], post_scarcity),
                    Self::upgrade_dft_price(
                        plan[i],
                        self.level_of(system_id(plan[i]).unwrap()) as int,
                        post_scarcity,
                    ),
                ),
            )
        } else {
            self.first_upgrade(plan, i + 1, post_scarcity, min_reserve, burnt_out)
        }
    }

    /// Every upgrade attempt along `plan` from position `i` up to the first
    /// that goes through fits in its integers.
    pub open spec fn plan_fits(
        self,
        plan: Seq<Seq<char>>,
        i: int,
        post_scarcity: bool,
        min_reserve: u128,
        burnt_out: bool,
    ) -> bool
        decreases plan.len() - i,
    {
        if i < 0 || i >= plan.len() {
            true
        } else {
            &&& self.upgrade_fits(plan[i], post_scarcity, min_reserve, burnt_out)
            &&& !self.upgrade_allowed(plan[i], post_scarcity, min_reserve, burnt_out) ==> self.plan_fits(
                plan,
                i + 1,
                post_scarcity,
                min_reserve,
                burnt_out,
            )
        }
    }

    /// Up to `rounds` rounds of upgrading, each taking the first system of
    /// the plan that can be upgraded and stopping at the first round where
    /// none can: the final state and the DFT paid in all.
    pub open spec fn upgrade_rounds_result(
        self,
        plan: Seq<Seq<char>>,
        rounds: nat,
        post_scarcity: bool,
        min_reserve: u128,
        burnt_out: bool,
    ) -> (Civilization, int)
        decreases rounds,
    {
        if rounds == 0 {
            (self, 0)
        } else {
            match self.first_upgrade(plan, 0, post_scarcity, min_reserve, burnt_out) {
                None => (self, 0),
                Some((next, paid)) => {
                    let (last, rest) = next.upgrade_rounds_result(
                        plan,
                        (rounds - 1) as nat,
                        post_scarcity,
                        min_reserve,
                        burnt_out,
                    );
                    (last, paid + rest)
                },
            }
        }
    }

    /// Every round's attempts fit, and so does the DFT paid in all.
    pub open spec fn rounds_fit(
        self,
        plan: Seq<Seq<char>>,
        rounds: nat,
        post_scarcity: bool,
        min_reserve: u128,
        burnt_out: bool,
    ) -> bool
        decreases rounds,
    {
        rounds == 0 || {
            &&& self.plan_fits(plan, 0, post_scarcity, min_reserve, burnt_out)
            &&& self.upgrade_rounds_result(plan, rounds, post_scarcity, min_reserve, burnt_out).1
                <= u128::MAX
            &&& match self.first_upgrade(plan, 0, post_scarcity, min_reserve, burnt_out) {
                None => true,
                Some((next, paid)) => next.rounds_fit(
                    plan,
                    (rounds - 1) as nat,
                    post_scarcity,
                    min_reserve,
                    burnt_out,
                ),
            }
        }
    }

    /// DFT paid for an upgrade is never negative.
    proof fn lemma_first_upgrade_paid_nonneg(
        self,
        plan: Seq<Seq<char>>,
        i: int,
        post_scarcity: bool,
        min_reserve: u128,
        burnt_out: bool,
    )
        ensures
            match self.first_upgrade(plan, i, post_scarcity, min_reserve, burnt_out) {
                Some((next, paid)) => paid >= 0,
                None => true,
            },
        decreases plan.len() - i,
    {
        if 0 <= i < plan.len() {
            if self.upgrade_allowed(plan[i], post_scarcity, min_reserve, burnt_out) {
                let lv = self.level_of(system_id(plan[i]).unwrap()) as int;
                crate::math_engine::lemma_upgrade_cost_nonneg(plan[i], lv);
            } else {
                self.lemma_first_upgrade_paid_nonneg(plan, i + 1, post_scarcity, min_reserve, burnt_out);
            }
        }
    }

    proof fn lemma_rounds_paid_nonneg(
        self,
        plan: Seq<Seq<char>>,
        rounds: nat,
        post_scarcity: bool,
        min_reserve: u128,
        burnt_out: bool,
    )
        ensures
            self.upgrade_rounds_result(plan, rounds, post_scarcity, min_reserve, burnt_out).1 >= 0,
        decreases rounds,
    {
        if rounds > 0 {
            self.lemma_first_upgrade_paid_nonneg(plan, 0, post_scarcity, min_reserve, burnt_out);
            match self.first_upgrade(plan, 0, post_scarcity, min_reserve, burnt_out) {
                None => {},
                Some((next, paid)) => {
                    next.lemma_rounds_paid_nonneg(
                        plan,
                        (rounds - 1) as nat,
                        post_scarcity,
                        min_reserve,
                        burnt_out,
                    );
                },
            }
        }
    }

    /// One round: upgrades the first system of `plan` that can be upgraded.
    fn upgrade_first(
        &mut self,
        plan: &[&str],
        current_time: u128,
        post_scarcity: bool,
        min_reserve: u128,
        burnt_out: bool,
    ) -> (r: Option<u128>)
        requires
            old(self).plan_fits(plan_names(plan@), 0, post_scarcity, min_reserve, burnt_out),
        ensures
            match old(self).first_upgrade(
                plan_names(plan@),
                0,
                post_scarcity,
                min_reserve,
                burnt_out,
            ) {
                None => r is None && *final(self) == *old(self),
                Some((next, paid)) => r == Some(paid as u128) && *final(self) == next,
            },
    {
        let ghost names = plan_names(plan@);
        let ghost start = *self;
        let mut j: usize = 0;
        while j < plan.len()
            invariant
                names == plan_names(plan@),
                j <= plan@.len(),
                *self == start,
                start == *old(self),
                start.first_upgrade(names, 0, post_scarcity, min_reserve, burnt_out) == start.first_upgrade(
                    names,
                    j as int,
                    post_scarcity,
                    min_reserve,
                    burnt_out,
                ),
                start.plan_fits(names, j as int, post_scarcity, min_reserve, burnt_out),
            decreases plan@.len() - j,
        {
            assert(names[j as int] == plan[j as int]@);
            let (done, paid) = self.try_upgrade(plan[j], current_time, post_scarcity, min_reserve, burnt_out);
            if done {
                return Some(paid);
            }
            j = j + 1;
        }
        None
    }

    /// The day's upgrades: up to `max_rounds` rounds, each upgrading the
    /// first system of `plan` that can be upgraded, stopping at the first
    /// round where none can. Returns the DFT paid (and so burned).
    pub fn upgrade_rounds(
        &mut self,
        plan: &[&str],
        max_rounds: usize,
        current_time: u128,
        post_scarcity: bool,
        min_reserve: u128,
        burnt_out: bool,
    ) -> (burned: u128)
        requires
            old(self).rounds_fit(
                plan_names(plan@),
                max_rounds as nat,
                post_scarcity,
                min_reserve,
                burnt_out,
            ),
        ensures
            (*final(self), burned as int) == old(self).upgrade_rounds_result(
                plan_names(plan@),
                max_rounds as nat,
                post_scarcity,
                min_reserve,
                burnt_out,
            ),
    {
        let ghost names = plan_names(plan@);
        let ghost start = *self;
        let mut burned: u128 = 0;
        let mut round: usize = 0;
        while round < max_rounds
            invariant_except_break
                round <= max_rounds,
                self.rounds_fit(names, (max_rounds - round) as nat, post_scarcity, min_reserve, burnt_out),
                ({
                    let (last, rest) = self.upgrade_rounds_result(
                        names,
                        (max_rounds - round) as nat,
                        post_scarcity,
                        min_reserve,
                        burnt_out,
                    );
                    let (last0, total) = start.upgrade_rounds_result(
                        names,
                        max_rounds as nat,
                        post_scarcity,
                        min_reserve,
                        burnt_out,
                    );
                    last == last0 && burned + rest == total
                }),
                start.upgrade_rounds_result(names, max_rounds as nat, post_scarcity, min_reserve, burnt_out).1
                    <= u128::MAX,
            invariant
                names == plan_names(plan@),
            ensures
                (*self, burned as int) == start.upgrade_rounds_result(
                    names,
                    max_rounds as nat,
                    post_scarcity,
                    min_reserve,
                    burnt_out,
                ),
            decreases max_rounds - round,
        {
            let ghost before = *self;
            let ghost left = (max_rounds - round) as nat;
            match self.upgrade_first(plan, current_time, post_scarcity, min_reserve, burnt_out) {
                None => {
                    break;
                },
                Some(paid) => {
                    proof {
                        let (next, p) = before.first_upgrade(names, 0, post_scarcity, min_reserve, burnt_out).unwrap();
                        next.lemma_rounds_paid_nonneg(
                            names,
                            (left - 1) as nat,
                            post_scarcity,
                            min_reserve,
                            burnt_out,
                        );
                        before.lemma_rounds_paid_nonneg(names, left, post_scarcity, min_reserve, burnt_out);
                        before.lemma_first_upgrade_paid_nonneg(names, 0, post_scarcity, min_reserve, burnt_out);
                        assert(*self == next);
                        assert(paid == p);
                    }
                    burned = burned + paid;
                },
            }
            round = round + 1;
        }
        burned
    }
}

// ── Social lists (enemies, friends) ──

/// No entry before `end` carries the id `id`.
pub open spec fn absent_before<T>(entries: Seq<(String, T)>, id: Seq<char>, end: int) -> bool {
    forall|j: int| 0 <= j < end ==> (#[trigger] entries[j]).0@ != id
}

/// Position of the first entry with id `id`, if any.
pub fn find_entry<T>(entries: &Vec<(String, T)>, id: &str) -> (r: Option<usize>)
    ensures
        match r {
            Some(i) => i < entries@.len() && entries@[i as int].0@ == id@ && absent_before(
                entries@,
                id@,
                i as int,
            ),
            None => absent_before(entries@, id@, entries@.len() as int),
        },
{
    let mut i: usize = 0;
    while i < entries.len()
        invariant
            i <= entries@.len(),
            absent_before(entries@, id@, i as int),
        decreases entries@.len() - i,
    {
        if str_eq(entries[i].0.as_str(), id) {
            return Some(i);
        }
        i = i + 1;
    }
    None
}

/// The list after appending `item` and, when it then holds more than `cap`
/// entries, dropping the oldest.
pub open spec fn pushed_capped<T>(entries: Seq<T>, item: T, cap: usize) -> Seq<T> {
    let grown = entries.push(item);
    if grown.len() > cap {
        grown.drop_first()
    } else {
        grown
    }
}

/// Appends `item`, dropping the oldest entry when the list exceeds `cap`.
pub fn push_capped<T>(entries: &mut Vec<T>, item: T, cap: usize)
    requires
        old(entries)@.len() < usize::MAX,
    ensures
        final(entries)@ == pushed_capped(old(entries)@, item, cap),
{
    entries.push(item);
    if entries.len() > cap {
        entries.remove(0);
    }
}

// ── Addresses ──

/// Lowercase hexadecimal digit of `d` (0 to 15).
pub open spec fn hex_digit(d: int) -> char {
    if d < 10 {
        ('0' as int + d) as char
    } else {
        ('a' as int + d - 10) as char
    }
}

/// Lowercase hexadecimal text of `bytes`: two digits per byte, high nibble
/// first.
pub open spec fn hex_lower(bytes: Seq<u8>) -> Seq<char>
    decreases bytes.len(),
{
    if bytes.len() == 0 {
        Seq::empty()
    } else {
        hex_lower(bytes.drop_last()) + seq![hex_digit(bytes.last() as int / 16), hex_digit(bytes.last() as int % 16)]
    }
}

/// `hex::encode`: the bytes as lowercase hexadecimal, two digits per byte,
/// high nibble first (as its documentation and its table-driven encoder
/// show).
#[verifier::external_body]
fn hex_encode(bytes: &[u8]) -> (s: String)
    ensures
        s@ == hex_lower(bytes@),
{
    hex::encode(bytes)
}

/// The EVM address text of 20 address bytes: "0x" and their lowercase
/// hexadecimal.
pub fn evm_address(bytes: &[u8; 20]) -> (s: String)
    ensures
        s@ == "0x"@ + hex_lower(bytes@),
{
    let hex: String = hex_encode(bytes.as_slice());
    String::from_str("0x").concat(hex.as_str())
}


// ── Laws ──

/// An attack moves energy and DFT from defender to attacker and creates
/// none: on success the two sides together hold what they held before,
/// minus the attacker's energy cost.
pub proof fn lemma_attack_conserves(
    attacker: Civilization,
    target: Civilization,
    current_time: u128,
    bonus: u128,
    eff_weapon: u128,
    eff_shield: u128,
)
    requires
        attacker.attack_target_fits(target, current_time, bonus, eff_weapon, eff_shield),
    ensures
        ({
            let (r, a, t) = attacker.attack_spec(target, current_time, bonus, eff_weapon, eff_shield);
            r is Success ==> {
                &&& a.energy + t.energy == attacker.energy + target.energy - attack_energy_cost(
                    attacker.weapon_lv as int,
                )
                &&& a.dft + t.dft == attacker.dft + target.dft
                &&& a.total_plundered - attacker.total_plundered == target.energy - t.energy
                &&& a.total_dft_earned - attacker.total_dft_earned == target.dft - t.dft
            }
        }),
{
    let (r, a, t) = attacker.attack_spec(target, current_time, bonus, eff_weapon, eff_shield);
    if r is Success {
        let dft = Civilization::dft_taken(target.dft);
        assert(0 <= dft <= target.dft) by (nonlinear_arith)
            requires
                dft == target.dft * 2000 / 10000,
                target.dft >= 0,
        ;
        let res = attack_outcome(
            eff_weapon as int,
            eff_shield as int,
            target.energy as int,
            target.health as int,
            target.shield_hp as int,
            bonus as int,
        );
        let steal = Civilization::energy_taken(res, target.energy);
        assert(0 <= steal <= target.energy);
    }
}

/// Only a successful attack touches the defender; every refusal leaves it
/// as it was.
pub proof fn lemma_refused_attack_spares_target(
    attacker: Civilization,
    target: Civilization,
    current_time: u128,
    bonus: u128,
    eff_weapon: u128,
    eff_shield: u128,
)
    ensures
        ({
            let (r, a, t) = attacker.attack_spec(target, current_time, bonus, eff_weapon, eff_shield);
            !(r is Success) ==> t == target
        }),
{
}

/// An upgrade raises the chosen system by exactly one level and leaves the
/// other systems' levels as they were.
pub proof fn lemma_upgrade_raises_one_level(civ: Civilization, name: Seq<char>, post_scarcity: bool)
    requires
        system_id(name) is Some,
        civ.level_of(system_id(name).unwrap()) + 1 <= u128::MAX,
    ensures
        ({
            let id = system_id(name).unwrap();
            let up = civ.upgraded(name, post_scarcity);
            &&& up.level_of(id) == civ.level_of(id) + 1
            &&& forall|other: nat| other < 5 && other != id ==> #[trigger] up.level_of(other) == civ.level_of(other)
            &&& up.level_sum() == civ.level_sum() + 1
        }),
{
}

/// Collecting twice at the same time collects once.
pub proof fn lemma_collect_idempotent(civ: Civilization, current_time: u128, rate: u128)
    ensures
        civ.collected(current_time, rate).collected(current_time, rate) == civ.collected(current_time, rate),
{
}

/// Regeneration never lifts the tokens above the larger of what was held
/// and the bucket size.
pub proof fn lemma_regen_bounded(civ: Civilization, current_time: u128)
    ensures
        civ.regenerated(current_time).attack_tokens <= civ.attack_tokens || civ.regenerated(
            current_time,
        ).attack_tokens <= max_tokens(civ.weapon_lv as int),
{
}

/// A rebuilt civilization stands again and keeps its levels.
pub proof fn lemma_rebuild_restores(civ: Civilization, is_post_scarcity: bool)
    requires
        civ.rebuild_allowed(is_post_scarcity),
        civ.rebuild_fits(is_post_scarcity),
    ensures
        !civ.rebuilt(is_post_scarcity).is_ruins,
        civ.rebuilt(is_post_scarcity).level_sum() == civ.level_sum(),
        civ.rebuilt(is_post_scarcity).total_rebuilds == civ.total_rebuilds + 1,
{
}

/// An attack is refused as one within an alliance only when both sides
/// belong to an alliance and the two alliance names are equal; two players
/// without an alliance, or with different ones, are never refused on that
/// ground.
pub proof fn lemma_same_alliance_refusal(
    attacker: Civilization,
    target: Civilization,
    current_time: u128,
    bonus: u128,
    eff_weapon: u128,
    eff_shield: u128,
)
    ensures
        attacker.attack_spec(target, current_time, bonus, eff_weapon, eff_shield).0 is SameAlliance ==> {
            &&& attacker.alliance_id is Some
            &&& target.alliance_id is Some
            &&& attacker.alliance_id.unwrap()@ == target.alliance_id.unwrap()@
        },
{
}

/// Two standing civilizations, a defender past its newbie protection, no
/// alliance shared, the energy cost at hand and a token in the bucket: the
/// attack goes through.
pub proof fn lemma_open_attack_succeeds(
    attacker: Civilization,
    target: Civilization,
    current_time: u128,
    bonus: u128,
    eff_weapon: u128,
    eff_shield: u128,
)
    requires
        !attacker.is_ruins,
        !target.is_ruins,
        current_time >= target.creation_time + NEWBIE_PROTECTION,
        !(attacker.alliance_id is Some && target.alliance_id is Some && attacker.alliance_id.unwrap()@
            == target.alliance_id.unwrap()@),
        attacker.energy >= attack_energy_cost(attacker.weapon_lv as int),
        attacker.attack_tokens >= 1,
    ensures
        attacker.attack_spec(target, current_time, bonus, eff_weapon, eff_shield).0 is Success,
{
    assert(!same_alliance(attacker.alliance_id, target.alliance_id));
    assert(max_tokens(attacker.weapon_lv as int) >= 1);
}

/// What a successful attack does: the combat formula runs on the
/// effective levels, the defender's shield and health and the bonus; the
/// defender keeps the remaining shield and health, loses the plundered
/// energy (at most what it holds) and a fifth of its DFT (rounded down),
/// falls into ruins and leaves its alliance exactly when destroyed, and
/// wears one point of shield durability; the attacker counts one more
/// attack, one more win in a row and no losses in a row.
pub proof fn lemma_successful_attack_effects(
    attacker: Civilization,
    target: Civilization,
    current_time: u128,
    bonus: u128,
    eff_weapon: u128,
    eff_shield: u128,
)
    requires
        attacker.attack_target_fits(target, current_time, bonus, eff_weapon, eff_shield),
    ensures
        ({
            let (r, a, t) = attacker.attack_spec(target, current_time, bonus, eff_weapon, eff_shield);
            r matches AttackOutcome::Success(res) ==> {
                &&& res == attack_outcome(
                    eff_weapon as int,
                    eff_shield as int,
                    target.energy as int,
                    target.health as int,
                    target.shield_hp as int,
                    bonus as int,
                )
                &&& t.shield_hp == res.remaining_shield
                &&& t.health == res.remaining_health
                &&& target.energy - t.energy == (if res.stolen_energy < target.energy {
                    res.stolen_energy
                } else {
                    target.energy
                })
                &&& target.dft - t.dft == target.dft * 2000 / 10000
                &&& t.is_ruins == res.defender_destroyed
                &&& (res.defender_destroyed ==> t.alliance_id is None && t.total_deaths == target.total_deaths + 1)
                &&& (!res.defender_destroyed ==> t.alliance_id == target.alliance_id && t.total_deaths
                    == target.total_deaths)
                &&& t.shield_durability == (if target.shield_durability > 0 {
                    target.shield_durability - 1
                } else {
                    0
                })
                &&& a.total_attacks == attacker.total_attacks + 1
                &&& a.consecutive_wins == attacker.consecutive_wins + 1
                &&& a.consecutive_losses == 0
            }
        }),
{
    let (r, a, t) = attacker.attack_spec(target, current_time, bonus, eff_weapon, eff_shield);
    if r is Success {
        let dft = Civilization::dft_taken(target.dft);
        assert(0 <= dft <= target.dft) by (nonlinear_arith)
            requires
                dft == target.dft * 2000 / 10000,
                target.dft >= 0,
        ;
        let res = attack_outcome(
            eff_weapon as int,
            eff_shield as int,
            target.energy as int,
            target.health as int,
            target.shield_hp as int,
            bonus as int,
        );
        let steal = Civilization::energy_taken(res, target.energy);
        assert(0 <= steal <= target.energy);
    }
}

/// An upgrade costs exactly its prices: the upgrade's DFT cost for the
/// level (nothing after post-scarcity, when the DFT stays), counted as DFT
/// spent, and its energy cost for the level (three times that after
/// post-scarcity).
pub proof fn lemma_upgrade_pays(
    civ: Civilization,
    name: Seq<char>,
    post_scarcity: bool,
    min_reserve: u128,
    burnt_out: bool,
)
    requires
        civ.upgrade_allowed(name, post_scarcity, min_reserve, burnt_out),
        civ.upgrade_fits(name, post_scarcity, min_reserve, burnt_out),
    ensures
        ({
            let lv = civ.level_of(system_id(name).unwrap()) as int;
            let up = civ.upgraded(name, post_scarcity);
            &&& !post_scarcity ==> civ.dft - up.dft == upgrade_cost(name, lv) && up.total_dft_spent
                == civ.total_dft_spent + upgrade_cost(name, lv)
            &&& post_scarcity ==> up.dft == civ.dft && up.total_dft_spent == civ.total_dft_spent
            &&& !post_scarcity ==> civ.energy - up.energy == upgrade_energy(name, lv)
            &&& post_scarcity ==> civ.energy - up.energy == 3 * upgrade_energy(name, lv)
        }),
{
    let lv = civ.level_of(system_id(name).unwrap()) as int;
    assert(Civilization::kept_reserve(min_reserve, burnt_out) >= 0);
    assert(upgrade_cost(name, lv) >= 0) by {
        lemma_upgrade_cost_nonneg(name, lv);
    }
    let id: nat = match system_id(name) {
        Some(i) => i,
        None => 0,
    };
    let m = energy_multiplier(id);
    assert(m >= 1);
    assert(200 * m * (100 + lv * 50) / 100 >= 0) by (nonlinear_arith)
        requires
            m >= 1,
            lv >= 0,
    ;
}

/// Upgrading a broken shield (no hit points left) brings it to the new
/// level's full strength.
pub proof fn lemma_broken_shield_upgrade_restores(civ: Civilization, name: Seq<char>, post_scarcity: bool)
    requires
        system_id(name) == Some(2nat),
        civ.shield_hp == 0,
        shield_hp_value(civ.shield_lv + 1) <= u128::MAX,
    ensures
        civ.upgraded(name, post_scarcity).shield_hp == shield_hp_value(civ.shield_lv + 1),
{
    let lv = civ.shield_lv as int;
    assert(shield_hp_value(lv + 1) > 0) by (nonlinear_arith)
        requires
            lv >= 0,
    ;
}

/// A shield upgrade keeps the shield's share of its maximum: the hit points
/// are rescaled from the old level's maximum to the new one, rounding down.
/// An upgrade repairs nothing: a damaged shield stays below its new maximum.
pub proof fn lemma_shield_upgrade_rescales(civ: Civilization, name: Seq<char>, post_scarcity: bool)
    requires
        system_id(name) == Some(2nat),
        civ.shield_hp > 0,
        civ.shield_hp * shield_hp_value(civ.shield_lv + 1) <= u128::MAX,
    ensures
        civ.upgraded(name, post_scarcity).shield_hp == civ.shield_hp * shield_hp_value(civ.shield_lv + 1)
            / shield_hp_value(civ.shield_lv as int),
        civ.shield_hp < shield_hp_value(civ.shield_lv as int) ==> civ.upgraded(name, post_scarcity).shield_hp
            < shield_hp_value(civ.shield_lv + 1),
{
    let lv = civ.shield_lv as int;
    let hp = civ.shield_hp as int;
    let old_max = shield_hp_value(lv);
    let new_max = shield_hp_value(lv + 1);
    assert(old_max >= 3600 && new_max >= 3600) by (nonlinear_arith)
        requires
            lv >= 0,
            old_max == 3600 + 15 * lv * lv,
            new_max == 3600 + 15 * (lv + 1) * (lv + 1),
    ;
    assert(0 <= hp * new_max / old_max <= hp * new_max) by (nonlinear_arith)
        requires
            hp > 0,
            new_max > 0,
            old_max > 0,
    ;
    if hp < old_max {
        assert(hp * new_max / old_max < new_max) by (nonlinear_arith)
            requires
                0 < hp < old_max,
                new_max > 0,
        ;
    }
}

/// A collector upgrade keeps the collector's share of its durability: the
/// durability is rescaled from the old level's maximum to the new one,
/// rounding down, so a worn collector stays worn.
pub proof fn lemma_collector_upgrade_rescales(civ: Civilization, name: Seq<char>, post_scarcity: bool)
    requires
        system_id(name) == Some(0nat),
        civ.collector_durability > 0,
        civ.collector_durability * per_level(DURABILITY_BASE as int, DURABILITY_PER_LV as int, civ.collector_lv + 1)
            <= u128::MAX,
    ensures
        civ.upgraded(name, post_scarcity).collector_durability == civ.collector_durability * per_level(
            DURABILITY_BASE as int,
            DURABILITY_PER_LV as int,
            civ.collector_lv + 1,
        ) / per_level(DURABILITY_BASE as int, DURABILITY_PER_LV as int, civ.collector_lv as int),
        civ.collector_durability < per_level(DURABILITY_BASE as int, DURABILITY_PER_LV as int, civ.collector_lv as int)
            ==> civ.upgraded(name, post_scarcity).collector_durability < per_level(
            DURABILITY_BASE as int,
            DURABILITY_PER_LV as int,
            civ.collector_lv + 1,
        ),
{
    let lv = civ.collector_lv as int;
    let d = civ.collector_durability as int;
    let old_max = per_level(DURABILITY_BASE as int, DURABILITY_PER_LV as int, lv);
    let new_max = per_level(DURABILITY_BASE as int, DURABILITY_PER_LV as int, lv + 1);
    assert(old_max >= 86400 && new_max >= 86400);
    assert(0 <= d * new_max / old_max <= d * new_max) by (nonlinear_arith)
        requires
            d > 0,
            new_max > 0,
            old_max > 0,
    ;
    if d < old_max {
        assert(d * new_max / old_max < new_max) by (nonlinear_arith)
            requires
                0 < d < old_max,
                new_max > 0,
        ;
    }
}

} // verus!
