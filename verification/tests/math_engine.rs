use dark_forest::math_engine::{
    calc_attack, calc_attack_energy_cost, calc_collect, calc_defense, calc_jump_dft_cost,
    calc_jump_energy_cost, calc_max_durability, calc_max_system_dur, calc_max_tokens, calc_radar,
    calc_shield_hp, calc_shield_regen, calc_speed, calc_token_regen_interval, calc_upgrade_cost,
    calc_upgrade_energy, distance, is_in_range, isqrt, lookup_system, simulate_attack, str_eq,
    GlobalState, TOTAL_SUPPLY, UP_A_COLLECTOR, UP_B_COLLECTOR,
};

#[test]
fn test_isqrt() {
    assert_eq!(isqrt(0), 0);
    assert_eq!(isqrt(1), 1);
    assert_eq!(isqrt(4), 2);
    assert_eq!(isqrt(9), 3);
    assert_eq!(isqrt(100), 10);
    assert_eq!(isqrt(144), 12);
    assert_eq!(isqrt(1000000), 1000);
}

#[test]
fn test_upgrade_cost() {
    let c = calc_upgrade_cost("collector", 1);
    assert_eq!(c, UP_A_COLLECTOR * 1 * (1 + UP_B_COLLECTOR) / 100);
}

#[test]
fn test_attack() {
    let r = simulate_attack(1, 1, 10000, 3000, 3600, 0);
    assert!(r.attacker_energy_cost > 0);
}

#[test]
fn isqrt_rounds_down_and_handles_the_full_range() {
    assert_eq!(isqrt(2), 1);
    assert_eq!(isqrt(15), 3);
    assert_eq!(isqrt(16), 4);
    assert_eq!(isqrt(999_999), 999);
    assert_eq!(isqrt(u64::MAX as u128), 4_294_967_295);
    assert_eq!(isqrt(1u128 << 100), 1u128 << 50);
    assert_eq!(isqrt(u128::MAX), u64::MAX as u128);
}

#[test]
fn upgrade_costs_per_system() {
    assert_eq!(calc_upgrade_cost("collector", 1), 3_600_000_000_000_000_000);
    assert_eq!(calc_upgrade_cost("weapon", 2), 22_400_000_000_000_000_000);
    assert_eq!(calc_upgrade_cost("shield", 3), 21_600_000_000_000_000_000);
    assert_eq!(calc_upgrade_cost("radar", 1), 7_680_000_000_000_000_000);
    assert_eq!(calc_upgrade_cost("engine", 10), 86_400_000_000_000_000_000);
    assert_eq!(calc_upgrade_cost("laser", 5), 0);
}

#[test]
fn upgrade_cost_grows_with_level() {
    let mut prev = 0;
    for lv in 1..50u128 {
        let c = calc_upgrade_cost("weapon", lv);
        assert!(c >= prev);
        prev = c;
    }
}

#[test]
fn upgrade_energy_per_system() {
    assert_eq!(calc_upgrade_energy("collector", 1), 300);
    assert_eq!(calc_upgrade_energy("weapon", 2), 800);
    assert_eq!(calc_upgrade_energy("engine", 4), 9600);
    assert_eq!(calc_upgrade_energy("unknown", 1), 300);
}

#[test]
fn combat_values() {
    assert_eq!(calc_attack(3), 990);
    assert_eq!(calc_defense(3), 594);
    assert_eq!(calc_shield_hp(2), 3660);
    assert_eq!(calc_shield_regen(5), 75);
    assert_eq!(calc_radar(2), 1320);
    assert_eq!(calc_attack(0), 900);
}

#[test]
fn per_level_values() {
    assert_eq!(calc_speed(0), 10);
    assert_eq!(calc_speed(1), 10);
    assert_eq!(calc_speed(5), 30);
    assert_eq!(calc_max_durability(1), 86400);
    assert_eq!(calc_max_durability(3), 100_800);
    assert_eq!(calc_max_system_dur(1, 3), 700);
    assert_eq!(calc_max_system_dur(2, 2), 432_000);
    assert_eq!(calc_max_system_dur(4, 1), 50);
    assert_eq!(calc_max_system_dur(0, 5), 0);
    assert_eq!(calc_max_system_dur(3, 5), 0);
}

#[test]
fn collect_rate_values() {
    assert_eq!(calc_collect(1, 0), 3);
    assert_eq!(calc_collect(5, 0), 23);
    assert_eq!(calc_collect(5, 500), 46);
    assert_eq!(calc_collect(10, 3), 33);
}

#[test]
fn attack_cost_and_tokens() {
    assert_eq!(calc_attack_energy_cost(2), 5000);
    assert_eq!(calc_token_regen_interval(0), 300);
    assert_eq!(calc_token_regen_interval(5), 250);
    assert_eq!(calc_token_regen_interval(25), 100);
    assert_eq!(calc_token_regen_interval(100), 100);
    assert_eq!(calc_max_tokens(0), 3);
    assert_eq!(calc_max_tokens(25), 5);
    assert_eq!(calc_max_tokens(200), 10);
}

#[test]
fn jump_costs_are_capped() {
    assert_eq!(calc_jump_energy_cost(0), 5000);
    assert_eq!(calc_jump_energy_cost(4), 15000);
    assert_eq!(calc_jump_energy_cost(1_000_000), 150_000);
    assert_eq!(calc_jump_dft_cost(9), 12000);
    assert_eq!(calc_jump_dft_cost(1_000_000), 100_000);
    let mut prev = 0;
    for j in 0..2000u128 {
        let c = calc_jump_energy_cost(j);
        assert!(c >= prev && c <= 150_000);
        prev = c;
    }
}

#[test]
fn attack_that_the_shield_absorbs() {
    let r = simulate_attack(1, 1, 10000, 3000, 3600, 0);
    assert_eq!(r.shield_dmg, 564);
    assert_eq!(r.health_dmg, 728);
    assert_eq!(r.remaining_shield, 3036);
    assert_eq!(r.remaining_health, 2272);
    assert_eq!(r.stolen_energy, 0);
    assert!(!r.defender_destroyed);
    assert_eq!(r.attacker_energy_cost, 3000);
}

#[test]
fn attack_that_destroys_and_plunders() {
    let r = simulate_attack(10, 1, 10000, 100, 0, 0);
    assert_eq!(r.shield_dmg, 0);
    assert_eq!(r.health_dmg, 7370);
    assert_eq!(r.remaining_shield, 0);
    assert_eq!(r.remaining_health, 0);
    assert!(r.defender_destroyed);
    assert_eq!(r.stolen_energy, 1500);
    assert_eq!(r.attacker_energy_cost, 21000);
}

#[test]
fn defense_equal_to_attack_plus_bonus_stops_all_damage() {
    let r = simulate_attack(2, 2, 10000, 3000, 3600, 72);
    assert_eq!(r.shield_dmg, 0);
    assert_eq!(r.health_dmg, 0);
    assert_eq!(r.remaining_shield, 3600);
    assert_eq!(r.remaining_health, 3000);
    assert!(!r.defender_destroyed);
}

#[test]
fn stronger_weapon_hits_harder() {
    let weak = simulate_attack(2, 3, 5000, 3000, 1000, 1);
    let strong = simulate_attack(9, 3, 5000, 3000, 1000, 1);
    assert!(strong.remaining_health <= weak.remaining_health);
    assert!(strong.health_dmg >= weak.health_dmg);
}

#[test]
fn distance_values() {
    assert_eq!(distance(0, 0, 0, 3, 4, 0), 5);
    assert_eq!(distance(-3, 0, 0, 0, 4, 0), 5);
    assert_eq!(distance(1, 2, 3, 1, 2, 3), 0);
    assert_eq!(distance(0, 0, 0, 10, 10, 10), 17);
    assert_eq!(distance(i128::MIN, 0, 0, i128::MAX, 0, 0), u128::MAX);
    assert_eq!(distance(7, -2, 9, -4, 5, 1), distance(-4, 5, 1, 7, -2, 9));
}

#[test]
fn range_check() {
    assert!(is_in_range(0, 0, 0, 3, 4, 0, 5));
    assert!(!is_in_range(0, 0, 0, 3, 4, 0, 4));
}

#[test]
fn global_state_tracks_scarcity_and_supply() {
    let mut g = GlobalState::new();
    assert_eq!(g.total_minted, 0);
    assert!(!g.is_post_scarcity());
    assert!(g.can_mint());
    g.update(1000, 969);
    assert!(!g.is_post_scarcity());
    g.update(1000, 970);
    assert!(g.is_post_scarcity());
    g.update(0, 0);
    assert!(g.is_post_scarcity());
    g.update(TOTAL_SUPPLY, 0);
    assert!(g.supply_exhausted);
    assert!(!g.can_mint());
    assert!(!g.is_post_scarcity());
}

#[test]
fn system_names() {
    assert_eq!(lookup_system("collector"), Some(0));
    assert_eq!(lookup_system("engine"), Some(4));
    assert_eq!(lookup_system("Engine"), None);
    assert!(str_eq("radar", "radar"));
    assert!(!str_eq("radar", "rada"));
}
