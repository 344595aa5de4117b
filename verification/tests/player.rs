use dark_forest::player::{
    evm_address, find_entry, push_capped, AttackOutcome, Civilization, INVITEE_DFT_BONUS,
    INVITER_DFT_REWARD,
};

const DAY: u128 = 86_400;
const E18: u128 = 1_000_000_000_000_000_000;

fn civ(id: &str, creation_time: u128) -> Civilization {
    Civilization::new(
        id.to_string(),
        "0x00".to_string(),
        format!("farmer_{}", id),
        1,
        "farmer",
        creation_time,
        creation_time,
        creation_time,
        3,
    )
}

#[test]
fn new_civilization_starts_at_level_one() {
    let c = civ("p1", 10);
    assert_eq!(c.energy, 2000);
    assert_eq!(c.health, 3000);
    assert_eq!(c.shield_hp, 3615);
    assert_eq!(c.total_level(), 5);
    assert_eq!(c.attack_tokens, 3);
    assert_eq!(c.collector_durability, 86_400);
    assert_eq!(c.invites_remaining, 3);
    assert!(!c.is_ruins);
    assert!(!c.is_quit());
    assert_eq!(c.shield_percent(), 100);
    assert_eq!(c.scan_range(), 1155);
    assert_eq!(c.token_regen_interval(), 290);
}

#[test]
fn newbie_protection_lasts_a_day() {
    let c = civ("p1", 1000);
    assert!(c.is_newbie(1000));
    assert!(c.is_newbie(1000 + DAY - 1));
    assert!(!c.is_newbie(1000 + DAY));
    assert!(c.is_newbie(0));
}

#[test]
fn collecting_is_bounded_by_durability_and_idempotent() {
    let mut c = civ("p1", 0);
    c.collect_energy(100, false, 3);
    assert_eq!(c.energy, 2300);
    assert_eq!(c.collector_durability, 86_300);
    assert_eq!(c.total_energy_collected, 300);
    assert_eq!(c.last_collect_time, 100);
    c.collect_energy(100, false, 3);
    assert_eq!(c.energy, 2300);
    assert_eq!(c.total_energy_collected, 300);
    c.collector_durability = 50;
    c.collect_energy(1100, true, 3);
    assert_eq!(c.energy, 2450);
    assert_eq!(c.collector_durability, 0);
    assert_eq!(c.last_collect_time, 1100);
    c.collect_energy(2000, true, 3);
    assert_eq!(c.energy, 2450);
    assert_eq!(c.last_collect_time, 2000);
}

#[test]
fn ruins_collect_nothing() {
    let mut c = civ("p1", 0);
    c.is_ruins = true;
    c.collect_energy(100, false, 3);
    assert_eq!(c.energy, 2000);
    assert_eq!(c.last_collect_time, 0);
}

#[test]
fn tokens_regenerate_up_to_the_bucket() {
    let mut c = civ("p1", 0);
    c.attack_tokens = 0;
    c.regen_tokens(5);
    assert_eq!(c.attack_tokens, 2);
    assert_eq!(c.last_token_time, 5);
    c.regen_tokens(6);
    assert_eq!(c.attack_tokens, 2);
    assert_eq!(c.last_token_time, 5);
    c.regen_tokens(1000);
    assert_eq!(c.attack_tokens, 3);
}

#[test]
fn upgrade_pays_and_rescales_durability() {
    let mut c = civ("p1", 0);
    c.dft = 10 * E18;
    c.energy = 10_000;
    let (ok, paid) = c.try_upgrade("collector", 0, false, 0, false);
    assert!(ok);
    assert_eq!(paid, 3_600_000_000_000_000_000);
    assert_eq!(c.collector_lv, 2);
    assert_eq!(c.energy, 9700);
    assert_eq!(c.dft, 10 * E18 - paid);
    assert_eq!(c.total_dft_spent, paid);
    assert_eq!(c.collector_durability, 93_600);
}

#[test]
fn shield_upgrade_rescales_hit_points() {
    let mut c = civ("p1", 0);
    c.dft = 100 * E18;
    c.energy = 10_000;
    c.shield_hp = 3615;
    let (ok, _) = c.try_upgrade("shield", 0, false, 0, false);
    assert!(ok);
    assert_eq!(c.shield_lv, 2);
    assert_eq!(c.shield_hp, 3660);
}

#[test]
fn refused_upgrades_change_nothing() {
    let mut c = civ("p1", 0);
    let (ok, paid) = c.try_upgrade("weapon", 0, false, 0, false);
    assert!(!ok);
    assert_eq!(paid, 0);
    assert_eq!(c.weapon_lv, 1);
    assert_eq!(c.energy, 2000);
    c.dft = 100 * E18;
    assert_eq!(c.try_upgrade("laser", 0, false, 0, false), (false, 0));
    c.is_ruins = true;
    assert_eq!(c.try_upgrade("weapon", 0, false, 0, false), (false, 0));
}

#[test]
fn burnout_halves_the_energy_reserve() {
    let mut c = civ("p1", 0);
    c.dft = 100 * E18;
    c.energy = 400;
    assert_eq!(c.try_upgrade("collector", 0, false, 200, false), (false, 0));
    let (ok, _) = c.try_upgrade("collector", 0, false, 200, true);
    assert!(ok);
    assert_eq!(c.energy, 100);
}

#[test]
fn post_scarcity_upgrades_cost_energy_only() {
    let mut c = civ("p1", 0);
    c.energy = 1000;
    let (ok, paid) = c.try_upgrade("collector", 0, true, 0, false);
    assert!(ok);
    assert_eq!(paid, 0);
    assert_eq!(c.dft, 0);
    assert_eq!(c.energy, 100);
}

#[test]
fn upgrade_rounds_follow_the_plan() {
    let mut c = civ("p1", 0);
    c.dft = 100 * E18;
    c.energy = 10_000;
    let plan = ["weapon", "collector"];
    let burned = c.upgrade_rounds(&plan, 3, 0, false, 0, false);
    assert_eq!(c.weapon_lv, 4);
    assert_eq!(c.collector_lv, 1);
    assert_eq!(burned, 68_800_000_000_000_000_000);
    assert_eq!(c.dft, 100 * E18 - burned);
    assert_eq!(c.energy, 7600);
}

#[test]
fn upgrade_rounds_stop_when_nothing_is_affordable() {
    let mut c = civ("p1", 0);
    c.dft = 11 * E18;
    c.energy = 10_000;
    let plan = ["weapon", "collector"];
    let burned = c.upgrade_rounds(&plan, 20, 0, false, 0, false);
    assert_eq!(burned, 10_400_000_000_000_000_000);
    assert_eq!(c.weapon_lv, 2);
    assert_eq!(c.collector_lv, 1);
}

fn duel() -> (Civilization, Civilization) {
    let mut a = civ("att", 0);
    let mut t = civ("def", 0);
    a.energy = 10_000;
    t.dft = 1000;
    a.alliance_id = Some("A_0000".to_string());
    t.alliance_id = Some("A_0001".to_string());
    (a, t)
}

#[test]
fn successful_attack_moves_resources() {
    let (mut a, mut t) = duel();
    let now = 200_000;
    let out = a.attack_target(&mut t, now, 0, 1, 1);
    match out {
        AttackOutcome::Success(r) => {
            assert_eq!(r.shield_dmg, 564);
            assert!(!r.defender_destroyed);
        }
        _ => panic!("expected a successful attack"),
    }
    assert_eq!(a.energy, 7000);
    assert_eq!(a.attack_tokens, 2);
    assert_eq!(a.total_attacks, 1);
    assert_eq!(a.dft, 200);
    assert_eq!(a.total_dft_earned, 200);
    assert_eq!(a.consecutive_wins, 1);
    assert_eq!(t.shield_hp, 3051);
    assert_eq!(t.health, 2272);
    assert_eq!(t.dft, 800);
    assert_eq!(t.shield_durability, 259_199);
    assert!(!t.is_ruins);
    assert_eq!(a.dft + t.dft, 1000);
}

#[test]
fn destroying_attack_plunders_and_dissolves_membership() {
    let (mut a, mut t) = duel();
    t.health = 100;
    t.shield_hp = 0;
    t.energy = 10_000;
    a.energy = 30_000;
    let out = a.attack_target(&mut t, 200_000, 0, 10, 1);
    assert!(matches!(out, AttackOutcome::Success(_)));
    assert!(t.is_ruins);
    assert!(t.alliance_id.is_none());
    assert_eq!(t.total_deaths, 1);
    assert_eq!(a.total_victims, 1);
    assert_eq!(t.energy, 8500);
    assert_eq!(a.energy, 30_000 - 3000 + 1500);
    assert_eq!(a.total_plundered, 1500);
}

#[test]
fn refused_attacks_leave_the_target_alone() {
    let (mut a, mut t) = duel();
    assert!(matches!(a.attack_target(&mut t, 1000, 0, 1, 1), AttackOutcome::NewbieProtected));
    t.alliance_id = a.alliance_id.clone();
    assert!(matches!(a.attack_target(&mut t, 200_000, 0, 1, 1), AttackOutcome::SameAlliance));
    t.alliance_id = None;
    a.energy = 100;
    assert!(matches!(a.attack_target(&mut t, 200_000, 0, 1, 1), AttackOutcome::LowEnergy));
    a.is_ruins = true;
    a.energy = 10_000;
    assert!(matches!(a.attack_target(&mut t, 200_000, 0, 1, 1), AttackOutcome::Fail));
    assert_eq!(t.health, 3000);
    assert_eq!(t.shield_hp, 3615);
    assert_eq!(t.dft, 1000);
}

#[test]
fn attack_without_tokens_is_rate_limited_after_paying() {
    let (mut a, mut t) = duel();
    a.attack_tokens = 0;
    a.last_token_time = 200_000;
    let out = a.attack_target(&mut t, 200_000, 0, 1, 1);
    assert!(matches!(out, AttackOutcome::RateLimited));
    assert_eq!(a.energy, 7000);
    assert_eq!(t.health, 3000);
}

#[test]
fn rebuild_restores_ruins() {
    let mut c = civ("p1", 0);
    c.is_ruins = true;
    c.dft = 60 * E18;
    c.energy = 6000;
    c.last_collect_time = 5000;
    assert!(c.try_rebuild(false));
    assert!(!c.is_ruins);
    assert_eq!(c.dft, 10 * E18);
    assert_eq!(c.energy, 1000);
    assert_eq!(c.health, 10_000);
    assert_eq!(c.shield_hp, 903);
    assert_eq!(c.collector_durability, 21_600);
    assert_eq!(c.creation_time, 5000);
    assert_eq!(c.total_rebuilds, 1);
    assert_eq!(c.rebirth_count, 0);
}

#[test]
fn high_level_rebuild_counts_a_rebirth() {
    let mut c = civ("p1", 0);
    c.is_ruins = true;
    c.collector_lv = 10;
    c.weapon_lv = 10;
    c.shield_lv = 10;
    c.radar_lv = 10;
    c.engine_lv = 10;
    c.energy = 15_000;
    assert!(c.try_rebuild(true));
    assert_eq!(c.rebirth_count, 1);
    assert_eq!(c.energy, 0);
}

#[test]
fn refused_rebuilds_change_nothing() {
    let mut c = civ("p1", 0);
    assert!(!c.try_rebuild(true));
    c.is_ruins = true;
    c.energy = 100_000;
    assert!(!c.try_rebuild(false));
    assert_eq!(c.energy, 100_000);
    assert!(c.is_ruins);
}

#[test]
fn day_counters_reset_streaks_after_ten_idle_days() {
    let mut c = civ("p1", 0);
    c.consecutive_wins = 4;
    c.days_since_last_attack = 9;
    c.daily_counters(3);
    assert_eq!(c.days_since_last_attack, 10);
    assert_eq!(c.consecutive_wins, 4);
    assert_eq!(c.last_quit_check, 3);
    c.daily_counters(4);
    assert_eq!(c.days_since_last_attack, 11);
    assert_eq!(c.consecutive_wins, 0);
    assert_eq!(c.days_since_last_death, 2);
}

#[test]
fn quitters_in_ruins_can_come_back() {
    let mut c = civ("p1", 0);
    assert!(!c.return_from_quit());
    c.quit_day = Some(7);
    c.is_ruins = true;
    c.energy = 5;
    assert!(c.return_from_quit());
    assert!(c.quit_day.is_none());
    assert!(!c.is_ruins);
    assert_eq!(c.energy, 2000);
    assert_eq!(c.health, 10_000);
    assert_eq!(c.total_rebuilds, 1);
}

#[test]
fn shield_regenerates_for_energy() {
    let mut c = civ("p1", 0);
    c.shield_hp = 100;
    c.regen_shield();
    assert_eq!(c.shield_hp, 712);
    assert_eq!(c.energy, 1388);
    c.shield_hp = 3500;
    c.regen_shield();
    assert_eq!(c.shield_hp, 3615);
    c.shield_hp = 0;
    c.regen_shield();
    assert_eq!(c.shield_hp, 0);
    c.shield_hp = 100;
    c.energy = 10;
    c.regen_shield();
    assert_eq!(c.shield_hp, 100);
}

#[test]
fn invitations_pay_the_inviter() {
    let mut c = civ("p1", 0);
    assert!(c.use_invite());
    assert_eq!(c.invites_remaining, 2);
    assert_eq!(c.referral_count, 1);
    assert_eq!(c.dft, INVITER_DFT_REWARD);
    assert_eq!(c.energy, 3000);
    c.invites_remaining = 0;
    assert!(!c.use_invite());
    assert_eq!(c.referral_count, 1);
    let mut n = civ("p2", 0);
    n.receive_invite_bonus();
    assert_eq!(n.dft, INVITEE_DFT_BONUS);
    n.receive_emission(5);
    assert_eq!(n.dft, INVITEE_DFT_BONUS + 5);
    assert_eq!(n.total_dft_earned, 5);
}

#[test]
fn targeting_rules() {
    let (a, mut t) = duel();
    assert!(!a.can_target(&a, 200_000));
    assert!(a.can_target(&t, 200_000));
    assert!(!a.can_target(&t, 100));
    t.quit_day = Some(1);
    assert!(!a.can_target(&t, 200_000));
}

#[test]
fn social_list_helpers() {
    let mut list: Vec<(String, f64)> = vec![("a".to_string(), 0.1), ("b".to_string(), 0.2)];
    assert_eq!(find_entry(&list, "b"), Some(1));
    assert_eq!(find_entry(&list, "c"), None);
    push_capped(&mut list, ("c".to_string(), 0.3), 2);
    assert_eq!(list.len(), 2);
    assert_eq!(list[0].0, "b");
    assert_eq!(list[1].0, "c");
    push_capped(&mut list, ("d".to_string(), 0.4), 5);
    assert_eq!(list.len(), 3);
}

#[test]
fn evm_addresses_are_lowercase_hex() {
    let zero = evm_address(&[0u8; 20]);
    assert_eq!(zero, format!("0x{}", "0".repeat(40)));
    let mut bytes = [0u8; 20];
    bytes[0] = 0xab;
    bytes[19] = 0x0f;
    let a = evm_address(&bytes);
    assert_eq!(a.len(), 42);
    assert!(a.starts_with("0xab00"));
    assert!(a.ends_with("000f"));
}

#[test]
fn rich_attacker_against_a_survivor() {
    let (mut a, mut t) = duel();
    a.energy = u128::MAX;
    t.energy = u128::MAX / 2;
    let out = a.attack_target(&mut t, 200_000, 0, 1, 1);
    assert!(matches!(out, AttackOutcome::Success(_)));
    assert!(!t.is_ruins);
    assert_eq!(a.energy, u128::MAX - 3000);
    assert_eq!(t.energy, u128::MAX / 2);
}

#[test]
fn very_high_levels_upgrade_after_scarcity() {
    let mut c = civ("p1", 0);
    c.weapon_lv = 3_000_000_000_000_000_000_000_000_000_000_000;
    c.energy = u128::MAX;
    let (ok, paid) = c.try_upgrade("weapon", 0, true, 0, false);
    assert!(ok);
    assert_eq!(paid, 0);
    assert_eq!(c.weapon_lv, 3_000_000_000_000_000_000_000_000_000_000_001);
    assert_eq!(c.energy, u128::MAX - 3 * (400 * (100 + 50 * 3_000_000_000_000_000_000_000_000_000_000_000) / 100));
}
