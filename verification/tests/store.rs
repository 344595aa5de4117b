use dark_forest::battle_engine::{AttackOrder, BattleEngine};
use dark_forest::coldstore::{ColdStore, GROWTH_ONE_BITS, INITIAL_CAPACITY, SLOT_SIZE};
use dark_forest::store::EntityStore;
use memmap2::MmapMut;

fn cold(slots: usize) -> ColdStore {
    let map = MmapMut::map_anon(slots * SLOT_SIZE).expect("anonymous map");
    ColdStore::new(map, slots).expect("map of the right size")
}

#[test]
fn cold_store_checks_the_map_size() {
    let map = MmapMut::map_anon(100).expect("anonymous map");
    assert!(ColdStore::new(map, 1).is_none());
    let c = cold(4);
    assert_eq!(c.capacity(), 4);
    assert_eq!(ColdStore::planned_capacity(10), INITIAL_CAPACITY);
    assert_eq!(ColdStore::planned_capacity(INITIAL_CAPACITY + 1), INITIAL_CAPACITY + 1);
}

#[test]
fn cold_fields_round_trip_and_stay_in_their_slot() {
    let mut c = cold(8);
    c.set_dft_spent(3, 123_456_789_000_000_000_000);
    c.set_rebuilds(3, 7);
    c.set_rebirth_count(3, 2);
    c.set_elation(3, 99);
    c.set_is_elite(3, true);
    c.set_growth_bits(3, GROWTH_ONE_BITS);
    assert_eq!(c.dft_spent(3), 123_456_789_000_000_000_000);
    assert_eq!(c.rebuilds(3), 7);
    assert_eq!(c.rebirth_count(3), 2);
    assert_eq!(c.elation(3), 99);
    assert!(c.is_elite(3));
    assert_eq!(c.growth_bits(3), GROWTH_ONE_BITS);
    assert_eq!(c.dft_spent(2), 0);
    assert_eq!(c.dft_spent(4), 0);
    assert!(!c.is_elite(4));
}

#[test]
fn inviter_round_trip() {
    let mut c = cold(4);
    assert_eq!(c.invited_by(1), None);
    c.set_invited_by(1, Some(42));
    assert_eq!(c.invited_by(1), Some(42));
    c.set_invited_by(1, None);
    assert_eq!(c.invited_by(1), None);
}

#[test]
fn reset_slot_gives_a_fresh_player() {
    let mut c = cold(4);
    c.set_consecutive_wins(2, 9);
    c.set_aggression(2, 3);
    c.set_is_elite(2, true);
    c.reset_slot(2);
    assert_eq!(c.consecutive_wins(2), 0);
    assert_eq!(c.aggression(2), 50);
    assert_eq!(c.boredom(2), 50);
    assert_eq!(c.growth_bits(2), GROWTH_ONE_BITS);
    assert!(c.is_elite(2));
}

#[test]
fn growing_keeps_every_slot() {
    let mut c = cold(4);
    c.set_plundered(3, 77);
    assert_eq!(c.growth_needed(3), None);
    assert_eq!(c.growth_needed(4), Some(INITIAL_CAPACITY));
    let small = MmapMut::map_anon(2 * SLOT_SIZE).expect("anonymous map");
    assert!(!c.grow(small, 2));
    let mut big = MmapMut::map_anon(16 * SLOT_SIZE).expect("anonymous map");
    big.fill(0xff);
    assert!(c.grow(big, 16));
    assert_eq!(c.capacity(), 16);
    assert_eq!(c.plundered(3), 77);
    assert_eq!(c.plundered(10), 0);
    assert!(!c.is_elite(15));
    assert_eq!(c.invited_by(12), None);
}

#[test]
fn allocation_resets_and_reuses_freed_indices() {
    let mut s = EntityStore::new(cold(8));
    let a = s.allocate();
    let b = s.allocate();
    assert_eq!((a, b), (0, 1));
    assert_eq!(s.energy[1], 2000);
    assert_eq!(s.shield_hp[1], 3615);
    assert_eq!(s.total_level(1), 5);
    assert_eq!(s.shield_percent(1), 100);
    assert!(s.is_active(0) && s.is_active(1));
    assert!(!s.is_active(2));
    s.energy[0] = 5;
    s.is_ruins[0] = 1;
    assert_eq!(s.active_indices(), vec![1]);
    s.free_list.push(0);
    let c = s.allocate();
    assert_eq!(c, 0);
    assert_eq!(s.energy[0], 2000);
    assert_eq!(s.is_ruins[0], 0);
    assert_eq!(s.active_indices(), vec![0, 1]);
}

#[test]
fn grudges_accumulate() {
    let mut s = EntityStore::new(cold(4));
    s.allocate();
    s.allocate();
    assert_eq!(s.has_enemy(0, 1), 0);
    s.add_enemy(0, 1, 20);
    s.add_enemy(0, 1, 30);
    assert_eq!(s.has_enemy(0, 1), 50);
    s.add_enemy(0, 1, 250);
    assert_eq!(s.has_enemy(0, 1), 255);
    assert_eq!(s.has_enemy(1, 0), 0);
}

fn order(attacker: u32, target: u32, weapon_lv: u8, energy_cost: u128) -> AttackOrder {
    AttackOrder {
        attacker_idx: attacker,
        target_idx: target,
        weapon_lv,
        energy_cost,
        has_tokens: true,
        time: 0,
        alliance_bonus: 0,
        attacker_alliance: None,
    }
}

#[test]
fn battle_destroys_an_overwhelmed_target_and_charges_the_attacker() {
    let mut s = EntityStore::new(cold(4));
    s.allocate();
    s.allocate();
    s.weapon_lv[0] = 10;
    s.energy[0] = 100_000;
    s.health[1] = 100;
    s.shield_hp[1] = 0;
    let mut engine = BattleEngine::new();
    engine.submit(order(0, 1, 10, 21_000));
    assert_eq!(engine.order_count(), 1);
    let mut destroyed = Vec::new();
    engine.execute(&mut s, &mut destroyed);
    assert_eq!(engine.order_count(), 0);
    assert_eq!(destroyed, vec![1]);
    assert_eq!(s.is_ruins[1], 1);
    assert_eq!(s.energy[0], 79_000);
    assert_eq!(s.attack_tokens[0], 2);
    assert_eq!(s.total_attacks[0], 1);
    assert_eq!(s.cold.elation(0), 2);
    assert_eq!(s.cold.consecutive_wins(0), 1);
}

#[test]
fn weak_attacks_destroy_nothing_and_broke_attackers_pay_nothing() {
    let mut s = EntityStore::new(cold(4));
    s.allocate();
    s.allocate();
    s.allocate();
    s.energy[2] = 10;
    let mut engine = BattleEngine::new();
    engine.submit_batch(vec![order(0, 1, 1, 3000), order(2, 1, 1, 3000)]);
    assert_eq!(engine.order_count(), 2);
    let mut destroyed = Vec::new();
    engine.execute(&mut s, &mut destroyed);
    assert!(destroyed.is_empty());
    assert_eq!(s.is_ruins[1], 0);
    assert_eq!(s.energy[0], 2000);
    assert_eq!(s.energy[2], 10);
    assert_eq!(s.total_attacks[2], 0);
}

#[test]
fn growing_onto_a_larger_map_zeroes_everything_past_the_old_slots() {
    let mut c = cold(2);
    c.set_dft_earned(1, 5);
    let mut big = MmapMut::map_anon(20 * SLOT_SIZE).expect("anonymous map");
    big.fill(0xaa);
    assert!(c.grow(big, 16));
    assert_eq!(c.capacity(), 16);
    assert_eq!(c.dft_earned(1), 5);
    assert_eq!(c.dft_earned(15), 0);
    assert!(!c.is_elite(2));
}
