use dark_forest::engine::{
    alliance_def_bonus, best_target, clear_market, last_max, merge_allowed, emission_share, energy_shortfall, plan_strikes,
    strikes_needed, target_score, within_scan, MarketOffer, StrikeCandidate, TargetView,
};
use dark_forest::math_engine::{DAILY_DFT_EMISSION, TOTAL_SUPPLY};

#[test]
fn emission_is_shared_evenly_and_capped_by_supply() {
    assert_eq!(
        emission_share(DAILY_DFT_EMISSION, 0, 200),
        (2_000_000_000_000_000_000_000, DAILY_DFT_EMISSION)
    );
    assert_eq!(emission_share(DAILY_DFT_EMISSION, TOTAL_SUPPLY - 100, 3), (33, 99));
    assert_eq!(emission_share(DAILY_DFT_EMISSION, TOTAL_SUPPLY, 3), (0, 0));
    assert_eq!(emission_share(DAILY_DFT_EMISSION, 0, 0), (0, 0));
    assert_eq!(emission_share(10, 0, 3), (3, 9));
}

#[test]
fn alliance_bonus_counts_other_members() {
    assert_eq!(alliance_def_bonus(0), 0);
    assert_eq!(alliance_def_bonus(1), 0);
    assert_eq!(alliance_def_bonus(5), 32);
}

#[test]
fn focus_fire_strike_counts() {
    assert_eq!(strikes_needed(10, 1, 0, 3000, 3615), 2);
    assert_eq!(strikes_needed(1, 10, 0, 3000, 3615), 1);
    assert_eq!(strikes_needed(10, 1, 0, 0, 0), 0);
    assert_eq!(strikes_needed(2, 1, 0, 1_000_000, 0), 10);
}

fn cand(target: u32, shield_percent: u128, health: u128, shield_hp: u128) -> StrikeCandidate {
    StrikeCandidate { target, shield_percent, shield_lv: 1, health, shield_hp, alliance_bonus: 0 }
}

fn candidates() -> Vec<StrikeCandidate> {
    vec![cand(7, 50, 3000, 3615), cand(8, 10, 3000, 3615), cand(8, 10, 3000, 3615), cand(9, 0, 100, 0)]
}

#[test]
fn strikes_without_focus_take_each_target_once() {
    assert_eq!(plan_strikes(1, 10_000, 5, 40, false, &candidates()), vec![1, 3]);
    assert_eq!(plan_strikes(1, 5000, 5, 40, false, &candidates()), vec![1]);
    assert_eq!(plan_strikes(1, 10_000, 1, 40, false, &candidates()), vec![1]);
    assert_eq!(plan_strikes(1, 1000, 5, 40, false, &candidates()), Vec::<usize>::new());
}

#[test]
fn focused_strikes_repeat_until_the_budget() {
    assert_eq!(plan_strikes(10, 1_000_000, 5, 40, true, &candidates()), vec![1, 1, 2, 2, 3]);
    assert_eq!(plan_strikes(10, 1_000_000, 4, 40, true, &candidates()), vec![1, 1, 2, 2]);
    assert_eq!(plan_strikes(10, 1_000_000, 0, 40, true, &candidates()), Vec::<usize>::new());
}

#[test]
fn scan_range_on_squares() {
    assert!(within_scan(0, 0, 0, 3, 4, 0, 5));
    assert!(!within_scan(0, 0, 0, 3, 4, 0, 4));
    assert!(within_scan(-10, -10, -10, -10, -10, -10, 0));
}

#[test]
fn buyers_need_energy_for_their_attacks() {
    assert_eq!(energy_shortfall(13, 1, 10_000), 29_000);
    assert_eq!(energy_shortfall(2, 1, 10_000), 0);
}

#[test]
fn one_trade_moves_dft_and_burns_energy() {
    let mut dft = vec![0u128, 1_000_000];
    let mut energy = vec![10_000u128, 0];
    let buys = vec![MarketOffer { who: 1, amount: 3000 }];
    let sells = vec![MarketOffer { who: 0, amount: 8000 }];
    let day = clear_market(&mut dft, &mut energy, &buys, &sells, 100).expect("market fits");
    assert_eq!(dft, vec![3000, 997_000]);
    assert_eq!(energy, vec![7000, 2850]);
    assert_eq!(day.volume, 3000);
    assert_eq!(day.burned, 150);
    assert_eq!(day.fees, 30);
    assert_eq!(day.trades, 1);
}

#[test]
fn a_buyer_goes_through_the_sellers_in_order() {
    let mut dft = vec![1_000_000u128, 0, 0, 0];
    let mut energy = vec![0u128, 6000, 50, 10_000];
    let buys = vec![MarketOffer { who: 0, amount: 12_000 }];
    let sells = vec![
        MarketOffer { who: 1, amount: 6000 },
        MarketOffer { who: 2, amount: 50 },
        MarketOffer { who: 3, amount: 10_000 },
    ];
    let day = clear_market(&mut dft, &mut energy, &buys, &sells, 200).expect("market fits");
    assert_eq!(day.trades, 2);
    assert_eq!(day.volume, 10_000);
    assert_eq!(day.burned, 500);
    assert_eq!(energy, vec![9500, 1000, 50, 5000]);
    assert_eq!(dft, vec![980_000, 10_000, 0, 10_000]);
    assert_eq!(dft.iter().sum::<u128>(), 1_000_000);
    assert_eq!(energy.iter().sum::<u128>() + day.burned, 16_050);
}

#[test]
fn buyers_without_dft_do_not_trade() {
    let mut dft = vec![0u128, 10];
    let mut energy = vec![10_000u128, 0];
    let buys = vec![MarketOffer { who: 1, amount: 3000 }];
    let sells = vec![MarketOffer { who: 0, amount: 8000 }];
    let day = clear_market(&mut dft, &mut energy, &buys, &sells, 100).expect("market fits");
    assert_eq!(day.trades, 0);
    assert_eq!(dft, vec![0, 10]);
    assert_eq!(energy, vec![10_000, 0]);
}

#[test]
fn only_ten_buyers_are_served() {
    let mut dft = vec![1_000_000u128; 12];
    let mut energy = vec![0u128; 12];
    energy[0] = 100_000;
    let buys: Vec<MarketOffer> = (1..12).map(|who| MarketOffer { who, amount: 1000 }).collect();
    let sells = vec![MarketOffer { who: 0, amount: 100_000 }];
    let day = clear_market(&mut dft, &mut energy, &buys, &sells, 100).expect("market fits");
    assert_eq!(day.trades, 10);
    assert_eq!(energy[11], 0);
    assert_eq!(energy[10], 950);
    assert_eq!(energy[0], 90_000);
}

#[test]
fn market_that_would_overflow_is_refused_untouched() {
    let mut dft = vec![u128::MAX - 10, 1_000_000];
    let mut energy = vec![10_000u128, 0];
    let buys = vec![MarketOffer { who: 1, amount: 3000 }];
    let sells = vec![MarketOffer { who: 0, amount: 8000 }];
    assert!(clear_market(&mut dft, &mut energy, &buys, &sells, 100).is_none());
    assert_eq!(dft, vec![u128::MAX - 10, 1_000_000]);
    assert_eq!(energy, vec![10_000, 0]);
    assert!(clear_market(&mut dft, &mut energy, &buys, &sells, u128::MAX).is_none());
}

fn view(shield_percent: u128, energy: u128, dist: u128) -> TargetView {
    TargetView {
        targetable: true,
        shield_percent,
        energy,
        dft: 20_000,
        weapon_lv: 2,
        dist,
        grudge: 0,
        at_war: false,
        preferred: false,
    }
}

#[test]
fn target_scores() {
    assert_eq!(target_score(&view(50, 10_000, 100)), 492);
    let mut v = view(50, 10_000, 100);
    v.at_war = true;
    v.preferred = true;
    v.grudge = 40;
    assert_eq!(target_score(&v), 1332);
    assert_eq!(target_score(&view(150, 0, 0)), -500 + 2 - 10);
}

#[test]
fn target_scores_truncate_like_i64_casts() {
    assert_eq!(target_score(&view(50, u128::MAX, 100)), target_score(&view(50, 0, 100)));
    assert_eq!(target_score(&view(50, (1u128 << 64) - 1000, 100)), target_score(&view(50, 0, 100)) - 1);
}

#[test]
fn best_target_takes_the_first_highest_eligible_score() {
    let mut shielded = view(90, 1_000_000, 10);
    shielded.energy = 10_000_000;
    let mut out_of_range = view(10, 10_000_000, 5000);
    out_of_range.dist = 5000;
    let mut untouchable = view(0, 10_000_000, 10);
    untouchable.targetable = false;
    let cands = vec![
        view(50, 10_000, 100),
        shielded,
        view(50, 10_000, 100),
        out_of_range,
        untouchable,
        view(20, 30_000, 100),
        view(20, 30_000, 100),
    ];
    assert_eq!(best_target(&cands, 60, 1000), Some(5));
    assert_eq!(best_target(&cands[..3].to_vec(), 60, 1000), Some(0));
    assert_eq!(best_target(&cands[1..2].to_vec(), 60, 1000), None);
    assert_eq!(best_target(&Vec::new(), 60, 1000), None);
}

#[test]
fn last_max_picks_the_last_of_equal_maxima_among_kept() {
    let keys = vec![5u128, 9, 3, 9, 12];
    assert_eq!(last_max(&keys, &vec![true, true, true, true, false]), Some(3));
    assert_eq!(last_max(&keys, &vec![true, true, true, true, true]), Some(4));
    assert_eq!(last_max(&keys, &vec![true, false, true, false, false]), Some(0));
    assert_eq!(last_max(&keys, &vec![false; 5]), None);
}

#[test]
fn merges_respect_twice_the_alliance_limit() {
    assert!(merge_allowed(48, 2));
    assert!(!merge_allowed(49, 2));
    assert!(!merge_allowed(usize::MAX, 1));
}
