//! Aggregated battle resolution: attack orders are grouped by (weapon level,
//! target shield level) and each group is resolved with one formula.

use rand::seq::SliceRandom;
use vstd::prelude::*;
use crate::coldstore::{ColdStore, SLOT_SIZE, O_ELATION, O_CWINS, O_CLOSSES, lemma_u8_roundtrip, lemma_u16_roundtrip, lemma_write_frame, overwrite};
use crate::math_engine::{attack_value, defense_value, calc_attack, calc_defense, SHIELD_DMG_BONUS};
use crate::store::EntityStore;

verus! {

#[derive(Debug, Clone, Copy)]
pub struct AttackOrder {
    pub attacker_idx: u32,
    pub target_idx: u32,
    pub weapon_lv: u8,
    pub energy_cost: u128,
    pub has_tokens: bool,
    pub time: u64,
    pub alliance_bonus: u128,
    pub attacker_alliance: Option<u32>,
}

// ─────────────────────────────────────────────────────────────
// Grouping
// ─────────────────────────────────────────────────────────────

/// The group of an order: its weapon level and the target's shield level.
pub open spec fn order_key(o: AttackOrder, shield_lv: Seq<u8>) -> (u8, u8) {
    (o.weapon_lv, shield_lv[o.target_idx as int])
}

/// The distinct group keys of `orders`, in order of first appearance.
pub open spec fn group_keys(orders: Seq<AttackOrder>, shield_lv: Seq<u8>) -> Seq<(u8, u8)>
    decreases orders.len(),
{
    if orders.len() == 0 {
        Seq::empty()
    } else {
        let ks = group_keys(orders.drop_last(), shield_lv);
        let k = order_key(orders.last(), shield_lv);
        if ks.contains(k) {
            ks
        } else {
            ks.push(k)
        }
    }
}

/// Number of orders in the group `key`.
pub open spec fn group_size(orders: Seq<AttackOrder>, shield_lv: Seq<u8>, key: (u8, u8)) -> nat
    decreases orders.len(),
{
    if orders.len() == 0 {
        0
    } else {
        group_size(orders.drop_last(), shield_lv, key) + if order_key(orders.last(), shield_lv) == key {
            1nat
        } else {
            0nat
        }
    }
}

/// Combined health and shield hit points of the targets of the group `key`
/// (a target attacked twice counts twice).
pub open spec fn group_hp(
    orders: Seq<AttackOrder>,
    shield_lv: Seq<u8>,
    health: Seq<u128>,
    shield_hp: Seq<u128>,
    key: (u8, u8),
) -> int
    decreases orders.len(),
{
    if orders.len() == 0 {
        0
    } else {
        let o = orders.last();
        group_hp(orders.drop_last(), shield_lv, health, shield_hp, key) + if order_key(o, shield_lv)
            == key {
            health[o.target_idx as int] + shield_hp[o.target_idx as int]
        } else {
            0
        }
    }
}

/// Aggregated per-group state built from the orders.
struct AttackGroup {
    weapon_lv: u8,
    shield_lv: u8,
    count: u128,
    total_hp: u128,
}

/// The group list matches the orders of `orders`: one entry per distinct
/// key in order of first appearance, with its size and hit points.
spec fn groups_match(
    groups: Seq<AttackGroup>,
    orders: Seq<AttackOrder>,
    shield_lv: Seq<u8>,
    health: Seq<u128>,
    shield_hp: Seq<u128>,
) -> bool {
    let keys = group_keys(orders, shield_lv);
    &&& groups.len() == keys.len()
    &&& forall|g: int|
        0 <= g < groups.len() ==> {
            let key = keys[g];
            &&& (#[trigger] groups[g]).weapon_lv == key.0
            &&& groups[g].shield_lv == key.1
            &&& groups[g].count == group_size(orders, shield_lv, key)
            &&& groups[g].total_hp == hp_capped(group_hp(orders, shield_lv, health, shield_hp, key))
        }
}

/// Hit points as summed with saturation: the sum, or `u128::MAX` beyond it.
pub open spec fn hp_capped(x: int) -> int {
    if x <= u128::MAX {
        x
    } else {
        u128::MAX as int
    }
}

/// Each order's target has health and shield hit points whose sum fits.
pub open spec fn target_hp_fits(orders: Seq<AttackOrder>, health: Seq<u128>, shield_hp: Seq<u128>) -> bool {
    forall|i: int|
        0 <= i < orders.len() ==> health[(#[trigger] orders[i]).target_idx as int] + shield_hp[orders[i].target_idx as int]
            <= u128::MAX
}

/// Every group that deals damage has total hit points that fit.
pub open spec fn damaging_hp_fits(
    orders: Seq<AttackOrder>,
    shield_lv: Seq<u8>,
    health: Seq<u128>,
    shield_hp: Seq<u128>,
) -> bool {
    forall|k: (u8, u8)|
        #[trigger] group_keys(orders, shield_lv).contains(k) && group_net(k) > 0 ==> group_hp(
            orders,
            shield_lv,
            health,
            shield_hp,
            k,
        ) <= u128::MAX
}

/// Every order's key is among the group keys, which are distinct.
proof fn lemma_group_keys(orders: Seq<AttackOrder>, shield_lv: Seq<u8>)
    ensures
        forall|i: int| 0 <= i < orders.len() ==> group_keys(orders, shield_lv).contains(
            #[trigger] order_key(orders[i], shield_lv),
        ),
        forall|a: int, b: int|
            0 <= a < b < group_keys(orders, shield_lv).len() ==> group_keys(orders, shield_lv)[a]
                != group_keys(orders, shield_lv)[b],
        forall|k: (u8, u8)| #[trigger] group_keys(orders, shield_lv).contains(k) ==> group_size(orders, shield_lv, k) > 0,
    decreases orders.len(),
{
    if orders.len() > 0 {
        let prefix = orders.drop_last();
        lemma_group_keys(prefix, shield_lv);
        let ks = group_keys(prefix, shield_lv);
        let kk = order_key(orders.last(), shield_lv);
        assert forall|i: int| 0 <= i < orders.len() implies group_keys(orders, shield_lv).contains(
            #[trigger] order_key(orders[i], shield_lv),
        ) by {
            if i < orders.len() - 1 {
                assert(orders[i] == prefix[i]);
                assert(ks.contains(order_key(prefix[i], shield_lv)));
                if !ks.contains(kk) {
                    let w = choose|w: int| 0 <= w < ks.len() && ks[w] == order_key(prefix[i], shield_lv);
                    assert(ks.push(kk)[w] == ks[w]);
                }
            } else {
                if !ks.contains(kk) {
                    assert(ks.push(kk)[ks.len() as int] == kk);
                }
            }
        }
        assert forall|k: (u8, u8)| #[trigger] group_keys(orders, shield_lv).contains(k) implies group_size(
            orders,
            shield_lv,
            k,
        ) > 0 by {
            if k != kk {
                let w = choose|w: int| 0 <= w < group_keys(orders, shield_lv).len() && group_keys(orders, shield_lv)[w] == k;
                if !ks.contains(kk) && w == ks.len() {
                } else {
                    assert(ks[w] == k);
                    assert(ks.contains(k));
                }
            }
        }
    }
}

/// Appending an order extends each group's size and hit points.
proof fn lemma_group_step(
    orders: Seq<AttackOrder>,
    o: AttackOrder,
    shield_lv: Seq<u8>,
    health: Seq<u128>,
    shield_hp: Seq<u128>,
    key: (u8, u8),
)
    ensures
        group_size(orders.push(o), shield_lv, key) == group_size(orders, shield_lv, key) + if order_key(
            o,
            shield_lv,
        ) == key {
            1nat
        } else {
            0nat
        },
        group_hp(orders.push(o), shield_lv, health, shield_hp, key) == group_hp(
            orders,
            shield_lv,
            health,
            shield_hp,
            key,
        ) + if order_key(o, shield_lv) == key {
            health[o.target_idx as int] + shield_hp[o.target_idx as int]
        } else {
            0
        },
        group_keys(orders.push(o), shield_lv) == (if group_keys(orders, shield_lv).contains(
            order_key(o, shield_lv),
        ) {
            group_keys(orders, shield_lv)
        } else {
            group_keys(orders, shield_lv).push(order_key(o, shield_lv))
        }),
{
    assert(orders.push(o).drop_last() =~= orders);
}

/// Sizes and hit points of a group never exceed those of the whole prefix.
proof fn lemma_group_monotone(
    orders: Seq<AttackOrder>,
    n: int,
    shield_lv: Seq<u8>,
    health: Seq<u128>,
    shield_hp: Seq<u128>,
    key: (u8, u8),
)
    requires
        0 <= n <= orders.len(),
    ensures
        group_size(orders.subrange(0, n), shield_lv, key) <= group_size(orders, shield_lv, key),
        group_hp(orders.subrange(0, n), shield_lv, health, shield_hp, key) <= group_hp(
            orders,
            shield_lv,
            health,
            shield_hp,
            key,
        ),
        group_size(orders, shield_lv, key) <= orders.len(),
        group_hp(orders, shield_lv, health, shield_hp, key) >= 0,
    decreases orders.len(),
{
    if orders.len() > 0 {
        if n == orders.len() {
            assert(orders.subrange(0, n) =~= orders);
            lemma_group_monotone(orders.drop_last(), 0, shield_lv, health, shield_hp, key);
        } else {
            assert(orders.drop_last().subrange(0, n) =~= orders.subrange(0, n));
            lemma_group_monotone(orders.drop_last(), n, shield_lv, health, shield_hp, key);
        }
    }
}

/// Builds one group per distinct key with its size and total hit points.
fn build_groups(orders: &Vec<AttackOrder>, store: &EntityStore) -> (groups: Vec<AttackGroup>)
    requires
        store.wf(),
        forall|i: int| 0 <= i < orders@.len() ==> (#[trigger] orders@[i]).target_idx < store.len(),
        target_hp_fits(orders@, store.health@, store.shield_hp@),
    ensures
        groups_match(groups@, orders@, store.shield_lv@, store.health@, store.shield_hp@),
{
    let ghost sl: Seq<u8> = store.shield_lv@;
    let ghost he: Seq<u128> = store.health@;
    let ghost sh: Seq<u128> = store.shield_hp@;
    let mut groups: Vec<AttackGroup> = Vec::new();
    let n: usize = orders.len();
    let mut k: usize = 0;
    proof {
        assert(orders@.subrange(0, 0) =~= Seq::<AttackOrder>::empty());
        lemma_group_keys(orders@, sl);
    }
    while k < n
        invariant
            store.wf(),
            n == orders@.len(),
            k <= n,
            sl == store.shield_lv@,
            he == store.health@,
            sh == store.shield_hp@,
            forall|i: int| 0 <= i < orders@.len() ==> (#[trigger] orders@[i]).target_idx < store.len(),
            target_hp_fits(orders@, he, sh),
            forall|i: int| 0 <= i < orders@.len() ==> group_keys(orders@, sl).contains(
                #[trigger] order_key(orders@[i], sl),
            ),
            groups_match(groups@, orders@.subrange(0, k as int), sl, he, sh),
        decreases n - k,
    {
        let o: AttackOrder = orders[k];
        let t: usize = o.target_idx as usize;
        let w: u8 = o.weapon_lv;
        let s: u8 = store.shield_lv[t];
        let ghost prefix: Seq<AttackOrder> = orders@.subrange(0, k as int);
        let ghost key: (u8, u8) = order_key(o, sl);
        proof {
            assert(orders@.subrange(0, k + 1) =~= prefix.push(o));
            lemma_group_keys(prefix, sl);
            lemma_group_keys(orders@.subrange(0, k + 1), sl);
            assert(group_keys(prefix.push(o), sl).contains(key));
            assert(group_keys(orders@, sl).contains(key));
            lemma_group_step(prefix, o, sl, he, sh, key);
            lemma_group_monotone(orders@, k + 1, sl, he, sh, key);
            lemma_group_monotone(prefix, 0, sl, he, sh, key);
        }
        proof {
            assert(he[t as int] + sh[t as int] <= u128::MAX) by {
                assert(orders@[k as int] == o);
            }
        }
        let hp: u128 = store.health[t] + store.shield_hp[t];
        let mut g: usize = 0;
        let ng: usize = groups.len();
        while g < ng && !(groups[g].weapon_lv == w && groups[g].shield_lv == s)
            invariant
                ng == groups@.len(),
                g <= ng,
                forall|j: int| 0 <= j < g ==> (groups@[j].weapon_lv, groups@[j].shield_lv) != key,
                key == (w, s),
            decreases ng - g,
        {
            g = g + 1;
        }
        let found: bool = g < ng;
        let ghost keys0: Seq<(u8, u8)> = group_keys(prefix, sl);
        let ghost groups0: Seq<AttackGroup> = groups@;
        proof {
            lemma_group_step(prefix, o, sl, he, sh, key);
        }
        if found {
            proof {
                assert(groups@[g as int].weapon_lv == keys0[g as int].0);
                assert(keys0[g as int] == key);
                assert(keys0.contains(key));
                lemma_group_step(prefix, o, sl, he, sh, key);
            }
            let cur: &AttackGroup = &groups[g];
            let updated: AttackGroup = AttackGroup {
                weapon_lv: w,
                shield_lv: s,
                count: cur.count + 1,
                total_hp: cur.total_hp.saturating_add(hp),
            };
            groups.set(g, updated);
        } else {
            proof {
                assert(!keys0.contains(key)) by {
                    if keys0.contains(key) {
                        let j = choose|j: int| 0 <= j < keys0.len() && keys0[j] == key;
                        assert(groups@[j].weapon_lv == keys0[j].0);
                        assert((groups@[j].weapon_lv, groups@[j].shield_lv) == keys0[j]);
                    }
                }
                lemma_absent_key(prefix, sl, he, sh, key);
            }
            groups.push(AttackGroup { weapon_lv: w, shield_lv: s, count: 1, total_hp: hp });
        }
        proof {
            let keys1 = group_keys(prefix.push(o), sl);
            assert forall|j: int| 0 <= j < groups@.len() implies {
                let kj = keys1[j];
                &&& (#[trigger] groups@[j]).weapon_lv == kj.0
                &&& groups@[j].shield_lv == kj.1
                &&& groups@[j].count == group_size(prefix.push(o), sl, kj)
                &&& groups@[j].total_hp == hp_capped(group_hp(prefix.push(o), sl, he, sh, kj))
            } by {
                lemma_group_step(prefix, o, sl, he, sh, keys1[j]);
                lemma_group_monotone(prefix, 0, sl, he, sh, keys1[j]);
                if j < groups0.len() {
                    assert(groups0[j].weapon_lv == keys0[j].0);
                    assert(keys1[j] == keys0[j]);
                    if found && j == g {
                    } else {
                        assert(groups@[j] == groups0[j]);
                        assert(keys0[j] != key);
                    }
                } else {
                    assert(keys1[j] == key);
                }
            }
        }
        k = k + 1;
    }
    proof {
        assert(orders@.subrange(0, n as int) =~= orders@);
    }
    groups
}

/// A key that is not among the group keys has an empty group.
proof fn lemma_absent_key(
    orders: Seq<AttackOrder>,
    shield_lv: Seq<u8>,
    health: Seq<u128>,
    shield_hp: Seq<u128>,
    key: (u8, u8),
)
    requires
        !group_keys(orders, shield_lv).contains(key),
    ensures
        group_size(orders, shield_lv, key) == 0,
        group_hp(orders, shield_lv, health, shield_hp, key) == 0,
    decreases orders.len(),
{
    if orders.len() > 0 {
        let prefix = orders.drop_last();
        let ks = group_keys(prefix, shield_lv);
        let kk = order_key(orders.last(), shield_lv);
        if ks.contains(key) {
            let w = choose|w: int| 0 <= w < ks.len() && ks[w] == key;
            if !ks.contains(kk) {
                assert(ks.push(kk)[w] == key);
            }
        }
        if kk == key {
            if !ks.contains(kk) {
                assert(ks.push(kk)[ks.len() as int] == kk);
            }
        }
        lemma_absent_key(prefix, shield_lv, health, shield_hp, key);
    }
}

/// A key with orders in its group is one of the group keys.
proof fn lemma_size_positive_in_keys(orders: Seq<AttackOrder>, shield_lv: Seq<u8>, key: (u8, u8))
    ensures
        group_size(orders, shield_lv, key) > 0 ==> group_keys(orders, shield_lv).contains(key),
        !group_keys(orders, shield_lv).contains(key) ==> group_size(orders, shield_lv, key) == 0,
    decreases orders.len(),
{
    if orders.len() > 0 {
        let prefix = orders.drop_last();
        lemma_size_positive_in_keys(prefix, shield_lv, key);
        let ks = group_keys(prefix, shield_lv);
        let kk = order_key(orders.last(), shield_lv);
        if group_size(orders, shield_lv, key) > 0 {
            if kk == key {
                if !ks.contains(kk) {
                    assert(ks.push(kk)[ks.len() as int] == kk);
                }
            } else {
                assert(ks.contains(key));
                if !ks.contains(kk) {
                    let w = choose|w: int| 0 <= w < ks.len() && ks[w] == key;
                    assert(ks.push(kk)[w] == key);
                }
            }
        }
    }
}

// ─────────────────────────────────────────────────────────────
// Kills
// ─────────────────────────────────────────────────────────────

/// Damage one attack of a group deals: the attack (plus the shield bonus)
/// over the defense, counted once for the shield and twice for health.
pub open spec fn group_net(key: (u8, u8)) -> int {
    let atk = attack_value(key.0 as int) + SHIELD_DMG_BONUS;
    let def = defense_value(key.1 as int);
    if atk > def {
        (atk - def) + (atk - def) * 2
    } else {
        0
    }
}

/// Targets a group destroys: total damage over the average target hit
/// points, at most one per attack; 0 when there is no damage, no hit points
/// or (a case the preconditions exclude) an average below one.
pub open spec fn group_kills(n: int, net: int, hp: int) -> int {
    if n == 0 || net == 0 || hp == 0 || hp / n == 0 {
        0
    } else {
        let k = (n * net) / (hp / n);
        if k < n {
            k
        } else {
            n
        }
    }
}

/// Kills of the group `key` among `orders` on the given store columns.
pub open spec fn kills_of(
    orders: Seq<AttackOrder>,
    shield_lv: Seq<u8>,
    health: Seq<u128>,
    shield_hp: Seq<u128>,
    key: (u8, u8),
) -> int {
    group_kills(
        group_size(orders, shield_lv, key) as int,
        group_net(key),
        group_hp(orders, shield_lv, health, shield_hp, key),
    )
}

/// Targets of the orders made with weapon level `w`, in order.
pub open spec fn weapon_pool(orders: Seq<AttackOrder>, w: u8) -> Seq<u32>
    decreases orders.len(),
{
    if orders.len() == 0 {
        Seq::empty()
    } else {
        let p = weapon_pool(orders.drop_last(), w);
        if orders.last().weapon_lv == w {
            p.push(orders.last().target_idx)
        } else {
            p
        }
    }
}

/// Random draws a group makes: its kills, at most the size of its pool.
pub open spec fn group_draws(
    orders: Seq<AttackOrder>,
    shield_lv: Seq<u8>,
    health: Seq<u128>,
    shield_hp: Seq<u128>,
    key: (u8, u8),
) -> int {
    let k = kills_of(orders, shield_lv, health, shield_hp, key);
    let p = weapon_pool(orders, key.0).len() as int;
    if k < p {
        k
    } else {
        p
    }
}

/// Random draws of all groups in `keys`.
pub open spec fn draws_total(
    orders: Seq<AttackOrder>,
    shield_lv: Seq<u8>,
    health: Seq<u128>,
    shield_hp: Seq<u128>,
    keys: Seq<(u8, u8)>,
) -> int
    decreases keys.len(),
{
    if keys.len() == 0 {
        0
    } else {
        draws_total(orders, shield_lv, health, shield_hp, keys.drop_last()) + group_draws(
            orders,
            shield_lv,
            health,
            shield_hp,
            keys.last(),
        )
    }
}

/// `t` is attacked with a weapon level whose group in `keys` kills.
pub open spec fn lethal_target(
    orders: Seq<AttackOrder>,
    shield_lv: Seq<u8>,
    health: Seq<u128>,
    shield_hp: Seq<u128>,
    keys: Seq<(u8, u8)>,
    t: u32,
) -> bool {
    exists|g: int|
        0 <= g < keys.len() && kills_of(orders, shield_lv, health, shield_hp, #[trigger] keys[g]) > 0
            && weapon_pool(orders, keys[g].0).contains(t)
}

/// No group with damage and hit points has fewer hit points than attacks,
/// so its average target hit points are positive.
pub open spec fn averages_positive(
    orders: Seq<AttackOrder>,
    shield_lv: Seq<u8>,
    health: Seq<u128>,
    shield_hp: Seq<u128>,
) -> bool {
    forall|k: (u8, u8)|
        #[trigger] group_keys(orders, shield_lv).contains(k) && group_net(k) > 0 && group_hp(
            orders,
            shield_lv,
            health,
            shield_hp,
            k,
        ) > 0 ==> group_hp(orders, shield_lv, health, shield_hp, k) >= group_size(orders, shield_lv, k)
}

/// Calls rand's `SliceRandom::choose` with the thread-local generator.
/// The source returns `None` for an empty slice and otherwise one of its
/// elements; which one is left to chance.
#[verifier::external_body]
fn choose_target(targets: &Vec<u32>) -> (r: Option<u32>)
    ensures
        targets@.len() == 0 <==> r is None,
        r matches Some(t) ==> targets@.contains(t),
{
    targets.choose(&mut rand::thread_rng()).copied()
}

/// Collects the targets of the orders made with weapon level `w`.
fn pool_of(orders: &Vec<AttackOrder>, w: u8) -> (pool: Vec<u32>)
    ensures
        pool@ == weapon_pool(orders@, w),
{
    let mut pool: Vec<u32> = Vec::new();
    let n: usize = orders.len();
    let mut k: usize = 0;
    while k < n
        invariant
            n == orders@.len(),
            k <= n,
            pool@ == weapon_pool(orders@.subrange(0, k as int), w),
        decreases n - k,
    {
        proof {
            assert(orders@.subrange(0, k + 1).drop_last() =~= orders@.subrange(0, k as int));
        }
        if orders[k].weapon_lv == w {
            pool.push(orders[k].target_idx);
        }
        k = k + 1;
    }
    proof {
        assert(orders@.subrange(0, n as int) =~= orders@);
    }
    pool
}

/// Number of targets group `group` destroys.
fn kills_for(group: &AttackGroup, n_orders: usize) -> (kills: u128)
    requires
        group.count >= 1,
        group.count <= n_orders,
        group_net((group.weapon_lv, group.shield_lv)) > 0 && group.total_hp > 0 ==> group.total_hp
            >= group.count,
    ensures
        kills == group_kills(group.count as int, group_net((group.weapon_lv, group.shield_lv)), group.total_hp as int),
{
    proof {
        assert(attack_value(group.weapon_lv as int) <= 900 + 10 * 255 * 255) by (nonlinear_arith)
            requires
                group.weapon_lv <= 255,
        ;
        assert(defense_value(group.shield_lv as int) <= 540 + 6 * 255 * 255) by (nonlinear_arith)
            requires
                group.shield_lv <= 255,
        ;
        assert(defense_value(group.shield_lv as int) >= 0) by (nonlinear_arith);
    }
    let atk: u128 = calc_attack(group.weapon_lv as u128) + SHIELD_DMG_BONUS;
    let def: u128 = calc_defense(group.shield_lv as u128);
    let net: u128 = if atk > def {
        (atk - def) + (atk - def) * 2
    } else {
        0
    };
    let n: u128 = group.count;
    if net == 0 || group.total_hp == 0 {
        return 0;
    }
    proof {
        assert(n * net <= 0xFFFF_FFFF_FFFF_FFFF * 3_000_000) by (nonlinear_arith)
            requires
                n <= usize::MAX,
                net <= 3_000_000,
                usize::MAX <= 0xFFFF_FFFF_FFFF_FFFF,
                n >= 0,
        ;
    }
    let total_damage: u128 = n * net;
    let avg_hp: u128 = group.total_hp / n;
    proof {
        assert(avg_hp >= 1) by (nonlinear_arith)
            requires
                group.total_hp >= n,
                n >= 1,
                avg_hp == group.total_hp / n,
        ;
    }
    let k: u128 = total_damage / avg_hp;
    if k < n {
        k
    } else {
        n
    }
}

/// The marking so far: `dead` lists, without repetition, the targets newly
/// marked as ruins, each previously not marked and attacked with a weapon
/// level whose group in `keys` kills; no other index changes.
pub open spec fn kills_marked(
    before: Seq<u8>,
    after: Seq<u8>,
    dead: Seq<u32>,
    orders: Seq<AttackOrder>,
    shield_lv: Seq<u8>,
    health: Seq<u128>,
    shield_hp: Seq<u128>,
    keys: Seq<(u8, u8)>,
) -> bool {
    &&& after.len() == before.len()
    &&& forall|a: int, b: int| 0 <= a < b < dead.len() ==> dead[a] != dead[b]
    &&& forall|i: int|
        0 <= i < dead.len() ==> {
            &&& (#[trigger] dead[i]) < before.len()
            &&& before[dead[i] as int] != 1
            &&& lethal_target(orders, shield_lv, health, shield_hp, keys, dead[i])
        }
    &&& forall|j: int|
        0 <= j < before.len() ==> #[trigger] after[j] == (if dead.contains(j as u32) {
            1u8
        } else {
            before[j]
        })
}

/// The draws `draws` form one run per group of `keys`, in order: each
/// group's run has that group's number of draws, and every draw in it is a
/// target of its weapon level's pool.
pub open spec fn draws_fit(
    draws: Seq<u32>,
    orders: Seq<AttackOrder>,
    shield_lv: Seq<u8>,
    health: Seq<u128>,
    shield_hp: Seq<u128>,
    keys: Seq<(u8, u8)>,
) -> bool
    decreases keys.len(),
{
    if keys.len() == 0 {
        draws.len() == 0
    } else {
        let start = draws.len() - group_draws(orders, shield_lv, health, shield_hp, keys.last());
        &&& 0 <= start
        &&& draws_fit(draws.take(start), orders, shield_lv, health, shield_hp, keys.drop_last())
        &&& forall|i: int|
            start <= i < draws.len() ==> weapon_pool(orders, keys.last().0).contains(#[trigger] draws[i])
    }
}

/// The targets destroyed by `draws`: in draw order, each drawn target that
/// was not in ruins before, at its first draw.
pub open spec fn first_kills(draws: Seq<u32>, ruins: Seq<u8>) -> Seq<u32>
    decreases draws.len(),
{
    if draws.len() == 0 {
        Seq::empty()
    } else {
        let d = first_kills(draws.drop_last(), ruins);
        let t = draws.last();
        if ruins[t as int] != 1 && !d.contains(t) {
            d.push(t)
        } else {
            d
        }
    }
}

/// The result of the kill phase: the marking of `kills_marked`, where the
/// destroyed targets are exactly those that some sequence of draws (one
/// run per group, `draws_total` draws in all, each from its group's pool)
/// destroys.
pub open spec fn kill_outcome(
    before: Seq<u8>,
    after: Seq<u8>,
    dead: Seq<u32>,
    orders: Seq<AttackOrder>,
    shield_lv: Seq<u8>,
    health: Seq<u128>,
    shield_hp: Seq<u128>,
    keys: Seq<(u8, u8)>,
) -> bool {
    &&& kills_marked(before, after, dead, orders, shield_lv, health, shield_hp, keys)
    &&& exists|draws: Seq<u32>|
        #[trigger] draws_fit(draws, orders, shield_lv, health, shield_hp, keys) && draws.len() == draws_total(
            orders,
            shield_lv,
            health,
            shield_hp,
            keys,
        ) && dead == first_kills(draws, before)
}

/// Pool entries are targets of orders.
proof fn lemma_pool_targets(orders: Seq<AttackOrder>, w: u8, t: u32)
    requires
        weapon_pool(orders, w).contains(t),
    ensures
        exists|i: int| 0 <= i < orders.len() && (#[trigger] orders[i]).target_idx == t,
    decreases orders.len(),
{
    let prefix = orders.drop_last();
    let p = weapon_pool(prefix, w);
    if p.contains(t) {
        lemma_pool_targets(prefix, w, t);
        let i = choose|i: int| 0 <= i < prefix.len() && (#[trigger] prefix[i]).target_idx == t;
        assert(orders[i] == prefix[i]);
    } else {
        let q = weapon_pool(orders, w);
        let w2 = choose|k: int| 0 <= k < q.len() && q[k] == t;
        if orders.last().weapon_lv == w {
            if w2 < p.len() {
                assert(q[w2] == p[w2]);
            }
            assert(orders[orders.len() - 1].target_idx == t);
        }
    }
}

/// A battle destroys only targets of its orders, each once and none that
/// was already in ruins, and changes no other ruin flag.
pub proof fn lemma_battle_destroys_only_targets(
    before: Seq<u8>,
    after: Seq<u8>,
    dead: Seq<u32>,
    orders: Seq<AttackOrder>,
    shield_lv: Seq<u8>,
    health: Seq<u128>,
    shield_hp: Seq<u128>,
    keys: Seq<(u8, u8)>,
)
    requires
        kill_outcome(before, after, dead, orders, shield_lv, health, shield_hp, keys),
    ensures
        forall|i: int|
            0 <= i < dead.len() ==> before[(#[trigger] dead[i]) as int] != 1 && exists|o: int|
                0 <= o < orders.len() && (#[trigger] orders[o]).target_idx == dead[i],
        forall|a: int, b: int| 0 <= a < b < dead.len() ==> dead[a] != dead[b],
        forall|j: int| 0 <= j < before.len() && !dead.contains(j as u32) ==> #[trigger] after[j] == before[j],
{
    assert forall|i: int| 0 <= i < dead.len() implies before[(#[trigger] dead[i]) as int] != 1 && exists|o: int|
        0 <= o < orders.len() && (#[trigger] orders[o]).target_idx == dead[i] by {
        let t = dead[i];
        assert(lethal_target(orders, shield_lv, health, shield_hp, keys, t));
        let g = choose|g: int|
            0 <= g < keys.len() && kills_of(orders, shield_lv, health, shield_hp, #[trigger] keys[g]) > 0
                && weapon_pool(orders, keys[g].0).contains(t);
        lemma_pool_targets(orders, keys[g].0, t);
    }
}

/// The damage one attack of a group counts: when the attack with the shield
/// bonus exceeds the defense, the excess once for the shield and twice for
/// health, three times in all; nothing otherwise.
pub proof fn lemma_group_damage(w: u8, s: u8)
    ensures
        attack_value(w as int) + SHIELD_DMG_BONUS > defense_value(s as int) ==> group_net((w, s)) == 3 * (
        attack_value(w as int) + SHIELD_DMG_BONUS - defense_value(s as int)),
        attack_value(w as int) + SHIELD_DMG_BONUS <= defense_value(s as int) ==> group_net((w, s)) == 0,
{
}

/// A lone order against a standing target whose health and shield hit
/// points together are at most the damage of one attack (the excess of the
/// attack with the shield bonus over the defense, three times) destroys
/// that target and nothing else.
pub proof fn lemma_lone_lethal_order_destroys(
    o: AttackOrder,
    before: Seq<u8>,
    after: Seq<u8>,
    dead: Seq<u32>,
    shield_lv: Seq<u8>,
    health: Seq<u128>,
    shield_hp: Seq<u128>,
)
    requires
        o.target_idx < before.len(),
        o.target_idx < shield_lv.len(),
        o.target_idx < health.len(),
        o.target_idx < shield_hp.len(),
        before[o.target_idx as int] != 1,
        0 < health[o.target_idx as int] + shield_hp[o.target_idx as int],
        health[o.target_idx as int] + shield_hp[o.target_idx as int] <= 3 * (attack_value(o.weapon_lv as int)
            + SHIELD_DMG_BONUS - defense_value(shield_lv[o.target_idx as int] as int)),
        kill_outcome(before, after, dead, seq![o], shield_lv, health, shield_hp, group_keys(seq![o], shield_lv)),
    ensures
        dead == seq![o.target_idx],
        after[o.target_idx as int] == 1,
{
    let t = o.target_idx;
    let orders = seq![o];
    let key = order_key(o, shield_lv);
    let hp = health[t as int] + shield_hp[t as int];
    let keys = seq![key];
    assert(orders.drop_last() =~= Seq::<AttackOrder>::empty());
    assert(orders.last() == o);
    assert(group_keys(orders.drop_last(), shield_lv) =~= Seq::<(u8, u8)>::empty());
    assert(group_size(orders.drop_last(), shield_lv, key) == 0);
    assert(group_hp(orders.drop_last(), shield_lv, health, shield_hp, key) == 0);
    assert(weapon_pool(orders.drop_last(), o.weapon_lv) =~= Seq::<u32>::empty());
    assert(group_keys(orders, shield_lv) =~= keys);
    assert(group_size(orders, shield_lv, key) == 1);
    assert(group_hp(orders, shield_lv, health, shield_hp, key) == hp);
    let net = group_net(key);
    assert(net >= hp);
    assert(net / hp >= 1) by (nonlinear_arith)
        requires
            net >= hp,
            hp > 0,
    ;
    assert(kills_of(orders, shield_lv, health, shield_hp, key) == 1);
    assert(weapon_pool(orders, o.weapon_lv) =~= seq![t]);
    assert(group_draws(orders, shield_lv, health, shield_hp, key) == 1);
    assert(keys.drop_last() =~= Seq::<(u8, u8)>::empty());
    assert(keys.last() == key);
    assert(draws_total(orders, shield_lv, health, shield_hp, keys.drop_last()) == 0);
    assert(draws_total(orders, shield_lv, health, shield_hp, keys) == 1);
    let draws = choose|draws: Seq<u32>|
        #[trigger] draws_fit(draws, orders, shield_lv, health, shield_hp, keys) && draws.len() == draws_total(
            orders,
            shield_lv,
            health,
            shield_hp,
            keys,
        ) && dead == first_kills(draws, before);
    assert(draws.len() == 1);
    assert(weapon_pool(orders, key.0).contains(draws[0]));
    assert(draws =~= seq![t]);
    assert(draws.drop_last() =~= Seq::<u32>::empty());
    assert(draws.last() == t);
    assert(first_kills(draws.drop_last(), before) =~= Seq::<u32>::empty());
    assert(!Seq::<u32>::empty().contains(t));
    assert(first_kills(draws, before) =~= seq![t]);
    assert(dead[0] == t);
    assert(dead.contains(t));
    assert(after[t as int] == 1);
}

/// A lone order whose one attack deals less damage than its target's
/// health and shield hit points together (the excess of the attack with the
/// shield bonus over the defense, three times, or nothing without excess)
/// destroys nothing.
pub proof fn lemma_lone_weak_order_spares(
    o: AttackOrder,
    before: Seq<u8>,
    after: Seq<u8>,
    dead: Seq<u32>,
    shield_lv: Seq<u8>,
    health: Seq<u128>,
    shield_hp: Seq<u128>,
)
    requires
        o.target_idx < shield_lv.len(),
        o.target_idx < health.len(),
        o.target_idx < shield_hp.len(),
        health[o.target_idx as int] + shield_hp[o.target_idx as int] > 3 * (attack_value(o.weapon_lv as int)
            + SHIELD_DMG_BONUS - defense_value(shield_lv[o.target_idx as int] as int)),
        kill_outcome(before, after, dead, seq![o], shield_lv, health, shield_hp, group_keys(seq![o], shield_lv)),
    ensures
        dead.len() == 0,
        after == before,
{
    let t = o.target_idx;
    let orders = seq![o];
    let key = order_key(o, shield_lv);
    let hp = health[t as int] + shield_hp[t as int];
    let keys = seq![key];
    assert(orders.drop_last() =~= Seq::<AttackOrder>::empty());
    assert(orders.last() == o);
    assert(group_keys(orders.drop_last(), shield_lv) =~= Seq::<(u8, u8)>::empty());
    assert(group_size(orders.drop_last(), shield_lv, key) == 0);
    assert(group_hp(orders.drop_last(), shield_lv, health, shield_hp, key) == 0);
    assert(group_keys(orders, shield_lv) =~= keys);
    assert(group_size(orders, shield_lv, key) == 1);
    assert(group_hp(orders, shield_lv, health, shield_hp, key) == hp);
    let net = group_net(key);
    assert(net >= 0);
    assert(net > 0 ==> net < hp);
    if net > 0 {
        assert(net / hp == 0) by (nonlinear_arith)
            requires
                0 < net < hp,
        ;
    }
    assert(kills_of(orders, shield_lv, health, shield_hp, key) == 0);
    assert(group_draws(orders, shield_lv, health, shield_hp, key) == 0);
    assert(keys.drop_last() =~= Seq::<(u8, u8)>::empty());
    assert(keys.last() == key);
    assert(draws_total(orders, shield_lv, health, shield_hp, keys.drop_last()) == 0);
    assert(draws_total(orders, shield_lv, health, shield_hp, keys) == 0);
    let draws = choose|draws: Seq<u32>|
        #[trigger] draws_fit(draws, orders, shield_lv, health, shield_hp, keys) && draws.len() == draws_total(
            orders,
            shield_lv,
            health,
            shield_hp,
            keys,
        ) && dead == first_kills(draws, before);
    assert(draws.len() == 0);
    assert(dead.len() == 0);
    assert forall|j: int| 0 <= j < before.len() implies #[trigger] after[j] == before[j] by {
        assert(!dead.contains(j as u32));
    }
    assert(after =~= before);
}

/// Draw counts are never negative.
proof fn lemma_draws_nonneg(
    orders: Seq<AttackOrder>,
    shield_lv: Seq<u8>,
    health: Seq<u128>,
    shield_hp: Seq<u128>,
    key: (u8, u8),
)
    requires
        group_hp(orders, shield_lv, health, shield_hp, key) >= 0,
    ensures
        kills_of(orders, shield_lv, health, shield_hp, key) >= 0,
        group_draws(orders, shield_lv, health, shield_hp, key) >= 0,
{
    let n = group_size(orders, shield_lv, key) as int;
    let net = group_net(key);
    let hp = group_hp(orders, shield_lv, health, shield_hp, key);
    assert(net >= 0);
    if n != 0 && net != 0 && hp != 0 && hp / n != 0 {
        assert((n * net) / (hp / n) >= 0) by (nonlinear_arith)
            requires
                n > 0,
                net > 0,
                hp > 0,
                hp / n != 0,
        ;
    }
}

/// Extending the key prefix by one key keeps a marking valid.
proof fn lemma_marked_extend(
    before: Seq<u8>,
    after: Seq<u8>,
    dead: Seq<u32>,
    orders: Seq<AttackOrder>,
    shield_lv: Seq<u8>,
    health: Seq<u128>,
    shield_hp: Seq<u128>,
    keys: Seq<(u8, u8)>,
    g: int,
)
    requires
        0 <= g < keys.len(),
        kills_marked(before, after, dead, orders, shield_lv, health, shield_hp, keys.take(g)),
    ensures
        kills_marked(before, after, dead, orders, shield_lv, health, shield_hp, keys.take(g + 1)),
{
    let pre = keys.take(g);
    let ext = keys.take(g + 1);
    assert forall|i: int| 0 <= i < dead.len() implies lethal_target(
        orders,
        shield_lv,
        health,
        shield_hp,
        ext,
        #[trigger] dead[i],
    ) by {
        let t = dead[i];
        let k = choose|k: int|
            0 <= k < pre.len() && kills_of(orders, shield_lv, health, shield_hp, #[trigger] pre[k]) > 0
                && weapon_pool(orders, pre[k].0).contains(t);
        assert(ext[k] == pre[k]);
    }
}

/// Marks the targets destroyed by each group, in group order.
fn apply_kills(
    groups: &Vec<AttackGroup>,
    orders: &Vec<AttackOrder>,
    store: &mut EntityStore,
    destroyed: &mut Vec<u32>,
)
    requires
        old(store).wf(),
        groups_match(groups@, orders@, old(store).shield_lv@, old(store).health@, old(store).shield_hp@),
        forall|i: int| 0 <= i < orders@.len() ==> (#[trigger] orders@[i]).target_idx < old(store).len(),
        averages_positive(orders@, old(store).shield_lv@, old(store).health@, old(store).shield_hp@),
        damaging_hp_fits(orders@, old(store).shield_lv@, old(store).health@, old(store).shield_hp@),
    ensures
        final(store).wf(),
        *final(store) == (EntityStore { is_ruins: final(store).is_ruins, ..*old(store) }),
        final(destroyed)@.len() >= old(destroyed)@.len(),
        final(destroyed)@.take(old(destroyed)@.len() as int) == old(destroyed)@,
        kill_outcome(
            old(store).is_ruins@,
            final(store).is_ruins@,
            final(destroyed)@.skip(old(destroyed)@.len() as int),
            orders@,
            old(store).shield_lv@,
            old(store).health@,
            old(store).shield_hp@,
            group_keys(orders@, old(store).shield_lv@),
        ),
{
    let ghost sl: Seq<u8> = store.shield_lv@;
    let ghost he: Seq<u128> = store.health@;
    let ghost sh: Seq<u128> = store.shield_hp@;
    let ghost r0: Seq<u8> = store.is_ruins@;
    let ghost d0: Seq<u32> = destroyed@;
    let ghost store0: EntityStore = *store;
    let ghost keys: Seq<(u8, u8)> = group_keys(orders@, sl);
    let n_orders: usize = orders.len();
    let ng: usize = groups.len();
    proof {
        lemma_group_keys(orders@, sl);
        assert(keys.take(0) =~= Seq::<(u8, u8)>::empty());
        assert(destroyed@.skip(d0.len() as int) =~= Seq::<u32>::empty());
        assert(destroyed@.take(d0.len() as int) =~= d0);
    }
    let ghost mut drawn: Seq<u32> = Seq::empty();
    let mut g: usize = 0;
    while g < ng
        invariant
            draws_fit(drawn, orders@, sl, he, sh, keys.take(g as int)),
            drawn.len() == draws_total(orders@, sl, he, sh, keys.take(g as int)),
            destroyed@.skip(d0.len() as int) == first_kills(drawn, r0),
            ng == groups@.len(),
            ng == keys.len(),
            n_orders == orders@.len(),
            g <= ng,
            store.wf(),
            *store == (EntityStore { is_ruins: store.is_ruins, ..store0 }),
            store0.wf(),
            sl == store0.shield_lv@,
            he == store0.health@,
            sh == store0.shield_hp@,
            r0 == store0.is_ruins@,
            keys == group_keys(orders@, sl),
            groups_match(groups@, orders@, sl, he, sh),
            forall|i: int| 0 <= i < orders@.len() ==> (#[trigger] orders@[i]).target_idx < store0.len(),
            averages_positive(orders@, sl, he, sh),
            damaging_hp_fits(orders@, sl, he, sh),
            forall|k: (u8, u8)| #[trigger] keys.contains(k) ==> group_size(orders@, sl, k) > 0,
            destroyed@.len() >= d0.len(),
            destroyed@.take(d0.len() as int) == d0,
            kills_marked(r0, store.is_ruins@, destroyed@.skip(d0.len() as int), orders@, sl, he, sh, keys.take(g as int)),
        decreases ng - g,
    {
        let ghost key: (u8, u8) = keys[g as int];
        let ghost dead_start: int = destroyed@.len() - d0.len();
        proof {
            assert(groups@[g as int].weapon_lv == key.0);
            assert(keys.contains(key));
            lemma_group_monotone(orders@, 0, sl, he, sh, key);
            lemma_draws_nonneg(orders@, sl, he, sh, key);
            assert(keys.take(g + 1).drop_last() =~= keys.take(g as int));
            assert(keys.take(g + 1).last() == key);
            lemma_marked_extend(r0, store.is_ruins@, destroyed@.skip(d0.len() as int), orders@, sl, he, sh, keys, g as int);
        }
        let group: &AttackGroup = &groups[g];
        proof {
            assert(group.weapon_lv == key.0 && group.shield_lv == key.1);
            assert((group.weapon_lv, group.shield_lv) == key);
            if group_net(key) > 0 {
                assert(group_hp(orders@, sl, he, sh, key) <= u128::MAX);
                assert(group.total_hp == group_hp(orders@, sl, he, sh, key));
            }
        }
        let kills: u128 = kills_for(group, n_orders);
        proof {
            assert(kills == kills_of(orders@, sl, he, sh, key));
        }
        let ghost drawn0: Seq<u32> = drawn;
        if kills > 0 {
            let pool: Vec<u32> = pool_of(orders, group.weapon_lv);
            let draws: u128 = if kills < pool.len() as u128 {
                kills
            } else {
                pool.len() as u128
            };
            // Each draw destroys the drawn target unless it is already in
            // ruins (a target drawn twice is destroyed once).
            let mut d: u128 = 0;
            while d < draws
                invariant
                    d <= draws,
                    draws <= pool@.len(),
                    drawn.len() == drawn0.len() + d,
                    drawn.take(drawn0.len() as int) == drawn0,
                    forall|i: int| drawn0.len() <= i < drawn.len() ==> pool@.contains(#[trigger] drawn[i]),
                    destroyed@.skip(d0.len() as int) == first_kills(drawn, r0),
                    store.wf(),
                    *store == (EntityStore { is_ruins: store.is_ruins, ..store0 }),
                    store0.wf(),
                    r0 == store0.is_ruins@,
                    pool@ == weapon_pool(orders@, key.0),
                    kills_of(orders@, sl, he, sh, key) > 0,
                    key == keys[g as int],
                    0 <= g < keys.len(),
                    forall|i: int| 0 <= i < orders@.len() ==> (#[trigger] orders@[i]).target_idx < store0.len(),
                    destroyed@.len() >= d0.len(),
                    destroyed@.take(d0.len() as int) == d0,
                    kills_marked(r0, store.is_ruins@, destroyed@.skip(d0.len() as int), orders@, sl, he, sh, keys.take(g + 1)),
                decreases draws - d,
            {
                if let Some(t) = choose_target(&pool) {
                    let ghost dead0: Seq<u32> = destroyed@.skip(d0.len() as int);
                    let ghost drawn_before: Seq<u32> = drawn;
                    proof {
                        lemma_pool_targets(orders@, key.0, t);
                        drawn = drawn.push(t);
                        assert(drawn.drop_last() =~= drawn_before);
                        assert(drawn.take(drawn0.len() as int) =~= drawn_before.take(drawn0.len() as int));
                        assert forall|i: int| drawn0.len() <= i < drawn.len() implies pool@.contains(#[trigger] drawn[i]) by {
                            if i < drawn_before.len() {
                                assert(drawn[i] == drawn_before[i]);
                            }
                        }
                        assert(store.is_ruins@[t as int] == (if dead0.contains(t) {
                            1u8
                        } else {
                            r0[t as int]
                        }));
                    }
                    if store.is_ruins[t as usize] != 1 {
                        let ghost ru0: Seq<u8> = store.is_ruins@;
                        store.is_ruins.set(t as usize, 1);
                        destroyed.push(t);
                        proof {
                            let dead = destroyed@.skip(d0.len() as int);
                            assert(dead =~= dead0.push(t));
                            assert(destroyed@.take(d0.len() as int) =~= d0);
                            let kt = keys.take(g + 1);
                            assert(kt[g as int] == key);
                            assert(lethal_target(orders@, sl, he, sh, kt, t));
                            assert forall|j: int| 0 <= j < r0.len() implies #[trigger] store.is_ruins@[j] == (if dead.contains(j as u32) {
                                1u8
                            } else {
                                r0[j]
                            }) by {
                                if j == t {
                                    assert(dead[dead.len() - 1] == t);
                                } else if dead0.contains(j as u32) {
                                    let i = choose|i: int| 0 <= i < dead0.len() && dead0[i] == j as u32;
                                    assert(dead[i] == j as u32);
                                } else {
                                    assert(!dead.contains(j as u32)) by {
                                        if dead.contains(j as u32) {
                                            let i = choose|i: int| 0 <= i < dead.len() && dead[i] == j as u32;
                                            if i < dead0.len() {
                                                assert(dead0[i] == j as u32);
                                            }
                                        }
                                    }
                                }
                            }
                            assert forall|i: int| 0 <= i < dead.len() implies {
                                &&& (#[trigger] dead[i]) < r0.len()
                                &&& r0[dead[i] as int] != 1
                                &&& lethal_target(orders@, sl, he, sh, kt, dead[i])
                            } by {
                                if i < dead0.len() {
                                    assert(dead[i] == dead0[i]);
                                }
                            }
                        }
                    }
                }
                d = d + 1;
            }
            proof {
                assert(draws == group_draws(orders@, sl, he, sh, key));
            }
        }
        proof {
            let kt = keys.take(g + 1);
            let n = group_draws(orders@, sl, he, sh, key);
            assert(kt.drop_last() =~= keys.take(g as int));
            assert(kt.last() == key);
            assert(drawn.len() == drawn0.len() + n);
            assert(drawn.take(drawn.len() - n) =~= drawn0);
            assert(draws_fit(drawn, orders@, sl, he, sh, kt));
        }
        g = g + 1;
    }
    proof {
        assert(keys.take(ng as int) =~= keys);
        assert(draws_fit(drawn, orders@, sl, he, sh, keys));
    }
}

// ─────────────────────────────────────────────────────────────
// Charging the attackers
// ─────────────────────────────────────────────────────────────

/// Position within a slot of a byte that the charging phase may change:
/// elation (83), consecutive wins (87, 88) and consecutive losses (89, 90).
pub open spec fn is_battle_offset(r: int) -> bool {
    r == O_ELATION || (O_CWINS <= r < O_CLOSSES + 2)
}

/// Attacker `a`'s (energy, attack tokens, successful charges) after the
/// orders in sequence: an order of `a` is charged when `a` is active and
/// has at least its energy cost; a charge spends the cost and, for an order
/// that holds tokens, one token if any is left.
pub open spec fn ledger(orders: Seq<AttackOrder>, a: u32, active: bool, energy: u128, tokens: u8) -> (
    u128,
    u8,
    nat,
)
    decreases orders.len(),
{
    if orders.len() == 0 {
        (energy, tokens, 0nat)
    } else {
        let prev = ledger(orders.drop_last(), a, active, energy, tokens);
        let o = orders.last();
        if o.attacker_idx == a && active && prev.0 >= o.energy_cost {
            (
                (prev.0 - o.energy_cost) as u128,
                if o.has_tokens && prev.1 > 0 {
                    (prev.1 - 1) as u8
                } else {
                    prev.1
                },
                prev.2 + 1,
            )
        } else {
            prev
        }
    }
}

/// Elation after `c` charges: +2 each, capped at 100.
pub open spec fn elated(x: u8, c: nat) -> u8 {
    if c == 0 {
        x
    } else if x + 2 * c > 100 {
        100
    } else {
        (x + 2 * c) as u8
    }
}

/// Charges of attacker `a` in a battle over `orders` on `store`: how many
/// of its orders it can pay for in turn (none when it is in ruins).
pub open spec fn charges(orders: Seq<AttackOrder>, store: EntityStore, a: int) -> nat {
    ledger(orders, a as u32, store.is_ruins@[a] == 0, store.energy@[a], store.attack_tokens@[a]).2
}

/// Every attacker's attack count and consecutive wins stay in range after
/// its charges.
pub open spec fn counters_fit(orders: Seq<AttackOrder>, store: EntityStore) -> bool {
    &&& forall|a: int| 0 <= a < store.len() ==> store.total_attacks@[a] + #[trigger] charges(orders, store, a) <= u32::MAX
    &&& forall|a: int|
        0 <= a < store.len() ==> store.cold.u16_at(a as nat, O_CWINS as nat) + #[trigger] charges(orders, store, a)
            <= u16::MAX
}

/// An attacker in ruins is never charged.
proof fn lemma_ledger_inactive(orders: Seq<AttackOrder>, a: u32, energy: u128, tokens: u8)
    ensures
        ledger(orders, a, false, energy, tokens).2 == 0,
    decreases orders.len(),
{
    if orders.len() > 0 {
        lemma_ledger_inactive(orders.drop_last(), a, energy, tokens);
    }
}

/// Charges over a prefix of the orders never exceed those over all of them.
proof fn lemma_ledger_prefix(orders: Seq<AttackOrder>, n: int, a: u32, active: bool, energy: u128, tokens: u8)
    requires
        0 <= n <= orders.len(),
    ensures
        ledger(orders.subrange(0, n), a, active, energy, tokens).2 <= ledger(orders, a, active, energy, tokens).2,
    decreases orders.len(),
{
    if orders.len() > 0 {
        if n == orders.len() {
            assert(orders.subrange(0, n) =~= orders);
        } else {
            assert(orders.drop_last().subrange(0, n) =~= orders.subrange(0, n));
            lemma_ledger_prefix(orders.drop_last(), n, a, active, energy, tokens);
        }
    }
}

/// Charging never gives: an attacker ends with at most the energy and
/// tokens it had, charged at most once per order of its own.
pub proof fn lemma_charging_never_gives(orders: Seq<AttackOrder>, a: u32, active: bool, energy: u128, tokens: u8)
    ensures
        ledger(orders, a, active, energy, tokens).0 <= energy,
        ledger(orders, a, active, energy, tokens).1 <= tokens,
        ledger(orders, a, active, energy, tokens).2 <= orders.len(),
    decreases orders.len(),
{
    if orders.len() > 0 {
        lemma_charging_never_gives(orders.drop_last(), a, active, energy, tokens);
    }
}

/// A lone order of an active attacker that can pay for it is charged
/// once: the energy cost is spent, a token too when the order holds tokens
/// and one is left.
pub proof fn lemma_lone_order_charged(o: AttackOrder, energy: u128, tokens: u8)
    requires
        energy >= o.energy_cost,
    ensures
        ledger(seq![o], o.attacker_idx, true, energy, tokens) == (
            (energy - o.energy_cost) as u128,
            (if o.has_tokens && tokens > 0 {
                tokens - 1
            } else {
                tokens as int
            }) as u8,
            1nat,
        ),
{
    assert(seq![o].drop_last() =~= Seq::<AttackOrder>::empty());
    assert(ledger(seq![o].drop_last(), o.attacker_idx, true, energy, tokens) == (energy, tokens, 0nat));
}

/// Slot positions: `(j * 128 + r) % 128 == r` and the slot of a byte.
proof fn lemma_slot_pos(j: int, r: int)
    requires
        j >= 0,
        0 <= r < 128,
    ensures
        (j * 128 + r) % 128 == r,
        (j * 128 + r) / 128 == j,
{
    assert((j * 128 + r) % 128 == r && (j * 128 + r) / 128 == j) by (nonlinear_arith)
        requires
            j >= 0,
            0 <= r < 128,
    ;
}

/// Records one charged attack of `a` in its cold slot: elation +2 (capped
/// at 100), one more consecutive win, no consecutive losses.
fn record_win(cold: &mut ColdStore, a: u32)
    requires
        old(cold).wf(),
        a < old(cold).cap(),
        old(cold).u16_at(a as nat, O_CWINS as nat) < u16::MAX,
    ensures
        final(cold).wf(),
        final(cold).cap() == old(cold).cap(),
        final(cold).bytes().len() == old(cold).bytes().len(),
        final(cold).u8_at(a as nat, O_ELATION as nat) == elated(old(cold).u8_at(a as nat, O_ELATION as nat), 1),
        final(cold).u16_at(a as nat, O_CWINS as nat) == old(cold).u16_at(a as nat, O_CWINS as nat) + 1,
        final(cold).u16_at(a as nat, O_CLOSSES as nat) == 0,
        forall|pos: int|
            0 <= pos < old(cold).bytes().len() && !(a * SLOT_SIZE <= pos < a * SLOT_SIZE + SLOT_SIZE
                && is_battle_offset(pos - a * SLOT_SIZE)) ==> #[trigger] final(cold).bytes()[pos]
                == old(cold).bytes()[pos],
{
    let ghost c0: ColdStore = *cold;
    let el: u8 = cold.elation(a);
    let raised: u16 = el as u16 + 2;
    let capped: u16 = if raised < 100 {
        raised
    } else {
        100
    };
    cold.set_elation(a, capped as u8);
    let ghost c1: ColdStore = *cold;
    proof {
        vstd::bytes::lemma_auto_spec_u16_to_from_le_bytes();
        lemma_write_frame(c0, c1, a as nat, O_ELATION as nat, seq![capped as u8], a as nat, O_CWINS as nat, 2);
    }
    let wins: u16 = cold.consecutive_wins(a);
    cold.set_consecutive_wins(a, wins + 1);
    let ghost c2: ColdStore = *cold;
    cold.set_consecutive_losses(a, 0);
    proof {
        let an = a as nat;
        lemma_u8_roundtrip(c0, c1, an, O_ELATION as nat, capped as u8);
        lemma_u16_roundtrip(c1, c2, an, O_CWINS as nat, (wins + 1) as u16);
        lemma_u16_roundtrip(c2, *cold, an, O_CLOSSES as nat, 0);
        lemma_write_frame(c1, c2, an, O_CWINS as nat, vstd::bytes::spec_u16_to_le_bytes((wins + 1) as u16), an, O_ELATION as nat, 1);
        lemma_write_frame(c2, *cold, an, O_CLOSSES as nat, vstd::bytes::spec_u16_to_le_bytes(0), an, O_ELATION as nat, 1);
        lemma_write_frame(c2, *cold, an, O_CLOSSES as nat, vstd::bytes::spec_u16_to_le_bytes(0), an, O_CWINS as nat, 2);
        assert(c2.field(an, O_ELATION as nat, 1)[0] == c2.u8_at(an, O_ELATION as nat));
        assert(cold.field(an, O_ELATION as nat, 1)[0] == cold.u8_at(an, O_ELATION as nat));
        assert(c1.field(an, O_ELATION as nat, 1)[0] == c1.u8_at(an, O_ELATION as nat));
        vstd::bytes::lemma_auto_spec_u16_to_from_le_bytes();
        let p = a * SLOT_SIZE;
        assert forall|pos: int|
            0 <= pos < c0.bytes().len() && !(p <= pos < p + SLOT_SIZE && is_battle_offset(pos - p)) implies #[trigger] cold.bytes()[pos]
                == c0.bytes()[pos] by {
            assert(c1.bytes()[pos] == c0.bytes()[pos]);
            assert(c2.bytes()[pos] == c1.bytes()[pos]);
        }
    }
}

/// Attacker `a`'s energy, tokens and attack count follow its ledger over
/// `orders`, and its elation, consecutive wins and consecutive losses record
/// its charges.
pub open spec fn attacker_charged(before: EntityStore, after: EntityStore, orders: Seq<AttackOrder>, a: int) -> bool {
    let l = ledger(orders, a as u32, before.is_ruins@[a] == 0, before.energy@[a], before.attack_tokens@[a]);
    &&& after.energy@[a] == l.0
    &&& after.attack_tokens@[a] == l.1
    &&& after.total_attacks@[a] == before.total_attacks@[a] + l.2
    &&& after.cold.u8_at(a as nat, O_ELATION as nat) == elated(before.cold.u8_at(a as nat, O_ELATION as nat), l.2)
    &&& after.cold.u16_at(a as nat, O_CWINS as nat) == before.cold.u16_at(a as nat, O_CWINS as nat) + l.2
    &&& after.cold.u16_at(a as nat, O_CLOSSES as nat) == (if l.2 > 0 {
        0
    } else {
        before.cold.u16_at(a as nat, O_CLOSSES as nat)
    })
}

/// The effect of the charging phase from `before` to `after` over `orders`:
/// each attacker's energy, tokens and attack count follow its ledger, its
/// elation, consecutive wins and losses record its charges, and no other
/// cold byte changes.
pub open spec fn charged(before: EntityStore, after: EntityStore, orders: Seq<AttackOrder>) -> bool {
    &&& after.energy@.len() == before.energy@.len()
    &&& after.attack_tokens@.len() == before.attack_tokens@.len()
    &&& after.total_attacks@.len() == before.total_attacks@.len()
    &&& after.cold.cap() == before.cold.cap()
    &&& after.cold.bytes().len() == before.cold.bytes().len()
    &&& forall|a: int| 0 <= a < before.energy@.len() ==> #[trigger] attacker_charged(before, after, orders, a)
    &&& forall|pos: int|
        0 <= pos < before.cold.bytes().len() && !is_battle_offset(pos % 128) ==> #[trigger] after.cold.bytes()[pos]
            == before.cold.bytes()[pos]
}

/// One more order extends the ledger by one step.
proof fn lemma_ledger_step(
    orders: Seq<AttackOrder>,
    o: AttackOrder,
    a: u32,
    active: bool,
    energy: u128,
    tokens: u8,
)
    ensures
        ledger(orders.push(o), a, active, energy, tokens) == ({
            let prev = ledger(orders, a, active, energy, tokens);
            if o.attacker_idx == a && active && prev.0 >= o.energy_cost {
                (
                    (prev.0 - o.energy_cost) as u128,
                    if o.has_tokens && prev.1 > 0 {
                        (prev.1 - 1) as u8
                    } else {
                        prev.1
                    },
                    prev.2 + 1,
                )
            } else {
                prev
            }
        }),
{
    assert(orders.push(o).drop_last() =~= orders);
}

/// A byte of slot `b` lies outside slot `a` when `a != b`.
proof fn lemma_other_slot_byte(a: int, b: int, r: int)
    requires
        a >= 0,
        b >= 0,
        a != b,
        0 <= r < 128,
    ensures
        !(a * 128 <= b * 128 + r < a * 128 + 128),
{
    if a < b {
        assert(a * 128 + 128 <= b * 128) by (nonlinear_arith)
            requires
                a < b,
        ;
    } else {
        assert(b * 128 + 128 <= a * 128) by (nonlinear_arith)
            requires
                b < a,
        ;
    }
}

/// Charges every order whose attacker is active and can pay, in order.
fn charge_attackers(orders: &Vec<AttackOrder>, store: &mut EntityStore)
    requires
        old(store).wf(),
        forall|i: int| 0 <= i < orders@.len() ==> (#[trigger] orders@[i]).attacker_idx < old(store).len(),
        counters_fit(orders@, *old(store)),
    ensures
        final(store).wf(),
        *final(store) == (EntityStore {
            energy: final(store).energy,
            attack_tokens: final(store).attack_tokens,
            total_attacks: final(store).total_attacks,
            cold: final(store).cold,
            ..*old(store)
        }),
        charged(*old(store), *final(store), orders@),
{
    let ghost s0: EntityStore = *store;
    let n: usize = orders.len();
    let mut k: usize = 0;
    proof {
        assert(orders@.subrange(0, 0) =~= Seq::<AttackOrder>::empty());
    }
    while k < n
        invariant
            n == orders@.len(),
            k <= n,
            s0.wf(),
            store.wf(),
            *store == (EntityStore {
                energy: store.energy,
                attack_tokens: store.attack_tokens,
                total_attacks: store.total_attacks,
                cold: store.cold,
                ..s0
            }),
            forall|i: int| 0 <= i < orders@.len() ==> (#[trigger] orders@[i]).attacker_idx < s0.len(),
            counters_fit(orders@, s0),
            charged(s0, *store, orders@.subrange(0, k as int)),
        decreases n - k,
    {
        let o: AttackOrder = orders[k];
        let a: usize = o.attacker_idx as usize;
        let ghost prefix: Seq<AttackOrder> = orders@.subrange(0, k as int);
        let ghost before: EntityStore = *store;
        proof {
            assert(orders@.subrange(0, k + 1) =~= prefix.push(o));
            lemma_ledger_step(prefix, o, a as u32, s0.is_ruins@[a as int] == 0, s0.energy@[a as int], s0.attack_tokens@[a as int]);
            lemma_ledger_prefix(orders@, k + 1, a as u32, s0.is_ruins@[a as int] == 0, s0.energy@[a as int], s0.attack_tokens@[a as int]);
            assert(attacker_charged(s0, before, prefix, a as int));
            assert(charges(orders@, s0, a as int) == ledger(orders@, a as u32, s0.is_ruins@[a as int] == 0, s0.energy@[a as int], s0.attack_tokens@[a as int]).2);
        }
        if store.is_ruins[a] == 0 && store.energy[a] >= o.energy_cost {
            let e: u128 = store.energy[a];
            store.energy.set(a, e - o.energy_cost);
            if o.has_tokens && store.attack_tokens[a] > 0 {
                let t: u8 = store.attack_tokens[a];
                store.attack_tokens.set(a, t - 1);
            }
            let total: u32 = store.total_attacks[a];
            store.total_attacks.set(a, total + 1);
            record_win(&mut store.cold, o.attacker_idx);
        }
        proof {
            let after = *store;
            let p2 = orders@.subrange(0, k + 1);
            assert forall|b: int| 0 <= b < s0.energy@.len() implies #[trigger] attacker_charged(s0, after, p2, b) by {
                lemma_ledger_step(prefix, o, b as u32, s0.is_ruins@[b] == 0, s0.energy@[b], s0.attack_tokens@[b]);
                let lp = ledger(prefix, b as u32, s0.is_ruins@[b] == 0, s0.energy@[b], s0.attack_tokens@[b]);
                assert(attacker_charged(s0, before, prefix, b));
                if b != a {
                    assert(b as u32 != o.attacker_idx);
                    lemma_other_slot_byte(a as int, b, O_ELATION as int);
                    lemma_other_slot_byte(a as int, b, O_CWINS as int);
                    lemma_other_slot_byte(a as int, b, O_CWINS + 1);
                    lemma_other_slot_byte(a as int, b, O_CLOSSES as int);
                    lemma_other_slot_byte(a as int, b, O_CLOSSES + 1);
                    assert(b * 128 + 128 <= s0.cold.bytes().len()) by (nonlinear_arith)
                        requires
                            b < s0.energy@.len(),
                            s0.energy@.len() <= s0.cold.cap(),
                            s0.cold.bytes().len() >= s0.cold.cap() * 128,
                    ;
                    assert(after.cold.bytes()[b * 128 + 83] == before.cold.bytes()[b * 128 + 83]);
                    assert(after.cold.field(b as nat, O_CWINS as nat, 2) =~= before.cold.field(b as nat, O_CWINS as nat, 2));
                    assert(after.cold.field(b as nat, O_CLOSSES as nat, 2) =~= before.cold.field(b as nat, O_CLOSSES as nat, 2));
                } else {
                    assert(b as u32 == o.attacker_idx);
                }
            }
            assert forall|pos: int|
                0 <= pos < s0.cold.bytes().len() && !is_battle_offset(pos % 128) implies #[trigger] after.cold.bytes()[pos]
                    == s0.cold.bytes()[pos] by {
                assert(before.cold.bytes()[pos] == s0.cold.bytes()[pos]);
                if a * 128 <= pos < a * 128 + 128 {
                    lemma_slot_pos(a as int, pos - a * 128);
                }
            }
        }
        k = k + 1;
    }
    proof {
        assert(orders@.subrange(0, n as int) =~= orders@);
    }
}

pub struct BattleEngine {
    orders: Vec<AttackOrder>,
}

impl View for BattleEngine {
    type V = Seq<AttackOrder>;

    closed spec fn view(&self) -> Seq<AttackOrder> {
        self.orders@
    }
}

impl BattleEngine {
    pub fn new() -> (e: Self)
        ensures
            e@ == Seq::<AttackOrder>::empty(),
    {
        BattleEngine { orders: Vec::new() }
    }

    /// Queues one order.
    pub fn submit(&mut self, order: AttackOrder)
        ensures
            final(self)@ == old(self)@.push(order),
    {
        self.orders.push(order);
    }

    /// Queues a batch of orders after those already queued.
    pub fn submit_batch(&mut self, orders: Vec<AttackOrder>)
        ensures
            final(self)@ == old(self)@ + orders@,
    {
        let mut orders = orders;
        self.orders.append(&mut orders);
    }

    pub fn order_count(&self) -> (n: usize)
        ensures
            n == self@.len(),
    {
        self.orders.len()
    }

    /// Resolves all queued orders and clears the queue.
    ///
    /// Orders are grouped by (weapon level, target shield level). A group
    /// with damage destroys up to its kills: that many targets are drawn at
    /// random from the targets attacked with its weapon level, and each
    /// drawn target not yet in ruins is marked as ruins and appended to
    /// `destroyed`. Then every order whose attacker is still active and can
    /// pay its energy cost is charged: energy, a token when the order holds
    /// tokens, one attack, +2 elation (at most 100), one more consecutive
    /// win and no consecutive losses.
    pub fn execute(&mut self, store: &mut EntityStore, destroyed: &mut Vec<u32>)
        requires
            old(store).wf(),
            forall|i: int|
                0 <= i < old(self)@.len() ==> (#[trigger] old(self)@[i]).target_idx < old(store).len()
                    && old(self)@[i].attacker_idx < old(store).len(),
            target_hp_fits(old(self)@, old(store).health@, old(store).shield_hp@),
            damaging_hp_fits(old(self)@, old(store).shield_lv@, old(store).health@, old(store).shield_hp@),
            averages_positive(old(self)@, old(store).shield_lv@, old(store).health@, old(store).shield_hp@),
            counters_fit(old(self)@, *old(store)),
        ensures
            final(self)@ == Seq::<AttackOrder>::empty(),
            final(store).wf(),
            *final(store) == (EntityStore {
                is_ruins: final(store).is_ruins,
                energy: final(store).energy,
                attack_tokens: final(store).attack_tokens,
                total_attacks: final(store).total_attacks,
                cold: final(store).cold,
                ..*old(store)
            }),
            final(destroyed)@.len() >= old(destroyed)@.len(),
            final(destroyed)@.take(old(destroyed)@.len() as int) == old(destroyed)@,
            kill_outcome(
                old(store).is_ruins@,
                final(store).is_ruins@,
                final(destroyed)@.skip(old(destroyed)@.len() as int),
                old(self)@,
                old(store).shield_lv@,
                old(store).health@,
                old(store).shield_hp@,
                group_keys(old(self)@, old(store).shield_lv@),
            ),
            charged(EntityStore { is_ruins: final(store).is_ruins, ..*old(store) }, *final(store), old(self)@),
    {
        if self.orders.len() == 0 {
            proof {
                assert(destroyed@.take(destroyed@.len() as int) =~= destroyed@);
                assert(destroyed@.skip(destroyed@.len() as int) =~= Seq::<u32>::empty());
                assert(group_keys(self@, store.shield_lv@) =~= Seq::<(u8, u8)>::empty());
                assert(self@ =~= Seq::<AttackOrder>::empty());
                let none: Seq<u32> = Seq::empty();
                assert(draws_fit(none, self@, store.shield_lv@, store.health@, store.shield_hp@, group_keys(self@, store.shield_lv@)));
                assert(first_kills(none, store.is_ruins@) =~= destroyed@.skip(destroyed@.len() as int));
                assert forall|a: int| 0 <= a < store.energy@.len() implies #[trigger] attacker_charged(*store, *store, self@, a) by {}
            }
            return;
        }
        let groups: Vec<AttackGroup> = build_groups(&self.orders, store);
        let ghost start: EntityStore = *store;
        apply_kills(&groups, &self.orders, store, destroyed);
        proof {
            let mid = *store;
            let dead = destroyed@.skip(old(destroyed)@.len() as int);
            assert forall|a: int| 0 <= a < mid.len() implies #[trigger] charges(self@, mid, a) <= charges(self@, start, a) by {
                assert(mid.is_ruins@[a] == (if dead.contains(a as u32) { 1u8 } else { start.is_ruins@[a] }));
                if mid.is_ruins@[a] != 0 {
                    lemma_ledger_inactive(self@, a as u32, mid.energy@[a], mid.attack_tokens@[a]);
                }
            }
        }
        charge_attackers(&self.orders, store);
        self.orders.clear();
    }
}

} // verus!
