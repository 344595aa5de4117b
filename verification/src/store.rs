//! Structure-of-arrays entity store: hot per-player fields in vectors, cold
//! fields in the memory-mapped slot store.

use std::collections::HashMap;
use vstd::prelude::*;
use crate::coldstore::ColdStore;
use crate::math_engine::{
    calc_shield_hp, shield_hp_value, DURABILITY_BASE, INITIAL_ENERGY, INITIAL_HEALTH, MAX_HEALTH, SHIELD_DUR_BASE,
    TOKEN_BASE_MAX,
};

verus! {

/// `s` after allocating index `i`: a fresh index is appended, a reused one
/// is overwritten.
pub open spec fn placed<T>(s: Seq<T>, grew: bool, i: int, v: T) -> Seq<T> {
    if grew {
        s.push(v)
    } else {
        s.update(i, v)
    }
}

/// Initial `energy` of a freshly allocated entity.
pub open spec fn reset_energy() -> u128 {
    2000
}

/// Initial `health` of a freshly allocated entity.
pub open spec fn reset_health() -> u128 {
    3000
}

/// Initial `shield_hp` of a freshly allocated entity.
pub open spec fn reset_shield_hp() -> u128 {
    3615
}

/// Initial `dft` of a freshly allocated entity.
pub open spec fn reset_dft() -> u128 {
    0
}

/// Initial `weapon_lv` of a freshly allocated entity.
pub open spec fn reset_weapon_lv() -> u8 {
    1
}

/// Initial `shield_lv` of a freshly allocated entity.
pub open spec fn reset_shield_lv() -> u8 {
    1
}

/// Initial `collector_lv` of a freshly allocated entity.
pub open spec fn reset_collector_lv() -> u8 {
    1
}

/// Initial `radar_lv` of a freshly allocated entity.
pub open spec fn reset_radar_lv() -> u8 {
    1
}

/// Initial `engine_lv` of a freshly allocated entity.
pub open spec fn reset_engine_lv() -> u8 {
    1
}

/// Initial `x` of a freshly allocated entity.
pub open spec fn reset_x() -> i128 {
    0
}

/// Initial `y` of a freshly allocated entity.
pub open spec fn reset_y() -> i128 {
    0
}

/// Initial `z` of a freshly allocated entity.
pub open spec fn reset_z() -> i128 {
    0
}

/// Initial `attack_tokens` of a freshly allocated entity.
pub open spec fn reset_attack_tokens() -> u8 {
    3
}

/// Initial `shield_durability` of a freshly allocated entity.
pub open spec fn reset_shield_durability() -> u32 {
    259200
}

/// Initial `is_ruins` of a freshly allocated entity.
pub open spec fn reset_is_ruins() -> u8 {
    0
}

/// Initial `alliance_idx` of a freshly allocated entity.
pub open spec fn reset_alliance_idx() -> Option<u32> {
    None
}

/// Initial `is_newbie_until` of a freshly allocated entity.
pub open spec fn reset_is_newbie_until() -> u64 {
    u64::MAX
}

/// Initial `last_collect_time` of a freshly allocated entity.
pub open spec fn reset_last_collect_time() -> u64 {
    0
}

/// Initial `last_token_time` of a freshly allocated entity.
pub open spec fn reset_last_token_time() -> u64 {
    0
}

/// Initial `creation_time` of a freshly allocated entity.
pub open spec fn reset_creation_time() -> u64 {
    0
}

/// Initial `max_health` of a freshly allocated entity.
pub open spec fn reset_max_health() -> u32 {
    20000
}

/// Initial `collector_durability` of a freshly allocated entity.
pub open spec fn reset_collector_durability() -> u64 {
    86400
}

/// Initial `total_attacks` of a freshly allocated entity.
pub open spec fn reset_total_attacks() -> u32 {
    0
}

/// Initial `total_victims` of a freshly allocated entity.
pub open spec fn reset_total_victims() -> u32 {
    0
}

/// Initial `total_deaths` of a freshly allocated entity.
pub open spec fn reset_total_deaths() -> u32 {
    0
}

/// `k` is the first position in `list` whose id is `e`.
pub open spec fn is_first_match(list: Seq<(u32, u8)>, e: u32, k: int) -> bool {
    &&& 0 <= k < list.len()
    &&& list[k].0 == e
    &&& forall|j: int| 0 <= j < k ==> list[j].0 != e
}

/// Some entry of `list` has id `e`.
pub open spec fn has_match(list: Seq<(u32, u8)>, e: u32) -> bool {
    exists|k: int| 0 <= k < list.len() && list[k].0 == e
}

/// The first position of id `e` in `list`.
pub open spec fn first_match(list: Seq<(u32, u8)>, e: u32) -> int {
    choose|k: int| is_first_match(list, e, k)
}

/// Any entry with id `e` has a first one.
pub proof fn lemma_first_match_exists(list: Seq<(u32, u8)>, e: u32)
    requires
        has_match(list, e),
    ensures
        is_first_match(list, e, first_match(list, e)),
    decreases list.len(),
{
    if list[0].0 == e {
        assert(is_first_match(list, e, 0));
    } else {
        let t = list.drop_first();
        let k0 = choose|k: int| 0 <= k < list.len() && list[k].0 == e;
        assert(t[k0 - 1].0 == e);
        lemma_first_match_exists(t, e);
        let k = first_match(t, e);
        assert forall|j: int| 0 <= j < k + 1 implies list[j].0 != e by {
            if j > 0 {
                assert(list[j] == t[j - 1]);
            }
        }
        assert(is_first_match(list, e, k + 1));
    }
}

/// The first match is the chosen one.
pub proof fn lemma_first_match_unique(list: Seq<(u32, u8)>, e: u32, k: int)
    requires
        is_first_match(list, e, k),
    ensures
        has_match(list, e),
        first_match(list, e) == k,
{
    assert(list[k].0 == e);
    lemma_first_match_exists(list, e);
    let f = first_match(list, e);
    if f < k {
        assert(list[f].0 != e);
    }
    if f > k {
        assert(list[k].0 != e);
    }
}

/// Position of the first entry for `e`.
fn position_of(list: &Vec<(u32, u8)>, e: u32) -> (r: Option<usize>)
    ensures
        r matches Some(k) ==> is_first_match(list@, e, k as int),
        r is None ==> !has_match(list@, e),
{
    let n: usize = list.len();
    let mut k: usize = 0;
    while k < n
        invariant
            n == list@.len(),
            k <= n,
            forall|j: int| 0 <= j < k ==> list@[j].0 != e,
        decreases n - k,
    {
        if list[k].0 == e {
            return Some(k);
        }
        k = k + 1;
    }
    None
}

/// A grudge list after recording `severity` more against `e`: the first
/// entry for `e` grows (saturating at 255); otherwise `(e, severity)` is
/// appended and the oldest entry dropped once more than 30 are kept.
pub open spec fn enemies_after_add(list: Seq<(u32, u8)>, e: u32, severity: u8) -> Seq<(u32, u8)> {
    if has_match(list, e) {
        let k = first_match(list, e);
        let s = list[k].1 + severity;
        list.update(k, (e, if s > 255 { 255u8 } else { s as u8 }))
    } else {
        let pushed = list.push((e, severity));
        if pushed.len() > 30 {
            pushed.drop_first()
        } else {
            pushed
        }
    }
}

/// Severity recorded against `e`: that of its first entry, 0 if none.
pub open spec fn enemy_severity(list: Seq<(u32, u8)>, e: u32) -> u8 {
    if has_match(list, e) {
        list[first_match(list, e)].1
    } else {
        0
    }
}

/// After recording a grudge, the grudge against `e` is the old one plus
/// `severity`, saturating at 255.
pub proof fn lemma_add_then_has_enemy(list: Seq<(u32, u8)>, e: u32, severity: u8)
    ensures
        enemy_severity(enemies_after_add(list, e, severity), e) == (if enemy_severity(list, e) + severity
            > 255 {
            255
        } else {
            enemy_severity(list, e) + severity
        }),
{
    let after = enemies_after_add(list, e, severity);
    if has_match(list, e) {
        lemma_first_match_exists(list, e);
        let k = first_match(list, e);
        assert(is_first_match(after, e, k));
        lemma_first_match_unique(after, e, k);
    } else {
        let pushed = list.push((e, severity));
        let k = after.len() - 1;
        assert(after[k] == (e, severity));
        assert forall|j: int| 0 <= j < k implies after[j].0 != e by {
            if pushed.len() > 30 {
                assert(after[j] == list[j + 1]);
            } else {
                assert(after[j] == list[j]);
            }
        }
        assert(is_first_match(after, e, k));
        lemma_first_match_unique(after, e, k);
    }
}

pub struct EntityStore {
    pub cold: ColdStore,
    pub energy: Vec<u128>,
    pub health: Vec<u128>,
    pub shield_hp: Vec<u128>,
    pub dft: Vec<u128>,
    pub weapon_lv: Vec<u8>,
    pub shield_lv: Vec<u8>,
    pub collector_lv: Vec<u8>,
    pub radar_lv: Vec<u8>,
    pub engine_lv: Vec<u8>,
    pub x: Vec<i128>,
    pub y: Vec<i128>,
    pub z: Vec<i128>,
    pub attack_tokens: Vec<u8>,
    pub shield_durability: Vec<u32>,
    pub is_ruins: Vec<u8>,
    pub alliance_idx: Vec<Option<u32>>,
    pub is_newbie_until: Vec<u64>,
    pub last_collect_time: Vec<u64>,
    pub last_token_time: Vec<u64>,
    pub creation_time: Vec<u64>,
    pub max_health: Vec<u32>,
    pub collector_durability: Vec<u64>,
    pub total_attacks: Vec<u32>,
    pub total_victims: Vec<u32>,
    pub total_deaths: Vec<u32>,
    pub enemies: Vec<Vec<(u32, u8)>>,
    pub ids: Vec<String>,
    pub addresses: Vec<String>,
    pub names: Vec<String>,
    pub personality_types: Vec<&'static str>,
    pub id_map: HashMap<String, u32>,
    pub free_list: Vec<u32>,
    pub next_id: u32,
}

impl EntityStore {
    /// Every vector has one entry per allocated index, the cold store has a
    /// slot for each, and free indices are allocated ones.
    pub open spec fn wf(&self) -> bool {
        let n = self.energy@.len();
        &&& self.cold.wf()
        &&& n == self.next_id
        &&& n <= self.cold.cap()
        &&& self.health@.len() == n
        &&& self.shield_hp@.len() == n
        &&& self.dft@.len() == n
        &&& self.weapon_lv@.len() == n
        &&& self.shield_lv@.len() == n
        &&& self.collector_lv@.len() == n
        &&& self.radar_lv@.len() == n
        &&& self.engine_lv@.len() == n
        &&& self.x@.len() == n
        &&& self.y@.len() == n
        &&& self.z@.len() == n
        &&& self.attack_tokens@.len() == n
        &&& self.shield_durability@.len() == n
        &&& self.is_ruins@.len() == n
        &&& self.alliance_idx@.len() == n
        &&& self.is_newbie_until@.len() == n
        &&& self.last_collect_time@.len() == n
        &&& self.last_token_time@.len() == n
        &&& self.creation_time@.len() == n
        &&& self.max_health@.len() == n
        &&& self.collector_durability@.len() == n
        &&& self.total_attacks@.len() == n
        &&& self.total_victims@.len() == n
        &&& self.total_deaths@.len() == n
        &&& self.enemies@.len() == n
        &&& self.ids@.len() == n
        &&& self.addresses@.len() == n
        &&& self.names@.len() == n
        &&& self.personality_types@.len() == n
        &&& forall|k: int| 0 <= k < self.free_list@.len() ==> #[trigger] self.free_list@[k] < n
    }

    /// Number of allocated indices.
    pub open spec fn len(&self) -> nat {
        self.energy@.len()
    }

    /// The index that the next allocation returns.
    pub open spec fn next_index(&self) -> u32 {
        if self.free_list@.len() > 0 {
            self.free_list@.last()
        } else {
            self.next_id
        }
    }

    /// An empty store over the given cold store.
    pub fn new(cold: ColdStore) -> (s: Self)
        requires
            cold.wf(),
        ensures
            s.wf(),
            s.len() == 0,
            s.free_list@.len() == 0,
            s.cold == cold,
    {
        EntityStore {
            cold,
            energy: Vec::new(),
            health: Vec::new(),
            shield_hp: Vec::new(),
            dft: Vec::new(),
            weapon_lv: Vec::new(),
            shield_lv: Vec::new(),
            collector_lv: Vec::new(),
            radar_lv: Vec::new(),
            engine_lv: Vec::new(),
            x: Vec::new(),
            y: Vec::new(),
            z: Vec::new(),
            attack_tokens: Vec::new(),
            shield_durability: Vec::new(),
            is_ruins: Vec::new(),
            alliance_idx: Vec::new(),
            is_newbie_until: Vec::new(),
            last_collect_time: Vec::new(),
            last_token_time: Vec::new(),
            creation_time: Vec::new(),
            max_health: Vec::new(),
            collector_durability: Vec::new(),
            total_attacks: Vec::new(),
            total_victims: Vec::new(),
            total_deaths: Vec::new(),
            enemies: Vec::new(),
            ids: Vec::new(),
            addresses: Vec::new(),
            names: Vec::new(),
            personality_types: Vec::new(),
            id_map: HashMap::new(),
            free_list: Vec::new(),
            next_id: 0,
        }
    }

    /// Allocates an index: the last freed one if any, else a new one at the
    /// end; its hot fields and cold slot are reset to a fresh player's.
    pub fn allocate(&mut self) -> (idx: u32)
        requires
            old(self).wf(),
            old(self).free_list@.len() > 0 || (old(self).next_id < old(self).cold.cap() && old(self).next_id < u32::MAX),
        ensures
            final(self).wf(),
            idx == old(self).next_index(),
            old(self).free_list@.len() > 0 ==> final(self).free_list@ == old(self).free_list@.drop_last()
                && final(self).next_id == old(self).next_id,
            old(self).free_list@.len() == 0 ==> final(self).free_list@ == old(self).free_list@
                && final(self).next_id == old(self).next_id + 1,
            final(self).energy@ == placed(old(self).energy@, old(self).free_list@.len() == 0, idx as int, reset_energy()),
            final(self).health@ == placed(old(self).health@, old(self).free_list@.len() == 0, idx as int, reset_health()),
            final(self).shield_hp@ == placed(old(self).shield_hp@, old(self).free_list@.len() == 0, idx as int, reset_shield_hp()),
            final(self).dft@ == placed(old(self).dft@, old(self).free_list@.len() == 0, idx as int, reset_dft()),
            final(self).weapon_lv@ == placed(old(self).weapon_lv@, old(self).free_list@.len() == 0, idx as int, reset_weapon_lv()),
            final(self).shield_lv@ == placed(old(self).shield_lv@, old(self).free_list@.len() == 0, idx as int, reset_shield_lv()),
            final(self).collector_lv@ == placed(old(self).collector_lv@, old(self).free_list@.len() == 0, idx as int, reset_collector_lv()),
            final(self).radar_lv@ == placed(old(self).radar_lv@, old(self).free_list@.len() == 0, idx as int, reset_radar_lv()),
            final(self).engine_lv@ == placed(old(self).engine_lv@, old(self).free_list@.len() == 0, idx as int, reset_engine_lv()),
            final(self).x@ == placed(old(self).x@, old(self).free_list@.len() == 0, idx as int, reset_x()),
            final(self).y@ == placed(old(self).y@, old(self).free_list@.len() == 0, idx as int, reset_y()),
            final(self).z@ == placed(old(self).z@, old(self).free_list@.len() == 0, idx as int, reset_z()),
            final(self).attack_tokens@ == placed(old(self).attack_tokens@, old(self).free_list@.len() == 0, idx as int, reset_attack_tokens()),
            final(self).shield_durability@ == placed(old(self).shield_durability@, old(self).free_list@.len() == 0, idx as int, reset_shield_durability()),
            final(self).is_ruins@ == placed(old(self).is_ruins@, old(self).free_list@.len() == 0, idx as int, reset_is_ruins()),
            final(self).alliance_idx@ == placed(old(self).alliance_idx@, old(self).free_list@.len() == 0, idx as int, reset_alliance_idx()),
            final(self).is_newbie_until@ == placed(old(self).is_newbie_until@, old(self).free_list@.len() == 0, idx as int, reset_is_newbie_until()),
            final(self).last_collect_time@ == placed(old(self).last_collect_time@, old(self).free_list@.len() == 0, idx as int, reset_last_collect_time()),
            final(self).last_token_time@ == placed(old(self).last_token_time@, old(self).free_list@.len() == 0, idx as int, reset_last_token_time()),
            final(self).creation_time@ == placed(old(self).creation_time@, old(self).free_list@.len() == 0, idx as int, reset_creation_time()),
            final(self).max_health@ == placed(old(self).max_health@, old(self).free_list@.len() == 0, idx as int, reset_max_health()),
            final(self).collector_durability@ == placed(old(self).collector_durability@, old(self).free_list@.len() == 0, idx as int, reset_collector_durability()),
            final(self).total_attacks@ == placed(old(self).total_attacks@, old(self).free_list@.len() == 0, idx as int, reset_total_attacks()),
            final(self).total_victims@ == placed(old(self).total_victims@, old(self).free_list@.len() == 0, idx as int, reset_total_victims()),
            final(self).total_deaths@ == placed(old(self).total_deaths@, old(self).free_list@.len() == 0, idx as int, reset_total_deaths()),
            final(self).health@[idx as int] == INITIAL_HEALTH,
            final(self).energy@[idx as int] == INITIAL_ENERGY,
            final(self).shield_hp@[idx as int] == shield_hp_value(1),
            final(self).max_health@[idx as int] == MAX_HEALTH,
            final(self).dft@[idx as int] == 0,
            final(self).weapon_lv@[idx as int] == 1 && final(self).shield_lv@[idx as int] == 1,
            final(self).collector_lv@[idx as int] == 1 && final(self).radar_lv@[idx as int] == 1
                && final(self).engine_lv@[idx as int] == 1,
            final(self).attack_tokens@[idx as int] == TOKEN_BASE_MAX,
            final(self).shield_durability@[idx as int] == SHIELD_DUR_BASE,
            final(self).collector_durability@[idx as int] == DURABILITY_BASE,
            final(self).is_ruins@[idx as int] == 0,
            final(self).enemies@[idx as int]@ == Seq::<(u32, u8)>::empty(),
            forall|j: int| 0 <= j < old(self).len() && j != idx ==> final(self).enemies@[j] == old(self).enemies@[j],
            final(self).ids@[idx as int]@ == Seq::<char>::empty(),
            final(self).addresses@[idx as int]@ == Seq::<char>::empty(),
            final(self).names@[idx as int]@ == Seq::<char>::empty(),
            final(self).personality_types@[idx as int]@ == Seq::<char>::empty(),
            forall|j: int| 0 <= j < old(self).len() && j != idx ==> final(self).ids@[j] == old(self).ids@[j]
                && final(self).addresses@[j] == old(self).addresses@[j]
                && final(self).names@[j] == old(self).names@[j]
                && final(self).personality_types@[j] == old(self).personality_types@[j],
            final(self).cold.slot_is_reset(idx as nat),
            old(self).cold.same_except(&final(self).cold, idx as nat),
            final(self).id_map == old(self).id_map,
    {
        let idx: u32 = match self.free_list.pop() {
            Some(free) => free,
            None => {
                let i: u32 = self.next_id;
                self.next_id = i + 1;
                self.grow_one();
                i
            },
        };
        self.reset_at(idx);
        idx
    }

    /// Appends one default entry to every vector (a new index starts as ruins).
    fn grow_one(&mut self)
        requires
            old(self).health@.len() == old(self).energy@.len(),
            old(self).shield_hp@.len() == old(self).energy@.len(),
            old(self).dft@.len() == old(self).energy@.len(),
            old(self).weapon_lv@.len() == old(self).energy@.len(),
            old(self).shield_lv@.len() == old(self).energy@.len(),
            old(self).collector_lv@.len() == old(self).energy@.len(),
            old(self).radar_lv@.len() == old(self).energy@.len(),
            old(self).engine_lv@.len() == old(self).energy@.len(),
            old(self).x@.len() == old(self).energy@.len(),
            old(self).y@.len() == old(self).energy@.len(),
            old(self).z@.len() == old(self).energy@.len(),
            old(self).attack_tokens@.len() == old(self).energy@.len(),
            old(self).shield_durability@.len() == old(self).energy@.len(),
            old(self).is_ruins@.len() == old(self).energy@.len(),
            old(self).alliance_idx@.len() == old(self).energy@.len(),
            old(self).is_newbie_until@.len() == old(self).energy@.len(),
            old(self).last_collect_time@.len() == old(self).energy@.len(),
            old(self).last_token_time@.len() == old(self).energy@.len(),
            old(self).creation_time@.len() == old(self).energy@.len(),
            old(self).max_health@.len() == old(self).energy@.len(),
            old(self).collector_durability@.len() == old(self).energy@.len(),
            old(self).total_attacks@.len() == old(self).energy@.len(),
            old(self).total_victims@.len() == old(self).energy@.len(),
            old(self).total_deaths@.len() == old(self).energy@.len(),
            old(self).enemies@.len() == old(self).energy@.len(),
            old(self).ids@.len() == old(self).energy@.len(),
            old(self).addresses@.len() == old(self).energy@.len(),
            old(self).names@.len() == old(self).energy@.len(),
            old(self).personality_types@.len() == old(self).energy@.len(),
        ensures
            final(self).energy@ == old(self).energy@.push(0),
            final(self).health@ == old(self).health@.push(0),
            final(self).shield_hp@ == old(self).shield_hp@.push(0),
            final(self).dft@ == old(self).dft@.push(0),
            final(self).weapon_lv@ == old(self).weapon_lv@.push(0),
            final(self).shield_lv@ == old(self).shield_lv@.push(0),
            final(self).collector_lv@ == old(self).collector_lv@.push(0),
            final(self).radar_lv@ == old(self).radar_lv@.push(0),
            final(self).engine_lv@ == old(self).engine_lv@.push(0),
            final(self).x@ == old(self).x@.push(0),
            final(self).y@ == old(self).y@.push(0),
            final(self).z@ == old(self).z@.push(0),
            final(self).attack_tokens@ == old(self).attack_tokens@.push(0),
            final(self).shield_durability@ == old(self).shield_durability@.push(0),
            final(self).is_ruins@ == old(self).is_ruins@.push(1),
            final(self).alliance_idx@ == old(self).alliance_idx@.push(None),
            final(self).is_newbie_until@ == old(self).is_newbie_until@.push(0),
            final(self).last_collect_time@ == old(self).last_collect_time@.push(0),
            final(self).last_token_time@ == old(self).last_token_time@.push(0),
            final(self).creation_time@ == old(self).creation_time@.push(0),
            final(self).max_health@ == old(self).max_health@.push(0),
            final(self).collector_durability@ == old(self).collector_durability@.push(0),
            final(self).total_attacks@ == old(self).total_attacks@.push(0),
            final(self).total_victims@ == old(self).total_victims@.push(0),
            final(self).total_deaths@ == old(self).total_deaths@.push(0),
            final(self).enemies@.len() == old(self).enemies@.len() + 1,
            forall|j: int| 0 <= j < old(self).enemies@.len() ==> final(self).enemies@[j] == old(self).enemies@[j],
            final(self).ids@.len() == old(self).ids@.len() + 1,
            final(self).addresses@.len() == old(self).addresses@.len() + 1,
            final(self).names@.len() == old(self).names@.len() + 1,
            final(self).personality_types@.len() == old(self).personality_types@.len() + 1,
            forall|j: int| 0 <= j < old(self).ids@.len() ==> final(self).ids@[j] == old(self).ids@[j]
                && final(self).addresses@[j] == old(self).addresses@[j]
                && final(self).names@[j] == old(self).names@[j]
                && final(self).personality_types@[j] == old(self).personality_types@[j],
            final(self).cold == old(self).cold,
            final(self).free_list == old(self).free_list,
            final(self).next_id == old(self).next_id,
            final(self).id_map == old(self).id_map,
    {
        self.energy.push(0);
        self.health.push(0);
        self.shield_hp.push(0);
        self.dft.push(0);
        self.weapon_lv.push(0);
        self.shield_lv.push(0);
        self.collector_lv.push(0);
        self.radar_lv.push(0);
        self.engine_lv.push(0);
        self.x.push(0);
        self.y.push(0);
        self.z.push(0);
        self.attack_tokens.push(0);
        self.shield_durability.push(0);
        self.is_ruins.push(1);
        self.alliance_idx.push(None);
        self.is_newbie_until.push(0);
        self.last_collect_time.push(0);
        self.last_token_time.push(0);
        self.creation_time.push(0);
        self.max_health.push(0);
        self.collector_durability.push(0);
        self.total_attacks.push(0);
        self.total_victims.push(0);
        self.total_deaths.push(0);
        self.enemies.push(Vec::new());
        self.ids.push(String::new());
        self.addresses.push(String::new());
        self.names.push(String::new());
        self.personality_types.push("");
    }

    /// Resets index `i` to a fresh player's values.
    fn reset_at(&mut self, i: u32)
        requires
            old(self).cold.wf(),
            i < old(self).cold.cap(),
            i < old(self).energy@.len(),
            old(self).health@.len() == old(self).energy@.len(),
            old(self).shield_hp@.len() == old(self).energy@.len(),
            old(self).dft@.len() == old(self).energy@.len(),
            old(self).weapon_lv@.len() == old(self).energy@.len(),
            old(self).shield_lv@.len() == old(self).energy@.len(),
            old(self).collector_lv@.len() == old(self).energy@.len(),
            old(self).radar_lv@.len() == old(self).energy@.len(),
            old(self).engine_lv@.len() == old(self).energy@.len(),
            old(self).x@.len() == old(self).energy@.len(),
            old(self).y@.len() == old(self).energy@.len(),
            old(self).z@.len() == old(self).energy@.len(),
            old(self).attack_tokens@.len() == old(self).energy@.len(),
            old(self).shield_durability@.len() == old(self).energy@.len(),
            old(self).is_ruins@.len() == old(self).energy@.len(),
            old(self).alliance_idx@.len() == old(self).energy@.len(),
            old(self).is_newbie_until@.len() == old(self).energy@.len(),
            old(self).last_collect_time@.len() == old(self).energy@.len(),
            old(self).last_token_time@.len() == old(self).energy@.len(),
            old(self).creation_time@.len() == old(self).energy@.len(),
            old(self).max_health@.len() == old(self).energy@.len(),
            old(self).collector_durability@.len() == old(self).energy@.len(),
            old(self).total_attacks@.len() == old(self).energy@.len(),
            old(self).total_victims@.len() == old(self).energy@.len(),
            old(self).total_deaths@.len() == old(self).energy@.len(),
            old(self).enemies@.len() == old(self).energy@.len(),
            old(self).ids@.len() == old(self).energy@.len(),
            old(self).addresses@.len() == old(self).energy@.len(),
            old(self).names@.len() == old(self).energy@.len(),
            old(self).personality_types@.len() == old(self).energy@.len(),
        ensures
            final(self).energy@ == old(self).energy@.update(i as int, reset_energy()),
            final(self).health@ == old(self).health@.update(i as int, reset_health()),
            final(self).shield_hp@ == old(self).shield_hp@.update(i as int, reset_shield_hp()),
            final(self).dft@ == old(self).dft@.update(i as int, reset_dft()),
            final(self).weapon_lv@ == old(self).weapon_lv@.update(i as int, reset_weapon_lv()),
            final(self).shield_lv@ == old(self).shield_lv@.update(i as int, reset_shield_lv()),
            final(self).collector_lv@ == old(self).collector_lv@.update(i as int, reset_collector_lv()),
            final(self).radar_lv@ == old(self).radar_lv@.update(i as int, reset_radar_lv()),
            final(self).engine_lv@ == old(self).engine_lv@.update(i as int, reset_engine_lv()),
            final(self).x@ == old(self).x@.update(i as int, reset_x()),
            final(self).y@ == old(self).y@.update(i as int, reset_y()),
            final(self).z@ == old(self).z@.update(i as int, reset_z()),
            final(self).attack_tokens@ == old(self).attack_tokens@.update(i as int, reset_attack_tokens()),
            final(self).shield_durability@ == old(self).shield_durability@.update(i as int, reset_shield_durability()),
            final(self).is_ruins@ == old(self).is_ruins@.update(i as int, reset_is_ruins()),
            final(self).alliance_idx@ == old(self).alliance_idx@.update(i as int, reset_alliance_idx()),
            final(self).is_newbie_until@ == old(self).is_newbie_until@.update(i as int, reset_is_newbie_until()),
            final(self).last_collect_time@ == old(self).last_collect_time@.update(i as int, reset_last_collect_time()),
            final(self).last_token_time@ == old(self).last_token_time@.update(i as int, reset_last_token_time()),
            final(self).creation_time@ == old(self).creation_time@.update(i as int, reset_creation_time()),
            final(self).max_health@ == old(self).max_health@.update(i as int, reset_max_health()),
            final(self).collector_durability@ == old(self).collector_durability@.update(i as int, reset_collector_durability()),
            final(self).total_attacks@ == old(self).total_attacks@.update(i as int, reset_total_attacks()),
            final(self).total_victims@ == old(self).total_victims@.update(i as int, reset_total_victims()),
            final(self).total_deaths@ == old(self).total_deaths@.update(i as int, reset_total_deaths()),
            final(self).enemies@.len() == old(self).enemies@.len(),
            final(self).enemies@[i as int]@ == Seq::<(u32, u8)>::empty(),
            forall|j: int| 0 <= j < old(self).enemies@.len() && j != i ==> final(self).enemies@[j] == old(self).enemies@[j],
            final(self).ids@.len() == old(self).ids@.len(),
            final(self).addresses@.len() == old(self).addresses@.len(),
            final(self).names@.len() == old(self).names@.len(),
            final(self).personality_types@.len() == old(self).personality_types@.len(),
            final(self).ids@[i as int]@ == Seq::<char>::empty(),
            final(self).addresses@[i as int]@ == Seq::<char>::empty(),
            final(self).names@[i as int]@ == Seq::<char>::empty(),
            final(self).personality_types@[i as int]@ == Seq::<char>::empty(),
            forall|j: int| 0 <= j < old(self).ids@.len() && j != i ==> final(self).ids@[j] == old(self).ids@[j]
                && final(self).addresses@[j] == old(self).addresses@[j]
                && final(self).names@[j] == old(self).names@[j]
                && final(self).personality_types@[j] == old(self).personality_types@[j],
            final(self).cold.wf(),
            final(self).cold.slot_is_reset(i as nat),
            old(self).cold.same_except(&final(self).cold, i as nat),
            final(self).free_list == old(self).free_list,
            final(self).next_id == old(self).next_id,
            final(self).id_map == old(self).id_map,
    {
        let i: usize = i as usize;
        self.energy.set(i, 2000);
        self.health.set(i, 3000);
        self.shield_hp.set(i, 3615);
        self.dft.set(i, 0);
        self.weapon_lv.set(i, 1);
        self.shield_lv.set(i, 1);
        self.collector_lv.set(i, 1);
        self.radar_lv.set(i, 1);
        self.engine_lv.set(i, 1);
        self.x.set(i, 0);
        self.y.set(i, 0);
        self.z.set(i, 0);
        self.attack_tokens.set(i, 3);
        self.shield_durability.set(i, 259200);
        self.is_ruins.set(i, 0);
        self.alliance_idx.set(i, None);
        self.is_newbie_until.set(i, u64::MAX);
        self.last_collect_time.set(i, 0);
        self.last_token_time.set(i, 0);
        self.creation_time.set(i, 0);
        self.max_health.set(i, 20000);
        self.collector_durability.set(i, 86400);
        self.total_attacks.set(i, 0);
        self.total_victims.set(i, 0);
        self.total_deaths.set(i, 0);
        self.enemies.set(i, Vec::new());
        self.ids.set(i, String::new());
        self.addresses.set(i, String::new());
        self.names.set(i, String::new());
        self.personality_types.set(i, "");
        proof {
            reveal_strlit("");
        }
        self.cold.reset_slot(i as u32);
    }

    /// Index `idx` is allocated and not in ruins.
    pub open spec fn active(&self, idx: int) -> bool {
        0 <= idx < self.ids@.len() && self.is_ruins@[idx] == 0
    }

    pub fn is_active(&self, idx: u32) -> (r: bool)
        requires
            self.wf(),
        ensures
            r == self.active(idx as int),
    {
        let i: usize = idx as usize;
        i < self.ids.len() && self.is_ruins[i] == 0
    }

    /// Sum of the five system levels of `idx`.
    pub open spec fn level_sum(&self, idx: int) -> int {
        self.collector_lv@[idx] + self.weapon_lv@[idx] + self.shield_lv@[idx] + self.radar_lv@[idx]
            + self.engine_lv@[idx]
    }

    pub fn total_level(&self, idx: u32) -> (r: u32)
        requires
            self.wf(),
            idx < self.len(),
        ensures
            r == self.level_sum(idx as int),
    {
        let i: usize = idx as usize;
        self.collector_lv[i] as u32 + self.weapon_lv[i] as u32 + self.shield_lv[i] as u32
            + self.radar_lv[i] as u32 + self.engine_lv[i] as u32
    }

    /// Shield hit points of `idx` as a percentage of the level's maximum,
    /// truncated to a byte.
    pub fn shield_percent(&self, idx: u32) -> (r: u8)
        requires
            self.wf(),
            idx < self.len(),
            self.shield_hp@[idx as int] * 100 <= u128::MAX,
        ensures
            r == ((self.shield_hp@[idx as int] * 100 / shield_hp_value(self.shield_lv@[idx as int] as int)) as u8),
    {
        let i: usize = idx as usize;
        let hp: u128 = self.shield_hp[i];
        proof {
            assert(shield_hp_value(self.shield_lv@[idx as int] as int) <= 3600 + 15 * 255 * 255) by (nonlinear_arith)
                requires
                    self.shield_lv@[idx as int] <= 255,
            ;
        }
        let max: u128 = calc_shield_hp(self.shield_lv[i] as u128);
        if max == 0 {
            return 0;
        }
        (#[verifier::truncate] ((hp * 100 / max) as u8))
    }

    /// Records `severity` more grudge of `idx` against `enemy_idx`.
    pub fn add_enemy(&mut self, idx: u32, enemy_idx: u32, severity: u8)
        requires
            old(self).wf(),
            idx < old(self).len(),
        ensures
            final(self).wf(),
            final(self).enemies@ == old(self).enemies@.update(
                idx as int,
                final(self).enemies@[idx as int],
            ),
            final(self).enemies@[idx as int]@ == enemies_after_add(old(self).enemies@[idx as int]@, enemy_idx, severity),
            *final(self) == (EntityStore { enemies: final(self).enemies, ..*old(self) }),
    {
        let i: usize = idx as usize;
        let ghost list0: Seq<(u32, u8)> = self.enemies@[i as int]@;
        match position_of(&self.enemies[i], enemy_idx) {
            Some(k) => {
                let cur: u8 = self.enemies[i][k].1;
                let grown: u8 = cur.saturating_add(severity);
                let grown: u8 = if grown > 255 {
                    255
                } else {
                    grown
                };
                self.enemies[i].set(k, (enemy_idx, grown));
                proof {
                    lemma_first_match_unique(list0, enemy_idx, k as int);
                }
            },
            None => {
                self.enemies[i].push((enemy_idx, severity));
                if self.enemies[i].len() > 30 {
                    self.enemies[i].remove(0);
                }
            },
        }
    }

    /// The grudge of `idx` against `enemy_idx` (0 when there is none).
    pub fn has_enemy(&self, idx: u32, enemy_idx: u32) -> (r: u8)
        requires
            self.wf(),
            idx < self.len(),
        ensures
            r == enemy_severity(self.enemies@[idx as int]@, enemy_idx),
    {
        let list: &Vec<(u32, u8)> = &self.enemies[idx as usize];
        match position_of(list, enemy_idx) {
            Some(k) => {
                proof {
                    lemma_first_match_unique(list@, enemy_idx, k as int);
                }
                list[k].1
            },
            None => 0,
        }
    }

    /// The allocated indices that are not in ruins, in increasing order.
    pub fn active_indices(&self) -> (r: Vec<u32>)
        requires
            self.wf(),
        ensures
            forall|k: int| 0 <= k < r@.len() ==> self.active(#[trigger] r@[k] as int),
            forall|a: int, b: int| 0 <= a < b < r@.len() ==> r@[a] < r@[b],
            forall|i: u32| self.active(i as int) ==> #[trigger] r@.contains(i),
    {
        let mut out: Vec<u32> = Vec::new();
        let mut i: u32 = 0;
        while i < self.next_id
            invariant
                self.wf(),
                i <= self.next_id,
                forall|k: int| 0 <= k < out@.len() ==> self.active(#[trigger] out@[k] as int) && out@[k] < i,
                forall|a: int, b: int| 0 <= a < b < out@.len() ==> out@[a] < out@[b],
                forall|j: u32| j < i && self.active(j as int) ==> #[trigger] out@.contains(j),
            decreases self.next_id - i,
        {
            let ghost prev: Seq<u32> = out@;
            if self.is_active(i) {
                out.push(i);
                proof {
                    assert(out@[out@.len() - 1] == i);
                }
            }
            proof {
                assert forall|j: u32| j < i + 1 && self.active(j as int) implies #[trigger] out@.contains(j) by {
                    if j < i {
                        assert(prev.contains(j));
                        let w = choose|w: int| 0 <= w < prev.len() && prev[w] == j;
                        assert(out@[w] == j);
                    } else {
                        assert(out@[out@.len() - 1] == j);
                    }
                }
            }
            i = i + 1;
        }
        out
    }
}


/// A freshly allocated entity starts as a new player does: the same
/// energy, health, shield, maximum health, levels, tokens and durabilities
/// that a newly founded civilization gets.
pub proof fn lemma_fresh_entity_is_new_player()
    ensures
        reset_health() == INITIAL_HEALTH,
        reset_energy() == INITIAL_ENERGY,
        reset_shield_hp() == shield_hp_value(1),
        reset_max_health() == MAX_HEALTH,
        reset_dft() == 0,
        reset_weapon_lv() == 1 && reset_shield_lv() == 1 && reset_collector_lv() == 1 && reset_radar_lv() == 1
            && reset_engine_lv() == 1,
        reset_attack_tokens() == TOKEN_BASE_MAX,
        reset_shield_durability() == SHIELD_DUR_BASE,
        reset_collector_durability() == DURABILITY_BASE,
        reset_is_ruins() == 0,
{
}

} // verus!
