//! The scripts of the computer commanders: build orders, thresholds and
//! timings. Every duration is in ticks.

use vstd::prelude::*;

use crate::float::F32;

verus! {

/// One entry of a repeating army build order.
#[derive(Debug, Clone)]
pub struct ArmyItem {
    /// Unit id.
    pub unit: String,
    /// How many of this unit per cycle of the build order.
    pub count: u32,
}

/// The opening script.
#[derive(Debug, Clone)]
pub struct AiDef {
    /// Ticks between two decisions.
    pub think_interval_ticks: u32,
    /// Workers kept mining before spending on anything else.
    pub worker_target: u32,
    /// Id of the building it opens with.
    pub barracks: String,
    /// Earliest tick it will place that building.
    pub barracks_at_tick: u32,
    /// How far from the headquarters the building goes.
    pub barracks_offset: F32,
    /// The repeating army build order.
    pub army: Vec<ArmyItem>,
    /// Combat units wanted before an attack.
    pub attack_at_army: u32,
    /// Ticks between two attack waves.
    pub attack_interval_ticks: u32,
    /// Radius of the scatter around the point each wave aims at.
    pub attack_spread: F32,
}

/// One barracks a strategy opens.
#[derive(Debug, Clone)]
pub struct Opening {
    /// Building id.
    pub building: String,
    /// Earliest tick it goes up.
    pub at_tick: u32,
    /// How far from the headquarters it goes.
    pub offset: F32,
}

/// A named script.
#[derive(Debug, Clone)]
pub struct StrategyDef {
    pub id: String,
    pub think_interval_ticks: u32,
    pub worker_target: u32,
    /// Every barracks it opens, in order.
    pub barracks: Vec<Opening>,
    pub army: Vec<ArmyItem>,
    pub attack_at_army: u32,
    pub attack_interval_ticks: u32,
    pub attack_spread: F32,
}

/// The units in one cycle of a build order.
pub open spec fn army_size(army: Seq<ArmyItem>) -> nat
    decreases army.len(),
{
    if army.len() == 0 {
        0
    } else {
        army_size(army.drop_last()) + army.last().count as nat
    }
}

/// The entry that the `k`-th unit of one cycle belongs to: the first one whose
/// units and those before it are more than `k`.
pub open spec fn army_entry(army: Seq<ArmyItem>, k: int, i: int) -> bool {
    &&& 0 <= i < army.len()
    &&& army_size(army.take(i)) <= k < army_size(army.take(i + 1))
}

/// The unit that stands at place `n` of the endlessly repeating order.
pub open spec fn army_unit(army: Seq<ArmyItem>, n: int) -> Option<Seq<char>> {
    let size = army_size(army) as int;
    if size == 0 || size > u32::MAX {
        None
    } else {
        let k = n % size;
        let i = choose|i: int| army_entry(army, k, i);
        Some(army[i].unit@)
    }
}

proof fn lemma_army_size_grows(army: Seq<ArmyItem>, i: int, j: int)
    requires
        0 <= i <= j <= army.len(),
    ensures
        army_size(army.take(i)) <= army_size(army.take(j)),
    decreases j - i,
{
    if i < j {
        lemma_army_size_grows(army, i, j - 1);
        assert(army.take(j).drop_last() =~= army.take(j - 1));
    }
}

proof fn lemma_army_entry_unique(army: Seq<ArmyItem>, k: int, i: int, j: int)
    requires
        army_entry(army, k, i),
        army_entry(army, k, j),
    ensures
        i == j,
{
    if i < j {
        lemma_army_size_grows(army, i + 1, j);
    } else if j < i {
        lemma_army_size_grows(army, j + 1, i);
    }
}

/// Units in one cycle, or `None` if the counts do not fit.
pub fn cycle_len_of(army: &Vec<ArmyItem>) -> (r: Option<u32>)
    ensures
        r is Some == (army_size(army@) <= u32::MAX),
        r matches Some(n) ==> n == army_size(army@),
{
    let mut sum: u32 = 0;
    let mut i: usize = 0;
    while i < army.len()
        invariant
            i <= army@.len(),
            sum == army_size(army@.take(i as int)),
        decreases army@.len() - i,
    {
        proof {
            assert(army@.take(i + 1).drop_last() =~= army@.take(i as int));
            lemma_army_size_grows(army@, i + 1, army@.len() as int);
            assert(army@.take(army@.len() as int) =~= army@);
        }
        match sum.checked_add(army[i].count) {
            Some(s) => {
                sum = s;
            },
            None => {
                return None;
            },
        }
        i = i + 1;
    }
    assert(army@.take(army@.len() as int) =~= army@);
    Some(sum)
}

/// The position of the entry at place `n` of the repeating build order.
pub fn army_at_of(army: &Vec<ArmyItem>, n: u32) -> (r: Option<usize>)
    ensures
        r is Some == army_unit(army@, n as int) is Some,
        r matches Some(i) ==> i < army@.len() && army_unit(army@, n as int) == Some(
            army@[i as int].unit@,
        ) && army_entry(army@, n as int % army_size(army@) as int, i as int),
{
    let cycle: u32 = match cycle_len_of(army) {
        Some(c) => c,
        None => {
            return None;
        },
    };
    if cycle == 0 {
        return None;
    }
    let place: u32 = n % cycle;
    let mut k: u32 = place;
    let mut i: usize = 0;
    while i < army.len()
        invariant
            i <= army@.len(),
            cycle == army_size(army@),
            0 < cycle,
            place == n % cycle,
            place < cycle,
            k + army_size(army@.take(i as int)) == place,
        decreases army@.len() - i,
    {
        assert(army@.take(i + 1).drop_last() =~= army@.take(i as int));
        if k < army[i].count {
            proof {
                assert(army_entry(army@, place as int, i as int));
                let p = place as int;
                let j = choose|j: int| army_entry(army@, p, j);
                lemma_army_entry_unique(army@, p, i as int, j);
            }
            return Some(i);
        }
        k = k - army[i].count;
        i = i + 1;
    }
    assert(army@.take(army@.len() as int) =~= army@);
    None
}

/// The build order repeats: places one whole number of cycles apart hold the
/// same unit.
pub proof fn army_repeats(army: Seq<ArmyItem>, n: int, cycles: int)
    requires
        0 <= n,
        0 <= cycles,
    ensures
        army_unit(army, n + cycles * army_size(army)) == army_unit(army, n),
{
    let size = army_size(army) as int;
    if 0 < size {
        vstd::arithmetic::div_mod::lemma_mod_multiples_vanish(cycles, n, size);
        assert(size * cycles == cycles * size) by (nonlinear_arith);
    }
}

/// Every entry with a count comes up in every cycle.
pub proof fn army_visits_all(army: Seq<ArmyItem>, i: int) -> (n: int)
    requires
        0 <= i < army.len(),
        army[i].count > 0,
        army_size(army) <= u32::MAX,
    ensures
        0 <= n < army_size(army),
        army_unit(army, n) == Some(army[i].unit@),
{
    let n = army_size(army.take(i)) as int;
    assert(army.take(i + 1).drop_last() =~= army.take(i));
    lemma_army_size_grows(army, i + 1, army.len() as int);
    assert(army.take(army.len() as int) =~= army);
    let size = army_size(army) as int;
    vstd::arithmetic::div_mod::lemma_small_mod(n as nat, size as nat);
    let k = n % size;
    assert(army_entry(army, k, i));
    let j = choose|j: int| army_entry(army, k, j);
    lemma_army_entry_unique(army, k, i, j);
    n
}

impl AiDef {
    /// Units in one cycle of the build order, or `None` if they do not fit.
    pub fn cycle_len(&self) -> (r: Option<u32>)
        ensures
            r is Some == (army_size(self.army@) <= u32::MAX),
            r matches Some(n) ==> n == army_size(self.army@),
    {
        cycle_len_of(&self.army)
    }

    /// The `n`-th unit id of the endlessly repeating build order.
    pub fn army_at(&self, n: u32) -> (r: Option<&str>)
        ensures
            r is Some == army_unit(self.army@, n as int) is Some,
            r matches Some(id) ==> army_unit(self.army@, n as int) == Some(id@),
    {
        match army_at_of(&self.army, n) {
            Some(i) => Some(self.army[i].unit.as_str()),
            None => None,
        }
    }
}

impl StrategyDef {
    /// Units in one cycle of the build order, or `None` if they do not fit.
    pub fn cycle_len(&self) -> (r: Option<u32>)
        ensures
            r is Some == (army_size(self.army@) <= u32::MAX),
            r matches Some(n) ==> n == army_size(self.army@),
    {
        cycle_len_of(&self.army)
    }

    /// The `n`-th unit id of the endlessly repeating build order.
    pub fn army_at(&self, n: u32) -> (r: Option<&str>)
        ensures
            r is Some == army_unit(self.army@, n as int) is Some,
            r matches Some(id) ==> army_unit(self.army@, n as int) == Some(id@),
    {
        match army_at_of(&self.army, n) {
            Some(i) => Some(self.army[i].unit.as_str()),
            None => None,
        }
    }
}

} // verus!
