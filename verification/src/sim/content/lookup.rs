//! Lookups by id.

use vstd::prelude::*;

use crate::sim::content::{BuildingDef, Content, StrategyDef, UnitDef};
use crate::text;

verus! {

/// The first position from `k` on at which `id` stands in `ids`.
pub open spec fn first_at(ids: Seq<Seq<char>>, id: Seq<char>, k: int) -> Option<int>
    decreases ids.len() - k,
{
    if k < 0 || k >= ids.len() {
        None
    } else if ids[k] == id {
        Some(k)
    } else {
        first_at(ids, id, k + 1)
    }
}

/// [`first_at`] finds the first occurrence if there is one.
pub proof fn lemma_first_at(ids: Seq<Seq<char>>, id: Seq<char>, k: int)
    requires
        0 <= k <= ids.len(),
    ensures
        match first_at(ids, id, k) {
            Some(i) => k <= i < ids.len() && ids[i] == id && forall|j: int|
                k <= j < i ==> #[trigger] ids[j] != id,
            None => forall|j: int| k <= j < ids.len() ==> #[trigger] ids[j] != id,
        },
    decreases ids.len() - k,
{
    if k < ids.len() && ids[k] != id {
        lemma_first_at(ids, id, k + 1);
    }
}

/// No id stands in the list twice.
pub open spec fn distinct(ids: Seq<Seq<char>>) -> bool {
    forall|i: int, j: int| 0 <= i < j < ids.len() ==> #[trigger] ids[i] != #[trigger] ids[j]
}

/// With no id repeated, position to id to position is the identity.
pub proof fn index_id_index(ids: Seq<Seq<char>>, i: int)
    requires
        distinct(ids),
        0 <= i < ids.len(),
    ensures
        first_at(ids, ids[i], 0) == Some(i),
{
    lemma_first_at(ids, ids[i], 0);
}

pub open spec fn unit_ids(units: Seq<UnitDef>) -> Seq<Seq<char>> {
    units.map_values(|u: UnitDef| u.id@)
}

pub open spec fn building_ids(buildings: Seq<BuildingDef>) -> Seq<Seq<char>> {
    buildings.map_values(|b: BuildingDef| b.id@)
}

pub open spec fn strategy_ids(strategies: Seq<StrategyDef>) -> Seq<Seq<char>> {
    strategies.map_values(|s: StrategyDef| s.id@)
}

/// Does `id` stand in the list?
pub open spec fn listed(list: Seq<String>, id: Seq<char>) -> bool {
    first_at(text::views(list), id, 0) is Some
}

/// Does `id` stand in the list?
pub fn lists(list: &Vec<String>, id: &str) -> (r: bool)
    ensures
        r == listed(list@, id@),
{
    let ghost all = text::views(list@);
    let mut k: usize = 0;
    while k < list.len()
        invariant
            k <= list@.len(),
            all == text::views(list@),
            first_at(all, id@, 0) == first_at(all, id@, k as int),
        decreases list@.len() - k,
    {
        if text::same(list[k].as_str(), id) {
            return true;
        }
        k = k + 1;
    }
    false
}

impl Content {
    /// The position of a unit definition.
    pub open spec fn unit_pos(&self, id: Seq<char>) -> Option<int> {
        first_at(unit_ids(self.units@), id, 0)
    }

    /// The position of a building definition.
    pub open spec fn building_pos(&self, id: Seq<char>) -> Option<int> {
        first_at(building_ids(self.buildings@), id, 0)
    }

    /// The position of a strategy.
    pub open spec fn strategy_pos(&self, id: Seq<char>) -> Option<int> {
        first_at(strategy_ids(self.strategies@), id, 0)
    }

    /// Does the content hold scripts: does it list a strategy, or name one?
    pub open spec fn scripted(&self) -> bool {
        self.strategies@.len() > 0 || self.default_strategy@.len() > 0
    }

    /// Does the content list a strategy, or name one?
    pub fn is_scripted(&self) -> (r: bool)
        ensures
            r == self.scripted(),
    {
        self.strategies.len() > 0 || self.default_strategy.as_str().unicode_len() > 0
    }

    /// Can the building at `b` train the unit at `u`?
    pub open spec fn can_produce(&self, b: int, u: int) -> bool {
        &&& 0 <= b < self.buildings@.len()
        &&& 0 <= u < self.units@.len()
        &&& listed(self.buildings@[b].produces@, self.units@[u].id@)
    }

    /// Index of a unit definition by id.
    pub fn unit_index(&self, id: &str) -> (r: Option<usize>)
        ensures
            r is Some == self.unit_pos(id@) is Some,
            r matches Some(i) ==> self.unit_pos(id@) == Some(i as int) && i < self.units@.len(),
    {
        let ghost all = unit_ids(self.units@);
        let mut k: usize = 0;
        while k < self.units.len()
            invariant
                k <= self.units@.len(),
                all == unit_ids(self.units@),
                first_at(all, id@, 0) == first_at(all, id@, k as int),
            decreases self.units@.len() - k,
        {
            if text::same(self.units[k].id.as_str(), id) {
                return Some(k);
            }
            k = k + 1;
        }
        None
    }

    /// The unit definition with this id.
    pub fn unit(&self, id: &str) -> (r: Option<&UnitDef>)
        ensures
            r is Some == self.unit_pos(id@) is Some,
            r matches Some(u) ==> *u == self.units@[self.unit_pos(id@)->0],
    {
        match self.unit_index(id) {
            Some(i) => Some(&self.units[i]),
            None => None,
        }
    }

    /// Index of a building definition by id.
    pub fn building_index(&self, id: &str) -> (r: Option<usize>)
        ensures
            r is Some == self.building_pos(id@) is Some,
            r matches Some(i) ==> self.building_pos(id@) == Some(i as int) && i
                < self.buildings@.len(),
    {
        let ghost all = building_ids(self.buildings@);
        let mut k: usize = 0;
        while k < self.buildings.len()
            invariant
                k <= self.buildings@.len(),
                all == building_ids(self.buildings@),
                first_at(all, id@, 0) == first_at(all, id@, k as int),
            decreases self.buildings@.len() - k,
        {
            if text::same(self.buildings[k].id.as_str(), id) {
                return Some(k);
            }
            k = k + 1;
        }
        None
    }

    /// The building definition with this id.
    pub fn building(&self, id: &str) -> (r: Option<&BuildingDef>)
        ensures
            r is Some == self.building_pos(id@) is Some,
            r matches Some(b) ==> *b == self.buildings@[self.building_pos(id@)->0],
    {
        match self.building_index(id) {
            Some(i) => Some(&self.buildings[i]),
            None => None,
        }
    }

    /// Index of a strategy by id.
    pub fn strategy_index(&self, id: &str) -> (r: Option<usize>)
        ensures
            r is Some == self.strategy_pos(id@) is Some,
            r matches Some(i) ==> self.strategy_pos(id@) == Some(i as int) && i
                < self.strategies@.len(),
    {
        let ghost all = strategy_ids(self.strategies@);
        let mut k: usize = 0;
        while k < self.strategies.len()
            invariant
                k <= self.strategies@.len(),
                all == strategy_ids(self.strategies@),
                first_at(all, id@, 0) == first_at(all, id@, k as int),
            decreases self.strategies@.len() - k,
        {
            if text::same(self.strategies[k].id.as_str(), id) {
                return Some(k);
            }
            k = k + 1;
        }
        None
    }

    /// Can the building train the unit? A building makes only what its list
    /// names.
    pub fn produces(&self, building: usize, unit: usize) -> (r: bool)
        ensures
            r == self.can_produce(building as int, unit as int),
    {
        if building < self.buildings.len() && unit < self.units.len() {
            lists(&self.buildings[building].produces, self.units[unit].id.as_str())
        } else {
            false
        }
    }
}

} // verus!
