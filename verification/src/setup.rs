//! What stands in the world when a match starts.

use vstd::prelude::*;

use crate::sim::combat::Health;
use crate::sim::content::Content;
use crate::sim::spatial::Faction;
use crate::sim::UnitKind;

verus! {

/// Seed of the shipped match.
pub const MATCH_SEED: u64 = 20_260_829;

/// A thing to put into the world, in whole world units.
#[allow(inconsistent_fields)]
#[derive(Clone, Copy, PartialEq, Eq, Structural, Debug)]
pub enum Spawn {
    Building { def: usize, faction: Faction, x: i32, y: i32, health: Option<Health> },
    Unit { def: usize, kind: UnitKind, faction: Faction, x: i32, y: i32, health: Health },
    Node { amount: u32, x: i32, y: i32 },
}

/// A unit of the roster, with the pool its defense buys.
pub open spec fn unit_spawn(content: &Content, def: int, f: Faction, x: int, y: int) -> Spawn {
    Spawn::Unit {
        def: def as usize,
        kind: content.units@[def].mvp_kind,
        faction: f,
        x: x as i32,
        y: y as i32,
        health: Health::full(content, def),
    }
}

/// A building with the pool its defense buys.
pub open spec fn building_spawn(content: &Content, def: int, f: Faction, x: int, y: int) -> Spawn {
    Spawn::Building {
        def: def as usize,
        faction: f,
        x: x as i32,
        y: y as i32,
        health: Some(Health::full_building(content, def)),
    }
}

/// A deposit.
pub open spec fn node_spawn(amount: u32, x: int, y: int) -> Spawn {
    Spawn::Node { amount, x: x as i32, y: y as i32 }
}

pub fn spawn_unit(content: &Content, def: usize, faction: Faction, x: i32, y: i32) -> (r: Spawn)
    requires
        def < content.units@.len(),
    ensures
        r == unit_spawn(content, def as int, faction, x as int, y as int),
{
    Spawn::Unit {
        def,
        kind: content.units[def].mvp_kind,
        faction,
        x,
        y,
        health: Health::from_def(content, def),
    }
}

pub fn spawn_building(content: &Content, def: usize, faction: Faction, x: i32, y: i32) -> (r: Spawn)
    ensures
        r == building_spawn(content, def as int, faction, x as int, y as int),
{
    Spawn::Building {
        def,
        faction,
        x,
        y,
        health: Some(Health::from_building_def(content, def)),
    }
}

/// The world of the shipped match, for its five definitions: the player's eight
/// units, the two headquarters, the opponent's workers and the deposits.
pub open spec fn shipped_world(
    content: &Content,
    worker: int,
    bulwark: int,
    sentinel: int,
    hq: int,
) -> Seq<Spawn> {
    seq![
        unit_spawn(content, worker, Faction::A, -380, 60),
        unit_spawn(content, worker, Faction::A, -330, 30),
        unit_spawn(content, worker, Faction::A, -370, -10),
        unit_spawn(content, bulwark, Faction::A, -230, -40),
        unit_spawn(content, bulwark, Faction::A, -180, -80),
        unit_spawn(content, bulwark, Faction::A, -140, -20),
        unit_spawn(content, sentinel, Faction::A, -260, 170),
        unit_spawn(content, sentinel, Faction::A, -210, 200),
        building_spawn(content, hq, Faction::A, -420, 120),
        building_spawn(content, hq, Faction::B, 420, -120),
        unit_spawn(content, worker, Faction::B, 460, -150),
        unit_spawn(content, worker, Faction::B, 460, -120),
        unit_spawn(content, worker, Faction::B, 460, -90),
        node_spawn(1500, -240, 60),
        node_spawn(1500, 240, -60),
        node_spawn(1500, 0, 260),
    ]
}

/// The world of the shipped match, in the order it is spawned. `None` if the
/// content lacks one of the definitions it is made of.
pub fn setup(content: &Content) -> (r: Option<Vec<Spawn>>)
    ensures
        match (
            content.unit_pos("worker"@),
            content.unit_pos("bulwark"@),
            content.unit_pos("sentinel"@),
            content.building_pos("hq"@),
        ) {
            (Some(w), Some(b), Some(s), Some(h)) => r matches Some(all) && all@ == shipped_world(
                content,
                w,
                b,
                s,
                h,
            ),
            _ => r is None,
        },
{
    let (a, b) = (Faction::A, Faction::B);
    let (worker, bulwark, sentinel, hq) = match (
        content.unit_index("worker"),
        content.unit_index("bulwark"),
        content.unit_index("sentinel"),
        content.building_index("hq"),
    ) {
        (Some(w), Some(u), Some(s), Some(h)) => (w, u, s, h),
        _ => {
            return None;
        },
    };
    let mut all: Vec<Spawn> = Vec::new();
    all.push(spawn_unit(content, worker, a, -380, 60));
    all.push(spawn_unit(content, worker, a, -330, 30));
    all.push(spawn_unit(content, worker, a, -370, -10));
    all.push(spawn_unit(content, bulwark, a, -230, -40));
    all.push(spawn_unit(content, bulwark, a, -180, -80));
    all.push(spawn_unit(content, bulwark, a, -140, -20));
    all.push(spawn_unit(content, sentinel, a, -260, 170));
    all.push(spawn_unit(content, sentinel, a, -210, 200));
    all.push(spawn_building(content, hq, a, -420, 120));
    all.push(spawn_building(content, hq, b, 420, -120));
    let mut i: i32 = 0;
    let ghost before = all@;
    while i < 3
        invariant
            0 <= i <= 3,
            worker < content.units@.len(),
            b == Faction::B,
            all@ == before + Seq::new(
                i as nat,
                |k: int| unit_spawn(content, worker as int, Faction::B, 460, 30 * k - 150),
            ),
        decreases 3 - i,
    {
        all.push(spawn_unit(content, worker, b, 420 + 40, -120 + (30 * i - 30)));
        assert(all@ =~= before + Seq::new(
            (i + 1) as nat,
            |k: int| unit_spawn(content, worker as int, Faction::B, 460, 30 * k - 150),
        ));
        i = i + 1;
    }
    all.push(Spawn::Node { amount: 1500, x: -420 + 180, y: 120 - 60 });
    all.push(Spawn::Node { amount: 1500, x: 420 - 180, y: -120 + 60 });
    all.push(Spawn::Node { amount: 1500, x: 0, y: 260 });
    assert(all@ =~= shipped_world(
        content,
        worker as int,
        bulwark as int,
        sentinel as int,
        hq as int,
    ));
    Some(all)
}

/// What stands in the shipped match stands for its side: everything of `A`'s on
/// the left and everything of `B`'s on the right, each with the full pool of its
/// definition. Each side has one headquarters, and the two stand opposite each
/// other.
pub proof fn the_shipped_match_is_set(
    content: &Content,
    worker: int,
    bulwark: int,
    sentinel: int,
    hq: int,
    i: int,
)
    requires
        0 <= i < shipped_world(content, worker, bulwark, sentinel, hq).len(),
        0 <= worker <= usize::MAX,
        0 <= bulwark <= usize::MAX,
        0 <= sentinel <= usize::MAX,
        0 <= hq <= usize::MAX,
    ensures
        ({
            let all = shipped_world(content, worker, bulwark, sentinel, hq);
            &&& match all[i] {
                Spawn::Building { def, faction, x, y, health } => def == hq && (x < 0 <==> faction
                    == Faction::A) && health == Some(Health::full_building(content, def as int)),
                Spawn::Unit { def, kind, faction, x, y, health } => (x < 0 <==> faction
                    == Faction::A) && health == Health::full(content, def as int) && kind
                    == content.units@[def as int].mvp_kind && (def == worker || def == bulwark
                    || def == sentinel) && (faction == Faction::B ==> def == worker),
                Spawn::Node { amount, x, y } => amount == 1500,
            }
            &&& exists|a: int, b: int, x: i32, y: i32|
                #![trigger all[a], all[b], mirror_of(x, y)]
                {
                    &&& 0 <= a < all.len() && 0 <= b < all.len()
                    &&& all[a] == building_spawn(content, hq, Faction::A, x as int, y as int)
                    &&& all[b] == building_spawn(
                        content,
                        hq,
                        Faction::B,
                        mirror_of(x, y).0,
                        mirror_of(x, y).1,
                    )
                }
        }),
{
    let all = shipped_world(content, worker, bulwark, sentinel, hq);
    let (x, y) = (-420i32, 120i32);
    assert(mirror_of(x, y) == (420int, -120int));
    assert(all[8] == building_spawn(content, hq, Faction::A, x as int, y as int));
    assert(all[9] == building_spawn(
        content,
        hq,
        Faction::B,
        mirror_of(x, y).0,
        mirror_of(x, y).1,
    ));
}

/// The point opposite, through the middle of the map.
pub open spec fn mirror_of(x: i32, y: i32) -> (int, int) {
    (-x, -y)
}

} // verus!
