//! One tick of combat: who engages whom, what is hit, and who dies.
//!
//! Everything is computed from a snapshot taken at the start of the tick. Every
//! attacker resolves against the snapshot, damage is added up, and only then
//! are hit points written and the dead taken out. So two units that kill each
//! other on one tick both die, and each death happens exactly once.

use vstd::prelude::*;

use crate::float::F32;
use crate::sim::combat::damage;
use crate::sim::combat::damage::{damage_per_hit, Casualties, Health};
use crate::sim::combat::laws;
use crate::sim::content::Content;
use crate::sim::near;
use crate::sim::near::{nearest_of, Candidate};
use crate::sim::spatial::Faction;
use crate::sim::turns;
use crate::sim::turns::turn_order;
use crate::sim::world::Entity;

verus! {

/// How far another unit is.
#[derive(Clone, Copy, Debug)]
pub struct Sight {
    pub distance: F32,
    pub squared: F32,
}

/// A unit as the tick's snapshot sees it.
#[derive(Clone, Debug)]
pub struct Fighter {
    pub entity: Entity,
    /// An index into the content's units.
    pub def: usize,
    pub faction: Faction,
    /// Its pool, if it has one yet.
    pub health: Option<Health>,
    /// Ticks before it may hit again; a unit without a count is ready.
    pub cooldown: Option<u32>,
    /// Is combat itself moving it?
    pub engaging: bool,
    /// Does it have somewhere to go?
    pub moving: bool,
    /// Is it on a gather job?
    pub gathering: bool,
    /// How far each unit is, itself included, in the order of the snapshot.
    pub sights: Vec<Sight>,
}

/// What a tick of combat makes of a unit.
#[derive(Clone, Copy, PartialEq, Eq, Structural, Debug)]
pub struct Verdict {
    /// The count to write, if it is written.
    pub cooldown: Option<u32>,
    /// Drop the move that combat itself ordered.
    pub halt: bool,
    /// Close with this unit, by its place in the snapshot.
    pub chase: Option<usize>,
    pub died: bool,
    /// The pool to write, if it is written.
    pub health: Option<Health>,
    /// The unit it is engaging now.
    pub target: Option<Entity>,
}

// ---- the rules --------------------------------------------------------------

/// Every unit sees every unit.
pub open spec fn sighted(fs: Seq<Fighter>) -> bool {
    forall|i: int| 0 <= i < fs.len() ==> (#[trigger] fs[i]).sights@.len() == fs.len()
}

/// The unit that has turn `p`.
pub open spec fn at(fs: Seq<Fighter>, order: Seq<usize>, p: int) -> Fighter {
    fs[order[p] as int]
}

/// How the unit of turn `p` sees the unit of turn `q`.
pub open spec fn sees(fs: Seq<Fighter>, order: Seq<usize>, p: int, q: int) -> Sight {
    at(fs, order, p).sights@[order[q] as int]
}

/// The other units as targets of the unit of turn `p`.
pub open spec fn foes(fs: Seq<Fighter>, order: Seq<usize>, p: int) -> Seq<Candidate> {
    Seq::new(
        order.len(),
        |q: int|
            Candidate {
                squared: sees(fs, order, p, q).squared,
                key: q as u64,
                open: at(fs, order, q).faction != at(fs, order, p).faction,
            },
    )
}

/// Can it fight at all? A unit on a gather job never does.
pub open spec fn armed(content: &Content, f: Fighter) -> bool {
    &&& f.def < content.units@.len()
    &&& content.units@[f.def as int].offense > 0
    &&& F32::zero().less(content.units@[f.def as int].mvp_attack_range)
    &&& !f.gathering
}

/// How far it engages: a unit that is already chasing holds on longer.
pub open spec fn leash(content: &Content, f: Fighter) -> F32 {
    if f.engaging {
        content.combat.pursue_range
    } else {
        content.combat.engage_range
    }
}

/// The turn of the unit that the unit of turn `p` engages: its nearest enemy,
/// if that is near enough.
pub open spec fn quarry(content: &Content, fs: Seq<Fighter>, order: Seq<usize>, p: int) -> Option<
    int,
> {
    let f = at(fs, order, p);
    if armed(content, f) {
        match near::nearest(foes(fs, order, p)) {
            Some(q) => if sees(fs, order, p, q).distance.at_most(leash(content, f)) {
                Some(q)
            } else {
                None
            },
            None => None,
        }
    } else {
        None
    }
}

/// The count that is left of a cooldown.
pub open spec fn cooled(cooldown: Option<u32>) -> u32 {
    match cooldown {
        Some(c) => if c > 0 {
            (c - 1) as u32
        } else {
            0
        },
        None => 0,
    }
}

/// The cooldown a unit starts the tick with.
pub open spec fn warm(cooldown: Option<u32>) -> u32 {
    match cooldown {
        Some(c) => c,
        None => 0,
    }
}

/// Does the unit of turn `p` reach the unit of turn `q`?
pub open spec fn reaches(content: &Content, fs: Seq<Fighter>, order: Seq<usize>, p: int, q: int)
    -> bool {
    sees(fs, order, p, q).distance.at_most(
        content.units@[at(fs, order, p).def as int].mvp_attack_range,
    )
}

/// The damage that the unit of turn `p` does to the unit of turn `j`.
pub open spec fn blow(content: &Content, fs: Seq<Fighter>, order: Seq<usize>, p: int, j: int)
    -> nat {
    let f = at(fs, order, p);
    if quarry(content, fs, order, p) == Some(j) && reaches(content, fs, order, p, j) && cooled(
        f.cooldown,
    ) == 0 {
        damage::hit(content, f.def as int, at(fs, order, j).def as int) as nat
    } else {
        0
    }
}

/// The damage that the first `k` turns do to the unit of turn `j`.
pub open spec fn dealt(content: &Content, fs: Seq<Fighter>, order: Seq<usize>, j: int, k: int)
    -> nat
    decreases k,
{
    if k <= 0 {
        0
    } else {
        dealt(content, fs, order, j, k - 1) + blow(content, fs, order, k - 1, j)
    }
}

/// The pool a unit fights with: its own, or a full one if it has none yet.
pub open spec fn pool(content: &Content, f: Fighter) -> Health {
    match f.health {
        Some(h) => h,
        None => Health::full(content, f.def as int),
    }
}

/// Does the unit of turn `j` die this tick?
pub open spec fn dies(content: &Content, fs: Seq<Fighter>, order: Seq<usize>, j: int) -> bool {
    let f = at(fs, order, j);
    let d = dealt(content, fs, order, j, order.len() as int);
    !(d == 0 && f.health is Some) && d >= pool(content, f).current
}

/// What a tick of combat makes of the unit of turn `p`.
pub open spec fn verdict(content: &Content, fs: Seq<Fighter>, order: Seq<usize>, p: int)
    -> Verdict {
    let f = at(fs, order, p);
    let d = dealt(content, fs, order, p, order.len() as int);
    let died = dies(content, fs, order, p);
    let aim = quarry(content, fs, order, p);
    let close = aim matches Some(q) && reaches(content, fs, order, p, q);
    Verdict {
        cooldown: if f.def >= content.units@.len() {
            None
        } else if aim is Some {
            Some(
                if close && cooled(f.cooldown) == 0 {
                    content.units@[f.def as int].mvp_attack_ticks
                } else {
                    cooled(f.cooldown)
                },
            )
        } else if warm(f.cooldown) != cooled(f.cooldown) {
            Some(cooled(f.cooldown))
        } else {
            None
        },
        halt: f.def < content.units@.len() && f.engaging && (aim is None || close),
        chase: match aim {
            Some(q) => if !close && (f.engaging || !f.moving) {
                Some(order[q])
            } else {
                None
            },
            None => None,
        },
        died,
        health: if died || (d == 0 && f.health is Some) {
            None
        } else {
            Some(
                Health {
                    current: (pool(content, f).current - d) as u32,
                    max: pool(content, f).max,
                },
            )
        },
        target: match aim {
            Some(q) => if !died && !dies(content, fs, order, q) {
                Some(at(fs, order, q).entity)
            } else {
                None
            },
            None => None,
        },
    }
}

/// How many units of `f` die in the first `k` turns.
pub open spec fn losses(
    content: &Content,
    fs: Seq<Fighter>,
    order: Seq<usize>,
    f: Faction,
    k: int,
) -> nat
    decreases k,
{
    if k <= 0 {
        0
    } else {
        losses(content, fs, order, f, k - 1) + if at(fs, order, k - 1).faction == f && dies(
            content,
            fs,
            order,
            k - 1,
        ) {
            1nat
        } else {
            0nat
        }
    }
}

/// The keys that decide whose turn it is.
pub open spec fn keys(fs: Seq<Fighter>) -> Seq<u64> {
    fs.map_values(|f: Fighter| f.entity.bits)
}

// ---- the tick ---------------------------------------------------------------

fn aim(content: &Content, fs: &Vec<Fighter>, order: &Vec<usize>, p: usize) -> (r: Option<usize>)
    requires
        sighted(fs@),
        turns::in_turn(keys(fs@), order@, fs@.len() as int),
        p < fs@.len(),
    ensures
        r is Some == quarry(content, fs@, order@, p as int) is Some,
        r matches Some(q) ==> quarry(content, fs@, order@, p as int) == Some(q as int) && q
            < fs@.len(),
{
    let f = &fs[order[p]];
    if f.def >= content.units.len() {
        return None;
    }
    let def = &content.units[f.def];
    let zero: F32 = F32 { bits: 0 };
    if def.offense == 0 || !zero.lt(&def.mvp_attack_range) || f.gathering {
        return None;
    }
    let ghost all = foes(fs@, order@, p as int);
    let mut list: Vec<Candidate> = Vec::new();
    let mut q: usize = 0;
    while q < order.len()
        invariant
            sighted(fs@),
            turns::in_turn(keys(fs@), order@, fs@.len() as int),
            p < fs@.len(),
            *f == at(fs@, order@, p as int),
            q <= order@.len(),
            all == foes(fs@, order@, p as int),
            list@ == all.take(q as int),
        decreases order@.len() - q,
    {
        let g = &fs[order[q]];
        list.push(
            Candidate {
                squared: f.sights[order[q]].squared,
                key: q as u64,
                open: g.faction != f.faction,
            },
        );
        assert(list@ =~= all.take(q + 1));
        q = q + 1;
    }
    assert(list@ =~= all);
    match nearest_of(&list) {
        Some(q) => {
            let range: F32 = if f.engaging {
                content.combat.pursue_range
            } else {
                content.combat.engage_range
            };
            if f.sights[order[q]].distance.le(&range) {
                Some(q)
            } else {
                None
            }
        },
        None => None,
    }
}

/// `n`, or the largest number there is.
pub open spec fn clipped(n: nat) -> u32 {
    if n <= u32::MAX {
        n as u32
    } else {
        u32::MAX
    }
}

fn cool(cooldown: Option<u32>) -> (r: u32)
    ensures
        r == cooled(cooldown),
{
    match cooldown {
        Some(c) => if c > 0 {
            c - 1
        } else {
            0
        },
        None => 0,
    }
}

fn pool_of(content: &Content, f: &Fighter) -> (r: Health)
    ensures
        r == pool(content, *f),
{
    match f.health {
        Some(h) => h,
        None => Health::from_def(content, f.def),
    }
}

/// Resolve one tick of combat. The result is parallel to the snapshot.
pub fn combat(content: &Content, casualties: &mut Casualties, fs: &Vec<Fighter>) -> (r: Vec<
    Verdict,
>)
    requires
        sighted(fs@),
        old(casualties).a + fs@.len() <= u32::MAX,
        old(casualties).b + fs@.len() <= u32::MAX,
    ensures
        ({
            let order = turns::turns(keys(fs@));
            let n = fs@.len() as int;
            &&& r@.len() == n
            &&& forall|p: int|
                0 <= p < n ==> r@[#[trigger] order[p] as int] == verdict(content, fs@, order, p)
            &&& final(casualties).a == old(casualties).a + losses(content, fs@, order, Faction::A, n)
            &&& final(casualties).b == old(casualties).b + losses(content, fs@, order, Faction::B, n)
        }),
        laws::settled(content, fs@, r@),
        forall|side: Faction|
            #![trigger laws::fallen(fs@, r@, side)]
            final(casualties).of(side) == old(casualties).of(side) + turns::sum_to(
                laws::fallen(fs@, r@, side),
                fs@.len() as int,
            ),
{
    let n: usize = fs.len();
    let mut names: Vec<u64> = Vec::new();
    let mut out: Vec<Verdict> = Vec::new();
    let mut damage: Vec<u32> = Vec::new();
    let mut i: usize = 0;
    while i < n
        invariant
            i <= n,
            n == fs@.len(),
            names@ == keys(fs@).take(i as int),
            out@.len() == i,
            damage@.len() == i,
            forall|j: int| 0 <= j < i ==> #[trigger] damage@[j] == 0,
        decreases n - i,
    {
        names.push(fs[i].entity.to_bits());
        assert(names@ =~= keys(fs@).take(i + 1));
        out.push(
            Verdict {
                cooldown: None,
                halt: false,
                chase: None,
                died: false,
                health: None,
                target: None,
            },
        );
        damage.push(0);
        i = i + 1;
    }
    assert(names@ =~= keys(fs@));
    let order = turn_order(&names);
    proof {
        turns::everybody_gets_a_turn(keys(fs@));
    }

    // Every attacker resolves against the snapshot.
    let mut chosen: Vec<Option<usize>> = Vec::new();
    let mut p: usize = 0;
    while p < n
        invariant
            p <= n,
            n == fs@.len(),
            sighted(fs@),
            turns::in_turn(keys(fs@), order@, n as int),
            chosen@.len() == p,
            damage@.len() == n,
            forall|k: int|
                0 <= k < p ==> match #[trigger] chosen@[k] {
                    Some(q) => q < n && quarry(content, fs@, order@, k) == Some(q as int),
                    None => quarry(content, fs@, order@, k) is None,
                },
            forall|j: int|
                0 <= j < n ==> #[trigger] damage@[j] == clipped(
                    dealt(content, fs@, order@, j, p as int),
                ),
        decreases n - p,
    {
        let pick = aim(content, fs, &order, p);
        let ghost before = damage@;
        match pick {
            Some(q) => {
                let f = &fs[order[p]];
                let g = &fs[order[q]];
                if cool(f.cooldown) == 0 && f.sights[order[q]].distance.le(
                    &content.units[f.def].mvp_attack_range,
                ) {
                    let hit: u32 = damage_per_hit(content, f.def, g.def);
                    let had: u32 = damage[q];
                    let sum: u32 = if hit <= u32::MAX - had {
                        had + hit
                    } else {
                        u32::MAX
                    };
                    damage.set(q, sum);
                    assert(blow(content, fs@, order@, p as int, q as int) == hit);
                } else {
                    assert(blow(content, fs@, order@, p as int, q as int) == 0);
                }
                proof {
                    assert forall|j: int| 0 <= j < n implies #[trigger] damage@[j] == clipped(
                        dealt(content, fs@, order@, j, p + 1),
                    ) by {
                        assert(before[j] == clipped(dealt(content, fs@, order@, j, p as int)));
                        if j != q {
                            assert(blow(content, fs@, order@, p as int, j) == 0);
                        }
                    }
                }
            },
            None => {
                proof {
                    assert forall|j: int| 0 <= j < n implies #[trigger] damage@[j] == clipped(
                        dealt(content, fs@, order@, j, p + 1),
                    ) by {
                        assert(before[j] == clipped(dealt(content, fs@, order@, j, p as int)));
                        assert(blow(content, fs@, order@, p as int, j) == 0);
                    }
                }
            },
        }
        chosen.push(pick);
        p = p + 1;
    }

    // The dead: one pass, each unit exactly once.
    let ghost start = *casualties;
    let mut died: Vec<bool> = Vec::new();
    let mut p: usize = 0;
    while p < n
        invariant
            p <= n,
            n == fs@.len(),
            turns::in_turn(keys(fs@), order@, n as int),
            damage@.len() == n,
            died@.len() == p,
            start.a + n <= u32::MAX,
            start.b + n <= u32::MAX,
            forall|j: int|
                0 <= j < n ==> #[trigger] damage@[j] == clipped(
                    dealt(content, fs@, order@, j, n as int),
                ),
            forall|j: int| 0 <= j < p ==> #[trigger] died@[j] == dies(content, fs@, order@, j),
            casualties.a == start.a + losses(content, fs@, order@, Faction::A, p as int),
            casualties.b == start.b + losses(content, fs@, order@, Faction::B, p as int),
            casualties.a <= start.a + p,
            casualties.b <= start.b + p,
        decreases n - p,
    {
        let f = &fs[order[p]];
        let hurt: u32 = damage[p];
        let dead: bool = !(hurt == 0 && f.health.is_some()) && hurt >= pool_of(content, f).current;
        if dead {
            casualties.record(f.faction);
        }
        died.push(dead);
        p = p + 1;
    }

    // Publish, now that the dead are known.
    let mut p: usize = 0;
    while p < n
        invariant
            p <= n,
            n == fs@.len(),
            sighted(fs@),
            turns::in_turn(keys(fs@), order@, n as int),
            damage@.len() == n,
            died@.len() == n,
            chosen@.len() == n,
            out@.len() == n,
            forall|k: int|
                0 <= k < n ==> match #[trigger] chosen@[k] {
                    Some(q) => q < n && quarry(content, fs@, order@, k) == Some(q as int),
                    None => quarry(content, fs@, order@, k) is None,
                },
            forall|j: int|
                0 <= j < n ==> #[trigger] damage@[j] == clipped(
                    dealt(content, fs@, order@, j, n as int),
                ),
            forall|j: int| 0 <= j < n ==> #[trigger] died@[j] == dies(content, fs@, order@, j),
            forall|k: int|
                0 <= k < p ==> out@[#[trigger] order@[k] as int] == verdict(
                    content,
                    fs@,
                    order@,
                    k,
                ),
        decreases n - p,
    {
        let i: usize = order[p];
        let f = &fs[i];
        let defined: bool = f.def < content.units.len();
        let next: u32 = cool(f.cooldown);
        let had: u32 = match f.cooldown {
            Some(c) => c,
            None => 0,
        };
        let hurt: u32 = damage[p];
        let whole: Health = pool_of(content, f);
        let health: Option<Health> = if died[p] || (hurt == 0 && f.health.is_some()) {
            None
        } else {
            Some(Health { current: whole.current - hurt, max: whole.max })
        };
        let v: Verdict = match chosen[p] {
            Some(q) => {
                let close: bool = f.sights[order[q]].distance.le(
                    &content.units[f.def].mvp_attack_range,
                );
                let g = &fs[order[q]];
                Verdict {
                    cooldown: Some(
                        if close && next == 0 {
                            content.units[f.def].mvp_attack_ticks
                        } else {
                            next
                        },
                    ),
                    halt: f.engaging && close,
                    chase: if !close && (f.engaging || !f.moving) {
                        Some(order[q])
                    } else {
                        None
                    },
                    died: died[p],
                    health,
                    target: if !died[p] && !died[q] {
                        Some(g.entity)
                    } else {
                        None
                    },
                }
            },
            None => Verdict {
                cooldown: if defined && had != next {
                    Some(next)
                } else {
                    None
                },
                halt: defined && f.engaging,
                chase: None,
                died: died[p],
                health,
                target: None,
            },
        };
        let ghost before = out@;
        out.set(i, v);
        proof {
            assert(v == verdict(content, fs@, order@, p as int));
            assert forall|k: int| 0 <= k < p + 1 implies out@[#[trigger] order@[k] as int]
                == verdict(content, fs@, order@, k) by {
                if k < p {
                    assert(order@[k] != order@[p as int]);
                    assert(out@[order@[k] as int] == before[order@[k] as int]);
                }
            }
        }
        p = p + 1;
    }
    proof {
        assert forall|side: Faction|
            #![trigger laws::fallen(fs@, out@, side)]
            casualties.of(side) == start.of(side) + turns::sum_to(
                laws::fallen(fs@, out@, side),
                fs@.len() as int,
            ) by {
            laws::losses_are_the_fallen(content, fs@, out@, side);
        }
    }
    out
}

// ---- laws -------------------------------------------------------------------

/// A target is alive at the end of the tick, is an enemy, and is nobody's whose
/// holder died.
pub proof fn a_target_is_a_living_enemy(
    content: &Content,
    fs: Seq<Fighter>,
    order: Seq<usize>,
    p: int,
)
    requires
        0 <= p < order.len(),
        verdict(content, fs, order, p).target is Some,
    ensures
        !verdict(content, fs, order, p).died,
        exists|q: int|
            0 <= q < order.len() && #[trigger] at(fs, order, q).entity == verdict(
                content,
                fs,
                order,
                p,
            ).target->0 && !dies(content, fs, order, q) && at(fs, order, q).faction != at(
                fs,
                order,
                p,
            ).faction,
{
    let q = quarry(content, fs, order, p)->0;
    near::lemma_open(foes(fs, order, p), 0, None);
    assert(at(fs, order, q).entity == verdict(content, fs, order, p).target->0);
}

/// A commander's order wins: combat neither re-aims nor cancels a move that it
/// did not order itself.
pub proof fn orders_win(content: &Content, fs: Seq<Fighter>, order: Seq<usize>, p: int)
    requires
        at(fs, order, p).moving,
        !at(fs, order, p).engaging,
    ensures
        verdict(content, fs, order, p).chase is None,
        !verdict(content, fs, order, p).halt,
{
}

/// A unit on a gather job engages nobody and hits nobody.
pub proof fn gatherers_never_fight(
    content: &Content,
    fs: Seq<Fighter>,
    order: Seq<usize>,
    p: int,
    j: int,
)
    requires
        at(fs, order, p).gathering,
    ensures
        verdict(content, fs, order, p).target is None,
        verdict(content, fs, order, p).chase is None,
        blow(content, fs, order, p, j) == 0,
{
}

/// A unit that is alive when the tick starts gets its blow in, whatever happens
/// to it: two units that kill each other both die.
pub proof fn both_can_die(content: &Content, fs: Seq<Fighter>, order: Seq<usize>, p: int, q: int)
    requires
        0 <= p < order.len(),
        0 <= q < order.len(),
        blow(content, fs, order, p, q) >= pool(content, at(fs, order, q)).current,
        blow(content, fs, order, q, p) >= pool(content, at(fs, order, p)).current,
        blow(content, fs, order, p, q) > 0,
        blow(content, fs, order, q, p) > 0,
    ensures
        verdict(content, fs, order, p).died,
        verdict(content, fs, order, q).died,
{
    lemma_blow_counts(content, fs, order, p, q, order.len() as int);
    lemma_blow_counts(content, fs, order, q, p, order.len() as int);
}

proof fn lemma_blow_counts(
    content: &Content,
    fs: Seq<Fighter>,
    order: Seq<usize>,
    p: int,
    j: int,
    k: int,
)
    requires
        0 <= p < k,
    ensures
        dealt(content, fs, order, j, k) >= blow(content, fs, order, p, j),
    decreases k,
{
    if p < k - 1 {
        lemma_blow_counts(content, fs, order, p, j, k - 1);
    }
}

/// Every death is counted once: the losses of both sides are the units that
/// died.
pub proof fn every_death_counts_once(
    content: &Content,
    fs: Seq<Fighter>,
    order: Seq<usize>,
    k: int,
)
    requires
        0 <= k <= order.len(),
    ensures
        losses(content, fs, order, Faction::A, k) + losses(content, fs, order, Faction::B, k)
            == turns::sum_to(
            |p: int|
                if verdict(content, fs, order, p).died {
                    1nat
                } else {
                    0nat
                },
            k,
        ),
    decreases k,
{
    if k > 0 {
        every_death_counts_once(content, fs, order, k - 1);
        let f = |p: int|
            if verdict(content, fs, order, p).died {
                1nat
            } else {
                0nat
            };
        assert(turns::sum_to(f, k) == turns::sum_to(f, k - 1) + f(k - 1));
    }
}

// ---- listing ------------------------------------------------------------------

/// Are two units the same, but for where the units they see are listed?
pub open spec fn alike(f: Fighter, g: Fighter) -> bool {
    &&& f.entity == g.entity
    &&& f.def == g.def
    &&& f.faction == g.faction
    &&& f.health == g.health
    &&& f.cooldown == g.cooldown
    &&& f.engaging == g.engaging
    &&& f.moving == g.moving
    &&& f.gathering == g.gathering
}

/// The same snapshot in another order: the unit at `i` stands at `m[i]`.
pub open spec fn same_field(fs: Seq<Fighter>, gs: Seq<Fighter>, m: Seq<usize>) -> bool {
    &&& turns::relisted(keys(fs), keys(gs), m)
    &&& forall|i: int| 0 <= i < fs.len() ==> alike(#[trigger] fs[i], gs[m[i] as int])
    &&& forall|i: int, j: int|
        0 <= i < fs.len() && 0 <= j < fs.len() ==> #[trigger] fs[i].sights@[j] == gs[m[i] as int].sights@[m[j] as int]
}

/// Do two orders of turns bring the same units, who see the same?
spec fn same_turns(fs: Seq<Fighter>, x: Seq<usize>, gs: Seq<Fighter>, y: Seq<usize>) -> bool {
    &&& x.len() == y.len()
    &&& forall|p: int| #![trigger x[p]] 0 <= p < x.len() ==> alike(at(fs, x, p), at(gs, y, p))
    &&& forall|p: int, q: int|
        #![trigger x[p], x[q]]
        0 <= p < x.len() && 0 <= q < x.len() ==> sees(fs, x, p, q) == sees(gs, y, p, q)
}

proof fn lemma_same_quarry(
    content: &Content,
    fs: Seq<Fighter>,
    x: Seq<usize>,
    gs: Seq<Fighter>,
    y: Seq<usize>,
    p: int,
)
    requires
        same_turns(fs, x, gs, y),
        0 <= p < x.len() <= u64::MAX,
    ensures
        quarry(content, fs, x, p) == quarry(content, gs, y, p),
        quarry(content, fs, x, p) matches Some(q) ==> 0 <= q < x.len() && reaches(
            content,
            fs,
            x,
            p,
            q,
        ) == reaches(content, gs, y, p, q),
{
    assert(alike(at(fs, x, p), at(gs, y, p))) by {
        assert(x[p] == x[p]);
    }
    assert forall|q: int| 0 <= q < x.len() implies foes(fs, x, p)[q] == foes(gs, y, p)[q] by {
        assert(x[p] == x[p] && x[q] == x[q]);
        assert(alike(at(fs, x, q), at(gs, y, q)));
    }
    assert(foes(fs, x, p) =~= foes(gs, y, p));
    near::lemma_open(foes(fs, x, p), 0, None);
    match near::nearest(foes(fs, x, p)) {
        Some(q) => {
            assert(x[p] == x[p] && x[q] == x[q]);
            assert(sees(fs, x, p, q) == sees(gs, y, p, q));
        },
        None => {},
    }
}

proof fn lemma_same_dealt(
    content: &Content,
    fs: Seq<Fighter>,
    x: Seq<usize>,
    gs: Seq<Fighter>,
    y: Seq<usize>,
    j: int,
    k: int,
)
    requires
        same_turns(fs, x, gs, y),
        0 <= j < x.len() <= u64::MAX,
        0 <= k <= x.len(),
    ensures
        dealt(content, fs, x, j, k) == dealt(content, gs, y, j, k),
    decreases k,
{
    if k > 0 {
        lemma_same_dealt(content, fs, x, gs, y, j, k - 1);
        lemma_same_quarry(content, fs, x, gs, y, k - 1);
        assert(x[k - 1] == x[k - 1] && x[j] == x[j]);
        assert(alike(at(fs, x, k - 1), at(gs, y, k - 1)));
        assert(alike(at(fs, x, j), at(gs, y, j)));
    }
}

proof fn lemma_same_death(
    content: &Content,
    fs: Seq<Fighter>,
    x: Seq<usize>,
    gs: Seq<Fighter>,
    y: Seq<usize>,
    j: int,
)
    requires
        same_turns(fs, x, gs, y),
        0 <= j < x.len() <= u64::MAX,
    ensures
        dies(content, fs, x, j) == dies(content, gs, y, j),
        dealt(content, fs, x, j, x.len() as int) == dealt(content, gs, y, j, y.len() as int),
{
    lemma_same_dealt(content, fs, x, gs, y, j, x.len() as int);
    assert(x[j] == x[j]);
    assert(alike(at(fs, x, j), at(gs, y, j)));
}

proof fn lemma_same_losses(
    content: &Content,
    fs: Seq<Fighter>,
    x: Seq<usize>,
    gs: Seq<Fighter>,
    y: Seq<usize>,
    f: Faction,
    k: int,
)
    requires
        same_turns(fs, x, gs, y),
        x.len() <= u64::MAX,
        0 <= k <= x.len(),
    ensures
        losses(content, fs, x, f, k) == losses(content, gs, y, f, k),
    decreases k,
{
    if k > 0 {
        lemma_same_losses(content, fs, x, gs, y, f, k - 1);
        lemma_same_death(content, fs, x, gs, y, k - 1);
        assert(x[k - 1] == x[k - 1]);
        assert(alike(at(fs, x, k - 1), at(gs, y, k - 1)));
    }
}

/// The order in which units are listed decides nothing: the same snapshot in
/// another order brings every unit the same verdict, with the unit to chase
/// where it is listed now, and both sides the same losses.
pub proof fn listing_decides_no_fight(
    content: &Content,
    fs: Seq<Fighter>,
    gs: Seq<Fighter>,
    m: Seq<usize>,
    side: Faction,
)
    requires
        fs.len() <= usize::MAX,
        keys(gs).no_duplicates(),
        same_field(fs, gs, m),
    ensures
        ({
            let (x, y) = (turns::turns(keys(fs)), turns::turns(keys(gs)));
            &&& forall|p: int|
                0 <= p < fs.len() ==> {
                    let v = verdict(content, fs, x, p);
                    let w = verdict(content, gs, y, p);
                    &&& (#[trigger] y[p]) == m[x[p] as int]
                    &&& w == (Verdict {
                        chase: match v.chase {
                            Some(c) => Some(m[c as int]),
                            None => None,
                        },
                        ..v
                    })
                }
            &&& losses(content, fs, x, side, fs.len() as int) == losses(
                content,
                gs,
                y,
                side,
                gs.len() as int,
            )
        }),
{
    let (x, y) = (turns::turns(keys(fs)), turns::turns(keys(gs)));
    turns::turns_follow_the_things(keys(fs), keys(gs), m);
    assert(same_turns(fs, x, gs, y)) by {
        assert forall|p: int| #![trigger x[p]] 0 <= p < x.len() implies alike(
            at(fs, x, p),
            at(gs, y, p),
        ) by {
            assert(y[p] == m[x[p] as int]);
            assert(alike(fs[x[p] as int], gs[m[x[p] as int] as int]));
        }
        assert forall|p: int, q: int|
            #![trigger x[p], x[q]]
            0 <= p < x.len() && 0 <= q < x.len() implies sees(fs, x, p, q) == sees(gs, y, p, q) by {
            assert(y[p] == m[x[p] as int] && y[q] == m[x[q] as int]);
            assert(fs[x[p] as int].sights@[x[q] as int] == gs[m[x[p] as int] as int].sights@[m[x[q] as int] as int]);
        }
    }
    lemma_same_losses(content, fs, x, gs, y, side, x.len() as int);
    assert forall|p: int| 0 <= p < fs.len() implies {
        let v = verdict(content, fs, x, p);
        let w = verdict(content, gs, y, p);
        &&& (#[trigger] y[p]) == m[x[p] as int]
        &&& w == (Verdict {
            chase: match v.chase {
                Some(c) => Some(m[c as int]),
                None => None,
            },
            ..v
        })
    } by {
        lemma_same_quarry(content, fs, x, gs, y, p);
        lemma_same_death(content, fs, x, gs, y, p);
        assert(x[p] == x[p]);
        assert(alike(at(fs, x, p), at(gs, y, p)));
        match quarry(content, fs, x, p) {
            Some(q) => {
                lemma_same_death(content, fs, x, gs, y, q);
                assert(y[q] == m[x[q] as int]);
                assert(alike(at(fs, x, q), at(gs, y, q)));
            },
            None => {},
        }
    }
}

} // verus!
