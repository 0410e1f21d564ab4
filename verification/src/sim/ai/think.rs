//! One decision of a scripted commander: mine, replace workers, open the
//! barracks, build the army, attack.
//!
//! A decision is taken on a snapshot sorted by entity, so the order the world
//! lists things in cannot reach an outcome. Where chance decides a direction,
//! the decision carries the draw; the point it means is supplied when the
//! decision is acted on.

use vstd::prelude::*;

use crate::float::{F32, Point};
use crate::sim::ai::{AiAction, AiCommander, AiCommanders, AiJournal};
use crate::sim::content::{Content, Opening, StrategyDef};
use crate::sim::content::script;
use crate::sim::economy::Stockpiles;
use crate::sim::near;
use crate::sim::near::{nearest_of, Candidate};
use crate::sim::orders;
use crate::sim::orders::{Asked, Attribution, Claim, CommandTick, Order, OrderQueue, Scheduled, SignedOrder};
use crate::sim::spatial;
use crate::sim::spatial::{Faction, SplitMix64};
use crate::sim::turns;
use crate::sim::turns::turn_order;
use crate::sim::world::Entity;

verus! {

// ---- the snapshot -----------------------------------------------------------

/// A unit as a commander sees it.
#[derive(Clone, Debug)]
pub struct UnitRow {
    pub entity: Entity,
    pub def: usize,
    pub faction: Faction,
    pub on_a_job: bool,
    /// Squared distance to each deposit.
    pub to_nodes: Vec<F32>,
}

/// A unit, as a mathematical value.
pub struct Seen {
    pub entity: Entity,
    pub def: usize,
    pub faction: Faction,
    pub on_a_job: bool,
    pub to_nodes: Seq<F32>,
}

impl View for UnitRow {
    type V = Seen;

    open spec fn view(&self) -> Seen {
        Seen {
            entity: self.entity,
            def: self.def,
            faction: self.faction,
            on_a_job: self.on_a_job,
            to_nodes: self.to_nodes@,
        }
    }
}

/// A building as a commander sees it.
#[derive(Clone, Copy, PartialEq, Eq, Structural, Debug)]
pub struct BuildingRow {
    pub entity: Entity,
    pub pos: Point,
    pub def: usize,
    pub faction: Faction,
    /// How many units are in its queue.
    pub queued: usize,
}

/// A deposit as a commander sees it.
#[derive(Clone, Copy, PartialEq, Eq, Structural, Debug)]
pub struct NodeRow {
    pub entity: Entity,
    pub pos: Point,
}

/// What the commanders know of the world.
#[derive(Clone, Debug)]
pub struct Snapshot {
    pub units: Vec<UnitRow>,
    pub buildings: Vec<BuildingRow>,
    pub nodes: Vec<NodeRow>,
}

/// What the commanders know, as a mathematical value.
pub struct Scene {
    pub units: Seq<Seen>,
    pub buildings: Seq<BuildingRow>,
    pub nodes: Seq<NodeRow>,
}

/// The views of a list of units.
pub open spec fn seen(units: Seq<UnitRow>) -> Seq<Seen> {
    units.map_values(|u: UnitRow| u@)
}

impl View for Snapshot {
    type V = Scene;

    open spec fn view(&self) -> Scene {
        Scene { units: seen(self.units@), buildings: self.buildings@, nodes: self.nodes@ }
    }
}

/// Every unit knows how far every deposit is.
pub open spec fn surveyed(s: Scene) -> bool {
    forall|i: int| 0 <= i < s.units.len() ==> (#[trigger] s.units[i]).to_nodes.len() == s.nodes.len()
}

pub open spec fn unit_keys(units: Seq<Seen>) -> Seq<u64> {
    units.map_values(|u: Seen| u.entity.bits)
}

pub open spec fn building_keys(all: Seq<BuildingRow>) -> Seq<u64> {
    all.map_values(|b: BuildingRow| b.entity.bits)
}

pub open spec fn node_keys(all: Seq<NodeRow>) -> Seq<u64> {
    all.map_values(|n: NodeRow| n.entity.bits)
}

/// A unit whose deposits are listed in another order.
pub open spec fn resurveyed(u: Seen, order: Seq<usize>) -> Seen {
    Seen { to_nodes: turns::reordered(u.to_nodes, order), ..u }
}

/// The snapshot by ascending entity.
pub open spec fn sorted(s: Scene) -> Scene {
    let by_node = turns::turns(node_keys(s.nodes));
    Scene {
        units: turns::reordered(s.units, turns::turns(unit_keys(s.units))).map_values(
            |u: Seen| resurveyed(u, by_node),
        ),
        buildings: turns::reordered(s.buildings, turns::turns(building_keys(s.buildings))),
        nodes: turns::reordered(s.nodes, by_node),
    }
}

// ---- what a commander decides -----------------------------------------------

/// What a commander decides to do.
#[allow(inconsistent_fields)]
#[derive(Debug)]
pub enum Decision {
    /// Send an idle gatherer to a deposit.
    Gather { unit: Entity, node: Entity, node_pos: Point },
    /// Queue a worker at the headquarters.
    TrainWorker { at: Entity, unit: usize },
    /// Place a barracks `offset` away from the headquarters, at the fraction
    /// `turn` of a full circle.
    Place { building: usize, from: Point, turn: F32, offset: F32 },
    /// Queue a unit of the army.
    TrainArmy { at: Entity, unit: usize },
    /// Send the army at a point around `toward`: the fractions `x` and `y` of
    /// the way from `-spread` to `spread`.
    Attack { force: Vec<Entity>, toward: Point, x: F32, y: F32, spread: F32 },
}

/// A decision, as a mathematical value.
#[allow(inconsistent_fields)]
pub enum Choice {
    Gather { unit: Entity, node: Entity, node_pos: Point },
    TrainWorker { at: Entity, unit: usize },
    Place { building: usize, from: Point, turn: F32, offset: F32 },
    TrainArmy { at: Entity, unit: usize },
    Attack { force: Seq<Entity>, toward: Point, x: F32, y: F32, spread: F32 },
}

impl View for Decision {
    type V = Choice;

    open spec fn view(&self) -> Choice {
        match *self {
            Decision::Gather { unit, node, node_pos } => Choice::Gather { unit, node, node_pos },
            Decision::TrainWorker { at, unit } => Choice::TrainWorker { at, unit },
            Decision::Place { building, from, turn, offset } => Choice::Place {
                building,
                from,
                turn,
                offset,
            },
            Decision::TrainArmy { at, unit } => Choice::TrainArmy { at, unit },
            Decision::Attack { force, toward, x, y, spread } => Choice::Attack {
                force: force@,
                toward,
                x,
                y,
                spread,
            },
        }
    }
}

/// The views of a list of decisions.
pub open spec fn choices(all: Seq<Decision>) -> Seq<Choice> {
    all.map_values(|d: Decision| d@)
}

/// Does a unit definition gather?
pub open spec fn gathers(content: &Content, def: usize) -> bool {
    def < content.units@.len() && content.units@[def as int].gathers
}

/// Does a unit definition fight?
pub open spec fn fights(content: &Content, def: usize) -> bool {
    def < content.units@.len() && content.units@[def as int].offense > 0
}

/// The first victory building of `f`, from place `k` on.
pub open spec fn seat(content: &Content, all: Seq<BuildingRow>, f: Faction, k: int) -> Option<int>
    decreases all.len() - k,
{
    if k < 0 || k >= all.len() {
        None
    } else if all[k].faction == f && all[k].def < content.buildings@.len()
        && content.buildings@[all[k].def as int].victory {
        Some(k)
    } else {
        seat(content, all, f, k + 1)
    }
}

/// The deposits as candidates for a unit.
pub open spec fn deposits(nodes: Seq<NodeRow>, u: Seen) -> Seq<Candidate> {
    Seq::new(
        nodes.len(),
        |q: int| Candidate { squared: u.to_nodes[q], key: nodes[q].entity.bits, open: true },
    )
}

/// Who is sent mining among the first `k` units: every idle gatherer, to the
/// nearest deposit.
pub open spec fn mining(content: &Content, s: Scene, me: Faction, k: int) -> Seq<Choice>
    decreases k,
{
    if k <= 0 {
        Seq::empty()
    } else {
        let before = mining(content, s, me, k - 1);
        let u = s.units[k - 1];
        if u.faction == me && !u.on_a_job && gathers(content, u.def) {
            match near::nearest(deposits(s.nodes, u)) {
                Some(q) => before.push(
                    Choice::Gather {
                        unit: u.entity,
                        node: s.nodes[q].entity,
                        node_pos: s.nodes[q].pos,
                    },
                ),
                None => before,
            }
        } else {
            before
        }
    }
}

/// How many gatherers `f` has among the first `k` units.
pub open spec fn gatherers(content: &Content, units: Seq<Seen>, f: Faction, k: int) -> nat
    decreases k,
{
    if k <= 0 {
        0
    } else {
        gatherers(content, units, f, k - 1) + if units[k - 1].faction == f && gathers(
            content,
            units[k - 1].def,
        ) {
            1nat
        } else {
            0nat
        }
    }
}

/// The first gatherer, from place `k` on, in a list of unit ids.
pub open spec fn first_gatherer(content: &Content, ids: Seq<String>, k: int) -> Option<int>
    decreases ids.len() - k,
{
    if k < 0 || k >= ids.len() {
        None
    } else {
        match content.unit_pos(ids[k]@) {
            Some(u) => if content.units@[u].gathers {
                Some(u)
            } else {
                first_gatherer(content, ids, k + 1)
            },
            None => first_gatherer(content, ids, k + 1),
        }
    }
}

/// `a + b`, or the largest number there is.
pub open spec fn sum_of(a: u32, b: u32) -> u32 {
    if a + b <= u32::MAX {
        (a + b) as u32
    } else {
        u32::MAX
    }
}

/// The worker that the headquarters is told to train, if it is: one that it can
/// train, while there are too few, nothing is in its queue, and it can be paid.
pub open spec fn recruit(
    content: &Content,
    plan: StrategyDef,
    s: Scene,
    me: Faction,
    hq: BuildingRow,
    budget: u32,
) -> Option<int> {
    match first_gatherer(content, content.buildings@[hq.def as int].produces@, 0) {
        Some(w) => if sum_of(
            gatherers(content, s.units, me, s.units.len() as int) as u32,
            hq.queued as u32,
        ) < plan.worker_target && hq.queued == 0 && budget >= content.units@[w].mvp_alloy_cost {
            Some(w)
        } else {
            None
        },
        None => None,
    }
}

/// The first building of `f` with definition `def`, from place `k` on.
pub open spec fn owned(all: Seq<BuildingRow>, f: Faction, def: int, k: int) -> Option<int>
    decreases all.len() - k,
{
    if k < 0 || k >= all.len() {
        None
    } else if all[k].faction == f && all[k].def == def {
        Some(k)
    } else {
        owned(all, f, def, k + 1)
    }
}

/// The state of a decision while it opens barracks.
pub struct Tech {
    pub budget: u32,
    pub rng: u64,
    pub choices: Seq<Choice>,
    /// The barracks it has, by place.
    pub barracks: Seq<int>,
}

/// The openings of a script, taken up to the `k`-th: each goes up once, on the
/// first decision at or after its tick that can pay for it, in a random
/// direction.
pub open spec fn tech(
    content: &Content,
    openings: Seq<Opening>,
    s: Scene,
    me: Faction,
    tick: u32,
    from: Point,
    start: Tech,
    k: int,
) -> Tech
    decreases k,
{
    if k <= 0 {
        start
    } else {
        let t = tech(content, openings, s, me, tick, from, start, k - 1);
        let o = openings[k - 1];
        match content.building_pos(o.building@) {
            Some(def) => match owned(s.buildings, me, def, 0) {
                Some(b) => Tech { barracks: t.barracks.push(b), ..t },
                None => if tick >= o.at_tick && t.budget >= content.buildings@[def].alloy_cost {
                    Tech {
                        budget: (t.budget - content.buildings@[def].alloy_cost) as u32,
                        rng: spatial::state_after(t.rng, 1),
                        choices: t.choices.push(
                            Choice::Place {
                                building: def as usize,
                                from,
                                turn: spatial::unit_f32(spatial::draw(t.rng, 0)),
                                offset: o.offset,
                            },
                        ),
                        barracks: t.barracks,
                    }
                } else {
                    t
                },
            },
            None => t,
        }
    }
}

/// The first of the barracks, from place `k` on, that produces a unit.
pub open spec fn trainer(
    content: &Content,
    all: Seq<BuildingRow>,
    barracks: Seq<int>,
    unit: int,
    k: int,
) -> Option<int>
    decreases barracks.len() - k,
{
    if k < 0 || k >= barracks.len() {
        None
    } else if content.can_produce(all[barracks[k]].def as int, unit) {
        Some(barracks[k])
    } else {
        trainer(content, all, barracks, unit, k + 1)
    }
}

/// The unit that stands at `cursor` of the build order.
pub open spec fn next_unit(content: &Content, plan: StrategyDef, cursor: u32) -> Option<int> {
    match script::army_unit(plan.army@, cursor as int) {
        Some(id) => content.unit_pos(id),
        None => None,
    }
}

/// The barracks that trains the next unit of the army and the unit, if it is
/// trained now: its barracks is up and idle, and it can be paid.
pub open spec fn levy(
    content: &Content,
    plan: StrategyDef,
    all: Seq<BuildingRow>,
    barracks: Seq<int>,
    cursor: u32,
    budget: u32,
) -> Option<(int, int)> {
    match next_unit(content, plan, cursor) {
        Some(u) => match trainer(content, all, barracks, u, 0) {
            Some(b) => if all[b].queued == 0 && budget >= content.units@[u].mvp_alloy_cost {
                Some((b, u))
            } else {
                None
            },
            None => None,
        },
        None => None,
    }
}

/// The army of `f` among the first `k` units.
pub open spec fn army(content: &Content, units: Seq<Seen>, f: Faction, k: int) -> Seq<Entity>
    decreases k,
{
    if k <= 0 {
        Seq::empty()
    } else {
        let u = units[k - 1];
        if u.faction == f && fights(content, u.def) {
            army(content, units, f, k - 1).push(u.entity)
        } else {
            army(content, units, f, k - 1)
        }
    }
}

/// The attack wave, if one goes out.
pub open spec fn wave(
    content: &Content,
    plan: StrategyDef,
    s: Scene,
    me: Faction,
    tick: u32,
    next: u32,
    rng: u64,
) -> Option<Choice> {
    let force = army(content, s.units, me, s.units.len() as int);
    if force.len() as u32 >= plan.attack_at_army && tick >= next {
        match seat(content, s.buildings, me.foe(), 0) {
            Some(h) => Some(
                Choice::Attack {
                    force,
                    toward: s.buildings[h].pos,
                    x: spatial::unit_f32(spatial::draw(rng, 0)),
                    y: spatial::unit_f32(spatial::draw(rng, 1)),
                    spread: plan.attack_spread,
                },
            ),
            None => None,
        }
    } else {
        None
    }
}

/// What one decision makes of a commander.
pub struct Plan {
    pub choices: Seq<Choice>,
    /// Alloy it has not committed.
    pub budget: u32,
    pub rng: u64,
    pub cursor: u32,
    pub next: u32,
}

/// The state of a commander that decisions read and change.
pub struct Mind {
    pub me: Faction,
    pub rng: u64,
    pub cursor: u32,
    pub next: u32,
}

/// One decision on a sorted snapshot.
pub open spec fn plan_of(
    content: &Content,
    plan: StrategyDef,
    s: Scene,
    stock: Stockpiles,
    mind: Mind,
    tick: u32,
) -> Plan {
    let idle = Plan {
        choices: Seq::empty(),
        budget: stock.of(mind.me),
        rng: mind.rng,
        cursor: mind.cursor,
        next: mind.next,
    };
    match seat(content, s.buildings, mind.me, 0) {
        None => idle,
        Some(h) => {
            let hq = s.buildings[h];
            let mined = mining(content, s, mind.me, s.units.len() as int);
            let (staffed, budget) = match recruit(content, plan, s, mind.me, hq, idle.budget) {
                Some(w) => (
                    mined.push(Choice::TrainWorker { at: hq.entity, unit: w as usize }),
                    (idle.budget - content.units@[w].mvp_alloy_cost) as u32,
                ),
                None => (mined, idle.budget),
            };
            let opened = tech(
                content,
                plan.barracks@,
                s,
                mind.me,
                tick,
                hq.pos,
                Tech { budget, rng: mind.rng, choices: staffed, barracks: Seq::empty() },
                plan.barracks@.len() as int,
            );
            let (levied, left, cursor) = match levy(
                content,
                plan,
                s.buildings,
                opened.barracks,
                mind.cursor,
                opened.budget,
            ) {
                Some((b, u)) => (
                    opened.choices.push(
                        Choice::TrainArmy { at: s.buildings[b].entity, unit: u as usize },
                    ),
                    (opened.budget - content.units@[u].mvp_alloy_cost) as u32,
                    if mind.cursor == u32::MAX {
                        0
                    } else {
                        (mind.cursor + 1) as u32
                    },
                ),
                None => (opened.choices, opened.budget, mind.cursor),
            };
            match wave(content, plan, s, mind.me, tick, mind.next, opened.rng) {
                Some(c) => Plan {
                    choices: levied.push(c),
                    budget: left,
                    rng: spatial::state_after(opened.rng, 2),
                    cursor,
                    next: sum_of(tick, plan.attack_interval_ticks),
                },
                None => Plan {
                    choices: levied,
                    budget: left,
                    rng: opened.rng,
                    cursor,
                    next: mind.next,
                },
            }
        },
    }
}

// ---- sorting the snapshot ---------------------------------------------------

fn sort_snapshot(s: &Snapshot) -> (r: Snapshot)
    requires
        surveyed(s@),
    ensures
        r@ == sorted(s@),
        surveyed(r@),
{
    let ghost all = s@;
    let mut names: Vec<u64> = Vec::new();
    let mut k: usize = 0;
    while k < s.nodes.len()
        invariant
            k <= s.nodes@.len(),
            names@ == node_keys(s.nodes@).take(k as int),
        decreases s.nodes@.len() - k,
    {
        names.push(s.nodes[k].entity.to_bits());
        assert(names@ =~= node_keys(s.nodes@).take(k + 1));
        k = k + 1;
    }
    assert(names@ =~= node_keys(s.nodes@));
    let by_node = turn_order(&names);
    proof {
        turns::everybody_gets_a_turn(node_keys(s.nodes@));
    }
    let mut nodes: Vec<NodeRow> = Vec::new();
    let mut k: usize = 0;
    while k < by_node.len()
        invariant
            k <= by_node@.len(),
            turns::in_turn(node_keys(s.nodes@), by_node@, s.nodes@.len() as int),
            nodes@ == turns::reordered(s.nodes@, by_node@).take(k as int),
        decreases by_node@.len() - k,
    {
        nodes.push(s.nodes[by_node[k]]);
        assert(nodes@ =~= turns::reordered(s.nodes@, by_node@).take(k + 1));
        k = k + 1;
    }
    assert(nodes@ =~= turns::reordered(s.nodes@, by_node@));

    let mut names: Vec<u64> = Vec::new();
    let mut k: usize = 0;
    while k < s.buildings.len()
        invariant
            k <= s.buildings@.len(),
            names@ == building_keys(s.buildings@).take(k as int),
        decreases s.buildings@.len() - k,
    {
        names.push(s.buildings[k].entity.to_bits());
        assert(names@ =~= building_keys(s.buildings@).take(k + 1));
        k = k + 1;
    }
    assert(names@ =~= building_keys(s.buildings@));
    let by_building = turn_order(&names);
    proof {
        turns::everybody_gets_a_turn(building_keys(s.buildings@));
    }
    let mut buildings: Vec<BuildingRow> = Vec::new();
    let mut k: usize = 0;
    while k < by_building.len()
        invariant
            k <= by_building@.len(),
            turns::in_turn(building_keys(s.buildings@), by_building@, s.buildings@.len() as int),
            buildings@ == turns::reordered(s.buildings@, by_building@).take(k as int),
        decreases by_building@.len() - k,
    {
        buildings.push(s.buildings[by_building[k]]);
        assert(buildings@ =~= turns::reordered(s.buildings@, by_building@).take(k + 1));
        k = k + 1;
    }
    assert(buildings@ =~= turns::reordered(s.buildings@, by_building@));

    let mut names: Vec<u64> = Vec::new();
    let mut k: usize = 0;
    while k < s.units.len()
        invariant
            k <= s.units@.len(),
            names@ == unit_keys(seen(s.units@)).take(k as int),
        decreases s.units@.len() - k,
    {
        names.push(s.units[k].entity.to_bits());
        assert(names@ =~= unit_keys(seen(s.units@)).take(k + 1));
        k = k + 1;
    }
    assert(names@ =~= unit_keys(seen(s.units@)));
    let by_unit = turn_order(&names);
    proof {
        turns::everybody_gets_a_turn(unit_keys(seen(s.units@)));
    }
    let ghost want = sorted(all).units;
    let mut units: Vec<UnitRow> = Vec::new();
    let mut k: usize = 0;
    while k < by_unit.len()
        invariant
            k <= by_unit@.len(),
            all == s@,
            surveyed(all),
            turns::in_turn(node_keys(s.nodes@), by_node@, s.nodes@.len() as int),
            turns::in_turn(unit_keys(seen(s.units@)), by_unit@, s.units@.len() as int),
            by_node@ == turns::turns(node_keys(s.nodes@)),
            by_unit@ == turns::turns(unit_keys(seen(s.units@))),
            want == sorted(all).units,
            seen(units@) == want.take(k as int),
            forall|i: int| 0 <= i < k ==> (#[trigger] units@[i]).to_nodes@.len() == s.nodes@.len(),
        decreases by_unit@.len() - k,
    {
        let u = &s.units[by_unit[k]];
        assert(all.units[by_unit@[k as int] as int] == u@);
        let mut to_nodes: Vec<F32> = Vec::new();
        let mut q: usize = 0;
        while q < by_node.len()
            invariant
                q <= by_node@.len(),
                u.to_nodes@.len() == s.nodes@.len(),
                turns::in_turn(node_keys(s.nodes@), by_node@, s.nodes@.len() as int),
                to_nodes@ == turns::reordered(u.to_nodes@, by_node@).take(q as int),
            decreases by_node@.len() - q,
        {
            to_nodes.push(u.to_nodes[by_node[q]]);
            assert(to_nodes@ =~= turns::reordered(u.to_nodes@, by_node@).take(q + 1));
            q = q + 1;
        }
        assert(to_nodes@ =~= turns::reordered(u.to_nodes@, by_node@));
        let ghost before = units@;
        units.push(
            UnitRow {
                entity: u.entity,
                def: u.def,
                faction: u.faction,
                on_a_job: u.on_a_job,
                to_nodes,
            },
        );
        proof {
            assert(want[k as int] == resurveyed(u@, by_node@));
            assert(seen(units@) =~= seen(before).push(want[k as int]));
            assert(want.take(k + 1) =~= want.take(k as int).push(want[k as int]));
        }
        k = k + 1;
    }
    assert(want.take(want.len() as int) =~= want);
    let r = Snapshot { units, buildings, nodes };
    proof {
        assert(r@.units == sorted(all).units);
        assert forall|i: int| 0 <= i < r@.units.len() implies (#[trigger] r@.units[i]).to_nodes.len()
            == r@.nodes.len() by {
            assert(r@.units[i] == units@[i]@);
        }
    }
    r
}

// ---- deciding ---------------------------------------------------------------

fn find_seat(content: &Content, all: &Vec<BuildingRow>, f: Faction) -> (r: Option<usize>)
    ensures
        r is Some == seat(content, all@, f, 0) is Some,
        r matches Some(i) ==> seat(content, all@, f, 0) == Some(i as int) && i < all@.len()
            && all@[i as int].def < content.buildings@.len(),
{
    let mut k: usize = 0;
    while k < all.len()
        invariant
            k <= all@.len(),
            seat(content, all@, f, 0) == seat(content, all@, f, k as int),
        decreases all@.len() - k,
    {
        let b = all[k];
        if b.faction == f && b.def < content.buildings.len() && content.buildings[b.def].victory {
            return Some(k);
        }
        k = k + 1;
    }
    None
}

fn find_owned(all: &Vec<BuildingRow>, f: Faction, def: usize) -> (r: Option<usize>)
    ensures
        r is Some == owned(all@, f, def as int, 0) is Some,
        r matches Some(i) ==> owned(all@, f, def as int, 0) == Some(i as int) && i < all@.len(),
{
    let mut k: usize = 0;
    while k < all.len()
        invariant
            k <= all@.len(),
            owned(all@, f, def as int, 0) == owned(all@, f, def as int, k as int),
        decreases all@.len() - k,
    {
        if all[k].faction == f && all[k].def == def {
            return Some(k);
        }
        k = k + 1;
    }
    None
}

/// Every idle gatherer gets the nearest deposit.
fn decide_mining(content: &Content, s: &Snapshot, me: Faction) -> (r: Vec<Decision>)
    requires
        surveyed(s@),
    ensures
        choices(r@) == mining(content, s@, me, s@.units.len() as int),
{
    let mut out: Vec<Decision> = Vec::new();
    assert(choices(out@) =~= Seq::empty());
    let mut k: usize = 0;
    while k < s.units.len()
        invariant
            k <= s.units@.len(),
            surveyed(s@),
            choices(out@) == mining(content, s@, me, k as int),
        decreases s.units@.len() - k,
    {
        let u = &s.units[k];
        assert(s@.units[k as int] == u@);
        if u.faction == me && !u.on_a_job && u.def < content.units.len()
            && content.units[u.def].gathers {
            let ghost all = deposits(s@.nodes, u@);
            let mut list: Vec<Candidate> = Vec::new();
            let mut q: usize = 0;
            while q < s.nodes.len()
                invariant
                    q <= s.nodes@.len(),
                    u.to_nodes@.len() == s.nodes@.len(),
                    all == deposits(s.nodes@, u@),
                    list@ == all.take(q as int),
                decreases s.nodes@.len() - q,
            {
                list.push(
                    Candidate {
                        squared: u.to_nodes[q],
                        key: s.nodes[q].entity.to_bits(),
                        open: true,
                    },
                );
                assert(list@ =~= all.take(q + 1));
                q = q + 1;
            }
            assert(list@ =~= all);
            match nearest_of(&list) {
                Some(q) => {
                    let ghost before = out@;
                    let d = Decision::Gather {
                        unit: u.entity,
                        node: s.nodes[q].entity,
                        node_pos: s.nodes[q].pos,
                    };
                    out.push(d);
                    assert(choices(out@) =~= choices(before).push(d@));
                },
                None => {},
            }
        }
        k = k + 1;
    }
    out
}

fn find_gatherer(content: &Content, ids: &Vec<String>) -> (r: Option<usize>)
    ensures
        r is Some == first_gatherer(content, ids@, 0) is Some,
        r matches Some(u) ==> first_gatherer(content, ids@, 0) == Some(u as int) && u
            < content.units@.len(),
{
    let mut k: usize = 0;
    while k < ids.len()
        invariant
            k <= ids@.len(),
            first_gatherer(content, ids@, 0) == first_gatherer(content, ids@, k as int),
        decreases ids@.len() - k,
    {
        match content.unit_index(ids[k].as_str()) {
            Some(u) => {
                if content.units[u].gathers {
                    return Some(u);
                }
            },
            None => {},
        }
        k = k + 1;
    }
    None
}

fn add_up(a: u32, b: u32) -> (r: u32)
    ensures
        r == sum_of(a, b),
{
    if b <= u32::MAX - a {
        a + b
    } else {
        u32::MAX
    }
}

/// The worker that the headquarters is told to train, if it is.
fn decide_recruit(
    content: &Content,
    plan: &StrategyDef,
    s: &Snapshot,
    me: Faction,
    hq: &BuildingRow,
    budget: u32,
) -> (r: Option<usize>)
    requires
        hq.def < content.buildings@.len(),
    ensures
        r is Some == recruit(content, *plan, s@, me, *hq, budget) is Some,
        r matches Some(w) ==> recruit(content, *plan, s@, me, *hq, budget) == Some(w as int) && w
            < content.units@.len() && budget >= content.units@[w as int].mvp_alloy_cost,
{
    let mut count: usize = 0;
    let mut k: usize = 0;
    while k < s.units.len()
        invariant
            k <= s.units@.len(),
            count <= k,
            count == gatherers(content, s@.units, me, k as int),
        decreases s.units@.len() - k,
    {
        let u = &s.units[k];
        assert(s@.units[k as int] == u@);
        if u.faction == me && u.def < content.units.len() && content.units[u.def].gathers {
            count = count + 1;
        }
        k = k + 1;
    }
    match find_gatherer(content, &content.buildings[hq.def].produces) {
        Some(w) => {
            let have: u32 = add_up(count as u32, hq.queued as u32);
            if have < plan.worker_target && hq.queued == 0 && budget
                >= content.units[w].mvp_alloy_cost {
                Some(w)
            } else {
                None
            }
        },
        None => None,
    }
}

/// Open the barracks that the script opens.
fn decide_tech(
    content: &Content,
    openings: &Vec<Opening>,
    s: &Snapshot,
    me: Faction,
    tick: u32,
    from: Point,
    budget: &mut u32,
    rng: &mut SplitMix64,
    out: &mut Vec<Decision>,
) -> (r: Vec<usize>)
    ensures
        ({
            let start = Tech {
                budget: *old(budget),
                rng: old(rng)@,
                choices: choices(old(out)@),
                barracks: Seq::empty(),
            };
            let t = tech(
                content,
                openings@,
                s@,
                me,
                tick,
                from,
                start,
                openings@.len() as int,
            );
            &&& *final(budget) == t.budget
            &&& final(rng)@ == t.rng
            &&& choices(final(out)@) == t.choices
            &&& r@.map_values(|b: usize| b as int) == t.barracks
            &&& forall|i: int| 0 <= i < r@.len() ==> #[trigger] r@[i] < s@.buildings.len()
        }),
{
    let ghost start = Tech {
        budget: *budget,
        rng: rng@,
        choices: choices(out@),
        barracks: Seq::empty(),
    };
    let mut mine: Vec<usize> = Vec::new();
    assert(mine@.map_values(|b: usize| b as int) =~= Seq::empty());
    let mut k: usize = 0;
    while k < openings.len()
        invariant
            k <= openings@.len(),
            ({
                let t = tech(content, openings@, s@, me, tick, from, start, k as int);
                &&& *budget == t.budget
                &&& rng@ == t.rng
                &&& choices(out@) == t.choices
                &&& mine@.map_values(|b: usize| b as int) == t.barracks
            }),
            forall|i: int| 0 <= i < mine@.len() ==> #[trigger] mine@[i] < s@.buildings.len(),
        decreases openings@.len() - k,
    {
        let o = &openings[k];
        match content.building_index(o.building.as_str()) {
            Some(def) => match find_owned(&s.buildings, me, def) {
                Some(b) => {
                    let ghost before = mine@;
                    mine.push(b);
                    assert(mine@.map_values(|b: usize| b as int) =~= before.map_values(
                        |b: usize| b as int,
                    ).push(b as int));
                },
                None => {
                    let cost: u32 = content.buildings[def].alloy_cost;
                    if tick >= o.at_tick && *budget >= cost {
                        *budget = *budget - cost;
                        let turn: F32 = rng.next_f32();
                        let ghost before = out@;
                        let d = Decision::Place { building: def, from, turn, offset: o.offset };
                        out.push(d);
                        assert(choices(out@) =~= choices(before).push(d@));
                    }
                },
            },
            None => {},
        }
        k = k + 1;
    }
    mine
}

fn find_trainer(content: &Content, all: &Vec<BuildingRow>, barracks: &Vec<usize>, unit: usize)
    -> (r: Option<usize>)
    requires
        forall|i: int| 0 <= i < barracks@.len() ==> #[trigger] barracks@[i] < all@.len(),
    ensures
        ({
            let places = barracks@.map_values(|b: usize| b as int);
            let t = trainer(content, all@, places, unit as int, 0);
            &&& r is Some == t is Some
            &&& r matches Some(b) ==> t == Some(b as int) && b < all@.len()
        }),
{
    let ghost places = barracks@.map_values(|b: usize| b as int);
    let mut k: usize = 0;
    while k < barracks.len()
        invariant
            k <= barracks@.len(),
            places == barracks@.map_values(|b: usize| b as int),
            forall|i: int| 0 <= i < barracks@.len() ==> #[trigger] barracks@[i] < all@.len(),
            trainer(content, all@, places, unit as int, 0) == trainer(
                content,
                all@,
                places,
                unit as int,
                k as int,
            ),
        decreases barracks@.len() - k,
    {
        let b: usize = barracks[k];
        if content.produces(all[b].def, unit) {
            return Some(b);
        }
        k = k + 1;
    }
    None
}

/// The barracks that trains the next unit of the army and the unit, if it is
/// trained now.
fn decide_levy(
    content: &Content,
    plan: &StrategyDef,
    all: &Vec<BuildingRow>,
    barracks: &Vec<usize>,
    cursor: u32,
    budget: u32,
) -> (r: Option<(usize, usize)>)
    requires
        forall|i: int| 0 <= i < barracks@.len() ==> #[trigger] barracks@[i] < all@.len(),
    ensures
        ({
            let places = barracks@.map_values(|b: usize| b as int);
            let l = levy(content, *plan, all@, places, cursor, budget);
            &&& r is Some == l is Some
            &&& r matches Some((b, u)) ==> l == Some((b as int, u as int)) && b < all@.len() && u
                < content.units@.len() && budget >= content.units@[u as int].mvp_alloy_cost
        }),
{
    match script::army_at_of(&plan.army, cursor) {
        Some(i) => match content.unit_index(plan.army[i].unit.as_str()) {
            Some(u) => match find_trainer(content, all, barracks, u) {
                Some(b) => if all[b].queued == 0 && budget >= content.units[u].mvp_alloy_cost {
                    Some((b, u))
                } else {
                    None
                },
                None => None,
            },
            None => None,
        },
        None => None,
    }
}

/// The army of `f`.
fn muster(content: &Content, s: &Snapshot, f: Faction) -> (r: Vec<Entity>)
    ensures
        r@ == army(content, s@.units, f, s@.units.len() as int),
{
    let mut out: Vec<Entity> = Vec::new();
    let mut k: usize = 0;
    while k < s.units.len()
        invariant
            k <= s.units@.len(),
            out@ == army(content, s@.units, f, k as int),
        decreases s.units@.len() - k,
    {
        let u = &s.units[k];
        assert(s@.units[k as int] == u@);
        if u.faction == f && u.def < content.units.len() && content.units[u.def].offense > 0 {
            out.push(u.entity);
        }
        k = k + 1;
    }
    out
}

/// The mind of a commander.
pub open spec fn mind(c: AiCommander) -> Mind {
    Mind { me: c.faction, rng: c.rng@, cursor: c.army_cursor, next: c.next_attack_tick }
}

fn foe_of(f: Faction) -> (r: Faction)
    ensures
        r == f.foe(),
{
    match f {
        Faction::A => Faction::B,
        Faction::B => Faction::A,
    }
}

/// One decision by one commander, on a sorted snapshot.
fn think(c: &mut AiCommander, tick: u32, content: &Content, stock: &Stockpiles, s: &Snapshot) -> (r:
    Vec<Decision>)
    requires
        surveyed(s@),
        old(c).script_pos(content) is Some,
    ensures
        ({
            let p = plan_of(content, old(c).script(content), s@, *stock, mind(*old(c)), tick);
            &&& choices(r@) == p.choices
            &&& final(c).faction == old(c).faction
            &&& final(c).strategy == old(c).strategy
            &&& final(c).tick == old(c).tick
            &&& final(c).rng@ == p.rng
            &&& final(c).army_cursor == p.cursor
            &&& final(c).next_attack_tick == p.next
        }),
{
    let plan = c.strategy(content);
    let me: Faction = c.faction;
    let ghost start = mind(*c);
    let h: usize = match find_seat(content, &s.buildings, me) {
        Some(h) => h,
        None => {
            let none: Vec<Decision> = Vec::new();
            assert(choices(none@) =~= Seq::empty());
            return none;
        },
    };
    let hq: BuildingRow = s.buildings[h];
    let mut budget: u32 = stock.alloy(me);
    let mut out: Vec<Decision> = decide_mining(content, s, me);
    let ghost mined = out@;
    match decide_recruit(content, plan, s, me, &hq, budget) {
        Some(w) => {
            budget = budget - content.units[w].mvp_alloy_cost;
            let d = Decision::TrainWorker { at: hq.entity, unit: w };
            out.push(d);
            assert(choices(out@) =~= choices(mined).push(d@));
        },
        None => {},
    }
    let mut rng: SplitMix64 = c.rng;
    let barracks = decide_tech(
        content,
        &plan.barracks,
        s,
        me,
        tick,
        hq.pos,
        &mut budget,
        &mut rng,
        &mut out,
    );
    let ghost opened = out@;
    match decide_levy(content, plan, &s.buildings, &barracks, c.army_cursor, budget) {
        Some((b, u)) => {
            budget = budget - content.units[u].mvp_alloy_cost;
            c.army_cursor = c.army_cursor.wrapping_add(1);
            let d = Decision::TrainArmy { at: s.buildings[b].entity, unit: u };
            out.push(d);
            assert(choices(out@) =~= choices(opened).push(d@));
        },
        None => {},
    }
    let ghost levied = out@;
    let force: Vec<Entity> = muster(content, s, me);
    if force.len() as u32 >= plan.attack_at_army && tick >= c.next_attack_tick {
        match find_seat(content, &s.buildings, foe_of(me)) {
            Some(e) => {
                let ghost r0 = rng@;
                let x: F32 = rng.next_f32();
                let y: F32 = rng.next_f32();
                proof {
                    spatial::lemma_state_after_adds(r0, 1, 1);
                    lemma_second_draw(r0);
                }
                c.next_attack_tick = add_up(tick, plan.attack_interval_ticks);
                let d = Decision::Attack {
                    force,
                    toward: s.buildings[e].pos,
                    x,
                    y,
                    spread: plan.attack_spread,
                };
                out.push(d);
                assert(choices(out@) =~= choices(levied).push(d@));
            },
            None => {},
        }
    }
    c.rng = rng;
    out
}

proof fn lemma_second_draw(state: u64)
    ensures
        spatial::draw(spatial::state_after(state, 1), 0) == spatial::draw(state, 1),
{
    spatial::lemma_state_after_adds(state, 1, 1);
}

/// What a commander decided on a tick.
#[derive(Debug)]
pub struct Thought {
    pub faction: Faction,
    pub tick: u32,
    pub decisions: Vec<Decision>,
}

/// Can a commander play on this content?
pub open spec fn can_play(content: &Content, c: AiCommander) -> bool {
    c.script_pos(content) is Some && c.script(content).think_interval_ticks > 0
}

/// Does a commander think on its current tick?
pub open spec fn thinks(content: &Content, c: AiCommander) -> bool {
    c.tick as int % c.script(content).think_interval_ticks as int == 0
}

/// What the commander at `i` decides on its current tick.
pub open spec fn plan_at(content: &Content, all: Seq<AiCommander>, s: Scene, stock: Stockpiles, i: int)
    -> Plan {
    plan_of(content, all[i].script(content), sorted(s), stock, mind(all[i]), all[i].tick)
}

/// Which of the first `k` commanders think.
pub open spec fn thinkers(content: &Content, all: Seq<AiCommander>, k: int) -> Seq<int>
    decreases k,
{
    if k <= 0 {
        Seq::empty()
    } else if thinks(content, all[k - 1]) {
        thinkers(content, all, k - 1).push(k - 1)
    } else {
        thinkers(content, all, k - 1)
    }
}

/// A commander after its tick.
pub open spec fn moved_on(content: &Content, before: AiCommander, after: AiCommander, p: Plan) -> bool {
    &&& after.faction == before.faction
    &&& after.strategy == before.strategy
    &&& after.tick == sum_of(before.tick, 1)
    &&& if thinks(content, before) {
        after.rng@ == p.rng && after.army_cursor == p.cursor && after.next_attack_tick == p.next
    } else {
        after.rng == before.rng && after.army_cursor == before.army_cursor
            && after.next_attack_tick == before.next_attack_tick
    }
}

/// One tick of every scripted commander, in the order they act in, each at its
/// own cadence.
pub fn ai_commanders(content: &Content, stock: &Stockpiles, ai: &mut AiCommanders, s: &Snapshot) -> (r:
    Vec<Thought>)
    requires
        surveyed(s@),
        forall|i: int| 0 <= i < old(ai).0@.len() ==> can_play(content, #[trigger] old(ai).0@[i]),
    ensures
        ({
            let all = old(ai).0@;
            let who = thinkers(content, all, all.len() as int);
            &&& final(ai).0@.len() == all.len()
            &&& forall|i: int|
                0 <= i < all.len() ==> moved_on(
                    content,
                    all[i],
                    #[trigger] final(ai).0@[i],
                    plan_at(content, all, s@, *stock, i),
                )
            &&& r@.len() == who.len()
            &&& forall|t: int|
                0 <= t < who.len() ==> {
                    let i = who[t];
                    &&& (#[trigger] r@[t]).faction == all[i].faction
                    &&& r@[t].tick == all[i].tick
                    &&& choices(r@[t].decisions@) == plan_at(content, all, s@, *stock, i).choices
                }
        }),
{
    let ghost all = ai.0@;
    let sorted_now = sort_snapshot(s);
    let mut out: Vec<Thought> = Vec::new();
    let n: usize = ai.0.len();
    let mut k: usize = 0;
    while k < n
        invariant
            k <= n,
            n == all.len(),
            ai.0@.len() == n,
            surveyed(sorted_now@),
            sorted_now@ == sorted(s@),
            forall|i: int| 0 <= i < n ==> can_play(content, #[trigger] all[i]),
            forall|i: int| k <= i < n ==> #[trigger] ai.0@[i] == all[i],
            forall|i: int|
                0 <= i < k ==> moved_on(
                    content,
                    all[i],
                    #[trigger] ai.0@[i],
                    plan_at(content, all, s@, *stock, i),
                ),
            out@.len() == thinkers(content, all, k as int).len(),
            forall|t: int|
                0 <= t < out@.len() ==> {
                    let i = thinkers(content, all, k as int)[t];
                    &&& (#[trigger] out@[t]).faction == all[i].faction
                    &&& out@[t].tick == all[i].tick
                    &&& choices(out@[t].decisions@) == plan_at(content, all, s@, *stock, i).choices
                },
        decreases n - k,
    {
        let mut c: AiCommander = ai.0[k];
        assert(c == all[k as int]);
        assert(can_play(content, all[k as int]));
        let tick: u32 = c.tick;
        c.tick = add_up(tick, 1);
        let every: u32 = c.strategy(content).think_interval_ticks;
        if tick % every == 0 {
            let decisions = think(&mut c, tick, content, stock, &sorted_now);
            out.push(Thought { faction: c.faction, tick, decisions });
        }
        ai.0.set(k, c);
        k = k + 1;
    }
    out
}

// ---- acting -----------------------------------------------------------------

/// What a decision asks for, with the point that chance decided.
pub open spec fn asks(c: Choice, me: Faction, spot: Point) -> Asked {
    match c {
        Choice::Gather { unit, node, node_pos } => Asked::Gather {
            units: seq![unit],
            node,
            node_pos,
        },
        Choice::TrainWorker { at, unit } => Asked::Train { building: at, unit },
        Choice::Place { building, from, turn, offset } => Asked::Place {
            faction: me,
            building,
            pos: spot,
        },
        Choice::TrainArmy { at, unit } => Asked::Train { building: at, unit },
        Choice::Attack { force, toward, x, y, spread } => Asked::MoveTo { units: force, dest: spot },
    }
}

/// How a decision is entered in the journal.
pub open spec fn journalled(c: Choice, spot: Point) -> AiAction {
    match c {
        Choice::Gather { unit, node, node_pos } => AiAction::Gather { unit, node },
        Choice::TrainWorker { at, unit } => AiAction::TrainWorker { at },
        Choice::Place { building, from, turn, offset } => AiAction::PlaceBarracks {
            building,
            pos: spot,
        },
        Choice::TrainArmy { at, unit } => AiAction::TrainArmy { unit },
        Choice::Attack { force, toward, x, y, spread } => AiAction::Attack {
            dest: spot,
            force: force.len() as u32,
        },
    }
}

/// The command that a decision becomes: signed by its commander, for the next
/// tick that drains the queue.
pub open spec fn issued(c: Choice, me: Faction, spot: Point) -> Scheduled {
    Scheduled {
        when: CommandTick::Asap,
        claim: Claim { attribution: Attribution::By(me), asked: asks(c, me, spot) },
    }
}

/// The commands of the first `k` decisions.
pub open spec fn all_issued(all: Seq<Choice>, me: Faction, spots: Seq<Point>, k: int) -> Seq<
    Scheduled,
>
    decreases k,
{
    if k <= 0 {
        Seq::empty()
    } else {
        all_issued(all, me, spots, k - 1).push(issued(all[k - 1], me, spots[k - 1]))
    }
}

/// The journal entries of the first `k` decisions.
pub open spec fn all_journalled(
    all: Seq<Choice>,
    tick: u32,
    me: Faction,
    spots: Seq<Point>,
    k: int,
) -> Seq<(u32, Faction, AiAction)>
    decreases k,
{
    if k <= 0 {
        Seq::empty()
    } else {
        all_journalled(all, tick, me, spots, k - 1).push(
            (tick, me, journalled(all[k - 1], spots[k - 1])),
        )
    }
}

fn order_of(d: &Decision, me: Faction, spot: Point) -> (r: (Order, AiAction))
    ensures
        r.0@ == asks(d@, me, spot),
        !(r.0 is By),
        r.1 == journalled(d@, spot),
{
    match d {
        Decision::Gather { unit, node, node_pos } => {
            let units: Vec<Entity> = vec![*unit];
            assert(units@ =~= seq![*unit]);
            (
                Order::Gather { units, node: *node, node_pos: *node_pos },
                AiAction::Gather { unit: *unit, node: *node },
            )
        },
        Decision::TrainWorker { at, unit } => (
            Order::Train { building: *at, unit: *unit },
            AiAction::TrainWorker { at: *at },
        ),
        Decision::Place { building, from: _, turn: _, offset: _ } => (
            Order::Place { faction: me, building: *building, pos: spot },
            AiAction::PlaceBarracks { building: *building, pos: spot },
        ),
        Decision::TrainArmy { at, unit } => (
            Order::Train { building: *at, unit: *unit },
            AiAction::TrainArmy { unit: *unit },
        ),
        Decision::Attack { force, toward: _, x: _, y: _, spread: _ } => {
            let mut units: Vec<Entity> = Vec::new();
            let mut k: usize = 0;
            while k < force.len()
                invariant
                    k <= force@.len(),
                    units@ == force@.take(k as int),
                decreases force@.len() - k,
            {
                units.push(force[k]);
                assert(units@ =~= force@.take(k + 1));
                k = k + 1;
            }
            assert(units@ =~= force@);
            (
                Order::MoveTo { units, dest: spot },
                AiAction::Attack { dest: spot, force: force.len() as u32 },
            )
        },
    }
}

/// Issue what a commander decided, signed with its faction, and enter it in the
/// journal. `spots` holds the point of each decision that chance had a part in.
pub fn act(thought: &Thought, spots: &Vec<Point>, queue: &mut OrderQueue, journal: &mut AiJournal)
    requires
        spots@.len() == thought.decisions@.len(),
    ensures
        final(queue)@ == old(queue)@ + all_issued(
            choices(thought.decisions@),
            thought.faction,
            spots@,
            spots@.len() as int,
        ),
        final(journal).0@ == old(journal).0@ + all_journalled(
            choices(thought.decisions@),
            thought.tick,
            thought.faction,
            spots@,
            spots@.len() as int,
        ),
{
    let ghost all = choices(thought.decisions@);
    let ghost (q0, j0) = (queue@, journal.0@);
    let me: Faction = thought.faction;
    assert(q0 + all_issued(all, me, spots@, 0) =~= q0);
    assert(j0 + all_journalled(all, thought.tick, me, spots@, 0) =~= j0);
    let mut k: usize = 0;
    while k < spots.len()
        invariant
            k <= spots@.len(),
            spots@.len() == thought.decisions@.len(),
            all == choices(thought.decisions@),
            me == thought.faction,
            queue@ == q0 + all_issued(all, me, spots@, k as int),
            journal.0@ == j0 + all_journalled(all, thought.tick, me, spots@, k as int),
        decreases spots@.len() - k,
    {
        let d = &thought.decisions[k];
        assert(all[k as int] == d@);
        let (order, action) = order_of(d, me, spots[k]);
        let ghost plain = order;
        let signed = SignedOrder::from(order.issued_by(me));
        proof {
            let by = seq![me] + orders::signers(plain);
            assert(by =~= seq![me]);
            assert(signed@ == issued(d@, me, spots@[k as int]).claim);
        }
        queue.push_back(signed);
        journal.0.push((thought.tick, me, action));
        proof {
            assert(queue@ =~= q0 + all_issued(all, me, spots@, k + 1));
            assert(journal.0@ =~= j0 + all_journalled(all, thought.tick, me, spots@, k + 1));
        }
        k = k + 1;
    }
}

// ---- laws -------------------------------------------------------------------

/// What a choice costs.
pub open spec fn price(content: &Content, c: Choice) -> nat {
    match c {
        Choice::TrainWorker { at, unit } => content.units@[unit as int].mvp_alloy_cost as nat,
        Choice::Place { building, from, turn, offset } =>
            content.buildings@[building as int].alloy_cost as nat,
        Choice::TrainArmy { at, unit } => content.units@[unit as int].mvp_alloy_cost as nat,
        _ => 0,
    }
}

/// What a list of choices costs.
pub open spec fn total_price(content: &Content, all: Seq<Choice>) -> nat
    decreases all.len(),
{
    if all.len() == 0 {
        0
    } else {
        total_price(content, all.drop_last()) + price(content, all.last())
    }
}

proof fn lemma_price_push(content: &Content, all: Seq<Choice>, c: Choice)
    ensures
        total_price(content, all.push(c)) == total_price(content, all) + price(content, c),
{
    assert(all.push(c).drop_last() =~= all);
}

proof fn lemma_mining_is_free(content: &Content, s: Scene, me: Faction, k: int)
    ensures
        total_price(content, mining(content, s, me, k)) == 0,
    decreases k,
{
    if k > 0 {
        lemma_mining_is_free(content, s, me, k - 1);
        let before = mining(content, s, me, k - 1);
        let u = s.units[k - 1];
        match near::nearest(deposits(s.nodes, u)) {
            Some(q) => {
                lemma_price_push(
                    content,
                    before,
                    Choice::Gather {
                        unit: u.entity,
                        node: s.nodes[q].entity,
                        node_pos: s.nodes[q].pos,
                    },
                );
            },
            None => {},
        }
    }
}

proof fn lemma_tech_pays(
    content: &Content,
    openings: Seq<Opening>,
    s: Scene,
    me: Faction,
    tick: u32,
    from: Point,
    start: Tech,
    k: int,
)
    requires
        content.buildings@.len() <= usize::MAX,
    ensures
        ({
            let t = tech(content, openings, s, me, tick, from, start, k);
            t.budget + total_price(content, t.choices) == start.budget + total_price(
                content,
                start.choices,
            )
        }),
    decreases k,
{
    if k > 0 {
        lemma_tech_pays(content, openings, s, me, tick, from, start, k - 1);
        let t = tech(content, openings, s, me, tick, from, start, k - 1);
        let o = openings[k - 1];
        match content.building_pos(o.building@) {
            Some(def) => {
                crate::sim::content::lookup::lemma_first_at(
                    crate::sim::content::lookup::building_ids(content.buildings@),
                    o.building@,
                    0,
                );
                lemma_price_push(
                    content,
                    t.choices,
                    Choice::Place {
                        building: def as usize,
                        from,
                        turn: spatial::unit_f32(spatial::draw(t.rng, 0)),
                        offset: o.offset,
                    },
                );
            },
            None => {},
        }
    }
}

/// One decision never commits the same Alloy twice: what its choices cost and
/// what it has not committed make up what its side has banked.
pub proof fn a_decision_stays_in_budget(
    content: &Content,
    plan: StrategyDef,
    s: Scene,
    stock: Stockpiles,
    m: Mind,
    tick: u32,
)
    requires
        content.buildings@.len() <= usize::MAX,
        content.units@.len() <= usize::MAX,
    ensures
        ({
            let p = plan_of(content, plan, s, stock, m, tick);
            total_price(content, p.choices) + p.budget == stock.of(m.me)
        }),
{
    match seat(content, s.buildings, m.me, 0) {
        None => {},
        Some(h) => {
            let hq = s.buildings[h];
            let mined = mining(content, s, m.me, s.units.len() as int);
            lemma_mining_is_free(content, s, m.me, s.units.len() as int);
            let (staffed, budget) = match recruit(content, plan, s, m.me, hq, stock.of(m.me)) {
                Some(w) => (
                    mined.push(Choice::TrainWorker { at: hq.entity, unit: w as usize }),
                    (stock.of(m.me) - content.units@[w].mvp_alloy_cost) as u32,
                ),
                None => (mined, stock.of(m.me)),
            };
            match recruit(content, plan, s, m.me, hq, stock.of(m.me)) {
                Some(w) => {
                    lemma_gatherer_pos(content, content.buildings@[hq.def as int].produces@, 0);
                    lemma_price_push(
                        content,
                        mined,
                        Choice::TrainWorker { at: hq.entity, unit: w as usize },
                    );
                },
                None => {},
            }
            let start = Tech { budget, rng: m.rng, choices: staffed, barracks: Seq::empty() };
            let n = plan.barracks@.len() as int;
            lemma_tech_pays(content, plan.barracks@, s, m.me, tick, hq.pos, start, n);
            let opened = tech(content, plan.barracks@, s, m.me, tick, hq.pos, start, n);
            let l = levy(content, plan, s.buildings, opened.barracks, m.cursor, opened.budget);
            let levied = match l {
                Some((b, u)) => opened.choices.push(
                    Choice::TrainArmy { at: s.buildings[b].entity, unit: u as usize },
                ),
                None => opened.choices,
            };
            match l {
                Some((b, u)) => {
                    crate::sim::content::lookup::lemma_first_at(
                        crate::sim::content::lookup::unit_ids(content.units@),
                        script::army_unit(plan.army@, m.cursor as int)->0,
                        0,
                    );
                    lemma_price_push(
                        content,
                        opened.choices,
                        Choice::TrainArmy { at: s.buildings[b].entity, unit: u as usize },
                    );
                },
                None => {},
            }
            match wave(content, plan, s, m.me, tick, m.next, opened.rng) {
                Some(c) => lemma_price_push(content, levied, c),
                None => {},
            }
        },
    }
}

proof fn lemma_gatherer_pos(content: &Content, ids: Seq<String>, k: int)
    requires
        0 <= k,
    ensures
        first_gatherer(content, ids, k) matches Some(u) ==> 0 <= u < content.units@.len(),
    decreases ids.len() - k,
{
    if k < ids.len() {
        crate::sim::content::lookup::lemma_first_at(
            crate::sim::content::lookup::unit_ids(content.units@),
            ids[k]@,
            0,
        );
        lemma_gatherer_pos(content, ids, k + 1);
    }
}

/// A commander sends only its own: everybody in an attack wave is on its side,
/// fights, and is in the snapshot.
pub proof fn an_army_is_its_own(content: &Content, units: Seq<Seen>, f: Faction, k: int, i: int)
    requires
        0 <= k <= units.len(),
        0 <= i < army(content, units, f, k).len(),
    ensures
        exists|j: int|
            0 <= j < k && (#[trigger] units[j]).entity == army(content, units, f, k)[i]
                && units[j].faction == f && fights(content, units[j].def),
    decreases k,
{
    let before = army(content, units, f, k - 1);
    if i < before.len() {
        an_army_is_its_own(content, units, f, k - 1, i);
    } else {
        assert(units[k - 1].entity == army(content, units, f, k)[i]);
    }
}

/// Without a headquarters a commander decides nothing and draws nothing.
pub proof fn no_headquarters_no_decision(
    content: &Content,
    plan: StrategyDef,
    s: Scene,
    stock: Stockpiles,
    m: Mind,
    tick: u32,
)
    requires
        seat(content, s.buildings, m.me, 0) is None,
    ensures
        ({
            let p = plan_of(content, plan, s, stock, m, tick);
            &&& p.choices.len() == 0
            &&& p.rng == m.rng
            &&& p.cursor == m.cursor
            &&& p.next == m.next
        }),
{
}

// ---- listing ------------------------------------------------------------------

/// The same scene in another order: the unit at `i` stands at `mu[i]`, the
/// building at `k` at `mb[k]` and the deposit at `j` at `mn[j]`.
pub open spec fn same_scene(s: Scene, t: Scene, mu: Seq<usize>, mb: Seq<usize>, mn: Seq<usize>)
    -> bool {
    &&& turns::relisted(unit_keys(s.units), unit_keys(t.units), mu)
    &&& turns::relisted(building_keys(s.buildings), building_keys(t.buildings), mb)
    &&& turns::relisted(node_keys(s.nodes), node_keys(t.nodes), mn)
    &&& forall|i: int|
        0 <= i < s.units.len() ==> {
            let (u, v) = (#[trigger] s.units[i], t.units[mu[i] as int]);
            u.entity == v.entity && u.def == v.def && u.faction == v.faction && u.on_a_job
                == v.on_a_job && forall|j: int|
                0 <= j < s.nodes.len() ==> u.to_nodes[j] == v.to_nodes[#[trigger] mn[j] as int]
        }
    &&& forall|i: int|
        0 <= i < s.buildings.len() ==> #[trigger] s.buildings[i] == t.buildings[mb[i] as int]
    &&& forall|j: int| 0 <= j < s.nodes.len() ==> #[trigger] s.nodes[j] == t.nodes[mn[j] as int]
}

/// The order in which the world is listed reaches no decision: the same scene in
/// another order makes a commander plan the same.
pub proof fn a_decision_ignores_the_listing(
    content: &Content,
    all: Seq<AiCommander>,
    stock: Stockpiles,
    s: Scene,
    t: Scene,
    mu: Seq<usize>,
    mb: Seq<usize>,
    mn: Seq<usize>,
    i: int,
)
    requires
        surveyed(s),
        surveyed(t),
        s.units.len() <= usize::MAX,
        s.buildings.len() <= usize::MAX,
        s.nodes.len() <= usize::MAX,
        unit_keys(t.units).no_duplicates(),
        building_keys(t.buildings).no_duplicates(),
        node_keys(t.nodes).no_duplicates(),
        same_scene(s, t, mu, mb, mn),
    ensures
        sorted(s) == sorted(t),
        plan_at(content, all, s, stock, i) == plan_at(content, all, t, stock, i),
{
    let (xu, yu) = (turns::turns(unit_keys(s.units)), turns::turns(unit_keys(t.units)));
    let (xb, yb) = (
        turns::turns(building_keys(s.buildings)),
        turns::turns(building_keys(t.buildings)),
    );
    let (xn, yn) = (turns::turns(node_keys(s.nodes)), turns::turns(node_keys(t.nodes)));
    turns::turns_follow_the_things(unit_keys(s.units), unit_keys(t.units), mu);
    turns::turns_follow_the_things(building_keys(s.buildings), building_keys(t.buildings), mb);
    turns::turns_follow_the_things(node_keys(s.nodes), node_keys(t.nodes), mn);
    let (a, b) = (sorted(s), sorted(t));
    assert(a.nodes =~= b.nodes) by {
        assert forall|p: int| 0 <= p < a.nodes.len() implies a.nodes[p] == b.nodes[p] by {
            assert(yn[p] == mn[xn[p] as int]);
            assert(s.nodes[xn[p] as int] == t.nodes[mn[xn[p] as int] as int]);
        }
    }
    assert(a.buildings =~= b.buildings) by {
        assert forall|p: int| 0 <= p < a.buildings.len() implies a.buildings[p]
            == b.buildings[p] by {
            assert(yb[p] == mb[xb[p] as int]);
            assert(s.buildings[xb[p] as int] == t.buildings[mb[xb[p] as int] as int]);
        }
    }
    assert(a.units =~= b.units) by {
        assert forall|p: int| 0 <= p < a.units.len() implies a.units[p] == b.units[p] by {
            assert(yu[p] == mu[xu[p] as int]);
            let (u, v) = (s.units[xu[p] as int], t.units[mu[xu[p] as int] as int]);
            assert(turns::reordered(u.to_nodes, xn) =~= turns::reordered(v.to_nodes, yn)) by {
                assert forall|q: int| 0 <= q < xn.len() implies turns::reordered(u.to_nodes, xn)[q]
                    == turns::reordered(v.to_nodes, yn)[q] by {
                    assert(yn[q] == mn[xn[q] as int]);
                    assert(u.to_nodes[xn[q] as int] == v.to_nodes[mn[xn[q] as int] as int]);
                }
            }
            assert(a.units[p] == resurveyed(u, xn));
            assert(b.units[p] == resurveyed(v, yn));
        }
    }
}

} // verus!
