//! The worker loop: walk to a deposit, harvest, walk back, deposit.

use vstd::prelude::*;

use crate::float::{F32, Point};
use crate::sim::content::Content;
use crate::sim::economy::Stockpiles;
use crate::sim::near;
use crate::sim::near::{nearest_of, Candidate};
use crate::sim::spatial::Faction;
use crate::sim::turns;
use crate::sim::turns::turn_order;
use crate::sim::world::Entity;

verus! {

/// Where a gathering worker is in its loop.
#[derive(Clone, Copy, PartialEq, Eq, Structural, Debug)]
pub enum GatherPhase {
    /// Heading to the assigned deposit.
    ToNode,
    /// Standing at the deposit, mining one load.
    Harvesting { ticks_left: u32 },
    /// Heading back to a drop-off building with a load.
    ToDropoff,
}

impl Default for GatherPhase {
    fn default() -> (r: Self)
        ensures
            r == GatherPhase::ToNode,
    {
        GatherPhase::ToNode
    }
}

/// A deposit of Alloy.
#[derive(Clone, Copy, PartialEq, Eq, Structural, Debug)]
pub struct ResourceNode {
    pub entity: Entity,
    pub pos: Point,
    pub amount: u32,
}

/// A building as the worker loop sees it.
#[derive(Clone, Copy, Debug)]
pub struct Depot {
    pub entity: Entity,
    pub pos: Point,
    /// An index into the content's buildings.
    pub def: usize,
    pub faction: Faction,
}

/// How far a building is from a worker.
#[derive(Clone, Copy, Debug)]
pub struct Span {
    pub distance: F32,
    pub squared: F32,
}

/// A unit with a gather job.
#[derive(Clone, Debug)]
pub struct Worker {
    pub entity: Entity,
    pub def: usize,
    pub faction: Faction,
    /// The assigned deposit.
    pub node: Entity,
    /// What it carries, if it has hands to carry with.
    pub carrying: Option<u32>,
    pub phase: GatherPhase,
    /// How far its deposit is.
    pub to_node: F32,
    /// How far each building is.
    pub spans: Vec<Span>,
}

/// What becomes of a worker's orders to move.
#[derive(Clone, Copy, PartialEq, Eq, Structural, Debug)]
pub enum Motion {
    /// Whatever it was told before.
    Keep,
    Stop,
    Go(Point),
}

/// What one tick makes of a worker.
#[derive(Clone, Copy, PartialEq, Eq, Structural, Debug)]
pub struct Shift {
    /// Does it keep its job? One that does not loses the deposit and the phase
    /// together.
    pub employed: bool,
    pub carrying: Option<u32>,
    pub phase: GatherPhase,
    pub motion: Motion,
}

/// Where a deposit is listed, from place `k` on.
pub open spec fn node_from(nodes: Seq<ResourceNode>, e: Entity, k: int) -> Option<int>
    decreases nodes.len() - k,
{
    if k < 0 || k >= nodes.len() {
        None
    } else if nodes[k].entity == e {
        Some(k)
    } else {
        node_from(nodes, e, k + 1)
    }
}

/// Where a deposit is listed.
pub open spec fn node_at(nodes: Seq<ResourceNode>, e: Entity) -> Option<int> {
    node_from(nodes, e, 0)
}

/// May a worker of `f` deposit at `d`?
pub open spec fn takes_deposits(content: &Content, d: Depot, f: Faction) -> bool {
    d.faction == f && d.def < content.buildings@.len() && content.buildings@[d.def as int].dropoff
}

/// The buildings as drop-off candidates for a worker.
pub open spec fn dropoffs(content: &Content, depots: Seq<Depot>, w: Worker) -> Seq<Candidate> {
    Seq::new(
        depots.len(),
        |i: int|
            Candidate {
                squared: w.spans@[i].squared,
                key: depots[i].entity.bits,
                open: takes_deposits(content, depots[i], w.faction),
            },
    )
}

/// Everything a worker's turn can change.
pub struct Turn {
    pub stock: Stockpiles,
    pub nodes: Seq<ResourceNode>,
    pub shift: Shift,
}

/// A worker that stays as it is, but for its orders.
pub open spec fn told(w: Worker, motion: Motion) -> Shift {
    Shift { employed: true, carrying: w.carrying, phase: w.phase, motion }
}

/// A worker that goes on to another phase.
pub open spec fn moves_on(carrying: u32, phase: GatherPhase, motion: Motion) -> Shift {
    Shift { employed: true, carrying: Some(carrying), phase, motion }
}

/// A worker that loses its job.
pub open spec fn let_go(w: Worker, carrying: Option<u32>, motion: Motion) -> Shift {
    Shift { employed: false, carrying, phase: w.phase, motion }
}

/// How much a harvest takes.
pub open spec fn harvest(nodes: Seq<ResourceNode>, w: Worker, have: u32, capacity: u32) -> u32 {
    let room = if capacity >= have {
        (capacity - have) as u32
    } else {
        0
    };
    match node_at(nodes, w.node) {
        Some(i) => if room <= nodes[i].amount {
            room
        } else {
            nodes[i].amount
        },
        None => 0,
    }
}

/// The deposits after `taken` was taken out of a worker's.
pub open spec fn mined(nodes: Seq<ResourceNode>, w: Worker, taken: u32) -> Seq<ResourceNode> {
    match node_at(nodes, w.node) {
        Some(i) => nodes.update(
            i,
            ResourceNode {
                entity: nodes[i].entity,
                pos: nodes[i].pos,
                amount: (nodes[i].amount - taken) as u32,
            },
        ),
        None => nodes,
    }
}

/// One turn of one worker.
pub open spec fn work(
    content: &Content,
    depots: Seq<Depot>,
    stock: Stockpiles,
    nodes: Seq<ResourceNode>,
    w: Worker,
) -> Turn {
    if !(w.def < content.units@.len() && content.units@[w.def as int].gathers) {
        // It cannot gather: the economy takes the job back.
        Turn { stock, nodes, shift: let_go(w, w.carrying, Motion::Keep) }
    } else {
        let def = content.units@[w.def as int];
        match w.carrying {
            None => Turn {
                // It gets its hands first.
                stock,
                nodes,
                shift: Shift {
                    employed: true,
                    carrying: Some(0),
                    phase: w.phase,
                    motion: Motion::Keep,
                },
            },
            Some(have) => match w.phase {
                GatherPhase::ToNode => Turn {
                    stock,
                    nodes,
                    shift: match node_at(nodes, w.node) {
                        None => let_go(w, w.carrying, Motion::Keep),
                        Some(i) => if w.to_node.at_most(content.economy.gather_range) {
                            moves_on(
                                have,
                                GatherPhase::Harvesting { ticks_left: def.mvp_gather_ticks },
                                Motion::Stop,
                            )
                        } else {
                            told(w, Motion::Go(nodes[i].pos))
                        },
                    },
                },
                GatherPhase::Harvesting { ticks_left } => if ticks_left > 1 {
                    Turn {
                        stock,
                        nodes,
                        shift: moves_on(
                            have,
                            GatherPhase::Harvesting { ticks_left: (ticks_left - 1) as u32 },
                            Motion::Keep,
                        ),
                    }
                } else {
                    let taken = harvest(nodes, w, have, def.mvp_carry_capacity);
                    let held = (have + taken) as u32;
                    Turn {
                        stock,
                        nodes: mined(nodes, w, taken),
                        shift: if held > 0 {
                            moves_on(held, GatherPhase::ToDropoff, Motion::Keep)
                        } else {
                            let_go(w, Some(held), Motion::Keep)
                        },
                    }
                },
                GatherPhase::ToDropoff => match near::nearest(dropoffs(content, depots, w)) {
                    // No drop-off yet: hold the load.
                    None => Turn { stock, nodes, shift: told(w, Motion::Keep) },
                    Some(d) => if w.spans@[d].distance.at_most(content.economy.deposit_range) {
                        let accepted = stock.room(w.faction, have);
                        let left = (have - accepted) as u32;
                        Turn {
                            stock: stock.with(w.faction, (stock.of(w.faction) + accepted) as u32),
                            nodes,
                            shift: if left > 0 {
                                // A full stockpile took part of the load; wait with the rest.
                                moves_on(left, GatherPhase::ToDropoff, Motion::Stop)
                            } else if node_at(nodes, w.node) is Some {
                                moves_on(left, GatherPhase::ToNode, Motion::Stop)
                            } else {
                                let_go(w, Some(left), Motion::Stop)
                            },
                        }
                    } else {
                        Turn { stock, nodes, shift: told(w, Motion::Go(depots[d].pos)) }
                    },
                },
            },
        }
    }
}

/// The stockpiles and deposits after the first `k` turns, and the last turn's
/// shift.
pub open spec fn day(
    content: &Content,
    depots: Seq<Depot>,
    stock: Stockpiles,
    nodes: Seq<ResourceNode>,
    workers: Seq<Worker>,
    order: Seq<usize>,
    k: int,
) -> (Stockpiles, Seq<ResourceNode>)
    decreases k,
{
    if k <= 0 {
        (stock, nodes)
    } else {
        let (s, n) = day(content, depots, stock, nodes, workers, order, k - 1);
        let t = work(content, depots, s, n, workers[order[k - 1] as int]);
        (t.stock, t.nodes)
    }
}

/// What the worker of turn `k` makes of its turn.
pub open spec fn shift_at(
    content: &Content,
    depots: Seq<Depot>,
    stock: Stockpiles,
    nodes: Seq<ResourceNode>,
    workers: Seq<Worker>,
    order: Seq<usize>,
    k: int,
) -> Shift {
    let (s, n) = day(content, depots, stock, nodes, workers, order, k);
    work(content, depots, s, n, workers[order[k] as int]).shift
}

/// The keys that decide whose turn it is.
pub open spec fn keys(workers: Seq<Worker>) -> Seq<u64> {
    workers.map_values(|w: Worker| w.entity.bits)
}

/// Every worker knows how far every building is.
pub open spec fn measured(depots: Seq<Depot>, workers: Seq<Worker>) -> bool {
    forall|i: int| 0 <= i < workers.len() ==> (#[trigger] workers[i]).spans@.len() == depots.len()
}

proof fn lemma_node_from(nodes: Seq<ResourceNode>, e: Entity, k: int)
    requires
        0 <= k,
    ensures
        node_from(nodes, e, k) matches Some(i) ==> k <= i < nodes.len() && nodes[i].entity == e,
    decreases nodes.len() - k,
{
    if k < nodes.len() && nodes[k].entity != e {
        lemma_node_from(nodes, e, k + 1);
    }
}

fn find_node(nodes: &Vec<ResourceNode>, e: Entity) -> (r: Option<usize>)
    ensures
        r is Some == node_at(nodes@, e) is Some,
        r matches Some(i) ==> node_at(nodes@, e) == Some(i as int) && i < nodes@.len(),
{
    let mut k: usize = 0;
    while k < nodes.len()
        invariant
            k <= nodes@.len(),
            node_at(nodes@, e) == node_from(nodes@, e, k as int),
        decreases nodes@.len() - k,
    {
        if nodes[k].entity == e {
            return Some(k);
        }
        k = k + 1;
    }
    None
}

/// Which building a worker's load goes to: the nearest of its own drop-offs.
fn nearest_dropoff(content: &Content, depots: &Vec<Depot>, w: &Worker) -> (r: Option<usize>)
    requires
        w.spans@.len() == depots@.len(),
    ensures
        r is Some == near::nearest(dropoffs(content, depots@, *w)) is Some,
        r matches Some(i) ==> near::nearest(dropoffs(content, depots@, *w)) == Some(i as int) && i
            < depots@.len(),
{
    let mut all: Vec<Candidate> = Vec::new();
    let mut i: usize = 0;
    while i < depots.len()
        invariant
            i <= depots@.len(),
            w.spans@.len() == depots@.len(),
            all@ == dropoffs(content, depots@, *w).take(i as int),
        decreases depots@.len() - i,
    {
        let d = depots[i];
        all.push(
            Candidate {
                squared: w.spans[i].squared,
                key: d.entity.to_bits(),
                open: d.faction == w.faction && d.def < content.buildings.len()
                    && content.buildings[d.def].dropoff,
            },
        );
        assert(all@ =~= dropoffs(content, depots@, *w).take(i + 1));
        i = i + 1;
    }
    assert(all@ =~= dropoffs(content, depots@, *w));
    nearest_of(&all)
}

/// One turn of one worker.
fn labour(
    content: &Content,
    depots: &Vec<Depot>,
    stock: &mut Stockpiles,
    nodes: &mut Vec<ResourceNode>,
    w: &Worker,
) -> (r: Shift)
    requires
        w.spans@.len() == depots@.len(),
    ensures
        ({
            let t = work(content, depots@, *old(stock), old(nodes)@, *w);
            &&& *final(stock) == t.stock
            &&& final(nodes)@ == t.nodes
            &&& r == t.shift
        }),
{
    if w.def >= content.units.len() || !content.units[w.def].gathers {
        return Shift {
            employed: false,
            carrying: w.carrying,
            phase: w.phase,
            motion: Motion::Keep,
        };
    }
    let capacity: u32 = content.units[w.def].mvp_carry_capacity;
    let gather_ticks: u32 = content.units[w.def].mvp_gather_ticks;
    let have: u32 = match w.carrying {
        Some(c) => c,
        None => {
            return Shift {
                employed: true,
                carrying: Some(0),
                phase: w.phase,
                motion: Motion::Keep,
            };
        },
    };
    let node = find_node(nodes, w.node);
    match w.phase {
        GatherPhase::ToNode => match node {
            None => Shift {
                employed: false,
                carrying: w.carrying,
                phase: w.phase,
                motion: Motion::Keep,
            },
            Some(i) => if w.to_node.le(&content.economy.gather_range) {
                Shift {
                    employed: true,
                    carrying: Some(have),
                    phase: GatherPhase::Harvesting { ticks_left: gather_ticks },
                    motion: Motion::Stop,
                }
            } else {
                Shift {
                    employed: true,
                    carrying: w.carrying,
                    phase: w.phase,
                    motion: Motion::Go(nodes[i].pos),
                }
            },
        },
        GatherPhase::Harvesting { ticks_left } => {
            if ticks_left > 1 {
                return Shift {
                    employed: true,
                    carrying: Some(have),
                    phase: GatherPhase::Harvesting { ticks_left: ticks_left - 1 },
                    motion: Motion::Keep,
                };
            }
            let room: u32 = if capacity >= have {
                capacity - have
            } else {
                0
            };
            let taken: u32 = match node {
                Some(i) => {
                    let mut n: ResourceNode = nodes[i];
                    let taken: u32 = if room <= n.amount {
                        room
                    } else {
                        n.amount
                    };
                    n.amount = n.amount - taken;
                    nodes.set(i, n);
                    taken
                },
                None => 0,
            };
            let held: u32 = have + taken;
            if held > 0 {
                Shift {
                    employed: true,
                    carrying: Some(held),
                    phase: GatherPhase::ToDropoff,
                    motion: Motion::Keep,
                }
            } else {
                Shift {
                    employed: false,
                    carrying: Some(held),
                    phase: w.phase,
                    motion: Motion::Keep,
                }
            }
        },
        GatherPhase::ToDropoff => match nearest_dropoff(content, depots, w) {
            None => Shift {
                employed: true,
                carrying: w.carrying,
                phase: w.phase,
                motion: Motion::Keep,
            },
            Some(d) => if w.spans[d].distance.le(&content.economy.deposit_range) {
                let accepted: u32 = stock.add(w.faction, have);
                let left: u32 = have - accepted;
                if left > 0 {
                    Shift {
                        employed: true,
                        carrying: Some(left),
                        phase: GatherPhase::ToDropoff,
                        motion: Motion::Stop,
                    }
                } else if node.is_some() {
                    Shift {
                        employed: true,
                        carrying: Some(left),
                        phase: GatherPhase::ToNode,
                        motion: Motion::Stop,
                    }
                } else {
                    Shift {
                        employed: false,
                        carrying: Some(left),
                        phase: w.phase,
                        motion: Motion::Stop,
                    }
                }
            } else {
                Shift {
                    employed: true,
                    carrying: w.carrying,
                    phase: w.phase,
                    motion: Motion::Go(depots[d].pos),
                }
            },
        },
    }
}

/// Drive every gathering worker one tick through walk, harvest, return and
/// deposit, in ascending entity order. The result is parallel to `workers`.
pub fn gather(
    content: &Content,
    depots: &Vec<Depot>,
    stock: &mut Stockpiles,
    nodes: &mut Vec<ResourceNode>,
    workers: &Vec<Worker>,
) -> (r: Vec<Shift>)
    requires
        measured(depots@, workers@),
    ensures
        ({
            let order = turns::turns(keys(workers@));
            let n = workers@.len() as int;
            let start = (*old(stock), old(nodes)@);
            &&& r@.len() == n
            &&& (*final(stock), final(nodes)@) == day(
                content,
                depots@,
                start.0,
                start.1,
                workers@,
                order,
                n,
            )
            &&& forall|k: int|
                0 <= k < n ==> r@[#[trigger] order[k] as int] == shift_at(
                    content,
                    depots@,
                    start.0,
                    start.1,
                    workers@,
                    order,
                    k,
                )
        }),
{
    let ghost start = (*stock, nodes@);
    let n: usize = workers.len();
    let mut names: Vec<u64> = Vec::new();
    let mut out: Vec<Shift> = Vec::new();
    let mut i: usize = 0;
    while i < n
        invariant
            i <= n,
            n == workers@.len(),
            names@ == keys(workers@).take(i as int),
            out@.len() == i,
        decreases n - i,
    {
        names.push(workers[i].entity.to_bits());
        assert(names@ =~= keys(workers@).take(i + 1));
        out.push(
            Shift {
                employed: true,
                carrying: None,
                phase: GatherPhase::ToNode,
                motion: Motion::Keep,
            },
        );
        i = i + 1;
    }
    assert(names@ =~= keys(workers@));
    let order = turn_order(&names);
    proof {
        turns::everybody_gets_a_turn(keys(workers@));
    }
    let mut k: usize = 0;
    while k < n
        invariant
            k <= n,
            n == workers@.len(),
            out@.len() == n,
            measured(depots@, workers@),
            turns::in_turn(keys(workers@), order@, n as int),
            (*stock, nodes@) == day(
                content,
                depots@,
                start.0,
                start.1,
                workers@,
                order@,
                k as int,
            ),
            forall|j: int|
                0 <= j < k ==> out@[#[trigger] order@[j] as int] == shift_at(
                    content,
                    depots@,
                    start.0,
                    start.1,
                    workers@,
                    order@,
                    j,
                ),
        decreases n - k,
    {
        let i: usize = order[k];
        let shift = labour(content, depots, stock, nodes, &workers[i]);
        let ghost before = out@;
        out.set(i, shift);
        proof {
            assert forall|j: int| 0 <= j < k + 1 implies out@[#[trigger] order@[j] as int]
                == shift_at(
                content,
                depots@,
                start.0,
                start.1,
                workers@,
                order@,
                j,
            ) by {
                if j < k {
                    assert(order@[j] != order@[k as int]);
                    assert(out@[order@[j] as int] == before[order@[j] as int]);
                }
            }
        }
        k = k + 1;
    }
    out
}

// ---- conservation -----------------------------------------------------------

/// Alloy in the ground.
pub open spec fn buried(nodes: Seq<ResourceNode>) -> nat
    decreases nodes.len(),
{
    if nodes.len() == 0 {
        0
    } else {
        buried(nodes.drop_last()) + nodes.last().amount as nat
    }
}

/// Alloy in a worker's hands.
pub open spec fn in_hand(carrying: Option<u32>) -> nat {
    match carrying {
        Some(c) => c as nat,
        None => 0,
    }
}

/// Alloy in the hands of a list of workers.
pub open spec fn in_hands(hands: Seq<Option<u32>>) -> nat {
    turns::sum_to(|i: int| in_hand(hands[i]), hands.len() as int)
}

/// What the workers carry when the tick starts.
pub open spec fn loads(workers: Seq<Worker>) -> Seq<Option<u32>> {
    workers.map_values(|w: Worker| w.carrying)
}

/// What the workers carry when the tick is over.
pub open spec fn loads_after(shifts: Seq<Shift>) -> Seq<Option<u32>> {
    shifts.map_values(|s: Shift| s.carrying)
}

/// Alloy carried: by the workers of the first `k` turns as their shifts leave
/// them, by the others as they came.
spec fn carried(
    workers: Seq<Worker>,
    shifts: Seq<Shift>,
    order: Seq<usize>,
    k: int,
    n: int,
) -> nat
    decreases n,
{
    if n <= 0 {
        0
    } else {
        let i = order[n - 1] as int;
        carried(workers, shifts, order, k, n - 1) + if n - 1 < k {
            in_hand(shifts[i].carrying)
        } else {
            in_hand(workers[i].carrying)
        }
    }
}

proof fn lemma_buried_update(nodes: Seq<ResourceNode>, i: int, node: ResourceNode)
    requires
        0 <= i < nodes.len(),
    ensures
        buried(nodes.update(i, node)) + nodes[i].amount as nat == buried(nodes) + node.amount as nat,
    decreases nodes.len(),
{
    let after = nodes.update(i, node);
    if i == nodes.len() - 1 {
        assert(after.drop_last() =~= nodes.drop_last());
    } else {
        assert(after.drop_last() =~= nodes.drop_last().update(i, node));
        lemma_buried_update(nodes.drop_last(), i, node);
    }
}

/// One turn moves Alloy and makes none: banked, carried and buried Alloy
/// together stay what they were.
pub proof fn a_turn_conserves_alloy(
    content: &Content,
    depots: Seq<Depot>,
    stock: Stockpiles,
    nodes: Seq<ResourceNode>,
    w: Worker,
)
    ensures
        ({
            let t = work(content, depots, stock, nodes, w);
            t.stock.total() + buried(t.nodes) + in_hand(t.shift.carrying) == stock.total() + buried(
                nodes,
            ) + in_hand(w.carrying)
        }),
{
    lemma_node_from(nodes, w.node, 0);
    if w.def < content.units@.len() {
        let taken = harvest(
            nodes,
            w,
            match w.carrying {
                Some(c) => c,
                None => 0,
            },
            content.units@[w.def as int].mvp_carry_capacity,
        );
        match node_at(nodes, w.node) {
            Some(i) => {
                lemma_buried_update(nodes, i, mined(nodes, w, taken)[i]);
            },
            None => {},
        }
    }
}

proof fn lemma_carried_step(
    workers: Seq<Worker>,
    shifts: Seq<Shift>,
    order: Seq<usize>,
    k: int,
    n: int,
)
    requires
        0 <= k,
        0 <= n,
    ensures
        carried(workers, shifts, order, k + 1, n) + (if k < n {
            in_hand(workers[order[k] as int].carrying)
        } else {
            0
        }) == carried(workers, shifts, order, k, n) + (if k < n {
            in_hand(shifts[order[k] as int].carrying)
        } else {
            0
        }),
    decreases n,
{
    if n > 0 {
        lemma_carried_step(workers, shifts, order, k, n - 1);
    }
}

proof fn lemma_day_conserves(
    content: &Content,
    depots: Seq<Depot>,
    stock: Stockpiles,
    nodes: Seq<ResourceNode>,
    workers: Seq<Worker>,
    shifts: Seq<Shift>,
    order: Seq<usize>,
    k: int,
)
    requires
        0 <= k <= workers.len(),
        forall|j: int|
            0 <= j < workers.len() ==> shifts[#[trigger] order[j] as int] == shift_at(
                content,
                depots,
                stock,
                nodes,
                workers,
                order,
                j,
            ),
    ensures
        ({
            let n = workers.len() as int;
            let (s, g) = day(content, depots, stock, nodes, workers, order, k);
            s.total() + buried(g) + carried(workers, shifts, order, k, n) == stock.total() + buried(
                nodes,
            ) + carried(workers, shifts, order, 0, n)
        }),
    decreases k,
{
    let n = workers.len() as int;
    if k > 0 {
        lemma_day_conserves(content, depots, stock, nodes, workers, shifts, order, k - 1);
        let (s, g) = day(content, depots, stock, nodes, workers, order, k - 1);
        let w = workers[order[k - 1] as int];
        a_turn_conserves_alloy(content, depots, s, g, w);
        lemma_carried_step(workers, shifts, order, k - 1, n);
        assert(shifts[order[k - 1] as int] == shift_at(
            content,
            depots,
            stock,
            nodes,
            workers,
            order,
            k - 1,
        ));
    }
}

proof fn lemma_carried_all(
    workers: Seq<Worker>,
    shifts: Seq<Shift>,
    order: Seq<usize>,
    all: bool,
    n: int,
    m: int,
)
    requires
        0 <= n <= m <= order.len(),
        shifts.len() == workers.len(),
        forall|j: int| 0 <= j < order.len() ==> #[trigger] order[j] < workers.len(),
    ensures
        carried(
            workers,
            shifts,
            order,
            if all {
                m
            } else {
                0
            },
            n,
        ) == turns::total(
            if all {
                |i: int| in_hand(loads_after(shifts)[i])
            } else {
                |i: int| in_hand(loads(workers)[i])
            },
            order.take(n),
        ),
    decreases n,
{
    if n > 0 {
        lemma_carried_all(workers, shifts, order, all, n - 1, m);
        assert(order.take(n).drop_last() =~= order.take(n - 1));
        assert(order.take(n).last() == order[n - 1]);
    }
}

/// A whole tick of the worker loop conserves Alloy: what is banked, what is
/// carried and what is still in the ground together stay what they were.
pub proof fn gathering_conserves_alloy(
    content: &Content,
    depots: Seq<Depot>,
    stock: Stockpiles,
    nodes: Seq<ResourceNode>,
    workers: Seq<Worker>,
    shifts: Seq<Shift>,
)
    requires
        workers.len() <= usize::MAX,
        shifts.len() == workers.len(),
        ({
            let order = turns::turns(keys(workers));
            forall|j: int|
                0 <= j < workers.len() ==> shifts[#[trigger] order[j] as int] == shift_at(
                    content,
                    depots,
                    stock,
                    nodes,
                    workers,
                    order,
                    j,
                )
        }),
    ensures
        ({
            let order = turns::turns(keys(workers));
            let (s, g) = day(content, depots, stock, nodes, workers, order, workers.len() as int);
            s.total() + buried(g) + in_hands(loads_after(shifts)) == stock.total() + buried(nodes)
                + in_hands(loads(workers))
        }),
{
    let order = turns::turns(keys(workers));
    let n = workers.len() as int;
    turns::everybody_gets_a_turn(keys(workers));
    lemma_day_conserves(content, depots, stock, nodes, workers, shifts, order, n);
    lemma_carried_all(workers, shifts, order, true, n, n);
    lemma_carried_all(workers, shifts, order, false, n, n);
    assert(order.take(n) =~= order);
    let (f, g) = (|i: int| in_hand(loads_after(shifts)[i]), |i: int| in_hand(loads(workers)[i]));
    turns::lemma_turns_sum(keys(workers), f, order, n);
    turns::lemma_turns_sum(keys(workers), g, order, n);
}

/// A load takes exactly its gather ticks: a worker that starts harvesting with
/// `t` ticks left harvests on the turn after `t - 1` others.
pub proof fn a_load_takes_its_ticks(
    content: &Content,
    depots: Seq<Depot>,
    stock: Stockpiles,
    nodes: Seq<ResourceNode>,
    w: Worker,
)
    requires
        w.def < content.units@.len(),
        content.units@[w.def as int].gathers,
        w.carrying is Some,
        w.phase is Harvesting,
        w.phase->ticks_left > 1,
    ensures
        ({
            let t = work(content, depots, stock, nodes, w);
            &&& t.shift.phase == GatherPhase::Harvesting {
                ticks_left: (w.phase->ticks_left - 1) as u32,
            }
            &&& t.shift.employed
            &&& t.shift.carrying == w.carrying
            &&& t.nodes == nodes
            &&& t.stock == stock
        }),
{
}

/// The job is given up whole or kept whole, and a worker that gives it up keeps
/// what it carries unless it has just banked it.
pub proof fn a_worker_never_drops_its_load(
    content: &Content,
    depots: Seq<Depot>,
    stock: Stockpiles,
    nodes: Seq<ResourceNode>,
    w: Worker,
)
    ensures
        ({
            let t = work(content, depots, stock, nodes, w);
            !t.shift.employed ==> in_hand(t.shift.carrying) == in_hand(w.carrying) || t.stock.total()
                == stock.total() + in_hand(w.carrying)
        }),
{
}

proof fn lemma_day_by_turn(
    content: &Content,
    depots: Seq<Depot>,
    stock: Stockpiles,
    nodes: Seq<ResourceNode>,
    a: Seq<Worker>,
    x: Seq<usize>,
    b: Seq<Worker>,
    y: Seq<usize>,
    k: int,
)
    requires
        0 <= k <= x.len(),
        turns::reordered(a, x) == turns::reordered(b, y),
    ensures
        day(content, depots, stock, nodes, a, x, k) == day(content, depots, stock, nodes, b, y, k),
    decreases k,
{
    if k > 0 {
        lemma_day_by_turn(content, depots, stock, nodes, a, x, b, y, k - 1);
        assert(turns::reordered(a, x).len() == x.len() && turns::reordered(b, y).len() == y.len());
        assert(a[x[k - 1] as int] == turns::reordered(a, x)[k - 1]);
        assert(b[y[k - 1] as int] == turns::reordered(b, y)[k - 1]);
    }
}

/// The order in which workers are listed is no advantage in the race for the
/// last of a deposit: two lists of the same workers leave the same stockpiles
/// and deposits, and every worker the same shift.
pub proof fn listing_is_no_advantage(
    content: &Content,
    depots: Seq<Depot>,
    stock: Stockpiles,
    nodes: Seq<ResourceNode>,
    a: Seq<Worker>,
    b: Seq<Worker>,
)
    requires
        a.len() <= usize::MAX,
        b.len() <= usize::MAX,
        keys(a).no_duplicates(),
        keys(b).no_duplicates(),
        forall|w: Worker| #[trigger] a.contains(w) <==> b.contains(w),
    ensures
        ({
            let (x, y) = (turns::turns(keys(a)), turns::turns(keys(b)));
            &&& a.len() == b.len()
            &&& day(content, depots, stock, nodes, a, x, a.len() as int) == day(
                content,
                depots,
                stock,
                nodes,
                b,
                y,
                b.len() as int,
            )
            &&& forall|p: int|
                0 <= p < a.len() ==> a[#[trigger] x[p] as int] == b[y[p] as int] && shift_at(
                    content,
                    depots,
                    stock,
                    nodes,
                    a,
                    x,
                    p,
                ) == shift_at(content, depots, stock, nodes, b, y, p)
        }),
{
    let key = |w: Worker| w.entity.bits;
    turns::listing_does_not_matter(a, b, key);
    turns::everybody_gets_a_turn(keys(a));
    turns::everybody_gets_a_turn(keys(b));
    let (x, y) = (turns::turns(keys(a)), turns::turns(keys(b)));
    assert(a.map_values(key) =~= keys(a));
    assert(b.map_values(key) =~= keys(b));
    assert(turns::reordered(a, x).len() == a.len());
    assert(turns::reordered(b, y).len() == b.len());
    lemma_day_by_turn(content, depots, stock, nodes, a, x, b, y, a.len() as int);
    assert forall|p: int| 0 <= p < a.len() implies a[#[trigger] x[p] as int] == b[y[p] as int]
        && shift_at(content, depots, stock, nodes, a, x, p) == shift_at(
        content,
        depots,
        stock,
        nodes,
        b,
        y,
        p,
    ) by {
        assert(turns::reordered(a, x)[p] == turns::reordered(b, y)[p]);
        lemma_day_by_turn(content, depots, stock, nodes, a, x, b, y, p);
    }
}

} // verus!
