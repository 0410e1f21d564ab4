//! Applying commands: who may order what, and what an order does.
//!
//! A command is taken on its tick, reduced to what the simulation can name,
//! recorded, checked against the faction it is held to, and only then applied.

use vstd::prelude::*;

use crate::float::Point;
use crate::sim::content::Content;
use crate::sim::economy;
use crate::sim::economy::{charge_unit, place_building, QueuedUnit, Stockpiles};
use crate::sim::orders;
use crate::sim::orders::{Asked, Attribution, Order, OrderQueue, Taken, TakenCommand};
use crate::sim::registry::SimIds;
use crate::sim::replay;
use crate::sim::replay::{CommandFate, CommandLog, Entry};
use crate::sim::spatial::Faction;
use crate::sim::world::{Entity, World};

verus! {

/// What an applied order does to the world.
#[derive(Clone, Copy, PartialEq, Eq, Structural, Debug)]
pub enum Effect {
    /// Send `unit` to `dest`, end its chase and release its gather job.
    Move { unit: Entity, dest: Point },
    /// Send `unit` to `dest` and end its chase. A unit that gathers is also
    /// given the job: the deposit, the first phase, and hands if it has none.
    Gather { unit: Entity, dest: Point, job: Option<Entity> },
    /// Put a building that is paid for into the world.
    Build { faction: Faction, def: usize, pos: Point },
    /// Append a unit that is paid for to a building's queue.
    Train { building: Entity, item: QueuedUnit },
}

// ---- what an order may touch ------------------------------------------------

/// Does an order name something that is `f`'s?
pub open spec fn touches(world: &World, units: Seq<Entity>, f: Faction) -> bool {
    exists|i: int| 0 <= i < units.len() && world.owner(#[trigger] units[i]) == Some(f)
}

/// The faction a list order is to be checked against: the signer, or for an
/// unsigned order the only faction it touches. `None` refuses the order: there
/// is no commander it could have come from. `Some(None)`: it touches nothing
/// that is anybody's.
pub open spec fn answerable(world: &World, attribution: Attribution, units: Seq<Entity>) -> Option<
    Option<Faction>,
> {
    match attribution {
        Attribution::Void => None,
        Attribution::By(f) => Some(Some(f)),
        Attribution::SelfSigned => match (
            touches(world, units, Faction::A),
            touches(world, units, Faction::B),
        ) {
            (true, true) => None,
            (true, false) => Some(Some(Faction::A)),
            (false, true) => Some(Some(Faction::B)),
            (false, false) => Some(None),
        },
    }
}

/// May `issuer` command `e`? Only if `e` is not somebody else's.
pub open spec fn may_command(world: &World, issuer: Option<Faction>, e: Entity) -> bool {
    issuer matches Some(by) ==> (world.owner(e) matches Some(f) ==> f == by)
}

/// Does `e`'s definition say that it gathers?
pub open spec fn is_gatherer(content: &Content, world: &World, e: Entity) -> bool {
    world.unit_def(e) matches Some(d) && d < content.units@.len()
        && content.units@[d as int].gathers
}

/// The units of a list order that obey it.
pub open spec fn obedient(world: &World, issuer: Option<Faction>, units: Seq<Entity>) -> Seq<
    Entity,
> {
    units.filter(|e: Entity| may_command(world, issuer, e) && world.alive(e))
}

/// Was an order signed by somebody other than `f`?
pub open spec fn signed_by_another(attribution: Attribution, f: Faction) -> bool {
    attribution matches Attribution::By(by) && by != f
}

// ---- what an order does -----------------------------------------------------

/// What happens, and the stockpiles afterwards.
pub struct Outcome {
    pub effects: Seq<Effect>,
    pub stock: Stockpiles,
}

pub open spec fn nothing(stock: Stockpiles) -> Outcome {
    Outcome { effects: Seq::empty(), stock }
}

/// What an order does that is held to `attribution`.
pub open spec fn carried_out(
    content: &Content,
    world: &World,
    stock: Stockpiles,
    attribution: Attribution,
    asked: Asked,
) -> Outcome {
    if attribution is Void {
        nothing(stock)
    } else {
        match asked {
            Asked::MoveTo { units, dest } => match answerable(world, attribution, units) {
                Some(issuer) => Outcome {
                    effects: obedient(world, issuer, units).map_values(
                        |e: Entity| Effect::Move { unit: e, dest },
                    ),
                    stock,
                },
                None => nothing(stock),
            },
            Asked::Gather { units, node, node_pos } => match answerable(world, attribution, units) {
                Some(issuer) => Outcome {
                    effects: obedient(world, issuer, units).map_values(
                        |e: Entity|
                            Effect::Gather {
                                unit: e,
                                dest: node_pos,
                                job: if is_gatherer(content, world, e) {
                                    Some(node)
                                } else {
                                    None
                                },
                            },
                    ),
                    stock,
                },
                None => nothing(stock),
            },
            Asked::Place { faction, building, pos } => if signed_by_another(attribution, faction) {
                nothing(stock)
            } else {
                match economy::paid(
                    stock,
                    faction,
                    economy::placing_cost(content, building as int),
                ) {
                    Some(after) => Outcome {
                        effects: seq![Effect::Build { faction, def: building, pos }],
                        stock: after,
                    },
                    None => nothing(stock),
                }
            },
            Asked::Train { building, unit } => match world.producer(building) {
                Some((def, f)) => if signed_by_another(attribution, f) {
                    nothing(stock)
                } else {
                    match economy::paid(
                        stock,
                        f,
                        economy::training_cost(content, def as int, unit as int),
                    ) {
                        Some(after) => Outcome {
                            effects: seq![
                                Effect::Train {
                                    building,
                                    item: QueuedUnit {
                                        unit,
                                        ticks_left: content.units@[unit as int].mvp_train_ticks,
                                    },
                                },
                            ],
                            stock: after,
                        },
                        None => nothing(stock),
                    }
                },
                None => nothing(stock),
            },
            Asked::Signature { .. } => nothing(stock),
        }
    }
}

// ---- what an order can name -------------------------------------------------

/// The names that the registry knows.
pub open spec fn known(ids: Seq<Entity>, units: Seq<Entity>) -> Seq<Entity> {
    units.filter(|e: Entity| ids.contains(e))
}

/// What is left of an order when it is reduced to what can be named. In a list
/// the unknown names are dropped; an order whose one subject is unknown, or
/// which names content that does not exist, is refused whole.
pub open spec fn named(ids: Seq<Entity>, content: &Content, asked: Asked) -> Option<Asked> {
    match asked {
        Asked::MoveTo { units, dest } => Some(Asked::MoveTo { units: known(ids, units), dest }),
        Asked::Gather { units, node, node_pos } => if ids.contains(node) {
            Some(Asked::Gather { units: known(ids, units), node, node_pos })
        } else {
            None
        },
        Asked::Place { faction, building, pos } => if building < content.buildings@.len() {
            Some(asked)
        } else {
            None
        },
        Asked::Train { building, unit } => if ids.contains(building) && unit
            < content.units@.len() {
            Some(asked)
        } else {
            None
        },
        Asked::Signature { .. } => Some(asked),
    }
}

/// How many names an order loses.
pub open spec fn names_lost(ids: Seq<Entity>, asked: Asked) -> int {
    match asked {
        Asked::MoveTo { units, dest } => units.len() - known(ids, units).len(),
        Asked::Gather { units, node, node_pos } => if ids.contains(node) {
            units.len() - known(ids, units).len()
        } else {
            0
        },
        _ => 0,
    }
}

/// The order that is considered: without a registry, the order as it stands.
pub open spec fn heard(ids: Option<Seq<Entity>>, content: &Content, asked: Asked) -> Option<Asked> {
    match ids {
        Some(ids) => named(ids, content, asked),
        None => Some(asked),
    }
}

/// What one taken command does.
pub open spec fn obeyed(
    content: &Content,
    world: &World,
    ids: Option<Seq<Entity>>,
    stock: Stockpiles,
    t: Taken,
) -> Outcome {
    match heard(ids, content, t.claim.asked) {
        Some(asked) => if t.late {
            nothing(stock)
        } else {
            carried_out(content, world, stock, t.claim.attribution, asked)
        },
        None => nothing(stock),
    }
}

/// What the first `k` taken commands do.
pub open spec fn played(
    content: &Content,
    world: &World,
    ids: Option<Seq<Entity>>,
    stock: Stockpiles,
    all: Seq<Taken>,
    k: int,
) -> Outcome
    decreases k,
{
    if k <= 0 {
        nothing(stock)
    } else {
        let before = played(content, world, ids, stock, all, k - 1);
        let now = obeyed(content, world, ids, before.stock, all[k - 1]);
        Outcome { effects: before.effects + now.effects, stock: now.stock }
    }
}

// ---- what is recorded -------------------------------------------------------

/// What a log says of a match.
pub struct Account {
    pub entries: Seq<Entry>,
    pub late: u32,
    pub unnameable: u32,
    pub unrecorded: u32,
}

/// What a log says.
pub open spec fn account(log: &CommandLog) -> Account {
    Account {
        entries: log.recorded(),
        late: log.late,
        unnameable: log.unnameable,
        unrecorded: log.unrecorded,
    }
}

/// The entry of a command.
pub open spec fn entry(t: Taken, asked: Asked) -> Entry {
    Entry {
        tick: t.tick,
        schedule: t.schedule,
        fate: if t.late {
            CommandFate::Late
        } else {
            CommandFate::Taken
        },
        attribution: t.claim.attribution,
        asked,
    }
}

/// The log after one taken command.
pub open spec fn noted(ids: Option<Seq<Entity>>, content: &Content, log: Account, t: Taken)
    -> Account {
    match ids {
        None => Account { unrecorded: replay::counted(log.unrecorded, 1), ..log },
        Some(ids) => {
            let left = named(ids, content, t.claim.asked);
            let lost = if left is None {
                1
            } else {
                names_lost(ids, t.claim.asked)
            };
            let log = Account {
                unnameable: replay::counted(log.unnameable, lost as u32),
                ..log
            };
            match left {
                Some(asked) => if asked is Signature {
                    log
                } else {
                    Account { entries: log.entries.push(entry(t, asked)), ..log }
                },
                None => log,
            }
        },
    }
}

/// The log after the first `k` taken commands.
pub open spec fn all_noted(
    ids: Option<Seq<Entity>>,
    content: &Content,
    log: Account,
    all: Seq<Taken>,
    k: int,
) -> Account
    decreases k,
{
    if k <= 0 {
        log
    } else {
        noted(ids, content, all_noted(ids, content, log, all, k - 1), all[k - 1])
    }
}

/// How many of the first `k` taken commands are late.
pub open spec fn late_count(all: Seq<Taken>, k: int) -> int
    decreases k,
{
    if k <= 0 {
        0
    } else {
        late_count(all, k - 1) + if all[k - 1].late {
            1int
        } else {
            0int
        }
    }
}

// ---- applying ---------------------------------------------------------------

fn keep(ids: &SimIds, units: &Vec<Entity>) -> (r: Vec<Entity>)
    ensures
        r@ == known(ids@, units@),
        r@.len() <= units@.len(),
{
    let ghost p = |e: Entity| ids@.contains(e);
    let mut out: Vec<Entity> = Vec::new();
    let mut k: usize = 0;
    proof {
        reveal(Seq::filter);
    }
    while k < units.len()
        invariant
            k <= units@.len(),
            p == (|e: Entity| ids@.contains(e)),
            out@ == units@.take(k as int).filter(p),
            out@.len() <= k,
        decreases units@.len() - k,
    {
        proof {
            reveal(Seq::filter);
            assert(units@.take(k + 1).drop_last() =~= units@.take(k as int));
        }
        if ids.id_of(units[k]).is_some() {
            out.push(units[k]);
        }
        k = k + 1;
    }
    assert(units@.take(units@.len() as int) =~= units@);
    out
}

/// Reduce an order to the part of it that can be named, or `None` if there is
/// nothing left to obey. `dropped` receives the number of names that were lost.
fn nameable(ids: &SimIds, content: &Content, order: &Order, dropped: &mut u32) -> (r: Option<Order>)
    requires
        !(order@ is Signature),
    ensures
        match r {
            Some(o) => named(ids@, content, order@) == Some(o@),
            None => named(ids@, content, order@) is None,
        },
        *final(dropped) == names_lost(ids@, order@) as u32,
        r is None ==> *final(dropped) == 0,
{
    *dropped = 0;
    match order {
        Order::MoveTo { units, dest } => {
            let kept = keep(ids, units);
            *dropped = (units.len() - kept.len()) as u32;
            Some(Order::MoveTo { units: kept, dest: *dest })
        },
        Order::Gather { units, node, node_pos } => {
            if ids.id_of(*node).is_none() {
                return None;
            }
            let kept = keep(ids, units);
            *dropped = (units.len() - kept.len()) as u32;
            Some(Order::Gather { units: kept, node: *node, node_pos: *node_pos })
        },
        Order::Place { faction, building, pos } => {
            if *building >= content.buildings.len() {
                return None;
            }
            Some(Order::Place { faction: *faction, building: *building, pos: *pos })
        },
        Order::Train { building, unit } => {
            if ids.id_of(*building).is_none() || *unit >= content.units.len() {
                return None;
            }
            Some(Order::Train { building: *building, unit: *unit })
        },
        Order::By { .. } => None,
    }
}

/// The faction an entity-list order is to be checked against, or `None` if the
/// order must be refused outright.
pub fn subject_issuer(world: &World, attribution: Attribution, units: &Vec<Entity>) -> (r: Option<
    Option<Faction>,
>)
    ensures
        r == answerable(world, attribution, units@),
{
    match attribution {
        Attribution::Void => None,
        Attribution::By(f) => Some(Some(f)),
        Attribution::SelfSigned => {
            let mut seen: Option<Faction> = None;
            let mut k: usize = 0;
            while k < units.len()
                invariant
                    k <= units@.len(),
                    attribution is SelfSigned,
                    match seen {
                        None => forall|i: int|
                            0 <= i < k ==> world.owner(#[trigger] units@[i]) is None,
                        Some(f) => touches(world, units@, f) && forall|i: int|
                            0 <= i < k ==> (world.owner(#[trigger] units@[i]) matches Some(g) ==> g
                                == f),
                    },
                decreases units@.len() - k,
            {
                match world.owner_of(units[k]) {
                    None => {},
                    Some(f) => {
                        assert(world.owner(units@[k as int]) == Some(f));
                        assert(touches(world, units@, f));
                        match seen {
                            None => {
                                seen = Some(f);
                            },
                            Some(prev) => {
                                if prev != f {
                                    assert(touches(world, units@, Faction::A));
                                    assert(touches(world, units@, Faction::B));
                                    return None;
                                }
                            },
                        }
                    },
                }
                k = k + 1;
            }
            Some(seen)
        },
    }
}

/// May `issuer` command `e`? An entity that is nobody's belongs to no other
/// commander.
pub fn commandable(world: &World, issuer: Option<Faction>, e: Entity) -> (r: bool)
    ensures
        r == may_command(world, issuer, e),
{
    match issuer {
        None => true,
        Some(by) => match world.owner_of(e) {
            Some(f) => f == by,
            None => true,
        },
    }
}

/// The units of a list order that obey it.
fn obeying(world: &World, issuer: Option<Faction>, units: &Vec<Entity>) -> (r: Vec<Entity>)
    ensures
        r@ == obedient(world, issuer, units@),
{
    let ghost p = |e: Entity| may_command(world, issuer, e) && world.alive(e);
    let mut out: Vec<Entity> = Vec::new();
    let mut k: usize = 0;
    proof {
        reveal(Seq::filter);
    }
    while k < units.len()
        invariant
            k <= units@.len(),
            p == (|e: Entity| may_command(world, issuer, e) && world.alive(e)),
            out@ == units@.take(k as int).filter(p),
        decreases units@.len() - k,
    {
        proof {
            reveal(Seq::filter);
            assert(units@.take(k + 1).drop_last() =~= units@.take(k as int));
        }
        let e: Entity = units[k];
        if commandable(world, issuer, e) && world.find(e).is_some() {
            out.push(e);
        }
        k = k + 1;
    }
    assert(units@.take(units@.len() as int) =~= units@);
    out
}

/// Apply one order and append what it does.
fn carry_out(
    content: &Content,
    world: &World,
    stock: &mut Stockpiles,
    attribution: Attribution,
    order: &Order,
    effects: &mut Vec<Effect>,
)
    ensures
        ({
            let o = carried_out(content, world, *old(stock), attribution, order@);
            &&& final(effects)@ == old(effects)@ + o.effects
            &&& *final(stock) == o.stock
        }),
{
    let ghost before = effects@;
    let ghost o = carried_out(content, world, *stock, attribution, order@);
    if attribution == Attribution::Void {
        assert(before + o.effects =~= before);
        return ;
    }
    match order {
        Order::MoveTo { units, dest } => {
            match subject_issuer(world, attribution, units) {
                Some(issuer) => {
                    let obey = obeying(world, issuer, units);
                    let mut k: usize = 0;
                    while k < obey.len()
                        invariant
                            k <= obey@.len(),
                            o.effects == obey@.map_values(
                                |e: Entity| Effect::Move { unit: e, dest: *dest },
                            ),
                            effects@ == before + o.effects.take(k as int),
                        decreases obey@.len() - k,
                    {
                        effects.push(Effect::Move { unit: obey[k], dest: *dest });
                        assert(effects@ =~= before + o.effects.take(k + 1));
                        k = k + 1;
                    }
                    assert(o.effects.take(o.effects.len() as int) =~= o.effects);
                },
                None => {
                    assert(before + o.effects =~= before);
                },
            }
        },
        Order::Gather { units, node, node_pos } => {
            match subject_issuer(world, attribution, units) {
                Some(issuer) => {
                    let obey = obeying(world, issuer, units);
                    let mut k: usize = 0;
                    while k < obey.len()
                        invariant
                            k <= obey@.len(),
                            o.effects == obey@.map_values(
                                |e: Entity|
                                    Effect::Gather {
                                        unit: e,
                                        dest: *node_pos,
                                        job: if is_gatherer(content, world, e) {
                                            Some(*node)
                                        } else {
                                            None
                                        },
                                    },
                            ),
                            effects@ == before + o.effects.take(k as int),
                        decreases obey@.len() - k,
                    {
                        let e: Entity = obey[k];
                        let gathers: bool = match world.find(e) {
                            Some(row) => match row.unit_def {
                                Some(d) => d < content.units.len() && content.units[d].gathers,
                                None => false,
                            },
                            None => false,
                        };
                        let job: Option<Entity> = if gathers {
                            Some(*node)
                        } else {
                            None
                        };
                        effects.push(Effect::Gather { unit: e, dest: *node_pos, job });
                        assert(effects@ =~= before + o.effects.take(k + 1));
                        k = k + 1;
                    }
                    assert(o.effects.take(o.effects.len() as int) =~= o.effects);
                },
                None => {
                    assert(before + o.effects =~= before);
                },
            }
        },
        Order::Place { faction, building, pos } => {
            let barred: bool = match attribution {
                Attribution::By(by) => by != *faction,
                _ => false,
            };
            if !barred && place_building(content, stock, *faction, *building) {
                effects.push(Effect::Build { faction: *faction, def: *building, pos: *pos });
            }
            assert(effects@ =~= before + o.effects);
        },
        Order::Train { building, unit } => {
            match world.producer_of(*building) {
                Some((def, f)) => {
                    let barred: bool = match attribution {
                        Attribution::By(by) => by != f,
                        _ => false,
                    };
                    if !barred {
                        match charge_unit(content, stock, def, f, *unit) {
                            Some(item) => {
                                effects.push(Effect::Train { building: *building, item });
                            },
                            None => {},
                        }
                    }
                },
                None => {},
            }
            assert(effects@ =~= before + o.effects);
        },
        Order::By { .. } => {
            assert(before + o.effects =~= before);
        },
    }
}

/// Record one taken command and apply it, unless it is late.
fn obey(
    content: &Content,
    world: &World,
    ids: Option<&SimIds>,
    stock: &mut Stockpiles,
    log: &mut CommandLog,
    taken: &TakenCommand,
    effects: &mut Vec<Effect>,
)
    ensures
        ({
            let names = names_of(ids);
            let o = obeyed(content, world, names, *old(stock), taken@);
            &&& final(effects)@ == old(effects)@ + o.effects
            &&& *final(stock) == o.stock
            &&& account(final(log)) == noted(names, content, account(old(log)), taken@)
            &&& final(log).same_match(old(log))
        }),
{
    let ghost before = effects@;
    match ids {
        None => {
            log.record_unrecordable();
            if !taken.late {
                carry_out(
                    content,
                    world,
                    stock,
                    taken.order.attribution(),
                    taken.order.order(),
                    effects,
                );
            } else {
                assert(effects@ =~= before + Seq::<Effect>::empty());
            }
        },
        Some(ids) => {
            if let Order::By { .. } = taken.order.order() {
                // A signature is no order: there is nothing to name and nothing to obey.
                log.record_unnameable(0);
                assert(effects@ =~= before + Seq::<Effect>::empty());
                return ;
            }
            let mut dropped: u32 = 0;
            let left = nameable(ids, content, taken.order.order(), &mut dropped);
            match left {
                Some(order) => {
                    log.record_unnameable(dropped);
                    let fate = if taken.late {
                        CommandFate::Late
                    } else {
                        CommandFate::Taken
                    };
                    log.record(
                        taken.tick,
                        taken.schedule,
                        fate,
                        taken.order.attribution(),
                        &order,
                    );
                    if !taken.late {
                        carry_out(
                            content,
                            world,
                            stock,
                            taken.order.attribution(),
                            &order,
                            effects,
                        );
                    } else {
                        assert(effects@ =~= before + Seq::<Effect>::empty());
                    }
                },
                None => {
                    log.record_unnameable(1);
                    assert(effects@ =~= before + Seq::<Effect>::empty());
                },
            }
        },
    }
}

/// The names of an optional registry.
pub open spec fn names_of(ids: Option<&SimIds>) -> Option<Seq<Entity>> {
    match ids {
        Some(ids) => Some(ids@),
        None => None,
    }
}

/// Drain the commands due on tick `now` and say what they do. Each is recorded,
/// refused ones included: the log says what the simulation was asked to do.
/// Without a registry nothing can be named, so nothing is refused for its name
/// and nothing is recorded.
pub fn apply_commands(
    queue: &mut OrderQueue,
    now: u32,
    log: &mut CommandLog,
    content: &Content,
    stock: &mut Stockpiles,
    world: &World,
    ids: Option<&SimIds>,
) -> (r: Vec<Effect>)
    ensures
        ({
            let all = orders::due(old(queue)@, now);
            let names = names_of(ids);
            let n = all.len() as int;
            let o = played(content, world, names, *old(stock), all, n);
            &&& final(queue)@ == orders::kept(old(queue)@, now)
            &&& r@ == o.effects
            &&& *final(stock) == o.stock
            &&& account(final(log)) == all_noted(
                names,
                content,
                Account {
                    late: replay::counted(old(log).late, late_count(all, n) as u32),
                    ..account(old(log))
                },
                all,
                n,
            )
            &&& final(log).same_match(old(log))
        }),
{
    let ghost start = *stock;
    let ghost names = names_of(ids);
    let due = queue.take_due(now);
    let ghost all = orders::takens(due@);
    let mut late: usize = 0;
    let mut k: usize = 0;
    while k < due.len()
        invariant
            k <= due@.len(),
            late <= k,
            all == orders::takens(due@),
            late == late_count(all, k as int),
        decreases due@.len() - k,
    {
        if due[k].late {
            late = late + 1;
        }
        k = k + 1;
    }
    log.record_late(late as u32);
    let ghost base = account(log);
    let ghost first = *log;
    let mut out: Vec<Effect> = Vec::new();
    let mut k: usize = 0;
    while k < due.len()
        invariant
            k <= due@.len(),
            all == orders::takens(due@),
            names == names_of(ids),
            out@ == played(content, world, names, start, all, k as int).effects,
            *stock == played(content, world, names, start, all, k as int).stock,
            account(log) == all_noted(names, content, base, all, k as int),
            log.same_match(&first),
        decreases due@.len() - k,
    {
        assert(all[k as int] == due@[k as int]@);
        obey(content, world, ids, stock, log, &due[k], &mut out);
        k = k + 1;
    }
    out
}

// ---- laws -------------------------------------------------------------------

/// The entity an effect commands.
pub open spec fn commanded(e: Effect) -> Option<Entity> {
    match e {
        Effect::Move { unit, dest } => Some(unit),
        Effect::Gather { unit, dest, job } => Some(unit),
        _ => None,
    }
}

proof fn lemma_obedient(world: &World, issuer: Option<Faction>, units: Seq<Entity>, i: int)
    requires
        0 <= i < obedient(world, issuer, units).len(),
    ensures
        may_command(world, issuer, obedient(world, issuer, units)[i]),
        world.alive(obedient(world, issuer, units)[i]),
        units.contains(obedient(world, issuer, units)[i]),
{
    let p = |e: Entity| may_command(world, issuer, e) && world.alive(e);
    broadcast use vstd::seq_lib::group_filter_ensures;

    units.lemma_filter_contains_rev(p, obedient(world, issuer, units)[i]);
}

/// No order commands two sides: everything that one order moves and that is
/// somebody's is one commander's, the signer's if there is one. What it moves is
/// alive.
pub proof fn no_order_commands_two_sides(
    content: &Content,
    world: &World,
    stock: Stockpiles,
    attribution: Attribution,
    asked: Asked,
    i: int,
    j: int,
)
    requires
        ({
            let o = carried_out(content, world, stock, attribution, asked);
            0 <= i < o.effects.len() && 0 <= j < o.effects.len()
        }),
    ensures
        ({
            let o = carried_out(content, world, stock, attribution, asked);
            commanded(o.effects[i]) matches Some(a) ==> {
                &&& world.alive(a)
                &&& attribution matches Attribution::By(by) ==> (world.owner(a) matches Some(f)
                    ==> f == by)
                &&& commanded(o.effects[j]) matches Some(b) ==> (world.owner(a) is Some
                    && world.owner(b) is Some ==> world.owner(a) == world.owner(b))
            }
        }),
{
    let units = match asked {
        Asked::MoveTo { units, dest } => units,
        Asked::Gather { units, node, node_pos } => units,
        _ => Seq::empty(),
    };
    match answerable(world, attribution, units) {
        Some(issuer) => {
            let obey = obedient(world, issuer, units);
            if asked is MoveTo || asked is Gather {
                lemma_obedient(world, issuer, units, i);
                lemma_obedient(world, issuer, units, j);
                let (a, b) = (obey[i], obey[j]);
                if issuer is None {
                    let x = choose|x: int| 0 <= x < units.len() && units[x] == a;
                    assert(world.owner(units[x]) == world.owner(a));
                    if world.owner(a) is Some {
                        assert(touches(world, units, world.owner(a)->0));
                    }
                }
            }
        },
        None => {},
    }
}

/// An order only ever spends the Alloy of the faction it is held to: a signed
/// one leaves the other side's stockpile alone, and none adds to any.
pub proof fn an_order_spends_its_own(
    content: &Content,
    world: &World,
    stock: Stockpiles,
    attribution: Attribution,
    asked: Asked,
    f: Faction,
)
    ensures
        ({
            let after = carried_out(content, world, stock, attribution, asked).stock;
            &&& after.of(f) <= stock.of(f)
            &&& attribution == Attribution::By(f) ==> after.of(f.foe()) == stock.of(f.foe())
            &&& attribution is Void ==> after == stock
        }),
{
}

/// A refused order costs nothing, and an accepted one is charged exactly once:
/// the Alloy that left the stockpiles is the price of what was built or queued.
pub proof fn what_is_paid_is_delivered(
    content: &Content,
    world: &World,
    stock: Stockpiles,
    attribution: Attribution,
    asked: Asked,
)
    ensures
        ({
            let o = carried_out(content, world, stock, attribution, asked);
            let price = if o.effects.len() == 0 {
                0
            } else {
                match o.effects[0] {
                    Effect::Build { faction, def, pos } =>
                        content.buildings@[def as int].alloy_cost as int,
                    Effect::Train { building, item } =>
                        content.units@[item.unit as int].mvp_alloy_cost as int,
                    _ => 0,
                }
            };
            &&& o.stock.total() == stock.total() - price
            &&& asked is Place || asked is Train ==> o.effects.len() <= 1
        }),
{
}

/// Reducing an order to what can be named changes nothing the second time: what
/// a log records, a replay of the log hears whole.
pub proof fn naming_is_idempotent(ids: Seq<Entity>, content: &Content, asked: Asked)
    requires
        named(ids, content, asked) is Some,
    ensures
        ({
            let once = named(ids, content, asked)->0;
            &&& named(ids, content, once) == Some(once)
            &&& names_lost(ids, once) == 0
        }),
{
    match asked {
        Asked::MoveTo { units, dest } => lemma_known_twice(ids, units),
        Asked::Gather { units, node, node_pos } => lemma_known_twice(ids, units),
        _ => {},
    }
}

proof fn lemma_known_twice(ids: Seq<Entity>, units: Seq<Entity>)
    ensures
        known(ids, known(ids, units)) == known(ids, units),
    decreases units.len(),
{
    let p = |e: Entity| ids.contains(e);
    reveal(Seq::filter);
    if units.len() > 0 {
        lemma_known_twice(ids, units.drop_last());
        let rest = known(ids, units.drop_last());
        if p(units.last()) {
            assert(rest.push(units.last()).drop_last() =~= rest);
        }
    }
}

/// Replaying what was recorded does what was done: a command that was recorded
/// is obeyed, from its entry, exactly as it was obeyed when it was taken.
pub proof fn a_replay_does_the_same(
    content: &Content,
    world: &World,
    ids: Seq<Entity>,
    stock: Stockpiles,
    t: Taken,
)
    requires
        named(ids, content, t.claim.asked) is Some,
    ensures
        ({
            let asked = named(ids, content, t.claim.asked)->0;
            let again = Taken {
                claim: orders::Claim { attribution: t.claim.attribution, asked },
                ..t
            };
            obeyed(content, world, Some(ids), stock, again) == obeyed(
                content,
                world,
                Some(ids),
                stock,
                t,
            )
        }),
{
    naming_is_idempotent(ids, content, t.claim.asked);
}

/// A late command is recorded and does nothing.
pub proof fn late_commands_do_nothing(
    content: &Content,
    world: &World,
    ids: Option<Seq<Entity>>,
    stock: Stockpiles,
    t: Taken,
)
    requires
        t.late,
    ensures
        obeyed(content, world, ids, stock, t) == nothing(stock),
{
}

} // verus!
