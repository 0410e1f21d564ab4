//! What peers say to each other, and how commands name things on the wire.

use vstd::prelude::*;

use crate::sim::content::{Content, ContentFingerprint};
use crate::sim::orders::{Asked, Attribution, Claim, Order};
use crate::sim::registry;
use crate::sim::registry::{SimId, SimIds};
use crate::sim::replay;
use crate::sim::replay::LoggedOrder;
use crate::sim::spatial::Faction;
use crate::sim::world::Entity;
use crate::text;

verus! {

/// One command as it crosses the wire: its entities are the simulation's own
/// ids, the only names that mean the same thing in two processes.
#[derive(Debug, Clone)]
pub struct WireCommand {
    pub attribution: Attribution,
    pub order: LoggedOrder,
}

impl View for WireCommand {
    type V = Claim;

    open spec fn view(&self) -> Claim {
        Claim { attribution: self.attribution, asked: self.order@ }
    }
}

/// The views of a list of wire commands.
pub open spec fn wires(all: Seq<WireCommand>) -> Seq<Claim> {
    all.map_values(|c: WireCommand| c@)
}

/// Everything a peer ever says.
#[allow(inconsistent_fields)]
#[derive(Debug)]
pub enum Frame {
    /// Sent once, first, by both sides.
    Hello { protocol: u32, faction: Faction, seed: u64, content: ContentFingerprint },
    /// This peer's commands for tick `tick`. Sent every turn, even empty.
    Turn { tick: u32, commands: Vec<WireCommand> },
    /// This peer's state hash at the end of tick `tick`.
    Hash { tick: u32, hash: u64 },
}

/// A frame, as a mathematical value.
#[allow(inconsistent_fields)]
pub enum Said {
    Hello { protocol: u32, faction: Faction, seed: u64, stamp: u64, label: Seq<char> },
    Turn { tick: u32, commands: Seq<Claim> },
    Hash { tick: u32, hash: u64 },
}

impl View for Frame {
    type V = Said;

    open spec fn view(&self) -> Said {
        match *self {
            Frame::Hello { protocol, faction, seed, content } => Said::Hello {
                protocol,
                faction,
                seed,
                stamp: content.stamp(),
                label: content.label(),
            },
            Frame::Turn { tick, commands } => Said::Turn { tick, commands: wires(commands@) },
            Frame::Hash { tick, hash } => Said::Hash { tick, hash },
        }
    }
}

/// The views of a list of frames.
pub open spec fn said(all: Seq<Frame>) -> Seq<Said> {
    all.map_values(|f: Frame| f@)
}

// ---- naming -----------------------------------------------------------------

/// How `e` is named on the wire: by its id, or as unidentified.
pub open spec fn wire_name(ids: Seq<Entity>, e: Entity) -> Entity {
    match registry::id_in(ids, e) {
        Some(i) => Entity { bits: i as u64 },
        None => Entity { bits: SimId::UNIDENTIFIED },
    }
}

/// The names of a list of entities.
pub open spec fn wire_names(ids: Seq<Entity>, all: Seq<Entity>) -> Seq<Entity> {
    all.map_values(|e: Entity| wire_name(ids, e))
}

/// An order with its entities named for the wire.
pub open spec fn for_the_wire(ids: Seq<Entity>, asked: Asked) -> Asked {
    match asked {
        Asked::MoveTo { units, dest } => Asked::MoveTo { units: wire_names(ids, units), dest },
        Asked::Gather { units, node, node_pos } => Asked::Gather {
            units: wire_names(ids, units),
            node: wire_name(ids, node),
            node_pos,
        },
        Asked::Train { building, unit } => Asked::Train {
            building: wire_name(ids, building),
            unit,
        },
        _ => asked,
    }
}

/// The entity that a name on the wire means here.
pub open spec fn meant(ids: Seq<Entity>, name: Entity) -> Option<Entity> {
    if name.bits < ids.len() {
        Some(ids[name.bits as int])
    } else {
        None
    }
}

/// The first name, from place `k` on, that means nothing here.
pub open spec fn first_strange(ids: Seq<Entity>, names: Seq<Entity>, k: int) -> Option<u64>
    decreases names.len() - k,
{
    if k < 0 || k >= names.len() {
        None
    } else if meant(ids, names[k]) is None {
        Some(names[k].bits)
    } else {
        first_strange(ids, names, k + 1)
    }
}

/// The entities that names mean.
pub open spec fn all_meant(ids: Seq<Entity>, names: Seq<Entity>) -> Seq<Entity> {
    names.map_values(|n: Entity| meant(ids, n)->0)
}

/// How a name that means nothing is reported.
pub open spec fn strange_shown(id: u64) -> Seq<char> {
    "no entity has the id "@ + text::dec(id as nat)
}

/// How a definition that does not exist is reported.
pub open spec fn undefined_shown(kind: Seq<char>, def: usize) -> Seq<char> {
    "no "@ + kind + " definition "@ + text::dec(def as nat)
}

/// Why an order from the wire cannot be resolved here.
pub open spec fn strange(ids: Seq<Entity>, content: &Content, asked: Asked) -> Option<Seq<char>> {
    match first_strange(ids, replay::subjects(asked), 0) {
        Some(id) => Some(strange_shown(id)),
        None => match asked {
            Asked::Place { faction, building, pos } => if building < content.buildings@.len() {
                None
            } else {
                Some(undefined_shown("building"@, building))
            },
            Asked::Train { building, unit } => if unit < content.units@.len() {
                None
            } else {
                Some(undefined_shown("unit"@, unit))
            },
            _ => None,
        },
    }
}

/// What an order from the wire asks for here.
pub open spec fn resolved(ids: Seq<Entity>, asked: Asked) -> Asked {
    match asked {
        Asked::MoveTo { units, dest } => Asked::MoveTo { units: all_meant(ids, units), dest },
        Asked::Gather { units, node, node_pos } => Asked::Gather {
            units: all_meant(ids, units),
            node: meant(ids, node)->0,
            node_pos,
        },
        Asked::Train { building, unit } => Asked::Train { building: meant(ids, building)->0, unit },
        _ => asked,
    }
}

fn name_of(ids: &SimIds, e: Entity) -> (r: u64)
    ensures
        r == wire_name(ids@, e).bits,
{
    proof {
        registry::lemma_known(ids@, e);
    }
    match ids.id_of(e) {
        Some(id) => id.0,
        None => SimId::UNIDENTIFIED,
    }
}

fn names_of(ids: &SimIds, all: &Vec<Entity>) -> (r: Vec<u64>)
    ensures
        replay::entities(r@) == wire_names(ids@, all@),
{
    let ghost want = wire_names(ids@, all@);
    let mut out: Vec<u64> = Vec::new();
    assert(replay::entities(out@) =~= want.take(0));
    let mut k: usize = 0;
    while k < all.len()
        invariant
            k <= all@.len(),
            want == wire_names(ids@, all@),
            replay::entities(out@) == want.take(k as int),
        decreases all@.len() - k,
    {
        let ghost before = out@;
        out.push(name_of(ids, all[k]));
        assert(replay::entities(out@) =~= replay::entities(before).push(want[k as int]));
        assert(want.take(k + 1) =~= want.take(k as int).push(want[k as int]));
        k = k + 1;
    }
    assert(want.take(want.len() as int) =~= want);
    out
}

/// An order in the form that crosses the wire. `None` only for a signature.
pub fn wire_order(ids: &SimIds, order: &Order) -> (r: Option<LoggedOrder>)
    ensures
        r is None <==> order@ is Signature,
        r matches Some(l) ==> l@ == for_the_wire(ids@, order@),
{
    match order {
        Order::MoveTo { units, dest } => {
            let units: Vec<u64> = names_of(ids, units);
            Some(LoggedOrder::MoveTo { units, dest: *dest })
        },
        Order::Gather { units, node, node_pos } => {
            let units: Vec<u64> = names_of(ids, units);
            Some(LoggedOrder::Gather { units, node: name_of(ids, *node), node_pos: *node_pos })
        },
        Order::Place { faction, building, pos } => Some(
            LoggedOrder::Place { faction: *faction, building: *building, pos: *pos },
        ),
        Order::Train { building, unit } => Some(
            LoggedOrder::Train { building: name_of(ids, *building), unit: *unit },
        ),
        Order::By { .. } => None,
    }
}

fn meanings(ids: &SimIds, names: &Vec<u64>) -> (r: Result<Vec<Entity>, u64>)
    ensures
        match r {
            Ok(all) => first_strange(ids@, replay::entities(names@), 0) is None && all@
                == all_meant(ids@, replay::entities(names@)),
            Err(id) => first_strange(ids@, replay::entities(names@), 0) == Some(id),
        },
{
    let ghost want = replay::entities(names@);
    let mut out: Vec<Entity> = Vec::new();
    let mut k: usize = 0;
    while k < names.len()
        invariant
            k <= names@.len(),
            want == replay::entities(names@),
            first_strange(ids@, want, 0) == first_strange(ids@, want, k as int),
            out@ == all_meant(ids@, want).take(k as int),
        decreases names@.len() - k,
    {
        match ids.entity_of(SimId(names[k])) {
            Some(e) => {
                out.push(e);
                assert(out@ =~= all_meant(ids@, want).take(k + 1));
            },
            None => {
                return Err(names[k]);
            },
        }
        k = k + 1;
    }
    assert(all_meant(ids@, want).take(want.len() as int) =~= all_meant(ids@, want));
    Ok(out)
}

fn strange_message(id: u64) -> (r: String)
    ensures
        r@ == strange_shown(id),
{
    let mut m: String = "no entity has the id ".to_owned();
    text::push_dec(&mut m, id);
    m
}

fn undefined_message(kind: &str, def: usize) -> (r: String)
    ensures
        r@ == undefined_shown(kind@, def),
{
    let mut m: String = text::cat3("no ", kind, " definition ");
    text::push_dec(&mut m, def as u64);
    m
}

proof fn lemma_first_strange_push(ids: Seq<Entity>, names: Seq<Entity>, e: Entity, k: int)
    requires
        0 <= k <= names.len(),
    ensures
        first_strange(ids, names.push(e), k) == match first_strange(ids, names, k) {
            Some(b) => Some(b),
            None => if meant(ids, e) is Some {
                None
            } else {
                Some(e.bits)
            },
        },
    decreases names.len() - k,
{
    if k < names.len() {
        assert(names.push(e)[k] == names[k]);
        if meant(ids, names[k]) is Some {
            lemma_first_strange_push(ids, names, e, k + 1);
        }
    } else {
        assert(names.push(e)[k] == e);
        assert(first_strange(ids, names.push(e), k + 1) is None);
    }
}

/// An order from the wire, resolved to the entities of this process.
pub fn resolve_order(ids: &SimIds, content: &Content, order: &LoggedOrder) -> (r: Result<
    Order,
    String,
>)
    ensures
        match r {
            Ok(o) => strange(ids@, content, order@) is None && o@ == resolved(ids@, order@),
            Err(m) => strange(ids@, content, order@) == Some(m@),
        },
{
    match order {
        LoggedOrder::MoveTo { units, dest } => match meanings(ids, units) {
            Ok(units) => Ok(Order::MoveTo { units, dest: *dest }),
            Err(id) => Err(strange_message(id)),
        },
        LoggedOrder::Gather { units, node, node_pos } => {
            proof {
                lemma_first_strange_push(
                    ids@,
                    replay::entities(units@),
                    Entity { bits: *node },
                    0,
                );
            }
            match meanings(ids, units) {
                Ok(units) => match ids.entity_of(SimId(*node)) {
                    Some(node) => Ok(Order::Gather { units, node, node_pos: *node_pos }),
                    None => Err(strange_message(*node)),
                },
                Err(id) => Err(strange_message(id)),
            }
        },
        LoggedOrder::Place { faction, building, pos } => {
            if *building < content.buildings.len() {
                Ok(Order::Place { faction: *faction, building: *building, pos: *pos })
            } else {
                Err(undefined_message("building", *building))
            }
        },
        LoggedOrder::Train { building, unit } => {
            proof {
                let e = Entity { bits: *building };
                lemma_first_strange_push(ids@, Seq::empty(), e, 0);
                assert(seq![e] =~= Seq::<Entity>::empty().push(e));
            }
            match ids.entity_of(SimId(*building)) {
                Some(building) => if *unit < content.units.len() {
                    Ok(Order::Train { building, unit: *unit })
                } else {
                    Err(undefined_message("unit", *unit))
                },
                None => Err(strange_message(*building)),
            }
        },
    }
}

// ---- laws -------------------------------------------------------------------

proof fn lemma_names_read_back(ids: Seq<Entity>, all: Seq<Entity>, k: int)
    requires
        0 <= k <= all.len(),
        ids.len() <= u64::MAX,
        forall|i: int| 0 <= i < all.len() ==> ids.contains(#[trigger] all[i]),
    ensures
        first_strange(ids, wire_names(ids, all), k) is None,
        forall|i: int|
            k <= i < all.len() ==> meant(ids, #[trigger] wire_names(ids, all)[i]) == Some(all[i]),
    decreases all.len() - k,
{
    if k < all.len() {
        lemma_names_read_back(ids, all, k + 1);
        registry::lemma_known(ids, all[k]);
    }
}

/// A command means the same thing on both sides of the wire: between peers
/// whose registries agree, an order whose entities are identified resolves to
/// the order that was sent.
pub proof fn the_wire_keeps_meaning(ids: Seq<Entity>, content: &Content, asked: Asked)
    requires
        ids.len() <= u64::MAX,
        forall|i: int|
            0 <= i < replay::subjects(asked).len() ==> ids.contains(
                #[trigger] replay::subjects(asked)[i],
            ),
        asked matches Asked::Place { faction, building, pos } ==> building
            < content.buildings@.len(),
        asked matches Asked::Train { building, unit } ==> unit < content.units@.len(),
    ensures
        strange(ids, content, for_the_wire(ids, asked)) is None,
        resolved(ids, for_the_wire(ids, asked)) == asked,
{
    let all = replay::subjects(asked);
    lemma_names_read_back(ids, all, 0);
    let wired = for_the_wire(ids, asked);
    assert(replay::subjects(wired) =~= wire_names(ids, all));
    match asked {
        Asked::MoveTo { units, dest } => {
            assert(all_meant(ids, wire_names(ids, units)) =~= units);
        },
        Asked::Gather { units, node, node_pos } => {
            assert(all[all.len() - 1] == node);
            assert(wire_names(ids, all)[all.len() - 1] == wire_name(ids, node));
            assert forall|i: int| 0 <= i < units.len() implies #[trigger] all_meant(
                ids,
                wire_names(ids, units),
            )[i] == units[i] by {
                assert(all[i] == units[i]);
                assert(wire_names(ids, all)[i] == wire_name(ids, units[i]));
            }
            assert(all_meant(ids, wire_names(ids, units)) =~= units);
        },
        Asked::Train { building, unit } => {
            assert(all[0] == building);
            assert(wire_names(ids, all)[0] == wire_name(ids, building));
        },
        _ => {},
    }
}

} // verus!
