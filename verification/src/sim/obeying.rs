//! What holds of commands that are applied, read off the order as it was given,
//! the world as it stands and what comes of it.

use vstd::prelude::*;

use crate::float::Point;
use crate::sim::command;
use crate::sim::command::{Account, Effect};
use crate::sim::content::Content;
use crate::sim::economy;
use crate::sim::economy::Stockpiles;
use crate::sim::orders::{Asked, Attribution, Taken};
use crate::sim::replay::CommandFate;
use crate::sim::spatial::Faction;
use crate::sim::world::{Entity, World};

verus! {

// ---- naming -----------------------------------------------------------------

/// Does the simulation have a name for `e`? Without a registry everything goes
/// by the name it has.
pub open spec fn has_name(ids: Option<Seq<Entity>>, e: Entity) -> bool {
    ids matches Some(all) ==> all.contains(e)
}

/// Those of `units` that have a name, in the order they were given.
pub open spec fn with_names(ids: Option<Seq<Entity>>, units: Seq<Entity>) -> Seq<Entity> {
    units.filter(|e: Entity| has_name(ids, e))
}

proof fn lemma_all_kept<T>(s: Seq<T>, p: spec_fn(T) -> bool)
    requires
        forall|i: int| 0 <= i < s.len() ==> p(#[trigger] s[i]),
    ensures
        s.filter(p) == s,
    decreases s.len(),
{
    reveal(Seq::filter);
    if s.len() > 0 {
        assert forall|i: int| 0 <= i < s.drop_last().len() implies p(#[trigger] s.drop_last()[i]) by {
            assert(p(s[i]));
        }
        lemma_all_kept(s.drop_last(), p);
        assert(p(s[s.len() - 1]));
        assert(s.drop_last().push(s.last()) =~= s);
    } else {
        assert(s.filter(p) =~= s);
    }
}

proof fn lemma_filter_twice<T>(
    s: Seq<T>,
    p: spec_fn(T) -> bool,
    q: spec_fn(T) -> bool,
    both: spec_fn(T) -> bool,
)
    requires
        forall|x: T| #[trigger] both(x) <==> p(x) && q(x),
    ensures
        s.filter(p).filter(q) == s.filter(both),
    decreases s.len(),
{
    reveal(Seq::filter);
    if s.len() > 0 {
        lemma_filter_twice(s.drop_last(), p, q, both);
        let rest = s.drop_last().filter(p);
        assert(both(s.last()) <==> p(s.last()) && q(s.last()));
        if p(s.last()) {
            assert(rest.push(s.last()).drop_last() =~= rest);
        }
    }
}

/// An order whose every name is known, of things and of definitions, is heard as
/// it was given.
pub proof fn known_orders_are_heard_whole(ids: Seq<Entity>, content: &Content, asked: Asked)
    requires
        match asked {
            Asked::MoveTo { units, dest } => forall|i: int|
                0 <= i < units.len() ==> ids.contains(#[trigger] units[i]),
            Asked::Gather { units, node, node_pos } => ids.contains(node) && forall|i: int|
                0 <= i < units.len() ==> ids.contains(#[trigger] units[i]),
            Asked::Place { faction, building, pos } => building < content.buildings@.len(),
            Asked::Train { building, unit } => ids.contains(building) && unit
                < content.units@.len(),
            Asked::Signature { .. } => true,
        },
    ensures
        command::named(ids, content, asked) == Some(asked),
        command::names_lost(ids, asked) == 0,
{
    let p = |e: Entity| ids.contains(e);
    match asked {
        Asked::MoveTo { units, dest } => lemma_all_kept(units, p),
        Asked::Gather { units, node, node_pos } => lemma_all_kept(units, p),
        _ => {},
    }
}

/// Reducing an order to what can be named leaves an order of the same kind, with
/// the same place, deposit, building and unit: only unknown members of a list
/// are dropped, in place. It is refused exactly if its deposit or its building
/// is unknown, or it speaks of content that does not exist.
pub proof fn naming_drops_only_the_unknown(ids: Seq<Entity>, content: &Content, asked: Asked)
    ensures
        match asked {
            Asked::MoveTo { units, dest } => command::named(ids, content, asked) == Some(
                Asked::MoveTo { units: with_names(Some(ids), units), dest },
            ),
            Asked::Gather { units, node, node_pos } => {
                &&& ids.contains(node) ==> command::named(ids, content, asked) == Some(
                    Asked::Gather { units: with_names(Some(ids), units), node, node_pos },
                )
                &&& !ids.contains(node) ==> command::named(ids, content, asked) is None
            },
            Asked::Place { faction, building, pos } => {
                &&& building < content.buildings@.len() ==> command::named(ids, content, asked)
                    == Some(asked)
                &&& building >= content.buildings@.len() ==> command::named(
                    ids,
                    content,
                    asked,
                ) is None
            },
            Asked::Train { building, unit } => {
                let known = ids.contains(building) && unit < content.units@.len();
                &&& known ==> command::named(ids, content, asked) == Some(asked)
                &&& !known ==> command::named(ids, content, asked) is None
            },
            Asked::Signature { .. } => command::named(ids, content, asked) == Some(asked),
        },
{
    let p = |e: Entity| ids.contains(e);
    let q = |e: Entity| has_name(Some(ids), e);
    assert(p =~= q);
}

// ---- who obeys ----------------------------------------------------------------

/// May an order that is held to `by`, and that speaks to `units`, command `e`? A
/// signed one commands the signer's and nobody's; an unsigned one commands
/// whatever it speaks to, unless it speaks to both sides; a void one nothing.
pub open spec fn commands(world: &World, by: Attribution, units: Seq<Entity>, e: Entity) -> bool {
    match by {
        Attribution::Void => false,
        Attribution::By(f) => world.owner(e) is None || world.owner(e) == Some(f),
        Attribution::SelfSigned => forall|i: int, j: int|
            0 <= i < units.len() && 0 <= j < units.len() ==> world.owner(#[trigger] units[i]) is None
                || world.owner(#[trigger] units[j]) is None || world.owner(units[i])
                == world.owner(units[j]),
    }
}

/// Those of `units` that obey an order: they have a name, are alive, and the
/// order may command them.
pub open spec fn who_obey(
    world: &World,
    ids: Option<Seq<Entity>>,
    by: Attribution,
    units: Seq<Entity>,
) -> Seq<Entity> {
    units.filter(
        |e: Entity|
            has_name(ids, e) && world.alive(e) && commands(world, by, with_names(ids, units), e),
    )
}

/// The list an order is reduced to, and who of it obeys.
proof fn lemma_obey(
    world: &World,
    ids: Option<Seq<Entity>>,
    by: Attribution,
    units: Seq<Entity>,
)
    ensures
        ({
            let list = with_names(ids, units);
            match command::answerable(world, by, list) {
                Some(issuer) => !(by is Void) && command::obedient(world, issuer, list) == who_obey(
                    world,
                    ids,
                    by,
                    units,
                ),
                None => who_obey(world, ids, by, units).len() == 0,
            }
        }),
{
    let list = with_names(ids, units);
    let p = |e: Entity| has_name(ids, e);
    let both = |e: Entity| has_name(ids, e) && world.alive(e) && commands(world, by, list, e);
    match command::answerable(world, by, list) {
        Some(issuer) => {
            let q = |e: Entity| command::may_command(world, issuer, e) && world.alive(e);
            let r = |e: Entity| world.alive(e) && commands(world, by, list, e);
            lemma_filter_twice(units, p, r, both);
            lemma_same_filter(list, q, r, world, by, issuer);
        },
        None => {
            if by is SelfSigned {
                let (f, g) = (Faction::A, Faction::B);
                let i = choose|i: int| 0 <= i < list.len() && world.owner(#[trigger] list[i]) == Some(f);
                let j = choose|j: int| 0 <= j < list.len() && world.owner(#[trigger] list[j]) == Some(g);
                assert(world.owner(list[i]) != world.owner(list[j]));
                assert forall|e: Entity| !commands(world, by, list, e) by {
                    assert(world.owner(list[i]) is Some && world.owner(list[j]) is Some);
                }
            }
            lemma_none_kept(units, both);
        },
    }
}

proof fn lemma_none_kept<T>(s: Seq<T>, p: spec_fn(T) -> bool)
    requires
        forall|x: T| !#[trigger] p(x),
    ensures
        s.filter(p).len() == 0,
    decreases s.len(),
{
    reveal(Seq::filter);
    if s.len() > 0 {
        lemma_none_kept(s.drop_last(), p);
        assert(!p(s.last()));
    }
}

/// Two filters that agree on the members of a list.
proof fn lemma_agree<T>(s: Seq<T>, p: spec_fn(T) -> bool, q: spec_fn(T) -> bool)
    requires
        forall|i: int| 0 <= i < s.len() ==> p(#[trigger] s[i]) == q(s[i]),
    ensures
        s.filter(p) == s.filter(q),
    decreases s.len(),
{
    reveal(Seq::filter);
    if s.len() > 0 {
        let rest = s.drop_last();
        assert forall|i: int| 0 <= i < rest.len() implies p(#[trigger] rest[i]) == q(rest[i]) by {
            assert(p(s[i]) == q(s[i]));
        }
        lemma_agree(rest, p, q);
        assert(p(s[s.len() - 1]) == q(s[s.len() - 1]));
    } else {
        assert(s.filter(p) =~= s.filter(q));
    }
}

proof fn lemma_same_filter(
    list: Seq<Entity>,
    q: spec_fn(Entity) -> bool,
    r: spec_fn(Entity) -> bool,
    world: &World,
    by: Attribution,
    issuer: Option<Faction>,
)
    requires
        q == (|e: Entity| command::may_command(world, issuer, e) && world.alive(e)),
        r == (|e: Entity| world.alive(e) && commands(world, by, list, e)),
        command::answerable(world, by, list) == Some(issuer),
    ensures
        list.filter(q) == list.filter(r),
{
    assert forall|k: int| 0 <= k < list.len() implies q(#[trigger] list[k]) == r(list[k]) by {
        let e = list[k];
        if by is SelfSigned {
            let (f, g) = (Faction::A, Faction::B);
            assert(world.owner(e) == Some(f) ==> command::touches(world, list, f));
            assert(world.owner(e) == Some(g) ==> command::touches(world, list, g));
            assert(commands(world, by, list, e)) by {
                assert forall|i: int, j: int|
                    0 <= i < list.len() && 0 <= j < list.len() implies world.owner(
                    #[trigger] list[i],
                ) is None || world.owner(#[trigger] list[j]) is None || world.owner(list[i])
                    == world.owner(list[j]) by {
                    if world.owner(list[i]) == Some(f) {
                        assert(command::touches(world, list, f));
                    }
                    if world.owner(list[i]) == Some(g) {
                        assert(command::touches(world, list, g));
                    }
                    if world.owner(list[j]) == Some(f) {
                        assert(command::touches(world, list, f));
                    }
                    if world.owner(list[j]) == Some(g) {
                        assert(command::touches(world, list, g));
                    }
                }
            }
        }
    }
    lemma_agree(list, q, r);
}

proof fn lemma_heard_list(ids: Option<Seq<Entity>>, units: Seq<Entity>)
    ensures
        ids is None ==> with_names(ids, units) == units,
        ids matches Some(all) ==> with_names(ids, units) == command::known(all, units),
{
    match ids {
        Some(all) => {
            let p = |e: Entity| all.contains(e);
            let q = |e: Entity| has_name(ids, e);
            assert(p =~= q);
        },
        None => {
            lemma_all_kept(units, |e: Entity| has_name(ids, e));
        },
    }
}

// ---- what an order does -----------------------------------------------------

/// An order to move sends each of its units that obeys, and no other, to the
/// place it names, in the order it names them. It costs nothing.
pub proof fn a_move_moves_who_obey(
    content: &Content,
    world: &World,
    ids: Option<Seq<Entity>>,
    stock: Stockpiles,
    t: Taken,
    units: Seq<Entity>,
    dest: Point,
)
    requires
        !t.late,
        t.claim.asked == (Asked::MoveTo { units, dest }),
    ensures
        ({
            let o = command::obeyed(content, world, ids, stock, t);
            let who = who_obey(world, ids, t.claim.attribution, units);
            &&& o.stock == stock
            &&& o.effects.len() == who.len()
            &&& forall|i: int|
                0 <= i < who.len() ==> #[trigger] o.effects[i] == (Effect::Move {
                    unit: who[i],
                    dest,
                })
        }),
{
    lemma_heard_list(ids, units);
    lemma_obey(world, ids, t.claim.attribution, units);
    if t.claim.attribution is Void {
        lemma_none_kept(
            units,
            |e: Entity|
                has_name(ids, e) && world.alive(e) && commands(
                    world,
                    t.claim.attribution,
                    with_names(ids, units),
                    e,
                ),
        );
    }
}

/// An order to gather sends each of its units that obeys to the deposit it names,
/// and gives each of those whose definition gathers that deposit as its job. It
/// does nothing if the deposit has no name.
pub proof fn an_order_to_gather_gives_the_job(
    content: &Content,
    world: &World,
    ids: Option<Seq<Entity>>,
    stock: Stockpiles,
    t: Taken,
    units: Seq<Entity>,
    node: Entity,
    node_pos: Point,
)
    requires
        !t.late,
        t.claim.asked == (Asked::Gather { units, node, node_pos }),
    ensures
        ({
            let o = command::obeyed(content, world, ids, stock, t);
            let who = who_obey(world, ids, t.claim.attribution, units);
            &&& o.stock == stock
            &&& !has_name(ids, node) ==> o.effects.len() == 0
            &&& has_name(ids, node) ==> o.effects.len() == who.len()
            &&& forall|i: int|
                has_name(ids, node) && 0 <= i < who.len() ==> {
                    &&& #[trigger] o.effects[i] matches Effect::Gather { unit, dest, job }
                    &&& unit == who[i]
                    &&& dest == node_pos
                    &&& job is Some <==> (world.unit_def(who[i]) matches Some(d) && d
                        < content.units@.len() && content.units@[d as int].gathers)
                    &&& job matches Some(n) ==> n == node
                }
        }),
{
    lemma_heard_list(ids, units);
    lemma_obey(world, ids, t.claim.attribution, units);
    if t.claim.attribution is Void {
        lemma_none_kept(
            units,
            |e: Entity|
                has_name(ids, e) && world.alive(e) && commands(
                    world,
                    t.claim.attribution,
                    with_names(ids, units),
                    e,
                ),
        );
    }
}

/// An order to build is carried out exactly if there is such a building, the
/// order is the builder's own or nobody signed it, and the builder has what it
/// costs: the building goes where it was ordered, and the builder pays.
pub proof fn an_order_to_build_is_paid(
    content: &Content,
    world: &World,
    ids: Option<Seq<Entity>>,
    stock: Stockpiles,
    t: Taken,
    faction: Faction,
    building: usize,
    pos: Point,
)
    requires
        !t.late,
        t.claim.asked == (Asked::Place { faction, building, pos }),
    ensures
        ({
            let o = command::obeyed(content, world, ids, stock, t);
            let by = t.claim.attribution;
            let may = by == Attribution::SelfSigned || by == Attribution::By(faction);
            let cost = content.buildings@[building as int].alloy_cost;
            let done = may && building < content.buildings@.len() && cost <= stock.of(faction);
            &&& done ==> o.effects == seq![Effect::Build { faction, def: building, pos }]
                && o.stock.of(faction) + cost == stock.of(faction) && o.stock.of(faction.foe())
                == stock.of(faction.foe())
            &&& !done ==> o.effects.len() == 0 && o.stock == stock
        }),
{
}

/// An order to train is carried out exactly if its building is a producer with a
/// name, the order is the owner's own or nobody signed it, the building produces
/// the unit and the owner has what it costs: the unit is queued there with its
/// full training time, and the owner pays.
pub proof fn an_order_to_train_is_paid(
    content: &Content,
    world: &World,
    ids: Option<Seq<Entity>>,
    stock: Stockpiles,
    t: Taken,
    building: Entity,
    unit: usize,
)
    requires
        !t.late,
        t.claim.asked == (Asked::Train { building, unit }),
    ensures
        ({
            let o = command::obeyed(content, world, ids, stock, t);
            let by = t.claim.attribution;
            let cost = content.units@[unit as int].mvp_alloy_cost;
            &&& world.producer(building) matches Some((def, f)) ==> {
                let may = by == Attribution::SelfSigned || by == Attribution::By(f);
                let made = def < content.buildings@.len() && unit < content.units@.len()
                    && exists|i: int|
                    0 <= i < content.buildings@[def as int].produces@.len() && (
                    #[trigger] content.buildings@[def as int].produces@[i])@
                        == content.units@[unit as int].id@;
                let done = has_name(ids, building) && may && made && cost <= stock.of(f);
                &&& done ==> o.effects.len() == 1 && o.stock.of(f) + cost == stock.of(f)
                    && o.stock.of(f.foe()) == stock.of(f.foe())
                &&& done ==> (o.effects[0] matches Effect::Train { building: at, item } && at
                    == building && item.unit == unit && item.ticks_left
                    == content.units@[unit as int].mvp_train_ticks)
                &&& !done ==> o.effects.len() == 0 && o.stock == stock
            }
            &&& world.producer(building) is None ==> o.effects.len() == 0 && o.stock == stock
        }),
{
    match world.producer(building) {
        Some((def, f)) => {
            economy::a_unit_is_paid_for(stock, f, content, def as int, unit as int);
        },
        None => {},
    }
}

/// A late command does nothing, and neither does one that is held to nobody.
pub proof fn the_late_and_the_void_do_nothing(
    content: &Content,
    world: &World,
    ids: Option<Seq<Entity>>,
    stock: Stockpiles,
    t: Taken,
)
    requires
        t.late || t.claim.attribution is Void,
    ensures
        command::obeyed(content, world, ids, stock, t).effects.len() == 0,
        command::obeyed(content, world, ids, stock, t).stock == stock,
{
}

/// Commands are carried out one after the other, each with what the one before
/// left in the stockpiles, and what they do is listed in that order.
pub proof fn commands_follow_one_another(
    content: &Content,
    world: &World,
    ids: Option<Seq<Entity>>,
    stock: Stockpiles,
    all: Seq<Taken>,
    k: int,
)
    requires
        0 <= k < all.len(),
    ensures
        ({
            let before = command::played(content, world, ids, stock, all, k);
            let after = command::played(content, world, ids, stock, all, k + 1);
            let now = command::obeyed(content, world, ids, before.stock, all[k]);
            &&& after.stock == now.stock
            &&& after.effects == before.effects + now.effects
            &&& command::played(content, world, ids, stock, all, 0).effects.len() == 0
            &&& command::played(content, world, ids, stock, all, 0).stock == stock
        }),
{
}

// ---- what is recorded -------------------------------------------------------

/// Where there is a registry, a command that is heard is entered once, as it is
/// heard: when it was taken and when it was due, whether it came too late, whom
/// it is held to, and what is asked. One that is refused is not entered, and
/// counts as one name that could not be resolved; of the others every dropped
/// name counts. Without a registry nothing is entered, and that is counted.
pub proof fn what_is_heard_is_entered(
    ids: Option<Seq<Entity>>,
    content: &Content,
    log: Account,
    t: Taken,
)
    ensures
        ({
            let after = command::noted(ids, content, log, t);
            &&& after.late == log.late
            &&& ids is None ==> after.entries == log.entries && after.unnameable == log.unnameable
                && (log.unrecorded < u32::MAX ==> after.unrecorded == log.unrecorded + 1)
            &&& ids matches Some(all) ==> {
                let left = command::named(all, content, t.claim.asked);
                &&& after.unrecorded == log.unrecorded
                &&& left is None ==> after.entries == log.entries && (log.unnameable < u32::MAX
                    ==> after.unnameable == log.unnameable + 1)
                &&& (left matches Some(asked) && !(asked is Signature)) ==> {
                    let asked = left->0;
                    &&& after.entries.len() == log.entries.len() + 1
                    &&& after.entries.drop_last() == log.entries
                    &&& after.entries.last().tick == t.tick
                    &&& after.entries.last().schedule == t.schedule
                    &&& after.entries.last().attribution == t.claim.attribution
                    &&& after.entries.last().asked == asked
                    &&& after.entries.last().fate == CommandFate::Late <==> t.late
                    &&& after.entries.last().fate == CommandFate::Taken <==> !t.late
                }
            }
        }),
{
    match ids {
        Some(all) => match command::named(all, content, t.claim.asked) {
            Some(asked) => {
                let after = command::noted(ids, content, log, t);
                assert(asked is Signature || after.entries.drop_last() =~= log.entries);
            },
            None => {},
        },
        None => {},
    }
}

/// Every name that a list order loses counts, and no other.
pub proof fn lost_names_are_counted(ids: Seq<Entity>, content: &Content, log: Account, t: Taken)
    requires
        t.claim.asked is MoveTo || (t.claim.asked matches Asked::Gather { units, node, node_pos }
            && ids.contains(node)),
    ensures
        ({
            let units = match t.claim.asked {
                Asked::MoveTo { units, dest } => units,
                Asked::Gather { units, node, node_pos } => units,
                _ => Seq::empty(),
            };
            let lost = units.len() - with_names(Some(ids), units).len();
            let after = command::noted(Some(ids), content, log, t);
            log.unnameable + lost <= u32::MAX ==> after.unnameable == log.unnameable + lost
        }),
{
    let units = match t.claim.asked {
        Asked::MoveTo { units, dest } => units,
        Asked::Gather { units, node, node_pos } => units,
        _ => Seq::empty(),
    };
    lemma_heard_list(Some(ids), units);
    let p = |e: Entity| ids.contains(e);
    lemma_no_longer(units, p);
}

proof fn lemma_no_longer<T>(s: Seq<T>, p: spec_fn(T) -> bool)
    ensures
        s.filter(p).len() <= s.len(),
    decreases s.len(),
{
    reveal(Seq::filter);
    if s.len() > 0 {
        lemma_no_longer(s.drop_last(), p);
    }
}

/// Commands are entered in the order they are carried out in.
pub proof fn entries_follow_one_another(
    ids: Option<Seq<Entity>>,
    content: &Content,
    log: Account,
    all: Seq<Taken>,
    k: int,
)
    requires
        0 <= k < all.len(),
    ensures
        command::all_noted(ids, content, log, all, 0) == log,
        command::all_noted(ids, content, log, all, k + 1) == command::noted(
            ids,
            content,
            command::all_noted(ids, content, log, all, k),
            all[k],
        ),
        command::late_count(all, 0) == 0,
        command::late_count(all, k + 1) - command::late_count(all, k) == if all[k].late {
            1int
        } else {
            0int
        },
{
}

} // verus!
