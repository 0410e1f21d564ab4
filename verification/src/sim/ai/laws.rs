//! What holds of a commander's decisions, read off the snapshot it decides on,
//! its script, its stockpile and what it decides.

use vstd::prelude::*;

use crate::float::{F32, Point};
use crate::sim::ai::think;
use crate::sim::ai::think::{BuildingRow, Choice, Mind, NodeRow, Scene, Seen, Tech};
use crate::sim::ai::{AiAction, AiCommander};
use crate::sim::content::lookup;
use crate::sim::content::script;
use crate::sim::content::{Content, Opening, StrategyDef};
use crate::sim::economy::Stockpiles;
use crate::sim::near;
use crate::sim::orders::{Asked, Attribution, CommandTick};
use crate::sim::spatial;
use crate::sim::spatial::Faction;
use crate::sim::turns;
use crate::sim::world::Entity;
use crate::text;

verus! {

// ---- what stands in a snapshot ------------------------------------------------

/// Is it a building whose loss decides the match?
pub open spec fn decides(content: &Content, b: BuildingRow) -> bool {
    b.def < content.buildings@.len() && content.buildings@[b.def as int].victory
}

/// The building at `h` is the first of its side that decides the match.
pub open spec fn first_seat(content: &Content, all: Seq<BuildingRow>, f: Faction, h: int) -> bool {
    &&& 0 <= h < all.len()
    &&& all[h].faction == f
    &&& decides(content, all[h])
    &&& forall|i: int|
        0 <= i < h ==> !((#[trigger] all[i]).faction == f && decides(content, all[i]))
}

/// A unit of `f` that could be mining and is not.
pub open spec fn idle_miner(content: &Content, f: Faction, u: Seen) -> bool {
    &&& u.faction == f
    &&& !u.on_a_job
    &&& u.def < content.units@.len()
    &&& content.units@[u.def as int].gathers
}

/// A unit of `f` that gathers.
pub open spec fn miner(content: &Content, f: Faction, u: Seen) -> bool {
    &&& u.faction == f
    &&& u.def < content.units@.len()
    &&& content.units@[u.def as int].gathers
}

/// A unit of `f` that can do harm.
pub open spec fn armed(content: &Content, f: Faction, u: Seen) -> bool {
    &&& u.faction == f
    &&& u.def < content.units@.len()
    &&& content.units@[u.def as int].offense > 0
}

/// The idle miners of a snapshot, in its order.
pub open spec fn idle_miners(content: &Content, s: Scene, f: Faction) -> Seq<Seen> {
    s.units.filter(|u: Seen| idle_miner(content, f, u))
}

/// How many units of `f` gather.
pub open spec fn miner_count(content: &Content, s: Scene, f: Faction) -> nat {
    s.units.filter(|u: Seen| miner(content, f, u)).len()
}

/// Everything of `f` that can do harm, in the order of the snapshot.
pub open spec fn host(content: &Content, s: Scene, f: Faction) -> Seq<Entity> {
    s.units.filter(|u: Seen| armed(content, f, u)).map_values(|u: Seen| u.entity)
}

/// The definition at `d` is the first that goes by `id`.
pub open spec fn building_called(content: &Content, id: Seq<char>, d: int) -> bool {
    &&& 0 <= d < content.buildings@.len()
    &&& content.buildings@[d].id@ == id
    &&& forall|e: int| 0 <= e < d ==> (#[trigger] content.buildings@[e]).id@ != id
}

/// The definition at `u` is the first that goes by `id`.
pub open spec fn unit_called(content: &Content, id: Seq<char>, u: int) -> bool {
    &&& 0 <= u < content.units@.len()
    &&& content.units@[u].id@ == id
    &&& forall|e: int| 0 <= e < u ==> (#[trigger] content.units@[e]).id@ != id
}

/// A building of definition `d` trains the unit at `u`.
pub open spec fn trains(content: &Content, d: int, u: int) -> bool {
    &&& 0 <= d < content.buildings@.len()
    &&& 0 <= u < content.units@.len()
    &&& exists|i: int|
        0 <= i < content.buildings@[d].produces@.len() && (
        #[trigger] content.buildings@[d].produces@[i])@ == content.units@[u].id@
}

/// The building at `b` is the first of `f` with definition `d`.
pub open spec fn first_own(all: Seq<BuildingRow>, f: Faction, d: int, b: int) -> bool {
    &&& 0 <= b < all.len()
    &&& all[b].faction == f
    &&& all[b].def == d
    &&& forall|i: int| 0 <= i < b ==> !((#[trigger] all[i]).faction == f && all[i].def == d)
}

/// `f` has no building with definition `d`.
pub open spec fn has_none(all: Seq<BuildingRow>, f: Faction, d: int) -> bool {
    forall|i: int| 0 <= i < all.len() ==> !((#[trigger] all[i]).faction == f && all[i].def == d)
}

/// `w` is the unit at place `j` of a list of what is produced, and nothing before
/// it in the list gathers.
pub open spec fn first_miner_made(content: &Content, d: int, w: int, j: int) -> bool {
    let made = content.buildings@[d].produces@;
    &&& 0 <= j < made.len()
    &&& unit_called(content, made[j]@, w)
    &&& content.units@[w].gathers
    &&& forall|k: int, u: int|
        0 <= k < j && unit_called(content, (#[trigger] made[k])@, u) ==> !(
        #[trigger] content.units@[u]).gathers
}

// ---- finding things -----------------------------------------------------------

proof fn lemma_seat(content: &Content, all: Seq<BuildingRow>, f: Faction, k: int)
    requires
        0 <= k <= all.len(),
        forall|i: int|
            0 <= i < k ==> !((#[trigger] all[i]).faction == f && decides(content, all[i])),
    ensures
        match think::seat(content, all, f, k) {
            Some(h) => first_seat(content, all, f, h),
            None => forall|i: int|
                0 <= i < all.len() ==> !((#[trigger] all[i]).faction == f && decides(
                    content,
                    all[i],
                )),
        },
    decreases all.len() - k,
{
    if k < all.len() && !(all[k].faction == f && decides(content, all[k])) {
        lemma_seat(content, all, f, k + 1);
    }
}

proof fn lemma_own(all: Seq<BuildingRow>, f: Faction, d: int, k: int)
    requires
        0 <= k <= all.len(),
        forall|i: int| 0 <= i < k ==> !((#[trigger] all[i]).faction == f && all[i].def == d),
    ensures
        match think::owned(all, f, d, k) {
            Some(b) => first_own(all, f, d, b),
            None => has_none(all, f, d),
        },
    decreases all.len() - k,
{
    if k < all.len() && !(all[k].faction == f && all[k].def == d) {
        lemma_own(all, f, d, k + 1);
    }
}

proof fn lemma_building_called(content: &Content, id: Seq<char>)
    ensures
        match content.building_pos(id) {
            Some(d) => building_called(content, id, d),
            None => forall|d: int|
                0 <= d < content.buildings@.len() ==> (#[trigger] content.buildings@[d]).id@ != id,
        },
        forall|d: int| building_called(content, id, d) ==> content.building_pos(id) == Some(d),
{
    let ids = lookup::building_ids(content.buildings@);
    lookup::lemma_first_at(ids, id, 0);
    assert forall|d: int| 0 <= d < ids.len() implies ids[d] == (
    #[trigger] content.buildings@[d]).id@ by {}
    assert forall|d: int| building_called(content, id, d) implies content.building_pos(id) == Some(
        d,
    ) by {
        assert(ids[d] == id);
        let e = content.building_pos(id)->0;
        assert(ids[e] == content.buildings@[e].id@);
    }
}

proof fn lemma_unit_called(content: &Content, id: Seq<char>)
    ensures
        match content.unit_pos(id) {
            Some(u) => unit_called(content, id, u),
            None => forall|u: int|
                0 <= u < content.units@.len() ==> (#[trigger] content.units@[u]).id@ != id,
        },
        forall|u: int| unit_called(content, id, u) ==> content.unit_pos(id) == Some(u),
{
    let ids = lookup::unit_ids(content.units@);
    lookup::lemma_first_at(ids, id, 0);
    assert forall|u: int| 0 <= u < ids.len() implies ids[u] == (
    #[trigger] content.units@[u]).id@ by {}
    assert forall|u: int| unit_called(content, id, u) implies content.unit_pos(id) == Some(u) by {
        assert(ids[u] == id);
        let e = content.unit_pos(id)->0;
        assert(ids[e] == content.units@[e].id@);
    }
}

proof fn lemma_trains(content: &Content, d: int, u: int)
    ensures
        content.can_produce(d, u) <==> trains(content, d, u),
{
    let list = content.buildings@[d].produces@;
    let id = content.units@[u].id@;
    lookup::lemma_first_at(text::views(list), id, 0);
    assert forall|i: int| 0 <= i < list.len() implies text::views(list)[i] == (
    #[trigger] list[i])@ by {}
}

proof fn lemma_first_miner(content: &Content, d: int, k: int)
    requires
        0 <= k <= content.buildings@[d].produces@.len(),
        forall|i: int, u: int|
            0 <= i < k && unit_called(
                content,
                (#[trigger] content.buildings@[d].produces@[i])@,
                u,
            ) ==> !(#[trigger] content.units@[u]).gathers,
    ensures
        match think::first_gatherer(content, content.buildings@[d].produces@, k) {
            Some(w) => exists|j: int| first_miner_made(content, d, w, j),
            None => forall|i: int, u: int|
                0 <= i < content.buildings@[d].produces@.len() && unit_called(
                    content,
                    (#[trigger] content.buildings@[d].produces@[i])@,
                    u,
                ) ==> !(#[trigger] content.units@[u]).gathers,
        },
    decreases content.buildings@[d].produces@.len() - k,
{
    let made = content.buildings@[d].produces@;
    if k < made.len() {
        lemma_unit_called(content, made[k]@);
        match content.unit_pos(made[k]@) {
            Some(u) => {
                if content.units@[u].gathers {
                    assert(first_miner_made(content, d, u, k));
                } else {
                    lemma_first_miner(content, d, k + 1);
                }
            },
            None => {
                lemma_first_miner(content, d, k + 1);
            },
        }
    }
}

proof fn lemma_miner_unique(content: &Content, d: int, w: int, j: int, x: int, k: int)
    requires
        first_miner_made(content, d, w, j),
        first_miner_made(content, d, x, k),
    ensures
        w == x,
{
    let made = content.buildings@[d].produces@;
    if j < k {
        assert(unit_called(content, made[j]@, w));
        assert(!content.units@[w].gathers);
    } else if k < j {
        assert(unit_called(content, made[k]@, x));
        assert(!content.units@[x].gathers);
    } else {
        if w < x {
            assert(content.units@[w].id@ != made[j]@);
        } else if x < w {
            assert(content.units@[x].id@ != made[j]@);
        }
    }
}

proof fn lemma_counted(content: &Content, units: Seq<Seen>, f: Faction, k: int)
    requires
        0 <= k <= units.len(),
    ensures
        think::gatherers(content, units, f, k) == units.take(k).filter(
            |u: Seen| miner(content, f, u),
        ).len(),
        think::gatherers(content, units, f, k) <= k,
    decreases k,
{
    reveal(Seq::filter);
    if k > 0 {
        lemma_counted(content, units, f, k - 1);
        assert(units.take(k).drop_last() =~= units.take(k - 1));
    }
}

proof fn lemma_host(content: &Content, units: Seq<Seen>, f: Faction, k: int)
    requires
        0 <= k <= units.len(),
    ensures
        think::army(content, units, f, k) == units.take(k).filter(
            |u: Seen| armed(content, f, u),
        ).map_values(|u: Seen| u.entity),
        think::army(content, units, f, k).len() <= k,
    decreases k,
{
    reveal(Seq::filter);
    let p = |u: Seen| armed(content, f, u);
    let e = |u: Seen| u.entity;
    if k > 0 {
        lemma_host(content, units, f, k - 1);
        assert(units.take(k).drop_last() =~= units.take(k - 1));
        let before = units.take(k - 1).filter(p);
        let now = units.take(k).filter(p);
        if armed(content, f, units[k - 1]) {
            assert(now == before.push(units[k - 1]));
            assert(now.map_values(e) =~= before.map_values(e).push(units[k - 1].entity));
        } else {
            assert(now == before);
        }
    } else {
        assert(units.take(0).filter(p).map_values(e) =~= think::army(content, units, f, 0));
    }
}

// ---- mining -------------------------------------------------------------------

/// Is the deposit at `q` the nearest to a unit, and of those as near the one with
/// the smallest name?
pub open spec fn nearest_deposit(nodes: Seq<NodeRow>, u: Seen, q: int) -> bool {
    &&& 0 <= q < nodes.len()
    &&& forall|j: int|
        0 <= j < nodes.len() ==> u.to_nodes[q].at_most(#[trigger] u.to_nodes[j]) && (
        u.to_nodes[q].same(u.to_nodes[j]) ==> nodes[q].entity.bits <= nodes[j].entity.bits)
}

/// No distance of the unit is missing.
pub open spec fn measured(nodes: Seq<NodeRow>, u: Seen) -> bool {
    u.to_nodes.len() == nodes.len() && forall|j: int|
        0 <= j < nodes.len() ==> !(#[trigger] u.to_nodes[j]).nan()
}

/// A choice that sends `u` to a deposit, the nearest where distances are known.
pub open spec fn sent_mining(nodes: Seq<NodeRow>, u: Seen, c: Choice) -> bool {
    &&& c is Gather
    &&& c->Gather_unit == u.entity
    &&& exists|q: int|
        0 <= q < nodes.len() && c->node == (#[trigger] nodes[q]).entity && c->node_pos
            == nodes[q].pos && (measured(nodes, u) ==> nearest_deposit(nodes, u, q))
}

proof fn lemma_some(all: Seq<near::Candidate>, k: int, best: Option<int>)
    requires
        0 <= k <= all.len(),
        best is Some || exists|i: int| k <= i < all.len() && (#[trigger] all[i]).open,
    ensures
        near::nearest_from(all, k, best) is Some,
    decreases all.len() - k,
{
    if k < all.len() {
        if !all[k].open {
            lemma_some(all, k + 1, best);
        } else {
            lemma_some(all, k + 1, Some(k));
            if best is Some {
                lemma_some(all, k + 1, best);
            }
        }
    }
}

proof fn lemma_deposit(nodes: Seq<NodeRow>, u: Seen)
    ensures
        match near::nearest(think::deposits(nodes, u)) {
            Some(q) => 0 <= q < nodes.len() && (measured(nodes, u) ==> nearest_deposit(
                nodes,
                u,
                q,
            )),
            None => nodes.len() == 0,
        },
{
    let all = think::deposits(nodes, u);
    near::lemma_open(all, 0, None);
    if nodes.len() > 0 {
        assert(all[0].open);
        lemma_some(all, 0, None);
    }
    if measured(nodes, u) {
        assert forall|i: int| 0 <= i < all.len() implies !(#[trigger] all[i]).squared.nan() by {
            assert(!u.to_nodes[i].nan());
        }
        near::the_choice_is_nearest(all);
        match near::nearest(all) {
            Some(q) => {
                assert forall|j: int| 0 <= j < nodes.len() implies u.to_nodes[q].at_most(
                    #[trigger] u.to_nodes[j],
                ) && (u.to_nodes[q].same(u.to_nodes[j]) ==> nodes[q].entity.bits
                    <= nodes[j].entity.bits) by {
                    assert(all[j].open);
                }
            },
            None => {},
        }
    }
}

proof fn lemma_mining(content: &Content, s: Scene, f: Faction, k: int)
    requires
        0 <= k <= s.units.len(),
    ensures
        ({
            let all = think::mining(content, s, f, k);
            let who = s.units.take(k).filter(|u: Seen| idle_miner(content, f, u));
            &&& s.nodes.len() == 0 ==> all.len() == 0
            &&& s.nodes.len() > 0 ==> all.len() == who.len()
            &&& forall|i: int|
                0 <= i < all.len() ==> sent_mining(s.nodes, who[i], #[trigger] all[i])
        }),
    decreases k,
{
    reveal(Seq::filter);
    if k > 0 {
        lemma_mining(content, s, f, k - 1);
        assert(s.units.take(k).drop_last() =~= s.units.take(k - 1));
        let u = s.units[k - 1];
        lemma_deposit(s.nodes, u);
        let before = think::mining(content, s, f, k - 1);
        let all = think::mining(content, s, f, k);
        if idle_miner(content, f, u) && s.nodes.len() > 0 {
            let q = near::nearest(think::deposits(s.nodes, u))->0;
            assert(s.nodes[q] == s.nodes[q]);
            assert(all == before.push(all[k - 1 - (k - 1 - before.len())]));
            assert(sent_mining(s.nodes, u, all[before.len() as int]));
        } else {
            assert(all == before);
        }
    }
}

// ---- opening barracks -----------------------------------------------------------

/// A choice that builds what the opening `o` asks for: it is due, the side has no
/// such building yet, and the choice carries its distance.
pub open spec fn opens(
    content: &Content,
    s: Scene,
    f: Faction,
    tick: u32,
    o: Opening,
    c: Choice,
) -> bool {
    &&& c is Place
    &&& building_called(content, o.building@, c->building as int)
    &&& c->offset == o.offset
    &&& o.at_tick <= tick
    &&& has_none(s.buildings, f, c->building as int)
}

/// The building at `b` is one that an opening asks for: the first of its kind.
pub open spec fn opened(content: &Content, s: Scene, f: Faction, o: Opening, b: int) -> bool {
    exists|d: int|
        #[trigger] building_called(content, o.building@, d) && first_own(s.buildings, f, d, b)
}

proof fn lemma_tech(
    content: &Content,
    openings: Seq<Opening>,
    s: Scene,
    f: Faction,
    tick: u32,
    from: Point,
    start: Tech,
    k: int,
)
    requires
        0 <= k <= openings.len(),
        content.buildings@.len() <= usize::MAX,
    ensures
        ({
            let t = think::tech(content, openings, s, f, tick, from, start, k);
            let n = start.choices.len() as int;
            &&& n <= t.choices.len()
            &&& t.choices.take(n) == start.choices
            &&& t.budget <= start.budget
            &&& t.rng == spatial::state_after(start.rng, (t.choices.len() - n) as nat)
            &&& forall|i: int|
                n <= i < t.choices.len() ==> {
                    let c = #[trigger] t.choices[i];
                    &&& c is Place
                    &&& c->from == from
                    &&& c->turn == spatial::unit_f32(spatial::draw(start.rng, (i - n) as nat))
                    &&& exists|o: int|
                        0 <= o < k && opens(content, s, f, tick, #[trigger] openings[o], c)
                }
            &&& forall|o: int, d: int|
                #![trigger building_called(content, openings[o].building@, d)]
                0 <= o < k && building_called(content, openings[o].building@, d) && has_none(
                    s.buildings,
                    f,
                    d,
                ) && openings[o].at_tick <= tick ==> t.budget < content.buildings@[d].alloy_cost
                    || exists|i: int|
                    n <= i < t.choices.len() && opens(
                        content,
                        s,
                        f,
                        tick,
                        openings[o],
                        #[trigger] t.choices[i],
                    )
            &&& start.barracks.len() <= t.barracks.len()
            &&& forall|j: int|
                start.barracks.len() <= j < t.barracks.len() ==> exists|o: int|
                    0 <= o < k && opened(
                        content,
                        s,
                        f,
                        #[trigger] openings[o],
                        #[trigger] t.barracks[j],
                    )
        }),
    decreases k,
{
    let t = think::tech(content, openings, s, f, tick, from, start, k);
    let n = start.choices.len() as int;
    if k > 0 {
        lemma_tech(content, openings, s, f, tick, from, start, k - 1);
        let p = think::tech(content, openings, s, f, tick, from, start, k - 1);
        let o = openings[k - 1];
        lemma_building_called(content, o.building@);
        spatial::lemma_state_after_adds(start.rng, (p.choices.len() - n) as nat, 1);
        match content.building_pos(o.building@) {
            Some(d) => {
                lemma_own(s.buildings, f, d, 0);
                match think::owned(s.buildings, f, d, 0) {
                    Some(b) => {
                        assert(building_called(content, o.building@, d));
                        assert(first_own(s.buildings, f, d, b));
                        assert(opened(content, s, f, openings[k - 1], b));
                    },
                    None => {
                        if tick >= o.at_tick && p.budget >= content.buildings@[d].alloy_cost {
                            assert(t.choices.take(n) =~= p.choices.take(n));
                            let c = t.choices[p.choices.len() as int];
                            assert(opens(content, s, f, tick, openings[k - 1], c));
                        }
                    },
                }
            },
            None => {},
        }
        assert forall|i: int| n <= i < t.choices.len() implies {
            let c = #[trigger] t.choices[i];
            &&& c is Place
            &&& c->from == from
            &&& c->turn == spatial::unit_f32(spatial::draw(start.rng, (i - n) as nat))
            &&& exists|o: int| 0 <= o < k && opens(content, s, f, tick, #[trigger] openings[o], c)
        } by {
            if i < p.choices.len() {
                assert(t.choices[i] == p.choices[i]);
            } else {
                assert(opens(content, s, f, tick, openings[k - 1], t.choices[i]));
                assert(spatial::draw(p.rng, 0) == spatial::draw(start.rng, (i - n) as nat));
            }
        }
        assert forall|o: int, d: int|
            #![trigger building_called(content, openings[o].building@, d)]
            0 <= o < k && building_called(content, openings[o].building@, d) && has_none(
                s.buildings,
                f,
                d,
            ) && openings[o].at_tick <= tick implies t.budget < content.buildings@[d].alloy_cost
            || exists|i: int|
            n <= i < t.choices.len() && opens(
                content,
                s,
                f,
                tick,
                openings[o],
                #[trigger] t.choices[i],
            ) by {
            if o < k - 1 {
                if p.budget >= content.buildings@[d].alloy_cost {
                    let i = choose|i: int|
                        n <= i < p.choices.len() && opens(
                            content,
                            s,
                            f,
                            tick,
                            openings[o],
                            #[trigger] p.choices[i],
                        );
                    assert(t.choices[i] == p.choices[i]);
                }
            } else {
                if p.budget >= content.buildings@[d].alloy_cost {
                    let c = t.choices[p.choices.len() as int];
                    assert(opens(content, s, f, tick, openings[k - 1], c));
                }
            }
        }
        assert forall|j: int| start.barracks.len() <= j < t.barracks.len() implies exists|o: int|
            0 <= o < k && opened(content, s, f, #[trigger] openings[o], #[trigger] t.barracks[j]) by {
            if j < p.barracks.len() {
                assert(t.barracks[j] == p.barracks[j]);
                let o = choose|o: int|
                    0 <= o < k - 1 && opened(
                        content,
                        s,
                        f,
                        #[trigger] openings[o],
                        #[trigger] p.barracks[j],
                    );
                assert(opened(content, s, f, openings[o], t.barracks[j]));
            } else {
                assert(opened(content, s, f, openings[k - 1], t.barracks[j]));
            }
        }
    } else {
        assert(t.choices.take(n) =~= start.choices);
    }
}

proof fn lemma_barracks_stay(
    content: &Content,
    openings: Seq<Opening>,
    s: Scene,
    f: Faction,
    tick: u32,
    from: Point,
    start: Tech,
    j: int,
    k: int,
)
    requires
        0 <= j <= k,
    ensures
        ({
            let a = think::tech(content, openings, s, f, tick, from, start, j).barracks;
            let b = think::tech(content, openings, s, f, tick, from, start, k).barracks;
            a.len() <= b.len() && b.take(a.len() as int) == a
        }),
    decreases k,
{
    let a = think::tech(content, openings, s, f, tick, from, start, j).barracks;
    let b = think::tech(content, openings, s, f, tick, from, start, k).barracks;
    if j < k {
        lemma_barracks_stay(content, openings, s, f, tick, from, start, j, k - 1);
        let p = think::tech(content, openings, s, f, tick, from, start, k - 1).barracks;
        assert(b.take(a.len() as int) =~= p.take(a.len() as int));
    } else {
        assert(b.take(a.len() as int) =~= a);
    }
}

proof fn lemma_trainer(
    content: &Content,
    all: Seq<BuildingRow>,
    barracks: Seq<int>,
    u: int,
    k: int,
)
    requires
        0 <= k <= barracks.len(),
    ensures
        match think::trainer(content, all, barracks, u, k) {
            Some(b) => exists|j: int|
                k <= j < barracks.len() && #[trigger] barracks[j] == b && trains(
                    content,
                    all[b].def as int,
                    u,
                ) && forall|i: int|
                    k <= i < j ==> !trains(content, all[#[trigger] barracks[i]].def as int, u),
            None => forall|i: int|
                k <= i < barracks.len() ==> !trains(
                    content,
                    all[#[trigger] barracks[i]].def as int,
                    u,
                ),
        },
    decreases barracks.len() - k,
{
    if k < barracks.len() {
        lemma_trains(content, all[barracks[k]].def as int, u);
        if content.can_produce(all[barracks[k]].def as int, u) {
            assert(barracks[k] == barracks[k]);
        } else {
            lemma_trainer(content, all, barracks, u, k + 1);
            match think::trainer(content, all, barracks, u, k + 1) {
                Some(b) => {
                    let j = choose|j: int|
                        k + 1 <= j < barracks.len() && #[trigger] barracks[j] == b && trains(
                            content,
                            all[b].def as int,
                            u,
                        ) && forall|i: int|
                            k + 1 <= i < j ==> !trains(
                                content,
                                all[#[trigger] barracks[i]].def as int,
                                u,
                            );
                    assert(barracks[j] == b);
                },
                None => {},
            }
        }
    }
}

// ---- the parts of a decision ----------------------------------------------------

/// A decision before it opens anything, with the headquarters at `h`.
spec fn staffed(
    content: &Content,
    plan: StrategyDef,
    s: Scene,
    stock: Stockpiles,
    m: Mind,
    h: int,
) -> Tech {
    let mined = think::mining(content, s, m.me, s.units.len() as int);
    let bank = stock.of(m.me);
    match think::recruit(content, plan, s, m.me, s.buildings[h], bank) {
        Some(w) => Tech {
            budget: (bank - content.units@[w].mvp_alloy_cost) as u32,
            rng: m.rng,
            choices: mined.push(
                Choice::TrainWorker { at: s.buildings[h].entity, unit: w as usize },
            ),
            barracks: Seq::empty(),
        },
        None => Tech { budget: bank, rng: m.rng, choices: mined, barracks: Seq::empty() },
    }
}

/// A decision before it trains its army.
spec fn outfitted(
    content: &Content,
    plan: StrategyDef,
    s: Scene,
    stock: Stockpiles,
    m: Mind,
    tick: u32,
    h: int,
) -> Tech {
    think::tech(
        content,
        plan.barracks@,
        s,
        m.me,
        tick,
        s.buildings[h].pos,
        staffed(content, plan, s, stock, m, h),
        plan.barracks@.len() as int,
    )
}

/// How the parts of a decision lie in it.
proof fn lemma_parts(
    content: &Content,
    plan: StrategyDef,
    s: Scene,
    stock: Stockpiles,
    m: Mind,
    tick: u32,
) -> (h: int)
    requires
        content.buildings@.len() <= usize::MAX,
        content.units@.len() <= usize::MAX,
    ensures
        ({
            let p = think::plan_of(content, plan, s, stock, m, tick);
            let mined = think::mining(content, s, m.me, s.units.len() as int);
            let a = staffed(content, plan, s, stock, m, h);
            let t = outfitted(content, plan, s, stock, m, tick, h);
            let l = think::levy(content, plan, s.buildings, t.barracks, m.cursor, t.budget);
            let w = think::wave(content, plan, s, m.me, tick, m.next, t.rng);
            let levied = t.choices.len() + if l is Some {
                1int
            } else {
                0int
            };
            match think::seat(content, s.buildings, m.me, 0) {
                None => p.choices.len() == 0,
                Some(x) => {
                    &&& x == h
                    &&& first_seat(content, s.buildings, m.me, h)
                    &&& p.choices.len() == levied + if w is Some {
                        1int
                    } else {
                        0int
                    }
                    &&& p.choices.take(t.choices.len() as int) == t.choices
                    &&& a.choices.take(mined.len() as int) == mined
                    &&& p.choices.take(mined.len() as int) == mined
                    &&& l matches Some((b, u)) ==> p.choices[t.choices.len() as int]
                        == (Choice::TrainArmy { at: s.buildings[b].entity, unit: u as usize })
                    &&& w matches Some(c) ==> p.choices[levied] == c
                    &&& p.budget == t.budget - match l {
                        Some((b, u)) => content.units@[u].mvp_alloy_cost as int,
                        None => 0int,
                    }
                    &&& p.next == match w {
                        Some(c) => think::sum_of(tick, plan.attack_interval_ticks),
                        None => m.next,
                    }
                    &&& p.rng == match w {
                        Some(c) => spatial::state_after(t.rng, 2),
                        None => t.rng,
                    }
                },
            }
        }),
{
    let p = think::plan_of(content, plan, s, stock, m, tick);
    let mined = think::mining(content, s, m.me, s.units.len() as int);
    lemma_seat(content, s.buildings, m.me, 0);
    match think::seat(content, s.buildings, m.me, 0) {
        None => 0,
        Some(h) => {
            let a = staffed(content, plan, s, stock, m, h);
            let t = outfitted(content, plan, s, stock, m, tick, h);
            lemma_tech(
                content,
                plan.barracks@,
                s,
                m.me,
                tick,
                s.buildings[h].pos,
                a,
                plan.barracks@.len() as int,
            );
            assert(p.choices.take(t.choices.len() as int) =~= t.choices);
            assert(a.choices.take(mined.len() as int) =~= mined);
            assert(p.choices.take(mined.len() as int) =~= mined) by {
                assert forall|i: int| 0 <= i < mined.len() implies p.choices[i] == mined[i] by {
                    assert(t.choices.take(a.choices.len() as int)[i] == a.choices[i]);
                    assert(p.choices.take(t.choices.len() as int)[i] == t.choices[i]);
                }
            }
            h
        },
    }
}

/// A decision is no shorter than the part of it that mines.
proof fn lemma_less(
    content: &Content,
    plan: StrategyDef,
    s: Scene,
    stock: Stockpiles,
    m: Mind,
    tick: u32,
)
    requires
        content.buildings@.len() <= usize::MAX,
        content.units@.len() <= usize::MAX,
        think::seat(content, s.buildings, m.me, 0) is Some,
    ensures
        think::mining(content, s, m.me, s.units.len() as int).len() <= think::plan_of(
            content,
            plan,
            s,
            stock,
            m,
            tick,
        ).choices.len(),
{
    let h = lemma_parts(content, plan, s, stock, m, tick);
    let a = staffed(content, plan, s, stock, m, h);
    lemma_tech(
        content,
        plan.barracks@,
        s,
        m.me,
        tick,
        s.buildings[h].pos,
        a,
        plan.barracks@.len() as int,
    );
}

/// Where in a decision a choice stands says what it is.
proof fn lemma_kinds(
    content: &Content,
    plan: StrategyDef,
    s: Scene,
    stock: Stockpiles,
    m: Mind,
    tick: u32,
    i: int,
)
    requires
        content.buildings@.len() <= usize::MAX,
        content.units@.len() <= usize::MAX,
        think::seat(content, s.buildings, m.me, 0) is Some,
        0 <= i < think::plan_of(content, plan, s, stock, m, tick).choices.len(),
    ensures
        ({
            let h = think::seat(content, s.buildings, m.me, 0)->0;
            let c = think::plan_of(content, plan, s, stock, m, tick).choices[i];
            let mined = think::mining(content, s, m.me, s.units.len() as int).len();
            let a = staffed(content, plan, s, stock, m, h).choices.len();
            let t = outfitted(content, plan, s, stock, m, tick, h);
            let l = think::levy(content, plan, s.buildings, t.barracks, m.cursor, t.budget);
            &&& mined <= a <= t.choices.len()
            &&& i < mined <==> c is Gather
            &&& mined <= i < a <==> c is TrainWorker
            &&& a <= i < t.choices.len() <==> c is Place
            &&& i == t.choices.len() && l is Some <==> c is TrainArmy
            &&& c is Attack ==> i == think::plan_of(
                content,
                plan,
                s,
                stock,
                m,
                tick,
            ).choices.len() - 1
        }),
{
    let h = lemma_parts(content, plan, s, stock, m, tick);
    let p = think::plan_of(content, plan, s, stock, m, tick);
    let mined = think::mining(content, s, m.me, s.units.len() as int);
    let a = staffed(content, plan, s, stock, m, h);
    let t = outfitted(content, plan, s, stock, m, tick, h);
    lemma_mining(content, s, m.me, s.units.len() as int);
    lemma_tech(
        content,
        plan.barracks@,
        s,
        m.me,
        tick,
        s.buildings[h].pos,
        a,
        plan.barracks@.len() as int,
    );
    if i < t.choices.len() {
        assert(p.choices.take(t.choices.len() as int)[i] == t.choices[i]);
        if i < a.choices.len() {
            assert(t.choices.take(a.choices.len() as int)[i] == a.choices[i]);
            if i < mined.len() {
                assert(a.choices.take(mined.len() as int)[i] == mined[i]);
                let who = s.units.take(s.units.len() as int).filter(
                    |u: Seen| idle_miner(content, m.me, u),
                );
                assert(sent_mining(s.nodes, who[i], mined[i]));
            }
        } else {
            assert(t.choices[i] is Place);
        }
    }
}

// ---- laws of a decision ---------------------------------------------------------

/// Every idle gatherer of its own a commander sends mining, and nobody else, in
/// the order of the snapshot and before anything else it decides: each to the
/// deposit nearest to it. Where there is no deposit, or no headquarters, nobody
/// is sent.
pub proof fn idle_gatherers_go_mining(
    content: &Content,
    plan: StrategyDef,
    s: Scene,
    stock: Stockpiles,
    m: Mind,
    tick: u32,
    i: int,
)
    requires
        content.buildings@.len() <= usize::MAX,
        content.units@.len() <= usize::MAX,
    ensures
        ({
            let all = think::plan_of(content, plan, s, stock, m, tick).choices;
            let who = idle_miners(content, s, m.me);
            let able = s.nodes.len() > 0 && exists|h: int| first_seat(content, s.buildings, m.me, h);
            &&& able && 0 <= i < who.len() ==> i < all.len() && sent_mining(
                s.nodes,
                who[i],
                all[i],
            )
            &&& 0 <= i < all.len() && all[i] is Gather ==> able && i < who.len()
        }),
{
    let n = s.units.len() as int;
    let all = think::plan_of(content, plan, s, stock, m, tick).choices;
    let mined = think::mining(content, s, m.me, n);
    let who = idle_miners(content, s, m.me);
    assert(s.units.take(n) =~= s.units);
    lemma_seat(content, s.buildings, m.me, 0);
    match think::seat(content, s.buildings, m.me, 0) {
        Some(h) => {
            assert(first_seat(content, s.buildings, m.me, h));
            assert(all.take(mined.len() as int) == mined) by {
                lemma_parts(content, plan, s, stock, m, tick);
            }
            if 0 <= i < all.len() {
                assert(i < mined.len() <==> all[i] is Gather) by {
                    lemma_kinds(content, plan, s, stock, m, tick, i);
                }
            }
            assert(mined.len() <= all.len()) by {
                lemma_less(content, plan, s, stock, m, tick);
            }
            lemma_mining(content, s, m.me, n);
            if 0 <= i < mined.len() {
                assert(all.take(mined.len() as int)[i] == mined[i]);
                assert(sent_mining(s.nodes, who[i], mined[i]));
            }
        },
        None => {
            assert(all.len() == 0);
            assert(!exists|h: int| first_seat(content, s.buildings, m.me, h));
        },
    }
}

/// A worker is only ordered at the commander's own headquarters, while nothing is
/// in its queue, fewer gatherers live than the script wants, and it can be paid.
/// It is the first gatherer in the list of what the headquarters makes.
pub proof fn a_worker_is_ordered_at_home(
    content: &Content,
    plan: StrategyDef,
    s: Scene,
    stock: Stockpiles,
    m: Mind,
    tick: u32,
    i: int,
)
    requires
        content.buildings@.len() <= usize::MAX,
        content.units@.len() <= usize::MAX,
        s.units.len() <= u32::MAX,
        0 <= i < think::plan_of(content, plan, s, stock, m, tick).choices.len(),
        think::plan_of(content, plan, s, stock, m, tick).choices[i] is TrainWorker,
    ensures
        ({
            let c = think::plan_of(content, plan, s, stock, m, tick).choices[i];
            exists|h: int, j: int|
                #![trigger s.buildings[h], content.buildings@[s.buildings[h].def as int].produces@[j]]
                {
                    &&& first_seat(content, s.buildings, m.me, h)
                    &&& first_miner_made(
                        content,
                        s.buildings[h].def as int,
                        c->TrainWorker_unit as int,
                        j,
                    )
                    &&& c->TrainWorker_at == s.buildings[h].entity
                    &&& s.buildings[h].queued == 0
                    &&& miner_count(content, s, m.me) < plan.worker_target
                    &&& content.units@[c->TrainWorker_unit as int].mvp_alloy_cost <= stock.of(m.me)
                }
        }),
{
    let h = lemma_parts(content, plan, s, stock, m, tick);
    let n = s.units.len() as int;
    let all = think::plan_of(content, plan, s, stock, m, tick).choices;
    let d = s.buildings[h].def as int;
    lemma_kinds(content, plan, s, stock, m, tick, i);
    lemma_first_miner(content, d, 0);
    lemma_counted(content, s.units, m.me, n);
    assert(s.units.take(n) =~= s.units);
    let a = staffed(content, plan, s, stock, m, h);
    let t = outfitted(content, plan, s, stock, m, tick, h);
    lemma_tech(
        content,
        plan.barracks@,
        s,
        m.me,
        tick,
        s.buildings[h].pos,
        a,
        plan.barracks@.len() as int,
    );
    assert(t.choices.take(a.choices.len() as int)[i] == a.choices[i]);
    assert(all.take(t.choices.len() as int)[i] == t.choices[i]);
    let w = think::recruit(content, plan, s, m.me, s.buildings[h], stock.of(m.me))->0;
    let j = choose|j: int| first_miner_made(content, d, w, j);
    assert(content.buildings@[d].produces@[j] == content.buildings@[d].produces@[j]);
}

/// Where fewer gatherers live than the script wants, the headquarters has nothing
/// in its queue and what it would make first can be paid, a worker is ordered.
pub proof fn missing_workers_are_ordered(
    content: &Content,
    plan: StrategyDef,
    s: Scene,
    stock: Stockpiles,
    m: Mind,
    tick: u32,
    h: int,
    w: int,
    j: int,
)
    requires
        content.buildings@.len() <= usize::MAX,
        content.units@.len() <= usize::MAX,
        s.units.len() <= u32::MAX,
        first_seat(content, s.buildings, m.me, h),
        first_miner_made(content, s.buildings[h].def as int, w, j),
        s.buildings[h].queued == 0,
        miner_count(content, s, m.me) < plan.worker_target,
        content.units@[w].mvp_alloy_cost <= stock.of(m.me),
    ensures
        exists|i: int|
            0 <= i < think::plan_of(content, plan, s, stock, m, tick).choices.len()
                && #[trigger] think::plan_of(content, plan, s, stock, m, tick).choices[i] == (
            Choice::TrainWorker { at: s.buildings[h].entity, unit: w as usize }),
{
    let x = lemma_parts(content, plan, s, stock, m, tick);
    lemma_seat(content, s.buildings, m.me, 0);
    assert(x == h) by {
        if x < h {
            assert(s.buildings[x].faction == m.me && decides(content, s.buildings[x]));
        }
        if h < x {
            assert(s.buildings[h].faction == m.me && decides(content, s.buildings[h]));
        }
    }
    let n = s.units.len() as int;
    let all = think::plan_of(content, plan, s, stock, m, tick).choices;
    let d = s.buildings[h].def as int;
    lemma_first_miner(content, d, 0);
    lemma_counted(content, s.units, m.me, n);
    assert(s.units.take(n) =~= s.units);
    assert(unit_called(content, content.buildings@[d].produces@[j]@, w));
    match think::first_gatherer(content, content.buildings@[d].produces@, 0) {
        Some(v) => {
            let k = choose|k: int| first_miner_made(content, d, v, k);
            lemma_miner_unique(content, d, w, j, v, k);
        },
        None => {
            assert(!content.units@[w].gathers);
        },
    }
    let a = staffed(content, plan, s, stock, m, h);
    let t = outfitted(content, plan, s, stock, m, tick, h);
    lemma_tech(
        content,
        plan.barracks@,
        s,
        m.me,
        tick,
        s.buildings[h].pos,
        a,
        plan.barracks@.len() as int,
    );
    let i = a.choices.len() - 1;
    assert(t.choices.take(a.choices.len() as int)[i] == a.choices[i]);
    assert(all.take(t.choices.len() as int)[i] == t.choices[i]);
    assert(all[i] == (Choice::TrainWorker { at: s.buildings[h].entity, unit: w as usize }));
}

/// A commander places only what an opening of its script asks for, once its tick
/// has come and while it has no such building: from its own headquarters, as far
/// off as the opening says, and each in a direction of its own draw.
pub proof fn what_is_placed_was_scripted(
    content: &Content,
    plan: StrategyDef,
    s: Scene,
    stock: Stockpiles,
    m: Mind,
    tick: u32,
    i: int,
)
    requires
        content.buildings@.len() <= usize::MAX,
        content.units@.len() <= usize::MAX,
        0 <= i < think::plan_of(content, plan, s, stock, m, tick).choices.len(),
        think::plan_of(content, plan, s, stock, m, tick).choices[i] is Place,
    ensures
        ({
            let all = think::plan_of(content, plan, s, stock, m, tick).choices;
            let before = all.take(i).filter(|c: Choice| c is Place).len();
            let c = all[i];
            &&& exists|o: int|
                0 <= o < plan.barracks@.len() && opens(
                    content,
                    s,
                    m.me,
                    tick,
                    #[trigger] plan.barracks@[o],
                    c,
                )
            &&& exists|h: int|
                first_seat(content, s.buildings, m.me, h) && c->from == (
                #[trigger] s.buildings[h]).pos
            &&& c->turn == spatial::unit_f32(spatial::draw(m.rng, before))
        }),
{
    let h = lemma_parts(content, plan, s, stock, m, tick);
    lemma_kinds(content, plan, s, stock, m, tick, i);
    let all = think::plan_of(content, plan, s, stock, m, tick).choices;
    let a = staffed(content, plan, s, stock, m, h);
    let t = outfitted(content, plan, s, stock, m, tick, h);
    lemma_tech(
        content,
        plan.barracks@,
        s,
        m.me,
        tick,
        s.buildings[h].pos,
        a,
        plan.barracks@.len() as int,
    );
    assert(all.take(t.choices.len() as int)[i] == t.choices[i]);
    assert(s.buildings[h] == s.buildings[h]);
    lemma_place_count(content, plan, s, stock, m, tick, i);
}

proof fn lemma_place_count(
    content: &Content,
    plan: StrategyDef,
    s: Scene,
    stock: Stockpiles,
    m: Mind,
    tick: u32,
    i: int,
)
    requires
        content.buildings@.len() <= usize::MAX,
        content.units@.len() <= usize::MAX,
        think::seat(content, s.buildings, m.me, 0) is Some,
        0 <= i <= outfitted(
            content,
            plan,
            s,
            stock,
            m,
            tick,
            think::seat(content, s.buildings, m.me, 0)->0,
        ).choices.len(),
    ensures
        ({
            let h = think::seat(content, s.buildings, m.me, 0)->0;
            let all = think::plan_of(content, plan, s, stock, m, tick).choices;
            let a = staffed(content, plan, s, stock, m, h).choices.len();
            all.take(i).filter(|c: Choice| c is Place).len() == if i < a {
                0int
            } else {
                i - a
            }
        }),
    decreases i,
{
    reveal(Seq::filter);
    let h = lemma_parts(content, plan, s, stock, m, tick);
    let all = think::plan_of(content, plan, s, stock, m, tick).choices;
    if i > 0 {
        lemma_place_count(content, plan, s, stock, m, tick, i - 1);
        lemma_kinds(content, plan, s, stock, m, tick, i - 1);
        assert(all.take(i).drop_last() =~= all.take(i - 1));
    }
}

/// An opening that is due goes up: what its commander does not build, and does
/// not have, it could not pay with what is left.
pub proof fn openings_that_are_due_go_up(
    content: &Content,
    plan: StrategyDef,
    s: Scene,
    stock: Stockpiles,
    m: Mind,
    tick: u32,
    o: int,
    d: int,
)
    requires
        content.buildings@.len() <= usize::MAX,
        content.units@.len() <= usize::MAX,
        exists|h: int| first_seat(content, s.buildings, m.me, h),
        0 <= o < plan.barracks@.len(),
        building_called(content, plan.barracks@[o].building@, d),
        has_none(s.buildings, m.me, d),
        plan.barracks@[o].at_tick <= tick,
        content.buildings@[d].alloy_cost <= think::plan_of(
            content,
            plan,
            s,
            stock,
            m,
            tick,
        ).budget,
    ensures
        exists|i: int|
            0 <= i < think::plan_of(content, plan, s, stock, m, tick).choices.len() && opens(
                content,
                s,
                m.me,
                tick,
                plan.barracks@[o],
                #[trigger] think::plan_of(content, plan, s, stock, m, tick).choices[i],
            ),
{
    let h = lemma_parts(content, plan, s, stock, m, tick);
    lemma_seat(content, s.buildings, m.me, 0);
    let all = think::plan_of(content, plan, s, stock, m, tick).choices;
    let a = staffed(content, plan, s, stock, m, h);
    let t = outfitted(content, plan, s, stock, m, tick, h);
    lemma_tech(
        content,
        plan.barracks@,
        s,
        m.me,
        tick,
        s.buildings[h].pos,
        a,
        plan.barracks@.len() as int,
    );
    let i = choose|i: int|
        a.choices.len() <= i < t.choices.len() && opens(
            content,
            s,
            m.me,
            tick,
            plan.barracks@[o],
            #[trigger] t.choices[i],
        );
    assert(all.take(t.choices.len() as int)[i] == t.choices[i]);
    assert(opens(content, s, m.me, tick, plan.barracks@[o], all[i]));
}

/// The army grows by the unit that the build order names, at a building of the
/// commander's own that an opening asked for, that makes the unit and has nothing
/// in its queue; and the order is then one unit further. Otherwise the order
/// stands where it stood.
pub proof fn the_army_follows_its_order(
    content: &Content,
    plan: StrategyDef,
    s: Scene,
    stock: Stockpiles,
    m: Mind,
    tick: u32,
    i: int,
)
    requires
        content.buildings@.len() <= usize::MAX,
        content.units@.len() <= usize::MAX,
        0 <= i < think::plan_of(content, plan, s, stock, m, tick).choices.len(),
    ensures
        ({
            let p = think::plan_of(content, plan, s, stock, m, tick);
            let c = p.choices[i];
            c is TrainArmy ==> {
                let u = c->TrainArmy_unit as int;
                &&& script::army_unit(plan.army@, m.cursor as int) matches Some(id)
                    && unit_called(content, id, u)
                &&& exists|b: int, o: int|
                    #![trigger s.buildings[b], plan.barracks@[o]]
                    {
                        &&& 0 <= b < s.buildings.len()
                        &&& 0 <= o < plan.barracks@.len()
                        &&& opened(content, s, m.me, plan.barracks@[o], b)
                        &&& s.buildings[b].faction == m.me
                        &&& s.buildings[b].queued == 0
                        &&& c->TrainArmy_at == s.buildings[b].entity
                        &&& trains(content, s.buildings[b].def as int, u)
                    }
                &&& p.cursor == if m.cursor == u32::MAX {
                    0
                } else {
                    m.cursor + 1
                }
            }
        }),
{
    let p = think::plan_of(content, plan, s, stock, m, tick);
    if p.choices[i] is TrainArmy {
        let h = lemma_parts(content, plan, s, stock, m, tick);
        lemma_kinds(content, plan, s, stock, m, tick, i);
        let a = staffed(content, plan, s, stock, m, h);
        let t = outfitted(content, plan, s, stock, m, tick, h);
        lemma_tech(
            content,
            plan.barracks@,
            s,
            m.me,
            tick,
            s.buildings[h].pos,
            a,
            plan.barracks@.len() as int,
        );
        let id = script::army_unit(plan.army@, m.cursor as int)->0;
        lemma_unit_called(content, id);
        let u = think::next_unit(content, plan, m.cursor)->0;
        lemma_trainer(content, s.buildings, t.barracks, u, 0);
        let b = think::trainer(content, s.buildings, t.barracks, u, 0)->0;
        let j = choose|j: int|
            0 <= j < t.barracks.len() && #[trigger] t.barracks[j] == b && trains(
                content,
                s.buildings[b].def as int,
                u,
            ) && forall|i: int|
                0 <= i < j ==> !trains(
                    content,
                    s.buildings[#[trigger] t.barracks[i]].def as int,
                    u,
                );
        let o = choose|o: int|
            0 <= o < plan.barracks@.len() && opened(
                content,
                s,
                m.me,
                #[trigger] plan.barracks@[o],
                #[trigger] t.barracks[j],
            );
        let d = choose|d: int|
            #[trigger] building_called(content, plan.barracks@[o].building@, d) && first_own(
                s.buildings,
                m.me,
                d,
                b,
            );
        assert(s.buildings[b].faction == m.me);
        assert(opened(content, s, m.me, plan.barracks@[o], b));
    }
}

/// A decision that trains nobody for the army leaves the build order where it is.
pub proof fn an_order_waits_for_its_unit(
    content: &Content,
    plan: StrategyDef,
    s: Scene,
    stock: Stockpiles,
    m: Mind,
    tick: u32,
)
    requires
        content.buildings@.len() <= usize::MAX,
        content.units@.len() <= usize::MAX,
        forall|i: int|
            0 <= i < think::plan_of(content, plan, s, stock, m, tick).choices.len() ==> !(
            #[trigger] think::plan_of(content, plan, s, stock, m, tick).choices[i] is TrainArmy),
    ensures
        think::plan_of(content, plan, s, stock, m, tick).cursor == m.cursor,
{
    let h = lemma_parts(content, plan, s, stock, m, tick);
    let p = think::plan_of(content, plan, s, stock, m, tick);
    if think::seat(content, s.buildings, m.me, 0) is Some {
        let t = outfitted(content, plan, s, stock, m, tick, h);
        let k = t.choices.len() as int;
        if k < p.choices.len() {
            assert(!(p.choices[k] is TrainArmy));
        }
    }
}

/// The next unit of the army is trained as soon as it can be: where the first
/// opening whose building stands and makes the unit has that building idle, it is
/// ordered there, or what is left could not pay for it.
pub proof fn the_army_grows_when_it_can(
    content: &Content,
    plan: StrategyDef,
    s: Scene,
    stock: Stockpiles,
    m: Mind,
    tick: u32,
    u: int,
    o: int,
    d: int,
    b: int,
)
    requires
        content.buildings@.len() <= usize::MAX,
        content.units@.len() <= usize::MAX,
        exists|h: int| first_seat(content, s.buildings, m.me, h),
        script::army_unit(plan.army@, m.cursor as int) matches Some(id) && unit_called(
            content,
            id,
            u,
        ),
        0 <= o < plan.barracks@.len(),
        building_called(content, plan.barracks@[o].building@, d),
        first_own(s.buildings, m.me, d, b),
        trains(content, d, u),
        forall|q: int, e: int|
            0 <= q < o && opened(content, s, m.me, #[trigger] plan.barracks@[q], e) ==> !trains(
                content,
                (#[trigger] s.buildings[e]).def as int,
                u,
            ),
        s.buildings[b].queued == 0,
        content.units@[u].mvp_alloy_cost <= think::plan_of(
            content,
            plan,
            s,
            stock,
            m,
            tick,
        ).budget,
    ensures
        exists|i: int|
            0 <= i < think::plan_of(content, plan, s, stock, m, tick).choices.len()
                && #[trigger] think::plan_of(content, plan, s, stock, m, tick).choices[i] == (
            Choice::TrainArmy { at: s.buildings[b].entity, unit: u as usize }),
{
    let h = lemma_parts(content, plan, s, stock, m, tick);
    lemma_seat(content, s.buildings, m.me, 0);
    let n = plan.barracks@.len() as int;
    let p = think::plan_of(content, plan, s, stock, m, tick);
    let a = staffed(content, plan, s, stock, m, h);
    let t = outfitted(content, plan, s, stock, m, tick, h);
    let from = s.buildings[h].pos;
    let earlier = think::tech(content, plan.barracks@, s, m.me, tick, from, a, o).barracks;
    let upto = think::tech(content, plan.barracks@, s, m.me, tick, from, a, o + 1).barracks;
    lemma_tech(content, plan.barracks@, s, m.me, tick, from, a, o);
    lemma_building_called(content, plan.barracks@[o].building@);
    lemma_own(s.buildings, m.me, d, 0);
    let x = think::owned(s.buildings, m.me, d, 0)->0;
    assert(x == b) by {
        if think::owned(s.buildings, m.me, d, 0) is None {
            assert(!(s.buildings[b].faction == m.me && s.buildings[b].def == d));
        }
        if x < b {
            assert(!(s.buildings[x].faction == m.me && s.buildings[x].def == d));
        }
        if b < x {
            assert(!(s.buildings[b].faction == m.me && s.buildings[b].def == d));
        }
    }
    assert(upto == earlier.push(b));
    lemma_barracks_stay(content, plan.barracks@, s, m.me, tick, from, a, o + 1, n);
    let last = earlier.len() as int;
    assert(t.barracks[last] == b) by {
        assert(t.barracks.take(upto.len() as int)[last] == upto[last]);
    }
    assert forall|j: int| 0 <= j < last implies !trains(
        content,
        s.buildings[#[trigger] t.barracks[j]].def as int,
        u,
    ) by {
        assert(t.barracks.take(upto.len() as int)[j] == upto[j]);
        assert(earlier[j] == t.barracks[j]);
        let q = choose|q: int|
            0 <= q < o && opened(
                content,
                s,
                m.me,
                #[trigger] plan.barracks@[q],
                #[trigger] earlier[j],
            );
        assert(opened(content, s, m.me, plan.barracks@[q], t.barracks[j]));
    }
    let id = script::army_unit(plan.army@, m.cursor as int)->0;
    lemma_unit_called(content, id);
    assert(think::next_unit(content, plan, m.cursor) == Some(u));
    lemma_trainer(content, s.buildings, t.barracks, u, 0);
    assert(think::trainer(content, s.buildings, t.barracks, u, 0) == Some(b)) by {
        match think::trainer(content, s.buildings, t.barracks, u, 0) {
            Some(y) => {
                let j = choose|j: int|
                    0 <= j < t.barracks.len() && #[trigger] t.barracks[j] == y && trains(
                        content,
                        s.buildings[y].def as int,
                        u,
                    ) && forall|i: int|
                        0 <= i < j ==> !trains(
                            content,
                            s.buildings[#[trigger] t.barracks[i]].def as int,
                            u,
                        );
                if j < last {
                    assert(!trains(content, s.buildings[t.barracks[j]].def as int, u));
                } else if last < j {
                    assert(!trains(content, s.buildings[t.barracks[last]].def as int, u));
                }
            },
            None => {
                assert(!trains(content, s.buildings[t.barracks[last]].def as int, u));
            },
        }
    }
    let k = t.choices.len() as int;
    assert(p.choices[k] == (Choice::TrainArmy { at: s.buildings[b].entity, unit: u as usize }));
}

/// Is there a building of the other side whose loss decides the match, and is the
/// one at `e` the first?
pub open spec fn first_enemy_seat(content: &Content, s: Scene, f: Faction, e: int) -> bool {
    &&& 0 <= e < s.buildings.len()
    &&& s.buildings[e].faction != f
    &&& decides(content, s.buildings[e])
    &&& forall|i: int|
        0 <= i < e ==> !((#[trigger] s.buildings[i]).faction != f && decides(
            content,
            s.buildings[i],
        ))
}

proof fn lemma_enemy(content: &Content, s: Scene, f: Faction)
    ensures
        match think::seat(content, s.buildings, f.foe(), 0) {
            Some(e) => first_enemy_seat(content, s, f, e),
            None => forall|i: int|
                0 <= i < s.buildings.len() ==> !((#[trigger] s.buildings[i]).faction != f
                    && decides(content, s.buildings[i])),
        },
{
    lemma_seat(content, s.buildings, f.foe(), 0);
}

/// An attack aims at a building of the enemy's whose loss decides the match, and
/// at nothing else. Everything of the commander's that can do harm goes, and
/// nothing else: at least as much as the script waits for, and not before the
/// tick that the last attack set. The next one waits for the script's interval.
pub proof fn attacks_aim_at_the_enemy(
    content: &Content,
    plan: StrategyDef,
    s: Scene,
    stock: Stockpiles,
    m: Mind,
    tick: u32,
    i: int,
)
    requires
        content.buildings@.len() <= usize::MAX,
        content.units@.len() <= usize::MAX,
        s.units.len() <= u32::MAX,
        0 <= i < think::plan_of(content, plan, s, stock, m, tick).choices.len(),
        think::plan_of(content, plan, s, stock, m, tick).choices[i] is Attack,
    ensures
        ({
            let p = think::plan_of(content, plan, s, stock, m, tick);
            let c = p.choices[i];
            let placed = p.choices.filter(|c: Choice| c is Place).len();
            &&& exists|e: int|
                first_enemy_seat(content, s, m.me, e) && c->toward == (
                #[trigger] s.buildings[e]).pos
            &&& c->force == host(content, s, m.me)
            &&& c->force.len() >= plan.attack_at_army
            &&& c->spread == plan.attack_spread
            &&& c->x == spatial::unit_f32(spatial::draw(m.rng, placed))
            &&& c->y == spatial::unit_f32(spatial::draw(m.rng, placed + 1))
            &&& m.next <= tick
            &&& tick + plan.attack_interval_ticks <= u32::MAX ==> p.next == tick
                + plan.attack_interval_ticks
            &&& i == p.choices.len() - 1
        }),
{
    let h = lemma_parts(content, plan, s, stock, m, tick);
    lemma_kinds(content, plan, s, stock, m, tick, i);
    let p = think::plan_of(content, plan, s, stock, m, tick);
    let n = s.units.len() as int;
    lemma_host(content, s.units, m.me, n);
    assert(s.units.take(n) =~= s.units);
    lemma_enemy(content, s, m.me);
    let a = staffed(content, plan, s, stock, m, h);
    let t = outfitted(content, plan, s, stock, m, tick, h);
    lemma_tech(
        content,
        plan.barracks@,
        s,
        m.me,
        tick,
        s.buildings[h].pos,
        a,
        plan.barracks@.len() as int,
    );
    lemma_all_places(content, plan, s, stock, m, tick);
    let placed = p.choices.filter(|c: Choice| c is Place).len();
    let l = think::levy(content, plan, s.buildings, t.barracks, m.cursor, t.budget);
    let w = think::wave(content, plan, s, m.me, tick, m.next, t.rng);
    assert(w is Some);
    spatial::lemma_state_after_adds(m.rng, placed, 1);
    spatial::lemma_state_after_adds(m.rng, placed, 2);
    let e = think::seat(content, s.buildings, m.me.foe(), 0)->0;
    assert(s.buildings[e].pos == p.choices[i]->toward);
}

proof fn lemma_all_places(
    content: &Content,
    plan: StrategyDef,
    s: Scene,
    stock: Stockpiles,
    m: Mind,
    tick: u32,
)
    requires
        content.buildings@.len() <= usize::MAX,
        content.units@.len() <= usize::MAX,
        think::seat(content, s.buildings, m.me, 0) is Some,
    ensures
        ({
            let h = think::seat(content, s.buildings, m.me, 0)->0;
            let a = staffed(content, plan, s, stock, m, h);
            let t = outfitted(content, plan, s, stock, m, tick, h);
            think::plan_of(content, plan, s, stock, m, tick).choices.filter(
                |c: Choice| c is Place,
            ).len() == t.choices.len() - a.choices.len()
        }),
{
    reveal(Seq::filter);
    let h = lemma_parts(content, plan, s, stock, m, tick);
    let all = think::plan_of(content, plan, s, stock, m, tick).choices;
    let a = staffed(content, plan, s, stock, m, h);
    let t = outfitted(content, plan, s, stock, m, tick, h);
    lemma_tech(
        content,
        plan.barracks@,
        s,
        m.me,
        tick,
        s.buildings[h].pos,
        a,
        plan.barracks@.len() as int,
    );
    let k = t.choices.len() as int;
    lemma_place_count(content, plan, s, stock, m, tick, k);
    lemma_no_more_places(all, k, all.len() as int);
}

proof fn lemma_no_more_places(all: Seq<Choice>, k: int, n: int)
    requires
        0 <= k <= n <= all.len(),
        forall|i: int| k <= i < n ==> !(#[trigger] all[i] is Place),
    ensures
        all.take(n).filter(|c: Choice| c is Place) == all.take(k).filter(|c: Choice| c is Place),
        n == all.len() ==> all.filter(|c: Choice| c is Place) == all.take(k).filter(
            |c: Choice| c is Place,
        ),
    decreases n - k,
{
    reveal(Seq::filter);
    if k < n {
        lemma_no_more_places(all, k, n - 1);
        assert(all.take(n).drop_last() =~= all.take(n - 1));
        assert(!(all[n - 1] is Place));
    }
    assert(all.take(all.len() as int) =~= all);
}

/// An army that is large enough attacks when its tick has come and the enemy
/// still has a building whose loss decides the match; otherwise no attack goes
/// out, and the tick of the next one stays.
pub proof fn an_attack_goes_out_when_it_can(
    content: &Content,
    plan: StrategyDef,
    s: Scene,
    stock: Stockpiles,
    m: Mind,
    tick: u32,
)
    requires
        content.buildings@.len() <= usize::MAX,
        content.units@.len() <= usize::MAX,
        s.units.len() <= u32::MAX,
    ensures
        ({
            let p = think::plan_of(content, plan, s, stock, m, tick);
            let able = (exists|h: int| first_seat(content, s.buildings, m.me, h)) && (exists|e: int|
                first_enemy_seat(content, s, m.me, e)) && host(content, s, m.me).len()
                >= plan.attack_at_army && m.next <= tick;
            &&& able ==> p.choices.len() > 0 && p.choices.last() is Attack
            &&& !able ==> p.next == m.next && forall|i: int|
                0 <= i < p.choices.len() ==> !(#[trigger] p.choices[i] is Attack)
        }),
{
    let h = lemma_parts(content, plan, s, stock, m, tick);
    let p = think::plan_of(content, plan, s, stock, m, tick);
    let n = s.units.len() as int;
    lemma_seat(content, s.buildings, m.me, 0);
    lemma_host(content, s.units, m.me, n);
    assert(s.units.take(n) =~= s.units);
    lemma_enemy(content, s, m.me);
    if think::seat(content, s.buildings, m.me, 0) is Some {
        let t = outfitted(content, plan, s, stock, m, tick, h);
        assert(first_seat(content, s.buildings, m.me, h));
        match think::seat(content, s.buildings, m.me.foe(), 0) {
            Some(e) => {
                assert(first_enemy_seat(content, s, m.me, e));
            },
            None => {
                assert(!exists|e: int| first_enemy_seat(content, s, m.me, e));
            },
        }
        let w = think::wave(content, plan, s, m.me, tick, m.next, t.rng);
        if w is None {
            assert forall|i: int| 0 <= i < p.choices.len() implies !(
            #[trigger] p.choices[i] is Attack) by {
                lemma_kinds(content, plan, s, stock, m, tick, i);
            }
        }
    }
}

// ---- the snapshot a decision is taken on --------------------------------------------

proof fn lemma_sorted_buildings(s: Scene, b: int) -> (p: int)
    requires
        s.buildings.len() <= usize::MAX,
        0 <= b < s.buildings.len(),
    ensures
        0 <= p < think::sorted(s).buildings.len(),
        think::sorted(s).buildings[p] == s.buildings[b],
{
    let keys = think::building_keys(s.buildings);
    let o = turns::turns(keys);
    turns::everybody_gets_a_turn(keys);
    turns::lemma_has_turn(keys, o, keys.len() as int, b as usize);
    let p = choose|p: int| 0 <= p < keys.len() && #[trigger] o[p] == b as usize;
    p
}

/// A commander looks at the world by ascending name: every building, unit and
/// deposit of the snapshot is there once, as it was, and in that order.
pub proof fn a_snapshot_is_put_in_order(s: Scene, p: int, q: int)
    requires
        s.units.len() <= usize::MAX,
        s.buildings.len() <= usize::MAX,
        s.nodes.len() <= usize::MAX,
    ensures
        ({
            let t = think::sorted(s);
            &&& t.units.len() == s.units.len()
            &&& t.buildings.len() == s.buildings.len()
            &&& t.nodes.len() == s.nodes.len()
            &&& 0 <= p < q < t.units.len() ==> t.units[p].entity.bits <= t.units[q].entity.bits
            &&& 0 <= p < q < t.buildings.len() ==> t.buildings[p].entity.bits
                <= t.buildings[q].entity.bits
            &&& 0 <= p < q < t.nodes.len() ==> t.nodes[p].entity.bits <= t.nodes[q].entity.bits
            &&& 0 <= p < t.buildings.len() ==> s.buildings.contains(t.buildings[p])
            &&& 0 <= p < s.buildings.len() ==> t.buildings.contains(s.buildings[p])
            &&& 0 <= p < t.nodes.len() ==> s.nodes.contains(t.nodes[p])
            &&& 0 <= p < s.nodes.len() ==> t.nodes.contains(s.nodes[p])
            &&& 0 <= p < t.units.len() ==> exists|i: int|
                0 <= i < s.units.len() && same_unit(s, #[trigger] s.units[i], t, t.units[p])
            &&& 0 <= p < s.units.len() ==> exists|i: int|
                0 <= i < t.units.len() && same_unit(s, s.units[p], t, #[trigger] t.units[i])
        }),
{
    let t = think::sorted(s);
    let (ku, kb, kn) = (
        think::unit_keys(s.units),
        think::building_keys(s.buildings),
        think::node_keys(s.nodes),
    );
    let (ou, ob, on) = (turns::turns(ku), turns::turns(kb), turns::turns(kn));
    turns::everybody_gets_a_turn(ku);
    turns::everybody_gets_a_turn(kb);
    turns::everybody_gets_a_turn(kn);
    if 0 <= p < q < t.units.len() {
        assert(ku[ou[p] as int] <= ku[ou[q] as int]);
    }
    if 0 <= p < q < t.buildings.len() {
        assert(kb[ob[p] as int] <= kb[ob[q] as int]);
    }
    if 0 <= p < q < t.nodes.len() {
        assert(kn[on[p] as int] <= kn[on[q] as int]);
    }
    if 0 <= p < t.buildings.len() {
        assert(s.buildings[ob[p] as int] == t.buildings[p]);
        let x = lemma_sorted_buildings(s, p);
        assert(t.buildings[x] == s.buildings[p]);
    }
    if 0 <= p < t.nodes.len() {
        assert(s.nodes[on[p] as int] == t.nodes[p]);
        turns::lemma_has_turn(kn, on, kn.len() as int, p as usize);
        let x = choose|x: int| 0 <= x < kn.len() && #[trigger] on[x] == p as usize;
        assert(t.nodes[x] == s.nodes[p]);
    }
    if 0 <= p < t.units.len() {
        lemma_same_unit(s, p);
        assert(same_unit(s, s.units[ou[p] as int], t, t.units[p]));
        turns::lemma_has_turn(ku, ou, ku.len() as int, p as usize);
        let x = choose|x: int| 0 <= x < ku.len() && #[trigger] ou[x] == p as usize;
        lemma_same_unit(s, x);
        assert(same_unit(s, s.units[p], t, t.units[x]));
    }
}

/// Two views of one unit, in two listings of the deposits: each deposit is as far
/// from it in the one as in the other.
pub open spec fn same_unit(s: Scene, u: Seen, t: Scene, v: Seen) -> bool {
    &&& u.entity == v.entity
    &&& u.def == v.def
    &&& u.faction == v.faction
    &&& u.on_a_job == v.on_a_job
    &&& forall|q: int|
        0 <= q < t.nodes.len() ==> exists|j: int|
            0 <= j < s.nodes.len() && #[trigger] t.nodes[q] == #[trigger] s.nodes[j]
                && v.to_nodes[q] == u.to_nodes[j]
}

proof fn lemma_same_unit(s: Scene, p: int)
    requires
        s.units.len() <= usize::MAX,
        s.nodes.len() <= usize::MAX,
        0 <= p < s.units.len(),
    ensures
        turns::turns(think::unit_keys(s.units))[p] < s.units.len(),
        same_unit(
            s,
            s.units[turns::turns(think::unit_keys(s.units))[p] as int],
            think::sorted(s),
            think::sorted(s).units[p],
        ),
{
    let t = think::sorted(s);
    let ku = think::unit_keys(s.units);
    let kn = think::node_keys(s.nodes);
    let (ou, on) = (turns::turns(ku), turns::turns(kn));
    turns::everybody_gets_a_turn(ku);
    turns::everybody_gets_a_turn(kn);
    let u = s.units[ou[p] as int];
    let v = t.units[p];
    assert(v == think::resurveyed(u, on));
    assert forall|q: int| 0 <= q < t.nodes.len() implies exists|j: int|
        0 <= j < s.nodes.len() && #[trigger] t.nodes[q] == #[trigger] s.nodes[j] && v.to_nodes[q]
            == u.to_nodes[j] by {
        let j = on[q] as int;
        assert(t.nodes[q] == s.nodes[j]);
        assert(v.to_nodes[q] == u.to_nodes[j]);
    }
}

/// Whatever order the world is listed in, a commander that attacks goes for a
/// building that stands in it: the enemy's, and one whose loss decides the match.
/// Where there is none, it does not attack.
pub proof fn a_commander_goes_for_the_enemy(
    content: &Content,
    all: Seq<AiCommander>,
    s: Scene,
    stock: Stockpiles,
    i: int,
    k: int,
)
    requires
        0 <= i < all.len(),
        content.buildings@.len() <= usize::MAX,
        content.units@.len() <= usize::MAX,
        s.units.len() <= u32::MAX,
        s.buildings.len() <= usize::MAX,
        s.nodes.len() <= usize::MAX,
        0 <= k < think::plan_at(content, all, s, stock, i).choices.len(),
        think::plan_at(content, all, s, stock, i).choices[k] is Attack,
    ensures
        exists|b: int|
            0 <= b < s.buildings.len() && (#[trigger] s.buildings[b]).faction != all[i].faction
                && decides(content, s.buildings[b]) && think::plan_at(
                content,
                all,
                s,
                stock,
                i,
            ).choices[k]->toward == s.buildings[b].pos,
{
    let t = think::sorted(s);
    let keys = think::unit_keys(s.units);
    turns::everybody_gets_a_turn(keys);
    attacks_aim_at_the_enemy(
        content,
        all[i].script(content),
        t,
        stock,
        think::mind(all[i]),
        all[i].tick,
        k,
    );
    let c = think::plan_at(content, all, s, stock, i).choices[k];
    let e = choose|e: int|
        first_enemy_seat(content, t, all[i].faction, e) && c->toward == (
        #[trigger] t.buildings[e]).pos;
    a_snapshot_is_put_in_order(s, e, e);
    let b = choose|b: int| 0 <= b < s.buildings.len() && s.buildings[b] == t.buildings[e];
    assert(s.buildings[b] == t.buildings[e]);
}

// ---- cadence --------------------------------------------------------------------------

/// The script at `p` is the one that a commander runs: the one it was given, or
/// else the first that goes by the name of the default.
pub open spec fn runs(content: &Content, c: AiCommander, p: int) -> bool {
    &&& 0 <= p < content.strategies@.len()
    &&& match c.strategy {
        Some(i) => p == i,
        None => content.strategies@[p].id@ == content.default_strategy@ && forall|q: int|
            0 <= q < p ==> (#[trigger] content.strategies@[q]).id@ != content.default_strategy@,
    }
}

proof fn lemma_runs(content: &Content, c: AiCommander, p: int)
    requires
        runs(content, c, p),
    ensures
        c.script_pos(content) == Some(p),
        c.script(content) == content.strategies@[p],
{
    let ids = lookup::strategy_ids(content.strategies@);
    lookup::lemma_first_at(ids, content.default_strategy@, 0);
    assert forall|q: int| 0 <= q < ids.len() implies ids[q] == (
    #[trigger] content.strategies@[q]).id@ by {}
    if c.strategy is None {
        assert(ids[p] == content.default_strategy@);
        let e = content.strategy_pos(content.default_strategy@)->0;
        assert(ids[e] == content.strategies@[e].id@);
    }
}

/// A commander thinks on the ticks that its script's interval divides, and on no
/// others; those that think do so in the order they stand in.
pub proof fn commanders_think_at_their_cadence(
    content: &Content,
    all: Seq<AiCommander>,
    k: int,
    i: int,
    p: int,
)
    requires
        0 <= i < k <= all.len(),
        runs(content, all[i], p),
    ensures
        think::thinkers(content, all, k).contains(i) <==> all[i].tick as int
            % content.strategies@[p].think_interval_ticks as int == 0,
        forall|a: int, b: int|
            0 <= a < b < think::thinkers(content, all, k).len() ==> (#[trigger] think::thinkers(
                content,
                all,
                k,
            )[a]) < (#[trigger] think::thinkers(content, all, k)[b]),
        forall|a: int|
            0 <= a < think::thinkers(content, all, k).len() ==> 0 <= (#[trigger] think::thinkers(
                content,
                all,
                k,
            )[a]) < k,
    decreases k,
{
    lemma_thinkers(content, all, k);
    lemma_runs(content, all[i], p);
}

proof fn lemma_thinkers(content: &Content, all: Seq<AiCommander>, k: int)
    requires
        0 <= k <= all.len(),
    ensures
        ({
            let who = think::thinkers(content, all, k);
            &&& forall|a: int| 0 <= a < who.len() ==> 0 <= (#[trigger] who[a]) < k
            &&& forall|a: int, b: int|
                0 <= a < b < who.len() ==> (#[trigger] who[a]) < (#[trigger] who[b])
            &&& forall|i: int| #[trigger]
                who.contains(i) <==> 0 <= i < k && all[i].tick as int
                    % all[i].script(content).think_interval_ticks as int == 0
        }),
    decreases k,
{
    if k > 0 {
        lemma_thinkers(content, all, k - 1);
        let before = think::thinkers(content, all, k - 1);
        let who = think::thinkers(content, all, k);
        assert forall|i: int| #[trigger]
            who.contains(i) <==> 0 <= i < k && all[i].tick as int % all[i].script(
                content,
            ).think_interval_ticks as int == 0 by {
            if think::thinks(content, all[k - 1]) {
                assert(who == before.push(k - 1));
                if i == k - 1 {
                    assert(who[before.len() as int] == i);
                } else {
                    if before.contains(i) {
                        let a = choose|a: int| 0 <= a < before.len() && before[a] == i;
                        assert(who[a] == i);
                    }
                    if who.contains(i) {
                        let a = choose|a: int| 0 <= a < who.len() && who[a] == i;
                        assert(before[a] == i);
                    }
                }
            } else {
                assert(before.contains(i) <==> 0 <= i < k - 1 && all[i].tick as int
                    % all[i].script(content).think_interval_ticks as int == 0);
            }
        }
    }
}

/// A tick brings a commander's clock on by one and leaves its side and its script
/// alone. On a tick it does not think on, nothing else of it changes; on one it
/// does, its draws, its place in the build order and its next attack are those of
/// its plan.
pub proof fn a_commander_lives_by_ticks(
    content: &Content,
    before: AiCommander,
    after: AiCommander,
    plan: think::Plan,
    p: int,
)
    requires
        think::moved_on(content, before, after, plan),
        runs(content, before, p),
        before.tick < u32::MAX,
    ensures
        after.tick == before.tick + 1,
        after.faction == before.faction,
        after.strategy == before.strategy,
        ({
            let thinks = before.tick as int % content.strategies@[p].think_interval_ticks as int
                == 0;
            &&& thinks ==> after.rng@ == plan.rng && after.army_cursor == plan.cursor
                && after.next_attack_tick == plan.next
            &&& !thinks ==> after.rng == before.rng && after.army_cursor == before.army_cursor
                && after.next_attack_tick == before.next_attack_tick
        }),
{
    lemma_runs(content, before, p);
}

/// A decision is taken with the stockpile, the script, the draws, the build order
/// and the attack timer of the commander that takes it, on its own tick.
pub proof fn a_plan_is_its_commanders(
    content: &Content,
    all: Seq<AiCommander>,
    s: Scene,
    stock: Stockpiles,
    i: int,
    p: int,
)
    requires
        0 <= i < all.len(),
        runs(content, all[i], p),
    ensures
        think::plan_at(content, all, s, stock, i) == think::plan_of(
            content,
            content.strategies@[p],
            think::sorted(s),
            stock,
            Mind {
                me: all[i].faction,
                rng: all[i].rng@,
                cursor: all[i].army_cursor,
                next: all[i].next_attack_tick,
            },
            all[i].tick,
        ),
{
    lemma_runs(content, all[i], p);
}

// ---- acting ---------------------------------------------------------------------------

/// What a commander decides is ordered: one command per decision, in the order of
/// the decisions, signed by the commander, for the next tick, and of the same
/// kind, for the same things.
pub proof fn decisions_become_orders(
    all: Seq<Choice>,
    me: Faction,
    spots: Seq<Point>,
    k: int,
    i: int,
)
    requires
        0 <= i < k,
    ensures
        ({
            let cmds = think::all_issued(all, me, spots, k);
            &&& cmds.len() == k
            &&& cmds[i].when == CommandTick::Asap
            &&& cmds[i].claim.attribution == Attribution::By(me)
            &&& match all[i] {
                Choice::Gather { unit, node, node_pos } => cmds[i].claim.asked == (Asked::Gather {
                    units: seq![unit],
                    node,
                    node_pos,
                }),
                Choice::TrainWorker { at, unit } => cmds[i].claim.asked == (Asked::Train {
                    building: at,
                    unit,
                }),
                Choice::Place { building, from, turn, offset } => cmds[i].claim.asked == (
                Asked::Place { faction: me, building, pos: spots[i] }),
                Choice::TrainArmy { at, unit } => cmds[i].claim.asked == (Asked::Train {
                    building: at,
                    unit,
                }),
                Choice::Attack { force, toward, x, y, spread } => cmds[i].claim.asked == (
                Asked::MoveTo { units: force, dest: spots[i] }),
            }
        }),
    decreases k,
{
    if i < k - 1 {
        decisions_become_orders(all, me, spots, k - 1, i);
    } else if k > 1 {
        decisions_become_orders(all, me, spots, k - 1, 0);
    } else {
        assert(think::all_issued(all, me, spots, 0).len() == 0);
    }
}

/// The journal tells what was decided: one entry per decision, in their order,
/// with the tick and the side.
pub proof fn decisions_are_journalled(
    all: Seq<Choice>,
    tick: u32,
    me: Faction,
    spots: Seq<Point>,
    k: int,
    i: int,
)
    requires
        0 <= i < k,
    ensures
        ({
            let log = think::all_journalled(all, tick, me, spots, k);
            &&& log.len() == k
            &&& log[i].0 == tick
            &&& log[i].1 == me
            &&& match all[i] {
                Choice::Gather { unit, node, node_pos } => log[i].2 == (AiAction::Gather {
                    unit,
                    node,
                }),
                Choice::TrainWorker { at, unit } => log[i].2 == (AiAction::TrainWorker { at }),
                Choice::Place { building, from, turn, offset } => log[i].2 == (
                AiAction::PlaceBarracks { building, pos: spots[i] }),
                Choice::TrainArmy { at, unit } => log[i].2 == (AiAction::TrainArmy { unit }),
                Choice::Attack { force, toward, x, y, spread } => force.len() <= u32::MAX
                    ==> log[i].2 == (AiAction::Attack { dest: spots[i], force: force.len() as u32 }),
            }
        }),
    decreases k,
{
    if i < k - 1 {
        decisions_are_journalled(all, tick, me, spots, k - 1, i);
    } else if k > 1 {
        decisions_are_journalled(all, tick, me, spots, k - 1, 0);
    } else {
        assert(think::all_journalled(all, tick, me, spots, 0).len() == 0);
    }
}

// ---- build orders -----------------------------------------------------------------------

/// How many units of a build order come before its entry `i`.
pub open spec fn units_before(army: Seq<script::ArmyItem>, i: int) -> nat
    decreases i,
{
    if i <= 0 {
        0
    } else {
        units_before(army, i - 1) + army[i - 1].count as nat
    }
}

proof fn lemma_units_before(army: Seq<script::ArmyItem>, i: int)
    requires
        0 <= i <= army.len(),
    ensures
        script::army_size(army.take(i)) == units_before(army, i),
        i == army.len() ==> script::army_size(army) == units_before(army, i),
    decreases i,
{
    if i > 0 {
        lemma_units_before(army, i - 1);
        assert(army.take(i).drop_last() =~= army.take(i - 1));
    }
    assert(army.take(army.len() as int) =~= army);
}

proof fn lemma_before_grows(army: Seq<script::ArmyItem>, i: int, j: int)
    requires
        0 <= i <= j <= army.len(),
    ensures
        units_before(army, i) <= units_before(army, j),
    decreases j - i,
{
    if i < j {
        lemma_before_grows(army, i, j - 1);
    }
}

/// A build order names each entry's unit as often as the entry says, one after
/// the other, entry by entry, and starts again when it is through.
pub proof fn a_build_order_counts_its_entries(
    army: Seq<script::ArmyItem>,
    i: int,
    n: int,
    cycles: int,
)
    requires
        0 <= i < army.len(),
        units_before(army, i) <= n < units_before(army, i) + army[i].count,
        units_before(army, army.len() as int) <= u32::MAX,
        0 <= cycles,
    ensures
        script::army_unit(army, n + cycles * units_before(army, army.len() as int)) == Some(
            army[i].unit@,
        ),
{
    let size = script::army_size(army) as int;
    lemma_units_before(army, army.len() as int);
    lemma_units_before(army, i);
    lemma_units_before(army, i + 1);
    lemma_before_grows(army, i + 1, army.len() as int);
    script::army_repeats(army, n, cycles);
    vstd::arithmetic::div_mod::lemma_small_mod(n as nat, size as nat);
    assert(script::army_entry(army, n, i));
    let j = choose|j: int| script::army_entry(army, n, j);
    lemma_units_before(army, j);
    lemma_units_before(army, j + 1);
    if i < j {
        lemma_before_grows(army, i + 1, j);
    } else if j < i {
        lemma_before_grows(army, j + 1, i);
    }
}

} // verus!
