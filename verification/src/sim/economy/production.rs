//! Production queues: one tick of training.

use std::collections::VecDeque;

use vstd::prelude::*;

use crate::float::Point;
use crate::sim::combat::Health;
use crate::sim::content::Content;
use crate::sim::spatial::Faction;
use crate::sim::turns;
use crate::sim::turns::turn_order;
use crate::sim::world::Entity;
use crate::sim::UnitKind;

verus! {

/// One unit being trained.
#[derive(Clone, Copy, PartialEq, Eq, Structural, Debug)]
pub struct QueuedUnit {
    /// An index into the content's units.
    pub unit: usize,
    pub ticks_left: u32,
}

/// A building's production queue. Costs are charged when an item is enqueued,
/// never again when it completes.
#[derive(Debug)]
pub struct ProductionQueue {
    items: VecDeque<QueuedUnit>,
}

impl View for ProductionQueue {
    type V = Seq<QueuedUnit>;

    closed spec fn view(&self) -> Seq<QueuedUnit> {
        self.items@
    }
}

impl Default for ProductionQueue {
    fn default() -> (r: Self)
        ensures
            r@ == Seq::<QueuedUnit>::empty(),
    {
        ProductionQueue { items: VecDeque::new() }
    }
}

/// A queue after one tick.
pub open spec fn ticked(queue: Seq<QueuedUnit>) -> Seq<QueuedUnit> {
    if queue.len() == 0 {
        queue
    } else if queue[0].ticks_left > 0 {
        queue.update(
            0,
            QueuedUnit { unit: queue[0].unit, ticks_left: (queue[0].ticks_left - 1) as u32 },
        )
    } else {
        queue.drop_first()
    }
}

/// The unit that one tick finishes.
pub open spec fn finished(queue: Seq<QueuedUnit>) -> Option<usize> {
    if queue.len() > 0 && queue[0].ticks_left == 0 {
        Some(queue[0].unit)
    } else {
        None
    }
}

impl ProductionQueue {
    pub fn len(&self) -> (r: usize)
        ensures
            r == self@.len(),
    {
        self.items.len()
    }

    pub fn is_empty(&self) -> (r: bool)
        ensures
            r == (self@.len() == 0),
    {
        self.items.len() == 0
    }

    /// The item at place `i`.
    pub fn get(&self, i: usize) -> (r: Option<QueuedUnit>)
        ensures
            r == if i < self@.len() {
                Some(self@[i as int])
            } else {
                None
            },
    {
        if i < self.items.len() {
            Some(self.items[i])
        } else {
            None
        }
    }

    /// Append an item.
    pub fn push(&mut self, item: QueuedUnit)
        ensures
            final(self)@ == old(self)@.push(item),
    {
        self.items.push_back(item);
    }

    /// One tick of training: count the head down, or take it off when its timer
    /// has run out.
    pub fn tick(&mut self) -> (r: Option<usize>)
        ensures
            r == finished(old(self)@),
            final(self)@ == ticked(old(self)@),
    {
        if self.items.len() == 0 {
            return None;
        }
        let head: QueuedUnit = self.items[0];
        let _ = self.items.pop_front();
        if head.ticks_left > 0 {
            self.items.push_front(QueuedUnit { unit: head.unit, ticks_left: head.ticks_left - 1 });
            assert(self@ =~= ticked(old(self)@));
            None
        } else {
            assert(self@ =~= ticked(old(self)@));
            Some(head.unit)
        }
    }
}

/// A building that trains.
#[derive(Debug)]
pub struct Producer {
    pub entity: Entity,
    pub pos: Point,
    pub faction: Faction,
    pub queue: ProductionQueue,
}

/// A unit that training puts into the world.
#[derive(Clone, Copy, Debug)]
pub struct Trained {
    /// The building that trained it.
    pub from: Entity,
    /// Where that building stands.
    pub pos: Point,
    pub faction: Faction,
    /// An index into the content's units.
    pub unit: usize,
    pub kind: UnitKind,
    pub health: Health,
    /// Does it get hands to carry with?
    pub gathers: bool,
    /// Which of how many spokes around the building it appears on.
    pub spoke: usize,
    pub spokes: usize,
}

/// How many spokes there are around a building.
pub open spec fn spokes_of(content: &Content) -> int {
    if content.units@.len() == 0 {
        1
    } else {
        content.units@.len() as int
    }
}

/// What one building puts into the world on a tick.
pub open spec fn trained(content: &Content, from: Entity, pos: Point, f: Faction, queue: Seq<
    QueuedUnit,
>) -> Option<Trained> {
    match finished(queue) {
        Some(unit) => if unit < content.units@.len() {
            Some(
                Trained {
                    from,
                    pos,
                    faction: f,
                    unit,
                    kind: content.units@[unit as int].mvp_kind,
                    health: Health::full(content, unit as int),
                    gathers: content.units@[unit as int].gathers,
                    spoke: (unit as int % spokes_of(content)) as usize,
                    spokes: spokes_of(content) as usize,
                },
            )
        } else {
            None
        },
        None => None,
    }
}

/// The keys that decide whose turn it is.
pub open spec fn keys(all: Seq<Producer>) -> Seq<u64> {
    all.map_values(|p: Producer| p.entity.bits)
}

/// What the buildings put into the world in their first `k` turns.
pub open spec fn output(content: &Content, all: Seq<Producer>, order: Seq<usize>, k: int) -> Seq<
    Trained,
>
    decreases k,
{
    if k <= 0 {
        Seq::empty()
    } else {
        let before = output(content, all, order, k - 1);
        let p = all[order[k - 1] as int];
        match trained(content, p.entity, p.pos, p.faction, p.queue@) {
            Some(t) => before.push(t),
            None => before,
        }
    }
}

/// Advance each building's queue by one tick, in ascending entity order, and
/// say what comes out. Never charges Alloy: the cost was taken when the item
/// was enqueued.
pub fn production(content: &Content, buildings: &mut Vec<Producer>) -> (r: Vec<Trained>)
    ensures
        r@ == output(
            content,
            old(buildings)@,
            turns::turns(keys(old(buildings)@)),
            old(buildings)@.len() as int,
        ),
        final(buildings)@.len() == old(buildings)@.len(),
        forall|i: int|
            0 <= i < old(buildings)@.len() ==> {
                let (b, a) = (old(buildings)@[i], #[trigger] final(buildings)@[i]);
                &&& a.entity == b.entity
                &&& a.pos == b.pos
                &&& a.faction == b.faction
                &&& a.queue@ == ticked(b.queue@)
            },
{
    let ghost all = buildings@;
    let n: usize = buildings.len();
    let mut names: Vec<u64> = Vec::new();
    let mut i: usize = 0;
    while i < n
        invariant
            i <= n,
            n == buildings@.len(),
            all == buildings@,
            names@ == keys(all).take(i as int),
        decreases n - i,
    {
        names.push(buildings[i].entity.to_bits());
        assert(names@ =~= keys(all).take(i + 1));
        i = i + 1;
    }
    assert(names@ =~= keys(all));
    let order = turn_order(&names);
    proof {
        turns::everybody_gets_a_turn(keys(all));
    }
    let mut out: Vec<Trained> = Vec::new();
    let mut k: usize = 0;
    while k < n
        invariant
            k <= n,
            n == all.len(),
            buildings@.len() == n,
            turns::in_turn(keys(all), order@, n as int),
            out@ == output(content, all, order@, k as int),
            forall|j: int| 0 <= j < n ==> {
                let (b, a) = (all[j], #[trigger] buildings@[j]);
                &&& a.entity == b.entity
                &&& a.pos == b.pos
                &&& a.faction == b.faction
            },
            forall|j: int|
                0 <= j < k ==> buildings@[#[trigger] order@[j] as int].queue@ == ticked(
                    all[order@[j] as int].queue@,
                ),
            forall|j: int|
                k <= j < n ==> buildings@[#[trigger] order@[j] as int].queue@
                    == all[order@[j] as int].queue@,
        decreases n - k,
    {
        let i: usize = order[k];
        let ghost mid = buildings@;
        let done = advance(&mut buildings[i]);
        let b = &buildings[i];
        match done {
            Some(unit) => {
                if unit < content.units.len() {
                    let spokes: usize = content.units.len();
                    let def = &content.units[unit];
                    out.push(
                        Trained {
                            from: b.entity,
                            pos: b.pos,
                            faction: b.faction,
                            unit,
                            kind: def.mvp_kind,
                            health: Health::from_def(content, unit),
                            gathers: def.gathers,
                            spoke: unit % spokes,
                            spokes,
                        },
                    );
                }
            },
            None => {},
        }
        proof {
            assert forall|j: int| 0 <= j < k + 1 implies buildings@[#[trigger] order@[j] as int].queue@
                == ticked(all[order@[j] as int].queue@) by {
                if j < k {
                    assert(order@[j] != order@[k as int]);
                }
            }
            assert forall|j: int| k + 1 <= j < n implies buildings@[#[trigger] order@[j] as int].queue@
                == all[order@[j] as int].queue@ by {
                assert(order@[j] != order@[k as int]);
            }
        }
        k = k + 1;
    }
    proof {
        assert forall|i: int| 0 <= i < n implies (#[trigger] buildings@[i]).queue@ == ticked(
            all[i].queue@,
        ) by {
            turns::lemma_has_turn(keys(all), order@, n as int, i as usize);
            let j = choose|j: int| 0 <= j < n && #[trigger] order@[j] == i as usize;
            assert(buildings@[order@[j] as int].queue@ == ticked(all[order@[j] as int].queue@));
        }
    }
    out
}

fn advance(p: &mut Producer) -> (r: Option<usize>)
    ensures
        r == finished(old(p).queue@),
        final(p).queue@ == ticked(old(p).queue@),
        final(p).entity == old(p).entity,
        final(p).pos == old(p).pos,
        final(p).faction == old(p).faction,
{
    p.queue.tick()
}

// ---- laws -------------------------------------------------------------------

/// A queue after `n` ticks.
pub open spec fn ticked_for(queue: Seq<QueuedUnit>, n: nat) -> Seq<QueuedUnit>
    decreases n,
{
    if n == 0 {
        queue
    } else {
        ticked(ticked_for(queue, (n - 1) as nat))
    }
}

/// A unit that takes `T` ticks to train, ordered on tick `N`, comes on tick
/// `N + T`, once: its queue is worked from the tick of the order on, and `T`
/// ticks pass before the one that hands it out. The items behind it do not
/// move until then.
pub proof fn training_takes_its_time(queue: Seq<QueuedUnit>, n: nat)
    requires
        queue.len() > 0,
        n <= queue[0].ticks_left,
    ensures
        ticked_for(queue, n).drop_first() == queue.drop_first(),
        ticked_for(queue, n).len() == queue.len(),
        ticked_for(queue, n)[0].unit == queue[0].unit,
        ticked_for(queue, n)[0].ticks_left == queue[0].ticks_left - n,
        finished(ticked_for(queue, n)) is Some <==> n == queue[0].ticks_left,
        n == queue[0].ticks_left ==> ticked_for(queue, n + 1) == queue.drop_first(),
    decreases n,
{
    if n > 0 {
        training_takes_its_time(queue, (n - 1) as nat);
    }
    assert(ticked_for(queue, n).drop_first() =~= queue.drop_first());
    if n == queue[0].ticks_left {
        assert(ticked_for(queue, n + 1) == ticked(ticked_for(queue, n)));
    }
}

/// A building puts a unit into the world exactly on a tick that starts with the
/// timer of its first item run out: that unit, whole, beside the building, for
/// the building's side. Nothing comes of an item that names no unit.
pub proof fn the_first_item_comes_out(
    content: &Content,
    from: Entity,
    pos: Point,
    f: Faction,
    queue: Seq<QueuedUnit>,
)
    ensures
        trained(content, from, pos, f, queue) is Some <==> queue.len() > 0 && queue[0].ticks_left
            == 0 && queue[0].unit < content.units@.len(),
        trained(content, from, pos, f, queue) matches Some(t) ==> {
            let def = content.units@[queue[0].unit as int];
            &&& t.from == from
            &&& t.pos == pos
            &&& t.faction == f
            &&& t.unit == queue[0].unit
            &&& t.kind == def.mvp_kind
            &&& t.gathers == def.gathers
            &&& t.health.current == t.health.max
            &&& t.health.max == Health::full(content, t.unit as int).max
            &&& content.units@.len() <= usize::MAX ==> t.spoke == t.unit && t.spokes
                == content.units@.len()
        },
{
    if trained(content, from, pos, f, queue) is Some {
        vstd::arithmetic::div_mod::lemma_small_mod(
            queue[0].unit as nat,
            content.units@.len(),
        );
    }
}

/// A tick takes one from the timer of the first item, or takes the item off once
/// its timer has run out; the others wait as they are.
pub proof fn a_tick_is_the_first_items(queue: Seq<QueuedUnit>)
    requires
        queue.len() > 0,
    ensures
        queue[0].ticks_left == 0 ==> ticked(queue) == queue.drop_first() && finished(queue) == Some(
            queue[0].unit,
        ),
        queue[0].ticks_left > 0 ==> {
            &&& finished(queue) is None
            &&& ticked(queue).len() == queue.len()
            &&& ticked(queue)[0].unit == queue[0].unit
            &&& ticked(queue)[0].ticks_left + 1 == queue[0].ticks_left
            &&& forall|i: int| 1 <= i < queue.len() ==> #[trigger] ticked(queue)[i] == queue[i]
        },
        ticked(Seq::<QueuedUnit>::empty()) == Seq::<QueuedUnit>::empty(),
        finished(Seq::<QueuedUnit>::empty()) is None,
{
}

/// Buildings deliver by age, each once, and nothing is lost on the way.
pub proof fn buildings_deliver_in_turn(content: &Content, all: Seq<Producer>, k: int)
    requires
        all.len() <= usize::MAX,
        0 <= k < all.len(),
    ensures
        ({
            let order = turns::turns(keys(all));
            let p = all[order[k] as int];
            let came = trained(content, p.entity, p.pos, p.faction, p.queue@);
            let before = output(content, all, order, k);
            let after = output(content, all, order, k + 1);
            &&& order.len() == all.len()
            &&& order.no_duplicates()
            &&& 0 <= order[k] < all.len()
            &&& forall|j: int|
                0 <= j < k ==> all[#[trigger] order[j] as int].entity.bits <= p.entity.bits
            &&& came is None ==> after == before
            &&& came matches Some(t) ==> after == before.push(t)
            &&& output(content, all, order, 0).len() == 0
        }),
{
    turns::everybody_gets_a_turn(keys(all));
    let order = turns::turns(keys(all));
    assert forall|j: int| 0 <= j < k implies all[#[trigger] order[j] as int].entity.bits
        <= all[order[k] as int].entity.bits by {
        assert(keys(all)[order[j] as int] <= keys(all)[order[k] as int]);
    }
}

proof fn lemma_output_by_turn(
    content: &Content,
    a: Seq<Producer>,
    x: Seq<usize>,
    b: Seq<Producer>,
    y: Seq<usize>,
    k: int,
)
    requires
        0 <= k <= x.len(),
        turns::reordered(a, x) == turns::reordered(b, y),
    ensures
        output(content, a, x, k) == output(content, b, y, k),
    decreases k,
{
    if k > 0 {
        lemma_output_by_turn(content, a, x, b, y, k - 1);
        assert(turns::reordered(a, x).len() == x.len() && turns::reordered(b, y).len() == y.len());
        assert(a[x[k - 1] as int] == turns::reordered(a, x)[k - 1]);
        assert(b[y[k - 1] as int] == turns::reordered(b, y)[k - 1]);
    }
}

/// What comes out, and in which order, does not depend on how the buildings are
/// listed.
pub proof fn listing_does_not_reach_the_output(
    content: &Content,
    a: Seq<Producer>,
    b: Seq<Producer>,
)
    requires
        a.len() <= usize::MAX,
        b.len() <= usize::MAX,
        keys(a).no_duplicates(),
        keys(b).no_duplicates(),
        forall|p: Producer| #[trigger] a.contains(p) <==> b.contains(p),
    ensures
        output(content, a, turns::turns(keys(a)), a.len() as int) == output(
            content,
            b,
            turns::turns(keys(b)),
            b.len() as int,
        ),
{
    let key = |p: Producer| p.entity.bits;
    turns::listing_does_not_matter(a, b, key);
    turns::everybody_gets_a_turn(keys(a));
    turns::everybody_gets_a_turn(keys(b));
    let (x, y) = (turns::turns(keys(a)), turns::turns(keys(b)));
    assert(a.map_values(key) =~= keys(a));
    assert(b.map_values(key) =~= keys(b));
    assert(turns::reordered(a, x).len() == a.len());
    assert(turns::reordered(b, y).len() == b.len());
    lemma_output_by_turn(content, a, x, b, y, a.len() as int);
}

} // verus!
