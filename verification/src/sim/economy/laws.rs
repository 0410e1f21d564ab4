//! What holds of a worker's turn, read off the worker, the deposits, the
//! buildings and the stockpiles before it and after it.

use vstd::prelude::*;

use crate::sim::content::Content;
use crate::sim::economy::gather;
use crate::sim::economy::gather::{Depot, GatherPhase, Motion, ResourceNode, Worker};
use crate::sim::economy::Stockpiles;
use crate::sim::near;
use crate::sim::turns;

verus! {

/// A unit that gathers, with hands to carry with.
pub open spec fn hands_on(content: &Content, w: Worker) -> bool {
    &&& w.def < content.units@.len()
    &&& content.units@[w.def as int].gathers
    &&& w.carrying is Some
}

/// The deposit at `i` is the worker's: the first that goes by the name it was
/// given.
pub open spec fn deposit_of(nodes: Seq<ResourceNode>, w: Worker, i: int) -> bool {
    &&& 0 <= i < nodes.len()
    &&& nodes[i].entity == w.node
    &&& forall|k: int| 0 <= k < i ==> (#[trigger] nodes[k]).entity != w.node
}

/// No deposit goes by that name any more.
pub open spec fn deposit_gone(nodes: Seq<ResourceNode>, w: Worker) -> bool {
    forall|k: int| 0 <= k < nodes.len() ==> (#[trigger] nodes[k]).entity != w.node
}

/// The building at `d` is a drop-off of the worker's own side.
pub open spec fn own_dropoff(content: &Content, depots: Seq<Depot>, w: Worker, d: int) -> bool {
    &&& 0 <= d < depots.len()
    &&& depots[d].faction == w.faction
    &&& depots[d].def < content.buildings@.len()
    &&& content.buildings@[depots[d].def as int].dropoff
}

/// The drop-off at `d` is the nearest of the worker's own, the older one of those
/// as near.
pub open spec fn nearest_own(content: &Content, depots: Seq<Depot>, w: Worker, d: int) -> bool {
    &&& own_dropoff(content, depots, w, d)
    &&& forall|k: int|
        own_dropoff(content, depots, w, k) ==> w.spans@[d].squared.at_most(
            (#[trigger] w.spans@[k]).squared,
        ) && (w.spans@[d].squared.same(w.spans@[k].squared) ==> depots[d].entity.bits
            <= depots[k].entity.bits)
}

proof fn lemma_deposit(nodes: Seq<ResourceNode>, w: Worker, k: int)
    requires
        0 <= k <= nodes.len(),
        forall|i: int| 0 <= i < k ==> (#[trigger] nodes[i]).entity != w.node,
    ensures
        match gather::node_from(nodes, w.node, k) {
            Some(i) => deposit_of(nodes, w, i),
            None => deposit_gone(nodes, w),
        },
    decreases nodes.len() - k,
{
    if k < nodes.len() && nodes[k].entity != w.node {
        lemma_deposit(nodes, w, k + 1);
    }
}

proof fn lemma_one_deposit(nodes: Seq<ResourceNode>, w: Worker, i: int)
    requires
        deposit_of(nodes, w, i),
    ensures
        gather::node_at(nodes, w.node) == Some(i),
{
    lemma_deposit(nodes, w, 0);
    let k = gather::node_at(nodes, w.node)->0;
    assert(nodes[i].entity == w.node);
    if k < i {
        assert(nodes[k].entity != w.node);
    } else if i < k {
        assert(nodes[i].entity != w.node);
    }
}

/// A unit that cannot gather loses the job and keeps what it carries; one
/// without hands gets empty ones, and nothing else changes for it.
pub proof fn only_gatherers_work(
    content: &Content,
    depots: Seq<Depot>,
    stock: Stockpiles,
    nodes: Seq<ResourceNode>,
    w: Worker,
)
    requires
        !hands_on(content, w),
    ensures
        ({
            let t = gather::work(content, depots, stock, nodes, w);
            &&& t.stock == stock
            &&& t.nodes == nodes
            &&& t.shift.motion == Motion::Keep
            &&& t.shift.phase == w.phase
            &&& t.shift.employed <==> w.def < content.units@.len()
                && content.units@[w.def as int].gathers
            &&& !t.shift.employed ==> t.shift.carrying == w.carrying
            &&& t.shift.employed ==> t.shift.carrying == Some(0u32)
        }),
{
}

/// On its way to the deposit a worker banks nothing and takes nothing. Within
/// the gather range it stops and starts on a load of its full gather ticks; out
/// of it, it is sent to where its deposit is; without one it loses the job.
pub proof fn a_worker_walks_to_its_deposit(
    content: &Content,
    depots: Seq<Depot>,
    stock: Stockpiles,
    nodes: Seq<ResourceNode>,
    w: Worker,
)
    requires
        hands_on(content, w),
        w.phase == GatherPhase::ToNode,
    ensures
        ({
            let t = gather::work(content, depots, stock, nodes, w);
            let near = w.to_node.at_most(content.economy.gather_range);
            &&& t.stock == stock
            &&& t.nodes == nodes
            &&& t.shift.carrying == w.carrying
            &&& forall|i: int| #[trigger]
                deposit_of(nodes, w, i) && near ==> t.shift.employed && t.shift.motion
                    == Motion::Stop && t.shift.phase == (GatherPhase::Harvesting {
                    ticks_left: content.units@[w.def as int].mvp_gather_ticks,
                })
            &&& forall|i: int| #[trigger]
                deposit_of(nodes, w, i) && !near ==> t.shift.employed && t.shift.motion
                    == Motion::Go(nodes[i].pos) && t.shift.phase == GatherPhase::ToNode
            &&& deposit_gone(nodes, w) ==> !t.shift.employed && t.shift.motion == Motion::Keep
        }),
{
    lemma_deposit(nodes, w, 0);
    assert forall|i: int| #[trigger] deposit_of(nodes, w, i) implies gather::node_at(nodes, w.node)
        == Some(i) by {
        lemma_one_deposit(nodes, w, i);
    }
    if deposit_gone(nodes, w) {
        match gather::node_at(nodes, w.node) {
            Some(i) => {
                assert(nodes[i].entity == w.node);
            },
            None => {},
        }
    }
}

/// A load comes on the last of its ticks and on none before. It is what the
/// worker still has room for, or what is left in the deposit; the deposit loses
/// exactly that and no other loses anything. With something in its hands the
/// worker turns back, with nothing it is let go.
pub proof fn a_load_is_taken_from_the_deposit(
    content: &Content,
    depots: Seq<Depot>,
    stock: Stockpiles,
    nodes: Seq<ResourceNode>,
    w: Worker,
    left: u32,
)
    requires
        hands_on(content, w),
        w.phase == (GatherPhase::Harvesting { ticks_left: left }),
    ensures
        ({
            let t = gather::work(content, depots, stock, nodes, w);
            let have = w.carrying->0;
            let capacity = content.units@[w.def as int].mvp_carry_capacity;
            &&& t.stock == stock
            &&& t.nodes.len() == nodes.len()
            &&& t.shift.motion == Motion::Keep
            &&& left > 1 ==> t.nodes == nodes && t.shift.employed && t.shift.carrying == w.carrying
                && t.shift.phase == (GatherPhase::Harvesting { ticks_left: (left - 1) as u32 })
            &&& left <= 1 ==> {
                &&& t.shift.carrying matches Some(held) && held >= have
                &&& deposit_gone(nodes, w) ==> t.nodes == nodes && t.shift.carrying == w.carrying
                &&& forall|i: int| #[trigger]
                    deposit_of(nodes, w, i) ==> {
                        let taken = t.shift.carrying->0 - have;
                        &&& taken + t.nodes[i].amount == nodes[i].amount
                        &&& taken <= capacity - have || taken == 0
                        &&& taken == capacity - have || t.nodes[i].amount == 0 || (capacity < have
                            && taken == 0)
                        &&& t.nodes[i].entity == nodes[i].entity && t.nodes[i].pos == nodes[i].pos
                        &&& forall|k: int|
                            0 <= k < nodes.len() && k != i ==> #[trigger] t.nodes[k] == nodes[k]
                    }
                &&& t.shift.employed <==> t.shift.carrying->0 > 0
                &&& t.shift.employed ==> t.shift.phase == GatherPhase::ToDropoff
            }
        }),
{
    lemma_deposit(nodes, w, 0);
    assert forall|i: int| #[trigger] deposit_of(nodes, w, i) implies gather::node_at(nodes, w.node)
        == Some(i) by {
        lemma_one_deposit(nodes, w, i);
    }
    if deposit_gone(nodes, w) {
        match gather::node_at(nodes, w.node) {
            Some(i) => {
                assert(nodes[i].entity == w.node);
            },
            None => {},
        }
    }
}

/// A loaded worker hands in, or is sent, only where a drop-off of its own side
/// stands: a stockpile grows only with one within the deposit range, and a
/// worker is sent only to where one is. Without one nothing is banked and it
/// keeps its load and its orders. This holds however the distances compare.
pub proof fn loads_go_to_own_dropoffs(
    content: &Content,
    depots: Seq<Depot>,
    stock: Stockpiles,
    nodes: Seq<ResourceNode>,
    w: Worker,
)
    requires
        hands_on(content, w),
        w.phase == GatherPhase::ToDropoff,
    ensures
        ({
            let t = gather::work(content, depots, stock, nodes, w);
            &&& t.nodes == nodes
            &&& (forall|d: int| !own_dropoff(content, depots, w, d)) ==> t.stock == stock
                && t.shift.motion == Motion::Keep && t.shift.employed && t.shift.carrying
                == w.carrying && t.shift.phase == w.phase
            &&& t.stock != stock || t.shift.motion == Motion::Stop ==> exists|d: int| #[trigger]
                own_dropoff(content, depots, w, d) && w.spans@[d].distance.at_most(
                    content.economy.deposit_range,
                )
            &&& t.shift.motion matches Motion::Go(p) ==> t.stock == stock && t.shift.carrying
                == w.carrying && t.shift.phase == w.phase && t.shift.employed && exists|d: int|
                #[trigger]
                own_dropoff(content, depots, w, d) && depots[d].pos == p
                    && !w.spans@[d].distance.at_most(content.economy.deposit_range)
            &&& t.shift.motion == Motion::Keep ==> forall|d: int|
                !own_dropoff(content, depots, w, d)
        }),
{
    let all = gather::dropoffs(content, depots, w);
    near::lemma_open(all, 0, None);
    match near::nearest(all) {
        Some(d) => {
            assert(all[d].open);
            assert(own_dropoff(content, depots, w, d));
        },
        None => {
            assert forall|d: int| !own_dropoff(content, depots, w, d) by {
                if own_dropoff(content, depots, w, d) {
                    assert(all[d].open);
                    lemma_some_choice(all, 0, None, d);
                }
            }
        },
    }
}

proof fn lemma_some_choice(all: Seq<near::Candidate>, k: int, best: Option<int>, d: int)
    requires
        0 <= k <= all.len(),
        best is Some || (k <= d < all.len() && all[d].open),
    ensures
        near::nearest_from(all, k, best) is Some,
    decreases all.len() - k,
{
    if k < all.len() {
        if !all[k].open {
            lemma_some_choice(all, k + 1, best, d);
        } else {
            lemma_some_choice(all, k + 1, Some(k), d);
            if best is Some {
                lemma_some_choice(all, k + 1, best, d);
            }
        }
    }
}

/// Of its own drop-offs a worker uses the nearest. Within the deposit range it
/// hands in all that its side's stockpile has room for, and the other side's
/// stays as it is; with its hands empty it turns back to its deposit, or is let
/// go if there is none, and with something left it waits. Out of the range it
/// is sent there.
pub proof fn a_load_is_banked_at_the_nearest(
    content: &Content,
    depots: Seq<Depot>,
    stock: Stockpiles,
    nodes: Seq<ResourceNode>,
    w: Worker,
    d: int,
)
    requires
        hands_on(content, w),
        w.phase == GatherPhase::ToDropoff,
        w.spans@.len() == depots.len(),
        forall|k: int| 0 <= k < depots.len() ==> !(#[trigger] w.spans@[k]).squared.nan(),
        forall|i: int, j: int|
            0 <= i < j < depots.len() ==> (#[trigger] depots[i]).entity.bits != (
            #[trigger] depots[j]).entity.bits,
        nearest_own(content, depots, w, d),
    ensures
        ({
            let t = gather::work(content, depots, stock, nodes, w);
            let have = w.carrying->0;
            let before = stock.of(w.faction);
            let after = t.stock.of(w.faction);
            &&& t.stock.of(w.faction.foe()) == stock.of(w.faction.foe())
            &&& w.spans@[d].distance.at_most(content.economy.deposit_range) ==> {
                &&& t.shift.carrying matches Some(left) && after - before == have - left
                &&& before + have <= u32::MAX ==> after == before + have
                &&& before + have > u32::MAX ==> after == u32::MAX
                &&& t.shift.motion == Motion::Stop
                &&& t.shift.carrying->0 > 0 ==> t.shift.employed && t.shift.phase
                    == GatherPhase::ToDropoff
                &&& t.shift.carrying->0 == 0 ==> (t.shift.employed <==> !deposit_gone(nodes, w))
                &&& t.shift.carrying->0 == 0 && t.shift.employed ==> t.shift.phase
                    == GatherPhase::ToNode
            }
            &&& !w.spans@[d].distance.at_most(content.economy.deposit_range) ==> t.stock == stock
                && t.shift.motion == Motion::Go(depots[d].pos) && t.shift.employed
                && t.shift.carrying == w.carrying && t.shift.phase == GatherPhase::ToDropoff
        }),
{
    let all = gather::dropoffs(content, depots, w);
    assert forall|k: int| 0 <= k < all.len() implies !(#[trigger] all[k]).squared.nan() by {
        assert(!w.spans@[k].squared.nan());
    }
    near::the_choice_is_nearest(all);
    assert(all[d].open);
    let b = near::nearest(all)->0;
    assert(all[b].open);
    assert(own_dropoff(content, depots, w, b));
    assert(w.spans@[d].squared.at_most(w.spans@[b].squared));
    assert(all[b].squared.at_most(all[d].squared));
    if b < d {
        assert(depots[b].entity.bits != depots[d].entity.bits);
    } else if d < b {
        assert(depots[d].entity.bits != depots[b].entity.bits);
    }
    assert(b == d);
    lemma_deposit(nodes, w, 0);
    match gather::node_at(nodes, w.node) {
        Some(i) => {
            assert(nodes[i].entity == w.node);
        },
        None => {},
    }
}

/// Workers take their turns by age, each once, and each turn starts from what
/// the turn before it left.
pub proof fn workers_act_in_turn(
    content: &Content,
    depots: Seq<Depot>,
    stock: Stockpiles,
    nodes: Seq<ResourceNode>,
    workers: Seq<Worker>,
    k: int,
)
    requires
        workers.len() <= usize::MAX,
        0 <= k < workers.len(),
    ensures
        ({
            let order = turns::turns(gather::keys(workers));
            let before = gather::day(content, depots, stock, nodes, workers, order, k);
            let after = gather::day(content, depots, stock, nodes, workers, order, k + 1);
            let t = gather::work(
                content,
                depots,
                before.0,
                before.1,
                workers[order[k] as int],
            );
            &&& order.len() == workers.len()
            &&& order.no_duplicates()
            &&& 0 <= order[k] < workers.len()
            &&& forall|p: int|
                0 <= p < k ==> workers[#[trigger] order[p] as int].entity.bits
                    <= workers[order[k] as int].entity.bits
            &&& after.0 == t.stock
            &&& after.1 == t.nodes
            &&& gather::shift_at(content, depots, stock, nodes, workers, order, k) == t.shift
            &&& gather::day(content, depots, stock, nodes, workers, order, 0) == (stock, nodes)
        }),
{
    turns::everybody_gets_a_turn(gather::keys(workers));
    let order = turns::turns(gather::keys(workers));
    assert forall|p: int| 0 <= p < k implies workers[#[trigger] order[p] as int].entity.bits
        <= workers[order[k] as int].entity.bits by {
        assert(gather::keys(workers)[order[p] as int] <= gather::keys(workers)[order[k] as int]);
    }
}

} // verus!
