//! What a lockstep link promises.

use vstd::prelude::*;

use crate::net::link;
use crate::net::link::{Input, Net};
use crate::net::wire;
use crate::net::wire::Said;
use crate::sim::content::Content;
use crate::sim::orders;
use crate::sim::orders::{Asked, Claim, Scheduled};
use crate::sim::replay;
use crate::sim::spatial::Faction;
use crate::sim::world::Entity;

verus! {

/// Both peers push the same commands in the same order, whichever side they
/// play.
pub proof fn both_push_the_same(a: Seq<Claim>, b: Seq<Claim>)
    ensures
        link::merged(Faction::A, a, b) == link::merged(Faction::B, b, a),
{
}

/// Can a command be named on the wire and read back?
pub open spec fn sendable(ids: Seq<Entity>, content: &Content, c: Claim) -> bool {
    &&& forall|s: int|
        0 <= s < replay::subjects(c.asked).len() ==> ids.contains(
            #[trigger] replay::subjects(c.asked)[s],
        )
    &&& c.asked matches Asked::Place { faction, building, pos } ==> building
        < content.buildings@.len()
    &&& c.asked matches Asked::Train { building, unit } ==> unit < content.units@.len()
}

/// What one side sends and holds, the other side hears: between peers whose
/// registries and content agree, a turn resolves to exactly the commands that
/// its sender will push itself.
pub proof fn a_turn_means_the_same_on_both_sides(
    ids: Seq<Entity>,
    content: &Content,
    held: Seq<Claim>,
    k: int,
)
    requires
        0 <= k <= held.len(),
        ids.len() <= u64::MAX,
        forall|i: int| 0 <= i < held.len() ==> sendable(ids, content, #[trigger] held[i]),
    ensures
        link::understood(ids, content, held.map_values(|c: Claim| link::wired(ids, c)), k)
            == held.take(k),
    decreases k,
{
    let sent = held.map_values(|c: Claim| link::wired(ids, c));
    if k > 0 {
        a_turn_means_the_same_on_both_sides(ids, content, held, k - 1);
        let c = held[k - 1];
        assert(sendable(ids, content, c));
        assert(sent[k - 1] == link::wired(ids, c));
        wire::the_wire_keeps_meaning(ids, content, c.asked);
        assert(held.take(k) =~= held.take(k - 1).push(c));
    } else {
        assert(held.take(0) =~= Seq::empty());
    }
}

proof fn lemma_heard_failure(
    st: Net,
    all: Seq<Said>,
    seed: u64,
    stamp: u64,
    label: Seq<char>,
    k: int,
)
    requires
        st.failure is Some,
    ensures
        link::all_heard(st, all, seed, stamp, label, k).failure == st.failure,
    decreases k,
{
    if k > 0 {
        lemma_heard_failure(st, all, seed, stamp, label, k - 1);
    }
}

/// A link that has stopped stays stopped: no tick may run, the queue is left
/// alone, and the reason is the first one.
pub proof fn a_stopped_link_stays_stopped(
    st: Net,
    content: &Content,
    i: Input,
    queue: Seq<Scheduled>,
)
    requires
        st.failure is Some,
    ensures
        ({
            let p = link::pumped(st, content, i, queue);
            &&& p.link.failure == st.failure
            &&& !p.open
            &&& p.queue == queue
        }),
{
    let hello = Net { greeted: true, ..st };
    match i.arrived {
        Ok(all) => lemma_heard_failure(hello, all, i.seed, i.stamp, i.label, all.len() as int),
        Err(_) => {},
    }
}

proof fn lemma_compared_failure(st: Net, hashes: Seq<u64>, t: int)
    ensures
        link::compared(st, hashes, t).peer_turns == st.peer_turns,
        link::compared(st, hashes, t).peer == st.peer,
        st.failure is Some ==> link::compared(st, hashes, t).failure == st.failure,
        t <= hashes.len() && link::differs(st, hashes, t) ==> link::compared(
            st,
            hashes,
            t,
        ).failure is Some,
        !link::differs(st, hashes, t) && st.failure is None ==> link::compared(
            st,
            hashes,
            t,
        ).failure is None,
    decreases t,
{
    if t > 0 {
        lemma_compared_failure(st, hashes, t - 1);
        let k = (t - 1) as u32;
        if link::differs(st, hashes, t) {
            let u = choose|u: u32|
                u < t && #[trigger] st.peer_hashes.contains_key(u) && st.peer_hashes[u]
                    != hashes[u as int];
            if u < t - 1 {
                assert(link::differs(st, hashes, t - 1));
            }
        } else {
            if link::differs(st, hashes, t - 1) {
                let u = choose|u: u32|
                    u < t - 1 && #[trigger] st.peer_hashes.contains_key(u) && st.peer_hashes[u]
                        != hashes[u as int];
                assert(u < t && st.peer_hashes.contains_key(u));
            }
            if t - 1 <= u32::MAX && st.peer_hashes.contains_key(k) {
                assert(k < t);
            }
        }
    }
}

proof fn lemma_puzzled(st: Net, ids: Seq<Entity>, content: &Content, all: Seq<Claim>, k: int)
    ensures
        ({
            let p = link::puzzled(st, ids, content, all, k);
            &&& p.peer == st.peer
            &&& p.peer_turns == st.peer_turns
            &&& p.config == st.config
            &&& p.peer_hashes == st.peer_hashes
            &&& p.last_sent == st.last_sent
            &&& p.last_hash == st.last_hash
        }),
    decreases k,
{
    if k > 0 {
        lemma_puzzled(st, ids, content, all, k - 1);
    }
}

/// A tick runs only on a sound link: both sides have said who they are, nothing
/// has failed, no hash differs, and the peer's turn for the tick is here unless
/// no turn for it can exist.
pub proof fn the_gate_opens_only_on_a_sound_link(
    st: Net,
    content: &Content,
    i: Input,
    queue: Seq<Scheduled>,
)
    requires
        link::pumped(st, content, i, queue).open,
    ensures
        ({
            let p = link::pumped(st, content, i, queue);
            &&& p.link.peer is Some
            &&& p.link.failure is None
            &&& i.now < st.config.turn_delay_ticks || p.link.peer_turns.contains_key(i.now)
        }),
{
    let hello = Net { greeted: true, ..st };
    let read = link::received(hello, i.arrived, i.closed, i.seed, i.stamp, i.label);
    lemma_config_stays(hello, i);
    let taken = Net { pending: read.pending + orders::unscheduled(queue), ..read };
    let turn = (i.now + read.config.turn_delay_ticks) as u32;
    let sent = if link::unsent(read.last_sent, turn) {
        link::turn_sent(taken, turn)
    } else {
        taken
    };
    let over = link::handed_over(sent, i.ids, content, i.now);
    if sent.peer_turns.contains_key(i.now) {
        let theirs = sent.peer_turns[i.now];
        lemma_puzzled(
            Net { my_turns: sent.my_turns.remove(i.now), ..sent },
            i.ids,
            content,
            theirs,
            theirs.len() as int,
        );
    }
    let gate = link::gated(over, i.now, i.waited);
    match i.hashes {
        Some(hashes) => {
            let told = Net {
                last_hash: link::last_due(
                    gate.last_hash,
                    link::next_due(gate),
                    i.now,
                    gate.config.hash_interval_ticks,
                    hashes,
                ),
                ..gate
            };
            lemma_compared_failure(told, hashes, hashes.len() as int);
        },
        None => {},
    }
}

proof fn lemma_config_stays(st: Net, i: Input)
    ensures
        link::received(st, i.arrived, i.closed, i.seed, i.stamp, i.label).config == st.config,
{
    match i.arrived {
        Ok(all) => lemma_heard_config(st, all, i.seed, i.stamp, i.label, all.len() as int),
        Err(_) => {},
    }
}

proof fn lemma_heard_config(
    st: Net,
    all: Seq<Said>,
    seed: u64,
    stamp: u64,
    label: Seq<char>,
    k: int,
)
    ensures
        link::all_heard(st, all, seed, stamp, label, k).config == st.config,
    decreases k,
{
    if k > 0 {
        lemma_heard_config(st, all, seed, stamp, label, k - 1);
    }
}

/// A failure is loud: with one on record after a pump, whenever it came, no tick
/// may run; and one that was on record before stays the one on record.
pub proof fn a_failure_closes_the_gate(
    st: Net,
    content: &Content,
    i: Input,
    queue: Seq<Scheduled>,
)
    ensures
        ({
            let p = link::pumped(st, content, i, queue);
            &&& p.link.failure is Some ==> !p.open
            &&& st.failure is Some ==> p.link.failure == st.failure
        }),
{
    if link::pumped(st, content, i, queue).open {
        the_gate_opens_only_on_a_sound_link(st, content, i, queue);
    }
    if st.failure is Some {
        a_stopped_link_stays_stopped(st, content, i, queue);
    }
}

/// A peer that speaks another protocol, claims our side, plays another seed or
/// runs other content is refused: the link stops and nobody is accepted.
pub proof fn a_misfit_is_refused(
    st: Net,
    protocol: u32,
    faction: Faction,
    seed: u64,
    stamp: u64,
    label: Seq<char>,
    our_seed: u64,
    our_stamp: u64,
    our_label: Seq<char>,
)
    requires
        st.failure is None,
    ensures
        ({
            let hello = Said::Hello { protocol, faction, seed, stamp, label };
            let after = link::heard(st, hello, our_seed, our_stamp, our_label);
            let fits = protocol == crate::net::PROTOCOL_VERSION && faction != st.me && seed
                == our_seed && stamp == our_stamp;
            &&& fits ==> after.peer == Some(faction) && after.failure is None
            &&& !fits ==> after.peer == st.peer && (after.failure matches Some(f) && f is Handshake)
        }),
{
}

proof fn lemma_all_scheduled(queue: Seq<Scheduled>)
    ensures
        orders::unscheduled(orders::scheduled(queue)) == Seq::<Claim>::empty(),
    decreases queue.len(),
{
    if queue.len() > 0 {
        lemma_all_scheduled(queue.drop_last());
        let rest = orders::scheduled(queue.drop_last());
        if !(queue.last().when is Asap) {
            assert(rest.push(queue.last()).drop_last() =~= rest);
        }
    }
}

proof fn lemma_handed_is_scheduled(queue: Seq<Scheduled>, more: Seq<Scheduled>)
    requires
        orders::unscheduled(queue) == Seq::<Claim>::empty(),
        forall|k: int| 0 <= k < more.len() ==> (#[trigger] more[k]).when is At,
    ensures
        orders::unscheduled(queue + more) == Seq::<Claim>::empty(),
    decreases more.len(),
{
    if more.len() == 0 {
        assert(queue + more =~= queue);
    } else {
        lemma_handed_is_scheduled(queue, more.drop_last());
        assert((queue + more).drop_last() =~= queue + more.drop_last());
        assert((queue + more).last() == more.last());
    }
}

/// No local command is applied behind the peer's back: after a pump of a link
/// that plays, the queue holds only commands with a tick of their own.
pub proof fn no_local_command_slips_through(
    st: Net,
    content: &Content,
    i: Input,
    queue: Seq<Scheduled>,
    out: Seq<Said>,
)
    ensures
        orders::unscheduled(link::playing(st, content, i, queue, out).queue) == Seq::<
            Claim,
        >::empty(),
{
    lemma_all_scheduled(queue);
    let taken = Net { pending: st.pending + orders::unscheduled(queue), ..st };
    let turn = (i.now + st.config.turn_delay_ticks) as u32;
    let sent = if link::unsent(st.last_sent, turn) {
        link::turn_sent(taken, turn)
    } else {
        taken
    };
    lemma_handed_is_scheduled(
        orders::scheduled(queue),
        link::handed(sent, i.ids, content, i.now),
    );
}

/// Every turn is sent once: a pump sends the turn for a tick only after all that
/// were sent before, and remembers it.
pub proof fn turns_go_out_once(
    st: Net,
    content: &Content,
    i: Input,
    queue: Seq<Scheduled>,
    out: Seq<Said>,
)
    requires
        i.now + st.config.turn_delay_ticks <= u32::MAX,
    ensures
        ({
            let turn = (i.now + st.config.turn_delay_ticks) as u32;
            let p = link::playing(st, content, i, queue, out);
            &&& p.link.last_sent matches Some(l) && l >= turn
            &&& !link::unsent(p.link.last_sent, turn)
            &&& st.last_sent matches Some(l) ==> (p.link.last_sent matches Some(m) && m >= l)
        }),
{
    let taken = Net { pending: st.pending + orders::unscheduled(queue), ..st };
    let turn = (i.now + st.config.turn_delay_ticks) as u32;
    let sent = if link::unsent(st.last_sent, turn) {
        link::turn_sent(taken, turn)
    } else {
        taken
    };
    if sent.peer_turns.contains_key(i.now) {
        let theirs = sent.peer_turns[i.now];
        lemma_puzzled(
            Net { my_turns: sent.my_turns.remove(i.now), ..sent },
            i.ids,
            content,
            theirs,
            theirs.len() as int,
        );
    }
    let over = link::handed_over(sent, i.ids, content, i.now);
    let gate = link::gated(over, i.now, i.waited);
    match i.hashes {
        Some(hashes) => {
            let told = Net {
                last_hash: link::last_due(
                    gate.last_hash,
                    link::next_due(gate),
                    i.now,
                    gate.config.hash_interval_ticks,
                    hashes,
                ),
                ..gate
            };
            lemma_compared_sent(told, hashes, hashes.len() as int);
        },
        None => {},
    }
}

proof fn lemma_compared_sent(st: Net, hashes: Seq<u64>, t: int)
    ensures
        link::compared(st, hashes, t).last_sent == st.last_sent,
    decreases t,
{
    if t > 0 {
        lemma_compared_sent(st, hashes, t - 1);
    }
}

/// Two simulations that differ do not play on: a peer hash that disagrees with
/// ours stops the link.
pub proof fn a_desync_stops_the_link(st: Net, hashes: Seq<u64>, tick: u32)
    requires
        tick < hashes.len(),
        st.peer_hashes.contains_key(tick),
        st.peer_hashes[tick] != hashes[tick as int],
    ensures
        link::compared(st, hashes, hashes.len() as int).failure is Some,
        st.failure is None ==> (link::compared(st, hashes, hashes.len() as int).failure matches Some(
            f,
        ) && f is Desync),
{
    assert(link::differs(st, hashes, hashes.len() as int));
    lemma_compared_failure(st, hashes, hashes.len() as int);
    if st.failure is None {
        lemma_only_desync(st, hashes, hashes.len() as int);
    }
}

proof fn lemma_only_desync(st: Net, hashes: Seq<u64>, t: int)
    requires
        st.failure is None,
    ensures
        link::compared(st, hashes, t).failure matches Some(f) ==> f is Desync,
    decreases t,
{
    if t > 0 {
        lemma_only_desync(st, hashes, t - 1);
    }
}

} // verus!
